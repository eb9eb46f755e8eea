//! The shape of a directory map: walks from a directory up through its parents, the
//! pre-order of the directories below one, and sums over them.
use vstd::prelude::*;

use crate::tree::DirNode;

verus! {

/// Whether a walk up from `x` goes on to its parent: `x` is a directory with a parent and
/// is not where the walk is told to stop.
pub open spec fn steps_up(nodes: Map<u64, DirNode>, x: u64, stop: Option<u64>) -> bool {
    &&& stop != Some(x)
    &&& nodes.contains_key(x)
    &&& nodes[x].parent != 0
}

/// The walk up from `x` ends within `n` steps.
pub open spec fn walk_ends(nodes: Map<u64, DirNode>, x: u64, stop: Option<u64>, n: nat) -> bool
    decreases n,
{
    n > 0 && (steps_up(nodes, x, stop) ==> walk_ends(nodes, nodes[x].parent, stop, (n - 1) as nat))
}

/// The directories that a walk up from `x` visits, `x` first, within `n` steps.
pub open spec fn walk(nodes: Map<u64, DirNode>, x: u64, stop: Option<u64>, n: nat) -> Seq<u64>
    decreases n,
{
    if n == 0 {
        Seq::empty()
    } else if steps_up(nodes, x, stop) {
        seq![x] + walk(nodes, nodes[x].parent, stop, (n - 1) as nat)
    } else {
        seq![x]
    }
}

/// The walk up from `x` ends.
pub open spec fn walk_terminates(nodes: Map<u64, DirNode>, x: u64, stop: Option<u64>) -> bool {
    exists|n: nat| walk_ends(nodes, x, stop, n)
}

/// The directories that the walk up from `x` visits, when it ends.
pub open spec fn walk_up(nodes: Map<u64, DirNode>, x: u64, stop: Option<u64>) -> Seq<u64> {
    walk(nodes, x, stop, choose|n: nat| walk_ends(nodes, x, stop, n))
}

pub proof fn lemma_walk_fuel(nodes: Map<u64, DirNode>, x: u64, stop: Option<u64>, n: nat, m: nat)
    requires
        walk_ends(nodes, x, stop, n),
        n <= m,
    ensures
        walk_ends(nodes, x, stop, m),
        walk(nodes, x, stop, n) == walk(nodes, x, stop, m),
    decreases n,
{
    if steps_up(nodes, x, stop) {
        lemma_walk_fuel(nodes, nodes[x].parent, stop, (n - 1) as nat, (m - 1) as nat);
    }
}

/// A walk that ends is the one that any long enough fuel gives.
pub proof fn lemma_walk_up(nodes: Map<u64, DirNode>, x: u64, stop: Option<u64>, n: nat)
    requires
        walk_ends(nodes, x, stop, n),
    ensures
        walk_terminates(nodes, x, stop),
        walk_up(nodes, x, stop) == walk(nodes, x, stop, n),
{
    let k = choose|k: nat| walk_ends(nodes, x, stop, k);
    if k <= n {
        lemma_walk_fuel(nodes, x, stop, k, n);
    } else {
        lemma_walk_fuel(nodes, x, stop, n, k);
    }
}

/// Basic facts about a walk: it starts at `x`, every step but the last goes up, and the last
/// does not.
pub proof fn lemma_walk_shape(nodes: Map<u64, DirNode>, x: u64, stop: Option<u64>, n: nat)
    requires
        walk_ends(nodes, x, stop, n),
    ensures
        walk(nodes, x, stop, n).len() >= 1,
        walk(nodes, x, stop, n)[0] == x,
        !steps_up(nodes, walk(nodes, x, stop, n).last(), stop),
        forall|i: int|
            0 <= i < walk(nodes, x, stop, n).len() - 1 ==> steps_up(
                nodes,
                #[trigger] walk(nodes, x, stop, n)[i],
                stop,
            ) && nodes[walk(nodes, x, stop, n)[i]].parent == walk(nodes, x, stop, n)[i + 1],
    decreases n,
{
    if steps_up(nodes, x, stop) {
        let p = nodes[x].parent;
        lemma_walk_shape(nodes, p, stop, (n - 1) as nat);
        let rest = walk(nodes, p, stop, (n - 1) as nat);
        let w = walk(nodes, x, stop, n);
        assert(w == seq![x] + rest);
        assert forall|i: int| 0 <= i < w.len() - 1 implies steps_up(nodes, #[trigger] w[i], stop)
            && nodes[w[i]].parent == w[i + 1] by {
            if i > 0 {
                assert(w[i] == rest[i - 1]);
                assert(w[i + 1] == rest[i]);
            }
        }
    }
}

/// The walk from the entry at `i` of a walk is the rest of that walk.
pub proof fn lemma_walk_suffix(nodes: Map<u64, DirNode>, x: u64, stop: Option<u64>, n: nat, i: int)
    requires
        walk_ends(nodes, x, stop, n),
        0 <= i < walk(nodes, x, stop, n).len(),
    ensures
        i < n,
        walk_ends(nodes, walk(nodes, x, stop, n)[i], stop, (n - i) as nat),
        walk(nodes, walk(nodes, x, stop, n)[i], stop, (n - i) as nat) == walk(
            nodes,
            x,
            stop,
            n,
        ).skip(i),
    decreases i,
{
    let w = walk(nodes, x, stop, n);
    lemma_walk_shape(nodes, x, stop, n);
    if i == 0 {
        assert(w.skip(0) =~= w);
    } else {
        assert(steps_up(nodes, x, stop));
        let p = nodes[x].parent;
        let rest = walk(nodes, p, stop, (n - 1) as nat);
        assert(w == seq![x] + rest);
        assert(rest[i - 1] == w[i]);
        lemma_walk_suffix(nodes, p, stop, (n - 1) as nat, i - 1);
        assert(rest.skip(i - 1) =~= w.skip(i));
    }
}

/// A walk that ends never visits a directory twice.
pub proof fn lemma_walk_distinct(nodes: Map<u64, DirNode>, x: u64, stop: Option<u64>, n: nat)
    requires
        walk_ends(nodes, x, stop, n),
    ensures
        walk(nodes, x, stop, n).no_duplicates(),
    decreases n,
{
    let w = walk(nodes, x, stop, n);
    if steps_up(nodes, x, stop) {
        let p = nodes[x].parent;
        let r = walk(nodes, p, stop, (n - 1) as nat);
        lemma_walk_distinct(nodes, p, stop, (n - 1) as nat);
        assert(w == seq![x] + r);
        if r.contains(x) {
            let m = choose|m: int| 0 <= m < r.len() && r[m] == x;
            lemma_walk_suffix(nodes, p, stop, (n - 1) as nat, m);
            let from_x = walk(nodes, x, stop, (n - 1 - m) as nat);
            assert(from_x == r.skip(m));
            let again = walk(nodes, p, stop, (n - 2 - m) as nat);
            assert(from_x == seq![x] + again);
            lemma_walk_fuel(nodes, p, stop, (n - 2 - m) as nat, (n - 1) as nat);
            assert(again.len() == r.len() - m - 1);
            assert(false);
        }
        assert forall|i: int, j: int| 0 <= i < j < w.len() implies w[i] != w[j] by {
            if i == 0 {
                assert(w[j] == r[j - 1]);
            } else {
                assert(w[i] == r[i - 1] && w[j] == r[j - 1]);
            }
        }
    }
}

/// A walk that ends takes at most as many steps up as there are directories.
pub proof fn lemma_walk_len_bound(nodes: Map<u64, DirNode>, x: u64, stop: Option<u64>, n: nat)
    requires
        walk_ends(nodes, x, stop, n),
        nodes.dom().finite(),
    ensures
        walk(nodes, x, stop, n).len() <= nodes.dom().len() + 1,
{
    let w = walk(nodes, x, stop, n);
    lemma_walk_shape(nodes, x, stop, n);
    lemma_walk_distinct(nodes, x, stop, n);
    let front = w.drop_last();
    assert(front.no_duplicates()) by {
        assert forall|i: int, j: int| 0 <= i < j < front.len() implies front[i] != front[j] by {
            assert(front[i] == w[i] && front[j] == w[j]);
        }
    }
    front.unique_seq_to_set();
    assert(front.to_set().subset_of(nodes.dom())) by {
        assert forall|y: u64| front.to_set().contains(y) implies nodes.dom().contains(y) by {
            let i = choose|i: int| 0 <= i < front.len() && front[i] == y;
            assert(w[i] == y);
            assert(steps_up(nodes, w[i], stop));
        }
    }
    vstd::set_lib::lemma_len_subset(front.to_set(), nodes.dom());
}

/// The value recorded for `k`, or 0.
pub open spec fn get_or_zero(sizes: Map<u64, u64>, k: u64) -> int {
    if sizes.contains_key(k) {
        sizes[k] as int
    } else {
        0
    }
}

/// `sizes` with `delta` added to the entry of each directory of `chain`, in order.
pub open spec fn add_along(sizes: Map<u64, u64>, chain: Seq<u64>, delta: u64) -> Map<u64, u64>
    decreases chain.len(),
{
    if chain.len() == 0 {
        sizes
    } else {
        let before = add_along(sizes, chain.drop_last(), delta);
        before.insert(chain.last(), (get_or_zero(before, chain.last()) + delta) as u64)
    }
}

/// No addition of `add_along` goes past `u64::MAX`.
pub open spec fn add_along_fits(sizes: Map<u64, u64>, chain: Seq<u64>, delta: u64) -> bool
    decreases chain.len(),
{
    chain.len() == 0 || (add_along_fits(sizes, chain.drop_last(), delta) && get_or_zero(
        add_along(sizes, chain.drop_last(), delta),
        chain.last(),
    ) + delta <= u64::MAX)
}

} // verus!

verus! {

/// The subdirectories listed under `x` (none when `x` is not a directory of the map).
pub open spec fn children_of(nodes: Map<u64, DirNode>, x: u64) -> Seq<u64> {
    if nodes.contains_key(x) {
        nodes[x].children@
    } else {
        Seq::empty()
    }
}

/// Every chain of subdirectories below `x` is shorter than `n`: no cycle is reachable.
pub open spec fn bounded(nodes: Map<u64, DirNode>, x: u64, n: nat) -> bool
    decreases n, 0nat,
{
    n > 0 && all_bounded(nodes, children_of(nodes, x), (n - 1) as nat)
}

/// Every directory of `s` is bounded by `n`.
pub open spec fn all_bounded(nodes: Map<u64, DirNode>, s: Seq<u64>, n: nat) -> bool
    decreases n, s.len() + 1,
{
    s.len() == 0 || (bounded(nodes, s.last(), n) && all_bounded(nodes, s.drop_last(), n))
}

pub proof fn lemma_all_bounded(nodes: Map<u64, DirNode>, s: Seq<u64>, n: nat)
    ensures
        all_bounded(nodes, s, n) <==> forall|i: int| 0 <= i < s.len() ==> #[trigger] bounded(nodes, s[i], n),
    decreases s.len(),
{
    if s.len() > 0 {
        lemma_all_bounded(nodes, s.drop_last(), n);
        if forall|i: int| 0 <= i < s.len() ==> #[trigger] bounded(nodes, s[i], n) {
            assert(bounded(nodes, s[s.len() - 1], n));
            assert forall|i: int| 0 <= i < s.drop_last().len() implies #[trigger] bounded(nodes, s.drop_last()[i], n) by {
                assert(s.drop_last()[i] == s[i]);
            }
        }
        if all_bounded(nodes, s, n) {
            assert forall|i: int| 0 <= i < s.len() implies #[trigger] bounded(nodes, s[i], n) by {
                if i < s.len() - 1 {
                    assert(s.drop_last()[i] == s[i]);
                }
            }
        }
    }
}

/// The directories below `x`, `x` first, each before its subdirectories, which come last
/// listed first (the order of a stack).
pub open spec fn pre(nodes: Map<u64, DirNode>, x: u64, n: nat) -> Seq<u64>
    decreases n, 0nat,
{
    if n == 0 {
        seq![x]
    } else {
        seq![x] + pre_stack(nodes, children_of(nodes, x), (n - 1) as nat)
    }
}

/// The pre-orders of the directories of a stack, top (last) first.
pub open spec fn pre_stack(nodes: Map<u64, DirNode>, s: Seq<u64>, n: nat) -> Seq<u64>
    decreases n, s.len() + 1,
{
    if s.len() == 0 {
        Seq::empty()
    } else {
        pre(nodes, s.last(), n) + pre_stack(nodes, s.drop_last(), n)
    }
}

/// The sum of `weight` over the directories below `x`, counting `x`; a directory listed twice
/// counts twice.
pub open spec fn total(
    nodes: Map<u64, DirNode>,
    x: u64,
    n: nat,
    weight: spec_fn(DirNode) -> int,
) -> int
    decreases n, 0nat,
{
    if n == 0 || !nodes.contains_key(x) {
        0
    } else {
        weight(nodes[x]) + total_stack(nodes, nodes[x].children@, (n - 1) as nat, weight)
    }
}

/// The sum of `total` over the directories of `s`.
pub open spec fn total_stack(
    nodes: Map<u64, DirNode>,
    s: Seq<u64>,
    n: nat,
    weight: spec_fn(DirNode) -> int,
) -> int
    decreases n, s.len() + 1,
{
    if s.len() == 0 {
        0
    } else {
        total(nodes, s.last(), n, weight) + total_stack(nodes, s.drop_last(), n, weight)
    }
}

/// No cycle is reachable from `x`.
pub open spec fn acyclic_below(nodes: Map<u64, DirNode>, x: u64) -> bool {
    exists|n: nat| bounded(nodes, x, n)
}

/// A bound on the depth below `x`, when it has one.
pub open spec fn depth_bound(nodes: Map<u64, DirNode>, x: u64) -> nat {
    choose|n: nat| bounded(nodes, x, n)
}

/// The directories below `x` in pre-order.
pub open spec fn subtree_order(nodes: Map<u64, DirNode>, x: u64) -> Seq<u64> {
    pre(nodes, x, depth_bound(nodes, x))
}

/// The sum of `weight` over the directories below `x`.
pub open spec fn subtree_total(
    nodes: Map<u64, DirNode>,
    x: u64,
    weight: spec_fn(DirNode) -> int,
) -> int {
    total(nodes, x, depth_bound(nodes, x), weight)
}

/// A weight that is never negative.
pub open spec fn nonnegative(weight: spec_fn(DirNode) -> int) -> bool {
    forall|d: DirNode| #[trigger] weight(d) >= 0
}

pub proof fn lemma_bounded_monotone(nodes: Map<u64, DirNode>, x: u64, n: nat, m: nat)
    requires
        bounded(nodes, x, n),
        n <= m,
    ensures
        bounded(nodes, x, m),
    decreases n, 0nat,
{
    lemma_all_bounded_monotone(nodes, children_of(nodes, x), (n - 1) as nat, (m - 1) as nat);
}

pub proof fn lemma_all_bounded_monotone(nodes: Map<u64, DirNode>, s: Seq<u64>, n: nat, m: nat)
    requires
        all_bounded(nodes, s, n),
        n <= m,
    ensures
        all_bounded(nodes, s, m),
    decreases n, s.len() + 1,
{
    if s.len() > 0 {
        lemma_bounded_monotone(nodes, s.last(), n, m);
        lemma_all_bounded_monotone(nodes, s.drop_last(), n, m);
    }
}

pub proof fn lemma_pre_fuel(nodes: Map<u64, DirNode>, x: u64, n: nat, m: nat, weight: spec_fn(DirNode) -> int)
    requires
        bounded(nodes, x, n),
        n <= m,
    ensures
        pre(nodes, x, n) == pre(nodes, x, m),
        total(nodes, x, n, weight) == total(nodes, x, m, weight),
    decreases n, 0nat,
{
    let ch = children_of(nodes, x);
    lemma_stack_fuel(nodes, ch, (n - 1) as nat, (m - 1) as nat, weight);
}

pub proof fn lemma_stack_fuel(
    nodes: Map<u64, DirNode>,
    s: Seq<u64>,
    n: nat,
    m: nat,
    weight: spec_fn(DirNode) -> int,
)
    requires
        all_bounded(nodes, s, n),
        n <= m,
    ensures
        pre_stack(nodes, s, n) == pre_stack(nodes, s, m),
        total_stack(nodes, s, n, weight) == total_stack(nodes, s, m, weight),
    decreases n, s.len() + 1,
{
    if s.len() > 0 {
        lemma_pre_fuel(nodes, s.last(), n, m, weight);
        lemma_stack_fuel(nodes, s.drop_last(), n, m, weight);
    }
}

/// The canonical pre-order and total of `x` are those of any fuel that bounds it.
pub proof fn lemma_canonical(nodes: Map<u64, DirNode>, x: u64, n: nat, weight: spec_fn(DirNode) -> int)
    requires
        bounded(nodes, x, n),
    ensures
        acyclic_below(nodes, x),
        subtree_order(nodes, x) == pre(nodes, x, n),
        subtree_total(nodes, x, weight) == total(nodes, x, n, weight),
{
    let k = depth_bound(nodes, x);
    assert(bounded(nodes, x, k));
    if k <= n {
        lemma_pre_fuel(nodes, x, k, n, weight);
    } else {
        lemma_pre_fuel(nodes, x, n, k, weight);
    }
}

/// The stack order of `a + b` takes `b` first.
pub proof fn lemma_pre_stack_append(nodes: Map<u64, DirNode>, a: Seq<u64>, b: Seq<u64>, n: nat)
    ensures
        pre_stack(nodes, a + b, n) == pre_stack(nodes, b, n) + pre_stack(nodes, a, n),
    decreases b.len(),
{
    if b.len() == 0 {
        assert(a + b =~= a);
        assert(pre_stack(nodes, b, n) + pre_stack(nodes, a, n) =~= pre_stack(nodes, a, n));
    } else {
        assert((a + b).drop_last() =~= a + b.drop_last());
        assert((a + b).last() == b.last());
        lemma_pre_stack_append(nodes, a, b.drop_last(), n);
        assert(pre_stack(nodes, a + b, n) =~= pre_stack(nodes, b, n) + pre_stack(nodes, a, n));
    }
}

} // verus!

verus! {

/// In `s`, the `k`-th subdirectory of the directory at `i` comes somewhere after it.
pub open spec fn listed_after(nodes: Map<u64, DirNode>, s: Seq<u64>, i: int, k: int) -> bool {
    exists|j: int| i < j < s.len() && #[trigger] s[j] == children_of(nodes, s[i])[k]
}

/// In `s`, every subdirectory of a directory comes somewhere after it.
pub open spec fn children_follow(nodes: Map<u64, DirNode>, s: Seq<u64>) -> bool {
    forall|i: int, k: int|
        0 <= i < s.len() && 0 <= k < children_of(nodes, s[i]).len() ==> #[trigger] listed_after(
            nodes,
            s,
            i,
            k,
        )
}

pub proof fn lemma_pre_first(nodes: Map<u64, DirNode>, x: u64, n: nat)
    ensures
        pre(nodes, x, n).len() >= 1,
        pre(nodes, x, n)[0] == x,
{
}

/// Each directory of a stack appears in its order.
pub proof fn lemma_stack_contains(nodes: Map<u64, DirNode>, s: Seq<u64>, n: nat)
    ensures
        forall|k: int| 0 <= k < s.len() ==> pre_stack(nodes, s, n).contains(#[trigger] s[k]),
    decreases s.len(),
{
    if s.len() > 0 {
        lemma_stack_contains(nodes, s.drop_last(), n);
        lemma_pre_first(nodes, s.last(), n);
        let a = pre(nodes, s.last(), n);
        let b = pre_stack(nodes, s.drop_last(), n);
        assert(pre_stack(nodes, s, n) == a + b);
        assert forall|k: int| 0 <= k < s.len() implies pre_stack(nodes, s, n).contains(#[trigger] s[k]) by {
            if k == s.len() - 1 {
                assert((a + b)[0] == s[k]);
            } else {
                assert(s.drop_last()[k] == s[k]);
                let j = choose|j: int| 0 <= j < b.len() && b[j] == s[k];
                assert((a + b)[a.len() + j] == s[k]);
            }
        }
    }
}

pub proof fn lemma_children_follow_append(nodes: Map<u64, DirNode>, a: Seq<u64>, b: Seq<u64>)
    requires
        children_follow(nodes, a),
        children_follow(nodes, b),
    ensures
        children_follow(nodes, a + b),
{
    let s = a + b;
    assert forall|i: int, k: int|
        0 <= i < s.len() && 0 <= k < children_of(nodes, s[i]).len() implies #[trigger] listed_after(
            nodes,
            s,
            i,
            k,
        ) by {
        if i < a.len() {
            assert(s[i] == a[i]);
            assert(listed_after(nodes, a, i, k));
            let j = choose|j: int| i < j < a.len() && #[trigger] a[j] == children_of(nodes, a[i])[k];
            assert(s[j] == a[j]);
        } else {
            let ib = i - a.len();
            assert(s[i] == b[ib]);
            assert(listed_after(nodes, b, ib, k));
            let j = choose|j: int| ib < j < b.len() && #[trigger] b[j] == children_of(nodes, b[ib])[k];
            assert(s[a.len() + j] == b[j]);
        }
    }
    assert(children_follow(nodes, s));
}

/// The pre-order of a bounded directory lists every subdirectory after its parent.
pub proof fn lemma_pre_children_follow(nodes: Map<u64, DirNode>, x: u64, n: nat)
    requires
        bounded(nodes, x, n),
    ensures
        children_follow(nodes, pre(nodes, x, n)),
    decreases n, 0nat,
{
    let ch = children_of(nodes, x);
    let rest = pre_stack(nodes, ch, (n - 1) as nat);
    lemma_stack_children_follow(nodes, ch, (n - 1) as nat);
    lemma_stack_contains(nodes, ch, (n - 1) as nat);
    let s = pre(nodes, x, n);
    assert(s == seq![x] + rest);
    assert forall|i: int, k: int|
        0 <= i < s.len() && 0 <= k < children_of(nodes, s[i]).len() implies #[trigger] listed_after(
            nodes,
            s,
            i,
            k,
        ) by {
        if i == 0 {
            assert(s[0] == x);
            let c = ch[k];
            assert(rest.contains(c));
            let j = choose|j: int| 0 <= j < rest.len() && rest[j] == c;
            assert(s[j + 1] == rest[j]);
        } else {
            let ir = i - 1;
            assert(s[i] == rest[ir]);
            assert(listed_after(nodes, rest, ir, k));
            let j = choose|j: int|
                ir < j < rest.len() && #[trigger] rest[j] == children_of(nodes, rest[ir])[k];
            assert(s[j + 1] == rest[j]);
        }
    }
}

pub proof fn lemma_stack_children_follow(nodes: Map<u64, DirNode>, s: Seq<u64>, n: nat)
    requires
        all_bounded(nodes, s, n),
    ensures
        children_follow(nodes, pre_stack(nodes, s, n)),
    decreases n, s.len() + 1,
{
    if s.len() == 0 {
        assert(children_follow(nodes, pre_stack(nodes, s, n)));
    } else {
        lemma_pre_children_follow(nodes, s.last(), n);
        lemma_stack_children_follow(nodes, s.drop_last(), n);
        lemma_children_follow_append(nodes, pre(nodes, s.last(), n), pre_stack(nodes, s.drop_last(), n));
    }
}

/// Every directory in the pre-order of a bounded directory is bounded too.
pub proof fn lemma_pre_members_bounded(nodes: Map<u64, DirNode>, x: u64, n: nat)
    requires
        bounded(nodes, x, n),
    ensures
        forall|y: u64| pre(nodes, x, n).contains(y) ==> bounded(nodes, y, n),
    decreases n, 0nat,
{
    let ch = children_of(nodes, x);
    let rest = pre_stack(nodes, ch, (n - 1) as nat);
    lemma_stack_members_bounded(nodes, ch, (n - 1) as nat);
    assert(pre(nodes, x, n) == seq![x] + rest);
    assert forall|y: u64| pre(nodes, x, n).contains(y) implies bounded(nodes, y, n) by {
        if y != x {
            let j = choose|j: int| 0 <= j < pre(nodes, x, n).len() && pre(nodes, x, n)[j] == y;
            assert(rest[j - 1] == y);
            lemma_bounded_monotone(nodes, y, (n - 1) as nat, n);
        }
    }
}

pub proof fn lemma_stack_members_bounded(nodes: Map<u64, DirNode>, s: Seq<u64>, n: nat)
    requires
        all_bounded(nodes, s, n),
    ensures
        forall|y: u64| pre_stack(nodes, s, n).contains(y) ==> bounded(nodes, y, n),
    decreases n, s.len() + 1,
{
    if s.len() > 0 {
        let a = pre(nodes, s.last(), n);
        let b = pre_stack(nodes, s.drop_last(), n);
        lemma_pre_members_bounded(nodes, s.last(), n);
        lemma_stack_members_bounded(nodes, s.drop_last(), n);
        assert forall|y: u64| (a + b).contains(y) implies bounded(nodes, y, n) by {
            let j = choose|j: int| 0 <= j < (a + b).len() && (a + b)[j] == y;
            if j < a.len() {
                assert(a[j] == y);
            } else {
                assert(b[j - a.len()] == y);
            }
        }
    }
}

pub proof fn lemma_total_nonnegative(
    nodes: Map<u64, DirNode>,
    x: u64,
    n: nat,
    weight: spec_fn(DirNode) -> int,
)
    requires
        nonnegative(weight),
    ensures
        total(nodes, x, n, weight) >= 0,
    decreases n, 0nat,
{
    if n > 0 && nodes.contains_key(x) {
        assert(weight(nodes[x]) >= 0);
        lemma_total_stack_nonnegative(nodes, nodes[x].children@, (n - 1) as nat, weight);
    }
}

pub proof fn lemma_total_stack_nonnegative(
    nodes: Map<u64, DirNode>,
    s: Seq<u64>,
    n: nat,
    weight: spec_fn(DirNode) -> int,
)
    requires
        nonnegative(weight),
    ensures
        total_stack(nodes, s, n, weight) >= 0,
    decreases n, s.len() + 1,
{
    if s.len() > 0 {
        lemma_total_nonnegative(nodes, s.last(), n, weight);
        lemma_total_stack_nonnegative(nodes, s.drop_last(), n, weight);
    }
}

/// A directory below `x` sums to no more than `x` does.
pub proof fn lemma_pre_total_bound(
    nodes: Map<u64, DirNode>,
    x: u64,
    n: nat,
    weight: spec_fn(DirNode) -> int,
)
    requires
        nonnegative(weight),
        bounded(nodes, x, n),
    ensures
        forall|y: u64|
            pre(nodes, x, n).contains(y) ==> total(nodes, y, n, weight) <= total(nodes, x, n, weight),
    decreases n, 0nat,
{
    let ch = children_of(nodes, x);
    let rest = pre_stack(nodes, ch, (n - 1) as nat);
    lemma_stack_total_bound(nodes, ch, (n - 1) as nat, weight);
    lemma_stack_members_bounded(nodes, ch, (n - 1) as nat);
    assert(pre(nodes, x, n) == seq![x] + rest);
    assert forall|y: u64|
        pre(nodes, x, n).contains(y) implies total(nodes, y, n, weight) <= total(nodes, x, n, weight) by {
        if y != x {
            let j = choose|j: int| 0 <= j < pre(nodes, x, n).len() && pre(nodes, x, n)[j] == y;
            assert(rest[j - 1] == y);
            assert(rest.contains(y));
            assert(bounded(nodes, y, (n - 1) as nat));
            assert(total(nodes, y, (n - 1) as nat, weight) <= total_stack(nodes, ch, (n - 1) as nat, weight));
            lemma_pre_fuel(nodes, y, (n - 1) as nat, n, weight);
            if nodes.contains_key(x) {
                assert(weight(nodes[x]) >= 0);
            }
        }
    }
}

pub proof fn lemma_stack_total_bound(
    nodes: Map<u64, DirNode>,
    s: Seq<u64>,
    n: nat,
    weight: spec_fn(DirNode) -> int,
)
    requires
        nonnegative(weight),
        all_bounded(nodes, s, n),
    ensures
        forall|y: u64|
            pre_stack(nodes, s, n).contains(y) ==> total(nodes, y, n, weight) <= total_stack(
                nodes,
                s,
                n,
                weight,
            ),
    decreases n, s.len() + 1,
{
    if s.len() > 0 {
        let a = pre(nodes, s.last(), n);
        let b = pre_stack(nodes, s.drop_last(), n);
        lemma_pre_total_bound(nodes, s.last(), n, weight);
        lemma_stack_total_bound(nodes, s.drop_last(), n, weight);
        lemma_total_nonnegative(nodes, s.last(), n, weight);
        lemma_total_stack_nonnegative(nodes, s.drop_last(), n, weight);
        assert forall|y: u64| (a + b).contains(y) implies total(nodes, y, n, weight) <= total_stack(
            nodes,
            s,
            n,
            weight,
        ) by {
            let j = choose|j: int| 0 <= j < (a + b).len() && (a + b)[j] == y;
            if j < a.len() {
                assert(a[j] == y);
                assert(a.contains(y));
            } else {
                assert(b[j - a.len()] == y);
                assert(b.contains(y));
            }
        }
    }
}

} // verus!

verus! {

/// The sum of the values recorded for the directories of `s` (0 for one without a value).
pub open spec fn sum_recorded(sizes: Map<u64, u64>, s: Seq<u64>) -> int
    decreases s.len(),
{
    if s.len() == 0 {
        0
    } else {
        sum_recorded(sizes, s.drop_last()) + get_or_zero(sizes, s.last())
    }
}

pub proof fn lemma_sum_recorded_prefix(sizes: Map<u64, u64>, s: Seq<u64>, j: int)
    requires
        0 <= j <= s.len(),
    ensures
        0 <= sum_recorded(sizes, s.take(j)) <= sum_recorded(sizes, s),
    decreases s.len() - j,
{
    if j < s.len() {
        lemma_sum_recorded_prefix(sizes, s, j + 1);
        lemma_sum_recorded_nonnegative(sizes, s.take(j));
        assert(s.take(j + 1).drop_last() =~= s.take(j));
    } else {
        assert(s.take(j) =~= s);
        lemma_sum_recorded_nonnegative(sizes, s);
    }
}

pub proof fn lemma_sum_recorded_nonnegative(sizes: Map<u64, u64>, s: Seq<u64>)
    ensures
        sum_recorded(sizes, s) >= 0,
    decreases s.len(),
{
    if s.len() > 0 {
        lemma_sum_recorded_nonnegative(sizes, s.drop_last());
    }
}

/// When each directory of `s` has its total recorded, the recorded values add up to the
/// total of the stack.
pub proof fn lemma_sum_recorded_total(
    nodes: Map<u64, DirNode>,
    sizes: Map<u64, u64>,
    s: Seq<u64>,
    n: nat,
    weight: spec_fn(DirNode) -> int,
)
    requires
        forall|i: int| 0 <= i < s.len() ==> get_or_zero(sizes, #[trigger] s[i]) == total(nodes, s[i], n, weight),
    ensures
        sum_recorded(sizes, s) == total_stack(nodes, s, n, weight),
    decreases s.len(),
{
    if s.len() > 0 {
        assert forall|i: int| 0 <= i < s.drop_last().len() implies get_or_zero(
            sizes,
            #[trigger] s.drop_last()[i],
        ) == total(nodes, s.drop_last()[i], n, weight) by {
            assert(s.drop_last()[i] == s[i]);
        }
        lemma_sum_recorded_total(nodes, sizes, s.drop_last(), n, weight);
        assert(get_or_zero(sizes, s[s.len() - 1]) == total(nodes, s[s.len() - 1], n, weight));
    }
}

/// For each directory below `root`, the sum of `weight` over the directories below it.
pub open spec fn sums_below(
    nodes: Map<u64, DirNode>,
    root: u64,
    weight: spec_fn(DirNode) -> int,
) -> Map<u64, u64> {
    Map::new(
        |k: u64| nodes.contains_key(k) && subtree_order(nodes, root).contains(k),
        |k: u64| subtree_total(nodes, k, weight) as u64,
    )
}

} // verus!

verus! {

/// What `add_along` does on a prefix of a chain that fits also fits.
pub proof fn lemma_add_along_fits_prefix(sizes: Map<u64, u64>, chain: Seq<u64>, delta: u64, j: int)
    requires
        add_along_fits(sizes, chain, delta),
        0 <= j <= chain.len(),
    ensures
        add_along_fits(sizes, chain.take(j), delta),
    decreases chain.len() - j,
{
    if j < chain.len() {
        lemma_add_along_fits_prefix(sizes, chain, delta, j + 1);
        assert(chain.take(j + 1).drop_last() =~= chain.take(j));
    } else {
        assert(chain.take(j) =~= chain);
    }
}

/// Outside `id`, the two maps agree on which directories have a parent and on what it is.
pub open spec fn parents_agree_except(a: Map<u64, DirNode>, b: Map<u64, DirNode>, id: u64) -> bool {
    forall|x: u64|
        x != id ==> (steps_up(a, x, None) == steps_up(b, x, None)) && (steps_up(a, x, None)
            ==> #[trigger] a[x].parent == b[x].parent)
}

/// A walk that never meets `id` is the same in two maps that agree outside `id`.
#[verifier::spinoff_prover]
pub proof fn lemma_walk_agree(a: Map<u64, DirNode>, b: Map<u64, DirNode>, id: u64, x: u64, n: nat)
    requires
        parents_agree_except(a, b, id),
        walk_ends(a, x, None, n),
        !walk(a, x, None, n).contains(id),
    ensures
        walk_ends(b, x, None, n),
        walk(b, x, None, n) == walk(a, x, None, n),
    decreases n,
{
    assert(walk(a, x, None, n)[0] == x) by {
        lemma_walk_shape(a, x, None, n);
    }
    assert(x != id);
    assert(steps_up(a, x, None) == steps_up(b, x, None));
    if steps_up(a, x, None) {
        assert(a[x].parent == b[x].parent);
        let p = a[x].parent;
        let rest = walk(a, p, None, (n - 1) as nat);
        assert(walk(a, x, None, n) == seq![x] + rest);
        assert forall|i: int| 0 <= i < rest.len() implies rest[i] != id by {
            assert(walk(a, x, None, n)[i + 1] == rest[i]);
        }
        lemma_walk_agree(a, b, id, p, (n - 1) as nat);
    }
}

} // verus!

verus! {

/// Adding along a chain leaves the entry of a directory off the chain as it was.
pub proof fn lemma_add_along_elsewhere(sizes: Map<u64, u64>, chain: Seq<u64>, delta: u64, x: u64)
    requires
        !chain.contains(x),
    ensures
        get_or_zero(add_along(sizes, chain, delta), x) == get_or_zero(sizes, x),
    decreases chain.len(),
{
    if chain.len() > 0 {
        assert(!chain.drop_last().contains(x)) by {
            if chain.drop_last().contains(x) {
                let i = choose|i: int| 0 <= i < chain.drop_last().len() && chain.drop_last()[i] == x;
                assert(chain[i] == x);
            }
        }
        lemma_add_along_elsewhere(sizes, chain.drop_last(), delta, x);
    }
}

/// When a chain has no repeats and each of its entries has room for `delta`, adding along it
/// does not overflow.
pub proof fn lemma_add_along_fits_distinct(sizes: Map<u64, u64>, chain: Seq<u64>, delta: u64)
    requires
        forall|i: int, j: int| 0 <= i < j < chain.len() ==> chain[i] != chain[j],
        forall|i: int| 0 <= i < chain.len() ==> get_or_zero(sizes, #[trigger] chain[i]) + delta <= u64::MAX,
    ensures
        add_along_fits(sizes, chain, delta),
    decreases chain.len(),
{
    if chain.len() > 0 {
        let init = chain.drop_last();
        assert forall|i: int| 0 <= i < init.len() implies get_or_zero(sizes, #[trigger] init[i]) + delta
            <= u64::MAX by {
            assert(init[i] == chain[i]);
        }
        lemma_add_along_fits_distinct(sizes, init, delta);
        assert(!init.contains(chain.last())) by {
            if init.contains(chain.last()) {
                let i = choose|i: int| 0 <= i < init.len() && init[i] == chain.last();
                assert(chain[i] == chain[chain.len() - 1]);
            }
        }
        lemma_add_along_elsewhere(sizes, init, delta, chain.last());
        assert(get_or_zero(sizes, chain[chain.len() - 1]) + delta <= u64::MAX);
    }
}

/// When a chain has no repeats and adding along it does not overflow, each of its entries has
/// room for `delta`.
pub proof fn lemma_add_along_fits_each(sizes: Map<u64, u64>, chain: Seq<u64>, delta: u64)
    requires
        chain.no_duplicates(),
        add_along_fits(sizes, chain, delta),
    ensures
        forall|i: int| 0 <= i < chain.len() ==> get_or_zero(sizes, #[trigger] chain[i]) + delta
            <= u64::MAX,
    decreases chain.len(),
{
    if chain.len() > 0 {
        let init = chain.drop_last();
        assert(init.no_duplicates()) by {
            assert forall|i: int, j: int| 0 <= i < j < init.len() implies init[i] != init[j] by {
                assert(init[i] == chain[i] && init[j] == chain[j]);
            }
        }
        lemma_add_along_fits_each(sizes, init, delta);
        assert(!init.contains(chain.last())) by {
            if init.contains(chain.last()) {
                let i = choose|i: int| 0 <= i < init.len() && init[i] == chain.last();
                assert(chain[i] == chain[chain.len() - 1]);
            }
        }
        lemma_add_along_elsewhere(sizes, init, delta, chain.last());
        assert forall|i: int| 0 <= i < chain.len() implies get_or_zero(sizes, #[trigger] chain[i])
            + delta <= u64::MAX by {
            if i < chain.len() - 1 {
                assert(init[i] == chain[i]);
            }
        }
    }
}

/// `n` is the least bound on the chains of subdirectories below `x`.
pub open spec fn least_bound(nodes: Map<u64, DirNode>, x: u64, n: nat) -> bool {
    bounded(nodes, x, n) && (n == 1 || !bounded(nodes, x, (n - 1) as nat))
}

/// A directory has at most one least bound.
proof fn lemma_least_bound_unique(nodes: Map<u64, DirNode>, x: u64, a: nat, b: nat)
    requires
        least_bound(nodes, x, a),
        least_bound(nodes, x, b),
    ensures
        a == b,
{
    if a < b {
        lemma_bounded_monotone(nodes, x, a, (b - 1) as nat);
    } else if b < a {
        lemma_bounded_monotone(nodes, x, b, (a - 1) as nat);
    }
}

/// A bounded directory has a least bound, no larger than the given one.
proof fn lemma_least_bound_exists(nodes: Map<u64, DirNode>, x: u64, n: nat) -> (m: nat)
    requires
        bounded(nodes, x, n),
    ensures
        m <= n,
        least_bound(nodes, x, m),
    decreases n,
{
    if n == 1 || !bounded(nodes, x, (n - 1) as nat) {
        n
    } else {
        lemma_least_bound_exists(nodes, x, (n - 1) as nat)
    }
}

/// A subdirectory of `x` whose least bound is one less than that of `x`.
pub open spec fn deepest_child(nodes: Map<u64, DirNode>, x: u64, n: nat) -> u64 {
    choose|c: u64| children_of(nodes, x).contains(c) && least_bound(nodes, c, (n - 1) as nat)
}

/// When the least bound of `x` is `n` > 1, one of its subdirectories has least bound `n - 1`.
proof fn lemma_deepest_child(nodes: Map<u64, DirNode>, x: u64, n: nat)
    requires
        least_bound(nodes, x, n),
        n > 1,
    ensures
        nodes.contains_key(x),
        children_of(nodes, x).contains(deepest_child(nodes, x, n)),
        least_bound(nodes, deepest_child(nodes, x, n), (n - 1) as nat),
{
    let ch = children_of(nodes, x);
    lemma_all_bounded(nodes, ch, (n - 1) as nat);
    lemma_all_bounded(nodes, ch, (n - 2) as nat);
    let i = choose|i: int| 0 <= i < ch.len() && !bounded(nodes, ch[i], (n - 2) as nat);
    assert(bounded(nodes, ch[i], (n - 1) as nat));
    assert(least_bound(nodes, ch[i], (n - 1) as nat));
    assert(ch.contains(ch[i]));
}

/// The chain of subdirectories from `x` down along least bounds, `n` directories long.
pub open spec fn deepest_chain(nodes: Map<u64, DirNode>, x: u64, n: nat) -> Seq<u64>
    decreases n,
{
    if n <= 1 {
        seq![x]
    } else {
        seq![x] + deepest_chain(nodes, deepest_child(nodes, x, n), (n - 1) as nat)
    }
}

/// Along the chain the least bounds fall by one at each step, and each directory but the
/// last is a directory of the map.
proof fn lemma_deepest_chain(nodes: Map<u64, DirNode>, x: u64, n: nat)
    requires
        least_bound(nodes, x, n),
    ensures
        deepest_chain(nodes, x, n).len() == n,
        forall|j: int|
            0 <= j < n ==> least_bound(nodes, #[trigger] deepest_chain(nodes, x, n)[j], (n - j) as nat),
        forall|j: int| 0 <= j < n - 1 ==> nodes.contains_key(#[trigger] deepest_chain(nodes, x, n)[j]),
    decreases n,
{
    if n > 1 {
        lemma_deepest_child(nodes, x, n);
        let c = deepest_child(nodes, x, n);
        lemma_deepest_chain(nodes, c, (n - 1) as nat);
        let rest = deepest_chain(nodes, c, (n - 1) as nat);
        let w = deepest_chain(nodes, x, n);
        assert(w == seq![x] + rest);
        assert forall|j: int| 0 <= j < n implies least_bound(nodes, #[trigger] w[j], (n - j) as nat) by {
            if j > 0 {
                assert(w[j] == rest[j - 1]);
            }
        }
        assert forall|j: int| 0 <= j < n - 1 implies nodes.contains_key(#[trigger] w[j]) by {
            if j > 0 {
                assert(w[j] == rest[j - 1]);
            }
        }
    } else {
        assert(n == 1 || n == 0);
        assert(bounded(nodes, x, n));
    }
}

/// A directory below which no cycle is reachable is bounded by one more than the number of
/// directories: a chain of subdirectories longer than that would meet some directory twice.
pub proof fn lemma_bounded_by_size(nodes: Map<u64, DirNode>, x: u64, n: nat)
    requires
        bounded(nodes, x, n),
        nodes.dom().finite(),
    ensures
        bounded(nodes, x, nodes.dom().len() + 1),
{
    let m = lemma_least_bound_exists(nodes, x, n);
    lemma_deepest_chain(nodes, x, m);
    let w = deepest_chain(nodes, x, m);
    let front = w.drop_last();
    assert(front.no_duplicates()) by {
        assert forall|a: int, b: int| 0 <= a < b < front.len() implies front[a] != front[b] by {
            assert(front[a] == w[a] && front[b] == w[b]);
            assert(least_bound(nodes, w[a], (m - a) as nat));
            assert(least_bound(nodes, w[b], (m - b) as nat));
            if front[a] == front[b] {
                lemma_least_bound_unique(nodes, w[a], (m - a) as nat, (m - b) as nat);
            }
        }
    }
    front.unique_seq_to_set();
    assert(front.to_set().subset_of(nodes.dom())) by {
        assert forall|y: u64| front.to_set().contains(y) implies nodes.dom().contains(y) by {
            let i = choose|i: int| 0 <= i < front.len() && front[i] == y;
            assert(w[i] == y);
        }
    }
    vstd::set_lib::lemma_len_subset(front.to_set(), nodes.dom());
    lemma_bounded_monotone(nodes, x, m, nodes.dom().len() + 1);
}

/// A prefix of a stack weighs no more than the stack, for a weight that is never negative.
pub proof fn lemma_total_stack_prefix(
    nodes: Map<u64, DirNode>,
    s: Seq<u64>,
    j: int,
    n: nat,
    weight: spec_fn(DirNode) -> int,
)
    requires
        nonnegative(weight),
        0 <= j <= s.len(),
    ensures
        total_stack(nodes, s.take(j), n, weight) <= total_stack(nodes, s, n, weight),
    decreases s.len() - j,
{
    if j < s.len() {
        lemma_total_stack_prefix(nodes, s, j + 1, n, weight);
        assert(s.take(j + 1).drop_last() =~= s.take(j));
        lemma_total_nonnegative(nodes, s[j], n, weight);
    } else {
        assert(s.take(j) =~= s);
    }
}

} // verus!
