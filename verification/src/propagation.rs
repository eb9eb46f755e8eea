//! Why the recursive sizes that `insert_dir` keeps are right. Each one is the total of the
//! direct sizes of the directories whose walk up passes through it, and it is also the direct
//! size of its directory plus the recursive sizes of the listed subdirectories, which is what
//! `recompute_sizes` works out again. Recording a new directory, or a file, keeps both so.
use vstd::prelude::*;

use crate::hierarchy::{
    acyclic_below, depth_bound, lemma_pre_total_bound, nonnegative, pre, pre_stack,
    add_along, add_along_fits, bounded, children_of, get_or_zero, lemma_all_bounded,
    subtree_total, total_stack,
    lemma_canonical, lemma_pre_members_bounded, lemma_sum_recorded_total, lemma_walk_agree,
    lemma_walk_len_bound,
    lemma_walk_distinct, lemma_walk_shape, lemma_walk_up, parents_agree_except, steps_up,
    subtree_order, sum_recorded, sums_below, total, walk, walk_ends, walk_terminates, walk_up,
};
use crate::filter::FilterConfig;
use crate::tree::{
    attach_chain, can_attach, dir_inserted, direct_weight, filtered_weight, listed_children,
    lemma_filtered_weight_nonnegative, matching_size, nodes_with_file, sums_fit, sizes_for,
    DirNode, FileEntry,
};

verus! {

/// Every parent link names 0 or a directory of the map, and every walk up ends.
pub open spec fn parent_links_sound(nodes: Map<u64, DirNode>) -> bool {
    forall|x: u64| #[trigger]
        nodes.contains_key(x) ==> (nodes[x].parent == 0 || nodes.contains_key(nodes[x].parent))
            && walk_terminates(nodes, x, None)
}

/// Adds the direct size of directory `x` to `acc` when the walk up from `x` passes `k`.
pub open spec fn through(nodes: Map<u64, DirNode>, k: u64) -> spec_fn(int, u64) -> int {
    |acc: int, x: u64|
        acc + (if walk_up(nodes, x, None).contains(k) {
            nodes[x].direct_size as int
        } else {
            0
        })
}

/// The total of the direct sizes of the directories whose walk up passes `k`: `k` and
/// everything below it.
pub open spec fn size_through(nodes: Map<u64, DirNode>, k: u64) -> int {
    nodes.dom().fold(0, through(nodes, k))
}

/// Every recorded recursive size (0 when none is recorded) is the total below its directory.
pub open spec fn sizes_roll_up(nodes: Map<u64, DirNode>, sizes: Map<u64, u64>) -> bool {
    forall|k: u64| #[trigger] get_or_zero(sizes, k) == size_through(nodes, k)
}

/// Within a map whose parent links stay inside it, a walk from one of its directories visits
/// only its directories.
proof fn lemma_walk_inside(nodes: Map<u64, DirNode>, x: u64, n: nat)
    requires
        parent_links_sound(nodes),
        nodes.contains_key(x),
        walk_ends(nodes, x, None, n),
    ensures
        forall|i: int| 0 <= i < walk(nodes, x, None, n).len() ==> nodes.contains_key(
            #[trigger] walk(nodes, x, None, n)[i],
        ),
    decreases n,
{
    let w = walk(nodes, x, None, n);
    if steps_up(nodes, x, None) {
        let p = nodes[x].parent;
        lemma_walk_inside(nodes, p, (n - 1) as nat);
        let r = walk(nodes, p, None, (n - 1) as nat);
        assert(w == seq![x] + r);
        assert forall|i: int| 0 <= i < w.len() implies nodes.contains_key(#[trigger] w[i]) by {
            if i > 0 {
                assert(w[i] == r[i - 1]);
            }
        }
    }
}

/// Adding along a chain that names each directory once adds the amount once to each of them.
proof fn lemma_add_along_once(sizes: Map<u64, u64>, chain: Seq<u64>, delta: u64, k: u64)
    requires
        chain.no_duplicates(),
        add_along_fits(sizes, chain, delta),
    ensures
        get_or_zero(add_along(sizes, chain, delta), k) == get_or_zero(sizes, k) + (if chain.contains(
            k,
        ) {
            delta as int
        } else {
            0
        }),
    decreases chain.len(),
{
    if chain.len() > 0 {
        let front = chain.drop_last();
        assert(front.no_duplicates());
        lemma_add_along_once(sizes, front, delta, k);
        lemma_add_along_once(sizes, front, delta, chain.last());
        assert(!front.contains(chain.last()));
        assert(chain == front.push(chain.last()));
        assert(chain.contains(k) == (front.contains(k) || k == chain.last()));
    }
}

/// `through` adds its terms in any order.
proof fn lemma_through_commutes(nodes: Map<u64, DirNode>, k: u64)
    ensures
        vstd::set::fold::is_fun_commutative(through(nodes, k)),
{
    let f = through(nodes, k);
    assert forall|a1: u64, a2: u64, b: int| #[trigger] f(f(b, a2), a1) == f(f(b, a1), a2) by {}
}

/// Folding two functions that agree on every element of a finite set gives the same total.
proof fn lemma_fold_agree(s: Set<u64>, f: spec_fn(int, u64) -> int, g: spec_fn(int, u64) -> int)
    requires
        s.finite(),
        vstd::set::fold::is_fun_commutative(f),
        vstd::set::fold::is_fun_commutative(g),
        forall|b: int, a: u64| #![trigger f(b, a)] s.contains(a) ==> f(b, a) == g(b, a),
    ensures
        s.fold(0, f) == s.fold(0, g),
    decreases s.len(),
{
    if s.len() == 0 {
        assert(s =~= Set::<u64>::empty());
        vstd::set::fold::lemma_fold_empty(0, f);
        vstd::set::fold::lemma_fold_empty(0, g);
    } else {
        let a = s.choose();
        let rest = s.remove(a);
        lemma_fold_agree(rest, f, g);
        assert(rest.insert(a) =~= s);
        vstd::set::fold::lemma_fold_insert(rest, 0, f, a);
        vstd::set::fold::lemma_fold_insert(rest, 0, g, a);
        assert(f(rest.fold(0, f), a) == g(rest.fold(0, f), a));
    }
}

/// A walk is the same in two maps whose directories step up alike, to the same parents.
proof fn lemma_walk_same_links(a: Map<u64, DirNode>, b: Map<u64, DirNode>, x: u64, n: nat)
    requires
        forall|y: u64| #![trigger steps_up(a, y, None)]
            steps_up(a, y, None) == steps_up(b, y, None) && (steps_up(a, y, None) ==> a[y].parent
                == b[y].parent),
        walk_ends(a, x, None, n),
    ensures
        walk_ends(b, x, None, n),
        walk(b, x, None, n) == walk(a, x, None, n),
    decreases n,
{
    assert(steps_up(a, x, None) == steps_up(b, x, None));
    if steps_up(a, x, None) {
        lemma_walk_same_links(a, b, a[x].parent, (n - 1) as nat);
    }
}

/// The maps before and after `insert_dir` step up alike everywhere but at the new directory.
proof fn lemma_inserted_links(
    before: Map<u64, DirNode>,
    after: Map<u64, DirNode>,
    id: u64,
    parent: u64,
    name: Seq<char>,
    size: u64,
    hue: u16,
    mtime: i64,
)
    requires
        dir_inserted(before, after, id, parent, name, size, hue, mtime),
        parent == 0 || parent != id,
    ensures
        parents_agree_except(before, after, id),
{
    assert forall|x: u64| x != id implies (steps_up(before, x, None) == steps_up(after, x, None))
        && (steps_up(before, x, None) ==> #[trigger] before[x].parent == after[x].parent) by {
        if x == parent && parent != 0 {
            assert(after.contains_key(x));
        } else if before.contains_key(x) {
            assert(after[x] == before[x]);
        } else {
            assert(!after.contains_key(x));
        }
    }
}

/// On an empty map the recursive sizes, none recorded, roll up.
pub proof fn law_empty_tree_rolls_up()
    ensures
        parent_links_sound(Map::<u64, DirNode>::empty()),
        sizes_roll_up(Map::<u64, DirNode>::empty(), Map::<u64, u64>::empty()),
{
    let nodes = Map::<u64, DirNode>::empty();
    assert forall|k: u64| #[trigger]
        get_or_zero(Map::<u64, u64>::empty(), k) == size_through(nodes, k) by {
        assert(nodes.dom() =~= Set::<u64>::empty());
        vstd::set::fold::lemma_fold_empty(0, through(nodes, k));
    }
}

/// What recording a directory that is not yet known does to the walks: those from directories
/// known before stay as they were, the one from the new directory is the chain its size is
/// added along, and every parent link stays sound.
proof fn lemma_inserted_walks(
    before: Map<u64, DirNode>,
    after: Map<u64, DirNode>,
    id: u64,
    parent: u64,
    name: Seq<char>,
    size: u64,
    hue: u16,
    mtime: i64,
)
    requires
        parent_links_sound(before),
        !before.contains_key(id),
        can_attach(before, id, parent),
        dir_inserted(before, after, id, parent, name, size, hue, mtime),
    ensures
        parent_links_sound(after),
        parents_agree_except(before, after, id),
        forall|x: u64| #[trigger]
            before.contains_key(x) ==> walk_terminates(after, x, None) && walk_up(after, x, None)
                == walk_up(before, x, None),
        walk_up(after, id, None) == attach_chain(before, id, parent),
        exists|n: nat|
            walk_ends(after, id, None, n) && #[trigger] walk(after, id, None, n) == attach_chain(
                before,
                id,
                parent,
            ),
        attach_chain(before, id, parent).no_duplicates(),
{
    let chain = attach_chain(before, id, parent);
    lemma_inserted_links(before, after, id, parent, name, size, hue, mtime);
    assert forall|x: u64| #[trigger] before.contains_key(x) implies walk_terminates(after, x, None)
        && walk_up(after, x, None) == walk_up(before, x, None) by {
        let n = choose|n: nat| walk_ends(before, x, None, n);
        lemma_walk_inside(before, x, n);
        lemma_walk_up(before, x, None, n);
        if walk(before, x, None, n).contains(id) {
            let i = choose|i: int|
                0 <= i < walk(before, x, None, n).len() && walk(before, x, None, n)[i] == id;
            assert(before.contains_key(walk(before, x, None, n)[i]));
        }
        lemma_walk_agree(before, after, id, x, n);
        lemma_walk_up(after, x, None, n);
    }
    let fuel: nat = if parent == 0 {
        1
    } else {
        let n = choose|n: nat| walk_ends(before, parent, None, n);
        n + 1
    };
    assert(walk_ends(after, id, None, fuel) && walk(after, id, None, fuel) == chain) by {
        if parent == 0 {
            assert(!steps_up(after, id, None));
            assert(walk(after, id, None, 1) =~= seq![id]);
        } else {
            let n = (fuel - 1) as nat;
            lemma_walk_up(before, parent, None, n);
            lemma_walk_agree(before, after, id, parent, n);
            assert(steps_up(after, id, None));
            assert(walk(after, id, None, fuel) == seq![id] + walk(after, parent, None, n));
        }
    }
    lemma_walk_up(after, id, None, fuel);
    lemma_walk_distinct(after, id, None, fuel);
    assert forall|x: u64| #[trigger] after.contains_key(x) implies (after[x].parent == 0
        || after.contains_key(after[x].parent)) && walk_terminates(after, x, None) by {
        if x == id {
        } else if x == parent && !before.contains_key(parent) {
            assert(after[x].parent == 0);
            assert(walk_ends(after, x, None, 1));
        } else {
            assert(before.contains_key(x));
            assert(after[x].parent == before[x].parent);
        }
    }
}

/// Recording a directory that is not yet known, under the root position or under any
/// directory, keeps every parent link sound and every recursive size equal to the total of
/// the direct sizes of the directories at or below it.
pub proof fn law_insert_dir_keeps_sizes_rolled_up(
    before: Map<u64, DirNode>,
    sizes: Map<u64, u64>,
    after: Map<u64, DirNode>,
    sizes_after: Map<u64, u64>,
    id: u64,
    parent: u64,
    name: Seq<char>,
    size: u64,
    hue: u16,
    mtime: i64,
)
    requires
        before.dom().finite(),
        parent_links_sound(before),
        sizes_roll_up(before, sizes),
        !before.contains_key(id),
        can_attach(before, id, parent),
        add_along_fits(sizes, attach_chain(before, id, parent), size),
        dir_inserted(before, after, id, parent, name, size, hue, mtime),
        sizes_after == add_along(sizes, attach_chain(before, id, parent), size),
    ensures
        parent_links_sound(after),
        sizes_roll_up(after, sizes_after),
{
    let chain = attach_chain(before, id, parent);
    lemma_inserted_walks(before, after, id, parent, name, size, hue, mtime);
    let d = before.dom();
    let with_id = d.insert(id);
    assert(after.dom().finite());
    assert forall|k: u64| #[trigger] get_or_zero(sizes_after, k) == size_through(after, k) by {
        let fa = through(after, k);
        let fb = through(before, k);
        lemma_through_commutes(after, k);
        lemma_through_commutes(before, k);
        assert forall|b: int, a: u64| #![trigger fa(b, a)] d.contains(a) implies fa(b, a) == fb(
            b,
            a,
        ) by {
            assert(before.contains_key(a));
            if a == parent && parent != 0 {
                assert(after[a].direct_size == before[a].direct_size);
            } else {
                assert(after[a] == before[a]);
            }
        }
        lemma_fold_agree(d, fa, fb);
        vstd::set::fold::lemma_fold_insert(d, 0, fa, id);
        assert(with_id.fold(0, fa) == size_through(before, k) + (if chain.contains(k) {
            size as int
        } else {
            0
        }));
        if parent != 0 && !before.contains_key(parent) {
            assert(after.dom() =~= with_id.insert(parent));
            assert(!with_id.contains(parent));
            vstd::set::fold::lemma_fold_insert(with_id, 0, fa, parent);
            assert(after[parent].direct_size == 0);
        } else {
            assert(after.dom() =~= with_id);
        }
        lemma_add_along_once(sizes, chain, size, k);
    }
}

/// Recording a file changes no direct size and no parent link, so parent links stay sound and
/// the recursive sizes, left as they were, still roll up.
pub proof fn law_insert_file_keeps_sizes_rolled_up(
    before: Map<u64, DirNode>,
    sizes: Map<u64, u64>,
    after: Map<u64, DirNode>,
    parent: u64,
    file: FileEntry,
)
    requires
        before.dom().finite(),
        parent_links_sound(before),
        sizes_roll_up(before, sizes),
        after.dom() == before.dom().insert(parent),
        forall|k: u64| k != parent && #[trigger] before.contains_key(k) ==> after[k] == before[k],
        nodes_with_file(before, parent, after[parent], file),
    ensures
        parent_links_sound(after),
        sizes_roll_up(after, sizes),
{
    assert forall|y: u64| #![trigger steps_up(before, y, None)]
        steps_up(before, y, None) == steps_up(after, y, None) && (steps_up(before, y, None)
            ==> before[y].parent == after[y].parent) by {
        if y == parent {
        } else if before.contains_key(y) {
            assert(after[y] == before[y]);
        }
    }
    assert forall|x: u64| #[trigger] before.contains_key(x) implies walk_terminates(after, x, None)
        && walk_up(after, x, None) == walk_up(before, x, None) by {
        let n = choose|n: nat| walk_ends(before, x, None, n);
        lemma_walk_up(before, x, None, n);
        lemma_walk_same_links(before, after, x, n);
        lemma_walk_up(after, x, None, n);
    }
    assert forall|x: u64| #[trigger] after.contains_key(x) implies (after[x].parent == 0
        || after.contains_key(after[x].parent)) && walk_terminates(after, x, None) by {
        if x == parent && !before.contains_key(parent) {
            assert(walk_ends(after, x, None, 1));
        } else {
            assert(before.contains_key(x));
        }
    }
    let d = before.dom();
    assert forall|k: u64| #[trigger] get_or_zero(sizes, k) == size_through(after, k) by {
        let fa = through(after, k);
        let fb = through(before, k);
        lemma_through_commutes(after, k);
        lemma_through_commutes(before, k);
        assert forall|b: int, a: u64| #![trigger fa(b, a)] d.contains(a) implies fa(b, a) == fb(
            b,
            a,
        ) by {
            assert(before.contains_key(a));
            assert(after[a].direct_size == before[a].direct_size);
        }
        lemma_fold_agree(d, fa, fb);
        if before.contains_key(parent) {
            assert(after.dom() =~= d);
        } else {
            vstd::set::fold::lemma_fold_insert(d, 0, fa, parent);
        }
    }
}

/// Every listed subdirectory is a directory of the map whose parent is the directory that
/// lists it.
pub open spec fn children_point_back(nodes: Map<u64, DirNode>) -> bool {
    &&& forall|x: u64| #[trigger]
        nodes.contains_key(x) && nodes[x].children@.len() > 0 ==> x != 0
    &&& forall|x: u64, i: int|
        #![trigger nodes[x].children@[i]]
        nodes.contains_key(x) && 0 <= i < nodes[x].children@.len() ==> nodes.contains_key(
            nodes[x].children@[i],
        ) && nodes[nodes[x].children@[i]].parent == x
}

/// Every directory with a parent is listed by it.
pub open spec fn parents_list_children(nodes: Map<u64, DirNode>) -> bool {
    forall|c: u64| #[trigger]
        nodes.contains_key(c) && nodes[c].parent != 0 ==> nodes.contains_key(nodes[c].parent)
            && nodes[nodes[c].parent].children@.contains(c)
}

/// The subdirectory lists mirror the parent links: a listed subdirectory is a directory of the
/// map whose parent is the directory that lists it, listed once; and a directory with a
/// parent is listed by it.
pub open spec fn children_mirror_parents(nodes: Map<u64, DirNode>) -> bool {
    &&& children_point_back(nodes)
    &&& forall|x: u64| #[trigger] nodes.contains_key(x) ==> nodes[x].children@.no_duplicates()
    &&& parents_list_children(nodes)
}

/// Each recursive size is the direct size of its directory plus the recursive sizes of the
/// listed subdirectories, and no size is recorded for a directory that is not in the map.
pub open spec fn sizes_add_up(nodes: Map<u64, DirNode>, sizes: Map<u64, u64>) -> bool {
    &&& forall|x: u64| #[trigger]
        nodes.contains_key(x) ==> get_or_zero(sizes, x) == nodes[x].direct_size + sum_recorded(
            sizes,
            nodes[x].children@,
        )
    &&& forall|k: u64| !nodes.contains_key(k) ==> #[trigger] get_or_zero(sizes, k) == 0
}

/// How many entries of `s` are on `chain`.
pub open spec fn count_on(s: Seq<u64>, chain: Seq<u64>) -> nat
    decreases s.len(),
{
    if s.len() == 0 {
        0
    } else {
        count_on(s.drop_last(), chain) + (if chain.contains(s.last()) {
            1nat
        } else {
            0nat
        })
    }
}

/// Raising the values of the directories of `chain` by `delta` raises a sum of recorded
/// values by `delta` for each entry on the chain.
proof fn lemma_sum_recorded_raised(
    sizes: Map<u64, u64>,
    raised: Map<u64, u64>,
    s: Seq<u64>,
    chain: Seq<u64>,
    delta: int,
)
    requires
        forall|k: u64| #[trigger]
            get_or_zero(raised, k) == get_or_zero(sizes, k) + (if chain.contains(k) {
                delta
            } else {
                0
            }),
    ensures
        sum_recorded(raised, s) == sum_recorded(sizes, s) + delta * count_on(s, chain),
        count_on(s, chain) == 0 ==> sum_recorded(raised, s) == sum_recorded(sizes, s),
        count_on(s, chain) == 1 ==> sum_recorded(raised, s) == sum_recorded(sizes, s) + delta,
    decreases s.len(),
{
    let total = count_on(s, chain) as int;
    if s.len() == 0 {
        assert(delta * total == 0) by (nonlinear_arith)
            requires
                total == 0,
        ;
    } else {
        lemma_sum_recorded_raised(sizes, raised, s.drop_last(), chain, delta);
        let c = count_on(s.drop_last(), chain) as int;
        assert(delta * (c + 1) == delta * c + delta) by (nonlinear_arith);
        assert(get_or_zero(raised, s.last()) == get_or_zero(sizes, s.last()) + (if chain.contains(
            s.last(),
        ) {
            delta
        } else {
            0
        }));
    }
    assert(total == 0 ==> delta * total == 0) by (nonlinear_arith);
    assert(total == 1 ==> delta * total == delta) by (nonlinear_arith);
}

/// No entry of `s` on `chain` counts none.
proof fn lemma_count_none(s: Seq<u64>, chain: Seq<u64>)
    requires
        forall|i: int| 0 <= i < s.len() ==> !chain.contains(#[trigger] s[i]),
    ensures
        count_on(s, chain) == 0,
    decreases s.len(),
{
    if s.len() > 0 {
        assert(!chain.contains(s[s.len() - 1]));
        assert forall|i: int| 0 <= i < s.drop_last().len() implies !chain.contains(
            #[trigger] s.drop_last()[i],
        ) by {
            assert(s.drop_last()[i] == s[i]);
        }
        lemma_count_none(s.drop_last(), chain);
    }
}

/// When the only entry of `s` on `chain` is `c`, listed once, it counts one.
proof fn lemma_count_one(s: Seq<u64>, chain: Seq<u64>, c: u64)
    requires
        s.no_duplicates(),
        s.contains(c),
        chain.contains(c),
        forall|i: int| 0 <= i < s.len() && chain.contains(#[trigger] s[i]) ==> s[i] == c,
    ensures
        count_on(s, chain) == 1,
    decreases s.len(),
{
    let front = s.drop_last();
    assert forall|i: int| 0 <= i < front.len() implies front[i] == s[i] by {}
    if s.last() == c {
        assert forall|i: int| 0 <= i < front.len() implies !chain.contains(#[trigger] front[i]) by {
            assert(front[i] == s[i]);
            if chain.contains(s[i]) {
                assert(s[i] == c);
                assert(s[i] == s[s.len() - 1]);
            }
        }
        lemma_count_none(front, chain);
    } else {
        let j = choose|j: int| 0 <= j < s.len() && s[j] == c;
        assert(j < s.len() - 1);
        assert(front[j] == c);
        assert(front.no_duplicates()) by {
            assert forall|a: int, b: int| 0 <= a < b < front.len() implies front[a] != front[b] by {
                assert(front[a] == s[a] && front[b] == s[b]);
            }
        }
        assert forall|i: int| 0 <= i < front.len() && chain.contains(#[trigger] front[i]) implies
            front[i] == c by {
            assert(front[i] == s[i]);
        }
        lemma_count_one(front, chain, c);
        assert(!chain.contains(s.last())) by {
            if chain.contains(s[s.len() - 1]) {
                assert(s[s.len() - 1] == c);
            }
        }
    }
}

/// Along a walk of a map whose subdirectory lists mirror its parent links, a directory lists
/// exactly one subdirectory on the walk when the walk reaches it by a step up, and none
/// otherwise.
proof fn lemma_children_on_walk(nodes: Map<u64, DirNode>, x: u64, chain: Seq<u64>)
    requires
        children_mirror_parents(nodes),
        nodes.contains_key(x),
        chain.no_duplicates(),
        chain.len() >= 1,
        !steps_up(nodes, chain.last(), None),
        forall|j: int|
            0 <= j < chain.len() - 1 ==> steps_up(nodes, #[trigger] chain[j], None)
                && nodes[chain[j]].parent == chain[j + 1],
    ensures
        count_on(nodes[x].children@, chain) == (if chain.contains(x) && chain[0] != x {
            1nat
        } else {
            0nat
        }),
{
    let ch = nodes[x].children@;
    // A listed subdirectory on the walk steps up to `x` next.
    assert forall|i: int| 0 <= i < ch.len() && chain.contains(#[trigger] ch[i]) implies exists|
        j: int,
    | #![trigger chain[j]] 0 <= j < chain.len() - 1 && chain[j] == ch[i] && chain[j + 1] == x by {
        let c = ch[i];
        assert(nodes.contains_key(c) && nodes[c].parent == x && x != 0);
        let j = choose|j: int| 0 <= j < chain.len() && chain[j] == c;
        assert(steps_up(nodes, c, None));
        if j == chain.len() - 1 {
            assert(chain.last() == c);
        }
        assert(chain[j + 1] == x);
    }
    if chain.contains(x) && chain[0] != x {
        let k = choose|k: int| 0 <= k < chain.len() && chain[k] == x;
        let c = chain[k - 1];
        assert(steps_up(nodes, c, None) && nodes[c].parent == x);
        assert(ch.contains(c));
        assert forall|i: int| 0 <= i < ch.len() && chain.contains(#[trigger] ch[i]) implies ch[i]
            == c by {
            let j = choose|j: int|
                #![trigger chain[j]]
                0 <= j < chain.len() - 1 && chain[j] == ch[i] && chain[j + 1] == x;
            assert(j + 1 == k);
        }
        lemma_count_one(ch, chain, c);
    } else {
        assert forall|i: int| 0 <= i < ch.len() implies !chain.contains(#[trigger] ch[i]) by {
            if chain.contains(ch[i]) {
                let j = choose|j: int|
                    #![trigger chain[j]]
                    0 <= j < chain.len() - 1 && chain[j] == ch[i] && chain[j + 1] == x;
                assert(chain.contains(x));
            }
        }
        lemma_count_none(ch, chain);
    }
}

/// Recording a directory that is not yet known keeps the subdirectory lists mirroring the
/// parent links.
proof fn lemma_inserted_mirror(
    before: Map<u64, DirNode>,
    after: Map<u64, DirNode>,
    id: u64,
    parent: u64,
    name: Seq<char>,
    size: u64,
    hue: u16,
    mtime: i64,
)
    requires
        children_mirror_parents(before),
        !before.contains_key(id),
        parent == 0 || parent != id,
        dir_inserted(before, after, id, parent, name, size, hue, mtime),
    ensures
        children_mirror_parents(after),
{
    assert(listed_children(before, id) =~= Seq::<u64>::empty());
    // Every directory known before keeps its parent.
    assert forall|c: u64| #[trigger] before.contains_key(c) implies after.contains_key(c)
        && after[c].parent == before[c].parent by {
        if c == parent && parent != 0 {
        } else {
            assert(after[c] == before[c]);
        }
    }
    assert forall|x: u64, i: int|
        after.contains_key(x) && 0 <= i < after[x].children@.len() implies x != 0
            && after.contains_key(#[trigger] after[x].children@[i])
            && after[after[x].children@[i]].parent == x by {
        if x == id {
        } else if x == parent && parent != 0 {
            if i == after[x].children@.len() - 1 {
                assert(after[x].children@[i] == id);
            } else {
                assert(before.contains_key(parent));
                assert(after[x].children@[i] == before[x].children@[i]);
            }
        } else {
            assert(before.contains_key(x));
            assert(after[x] == before[x]);
            assert(before.contains_key(before[x].children@[i]));
        }
    }
    assert forall|x: u64| #[trigger] after.contains_key(x) implies after[x].children@.no_duplicates() by {
        if x == id {
        } else if x == parent && parent != 0 {
            let ch = listed_children(before, parent);
            assert(!ch.contains(id)) by {
                if ch.contains(id) {
                    let i = choose|i: int| 0 <= i < ch.len() && ch[i] == id;
                    assert(before.contains_key(parent));
                    assert(before.contains_key(before[parent].children@[i]));
                }
            }
            assert(before.contains_key(parent) ==> before[parent].children@.no_duplicates());
            assert forall|a: int, b: int| 0 <= a < b < ch.push(id).len() implies ch.push(id)[a]
                != ch.push(id)[b] by {
                if b == ch.len() {
                    assert(ch.push(id)[a] == ch[a]);
                } else {
                    assert(ch.push(id)[a] == ch[a] && ch.push(id)[b] == ch[b]);
                }
            }
        } else {
            assert(before.contains_key(x));
            assert(after[x] == before[x]);
        }
    }
    assert forall|c: u64| #[trigger] after.contains_key(c) && after[c].parent != 0 implies after.contains_key(
        after[c].parent,
    ) && after[after[c].parent].children@.contains(c) by {
        if c == id {
            assert(after[parent].children@.last() == id);
        } else if c == parent && !before.contains_key(parent) {
        } else {
            assert(before.contains_key(c));
            let q = before[c].parent;
            assert(before[q].children@.contains(c));
            if q == parent {
                let i = choose|i: int| 0 <= i < before[q].children@.len() && before[q].children@[i] == c;
                assert(after[q].children@[i] == c);
            } else {
                assert(after[q] == before[q]);
            }
        }
    }
    assert forall|x: u64| #[trigger]
        after.contains_key(x) && after[x].children@.len() > 0 implies x != 0 by {
        assert(after.contains_key(after[x].children@[0]));
    }
    assert(children_point_back(after));
    assert(parents_list_children(after));
}

/// Recording a directory that is not yet known, under the root position or under any
/// directory, keeps the subdirectory lists mirroring the parent links and keeps every recursive
/// size equal to the direct size of its directory plus the recursive sizes of its listed
/// subdirectories.
pub proof fn law_insert_dir_keeps_sizes_adding_up(
    before: Map<u64, DirNode>,
    sizes: Map<u64, u64>,
    after: Map<u64, DirNode>,
    sizes_after: Map<u64, u64>,
    id: u64,
    parent: u64,
    name: Seq<char>,
    size: u64,
    hue: u16,
    mtime: i64,
)
    requires
        parent_links_sound(before),
        children_mirror_parents(before),
        sizes_add_up(before, sizes),
        !before.contains_key(id),
        can_attach(before, id, parent),
        add_along_fits(sizes, attach_chain(before, id, parent), size),
        dir_inserted(before, after, id, parent, name, size, hue, mtime),
        sizes_after == add_along(sizes, attach_chain(before, id, parent), size),
    ensures
        parent_links_sound(after),
        children_mirror_parents(after),
        sizes_add_up(after, sizes_after),
{
    let chain = attach_chain(before, id, parent);
    lemma_inserted_walks(before, after, id, parent, name, size, hue, mtime);
    lemma_inserted_mirror(before, after, id, parent, name, size, hue, mtime);
    let n = choose|n: nat| walk_ends(after, id, None, n) && #[trigger] walk(after, id, None, n) == chain;
    lemma_walk_shape(after, id, None, n);
    lemma_walk_inside(after, id, n);
    assert forall|k: u64| #[trigger] get_or_zero(sizes_after, k) == get_or_zero(sizes, k) + (if chain.contains(k) {
        size as int
    } else {
        0
    }) by {
        lemma_add_along_once(sizes, chain, size, k);
    }
    assert forall|x: u64| #[trigger] after.contains_key(x) implies get_or_zero(sizes_after, x)
        == after[x].direct_size + sum_recorded(sizes_after, after[x].children@) by {
        let ch = after[x].children@;
        lemma_children_on_walk(after, x, chain);
        lemma_sum_recorded_raised(sizes, sizes_after, ch, chain, size as int);
        if x == id {
            assert(ch.len() == 0);
        } else if x == parent && parent != 0 {
            assert(chain[1] == parent);
            let old_ch = listed_children(before, parent);
            assert(ch == old_ch.push(id));
            assert(ch.drop_last() == old_ch);
            if before.contains_key(parent) {
                assert(after[x].direct_size == before[x].direct_size);
            } else {
                assert(old_ch.len() == 0);
                assert(sum_recorded(sizes, old_ch) == 0);
            }
        } else {
            assert(before.contains_key(x));
            assert(after[x] == before[x]);
            assert(chain[0] != x);
        }
    }
    assert forall|k: u64| !after.contains_key(k) implies #[trigger] get_or_zero(sizes_after, k)
        == 0 by {
        if chain.contains(k) {
            let j = choose|j: int| 0 <= j < chain.len() && chain[j] == k;
            assert(after.contains_key(chain[j]));
        }
        assert(!before.contains_key(k));
    }
}

/// A recursive size of a bounded directory that adds up is its total below.
proof fn lemma_adding_up_is_total(nodes: Map<u64, DirNode>, sizes: Map<u64, u64>, x: u64, n: nat)
    requires
        sizes_add_up(nodes, sizes),
        bounded(nodes, x, n),
    ensures
        get_or_zero(sizes, x) == total(nodes, x, n, direct_weight()),
    decreases n,
{
    if nodes.contains_key(x) {
        let ch = nodes[x].children@;
        assert(children_of(nodes, x) == ch);
        lemma_all_bounded(nodes, ch, (n - 1) as nat);
        assert forall|i: int| 0 <= i < ch.len() implies get_or_zero(sizes, #[trigger] ch[i])
            == total(nodes, ch[i], (n - 1) as nat, direct_weight()) by {
            lemma_adding_up_is_total(nodes, sizes, ch[i], (n - 1) as nat);
        }
        lemma_sum_recorded_total(nodes, sizes, ch, (n - 1) as nat, direct_weight());
    }
}

/// Recomputing from the root gives, for each directory below it, the recursive size that
/// was kept while recording: when the kept sizes add up, they are the ones the bottom-up pass
/// finds.
pub proof fn law_recomputed_sizes_match_kept_sizes(
    nodes: Map<u64, DirNode>,
    sizes: Map<u64, u64>,
    root: u64,
)
    requires
        sizes_add_up(nodes, sizes),
        acyclic_below(nodes, root),
    ensures
        forall|k: u64| #[trigger]
            sums_below(nodes, root, direct_weight()).contains_key(k) ==> sums_below(
                nodes,
                root,
                direct_weight(),
            )[k] == get_or_zero(sizes, k),
{
    let n = choose|n: nat| bounded(nodes, root, n);
    lemma_canonical(nodes, root, n, direct_weight());
    lemma_pre_members_bounded(nodes, root, n);
    assert forall|k: u64| #[trigger] sums_below(nodes, root, direct_weight()).contains_key(k)
        implies sums_below(nodes, root, direct_weight())[k] == get_or_zero(sizes, k) by {
        assert(subtree_order(nodes, root).contains(k));
        assert(bounded(nodes, k, n));
        lemma_canonical(nodes, k, n, direct_weight());
        lemma_adding_up_is_total(nodes, sizes, k, n);
    }
}

/// On an empty map the subdirectory lists mirror the parent links and the recursive sizes,
/// none recorded, add up.
pub proof fn law_empty_tree_adds_up()
    ensures
        children_mirror_parents(Map::<u64, DirNode>::empty()),
        sizes_add_up(Map::<u64, DirNode>::empty(), Map::<u64, u64>::empty()),
{
}

/// Recording a file changes no direct size, no parent link and no subdirectory list, so the
/// lists keep mirroring the links and the recursive sizes, left as they were, still add up.
pub proof fn law_insert_file_keeps_sizes_adding_up(
    before: Map<u64, DirNode>,
    sizes: Map<u64, u64>,
    after: Map<u64, DirNode>,
    parent: u64,
    file: FileEntry,
)
    requires
        children_mirror_parents(before),
        sizes_add_up(before, sizes),
        after.dom() == before.dom().insert(parent),
        forall|k: u64| k != parent && #[trigger] before.contains_key(k) ==> after[k] == before[k],
        nodes_with_file(before, parent, after[parent], file),
    ensures
        children_mirror_parents(after),
        sizes_add_up(after, sizes),
{
    assert forall|x: u64| #[trigger] before.contains_key(x) implies after.contains_key(x)
        && after[x].parent == before[x].parent && after[x].children == before[x].children
        && after[x].direct_size == before[x].direct_size by {
        if x != parent {
            assert(after[x] == before[x]);
        }
    }
    assert forall|x: u64| #[trigger]
        after.contains_key(x) && after[x].children@.len() > 0 implies x != 0 by {
        assert(before.contains_key(x));
    }
    assert forall|x: u64, i: int|
        after.contains_key(x) && 0 <= i < after[x].children@.len() implies after.contains_key(
            #[trigger] after[x].children@[i],
        ) && after[after[x].children@[i]].parent == x by {
        assert(before.contains_key(x));
        assert(before.contains_key(before[x].children@[i]));
    }
    assert(children_point_back(after));
    assert forall|x: u64| #[trigger] after.contains_key(x) implies after[x].children@.no_duplicates() by {
        if !before.contains_key(x) {
            assert(after[x].children@.len() == 0);
        }
    }
    assert forall|c: u64| #[trigger] after.contains_key(c) && after[c].parent != 0 implies after.contains_key(
        after[c].parent,
    ) && after[after[c].parent].children@.contains(c) by {
        assert(before.contains_key(c));
        assert(before.contains_key(before[c].parent));
    }
    assert forall|x: u64| #[trigger] after.contains_key(x) implies get_or_zero(sizes, x)
        == after[x].direct_size + sum_recorded(sizes, after[x].children@) by {
        if !before.contains_key(x) {
            assert(after[x].children@.len() == 0);
        }
    }
}

/// The total of the sizes of `files`.
pub open spec fn files_total(files: Seq<FileEntry>) -> int
    decreases files.len(),
{
    if files.len() == 0 {
        0
    } else {
        files_total(files.drop_last()) + files.last().size
    }
}

/// Each directory's own size is the total of its files, as the scanners record it.
pub open spec fn own_sizes_are_file_totals(nodes: Map<u64, DirNode>) -> bool {
    forall|x: u64| #[trigger]
        nodes.contains_key(x) ==> nodes[x].direct_size == files_total(nodes[x].files@)
}

/// A filter with no criterion set lets the bytes of every file through.
proof fn lemma_inactive_filter_keeps_all(filter: FilterConfig, files: Seq<FileEntry>)
    requires
        !filter.spec_is_active(),
    ensures
        matching_size(filter, files) == files_total(files),
    decreases files.len(),
{
    if files.len() > 0 {
        lemma_inactive_filter_keeps_all(filter, files.drop_last());
    }
}

/// Two weights that agree on every directory of the map give the same totals.
proof fn lemma_totals_agree(
    nodes: Map<u64, DirNode>,
    x: u64,
    n: nat,
    w1: spec_fn(DirNode) -> int,
    w2: spec_fn(DirNode) -> int,
)
    requires
        forall|y: u64| #[trigger] nodes.contains_key(y) ==> w1(nodes[y]) == w2(nodes[y]),
    ensures
        total(nodes, x, n, w1) == total(nodes, x, n, w2),
    decreases n, 0nat,
{
    if n > 0 && nodes.contains_key(x) {
        lemma_stack_totals_agree(nodes, nodes[x].children@, (n - 1) as nat, w1, w2);
    }
}

/// Two weights that agree on every directory of the map give the same stack totals.
proof fn lemma_stack_totals_agree(
    nodes: Map<u64, DirNode>,
    s: Seq<u64>,
    n: nat,
    w1: spec_fn(DirNode) -> int,
    w2: spec_fn(DirNode) -> int,
)
    requires
        forall|y: u64| #[trigger] nodes.contains_key(y) ==> w1(nodes[y]) == w2(nodes[y]),
    ensures
        total_stack(nodes, s, n, w1) == total_stack(nodes, s, n, w2),
    decreases n, s.len() + 1,
{
    if s.len() > 0 {
        lemma_totals_agree(nodes, s.last(), n, w1, w2);
        lemma_stack_totals_agree(nodes, s.drop_last(), n, w1, w2);
    }
}

/// With no criterion set, the filtered sizes are the recursive sizes, when each directory's
/// own size is the total of its files.
pub proof fn law_inactive_filter_sizes_are_recursive_sizes(
    nodes: Map<u64, DirNode>,
    root: Option<u64>,
    filter: FilterConfig,
)
    requires
        !filter.spec_is_active(),
        own_sizes_are_file_totals(nodes),
    ensures
        sizes_for(nodes, root, filtered_weight(filter)) == sizes_for(nodes, root, direct_weight()),
{
    let wf = filtered_weight(filter);
    let wd = direct_weight();
    assert forall|y: u64| #[trigger] nodes.contains_key(y) implies wf(nodes[y]) == wd(nodes[y]) by {
        lemma_inactive_filter_keeps_all(filter, nodes[y].files@);
    }
    if let Some(r) = root {
        assert forall|k: u64| subtree_total(nodes, k, wf) == subtree_total(nodes, k, wd) by {
            lemma_totals_agree(nodes, k, crate::hierarchy::depth_bound(nodes, k), wf, wd);
        }
        assert(sums_below(nodes, r, wf) =~= sums_below(nodes, r, wd));
    }
}

/// The number of directories on the walk up from `x`, itself included.
pub open spec fn walk_length(nodes: Map<u64, DirNode>, x: u64) -> int {
    walk_up(nodes, x, None).len() as int
}

/// A listed subdirectory is one step further from the top than the directory that lists it.
proof fn lemma_child_walk_length(nodes: Map<u64, DirNode>, x: u64, c: u64)
    requires
        parent_links_sound(nodes),
        children_point_back(nodes),
        nodes.contains_key(x),
        nodes[x].children@.contains(c),
    ensures
        nodes.contains_key(c),
        walk_length(nodes, c) == walk_length(nodes, x) + 1,
{
    let i = choose|i: int| 0 <= i < nodes[x].children@.len() && nodes[x].children@[i] == c;
    assert(nodes[x].children@[i] == c);
    assert(nodes[x].children@.len() > 0);
    assert(x != 0);
    assert(nodes.contains_key(c) && nodes[c].parent == x);
    let n = choose|n: nat| walk_ends(nodes, x, None, n);
    lemma_walk_up(nodes, x, None, n);
    assert(steps_up(nodes, c, None));
    assert(walk_ends(nodes, c, None, n + 1));
    lemma_walk_up(nodes, c, None, n + 1);
    assert(walk(nodes, c, None, n + 1) == seq![c] + walk(nodes, x, None, n));
}

/// Every chain of subdirectories below `x` is shorter than the room its walk up leaves under
/// one more than the number of directories.
proof fn lemma_bounded_by_walk_length(nodes: Map<u64, DirNode>, x: u64)
    requires
        nodes.dom().finite(),
        parent_links_sound(nodes),
        children_point_back(nodes),
        nodes.contains_key(x),
    ensures
        walk_length(nodes, x) <= nodes.dom().len() + 1,
        bounded(nodes, x, (nodes.dom().len() + 2 - walk_length(nodes, x)) as nat),
    decreases nodes.dom().len() + 2 - walk_length(nodes, x),
{
    let n = choose|n: nat| walk_ends(nodes, x, None, n);
    lemma_walk_up(nodes, x, None, n);
    lemma_walk_len_bound(nodes, x, None, n);
    let k = (nodes.dom().len() + 2 - walk_length(nodes, x)) as nat;
    let ch = nodes[x].children@;
    assert(children_of(nodes, x) == ch);
    assert forall|i: int| 0 <= i < ch.len() implies #[trigger] bounded(nodes, ch[i], (k - 1) as nat) by {
        assert(ch.contains(ch[i]));
        lemma_child_walk_length(nodes, x, ch[i]);
        lemma_bounded_by_walk_length(nodes, ch[i]);
    }
    lemma_all_bounded(nodes, ch, (k - 1) as nat);
}

/// When parent links are sound and listed subdirectories point back to their lister, no cycle
/// of subdirectories is reachable from any directory.
pub proof fn law_sound_links_leave_no_cycle_below(nodes: Map<u64, DirNode>, x: u64)
    requires
        nodes.dom().finite(),
        parent_links_sound(nodes),
        children_point_back(nodes),
    ensures
        acyclic_below(nodes, x),
{
    if nodes.contains_key(x) {
        lemma_bounded_by_walk_length(nodes, x);
    } else {
        assert(children_of(nodes, x) =~= Seq::<u64>::empty());
        assert(bounded(nodes, x, 1));
    }
}

/// For a tree recorded directory by directory (parent links sound, subdirectory lists
/// mirroring them, recursive sizes adding up), a recomputation from the root can run without
/// overflow and finds, for every directory below the root, the recursive size already kept.
pub proof fn law_recorded_tree_recomputes_to_kept_sizes(
    nodes: Map<u64, DirNode>,
    sizes: Map<u64, u64>,
    root: u64,
)
    requires
        nodes.dom().finite(),
        parent_links_sound(nodes),
        children_mirror_parents(nodes),
        sizes_add_up(nodes, sizes),
    ensures
        sums_fit(nodes, Some(root), direct_weight()),
        forall|k: u64| #[trigger]
            sizes_for(nodes, Some(root), direct_weight()).contains_key(k) ==> sizes_for(
                nodes,
                Some(root),
                direct_weight(),
            )[k] == get_or_zero(sizes, k),
{
    law_sound_links_leave_no_cycle_below(nodes, root);
    law_recomputed_sizes_match_kept_sizes(nodes, sizes, root);
    let n = choose|n: nat| bounded(nodes, root, n);
    lemma_canonical(nodes, root, n, direct_weight());
    lemma_adding_up_is_total(nodes, sizes, root, n);
}

/// `narrow` lets no file through that `wide` holds back.
pub open spec fn filter_within(narrow: FilterConfig, wide: FilterConfig) -> bool {
    forall|name: Seq<char>, size: u64|
        #[trigger] narrow.spec_matches_file(name, size) ==> wide.spec_matches_file(name, size)
}

proof fn lemma_matching_size_within(narrow: FilterConfig, wide: FilterConfig, files: Seq<FileEntry>)
    requires
        filter_within(narrow, wide),
    ensures
        matching_size(narrow, files) <= matching_size(wide, files),
    decreases files.len(),
{
    if files.len() > 0 {
        lemma_matching_size_within(narrow, wide, files.drop_last());
        let f = files.last();
        assert(narrow.spec_matches_file(f.name@, f.size) ==> wide.spec_matches_file(f.name@, f.size));
    }
}

/// A weight no heavier on any directory gives totals no larger.
proof fn lemma_total_within(
    nodes: Map<u64, DirNode>,
    x: u64,
    n: nat,
    light: spec_fn(DirNode) -> int,
    heavy: spec_fn(DirNode) -> int,
)
    requires
        forall|y: u64| #[trigger] nodes.contains_key(y) ==> light(nodes[y]) <= heavy(nodes[y]),
    ensures
        total(nodes, x, n, light) <= total(nodes, x, n, heavy),
    decreases n, 0nat,
{
    if n > 0 && nodes.contains_key(x) {
        lemma_stack_total_within(nodes, nodes[x].children@, (n - 1) as nat, light, heavy);
    }
}

proof fn lemma_stack_total_within(
    nodes: Map<u64, DirNode>,
    s: Seq<u64>,
    n: nat,
    light: spec_fn(DirNode) -> int,
    heavy: spec_fn(DirNode) -> int,
)
    requires
        forall|y: u64| #[trigger] nodes.contains_key(y) ==> light(nodes[y]) <= heavy(nodes[y]),
    ensures
        total_stack(nodes, s, n, light) <= total_stack(nodes, s, n, heavy),
    decreases n, s.len() + 1,
{
    if s.len() > 0 {
        lemma_total_within(nodes, s.last(), n, light, heavy);
        lemma_stack_total_within(nodes, s.drop_last(), n, light, heavy);
    }
}

/// A filter with no criterion set (as `FilterConfig::default()` gives) lets every file
/// through, so every filter is within it and, by the law below, gives no directory more.
pub proof fn law_every_filter_within_an_unset_one(f: FilterConfig, unset: FilterConfig)
    requires
        !unset.spec_is_active(),
    ensures
        filter_within(f, unset),
{
}

/// A narrower filter never gives a directory a larger filtered size: both give sizes for the
/// same directories, and each of the narrower one's is at most the wider one's.
pub proof fn law_narrower_filter_gives_no_more(
    nodes: Map<u64, DirNode>,
    root: u64,
    narrow: FilterConfig,
    wide: FilterConfig,
)
    requires
        filter_within(narrow, wide),
        acyclic_below(nodes, root),
        subtree_total(nodes, root, filtered_weight(wide)) <= u64::MAX,
    ensures
        sums_below(nodes, root, filtered_weight(narrow)).dom() == sums_below(
            nodes,
            root,
            filtered_weight(wide),
        ).dom(),
        forall|k: u64| #[trigger]
            sums_below(nodes, root, filtered_weight(narrow)).contains_key(k) ==> sums_below(
                nodes,
                root,
                filtered_weight(narrow),
            )[k] <= sums_below(nodes, root, filtered_weight(wide))[k],
{
    let wn = filtered_weight(narrow);
    let ww = filtered_weight(wide);
    lemma_filtered_weight_nonnegative(narrow);
    lemma_filtered_weight_nonnegative(wide);
    assert forall|y: u64| #[trigger] nodes.contains_key(y) implies wn(nodes[y]) <= ww(nodes[y]) by {
        lemma_matching_size_within(narrow, wide, nodes[y].files@);
    }
    let n = depth_bound(nodes, root);
    lemma_canonical(nodes, root, n, ww);
    lemma_pre_members_bounded(nodes, root, n);
    lemma_pre_total_bound(nodes, root, n, ww);
    assert(sums_below(nodes, root, wn).dom() =~= sums_below(nodes, root, ww).dom());
    assert forall|k: u64| #[trigger] sums_below(nodes, root, wn).contains_key(k) implies sums_below(
        nodes,
        root,
        wn,
    )[k] <= sums_below(nodes, root, ww)[k] by {
        assert(pre(nodes, root, n).contains(k));
        assert(bounded(nodes, k, n));
        lemma_canonical(nodes, k, n, ww);
        lemma_canonical(nodes, k, n, wn);
        lemma_total_within(nodes, k, n, wn, ww);
        crate::hierarchy::lemma_total_nonnegative(nodes, k, n, wn);
    }
}

/// With sound parent links every walk up ends, starts where it is asked to, steps up to the
/// parent at each entry but the last, and meets no directory twice.
proof fn lemma_walk_up_facts(nodes: Map<u64, DirNode>, y: u64)
    requires
        parent_links_sound(nodes),
    ensures
        walk_terminates(nodes, y, None),
        walk_up(nodes, y, None).len() >= 1,
        walk_up(nodes, y, None)[0] == y,
        walk_up(nodes, y, None).no_duplicates(),
        !steps_up(nodes, walk_up(nodes, y, None).last(), None),
        forall|i: int|
            0 <= i < walk_up(nodes, y, None).len() - 1 ==> steps_up(
                nodes,
                #[trigger] walk_up(nodes, y, None)[i],
                None,
            ) && nodes[walk_up(nodes, y, None)[i]].parent == walk_up(nodes, y, None)[i + 1],
{
    if !nodes.contains_key(y) {
        assert(walk_ends(nodes, y, None, 1));
    }
    let n = choose|n: nat| walk_ends(nodes, y, None, n);
    lemma_walk_up(nodes, y, None, n);
    lemma_walk_shape(nodes, y, None, n);
    lemma_walk_distinct(nodes, y, None, n);
}

/// On a walk up, a directory with a parent is followed by that parent.
proof fn lemma_walk_passes_parent(nodes: Map<u64, DirNode>, y: u64, c: u64) -> (j: int)
    requires
        parent_links_sound(nodes),
        walk_up(nodes, y, None).contains(c),
        nodes.contains_key(c),
        nodes[c].parent != 0,
    ensures
        0 <= j < walk_up(nodes, y, None).len() - 1,
        walk_up(nodes, y, None)[j] == c,
        walk_up(nodes, y, None)[j + 1] == nodes[c].parent,
{
    lemma_walk_up_facts(nodes, y);
    let w = walk_up(nodes, y, None);
    let j = choose|j: int| 0 <= j < w.len() && w[j] == c;
    assert(steps_up(nodes, c, None));
    if j == w.len() - 1 {
        assert(w.last() == c);
    }
    assert(steps_up(nodes, w[j], None));
    j
}

/// A directory in a stack's order is in the order of one of the stack's directories.
proof fn lemma_stack_member(nodes: Map<u64, DirNode>, s: Seq<u64>, m: nat, y: u64) -> (k: int)
    requires
        pre_stack(nodes, s, m).contains(y),
    ensures
        0 <= k < s.len(),
        pre(nodes, s[k], m).contains(y),
    decreases s.len(),
{
    let a = pre(nodes, s.last(), m);
    let b = pre_stack(nodes, s.drop_last(), m);
    assert(pre_stack(nodes, s, m) == a + b);
    let i = choose|i: int| 0 <= i < (a + b).len() && (a + b)[i] == y;
    if i < a.len() {
        assert(a[i] == y);
        (s.len() - 1) as int
    } else {
        assert(b[i - a.len()] == y);
        let k = lemma_stack_member(nodes, s.drop_last(), m, y);
        assert(s.drop_last()[k] == s[k]);
        k
    }
}

/// Every directory in the order below `x` walks up through `x`.
proof fn lemma_pre_below(nodes: Map<u64, DirNode>, x: u64, n: nat, y: u64)
    requires
        parent_links_sound(nodes),
        children_mirror_parents(nodes),
        pre(nodes, x, n).contains(y),
    ensures
        walk_up(nodes, y, None).contains(x),
    decreases n,
{
    lemma_walk_up_facts(nodes, y);
    if y == x {
        assert(walk_up(nodes, y, None)[0] == x);
    } else {
        let ch = children_of(nodes, x);
        let rest = pre_stack(nodes, ch, (n - 1) as nat);
        assert(pre(nodes, x, n) == seq![x] + rest);
        let i = choose|i: int| 0 <= i < pre(nodes, x, n).len() && pre(nodes, x, n)[i] == y;
        assert(rest[i - 1] == y);
        let k = lemma_stack_member(nodes, ch, (n - 1) as nat, y);
        let c = ch[k];
        assert(nodes.contains_key(x));
        assert(nodes[x].children@[k] == c);
        assert(nodes[x].children@.len() > 0);
        lemma_pre_below(nodes, c, (n - 1) as nat, y);
        let j = lemma_walk_passes_parent(nodes, y, c);
    }
}

/// Two subdirectories of `x` that a walk up both passes are one.
proof fn lemma_one_child_on_walk(nodes: Map<u64, DirNode>, y: u64, x: u64, c1: u64, c2: u64)
    requires
        parent_links_sound(nodes),
        x != 0,
        walk_up(nodes, y, None).contains(c1),
        walk_up(nodes, y, None).contains(c2),
        nodes.contains_key(c1) && nodes[c1].parent == x,
        nodes.contains_key(c2) && nodes[c2].parent == x,
    ensures
        c1 == c2,
{
    lemma_walk_up_facts(nodes, y);
    let j1 = lemma_walk_passes_parent(nodes, y, c1);
    let j2 = lemma_walk_passes_parent(nodes, y, c2);
    let w = walk_up(nodes, y, None);
    assert(w[j1 + 1] == w[j2 + 1]);
}

/// The order below `x` lists no directory twice.
proof fn lemma_pre_distinct(nodes: Map<u64, DirNode>, x: u64, n: nat)
    requires
        parent_links_sound(nodes),
        children_mirror_parents(nodes),
    ensures
        pre(nodes, x, n).no_duplicates(),
    decreases n, 0nat,
{
    if n > 0 {
        let ch = children_of(nodes, x);
        let rest = pre_stack(nodes, ch, (n - 1) as nat);
        let p = pre(nodes, x, n);
        assert(p == seq![x] + rest);
        if nodes.contains_key(x) && ch.len() > 0 {
            assert(nodes[x].children@[0] == ch[0]);
            assert(x != 0);
            assert forall|k: int| 0 <= k < ch.len() implies nodes.contains_key(#[trigger] ch[k])
                && nodes[ch[k]].parent == x by {
                assert(nodes[x].children@[k] == ch[k]);
            }
            lemma_stack_distinct(nodes, ch, (n - 1) as nat, x);
        } else {
            assert(ch.len() == 0);
            assert(rest.len() == 0);
        }
        assert forall|a: int, b: int| 0 <= a < b < p.len() implies p[a] != p[b] by {
            if a == 0 {
                assert(p[b] == rest[b - 1]);
                assert(rest.contains(p[b]));
            } else {
                assert(p[a] == rest[a - 1] && p[b] == rest[b - 1]);
            }
        }
    }
}

/// The order of a stack of subdirectories of `x`, each listed once, lists no directory twice
/// and does not list `x`.
proof fn lemma_stack_distinct(nodes: Map<u64, DirNode>, s: Seq<u64>, m: nat, x: u64)
    requires
        parent_links_sound(nodes),
        children_mirror_parents(nodes),
        x != 0,
        s.no_duplicates(),
        forall|k: int| 0 <= k < s.len() ==> nodes.contains_key(#[trigger] s[k]) && nodes[s[k]].parent == x,
    ensures
        pre_stack(nodes, s, m).no_duplicates(),
        !pre_stack(nodes, s, m).contains(x),
    decreases m, s.len() + 1,
{
    if s.len() > 0 {
        let last = s.last();
        let init = s.drop_last();
        let a = pre(nodes, last, m);
        let b = pre_stack(nodes, init, m);
        assert(pre_stack(nodes, s, m) == a + b);
        assert(nodes.contains_key(s[s.len() - 1]) && nodes[s[s.len() - 1]].parent == x);
        lemma_pre_distinct(nodes, last, m);
        assert(init.no_duplicates()) by {
            assert forall|i: int, j: int| 0 <= i < j < init.len() implies init[i] != init[j] by {
                assert(init[i] == s[i] && init[j] == s[j]);
            }
        }
        assert forall|k: int| 0 <= k < init.len() implies nodes.contains_key(#[trigger] init[k])
            && nodes[init[k]].parent == x by {
            assert(init[k] == s[k]);
        }
        lemma_stack_distinct(nodes, init, m, x);
        // Nothing below the last subdirectory is below another one.
        assert forall|y: u64| a.contains(y) implies !b.contains(y) by {
            if b.contains(y) {
                let k = lemma_stack_member(nodes, init, m, y);
                lemma_pre_below(nodes, last, m, y);
                lemma_pre_below(nodes, init[k], m, y);
                assert(init[k] == s[k]);
                lemma_one_child_on_walk(nodes, y, x, last, init[k]);
                assert(s[k] == s[s.len() - 1]);
            }
        }
        // `x` is not below its own subdirectory.
        if a.contains(x) {
            lemma_pre_below(nodes, last, m, x);
            lemma_walk_up_facts(nodes, x);
            let j = lemma_walk_passes_parent(nodes, x, last);
            let w = walk_up(nodes, x, None);
            assert(w[0] == w[j + 1]);
        }
        let ab = a + b;
        assert forall|i: int, j: int| 0 <= i < j < ab.len() implies ab[i] != ab[j] by {
            if j < a.len() {
            } else if i >= a.len() {
                assert(ab[i] == b[i - a.len()] && ab[j] == b[j - a.len()]);
            } else {
                assert(ab[i] == a[i]);
                assert(ab[j] == b[j - a.len()]);
                assert(a.contains(a[i]));
                assert(b.contains(b[j - a.len()]));
            }
        }
        assert(!ab.contains(x)) by {
            if ab.contains(x) {
                let i = choose|i: int| 0 <= i < ab.len() && ab[i] == x;
                if i < a.len() {
                    assert(a[i] == x);
                } else {
                    assert(b[i - a.len()] == x);
                }
            }
        }
    }
}

/// In a tree recorded directory by directory, the order from the root (that `bottom_up_order`
/// gives) lists each directory once.
pub proof fn law_recorded_tree_order_lists_each_once(nodes: Map<u64, DirNode>, root: u64)
    requires
        parent_links_sound(nodes),
        children_mirror_parents(nodes),
    ensures
        subtree_order(nodes, root).no_duplicates(),
{
    lemma_pre_distinct(nodes, root, depth_bound(nodes, root));
}

} // verus!
