//! What the treemap view in the browser works out from the rectangles it draws, beside their
//! geometry: which rectangle the pointer picks, which one a click navigates to, the lookup from
//! directory ids to rectangles, the path shown for the rectangle under the pointer, and how
//! the rectangles of one layout turn into those of the next.
use std::collections::{HashMap, HashSet};

use vstd::prelude::*;
use vstd::string::StrSliceExecFns;

use crate::tree::BreadcrumbEntry;
use crate::web::{collapse_slashes, slashes_collapsed};

verus! {

broadcast use vstd::std_specs::hash::group_hash_axioms;

/// What a drawn rectangle stands for (its place on the canvas aside): its id (negative for
/// files and the boxes of other files), the directory it lies in, its name and bytes, and
/// whether it holds nested rectangles, stands for other files, or for one file.
pub struct RectInfo {
    pub id: i64,
    pub parent_id: u64,
    pub name: String,
    pub size: u64,
    pub is_container: bool,
    pub is_files: bool,
    pub is_file: bool,
}

/// The last index at which `hits` holds, the rectangle drawn on top.
pub fn last_hit(hits: &Vec<bool>) -> (found: Option<usize>)
    ensures
        match found {
            Some(i) => i < hits@.len() && hits@[i as int] && forall|j: int|
                i < j < hits@.len() ==> !hits@[j],
            None => forall|j: int| 0 <= j < hits@.len() ==> !hits@[j],
        },
{
    let mut k = hits.len();
    while k > 0
        invariant
            k <= hits@.len(),
            forall|j: int| k <= j < hits@.len() ==> !hits@[j],
        decreases k,
    {
        if hits[k - 1] {
            return Some(k - 1);
        }
        k -= 1;
    }
    None
}

/// A click on the rectangle leads somewhere: it stands for a directory.
pub open spec fn navigable(rect: RectInfo) -> bool {
    !rect.is_files && !rect.is_file && rect.id > 0
}

/// The last rectangle under the pointer (`hits`) that stands for a directory.
pub fn navigable_target(rects: &Vec<RectInfo>, hits: &Vec<bool>) -> (found: Option<usize>)
    requires
        hits@.len() == rects@.len(),
    ensures
        match found {
            Some(i) => i < rects@.len() && hits@[i as int] && navigable(rects@[i as int])
                && forall|j: int| i < j < rects@.len() ==> !(hits@[j] && navigable(rects@[j])),
            None => forall|j: int| 0 <= j < rects@.len() ==> !(hits@[j] && navigable(rects@[j])),
        },
        match found {
            Some(i) => rects@[i as int].id > 0 && !rects@[i as int].is_files
                && !rects@[i as int].is_file && forall|j: int|
                i < j < rects@.len() && hits@[j] ==> !(rects@[j].id > 0 && !rects@[j].is_files
                    && !rects@[j].is_file),
            None => forall|j: int|
                0 <= j < rects@.len() && hits@[j] ==> !(rects@[j].id > 0 && !rects@[j].is_files
                    && !rects@[j].is_file),
        },
{
    let mut target: Option<usize> = None;
    let mut i: usize = 0;
    while i < rects.len()
        invariant
            i <= rects@.len(),
            hits@.len() == rects@.len(),
            match target {
                Some(t) => t < i && hits@[t as int] && navigable(rects@[t as int]) && forall|j: int|
                    t < j < i ==> !(hits@[j] && navigable(rects@[j])),
                None => forall|j: int| 0 <= j < i ==> !(hits@[j] && navigable(rects@[j])),
            },
        decreases rects@.len() - i,
    {
        let r = &rects[i];
        if hits[i] && !r.is_files && !r.is_file && r.id > 0 {
            target = Some(i);
        }
        i += 1;
    }
    target
}

/// A click can lead into any rectangle that stands for a directory: one with a positive id
/// that is neither the box of other files nor one file, whether or not subdirectories are
/// nested in it (a directory that holds only files is drawn without nesting).
pub proof fn law_navigable_is_any_directory(rect: RectInfo)
    ensures
        navigable(rect) <==> (rect.id > 0 && !rect.is_files && !rect.is_file),
{
}

/// The last index of `rects` whose id is the positive number `key`.
pub open spec fn last_with_id(rects: Seq<RectInfo>, key: u64) -> Option<int>
    decreases rects.len(),
{
    if rects.len() == 0 {
        None
    } else if rects.last().id > 0 && rects.last().id as u64 == key {
        Some(rects.len() - 1)
    } else {
        last_with_id(rects.drop_last(), key)
    }
}

/// `index` maps each directory id of `rects` to the last index with it, and holds no other id.
pub open spec fn indexes_ids(index: Map<u64, usize>, rects: Seq<RectInfo>) -> bool {
    &&& forall|key: u64| #[trigger]
        index.contains_key(key) <==> last_with_id(rects, key) is Some
    &&& forall|key: u64| #[trigger]
        index.contains_key(key) ==> last_with_id(rects, key) == Some(index[key] as int)
}

/// The index of each directory id among the rectangles (the last one with it).
pub fn rect_index(rects: &Vec<RectInfo>) -> (index: HashMap<u64, usize>)
    ensures
        indexes_ids(index@, rects@),
{
    let mut index: HashMap<u64, usize> = HashMap::new();
    let mut i: usize = 0;
    proof {
        assert(rects@.take(0) =~= Seq::<RectInfo>::empty());
    }
    while i < rects.len()
        invariant
            i <= rects@.len(),
            indexes_ids(index@, rects@.take(i as int)),
        decreases rects@.len() - i,
    {
        let id = rects[i].id;
        let ghost before = index@;
        proof {
            let t = rects@.take(i + 1);
            assert(t.drop_last() =~= rects@.take(i as int));
            assert(t.last() == rects@[i as int]);
        }
        if id > 0 {
            index.insert(id as u64, i);
        }
        proof {
            let t = rects@.take(i + 1);
            assert forall|key: u64| #[trigger]
                index@.contains_key(key) <==> last_with_id(t, key) is Some by {
                assert(before.contains_key(key) <==> last_with_id(rects@.take(i as int), key) is Some);
            }
            assert forall|key: u64| #[trigger]
                index@.contains_key(key) implies last_with_id(t, key) == Some(index@[key] as int) by {
                if !(id > 0 && id as u64 == key) {
                    assert(before.contains_key(key));
                }
            }
        }
        i += 1;
    }
    proof {
        assert(rects@.take(i as int) =~= rects@);
    }
    index
}

/// The text shown for a breadcrumb entry: its name, or `/` for the unnamed root.
pub open spec fn crumb_text(entry: BreadcrumbEntry) -> Seq<char> {
    if entry.name@.len() == 0 {
        seq!['/']
    } else {
        entry.name@
    }
}

/// The texts of the breadcrumb entries, in order.
pub fn breadcrumb_parts(breadcrumb: &Vec<BreadcrumbEntry>) -> (parts: Vec<String>)
    ensures
        parts@.len() == breadcrumb@.len(),
        forall|i: int| 0 <= i < breadcrumb@.len() ==> #[trigger] parts@[i]@ == crumb_text(
            breadcrumb@[i],
        ),
{
    let mut parts: Vec<String> = Vec::new();
    let mut i: usize = 0;
    while i < breadcrumb.len()
        invariant
            i <= breadcrumb@.len(),
            parts@.len() == i,
            forall|j: int| 0 <= j < i ==> #[trigger] parts@[j]@ == crumb_text(breadcrumb@[j]),
        decreases breadcrumb@.len() - i,
    {
        let entry = &breadcrumb[i];
        if entry.name.as_str().unicode_len() == 0 {
            let mut slash = String::new();
            slash.push('/');
            proof {
                assert(slash@ =~= seq!['/']);
            }
            parts.push(slash);
        } else {
            parts.push(entry.name.clone());
        }
        i += 1;
    }
    parts
}

/// The walk up from directory `parent` through the rectangles of `index` ends within `n`
/// steps: it reaches a directory without a rectangle, and every index it meets is in range.
pub open spec fn ancestry_ends(rects: Seq<RectInfo>, index: Map<u64, usize>, parent: u64, n: nat) -> bool
    decreases n,
{
    n > 0 && (index.contains_key(parent) ==> index[parent] < rects.len() && ancestry_ends(
        rects,
        index,
        rects[index[parent] as int].parent_id,
        (n - 1) as nat,
    ))
}

/// The rectangles that the walk up from directory `parent` meets, nearest first, within `n`
/// steps.
pub open spec fn ancestry(rects: Seq<RectInfo>, index: Map<u64, usize>, parent: u64, n: nat) -> Seq<usize>
    decreases n,
{
    if n == 0 || !index.contains_key(parent) {
        Seq::empty()
    } else {
        seq![index[parent]] + ancestry(rects, index, rects[index[parent] as int].parent_id, (n - 1) as nat)
    }
}

/// The rectangles that the walk up from directory `parent` meets, when it ends.
pub open spec fn ancestry_of(rects: Seq<RectInfo>, index: Map<u64, usize>, parent: u64) -> Seq<usize> {
    ancestry(rects, index, parent, choose|n: nat| ancestry_ends(rects, index, parent, n))
}

proof fn lemma_ancestry_fuel(rects: Seq<RectInfo>, index: Map<u64, usize>, parent: u64, n: nat, m: nat)
    requires
        ancestry_ends(rects, index, parent, n),
        n <= m,
    ensures
        ancestry_ends(rects, index, parent, m),
        ancestry(rects, index, parent, n) == ancestry(rects, index, parent, m),
    decreases n,
{
    if index.contains_key(parent) {
        lemma_ancestry_fuel(rects, index, rects[index[parent] as int].parent_id, (n - 1) as nat, (m - 1) as nat);
    }
}

/// The entries of `s` whose rectangles hold nested ones, in order.
pub open spec fn containers_in(rects: Seq<RectInfo>, s: Seq<usize>) -> Seq<usize>
    decreases s.len(),
{
    if s.len() == 0 {
        Seq::empty()
    } else {
        let rest = containers_in(rects, s.drop_last());
        if rects[s.last() as int].is_container {
            rest.push(s.last())
        } else {
            rest
        }
    }
}

/// `parts` joined with `/` between them.
pub open spec fn joined(parts: Seq<Seq<char>>) -> Seq<char>
    decreases parts.len(),
{
    if parts.len() == 0 {
        Seq::empty()
    } else if parts.len() == 1 {
        parts[0]
    } else {
        joined(parts.drop_last()) + seq!['/'] + parts.last()
    }
}

/// The parts of the path shown for the hovered rectangle: the breadcrumb texts, the names of
/// the containers around it from the outermost in, and its own name.
pub open spec fn hover_parts(
    rects: Seq<RectInfo>,
    crumbs: Seq<String>,
    ancestors: Seq<usize>,
    hovered: usize,
) -> Seq<Seq<char>> {
    crumbs.map_values(|c: String| c@) + Seq::new(
        ancestors.len(),
        |k: int| rects[ancestors[ancestors.len() - 1 - k] as int].name@,
    ) + seq![rects[hovered as int].name@]
}

/// What the view shows about the rectangle under the pointer.
pub struct HoverState {
    /// The rectangle under the pointer.
    pub hovered_index: usize,
    /// The containers around it, nearest first.
    pub ancestor_indices: Vec<usize>,
    /// Its path.
    pub path_text: String,
    /// Its bytes.
    pub size: u64,
}

/// Joins `parts` with `/` between them.
fn join_with_slashes(parts: &Vec<String>) -> (text: String)
    ensures
        text@ == joined(parts@.map_values(|p: String| p@)),
{
    let mut text = String::new();
    let mut i: usize = 0;
    while i < parts.len()
        invariant
            i <= parts@.len(),
            text@ == joined(parts@.take(i as int).map_values(|p: String| p@)),
        decreases parts@.len() - i,
    {
        let ghost before = text@;
        if i > 0 {
            text.push('/');
        }
        text.push_str(parts[i].as_str());
        proof {
            let t = parts@.take(i + 1).map_values(|p: String| p@);
            assert(t.drop_last() =~= parts@.take(i as int).map_values(|p: String| p@));
            assert(t.last() == parts@[i as int]@);
            if i == 0 {
                assert(t.len() == 1);
                assert(text@ =~= t[0]);
            } else {
                assert(text@ =~= joined(t));
            }
        }
        i += 1;
    }
    proof {
        assert(parts@.take(i as int) =~= parts@);
    }
    text
}

/// What the view shows about rectangle `hovered`: the containers around it (found by walking
/// up through `index`), its path after the breadcrumb texts `crumbs`, and its bytes.
pub fn hover_state(
    rects: &Vec<RectInfo>,
    index: &HashMap<u64, usize>,
    crumbs: &Vec<String>,
    hovered: usize,
) -> (state: HoverState)
    requires
        hovered < rects@.len(),
        exists|n: nat| ancestry_ends(rects@, index@, rects@[hovered as int].parent_id, n),
    ensures
        state.hovered_index == hovered,
        state.ancestor_indices@ == containers_in(
            rects@,
            ancestry_of(rects@, index@, rects@[hovered as int].parent_id),
        ),
        state.path_text@ == slashes_collapsed(
            joined(hover_parts(rects@, crumbs@, state.ancestor_indices@, hovered)),
        ),
        state.size == rects@[hovered as int].size,
{
    let start = rects[hovered].parent_id;
    let ghost fuel = choose|n: nat| ancestry_ends(rects@, index@, start, n);
    let ghost walk = ancestry(rects@, index@, start, fuel);
    let mut current = start;
    let mut ancestors: Vec<usize> = Vec::new();
    let ghost mut seen: Seq<usize> = Seq::empty();
    let ghost mut left: nat = fuel;
    proof {
        assert(walk =~= seen + ancestry(rects@, index@, current, left));
    }
    loop
        invariant
            hovered < rects@.len(),
            ancestry_ends(rects@, index@, current, left),
            walk == ancestry(rects@, index@, start, fuel),
            walk == seen + ancestry(rects@, index@, current, left),
            ancestors@ == containers_in(rects@, seen),
            forall|a: int| 0 <= a < ancestors@.len() ==> #[trigger] ancestors@[a] < rects@.len(),
        ensures
            ancestors@ == containers_in(rects@, walk),
            forall|a: int| 0 <= a < ancestors@.len() ==> #[trigger] ancestors@[a] < rects@.len(),
        decreases left,
    {
        let next = match index.get(&current) {
            Some(i) => *i,
            None => {
                proof {
                    assert(ancestry(rects@, index@, current, left) =~= Seq::<usize>::empty());
                    assert(walk =~= seen);
                }
                break;
            },
        };
        let rect = &rects[next];
        proof {
            let rest = ancestry(rects@, index@, rect.parent_id, (left - 1) as nat);
            assert(ancestry(rects@, index@, current, left) == seq![next] + rest);
            assert(walk =~= seen.push(next) + rest);
            assert(seen.push(next).drop_last() =~= seen);
        }
        if rect.is_container {
            ancestors.push(next);
        }
        proof {
            seen = seen.push(next);
            left = (left - 1) as nat;
        }
        current = rect.parent_id;
    }
    proof {
        lemma_ancestry_fuel_any(rects@, index@, start, fuel);
    }
    let mut parts: Vec<String> = Vec::new();
    let mut i: usize = 0;
    while i < crumbs.len()
        invariant
            i <= crumbs@.len(),
            parts@.len() == i,
            forall|j: int| 0 <= j < i ==> #[trigger] parts@[j]@ == crumbs@[j]@,
        decreases crumbs@.len() - i,
    {
        parts.push(crumbs[i].clone());
        i += 1;
    }
    let mut k = ancestors.len();
    while k > 0
        invariant
            k <= ancestors@.len(),
            hovered < rects@.len(),
            forall|a: int| 0 <= a < ancestors@.len() ==> #[trigger] ancestors@[a] < rects@.len(),
            parts@.len() == crumbs@.len() + (ancestors@.len() - k),
            forall|j: int| 0 <= j < crumbs@.len() ==> #[trigger] parts@[j]@ == crumbs@[j]@,
            forall|j: int|
                crumbs@.len() <= j < parts@.len() ==> #[trigger] parts@[j]@ == rects@[ancestors@[ancestors@.len() - 1 - (j - crumbs@.len())] as int].name@,
        decreases k,
    {
        parts.push(rects[ancestors[k - 1]].name.clone());
        k -= 1;
    }
    parts.push(rects[hovered].name.clone());
    proof {
        assert(parts@.map_values(|p: String| p@) =~= hover_parts(rects@, crumbs@, ancestors@, hovered));
    }
    let text = join_with_slashes(&parts);
    HoverState {
        hovered_index: hovered,
        ancestor_indices: ancestors,
        path_text: collapse_slashes(text),
        size: rects[hovered].size,
    }
}

/// The rectangles that the walk up meets after its entry at `m` are the walk up from the
/// directory that rectangle lies in.
proof fn lemma_ancestry_suffix(rects: Seq<RectInfo>, index: Map<u64, usize>, parent: u64, n: nat, m: int)
    requires
        ancestry_ends(rects, index, parent, n),
        0 <= m < ancestry(rects, index, parent, n).len(),
    ensures
        m + 1 < n,
        ancestry(rects, index, parent, n)[m] < rects.len(),
        ancestry_ends(
            rects,
            index,
            rects[ancestry(rects, index, parent, n)[m] as int].parent_id,
            (n - m - 1) as nat,
        ),
        ancestry(rects, index, parent, n).skip(m + 1) == ancestry(
            rects,
            index,
            rects[ancestry(rects, index, parent, n)[m] as int].parent_id,
            (n - m - 1) as nat,
        ),
    decreases m,
{
    let w = ancestry(rects, index, parent, n);
    let i = index[parent];
    let q = rects[i as int].parent_id;
    let rest = ancestry(rects, index, q, (n - 1) as nat);
    assert(w == seq![i] + rest);
    if m == 0 {
        assert(w.skip(1) =~= rest);
        assert(ancestry_ends(rects, index, q, (n - 1) as nat));
    } else {
        lemma_ancestry_suffix(rects, index, q, (n - 1) as nat, m - 1);
        assert(rest[m - 1] == w[m]);
        assert(rest.skip(m) =~= w.skip(m + 1));
    }
}

/// A walk up that ends never meets a rectangle twice, so it meets at most as many as there are.
proof fn lemma_ancestry_distinct(rects: Seq<RectInfo>, index: Map<u64, usize>, parent: u64, n: nat)
    requires
        ancestry_ends(rects, index, parent, n),
    ensures
        ancestry(rects, index, parent, n).no_duplicates(),
        ancestry(rects, index, parent, n).len() <= rects.len(),
        ancestry_ends(rects, index, parent, ancestry(rects, index, parent, n).len() + 1),
    decreases n,
{
    let w = ancestry(rects, index, parent, n);
    if index.contains_key(parent) {
        let i = index[parent];
        let q = rects[i as int].parent_id;
        let rest = ancestry(rects, index, q, (n - 1) as nat);
        lemma_ancestry_distinct(rects, index, q, (n - 1) as nat);
        assert(w == seq![i] + rest);
        if rest.contains(i) {
            let m = choose|m: int| 0 <= m < rest.len() && rest[m] == i;
            lemma_ancestry_suffix(rects, index, q, (n - 1) as nat, m);
            let again = ancestry(rects, index, q, (n - 2 - m) as nat);
            assert(rest.skip(m + 1) == again);
            lemma_ancestry_fuel(rects, index, q, (n - 2 - m) as nat, (n - 1) as nat);
            assert(again.len() == rest.len() - m - 1);
            assert(false);
        }
        assert forall|a: int, b: int| 0 <= a < b < w.len() implies w[a] != w[b] by {
            if a == 0 {
                assert(w[b] == rest[b - 1]);
            } else {
                assert(w[a] == rest[a - 1] && w[b] == rest[b - 1]);
            }
        }
        assert forall|a: int| 0 <= a < w.len() implies w[a] < rects.len() by {
            if a > 0 {
                assert(w[a] == rest[a - 1]);
                lemma_ancestry_suffix(rects, index, q, (n - 1) as nat, a - 1);
            }
        }
        let ints = w.map_values(|k: usize| k as int);
        assert(ints.no_duplicates()) by {
            assert forall|a: int, b: int| 0 <= a < b < ints.len() implies ints[a] != ints[b] by {
                assert(w[a] != w[b]);
            }
        }
        assert(ints.to_set().subset_of(vstd::set_lib::set_int_range(0, rects.len() as int))) by {
            assert forall|k: int| ints.to_set().contains(k) implies vstd::set_lib::set_int_range(
                0,
                rects.len() as int,
            ).contains(k) by {
                let a = choose|a: int| 0 <= a < ints.len() && ints[a] == k;
                assert(w[a] < rects.len());
            }
        }
        ints.unique_seq_to_set();
        vstd::set_lib::lemma_int_range(0, rects.len() as int);
        vstd::set_lib::lemma_len_subset(ints.to_set(), vstd::set_lib::set_int_range(0, rects.len() as int));
    }
}

/// Whether the walk up from directory `parent` through `index` ends, meeting only indices of
/// `rects`. It is followed for at most as many steps as there are rectangles, which is
/// enough, since a walk that ends never meets a rectangle twice.
pub fn ancestry_ends_from(rects: &Vec<RectInfo>, index: &HashMap<u64, usize>, parent: u64) -> (ok: bool)
    ensures
        ok == exists|n: nat| ancestry_ends(rects@, index@, parent, n),
{
    let limit = rects.len();
    let mut steps: usize = 0;
    let mut current = parent;
    loop
        invariant
            limit == rects@.len(),
            steps <= limit,
            forall|m: nat|
                #![trigger ancestry_ends(rects@, index@, current, m)]
                ancestry_ends(rects@, index@, parent, (steps + m) as nat) == ancestry_ends(
                    rects@,
                    index@,
                    current,
                    m,
                ),
            forall|m: nat|
                #![trigger ancestry(rects@, index@, current, m)]
                ancestry(rects@, index@, parent, (steps + m) as nat).len() == steps + ancestry(
                    rects@,
                    index@,
                    current,
                    m,
                ).len(),
        decreases limit - steps,
    {
        let next = match index.get(&current) {
            Some(i) => *i,
            None => {
                proof {
                    assert(ancestry_ends(rects@, index@, current, 1));
                    assert(ancestry_ends(rects@, index@, parent, (steps + 1) as nat));
                }
                return true;
            },
        };
        if next >= rects.len() {
            proof {
                if exists|n: nat| ancestry_ends(rects@, index@, parent, n) {
                    let n = choose|n: nat| ancestry_ends(rects@, index@, parent, n);
                    lemma_ancestry_fuel(rects@, index@, parent, n, (n + steps + 1) as nat);
                    assert(ancestry_ends(rects@, index@, current, (n + 1) as nat));
                }
            }
            return false;
        }
        if steps >= limit {
            proof {
                if exists|n: nat| ancestry_ends(rects@, index@, parent, n) {
                    let n = choose|n: nat| ancestry_ends(rects@, index@, parent, n);
                    let f = (n + steps + 1) as nat;
                    lemma_ancestry_fuel(rects@, index@, parent, n, f);
                    lemma_ancestry_distinct(rects@, index@, parent, f);
                    let m = (f - steps) as nat;
                    assert(ancestry(rects@, index@, parent, (steps + m) as nat).len() == steps
                        + ancestry(rects@, index@, current, m).len());
                    assert(ancestry(rects@, index@, current, m).len() >= 1);
                }
            }
            return false;
        }
        let q = rects[next].parent_id;
        proof {
            assert forall|m: nat|
                #![trigger ancestry_ends(rects@, index@, q, m)]
                ancestry_ends(rects@, index@, parent, (steps + 1 + m) as nat) == ancestry_ends(
                    rects@,
                    index@,
                    q,
                    m,
                ) by {
                let m1 = (m + 1) as nat;
                assert(ancestry_ends(rects@, index@, parent, (steps + m1) as nat) == ancestry_ends(
                    rects@,
                    index@,
                    current,
                    m1,
                ));
            }
            assert forall|m: nat|
                #![trigger ancestry(rects@, index@, q, m)]
                ancestry(rects@, index@, parent, (steps + 1 + m) as nat).len() == steps + 1
                    + ancestry(rects@, index@, q, m).len() by {
                let m1 = (m + 1) as nat;
                assert(ancestry(rects@, index@, parent, (steps + m1) as nat).len() == steps
                    + ancestry(rects@, index@, current, m1).len());
                assert(ancestry(rects@, index@, current, m1) == seq![next] + ancestry(
                    rects@,
                    index@,
                    q,
                    m,
                ));
            }
        }
        current = q;
        steps += 1;
    }
}

/// Any fuel with which the walk up ends gives the same rectangles.
proof fn lemma_ancestry_fuel_any(rects: Seq<RectInfo>, index: Map<u64, usize>, parent: u64, n: nat)
    requires
        ancestry_ends(rects, index, parent, n),
    ensures
        ancestry_of(rects, index, parent) == ancestry(rects, index, parent, n),
{
    let k = choose|k: nat| ancestry_ends(rects, index, parent, k);
    if k <= n {
        lemma_ancestry_fuel(rects, index, parent, k, n);
    } else {
        lemma_ancestry_fuel(rects, index, parent, n, k);
    }
}

/// How one rectangle moves from one layout to the next.
pub enum Step {
    /// The rectangle at `from` in the old layout becomes the one at `to` in the new.
    Matched { from: usize, to: usize },
    /// The rectangle at `to` of the new layout grows from nothing.
    Entering { to: usize },
    /// The rectangle at `from` of the old layout shrinks away.
    Exiting { from: usize },
}

/// The last index of `ids` that holds `id`.
pub open spec fn last_index_of_id(ids: Seq<i64>, id: i64) -> Option<int>
    decreases ids.len(),
{
    if ids.len() == 0 {
        None
    } else if ids.last() == id {
        Some(ids.len() - 1)
    } else {
        last_index_of_id(ids.drop_last(), id)
    }
}

/// The step of the rectangle at `j` of the new layout.
pub open spec fn step_of_new(from: Seq<i64>, to: Seq<i64>, j: int) -> Step {
    match last_index_of_id(from, to[j]) {
        Some(i) => Step::Matched { from: i as usize, to: j as usize },
        None => Step::Entering { to: j as usize },
    }
}

/// The steps of the rectangles of the old layout (the first `n` of them) whose ids the new
/// layout lacks, in order.
pub open spec fn exits(from: Seq<i64>, to: Seq<i64>, n: int) -> Seq<Step>
    decreases n,
{
    if n <= 0 {
        Seq::empty()
    } else if to.contains(from[n - 1]) {
        exits(from, to, n - 1)
    } else {
        exits(from, to, n - 1).push(Step::Exiting { from: (n - 1) as usize })
    }
}

/// The steps from the layout with rectangle ids `from` to the one with `to`: one for each new
/// rectangle in order, matched with the last old one of the same id or entering; then one for
/// each old rectangle whose id the new layout lacks, exiting.
pub open spec fn steps_of(from: Seq<i64>, to: Seq<i64>) -> Seq<Step> {
    Seq::new(to.len(), |j: int| step_of_new(from, to, j)) + exits(from, to, from.len() as int)
}

/// The steps from the layout whose rectangles have ids `from` to the one with ids `to`.
pub fn interpolation_steps(from: &Vec<i64>, to: &Vec<i64>) -> (steps: Vec<Step>)
    ensures
        steps@ == steps_of(from@, to@),
{
    let mut from_by_id: HashMap<i64, usize> = HashMap::new();
    let mut i: usize = 0;
    proof {
        assert(from@.take(0) =~= Seq::<i64>::empty());
    }
    while i < from.len()
        invariant
            i <= from@.len(),
            forall|id: i64| #[trigger]
                from_by_id@.contains_key(id) <==> last_index_of_id(from@.take(i as int), id) is Some,
            forall|id: i64| #[trigger]
                from_by_id@.contains_key(id) ==> last_index_of_id(from@.take(i as int), id) == Some(
                    from_by_id@[id] as int,
                ),
        decreases from@.len() - i,
    {
        let ghost before = from_by_id@;
        let id = from[i];
        from_by_id.insert(id, i);
        proof {
            let t = from@.take(i + 1);
            assert(t.drop_last() =~= from@.take(i as int));
            assert(t.last() == id);
            assert forall|k: i64| #[trigger]
                from_by_id@.contains_key(k) <==> last_index_of_id(t, k) is Some by {
                assert(before.contains_key(k) <==> last_index_of_id(from@.take(i as int), k) is Some);
            }
            assert forall|k: i64| #[trigger]
                from_by_id@.contains_key(k) implies last_index_of_id(t, k) == Some(from_by_id@[k] as int) by {
                if k != id {
                    assert(before.contains_key(k));
                }
            }
        }
        i += 1;
    }
    proof {
        assert(from@.take(i as int) =~= from@);
    }
    let mut seen: HashSet<i64> = HashSet::new();
    let mut steps: Vec<Step> = Vec::new();
    let mut j: usize = 0;
    while j < to.len()
        invariant
            j <= to@.len(),
            forall|id: i64| #[trigger]
                from_by_id@.contains_key(id) <==> last_index_of_id(from@, id) is Some,
            forall|id: i64| #[trigger]
                from_by_id@.contains_key(id) ==> last_index_of_id(from@, id) == Some(
                    from_by_id@[id] as int,
                ),
            seen@ == to@.take(j as int).to_set(),
            steps@ == Seq::new(j as nat, |k: int| step_of_new(from@, to@, k)),
        decreases to@.len() - j,
    {
        let id = to[j];
        seen.insert(id);
        let step = match from_by_id.get(&id) {
            Some(f) => Step::Matched { from: *f, to: j },
            None => Step::Entering { to: j },
        };
        steps.push(step);
        proof {
            assert(to@.take(j + 1) =~= to@.take(j as int).push(id));
            to@.take(j as int).lemma_push_to_set_commute(id);
            assert(seen@ =~= to@.take(j + 1).to_set());
            assert(steps@ =~= Seq::new((j + 1) as nat, |k: int| step_of_new(from@, to@, k)));
        }
        j += 1;
    }
    proof {
        assert(to@.take(j as int) =~= to@);
        assert(seen@ =~= to@.to_set());
    }
    let ghost news = steps@;
    let mut i: usize = 0;
    while i < from.len()
        invariant
            i <= from@.len(),
            seen@ == to@.to_set(),
            news == Seq::new(to@.len(), |k: int| step_of_new(from@, to@, k)),
            steps@ == news + exits(from@, to@, i as int),
        decreases from@.len() - i,
    {
        let id = from[i];
        proof {
            assert(to@.to_set().contains(id) <==> to@.contains(id));
        }
        if !seen.contains(&id) {
            steps.push(Step::Exiting { from: i });
        }
        proof {
            assert(steps@ =~= news + exits(from@, to@, i + 1));
        }
        i += 1;
    }
    steps
}

/// `parts` joined with `/`: those of `a`, a `/`, then those of `b`.
proof fn lemma_joined_append(a: Seq<Seq<char>>, b: Seq<Seq<char>>)
    requires
        a.len() > 0,
        b.len() > 0,
    ensures
        joined(a + b) == joined(a) + seq!['/'] + joined(b),
    decreases b.len(),
{
    if b.len() == 1 {
        assert((a + b).drop_last() =~= a);
        assert((a + b).last() == b[0]);
    } else {
        lemma_joined_append(a, b.drop_last());
        assert((a + b).drop_last() =~= a + b.drop_last());
        assert((a + b).last() == b.last());
        assert(joined(a + b) =~= joined(a) + seq!['/'] + joined(b));
    }
}

/// Folding the runs of `/` in a prefix gives a prefix of folding them in the whole.
proof fn lemma_collapsed_prefix(s: Seq<char>, n: int)
    requires
        0 <= n <= s.len(),
    ensures
        slashes_collapsed(s.take(n)).len() <= slashes_collapsed(s).len(),
        slashes_collapsed(s).take(slashes_collapsed(s.take(n)).len() as int) == slashes_collapsed(
            s.take(n),
        ),
    decreases s.len(),
{
    if n == s.len() {
        assert(s.take(n) =~= s);
        assert(slashes_collapsed(s).take(slashes_collapsed(s).len() as int) =~= slashes_collapsed(s));
    } else {
        lemma_collapsed_prefix(s.drop_last(), n);
        assert(s.drop_last().take(n) =~= s.take(n));
        let p = slashes_collapsed(s.take(n));
        let d = slashes_collapsed(s.drop_last());
        if s.last() == '/' && s.len() >= 2 && s[s.len() - 2] == '/' {
        } else {
            assert(slashes_collapsed(s) == d.push(s.last()));
            assert(d.push(s.last()).take(p.len() as int) =~= d.take(p.len() as int));
        }
    }
}

/// The path shown for a hovered rectangle is every breadcrumb text, in order and none left
/// out, then the names of the containers around the rectangle from the outermost in, then its
/// own name, all joined with `/`; folding the runs of `/` keeps the breadcrumbs' part at its
/// start.
pub proof fn law_hover_path_keeps_every_crumb(
    rects: Seq<RectInfo>,
    crumbs: Seq<String>,
    ancestors: Seq<usize>,
    hovered: usize,
)
    ensures
        ({
            let texts = crumbs.map_values(|c: String| c@);
            let inner = Seq::new(
                ancestors.len(),
                |k: int| rects[ancestors[ancestors.len() - 1 - k] as int].name@,
            ).push(rects[hovered as int].name@);
            let path = joined(hover_parts(rects, crumbs, ancestors, hovered));
            &&& crumbs.len() == 0 ==> path == joined(inner)
            &&& crumbs.len() > 0 ==> path == joined(texts) + seq!['/'] + joined(inner)
            &&& slashes_collapsed(joined(texts)).len() <= slashes_collapsed(path).len()
            &&& crumbs.len() > 0 ==> slashes_collapsed(path).take(
                slashes_collapsed(joined(texts)).len() as int,
            ) == slashes_collapsed(joined(texts))
        }),
{
    let texts = crumbs.map_values(|c: String| c@);
    let mids = Seq::new(
        ancestors.len(),
        |k: int| rects[ancestors[ancestors.len() - 1 - k] as int].name@,
    );
    let inner = mids.push(rects[hovered as int].name@);
    let parts = hover_parts(rects, crumbs, ancestors, hovered);
    assert(parts =~= texts + inner);
    let path = joined(parts);
    if crumbs.len() == 0 {
        assert(texts + inner =~= inner);
        assert(texts =~= Seq::<Seq<char>>::empty());
    } else {
        lemma_joined_append(texts, inner);
        let jt = joined(texts);
        assert(path.take(jt.len() as int) =~= jt);
        lemma_collapsed_prefix(path, jt.len() as int);
    }
}

} // verus!
