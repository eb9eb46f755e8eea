use std::collections::HashMap;

use vstd::prelude::*;

use crate::color::{hash_name, hue_for_extension, spec_hash_name, spec_hue_for_extension};
pub use crate::filter::FilterConfig;
use crate::hierarchy::{
    acyclic_below, add_along, add_along_fits, lemma_add_along_fits_distinct, lemma_add_along_fits_each, lemma_add_along_fits_prefix, lemma_walk_agree,
    lemma_walk_distinct, lemma_walk_fuel, lemma_walk_len_bound, lemma_walk_shape, lemma_walk_up, parents_agree_except, steps_up, walk, walk_ends,
    walk_terminates, walk_up, all_bounded, bounded, children_follow, children_of, depth_bound, get_or_zero,
    lemma_all_bounded, lemma_all_bounded_monotone, lemma_canonical, lemma_pre_children_follow,
    lemma_pre_members_bounded, lemma_pre_stack_append, lemma_pre_total_bound, lemma_stack_fuel,
    lemma_sum_recorded_prefix, lemma_sum_recorded_total, lemma_total_stack_nonnegative, lemma_total_stack_prefix, lemma_bounded_by_size,
    listed_after, nonnegative, pre, pre_stack, sum_recorded, sums_below, subtree_order,
    subtree_total, total, total_stack,
};
use crate::paths::{join_components, push_path_component};
use crate::text::{chars_of, find_last, last_index_of, utf8_len, utf8_len_of};

verus! {

broadcast use vstd::std_specs::hash::group_hash_axioms;

/// A file directly inside a directory.
pub struct FileEntry {
    pub name: String,
    pub size: u64,
    pub hue: u16,
    pub mtime: i64,
}

/// A directory: its parent (0 for none), name, the bytes of the files directly in it, its
/// subdirectories and files, its hue and modification time.
pub struct DirNode {
    pub parent: u64,
    pub name: String,
    pub direct_size: u64,
    pub children: Vec<u64>,
    pub files: Vec<FileEntry>,
    pub hue: u16,
    pub mtime: i64,
}

impl DirNode {
    /// A node with nothing set: what stands for a parent that was named before it was seen.
    pub open spec fn is_blank(&self) -> bool {
        &&& self.parent == 0
        &&& self.name@.len() == 0
        &&& self.direct_size == 0
        &&& self.children@.len() == 0
        &&& self.files@.len() == 0
        &&& self.hue == 0
        &&& self.mtime == 0
    }

    pub fn blank() -> (node: DirNode)
        ensures
            node.is_blank(),
    {
        DirNode {
            parent: 0,
            name: String::new(),
            direct_size: 0,
            children: Vec::new(),
            files: Vec::new(),
            hue: 0,
            mtime: 0,
        }
    }
}

impl Default for DirNode {
    fn default() -> (node: DirNode)
        ensures
            node.is_blank(),
    {
        DirNode::blank()
    }
}

/// What a scanner reports, in order: the scan's start (with the scanned path), each directory
/// (with the bytes of the files directly in it) and each file, and the end.
pub enum ScanEvent {
    ScanStart { path: String },
    Dir { id: u64, parent: u64, name: String, size: u64, mtime: i64 },
    File { parent: u64, name: String, size: u64, mtime: i64 },
    ScanDone,
}

/// One step of a path from the root of a view down to a directory.
#[derive(Clone)]
pub struct BreadcrumbEntry {
    pub id: u64,
    pub name: String,
}

/// The directory tree of a scan, keyed by directory id, with the recursive size of each
/// directory, the scanned path and the range of positive modification times seen.
pub struct DirTree {
    pub nodes: HashMap<u64, DirNode>,
    pub root_id: Option<u64>,
    pub recursive_sizes: HashMap<u64, u64>,
    pub scan_path: String,
    pub mtime_range: (i64, i64),
    pub hue_cache: ExtensionHueCache,
}

/// The range of modification times before any was seen.
pub open spec fn empty_mtime_range() -> (i64, i64) {
    (i64::MAX, 0)
}

/// `range` widened by `mtime` when it is positive.
pub open spec fn widen_mtime_range(range: (i64, i64), mtime: i64) -> (i64, i64) {
    if mtime > 0 {
        (
            if mtime < range.0 { mtime } else { range.0 },
            if mtime > range.1 { mtime } else { range.1 },
        )
    } else {
        range
    }
}

/// The hue of a file: that of its extension (what follows the last `.`) when the extension
/// is not empty and is at most 10 bytes long in UTF-8, 0 otherwise.
pub open spec fn spec_file_hue(name: Seq<char>) -> int {
    let dot = last_index_of(name, '.');
    let extension = name.subrange(dot + 1, name.len() as int);
    if dot < 0 || extension.len() == 0 || utf8_len(extension) > 10 {
        0
    } else {
        spec_hue_for_extension(extension)
    }
}

/// `nodes` with `parent` (created blank if absent) listing one more file.
pub open spec fn nodes_with_file(
    nodes: Map<u64, DirNode>,
    parent: u64,
    node: DirNode,
    file: FileEntry,
) -> bool {
    &&& node.files@ == (if nodes.contains_key(parent) {
        nodes[parent].files@
    } else {
        Seq::empty()
    }).push(file)
    &&& nodes.contains_key(parent) ==> {
        &&& node.parent == nodes[parent].parent
        &&& node.name == nodes[parent].name
        &&& node.direct_size == nodes[parent].direct_size
        &&& node.children == nodes[parent].children
        &&& node.hue == nodes[parent].hue
        &&& node.mtime == nodes[parent].mtime
    }
    &&& !nodes.contains_key(parent) ==> {
        &&& node.parent == 0
        &&& node.name@.len() == 0
        &&& node.direct_size == 0
        &&& node.children@.len() == 0
        &&& node.hue == 0
        &&& node.mtime == 0
    }
}

/// The bytes of the files of `files` that `filter` lets through.
pub open spec fn matching_size(filter: FilterConfig, files: Seq<FileEntry>) -> int
    decreases files.len(),
{
    if files.len() == 0 {
        0
    } else {
        matching_size(filter, files.drop_last()) + if filter.spec_matches_file(
            files.last().name@,
            files.last().size,
        ) {
            files.last().size as int
        } else {
            0
        }
    }
}

pub proof fn lemma_matching_size_prefix(filter: FilterConfig, files: Seq<FileEntry>, j: int)
    requires
        0 <= j <= files.len(),
    ensures
        0 <= matching_size(filter, files.take(j)) <= matching_size(filter, files),
    decreases files.len() - j,
{
    if j < files.len() {
        lemma_matching_size_prefix(filter, files, j + 1);
        lemma_matching_size_nonnegative(filter, files.take(j));
        assert(files.take(j + 1).drop_last() =~= files.take(j));
    } else {
        assert(files.take(j) =~= files);
        lemma_matching_size_nonnegative(filter, files);
    }
}

pub proof fn lemma_matching_size_nonnegative(filter: FilterConfig, files: Seq<FileEntry>)
    ensures
        matching_size(filter, files) >= 0,
    decreases files.len(),
{
    if files.len() > 0 {
        lemma_matching_size_nonnegative(filter, files.drop_last());
    }
}

/// What a directory weighs in its recursive size: the bytes directly in it.
pub open spec fn direct_weight() -> spec_fn(DirNode) -> int {
    |d: DirNode| d.direct_size as int
}

/// What a directory weighs in its filtered size: the bytes of its files that pass `filter`.
pub open spec fn filtered_weight(filter: FilterConfig) -> spec_fn(DirNode) -> int {
    |d: DirNode| matching_size(filter, d.files@)
}

pub proof fn lemma_direct_weight_nonnegative()
    ensures
        nonnegative(direct_weight()),
{
}

pub proof fn lemma_filtered_weight_nonnegative(filter: FilterConfig)
    ensures
        nonnegative(filtered_weight(filter)),
{
    assert forall|d: DirNode| #[trigger] filtered_weight(filter)(d) >= 0 by {
        lemma_matching_size_nonnegative(filter, d.files@);
    }
}

/// The sizes that a bottom-up pass computes, when the tree has a root.
pub open spec fn sizes_for(
    nodes: Map<u64, DirNode>,
    root: Option<u64>,
    weight: spec_fn(DirNode) -> int,
) -> Map<u64, u64> {
    match root {
        Some(r) => sums_below(nodes, r, weight),
        None => Map::empty(),
    }
}

/// A bottom-up pass from the root does not overflow: no cycle below it, and its sum fits.
pub open spec fn sums_fit(
    nodes: Map<u64, DirNode>,
    root: Option<u64>,
    weight: spec_fn(DirNode) -> int,
) -> bool {
    root matches Some(r) ==> acyclic_below(nodes, r) && subtree_total(nodes, r, weight)
        <= u64::MAX
}

/// `start` plus the values recorded for `children`.
fn add_recorded(sizes: &HashMap<u64, u64>, children: &Vec<u64>, start: u64) -> (sum: u64)
    requires
        start + sum_recorded(sizes@, children@) <= u64::MAX,
    ensures
        sum == start + sum_recorded(sizes@, children@),
{
    let mut sum = start;
    let mut k: usize = 0;
    while k < children.len()
        invariant
            k <= children@.len(),
            sum == start + sum_recorded(sizes@, children@.take(k as int)),
            start + sum_recorded(sizes@, children@) <= u64::MAX,
        decreases children@.len() - k,
    {
        proof {
            lemma_sum_recorded_prefix(sizes@, children@, k + 1);
            assert(children@.take(k + 1).drop_last() =~= children@.take(k as int));
        }
        let value = match sizes.get(&children[k]) {
            Some(v) => *v,
            None => 0,
        };
        sum = sum + value;
        k += 1;
    }
    proof {
        assert(children@.take(k as int) =~= children@);
    }
    sum
}

/// The bytes of `files` that `filter` lets through.
fn matching_files_size(filter: &FilterConfig, files: &Vec<FileEntry>) -> (sum: u64)
    requires
        matching_size(*filter, files@) <= u64::MAX,
    ensures
        sum == matching_size(*filter, files@),
{
    let mut sum: u64 = 0;
    let mut k: usize = 0;
    while k < files.len()
        invariant
            k <= files@.len(),
            sum == matching_size(*filter, files@.take(k as int)),
            matching_size(*filter, files@) <= u64::MAX,
        decreases files@.len() - k,
    {
        proof {
            lemma_matching_size_prefix(*filter, files@, k + 1);
            assert(files@.take(k + 1).drop_last() =~= files@.take(k as int));
        }
        let file = &files[k];
        if filter.matches_file(file.name.as_str(), file.size) {
            sum = sum + file.size;
        }
        k += 1;
    }
    proof {
        assert(files@.take(k as int) =~= files@);
    }
    sum
}

/// A directory can hang from `parent` (0 for none): the walk up from `parent` ends and
/// does not come back to the directory itself.
pub open spec fn can_attach(nodes: Map<u64, DirNode>, id: u64, parent: u64) -> bool {
    parent == 0 || (parent != id && walk_terminates(nodes, parent, None) && !walk_up(
        nodes,
        parent,
        None,
    ).contains(id))
}

/// The directories whose recursive size grows when `id` is put under `parent`: `id` and the
/// directories above it.
pub open spec fn attach_chain(nodes: Map<u64, DirNode>, id: u64, parent: u64) -> Seq<u64> {
    if parent == 0 {
        seq![id]
    } else {
        seq![id] + walk_up(nodes, parent, None)
    }
}

/// `b` is `a` with other subdirectories; `b` lists those of `a` (none when `a` is absent),
/// and then `id` when `add` is set.
pub open spec fn same_but_children(a: Option<DirNode>, b: DirNode) -> bool {
    match a {
        Some(a) => {
            &&& b.parent == a.parent
            &&& b.name == a.name
            &&& b.direct_size == a.direct_size
            &&& b.files == a.files
            &&& b.hue == a.hue
            &&& b.mtime == a.mtime
        },
        None => {
            &&& b.parent == 0
            &&& b.name@.len() == 0
            &&& b.direct_size == 0
            &&& b.files@.len() == 0
            &&& b.hue == 0
            &&& b.mtime == 0
        },
    }
}

/// The children listed under `x`, or none.
pub open spec fn listed_children(nodes: Map<u64, DirNode>, x: u64) -> Seq<u64> {
    if nodes.contains_key(x) {
        nodes[x].children@
    } else {
        Seq::empty()
    }
}

/// The files listed under `x`, or none.
pub open spec fn listed_files(nodes: Map<u64, DirNode>, x: u64) -> Seq<FileEntry> {
    if nodes.contains_key(x) {
        nodes[x].files@
    } else {
        Seq::empty()
    }
}

/// `after` is `before` with directory `id` recorded under `parent`: `id` takes the given
/// parent, name, size, hue and time and keeps its subdirectories and files; `parent` (made
/// blank when absent) lists `id` once more; nothing else changes.
pub open spec fn dir_inserted(
    before: Map<u64, DirNode>,
    after: Map<u64, DirNode>,
    id: u64,
    parent: u64,
    name: Seq<char>,
    size: u64,
    hue: u16,
    mtime: i64,
) -> bool {
    &&& after.dom() == (if parent == 0 {
        before.dom().insert(id)
    } else {
        before.dom().insert(id).insert(parent)
    })
    &&& forall|k: u64|
        k != id && (k != parent || parent == 0) && #[trigger] before.contains_key(k)
            ==> after[k] == before[k]
    &&& after[id].parent == parent
    &&& after[id].name@ == name
    &&& after[id].direct_size == size
    &&& after[id].hue == hue
    &&& after[id].mtime == mtime
    &&& after[id].children@ == listed_children(before, id)
    &&& after[id].files@ == listed_files(before, id)
    &&& parent != 0 ==> {
        &&& same_but_children(
            if before.contains_key(parent) {
                Some(before[parent])
            } else {
                None
            },
            after[parent],
        )
        &&& after[parent].children@ == listed_children(before, parent).push(id)
    }
}

/// The root's id, or 0 when there is none.
pub open spec fn root_or_zero(root: Option<u64>) -> u64 {
    match root {
        Some(r) => r,
        None => 0,
    }
}

/// The directories of the map that a walk up from `x` visits, `x` first.
pub open spec fn listed_walk(nodes: Map<u64, DirNode>, x: u64, stop: Option<u64>) -> Seq<u64> {
    let w = walk_up(nodes, x, stop);
    if nodes.contains_key(w.last()) {
        w
    } else {
        w.drop_last()
    }
}

/// The name shown for directory `x`: its own, or the scanned path when it has none.
pub open spec fn crumb_name(nodes: Map<u64, DirNode>, scan_path: Seq<char>, x: u64) -> Seq<char> {
    if nodes[x].name@.len() == 0 {
        scan_path
    } else {
        nodes[x].name@
    }
}

/// The names of the directories of `ids`, last first.
pub open spec fn names_down(nodes: Map<u64, DirNode>, ids: Seq<u64>) -> Seq<Seq<char>> {
    Seq::new(ids.len(), |i: int| nodes[ids[ids.len() - 1 - i]].name@)
}

/// The path of directory `x`: `base` joined with the names of the directories from below
/// the root down to `x`; none when there is no root or the walk up meets a missing directory.
pub open spec fn path_of(
    nodes: Map<u64, DirNode>,
    root: Option<u64>,
    x: u64,
    base: Seq<char>,
) -> Option<Seq<char>> {
    match root {
        None => None,
        Some(r) => {
            let w = walk_up(nodes, x, Some(r));
            if w.last() == r {
                Some(join_components(base, names_down(nodes, w.drop_last())))
            } else if nodes.contains_key(w.last()) {
                Some(join_components(base, names_down(nodes, w)))
            } else {
                None
            }
        },
    }
}

/// The bytes that `filter` lets through among `files`, unless that passes `u64::MAX`.
fn checked_matching_size(filter: &FilterConfig, files: &Vec<FileEntry>) -> (sum: Option<u64>)
    ensures
        match sum {
            Some(s) => s == matching_size(*filter, files@),
            None => matching_size(*filter, files@) > u64::MAX,
        },
{
    let mut sum: u64 = 0;
    let mut k: usize = 0;
    while k < files.len()
        invariant
            k <= files@.len(),
            sum == matching_size(*filter, files@.take(k as int)),
        decreases files@.len() - k,
    {
        proof {
            assert(files@.take(k + 1).drop_last() =~= files@.take(k as int));
        }
        let file = &files[k];
        if filter.matches_file(file.name.as_str(), file.size) {
            if sum > u64::MAX - file.size {
                proof {
                    lemma_matching_size_prefix(*filter, files@, k + 1);
                }
                return None;
            }
            sum = sum + file.size;
        }
        k += 1;
    }
    proof {
        assert(files@.take(k as int) =~= files@);
    }
    Some(sum)
}

/// Hues already worked out for file extensions, bucketed by the hash of the extension.
pub struct ExtensionHueCache {
    buckets: HashMap<u64, Vec<(String, u16)>>,
}

impl ExtensionHueCache {
    /// Each cached hue is the hue of its extension.
    #[verifier::type_invariant]
    spec fn holds_true_hues(self) -> bool {
        forall|key: u64, i: int|
            #![trigger self.buckets@[key]@[i]]
            self.buckets@.contains_key(key) && 0 <= i < self.buckets@[key]@.len()
                ==> self.buckets@[key]@[i].1 == spec_hue_for_extension(self.buckets@[key]@[i].0@)
    }

    /// No hue is cached yet.
    pub closed spec fn holds_no_hues(&self) -> bool {
        self.buckets@ == Map::<u64, Vec<(String, u16)>>::empty()
    }

    pub fn new() -> (cache: ExtensionHueCache)
        ensures
            cache.holds_no_hues(),
    {
        ExtensionHueCache { buckets: HashMap::new() }
    }

    /// The hue of `extension`, from the cache or worked out and recorded.
    pub fn hue_for(&mut self, extension: &str) -> (hue: u16)
        ensures
            hue == spec_hue_for_extension(extension@),
    {
        proof {
            use_type_invariant(&*self);
        }
        let key = hash_name(extension) as u64;
        let wanted = extension.to_owned();
        match self.buckets.get(&key) {
            Some(bucket) => {
                let mut i: usize = 0;
                while i < bucket.len()
                    invariant
                        i <= bucket@.len(),
                        wanted@ == extension@,
                        self.buckets@.contains_key(key),
                        self.buckets@[key] == *bucket,
                        forall|k: u64, j: int|
                            #![trigger self.buckets@[k]@[j]]
                            self.buckets@.contains_key(k) && 0 <= j < self.buckets@[k]@.len()
                                ==> self.buckets@[k]@[j].1 == spec_hue_for_extension(
                                self.buckets@[k]@[j].0@,
                            ),
                    decreases bucket@.len() - i,
                {
                    if bucket[i].0 == wanted {
                        assert(self.buckets@[key]@[i as int].1 == spec_hue_for_extension(
                            self.buckets@[key]@[i as int].0@,
                        ));
                        return bucket[i].1;
                    }
                    i += 1;
                }
            },
            None => {},
        }
        let hue = hue_for_extension(extension);
        let mut buckets = HashMap::new();
        std::mem::swap(&mut buckets, &mut self.buckets);
        let mut bucket = match buckets.remove(&key) {
            Some(bucket) => bucket,
            None => Vec::new(),
        };
        let ghost old_bucket = bucket@;
        bucket.push((wanted, hue));
        buckets.insert(key, bucket);
        assert forall|k: u64, i: int|
            #![trigger buckets@[k]@[i]]
            buckets@.contains_key(k) && 0 <= i < buckets@[k]@.len()
                implies buckets@[k]@[i].1 == spec_hue_for_extension(buckets@[k]@[i].0@) by {
            if k != key {
                assert(old(self).buckets@[k]@[i] == buckets@[k]@[i]);
            } else if i < old_bucket.len() {
                assert(old(self).buckets@[k]@[i] == buckets@[k]@[i]);
            }
        }
        self.buckets = buckets;
        hue
    }
}

impl DirTree {
    /// Nothing has been inserted.
    pub open spec fn is_empty_tree(&self) -> bool {
        &&& self.nodes@ == Map::<u64, DirNode>::empty()
        &&& self.root_id is None
        &&& self.recursive_sizes@ == Map::<u64, u64>::empty()
        &&& self.scan_path@.len() == 0
        &&& self.mtime_range == empty_mtime_range()
        &&& self.hue_cache.holds_no_hues()
    }

    pub fn new() -> (tree: DirTree)
        ensures
            tree.is_empty_tree(),
    {
        DirTree {
            nodes: HashMap::new(),
            root_id: None,
            recursive_sizes: HashMap::new(),
            scan_path: String::new(),
            mtime_range: (i64::MAX, 0),
            hue_cache: ExtensionHueCache::new(),
        }
    }

    pub fn clear(&mut self)
        ensures
            final(self).is_empty_tree(),
    {
        self.nodes.clear();
        self.root_id = None;
        self.recursive_sizes.clear();
        self.scan_path = String::new();
        self.mtime_range = (i64::MAX, 0);
        self.hue_cache = ExtensionHueCache::new();
    }

    fn update_mtime_range(&mut self, mtime: i64)
        ensures
            final(self).mtime_range == widen_mtime_range(old(self).mtime_range, mtime),
            final(self).nodes == old(self).nodes,
            final(self).root_id == old(self).root_id,
            final(self).recursive_sizes == old(self).recursive_sizes,
            final(self).scan_path == old(self).scan_path,
            final(self).hue_cache == old(self).hue_cache,
    {
        if mtime > 0 {
            if mtime < self.mtime_range.0 {
                self.mtime_range.0 = mtime;
            }
            if mtime > self.mtime_range.1 {
                self.mtime_range.1 = mtime;
            }
        }
    }

    /// The hue of a file from its name's extension, looked up in (and recorded into) the cache.
    fn cached_extension_hue(&mut self, name: &str) -> (hue: u16)
        ensures
            hue == spec_file_hue(name@),
            final(self).nodes == old(self).nodes,
            final(self).root_id == old(self).root_id,
            final(self).recursive_sizes == old(self).recursive_sizes,
            final(self).scan_path == old(self).scan_path,
            final(self).mtime_range == old(self).mtime_range,
    {
        let chars = chars_of(name);
        proof {
            crate::text::lemma_last_index_of(name@, '.');
        }
        let dot = match find_last(chars.as_slice(), '.') {
            Some(dot) => dot,
            None => return 0,
        };
        let extension = name.substring_char(dot + 1, chars.len());
        if dot + 1 == chars.len() || utf8_len_of(&chars, dot + 1) > 10 {
            return 0;
        }
        self.hue_cache.hue_for(extension)
    }

    pub fn insert_file(&mut self, parent: u64, name: &str, size: u64, mtime: i64)
        ensures
            final(self).nodes@.dom() == old(self).nodes@.dom().insert(parent),
            forall|k: u64| k != parent && #[trigger] old(self).nodes@.contains_key(k)
                ==> final(self).nodes@[k] == old(self).nodes@[k],
            nodes_with_file(old(self).nodes@, parent, final(self).nodes@[parent], FileEntry {
                name: final(self).nodes@[parent].files@.last().name,
                size,
                hue: spec_file_hue(name@) as u16,
                mtime,
            }),
            final(self).nodes@[parent].files@.last().name@ == name@,
            final(self).mtime_range == widen_mtime_range(old(self).mtime_range, mtime),
            final(self).root_id == old(self).root_id,
            final(self).recursive_sizes == old(self).recursive_sizes,
            final(self).scan_path == old(self).scan_path,
    {
        let hue = self.cached_extension_hue(name);
        self.update_mtime_range(mtime);
        let mut node = match self.nodes.remove(&parent) {
            Some(node) => node,
            None => DirNode::blank(),
        };
        let ghost before = node;
        node.files.push(FileEntry { name: name.to_owned(), size, hue, mtime });
        self.nodes.insert(parent, node);
        assert(!old(self).nodes@.contains_key(parent) ==> before.files@ =~= Seq::<FileEntry>::empty());
    }

    /// The directories below the root, each before its subdirectories (those listed last
    /// come first): read backwards, every directory comes after all of its subdirectories.
    pub fn bottom_up_order(&self) -> (order: Vec<u64>)
        requires
            self.root_id matches Some(root) ==> acyclic_below(self.nodes@, root),
        ensures
            order@ == (match self.root_id {
                Some(root) => subtree_order(self.nodes@, root),
                None => Seq::empty(),
            }),
    {
        let root = match self.root_id {
            Some(id) => id,
            None => return Vec::new(),
        };
        let ghost nodes = self.nodes@;
        let ghost n = depth_bound(nodes, root);
        let ghost goal = pre(nodes, root, n);
        let mut stack: Vec<u64> = Vec::new();
        stack.push(root);
        let mut order: Vec<u64> = Vec::new();
        proof {
            assert(bounded(nodes, root, n));
            assert(stack@ =~= seq![root]);
            assert(stack@.last() == root);
            assert(stack@.drop_last() =~= Seq::<u64>::empty());
            assert(pre_stack(nodes, stack@.drop_last(), n) =~= Seq::<u64>::empty());
            assert(all_bounded(nodes, stack@.drop_last(), n));
            assert(pre_stack(nodes, stack@, n) =~= goal);
        }
        loop
            invariant
                nodes == self.nodes@,
                order@ + pre_stack(nodes, stack@, n) == goal,
                all_bounded(nodes, stack@, n),
            ensures
                order@ == goal,
            decreases goal.len() - order@.len(),
        {
            let top = stack.pop();
            match top {
                None => {
                    proof {
                        assert(order@ =~= goal);
                    }
                    break;
                },
                Some(id) => {
                    let ghost rest = stack@;
                    let ghost ch = children_of(nodes, id);
                    proof {
                        assert(bounded(nodes, id, n));
                        assert(all_bounded(nodes, rest, n));
                        lemma_stack_fuel(nodes, ch, (n - 1) as nat, n, |d: DirNode| 0int);
                        lemma_all_bounded_monotone(nodes, ch, (n - 1) as nat, n);
                    }
                    order.push(id);
                    match self.nodes.get(&id) {
                        Some(node) => {
                            let mut k: usize = 0;
                            while k < node.children.len()
                                invariant
                                    k <= node.children@.len(),
                                    node.children@ == ch,
                                    stack@ == rest + ch.take(k as int),
                                decreases node.children@.len() - k,
                            {
                                stack.push(node.children[k]);
                                k += 1;
                                proof {
                                    assert(stack@ =~= rest + ch.take(k as int));
                                }
                            }
                            proof {
                                assert(ch.take(k as int) =~= ch);
                            }
                        },
                        None => {
                            proof {
                                assert(stack@ =~= rest + ch);
                            }
                        },
                    }
                    proof {
                        lemma_pre_stack_append(nodes, rest, ch, n);
                        assert(pre(nodes, id, n) == seq![id] + pre_stack(nodes, ch, (n - 1) as nat));
                        assert(order@ + pre_stack(nodes, stack@, n) =~= goal);
                        lemma_all_bounded(nodes, rest, n);
                        lemma_all_bounded(nodes, ch, n);
                        lemma_all_bounded(nodes, stack@, n);
                        assert forall|i: int| 0 <= i < stack@.len() implies #[trigger] bounded(
                            nodes,
                            stack@[i],
                            n,
                        ) by {
                            if i < rest.len() {
                                assert(stack@[i] == rest[i]);
                            } else {
                                assert(stack@[i] == ch[i - rest.len()]);
                            }
                        }
                    }
                },
            }
        }
        order
    }

    /// The sums of a weight over the directories below each directory of `order`, computed
    /// from the last directory of `order` to the first: the directly held bytes when
    /// `filter` is `None`, the bytes of the files that pass it otherwise.
    fn sum_up(
        &self,
        order: &Vec<u64>,
        filter: Option<&FilterConfig>,
        Ghost(root): Ghost<u64>,
        Ghost(weight): Ghost<spec_fn(DirNode) -> int>,
    ) -> (sizes: HashMap<u64, u64>)
        requires
            weight == (match filter {
                Some(f) => filtered_weight(*f),
                None => direct_weight(),
            }),
            acyclic_below(self.nodes@, root),
            subtree_total(self.nodes@, root, weight) <= u64::MAX,
            order@ == subtree_order(self.nodes@, root),
        ensures
            sizes@ == sums_below(self.nodes@, root, weight),
    {
        let ghost nodes = self.nodes@;
        let ghost n = depth_bound(nodes, root);
        proof {
            assert(bounded(nodes, root, n));
            lemma_pre_children_follow(nodes, root, n);
            lemma_pre_members_bounded(nodes, root, n);
            match filter {
                Some(f) => lemma_filtered_weight_nonnegative(*f),
                None => lemma_direct_weight_nonnegative(),
            }
            lemma_pre_total_bound(nodes, root, n, weight);
            lemma_canonical(nodes, root, n, weight);
        }
        let mut sizes: HashMap<u64, u64> = HashMap::new();
        let mut p: usize = order.len();
        while p > 0
            invariant
                p <= order@.len(),
                nodes == self.nodes@,
                order@ == pre(nodes, root, n),
                weight == (match filter {
                    Some(f) => filtered_weight(*f),
                    None => direct_weight(),
                }),
                nonnegative(weight),
                total(nodes, root, n, weight) <= u64::MAX,
                children_follow(nodes, order@),
                forall|y: u64|
                    order@.contains(y) ==> bounded(nodes, y, n) && total(nodes, y, n, weight)
                        <= total(nodes, root, n, weight),
                forall|k: u64|
                    #![trigger sizes@.contains_key(k)]
                    #![trigger nodes.contains_key(k)]
                    sizes@.contains_key(k) <==> (nodes.contains_key(k) && exists|j: int|
                        p <= j < order@.len() && #[trigger] order@[j] == k),
                forall|k: u64| sizes@.contains_key(k) ==> sizes@[k] == total(nodes, k, n, weight),
            decreases p,
        {
            p -= 1;
            let id = order[p];
            assert(order@.contains(id));
            match self.nodes.get(&id) {
                Some(node) => {
                    let ghost ch = node.children@;
                    proof {
                        assert(bounded(nodes, id, n));
                        assert(children_of(nodes, id) == ch);
                        lemma_stack_fuel(nodes, ch, (n - 1) as nat, n, weight);
                        lemma_total_stack_nonnegative(nodes, ch, n, weight);
                        assert forall|i: int| 0 <= i < ch.len() implies get_or_zero(
                            sizes@,
                            #[trigger] ch[i],
                        ) == total(nodes, ch[i], n, weight) by {
                            assert(listed_after(nodes, order@, p as int, i));
                            let j = choose|j: int|
                                p < j < order@.len() && #[trigger] order@[j] == children_of(
                                    nodes,
                                    order@[p as int],
                                )[i];
                            assert(order@[j] == ch[i]);
                        }
                        lemma_sum_recorded_total(nodes, sizes@, ch, n, weight);
                    }
                    let base: u64 = match filter {
                        Some(f) => matching_files_size(f, &node.files),
                        None => node.direct_size,
                    };
                    let sum = add_recorded(&sizes, &node.children, base);
                    let ghost before = sizes@;
                    sizes.insert(id, sum);
                    proof {
                        assert forall|k: u64|
                            sizes@.contains_key(k) <==> (nodes.contains_key(k) && exists|j: int|
                                p <= j < order@.len() && #[trigger] order@[j] == k) by {
                            if k == id {
                                assert(order@[p as int] == k);
                            } else {
                                assert(sizes@.contains_key(k) == before.contains_key(k));
                                if before.contains_key(k) {
                                    let j = choose|j: int|
                                        p + 1 <= j < order@.len() && #[trigger] order@[j] == k;
                                    assert(order@[j] == k);
                                }
                                if nodes.contains_key(k) && exists|j: int|
                                    p <= j < order@.len() && #[trigger] order@[j] == k {
                                    let j = choose|j: int|
                                        p <= j < order@.len() && #[trigger] order@[j] == k;
                                    assert(j != p);
                                    assert(order@[j] == k);
                                }
                            }
                        }
                    }
                },
                None => {
                    proof {
                        assert forall|k: u64|
                            sizes@.contains_key(k) <==> (nodes.contains_key(k) && exists|j: int|
                                p <= j < order@.len() && #[trigger] order@[j] == k) by {
                            if sizes@.contains_key(k) {
                                let j = choose|j: int|
                                    p + 1 <= j < order@.len() && #[trigger] order@[j] == k;
                                assert(order@[j] == k);
                            }
                            if nodes.contains_key(k) && exists|j: int|
                                p <= j < order@.len() && #[trigger] order@[j] == k {
                                let j = choose|j: int|
                                    p <= j < order@.len() && #[trigger] order@[j] == k;
                                assert(j != p);
                                assert(order@[j] == k);
                            }
                        }
                    }
                },
            }
        }
        proof {
            assert forall|k: u64| #[trigger] sizes@.contains_key(k) implies sizes@[k] == (
            subtree_total(nodes, k, weight) as u64) by {
                let j = choose|j: int| 0 <= j < order@.len() && #[trigger] order@[j] == k;
                assert(order@[j] == k);
                assert(order@.contains(k));
                lemma_canonical(nodes, k, n, weight);
            }
            assert forall|k: u64|
                sizes@.contains_key(k) <==> (nodes.contains_key(k) && subtree_order(
                    nodes,
                    root,
                ).contains(k)) by {
                if nodes.contains_key(k) && subtree_order(nodes, root).contains(k) {
                    let j = choose|j: int| 0 <= j < order@.len() && order@[j] == k;
                    assert(order@[j] == k);
                }
            }
            assert(sizes@ =~= sums_below(nodes, root, weight));
        }
        sizes
    }

    /// The sum of the weight over the directories below `x` within `depth` levels, when every
    /// chain of subdirectories below `x` is shorter than that and the sum fits in 64 bits.
    fn checked_total(
        &self,
        x: u64,
        depth: usize,
        filter: Option<&FilterConfig>,
        Ghost(weight): Ghost<spec_fn(DirNode) -> int>,
    ) -> (sum: Option<u64>)
        requires
            weight == (match filter {
                Some(f) => filtered_weight(*f),
                None => direct_weight(),
            }),
        ensures
            sum matches Some(s) ==> bounded(self.nodes@, x, depth as nat) && s == total(
                self.nodes@,
                x,
                depth as nat,
                weight,
            ),
            sum is None ==> !bounded(self.nodes@, x, depth as nat) || total(
                self.nodes@,
                x,
                depth as nat,
                weight,
            ) > u64::MAX,
        decreases depth,
    {
        if depth == 0 {
            return None;
        }
        let ghost nodes = self.nodes@;
        let ghost n = (depth - 1) as nat;
        proof {
            lemma_direct_weight_nonnegative();
            if let Some(f) = filter {
                lemma_filtered_weight_nonnegative(*f);
            }
            assert(nonnegative(weight));
        }
        match self.nodes.get(&x) {
            None => {
                proof {
                    assert(children_of(nodes, x) =~= Seq::<u64>::empty());
                    assert(all_bounded(nodes, children_of(nodes, x), n));
                }
                Some(0)
            },
            Some(node) => {
                let base: u64 = match filter {
                    Some(f) => match checked_matching_size(f, &node.files) {
                        Some(s) => s,
                        None => {
                            proof {
                                assert(children_of(nodes, x) == node.children@);
                                lemma_total_stack_nonnegative(nodes, node.children@, n, weight);
                            }
                            return None;
                        },
                    },
                    None => node.direct_size,
                };
                let ghost ch = node.children@;
                let mut sum = base;
                let mut k: usize = 0;
                proof {
                    assert(ch.take(0) =~= Seq::<u64>::empty());
                }
                while k < node.children.len()
                    invariant
                        k <= ch.len(),
                        node.children@ == ch,
                        nodes == self.nodes@,
                        nodes.contains_key(x),
                        nodes[x].children@ == ch,
                        weight(nodes[x]) == base as int,
                        nonnegative(weight),
                        n + 1 == depth,
                        weight == (match filter {
                            Some(f) => filtered_weight(*f),
                            None => direct_weight(),
                        }),
                        all_bounded(nodes, ch.take(k as int), n),
                        sum == base + total_stack(nodes, ch.take(k as int), n, weight),
                    decreases ch.len() - k,
                {
                    let part = match self.checked_total(node.children[k], depth - 1, filter, Ghost(weight)) {
                        Some(p) => p,
                        None => {
                            proof {
                                lemma_all_bounded(nodes, ch, n);
                                lemma_total_stack_prefix(nodes, ch, k + 1, n, weight);
                                let t = ch.take(k + 1);
                                assert(t.drop_last() =~= ch.take(k as int));
                                assert(t.last() == ch[k as int]);
                                lemma_total_stack_nonnegative(nodes, ch.take(k as int), n, weight);
                                assert(children_of(nodes, x) == ch);
                            }
                            return None;
                        },
                    };
                    if sum > u64::MAX - part {
                        proof {
                            lemma_total_stack_prefix(nodes, ch, k + 1, n, weight);
                            let t = ch.take(k + 1);
                            assert(t.drop_last() =~= ch.take(k as int));
                            assert(t.last() == ch[k as int]);
                            assert(children_of(nodes, x) == ch);
                        }
                        return None;
                    }
                    proof {
                        let t = ch.take(k + 1);
                        assert(t.drop_last() =~= ch.take(k as int));
                        assert(t.last() == ch[k as int]);
                    }
                    sum = sum + part;
                    k += 1;
                }
                proof {
                    assert(ch.take(k as int) =~= ch);
                    assert(children_of(nodes, x) == ch);
                    assert(weight(nodes[x]) == base as int);
                }
                Some(sum)
            },
        }
    }

    /// Whether a bottom-up pass (`recompute_sizes` when `filter` is `None`,
    /// `compute_filtered_sizes` otherwise) can run: no cycle of subdirectories below the root,
    /// and the sum fits in 64 bits. Chains of subdirectories are followed for at most one
    /// level more than there are directories, which is enough, since a longer one would meet
    /// some directory twice.
    pub fn sums_can_fit(&self, filter: Option<&FilterConfig>) -> (ok: bool)
        ensures
            ok ==> sums_fit(
                self.nodes@,
                self.root_id,
                match filter {
                    Some(f) => filtered_weight(*f),
                    None => direct_weight(),
                },
            ),
            self.nodes@.len() < usize::MAX ==> ok == sums_fit(
                self.nodes@,
                self.root_id,
                match filter {
                    Some(f) => filtered_weight(*f),
                    None => direct_weight(),
                },
            ),
    {
        let root = match self.root_id {
            Some(r) => r,
            None => return true,
        };
        let ghost weight = match filter {
            Some(f) => filtered_weight(*f),
            None => direct_weight(),
        };
        let levels = if self.nodes.len() < usize::MAX {
            self.nodes.len() + 1
        } else {
            self.nodes.len()
        };
        match self.checked_total(root, levels, filter, Ghost(weight)) {
            Some(_) => {
                proof {
                    lemma_canonical(self.nodes@, root, levels as nat, weight);
                }
                true
            },
            None => {
                proof {
                    let nodes = self.nodes@;
                    if nodes.len() < usize::MAX && acyclic_below(nodes, root) {
                        let n = choose|n: nat| bounded(nodes, root, n);
                        lemma_bounded_by_size(nodes, root, n);
                        assert(levels == nodes.dom().len() + 1);
                        lemma_canonical(nodes, root, levels as nat, weight);
                    }
                }
                false
            },
        }
    }

    /// Works out every recursive size again, from the root down the listed subdirectories.
    pub fn recompute_sizes(&mut self)
        requires
            sums_fit(old(self).nodes@, old(self).root_id, direct_weight()),
        ensures
            final(self).recursive_sizes@ == sizes_for(
                old(self).nodes@,
                old(self).root_id,
                direct_weight(),
            ),
            final(self).nodes == old(self).nodes,
            final(self).root_id == old(self).root_id,
            final(self).scan_path == old(self).scan_path,
            final(self).mtime_range == old(self).mtime_range,
    {
        self.recursive_sizes.clear();
        let order = self.bottom_up_order();
        match self.root_id {
            Some(root) => {
                self.recursive_sizes = self.sum_up(&order, None, Ghost(root), Ghost(direct_weight()));
            },
            None => {
                assert(self.recursive_sizes@ =~= Map::<u64, u64>::empty());
            },
        }
    }

    /// For each directory below the root, the bytes of the files below it that `filter`
    /// lets through.
    pub fn compute_filtered_sizes(&self, filter: &FilterConfig) -> (sizes: HashMap<u64, u64>)
        requires
            sums_fit(self.nodes@, self.root_id, filtered_weight(*filter)),
        ensures
            sizes@ == sizes_for(self.nodes@, self.root_id, filtered_weight(*filter)),
    {
        let order = self.bottom_up_order();
        match self.root_id {
            Some(root) => self.sum_up(&order, Some(filter), Ghost(root), Ghost(filtered_weight(*filter))),
            None => {
                let sizes = HashMap::new();
                assert(sizes@ =~= Map::<u64, u64>::empty());
                sizes
            },
        }
    }

    /// Adds `delta` to the recursive size of `node_id` and of each directory above it.
    fn propagate_size(&mut self, node_id: u64, delta: u64, Ghost(chain): Ghost<Seq<u64>>)
        requires
            walk_terminates(old(self).nodes@, node_id, None),
            chain == walk_up(old(self).nodes@, node_id, None),
            add_along_fits(old(self).recursive_sizes@, chain, delta),
        ensures
            final(self).recursive_sizes@ == add_along(old(self).recursive_sizes@, chain, delta),
            final(self).nodes == old(self).nodes,
            final(self).root_id == old(self).root_id,
            final(self).scan_path == old(self).scan_path,
            final(self).mtime_range == old(self).mtime_range,
    {
        let ghost nodes = self.nodes@;
        let ghost sizes = self.recursive_sizes@;
        let ghost fuel = choose|n: nat| walk_ends(nodes, node_id, None, n);
        proof {
            lemma_walk_up(nodes, node_id, None, fuel);
            lemma_walk_shape(nodes, node_id, None, fuel);
            assert(chain.take(0) =~= Seq::<u64>::empty());
        }
        let mut current = node_id;
        let ghost mut i: int = 0;
        loop
            invariant_except_break
                0 <= i < chain.len(),
                chain[i] == current,
            invariant
                nodes == self.nodes@,
                self.nodes == old(self).nodes,
                self.root_id == old(self).root_id,
                self.scan_path == old(self).scan_path,
                self.mtime_range == old(self).mtime_range,
                self.recursive_sizes@ == add_along(sizes, chain.take(i), delta),
                add_along_fits(sizes, chain, delta),
                chain == walk(nodes, node_id, None, fuel),
                !steps_up(nodes, chain.last(), None),
                forall|j: int|
                    0 <= j < chain.len() - 1 ==> steps_up(nodes, #[trigger] chain[j], None)
                        && nodes[chain[j]].parent == chain[j + 1],
            ensures
                self.recursive_sizes@ == add_along(sizes, chain, delta),
                self.nodes == old(self).nodes,
                self.root_id == old(self).root_id,
                self.scan_path == old(self).scan_path,
                self.mtime_range == old(self).mtime_range,
            decreases chain.len() - i,
        {
            proof {
                lemma_add_along_fits_prefix(sizes, chain, delta, i + 1);
                assert(chain.take(i + 1).drop_last() =~= chain.take(i));
                assert(chain.take(i + 1).last() == current);
            }
            let value = match self.recursive_sizes.get(&current) {
                Some(v) => *v,
                None => 0,
            };
            self.recursive_sizes.insert(current, value + delta);
            proof {
                i = i + 1;
            }
            let next = match self.nodes.get(&current) {
                Some(node) => {
                    if node.parent != 0 {
                        Some(node.parent)
                    } else {
                        None
                    }
                },
                None => None,
            };
            match next {
                Some(p) => {
                    proof {
                        if i == chain.len() {
                            assert(chain.last() == current);
                        }
                    }
                    current = p;
                },
                None => {
                    proof {
                        if i < chain.len() {
                            assert(steps_up(nodes, chain[i - 1], None));
                        }
                        assert(chain.take(i) =~= chain);
                    }
                    break;
                },
            }
        }
    }

    /// Whether `insert_dir(id, parent, _, size, _)` may be called: the walk up from `parent`
    /// ends without meeting `id`, and the recursive sizes along it have room for `size`. The
    /// walk is followed for at most as many steps as there are directories, which is enough,
    /// since a walk that ends never visits a directory twice.
    pub fn can_insert_dir(&self, id: u64, parent: u64, size: u64) -> (ok: bool)
        ensures
            ok == (can_attach(self.nodes@, id, parent) && add_along_fits(
                self.recursive_sizes@,
                attach_chain(self.nodes@, id, parent),
                size,
            )),
    {
        let ghost nodes = self.nodes@;
        let mut chain: Vec<u64> = Vec::new();
        chain.push(id);
        if parent != 0 {
            if parent == id {
                return false;
            }
            let limit = self.nodes.len();
            proof {
                assert(limit == nodes.dom().len());
            }
            let mut steps: usize = 0;
            let mut current = parent;
            let ghost mut visited: Seq<u64> = Seq::empty();
            proof {
                assert(chain@ =~= seq![id] + visited);
            }
            loop
                invariant_except_break
                    chain@ == seq![id] + visited,
                invariant
                    nodes == self.nodes@,
                    limit == nodes.dom().len(),
                    parent != 0,
                    current != id,
                    visited.len() == steps,
                    steps <= limit,
                    !visited.contains(id),
                    forall|m: nat|
                        #![trigger walk(nodes, current, None, m)]
                        walk(nodes, parent, None, (steps + m) as nat) == visited + walk(
                            nodes,
                            current,
                            None,
                            m,
                        ) && walk_ends(nodes, parent, None, (steps + m) as nat) == walk_ends(
                            nodes,
                            current,
                            None,
                            m,
                        ),
                ensures
                    chain@ == seq![id] + walk_up(nodes, parent, None),
                    walk_terminates(nodes, parent, None),
                    !walk_up(nodes, parent, None).contains(id),
                decreases limit - steps,
            {
                let next = match self.nodes.get(&current) {
                    Some(node) => {
                        if node.parent != 0 {
                            Some(node.parent)
                        } else {
                            None
                        }
                    },
                    None => None,
                };
                match next {
                    None => {
                        let ghost before = chain@;
                        chain.push(current);
                        proof {
                            assert(!steps_up(nodes, current, None));
                            assert(walk(nodes, current, None, 1) =~= seq![current]);
                            assert(walk_ends(nodes, current, None, 1));
                            let n = (steps + 1) as nat;
                            assert(walk(nodes, parent, None, (steps + 1) as nat) == visited + walk(nodes, current, None, 1));
                            lemma_walk_up(nodes, parent, None, n);
                            assert(chain@ =~= seq![id] + (visited + seq![current]));
                            assert(!(visited + seq![current]).contains(id)) by {
                                if (visited + seq![current]).contains(id) {
                                    let k = choose|k: int| 0 <= k < visited.len() + 1 && (visited + seq![current])[k] == id;
                                    if k < visited.len() {
                                        assert(visited[k] == id);
                                    }
                                }
                            }
                        }
                        break;
                    },
                    Some(p) => {
                        if p == id || steps >= limit {
                            proof {
                                assert(steps_up(nodes, current, None));
                                if walk_terminates(nodes, parent, None) {
                                    let k = choose|k: nat| walk_ends(nodes, parent, None, k);
                                    let f = (k + steps + 2) as nat;
                                    lemma_walk_fuel(nodes, parent, None, k, f);
                                    lemma_walk_up(nodes, parent, None, f);
                                    let m = (f - steps) as nat;
                                    assert(walk(nodes, parent, None, (steps + m) as nat) == visited
                                        + walk(nodes, current, None, m));
                                    assert(walk_ends(nodes, current, None, m));
                                    assert(walk(nodes, current, None, m) == seq![current] + walk(
                                        nodes,
                                        p,
                                        None,
                                        (m - 1) as nat,
                                    ));
                                    assert(walk_ends(nodes, p, None, (m - 1) as nat));
                                    lemma_walk_shape(nodes, p, None, (m - 1) as nat);
                                    lemma_walk_len_bound(nodes, parent, None, f);
                                    let w = walk(nodes, parent, None, f);
                                    assert(w[steps + 1] == p);
                                    assert(p == id ==> walk_up(nodes, parent, None).contains(id));
                                }
                            }
                            return false;
                        }
                        chain.push(current);
                        proof {
                            assert(steps_up(nodes, current, None));
                            assert(nodes[current].parent == p);
                            assert forall|m: nat|
                                #![trigger walk(nodes, p, None, m)]
                                walk(nodes, parent, None, (steps + 1 + m) as nat) == (visited + seq![current]) + walk(
                                    nodes,
                                    p,
                                    None,
                                    m,
                                ) && walk_ends(nodes, parent, None, (steps + 1 + m) as nat) == walk_ends(
                                    nodes,
                                    p,
                                    None,
                                    m,
                                ) by {
                                let m1 = (m + 1) as nat;
                                assert(walk(nodes, parent, None, (steps + m1) as nat) == visited + walk(nodes, current, None, m1));
                                assert(walk(nodes, current, None, m1) == seq![current] + walk(nodes, p, None, m));
                                assert(visited + (seq![current] + walk(nodes, p, None, m)) =~= (visited + seq![current]) + walk(nodes, p, None, m));
                            }
                            visited = visited + seq![current];
                            assert(chain@ =~= seq![id] + visited);
                            assert(!visited.contains(id)) by {
                                if visited.contains(id) {
                                    let k = choose|k: int| 0 <= k < visited.len() && visited[k] == id;
                                    if k < visited.len() - 1 {
                                        assert(visited.drop_last()[k] == id);
                                    }
                                }
                            }
                        }
                        current = p;
                        steps += 1;
                    },
                }
            }
        } else {
            proof {
                assert(chain@ =~= seq![id]);
            }
        }
        let ghost sizes = self.recursive_sizes@;
        proof {
            assert(chain@ == attach_chain(nodes, id, parent));
            assert(can_attach(nodes, id, parent));
            if parent != 0 {
                let k = choose|k: nat| walk_ends(nodes, parent, None, k);
                lemma_walk_up(nodes, parent, None, k);
                lemma_walk_distinct(nodes, parent, None, k);
                let w = walk_up(nodes, parent, None);
                assert forall|a: int, b: int| 0 <= a < b < chain@.len() implies chain@[a]
                    != chain@[b] by {
                    if a == 0 {
                        assert(chain@[b] == w[b - 1]);
                    } else {
                        assert(chain@[a] == w[a - 1] && chain@[b] == w[b - 1]);
                    }
                }
            }
            assert(chain@.no_duplicates());
            if add_along_fits(sizes, chain@, size) {
                lemma_add_along_fits_each(sizes, chain@, size);
            }
        }
        let mut i: usize = 0;
        while i < chain.len()
            invariant
                i <= chain@.len(),
                sizes == self.recursive_sizes@,
                nodes == self.nodes@,
                chain@ == attach_chain(nodes, id, parent),
                can_attach(nodes, id, parent),
                chain@.no_duplicates(),
                add_along_fits(sizes, chain@, size) ==> forall|a: int|
                    0 <= a < chain@.len() ==> get_or_zero(sizes, #[trigger] chain@[a]) + size
                        <= u64::MAX,
                forall|a: int, b: int| 0 <= a < b < i ==> chain@[a] != chain@[b],
                forall|a: int| 0 <= a < i ==> get_or_zero(sizes, #[trigger] chain@[a]) + size <= u64::MAX,
            decreases chain@.len() - i,
        {
            let mut j: usize = 0;
            while j < i
                invariant
                    j <= i < chain@.len(),
                    chain@.no_duplicates(),
                    forall|b: int| 0 <= b < j ==> chain@[b] != chain@[i as int],
                decreases i - j,
            {
                if chain[j] == chain[i] {
                    return false;
                }
                j += 1;
            }
            let value: u64 = match self.recursive_sizes.get(&chain[i]) {
                Some(v) => *v,
                None => 0,
            };
            if value > u64::MAX - size {
                return false;
            }
            i += 1;
        }
        proof {
            lemma_add_along_fits_distinct(sizes, chain@, size);
        }
        true
    }

    /// Whether the walk up from `x` (stopping at `stop`) ends. It is followed for at most as
    /// many steps as there are directories, which is enough, since a walk that ends never
    /// visits a directory twice.
    pub fn walk_ends_from(&self, x: u64, stop: Option<u64>) -> (ok: bool)
        ensures
            ok == walk_terminates(self.nodes@, x, stop),
    {
        let ghost nodes = self.nodes@;
        let limit = self.nodes.len();
        proof {
            assert(limit == nodes.dom().len());
        }
        let mut steps: usize = 0;
        let mut current = x;
        loop
            invariant
                nodes == self.nodes@,
                limit == nodes.dom().len(),
                steps <= limit,
                forall|m: nat|
                    #![trigger walk_ends(nodes, current, stop, m)]
                    walk_ends(nodes, x, stop, (steps + m) as nat) == walk_ends(nodes, current, stop, m),
                forall|m: nat|
                    #![trigger walk(nodes, current, stop, m)]
                    walk(nodes, x, stop, (steps + m) as nat).len() == steps + walk(
                        nodes,
                        current,
                        stop,
                        m,
                    ).len(),
            decreases limit - steps,
        {
            let at_stop = match stop {
                Some(s) => s == current,
                None => false,
            };
            let next = if at_stop {
                None
            } else {
                match self.nodes.get(&current) {
                    Some(node) => {
                        if node.parent != 0 {
                            Some(node.parent)
                        } else {
                            None
                        }
                    },
                    None => None,
                }
            };
            match next {
                None => {
                    proof {
                        assert(!steps_up(nodes, current, stop));
                        assert(walk_ends(nodes, current, stop, 1));
                        assert(walk_ends(nodes, x, stop, (steps + 1) as nat));
                    }
                    return true;
                },
                Some(p) => {
                    if steps >= limit {
                        proof {
                            assert(steps_up(nodes, current, stop));
                            if walk_terminates(nodes, x, stop) {
                                let k = choose|k: nat| walk_ends(nodes, x, stop, k);
                                let f = (k + steps + 2) as nat;
                                lemma_walk_fuel(nodes, x, stop, k, f);
                                let m = (f - steps) as nat;
                                assert(walk(nodes, x, stop, (steps + m) as nat).len() == steps
                                    + walk(nodes, current, stop, m).len());
                                assert(walk(nodes, current, stop, m) == seq![current] + walk(
                                    nodes,
                                    p,
                                    stop,
                                    (m - 1) as nat,
                                ));
                                assert(walk_ends(nodes, current, stop, m));
                                assert(walk_ends(nodes, p, stop, (m - 1) as nat));
                                lemma_walk_shape(nodes, p, stop, (m - 1) as nat);
                                lemma_walk_len_bound(nodes, x, stop, f);
                            }
                        }
                        return false;
                    }
                    proof {
                        assert(steps_up(nodes, current, stop));
                        assert forall|m: nat|
                            #![trigger walk_ends(nodes, p, stop, m)]
                            walk_ends(nodes, x, stop, (steps + 1 + m) as nat) == walk_ends(
                                nodes,
                                p,
                                stop,
                                m,
                            ) by {
                            let m1 = (m + 1) as nat;
                            assert(walk_ends(nodes, x, stop, (steps + m1) as nat) == walk_ends(
                                nodes,
                                current,
                                stop,
                                m1,
                            ));
                        }
                        assert forall|m: nat|
                            #![trigger walk(nodes, p, stop, m)]
                            walk(nodes, x, stop, (steps + 1 + m) as nat).len() == steps + 1 + walk(
                                nodes,
                                p,
                                stop,
                                m,
                            ).len() by {
                            let m1 = (m + 1) as nat;
                            assert(walk(nodes, x, stop, (steps + m1) as nat).len() == steps + walk(
                                nodes,
                                current,
                                stop,
                                m1,
                            ).len());
                            assert(walk(nodes, current, stop, m1) == seq![current] + walk(
                                nodes,
                                p,
                                stop,
                                m,
                            ));
                        }
                    }
                    current = p;
                    steps += 1;
                },
            }
        }
    }

    /// Records directory `id` under `parent` (0 for none; the first such directory becomes
    /// the root) and adds its size to the recursive sizes of it and of the directories above.
    pub fn insert_dir(&mut self, id: u64, parent: u64, name: &str, size: u64, mtime: i64)
        requires
            can_attach(old(self).nodes@, id, parent),
            add_along_fits(
                old(self).recursive_sizes@,
                attach_chain(old(self).nodes@, id, parent),
                size,
            ),
        ensures
            dir_inserted(
                old(self).nodes@,
                final(self).nodes@,
                id,
                parent,
                name@,
                size,
                spec_hash_name(name@) as u16,
                mtime,
            ),
            final(self).root_id == (if parent == 0 && old(self).root_id is None {
                Some(id)
            } else {
                old(self).root_id
            }),
            final(self).recursive_sizes@ == add_along(
                old(self).recursive_sizes@,
                attach_chain(old(self).nodes@, id, parent),
                size,
            ),
            final(self).mtime_range == widen_mtime_range(old(self).mtime_range, mtime),
            final(self).scan_path == old(self).scan_path,
    {
        let ghost before = self.nodes@;
        let hue = hash_name(name);
        if parent == 0 {
            if self.root_id.is_none() {
                self.root_id = Some(id);
            }
        } else {
            let mut parent_node = match self.nodes.remove(&parent) {
                Some(node) => node,
                None => DirNode::blank(),
            };
            parent_node.children.push(id);
            self.nodes.insert(parent, parent_node);
        }
        self.update_mtime_range(mtime);
        let node = match self.nodes.remove(&id) {
            Some(existing) => DirNode {
                parent,
                name: name.to_owned(),
                direct_size: size,
                children: existing.children,
                files: existing.files,
                hue,
                mtime,
            },
            None => DirNode {
                parent,
                name: name.to_owned(),
                direct_size: size,
                children: Vec::new(),
                files: Vec::new(),
                hue,
                mtime,
            },
        };
        self.nodes.insert(id, node);
        let ghost after = self.nodes@;
        let ghost chain = attach_chain(before, id, parent);
        proof {
            assert(after.dom() =~= (if parent == 0 {
                before.dom().insert(id)
            } else {
                before.dom().insert(id).insert(parent)
            }));
            assert(parents_agree_except(before, after, id));
            assert(after[id].children@ == listed_children(before, id));
            assert(after[id].files@ == listed_files(before, id));
            assert(forall|k: u64|
                k != id && (k != parent || parent == 0) && #[trigger] before.contains_key(k)
                    ==> after[k] == before[k]);
            if parent != 0 {
                assert(after[parent].children@ == listed_children(before, parent).push(id));
                assert(same_but_children(
                    if before.contains_key(parent) {
                        Some(before[parent])
                    } else {
                        None
                    },
                    after[parent],
                ));
            }
            if parent == 0 {
                assert(!steps_up(after, id, None));
                assert(walk_ends(after, id, None, 1));
                lemma_walk_up(after, id, None, 1);
                assert(walk(after, id, None, 1) =~= seq![id]);
            } else {
                let n = choose|n: nat| walk_ends(before, parent, None, n);
                lemma_walk_up(before, parent, None, n);
                lemma_walk_agree(before, after, id, parent, n);
                assert(steps_up(after, id, None));
                assert(walk_ends(after, id, None, n + 1));
                lemma_walk_up(after, id, None, n + 1);
                assert(walk(after, id, None, n + 1) == seq![id] + walk(after, parent, None, n));
            }
        }
        self.propagate_size(id, size, Ghost(chain));
    }

    /// The directories from the root (or the first directory without a parent) down to
    /// `view_root`, each with its name (the scanned path for a directory without one).
    pub fn breadcrumb(&self, view_root: u64) -> (path: Vec<BreadcrumbEntry>)
        requires
            walk_terminates(self.nodes@, view_root, Some(root_or_zero(self.root_id))),
        ensures
            path@.len() == listed_walk(self.nodes@, view_root, Some(root_or_zero(self.root_id))).len(),
            forall|i: int|
                0 <= i < path@.len() ==> {
                    let ids = listed_walk(self.nodes@, view_root, Some(root_or_zero(self.root_id)));
                    let id = ids[ids.len() - 1 - i];
                    &&& (#[trigger] path@[i]).id == id
                    &&& path@[i].name@ == crumb_name(self.nodes@, self.scan_path@, id)
                },
    {
        let root_id = match self.root_id {
            Some(r) => r,
            None => 0,
        };
        let ghost nodes = self.nodes@;
        let ghost stop = Some(root_id);
        let ghost fuel = choose|n: nat| walk_ends(nodes, view_root, stop, n);
        let ghost chain = walk(nodes, view_root, stop, fuel);
        let ghost ids = listed_walk(nodes, view_root, stop);
        proof {
            lemma_walk_up(nodes, view_root, stop, fuel);
            lemma_walk_shape(nodes, view_root, stop, fuel);
        }
        let mut upward: Vec<BreadcrumbEntry> = Vec::new();
        let mut current = view_root;
        let ghost mut i: int = 0;
        loop
            invariant_except_break
                0 <= i < chain.len(),
                chain[i] == current,
            invariant
                nodes == self.nodes@,
                chain == walk(nodes, view_root, stop, fuel),
                ids == listed_walk(nodes, view_root, stop),
                chain == walk_up(nodes, view_root, stop),
                stop == Some(root_id),
                !steps_up(nodes, chain.last(), stop),
                forall|j: int|
                    0 <= j < chain.len() - 1 ==> steps_up(nodes, #[trigger] chain[j], stop)
                        && nodes[chain[j]].parent == chain[j + 1],
                upward@.len() == i,
                forall|j: int|
                    0 <= j < i ==> (#[trigger] upward@[j]).id == chain[j] && upward@[j].name@
                        == crumb_name(nodes, self.scan_path@, chain[j]),
            ensures
                upward@.len() == ids.len(),
                forall|j: int|
                    0 <= j < ids.len() ==> (#[trigger] upward@[j]).id == ids[j] && upward@[j].name@
                        == crumb_name(nodes, self.scan_path@, ids[j]),
            decreases chain.len() - i,
        {
            match self.nodes.get(&current) {
                None => {
                    proof {
                        if i < chain.len() - 1 {
                            assert(steps_up(nodes, chain[i], stop));
                        }
                        assert(ids =~= chain.drop_last());
                    }
                    break;
                },
                Some(node) => {
                    let name = if node.name.as_str().is_empty() {
                        self.scan_path.clone()
                    } else {
                        node.name.clone()
                    };
                    upward.push(BreadcrumbEntry { id: current, name });
                    proof {
                        i = i + 1;
                    }
                    if current == root_id || node.parent == 0 {
                        proof {
                            if i < chain.len() {
                                assert(steps_up(nodes, chain[i - 1], stop));
                            }
                            assert(ids =~= chain);
                        }
                        break;
                    }
                    proof {
                        if i == chain.len() {
                            assert(chain.last() == current);
                        }
                    }
                    current = node.parent;
                },
            }
        }
        let mut path: Vec<BreadcrumbEntry> = Vec::new();
        let mut k = upward.len();
        while k > 0
            invariant
                k <= upward@.len(),
                path@.len() == upward@.len() - k,
                forall|j: int|
                    0 <= j < path@.len() ==> #[trigger] path@[j] == upward@[upward@.len() - 1 - j],
            decreases k,
        {
            k -= 1;
            path.push(BreadcrumbEntry { id: upward[k].id, name: upward[k].name.clone() });
        }
        path
    }

    /// The path of directory `node_id` below `root_path`: the names of the directories from
    /// below the root down to it, each joined as a path component. `None` when there is no
    /// root or a directory on the way up is missing.
    pub fn full_path(&self, node_id: u64, root_path: &str) -> (path: Option<String>)
        requires
            self.root_id matches Some(r) ==> walk_terminates(self.nodes@, node_id, Some(r)),
        ensures
            match path {
                Some(p) => path_of(self.nodes@, self.root_id, node_id, root_path@) == Some(p@),
                None => path_of(self.nodes@, self.root_id, node_id, root_path@) is None,
            },
    {
        let root_id = match self.root_id {
            Some(r) => r,
            None => return None,
        };
        let ghost nodes = self.nodes@;
        let ghost stop = Some(root_id);
        let ghost fuel = choose|n: nat| walk_ends(nodes, node_id, stop, n);
        let ghost chain = walk(nodes, node_id, stop, fuel);
        let ghost parts = if chain.last() == root_id {
            chain.drop_last()
        } else {
            chain
        };
        proof {
            lemma_walk_up(nodes, node_id, stop, fuel);
            lemma_walk_shape(nodes, node_id, stop, fuel);
        }
        let mut ids: Vec<u64> = Vec::new();
        let mut current = node_id;
        let ghost mut i: int = 0;
        loop
            invariant_except_break
                0 <= i < chain.len(),
                chain[i] == current,
            invariant
                nodes == self.nodes@,
                chain == walk(nodes, node_id, stop, fuel),
                chain == walk_up(nodes, node_id, stop),
                stop == Some(root_id),
                self.root_id == Some(root_id),
                parts == (if chain.last() == root_id {
                    chain.drop_last()
                } else {
                    chain
                }),
                !steps_up(nodes, chain.last(), stop),
                forall|j: int|
                    0 <= j < chain.len() - 1 ==> steps_up(nodes, #[trigger] chain[j], stop)
                        && nodes[chain[j]].parent == chain[j + 1],
                ids@ == chain.take(i),
            ensures
                ids@ == parts,
                chain.last() == root_id || nodes.contains_key(chain.last()),
            decreases chain.len() - i,
        {
            if current == root_id {
                proof {
                    if i < chain.len() - 1 {
                        assert(steps_up(nodes, chain[i], stop));
                    }
                    assert(ids@ =~= parts);
                }
                break;
            }
            match self.nodes.get(&current) {
                None => {
                    proof {
                        if i < chain.len() - 1 {
                            assert(steps_up(nodes, chain[i], stop));
                        }
                        assert(path_of(nodes, Some(root_id), node_id, root_path@) is None);
                    }
                    return None;
                },
                Some(node) => {
                    ids.push(current);
                    proof {
                        i = i + 1;
                        assert(ids@ =~= chain.take(i));
                    }
                    if node.parent == 0 {
                        proof {
                            if i < chain.len() {
                                assert(steps_up(nodes, chain[i - 1], stop));
                            }
                            assert(chain.take(i) =~= chain);
                        }
                        break;
                    }
                    proof {
                        if i == chain.len() {
                            assert(chain.last() == current);
                        }
                    }
                    current = node.parent;
                },
            }
        }
        let mut path = root_path.to_owned();
        let mut k = ids.len();
        while k > 0
            invariant
                k <= ids@.len(),
                ids@ == parts,
                nodes == self.nodes@,
                forall|j: int| 0 <= j < ids@.len() ==> nodes.contains_key(#[trigger] ids@[j]),
                path@ == join_components(
                    root_path@,
                    names_down(nodes, ids@).take(ids@.len() - k),
                ),
            decreases k,
        {
            k -= 1;
            let ghost done = names_down(nodes, ids@).take(ids@.len() - k);
            proof {
                assert(done.drop_last() =~= names_down(nodes, ids@).take(ids@.len() - k - 1));
                assert(done.last() == nodes[ids@[k as int]].name@);
                assert(nodes.contains_key(ids@[k as int]));
            }
            match self.nodes.get(&ids[k]) {
                Some(node) => push_path_component(&mut path, node.name.as_str()),
                None => {},
            }
        }
        proof {
            assert(names_down(nodes, ids@).take(ids@.len() as int) =~= names_down(nodes, ids@));
        }
        Some(path)
    }
}


impl Default for DirTree {
    fn default() -> (tree: DirTree)
        ensures
            tree.is_empty_tree(),
    {
        DirTree::new()
    }
}

/// Read backwards, the order of `bottom_up_order` lists every subdirectory before the
/// directory that lists it.
pub proof fn law_bottom_up_order_children_first(nodes: Map<u64, DirNode>, root: u64)
    requires
        acyclic_below(nodes, root),
    ensures
        children_follow(nodes, subtree_order(nodes, root)),
        subtree_order(nodes, root)[0] == root,
{
    let n = depth_bound(nodes, root);
    lemma_pre_children_follow(nodes, root, n);
}

/// The sum below a directory, for a weight that is never negative, is the weight of the
/// directory plus the sums below its subdirectories.
proof fn lemma_sum_below_adds_up(
    nodes: Map<u64, DirNode>,
    root: u64,
    x: u64,
    w: spec_fn(DirNode) -> int,
)
    requires
        acyclic_below(nodes, root),
        nonnegative(w),
        subtree_total(nodes, root, w) <= u64::MAX,
        sums_below(nodes, root, w).contains_key(x),
    ensures
        sums_below(nodes, root, w)[x] == w(nodes[x]) + sum_recorded(
            sums_below(nodes, root, w),
            nodes[x].children@,
        ),
{
    let n = depth_bound(nodes, root);
    let sizes = sums_below(nodes, root, w);
    lemma_pre_members_bounded(nodes, root, n);
    lemma_pre_children_follow(nodes, root, n);
    lemma_pre_total_bound(nodes, root, n, w);
    lemma_canonical(nodes, root, n, w);
    let order = pre(nodes, root, n);
    assert(order.contains(x));
    assert(bounded(nodes, x, n));
    lemma_canonical(nodes, x, n, w);
    let ch = nodes[x].children@;
    let i = choose|i: int| 0 <= i < order.len() && order[i] == x;
    assert forall|k: int| 0 <= k < ch.len() implies get_or_zero(sizes, #[trigger] ch[k]) == total(
        nodes,
        ch[k],
        n,
        w,
    ) by {
        assert(children_of(nodes, order[i]) == ch);
        assert(listed_after(nodes, order, i, k));
        let j = choose|j: int| i < j < order.len() && #[trigger] order[j] == children_of(nodes, order[i])[k];
        assert(order[j] == ch[k]);
        assert(order.contains(ch[k]));
        lemma_canonical(nodes, ch[k], n, w);
        crate::hierarchy::lemma_total_nonnegative(nodes, ch[k], n, w);
        assert(total(nodes, ch[k], n, w) <= total(nodes, root, n, w));
        if nodes.contains_key(ch[k]) {
            assert(sizes.contains_key(ch[k]));
        }
    }
    lemma_sum_recorded_total(nodes, sizes, ch, n, w);
    lemma_stack_fuel(nodes, ch, (n - 1) as nat, n, w);
    crate::hierarchy::lemma_total_nonnegative(nodes, x, n, w);
    assert(total(nodes, x, n, w) <= total(nodes, root, n, w));
    assert(children_of(nodes, x) == ch);
    assert(total(nodes, x, n, w) == w(nodes[x]) + total_stack(nodes, ch, (n - 1) as nat, w));
}

/// The recursive size of a directory is the directly held bytes of it plus the recursive sizes
/// of its subdirectories.
pub proof fn law_recursive_size_adds_up(nodes: Map<u64, DirNode>, root: u64, x: u64)
    requires
        acyclic_below(nodes, root),
        subtree_total(nodes, root, direct_weight()) <= u64::MAX,
        sums_below(nodes, root, direct_weight()).contains_key(x),
    ensures
        sums_below(nodes, root, direct_weight())[x] == nodes[x].direct_size + sum_recorded(
            sums_below(nodes, root, direct_weight()),
            nodes[x].children@,
        ),
{
    lemma_direct_weight_nonnegative();
    lemma_sum_below_adds_up(nodes, root, x, direct_weight());
}

/// The filtered size of a directory is the bytes of its own files that the filter lets through
/// plus the filtered sizes of its subdirectories; its direct size does not count.
pub proof fn law_filtered_size_adds_up(
    nodes: Map<u64, DirNode>,
    root: u64,
    filter: FilterConfig,
    x: u64,
)
    requires
        acyclic_below(nodes, root),
        subtree_total(nodes, root, filtered_weight(filter)) <= u64::MAX,
        sums_below(nodes, root, filtered_weight(filter)).contains_key(x),
    ensures
        sums_below(nodes, root, filtered_weight(filter))[x] == matching_size(
            filter,
            nodes[x].files@,
        ) + sum_recorded(sums_below(nodes, root, filtered_weight(filter)), nodes[x].children@),
{
    lemma_filtered_weight_nonnegative(filter);
    lemma_sum_below_adds_up(nodes, root, x, filtered_weight(filter));
}

/// The range after widening by each of `mtimes` in turn.
pub open spec fn widen_all(range: (i64, i64), mtimes: Seq<i64>) -> (i64, i64)
    decreases mtimes.len(),
{
    if mtimes.len() == 0 {
        range
    } else {
        widen_mtime_range(widen_all(range, mtimes.drop_last()), mtimes.last())
    }
}

/// Starting from the empty range, the range of modification times spans exactly the positive
/// ones seen: it holds each of them, its ends are among them, and it stays empty when none is
/// positive.
pub proof fn law_mtime_range_spans_positive_times(mtimes: Seq<i64>)
    ensures
        forall|i: int|
            0 <= i < mtimes.len() && mtimes[i] > 0 ==> widen_all(empty_mtime_range(), mtimes).0
                <= #[trigger] mtimes[i] <= widen_all(empty_mtime_range(), mtimes).1,
        (forall|i: int| 0 <= i < mtimes.len() ==> #[trigger] mtimes[i] <= 0) ==> widen_all(
            empty_mtime_range(),
            mtimes,
        ) == empty_mtime_range(),
        (exists|i: int| 0 <= i < mtimes.len() && #[trigger] mtimes[i] > 0) ==> {
            &&& exists|i: int|
                0 <= i < mtimes.len() && #[trigger] mtimes[i] == widen_all(
                    empty_mtime_range(),
                    mtimes,
                ).0
            &&& exists|j: int|
                0 <= j < mtimes.len() && #[trigger] mtimes[j] == widen_all(
                    empty_mtime_range(),
                    mtimes,
                ).1
        },
    decreases mtimes.len(),
{
    if mtimes.len() > 0 {
        let init = mtimes.drop_last();
        law_mtime_range_spans_positive_times(init);
        let before = widen_all(empty_mtime_range(), init);
        let after = widen_all(empty_mtime_range(), mtimes);
        let m = mtimes.last();
        assert(after == widen_mtime_range(before, m));
        assert forall|i: int| 0 <= i < init.len() implies #[trigger] init[i] == mtimes[i] by {}
        if exists|i: int| 0 <= i < mtimes.len() && #[trigger] mtimes[i] > 0 {
            if exists|i: int| 0 <= i < init.len() && #[trigger] init[i] > 0 {
                let a = choose|i: int| 0 <= i < init.len() && #[trigger] init[i] == before.0;
                let b = choose|j: int| 0 <= j < init.len() && #[trigger] init[j] == before.1;
                assert(mtimes[a] == init[a]);
                assert(mtimes[b] == init[b]);
                assert(mtimes[mtimes.len() - 1] == m);
            } else {
                assert(before == empty_mtime_range());
                assert(m > 0) by {
                    let i = choose|i: int| 0 <= i < mtimes.len() && #[trigger] mtimes[i] > 0;
                    if i < init.len() {
                        assert(init[i] == mtimes[i]);
                    }
                }
                assert(mtimes[mtimes.len() - 1] == m);
            }
        }
        assert forall|i: int| 0 <= i < mtimes.len() && mtimes[i] > 0 implies after.0 <= #[trigger] mtimes[i]
            <= after.1 by {
            if i < init.len() {
                assert(init[i] == mtimes[i]);
            }
        }
        if forall|i: int| 0 <= i < mtimes.len() ==> #[trigger] mtimes[i] <= 0 {
            assert forall|i: int| 0 <= i < init.len() implies #[trigger] init[i] <= 0 by {
                assert(init[i] == mtimes[i]);
            }
            assert(mtimes[mtimes.len() - 1] <= 0);
        }
    }
}

/// The last `.` of `name` is the one at `dot` when none comes after it.
proof fn lemma_last_dot_at(name: Seq<char>, dot: int)
    requires
        0 <= dot < name.len(),
        name[dot] == '.',
        forall|j: int| dot < j < name.len() ==> name[j] != '.',
    ensures
        last_index_of(name, '.') == dot,
{
    crate::text::lemma_last_index_of(name, '.');
}

/// Text of ASCII characters takes one byte per character in UTF-8.
proof fn lemma_ascii_utf8_len(s: Seq<char>)
    requires
        forall|i: int| 0 <= i < s.len() ==> (s[i] as u32) < 0x80,
    ensures
        utf8_len(s) == s.len(),
    decreases s.len(),
{
    if s.len() > 0 {
        lemma_ascii_utf8_len(s.drop_last());
    }
}

/// A file takes the hue of its extension, the text after its last `.`, whenever that text is
/// not empty and takes at most 10 bytes in UTF-8, however short or long it is below that.
pub proof fn law_file_hue_follows_its_extension(name: Seq<char>, dot: int)
    requires
        0 <= dot < name.len() - 1,
        name[dot] == '.',
        forall|j: int| dot < j < name.len() ==> name[j] != '.',
        utf8_len(name.subrange(dot + 1, name.len() as int)) <= 10,
    ensures
        spec_file_hue(name) == spec_hue_for_extension(name.subrange(dot + 1, name.len() as int)),
{
    lemma_last_dot_at(name, dot);
}

/// For an ASCII extension (such as `jpeg`, `json` or `html`): whenever it has 1 to 10
/// characters, the file takes its hue.
pub proof fn law_ascii_extension_hue(name: Seq<char>, dot: int)
    requires
        0 <= dot < name.len() - 1,
        name.len() - 1 - dot <= 10,
        name[dot] == '.',
        forall|j: int| dot < j < name.len() ==> name[j] != '.' && (name[j] as u32) < 0x80,
    ensures
        spec_file_hue(name) == spec_hue_for_extension(name.subrange(dot + 1, name.len() as int)),
{
    let ext = name.subrange(dot + 1, name.len() as int);
    lemma_ascii_utf8_len(ext);
    law_file_hue_follows_its_extension(name, dot);
}

/// A file without a `.` in its name has hue 0.
pub proof fn law_no_extension_no_hue(name: Seq<char>)
    requires
        forall|j: int| 0 <= j < name.len() ==> name[j] != '.',
    ensures
        spec_file_hue(name) == 0,
{
    crate::text::lemma_last_index_of(name, '.');
}

} // verus!
