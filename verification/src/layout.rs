//! The settings that a treemap layout is computed with, and which rectangles a directory's
//! box is split into: its non-empty subdirectories, its files large enough to see, and one
//! box for all its other files.
use std::collections::HashMap;

use vstd::prelude::*;

use crate::filter::FilterConfig;
use crate::hierarchy::get_or_zero;
use crate::tree::FileEntry;

verus! {

broadcast use vstd::std_specs::hash::group_hash_axioms;

/// How deep containers nest, how rectangles are coloured (by file type, or by age with
/// `COLOR_MODE_AGE`), which files count, and the range of modification times that age colours
/// spread over.
pub struct LayoutConfig {
    pub max_depth: u8,
    pub color_mode: u8,
    pub filter: FilterConfig,
    pub mtime_range: (i64, i64),
}

/// What a rectangle of a directory's box stands for.
#[derive(Clone, Copy)]
pub enum ItemSource {
    /// The subdirectory with this id.
    Dir(u64),
    /// The file at this index of the directory's files.
    File(usize),
    /// The directory's files too small to show one by one.
    OtherFiles,
}

/// One rectangle to lay out in a directory's box, and the bytes it stands for.
#[derive(Clone, Copy)]
pub struct LayoutItem {
    pub source: ItemSource,
    pub size: u64,
}

/// The subdirectories of `children` with a positive size in `sizes`, in order.
pub open spec fn dir_items(children: Seq<u64>, sizes: Map<u64, u64>) -> Seq<LayoutItem>
    decreases children.len(),
{
    if children.len() == 0 {
        Seq::empty()
    } else {
        let c = children.last();
        let rest = dir_items(children.drop_last(), sizes);
        if get_or_zero(sizes, c) > 0 {
            rest.push(LayoutItem { source: ItemSource::Dir(c), size: get_or_zero(sizes, c) as u64 })
        } else {
            rest
        }
    }
}

/// A file counts in the layout: it has bytes, and the filter, when one is set, lets it through.
pub open spec fn file_counts(filter: FilterConfig, file: FileEntry) -> bool {
    file.size > 0 && (!filter.spec_is_active() || filter.spec_matches_file(file.name@, file.size))
}

/// A counted file is shown by itself when it has at least `min_bytes` (when there is such a
/// bound; without one, no file is).
pub open spec fn shown_alone(file: FileEntry, min_bytes: Option<u64>) -> bool {
    match min_bytes {
        Some(m) => file.size >= m,
        None => false,
    }
}

/// The files of `files` shown by themselves, in order, with their indices.
pub open spec fn file_items(files: Seq<FileEntry>, filter: FilterConfig, min_bytes: Option<u64>) -> Seq<
    LayoutItem,
>
    decreases files.len(),
{
    if files.len() == 0 {
        Seq::empty()
    } else {
        let f = files.last();
        let rest = file_items(files.drop_last(), filter, min_bytes);
        if file_counts(filter, f) && shown_alone(f, min_bytes) {
            rest.push(LayoutItem { source: ItemSource::File((files.len() - 1) as usize), size: f.size })
        } else {
            rest
        }
    }
}

/// The bytes of the counted files of `files` that are not shown by themselves.
pub open spec fn other_files_total(files: Seq<FileEntry>, filter: FilterConfig, min_bytes: Option<
    u64,
>) -> int
    decreases files.len(),
{
    if files.len() == 0 {
        0
    } else {
        let f = files.last();
        other_files_total(files.drop_last(), filter, min_bytes) + if file_counts(filter, f)
            && !shown_alone(f, min_bytes) {
            f.size as int
        } else {
            0
        }
    }
}

/// The rectangles of a directory's box: its subdirectories with a positive size, then the files
/// shown by themselves, then, when the other counted files hold any bytes, one box for them.
pub open spec fn layout_items_of(
    children: Seq<u64>,
    sizes: Map<u64, u64>,
    files: Seq<FileEntry>,
    filter: FilterConfig,
    min_bytes: Option<u64>,
) -> Seq<LayoutItem> {
    let shown = dir_items(children, sizes) + file_items(files, filter, min_bytes);
    let others = other_files_total(files, filter, min_bytes);
    if others > 0 {
        shown.push(LayoutItem { source: ItemSource::OtherFiles, size: others as u64 })
    } else {
        shown
    }
}

proof fn lemma_other_files_total_nonnegative(
    files: Seq<FileEntry>,
    filter: FilterConfig,
    min_bytes: Option<u64>,
)
    ensures
        other_files_total(files, filter, min_bytes) >= 0,
    decreases files.len(),
{
    if files.len() > 0 {
        lemma_other_files_total_nonnegative(files.drop_last(), filter, min_bytes);
    }
}

/// The rectangles that a directory's box is split into (see `layout_items_of`), in that
/// order; none when the bytes of the other files pass `u64::MAX`.
pub fn layout_items(
    children: &Vec<u64>,
    sizes: &HashMap<u64, u64>,
    files: &Vec<FileEntry>,
    filter: &FilterConfig,
    min_bytes: Option<u64>,
) -> (items: Option<Vec<LayoutItem>>)
    ensures
        match items {
            Some(v) => other_files_total(files@, *filter, min_bytes) <= u64::MAX && v@
                == layout_items_of(children@, sizes@, files@, *filter, min_bytes),
            None => other_files_total(files@, *filter, min_bytes) > u64::MAX,
        },
{
    let mut items: Vec<LayoutItem> = Vec::new();
    let mut k: usize = 0;
    while k < children.len()
        invariant
            k <= children@.len(),
            items@ == dir_items(children@.take(k as int), sizes@),
        decreases children@.len() - k,
    {
        let c = children[k];
        let size = match sizes.get(&c) {
            Some(s) => *s,
            None => 0,
        };
        proof {
            let t = children@.take(k + 1);
            assert(t.drop_last() =~= children@.take(k as int));
            assert(t.last() == c);
        }
        if size > 0 {
            items.push(LayoutItem { source: ItemSource::Dir(c), size });
        }
        k += 1;
    }
    proof {
        assert(children@.take(k as int) =~= children@);
    }
    let ghost dirs = items@;
    let filtering = filter.is_active();
    let mut others: u64 = 0;
    let mut i: usize = 0;
    proof {
        assert(files@.take(0) =~= Seq::<FileEntry>::empty());
        assert(dirs + file_items(files@.take(0), *filter, min_bytes) =~= dirs);
    }
    while i < files.len()
        invariant
            i <= files@.len(),
            filtering == filter.spec_is_active(),
            dirs == dir_items(children@, sizes@),
            items@ == dirs + file_items(files@.take(i as int), *filter, min_bytes),
            others == other_files_total(files@.take(i as int), *filter, min_bytes),
        decreases files@.len() - i,
    {
        let file = &files[i];
        proof {
            let t = files@.take(i + 1);
            assert(t.drop_last() =~= files@.take(i as int));
            assert(t.last() == files@[i as int]);
            assert(t.len() - 1 == i);
            lemma_other_files_total_nonnegative(files@.take(i as int), *filter, min_bytes);
        }
        let counts = file.size > 0 && (!filtering || filter.matches_file(file.name.as_str(), file.size));
        if counts {
            let alone = match min_bytes {
                Some(m) => file.size >= m,
                None => false,
            };
            if alone {
                items.push(LayoutItem { source: ItemSource::File(i), size: file.size });
            } else {
                if others > u64::MAX - file.size {
                    proof {
                        lemma_other_files_prefix(files@, *filter, min_bytes, i + 1);
                    }
                    return None;
                }
                others = others + file.size;
            }
        }
        i += 1;
    }
    proof {
        assert(files@.take(i as int) =~= files@);
    }
    if others > 0 {
        items.push(LayoutItem { source: ItemSource::OtherFiles, size: others });
    }
    Some(items)
}

/// The other files of a prefix hold no more bytes than those of all the files.
proof fn lemma_other_files_prefix(
    files: Seq<FileEntry>,
    filter: FilterConfig,
    min_bytes: Option<u64>,
    j: int,
)
    requires
        0 <= j <= files.len(),
    ensures
        other_files_total(files.take(j), filter, min_bytes) <= other_files_total(
            files,
            filter,
            min_bytes,
        ),
    decreases files.len() - j,
{
    if j < files.len() {
        lemma_other_files_prefix(files, filter, min_bytes, j + 1);
        assert(files.take(j + 1).drop_last() =~= files.take(j));
    } else {
        assert(files.take(j) =~= files);
    }
}

/// A rectangle to lay out with the id it is drawn under.
#[derive(Clone, Copy)]
pub struct NumberedItem {
    pub id: i64,
    pub source: ItemSource,
    pub size: u64,
}

/// How many of `items` stand for files (one file, or the other files) rather than a
/// subdirectory.
pub open spec fn file_like_count(items: Seq<LayoutItem>) -> int
    decreases items.len(),
{
    if items.len() == 0 {
        0
    } else {
        file_like_count(items.drop_last()) + if items.last().source is Dir {
            0int
        } else {
            1int
        }
    }
}

/// The id that item `k` of `items` is drawn under: a subdirectory's own id (as a signed
/// number), and for files the ids counting down from `next`, one per file item, in order.
pub open spec fn item_id(items: Seq<LayoutItem>, k: int, next: i64) -> int {
    match items[k].source {
        ItemSource::Dir(c) => (c as i64) as int,
        _ => next - file_like_count(items.take(k)),
    }
}

/// `numbered` holds `items` in order, each with the id `item_id` gives it.
pub open spec fn numbered_as(numbered: Seq<NumberedItem>, items: Seq<LayoutItem>, next: i64) -> bool {
    &&& numbered.len() == items.len()
    &&& forall|k: int|
        0 <= k < items.len() ==> {
            &&& #[trigger] numbered[k].id == item_id(items, k, next)
            &&& numbered[k].source == items[k].source
            &&& numbered[k].size == items[k].size
        }
}

proof fn lemma_file_like_count_bounds(items: Seq<LayoutItem>)
    ensures
        0 <= file_like_count(items) <= items.len(),
    decreases items.len(),
{
    if items.len() > 0 {
        lemma_file_like_count_bounds(items.drop_last());
    }
}

/// Gives each rectangle its id: subdirectories keep theirs, and files take the ids from
/// `next_id` down, one each. Also gives the next id still free.
pub fn number_items(items: &Vec<LayoutItem>, next_id: i64) -> (numbered: (Vec<NumberedItem>, i64))
    requires
        next_id - file_like_count(items@) >= i64::MIN,
    ensures
        numbered_as(numbered.0@, items@, next_id),
        numbered.1 == next_id - file_like_count(items@),
{
    let mut out: Vec<NumberedItem> = Vec::new();
    let mut next = next_id;
    let mut i: usize = 0;
    while i < items.len()
        invariant
            i <= items@.len(),
            next_id - file_like_count(items@) >= i64::MIN,
            next == next_id - file_like_count(items@.take(i as int)),
            numbered_as(out@, items@.take(i as int), next_id),
        decreases items@.len() - i,
    {
        let item = items[i];
        let ghost old_out = out@;
        let ghost old_next = next;
        proof {
            let t = items@.take(i + 1);
            assert(t.drop_last() =~= items@.take(i as int));
            assert(t.last() == items@[i as int]);
            lemma_count_prefix_le(items@, i + 1);
        }
        let id: i64 = match item.source {
            ItemSource::Dir(c) => c as i64,
            _ => {
                let id = next;
                next = next - 1;
                id
            },
        };
        out.push(NumberedItem { id, source: item.source, size: item.size });
        i += 1;
        proof {
            let t = items@.take(i as int);
            let p = items@.take(i - 1);
            assert forall|k: int| 0 <= k < t.len() implies #[trigger] out@[k].id == item_id(t, k, next_id) && out@[k].source == t[k].source && out@[k].size == t[k].size by {
                assert(t.take(k) =~= items@.take(k));
                if k < i - 1 {
                    assert(p.take(k) =~= items@.take(k));
                    assert(p[k] == t[k]);
                    assert(out@[k] == old_out[k]);
                    assert(old_out[k].id == item_id(p, k, next_id));
                } else {
                    assert(k == i - 1);
                    assert(t[k] == item);
                    assert(t.take(k) =~= p);
                    assert(old_next == next_id - file_like_count(p));
                }
            }
        }
    }
    proof {
        assert(items@.take(i as int) =~= items@);
    }
    (out, next)
}

/// The file-like items of a prefix are no more than those of the whole.
proof fn lemma_count_prefix_le(items: Seq<LayoutItem>, j: int)
    requires
        0 <= j <= items.len(),
    ensures
        file_like_count(items.take(j)) <= file_like_count(items),
    decreases items.len() - j,
{
    if j < items.len() {
        lemma_count_prefix_le(items, j + 1);
        assert(items.take(j + 1).drop_last() =~= items.take(j));
    } else {
        assert(items.take(j) =~= items);
    }
}

/// The sizes of `items` never grow from one to the next.
pub open spec fn largest_first_order(items: Seq<NumberedItem>) -> bool {
    forall|a: int, b: int| 0 <= a < b < items.len() ==> items[b].size <= items[a].size
}

/// The rectangles ordered largest first; items of equal size keep their order.
pub fn largest_first(items: &Vec<NumberedItem>) -> (sorted: Vec<NumberedItem>)
    ensures
        sorted@.to_multiset() == items@.to_multiset(),
        largest_first_order(sorted@),
{
    let mut out: Vec<NumberedItem> = Vec::new();
    let mut i: usize = 0;
    proof {
        assert(out@ =~= items@.take(0));
    }
    while i < items.len()
        invariant
            i <= items@.len(),
            out@.to_multiset() == items@.take(i as int).to_multiset(),
            largest_first_order(out@),
        decreases items@.len() - i,
    {
        let item = items[i];
        let mut j: usize = 0;
        while j < out.len() && out[j].size >= item.size
            invariant
                j <= out@.len(),
                forall|k: int| 0 <= k < j ==> out@[k].size >= item.size,
            decreases out@.len() - j,
        {
            j += 1;
        }
        let ghost before = out@;
        out.insert(j, item);
        proof {
            assert(items@.take(i + 1) =~= items@.take(i as int).push(item));
            vstd::seq_lib::to_multiset_build(items@.take(i as int), item);
            vstd::seq_lib::to_multiset_insert(before, j as int, item);
            assert forall|a: int, b: int| 0 <= a < b < out@.len() implies out@[b].size <= out@[a].size by {
                if b < j {
                } else if b == j {
                    assert(out@[a] == before[a]);
                } else if a < j {
                    assert(out@[b] == before[b - 1]);
                    assert(out@[a] == before[a]);
                    if j < before.len() {
                        assert(before[b - 1].size <= before[j as int].size);
                    }
                } else if a == j {
                    assert(out@[b] == before[b - 1]);
                    assert(before[b - 1].size <= before[j as int].size);
                } else {
                    assert(out@[b] == before[b - 1]);
                    assert(out@[a] == before[a - 1]);
                }
            }
        }
        i += 1;
    }
    proof {
        assert(items@.take(i as int) =~= items@);
    }
    out
}

} // verus!
