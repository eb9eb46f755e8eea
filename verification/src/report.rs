//! What a scan report shows: the largest entries, largest first, the paths of entries rebuilt
//! from their parent links, and the lines that list them with their sizes.
use std::collections::HashMap;

use vstd::prelude::*;
use vstd::string::StrSliceExecFns;
use vstd::utf8::encode_utf8;

use crate::hierarchy::walk_terminates;
use crate::paths::{join_components, push_component, push_path_component};
use crate::tree::{path_of, root_or_zero, DirTree};

verus! {

broadcast use vstd::std_specs::hash::group_hash_axioms;

/// `picked` holds distinct indices of `sizes`, their sizes never grow along it, and it takes
/// the `min(n, sizes.len())` largest: no index left out has a larger size than one taken.
pub open spec fn is_top(sizes: Seq<u64>, n: nat, picked: Seq<usize>) -> bool {
    &&& picked.len() == if n < sizes.len() {
        n
    } else {
        sizes.len()
    }
    &&& forall|k: int| 0 <= k < picked.len() ==> #[trigger] picked[k] < sizes.len()
    &&& forall|k: int, l: int| 0 <= k < l < picked.len() ==> picked[k] != picked[l]
    &&& forall|k: int, l: int|
        0 <= k < l < picked.len() ==> sizes[picked[k] as int] >= sizes[picked[l] as int]
    &&& forall|i: int, k: int|
        #![trigger sizes[i], picked[k]]
        0 <= i < sizes.len() && 0 <= k < picked.len() && !picked.contains(i as usize)
            ==> sizes[i] <= sizes[picked[k] as int]
}

/// The indices of the `n` largest of `sizes`, largest first.
pub fn top_indices(sizes: &Vec<u64>, n: usize) -> (picked: Vec<usize>)
    ensures
        is_top(sizes@, n as nat, picked@),
{
    let len = sizes.len();
    let mut remaining: Vec<usize> = Vec::new();
    let mut j: usize = 0;
    while j < len
        invariant
            j <= len,
            len == sizes@.len(),
            remaining@.len() == j,
            forall|a: int| 0 <= a < j ==> #[trigger] remaining@[a] == a,
        decreases len - j,
    {
        remaining.push(j);
        j += 1;
    }
    let target = if n < len {
        n
    } else {
        len
    };
    let mut picked: Vec<usize> = Vec::new();
    proof {
        assert forall|x: usize| x < len implies picked@.contains(x) || remaining@.contains(x) by {
            assert(remaining@[x as int] == x);
        }
    }
    while picked.len() < target
        invariant
            len == sizes@.len(),
            target <= len,
            target == (if n < len {
                n
            } else {
                len
            }),
            picked@.len() <= target,
            remaining@.len() + picked@.len() == len,
            forall|x: usize| x < len ==> picked@.contains(x) || remaining@.contains(x),
            forall|a: int|
                0 <= a < remaining@.len() ==> #[trigger] remaining@[a] < len && !picked@.contains(
                    remaining@[a],
                ),
            forall|a: int, b: int| 0 <= a < b < remaining@.len() ==> remaining@[a] != remaining@[b],
            forall|k: int| 0 <= k < picked@.len() ==> #[trigger] picked@[k] < len,
            forall|k: int, l: int| 0 <= k < l < picked@.len() ==> picked@[k] != picked@[l],
            forall|k: int, l: int|
                0 <= k < l < picked@.len() ==> sizes@[picked@[k] as int] >= sizes@[picked@[l] as int],
            forall|a: int, k: int|
                0 <= a < remaining@.len() && 0 <= k < picked@.len() ==> sizes@[remaining@[a] as int]
                    <= sizes@[picked@[k] as int],
        decreases target - picked@.len(),
    {
        let mut pos: usize = 0;
        let mut i: usize = 1;
        while i < remaining.len()
            invariant
                len == sizes@.len(),
                0 < remaining@.len(),
                pos < i <= remaining@.len(),
                forall|a: int| 0 <= a < remaining@.len() ==> #[trigger] remaining@[a] < len,
                forall|a: int|
                    0 <= a < i ==> sizes@[remaining@[a] as int] <= sizes@[remaining@[pos as int] as int],
            decreases remaining@.len() - i,
        {
            if sizes[remaining[i]] > sizes[remaining[pos]] {
                pos = i;
            }
            i += 1;
        }
        let ghost before_remaining = remaining@;
        let ghost before_picked = picked@;
        let best = remaining.remove(pos);
        picked.push(best);
        proof {
            assert(picked@ == before_picked.push(best));
            assert(remaining@ == before_remaining.remove(pos as int));
            assert forall|a: int| 0 <= a < remaining@.len() implies #[trigger] remaining@[a] < len
                && !picked@.contains(remaining@[a]) by {
                let src = if a < pos {
                    a
                } else {
                    a + 1
                };
                assert(remaining@[a] == before_remaining[src]);
                assert(src != pos);
                if picked@.contains(remaining@[a]) {
                    let k = choose|k: int| 0 <= k < picked@.len() && picked@[k] == remaining@[a];
                    if k < before_picked.len() {
                        assert(before_picked[k] == remaining@[a]);
                        assert(before_picked.contains(remaining@[a]));
                    }
                }
            }
            assert forall|a: int, b: int| 0 <= a < b < remaining@.len() implies remaining@[a]
                != remaining@[b] by {
                let sa = if a < pos {
                    a
                } else {
                    a + 1
                };
                let sb = if b < pos {
                    b
                } else {
                    b + 1
                };
                assert(remaining@[a] == before_remaining[sa]);
                assert(remaining@[b] == before_remaining[sb]);
            }
            assert forall|x: usize| x < len implies picked@.contains(x) || remaining@.contains(x) by {
                if before_picked.contains(x) {
                    let k = choose|k: int| 0 <= k < before_picked.len() && before_picked[k] == x;
                    assert(picked@[k] == x);
                } else {
                    let a = choose|a: int| 0 <= a < before_remaining.len() && before_remaining[a] == x;
                    if a == pos {
                        assert(picked@[picked@.len() - 1] == x);
                    } else if a < pos {
                        assert(remaining@[a] == x);
                    } else {
                        assert(remaining@[a - 1] == x);
                    }
                }
            }
            assert forall|k: int, l: int| 0 <= k < l < picked@.len() implies picked@[k] != picked@[l] by {
                if l == picked@.len() - 1 {
                    assert(before_remaining[pos as int] == best);
                    assert(!before_picked.contains(best));
                    assert(before_picked[k] == picked@[k]);
                }
            }
            assert forall|a: int, k: int|
                0 <= a < remaining@.len() && 0 <= k < picked@.len() implies sizes@[remaining@[a] as int]
                <= sizes@[picked@[k] as int] by {
                let src = if a < pos {
                    a
                } else {
                    a + 1
                };
                assert(remaining@[a] == before_remaining[src]);
                if k == picked@.len() - 1 {
                    assert(picked@[k] == before_remaining[pos as int]);
                } else {
                    assert(picked@[k] == before_picked[k]);
                }
            }
            assert forall|k: int, l: int|
                0 <= k < l < picked@.len() implies sizes@[picked@[k] as int] >= sizes@[picked@[l] as int] by {
                if l == picked@.len() - 1 {
                    assert(picked@[l] == before_remaining[pos as int]);
                    assert(picked@[k] == before_picked[k]);
                }
            }
        }
    }
    proof {
        assert forall|i: int, k: int|
            #![trigger sizes@[i], picked@[k]]
            0 <= i < sizes@.len() && 0 <= k < picked@.len() && !picked@.contains(i as usize) implies sizes@[i]
            <= sizes@[picked@[k] as int] by {
            assert(remaining@.contains(i as usize));
            let a = choose|a: int| 0 <= a < remaining@.len() && remaining@[a] == i as usize;
            assert(remaining@[a] == i as usize);
        }
    }
    picked
}

/// The most links a path is rebuilt through before giving up.
pub const MAX_CHAIN: usize = 1000;

/// The entries from `x` up to (not counting) `root`, following `parents`, when they reach it
/// within `budget` entries and every link is known.
pub open spec fn chain_to_root(parents: Map<u64, u64>, x: u64, root: u64, budget: nat) -> Option<
    Seq<u64>,
>
    decreases budget,
{
    if x == root {
        Some(Seq::empty())
    } else if !parents.contains_key(x) || budget == 0 {
        None
    } else {
        match chain_to_root(parents, parents[x], root, (budget - 1) as nat) {
            Some(rest) => Some(seq![x] + rest),
            None => None,
        }
    }
}

/// The entries from `file_id` up to (not counting) `root_id`, following `parents`; `None` when
/// a link is missing or the chain runs past `MAX_CHAIN` entries.
pub fn ancestor_chain(file_id: u64, parents: &HashMap<u64, u64>, root_id: u64) -> (chain: Option<
    Vec<u64>,
>)
    ensures
        match chain {
            Some(c) => chain_to_root(parents@, file_id, root_id, MAX_CHAIN as nat) == Some(c@),
            None => chain_to_root(parents@, file_id, root_id, MAX_CHAIN as nat) is None,
        },
{
    let mut chain: Vec<u64> = Vec::new();
    let mut current = file_id;
    while current != root_id
        invariant
            chain@.len() <= MAX_CHAIN,
            chain_to_root(parents@, file_id, root_id, MAX_CHAIN as nat) == match chain_to_root(
                parents@,
                current,
                root_id,
                (MAX_CHAIN - chain@.len()) as nat,
            ) {
                Some(rest) => Some(chain@ + rest),
                None => None,
            },
        decreases MAX_CHAIN - chain@.len(),
    {
        let ghost before = chain@;
        let ghost at = current;
        chain.push(current);
        let parent = match parents.get(&current) {
            Some(p) => *p,
            None => {
                proof {
                    assert(chain_to_root(parents@, at, root_id, (MAX_CHAIN - before.len()) as nat) is None);
                }
                return None;
            },
        };
        if chain.len() > MAX_CHAIN {
            proof {
                assert(chain_to_root(parents@, at, root_id, (MAX_CHAIN - before.len()) as nat) is None);
            }
            return None;
        }
        current = parent;
        proof {
            let budget = (MAX_CHAIN - before.len()) as nat;
            assert(chain_to_root(parents@, at, root_id, budget) == match chain_to_root(
                parents@,
                current,
                root_id,
                (budget - 1) as nat,
            ) {
                Some(rest) => Some(seq![at] + rest),
                None => None,
            });
            match chain_to_root(parents@, current, root_id, (budget - 1) as nat) {
                Some(rest) => {
                    assert(before + (seq![at] + rest) =~= chain@ + rest);
                },
                None => {},
            }
        }
    }
    proof {
        assert(chain@ + Seq::<u64>::empty() =~= chain@);
    }
    Some(chain)
}

/// The names that `names` records for the entries of `chain`, taken from the last one
/// (nearest the root) to the first; `None` when one has no name.
pub open spec fn names_root_first(names: Map<u64, String>, chain: Seq<u64>) -> Option<
    Seq<Seq<char>>,
> {
    if forall|i: int| 0 <= i < chain.len() ==> names.contains_key(#[trigger] chain[i]) {
        Some(Seq::new(chain.len(), |i: int| names[chain[chain.len() - 1 - i]]@))
    } else {
        None
    }
}

/// The path of entry `file_id` below `root_path`: the names of the entries from below the root
/// down to it, joined as path components. `None` when the chain to the root cannot be followed
/// or an entry on it has no name in `names`.
pub fn resolve_path(
    file_id: u64,
    parents: &HashMap<u64, u64>,
    root_id: u64,
    root_path: &str,
    names: &HashMap<u64, String>,
) -> (path: Option<String>)
    ensures
        match chain_to_root(parents@, file_id, root_id, MAX_CHAIN as nat) {
            None => path is None,
            Some(chain) => match names_root_first(names@, chain) {
                None => path is None,
                Some(parts) => path matches Some(p) && p@ == join_components(root_path@, parts),
            },
        },
{
    let chain = match ancestor_chain(file_id, parents, root_id) {
        Some(chain) => chain,
        None => return None,
    };
    let mut path = root_path.to_owned();
    let mut k = chain.len();
    let ghost parts = Seq::new(chain@.len(), |i: int| names@[chain@[chain@.len() - 1 - i]]@);
    while k > 0
        invariant
            k <= chain@.len(),
            chain_to_root(parents@, file_id, root_id, MAX_CHAIN as nat) == Some(chain@),
            parts == Seq::new(chain@.len(), |i: int| names@[chain@[chain@.len() - 1 - i]]@),
            forall|i: int| k <= i < chain@.len() ==> names@.contains_key(#[trigger] chain@[i]),
            path@ == join_components(root_path@, parts.take(chain@.len() - k)),
        decreases k,
    {
        k -= 1;
        match names.get(&chain[k]) {
            Some(name) => {
                proof {
                    let done = parts.take(chain@.len() - k);
                    assert(done.drop_last() =~= parts.take(chain@.len() - k - 1));
                    assert(done.last() == name@);
                }
                push_path_component(&mut path, name.as_str());
            },
            None => {
                proof {
                    assert(!names@.contains_key(chain@[k as int]));
                    assert(!(forall|i: int|
                        0 <= i < chain@.len() ==> names@.contains_key(#[trigger] chain@[i])));
                    assert(names_root_first(names@, chain@) is None);
                }
                return None;
            },
        }
    }
    proof {
        assert(parts.take(chain@.len() as int) =~= parts);
    }
    Some(path)
}

/// The text that `humansize::format_size` gives for `bytes` with the binary units (KiB, MiB,
/// ...): a number with up to two decimals, a space and the unit.
pub uninterp spec fn binary_size_text(bytes: u64) -> Seq<char>;

/// `humansize::format_size(bytes, humansize::BINARY)`. Its contract names the result and says
/// nothing more of it: the text comes from floating-point arithmetic inside the crate.
#[verifier::external_body]
fn format_binary_size(bytes: u64) -> (text: String)
    ensures
        text@ == binary_size_text(bytes),
{
    humansize::format_size(bytes, humansize::BINARY)
}

/// The number of bytes of `text` in UTF-8, as `str::len` gives it.
pub open spec fn byte_width(text: Seq<char>) -> int {
    (encode_utf8(text).len() as usize) as int
}

/// The widest size text, in bytes, among the sizes of `entries`.
pub open spec fn widest(entries: Seq<(String, u64)>) -> int
    decreases entries.len(),
{
    if entries.len() == 0 {
        0
    } else {
        let rest = widest(entries.drop_last());
        let last = byte_width(binary_size_text(entries.last().1));
        if last > rest {
            last
        } else {
            rest
        }
    }
}

/// `n` spaces (none when `n` is not positive).
pub open spec fn spaces(n: int) -> Seq<char> {
    Seq::new(if n > 0 {
        n as nat
    } else {
        0
    }, |i: int| ' ')
}

/// A report line: the size text right-aligned in `width` characters, two spaces, the path.
pub open spec fn report_line(size_text: Seq<char>, width: int, path: Seq<char>) -> Seq<char> {
    spaces(width - size_text.len()) + size_text + seq![' ', ' '] + path
}

/// The lines of a report of `entries` (path and size), one per entry in order: each size
/// written with binary units and right-aligned to the widest of them, then the path.
pub fn report_lines(entries: &Vec<(String, u64)>) -> (lines: Vec<String>)
    ensures
        lines@.len() == entries@.len(),
        forall|i: int|
            0 <= i < entries@.len() ==> #[trigger] lines@[i]@ == report_line(
                binary_size_text(entries@[i].1),
                widest(entries@),
                entries@[i].0@,
            ),
{
    let mut texts: Vec<String> = Vec::new();
    let mut width: usize = 0;
    let mut k: usize = 0;
    while k < entries.len()
        invariant
            k <= entries@.len(),
            texts@.len() == k,
            forall|j: int| 0 <= j < k ==> #[trigger] texts@[j]@ == binary_size_text(entries@[j].1),
            width == widest(entries@.take(k as int)),
        decreases entries@.len() - k,
    {
        let text = format_binary_size(entries[k].1);
        let w = text.as_str().len();
        proof {
            let t = entries@.take(k + 1);
            assert(t.drop_last() =~= entries@.take(k as int));
            assert(t.last() == entries@[k as int]);
        }
        if w > width {
            width = w;
        }
        texts.push(text);
        k += 1;
    }
    proof {
        assert(entries@.take(k as int) =~= entries@);
    }
    let mut lines: Vec<String> = Vec::new();
    let mut i: usize = 0;
    while i < entries.len()
        invariant
            i <= entries@.len(),
            texts@.len() == entries@.len(),
            forall|j: int| 0 <= j < entries@.len() ==> #[trigger] texts@[j]@ == binary_size_text(
                entries@[j].1,
            ),
            width == widest(entries@),
            lines@.len() == i,
            forall|j: int|
                0 <= j < i ==> #[trigger] lines@[j]@ == report_line(
                    binary_size_text(entries@[j].1),
                    widest(entries@),
                    entries@[j].0@,
                ),
        decreases entries@.len() - i,
    {
        let text = texts[i].as_str();
        let chars = text.unicode_len();
        let mut line = String::new();
        let mut pad: usize = 0;
        while chars + pad < width
            invariant
                chars == text@.len(),
                line@ == spaces(pad as int),
                chars + pad <= width || pad == 0,
            decreases width - pad,
        {
            line.push(' ');
            pad += 1;
            proof {
                assert(line@ =~= spaces(pad as int));
            }
        }
        proof {
            assert(line@ =~= spaces(width - chars));
        }
        line.push_str(text);
        line.push_str("  ");
        line.push_str(entries[i].0.as_str());
        proof {
            reveal_strlit("  ");
            assert(line@ =~= report_line(binary_size_text(entries@[i as int].1), widest(entries@), entries@[i as int].0@));
        }
        lines.push(line);
        i += 1;
    }
    lines
}

/// The largest directories and, when asked for, the largest files of a scan, largest first,
/// each with its path.
pub struct ScanResult {
    pub dir_sizes: Vec<(String, u64)>,
    pub file_entries: Vec<(String, u64)>,
}

/// The path shown for directory `id` in a report: its path below `root_path`, or nothing when
/// the walk up to the root does not end or meets a missing directory, or there is no root.
pub open spec fn report_path(tree: DirTree, id: u64, root_path: Seq<char>) -> Seq<char> {
    if walk_terminates(tree.nodes@, id, Some(root_or_zero(tree.root_id))) {
        match path_of(tree.nodes@, tree.root_id, id, root_path) {
            Some(p) => p,
            None => Seq::empty(),
        }
    } else {
        Seq::empty()
    }
}

/// The sizes of directory records `(id, recursive size)`.
pub open spec fn dir_record_sizes(dirs: Seq<(u64, u64)>) -> Seq<u64> {
    Seq::new(dirs.len(), |i: int| dirs[i].1)
}

/// The sizes of file records `(directory id, name, size)`.
pub open spec fn file_record_sizes(files: Seq<(u64, String, u64)>) -> Seq<u64> {
    Seq::new(files.len(), |i: int| files[i].2)
}

/// `entries` are the directory records at `picked`, each with its report path.
pub open spec fn dirs_reported(
    tree: DirTree,
    dirs: Seq<(u64, u64)>,
    root_path: Seq<char>,
    picked: Seq<usize>,
    entries: Seq<(String, u64)>,
) -> bool {
    &&& entries.len() == picked.len()
    &&& forall|i: int|
        0 <= i < picked.len() ==> {
            &&& (#[trigger] entries[i]).0@ == report_path(tree, dirs[picked[i] as int].0, root_path)
            &&& entries[i].1 == dirs[picked[i] as int].1
        }
}

/// `entries` are the file records at `picked`, each with the report path of its directory
/// extended by its name.
pub open spec fn files_reported(
    tree: DirTree,
    files: Seq<(u64, String, u64)>,
    root_path: Seq<char>,
    picked: Seq<usize>,
    entries: Seq<(String, u64)>,
) -> bool {
    &&& entries.len() == picked.len()
    &&& forall|i: int|
        0 <= i < picked.len() ==> {
            &&& (#[trigger] entries[i]).0@ == push_component(
                report_path(tree, files[picked[i] as int].0, root_path),
                files[picked[i] as int].1@,
            )
            &&& entries[i].1 == files[picked[i] as int].2
        }
}

/// The path shown for directory `id` in a report.
fn report_path_of(tree: &DirTree, id: u64, root_path: &str) -> (path: String)
    ensures
        path@ == report_path(*tree, id, root_path@),
{
    let root = match tree.root_id {
        Some(r) => r,
        None => 0,
    };
    if tree.walk_ends_from(id, Some(root)) {
        match tree.full_path(id, root_path) {
            Some(p) => p,
            None => String::new(),
        }
    } else {
        String::new()
    }
}

/// The report of a scan: the `top` largest of the directory records `(id, recursive size)`,
/// and, when `collect_files` is set, the `top` largest of the file records `(directory id,
/// name, size)`, largest first, each with its path below `root_path`.
pub fn scan_result(
    tree: &DirTree,
    dirs: &Vec<(u64, u64)>,
    files: &Vec<(u64, String, u64)>,
    collect_files: bool,
    top: usize,
    root_path: &str,
) -> (result: ScanResult)
    ensures
        exists|picked: Seq<usize>|
            is_top(dir_record_sizes(dirs@), top as nat, picked) && #[trigger] dirs_reported(
                *tree,
                dirs@,
                root_path@,
                picked,
                result.dir_sizes@,
            ),
        collect_files ==> exists|picked: Seq<usize>|
            is_top(file_record_sizes(files@), top as nat, picked) && #[trigger] files_reported(
                *tree,
                files@,
                root_path@,
                picked,
                result.file_entries@,
            ),
        !collect_files ==> result.file_entries@.len() == 0,
{
    let mut sizes: Vec<u64> = Vec::new();
    let mut k: usize = 0;
    while k < dirs.len()
        invariant
            k <= dirs@.len(),
            sizes@ == dir_record_sizes(dirs@).take(k as int),
        decreases dirs@.len() - k,
    {
        sizes.push(dirs[k].1);
        k += 1;
        proof {
            assert(sizes@ =~= dir_record_sizes(dirs@).take(k as int));
        }
    }
    proof {
        assert(sizes@ =~= dir_record_sizes(dirs@));
    }
    let picked = top_indices(&sizes, top);
    let mut dir_sizes: Vec<(String, u64)> = Vec::new();
    let mut i: usize = 0;
    while i < picked.len()
        invariant
            i <= picked@.len(),
            is_top(dir_record_sizes(dirs@), top as nat, picked@),
            dir_sizes@.len() == i,
            forall|j: int|
                0 <= j < i ==> {
                    &&& (#[trigger] dir_sizes@[j]).0@ == report_path(
                        *tree,
                        dirs@[picked@[j] as int].0,
                        root_path@,
                    )
                    &&& dir_sizes@[j].1 == dirs@[picked@[j] as int].1
                },
        decreases picked@.len() - i,
    {
        let index = picked[i];
        assert(index < dirs@.len());
        let (id, size) = dirs[index];
        dir_sizes.push((report_path_of(tree, id, root_path), size));
        i += 1;
    }
    assert(dirs_reported(*tree, dirs@, root_path@, picked@, dir_sizes@));
    let ghost dir_witness = picked@;
    let ghost file_witness = Seq::<usize>::empty();
    let mut file_entries: Vec<(String, u64)> = Vec::new();
    if collect_files {
        let mut fsizes: Vec<u64> = Vec::new();
        let mut k: usize = 0;
        while k < files.len()
            invariant
                k <= files@.len(),
                fsizes@ == file_record_sizes(files@).take(k as int),
            decreases files@.len() - k,
        {
            fsizes.push(files[k].2);
            k += 1;
            proof {
                assert(fsizes@ =~= file_record_sizes(files@).take(k as int));
            }
        }
        proof {
            assert(fsizes@ =~= file_record_sizes(files@));
        }
        let fpicked = top_indices(&fsizes, top);
        let mut i: usize = 0;
        while i < fpicked.len()
            invariant
                i <= fpicked@.len(),
                is_top(file_record_sizes(files@), top as nat, fpicked@),
                file_entries@.len() == i,
                forall|j: int|
                    0 <= j < i ==> {
                        &&& (#[trigger] file_entries@[j]).0@ == push_component(
                            report_path(*tree, files@[fpicked@[j] as int].0, root_path@),
                            files@[fpicked@[j] as int].1@,
                        )
                        &&& file_entries@[j].1 == files@[fpicked@[j] as int].2
                    },
            decreases fpicked@.len() - i,
        {
            let index = fpicked[i];
            assert(index < files@.len());
            let file = &files[index];
            let mut path = report_path_of(tree, file.0, root_path);
            push_path_component(&mut path, file.1.as_str());
            file_entries.push((path, file.2));
            i += 1;
        }
        assert(files_reported(*tree, files@, root_path@, fpicked@, file_entries@));
        proof {
            file_witness = fpicked@;
        }
    }
    let result = ScanResult { dir_sizes, file_entries };
    assert(is_top(dir_record_sizes(dirs@), top as nat, dir_witness) && dirs_reported(
        *tree,
        dirs@,
        root_path@,
        dir_witness,
        result.dir_sizes@,
    ));
    assert(collect_files ==> is_top(file_record_sizes(files@), top as nat, file_witness)
        && files_reported(*tree, files@, root_path@, file_witness, result.file_entries@));
    result
}

} // verus!
