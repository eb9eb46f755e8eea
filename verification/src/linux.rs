//! What the Linux scanner reads from the kernel and makes of it: directory entry records as
//! `getdents64` returns them, the identity of an inode, the tally of a directory's files, the
//! path of a subdirectory, and the lines of the mount table.
use vstd::prelude::*;
use vstd::utf8::{encode_utf8, valid_utf8};

use crate::bytes::{read_u16_le, read_u64_le, u16_at, u64_at};
use crate::web::{char_range, kept_parts, kept_parts_of};

verus! {

broadcast use vstd::utf8::encode_utf8_decode_utf8;

/// The next step through a buffer of directory entry records.
pub enum DirentStep {
    /// No further whole record in the buffer.
    End,
    /// A record to pass over (no name end, a name that is not UTF-8, or `.` / `..`); the next
    /// one starts at `next`.
    Skip { next: usize },
    /// A named entry; the next record starts at `next`.
    Entry { ino: u64, d_type: u8, name: String, next: usize },
}

/// The index of the first zero byte of `data` in `[from, to)`, or `to`.
pub open spec fn first_nul(data: Seq<u8>, from: int, to: int) -> int
    decreases to - from,
{
    if from >= to {
        to
    } else if data[from] == 0 {
        from
    } else {
        first_nul(data, from + 1, to)
    }
}

/// The record at `offset` of the first `nread` bytes ends the walk: its fixed part or its
/// stated length does not fit, or the length is too short to hold a name.
pub open spec fn dirent_ends(buf: Seq<u8>, offset: int, nread: int) -> bool {
    offset + 20 > nread || u16_at(buf, offset + 16) == 0 || offset + u16_at(buf, offset + 16)
        > nread || u16_at(buf, offset + 16) < 19
}

/// The name bytes of the record at `offset`: from byte 19 up to the first zero within the
/// record.
pub open spec fn dirent_name(buf: Seq<u8>, offset: int) -> Seq<u8> {
    let end = offset + u16_at(buf, offset + 16);
    buf.subrange(offset + 19, first_nul(buf, offset + 19, end))
}

/// The record at `offset` has a zero byte that ends its name.
pub open spec fn dirent_has_nul(buf: Seq<u8>, offset: int) -> bool {
    let end = offset + u16_at(buf, offset + 16);
    first_nul(buf, offset + 19, end) < end
}

/// `name` is `.` or `..`.
pub open spec fn is_dot_name(name: Seq<u8>) -> bool {
    name == seq![46u8] || name == seq![46u8, 46u8]
}

/// The step that the record at `offset` of the first `nread` bytes of `buf` gives.
pub open spec fn dirent_step_is(buf: Seq<u8>, offset: int, nread: int, step: DirentStep) -> bool {
    if dirent_ends(buf, offset, nread) {
        step == DirentStep::End
    } else {
        let next = offset + u16_at(buf, offset + 16);
        let name = dirent_name(buf, offset);
        if !dirent_has_nul(buf, offset) || !valid_utf8(name) || is_dot_name(name) {
            step == DirentStep::Skip { next: next as usize }
        } else {
            step matches DirentStep::Entry { ino, d_type, name: n, next: nx } && ino == u64_at(
                buf,
                offset,
            ) && d_type == buf[offset + 18] && encode_utf8(n@) == name && nx == next
        }
    }
}

/// Reads the directory entry record at `offset` of the first `nread` bytes of `buf`: inode
/// number (8 bytes), offset (8), record length (2), type (1), then the name up to a zero
/// byte; numbers little-endian.
pub fn next_dirent(buf: &[u8], offset: usize, nread: usize) -> (step: DirentStep)
    requires
        nread <= buf@.len(),
        offset < nread,
    ensures
        dirent_step_is(buf@, offset as int, nread as int, step),
{
    if nread - offset < 20 {
        return DirentStep::End;
    }
    let reclen = read_u16_le(buf, offset + 16) as usize;
    if reclen == 0 || reclen > nread - offset || reclen < 19 {
        return DirentStep::End;
    }
    let ino = read_u64_le(buf, offset);
    let d_type = buf[offset + 18];
    let end = offset + reclen;
    let mut nul = offset + 19;
    while nul < end && buf[nul] != 0
        invariant
            offset + 19 <= nul <= end,
            end <= buf@.len(),
            first_nul(buf@, offset + 19, end as int) == first_nul(buf@, nul as int, end as int),
        decreases end - nul,
    {
        nul += 1;
    }
    if nul == end {
        return DirentStep::Skip { next: end };
    }
    let mut name_bytes: Vec<u8> = Vec::new();
    let mut i = offset + 19;
    while i < nul
        invariant
            offset + 19 <= i <= nul,
            nul <= buf@.len(),
            name_bytes@ == buf@.subrange(offset + 19, i as int),
        decreases nul - i,
    {
        name_bytes.push(buf[i]);
        i += 1;
        proof {
            assert(name_bytes@ =~= buf@.subrange(offset + 19, i as int));
        }
    }
    if name_bytes.len() == 1 && name_bytes[0] == 46 {
        proof {
            assert(name_bytes@ =~= seq![46u8]);
        }
        return DirentStep::Skip { next: end };
    }
    if name_bytes.len() == 2 && name_bytes[0] == 46 && name_bytes[1] == 46 {
        proof {
            assert(name_bytes@ =~= seq![46u8, 46u8]);
        }
        return DirentStep::Skip { next: end };
    }
    match core::str::from_utf8(name_bytes.as_slice()) {
        Ok(s) => DirentStep::Entry { ino, d_type, name: s.to_owned(), next: end },
        Err(_) => DirentStep::Skip { next: end },
    }
}

/// The first zero byte at or after `from` is the one at `z` when none comes between.
proof fn lemma_first_nul_at(data: Seq<u8>, from: int, to: int, z: int)
    requires
        from <= z < to,
        data[z] == 0,
        forall|j: int| from <= j < z ==> data[j] != 0,
    ensures
        first_nul(data, from, to) == z,
    decreases z - from,
{
    if from < z {
        lemma_first_nul_at(data, from + 1, to, z);
    }
}

/// A whole record whose name, from byte 19 of the record up to a zero byte inside it, is valid
/// UTF-8 and is neither `.` nor `..` is read as an entry with that name, its inode number, its
/// type, and the next record right after it. A name that only starts with `.` (such as
/// `.git`) is such a name.
pub proof fn law_named_record_is_an_entry(
    buf: Seq<u8>,
    offset: int,
    nread: int,
    z: int,
    step: DirentStep,
)
    requires
        0 <= offset,
        offset + 20 <= nread <= buf.len(),
        19 <= buf[offset + 16] + 256 * buf[offset + 17],
        offset + buf[offset + 16] + 256 * buf[offset + 17] <= nread,
        offset + 19 <= z < offset + buf[offset + 16] + 256 * buf[offset + 17],
        buf[z] == 0,
        forall|j: int| offset + 19 <= j < z ==> buf[j] != 0,
        valid_utf8(buf.subrange(offset + 19, z)),
        !(z == offset + 20 && buf[offset + 19] == 46),
        !(z == offset + 21 && buf[offset + 19] == 46 && buf[offset + 20] == 46),
        dirent_step_is(buf, offset, nread, step),
    ensures
        step matches DirentStep::Entry { ino, d_type, name, next } && encode_utf8(name@)
            == buf.subrange(offset + 19, z) && ino == u64_at(buf, offset) && d_type == buf[offset
            + 18] && next == offset + buf[offset + 16] + 256 * buf[offset + 17],
{
    let reclen = buf[offset + 16] + 256 * buf[offset + 17];
    assert(u16_at(buf, offset + 16) == reclen);
    lemma_first_nul_at(buf, offset + 19, offset + reclen, z);
    let name = buf.subrange(offset + 19, z);
    assert(dirent_name(buf, offset) == name);
    if name == seq![46u8] {
        assert(name.len() == 1);
        assert(name[0] == buf[offset + 19]);
    }
    if name == seq![46u8, 46u8] {
        assert(name.len() == 2);
        assert(name[0] == buf[offset + 19]);
        assert(name[1] == buf[offset + 20]);
    }
    assert(!is_dot_name(name));
}

/// The records named `.` and `..` are passed over, to the record right after them.
pub proof fn law_dot_records_are_skipped(buf: Seq<u8>, offset: int, nread: int, step: DirentStep)
    requires
        0 <= offset,
        offset + 20 <= nread <= buf.len(),
        22 <= buf[offset + 16] + 256 * buf[offset + 17],
        offset + buf[offset + 16] + 256 * buf[offset + 17] <= nread,
        buf[offset + 19] == 46,
        buf[offset + 20] == 0 || (buf[offset + 20] == 46 && buf[offset + 21] == 0),
        dirent_step_is(buf, offset, nread, step),
    ensures
        step == (DirentStep::Skip { next: (offset + buf[offset + 16] + 256 * buf[offset + 17]) as usize }),
{
    let reclen = buf[offset + 16] + 256 * buf[offset + 17];
    assert(u16_at(buf, offset + 16) == reclen);
    if buf[offset + 20] == 0 {
        lemma_first_nul_at(buf, offset + 19, offset + reclen, offset + 20);
        assert(dirent_name(buf, offset) =~= seq![46u8]);
    } else {
        lemma_first_nul_at(buf, offset + 19, offset + reclen, offset + 21);
        assert(dirent_name(buf, offset) =~= seq![46u8, 46u8]);
    }
}

/// A line of the mount table that names a mounted device.
pub struct MountLine {
    pub device: String,
    pub mount_point: String,
    pub fs_type: String,
}

/// The characters that `char::is_whitespace` of std counts as white space.
pub open spec fn is_white(c: char) -> bool {
    ||| c == ' '
    ||| ('\u{9}' <= c && c <= '\u{d}')
    ||| c == '\u{85}'
    ||| c == '\u{a0}'
    ||| c == '\u{1680}'
    ||| ('\u{2000}' <= c && c <= '\u{200a}')
    ||| c == '\u{2028}'
    ||| c == '\u{2029}'
    ||| c == '\u{202f}'
    ||| c == '\u{205f}'
    ||| c == '\u{3000}'
}

/// The first index at or after `from` whose white-space-ness is `white`, or the length.
pub open spec fn next_where(s: Seq<char>, from: int, white: bool) -> int
    decreases s.len() - from,
{
    if from < 0 || from >= s.len() {
        s.len() as int
    } else if is_white(s[from]) == white {
        from
    } else {
        next_where(s, from + 1, white)
    }
}

/// The words of `s` from `from` on: the runs of characters that are not white space.
pub open spec fn words_from(s: Seq<char>, from: int) -> Seq<Seq<char>>
    decreases s.len() - from,
{
    let start = next_where(s, from, false);
    if from < 0 || start >= s.len() {
        Seq::empty()
    } else {
        let end = next_where(s, start, true);
        if end <= from || end > s.len() {
            Seq::empty()
        } else {
            seq![s.subrange(start, end)] + words_from(s, end)
        }
    }
}

/// The words of a mount table line: device, mount point, file system type, ...
pub open spec fn words(s: Seq<char>) -> Seq<Seq<char>> {
    words_from(s, 0)
}

/// A mount table line worth listing: its device is a path (not a pseudo file system) and its
/// mount point is not under `/snap/`.
pub open spec fn listed_mount(line: Seq<char>) -> bool {
    let w = words(line);
    &&& w.len() >= 2
    &&& w[0].len() > 0 && w[0][0] == '/'
    &&& !(w[1].len() >= 6 && w[1].take(6) == seq!['/', 's', 'n', 'a', 'p', '/'])
}

pub proof fn lemma_next_where(s: Seq<char>, from: int, white: bool)
    requires
        0 <= from <= s.len(),
    ensures
        from <= next_where(s, from, white) <= s.len(),
        next_where(s, from, white) < s.len() ==> is_white(s[next_where(s, from, white)]) == white,
    decreases s.len() - from,
{
    if from < s.len() && is_white(s[from]) != white {
        lemma_next_where(s, from + 1, white);
    }
}

/// Whether `c` is white space as `char::is_whitespace` of std counts it.
fn white(c: char) -> (w: bool)
    ensures
        w == is_white(c),
{
    c == ' ' || ('\u{9}' <= c && c <= '\u{d}') || c == '\u{85}' || c == '\u{a0}' || c
        == '\u{1680}' || ('\u{2000}' <= c && c <= '\u{200a}') || c == '\u{2028}' || c
        == '\u{2029}' || c == '\u{202f}' || c == '\u{205f}' || c == '\u{3000}'
}

/// The first index at or after `from` whose white-space-ness is `want`, or the length.
fn scan_to(s: &Vec<char>, from: usize, want: bool) -> (at: usize)
    requires
        from <= s@.len(),
    ensures
        at == next_where(s@, from as int, want),
{
    let mut i = from;
    while i < s.len() && white(s[i]) != want
        invariant
            from <= i <= s@.len(),
            next_where(s@, from as int, want) == next_where(s@, i as int, want),
        decreases s@.len() - i,
    {
        i += 1;
    }
    i
}

/// The first three words of a mount table line (the type empty when there is none), when the
/// line names a device mounted outside `/snap/`.
pub fn parse_mount_line(line: &str) -> (entry: Option<MountLine>)
    ensures
        match entry {
            Some(m) => listed_mount(line@) && m.device@ == words(line@)[0] && m.mount_point@
                == words(line@)[1] && m.fs_type@ == (if words(line@).len() >= 3 {
                words(line@)[2]
            } else {
                Seq::empty()
            }),
            None => !listed_mount(line@),
        },
{
    let s = crate::text::chars_of(line);
    let mut found: Vec<Vec<char>> = Vec::new();
    let mut at: usize = 0;
    while found.len() < 3
        invariant
            at <= s@.len(),
            found@.len() <= 3,
            words(s@) == found@.map_values(|w: Vec<char>| w@) + words_from(s@, at as int),
        ensures
            found@.len() < 3 ==> words_from(s@, at as int).len() == 0,
        decreases s@.len() - at, 3 - found@.len(),
    {
        proof {
            lemma_next_where(s@, at as int, false);
        }
        let start = scan_to(&s, at, false);
        if start >= s.len() {
            break;
        }
        proof {
            lemma_next_where(s@, start as int, true);
        }
        let end = scan_to(&s, start, true);
        let ghost before = found@;
        let word = char_range(&s, start, end);
        found.push(word);
        proof {
            assert(found@.map_values(|w: Vec<char>| w@) =~= before.map_values(|w: Vec<char>| w@)
                + seq![s@.subrange(start as int, end as int)]);
        }
        at = end;
    }
    let ghost w = words(s@);
    proof {
        assert forall|k: int| 0 <= k < found@.len() implies #[trigger] found@[k]@ == w[k] by {
            assert(found@.map_values(|v: Vec<char>| v@)[k] == found@[k]@);
        }
        if found@.len() < 3 {
            assert(words_from(s@, at as int).len() == 0);
            assert(w.len() == found@.len());
        }
    }
    if found.len() < 2 {
        return None;
    }
    if found[0].len() == 0 || found[0][0] != '/' {
        return None;
    }
    let mp = &found[1];
    if mp.len() >= 6 && mp[0] == '/' && mp[1] == 's' && mp[2] == 'n' && mp[3] == 'a' && mp[4]
        == 'p' && mp[5] == '/' {
        proof {
            assert(mp@.take(6) =~= seq!['/', 's', 'n', 'a', 'p', '/']);
        }
        return None;
    }
    proof {
        if mp@.len() >= 6 && mp@.take(6) == seq!['/', 's', 'n', 'a', 'p', '/'] {
            assert(mp@[0] == mp@.take(6)[0]);
            assert(mp@[1] == mp@.take(6)[1]);
            assert(mp@[2] == mp@.take(6)[2]);
            assert(mp@[3] == mp@.take(6)[3]);
            assert(mp@[4] == mp@.take(6)[4]);
            assert(mp@[5] == mp@.take(6)[5]);
        }
    }
    let device = string_of(&found[0]);
    let mount_point = string_of(&found[1]);
    let fs_type = if found.len() >= 3 {
        string_of(&found[2])
    } else {
        String::new()
    };
    Some(MountLine { device, mount_point, fs_type })
}

/// The text of `chars`.
pub fn string_of(chars: &Vec<char>) -> (s: String)
    ensures
        s@ == chars@,
{
    let mut s = String::new();
    let mut i: usize = 0;
    while i < chars.len()
        invariant
            i <= chars@.len(),
            s@ == chars@.take(i as int),
        decreases chars@.len() - i,
    {
        s.push(chars[i]);
        i += 1;
        proof {
            assert(s@ =~= chars@.take(i as int));
        }
    }
    proof {
        assert(chars@.take(i as int) =~= chars@);
    }
    s
}

/// The name shown for a mount point: `Root` for `/`, else its last component when that is a
/// plain name (not `..`), else the mount point itself.
pub open spec fn volume_name_of(mount_point: Seq<char>) -> Seq<char> {
    let parts = kept_parts(mount_point, 0);
    if mount_point == seq!['/'] {
        seq!['R', 'o', 'o', 't']
    } else if parts.len() > 0 && parts.last() != seq!['.', '.'] {
        parts.last()
    } else {
        mount_point
    }
}

/// The name shown for a mount point.
pub fn volume_name(mount_point: &str) -> (name: String)
    ensures
        name@ == volume_name_of(mount_point@),
{
    let s = crate::text::chars_of(mount_point);
    if s.len() == 1 && s[0] == '/' {
        let mut root = String::new();
        root.push('R');
        root.push('o');
        root.push('o');
        root.push('t');
        proof {
            assert(mount_point@ =~= seq!['/']);
            assert(root@ =~= seq!['R', 'o', 'o', 't']);
        }
        return root;
    }
    proof {
        if mount_point@ == seq!['/'] {
            assert(s@.len() == 1 && s@[0] == '/');
        }
    }
    let parts = kept_parts_of(&s);
    if parts.len() > 0 {
        let last = &parts[parts.len() - 1];
        proof {
            assert(parts@.map_values(|p: Vec<char>| p@).last() == last@);
        }
        let dots = vec!['.', '.'];
        proof {
            assert(dots@ =~= seq!['.', '.']);
        }
        if !crate::web::same_chars(last, &dots) {
            return string_of(last);
        }
    }
    string_of(&s)
}

/// One identity for inode `ino` on device `dev`: the device number rotated left by 48 bits,
/// exclusive-or the inode number.
pub open spec fn node_id_of(dev: u64, ino: u64) -> u64 {
    ((dev << 48u64) | (dev >> 16u64)) ^ ino
}

/// The identity of inode `ino` on device `dev`.
pub fn node_id(dev: u64, ino: u64) -> (id: u64)
    ensures
        id == node_id_of(dev, ino),
{
    ((dev << 48u64) | (dev >> 16u64)) ^ ino
}

/// On one device, distinct inodes have distinct identities.
pub proof fn law_node_ids_tell_inodes_apart(dev: u64, a: u64, b: u64)
    ensures
        node_id_of(dev, a) == node_id_of(dev, b) ==> a == b,
{
    let r = (dev << 48u64) | (dev >> 16u64);
    assert((r ^ a) == (r ^ b) ==> a == b) by (bit_vector);
}

/// The bytes and the latest modification time counted so far in a directory.
pub struct DirTally {
    pub total: u64,
    pub mtime: i64,
}

impl DirTally {
    /// Nothing counted yet.
    pub fn new() -> (tally: DirTally)
        ensures
            tally.total == 0,
            tally.mtime == 0,
    {
        DirTally { total: 0, mtime: 0 }
    }

    /// Counts a file of `size` bytes last modified at `mtime`.
    pub fn count_file(&mut self, size: u64, mtime: i64)
        requires
            old(self).total + size <= u64::MAX,
        ensures
            final(self).total == old(self).total + size,
            final(self).mtime == (if mtime > old(self).mtime {
                mtime
            } else {
                old(self).mtime
            }),
    {
        self.total = self.total + size;
        if mtime > self.mtime {
            self.mtime = mtime;
        }
    }
}

/// `path` without the slashes at its end.
pub open spec fn trim_end_slashes(path: Seq<char>) -> Seq<char>
    decreases path.len(),
{
    if path.len() > 0 && path.last() == '/' {
        trim_end_slashes(path.drop_last())
    } else {
        path
    }
}

/// The path shown for subdirectory `name` of the directory at `parent`: none when the parent
/// has none, else the parent without its trailing slashes, a slash and the name.
pub open spec fn child_path_of(parent: Seq<char>, name: Seq<char>) -> Seq<char> {
    if parent.len() == 0 {
        Seq::empty()
    } else {
        trim_end_slashes(parent) + seq!['/'] + name
    }
}

/// The path shown for subdirectory `name` of the directory at `parent`.
pub fn child_path(parent: &str, name: &str) -> (path: String)
    ensures
        path@ == child_path_of(parent@, name@),
{
    let chars = crate::text::chars_of(parent);
    if chars.len() == 0 {
        return String::new();
    }
    let mut end = chars.len();
    proof {
        assert(chars@.take(end as int) =~= chars@);
    }
    while end > 0 && chars[end - 1] == '/'
        invariant
            end <= chars@.len(),
            trim_end_slashes(chars@.take(end as int)) == trim_end_slashes(chars@),
        decreases end,
    {
        proof {
            let t = chars@.take(end as int);
            assert(t.drop_last() =~= chars@.take(end - 1));
        }
        end -= 1;
    }
    let mut path = String::new();
    let mut i: usize = 0;
    while i < end
        invariant
            i <= end <= chars@.len(),
            path@ == chars@.take(i as int),
        decreases end - i,
    {
        path.push(chars[i]);
        i += 1;
        proof {
            assert(path@ =~= chars@.take(i as int));
        }
    }
    proof {
        let t = chars@.take(end as int);
        assert(!(t.len() > 0 && t.last() == '/'));
        assert(trim_end_slashes(t) == t);
    }
    path.push('/');
    path.push_str(name);
    proof {
        assert(path@ =~= child_path_of(parent@, name@));
    }
    path
}

/// A file with more than one name (hard links) may be met again under another one.
pub fn needs_dedup(nlink: u32) -> (check: bool)
    ensures
        check == (nlink > 1),
{
    nlink > 1
}

/// Whether a regular file's bytes count, as `du` counts them: a file with one name always
/// does; one with several names only where its inode was newly recorded as seen
/// (`newly_recorded`, which is looked up only when `needs_dedup` holds).
pub fn link_counted(nlink: u32, newly_recorded: bool) -> (counted: bool)
    ensures
        counted == (nlink <= 1 || newly_recorded),
{
    nlink <= 1 || newly_recorded
}

/// Whether the scan goes into a subdirectory: always when it may cross file systems, else only
/// when the subdirectory's mount (when it could be read) is the scanned root's.
pub fn descends_into(cross_filesystems: bool, child_mount: Option<u64>, root_mount: u64) -> (enter: bool)
    ensures
        enter == (cross_filesystems || child_mount == Some(root_mount)),
{
    if cross_filesystems {
        return true;
    }
    match child_mount {
        Some(m) => m == root_mount,
        None => false,
    }
}

} // verus!
