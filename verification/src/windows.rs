//! What the Windows scanner reads from `GetFileInformationByHandleEx`: the
//! `FILE_ID_BOTH_DIR_INFO` records of a directory listing.
use vstd::prelude::*;

use crate::bytes::{read_u16_le, read_u32_le, read_u64_le, u16_at, u32_at, u64_at};
use crate::platform::{decode_utf16_lossy, decode_utf16_prefix};

verus! {

pub const FILE_ATTRIBUTE_DIRECTORY: u32 = 16;

pub const FILE_ATTRIBUTE_REPARSE_POINT: u32 = 1024;

/// The size of the fixed part of a record.
pub const DIR_INFO_SIZE: usize = 112;

/// Where the name starts in a record.
pub const NAME_FIELD_OFFSET: usize = 104;

/// The fields of one listing record that the scanner reads.
pub struct DirInfo {
    pub next_entry_offset: u32,
    pub last_write_time: i64,
    pub end_of_file: i64,
    pub file_attributes: u32,
    pub file_id: i64,
    pub name: String,
}

/// What a listed entry is to the scanner.
pub enum EntryKind {
    /// A directory to descend into.
    Directory,
    /// A file to count.
    File,
    /// A reparse point (link or mount): neither.
    Other,
}

/// The number of UTF-16 units of the name of the record at `offset`: its stated byte length
/// halved, held to what the buffer has left.
pub open spec fn name_units_len(buf: Seq<u8>, offset: int) -> int {
    let stated = u32_at(buf, offset + 60) / 2;
    let available = (buf.len() - (offset + NAME_FIELD_OFFSET)) / 2;
    if stated < available {
        stated as int
    } else {
        available
    }
}

/// The UTF-16 units of the name of the record at `offset`, little-endian.
pub open spec fn name_units(buf: Seq<u8>, offset: int) -> Seq<u16> {
    Seq::new(
        name_units_len(buf, offset) as nat,
        |i: int| u16_at(buf, offset + NAME_FIELD_OFFSET + 2 * i),
    )
}

/// `info` holds the record at `offset` of `buf`.
pub open spec fn dir_info_is(buf: Seq<u8>, offset: int, info: DirInfo) -> bool {
    &&& info.next_entry_offset == u32_at(buf, offset)
    &&& info.last_write_time == u64_at(buf, offset + 24) as i64
    &&& info.end_of_file == u64_at(buf, offset + 40) as i64
    &&& info.file_attributes == u32_at(buf, offset + 56)
    &&& info.file_id == u64_at(buf, offset + 96) as i64
    &&& info.name@ == decode_utf16_lossy(name_units(buf, offset))
}

/// Reads the listing record at `offset`, when its fixed part fits in the buffer; the name
/// keeps to the buffer and unpaired surrogates in it read as the replacement character.
pub fn read_dir_info(buf: &[u8], offset: usize) -> (info: Option<DirInfo>)
    ensures
        info is Some <==> offset + DIR_INFO_SIZE <= buf@.len(),
        info matches Some(i) ==> dir_info_is(buf@, offset as int, i),
{
    if offset > buf.len() || buf.len() - offset < DIR_INFO_SIZE {
        return None;
    }
    let next_entry_offset = read_u32_le(buf, offset);
    let last_write_time = read_u64_le(buf, offset + 24) as i64;
    let end_of_file = read_u64_le(buf, offset + 40) as i64;
    let file_attributes = read_u32_le(buf, offset + 56);
    let file_id = read_u64_le(buf, offset + 96) as i64;
    let stated = (read_u32_le(buf, offset + 60) / 2) as usize;
    let name_start = offset + NAME_FIELD_OFFSET;
    let available = (buf.len() - name_start) / 2;
    let len = if stated < available {
        stated
    } else {
        available
    };
    assert(2 * available <= buf@.len() - name_start) by (nonlinear_arith)
        requires
            available == (buf@.len() - name_start) / 2,
            name_start <= buf@.len(),
    ;
    assert(len <= available);
    assert(name_start + 2 * len <= buf@.len());
    assert(len == name_units_len(buf@, offset as int));
    let mut units: Vec<u16> = Vec::new();
    let mut i: usize = 0;
    let mut at: usize = name_start;
    while i < len
        invariant
            i <= len,
            len == name_units_len(buf@, offset as int),
            name_start == offset + NAME_FIELD_OFFSET,
            at == name_start + 2 * i,
            name_start + 2 * len <= buf.len(),
            units@ == name_units(buf@, offset as int).take(i as int),
        decreases len - i,
    {
        units.push(read_u16_le(buf, at));
        i += 1;
        at += 2;
        proof {
            assert(units@ =~= name_units(buf@, offset as int).take(i as int));
        }
    }
    let name = decode_utf16_prefix(units.as_slice(), len);
    proof {
        assert(units@.take(len as int) =~= name_units(buf@, offset as int));
    }
    Some(DirInfo { next_entry_offset, last_write_time, end_of_file, file_attributes, file_id, name })
}

/// What the scanner makes of an entry with these attributes.
pub open spec fn kind_of(attributes: u32) -> EntryKind {
    let is_dir = attributes & FILE_ATTRIBUTE_DIRECTORY != 0;
    let is_reparse = attributes & FILE_ATTRIBUTE_REPARSE_POINT != 0;
    if is_reparse {
        EntryKind::Other
    } else if is_dir {
        EntryKind::Directory
    } else {
        EntryKind::File
    }
}

/// Whether an entry is a directory to descend into, a file to count, or a reparse point.
pub fn entry_kind(attributes: u32) -> (kind: EntryKind)
    ensures
        kind == kind_of(attributes),
{
    let is_dir = attributes & FILE_ATTRIBUTE_DIRECTORY != 0;
    let is_reparse = attributes & FILE_ATTRIBUTE_REPARSE_POINT != 0;
    if is_reparse {
        EntryKind::Other
    } else if is_dir {
        EntryKind::Directory
    } else {
        EntryKind::File
    }
}

} // verus!
