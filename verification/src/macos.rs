//! What the macOS scanner reads from `getattrlistbulk`: one entry of attributes, laid out
//! according to the bitmap of the attributes that were returned.
use vstd::prelude::*;
use vstd::utf8::{encode_utf8, valid_utf8};

use crate::bytes::{read_u32_le, read_u64_le, u32_at, u64_at};
use crate::linux::first_nul;

verus! {

broadcast use vstd::utf8::encode_utf8_decode_utf8;

pub const ATTR_CMN_NAME: u32 = 0x0000_0001;

pub const ATTR_CMN_DEVID: u32 = 0x0000_0002;

pub const ATTR_CMN_OBJTYPE: u32 = 0x0000_0008;

pub const ATTR_CMN_MODTIME: u32 = 0x0000_0400;

pub const ATTR_CMN_FILEID: u32 = 0x0200_0000;

pub const ATTR_FILE_LINKCOUNT: u32 = 0x0000_0001;

pub const ATTR_FILE_DATALENGTH: u32 = 0x0000_0200;

/// Object type of a regular file.
pub const VREG: u32 = 1;

/// Object type of a directory.
pub const VDIR: u32 = 2;

/// The attributes of one directory entry; an attribute that was not returned reads as zero
/// (the name as empty).
pub struct ParsedEntry {
    pub name: String,
    pub dev_id: i32,
    pub obj_type: u32,
    pub file_id: u64,
    pub file_size: u64,
    pub nlink: u32,
    pub mtime: i64,
}

/// `w` bytes when the attribute is present, none otherwise.
pub open spec fn width(present: bool, w: int) -> int {
    if present {
        w
    } else {
        0
    }
}

/// The common attributes that were returned.
pub open spec fn common_bits(entry: Seq<u8>) -> u32 {
    u32_at(entry, 4)
}

/// The file attributes that were returned.
pub open spec fn file_bits(entry: Seq<u8>) -> u32 {
    u32_at(entry, 16)
}

pub open spec fn has(bits: u32, flag: u32) -> bool {
    bits & flag != 0
}

/// Where the name reference starts: after the length and the returned-attributes bitmap.
pub open spec fn pos_name() -> int {
    24
}

pub open spec fn pos_dev(e: Seq<u8>) -> int {
    pos_name() + width(has(common_bits(e), ATTR_CMN_NAME), 8)
}

pub open spec fn pos_type(e: Seq<u8>) -> int {
    pos_dev(e) + width(has(common_bits(e), ATTR_CMN_DEVID), 4)
}

pub open spec fn pos_mtime(e: Seq<u8>) -> int {
    pos_type(e) + width(has(common_bits(e), ATTR_CMN_OBJTYPE), 4)
}

pub open spec fn pos_file_id(e: Seq<u8>) -> int {
    pos_mtime(e) + width(has(common_bits(e), ATTR_CMN_MODTIME), 16)
}

pub open spec fn pos_nlink(e: Seq<u8>) -> int {
    pos_file_id(e) + width(has(common_bits(e), ATTR_CMN_FILEID), 8)
}

pub open spec fn pos_size(e: Seq<u8>) -> int {
    pos_nlink(e) + width(has(file_bits(e), ATTR_FILE_LINKCOUNT), 4)
}

pub open spec fn pos_end(e: Seq<u8>) -> int {
    pos_size(e) + width(has(file_bits(e), ATTR_FILE_DATALENGTH), 8)
}

/// The offset of the name, relative to the start of its reference.
pub open spec fn name_offset(e: Seq<u8>) -> i32 {
    u32_at(e, pos_name()) as i32
}

/// Where the name's bytes start.
pub open spec fn name_start(e: Seq<u8>) -> int {
    pos_name() + name_offset(e)
}

/// The name's bytes: from its start up to the first zero byte of the entry.
pub open spec fn name_bytes_of(e: Seq<u8>) -> Seq<u8> {
    e.subrange(name_start(e), first_nul(e, name_start(e), e.len() as int))
}

/// The name can be read: its start lies inside the entry, a zero byte ends it, and it is
/// valid UTF-8.
pub open spec fn name_readable(e: Seq<u8>) -> bool {
    &&& name_offset(e) >= 0
    &&& name_start(e) < e.len()
    &&& first_nul(e, name_start(e), e.len() as int) < e.len()
    &&& valid_utf8(name_bytes_of(e))
}

/// A name offset that points before the start of the entry (adding it to the reference's
/// position does not fit in `usize` arithmetic).
pub open spec fn name_offset_wraps(e: Seq<u8>) -> bool {
    e.len() >= pos_dev(e) && has(common_bits(e), ATTR_CMN_NAME) && name_offset(e) < 0 && pos_name()
        + name_offset(e) >= 0
}

/// The entry holds every attribute it says was returned, and a readable name if one was.
pub open spec fn entry_parses(e: Seq<u8>) -> bool {
    &&& e.len() >= pos_name()
    &&& pos_end(e) <= e.len()
    &&& has(common_bits(e), ATTR_CMN_NAME) ==> name_readable(e)
}

/// `parsed` holds the attributes of the entry `e`.
pub open spec fn entry_is(e: Seq<u8>, parsed: ParsedEntry) -> bool {
    &&& if has(common_bits(e), ATTR_CMN_NAME) {
        encode_utf8(parsed.name@) == name_bytes_of(e)
    } else {
        parsed.name@.len() == 0
    }
    &&& parsed.dev_id == (if has(common_bits(e), ATTR_CMN_DEVID) {
        u32_at(e, pos_dev(e)) as i32
    } else {
        0
    })
    &&& parsed.obj_type == (if has(common_bits(e), ATTR_CMN_OBJTYPE) {
        u32_at(e, pos_type(e))
    } else {
        0
    })
    &&& parsed.mtime == (if has(common_bits(e), ATTR_CMN_MODTIME) {
        u64_at(e, pos_mtime(e)) as i64
    } else {
        0
    })
    &&& parsed.file_id == (if has(common_bits(e), ATTR_CMN_FILEID) {
        u64_at(e, pos_file_id(e))
    } else {
        0
    })
    &&& parsed.nlink == (if has(file_bits(e), ATTR_FILE_LINKCOUNT) {
        u32_at(e, pos_nlink(e))
    } else {
        0
    })
    &&& parsed.file_size == (if has(file_bits(e), ATTR_FILE_DATALENGTH) {
        u64_at(e, pos_size(e))
    } else {
        0
    })
}

/// The text of the zero-terminated name that starts at `start` of `e`.
fn read_name(e: &[u8], start: usize) -> (name: Option<String>)
    requires
        start < e@.len(),
    ensures
        match name {
            Some(s) => first_nul(e@, start as int, e@.len() as int) < e@.len() && valid_utf8(
                e@.subrange(start as int, first_nul(e@, start as int, e@.len() as int)),
            ) && encode_utf8(s@) == e@.subrange(
                start as int,
                first_nul(e@, start as int, e@.len() as int),
            ),
            None => !(first_nul(e@, start as int, e@.len() as int) < e@.len() && valid_utf8(
                e@.subrange(start as int, first_nul(e@, start as int, e@.len() as int)),
            )),
        },
{
    let mut nul = start;
    while nul < e.len() && e[nul] != 0
        invariant
            start <= nul <= e@.len(),
            first_nul(e@, start as int, e@.len() as int) == first_nul(
                e@,
                nul as int,
                e@.len() as int,
            ),
        decreases e@.len() - nul,
    {
        nul += 1;
    }
    if nul == e.len() {
        return None;
    }
    let mut bytes: Vec<u8> = Vec::new();
    let mut i = start;
    while i < nul
        invariant
            start <= i <= nul,
            nul < e@.len(),
            bytes@ == e@.subrange(start as int, i as int),
        decreases nul - i,
    {
        bytes.push(e[i]);
        i += 1;
        proof {
            assert(bytes@ =~= e@.subrange(start as int, i as int));
        }
    }
    match core::str::from_utf8(bytes.as_slice()) {
        Ok(s) => Some(s.to_owned()),
        Err(_) => None,
    }
}

/// The position after an attribute of `w` bytes at `pos` (none when absent), if it fits.
fn skip_field(entry: &[u8], pos: usize, present: bool, w: usize) -> (next: Option<usize>)
    requires
        pos <= entry@.len(),
    ensures
        match next {
            Some(p) => p == pos + width(present, w as int) && p <= entry@.len(),
            None => pos + width(present, w as int) > entry@.len(),
        },
{
    if !present {
        Some(pos)
    } else if entry.len() - pos < w {
        None
    } else {
        Some(pos + w)
    }
}

/// Reads one `getattrlistbulk` entry: the length (4 bytes), the bitmap of returned attribute
/// groups (5 × 4 bytes), then each returned attribute in ascending bit order: the name
/// reference (offset and length, 8 bytes), device (4), object type (4), modification time
/// (16, seconds first), file id (8), link count (4) and data length (8). Numbers are
/// little-endian.
#[verifier::spinoff_prover]
#[verifier::rlimit(40)]
pub fn parse_entry(entry: &[u8]) -> (parsed: Option<ParsedEntry>)
    requires
        !name_offset_wraps(entry@),
    ensures
        parsed is Some <==> entry_parses(entry@),
        parsed matches Some(p) ==> entry_is(entry@, p),
{
    let ghost e = entry@;
    if entry.len() < 24 {
        return None;
    }
    let common = read_u32_le(entry, 4);
    let file = read_u32_le(entry, 16);
    let has_name = common & ATTR_CMN_NAME != 0;
    let has_dev = common & ATTR_CMN_DEVID != 0;
    let has_type = common & ATTR_CMN_OBJTYPE != 0;
    let has_mtime = common & ATTR_CMN_MODTIME != 0;
    let has_id = common & ATTR_CMN_FILEID != 0;
    let has_nlink = file & ATTR_FILE_LINKCOUNT != 0;
    let has_size = file & ATTR_FILE_DATALENGTH != 0;
    let p_dev = match skip_field(entry, 24, has_name, 8) {
        Some(p) => p,
        None => return None,
    };
    let p_type = match skip_field(entry, p_dev, has_dev, 4) {
        Some(p) => p,
        None => return None,
    };
    let p_mtime = match skip_field(entry, p_type, has_type, 4) {
        Some(p) => p,
        None => return None,
    };
    let p_id = match skip_field(entry, p_mtime, has_mtime, 16) {
        Some(p) => p,
        None => return None,
    };
    let p_nlink = match skip_field(entry, p_id, has_id, 8) {
        Some(p) => p,
        None => return None,
    };
    let p_size = match skip_field(entry, p_nlink, has_nlink, 4) {
        Some(p) => p,
        None => return None,
    };
    let p_end = match skip_field(entry, p_size, has_size, 8) {
        Some(p) => p,
        None => return None,
    };
    assert(p_end == pos_end(e));
    let name = if has_name {
        let offset = read_u32_le(entry, 24) as i32;
        if offset < 0 {
            return None;
        }
        let start = 24 + (offset as usize);
        if start >= entry.len() {
            return None;
        }
        match read_name(entry, start) {
            Some(n) => n,
            None => return None,
        }
    } else {
        String::new()
    };
    let dev_id: i32 = if has_dev {
        read_u32_le(entry, p_dev) as i32
    } else {
        0
    };
    let obj_type: u32 = if has_type {
        read_u32_le(entry, p_type)
    } else {
        0
    };
    let mtime: i64 = if has_mtime {
        read_u64_le(entry, p_mtime) as i64
    } else {
        0
    };
    let file_id: u64 = if has_id {
        read_u64_le(entry, p_id)
    } else {
        0
    };
    let nlink: u32 = if has_nlink {
        read_u32_le(entry, p_nlink)
    } else {
        0
    };
    let file_size: u64 = if has_size {
        read_u64_le(entry, p_size)
    } else {
        0
    };
    Some(ParsedEntry { name, dev_id, obj_type, file_id, file_size, nlink, mtime })
}

} // verus!
