//! The small conversions that the platform scanners make: device numbers, volume usage,
//! Windows file times, wide strings and extended-length paths.
use vstd::prelude::*;

use crate::text::{chars_of, encode_utf16, utf16_of};

verus! {

/// Seconds between 1601-01-01 (where Windows file times start) and 1970-01-01.
pub const EPOCH_DIFF: i64 = 11_644_473_600;

/// `core::char::from_u32` of std gives the character of `i` exactly when `i` is a Unicode
/// scalar value (not a surrogate, at most 0x10FFFF).
pub assume_specification[ core::char::from_u32 ](i: u32) -> (c: Option<char>)
    ensures
        c is Some <==> (i < 0xD800 || (0xE000 <= i && i <= 0x10FFFF)),
        c matches Some(ch) ==> ch as u32 == i,
;

/// One device number from the major and minor numbers: the major one in the high 32 bits.
pub fn makedev(major: u32, minor: u32) -> (dev: u64)
    ensures
        dev == major as int * 0x1_0000_0000 + minor as int,
{
    (major as u64) * 0x1_0000_0000 + (minor as u64)
}

/// The size and the used bytes of a volume from its block counts: all blocks times the block
/// size, less the available ones (none less than nothing).
pub fn volume_usage(blocks: u64, available: u64, block_size: u64) -> (usage: (u64, u64))
    requires
        blocks * block_size <= u64::MAX,
        available * block_size <= u64::MAX,
    ensures
        usage.0 == blocks * block_size,
        usage.1 == (if available <= blocks {
            (blocks - available) * block_size
        } else {
            0
        }),
{
    let total = blocks * block_size;
    let free = available * block_size;
    proof {
        if available <= blocks {
            assert((blocks - available) * block_size == blocks * block_size - available * block_size)
                by (nonlinear_arith);
        } else {
            assert(available * block_size >= blocks * block_size) by (nonlinear_arith)
                requires
                    available > blocks,
            ;
        }
    }
    let used = total.saturating_sub(free);
    (total, used)
}

/// `a / b` rounded toward zero, as integer division in Rust does.
pub open spec fn div_toward_zero(a: int, b: int) -> int {
    if a >= 0 {
        a / b
    } else {
        -((-a) / b)
    }
}

/// A Windows file time (100 ns ticks since 1601) as whole Unix seconds.
pub fn filetime_to_unix(ft: i64) -> (secs: i64)
    ensures
        secs == div_toward_zero(ft as int, 10_000_000) - EPOCH_DIFF,
{
    let whole: i64 = if ft >= 0 {
        ft / 10_000_000
    } else {
        let magnitude: u64 = (0u64 + (-(ft + 1)) as u64) + 1;
        -((magnitude / 10_000_000) as i64)
    };
    whole - EPOCH_DIFF
}

/// The UTF-16 units of `s` with a terminating zero, as Windows calls take them.
pub fn wide_str(s: &str) -> (wide: Vec<u16>)
    ensures
        wide@ == encode_utf16(s@).push(0),
{
    let mut wide = utf16_of(s);
    wide.push(0);
    wide
}

/// The marker of a Windows extended-length path.
pub open spec fn extended_prefix() -> Seq<char> {
    seq!['\\', '\\', '?', '\\']
}

/// `path` without a leading `\\?\`, or `path` itself when it has none.
pub open spec fn without_extended_prefix(path: Seq<char>) -> Seq<char> {
    if path.len() >= 4 && path.take(4) == extended_prefix() {
        path.skip(4)
    } else {
        path
    }
}

/// `path` without a leading `\\?\`.
pub fn strip_extended_prefix(path: &str) -> (stripped: &str)
    ensures
        stripped@ == without_extended_prefix(path@),
{
    let chars = chars_of(path);
    if chars.len() >= 4 && chars[0] == '\\' && chars[1] == '\\' && chars[2] == '?' && chars[3]
        == '\\' {
        proof {
            assert(path@.take(4) =~= extended_prefix());
        }
        path.substring_char(4, chars.len())
    } else {
        proof {
            if path@.len() >= 4 && path@.take(4) == extended_prefix() {
                assert(path@[0] == path@.take(4)[0]);
                assert(path@[1] == path@.take(4)[1]);
                assert(path@[2] == path@.take(4)[2]);
                assert(path@[3] == path@.take(4)[3]);
            }
        }
        path.substring_char(0, chars.len())
    }
}

/// The replacement character, which stands for an unpaired surrogate.
pub open spec fn replacement_char() -> char {
    '\u{FFFD}'
}

/// `u` is a UTF-16 surrogate.
pub open spec fn is_surrogate(u: u16) -> bool {
    0xD800 <= u <= 0xDFFF
}

/// The characters of UTF-16 `units`, each unpaired surrogate read as the replacement character.
pub open spec fn decode_utf16_lossy(units: Seq<u16>) -> Seq<char>
    decreases units.len(),
{
    if units.len() == 0 {
        Seq::empty()
    } else {
        let a = units[0];
        if !is_surrogate(a) {
            seq![(a as u32) as char] + decode_utf16_lossy(units.drop_first())
        } else if a <= 0xDBFF && units.len() >= 2 && 0xDC00 <= units[1] <= 0xDFFF {
            seq![
                (0x10000 + (a - 0xD800) * 0x400 + (units[1] - 0xDC00)) as u32 as char,
            ] + decode_utf16_lossy(units.skip(2))
        } else {
            seq![replacement_char()] + decode_utf16_lossy(units.drop_first())
        }
    }
}

/// The units of `buf` before its first zero (all of them when it has none).
pub open spec fn before_nul(buf: Seq<u16>) -> Seq<u16> {
    let z = first_zero(buf, 0);
    buf.take(z)
}

/// The index of the first zero at or after `from`, or the length.
pub open spec fn first_zero(buf: Seq<u16>, from: int) -> int
    decreases buf.len() - from,
{
    if from < 0 || from >= buf.len() {
        buf.len() as int
    } else if buf[from] == 0 {
        from
    } else {
        first_zero(buf, from + 1)
    }
}

/// The text of a zero-terminated UTF-16 buffer, unpaired surrogates replaced.
pub fn utf16_to_string(buf: &[u16]) -> (text: String)
    ensures
        text@ == decode_utf16_lossy(before_nul(buf@)),
{
    let mut len: usize = 0;
    while len < buf.len() && buf[len] != 0
        invariant
            len <= buf@.len(),
            first_zero(buf@, 0) == first_zero(buf@, len as int),
        decreases buf@.len() - len,
    {
        len += 1;
    }
    decode_utf16_prefix(buf, len)
}

/// The text of the first `len` units of `buf`, unpaired surrogates replaced.
pub fn decode_utf16_prefix(buf: &[u16], len: usize) -> (text: String)
    requires
        len <= buf@.len(),
    ensures
        text@ == decode_utf16_lossy(buf@.take(len as int)),
{
    let ghost units = buf@.take(len as int);
    let mut text = String::new();
    let mut i: usize = 0;
    assert(units.skip(0) =~= units);
    while i < len
        invariant
            i <= len <= buf@.len(),
            units == buf@.take(len as int),
            text@ + decode_utf16_lossy(units.skip(i as int)) == decode_utf16_lossy(units),
        decreases len - i,
    {
        let a = buf[i];
        let ghost rest = units.skip(i as int);
        assert(rest[0] == a);
        if a < 0xD800 || a > 0xDFFF {
            let c = match core::char::from_u32(a as u32) {
                Some(c) => c,
                None => '\u{FFFD}',
            };
            proof {
                vstd::utf8::char_u32_cast(c, a as u32);
                assert(decode_utf16_lossy(rest) == seq![c] + decode_utf16_lossy(rest.drop_first()));
            }
            text.push(c);
            i += 1;
            proof {
                assert(rest.drop_first() =~= units.skip(i as int));
            }
        } else if a <= 0xDBFF && i + 1 < len && 0xDC00 <= buf[i + 1] && buf[i + 1] <= 0xDFFF {
            let b = buf[i + 1];
            assert(rest[1] == b);
            let v: u32 = 0x10000 + ((a - 0xD800) as u32) * 0x400 + ((b - 0xDC00) as u32);
            let c = match core::char::from_u32(v) {
                Some(c) => c,
                None => '\u{FFFD}',
            };
            proof {
                vstd::utf8::char_u32_cast(c, v);
                assert(decode_utf16_lossy(rest) == seq![c] + decode_utf16_lossy(rest.skip(2)));
            }
            text.push(c);
            i += 2;
            proof {
                assert(rest.skip(2) =~= units.skip(i as int));
            }
        } else {
            proof {
                assert(decode_utf16_lossy(rest) == seq![replacement_char()] + decode_utf16_lossy(
                    rest.drop_first(),
                ));
            }
            text.push('\u{FFFD}');
            i += 1;
            proof {
                assert(rest.drop_first() =~= units.skip(i as int));
            }
        }
        proof {
            assert(text@ + decode_utf16_lossy(units.skip(i as int)) =~= decode_utf16_lossy(units));
        }
    }
    proof {
        assert(units.skip(i as int) =~= Seq::<u16>::empty());
        assert(text@ =~= decode_utf16_lossy(units));
    }
    text
}

} // verus!
