//! Little-endian integers and UTF-8 text inside byte buffers.
use vstd::prelude::*;
use vstd::utf8::{decode_utf8, encode_utf8, valid_utf8};

verus! {

broadcast use vstd::utf8::encode_utf8_decode_utf8;

/// The two bytes of `v`, least significant first.
pub open spec fn le16(v: u16) -> Seq<u8> {
    seq![(v % 256) as u8, (v / 256) as u8]
}

/// The four bytes of `v`, least significant first.
pub open spec fn le32(v: u32) -> Seq<u8> {
    seq![
        (v % 0x100) as u8,
        ((v / 0x100) % 0x100) as u8,
        ((v / 0x1_0000) % 0x100) as u8,
        (v / 0x100_0000) as u8,
    ]
}

/// The eight bytes of `v`, least significant first.
pub open spec fn le64(v: u64) -> Seq<u8> {
    seq![
        (v % 0x100) as u8,
        ((v / 0x100) % 0x100) as u8,
        ((v / 0x1_0000) % 0x100) as u8,
        ((v / 0x100_0000) % 0x100) as u8,
        ((v / 0x1_0000_0000) % 0x100) as u8,
        ((v / 0x100_0000_0000) % 0x100) as u8,
        ((v / 0x1_0000_0000_0000) % 0x100) as u8,
        (v / 0x100_0000_0000_0000) as u8,
    ]
}

/// The number that the two bytes of `data` at `at` hold, least significant first.
pub open spec fn u16_at(data: Seq<u8>, at: int) -> u16 {
    (data[at] + 0x100 * data[at + 1]) as u16
}

/// The number that the four bytes of `data` at `at` hold, least significant first.
pub open spec fn u32_at(data: Seq<u8>, at: int) -> u32 {
    (data[at] + 0x100 * data[at + 1] + 0x1_0000 * data[at + 2] + 0x100_0000 * data[at
        + 3]) as u32
}

/// The number that the eight bytes of `data` at `at` hold, least significant first.
pub open spec fn u64_at(data: Seq<u8>, at: int) -> u64 {
    (data[at] + 0x100 * data[at + 1] + 0x1_0000 * data[at + 2] + 0x100_0000 * data[at + 3]
        + 0x1_0000_0000 * data[at + 4] + 0x100_0000_0000 * data[at + 5] + 0x1_0000_0000_0000
        * data[at + 6] + 0x100_0000_0000_0000 * data[at + 7]) as u64
}

/// The UTF-8 bytes of `s`.
pub open spec fn utf8_bytes(s: Seq<char>) -> Seq<u8> {
    encode_utf8(s)
}

/// The UTF-8 bytes of `s`, behind the number of them as two bytes (cut to 16 bits).
pub open spec fn short_text(s: Seq<char>) -> Seq<u8> {
    le16(utf8_bytes(s).len() as u16) + utf8_bytes(s)
}

/// Appends the bytes of `bytes`.
pub fn push_bytes(buf: &mut Vec<u8>, bytes: &[u8])
    ensures
        final(buf)@ == old(buf)@ + bytes@,
{
    let mut i: usize = 0;
    while i < bytes.len()
        invariant
            i <= bytes@.len(),
            buf@ == old(buf)@ + bytes@.take(i as int),
        decreases bytes@.len() - i,
    {
        buf.push(bytes[i]);
        i += 1;
        proof {
            assert(buf@ =~= old(buf)@ + bytes@.take(i as int));
        }
    }
    proof {
        assert(bytes@.take(i as int) =~= bytes@);
    }
}

/// Appends `v`, least significant byte first.
pub fn push_u16_le(buf: &mut Vec<u8>, v: u16)
    ensures
        final(buf)@ == old(buf)@ + le16(v),
{
    buf.push((v % 256) as u8);
    buf.push((v / 256) as u8);
    proof {
        assert(buf@ =~= old(buf)@ + le16(v));
    }
}

/// Appends `v`, least significant byte first.
pub fn push_u32_le(buf: &mut Vec<u8>, v: u32)
    ensures
        final(buf)@ == old(buf)@ + le32(v),
{
    buf.push((v % 0x100) as u8);
    buf.push(((v / 0x100) % 0x100) as u8);
    buf.push(((v / 0x1_0000) % 0x100) as u8);
    buf.push((v / 0x100_0000) as u8);
    proof {
        assert(buf@ =~= old(buf)@ + le32(v));
    }
}

/// Appends `v`, least significant byte first.
pub fn push_u64_le(buf: &mut Vec<u8>, v: u64)
    ensures
        final(buf)@ == old(buf)@ + le64(v),
{
    buf.push((v % 0x100) as u8);
    buf.push(((v / 0x100) % 0x100) as u8);
    buf.push(((v / 0x1_0000) % 0x100) as u8);
    buf.push(((v / 0x100_0000) % 0x100) as u8);
    buf.push(((v / 0x1_0000_0000) % 0x100) as u8);
    buf.push(((v / 0x100_0000_0000) % 0x100) as u8);
    buf.push(((v / 0x1_0000_0000_0000) % 0x100) as u8);
    buf.push((v / 0x100_0000_0000_0000) as u8);
    proof {
        assert(buf@ =~= old(buf)@ + le64(v));
    }
}

/// Appends the UTF-8 bytes of `s` behind their number as two bytes (cut to 16 bits).
pub fn push_short_text(buf: &mut Vec<u8>, s: &str)
    ensures
        final(buf)@ == old(buf)@ + short_text(s@),
{
    let bytes = s.as_bytes();
    push_u16_le(buf, bytes.len() as u16);
    push_bytes(buf, bytes);
    proof {
        assert(buf@ =~= old(buf)@ + short_text(s@));
    }
}

/// The number that the two bytes of `data` at `at` hold, least significant first.
pub fn read_u16_le(data: &[u8], at: usize) -> (v: u16)
    requires
        at + 2 <= data@.len(),
    ensures
        v == u16_at(data@, at as int),
{
    (data[at] as u16) + 0x100 * (data[at + 1] as u16)
}

/// The number that the four bytes of `data` at `at` hold, least significant first.
pub fn read_u32_le(data: &[u8], at: usize) -> (v: u32)
    requires
        at + 4 <= data@.len(),
    ensures
        v == u32_at(data@, at as int),
{
    (data[at] as u32) + 0x100 * (data[at + 1] as u32) + 0x1_0000 * (data[at + 2] as u32)
        + 0x100_0000 * (data[at + 3] as u32)
}

/// The number that the eight bytes of `data` at `at` hold, least significant first.
pub fn read_u64_le(data: &[u8], at: usize) -> (v: u64)
    requires
        at + 8 <= data@.len(),
    ensures
        v == u64_at(data@, at as int),
{
    (data[at] as u64) + 0x100 * (data[at + 1] as u64) + 0x1_0000 * (data[at + 2] as u64)
        + 0x100_0000 * (data[at + 3] as u64) + 0x1_0000_0000 * (data[at + 4] as u64)
        + 0x100_0000_0000 * (data[at + 5] as u64) + 0x1_0000_0000_0000 * (data[at + 6] as u64)
        + 0x100_0000_0000_0000 * (data[at + 7] as u64)
}

} // verus!
