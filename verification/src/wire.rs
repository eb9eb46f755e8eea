//! The framing of the serialized messages between the server and the browser: a flag byte
//! that says whether the payload is deflated, and the canonical form of a browser request.
use vstd::prelude::*;

use crate::bytes::push_bytes;
use crate::text::{ascii_lowercase, to_ascii_lowercase};

verus! {

/// The deflate level that the framing compresses with.
pub const COMPRESSION_LEVEL: u8 = 1;

/// The most bytes a deflated payload may inflate to.
pub const MAX_DECOMPRESSED: usize = 256 * 1024 * 1024;

/// What `miniz_oxide::deflate::compress_to_vec` makes of `input` at `level`.
pub uninterp spec fn deflated(input: Seq<u8>, level: u8) -> Seq<u8>;

/// What `miniz_oxide::inflate::decompress_to_vec_with_limit` makes of `input` with the output
/// limit `limit`: the inflated bytes, or `None` for an error.
pub uninterp spec fn inflated(input: Seq<u8>, limit: usize) -> Option<Seq<u8>>;

/// `miniz_oxide::deflate::compress_to_vec`: raw deflate of `input` at `level`. Inflating the
/// result with a limit the input's length fits in gives the input back (the inflate side
/// grows its output to at most the limit and fails only when the data does not fit).
#[verifier::external_body]
fn deflate(input: &[u8], level: u8) -> (out: Vec<u8>)
    ensures
        out@ == deflated(input@, level),
        forall|limit: usize| input@.len() <= limit ==> #[trigger] inflated(out@, limit) == Some(input@),
{
    miniz_oxide::deflate::compress_to_vec(input, level)
}

/// `miniz_oxide::inflate::decompress_to_vec_with_limit`: inflates raw deflate data, failing
/// on bad data or when the output would pass `limit` bytes.
#[verifier::external_body]
fn inflate(input: &[u8], limit: usize) -> (out: Option<Vec<u8>>)
    ensures
        match out {
            Some(v) => inflated(input@, limit) == Some(v@) && v@.len() <= limit,
            None => inflated(input@, limit) is None,
        },
{
    match miniz_oxide::inflate::decompress_to_vec_with_limit(input, limit) {
        Ok(v) => Some(v),
        Err(_) => None,
    }
}

/// The framed payload: flag 1 and the deflated bytes when they are shorter, flag 0 and the
/// bytes themselves otherwise.
pub open spec fn packed(bytes: Seq<u8>) -> Seq<u8> {
    framed(bytes, deflated(bytes, COMPRESSION_LEVEL))
}

/// The payload of a frame: none for an empty frame or an unknown flag, the rest for flag 0,
/// the inflated rest (within `MAX_DECOMPRESSED`) for flag 1.
pub open spec fn unpacked(data: Seq<u8>) -> Option<Seq<u8>> {
    if data.len() == 0 {
        None
    } else if data[0] == 0 {
        Some(data.drop_first())
    } else if data[0] == 1 {
        inflated(data.drop_first(), MAX_DECOMPRESSED)
    } else {
        None
    }
}

/// The frame of `bytes` given their deflated form `compressed`: flag 1 and `compressed` when
/// it is shorter, flag 0 and `bytes` otherwise.
pub open spec fn framed(bytes: Seq<u8>, compressed: Seq<u8>) -> Seq<u8> {
    if compressed.len() < bytes.len() {
        seq![1u8] + compressed
    } else {
        seq![0u8] + bytes
    }
}

/// Frames `bytes` given their deflated form, keeping the shorter of the two.
pub fn frame_payload(bytes: Vec<u8>, compressed: Vec<u8>) -> (frame: Vec<u8>)
    ensures
        frame@ == framed(bytes@, compressed@),
{
    let mut out: Vec<u8> = Vec::new();
    if compressed.len() < bytes.len() {
        out.push(1);
        push_bytes(&mut out, compressed.as_slice());
    } else {
        out.push(0);
        push_bytes(&mut out, bytes.as_slice());
    }
    proof {
        assert(out@ =~= framed(bytes@, compressed@));
    }
    out
}

/// Frames a payload, compressing it only when that makes it shorter. Unframing the result
/// gives the payload back when it is within the inflate limit.
pub fn pack(bytes: Vec<u8>) -> (frame: Vec<u8>)
    ensures
        frame@ == packed(bytes@),
        bytes@.len() <= MAX_DECOMPRESSED ==> unpacked(frame@) == Some(bytes@),
{
    let compressed = deflate(bytes.as_slice(), COMPRESSION_LEVEL);
    let ghost payload = bytes@;
    let ghost deflated_bytes = compressed@;
    let out = frame_payload(bytes, compressed);
    proof {
        if deflated_bytes.len() < payload.len() {
            assert(out@.drop_first() =~= deflated_bytes);
            if payload.len() <= MAX_DECOMPRESSED {
                assert(inflated(deflated_bytes, MAX_DECOMPRESSED) == Some(payload));
            }
        } else {
            assert(out@.drop_first() =~= payload);
        }
    }
    out
}

/// The payload of a frame, if it has a known flag and (when deflated) inflates within the
/// limit.
pub fn unpack(data: &[u8]) -> (payload: Option<Vec<u8>>)
    ensures
        match payload {
            Some(p) => unpacked(data@) == Some(p@),
            None => unpacked(data@) is None,
        },
{
    if data.len() == 0 {
        return None;
    }
    let flag = data[0];
    let mut rest: Vec<u8> = Vec::new();
    push_bytes(&mut rest, data.split_at(1).1);
    proof {
        assert(rest@ =~= data@.drop_first());
    }
    if flag == 0 {
        Some(rest)
    } else if flag == 1 {
        inflate(rest.as_slice(), MAX_DECOMPRESSED)
    } else {
        None
    }
}

/// What the browser asks of the server. The viewport's size comes as the bit patterns of
/// 32-bit floats.
pub enum ClientMessage {
    Viewport { width_bits: u32, height_bits: u32 },
    Navigate { id: u64 },
    RevealDir { id: u64 },
    RevealFile { dir_id: u64, name: String },
    Rescan,
    SetDepth { depth: u8 },
    ColorMode { mode: u8 },
    FilterExt { extensions: Vec<String> },
    FilterSize { min: u64, max: u64 },
    FilterName { pattern: String },
    ClearFilter,
    ScanPath { path: String },
}

/// `a` is `b` in canonical form: the depth held within 1 to 10, an unknown color mode (above
/// 1) read as 0, the name filter in lower case; everything else as it was.
pub open spec fn normalized_from(a: ClientMessage, b: ClientMessage) -> bool {
    match b {
        ClientMessage::SetDepth { depth } => a == ClientMessage::SetDepth {
            depth: if depth < 1 {
                1
            } else if depth > 10 {
                10
            } else {
                depth
            },
        },
        ClientMessage::ColorMode { mode } => a == ClientMessage::ColorMode {
            mode: if mode > 1 {
                0
            } else {
                mode
            },
        },
        ClientMessage::FilterName { pattern } => a matches ClientMessage::FilterName {
            pattern: p,
        } && p@ == ascii_lowercase(pattern@),
        _ => a == b,
    }
}

impl ClientMessage {
    /// Brings a request to canonical form, whatever the client sent: the depth within 1 to
    /// 10, an unknown color mode to 0, the name filter to lower case.
    pub fn normalize(&mut self)
        ensures
            normalized_from(*final(self), *old(self)),
    {
        match self {
            ClientMessage::SetDepth { depth } => {
                let d = *depth;
                *depth = if d < 1 {
                    1
                } else if d > 10 {
                    10
                } else {
                    d
                };
            },
            ClientMessage::ColorMode { mode } => {
                if *mode > 1 {
                    *mode = 0;
                }
            },
            ClientMessage::FilterName { pattern } => {
                let lower = to_ascii_lowercase(pattern.as_str());
                *pattern = lower;
            },
            _ => {},
        }
    }
}


/// `a` and `b` ask for the same thing (texts compared by their characters).
pub open spec fn same_request(a: ClientMessage, b: ClientMessage) -> bool {
    match (a, b) {
        (ClientMessage::FilterName { pattern: p }, ClientMessage::FilterName { pattern: q }) => p@
            == q@,
        (ClientMessage::RevealFile { dir_id: d, name: n }, ClientMessage::RevealFile {
            dir_id: e,
            name: m,
        }) => d == e && n@ == m@,
        (ClientMessage::ScanPath { path: p }, ClientMessage::ScanPath { path: q }) => p@ == q@,
        _ => a == b,
    }
}

/// Bringing a request to canonical form twice gives what once gives.
pub proof fn law_normalize_is_idempotent(b: ClientMessage, a: ClientMessage, c: ClientMessage)
    requires
        normalized_from(a, b),
        normalized_from(c, a),
    ensures
        same_request(c, a),
{
    match b {
        ClientMessage::FilterName { pattern } => {
            let p = a->FilterName_pattern;
            let q = c->FilterName_pattern;
            assert(q@ =~= p@);
        },
        _ => {},
    }
}

} // verus!
