//! The binary frames of the browser connection: what the server sends (the scanned path, a
//! layout) and what the browser asks for.
use vstd::prelude::*;
use vstd::utf8::{decode_utf8, encode_utf8, valid_utf8};

use crate::bytes::{
    le16, le32, le64, push_bytes, push_short_text, push_u16_le, push_u32_le, push_u64_le,
    read_u16_le, read_u32_le, read_u64_le, short_text, u16_at, u32_at, u64_at,
};
use crate::text::{ascii_lowercase, to_ascii_lowercase};
use crate::tree::BreadcrumbEntry;

verus! {

broadcast use vstd::utf8::encode_utf8_decode_utf8;

/// `Utf8Error` of std, the error of a failed UTF-8 check.
#[verifier::external_type_specification]
#[verifier::external_body]
pub struct ExUtf8Error(core::str::Utf8Error);

/// `core::str::from_utf8` of std accepts exactly the valid UTF-8 byte strings, and the text it
/// gives back has those bytes.
pub assume_specification[ core::str::from_utf8 ](v: &[u8]) -> (r: Result<
    &str,
    core::str::Utf8Error,
>)
    ensures
        match r {
            Ok(s) => valid_utf8(v@) && encode_utf8(s@) == v@,
            Err(_) => !valid_utf8(v@),
        },
;

/// Tag of the frame that announces the scanned path.
pub const MSG_SCAN_START: u8 = 1;

/// Tag of the frame that carries a layout.
pub const MSG_LAYOUT: u8 = 2;

pub const MSG_VIEWPORT: u8 = 1;

pub const MSG_NAVIGATE: u8 = 2;

pub const MSG_REVEAL_DIR: u8 = 3;

pub const MSG_REVEAL_FILE: u8 = 4;

pub const MSG_RESCAN: u8 = 5;

pub const MSG_SET_DEPTH: u8 = 6;

pub const MSG_COLOR_MODE: u8 = 7;

pub const MSG_FILTER_EXT: u8 = 8;

pub const MSG_FILTER_SIZE: u8 = 9;

pub const MSG_FILTER_NAME: u8 = 10;

pub const MSG_CLEAR_FILTER: u8 = 11;

/// A laid-out rectangle as the frame carries it: the geometry as the bit patterns of 32-bit
/// floats.
pub struct WireRect {
    pub id: i64,
    pub parent_id: u64,
    pub x: u32,
    pub y: u32,
    pub w: u32,
    pub h: u32,
    pub name: String,
    pub hue: u16,
    pub size: u64,
    pub depth: u8,
    pub is_container: bool,
    pub header_height: u32,
    pub is_files: bool,
    pub is_file: bool,
    pub mtime: i64,
}

/// The frame that announces the scanned path.
pub open spec fn scan_start_frame(path: Seq<char>) -> Seq<u8> {
    seq![MSG_SCAN_START] + short_text(path)
}

/// One breadcrumb step in a layout frame.
pub open spec fn crumb_bytes(entry: BreadcrumbEntry) -> Seq<u8> {
    le64(entry.id) + short_text(entry.name@)
}

/// The breadcrumb steps of `crumbs`, in order.
pub open spec fn crumbs_bytes(crumbs: Seq<BreadcrumbEntry>) -> Seq<u8>
    decreases crumbs.len(),
{
    if crumbs.len() == 0 {
        Seq::empty()
    } else {
        crumbs_bytes(crumbs.drop_last()) + crumb_bytes(crumbs.last())
    }
}

/// The flag byte of a rectangle: 1 for a container, 2 for a files block, 4 for a file.
pub open spec fn rect_flags(rect: WireRect) -> u8 {
    ((if rect.is_container {
        1int
    } else {
        0
    }) + (if rect.is_files {
        2int
    } else {
        0
    }) + (if rect.is_file {
        4int
    } else {
        0
    })) as u8
}

/// One rectangle in a layout frame.
pub open spec fn rect_bytes(rect: WireRect) -> Seq<u8> {
    le64(rect.id as u64) + le64(rect.parent_id) + le32(rect.x) + le32(rect.y) + le32(rect.w)
        + le32(rect.h) + le16(rect.hue) + le64(rect.size) + seq![rect.depth] + seq![
        rect_flags(rect),
    ] + le32(rect.header_height) + le64(rect.mtime as u64) + short_text(rect.name@)
}

/// The rectangles of `rects`, in order.
pub open spec fn rects_bytes(rects: Seq<WireRect>) -> Seq<u8>
    decreases rects.len(),
{
    if rects.len() == 0 {
        Seq::empty()
    } else {
        rects_bytes(rects.drop_last()) + rect_bytes(rects.last())
    }
}

/// The frame that carries a layout.
pub open spec fn layout_frame(
    root_size: u64,
    dir_count: u32,
    scan_done: bool,
    crumbs: Seq<BreadcrumbEntry>,
    rects: Seq<WireRect>,
) -> Seq<u8> {
    seq![MSG_LAYOUT] + le64(root_size) + le32(dir_count) + seq![
        if scan_done {
            1u8
        } else {
            0u8
        },
    ] + le16(crumbs.len() as u16) + crumbs_bytes(crumbs) + le32(rects.len() as u32)
        + rects_bytes(rects)
}

/// The frame that announces the scanned path: the tag, the byte length of the path (cut to
/// 16 bits) and its UTF-8 bytes.
pub fn encode_scan_start(path: &str) -> (frame: Vec<u8>)
    ensures
        frame@ == scan_start_frame(path@),
{
    let mut buf: Vec<u8> = Vec::new();
    buf.push(MSG_SCAN_START);
    push_short_text(&mut buf, path);
    proof {
        assert(buf@ =~= scan_start_frame(path@));
    }
    buf
}

/// Appends the numbers of a rectangle up to its size.
fn push_rect_head(buf: &mut Vec<u8>, rect: &WireRect)
    ensures
        final(buf)@ == old(buf)@ + le64(rect.id as u64) + le64(rect.parent_id) + le32(rect.x)
            + le32(rect.y) + le32(rect.w) + le32(rect.h) + le16(rect.hue) + le64(rect.size),
{
    push_u64_le(buf, rect.id as u64);
    push_u64_le(buf, rect.parent_id);
    push_u32_le(buf, rect.x);
    push_u32_le(buf, rect.y);
    push_u32_le(buf, rect.w);
    push_u32_le(buf, rect.h);
    push_u16_le(buf, rect.hue);
    push_u64_le(buf, rect.size);
    proof {
        assert(buf@ =~= old(buf)@ + le64(rect.id as u64) + le64(rect.parent_id) + le32(rect.x)
            + le32(rect.y) + le32(rect.w) + le32(rect.h) + le16(rect.hue) + le64(rect.size));
    }
}

/// Appends one rectangle.
fn push_rect(buf: &mut Vec<u8>, rect: &WireRect)
    ensures
        final(buf)@ == old(buf)@ + rect_bytes(*rect),
{
    push_rect_head(buf, rect);
    let ghost head = buf@;
    buf.push(rect.depth);
    let mut flags: u8 = 0;
    if rect.is_container {
        flags = flags + 1;
    }
    if rect.is_files {
        flags = flags + 2;
    }
    if rect.is_file {
        flags = flags + 4;
    }
    buf.push(flags);
    push_u32_le(buf, rect.header_height);
    push_u64_le(buf, rect.mtime as u64);
    push_short_text(buf, rect.name.as_str());
    proof {
        assert(buf@ =~= head + seq![rect.depth] + seq![rect_flags(*rect)] + le32(
            rect.header_height,
        ) + le64(rect.mtime as u64) + short_text(rect.name@));
        assert(buf@ =~= old(buf)@ + rect_bytes(*rect));
    }
}

/// The frame that carries a layout: its totals, then the breadcrumb and the rectangles, each
/// behind its count.
pub fn encode_layout(
    root_size: u64,
    dir_count: u32,
    scan_done: bool,
    breadcrumb: &[BreadcrumbEntry],
    rects: &[WireRect],
) -> (frame: Vec<u8>)
    ensures
        frame@ == layout_frame(root_size, dir_count, scan_done, breadcrumb@, rects@),
{
    let mut buf: Vec<u8> = Vec::new();
    buf.push(MSG_LAYOUT);
    push_u64_le(&mut buf, root_size);
    push_u32_le(&mut buf, dir_count);
    buf.push(if scan_done {
        1
    } else {
        0
    });
    push_u16_le(&mut buf, breadcrumb.len() as u16);
    let ghost head = buf@;
    let mut i: usize = 0;
    while i < breadcrumb.len()
        invariant
            i <= breadcrumb@.len(),
            buf@ == head + crumbs_bytes(breadcrumb@.take(i as int)),
        decreases breadcrumb@.len() - i,
    {
        let entry = &breadcrumb[i];
        push_u64_le(&mut buf, entry.id);
        push_short_text(&mut buf, entry.name.as_str());
        proof {
            assert(breadcrumb@.take(i + 1).drop_last() =~= breadcrumb@.take(i as int));
        }
        i += 1;
        proof {
            assert(buf@ =~= head + crumbs_bytes(breadcrumb@.take(i as int)));
        }
    }
    proof {
        assert(breadcrumb@.take(i as int) =~= breadcrumb@);
    }
    push_u32_le(&mut buf, rects.len() as u32);
    let ghost middle = buf@;
    let mut k: usize = 0;
    while k < rects.len()
        invariant
            k <= rects@.len(),
            buf@ == middle + rects_bytes(rects@.take(k as int)),
        decreases rects@.len() - k,
    {
        push_rect(&mut buf, &rects[k]);
        proof {
            assert(rects@.take(k + 1).drop_last() =~= rects@.take(k as int));
        }
        k += 1;
        proof {
            assert(buf@ =~= middle + rects_bytes(rects@.take(k as int)));
        }
    }
    proof {
        assert(rects@.take(k as int) =~= rects@);
        assert(buf@ =~= layout_frame(root_size, dir_count, scan_done, breadcrumb@, rects@));
    }
    buf
}

/// What the browser asks of the server. The viewport's size comes as the bit patterns of
/// 32-bit floats.
pub enum ClientMessage {
    Viewport { width_bits: u32, height_bits: u32 },
    Navigate { id: u64 },
    RevealDir { id: u64 },
    RevealFile { dir_id: u64, name: String },
    Rescan,
    SetDepth { depth: u8 },
    ColorMode { mode: u8 },
    FilterExt { extensions: Vec<String> },
    FilterSize { min: u64, max: u64 },
    FilterName { pattern: String },
    ClearFilter,
}

/// The extensions of a filter frame from `offset` on, at most `count` of them: each is a
/// length byte and that many bytes; one that is not valid UTF-8 is skipped, and the list stops
/// at the end of the data or at an extension that runs past it.
pub open spec fn extension_list(data: Seq<u8>, offset: int, count: nat) -> Seq<Seq<u8>>
    decreases count,
{
    if count == 0 || offset < 0 || offset >= data.len() {
        Seq::empty()
    } else {
        let len = data[offset] as int;
        let start = offset + 1;
        if start + len > data.len() {
            Seq::empty()
        } else {
            let bytes = data.subrange(start, start + len);
            let rest = extension_list(data, start + len, (count - 1) as nat);
            if valid_utf8(bytes) {
                seq![bytes] + rest
            } else {
                rest
            }
        }
    }
}

/// A depth held within 1 to 10.
pub open spec fn clamp_depth(depth: u8) -> u8 {
    if depth < 1 {
        1
    } else if depth > 10 {
        10
    } else {
        depth
    }
}

/// The text of a name frame (tag, two length bytes, the bytes).
pub open spec fn name_bytes(data: Seq<u8>) -> Seq<u8> {
    data.subrange(3, 3 + u16_at(data, 1) as int)
}

/// The file name of a reveal-file frame (tag, directory id, two length bytes, the bytes).
pub open spec fn file_name_bytes(data: Seq<u8>) -> Seq<u8> {
    data.subrange(11, 11 + u16_at(data, 9) as int)
}

/// `data` is a request that the server understands.
pub open spec fn decodable(data: Seq<u8>) -> bool {
    data.len() > 0 && {
        let tag = data[0];
        ||| tag == MSG_VIEWPORT && data.len() >= 9
        ||| tag == MSG_NAVIGATE && data.len() >= 9
        ||| tag == MSG_REVEAL_DIR && data.len() >= 9
        ||| tag == MSG_REVEAL_FILE && data.len() >= 11 && data.len() >= 11 + u16_at(data, 9)
            && valid_utf8(file_name_bytes(data))
        ||| tag == MSG_RESCAN
        ||| tag == MSG_SET_DEPTH && data.len() >= 2
        ||| tag == MSG_COLOR_MODE && data.len() >= 2
        ||| tag == MSG_FILTER_EXT && data.len() >= 2
        ||| tag == MSG_FILTER_SIZE && data.len() >= 17
        ||| tag == MSG_FILTER_NAME && data.len() >= 3 && data.len() >= 3 + u16_at(data, 1)
            && valid_utf8(name_bytes(data))
        ||| tag == MSG_CLEAR_FILTER
    }
}

/// `message` is what the decodable request `data` asks for.
pub open spec fn decodes_to(data: Seq<u8>, message: ClientMessage) -> bool {
    match message {
        ClientMessage::Viewport { width_bits, height_bits } => data[0] == MSG_VIEWPORT
            && width_bits == u32_at(data, 1) && height_bits == u32_at(data, 5),
        ClientMessage::Navigate { id } => data[0] == MSG_NAVIGATE && id == u64_at(data, 1),
        ClientMessage::RevealDir { id } => data[0] == MSG_REVEAL_DIR && id == u64_at(data, 1),
        ClientMessage::RevealFile { dir_id, name } => data[0] == MSG_REVEAL_FILE && dir_id
            == u64_at(data, 1) && encode_utf8(name@) == file_name_bytes(data),
        ClientMessage::Rescan => data[0] == MSG_RESCAN,
        ClientMessage::SetDepth { depth } => data[0] == MSG_SET_DEPTH && depth == clamp_depth(
            data[1],
        ),
        ClientMessage::ColorMode { mode } => data[0] == MSG_COLOR_MODE && mode == data[1],
        ClientMessage::FilterExt { extensions } => {
            let list = extension_list(data, 2, data[1] as nat);
            &&& data[0] == MSG_FILTER_EXT
            &&& extensions@.len() == list.len()
            &&& forall|i: int|
                0 <= i < list.len() ==> encode_utf8(#[trigger] extensions@[i]@) == list[i]
        },
        ClientMessage::FilterSize { min, max } => data[0] == MSG_FILTER_SIZE && min == u64_at(
            data,
            1,
        ) && max == u64_at(data, 9),
        ClientMessage::FilterName { pattern } => data[0] == MSG_FILTER_NAME && pattern@
            == ascii_lowercase(decode_utf8(name_bytes(data))),
        ClientMessage::ClearFilter => data[0] == MSG_CLEAR_FILTER,
    }
}

/// The valid UTF-8 text of `bytes`, if they are valid.
fn text_of(bytes: &[u8]) -> (text: Option<String>)
    ensures
        match text {
            Some(s) => valid_utf8(bytes@) && encode_utf8(s@) == bytes@,
            None => !valid_utf8(bytes@),
        },
{
    match core::str::from_utf8(bytes) {
        Ok(s) => Some(s.to_owned()),
        Err(_) => None,
    }
}

/// The bytes of `data` from `start` to `end`.
fn byte_range(data: &[u8], start: usize, end: usize) -> (part: Vec<u8>)
    requires
        start <= end <= data@.len(),
    ensures
        part@ == data@.subrange(start as int, end as int),
{
    let mut part: Vec<u8> = Vec::new();
    let mut i = start;
    while i < end
        invariant
            start <= i <= end,
            end <= data@.len(),
            part@ == data@.subrange(start as int, i as int),
        decreases end - i,
    {
        part.push(data[i]);
        i += 1;
        proof {
            assert(part@ =~= data@.subrange(start as int, i as int));
        }
    }
    part
}

/// The extensions of a filter frame (see `extension_list`).
fn decode_extensions(data: &[u8]) -> (extensions: Vec<String>)
    requires
        data@.len() >= 2,
    ensures
        extensions@.len() == extension_list(data@, 2, data@[1] as nat).len(),
        forall|i: int|
            0 <= i < extensions@.len() ==> encode_utf8(#[trigger] extensions@[i]@)
                == extension_list(data@, 2, data@[1] as nat)[i],
{
    let count = data[1] as usize;
    let mut offset: usize = 2;
    let mut extensions: Vec<String> = Vec::new();
    let mut taken: usize = 0;
    while taken < count
        invariant
            taken <= count,
            count == data@[1],
            2 <= offset <= data@.len(),
            extension_list(data@, 2, count as nat) == extensions@.map_values(
                |s: String| encode_utf8(s@),
            ) + extension_list(data@, offset as int, (count - taken) as nat),
        ensures
            extension_list(data@, offset as int, (count - taken) as nat).len() == 0,
        decreases count - taken,
    {
        if offset >= data.len() {
            break;
        }
        let len = data[offset] as usize;
        let start = offset + 1;
        if len > data.len() - start {
            break;
        }
        let ghost before = extensions@;
        let part = byte_range(data, start, start + len);
        match text_of(part.as_slice()) {
            Some(s) => {
                extensions.push(s);
                proof {
                    assert(extensions@.map_values(|s: String| encode_utf8(s@)) =~= before.map_values(
                        |s: String| encode_utf8(s@),
                    ) + seq![part@]);
                }
            },
            None => {},
        }
        offset = start + len;
        taken += 1;
    }
    proof {
        let list = extension_list(data@, 2, count as nat);
        assert forall|i: int| 0 <= i < extensions@.len() implies encode_utf8(
            #[trigger] extensions@[i]@,
        ) == list[i] by {
            assert(list[i] == extensions@.map_values(|s: String| encode_utf8(s@))[i]);
        }
    }
    extensions
}

impl ClientMessage {
    /// The request that `data` holds, if it is one the server understands.
    pub fn decode(data: &[u8]) -> (message: Option<ClientMessage>)
        ensures
            message is Some <==> decodable(data@),
            message matches Some(m) ==> decodes_to(data@, m),
    {
        if data.len() == 0 {
            return None;
        }
        let tag = data[0];
        if tag == MSG_VIEWPORT && data.len() >= 9 {
            Some(
                ClientMessage::Viewport {
                    width_bits: read_u32_le(data, 1),
                    height_bits: read_u32_le(data, 5),
                },
            )
        } else if tag == MSG_NAVIGATE && data.len() >= 9 {
            Some(ClientMessage::Navigate { id: read_u64_le(data, 1) })
        } else if tag == MSG_REVEAL_DIR && data.len() >= 9 {
            Some(ClientMessage::RevealDir { id: read_u64_le(data, 1) })
        } else if tag == MSG_REVEAL_FILE && data.len() >= 11 {
            let dir_id = read_u64_le(data, 1);
            let name_len = read_u16_le(data, 9) as usize;
            if data.len() < 11 + name_len {
                return None;
            }
            let part = byte_range(data, 11, 11 + name_len);
            match text_of(part.as_slice()) {
                Some(name) => Some(ClientMessage::RevealFile { dir_id, name }),
                None => None,
            }
        } else if tag == MSG_RESCAN {
            Some(ClientMessage::Rescan)
        } else if tag == MSG_SET_DEPTH && data.len() >= 2 {
            let raw = data[1];
            let depth = if raw < 1 {
                1
            } else if raw > 10 {
                10
            } else {
                raw
            };
            Some(ClientMessage::SetDepth { depth })
        } else if tag == MSG_COLOR_MODE && data.len() >= 2 {
            Some(ClientMessage::ColorMode { mode: data[1] })
        } else if tag == MSG_FILTER_EXT && data.len() >= 2 {
            Some(ClientMessage::FilterExt { extensions: decode_extensions(data) })
        } else if tag == MSG_FILTER_SIZE && data.len() >= 17 {
            Some(ClientMessage::FilterSize { min: read_u64_le(data, 1), max: read_u64_le(data, 9) })
        } else if tag == MSG_FILTER_NAME && data.len() >= 3 {
            let len = read_u16_le(data, 1) as usize;
            if data.len() < 3 + len {
                return None;
            }
            let part = byte_range(data, 3, 3 + len);
            match text_of(part.as_slice()) {
                Some(text) => {
                    let pattern = to_ascii_lowercase(text.as_str());
                    Some(ClientMessage::FilterName { pattern })
                },
                None => None,
            }
        } else if tag == MSG_CLEAR_FILTER {
            Some(ClientMessage::ClearFilter)
        } else {
            None
        }
    }
}

/// The flag byte that a rectangle is sent with: bit 0 (1) when it holds nested rectangles,
/// bit 1 (2) when it is the box of a directory's other files, bit 2 (4) when it is one file.
/// It follows the id, parent id, four geometry fields, hue, size and depth, at byte 43.
pub proof fn law_rect_flag_byte(rect: WireRect)
    ensures
        rect_bytes(rect)[43] == (if rect.is_container {
            1int
        } else {
            0int
        }) + (if rect.is_files {
            2int
        } else {
            0int
        }) + (if rect.is_file {
            4int
        } else {
            0int
        }),
        (rect_bytes(rect)[43] / 2) % 2 == 1 <==> rect.is_files,
        (rect_bytes(rect)[43] / 4) % 2 == 1 <==> rect.is_file,
        rect_bytes(rect)[43] % 2 == 1 <==> rect.is_container,
{
}

/// The bytes of a prefix of the rectangles begin the bytes of them all.
proof fn lemma_rects_bytes_prefix(rects: Seq<WireRect>, j: int)
    requires
        0 <= j <= rects.len(),
    ensures
        rects_bytes(rects.take(j)) == rects_bytes(rects).take(rects_bytes(rects.take(j)).len() as int),
        rects_bytes(rects.take(j)).len() <= rects_bytes(rects).len(),
    decreases rects.len() - j,
{
    if j == rects.len() {
        assert(rects.take(j) =~= rects);
    } else {
        lemma_rects_bytes_prefix(rects.drop_last(), j);
        assert(rects.drop_last().take(j) =~= rects.take(j));
        let a = rects_bytes(rects.take(j));
        let b = rects_bytes(rects.drop_last());
        assert(rects_bytes(rects) == b + rect_bytes(rects.last()));
        assert(a =~= (b + rect_bytes(rects.last())).take(a.len() as int));
    }
}

/// The fixed part of a layout frame: tag, root size, directory count, done flag, breadcrumb
/// count, breadcrumb steps and rectangle count.
proof fn lemma_layout_head_len(
    root_size: u64,
    dir_count: u32,
    scan_done: bool,
    crumbs: Seq<BreadcrumbEntry>,
    n: u32,
)
    ensures
        (seq![MSG_LAYOUT] + le64(root_size) + le32(dir_count) + seq![
            if scan_done {
                1u8
            } else {
                0u8
            },
        ] + le16(crumbs.len() as u16) + crumbs_bytes(crumbs) + le32(n)).len() == 20
            + crumbs_bytes(crumbs).len(),
{
}

/// A layout frame is its 16 header bytes, the breadcrumb steps, the rectangle count (4 bytes)
/// and then the rectangles.
proof fn lemma_layout_frame_split(
    root_size: u64,
    dir_count: u32,
    scan_done: bool,
    crumbs: Seq<BreadcrumbEntry>,
    rects: Seq<WireRect>,
    r: Seq<u8>,
    i: int,
)
    requires
        r == rects_bytes(rects),
        0 <= i < r.len(),
    ensures
        layout_frame(root_size, dir_count, scan_done, crumbs, rects)[20 + crumbs_bytes(crumbs).len()
            + i] == r[i],
{
    lemma_layout_head_len(root_size, dir_count, scan_done, crumbs, rects.len() as u32);
}

/// Byte `p + j` of the rectangles' bytes, where `p` is the length of those before rectangle
/// `k`, is byte `j` of rectangle `k`.
proof fn lemma_rects_bytes_at(rects: Seq<WireRect>, k: int, j: int)
    requires
        0 <= k < rects.len(),
        0 <= j < rect_bytes(rects[k]).len(),
    ensures
        rects_bytes(rects.take(k)).len() + j < rects_bytes(rects).len(),
        rects_bytes(rects)[rects_bytes(rects.take(k)).len() + j] == rect_bytes(rects[k])[j],
{
    lemma_rects_bytes_prefix(rects, k + 1);
    let t = rects.take(k + 1);
    assert(t.drop_last() =~= rects.take(k));
    assert(t.last() == rects[k]);
    let before = rects_bytes(rects.take(k));
    let own = rect_bytes(rects[k]);
    assert(rects_bytes(t) == before + own);
    let p: int = before.len() as int;
    assert(rects_bytes(rects)[p + j] == rects_bytes(t)[p + j]);
    assert((before + own)[p + j] == own[j]);
}

/// In a layout frame, rectangle `k` is sent right after the header (20 bytes with the
/// rectangle count), the breadcrumb steps and the rectangles before it, with its flag byte
/// saying whether it holds nested rectangles (1), is the box of other files (2) or is one
/// file (4).
pub proof fn law_layout_frame_flags_each_rect(
    root_size: u64,
    dir_count: u32,
    scan_done: bool,
    crumbs: Seq<BreadcrumbEntry>,
    rects: Seq<WireRect>,
    k: int,
)
    requires
        0 <= k < rects.len(),
    ensures
        layout_frame(root_size, dir_count, scan_done, crumbs, rects)[20int + crumbs_bytes(crumbs).len()
            + rects_bytes(rects.take(k)).len() + 43] == (if rects[k].is_container {
            1int
        } else {
            0int
        }) + (if rects[k].is_files {
            2int
        } else {
            0int
        }) + (if rects[k].is_file {
            4int
        } else {
            0int
        }),
{
    law_rect_flag_byte(rects[k]);
    lemma_rects_bytes_at(rects, k, 43);
    let at: int = rects_bytes(rects.take(k)).len() + 43int;
    lemma_layout_frame_split(root_size, dir_count, scan_done, crumbs, rects, rects_bytes(rects), at);
}

} // verus!
