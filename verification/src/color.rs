use vstd::prelude::*;

use crate::text::{decimal_of, push_decimal};

verus! {

/// The CSS colour `hsl(hue,saturation%,lightness%)`.
pub open spec fn hsl_of(hue: u16, saturation: u8, lightness: u8) -> Seq<char> {
    "hsl("@ + decimal_of(hue as nat) + ","@ + decimal_of(saturation as nat) + "%,"@ + decimal_of(
        lightness as nat,
    ) + "%)"@
}

/// The CSS colour with the given hue, saturation and lightness.
pub fn hsl_text(hue: u16, saturation: u8, lightness: u8) -> (text: String)
    ensures
        text@ == hsl_of(hue, saturation, lightness),
{
    let mut text = String::new();
    text.push_str("hsl(");
    push_decimal(&mut text, hue as u64);
    text.push_str(",");
    push_decimal(&mut text, saturation as u64);
    text.push_str("%,");
    push_decimal(&mut text, lightness as u64);
    text.push_str("%)");
    proof {
        assert(text@ =~= hsl_of(hue, saturation, lightness));
    }
    text
}

/// The hue (0..360) that a numeric id is coloured with.
pub open spec fn spec_hash_id_to_hue(id: u64) -> int {
    ((id as int * 2654435761) % 0x1_0000_0000_0000_0000) / 0x10000 % 360
}

/// Spreads ids over the colour wheel with a multiplicative hash.
pub fn hash_id_to_hue(id: u64) -> (hue: u16)
    ensures
        hue == spec_hash_id_to_hue(id),
        hue < 360,
{
    let product = id.wrapping_mul(2654435761);
    ((product / 0x10000) % 360) as u16
}

} // verus!

verus! {

use crate::text::{encode_utf16, utf16_of};

/// The 32-bit polynomial (base 31) string hash of a UTF-16 code unit sequence.
pub open spec fn poly_hash(units: Seq<u16>) -> u32
    decreases units.len(),
{
    if units.len() == 0 {
        0
    } else {
        ((poly_hash(units.drop_last()) as int * 31 + units.last() as int) % 0x1_0000_0000) as u32
    }
}

/// The hue (0..360) of a name: its UTF-16 polynomial hash, read as a signed 32-bit
/// integer, taken modulo 360.
pub open spec fn spec_hash_name(name: Seq<char>) -> int {
    let h = poly_hash(encode_utf16(name)) as int;
    let signed = if h >= 0x8000_0000 { h - 0x1_0000_0000 } else { h };
    signed % 360
}

/// Hashes a name to a hue in 0..360 using its UTF-16 code units.
pub fn hash_name(name: &str) -> (hue: u16)
    ensures
        hue == spec_hash_name(name@),
        hue < 360,
{
    let units = utf16_of(name);
    let mut hash: u32 = 0;
    let mut i: usize = 0;
    while i < units.len()
        invariant
            i <= units@.len(),
            hash == poly_hash(units@.take(i as int)),
        decreases units@.len() - i,
    {
        let unit = units[i];
        proof {
            assert(units@.take(i + 1).drop_last() =~= units@.take(i as int));
            assert(units@.take(i + 1).last() == unit);
            let m = (hash as int * 31) % 0x1_0000_0000;
            assert((m + unit as int) % 0x1_0000_0000 == (hash as int * 31 + unit as int) % 0x1_0000_0000)
                by (nonlinear_arith)
                requires
                    m == (hash as int * 31) % 0x1_0000_0000,
                    0 <= unit < 0x10000,
            ;
        }
        hash = hash.wrapping_mul(31).wrapping_add(unit as u32);
        i += 1;
    }
    assert(units@.take(i as int) =~= units@);
    let wide = hash as u64;
    let hue = if wide >= 0x8000_0000 {
        assert((wide as int - 0x1_0000_0000) % 360 == (wide as int + 104) % 360) by (nonlinear_arith);
        (wide + 104) % 360
    } else {
        wide % 360
    };
    hue as u16
}

} // verus!

verus! {

/// The top-level MIME type that `mime_guess` reports first for a file extension, if it knows
/// the extension.
pub uninterp spec fn guessed_mime_type(extension: Seq<char>) -> Option<Seq<char>>;

/// Calls `mime_guess::from_ext(extension).first()` and returns the top-level type name of the
/// guess (`Mime::type_().as_str()`). The contract claims only that the answer is a fixed
/// function, `guessed_mime_type`, of the extension's characters.
#[verifier::external_body]
fn guess_mime_type(extension: &str) -> (guess: Option<String>)
    ensures
        match guess {
            Some(t) => guessed_mime_type(extension@) == Some(t@),
            None => guessed_mime_type(extension@) is None,
        },
{
    match mime_guess::from_ext(extension).first() {
        Some(mime) => Some(mime.type_().as_str().to_string()),
        None => None,
    }
}

pub open spec fn video_type() -> Seq<char> { seq!['v', 'i', 'd', 'e', 'o'] }
pub open spec fn audio_type() -> Seq<char> { seq!['a', 'u', 'd', 'i', 'o'] }
pub open spec fn image_type() -> Seq<char> { seq!['i', 'm', 'a', 'g', 'e'] }
pub open spec fn text_type() -> Seq<char> { seq!['t', 'e', 'x', 't'] }
pub open spec fn font_type() -> Seq<char> { seq!['f', 'o', 'n', 't'] }
pub open spec fn application_type() -> Seq<char> {
    seq!['a', 'p', 'p', 'l', 'i', 'c', 'a', 't', 'i', 'o', 'n']
}

/// The hue of a top-level MIME type; unknown types fall back to the hash of the extension.
pub open spec fn hue_for_mime_type(mime_type: Seq<char>, extension: Seq<char>) -> int {
    if mime_type == video_type() {
        220
    } else if mime_type == audio_type() {
        280
    } else if mime_type == image_type() {
        130
    } else if mime_type == text_type() {
        55
    } else if mime_type == font_type() {
        310
    } else if mime_type == application_type() {
        5
    } else {
        spec_hash_name(extension)
    }
}

/// The hue of a file extension: an extension that `mime_guess` does not know counts as
/// `application/octet-stream`.
pub open spec fn spec_hue_for_extension(extension: Seq<char>) -> int {
    match guessed_mime_type(extension) {
        Some(t) => hue_for_mime_type(t, extension),
        None => 5,
    }
}

/// Picks a hue for a top-level MIME type, given the extension it was guessed from.
pub fn hue_for_mime_type_of(mime_type: &String, extension: &str) -> (hue: u16)
    ensures
        hue == hue_for_mime_type(mime_type@, extension@),
        hue < 360,
{
    proof {
        reveal_strlit("video");
        reveal_strlit("audio");
        reveal_strlit("image");
        reveal_strlit("text");
        reveal_strlit("font");
        reveal_strlit("application");
    }
    let video = "video".to_owned();
    let audio = "audio".to_owned();
    let image = "image".to_owned();
    let text = "text".to_owned();
    let font = "font".to_owned();
    let application = "application".to_owned();
    assert("video"@ =~= video_type());
    assert("audio"@ =~= audio_type());
    assert("image"@ =~= image_type());
    assert("text"@ =~= text_type());
    assert("font"@ =~= font_type());
    assert("application"@ =~= application_type());
    if *mime_type == video {
        220
    } else if *mime_type == audio {
        280
    } else if *mime_type == image {
        130
    } else if *mime_type == text {
        55
    } else if *mime_type == font {
        310
    } else if *mime_type == application {
        5
    } else {
        hash_name(extension)
    }
}

/// Colours a file by the top-level MIME type of its extension.
pub fn hue_for_extension(extension: &str) -> (hue: u16)
    ensures
        hue == spec_hue_for_extension(extension@),
        hue < 360,
{
    match guess_mime_type(extension) {
        Some(t) => hue_for_mime_type_of(&t, extension),
        None => 5,
    }
}

/// The age hue of a modification time within `[min_time, max_time]`: 0 (oldest) to 120
/// (newest), proportionally and rounded down, clamped to that band; 60 when the range is
/// empty or the time is not positive.
pub open spec fn spec_age_hue(mtime: i64, min_time: i64, max_time: i64) -> int {
    if max_time <= min_time || mtime <= 0 {
        60
    } else if mtime <= min_time {
        0
    } else if mtime >= max_time {
        120
    } else {
        (120 * (mtime - min_time)) / (max_time - min_time)
    }
}

/// Whether `age_hue` can work out the offsets of `mtime` and `max_time` from `min_time`
/// in 64-bit signed arithmetic.
pub open spec fn age_hue_in_range(mtime: i64, min_time: i64, max_time: i64) -> bool {
    max_time <= min_time || mtime <= 0 || (mtime - min_time <= i64::MAX && max_time - min_time
        <= i64::MAX)
}

/// Maps a modification time to a hue from red (oldest) to green (newest).
///
/// The hue is worked out with exact integers: `120 * (mtime - min_time) / (max_time - min_time)`
/// rounded down. A computation of the ratio in 64-bit floats, then scaled and truncated, can
/// come out one higher where a rounding error carries it across a whole hue, as happens with
/// offsets too large for a float to hold exactly: `age_hue(2^61 - 1, 0, 2^62)` is 59 here,
/// while the float ratio rounds up to 0.5 and gives 60.
pub fn age_hue(mtime: i64, min_time: i64, max_time: i64) -> (hue: u16)
    requires
        age_hue_in_range(mtime, min_time, max_time),
    ensures
        hue == spec_age_hue(mtime, min_time, max_time),
        hue <= 120,
{
    if max_time <= min_time || mtime <= 0 {
        return 60;
    }
    if mtime <= min_time {
        return 0;
    }
    if mtime >= max_time {
        return 120;
    }
    let offset = (mtime as i128 - min_time as i128) as u128;
    let span = (max_time as i128 - min_time as i128) as u128;
    assert(0 < offset < span);
    assert(120 * offset < 120 * span) by (nonlinear_arith)
        requires
            0 < offset < span,
    ;
    let scaled = 120 * offset;
    let hue = scaled / span;
    assert(hue <= 120) by (nonlinear_arith)
        requires
            scaled < 120 * span,
            hue == scaled / span,
            span > 0,
    ;
    hue as u16
}

/// The colour mode in which rectangles are coloured by age.
pub const COLOR_MODE_AGE: u8 = 1;

/// The hue a rectangle is drawn in: by age (`COLOR_MODE_AGE`) the hue of its modification
/// time within `range`, else its own hue.
pub fn shown_hue(color_mode: u8, own_hue: u16, mtime: i64, range: (i64, i64)) -> (hue: u16)
    requires
        color_mode == COLOR_MODE_AGE ==> age_hue_in_range(mtime, range.0, range.1),
    ensures
        hue == (if color_mode == COLOR_MODE_AGE {
            spec_age_hue(mtime, range.0, range.1)
        } else {
            own_hue as int
        }),
{
    if color_mode == COLOR_MODE_AGE {
        age_hue(mtime, range.0, range.1)
    } else {
        own_hue
    }
}

} // verus!
