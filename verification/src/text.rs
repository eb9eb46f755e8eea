use vstd::prelude::*;
use vstd::std_specs::iter::IteratorSpec;

verus! {

broadcast use vstd::string::group_string_axioms;

/// Collects the characters of `s`, in order.
pub fn chars_of(s: &str) -> (out: Vec<char>)
    ensures
        out@ == s@,
{
    let mut out: Vec<char> = Vec::new();
    for c in iter: s.chars()
        invariant
            out@ == iter.seq().take(iter.index() as int),
            iter.seq() == s@,
    {
        out.push(c);
    }
    out
}

} // verus!

verus! {

/// The UTF-16 code units of one character.
pub open spec fn utf16_units(c: char) -> Seq<u16> {
    let v = c as int;
    if v < 0x10000 {
        seq![v as u16]
    } else {
        seq![(0xD800 + (v - 0x10000) / 0x400) as u16, (0xDC00 + (v - 0x10000) % 0x400) as u16]
    }
}

/// The UTF-16 encoding of a character sequence.
pub open spec fn encode_utf16(s: Seq<char>) -> Seq<u16>
    decreases s.len(),
{
    if s.len() == 0 {
        Seq::empty()
    } else {
        encode_utf16(s.drop_last()) + utf16_units(s.last())
    }
}

/// Appends the UTF-16 code units of `c` to `out`.
pub fn push_utf16_units(out: &mut Vec<u16>, c: char)
    ensures
        final(out)@ == old(out)@ + utf16_units(c),
{
    let v = c as u32;
    if v < 0x10000 {
        out.push(v as u16);
    } else {
        let w = v - 0x10000;
        out.push((0xD800 + w / 0x400) as u16);
        out.push((0xDC00 + w % 0x400) as u16);
    }
    assert(final(out)@ =~= old(out)@ + utf16_units(c));
}

/// The UTF-16 code units of `s`.
pub fn utf16_of(s: &str) -> (out: Vec<u16>)
    ensures
        out@ == encode_utf16(s@),
{
    let chars = chars_of(s);
    let mut out: Vec<u16> = Vec::new();
    let mut i: usize = 0;
    while i < chars.len()
        invariant
            i <= chars@.len(),
            chars@ == s@,
            out@ == encode_utf16(chars@.take(i as int)),
        decreases chars@.len() - i,
    {
        push_utf16_units(&mut out, chars[i]);
        assert(chars@.take(i + 1).drop_last() =~= chars@.take(i as int));
        i += 1;
    }
    assert(chars@.take(i as int) =~= chars@);
    out
}

} // verus!

verus! {

/// The code of `c` with ASCII upper-case letters folded to lower case.
pub open spec fn fold_ascii(c: char) -> int {
    if 'A' <= c && c <= 'Z' {
        c as int + 32
    } else {
        c as int
    }
}

/// `a` and `b` are equal up to ASCII case.
pub open spec fn eq_ignore_ascii_case(a: Seq<char>, b: Seq<char>) -> bool {
    &&& a.len() == b.len()
    &&& forall|i: int| 0 <= i < a.len() ==> #[trigger] fold_ascii(a[i]) == fold_ascii(b[i])
}

/// `pattern` occurs in `s` at `start`, up to ASCII case.
pub open spec fn occurs_ignore_ascii_case_at(s: Seq<char>, pattern: Seq<char>, start: int) -> bool {
    &&& 0 <= start
    &&& start + pattern.len() <= s.len()
    &&& forall|j: int|
        0 <= j < pattern.len() ==> #[trigger] fold_ascii(s[start + j]) == fold_ascii(pattern[j])
}

/// `pattern` occurs somewhere in `s`, up to ASCII case.
pub open spec fn contains_ignore_ascii_case(s: Seq<char>, pattern: Seq<char>) -> bool {
    exists|start: int| occurs_ignore_ascii_case_at(s, pattern, start)
}

/// The index of the last occurrence of `c` in `s`, or -1.
pub open spec fn last_index_of(s: Seq<char>, c: char) -> int
    decreases s.len(),
{
    if s.len() == 0 {
        -1
    } else if s.last() == c {
        s.len() - 1
    } else {
        last_index_of(s.drop_last(), c)
    }
}

pub proof fn lemma_last_index_of(s: Seq<char>, c: char)
    ensures
        -1 <= last_index_of(s, c) < s.len(),
        last_index_of(s, c) >= 0 ==> s[last_index_of(s, c)] == c,
        forall|i: int| last_index_of(s, c) < i < s.len() ==> s[i] != c,
    decreases s.len(),
{
    if s.len() > 0 && s.last() != c {
        lemma_last_index_of(s.drop_last(), c);
        assert(forall|i: int| 0 <= i < s.len() - 1 ==> s.drop_last()[i] == s[i]);
    }
}

/// ASCII case folding of one character, as a code.
pub fn fold_ascii_exec(c: char) -> (code: u32)
    ensures
        code == fold_ascii(c),
{
    if 'A' <= c && c <= 'Z' {
        (c as u32) + 32
    } else {
        c as u32
    }
}

/// Whether `a` and `b` are equal ignoring ASCII case.
pub fn chars_eq_ignore_ascii_case(a: &[char], b: &[char]) -> (eq: bool)
    ensures
        eq == eq_ignore_ascii_case(a@, b@),
{
    if a.len() != b.len() {
        return false;
    }
    let mut i: usize = 0;
    while i < a.len()
        invariant
            i <= a@.len(),
            a@.len() == b@.len(),
            forall|k: int| 0 <= k < i ==> #[trigger] fold_ascii(a@[k]) == fold_ascii(b@[k]),
        decreases a@.len() - i,
    {
        if fold_ascii_exec(a[i]) != fold_ascii_exec(b[i]) {
            return false;
        }
        i += 1;
    }
    true
}

/// Whether `pattern` occurs in `s` at `start`, ignoring ASCII case.
pub fn occurs_at(s: &[char], pattern: &[char], start: usize) -> (found: bool)
    requires
        start + pattern@.len() <= s@.len(),
    ensures
        found == occurs_ignore_ascii_case_at(s@, pattern@, start as int),
{
    let n = s.len();
    let mut j: usize = 0;
    while j < pattern.len()
        invariant
            j <= pattern@.len(),
            n == s@.len(),
            start + pattern@.len() <= s@.len(),
            forall|k: int|
                0 <= k < j ==> #[trigger] fold_ascii(s@[start + k]) == fold_ascii(pattern@[k]),
        decreases pattern@.len() - j,
    {
        if fold_ascii_exec(s[start + j]) != fold_ascii_exec(pattern[j]) {
            return false;
        }
        j += 1;
    }
    true
}

/// Whether `pattern` occurs anywhere in `s`, ignoring ASCII case.
pub fn contains_chars_ignore_ascii_case(s: &[char], pattern: &[char]) -> (found: bool)
    ensures
        found == contains_ignore_ascii_case(s@, pattern@),
{
    if pattern.len() > s.len() {
        return false;
    }
    let mut start: usize = 0;
    while start <= s.len() - pattern.len()
        invariant
            pattern@.len() <= s@.len(),
            start <= s@.len() - pattern@.len() + 1,
            forall|k: int| 0 <= k < start ==> !occurs_ignore_ascii_case_at(s@, pattern@, k),
        decreases s@.len() - pattern@.len() + 1 - start,
    {
        if occurs_at(s, pattern, start) {
            return true;
        }
        start += 1;
    }
    false
}

/// The index of the last `c` in `s`, if any.
pub fn find_last(s: &[char], c: char) -> (idx: Option<usize>)
    ensures
        match idx {
            Some(i) => i == last_index_of(s@, c),
            None => last_index_of(s@, c) == -1,
        },
{
    proof {
        lemma_last_index_of(s@, c);
    }
    let mut i = s.len();
    while i > 0
        invariant
            i <= s@.len(),
            forall|k: int| i <= k < s@.len() ==> s@[k] != c,
            -1 <= last_index_of(s@, c) < s@.len(),
            last_index_of(s@, c) >= 0 ==> s@[last_index_of(s@, c)] == c,
            forall|k: int| last_index_of(s@, c) < k < s@.len() ==> s@[k] != c,
        decreases i,
    {
        if s[i - 1] == c {
            return Some(i - 1);
        }
        i -= 1;
    }
    None
}

} // verus!

verus! {

/// The number of bytes that `c` takes in UTF-8.
pub open spec fn utf8_width(c: char) -> int {
    if (c as u32) < 0x80 {
        1
    } else if (c as u32) < 0x800 {
        2
    } else if (c as u32) < 0x10000 {
        3
    } else {
        4
    }
}

/// The number of bytes that `s` takes in UTF-8.
pub open spec fn utf8_len(s: Seq<char>) -> int
    decreases s.len(),
{
    if s.len() == 0 {
        0
    } else {
        utf8_len(s.drop_last()) + utf8_width(s.last())
    }
}

/// The UTF-8 length of `chars[start..]`, or a number above 10 when it is longer than that.
pub fn utf8_len_of(chars: &Vec<char>, start: usize) -> (len: usize)
    requires
        start <= chars@.len(),
    ensures
        len <= 14,
        len <= 10 <==> utf8_len(chars@.subrange(start as int, chars@.len() as int)) <= 10,
        len <= 10 ==> len == utf8_len(chars@.subrange(start as int, chars@.len() as int)),
{
    let mut len: usize = 0;
    let mut i = start;
    while i < chars.len()
        invariant
            start <= i <= chars@.len(),
            len <= 10,
            len == utf8_len(chars@.subrange(start as int, i as int)),
        decreases chars@.len() - i,
    {
        let c = chars[i];
        let code = c as u32;
        let width: usize = if code < 0x80 {
            1
        } else if code < 0x800 {
            2
        } else if code < 0x10000 {
            3
        } else {
            4
        };
        assert(chars@.subrange(start as int, i + 1).drop_last() =~= chars@.subrange(start as int, i as int));
        assert(chars@.subrange(start as int, i + 1).last() == c);
        assert(width == utf8_width(c));
        proof {
            lemma_utf8_len_grows(chars@, start as int, i + 1);
        }
        len = len + width;
        i += 1;
        if len > 10 {
            return len;
        }
    }
    len
}

/// A longer suffix-start range never has a shorter UTF-8 length.
pub proof fn lemma_utf8_len_grows(s: Seq<char>, start: int, end: int)
    requires
        0 <= start <= end <= s.len(),
    ensures
        forall|e: int| end <= e <= s.len() ==> utf8_len(s.subrange(start, end)) <= #[trigger] utf8_len(s.subrange(start, e)),
    decreases s.len() - end,
{
    assert forall|e: int| end <= e <= s.len() implies utf8_len(s.subrange(start, end)) <= #[trigger] utf8_len(s.subrange(start, e)) by {
        lemma_utf8_len_monotone(s, start, end, e);
    }
}

proof fn lemma_utf8_len_monotone(s: Seq<char>, start: int, end: int, e: int)
    requires
        0 <= start <= end <= e <= s.len(),
    ensures
        utf8_len(s.subrange(start, end)) <= utf8_len(s.subrange(start, e)),
    decreases e - end,
{
    if e > end {
        assert(s.subrange(start, e).drop_last() =~= s.subrange(start, e - 1));
        lemma_utf8_len_monotone(s, start, end, e - 1);
    }
}

} // verus!

verus! {

/// `String::push_str` of std appends `string` to `s`.
pub assume_specification[ String::push_str ](s: &mut String, string: &str)
    ensures
        final(s)@ == old(s)@ + string@,
;

/// `String::push` of std appends the character `ch` to `s`.
pub assume_specification[ String::push ](s: &mut String, ch: char)
    ensures
        final(s)@ == old(s)@.push(ch),
;

/// `c` with an ASCII capital letter turned into its small letter.
pub open spec fn ascii_lower(c: char) -> char {
    if 'A' <= c <= 'Z' {
        ((c as u32) + 32) as char
    } else {
        c
    }
}

/// `s` with each ASCII capital letter turned into its small letter.
pub open spec fn ascii_lowercase(s: Seq<char>) -> Seq<char> {
    Seq::new(s.len(), |i: int| ascii_lower(s[i]))
}

/// A copy of `s` with its ASCII capital letters made small.
pub fn to_ascii_lowercase(s: &str) -> (out: String)
    ensures
        out@ == ascii_lowercase(s@),
{
    let chars = chars_of(s);
    let mut out = String::new();
    let mut i: usize = 0;
    while i < chars.len()
        invariant
            i <= chars@.len(),
            chars@ == s@,
            out@ == ascii_lowercase(s@).take(i as int),
        decreases chars@.len() - i,
    {
        let c = chars[i];
        let lower = if 'A' <= c && c <= 'Z' {
            char_from_ascii_letter(c)
        } else {
            c
        };
        out.push(lower);
        i += 1;
        proof {
            assert(out@ =~= ascii_lowercase(s@).take(i as int));
        }
    }
    proof {
        assert(ascii_lowercase(s@).take(i as int) =~= ascii_lowercase(s@));
    }
    out
}

/// The small letter of the capital ASCII letter `c`.
fn char_from_ascii_letter(c: char) -> (lower: char)
    requires
        'A' <= c <= 'Z',
    ensures
        lower == ascii_lower(c),
{
    let code = (c as u32) + 32;
    let small: u8 = code as u8;
    small as char
}

/// The decimal digit `d`.
pub open spec fn digit_char(d: nat) -> char {
    (48 + d) as char
}

/// `n` in decimal, without leading zeros.
pub open spec fn decimal_of(n: nat) -> Seq<char>
    decreases n,
{
    if n < 10 {
        seq![digit_char(n)]
    } else {
        decimal_of(n / 10) + seq![digit_char(n % 10)]
    }
}

/// Appends `n` in decimal to `out`.
pub fn push_decimal(out: &mut String, n: u64)
    ensures
        final(out)@ == old(out)@ + decimal_of(n as nat),
    decreases n,
{
    if n >= 10 {
        push_decimal(out, n / 10);
    }
    let d = (n % 10) as u8;
    out.push((48u8 + d) as char);
    proof {
        assert(final(out)@ =~= old(out)@ + decimal_of(n as nat));
    }
}

} // verus!
