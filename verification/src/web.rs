//! Text handling of the web front: JSON string escaping, the loopback check of a request's
//! origin, the check that a client-supplied name is one plain path component, and the folding
//! of repeated slashes.
use vstd::prelude::*;

use crate::text::{chars_of, find_last, last_index_of};

verus! {

/// The lowercase hexadecimal digit of `d` (below 16).
pub open spec fn hex_digit(d: u32) -> char {
    if d < 10 {
        ((d + 48) as u8) as char
    } else {
        ((d + 87) as u8) as char
    }
}

/// How JSON writes `c` inside a string: a backslash before `\` and `"`, the short escapes for
/// newline, carriage return and tab, `\u00XX` for other control characters, `c` itself
/// otherwise.
pub open spec fn json_char(c: char) -> Seq<char> {
    if c == '\\' {
        seq!['\\', '\\']
    } else if c == '"' {
        seq!['\\', '"']
    } else if c == '\n' {
        seq!['\\', 'n']
    } else if c == '\r' {
        seq!['\\', 'r']
    } else if c == '\t' {
        seq!['\\', 't']
    } else if (c as u32) < 0x20 {
        seq!['\\', 'u', '0', '0', hex_digit((c as u32) / 16), hex_digit((c as u32) % 16)]
    } else {
        seq![c]
    }
}

/// `s` written as the inside of a JSON string.
pub open spec fn json_escaped(s: Seq<char>) -> Seq<char>
    decreases s.len(),
{
    if s.len() == 0 {
        Seq::empty()
    } else {
        json_escaped(s.drop_last()) + json_char(s.last())
    }
}

/// The hexadecimal digit of `d` as a character.
fn hex_digit_char(d: u32) -> (c: char)
    requires
        d < 16,
    ensures
        c == hex_digit(d),
{
    if d < 10 {
        ((d + 48) as u8) as char
    } else {
        ((d + 87) as u8) as char
    }
}

/// `s` written as the inside of a JSON string.
pub fn json_escape(s: &str) -> (out: String)
    ensures
        out@ == json_escaped(s@),
{
    let chars = chars_of(s);
    let mut out = String::new();
    let mut i: usize = 0;
    while i < chars.len()
        invariant
            i <= chars@.len(),
            chars@ == s@,
            out@ == json_escaped(s@.take(i as int)),
        decreases chars@.len() - i,
    {
        let c = chars[i];
        let ghost before = out@;
        if c == '\\' {
            out.push('\\');
            out.push('\\');
        } else if c == '"' {
            out.push('\\');
            out.push('"');
        } else if c == '\n' {
            out.push('\\');
            out.push('n');
        } else if c == '\r' {
            out.push('\\');
            out.push('r');
        } else if c == '\t' {
            out.push('\\');
            out.push('t');
        } else if (c as u32) < 0x20 {
            out.push('\\');
            out.push('u');
            out.push('0');
            out.push('0');
            out.push(hex_digit_char((c as u32) / 16));
            out.push(hex_digit_char((c as u32) % 16));
        } else {
            out.push(c);
        }
        proof {
            assert(out@ =~= before + json_char(c));
            assert(s@.take(i + 1).drop_last() =~= s@.take(i as int));
        }
        i += 1;
    }
    proof {
        assert(s@.take(i as int) =~= s@);
    }
    out
}

/// The first `i` at or after `from` where `://` starts in `s`, or -1.
pub open spec fn scheme_separator_from(s: Seq<char>, from: int) -> int
    decreases s.len() - from,
{
    if from < 0 || from + 3 > s.len() {
        -1
    } else if s[from] == ':' && s[from + 1] == '/' && s[from + 2] == '/' {
        from
    } else {
        scheme_separator_from(s, from + 1)
    }
}

/// The first index at or after `from` of a `/`, `?` or `#` in `s`, or the length of `s`.
pub open spec fn authority_end_from(s: Seq<char>, from: int) -> int
    decreases s.len() - from,
{
    if from < 0 || from >= s.len() {
        s.len() as int
    } else if s[from] == '/' || s[from] == '?' || s[from] == '#' {
        from
    } else {
        authority_end_from(s, from + 1)
    }
}

/// The first index at or after `from` of `c` in `s`, or the length of `s`.
pub open spec fn char_end_from(s: Seq<char>, c: char, from: int) -> int
    decreases s.len() - from,
{
    if from < 0 || from >= s.len() {
        s.len() as int
    } else if s[from] == c {
        from
    } else {
        char_end_from(s, c, from + 1)
    }
}

/// What follows the first `://` of an origin, or all of it when it has none.
pub open spec fn after_scheme(origin: Seq<char>) -> Seq<char> {
    let i = scheme_separator_from(origin, 0);
    if i < 0 {
        origin
    } else {
        origin.subrange(i + 3, origin.len() as int)
    }
}

/// The part of `rest` before its first `/`, `?` or `#`.
pub open spec fn authority_of(rest: Seq<char>) -> Seq<char> {
    rest.take(authority_end_from(rest, 0))
}

/// The host of an authority: inside the brackets of an IPv6 literal (up to the first `]`), or
/// what comes before the last `:` otherwise (all of it when it has none).
pub open spec fn host_of(authority: Seq<char>) -> Seq<char> {
    if authority.len() > 0 && authority[0] == '[' {
        let after = authority.drop_first();
        after.take(char_end_from(after, ']', 0))
    } else {
        let colon = last_index_of(authority, ':');
        if colon < 0 {
            authority
        } else {
            authority.take(colon)
        }
    }
}

/// The parts of `s` between its dots (one part when it has none).
pub open spec fn split_dots(s: Seq<char>) -> Seq<Seq<char>>
    decreases s.len(),
{
    if s.len() == 0 {
        seq![Seq::empty()]
    } else {
        let p = split_dots(s.drop_last());
        if s.last() == '.' {
            p.push(Seq::empty())
        } else {
            p.update(p.len() - 1, p.last().push(s.last()))
        }
    }
}

proof fn lemma_split_dots_nonempty(s: Seq<char>)
    ensures
        split_dots(s).len() >= 1,
    decreases s.len(),
{
    if s.len() > 0 {
        lemma_split_dots_nonempty(s.drop_last());
    }
}

/// `c` is a decimal digit.
pub open spec fn is_digit(c: char) -> bool {
    '0' <= c && c <= '9'
}

/// The number that the decimal digits `d` write.
pub open spec fn decimal_value(d: Seq<char>) -> int
    decreases d.len(),
{
    if d.len() == 0 {
        0
    } else {
        decimal_value(d.drop_last()) * 10 + (d.last() as int - '0' as int)
    }
}

/// `p` is one octet of a dotted-quad address: one to three decimal digits, at most 255.
pub open spec fn is_octet(p: Seq<char>) -> bool {
    &&& 1 <= p.len() <= 3
    &&& forall|i: int| 0 <= i < p.len() ==> is_digit(#[trigger] p[i])
    &&& decimal_value(p) <= 255
}

/// `host` is an IPv4 address in `127.0.0.0/8` written as four decimal octets.
pub open spec fn ipv4_loopback(host: Seq<char>) -> bool {
    let parts = split_dots(host);
    &&& parts.len() == 4
    &&& is_octet(parts[0])
    &&& is_octet(parts[1])
    &&& is_octet(parts[2])
    &&& is_octet(parts[3])
    &&& decimal_value(parts[0]) == 127
}

/// A host that names this machine: `localhost`, `::1`, or an IPv4 address in `127.0.0.0/8`
/// written as four decimal octets. A name such as `127.evil.example` is not one.
pub open spec fn loopback_host(host: Seq<char>) -> bool {
    ||| host == seq!['l', 'o', 'c', 'a', 'l', 'h', 'o', 's', 't']
    ||| host == seq![':', ':', '1']
    ||| ipv4_loopback(host)
}

/// The parts of `s` between its dots.
fn split_at_dots(s: &Vec<char>) -> (parts: Vec<Vec<char>>)
    ensures
        parts@.map_values(|p: Vec<char>| p@) == split_dots(s@),
{
    let mut done: Vec<Vec<char>> = Vec::new();
    let mut current: Vec<char> = Vec::new();
    let mut i: usize = 0;
    proof {
        assert(s@.take(0) =~= Seq::<char>::empty());
        assert(done@.map_values(|p: Vec<char>| p@).push(current@) =~= split_dots(s@.take(0)));
    }
    while i < s.len()
        invariant
            i <= s@.len(),
            done@.map_values(|p: Vec<char>| p@).push(current@) == split_dots(s@.take(i as int)),
        decreases s@.len() - i,
    {
        let c = s[i];
        let ghost before = done@.map_values(|p: Vec<char>| p@).push(current@);
        proof {
            let t = s@.take(i + 1);
            assert(t.drop_last() =~= s@.take(i as int));
            assert(t.last() == c);
        }
        if c == '.' {
            let finished = current;
            done.push(finished);
            current = Vec::new();
            proof {
                assert(done@.map_values(|p: Vec<char>| p@).push(current@) =~= before.push(
                    Seq::empty(),
                ));
            }
        } else {
            current.push(c);
            proof {
                assert(done@.map_values(|p: Vec<char>| p@).push(current@) =~= before.update(
                    before.len() - 1,
                    before.last().push(c),
                ));
            }
        }
        i += 1;
    }
    proof {
        assert(s@.take(i as int) =~= s@);
    }
    done.push(current);
    proof {
        assert(done@.map_values(|p: Vec<char>| p@) =~= split_dots(s@));
    }
    done
}

/// The value of `p` when it is one octet of a dotted-quad address.
fn octet_value(p: &Vec<char>) -> (value: Option<u32>)
    ensures
        value is Some <==> is_octet(p@),
        value matches Some(v) ==> v == decimal_value(p@),
{
    if p.len() == 0 || p.len() > 3 {
        return None;
    }
    let mut value: u32 = 0;
    let mut i: usize = 0;
    proof {
        assert(p@.take(0) =~= Seq::<char>::empty());
    }
    while i < p.len()
        invariant
            1 <= p@.len() <= 3,
            i <= p@.len(),
            value == decimal_value(p@.take(i as int)),
            value <= (if i == 0 {
                0int
            } else if i == 1 {
                9
            } else if i == 2 {
                99
            } else {
                999
            }),
            forall|k: int| 0 <= k < i ==> is_digit(#[trigger] p@[k]),
        decreases p@.len() - i,
    {
        let c = p[i];
        if !('0' <= c && c <= '9') {
            assert(!is_digit(p@[i as int]));
            return None;
        }
        proof {
            let t = p@.take(i + 1);
            assert(t.drop_last() =~= p@.take(i as int));
            assert(t.last() == c);
        }
        value = value * 10 + (c as u32 - '0' as u32);
        i += 1;
    }
    proof {
        assert(p@.take(i as int) =~= p@);
    }
    if value > 255 {
        return None;
    }
    Some(value)
}

/// Whether `host` is an IPv4 address in `127.0.0.0/8` written as four decimal octets.
fn is_ipv4_loopback(host: &Vec<char>) -> (loopback: bool)
    ensures
        loopback == ipv4_loopback(host@),
{
    let parts = split_at_dots(host);
    proof {
        lemma_split_dots_nonempty(host@);
    }
    if parts.len() != 4 {
        return false;
    }
    let ghost views = parts@.map_values(|p: Vec<char>| p@);
    assert(views[0] == parts@[0]@ && views[1] == parts@[1]@);
    assert(views[2] == parts@[2]@ && views[3] == parts@[3]@);
    let first = match octet_value(&parts[0]) {
        Some(v) => v,
        None => return false,
    };
    if octet_value(&parts[1]).is_none() || octet_value(&parts[2]).is_none() || octet_value(
        &parts[3],
    ).is_none() {
        return false;
    }
    first == 127
}

/// The origin of a request names this machine.
pub open spec fn spec_origin_is_loopback(origin: Seq<char>) -> bool {
    loopback_host(host_of(authority_of(after_scheme(origin))))
}

/// Whether `a` and `b` hold the same characters.
pub fn same_chars(a: &[char], b: &[char]) -> (same: bool)
    ensures
        same == (a@ == b@),
{
    if a.len() != b.len() {
        return false;
    }
    let mut i: usize = 0;
    while i < a.len()
        invariant
            a@.len() == b@.len(),
            i <= a@.len(),
            forall|k: int| 0 <= k < i ==> a@[k] == b@[k],
        decreases a@.len() - i,
    {
        if a[i] != b[i] {
            return false;
        }
        i += 1;
    }
    proof {
        assert(a@ =~= b@);
    }
    true
}

/// The characters of `s` from `start` to `end`.
pub fn char_range(s: &[char], start: usize, end: usize) -> (part: Vec<char>)
    requires
        start <= end <= s@.len(),
    ensures
        part@ == s@.subrange(start as int, end as int),
{
    let mut part: Vec<char> = Vec::new();
    let mut i = start;
    while i < end
        invariant
            start <= i <= end,
            end <= s@.len(),
            part@ == s@.subrange(start as int, i as int),
        decreases end - i,
    {
        part.push(s[i]);
        i += 1;
        proof {
            assert(part@ =~= s@.subrange(start as int, i as int));
        }
    }
    part
}

/// Whether the origin of a request names this machine.
pub fn origin_is_loopback(origin: &str) -> (loopback: bool)
    ensures
        loopback == spec_origin_is_loopback(origin@),
{
    let s = chars_of(origin);
    let mut i: usize = 0;
    let mut start: usize = 0;
    while i < s.len() && s.len() - i >= 3
        invariant_except_break
            start == 0,
        invariant
            scheme_separator_from(s@, 0) == scheme_separator_from(s@, i as int),
        ensures
            start <= s@.len(),
            s@.subrange(start as int, s@.len() as int) == after_scheme(s@),
        decreases s@.len() - i,
    {
        if s[i] == ':' && s[i + 1] == '/' && s[i + 2] == '/' {
            start = i + 3;
            break;
        }
        i += 1;
    }
    let rest = char_range(&s, start, s.len());
    let mut end: usize = 0;
    while end < rest.len() && rest[end] != '/' && rest[end] != '?' && rest[end] != '#'
        invariant
            end <= rest@.len(),
            authority_end_from(rest@, 0) == authority_end_from(rest@, end as int),
        decreases rest@.len() - end,
    {
        end += 1;
    }
    let authority = char_range(&rest, 0, end);
    assert(authority@ =~= authority_of(rest@));
    let host = if authority.len() > 0 && authority[0] == '[' {
        let after = char_range(&authority, 1, authority.len());
        let mut close: usize = 0;
        while close < after.len() && after[close] != ']'
            invariant
                close <= after@.len(),
                char_end_from(after@, ']', 0) == char_end_from(after@, ']', close as int),
            decreases after@.len() - close,
        {
            close += 1;
        }
        assert(char_end_from(after@, ']', close as int) == close);
        assert(after@ =~= authority@.drop_first());
        char_range(&after, 0, close)
    } else {
        proof {
            crate::text::lemma_last_index_of(authority@, ':');
        }
        match find_last(authority.as_slice(), ':') {
            Some(colon) => char_range(&authority, 0, colon),
            None => char_range(&authority, 0, authority.len()),
        }
    };
    assert(host@ =~= host_of(authority@));
    let localhost = vec!['l', 'o', 'c', 'a', 'l', 'h', 'o', 's', 't'];
    let ipv6 = vec![':', ':', '1'];
    if same_chars(&host, &localhost) || same_chars(&host, &ipv6) {
        return true;
    }
    is_ipv4_loopback(&host)
}

/// The characters from `from` up to the next `/` (or the end) of `s`.
pub open spec fn part_end(s: Seq<char>, from: int) -> int {
    char_end_from(s, '/', from)
}

/// The parts of `s` from `from` on, split at `/`, leaving out empty parts and `.`.
pub open spec fn kept_parts(s: Seq<char>, from: int) -> Seq<Seq<char>>
    decreases s.len() - from,
{
    if from < 0 || from >= s.len() {
        Seq::empty()
    } else {
        let end = part_end(s, from);
        if end < from {
            Seq::empty()
        } else {
            let part = s.subrange(from, end);
            let rest = if end < s.len() {
                kept_parts(s, end + 1)
            } else {
                Seq::empty()
            };
            if part.len() == 0 || part == seq!['.'] {
                rest
            } else {
                seq![part] + rest
            }
        }
    }
}

/// `name` is a single plain path component: it is not absolute, does not start with the
/// current directory `.`, and its one part (separators repeated or trailing, and `.` parts,
/// being ignored) is not `..`.
pub open spec fn single_normal_component(name: Seq<char>) -> bool {
    &&& name.len() > 0
    &&& name[0] != '/'
    &&& !(name[0] == '.' && (name.len() == 1 || name[1] == '/'))
    &&& kept_parts(name, 0).len() == 1
    &&& kept_parts(name, 0)[0] != seq!['.', '.']
}

pub proof fn lemma_part_end(s: Seq<char>, from: int)
    requires
        0 <= from <= s.len(),
    ensures
        from <= part_end(s, from) <= s.len(),
        forall|k: int| from <= k < part_end(s, from) ==> s[k] != '/',
        part_end(s, from) < s.len() ==> s[part_end(s, from)] == '/',
    decreases s.len() - from,
{
    if from < s.len() && s[from] != '/' {
        lemma_part_end(s, from + 1);
    }
}

/// Whether `name` is a single plain path component, one that cannot leave the directory it is
/// looked up in.
pub fn is_safe_component(name: &str) -> (safe: bool)
    ensures
        safe == single_normal_component(name@),
{
    let s = chars_of(name);
    if s.len() == 0 || s[0] == '/' {
        return false;
    }
    if s[0] == '.' && (s.len() == 1 || s[1] == '/') {
        return false;
    }
    let ghost all = kept_parts(s@, 0);
    let ghost mut seen: Seq<Seq<char>> = Seq::empty();
    let mut count: usize = 0;
    let mut first_is_parent = false;
    let mut from: usize = 0;
    while from < s.len()
        invariant
            from <= s@.len(),
            all == kept_parts(s@, 0),
            all == seen + kept_parts(s@, from as int),
            count == seen.len(),
            count <= from,
            seen.len() > 0 ==> (first_is_parent == (seen[0] == seq!['.', '.'])),
        decreases s@.len() - from,
    {
        proof {
            lemma_part_end(s@, from as int);
        }
        let mut end = from;
        while end < s.len() && s[end] != '/'
            invariant
                from <= end <= s@.len(),
                part_end(s@, from as int) == part_end(s@, end as int),
            decreases s@.len() - end,
        {
            end += 1;
        }
        let part = char_range(&s, from, end);
        proof {
            assert(part_end(s@, end as int) == end);
            assert(from <= end);
            assert(part@ == s@.subrange(from as int, part_end(s@, from as int)));
        }
        let dot = vec!['.'];
        let dots = vec!['.', '.'];
        proof {
            assert(dot@ =~= seq!['.']);
            assert(dots@ =~= seq!['.', '.']);
            assert(kept_parts(s@, from as int) == (if part@.len() == 0 || part@ == seq!['.'] {
                kept_parts(s@, end + 1)
            } else {
                seq![part@] + kept_parts(s@, end + 1)
            }));
        }
        if part.len() > 0 && !same_chars(&part, &dot) {
            if count == 0 {
                first_is_parent = same_chars(&part, &dots);
            }
            count += 1;
            proof {
                seen = seen + seq![part@];
                assert(kept_parts(s@, from as int) == seq![part@] + kept_parts(s@, end + 1));
                assert(all =~= seen + kept_parts(s@, end + 1));
            }
        } else {
            proof {
                assert(kept_parts(s@, from as int) == kept_parts(s@, end + 1));
            }
        }
        if end < s.len() {
            from = end + 1;
        } else {
            from = end;
        }
    }
    proof {
        assert(kept_parts(s@, from as int) == Seq::<Seq<char>>::empty());
        assert(all =~= seen);
    }
    count == 1 && !first_is_parent
}

/// The text with each run of `/` folded into one.
pub open spec fn slashes_collapsed(s: Seq<char>) -> Seq<char>
    decreases s.len(),
{
    if s.len() == 0 {
        Seq::empty()
    } else if s.last() == '/' && s.len() >= 2 && s[s.len() - 2] == '/' {
        slashes_collapsed(s.drop_last())
    } else {
        slashes_collapsed(s.drop_last()).push(s.last())
    }
}

/// `path` with each run of `/` folded into one.
pub fn collapse_slashes(path: String) -> (out: String)
    ensures
        out@ == slashes_collapsed(path@),
{
    let chars = chars_of(path.as_str());
    let mut out = String::new();
    let mut last_was_slash = false;
    let mut i: usize = 0;
    while i < chars.len()
        invariant
            i <= chars@.len(),
            chars@ == path@,
            out@ == slashes_collapsed(path@.take(i as int)),
            last_was_slash == (i > 0 && path@[i - 1] == '/'),
        decreases chars@.len() - i,
    {
        let c = chars[i];
        proof {
            let t = path@.take(i + 1);
            assert(t.drop_last() =~= path@.take(i as int));
            assert(t.last() == c);
            if i > 0 {
                assert(t[t.len() - 2] == path@[i - 1]);
            }
        }
        if c == '/' {
            if !last_was_slash {
                out.push(c);
            }
            last_was_slash = true;
        } else {
            out.push(c);
            last_was_slash = false;
        }
        i += 1;
    }
    proof {
        assert(path@.take(i as int) =~= path@);
    }
    out
}


/// The parts of `s`, split at `/`, leaving out empty parts and `.`.
pub fn kept_parts_of(s: &Vec<char>) -> (parts: Vec<Vec<char>>)
    ensures
        parts@.map_values(|p: Vec<char>| p@) == kept_parts(s@, 0),
{
    let mut parts: Vec<Vec<char>> = Vec::new();
    let mut from: usize = 0;
    while from < s.len()
        invariant
            from <= s@.len(),
            kept_parts(s@, 0) == parts@.map_values(|p: Vec<char>| p@) + kept_parts(s@, from as int),
        decreases s@.len() - from,
    {
        proof {
            lemma_part_end(s@, from as int);
        }
        let mut end = from;
        while end < s.len() && s[end] != '/'
            invariant
                from <= end <= s@.len(),
                part_end(s@, from as int) == part_end(s@, end as int),
            decreases s@.len() - end,
        {
            end += 1;
        }
        let part = char_range(s, from, end);
        let dot = vec!['.'];
        proof {
            assert(part_end(s@, end as int) == end);
            assert(dot@ =~= seq!['.']);
            assert(kept_parts(s@, from as int) == (if part@.len() == 0 || part@ == seq!['.'] {
                kept_parts(s@, end + 1)
            } else {
                seq![part@] + kept_parts(s@, end + 1)
            }));
        }
        if part.len() > 0 && !same_chars(&part, &dot) {
            let ghost before = parts@;
            parts.push(part);
            proof {
                assert(parts@.map_values(|p: Vec<char>| p@) =~= before.map_values(|p: Vec<char>| p@)
                    + seq![s@.subrange(from as int, end as int)]);
            }
        }
        if end < s.len() {
            from = end + 1;
        } else {
            from = end;
        }
    }
    proof {
        assert(kept_parts(s@, from as int) == Seq::<Seq<char>>::empty());
        assert(parts@.map_values(|p: Vec<char>| p@) =~= kept_parts(s@, 0));
    }
    parts
}


/// The JSON form of a string holds no raw control character and no `"` without a backslash
/// right before it.
pub proof fn law_json_escaped_is_clean(s: Seq<char>)
    ensures
        forall|i: int|
            0 <= i < json_escaped(s).len() ==> (#[trigger] json_escaped(s)[i] as u32) >= 0x20,
        forall|i: int|
            0 <= i < json_escaped(s).len() && #[trigger] json_escaped(s)[i] == '"' ==> i > 0
                && json_escaped(s)[i - 1] == '\\',
    decreases s.len(),
{
    if s.len() > 0 {
        let init = json_escaped(s.drop_last());
        law_json_escaped_is_clean(s.drop_last());
        let tail = json_char(s.last());
        let all = json_escaped(s);
        assert(all == init + tail);
        let c = s.last();
        assert forall|d: u32| d < 16 implies (hex_digit(d) as u32) >= 0x20 by {
            if d < 10 {
                assert(((d + 48) as u8) as char as u32 == d + 48);
            } else {
                assert(((d + 87) as u8) as char as u32 == d + 87);
            }
        }
        assert forall|i: int| 0 <= i < all.len() implies (#[trigger] all[i] as u32) >= 0x20 by {
            if i >= init.len() {
                assert(all[i] == tail[i - init.len()]);
                if (c as u32) < 0x20 && c != '\n' && c != '\r' && c != '\t' {
                    assert((c as u32) / 16 < 16);
                    assert((c as u32) % 16 < 16);
                }
            } else {
                assert(all[i] == init[i]);
            }
        }
        assert forall|i: int| 0 <= i < all.len() && #[trigger] all[i] == '"' implies i > 0 && all[i
            - 1] == '\\' by {
            if i >= init.len() {
                assert(all[i] == tail[i - init.len()]);
                if (c as u32) < 0x20 && c != '\n' && c != '\r' && c != '\t' {
                    let d1 = (c as u32) / 16;
                    let d2 = (c as u32) % 16;
                    assert(d1 < 16 && d2 < 16);
                    assert(hex_digit(d1) as u32 >= 48);
                    assert(hex_digit(d2) as u32 >= 48);
                    if d1 < 10 {
                        assert(((d1 + 48) as u8) as char as u32 == d1 + 48);
                    } else {
                        assert(((d1 + 87) as u8) as char as u32 == d1 + 87);
                    }
                    if d2 < 10 {
                        assert(((d2 + 48) as u8) as char as u32 == d2 + 48);
                    } else {
                        assert(((d2 + 87) as u8) as char as u32 == d2 + 87);
                    }
                }
                if i - init.len() == 1 {
                    assert(all[i - 1] == tail[0]);
                }
            } else {
                assert(all[i] == init[i]);
                assert(all[i - 1] == init[i - 1]);
            }
        }
    }
}

/// After folding, no two slashes stand next to each other.
pub proof fn law_collapsed_has_no_double_slash(s: Seq<char>)
    ensures
        forall|i: int|
            0 < i < slashes_collapsed(s).len() && #[trigger] slashes_collapsed(s)[i] == '/'
                ==> slashes_collapsed(s)[i - 1] != '/',
        slashes_collapsed(s).len() > 0 ==> slashes_collapsed(s).last() == s.last(),
    decreases s.len(),
{
    if s.len() > 0 {
        let init = s.drop_last();
        law_collapsed_has_no_double_slash(init);
        let prev = slashes_collapsed(init);
        let all = slashes_collapsed(s);
        if init.len() > 0 {
            assert(init.last() == s[s.len() - 2]);
        }
        if s.last() == '/' && s.len() >= 2 && s[s.len() - 2] == '/' {
            assert(all == prev);
            assert(prev.len() > 0) by {
                if prev.len() == 0 {
                    law_collapsed_nonempty(init);
                }
            }
        } else {
            assert(all == prev.push(s.last()));
            assert forall|i: int| 0 < i < all.len() && #[trigger] all[i] == '/' implies all[i - 1]
                != '/' by {
                if i == all.len() - 1 {
                    if prev.len() > 0 {
                        assert(all[i - 1] == prev.last());
                    }
                } else {
                    assert(all[i] == prev[i]);
                    assert(all[i - 1] == prev[i - 1]);
                }
            }
        }
    }
}

/// Folding keeps a non-empty text non-empty.
pub proof fn law_collapsed_nonempty(s: Seq<char>)
    ensures
        s.len() > 0 ==> slashes_collapsed(s).len() > 0,
    decreases s.len(),
{
    if s.len() > 0 {
        law_collapsed_nonempty(s.drop_last());
    }
}

} // verus!
