//! Joining path components the way a Unix path buffer does.
use vstd::prelude::*;

use crate::text::chars_of;

verus! {

/// `path` extended by the component `part`: an absolute `part` (one that starts with `/`)
/// replaces it; otherwise a `/` goes between them unless `path` is empty or already ends in one.
pub open spec fn push_component(path: Seq<char>, part: Seq<char>) -> Seq<char> {
    if part.len() > 0 && part[0] == '/' {
        part
    } else if path.len() > 0 && path.last() != '/' {
        path + seq!['/'] + part
    } else {
        path + part
    }
}

/// `base` extended by each of `parts`, in order.
pub open spec fn join_components(base: Seq<char>, parts: Seq<Seq<char>>) -> Seq<char>
    decreases parts.len(),
{
    if parts.len() == 0 {
        base
    } else {
        push_component(join_components(base, parts.drop_last()), parts.last())
    }
}

/// Extends `path` by the component `part`.
pub fn push_path_component(path: &mut String, part: &str)
    ensures
        final(path)@ == push_component(old(path)@, part@),
{
    let part_chars = chars_of(part);
    if part_chars.len() > 0 && part_chars[0] == '/' {
        *path = part.to_owned();
        return;
    }
    let path_chars = chars_of(path.as_str());
    if path_chars.len() > 0 && path_chars[path_chars.len() - 1] != '/' {
        path.push_str("/");
        proof {
            reveal_strlit("/");
        }
    }
    path.push_str(part);
    proof {
        assert(old(path)@ + seq!['/'] + part@ =~= (old(path)@ + seq!['/']) + part@);
    }
}

} // verus!
