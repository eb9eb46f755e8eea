use vstd::prelude::*;

use crate::text::{
    chars_eq_ignore_ascii_case, chars_of, contains_chars_ignore_ascii_case,
    contains_ignore_ascii_case, eq_ignore_ascii_case, find_last, last_index_of,
};

verus! {

/// The extension of a file name: what follows its last `.`, or nothing when it has none.
pub open spec fn extension_of(name: Seq<char>) -> Seq<char> {
    let dot = last_index_of(name, '.');
    if dot < 0 {
        Seq::empty()
    } else {
        name.subrange(dot + 1, name.len() as int)
    }
}

/// Which files a view shows: by extension, by size bounds (0 means unbounded) and by a
/// substring of the name.
#[derive(Clone)]
pub struct FilterConfig {
    pub extensions: Vec<String>,
    pub min_size: u64,
    pub max_size: u64,
    pub name_pattern: String,
}

impl FilterConfig {
    /// Some criterion of the filter is set.
    pub open spec fn spec_is_active(&self) -> bool {
        ||| self.extensions@.len() > 0
        ||| self.min_size > 0
        ||| self.max_size > 0
        ||| self.name_pattern@.len() > 0
    }

    /// One of the filter's extensions equals `extension`, up to ASCII case.
    pub open spec fn lists_extension(&self, extension: Seq<char>) -> bool {
        exists|i: int|
            0 <= i < self.extensions@.len() && #[trigger] eq_ignore_ascii_case(
                self.extensions@[i]@,
                extension,
            )
    }

    /// A file of this name and size passes every criterion that is set.
    pub open spec fn spec_matches_file(&self, name: Seq<char>, size: u64) -> bool {
        &&& !(self.min_size > 0 && size < self.min_size)
        &&& !(self.max_size > 0 && size > self.max_size)
        &&& (self.name_pattern@.len() == 0 || contains_ignore_ascii_case(
            name,
            self.name_pattern@,
        ))
        &&& (self.extensions@.len() == 0 || self.lists_extension(extension_of(name)))
    }

    pub fn is_active(&self) -> (active: bool)
        ensures
            active == self.spec_is_active(),
    {
        !self.extensions.is_empty() || self.min_size > 0 || self.max_size > 0
            || !self.name_pattern.as_str().is_empty()
    }

    pub fn matches_file(&self, name: &str, size: u64) -> (matches: bool)
        ensures
            matches == self.spec_matches_file(name@, size),
    {
        if self.min_size > 0 && size < self.min_size {
            return false;
        }
        if self.max_size > 0 && size > self.max_size {
            return false;
        }
        let name_chars = chars_of(name);
        if !self.name_pattern.as_str().is_empty() {
            let pattern = chars_of(self.name_pattern.as_str());
            if !contains_chars_ignore_ascii_case(name_chars.as_slice(), pattern.as_slice()) {
                return false;
            }
        }
        if !self.extensions.is_empty() {
            proof {
                crate::text::lemma_last_index_of(name@, '.');
            }
            let extension: Vec<char> = match find_last(name_chars.as_slice(), '.') {
                Some(dot) => slice_from(&name_chars, dot + 1),
                None => Vec::new(),
            };
            assert(extension@ == extension_of(name@));
            let mut i: usize = 0;
            while i < self.extensions.len()
                invariant
                    i <= self.extensions@.len(),
                    extension@ == extension_of(name@),
                    !(self.min_size > 0 && size < self.min_size),
                    !(self.max_size > 0 && size > self.max_size),
                    self.name_pattern@.len() == 0 || contains_ignore_ascii_case(
                        name@,
                        self.name_pattern@,
                    ),
                    forall|k: int|
                        0 <= k < i ==> !#[trigger] eq_ignore_ascii_case(
                            self.extensions@[k]@,
                            extension@,
                        ),
                decreases self.extensions@.len() - i,
            {
                let listed = chars_of(self.extensions[i].as_str());
                if chars_eq_ignore_ascii_case(listed.as_slice(), extension.as_slice()) {
                    assert(eq_ignore_ascii_case(self.extensions@[i as int]@, extension@));
                    return true;
                }
                i += 1;
            }
            return false;
        }
        true
    }
}

impl Default for FilterConfig {
    /// The filter with no criterion set.
    fn default() -> (filter: FilterConfig)
        ensures
            filter.extensions@.len() == 0,
            filter.min_size == 0,
            filter.max_size == 0,
            filter.name_pattern@.len() == 0,
    {
        FilterConfig {
            extensions: Vec::new(),
            min_size: 0,
            max_size: 0,
            name_pattern: String::new(),
        }
    }
}

/// The elements of `v` from `start` on.
pub fn slice_from(v: &Vec<char>, start: usize) -> (out: Vec<char>)
    requires
        start <= v@.len(),
    ensures
        out@ == v@.subrange(start as int, v@.len() as int),
{
    let mut out: Vec<char> = Vec::new();
    let mut i = start;
    while i < v.len()
        invariant
            start <= i <= v@.len(),
            out@ == v@.subrange(start as int, i as int),
        decreases v@.len() - i,
    {
        out.push(v[i]);
        assert(out@ =~= v@.subrange(start as int, i + 1));
        i += 1;
    }
    out
}

/// A filter with no criterion set passes every file.
pub proof fn law_inactive_filter_matches_everything(filter: FilterConfig, name: Seq<char>, size: u64)
    requires
        !filter.spec_is_active(),
    ensures
        filter.spec_matches_file(name, size),
{
}

} // verus!
