//! Where task records live: each task in a file named after its identifier,
//! with the record extension, below the data directory.

use vstd::prelude::*;
use crate::text::{chars_of, push_str, string_from_chars};

verus! {

/// The extension of record files.
pub const RECORD_SUFFIX: &'static str = ".toml";

/// The identifier without its leading `/`, if it has one.
pub open spec fn relative_id(id: Seq<char>) -> Seq<char> {
    if id.len() > 0 && id[0] == '/' { id.drop_first() } else { id }
}

/// The path of a task's record file, relative to the data directory.
pub fn record_file(id: &str) -> (r: String)
    ensures
        r@ == relative_id(id@) + RECORD_SUFFIX@,
{
    let c = chars_of(id);
    let mut out: Vec<char> = Vec::new();
    let start: usize = if c.len() > 0 && c[0] == '/' { 1 } else { 0 };
    let mut i: usize = start;
    while i < c.len()
        invariant
            c@ == id@,
            start <= i <= c@.len(),
            out@ == id@.subrange(start as int, i as int),
        decreases c@.len() - i,
    {
        out.push(c[i]);
        assert(id@.subrange(start as int, i as int + 1) =~= id@.subrange(start as int, i as int).push(id@[i as int]));
        i = i + 1;
    }
    assert(relative_id(id@) =~= id@.subrange(start as int, id@.len() as int));
    push_str(&mut out, RECORD_SUFFIX);
    string_from_chars(&out)
}

/// The identifier of the record file at `rel`, a path relative to the data
/// directory; `None` when it does not end with the record extension or
/// nothing precedes it.
pub fn record_id(rel: &str) -> (r: Option<String>)
    ensures
        match r {
            Some(id) => id@.len() > 0 && rel@ == id@ + RECORD_SUFFIX@,
            None => !(rel@.len() > RECORD_SUFFIX@.len()
                && rel@.subrange(rel@.len() - RECORD_SUFFIX@.len(), rel@.len() as int) == RECORD_SUFFIX@),
        },
{
    let c = chars_of(rel);
    let suffix = chars_of(RECORD_SUFFIX);
    let n = c.len();
    let m = suffix.len();
    if n <= m {
        return None;
    }
    let base = n - m;
    let mut j: usize = 0;
    while j < m
        invariant
            c@ == rel@,
            suffix@ == RECORD_SUFFIX@,
            n == c@.len(),
            m == suffix@.len(),
            base == n - m,
            j <= m,
            forall|k: int| 0 <= k < j ==> c@[base + k] == suffix@[k],
        decreases m - j,
    {
        if c[base + j] != suffix[j] {
            assert(rel@.subrange(base as int, n as int)[j as int] != RECORD_SUFFIX@[j as int]);
            return None;
        }
        j = j + 1;
    }
    let mut out: Vec<char> = Vec::new();
    let mut i: usize = 0;
    while i < base
        invariant
            c@ == rel@,
            base <= c@.len(),
            i <= base,
            out@ == rel@.subrange(0, i as int),
        decreases base - i,
    {
        out.push(c[i]);
        assert(rel@.subrange(0, i as int + 1) =~= rel@.subrange(0, i as int).push(rel@[i as int]));
        i = i + 1;
    }
    assert(rel@ =~= out@ + RECORD_SUFFIX@);
    Some(string_from_chars(&out))
}

} // verus!
