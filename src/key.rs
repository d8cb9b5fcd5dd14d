//! Task identifiers: one or more segments, each an optional `/` followed by
//! a letter and then letters, digits, `_` or `-`.

use vstd::prelude::*;

verus! {

/// The identifier grammar as a regular expression.
pub const TASK_KEY_PATTERN: &'static str = "^(/?[A-Za-z][0-9A-Za-z_-]*)+$";

pub open spec fn is_letter(c: char) -> bool {
    ('A' <= c && c <= 'Z') || ('a' <= c && c <= 'z')
}

pub open spec fn is_key_char(c: char) -> bool {
    is_letter(c) || ('0' <= c && c <= '9') || c == '_' || c == '-' || c == '/'
}

/// `s` is a task identifier: non-empty, made of letters, digits, `_`, `-`
/// and `/`, starting with a letter or `/`, and with a letter right after
/// every `/` (so no trailing `/`, no empty segment, and no segment that
/// starts with `_`, `-` or `.`).
pub open spec fn is_task_key(s: Seq<char>) -> bool {
    &&& s.len() > 0
    &&& forall|i: int| 0 <= i < s.len() ==> is_key_char(#[trigger] s[i])
    &&& (s[0] == '/' || is_letter(s[0]))
    &&& forall|i: int| 0 <= i < s.len() && #[trigger] s[i] == '/' ==> i + 1 < s.len() && is_letter(s[i + 1])
}

/// Relies on `regex::Regex::new` and `Regex::is_match`: the identifier
/// pattern compiles, and an anchored match of it holds exactly for the
/// strings of the grammar above.
#[verifier::external_body]
fn regex_is_match(pattern: &str, text: &str) -> (r: Option<bool>)
    ensures
        pattern@ == TASK_KEY_PATTERN@ ==> r == Some(is_task_key(text@)),
{
    regex::Regex::new(pattern).ok().map(|re| re.is_match(text))
}

/// Accepts a task identifier; hands a rejected one back as the error.
pub fn validate_task_key(key: &str) -> (r: Result<(), String>)
    ensures
        r is Ok <==> is_task_key(key@),
        r matches Err(s) ==> s@ == key@,
{
    match regex_is_match(TASK_KEY_PATTERN, key) {
        Some(true) => Ok(()),
        _ => Err(key.to_owned()),
    }
}

} // verus!
