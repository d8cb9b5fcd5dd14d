//! The report options a caller picks by name, and whole-number arguments.

use vstd::prelude::*;
use crate::text::{all_digits, digits_value, is_digit};

verus! {

/// Columns of the status report.
#[derive(Clone, Copy, Debug, PartialEq, Eq, Structural)]
pub enum StatusProperties {
    Id,
    Title,
    Start,
    End,
    Effort,
    TotalEffort,
}

/// Columns of a listing.
#[derive(Clone, Copy, Debug, PartialEq, Eq, Structural)]
pub enum ListProperties {
    Id,
    Title,
    Start,
    End,
    Effort,
}

/// How a listing is laid out.
#[derive(Clone, Copy, Debug, PartialEq, Eq, Structural)]
pub enum ListMode {
    GroupByDay,
    Plain,
    Daily,
}

/// The form in which a listing is written.
#[derive(Clone, Copy, Debug, PartialEq, Eq, Structural)]
pub enum ListFormat {
    Table,
    JsonLines,
    Csv,
}

/// `s` equals the literal `lit`.
pub fn str_eq(s: &str, lit: &str) -> (r: bool)
    ensures
        r == (s@ == lit@),
{
    let n = s.unicode_len();
    let m = lit.unicode_len();
    if n != m {
        return false;
    }
    let mut i: usize = 0;
    while i < n
        invariant
            n == s@.len(),
            m == lit@.len(),
            n == m,
            i <= n,
            forall|k: int| 0 <= k < i ==> s@[k] == lit@[k],
        decreases n - i,
    {
        if s.get_char(i) != lit.get_char(i) {
            return false;
        }
        i = i + 1;
    }
    assert(s@ =~= lit@);
    true
}

impl StatusProperties {
    pub open spec fn named(s: Seq<char>) -> Option<StatusProperties> {
        if s == "id"@ { Some(StatusProperties::Id) }
        else if s == "title"@ { Some(StatusProperties::Title) }
        else if s == "start"@ { Some(StatusProperties::Start) }
        else if s == "end"@ { Some(StatusProperties::End) }
        else if s == "effort"@ { Some(StatusProperties::Effort) }
        else if s == "total-effort"@ { Some(StatusProperties::TotalEffort) }
        else { None }
    }

    /// The column named `s`; the name is handed back when it is unknown.
    pub fn parse(s: &str) -> (r: Result<StatusProperties, String>)
        ensures
            match Self::named(s@) {
                Some(p) => r == Ok::<StatusProperties, String>(p),
                None => r matches Err(e) && e@ == s@,
            },
    {
        if str_eq(s, "id") { Ok(StatusProperties::Id) }
        else if str_eq(s, "title") { Ok(StatusProperties::Title) }
        else if str_eq(s, "start") { Ok(StatusProperties::Start) }
        else if str_eq(s, "end") { Ok(StatusProperties::End) }
        else if str_eq(s, "effort") { Ok(StatusProperties::Effort) }
        else if str_eq(s, "total-effort") { Ok(StatusProperties::TotalEffort) }
        else { Err(s.to_owned()) }
    }
}

impl ListProperties {
    pub open spec fn named(s: Seq<char>) -> Option<ListProperties> {
        if s == "id"@ { Some(ListProperties::Id) }
        else if s == "title"@ { Some(ListProperties::Title) }
        else if s == "start"@ { Some(ListProperties::Start) }
        else if s == "end"@ { Some(ListProperties::End) }
        else if s == "effort"@ { Some(ListProperties::Effort) }
        else { None }
    }

    /// The column named `s`; the name is handed back when it is unknown.
    pub fn parse(s: &str) -> (r: Result<ListProperties, String>)
        ensures
            match Self::named(s@) {
                Some(p) => r == Ok::<ListProperties, String>(p),
                None => r matches Err(e) && e@ == s@,
            },
    {
        if str_eq(s, "id") { Ok(ListProperties::Id) }
        else if str_eq(s, "title") { Ok(ListProperties::Title) }
        else if str_eq(s, "start") { Ok(ListProperties::Start) }
        else if str_eq(s, "end") { Ok(ListProperties::End) }
        else if str_eq(s, "effort") { Ok(ListProperties::Effort) }
        else { Err(s.to_owned()) }
    }
}

impl ListMode {
    pub open spec fn named(s: Seq<char>) -> Option<ListMode> {
        if s == "group-by-day"@ { Some(ListMode::GroupByDay) }
        else if s == "plain"@ { Some(ListMode::Plain) }
        else if s == "daily"@ { Some(ListMode::Daily) }
        else { None }
    }

    /// The mode named `s`; the name is handed back when it is unknown.
    pub fn parse(s: &str) -> (r: Result<ListMode, String>)
        ensures
            match Self::named(s@) {
                Some(p) => r == Ok::<ListMode, String>(p),
                None => r matches Err(e) && e@ == s@,
            },
    {
        if str_eq(s, "group-by-day") { Ok(ListMode::GroupByDay) }
        else if str_eq(s, "plain") { Ok(ListMode::Plain) }
        else if str_eq(s, "daily") { Ok(ListMode::Daily) }
        else { Err(s.to_owned()) }
    }
}

impl ListFormat {
    pub open spec fn named(s: Seq<char>) -> Option<ListFormat> {
        if s == "table"@ { Some(ListFormat::Table) }
        else if s == "json-lines"@ { Some(ListFormat::JsonLines) }
        else if s == "csv"@ { Some(ListFormat::Csv) }
        else { None }
    }

    /// The format named `s`; the name is handed back when it is unknown.
    pub fn parse(s: &str) -> (r: Result<ListFormat, String>)
        ensures
            match Self::named(s@) {
                Some(p) => r == Ok::<ListFormat, String>(p),
                None => r matches Err(e) && e@ == s@,
            },
    {
        if str_eq(s, "table") { Ok(ListFormat::Table) }
        else if str_eq(s, "json-lines") { Ok(ListFormat::JsonLines) }
        else if str_eq(s, "csv") { Ok(ListFormat::Csv) }
        else { Err(s.to_owned()) }
    }
}

impl std::str::FromStr for StatusProperties {
    type Err = String;

    fn from_str(s: &str) -> Result<StatusProperties, String> {
        StatusProperties::parse(s)
    }
}

impl std::str::FromStr for ListProperties {
    type Err = String;

    fn from_str(s: &str) -> Result<ListProperties, String> {
        ListProperties::parse(s)
    }
}

impl std::str::FromStr for ListMode {
    type Err = String;

    fn from_str(s: &str) -> Result<ListMode, String> {
        ListMode::parse(s)
    }
}

impl std::str::FromStr for ListFormat {
    type Err = String;

    fn from_str(s: &str) -> Result<ListFormat, String> {
        ListFormat::parse(s)
    }
}

/// The digits of a whole-number argument: the text after an optional `+`.
pub open spec fn unsigned_digits(s: Seq<char>) -> Seq<char> {
    if s.len() > 0 && s[0] == '+' { s.drop_first() } else { s }
}

/// `s` is an optional `+` and one or more digits, of a value that fits in
/// `usize`.
pub open spec fn is_usize_text(s: Seq<char>) -> bool {
    let d = unsigned_digits(s);
    d.len() > 0 && all_digits(d) && digits_value(d) <= usize::MAX
}

pub proof fn lemma_digits_value_prefix(s: Seq<char>, k: int)
    requires
        0 <= k <= s.len(),
        all_digits(s),
    ensures
        digits_value(s.subrange(0, k)) <= digits_value(s),
    decreases s.len(),
{
    if k < s.len() {
        assert(s.drop_last().subrange(0, k) =~= s.subrange(0, k));
        lemma_digits_value_prefix(s.drop_last(), k);
    } else {
        assert(s.subrange(0, k) =~= s);
    }
}

/// Reads a whole number: an optional `+` and then one or more decimal
/// digits, with a value that fits in `usize`. The text is handed back when
/// it is not one.
pub fn parse_usize(s: &str) -> (r: Result<usize, String>)
    ensures
        r is Ok <==> is_usize_text(s@),
        r matches Ok(n) ==> n as nat == digits_value(unsigned_digits(s@)),
        r matches Err(e) ==> e@ == s@,
{
    let chars = crate::text::chars_of(s);
    let ghost d = unsigned_digits(s@);
    let first: usize = if chars.len() > 0 && chars[0] == '+' { 1 } else { 0 };
    assert(d =~= s@.subrange(first as int, s@.len() as int));
    if first >= chars.len() {
        return Err(s.to_owned());
    }
    let mut acc: usize = 0;
    let mut i: usize = first;
    while i < chars.len()
        invariant
            chars@ == s@,
            first <= i <= chars@.len(),
            d == s@.subrange(first as int, s@.len() as int),
            d == unsigned_digits(s@),
            all_digits(s@.subrange(first as int, i as int)),
            acc as nat == digits_value(s@.subrange(first as int, i as int)),
        decreases chars@.len() - i,
    {
        let c = chars[i];
        assert(s@.subrange(first as int, i as int + 1).drop_last() =~= s@.subrange(first as int, i as int));
        assert(d[i - first] == c);
        if !('0' <= c && c <= '9') {
            assert(!is_digit(d[i - first]));
            return Err(s.to_owned());
        }
        let v: u32 = (c as u32) - ('0' as u32);
        let next: Option<usize> = match acc.checked_mul(10) {
            Some(t) => t.checked_add(v as usize),
            None => None,
        };
        match next {
            Some(n) => {
                acc = n;
            }
            None => {
                proof {
                    let p = s@.subrange(first as int, i as int + 1);
                    assert(p.drop_last() =~= s@.subrange(first as int, i as int));
                    assert(p.last() == c);
                    assert(digits_value(p) == digits_value(p.drop_last()) * 10 + v);
                    assert(digits_value(p) > usize::MAX);
                    if all_digits(d) {
                        assert(p =~= d.subrange(0, i - first + 1));
                        lemma_digits_value_prefix(d, i - first + 1);
                    }
                }
                return Err(s.to_owned());
            }
        }
        i = i + 1;
    }
    Ok(acc)
}

} // verus!
