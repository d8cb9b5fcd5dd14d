//! Points in time with a fixed UTC offset, durations, and their text forms.

use vstd::prelude::*;
use crate::text::{int_text, push_int, push_str, string_from_chars};
use vstd::arithmetic::div_mod::{
    lemma_fundamental_div_mod, lemma_fundamental_div_mod_converse, lemma_mod_multiples_vanish,
};

verus! {

/// Largest distance from the epoch, in seconds, that a timestamp may have.
pub const MAX_SECS: i64 = 8_000_000_000_000;

/// Largest magnitude of a UTC offset, in seconds.
pub const MAX_OFFSET: i32 = 86_399;

pub const SECS_PER_DAY: i64 = 86_400;

/// Largest magnitude of a duration that reads back from its text, in
/// seconds; every total effort lies within it.
pub const MAX_DURATION: i128 = 1_000_000_000_000_000_000_000_000_000_000_000;

/// Days added before dividing so that the dividend is never negative.
const DAY_SHIFT: i64 = 100_000_000;

/// An instant, as whole seconds since the Unix epoch, together with the UTC
/// offset (seconds east) in which it was recorded.
#[derive(Clone, Copy, Debug, PartialEq, Eq, Structural)]
pub struct Timestamp {
    pub secs: i64,
    pub offset: i32,
}

/// A signed length of time in whole seconds.
#[derive(Clone, Copy, Debug, PartialEq, Eq, Structural)]
pub struct Duration {
    pub secs: i128,
}

impl Timestamp {
    /// Both fields lie in the range that timestamps can take, and the
    /// offset is a whole number of minutes, as the stored form `±HHMM`
    /// records it.
    pub open spec fn wf(&self) -> bool {
        &&& -MAX_SECS <= self.secs <= MAX_SECS
        &&& -MAX_OFFSET <= self.offset <= MAX_OFFSET
        &&& self.offset % 60 == 0
    }

    /// The calendar day, counted from 1970-01-01, of the local date at the
    /// timestamp's own offset.
    pub open spec fn local_day_spec(&self) -> int {
        (self.secs + self.offset) / (SECS_PER_DAY as int)
    }

    /// A timestamp from its parts, when they lie in range.
    pub fn new(secs: i64, offset: i32) -> (r: Option<Timestamp>)
        ensures
            r is Some <==> (Timestamp { secs, offset }).wf(),
            r is Some ==> r == Some(Timestamp { secs, offset }),
    {
        if -MAX_SECS <= secs && secs <= MAX_SECS && -MAX_OFFSET <= offset && offset <= MAX_OFFSET
            && (offset + 86_400) % 60 == 0 {
            proof {
                lemma_mod_multiples_vanish(1440, offset as int, 60);
            }
            Some(Timestamp { secs, offset })
        } else {
            proof {
                if -MAX_OFFSET <= offset <= MAX_OFFSET {
                    lemma_mod_multiples_vanish(1440, offset as int, 60);
                }
            }
            None
        }
    }

    /// The local calendar day of this timestamp.
    pub fn local_day(&self) -> (r: i64)
        requires
            self.wf(),
        ensures
            r == self.local_day_spec(),
    {
        let x: i64 = self.secs + self.offset as i64;
        let y: i64 = x + DAY_SHIFT * SECS_PER_DAY;
        let q: i64 = y / SECS_PER_DAY;
        let m: i64 = y % SECS_PER_DAY;
        proof {
            lemma_fundamental_div_mod(y as int, SECS_PER_DAY as int);
            assert(x as int == (q - DAY_SHIFT) * (SECS_PER_DAY as int) + m) by (nonlinear_arith)
                requires
                    y as int == (SECS_PER_DAY as int) * q + m,
                    y == x + DAY_SHIFT * SECS_PER_DAY,
            ;
            lemma_fundamental_div_mod_converse(x as int, SECS_PER_DAY as int, q - DAY_SHIFT, m as int);
        }
        q - DAY_SHIFT
    }

    /// Orders timestamps by the instant they denote.
    pub fn is_before(&self, other: &Timestamp) -> (r: bool)
        ensures
            r == (self.secs < other.secs),
    {
        self.secs < other.secs
    }
}

impl Duration {
    pub open spec fn wf(&self) -> bool {
        -MAX_DURATION <= self.secs <= MAX_DURATION
    }

    pub fn seconds(secs: i128) -> (r: Duration)
        ensures
            r.secs == secs,
    {
        Duration { secs }
    }

    /// The length from `from` to `to`.
    pub fn between(from: Timestamp, to: Timestamp) -> (r: Duration)
        requires
            from.wf(),
            to.wf(),
        ensures
            r.secs == to.secs - from.secs,
    {
        Duration { secs: to.secs as i128 - from.secs as i128 }
    }
}

/// `x` followed by `suffix`, or nothing when `x` is zero.
pub open spec fn piece_text(x: int, suffix: Seq<char>) -> Seq<char> {
    if x == 0 {
        Seq::empty()
    } else {
        int_text(x) + suffix
    }
}

/// `x`, negated when `neg` holds.
pub open spec fn signed(neg: bool, x: int) -> int {
    if neg { -x } else { x }
}

pub open spec fn abs(x: int) -> int {
    if x < 0 { -x } else { x }
}

/// The text of a duration: hours, minutes and seconds, each with its unit
/// suffix (`h`, `min`, `s`), zero-valued units left out, every unit carrying
/// the sign, and `0s` for zero.
pub open spec fn duration_text(secs: int) -> Seq<char> {
    if secs == 0 {
        seq!['0', 's']
    } else {
        let a = abs(secs);
        let neg = secs < 0;
        piece_text(signed(neg, a / 3600), seq!['h'])
            + piece_text(signed(neg, (a % 3600) / 60), seq!['m', 'i', 'n'])
            + piece_text(signed(neg, a % 60), seq!['s'])
    }
}

fn push_piece(out: &mut Vec<char>, x: i128, suffix: &str)
    ensures
        final(out)@ == old(out)@ + piece_text(x as int, suffix@),
{
    if x == 0 {
        assert(old(out)@ + Seq::<char>::empty() =~= old(out)@);
    } else {
        push_int(out, x);
        push_str(out, suffix);
        assert(old(out)@ + int_text(x as int) + suffix@ =~= old(out)@ + (int_text(x as int) + suffix@));
    }
}

/// One unit of a duration's text: `x` followed by `suffix`, or the empty
/// string when `x` is zero.
pub fn format_duration_piece(x: i128, suffix: &str) -> (r: String)
    ensures
        r@ == piece_text(x as int, suffix@),
{
    let mut v: Vec<char> = Vec::new();
    push_piece(&mut v, x, suffix);
    assert(Seq::<char>::empty() + piece_text(x as int, suffix@) =~= piece_text(x as int, suffix@));
    string_from_chars(&v)
}

/// Text for display and storage.
pub trait Nice {
    spec fn nice_spec(&self) -> Seq<char>;

    fn nice(&self) -> (r: String)
        ensures
            r@ == self.nice_spec(),
    ;
}

impl Nice for Duration {
    open spec fn nice_spec(&self) -> Seq<char> {
        duration_text(self.secs as int)
    }

    fn nice(&self) -> (r: String) {
        let mut v: Vec<char> = Vec::new();
        if self.secs == 0 {
            v.push('0');
            v.push('s');
            assert(v@ =~= seq!['0', 's']);
        } else {
            let neg = self.secs < 0;
            let a: u128 = if neg { ((-(self.secs + 1)) as u128) + 1 } else { self.secs as u128 };
            assert(a as int == abs(self.secs as int));
            let h: u128 = a / 3600;
            let m: u128 = (a % 3600) / 60;
            let s: u128 = a % 60;
            let (hs, ms, ss): (i128, i128, i128) = if neg {
                (-(h as i128), -(m as i128), -(s as i128))
            } else {
                (h as i128, m as i128, s as i128)
            };
            push_piece(&mut v, hs, "h");
            push_piece(&mut v, ms, "min");
            push_piece(&mut v, ss, "s");
            proof {
                reveal_strlit("h");
                reveal_strlit("min");
                reveal_strlit("s");
                assert("h"@ =~= seq!['h']);
                assert("min"@ =~= seq!['m', 'i', 'n']);
                assert("s"@ =~= seq!['s']);
                assert(v@ =~= duration_text(self.secs as int));
            }
        }
        string_from_chars(&v)
    }
}

impl<T: Nice> Nice for Option<T> {
    open spec fn nice_spec(&self) -> Seq<char> {
        match self {
            Some(x) => x.nice_spec(),
            None => Seq::empty(),
        }
    }

    fn nice(&self) -> (r: String) {
        match self {
            Some(x) => x.nice(),
            None => String::new(),
        }
    }
}

} // verus!
