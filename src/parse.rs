//! Reading durations (`1h30min`, `-3d`, ...) and the forms in which a point
//! in time may be given: `YYYY-MM-DD-H:MM[:SS]`, `H:MM[:SS]` today, or a
//! duration from now.

use vstd::prelude::*;
use crate::text::{all_digits, chars_of, digit_char, digits_value, int_text, is_digit, nat_text};
use crate::time::{abs, duration_text, piece_text, signed, Duration, Nice};
use vstd::arithmetic::div_mod::{lemma_fundamental_div_mod, lemma_mod_multiples_vanish};

verus! {

pub open spec fn pow10(k: nat) -> nat
    decreases k,
{
    if k == 0 { 1 } else { 10 * pow10((k - 1) as nat) }
}

pub proof fn lemma_digits_value_bound(s: Seq<char>)
    requires
        all_digits(s),
    ensures
        digits_value(s) < pow10(s.len()),
    decreases s.len(),
{
    if s.len() > 0 {
        let t = s.drop_last();
        assert(all_digits(t)) by {
            assert forall|i: int| 0 <= i < t.len() implies is_digit(#[trigger] t[i]) by {
                assert(t[i] == s[i]);
            }
        }
        lemma_digits_value_bound(t);
        assert(is_digit(s[s.len() - 1]));
        let v = digits_value(t);
        let p = pow10(t.len());
        let d = (s.last() as nat - '0' as nat) as nat;
        assert(d <= 9);
        assert(v * 10 + d < 10 * p) by (nonlinear_arith)
            requires
                v < p,
                d <= 9,
        ;
    }
}

/// Length of the run of digits at the front of `s`.
pub open spec fn digit_run(s: Seq<char>) -> nat
    decreases s.len(),
{
    if s.len() > 0 && is_digit(s[0]) { 1 + digit_run(s.drop_first()) } else { 0 }
}

proof fn lemma_digit_run(s: Seq<char>, k: int)
    requires
        0 <= k <= s.len(),
        forall|j: int| 0 <= j < k ==> is_digit(#[trigger] s[j]),
    ensures
        digit_run(s) >= k,
        (k == s.len() || !is_digit(s[k])) ==> digit_run(s) == k,
        digit_run(s) <= s.len(),
    decreases k,
{
    if k > 0 {
        let t = s.drop_first();
        assert forall|j: int| 0 <= j < k - 1 implies is_digit(#[trigger] t[j]) by {
            assert(t[j] == s[j + 1]);
        }
        assert(is_digit(s[0]));
        lemma_digit_run(t, k - 1);
        if k < s.len() {
            assert(t[k - 1] == s[k]);
        }
    } else {
        lemma_digit_run_len(s);
    }
}

proof fn lemma_digit_run_len(s: Seq<char>)
    ensures
        digit_run(s) <= s.len(),
    decreases s.len(),
{
    if s.len() > 0 {
        lemma_digit_run_len(s.drop_first());
    }
}

pub open spec fn sign_len(s: Seq<char>) -> nat {
    if s.len() > 0 && (s[0] == '+' || s[0] == '-') { 1 } else { 0 }
}

/// Length of the signed number (an optional sign, then 1 to 30 digits) at
/// the front of `s`, or 0 when there is none.
pub open spec fn number_len(s: Seq<char>) -> nat {
    let d = digit_run(s.skip(sign_len(s) as int));
    if d == 0 || d > 30 { 0 } else { sign_len(s) + d }
}

/// The value of the signed number at the front of `s`.
pub open spec fn number_value(s: Seq<char>) -> int {
    let mag = digits_value(s.subrange(sign_len(s) as int, number_len(s) as int)) as int;
    if sign_len(s) == 1 && s[0] == '-' { -mag } else { mag }
}

/// The unit at the front of `s`, if one may follow units up to `stage`:
/// its length, its stage, and its length in seconds.
pub open spec fn unit_at(s: Seq<char>, stage: nat) -> Option<(nat, nat, int)> {
    if s.len() >= 1 && s[0] == 'd' && stage < 1 {
        Some((1, 1, 86400))
    } else if s.len() >= 1 && s[0] == 'h' && stage < 2 {
        Some((1, 2, 3600))
    } else if s.len() >= 3 && s[0] == 'm' && s[1] == 'i' && s[2] == 'n' && stage < 3 {
        Some((3, 3, 60))
    } else if s.len() >= 1 && s[0] == 's' && stage < 4 {
        Some((1, 4, 1))
    } else {
        None
    }
}

/// The seconds in `s` read as a series of numbers with units, the units
/// in the order `d`, `h`, `min`, `s`, each at most once, after `stage`.
pub open spec fn units_value(s: Seq<char>, stage: nat) -> Option<int>
    decreases s.len(),
{
    if s.len() == 0 {
        Some(0)
    } else {
        let n = number_len(s);
        if n == 0 {
            None
        } else {
            match unit_at(s.skip(n as int), stage) {
                None => None,
                Some((l, st, m)) => {
                    if n + l > s.len() {
                        None
                    } else {
                        match units_value(s.skip((n + l) as int), st) {
                            Some(t) => Some(number_value(s) * m + t),
                            None => None,
                        }
                    }
                },
            }
        }
    }
}

/// The seconds a duration text stands for: days, hours, minutes and
/// seconds, each optional and signed, in that order (`1h30min`, `-11d`,
/// `3d3h123min123s`); the empty text is zero.
pub open spec fn duration_value(s: Seq<char>) -> Option<int> {
    units_value(s, 0)
}

/// Reads the signed number at `c[pos..]`: where it ends and its value.
fn scan_number(c: &Vec<char>, pos: usize) -> (r: Option<(usize, i128)>)
    requires
        pos <= c@.len(),
    ensures
        ({
            let s = c@.skip(pos as int);
            match r {
                None => number_len(s) == 0,
                Some((end, v)) => number_len(s) > 0 && end == pos + number_len(s) && end <= c@.len() && v == number_value(s)
                    && -1_000_000_000_000_000_000_000_000_000_000 < v < 1_000_000_000_000_000_000_000_000_000_000,
            }
        }),
{
    let ghost s = c@.skip(pos as int);
    let n = c.len();
    let neg = pos < n && c[pos] == '-';
    let sl: usize = if pos < n && (c[pos] == '+' || c[pos] == '-') { 1 } else { 0 };
    assert(sl == sign_len(s));
    let q = pos + sl;
    let ghost t = s.skip(sl as int);
    let mut k: usize = 0;
    let mut v: u128 = 0;
    while q + k < n && k <= 30 && '0' <= c[q + k] && c[q + k] <= '9'
        invariant
            q <= n,
            n == c@.len(),
            s == c@.skip(pos as int),
            t == s.skip(sl as int),
            q == pos + sl,
            k <= 31,
            q + k <= n,
            forall|j: int| 0 <= j < k ==> is_digit(#[trigger] t[j]),
            k <= 30 ==> v as nat == digits_value(t.subrange(0, k as int)),
            k <= 30 ==> v < pow10(k as nat),
        decreases n - (q + k),
    {
        assert(t[k as int] == c@[q + k]);
        if k < 30 {
            let d: u128 = (c[q + k] as u128) - ('0' as u128);
            assert(t.subrange(0, k as int + 1).drop_last() =~= t.subrange(0, k as int));
            assert(v * 10 + d < pow10(k as nat) * 10) by (nonlinear_arith)
                requires
                    v < pow10(k as nat),
                    d <= 9,
            ;
            assert(pow10(k as nat + 1) == 10 * pow10(k as nat));
            assert(pow10(k as nat) <= 100_000_000_000_000_000_000_000_000_000) by {
                lemma_pow10_mono(k as nat, 29);
                lemma_pow10_values();
            }
            v = v * 10 + d;
        }
        k = k + 1;
    }
    proof {
        lemma_digit_run(t, k as int);
        if q + k < n && k <= 30 {
            assert(t[k as int] == c@[q + k]);
        }
    }
    if k == 0 || k > 30 {
        return None;
    }
    proof {
        assert(number_len(s) == sl + k);
        assert(s.subrange(sl as int, (sl + k) as int) =~= t.subrange(0, k as int));
        lemma_pow10_mono(k as nat, 30);
        lemma_pow10_values();
        if neg {
            assert(s[0] == '-');
        }
    }
    let value: i128 = if neg { -(v as i128) } else { v as i128 };
    Some((q + k, value))
}

proof fn lemma_pow10_values()
    ensures
        pow10(4) == 10_000,
        pow10(29) == 100_000_000_000_000_000_000_000_000_000,
        pow10(30) == 1_000_000_000_000_000_000_000_000_000_000,
{
    reveal_with_fuel(pow10, 31);
}

proof fn lemma_pow10_mono(a: nat, b: nat)
    requires
        a <= b,
    ensures
        pow10(a) <= pow10(b),
    decreases b,
{
    if a < b {
        lemma_pow10_mono(a, (b - 1) as nat);
    }
}

/// The unit at `c[pos..]` that may follow `stage`.
fn scan_unit(c: &Vec<char>, pos: usize, stage: u8) -> (r: Option<(usize, u8, i128)>)
    requires
        pos <= c@.len(),
    ensures
        match unit_at(c@.skip(pos as int), stage as nat) {
            None => r is None,
            Some((l, st, m)) => r == Some((l as usize, st as u8, m as i128)),
        },
{
    let ghost s = c@.skip(pos as int);
    let n = c.len();
    if pos < n {
        assert(s[0] == c@[pos as int]);
    }
    if n - pos > 2 {
        assert(s[1] == c@[pos + 1]);
        assert(s[2] == c@[pos + 2]);
    }
    if pos < n && c[pos] == 'd' && stage < 1 {
        Some((1, 1, 86400))
    } else if pos < n && c[pos] == 'h' && stage < 2 {
        Some((1, 2, 3600))
    } else if n - pos > 2 && c[pos] == 'm' && c[pos + 1] == 'i' && c[pos + 2] == 'n' && stage < 3 {
        Some((3, 3, 60))
    } else if pos < n && c[pos] == 's' && stage < 4 {
        Some((1, 4, 1))
    } else {
        None
    }
}

/// Reads a duration text, as `duration_value` describes it.
pub fn parse_duration(x: &str) -> (r: Option<Duration>)
    ensures
        match duration_value(x@) {
            Some(v) => r == Some(Duration { secs: v as i128 }),
            None => r is None,
        },
{
    let c = chars_of(x);
    let n = c.len();
    let mut pos: usize = 0;
    let mut stage: u8 = 0;
    let mut total: i128 = 0;
    assert(c@.skip(0) =~= x@);
    while pos < n
        invariant
            n == c@.len(),
            c@ == x@,
            pos <= n,
            stage <= 4,
            -(stage as int) * 86_400_000_000_000_000_000_000_000_000_000_000 <= total <= (stage as int) * 86_400_000_000_000_000_000_000_000_000_000_000,
            duration_value(x@) == match units_value(c@.skip(pos as int), stage as nat) {
                Some(t) => Some(total + t),
                None => None::<int>,
            },
        decreases n - pos,
    {
        let ghost s = c@.skip(pos as int);
        match scan_number(&c, pos) {
            None => {
                return None;
            }
            Some((end, v)) => {
                assert(c@.skip(end as int) =~= s.skip(number_len(s) as int));
                match scan_unit(&c, end, stage) {
                    None => {
                        return None;
                    }
                    Some((l, st, m)) => {
                        assert(end + l <= n);
                        assert(c@.skip((end + l) as int) =~= s.skip((number_len(s) + l) as int));
                        assert(1 <= m <= 86400 && stage < st <= 4);
                        assert(-86_400_000_000_000_000_000_000_000_000_000_000 <= (v as int) * (m as int) <= 86_400_000_000_000_000_000_000_000_000_000_000) by (nonlinear_arith)
                            requires
                                -1_000_000_000_000_000_000_000_000_000_000 < v < 1_000_000_000_000_000_000_000_000_000_000,
                                1 <= m <= 86400,
                        ;
                        let term: i128 = v * m;
                        total = total + term;
                        stage = st;
                        pos = end + l;
                    }
                }
            }
        }
    }
    assert(c@.skip(pos as int).len() == 0);
    Some(Duration { secs: total })
}

proof fn lemma_digit_char(d: nat)
    requires
        d < 10,
    ensures
        is_digit(digit_char(d)),
        (digit_char(d) as nat - '0' as nat) == d,
{
    if d == 0 {} else if d == 1 {} else if d == 2 {} else if d == 3 {} else if d == 4 {}
    else if d == 5 {} else if d == 6 {} else if d == 7 {} else if d == 8 {} else {}
}

proof fn lemma_nat_text(n: nat)
    ensures
        nat_text(n).len() > 0,
        all_digits(nat_text(n)),
        digits_value(nat_text(n)) == n,
    decreases n,
{
    let t = nat_text(n);
    if n < 10 {
        lemma_digit_char(n);
        assert(t.drop_last() =~= Seq::<char>::empty());
        assert(digits_value(t.drop_last()) == 0);
        assert(t[0] == digit_char(n));
    } else {
        lemma_nat_text(n / 10);
        lemma_digit_char(n % 10);
        assert(t.drop_last() =~= nat_text(n / 10));
        assert(t.last() == digit_char(n % 10));
        assert forall|i: int| 0 <= i < t.len() implies is_digit(#[trigger] t[i]) by {
            if i < t.len() - 1 {
                assert(t[i] == nat_text(n / 10)[i]);
            }
        }
        lemma_fundamental_div_mod(n as int, 10);
    }
}

proof fn lemma_nat_text_len(n: nat, k: nat)
    requires
        1 <= k,
        n < pow10(k),
    ensures
        nat_text(n).len() <= k,
    decreases k,
{
    if n >= 10 {
        assert(pow10(1) == 10) by {
            reveal_with_fuel(pow10, 2);
        }
        if k == 1 {
            assert(false);
        }
        let p = pow10((k - 1) as nat);
        assert(pow10(k) == 10 * p);
        assert(n / 10 < p) by (nonlinear_arith)
            requires
                n < 10 * p,
        ;
        lemma_nat_text_len(n / 10, (k - 1) as nat);
    }
}

proof fn lemma_digit_run_concat(a: Seq<char>, r: Seq<char>)
    requires
        all_digits(a),
        r.len() == 0 || !is_digit(r[0]),
    ensures
        digit_run(a + r) == a.len(),
    decreases a.len(),
{
    if a.len() > 0 {
        assert((a + r).drop_first() =~= a.drop_first() + r);
        assert((a + r)[0] == a[0]);
        assert(is_digit(a[0]));
        assert forall|i: int| 0 <= i < a.drop_first().len() implies is_digit(#[trigger] a.drop_first()[i]) by {
            assert(a.drop_first()[i] == a[i + 1]);
        }
        lemma_digit_run_concat(a.drop_first(), r);
    } else {
        assert(a + r =~= r);
    }
}

/// The number written by `int_text` reads back, when a non-digit follows.
proof fn lemma_number(x: int, r: Seq<char>)
    requires
        -pow10(30) < x < pow10(30),
        r.len() > 0,
        !is_digit(r[0]),
    ensures
        number_len(int_text(x) + r) == int_text(x).len(),
        number_value(int_text(x) + r) == x,
        (int_text(x) + r).skip(int_text(x).len() as int) == r,
{
    let m: nat = if x < 0 { (-x) as nat } else { x as nat };
    let a = nat_text(m);
    let s = int_text(x) + r;
    lemma_nat_text(m);
    lemma_nat_text_len(m, 30);
    assert(is_digit(a[0]));
    assert(s.skip(int_text(x).len() as int) =~= r);
    if x < 0 {
        assert(int_text(x) == seq!['-'] + a);
        assert(s[0] == '-');
        assert(s.skip(1) =~= a + r);
        lemma_digit_run_concat(a, r);
        assert(s.subrange(1, 1 + a.len() as int) =~= a);
    } else {
        assert(int_text(x) == a);
        assert(s[0] == a[0]);
        assert(s.skip(0) =~= a + r);
        lemma_digit_run_concat(a, r);
        assert(s.subrange(0, a.len() as int) =~= a);
    }
}

/// A number followed by a unit reads as that many of the unit, then the rest.
proof fn lemma_piece(x: int, u: Seq<char>, rest: Seq<char>, st: nat)
    requires
        -pow10(30) < x < pow10(30),
        u.len() > 0,
        !is_digit(u[0]),
        unit_at(u + rest, st) matches Some((l, _, _)) && l == u.len(),
    ensures
        units_value(int_text(x) + u + rest, st) == match unit_at(u + rest, st) {
            Some((l, st2, m)) => match units_value(rest, st2) {
                Some(t) => Some(x * m + t),
                None => None::<int>,
            },
            None => None::<int>,
        },
{
    let s = int_text(x) + u + rest;
    let n = int_text(x).len();
    assert(s =~= int_text(x) + (u + rest));
    assert((u + rest)[0] == u[0]);
    lemma_number(x, u + rest);
    assert(s.skip((n + u.len()) as int) =~= rest);
}

proof fn lemma_tail_s(sv: int, st: nat)
    requires
        st < 4,
        -60 < sv < 60,
    ensures
        units_value(piece_text(sv, seq!['s']), st) == Some(sv),
{
    lemma_pow10_values();
    if sv != 0 {
        let e = Seq::<char>::empty();
        assert(piece_text(sv, seq!['s']) =~= int_text(sv) + seq!['s'] + e);
        assert(seq!['s'] + e =~= seq!['s']);
        lemma_piece(sv, seq!['s'], e, st);
        assert((seq!['s'] + e)[0] == 's');
        assert(unit_at(seq!['s'] + e, st) == Some((1nat, 4nat, 1int)));
        assert(units_value(e, 4) == Some(0int));
        assert(units_value(int_text(sv) + seq!['s'] + e, st) == Some(sv * 1 + 0));
    } else {
        assert(piece_text(sv, seq!['s']) =~= Seq::<char>::empty());
        assert(units_value(Seq::<char>::empty(), st) == Some(0int));
    }
}

proof fn lemma_tail_m(mv: int, sv: int, st: nat)
    requires
        st < 3,
        -60 < mv < 60,
        -60 < sv < 60,
    ensures
        units_value(piece_text(mv, seq!['m', 'i', 'n']) + piece_text(sv, seq!['s']), st) == Some(mv * 60 + sv),
{
    lemma_pow10_values();
    let rest = piece_text(sv, seq!['s']);
    let u = seq!['m', 'i', 'n'];
    if mv == 0 {
        assert(piece_text(mv, u) + rest =~= rest);
        lemma_tail_s(sv, st);
    } else {
        assert(piece_text(mv, u) + rest =~= int_text(mv) + u + rest);
        assert((u + rest)[0] == 'm' && (u + rest)[1] == 'i' && (u + rest)[2] == 'n');
        lemma_piece(mv, u, rest, st);
        lemma_tail_s(sv, 3);
    }
}

proof fn lemma_tail_h(hv: int, mv: int, sv: int)
    requires
        -pow10(30) < hv < pow10(30),
        -60 < mv < 60,
        -60 < sv < 60,
    ensures
        units_value(piece_text(hv, seq!['h']) + (piece_text(mv, seq!['m', 'i', 'n']) + piece_text(sv, seq!['s'])), 0)
            == Some(hv * 3600 + mv * 60 + sv),
{
    let rest = piece_text(mv, seq!['m', 'i', 'n']) + piece_text(sv, seq!['s']);
    let u = seq!['h'];
    if hv == 0 {
        assert(piece_text(hv, u) + rest =~= rest);
        lemma_tail_m(mv, sv, 0);
    } else {
        assert(piece_text(hv, u) + rest =~= int_text(hv) + u + rest);
        assert((u + rest)[0] == 'h');
        lemma_piece(hv, u, rest, 0);
        lemma_tail_m(mv, sv, 2);
    }
}

/// The text of a duration reads back as the same duration.
pub proof fn lemma_duration_round_trip(d: Duration)
    requires
        d.wf(),
    ensures
        duration_value(d.nice_spec()) == Some(d.secs as int),
{
    lemma_pow10_values();
    let secs = d.secs as int;
    if secs == 0 {
        let e = Seq::<char>::empty();
        assert(int_text(0) =~= seq!['0']);
        assert(duration_text(0) =~= int_text(0) + seq!['s'] + e);
        assert(seq!['s'] + e =~= seq!['s']);
        lemma_piece(0, seq!['s'], e, 0);
        assert(units_value(e, 4) == Some(0int));
    } else {
        let a = abs(secs);
        let neg = secs < 0;
        let q1 = a / 3600;
        let r1 = a % 3600;
        lemma_fundamental_div_mod(a, 3600);
        lemma_fundamental_div_mod(r1, 60);
        lemma_mod_multiples_vanish(60 * q1, r1, 60);
        assert(a == 60 * (60 * q1) + r1);
        assert(a % 60 == r1 % 60);
        let hv = signed(neg, q1);
        let mv = signed(neg, r1 / 60);
        let sv = signed(neg, a % 60);
        assert(q1 < pow10(30));
        assert(duration_text(secs) =~= piece_text(hv, seq!['h'])
            + (piece_text(mv, seq!['m', 'i', 'n']) + piece_text(sv, seq!['s'])));
        lemma_tail_h(hv, mv, sv);
        assert(hv * 3600 + mv * 60 + sv == secs);
    }
}

/// The numbers of a time of day `H:MM` or `H:MM:SS`, the hour having one
/// or two digits; the seconds are 0 when absent.
pub open spec fn clock_fields(s: Seq<char>) -> Option<(nat, nat, nat)> {
    let hl: int = if s.len() > 1 && s[1] == ':' { 1 } else { 2 };
    if !(s.len() == hl + 3 || s.len() == hl + 6) {
        None
    } else if !all_digits(s.subrange(0, hl)) || s[hl] != ':' || !all_digits(s.subrange(hl + 1, hl + 3)) {
        None
    } else if s.len() == hl + 6 && (s[hl + 3] != ':' || !all_digits(s.subrange(hl + 4, hl + 6))) {
        None
    } else {
        Some((
            digits_value(s.subrange(0, hl)),
            digits_value(s.subrange(hl + 1, hl + 3)),
            if s.len() == hl + 6 { digits_value(s.subrange(hl + 4, hl + 6)) } else { 0 },
        ))
    }
}

/// The numbers of a date and time `YYYY-MM-DD-H:MM[:SS]`.
pub open spec fn datetime_fields(s: Seq<char>) -> Option<(nat, nat, nat, nat, nat, nat)> {
    if s.len() < 11 || !all_digits(s.subrange(0, 4)) || s[4] != '-' || !all_digits(s.subrange(5, 7))
        || s[7] != '-' || !all_digits(s.subrange(8, 10)) || s[10] != '-' {
        None
    } else {
        match clock_fields(s.skip(11)) {
            Some((h, mi, se)) => Some((
                digits_value(s.subrange(0, 4)),
                digits_value(s.subrange(5, 7)),
                digits_value(s.subrange(8, 10)),
                h,
                mi,
                se,
            )),
            None => None,
        }
    }
}

/// A point in time as given in text, before it is placed in the local
/// time zone.
#[derive(Clone, Copy, Debug, PartialEq, Eq, Structural)]
pub enum TimeText {
    /// A local date and time.
    At { year: u32, month: u32, day: u32, hour: u32, minute: u32, second: u32 },
    /// A local time of day, today.
    Today { hour: u32, minute: u32, second: u32 },
    /// A duration from now.
    Relative(Duration),
}

/// The form of `s`: a date and time, else a time of day, else a duration.
pub open spec fn time_text(s: Seq<char>) -> Option<TimeText> {
    if let Some((y, mo, d, h, mi, se)) = datetime_fields(s) {
        Some(TimeText::At { year: y as u32, month: mo as u32, day: d as u32, hour: h as u32, minute: mi as u32, second: se as u32 })
    } else if let Some((h, mi, se)) = clock_fields(s) {
        Some(TimeText::Today { hour: h as u32, minute: mi as u32, second: se as u32 })
    } else if let Some(v) = duration_value(s) {
        Some(TimeText::Relative(Duration { secs: v as i128 }))
    } else {
        None
    }
}

/// The value of the digits `c[from..to]`, if all are digits.
fn digits_at(c: &Vec<char>, from: usize, to: usize) -> (r: Option<u32>)
    requires
        from <= to <= c@.len(),
        to - from <= 4,
    ensures
        r is Some <==> all_digits(c@.subrange(from as int, to as int)),
        r matches Some(v) ==> v as nat == digits_value(c@.subrange(from as int, to as int)),
{
    let ghost s = c@.subrange(from as int, to as int);
    let mut v: u32 = 0;
    let mut i: usize = from;
    while i < to
        invariant
            from <= i <= to,
            to <= c@.len(),
            to - from <= 4,
            s == c@.subrange(from as int, to as int),
            all_digits(c@.subrange(from as int, i as int)),
            v as nat == digits_value(c@.subrange(from as int, i as int)),
            v < pow10((i - from) as nat),
        decreases to - i,
    {
        let ch = c[i];
        let ghost p = c@.subrange(from as int, i as int + 1);
        assert(p.drop_last() =~= c@.subrange(from as int, i as int));
        if !('0' <= ch && ch <= '9') {
            assert(s[i - from] == ch);
            return None;
        }
        let d: u32 = (ch as u32) - ('0' as u32);
        assert(v * 10 + d < pow10((i - from) as nat) * 10) by (nonlinear_arith)
            requires
                v < pow10((i - from) as nat),
                d <= 9,
        ;
        assert(pow10((i - from + 1) as nat) == 10 * pow10((i - from) as nat));
        proof {
            lemma_pow10_mono((i - from + 1) as nat, 4);
            reveal_with_fuel(pow10, 5);
            assert(pow10(4) == 10000);
        }
        v = v * 10 + d;
        assert forall|j: int| 0 <= j < p.len() implies is_digit(#[trigger] p[j]) by {
            if j < p.len() - 1 {
                assert(p[j] == p.drop_last()[j]);
            }
        }
        i = i + 1;
    }
    Some(v)
}

/// Reads `H:MM[:SS]` at `c[from..]`.
fn scan_clock(c: &Vec<char>, from: usize) -> (r: Option<(u32, u32, u32)>)
    requires
        from <= c@.len(),
    ensures
        match clock_fields(c@.skip(from as int)) {
            Some((h, mi, se)) => r == Some((h as u32, mi as u32, se as u32)),
            None => r is None,
        },
{
    let ghost s = c@.skip(from as int);
    let n = c.len() - from;
    let hl: usize = if n > 1 && c[from + 1] == ':' { 1 } else { 2 };
    if n > 1 {
        assert(s[1] == c@[from + 1]);
    }
    if !(n == hl + 3 || n == hl + 6) {
        return None;
    }
    assert(s[hl as int] == c@[from + hl]);
    assert(c@.subrange(from as int, (from + hl) as int) =~= s.subrange(0, hl as int));
    assert(c@.subrange((from + hl + 1) as int, (from + hl + 3) as int) =~= s.subrange(hl + 1, hl + 3));
    let h = digits_at(c, from, from + hl);
    let mi = digits_at(c, from + hl + 1, from + hl + 3);
    if h.is_none() || c[from + hl] != ':' || mi.is_none() {
        return None;
    }
    let mut se: u32 = 0;
    if n == hl + 6 {
        assert(s[hl + 3] == c@[from + hl + 3]);
        assert(c@.subrange((from + hl + 4) as int, (from + hl + 6) as int) =~= s.subrange(hl + 4, hl + 6));
        if c[from + hl + 3] != ':' {
            return None;
        }
        match digits_at(c, from + hl + 4, from + hl + 6) {
            Some(v) => {
                se = v;
            }
            None => {
                return None;
            }
        }
    }
    proof {
        lemma_digits_value_bound(s.subrange(0, hl as int));
        lemma_digits_value_bound(s.subrange(hl + 1, hl + 3));
        if n == hl + 6 {
            lemma_digits_value_bound(s.subrange(hl + 4, hl + 6));
        }
    }
    Some((h.unwrap(), mi.unwrap(), se))
}

/// Reads the form of a point in time given as text.
pub fn parse_time_text(x: &str) -> (r: Option<TimeText>)
    ensures
        r == time_text(x@),
{
    let c = chars_of(x);
    let n = c.len();
    assert(c@.skip(0) =~= x@);
    if n >= 11 {
        let y = digits_at(&c, 0, 4);
        let mo = digits_at(&c, 5, 7);
        let d = digits_at(&c, 8, 10);
        if y.is_some() && c[4] == '-' && mo.is_some() && c[7] == '-' && d.is_some() && c[10] == '-' {
            match scan_clock(&c, 11) {
                Some((h, mi, se)) => {
                    return Some(TimeText::At {
                        year: y.unwrap(),
                        month: mo.unwrap(),
                        day: d.unwrap(),
                        hour: h,
                        minute: mi,
                        second: se,
                    });
                }
                None => {}
            }
        }
    }
    match scan_clock(&c, 0) {
        Some((h, mi, se)) => {
            return Some(TimeText::Today { hour: h, minute: mi, second: se });
        }
        None => {}
    }
    match parse_duration(x) {
        Some(d) => Some(TimeText::Relative(d)),
        None => None,
    }
}

} // verus!
