//! Instants as plain calendar fields in UTC, their order, and their text forms.

use vstd::prelude::*;
use chrono::{Datelike, Timelike};

verus! {

/// An instant in UTC, held as calendar fields. `nanosecond` may reach
/// 1_999_999_999 to carry a leap second, as chrono does.
#[derive(Clone, Copy, Debug, PartialEq, Eq, Structural)]
pub struct Timestamp {
    pub year: i32,
    pub month: u32,
    pub day: u32,
    pub hour: u32,
    pub minute: u32,
    pub second: u32,
    pub nanosecond: u32,
}

impl Timestamp {
    /// The ranges that chrono documents for each field.
    pub open spec fn is_valid(self) -> bool {
        &&& 1 <= self.month <= 12
        &&& 1 <= self.day <= 31
        &&& self.hour < 24
        &&& self.minute < 60
        &&& self.second < 60
        &&& self.nanosecond < 2_000_000_000
    }
}

/// `a` is the same instant as `b` or an earlier one.
pub open spec fn at_or_before(a: Timestamp, b: Timestamp) -> bool {
    if a.year != b.year {
        a.year < b.year
    } else if a.month != b.month {
        a.month < b.month
    } else if a.day != b.day {
        a.day < b.day
    } else if a.hour != b.hour {
        a.hour < b.hour
    } else if a.minute != b.minute {
        a.minute < b.minute
    } else if a.second != b.second {
        a.second < b.second
    } else {
        a.nanosecond <= b.nanosecond
    }
}

/// The order of instants is total and transitive.
pub proof fn lemma_instant_order(a: Timestamp, b: Timestamp, c: Timestamp)
    ensures
        at_or_before(a, b) || at_or_before(b, a),
        at_or_before(a, b) && at_or_before(b, c) ==> at_or_before(a, c),
        at_or_before(a, b) && at_or_before(b, a) ==> a == b,
{
}

pub fn is_at_or_before(a: &Timestamp, b: &Timestamp) -> (r: bool)
    ensures
        r == at_or_before(*a, *b),
{
    if a.year != b.year {
        a.year < b.year
    } else if a.month != b.month {
        a.month < b.month
    } else if a.day != b.day {
        a.day < b.day
    } else if a.hour != b.hour {
        a.hour < b.hour
    } else if a.minute != b.minute {
        a.minute < b.minute
    } else if a.second != b.second {
        a.second < b.second
    } else {
        a.nanosecond <= b.nanosecond
    }
}

pub open spec fn digit_char(d: nat) -> char {
    if d == 0 { '0' }
    else if d == 1 { '1' }
    else if d == 2 { '2' }
    else if d == 3 { '3' }
    else if d == 4 { '4' }
    else if d == 5 { '5' }
    else if d == 6 { '6' }
    else if d == 7 { '7' }
    else if d == 8 { '8' }
    else { '9' }
}

/// The decimal digits of `n`, without leading zeros.
pub open spec fn decimal(n: nat) -> Seq<char>
    decreases n,
{
    if n < 10 {
        seq![digit_char(n)]
    } else {
        decimal(n / 10).push(digit_char(n % 10))
    }
}

/// The decimal digits of `n`, with zeros in front up to `width` characters.
pub open spec fn zero_padded(n: nat, width: nat) -> Seq<char> {
    let d = decimal(n);
    if d.len() < width {
        Seq::new((width - d.len()) as nat, |i: int| '0') + d
    } else {
        d
    }
}

/// A year as `%Y` writes it: four digits within 0..=9999, else a sign and
/// at least four digits.
pub open spec fn year_text(y: int) -> Seq<char> {
    if 0 <= y <= 9999 {
        zero_padded(y as nat, 4)
    } else if y < 0 {
        seq!['-'] + zero_padded((-y) as nat, 4)
    } else {
        seq!['+'] + zero_padded(y as nat, 4)
    }
}

/// `YYYY-MM-DD`.
pub open spec fn date_text(t: Timestamp) -> Seq<char> {
    year_text(t.year as int) + seq!['-'] + zero_padded(t.month as nat, 2) + seq!['-']
        + zero_padded(t.day as nat, 2)
}

/// The second as shown: a leap second shows as 60.
pub open spec fn shown_second(t: Timestamp) -> nat {
    (t.second + t.nanosecond / 1_000_000_000) as nat
}

/// `HH:MM:SS`.
pub open spec fn clock_text(t: Timestamp) -> Seq<char> {
    zero_padded(t.hour as nat, 2) + seq![':'] + zero_padded(t.minute as nat, 2) + seq![':']
        + zero_padded(shown_second(t), 2)
}

/// The fraction of a second in the shortest of 0, 3, 6 or 9 digits.
pub open spec fn fraction_text(nano: nat) -> Seq<char> {
    if nano == 0 {
        Seq::empty()
    } else if nano % 1_000_000 == 0 {
        seq!['.'] + zero_padded(nano / 1_000_000, 3)
    } else if nano % 1000 == 0 {
        seq!['.'] + zero_padded(nano / 1000, 6)
    } else {
        seq!['.'] + zero_padded(nano, 9)
    }
}

/// RFC 3339 text in UTC, as `YYYY-MM-DDTHH:MM:SS[.fff]+00:00`.
pub open spec fn rfc3339_text(t: Timestamp) -> Seq<char> {
    date_text(t) + seq!['T'] + clock_text(t) + fraction_text((t.nanosecond % 1_000_000_000) as nat)
        + seq!['+', '0', '0', ':', '0', '0']
}

fn digit_str(d: u64) -> (r: &'static str)
    requires
        d < 10,
    ensures
        r@ == seq![digit_char(d as nat)],
{
    proof {
        reveal_strlit("0");
        reveal_strlit("1");
        reveal_strlit("2");
        reveal_strlit("3");
        reveal_strlit("4");
        reveal_strlit("5");
        reveal_strlit("6");
        reveal_strlit("7");
        reveal_strlit("8");
        reveal_strlit("9");
    }
    if d == 0 { "0" }
    else if d == 1 { "1" }
    else if d == 2 { "2" }
    else if d == 3 { "3" }
    else if d == 4 { "4" }
    else if d == 5 { "5" }
    else if d == 6 { "6" }
    else if d == 7 { "7" }
    else if d == 8 { "8" }
    else { "9" }
}

fn push_decimal(s: &mut String, n: u64)
    ensures
        final(s)@ == old(s)@ + decimal(n as nat),
    decreases n,
{
    if n >= 10 {
        push_decimal(s, n / 10);
    }
    s.append(digit_str(n % 10));
}

fn decimal_len(n: u64) -> (r: u64)
    ensures
        r == decimal(n as nat).len(),
        r <= n + 1,
    decreases n,
{
    if n < 10 {
        1
    } else {
        let k = decimal_len(n / 10);
        k + 1
    }
}

fn push_padded(s: &mut String, n: u64, width: u64)
    requires
        width <= 20,
    ensures
        final(s)@ == old(s)@ + zero_padded(n as nat, width as nat),
{
    let len = decimal_len(n);
    let ghost start = s@;
    if len < width {
        let mut k: u64 = 0;
        while k < width - len
            invariant
                k <= width - len,
                len < width,
                s@ == start + Seq::new(k as nat, |i: int| '0'),
            decreases width - len - k,
        {
            proof {
                reveal_strlit("0");
            }
            s.append("0");
            k = k + 1;
            assert(s@ =~= start + Seq::new(k as nat, |i: int| '0'));
        }
    }
    push_decimal(s, n);
    assert(s@ =~= start + zero_padded(n as nat, width as nat));
}

fn push_year(s: &mut String, y: i32)
    ensures
        final(s)@ == old(s)@ + year_text(y as int),
{
    let ghost start = s@;
    if 0 <= y && y <= 9999 {
        push_padded(s, y as u64, 4);
    } else if y < 0 {
        proof {
            reveal_strlit("-");
        }
        s.append("-");
        let m: i64 = -(y as i64);
        push_padded(s, m as u64, 4);
    } else {
        proof {
            reveal_strlit("+");
        }
        s.append("+");
        push_padded(s, y as u64, 4);
    }
    assert(s@ =~= start + year_text(y as int));
}

/// Writes `t` as `YYYY-MM-DD`, as chrono's `%Y-%m-%d` does.
pub fn format_date(t: &Timestamp) -> (r: String)
    ensures
        r@ == date_text(*t),
{
    let mut s = String::new();
    proof {
        reveal_strlit("-");
    }
    push_year(&mut s, t.year);
    s.append("-");
    push_padded(&mut s, t.month as u64, 2);
    s.append("-");
    push_padded(&mut s, t.day as u64, 2);
    assert(s@ =~= date_text(*t));
    s
}

/// Writes `t` as `HH:MM:SS`, as chrono's `%H:%M:%S` does.
pub fn format_clock(t: &Timestamp) -> (r: String)
    ensures
        r@ == clock_text(*t),
{
    let mut s = String::new();
    proof {
        reveal_strlit(":");
    }
    push_padded(&mut s, t.hour as u64, 2);
    s.append(":");
    push_padded(&mut s, t.minute as u64, 2);
    s.append(":");
    let sec: u64 = t.second as u64 + (t.nanosecond / 1_000_000_000) as u64;
    push_padded(&mut s, sec, 2);
    assert(s@ =~= clock_text(*t));
    s
}

/// Writes `t` in RFC 3339 form with a `+00:00` offset, as chrono's
/// `to_rfc3339` does for a UTC instant.
pub fn format_rfc3339(t: &Timestamp) -> (r: String)
    ensures
        r@ == rfc3339_text(*t),
{
    let mut s = format_date(t);
    proof {
        reveal_strlit("T");
        reveal_strlit(".");
        reveal_strlit("+00:00");
    }
    s.append("T");
    let c = format_clock(t);
    s.append(c.as_str());
    let nano: u32 = t.nanosecond % 1_000_000_000;
    let ghost before_fraction = s@;
    if nano == 0 {
    } else if nano % 1_000_000 == 0 {
        s.append(".");
        push_padded(&mut s, (nano / 1_000_000) as u64, 3);
    } else if nano % 1000 == 0 {
        s.append(".");
        push_padded(&mut s, (nano / 1000) as u64, 6);
    } else {
        s.append(".");
        push_padded(&mut s, nano as u64, 9);
    }
    assert(s@ =~= before_fraction + fraction_text(nano as nat));
    s.append("+00:00");
    assert(s@ =~= rfc3339_text(*t));
    s
}

/// What chrono's RFC 3339 parser makes of a text, as a UTC instant.
pub uninterp spec fn rfc3339_instant(s: Seq<char>) -> Option<Timestamp>;

/// Relies on chrono's `DateTime::parse_from_rfc3339`, converted to UTC with
/// `with_timezone(&Utc)` and read through chrono's documented field accessors.
#[verifier::external_body]
pub(crate) fn parse_rfc3339(s: &str) -> (r: Option<Timestamp>)
    ensures
        r == rfc3339_instant(s@),
        r matches Some(t) ==> t.is_valid(),
{
    match chrono::DateTime::parse_from_rfc3339(s) {
        Ok(d) => {
            let u = d.with_timezone(&chrono::Utc);
            Some(Timestamp { year: u.year(), month: u.month(), day: u.day(), hour: u.hour(),
                minute: u.minute(), second: u.second(), nanosecond: u.nanosecond() })
        },
        Err(_) => None,
    }
}

/// Relies on chrono's `Utc::now`, read through chrono's documented field
/// accessors. Nothing is known of which instant comes back.
#[verifier::external_body]
pub(crate) fn now() -> (r: Timestamp)
    ensures
        r.is_valid(),
{
    let u = chrono::Utc::now();
    Timestamp { year: u.year(), month: u.month(), day: u.day(), hour: u.hour(),
        minute: u.minute(), second: u.second(), nanosecond: u.nanosecond() }
}

} // verus!
