//! Calendar timestamps: the fixed textual date-time form used in metadata
//! files, ordering for recency listings, and the trusted readings of the
//! system clock.

use vstd::prelude::*;

use crate::chars::chars_to_string;
use crate::chars::dec_of_int;
use crate::chars::dec_of_pad;
use crate::chars::extend_chars;
use crate::chars::fmt_i64;
use crate::chars::fmt_u64_pad;
use crate::chars::parse_i64;
use crate::chars::parse_u64;
use crate::chars::spec_parse_i64;
use crate::chars::spec_parse_u64;
use crate::chars::subvec;
use crate::chars::lemma_dec_of_pad2;
use crate::chars::lemma_parse_int_roundtrip;

verus! {

/// A point in calendar time, held as plain fields.  The clock wrappers below
/// produce one; everything else about it is ordinary verified code.
#[derive(Debug, Clone, Copy, PartialEq, Eq, Structural)]
pub struct Stamp {
    pub year: i64,
    pub month: u64,
    pub day: u64,
    pub hour: u64,
    pub minute: u64,
    pub second: u64,
}

impl Stamp {
    /// Field ranges a calendar reading satisfies; the year is unconstrained.
    pub open spec fn wf(self) -> bool {
        1 <= self.month <= 12 && 1 <= self.day <= 31 && self.hour <= 23 && self.minute <= 59
            && self.second <= 59
    }

    pub fn from_parts(year: i64, month: u64, day: u64, hour: u64, minute: u64, second: u64) -> (s:
        Stamp)
        requires
            1 <= month <= 12,
            1 <= day <= 31,
            hour <= 23,
            minute <= 59,
            second <= 59,
        ensures
            s == (Stamp { year, month, day, hour, minute, second }),
            s.wf(),
    {
        Stamp { year, month, day, hour, minute, second }
    }

    /// Same calendar date, ignoring the time of day.
    pub open spec fn spec_same_date(self, other: Stamp) -> bool {
        self.year == other.year && self.month == other.month && self.day == other.day
    }

    pub fn same_date(&self, other: &Stamp) -> (r: bool)
        ensures
            r == self.spec_same_date(*other),
    {
        self.year == other.year && self.month == other.month && self.day == other.day
    }

    /// Lexicographic order on (year, month, day, hour, minute, second);
    /// chronological order for well-formed stamps.
    pub open spec fn spec_le(self, other: Stamp) -> bool {
        if self.year != other.year {
            self.year < other.year
        } else if self.month != other.month {
            self.month < other.month
        } else if self.day != other.day {
            self.day < other.day
        } else if self.hour != other.hour {
            self.hour < other.hour
        } else if self.minute != other.minute {
            self.minute < other.minute
        } else {
            self.second <= other.second
        }
    }

    pub fn le(&self, other: &Stamp) -> (r: bool)
        ensures
            r == self.spec_le(*other),
    {
        if self.year != other.year {
            self.year < other.year
        } else if self.month != other.month {
            self.month < other.month
        } else if self.day != other.day {
            self.day < other.day
        } else if self.hour != other.hour {
            self.hour < other.hour
        } else if self.minute != other.minute {
            self.minute < other.minute
        } else {
            self.second <= other.second
        }
    }

    /// The fixed textual form: year, then zero-padded month, day, hour,
    /// minute and second, as `Y-MM-DD HH:MM:SS`.
    pub open spec fn spec_text(self) -> Seq<char> {
        dec_of_int(self.year as int) + seq!['-'] + dec_of_pad(self.month as nat, 2) + seq!['-']
            + dec_of_pad(self.day as nat, 2) + seq![' '] + dec_of_pad(self.hour as nat, 2)
            + seq![':'] + dec_of_pad(self.minute as nat, 2) + seq![':'] + dec_of_pad(
            self.second as nat,
            2,
        )
    }

    pub fn to_text(&self) -> (r: String)
        ensures
            r@ == self.spec_text(),
    {
        let mut out: Vec<char> = fmt_i64(self.year);
        out.push('-');
        let month = fmt_u64_pad(self.month, 2);
        extend_chars(&mut out, &month);
        out.push('-');
        let day = fmt_u64_pad(self.day, 2);
        extend_chars(&mut out, &day);
        out.push(' ');
        let hour = fmt_u64_pad(self.hour, 2);
        extend_chars(&mut out, &hour);
        out.push(':');
        let minute = fmt_u64_pad(self.minute, 2);
        extend_chars(&mut out, &minute);
        out.push(':');
        let second = fmt_u64_pad(self.second, 2);
        extend_chars(&mut out, &second);
        proof {
            assert(out@ =~= self.spec_text());
        }
        chars_to_string(&out)
    }
}

/// What a stamp text parses back to: the fixed-width fields are read off
/// from the end, the year is whatever remains in front.
pub open spec fn spec_parse_stamp(s: Seq<char>) -> Option<Stamp> {
    let n = s.len() as int;
    if n < 16 {
        None
    } else if s[n - 9] != ' ' || s[n - 12] != '-' || s[n - 15] != '-' || s[n - 3] != ':' || s[n - 6]
        != ':' {
        None
    } else {
        let year = spec_parse_i64(s.subrange(0, n - 15));
        let month = spec_parse_u64(s.subrange(n - 14, n - 12));
        let day = spec_parse_u64(s.subrange(n - 11, n - 9));
        let hour = spec_parse_u64(s.subrange(n - 8, n - 6));
        let minute = spec_parse_u64(s.subrange(n - 5, n - 3));
        let second = spec_parse_u64(s.subrange(n - 2, n));
        if year is Some && month is Some && day is Some && hour is Some && minute is Some && second
            is Some {
            Some(
                Stamp {
                    year: year->Some_0,
                    month: month->Some_0,
                    day: day->Some_0,
                    hour: hour->Some_0,
                    minute: minute->Some_0,
                    second: second->Some_0,
                },
            )
        } else {
            None
        }
    }
}

/// Reads a stamp back from its textual form.
pub fn parse_stamp(v: &Vec<char>) -> (r: Option<Stamp>)
    ensures
        r == spec_parse_stamp(v@),
{
    let n = v.len();
    if n < 16 {
        return None;
    }
    if !(v[n - 9] == ' ' && v[n - 12] == '-' && v[n - 15] == '-' && v[n - 3] == ':' && v[n - 6]
        == ':') {
        return None;
    }
    let year_part = subvec(v, 0, n - 15);
    let month_part = subvec(v, n - 14, n - 12);
    let day_part = subvec(v, n - 11, n - 9);
    let hour_part = subvec(v, n - 8, n - 6);
    let minute_part = subvec(v, n - 5, n - 3);
    let second_part = subvec(v, n - 2, n);
    let year = parse_i64(&year_part);
    let month = parse_u64(&month_part);
    let day = parse_u64(&day_part);
    let hour = parse_u64(&hour_part);
    let minute = parse_u64(&minute_part);
    let second = parse_u64(&second_part);
    match (year, month, day, hour, minute, second) {
        (Some(y), Some(mo), Some(d), Some(h), Some(mi), Some(se)) => Some(
            Stamp { year: y, month: mo, day: d, hour: h, minute: mi, second: se },
        ),
        _ => None,
    }
}

/// Relies on chrono: `Local::now()` read through the `Datelike` and
/// `Timelike` accessors, whose documented ranges are months 1 to 12, days
/// 1 to 31, hours 0 to 23, minutes and seconds 0 to 59.
#[verifier::external_body]
fn now_parts() -> (r: (i64, u64, u64, u64, u64, u64))
    ensures
        1 <= r.1 <= 12,
        1 <= r.2 <= 31,
        r.3 <= 23,
        r.4 <= 59,
        r.5 <= 59,
{
    let t = chrono::Local::now();
    (
        chrono::Datelike::year(&t) as i64,
        chrono::Datelike::month(&t) as u64,
        chrono::Datelike::day(&t) as u64,
        chrono::Timelike::hour(&t) as u64,
        chrono::Timelike::minute(&t) as u64,
        chrono::Timelike::second(&t) as u64,
    )
}

/// The local calendar time now, as a well-formed stamp.
pub fn now_stamp() -> (s: Stamp)
    ensures
        s.wf(),
{
    let (y, mo, d, h, mi, se) = now_parts();
    Stamp::from_parts(y, mo, d, h, mi, se)
}

/// Relies on chrono: `Utc::now().timestamp()`, seconds since the epoch.
/// `Utc::now` itself panics when the system clock reads before the epoch.
#[verifier::external_body]
pub fn now_epoch() -> (t: i64) {
    chrono::Utc::now().timestamp()
}


/// Round trip: a well-formed stamp's text parses back to the identical
/// stamp — the fixed-width fields sit at their expected offsets because
/// every field is at most two digits.
pub proof fn lemma_stamp_text_roundtrip(t: Stamp)
    requires
        t.wf(),
    ensures
        spec_parse_stamp(t.spec_text()) == Some(t),
{
    let y = dec_of_int(t.year as int);
    let m2 = dec_of_pad(t.month as nat, 2);
    let d2 = dec_of_pad(t.day as nat, 2);
    let h2 = dec_of_pad(t.hour as nat, 2);
    let mi2 = dec_of_pad(t.minute as nat, 2);
    let s2 = dec_of_pad(t.second as nat, 2);
    lemma_dec_of_pad2(t.month as nat);
    lemma_dec_of_pad2(t.day as nat);
    lemma_dec_of_pad2(t.hour as nat);
    lemma_dec_of_pad2(t.minute as nat);
    lemma_dec_of_pad2(t.second as nat);
    crate::chars::lemma_dec_of_digits(if t.year >= 0 {
        t.year as nat
    } else {
        (-(t.year as int)) as nat
    });
    let tail = seq!['-'] + m2 + seq!['-'] + d2 + seq![' '] + h2 + seq![':'] + mi2 + seq![':']
        + s2;
    let s = t.spec_text();
    assert(s =~= y + tail);
    assert(tail.len() == 15);
    assert(y.len() >= 1);
    let n = s.len() as int;
    assert(n >= 16);
    assert(s[n - 15] == tail[0] && tail[0] == '-');
    assert(s[n - 12] == tail[3] && tail[3] == '-');
    assert(s[n - 9] == tail[6] && tail[6] == ' ');
    assert(s[n - 6] == tail[9] && tail[9] == ':');
    assert(s[n - 3] == tail[12] && tail[12] == ':');
    assert(s.subrange(0, n - 15) =~= y);
    assert(s.subrange(n - 14, n - 12) =~= m2);
    assert(s.subrange(n - 11, n - 9) =~= d2);
    assert(s.subrange(n - 8, n - 6) =~= h2);
    assert(s.subrange(n - 5, n - 3) =~= mi2);
    assert(s.subrange(n - 2, n) =~= s2);
    lemma_parse_int_roundtrip(t.year as int);
}

} // verus!
