use chrono::Datelike;
use chrono::Timelike;
use vstd::prelude::*;

use crate::text::string_of;

verus! {

/// A calendar day of the proleptic Gregorian calendar.
#[derive(Clone, Copy, Debug, PartialEq, Eq, Hash)]
pub struct Date {
    pub year: i32,
    pub month: u32,
    pub day: u32,
}

/// A time of day.
#[derive(Clone, Copy, Debug, PartialEq, Eq, Hash)]
pub struct Time {
    pub hour: u32,
    pub minute: u32,
    pub second: u32,
}

pub open spec fn is_leap(y: int) -> bool {
    y % 4 == 0 && (y % 100 != 0 || y % 400 == 0)
}

pub open spec fn days_in_month(y: int, m: int) -> int {
    if m == 2 {
        if is_leap(y) {
            29
        } else {
            28
        }
    } else if m == 4 || m == 6 || m == 9 || m == 11 {
        30
    } else {
        31
    }
}

/// Year, month and day name a day of the calendar (years limited to four digits).
pub open spec fn valid_date(y: int, m: int, d: int) -> bool {
    0 <= y <= 9999 && 1 <= m <= 12 && 1 <= d <= days_in_month(y, m)
}

pub open spec fn is_digit(c: char) -> bool {
    '0' <= c && c <= '9'
}

pub open spec fn all_digits(s: Seq<char>) -> bool {
    forall|i: int| 0 <= i < s.len() ==> is_digit(#[trigger] s[i])
}

pub open spec fn digit_value(c: char) -> nat {
    (c as u32 - '0' as u32) as nat
}

/// The number that the decimal digits `s` write.
pub open spec fn dec_value(s: Seq<char>) -> nat
    decreases s.len(),
{
    if s.len() == 0 {
        0
    } else {
        dec_value(s.drop_last()) * 10 + digit_value(s.last())
    }
}

/// The digits of `s`, in order.
pub open spec fn digits_of(s: Seq<char>) -> Seq<char> {
    s.filter(|c: char| is_digit(c))
}

/// A run of digits read as two digits of day, two of month, and the rest (one to four) of year.
pub open spec fn dmy_of(s: Seq<char>) -> Option<Date> {
    if 5 <= s.len() <= 8 {
        let d = dec_value(s.subrange(0, 2));
        let m = dec_value(s.subrange(2, 4));
        let y = dec_value(s.subrange(4, s.len() as int));
        if valid_date(y as int, m as int, d as int) {
            Some(Date { year: y as i32, month: m as u32, day: d as u32 })
        } else {
            None
        }
    } else {
        None
    }
}

/// An optional `+` and then one or more digits, whose value fits a `u32`.
pub open spec fn u32_of(s: Seq<char>) -> Option<u32> {
    let ds = if s.len() > 0 && s[0] == '+' {
        s.drop_first()
    } else {
        s
    };
    if ds.len() > 0 && all_digits(ds) && dec_value(ds) <= u32::MAX {
        Some(dec_value(ds) as u32)
    } else {
        None
    }
}

pub open spec fn time_of(h: u32, m: u32) -> Option<Time> {
    if h < 24 && m < 60 {
        Some(Time { hour: h, minute: m, second: 0 })
    } else {
        None
    }
}

/// Relies on chrono's NaiveDate::parse_from_str with the format "%d%m%Y": on a run of ASCII
/// digits it reads at most two digits of day, at most two of month and at most four of year,
/// refuses what is left over, and gives a date only where the three fields name one.
#[verifier::external_body]
fn parse_dmy_digits(digits: &str) -> (r: Option<Date>)
    requires
        all_digits(digits@),
    ensures
        r == dmy_of(digits@),
{
    chrono::NaiveDate::parse_from_str(digits, "%d%m%Y").ok().map(
        |d| Date { year: d.year(), month: d.month(), day: d.day() },
    )
}

/// Relies on chrono's NaiveTime::from_hms_opt: a time exactly when the hour is below 24 and
/// the minute below 60 (the second being zero).
#[verifier::external_body]
fn time_from_hm(h: u32, m: u32) -> (r: Option<Time>)
    ensures
        r == time_of(h, m),
{
    chrono::NaiveTime::from_hms_opt(h, m, 0).map(
        |t| Time { hour: t.hour(), minute: t.minute(), second: t.second() },
    )
}

impl Time {
    /// The time `hour:minute:00`, if there is one.
    pub fn from_hm_opt(hour: u32, minute: u32) -> (r: Option<Time>)
        ensures
            r == time_of(hour, minute),
    {
        time_from_hm(hour, minute)
    }
}

impl Date {
    /// The date `day.month.year`, if there is one.
    pub fn from_ymd_opt(year: i32, month: u32, day: u32) -> (r: Option<Date>)
        ensures
            r == (if valid_date(year as int, month as int, day as int) {
                Some(Date { year, month, day })
            } else {
                None
            }),
    {
        if year < 0 || year > 9999 || month < 1 || month > 12 || day < 1 {
            return None;
        }
        let leap = year % 4 == 0 && (year % 100 != 0 || year % 400 == 0);
        let dim: u32 = if month == 2 {
            if leap {
                29
            } else {
                28
            }
        } else if month == 4 || month == 6 || month == 9 || month == 11 {
            30
        } else {
            31
        };
        if day <= dim {
            Some(Date { year, month, day })
        } else {
            None
        }
    }
}

/// The value of the digits `s[from..to]`, where it fits a `u32`.
fn digits_u32(s: &Vec<char>, from: usize, to: usize) -> (r: Option<u32>)
    requires
        from <= to <= s@.len(),
        all_digits(s@.subrange(from as int, to as int)),
    ensures
        r == (if dec_value(s@.subrange(from as int, to as int)) <= u32::MAX {
            Some(dec_value(s@.subrange(from as int, to as int)) as u32)
        } else {
            None
        }),
{
    let mut v: u32 = 0;
    let mut i: usize = from;
    while i < to
        invariant
            from <= i <= to <= s@.len(),
            all_digits(s@.subrange(from as int, to as int)),
            v as nat == dec_value(s@.subrange(from as int, i as int)),
        decreases to - i,
    {
        let c = s[i];
        assert(s@.subrange(from as int, to as int)[i - from] == c);
        let d = (c as u32) - ('0' as u32);
        let ghost next = s@.subrange(from as int, i + 1);
        assert(next.drop_last() =~= s@.subrange(from as int, i as int));
        assert(dec_value(next) == v * 10 + d);
        if v > (u32::MAX - d) / 10 {
            proof {
                lemma_dec_value_grows(s@.subrange(from as int, to as int), (i + 1 - from) as nat);
                assert(s@.subrange(from as int, to as int).subrange(0, i + 1 - from) =~= next);
                assert(s@.subrange(from as int, to as int) =~= s@.subrange(
                    from as int,
                    to as int,
                ).subrange(0, (to - from) as int));
            }
            return None;
        }
        v = v * 10 + d;
        i = i + 1;
    }
    Some(v)
}

/// Reading more digits never makes a number smaller.
pub proof fn lemma_dec_value_grows(s: Seq<char>, k: nat)
    requires
        k <= s.len(),
    ensures
        dec_value(s.subrange(0, k as int)) <= dec_value(s),
    decreases s.len() - k,
{
    if k < s.len() {
        lemma_dec_value_grows(s, k + 1);
        assert(s.subrange(0, k + 1 as int).drop_last() =~= s.subrange(0, k as int));
    } else {
        assert(s.subrange(0, k as int) =~= s);
    }
}

/// Reads an optional `+` and then decimal digits as a `u32`.
pub fn parse_u32(s: &Vec<char>) -> (r: Option<u32>)
    ensures
        r == u32_of(s@),
{
    let from: usize = if s.len() > 0 && s[0] == '+' {
        1
    } else {
        0
    };
    let ghost ds = s@.subrange(from as int, s@.len() as int);
    assert(ds =~= (if s@.len() > 0 && s@[0] == '+' {
        s@.drop_first()
    } else {
        s@
    }));
    if from == s.len() {
        return None;
    }
    let mut i: usize = from;
    while i < s.len()
        invariant
            from <= i <= s@.len(),
            from <= 1,
            ds == s@.subrange(from as int, s@.len() as int),
            u32_of(s@) == (if ds.len() > 0 && all_digits(ds) && dec_value(ds) <= u32::MAX {
                Some(dec_value(ds) as u32)
            } else {
                None
            }),
            forall|k: int| from <= k < i ==> is_digit(#[trigger] s@[k]),
        decreases s@.len() - i,
    {
        if !('0' <= s[i] && s[i] <= '9') {
            assert(!is_digit(ds[i - from]));
            return None;
        }
        i = i + 1;
    }
    assert(all_digits(ds));
    digits_u32(s, from, s.len())
}

/// The digits of `t[from..to]`, in order.
fn digits_in(t: &Vec<char>, from: usize, to: usize) -> (r: Vec<char>)
    requires
        from <= to <= t@.len(),
    ensures
        r@ == digits_of(t@.subrange(from as int, to as int)),
{
    let mut r: Vec<char> = Vec::new();
    let mut i: usize = from;
    while i < to
        invariant
            from <= i <= to <= t@.len(),
            r@ == digits_of(t@.subrange(from as int, i as int)),
        decreases to - i,
    {
        let ghost prev = t@.subrange(from as int, i as int);
        assert(t@.subrange(from as int, i + 1) =~= prev.push(t@[i as int]));
        proof {
            reveal(Seq::filter);
            assert(prev.push(t@[i as int]).drop_last() =~= prev);
        }
        if '0' <= t[i] && t[i] <= '9' {
            r.push(t[i]);
        }
        i = i + 1;
    }
    r
}

/// The date that the digits of `t[from..to]` write as day, month and year.
pub fn date_in(t: &Vec<char>, from: usize, to: usize) -> (r: Option<Date>)
    requires
        from <= to <= t@.len(),
    ensures
        r == dmy_of(digits_of(t@.subrange(from as int, to as int))),
{
    let ds = digits_in(t, from, to);
    proof {
        let p = t@.subrange(from as int, to as int);
        assert forall|i: int| 0 <= i < ds@.len() implies is_digit(#[trigger] ds@[i]) by {
            p.lemma_filter_pred(|c: char| is_digit(c), i);
        }
    }
    let s = string_of(&ds, 0, ds.len());
    assert(ds@.subrange(0, ds@.len() as int) =~= ds@);
    parse_dmy_digits(s.as_str())
}

} // verus!
