//! Calendar dates, held as plain (year, month, day) parts; `chrono::NaiveDate` validates,
//! parses, steps and prints them.
use chrono::{Datelike, NaiveDate};
use vstd::prelude::*;

verus! {

/// Earliest year `chrono::NaiveDate` represents.
pub const MIN_YEAR: i32 = -262143;

/// Latest year `chrono::NaiveDate` represents.
pub const MAX_YEAR: i32 = 262142;

/// Proleptic Gregorian leap year.
pub open spec fn is_leap(y: int) -> bool {
    y % 4 == 0 && (y % 100 != 0 || y % 400 == 0)
}

/// Number of days in month `m` of year `y`.
pub open spec fn days_in_month(y: int, m: int) -> int {
    if m == 2 {
        if is_leap(y) {
            29
        } else {
            28
        }
    } else if m == 4 || m == 6 || m == 9 || m == 11 {
        30
    } else {
        31
    }
}

/// Whether (y, m, d) is a calendar date `NaiveDate` can hold.
pub open spec fn valid_ymd(y: int, m: int, d: int) -> bool {
    MIN_YEAR <= y <= MAX_YEAR && 1 <= m <= 12 && 1 <= d <= days_in_month(y, m)
}

/// The calendar date after (y, m, d), if representable.
pub open spec fn next_ymd(y: int, m: int, d: int) -> Option<(int, int, int)> {
    if d < days_in_month(y, m) {
        Some((y, m, d + 1))
    } else if m < 12 {
        Some((y, m + 1, 1))
    } else if y < MAX_YEAR {
        Some((y + 1, 1, 1))
    } else {
        None
    }
}

/// Whether the first (y, m, d) comes strictly before the second (chronological order).
pub open spec fn ymd_before(a: (int, int, int), b: (int, int, int)) -> bool {
    a.0 < b.0 || (a.0 == b.0 && (a.1 < b.1 || (a.1 == b.1 && a.2 < b.2)))
}

/// A calendar date, as `chrono::NaiveDate` understands one.
#[derive(Clone, Copy, Debug, PartialEq, Eq, Structural)]
pub struct Date {
    year: i32,
    month: u32,
    day: u32,
}

/// What `chrono::NaiveDate::parse_from_str(s, fmt)` yields, as (year, month, day).
pub uninterp spec fn chrono_parse_date(s: Seq<char>, fmt: Seq<char>) -> Option<(i32, u32, u32)>;

/// `n` in decimal, zero-padded on the left to at least `w` digits.
pub open spec fn zero_padded(n: nat, w: nat) -> Seq<char> {
    let t = crate::layout::nat_text(n);
    if t.len() < w {
        crate::layout::repeat('0', (w - t.len()) as nat) + t
    } else {
        t
    }
}

/// What `chrono::NaiveDate`'s `Display` writes for the date (year, month, day): the year in four
/// digits (with a sign, and four digits or more, outside 0 to 9999), then `-MM-DD`.
pub open spec fn chrono_date_text(y: i32, m: u32, d: u32) -> Seq<char> {
    (if 0 <= y <= 9999 {
        zero_padded(y as nat, 4)
    } else if y < 0 {
        seq!['-'] + zero_padded((-y) as nat, 4)
    } else {
        seq!['+'] + zero_padded(y as nat, 4)
    }) + seq!['-'] + zero_padded(m as nat, 2) + seq!['-'] + zero_padded(d as nat, 2)
}

/// Calls `chrono::NaiveDate::from_ymd_opt`. Claimed, as its documentation says: it yields a
/// date exactly when (y, m, d) is a valid calendar date in chrono's year range, and that date
/// has these parts.
#[verifier::external_body]
fn chrono_from_ymd(y: i32, m: u32, d: u32) -> (r: Option<(i32, u32, u32)>)
    ensures
        r is Some <==> valid_ymd(y as int, m as int, d as int),
        r matches Some(t) ==> t == (y, m, d),
{
    NaiveDate::from_ymd_opt(y, m, d).map(|n| (n.year(), n.month(), n.day()))
}

/// Calls `chrono::NaiveDate::succ_opt` on the valid date (y, m, d). Claimed, as its
/// documentation says: the following calendar day, or `None` after the last representable date.
#[verifier::external_body]
fn chrono_succ(y: i32, m: u32, d: u32) -> (r: Option<(i32, u32, u32)>)
    requires
        valid_ymd(y as int, m as int, d as int),
    ensures
        r matches Some(t) ==> next_ymd(y as int, m as int, d as int) == Some((t.0 as int, t.1 as int, t.2 as int)),
        r is None ==> next_ymd(y as int, m as int, d as int) is None,
{
    NaiveDate::from_ymd_opt(y, m, d).unwrap().succ_opt().map(|n| (n.year(), n.month(), n.day()))
}

/// Calls `chrono::NaiveDate::parse_from_str`. Claimed: the outcome is what the name
/// `chrono_parse_date` denotes, and a date it yields is a valid calendar date.
#[verifier::external_body]
fn chrono_parse(s: &str, fmt: &str) -> (r: Option<(i32, u32, u32)>)
    ensures
        r == chrono_parse_date(s@, fmt@),
        r matches Some(t) ==> valid_ymd(t.0 as int, t.1 as int, t.2 as int),
{
    NaiveDate::parse_from_str(s, fmt).ok().map(|n| (n.year(), n.month(), n.day()))
}

/// Formats the valid date (y, m, d) with `NaiveDate`'s `Display`. Claimed: the text is
/// [`chrono_date_text`], as its `Debug` (which `Display` calls) writes it.
#[verifier::external_body]
fn chrono_display(y: i32, m: u32, d: u32) -> (r: String)
    requires
        valid_ymd(y as int, m as int, d as int),
    ensures
        r@ == chrono_date_text(y, m, d),
{
    format!("{}", NaiveDate::from_ymd_opt(y, m, d).unwrap())
}

impl Date {
    #[verifier::type_invariant]
    spec fn well_formed(self) -> bool {
        valid_ymd(self.year as int, self.month as int, self.day as int)
    }

    /// (year, month, day).
    pub closed spec fn ymd(self) -> (int, int, int) {
        (self.year as int, self.month as int, self.day as int)
    }

    /// Whether the parts form a valid date; every date a program holds does.
    pub closed spec fn wf(self) -> bool {
        valid_ymd(self.year as int, self.month as int, self.day as int)
    }

    /// The text `NaiveDate` prints for this date.
    pub closed spec fn text(self) -> Seq<char> {
        chrono_date_text(self.year, self.month, self.day)
    }

    /// The date with these parts (meaningful for a valid calendar date).
    pub closed spec fn at(y: int, m: int, d: int) -> Date {
        Date { year: y as i32, month: m as u32, day: d as u32 }
    }

    /// Whether `self` comes strictly before `other`.
    pub open spec fn before(self, other: Date) -> bool {
        ymd_before(self.ymd(), other.ymd())
    }

    /// The date (y, m, d), if it is a valid calendar date.
    pub fn from_ymd_opt(y: i32, m: u32, d: u32) -> (r: Option<Date>)
        ensures
            r is Some <==> valid_ymd(y as int, m as int, d as int),
            r matches Some(dt) ==> dt.ymd() == (y as int, m as int, d as int),
            r == if valid_ymd(y as int, m as int, d as int) {
                Some(Date::at(y as int, m as int, d as int))
            } else {
                None
            },
    {
        match chrono_from_ymd(y, m, d) {
            Some((yy, mm, dd)) => Some(Date { year: yy, month: mm, day: dd }),
            None => None,
        }
    }

    /// The calendar year.
    pub fn year(&self) -> (r: i32)
        ensures
            r == self.ymd().0,
            self.wf(),
    {
        proof {
            use_type_invariant(self);
        }
        self.year
    }

    /// The month, 1 to 12.
    pub fn month(&self) -> (r: u32)
        ensures
            r == self.ymd().1,
            1 <= r <= 12,
    {
        proof {
            use_type_invariant(self);
        }
        self.month
    }

    /// The day of the month, from 1.
    pub fn day(&self) -> (r: u32)
        ensures
            r == self.ymd().2,
    {
        self.day
    }

    /// The next calendar day, or `None` after the last representable date.
    pub fn succ_opt(&self) -> (r: Option<Date>)
        ensures
            r matches Some(n) ==> next_ymd(self.ymd().0, self.ymd().1, self.ymd().2) == Some(n.ymd()),
            r is None ==> next_ymd(self.ymd().0, self.ymd().1, self.ymd().2) is None,
            r == match next_ymd(self.ymd().0, self.ymd().1, self.ymd().2) {
                Some(t) => Some(Date::at(t.0, t.1, t.2)),
                None => None,
            },
    {
        proof {
            use_type_invariant(self);
        }
        match chrono_succ(self.year, self.month, self.day) {
            Some((y, m, d)) => {
                proof {
                    assert(valid_ymd(y as int, m as int, d as int));
                }
                Some(Date { year: y, month: m, day: d })
            },
            None => None,
        }
    }

    /// Whether `self` comes strictly before `other`.
    pub fn is_before(&self, other: &Date) -> (r: bool)
        ensures
            r == self.before(*other),
    {
        self.year < other.year || (self.year == other.year && (self.month < other.month || (
        self.month == other.month && self.day < other.day)))
    }

    /// The text `NaiveDate` prints for this date (`YYYY-MM-DD`).
    pub fn to_text(&self) -> (r: String)
        ensures
            r@ == self.text(),
    {
        proof {
            use_type_invariant(self);
        }
        chrono_display(self.year, self.month, self.day)
    }
}

/// A date is the date with its own parts, and a valid calendar date's parts are its own.
pub proof fn lemma_at_ymd(d: Date, y: int, m: int, dd: int)
    ensures
        Date::at(d.ymd().0, d.ymd().1, d.ymd().2) == d,
        valid_ymd(y, m, dd) ==> Date::at(y, m, dd).ymd() == (y, m, dd),
        valid_ymd(y, m, dd) ==> Date::at(y, m, dd).wf(),
{
}

/// What parsing `s` with the chrono format `fmt` yields.
pub closed spec fn parse_date_fmt_spec(s: Seq<char>, fmt: Seq<char>) -> Option<Date> {
    match chrono_parse_date(s, fmt) {
        Some((y, m, d)) => Some(Date { year: y, month: m, day: d }),
        None => None,
    }
}

/// Parses `s` with the chrono format `fmt` (`NaiveDate::parse_from_str`).
pub fn parse_date_fmt(s: &str, fmt: &str) -> (r: Option<Date>)
    ensures
        r == parse_date_fmt_spec(s@, fmt@),
{
    match chrono_parse(s, fmt) {
        Some((y, m, d)) => Some(Date { year: y, month: m, day: d }),
        None => None,
    }
}

} // verus!
