//! Calendar dates without a time of day, the key by which entries are grouped.

use vstd::prelude::*;
use vstd::string::StrSliceExecFns;
use chrono::Datelike;

verus! {

/// Whether `year` is a leap year of the proleptic Gregorian calendar.
pub open spec fn is_leap_year(year: int) -> bool {
    year % 4 == 0 && (year % 100 != 0 || year % 400 == 0)
}

/// The number of days of `month` in `year`, and 0 where `month` is no month.
pub open spec fn days_in_month(year: int, month: int) -> int {
    if month == 2 {
        if is_leap_year(year) {
            29
        } else {
            28
        }
    } else if month == 4 || month == 6 || month == 9 || month == 11 {
        30
    } else if 1 <= month <= 12 {
        31
    } else {
        0
    }
}

/// Whether the three numbers name a day of the calendar.
pub open spec fn is_calendar_date(year: int, month: int, day: int) -> bool {
    1 <= month <= 12 && 1 <= day <= days_in_month(year, month)
}

/// A calendar date.
#[derive(Clone, Copy, Debug, PartialEq, Eq, Hash, Structural)]
pub struct Date {
    pub year: i32,
    pub month: u32,
    pub day: u32,
}

impl Date {
    /// Whether the date names a day of the calendar.
    pub open spec fn is_valid(self) -> bool {
        is_calendar_date(self.year as int, self.month as int, self.day as int)
    }

    /// Whether this date comes earlier than `other`: by year, then month, then day.
    pub open spec fn before(self, other: Date) -> bool {
        self.year < other.year || (self.year == other.year && (self.month < other.month || (
        self.month == other.month && self.day < other.day)))
    }

    /// The date of the given year, month and day, if there is such a day.
    pub fn new(year: i32, month: u32, day: u32) -> (r: Option<Date>)
        ensures
            r == if is_calendar_date(year as int, month as int, day as int) {
                Some(Date { year, month, day })
            } else {
                None
            },
    {
        if month < 1 || month > 12 || day < 1 {
            return None;
        }
        // A multiple of 400 that lifts every year above zero keeps the leap years.
        let lifted: i64 = year as i64 + 2147484000;
        let leap = lifted % 4 == 0 && (lifted % 100 != 0 || lifted % 400 == 0);
        assert(leap == is_leap_year(year as int));
        let length: u32 = if month == 2 {
            if leap {
                29
            } else {
                28
            }
        } else if month == 4 || month == 6 || month == 9 || month == 11 {
            30
        } else {
            31
        };
        if day > length {
            return None;
        }
        Some(Date { year, month, day })
    }

    /// Whether this date comes earlier than `other`.
    pub fn is_before(&self, other: &Date) -> (r: bool)
        ensures
            r == self.before(*other),
    {
        if self.year != other.year {
            self.year < other.year
        } else if self.month != other.month {
            self.month < other.month
        } else {
            self.day < other.day
        }
    }
}

/// Of two different dates exactly one comes before the other.
pub proof fn law_before_is_total(a: Date, b: Date)
    ensures
        a == b || a.before(b) || b.before(a),
        !(a.before(b) && b.before(a)),
        !a.before(a),
{
}

/// Coming before is transitive.
pub proof fn law_before_is_transitive(a: Date, b: Date, c: Date)
    requires
        a.before(b),
        b.before(c),
    ensures
        a.before(c),
{
}

/// The format in which dates are written and read: year, month and day.
pub const DATE_FORMAT: &'static str = "%Y-%m-%d";

/// The year, month and day that chrono reads from `text` in the given
/// format, where it reads a date at all.
pub uninterp spec fn parsed_date(text: Seq<char>, format: Seq<char>) -> Option<(i32, u32, u32)>;

/// The text that chrono writes for the date in the given format, where it
/// knows the date.
pub uninterp spec fn formatted_date(year: i32, month: u32, day: u32, format: Seq<char>) -> Option<
    Seq<char>,
>;

/// Calls chrono's `NaiveDate::parse_from_str`, and hands back the year, month
/// and day of the date that it read, or `None` where it read none. What it
/// reads is a matter of the two texts alone.
#[verifier::external_body]
fn chrono_parse(text: &str, format: &str) -> (r: Option<(i32, u32, u32)>)
    ensures
        r == parsed_date(text@, format@),
{
    match chrono::NaiveDate::parse_from_str(text, format) {
        Ok(date) => Some((date.year(), date.month(), date.day())),
        Err(_) => None,
    }
}

/// Calls chrono's `Local::now` and `DateTime::date_naive`: the year, month and
/// day of the current local date. Nothing is claimed of it.
#[verifier::external_body]
fn chrono_today() -> (r: (i32, u32, u32)) {
    let date = chrono::Local::now().date_naive();
    (date.year(), date.month(), date.day())
}

/// Calls chrono's `NaiveDate::from_ymd_opt` and `NaiveDate::format`: the text
/// that chrono writes for the date in the format of this library, or `None`
/// where chrono knows no such date.
#[verifier::external_body]
fn chrono_format(year: i32, month: u32, day: u32, format: &str) -> (r: Option<String>)
    requires
        format@ == DATE_FORMAT@,
    ensures
        match r {
            Some(text) => formatted_date(year, month, day, format@) == Some(text@),
            None => formatted_date(year, month, day, format@) is None,
        },
{
    match chrono::NaiveDate::from_ymd_opt(year, month, day) {
        Some(date) => Some(date.format(format).to_string()),
        None => None,
    }
}

/// The date of the given parts, where there are parts and they name a day.
pub open spec fn date_of_parts(parts: Option<(i32, u32, u32)>) -> Option<Date> {
    match parts {
        Some((year, month, day)) => if is_calendar_date(year as int, month as int, day as int) {
            Some(Date { year, month, day })
        } else {
            None
        },
        None => None,
    }
}

/// The date of the given parts, where there are parts and they name a day.
pub fn date_from_parts(parts: Option<(i32, u32, u32)>) -> (r: Option<Date>)
    ensures
        r == date_of_parts(parts),
{
    match parts {
        Some((year, month, day)) => Date::new(year, month, day),
        None => None,
    }
}

/// Whether the text is the word that stands for the current date.
fn is_now(text: &str) -> (r: bool)
    ensures
        r == (text@ == "now"@),
{
    proof {
        reveal_strlit("now");
    }
    if text.unicode_len() != 3 {
        return false;
    }
    let same = text.get_char(0) == 'n' && text.get_char(1) == 'o' && text.get_char(2) == 'w';
    proof {
        if same {
            assert(text@ =~= "now"@);
        }
    }
    same
}

/// Reads a date: the word `now` stands for the current local date, any other
/// text is read as year, month and day.
pub fn parse_date(text: &str) -> (r: Option<Date>)
    ensures
        text@ != "now"@ ==> r == date_of_parts(parsed_date(text@, DATE_FORMAT@)),
        r matches Some(date) ==> date.is_valid(),
{
    if is_now(text) {
        date_from_parts(Some(chrono_today()))
    } else {
        date_from_parts(chrono_parse(text, DATE_FORMAT))
    }
}

impl Date {
    /// The date written as year, month and day, where chrono knows the date.
    pub fn to_text(&self) -> (r: Option<String>)
        ensures
            match r {
                Some(text) => formatted_date(self.year, self.month, self.day, DATE_FORMAT@) == Some(
                    text@,
                ),
                None => formatted_date(self.year, self.month, self.day, DATE_FORMAT@) is None,
            },
    {
        chrono_format(self.year, self.month, self.day, DATE_FORMAT)
    }
}

} // verus!
