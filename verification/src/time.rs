//! When a run started, and how long it took.

use vstd::prelude::*;

use crate::number;

verus! {

/// Whether a year of the Gregorian calendar has a leap day.
pub open spec fn is_leap_year(year: int) -> bool {
    year % 4 == 0 && (year % 100 != 0 || year % 400 == 0)
}

/// How many days a month of a year has.
pub open spec fn days_in_month(year: int, month: int) -> int {
    if month == 4 || month == 6 || month == 9 || month == 11 {
        30
    } else if month == 2 {
        if is_leap_year(year) {
            29
        } else {
            28
        }
    } else {
        31
    }
}

/// A date and a time of day on a wall clock.
pub struct MomentModel {
    pub year: int,
    pub month: int,
    pub day: int,
    pub hour: int,
    pub minute: int,
    pub second: int,
    /// Nanoseconds of the second; a second or more during a leap second.
    pub nano: int,
}

/// Whether a moment exists. A leap second follows the last second of a minute.
pub open spec fn is_moment(m: MomentModel) -> bool {
    &&& -262143 <= m.year <= 262142
    &&& 1 <= m.month <= 12
    &&& 1 <= m.day <= days_in_month(m.year, m.month)
    &&& 0 <= m.hour < 24
    &&& 0 <= m.minute < 60
    &&& 0 <= m.second < 60
    &&& 0 <= m.nano < 2_000_000_000
    &&& m.nano >= 1_000_000_000 ==> m.second == 59
}

/// A year, with a sign when it does not have four digits.
pub open spec fn year_text(year: int) -> Seq<char> {
    if year < 0 {
        seq!['-'] + number::padded((-year) as nat, 4)
    } else if year > 9999 {
        seq!['+'] + number::padded(year as nat, 4)
    } else {
        number::padded(year as nat, 4)
    }
}

/// A moment as `year-month-day hour:minute:second`.
pub open spec fn moment_text(m: MomentModel) -> Seq<char> {
    let second = m.second + m.nano / 1_000_000_000;
    year_text(m.year) + seq!['-'] + number::padded(m.month as nat, 2) + seq!['-'] + number::padded(
        m.day as nat,
        2,
    ) + seq![' '] + number::padded(m.hour as nat, 2) + seq![':'] + number::padded(
        m.minute as nat,
        2,
    ) + seq![':'] + number::padded(second as nat, 2)
}

/// Formats a moment with [`chrono::NaiveDateTime::format`].
///
/// Of the format `%Y-%m-%d %H:%M:%S` this claims what its specifiers are documented to write:
/// the year with at least four digits, and with a sign outside of 0 to 9999; each of the others
/// with two digits; and the sixtieth second during a leap second.
#[verifier::external_body]
fn format_moment(
    year: i32,
    month: u32,
    day: u32,
    hour: u32,
    minute: u32,
    second: u32,
    nano: u32,
) -> (text: String)
    requires
        is_moment(
            (MomentModel {
                year: year as int,
                month: month as int,
                day: day as int,
                hour: hour as int,
                minute: minute as int,
                second: second as int,
                nano: nano as int,
            }),
        ),
    ensures
        text@ == moment_text(
            (MomentModel {
                year: year as int,
                month: month as int,
                day: day as int,
                hour: hour as int,
                minute: minute as int,
                second: second as int,
                nano: nano as int,
            }),
        ),
{
    let date = chrono::NaiveDate::from_ymd_opt(year, month, day).unwrap();
    let moment = date.and_hms_nano_opt(hour, minute, second, nano).unwrap();
    moment.format("%Y-%m-%d %H:%M:%S").to_string()
}

/// A date and a time of day on a wall clock.
#[derive(Debug, Clone, Copy, PartialEq, Eq)]
pub struct Timestamp {
    year: i32,
    month: u32,
    day: u32,
    hour: u32,
    minute: u32,
    second: u32,
    nano: u32,
}

impl View for Timestamp {
    type V = MomentModel;

    closed spec fn view(&self) -> MomentModel {
        MomentModel {
            year: self.year as int,
            month: self.month as int,
            day: self.day as int,
            hour: self.hour as int,
            minute: self.minute as int,
            second: self.second as int,
            nano: self.nano as int,
        }
    }
}

impl Timestamp {
    #[verifier::type_invariant]
    spec fn exists_on_a_clock(self) -> bool {
        is_moment(self@)
    }

    /// The moment with these parts, if there is one.
    pub fn new(
        year: i32,
        month: u32,
        day: u32,
        hour: u32,
        minute: u32,
        second: u32,
        nano: u32,
    ) -> (moment: Option<Timestamp>)
        ensures
            ({
                let model = MomentModel {
                    year: year as int,
                    month: month as int,
                    day: day as int,
                    hour: hour as int,
                    minute: minute as int,
                    second: second as int,
                    nano: nano as int,
                };
                &&& moment is Some <==> is_moment(model)
                &&& moment matches Some(m) ==> m@ == model
            }),
    {
        if year < -262143 || year > 262142 || month < 1 || month > 12 {
            return None;
        }
        let leap = year % 4 == 0 && (year % 100 != 0 || year % 400 == 0);
        let days: u32 = if month == 4 || month == 6 || month == 9 || month == 11 {
            30
        } else if month == 2 {
            if leap {
                29
            } else {
                28
            }
        } else {
            31
        };
        if day < 1 || day > days || hour >= 24 || minute >= 60 || second >= 60 {
            return None;
        }
        if nano >= 2_000_000_000 || (nano >= 1_000_000_000 && second != 59) {
            return None;
        }
        Some(Timestamp { year, month, day, hour, minute, second, nano })
    }

    /// The moment as `year-month-day hour:minute:second`.
    pub fn text(&self) -> (text: String)
        ensures
            text@ == moment_text(self@),
    {
        proof {
            use_type_invariant(self);
        }
        format_moment(
            self.year,
            self.month,
            self.day,
            self.hour,
            self.minute,
            self.second,
            self.nano,
        )
    }
}

/// The number of seconds of a duration with two decimals, as the formatting of floating-point
/// numbers rounds it.
pub uninterp spec fn seconds_text(secs: u64, nanos: u32) -> Seq<char>;

/// Whether a text is a number with two decimals, and without needless zeros before them.
pub open spec fn has_two_decimals(text: Seq<char>) -> bool {
    &&& text.len() >= 4
    &&& text[text.len() - 3] == '.'
    &&& text.len() > 4 ==> text[0] != '0'
    &&& forall|i: int|
        0 <= i < text.len() && i != text.len() - 3 ==> number::is_digit(#[trigger] text[i])
}

/// How many hundredths a number with two decimals stands for.
pub open spec fn hundredths(text: Seq<char>) -> int {
    number::value(text.remove(text.len() - 3))
}

/// Formats a duration in seconds with the precision `.2`, by way of
/// [`std::time::Duration::as_secs_f64`].
///
/// This claims that the text depends on the duration alone, is a number with two decimals that
/// does not begin with needless zeros, and, up to 2^40 seconds, is less than a hundredth of a
/// second off. Which way a duration near the
/// middle of two hundredths goes is left unsaid: that lies in the binary form of the number.
#[verifier::external_body]
fn format_seconds(secs: u64, nanos: u32) -> (text: String)
    requires
        nanos < 1_000_000_000,
    ensures
        text@ == seconds_text(secs, nanos),
        has_two_decimals(text@),
        secs < 0x100_0000_0000 ==> -10_000_000 < hundredths(text@) * 10_000_000 - (secs
            * 1_000_000_000 + nanos) < 10_000_000,
{
    format!("{:.2}", std::time::Duration::new(secs, nanos).as_secs_f64())
}

/// The text of a span of time given in nanoseconds: its seconds, with two decimals.
pub open spec fn elapsed_text(nanos: int) -> Seq<char> {
    seconds_text((nanos / 1_000_000_000) as u64, (nanos % 1_000_000_000) as u32)
}

/// A span of time.
#[derive(Debug, Clone, Copy, PartialEq, Eq)]
pub struct Elapsed {
    secs: u64,
    nanos: u32,
}

impl View for Elapsed {
    type V = int;

    /// The span in nanoseconds.
    closed spec fn view(&self) -> int {
        self.secs * 1_000_000_000 + self.nanos
    }
}

impl Elapsed {
    #[verifier::type_invariant]
    spec fn is_normal(self) -> bool {
        self.nanos < 1_000_000_000
    }

    /// The span of so many seconds and nanoseconds of a second.
    pub fn new(secs: u64, nanos: u32) -> (span: Option<Elapsed>)
        ensures
            span is Some <==> nanos < 1_000_000_000,
            span matches Some(s) ==> s@ == secs * 1_000_000_000 + nanos,
    {
        if nanos >= 1_000_000_000 {
            return None;
        }
        Some(Elapsed { secs, nanos })
    }

    /// The span of so many seconds.
    pub fn from_secs(secs: u64) -> (span: Elapsed)
        ensures
            span@ == secs * 1_000_000_000,
    {
        Elapsed { secs, nanos: 0 }
    }

    /// Whether this span is at least as long as `limit`.
    pub fn reaches(&self, limit: Elapsed) -> (reached: bool)
        ensures
            reached == (self@ >= limit@),
    {
        proof {
            use_type_invariant(self);
            use_type_invariant(&limit);
        }
        self.secs > limit.secs || (self.secs == limit.secs && self.nanos >= limit.nanos)
    }

    /// The seconds of the span, with two decimals.
    pub fn text(&self) -> (text: String)
        ensures
            text@ == elapsed_text(self@),
            has_two_decimals(text@),
            self@ < 0x100_0000_0000 * 1_000_000_000 ==> -10_000_000 < hundredths(text@) * 10_000_000
                - self@ < 10_000_000,
    {
        proof {
            use_type_invariant(self);
            assert(self@ / 1_000_000_000 == self.secs);
            assert(self@ % 1_000_000_000 == self.nanos);
        }
        format_seconds(self.secs, self.nanos)
    }
}

/// The calendar: a year has 365 days, and 366 if it can be divided by four, but by a hundred only
/// if also by four hundred; February has the day that is added.
pub proof fn law_years_have_their_days(year: int)
    ensures
        ({
            let leap = year % 4 == 0 && (year % 100 != 0 || year % 400 == 0);
            let days = |month: int| days_in_month(year, month);
            &&& days(1) + days(2) + days(3) + days(4) + days(5) + days(6) + days(7) + days(8) + days(
                9,
            ) + days(10) + days(11) + days(12) == (if leap {
                366int
            } else {
                365
            })
            &&& days(2) == (if leap {
                29int
            } else {
                28
            })
            &&& forall|month: int|
                1 <= month <= 12 && month != 2 ==> 30 <= #[trigger] days_in_month(year, month) <= 31
        }),
{
}

/// Every second of every day is a moment, and a leap second after the last second of a minute is;
/// nothing beyond the end of a month, a day, an hour or a minute is one.
pub proof fn law_every_second_is_a_moment(m: MomentModel)
    requires
        -262143 <= m.year <= 262142,
        0 <= m.nano < 1_000_000_000,
    ensures
        is_moment(m) <==> 1 <= m.month <= 12 && 1 <= m.day <= days_in_month(m.year, m.month) && 0
            <= m.hour <= 23 && 0 <= m.minute <= 59 && 0 <= m.second <= 59,
        is_moment(m) && m.second == 59 ==> is_moment(
            (MomentModel { nano: m.nano + 1_000_000_000, ..m }),
        ),
{
}

} // verus!
