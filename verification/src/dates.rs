//! Days, clock times and the calendar they belong to.
//!
//! A [`Date`] is a day of the proleptic Gregorian calendar. Its model is its place in the count of
//! days in which 1 January of the year 1 is day 1: two days are as far apart as their numbers, and
//! the day of the week repeats every seven. Calendar arithmetic, parsing and formatting are
//! chrono's; the functions that call it state what chrono documents of the call.

use crate::text;
use vstd::prelude::*;

verus! {

/// The first year that chrono's dates reach.
pub const MIN_YEAR: i32 = -262143;

/// The last year that chrono's dates reach.
pub const MAX_YEAR: i32 = 262142;

/// A day of the week.
#[derive(Clone, Copy, Debug, PartialEq, Eq, Structural)]
pub enum Weekday {
    Mon,
    Tue,
    Wed,
    Thu,
    Fri,
    Sat,
    Sun,
}

impl Weekday {
    /// How many days the day lies behind Monday.
    pub open spec fn index(self) -> int {
        match self {
            Weekday::Mon => 0,
            Weekday::Tue => 1,
            Weekday::Wed => 2,
            Weekday::Thu => 3,
            Weekday::Fri => 4,
            Weekday::Sat => 5,
            Weekday::Sun => 6,
        }
    }

    /// How many days the day lies behind Monday.
    pub fn num_days_from_monday(self) -> (r: i64)
        ensures
            r == self.index(),
            0 <= r < 7,
    {
        match self {
            Weekday::Mon => 0,
            Weekday::Tue => 1,
            Weekday::Wed => 2,
            Weekday::Thu => 3,
            Weekday::Fri => 4,
            Weekday::Sat => 5,
            Weekday::Sun => 6,
        }
    }
}

/// Whether the year has a 29 February.
pub open spec fn is_leap(y: int) -> bool {
    y % 4 == 0 && (y % 100 != 0 || y % 400 == 0)
}

/// How many days the month has.
pub open spec fn days_in_month(y: int, m: int) -> int {
    if m == 2 {
        if is_leap(y) {
            29
        } else {
            28
        }
    } else if m == 4 || m == 6 || m == 9 || m == 11 {
        30
    } else {
        31
    }
}

/// Whether the year, month and day name a day that a date can hold.
pub open spec fn valid_ymd(y: int, m: int, d: int) -> bool {
    &&& MIN_YEAR <= y <= MAX_YEAR
    &&& 1 <= m <= 12
    &&& 1 <= d <= days_in_month(y, m)
}

/// How many days lie between the beginning of the year 1 and the beginning of the year `y`.
pub open spec fn days_before_year(y: int) -> int {
    365 * (y - 1) + (y - 1) / 4 - (y - 1) / 100 + (y - 1) / 400
}

/// How many days of the year lie before the month.
pub open spec fn days_before_month(y: int, m: int) -> int
    decreases m,
{
    if m <= 1 {
        0
    } else {
        days_before_month(y, m - 1) + days_in_month(y, m - 1)
    }
}

/// The number of the day in the count in which 1 January of the year 1 is day 1.
pub open spec fn day_number(y: int, m: int, d: int) -> int {
    days_before_year(y) + days_before_month(y, m) + d
}

/// Whether the count reaches a day that a date can hold.
pub open spec fn in_range(n: int) -> bool {
    day_number(MIN_YEAR as int, 1, 1) <= n <= day_number(MAX_YEAR as int, 12, 31)
}

/// A day of the proleptic Gregorian calendar.
#[derive(Clone, Copy, Debug, PartialEq, Eq, Structural)]
pub struct Date {
    pub year: i32,
    pub month: u32,
    pub day: u32,
}

impl Date {
    /// Whether the fields name a day of the calendar.
    pub open spec fn valid(self) -> bool {
        valid_ymd(self.year as int, self.month as int, self.day as int)
    }

    /// Whether the fields name a day of the calendar.
    pub fn is_valid(self) -> (r: bool)
        ensures
            r == self.valid(),
    {
        from_ymd_opt(self.year, self.month, self.day).is_some()
    }

    /// The day's place in the count of days.
    pub open spec fn number(self) -> int {
        day_number(self.year as int, self.month as int, self.day as int)
    }

    /// The day of the week, counted from Monday.
    pub open spec fn weekday_index(self) -> int {
        (self.number() - 1) % 7
    }

    /// Whether the day lies before `other`.
    pub open spec fn before(self, other: Date) -> bool {
        ||| self.year < other.year
        ||| self.year == other.year && self.month < other.month
        ||| self.year == other.year && self.month == other.month && self.day < other.day
    }

    /// Whether the day lies before `other`.
    pub fn is_before(self, other: Date) -> (r: bool)
        ensures
            r == self.before(other),
    {
        self.year < other.year || (self.year == other.year && (self.month < other.month || (
        self.month == other.month && self.day < other.day)))
    }
}

/// Calls `chrono::NaiveDate::from_ymd_opt`, which makes a date exactly where the month and the day
/// exist in the year and the year is in chrono's range.
#[verifier::external_body]
pub(crate) fn from_ymd_opt(year: i32, month: u32, day: u32) -> (r: Option<Date>)
    ensures
        r == if valid_ymd(year as int, month as int, day as int) {
            Some(Date { year, month, day })
        } else {
            None
        },
{
    chrono::NaiveDate::from_ymd_opt(year, month, day).map(
        |d|
            Date {
                year: chrono::Datelike::year(&d),
                month: chrono::Datelike::month(&d),
                day: chrono::Datelike::day(&d),
            },
    )
}

/// Calls `chrono::Datelike::weekday` on a `chrono::NaiveDate`: the days of the week follow each
/// other, and 1 January of the year 1 is a Monday.
#[verifier::external_body]
pub(crate) fn weekday(d: Date) -> (r: Weekday)
    requires
        d.valid(),
    ensures
        r.index() == d.weekday_index(),
{
    let d = chrono::NaiveDate::from_ymd_opt(d.year, d.month, d.day).unwrap();
    match chrono::Datelike::weekday(&d) {
        chrono::Weekday::Mon => Weekday::Mon,
        chrono::Weekday::Tue => Weekday::Tue,
        chrono::Weekday::Wed => Weekday::Wed,
        chrono::Weekday::Thu => Weekday::Thu,
        chrono::Weekday::Fri => Weekday::Fri,
        chrono::Weekday::Sat => Weekday::Sat,
        chrono::Weekday::Sun => Weekday::Sun,
    }
}

/// Calls `+` of a `chrono::NaiveDate` and a `chrono::Duration` of whole days: the date that many
/// days later. The call panics where that lies outside chrono's range.
#[verifier::external_body]
pub(crate) fn plus_days(d: Date, days: i64) -> (r: Date)
    requires
        d.valid(),
        in_range(d.number() + days),
    ensures
        r.valid(),
        r.number() == d.number() + days,
{
    let d = chrono::NaiveDate::from_ymd_opt(d.year, d.month, d.day).unwrap();
    let d = d + chrono::Duration::days(days);
    Date {
        year: chrono::Datelike::year(&d),
        month: chrono::Datelike::month(&d),
        day: chrono::Datelike::day(&d),
    }
}

/// Calls `-` of a `chrono::NaiveDate` and a `chrono::Duration` of whole days: the date that many
/// days earlier. The call panics where that lies outside chrono's range.
#[verifier::external_body]
pub(crate) fn minus_days(d: Date, days: i64) -> (r: Date)
    requires
        d.valid(),
        in_range(d.number() - days),
    ensures
        r.valid(),
        r.number() == d.number() - days,
{
    let d = chrono::NaiveDate::from_ymd_opt(d.year, d.month, d.day).unwrap();
    let d = d - chrono::Duration::days(days);
    Date {
        year: chrono::Datelike::year(&d),
        month: chrono::Datelike::month(&d),
        day: chrono::Datelike::day(&d),
    }
}

/// Calls `-` of two `chrono::NaiveDate`s and `num_days` of the difference: how many days lie
/// between them.
#[verifier::external_body]
pub(crate) fn days_since(later: Date, earlier: Date) -> (r: i64)
    requires
        later.valid(),
        earlier.valid(),
    ensures
        r == later.number() - earlier.number(),
{
    let later = chrono::NaiveDate::from_ymd_opt(later.year, later.month, later.day).unwrap();
    let earlier = chrono::NaiveDate::from_ymd_opt(
        earlier.year,
        earlier.month,
        earlier.day,
    ).unwrap();
    (later - earlier).num_days()
}

/// A clock time, to the minute.
#[derive(Clone, Copy, Debug, PartialEq, Eq, Structural)]
pub struct TimeOfDay {
    pub hour: u32,
    pub minute: u32,
}

impl TimeOfDay {
    /// Whether a clock shows the time.
    pub open spec fn valid(self) -> bool {
        self.hour < 24 && self.minute < 60
    }

    /// Whether a clock shows the time.
    pub fn is_valid(self) -> (r: bool)
        ensures
            r == self.valid(),
    {
        self.hour < 24 && self.minute < 60
    }

    /// The time `hour`:`minute`.
    pub fn new(hour: u32, minute: u32) -> (r: TimeOfDay)
        ensures
            r == (TimeOfDay { hour, minute }),
    {
        TimeOfDay { hour, minute }
    }
}

/// A second of a day.
#[derive(Clone, Copy, Debug, PartialEq, Eq, Structural)]
pub struct DateTime {
    pub date: Date,
    pub hour: u32,
    pub minute: u32,
    pub second: u32,
}

impl DateTime {
    /// Whether the fields name a second of the calendar.
    pub open spec fn valid(self) -> bool {
        self.date.valid() && self.hour < 24 && self.minute < 60 && self.second < 60
    }

    /// The number of the second in the count of days, taken as seconds.
    pub open spec fn seconds(self) -> int {
        self.date.number() * 86400 + self.hour * 3600 + self.minute * 60 + self.second
    }
}

/// What the clock on the wall shows: a second of a day and the nanoseconds since it began.
#[derive(Clone, Copy, Debug, PartialEq, Eq, Structural)]
pub struct Clock {
    pub at: DateTime,
    pub nanos: u32,
}

impl Clock {
    /// Whether the fields name a moment of the calendar.
    pub open spec fn valid(self) -> bool {
        self.at.valid() && self.nanos < 1_000_000_000
    }

    /// Whether the fields name a moment of the calendar.
    pub fn is_valid(self) -> (r: bool)
        ensures
            r == self.valid(),
    {
        self.at.date.is_valid() && self.at.hour < 24 && self.at.minute < 60 && self.at.second < 60
            && self.nanos < 1_000_000_000
    }

    /// Whether the time of the day is before `t`.
    pub open spec fn earlier_in_day(self, t: TimeOfDay) -> bool {
        self.at.hour < t.hour || (self.at.hour == t.hour && self.at.minute < t.minute)
    }

    /// Whether the time of the day is before `t`.
    pub fn is_earlier_in_day(self, t: TimeOfDay) -> (r: bool)
        ensures
            r == self.earlier_in_day(t),
    {
        self.at.hour < t.hour || (self.at.hour == t.hour && self.at.minute < t.minute)
    }
}

/// How many whole seconds lie between `now` and `target`: a second that has begun does not count
/// when the target is still ahead.
pub open spec fn seconds_between(target: DateTime, now: Clock) -> int {
    let d = target.seconds() - now.at.seconds();
    if now.nanos > 0 && d > 0 {
        d - 1
    } else {
        d
    }
}

/// Calls `-` of two `chrono::NaiveDateTime`s and `num_seconds` of the difference: how many whole
/// seconds lie between them, without the broken second that the nanoseconds leave.
#[verifier::external_body]
pub(crate) fn whole_seconds(target: DateTime, now: Clock) -> (r: i64)
    requires
        target.valid(),
        now.valid(),
    ensures
        r == seconds_between(target, now),
{
    let t = chrono::NaiveDate::from_ymd_opt(target.date.year, target.date.month, target.date.day)
        .unwrap().and_hms_opt(target.hour, target.minute, target.second).unwrap();
    let n = chrono::NaiveDate::from_ymd_opt(now.at.date.year, now.at.date.month, now.at.date.day)
        .unwrap().and_hms_nano_opt(now.at.hour, now.at.minute, now.at.second, now.nanos).unwrap();
    (t - n).num_seconds()
}

/// Calls `timestamp` of a `chrono::NaiveDateTime` taken as UTC: the seconds since the beginning of
/// 1 January 1970, which is the day with the number 719163.
#[verifier::external_body]
pub(crate) fn timestamp(t: DateTime) -> (r: i64)
    requires
        t.valid(),
    ensures
        r == t.seconds() - 719163 * 86400,
{
    chrono::NaiveDate::from_ymd_opt(t.date.year, t.date.month, t.date.day).unwrap().and_hms_opt(
        t.hour,
        t.minute,
        t.second,
    ).unwrap().and_utc().timestamp()
}

/// The decimal digit with the value `n`.
pub open spec fn digit(n: int) -> char {
    (48 + n % 10) as char
}

/// The value of a decimal digit.
pub open spec fn digit_value(c: char) -> int {
    c as int - 48
}

/// Whether `c` is a decimal digit.
pub open spec fn is_digit(c: char) -> bool {
    '0' <= c <= '9'
}

/// `n` in decimal, with zeros in front up to the width.
pub open spec fn zero_padded(n: nat, width: nat) -> Seq<char>
    decreases n + width,
{
    if n == 0 && width == 0 {
        Seq::empty()
    } else {
        zero_padded(
            n / 10,
            if width == 0 {
                0
            } else {
                (width - 1) as nat
            },
        ).push(digit(n as int))
    }
}

/// The year in at least four digits, with a sign where it lies before 0 or behind 9999.
pub open spec fn year_text(y: int) -> Seq<char> {
    if 0 <= y <= 9999 {
        zero_padded(y as nat, 4)
    } else if y > 9999 {
        seq!['+'] + zero_padded(y as nat, 4)
    } else {
        seq!['-'] + zero_padded((-y) as nat, 4)
    }
}

/// The weekday's name in three letters.
pub open spec fn short_weekday(index: int) -> Seq<char> {
    if index == 0 {
        "Mon"@
    } else if index == 1 {
        "Tue"@
    } else if index == 2 {
        "Wed"@
    } else if index == 3 {
        "Thu"@
    } else if index == 4 {
        "Fri"@
    } else if index == 5 {
        "Sat"@
    } else {
        "Sun"@
    }
}

/// The month's name.
pub open spec fn month_name(m: int) -> Seq<char> {
    if m == 1 {
        "January"@
    } else if m == 2 {
        "February"@
    } else if m == 3 {
        "March"@
    } else if m == 4 {
        "April"@
    } else if m == 5 {
        "May"@
    } else if m == 6 {
        "June"@
    } else if m == 7 {
        "July"@
    } else if m == 8 {
        "August"@
    } else if m == 9 {
        "September"@
    } else if m == 10 {
        "October"@
    } else if m == 11 {
        "November"@
    } else {
        "December"@
    }
}

/// What a specifier of a date format stands for: `Y` the year, `m` the month and `d` the day in
/// digits, `a` the weekday in three letters, `b` the month in three letters, `B` the month's name.
pub open spec fn date_field(d: Date, spec_char: char) -> Seq<char> {
    if spec_char == 'Y' {
        year_text(d.year as int)
    } else if spec_char == 'm' {
        zero_padded(d.month as nat, 2)
    } else if spec_char == 'd' {
        zero_padded(d.day as nat, 2)
    } else if spec_char == 'a' {
        short_weekday(d.weekday_index())
    } else if spec_char == 'b' {
        month_name(d.month as int).take(3)
    } else {
        month_name(d.month as int)
    }
}

/// Whether every `%` in a date format stands before one of the specifiers of [`date_field`].
pub open spec fn is_date_format(fmt: Seq<char>) -> bool {
    forall|i: int|
        0 <= i < fmt.len() && #[trigger] fmt[i] == '%' ==> i + 1 < fmt.len() && (fmt[i + 1] == 'Y'
            || fmt[i + 1] == 'm' || fmt[i + 1] == 'd' || fmt[i + 1] == 'a' || fmt[i + 1] == 'b'
            || fmt[i + 1] == 'B')
}

/// The date in a format: each specifier is replaced by what it stands for, the rest is kept.
pub open spec fn date_text(d: Date, fmt: Seq<char>) -> Seq<char>
    decreases fmt.len(),
{
    if fmt.len() == 0 {
        fmt
    } else if fmt[0] == '%' && fmt.len() >= 2 {
        date_field(d, fmt[1]) + date_text(d, fmt.skip(2))
    } else {
        seq![fmt[0]] + date_text(d, fmt.skip(1))
    }
}

/// Calls `chrono::NaiveDate::format` and writes the result out. Text that is no specifier is kept;
/// `%Y`, `%m`, `%d`, `%a`, `%b` and `%B` are replaced as chrono's table of specifiers says, the
/// names in English.
#[verifier::external_body]
pub(crate) fn format_date(d: Date, fmt: &str) -> (r: String)
    requires
        d.valid(),
        is_date_format(fmt@),
    ensures
        r@ == date_text(d, fmt@),
{
    chrono::NaiveDate::from_ymd_opt(d.year, d.month, d.day).unwrap().format(fmt).to_string()
}

/// The hour and the minute of a time, each in two digits.
pub open spec fn clock_text(t: DateTime) -> Seq<char> {
    zero_padded(t.hour as nat, 2) + ":"@ + zero_padded(t.minute as nat, 2)
}

/// Calls `chrono::NaiveDateTime::format` with the format `%H:%M` and writes the result out: the
/// hour and the minute in two digits each, with a colon between them.
#[verifier::external_body]
pub(crate) fn format_time(t: DateTime, fmt: &str) -> (r: String)
    requires
        t.valid(),
        fmt@ == "%H:%M"@,
    ensures
        r@ == clock_text(t),
{
    chrono::NaiveDate::from_ymd_opt(t.date.year, t.date.month, t.date.day).unwrap().and_hms_opt(
        t.hour,
        t.minute,
        t.second,
    ).unwrap().format(fmt).to_string()
}

/// Whether `s` holds decimal digits alone.
pub open spec fn all_digits(s: Seq<char>) -> bool {
    forall|i: int| 0 <= i < s.len() ==> is_digit(#[trigger] s[i])
}

/// The value of a run of decimal digits.
pub open spec fn digits_value(s: Seq<char>) -> int
    decreases s.len(),
{
    if s.len() == 0 {
        0
    } else {
        digits_value(s.drop_last()) * 10 + digit_value(s.last())
    }
}

/// What `chrono::NaiveDate::parse_from_str` makes of a text and a format: the year, the month and
/// the day.
pub uninterp spec fn parsed_date(s: Seq<char>, fmt: Seq<char>) -> Option<(i32, u32, u32)>;

/// Whether `s` is a day in eight digits.
pub open spec fn is_compact_date(s: Seq<char>) -> bool {
    s.len() == 8 && all_digits(s)
}

/// The day that eight digits name: four for the year, two for the month, two for the day.
pub open spec fn compact_date(s: Seq<char>) -> Option<(i32, u32, u32)> {
    let y = digits_value(s.subrange(0, 4));
    let m = digits_value(s.subrange(4, 6));
    let d = digits_value(s.subrange(6, 8));
    if valid_ymd(y, m, d) {
        Some((y as i32, m as u32, d as u32))
    } else {
        None
    }
}

/// The fields of a date that may be missing.
pub open spec fn ymd(d: Option<Date>) -> Option<(i32, u32, u32)> {
    match d {
        Some(d) => Some((d.year, d.month, d.day)),
        None => None,
    }
}

/// Calls `chrono::NaiveDate::parse_from_str` with the format `%Y%m%d`. What comes out is a function
/// of the text, and where it is a date, the date exists. Of a text of eight digits the first four
/// are the year, the next two the month, the last two the day. What chrono makes of other texts
/// (it skips white space, and takes signs and fewer digits) has a name only.
#[verifier::external_body]
pub(crate) fn parse_date(s: &str, fmt: &str) -> (r: Option<Date>)
    requires
        fmt@ == "%Y%m%d"@,
    ensures
        ymd(r) == parsed_date(s@, fmt@),
        r matches Some(d) ==> d.valid(),
        is_compact_date(s@) ==> ymd(r) == compact_date(s@),
{
    chrono::NaiveDate::parse_from_str(s, fmt).ok().map(
        |d|
            Date {
                year: chrono::Datelike::year(&d),
                month: chrono::Datelike::month(&d),
                day: chrono::Datelike::day(&d),
            },
    )
}

/// The day that a text names: eight digits name it directly, and chrono says which day other texts
/// name.
pub open spec fn date_in(s: Seq<char>) -> Option<(i32, u32, u32)> {
    if is_compact_date(s) {
        compact_date(s)
    } else {
        parsed_date(s, "%Y%m%d"@)
    }
}

/// What `chrono::NaiveDateTime::parse_from_str` makes of a text and a format: the year, the month,
/// the day, the hour, the minute and the second.
pub uninterp spec fn parsed_datetime(s: Seq<char>, fmt: Seq<char>) -> Option<
    (i32, u32, u32, u32, u32, u32),
>;

/// Whether `s` is a day in eight digits, a `T` and a time in six digits.
pub open spec fn is_compact_datetime(s: Seq<char>) -> bool {
    &&& s.len() == 15
    &&& all_digits(s.take(8))
    &&& s[8] == 'T'
    &&& all_digits(s.skip(9))
}

/// The second that a day in eight digits, a `T` and a time in six digits name. The sixtieth second
/// of a minute counts as the one before it.
pub open spec fn compact_datetime(s: Seq<char>) -> Option<(i32, u32, u32, u32, u32, u32)> {
    let h = digits_value(s.subrange(9, 11));
    let mi = digits_value(s.subrange(11, 13));
    let sec = digits_value(s.subrange(13, 15));
    match compact_date(s.take(8)) {
        Some((y, m, d)) if h < 24 && mi < 60 && sec <= 60 => Some(
            (
                y,
                m,
                d,
                h as u32,
                mi as u32,
                if sec == 60 {
                    59
                } else {
                    sec as u32
                },
            ),
        ),
        _ => None,
    }
}

/// The fields of a time that may be missing.
pub open spec fn ymd_hms(t: Option<DateTime>) -> Option<(i32, u32, u32, u32, u32, u32)> {
    match t {
        Some(t) => Some((t.date.year, t.date.month, t.date.day, t.hour, t.minute, t.second)),
        None => None,
    }
}

/// Calls `chrono::NaiveDateTime::parse_from_str` with the format `%Y%m%dT%H%M%S`. What comes out is
/// a function of the text, and where it is a time, the time exists. Eight digits, a `T` and six
/// digits are the date, the hour, the minute and the second; chrono holds a sixtieth second as the
/// fifty-ninth, lengthened. What it makes of other texts has a name only.
#[verifier::external_body]
pub(crate) fn parse_datetime(s: &str, fmt: &str) -> (r: Option<DateTime>)
    requires
        fmt@ == "%Y%m%dT%H%M%S"@,
    ensures
        ymd_hms(r) == parsed_datetime(s@, fmt@),
        r matches Some(t) ==> t.valid(),
        is_compact_datetime(s@) ==> ymd_hms(r) == compact_datetime(s@),
{
    let t = chrono::NaiveDateTime::parse_from_str(s, fmt).ok()?;
    let date = Date {
        year: chrono::Datelike::year(&t),
        month: chrono::Datelike::month(&t),
        day: chrono::Datelike::day(&t),
    };
    let hour = chrono::Timelike::hour(&t);
    let minute = chrono::Timelike::minute(&t);
    Some(DateTime { date, hour, minute, second: chrono::Timelike::second(&t) })
}

/// The second that a text names: eight digits, a `T` and six digits name it directly, and chrono says
/// which second other texts name.
pub open spec fn time_in(s: Seq<char>) -> Option<(i32, u32, u32, u32, u32, u32)> {
    if is_compact_datetime(s) {
        compact_datetime(s)
    } else {
        parsed_datetime(s, "%Y%m%dT%H%M%S"@)
    }
}

/// A year has 365 days, a leap year 366.
pub proof fn lemma_year_length(y: int)
    ensures
        days_before_year(y + 1) == days_before_year(y) + if is_leap(y) {
            366int
        } else {
            365int
        },
        days_before_month(y, 13) == days_before_year(y + 1) - days_before_year(y),
{
    lemma_months_total(y);
    let x = y - 1;
    assert(y / 4 == x / 4 + if y % 4 == 0 { 1int } else { 0int });
    assert(y / 100 == x / 100 + if y % 100 == 0 { 1int } else { 0int });
    assert(y / 400 == x / 400 + if y % 400 == 0 { 1int } else { 0int });
    assert(y % 400 == 0 ==> y % 100 == 0);
    assert(y % 100 == 0 ==> y % 4 == 0);
}

/// The months of a year add up to 365 days, to 366 in a leap year.
proof fn lemma_months_total(y: int)
    ensures
        days_before_month(y, 13) == if is_leap(y) {
            366int
        } else {
            365int
        },
{
    let leap: int = if is_leap(y) { 1 } else { 0 };
    assert(days_before_month(y, 1) == 0);
    assert(days_before_month(y, 2) == 31);
    assert(days_before_month(y, 3) == 59 + leap);
    assert(days_before_month(y, 4) == 90 + leap);
    assert(days_before_month(y, 5) == 120 + leap);
    assert(days_before_month(y, 6) == 151 + leap);
    assert(days_before_month(y, 7) == 181 + leap);
    assert(days_before_month(y, 8) == 212 + leap);
    assert(days_before_month(y, 9) == 243 + leap);
    assert(days_before_month(y, 10) == 273 + leap);
    assert(days_before_month(y, 11) == 304 + leap);
    assert(days_before_month(y, 12) == 334 + leap);
}

/// A month lies behind all the days of the months before it.
pub proof fn lemma_months_add_up(y: int, m1: int, m2: int)
    requires
        1 <= m1 < m2,
    ensures
        days_before_month(y, m1) >= 0,
        days_before_month(y, m1) + days_in_month(y, m1) <= days_before_month(y, m2),
    decreases m2,
{
    if m1 + 1 < m2 {
        lemma_months_add_up(y, m1, m2 - 1);
    } else if m1 > 1 {
        lemma_months_add_up(y, m1 - 1, m1);
    }
}

/// A year lies behind all the days of the years before it.
pub proof fn lemma_years_add_up(y1: int, y2: int)
    requires
        y1 < y2,
    ensures
        days_before_year(y1 + 1) <= days_before_year(y2),
    decreases y2 - y1,
{
    if y1 + 1 < y2 {
        lemma_years_add_up(y1, y2 - 1);
        lemma_year_length(y2 - 1);
    }
}

/// A valid day lies in its year.
pub proof fn lemma_day_in_year(d: Date)
    requires
        d.valid(),
    ensures
        days_before_year(d.year as int) < d.number() <= days_before_year(d.year + 1),
{
    lemma_year_length(d.year as int);
    lemma_months_add_up(d.year as int, d.month as int, 13);
}

/// The count of days follows the order of the calendar, and no two days share a number.
pub proof fn lemma_order(a: Date, b: Date)
    requires
        a.valid(),
        b.valid(),
    ensures
        a.before(b) <==> a.number() < b.number(),
        a == b <==> a.number() == b.number(),
{
    lemma_day_in_year(a);
    lemma_day_in_year(b);
    if a.year < b.year {
        lemma_years_add_up(a.year as int, b.year as int);
    } else if b.year < a.year {
        lemma_years_add_up(b.year as int, a.year as int);
    } else if a.month < b.month {
        lemma_months_add_up(a.year as int, a.month as int, b.month as int);
    } else if b.month < a.month {
        lemma_months_add_up(a.year as int, b.month as int, a.month as int);
    }
}

/// A valid day's number is in range.
pub proof fn lemma_in_range(d: Date)
    requires
        d.valid(),
    ensures
        in_range(d.number()),
{
    let first = Date { year: MIN_YEAR, month: 1, day: 1 };
    let last = Date { year: MAX_YEAR, month: 12, day: 31 };
    lemma_order(first, d);
    lemma_order(d, last);
}

/// Whether the calendar reaches the month's days and the day behind its last one.
pub open spec fn month_reached(year: int, month: int) -> bool {
    if month == 12 {
        MIN_YEAR <= year < MAX_YEAR
    } else {
        MIN_YEAR <= year <= MAX_YEAR && month < 12 && (month == 0 ==> MIN_YEAR < year)
    }
}

/// The day `day` of the given month, the month's last day where the month has no such day. (The
/// month before January is taken for the last December.)
pub fn month_day(year: i32, month: u32, day: u32) -> (r: Date)
    requires
        valid_ymd(year as int, month as int, day as int) || month_reached(
            year as int,
            month as int,
        ),
    ensures
        r.valid(),
        valid_ymd(year as int, month as int, day as int) ==> r == (Date { year, month, day }),
        !valid_ymd(year as int, month as int, day as int) ==> r == if month == 0 {
            Date { year: (year - 1) as i32, month: 12, day: 31 }
        } else {
            Date { year, month, day: days_in_month(year as int, month as int) as u32 }
        },
{
    match from_ymd_opt(year, month, day) {
        Some(d) => d,
        None => {
            let next: Date = first_of_next_month(year, month);
            let ghost last = if month == 0 {
                Date { year: (year - 1) as i32, month: 12, day: 31 }
            } else {
                Date { year, month, day: days_in_month(year as int, month as int) as u32 }
            };
            proof {
                lemma_last_of_month(year as int, month as int);
                lemma_in_range(last);
            }
            let r: Date = minus_days(next, 1);
            proof {
                lemma_order(r, last);
            }
            r
        },
    }
}

/// The first day of the month behind the given one.
pub open spec fn next_month_first(year: int, month: int) -> Date {
    if month == 12 {
        Date { year: (year + 1) as i32, month: 1, day: 1 }
    } else {
        Date { year: year as i32, month: (month + 1) as u32, day: 1 }
    }
}

/// The first day of the month behind the given one.
pub fn first_of_next_month(year: i32, month: u32) -> (r: Date)
    requires
        MIN_YEAR <= year <= MAX_YEAR,
        month <= 12,
        year < MAX_YEAR || month < 12,
    ensures
        r == next_month_first(year as int, month as int),
        r.valid(),
{
    let r: Option<Date> = if month == 12 {
        from_ymd_opt(year + 1, 1, 1)
    } else {
        from_ymd_opt(year, month + 1, 1)
    };
    r.unwrap()
}

/// The last day of a month comes right before the first day of the next one.
pub proof fn lemma_last_of_month(year: int, month: int)
    requires
        0 <= month,
        month_reached(year, month),
    ensures
        month >= 1 ==> next_month_first(year, month).number() == day_number(
            year,
            month,
            days_in_month(year, month),
        ) + 1,
        month == 0 ==> next_month_first(year, month).number() == day_number(year - 1, 12, 31) + 1,
{
    if month == 12 || month == 0 {
        let y = if month == 12 {
            year
        } else {
            year - 1
        };
        lemma_year_length(y);
        assert(days_before_month(y, 13) == days_before_month(y, 12) + days_in_month(y, 12));
    }
}

/// The days that a date can hold are fewer than two hundred million away from the beginning of the
/// count.
pub proof fn lemma_range_bounds()
    ensures
        day_number(MIN_YEAR as int, 1, 1) >= -200_000_000,
        day_number(MAX_YEAR as int, 12, 31) <= 200_000_000,
{
    lemma_months_add_up(MAX_YEAR as int, 12, 13);
    lemma_year_length(MAX_YEAR as int);
}

/// The day `n` days behind `d`.
pub open spec fn later(d: Date, n: int) -> Date {
    choose|r: Date| r.valid() && r.number() == d.number() + n
}

/// The day that lies `n` days behind another is the only one that does.
pub proof fn lemma_later(d: Date, n: int, r: Date)
    requires
        r.valid(),
        r.number() == d.number() + n,
    ensures
        r == later(d, n),
{
    lemma_order(r, later(d, n));
}

/// Every day but the calendar's last has one behind it.
proof fn lemma_day_behind(d: Date) -> (r: Date)
    requires
        d.valid(),
        in_range(d.number() + 1),
    ensures
        r.valid(),
        r.number() == d.number() + 1,
{
    if d.day < days_in_month(d.year as int, d.month as int) {
        Date { day: (d.day + 1) as u32, ..d }
    } else {
        if d.year < MAX_YEAR || d.month < 12 {
            lemma_last_of_month(d.year as int, d.month as int);
        }
        next_month_first(d.year as int, d.month as int)
    }
}

/// The calendar holds every day within its reach.
pub proof fn lemma_later_exists(d: Date, n: nat)
    requires
        d.valid(),
        in_range(d.number() + n),
    ensures
        later(d, n as int).valid(),
        later(d, n as int).number() == d.number() + n,
    decreases n,
{
    if n == 0 {
        lemma_later(d, 0, d);
    } else {
        lemma_in_range(d);
        lemma_later_exists(d, (n - 1) as nat);
        let r = lemma_day_behind(later(d, n - 1));
        lemma_later(d, n as int, r);
    }
}

/// Whether the calendar reaches the day `days` days behind `d`.
pub fn reaches(d: Date, days: i64) -> (r: bool)
    requires
        d.valid(),
        0 <= days,
    ensures
        r == in_range(d.number() + days),
{
    proof {
        lemma_in_range(d);
    }
    days <= days_since(Date { year: MAX_YEAR, month: 12, day: 31 }, d)
}

}
