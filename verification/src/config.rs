//! What the bot is told to do: where its calendars are, and when it posts.

use crate::dates::{TimeOfDay, Weekday};
use crate::ics;
use crate::text;
use vstd::prelude::*;

verus! {

/// A place from which calendars are fetched.
#[derive(Clone, Debug)]
pub struct CalendarSource {
    /// The address of a calendar file.
    pub ics_url: Option<String>,
    /// The address of a CalDAV collection.
    pub caldav_url: Option<String>,
    /// The address of a CalDAV account, all of whose calendars are fetched.
    pub caldav_account_url: Option<String>,
    /// The user name for HTTP basic authentication.
    pub username: Option<String>,
    /// The password for HTTP basic authentication.
    pub password: Option<String>,
    /// The calendars of an account that are passed over, by the last part of their address.
    pub exclude: Vec<String>,
}

/// How the calendars of a source are fetched.
#[derive(Clone, Copy, Debug, PartialEq, Eq, Structural)]
pub enum SourceKind {
    /// The account is asked for its calendars, and each of them for its events.
    Account,
    /// The collection is asked for its events.
    Collection,
    /// The file is fetched.
    File,
}

impl CalendarSource {
    /// How the calendars of the source are fetched: an account comes before a collection, and a
    /// collection before a file.
    pub open spec fn source_kind(self) -> SourceKind {
        if self.caldav_account_url is Some {
            SourceKind::Account
        } else if self.caldav_url is Some {
            SourceKind::Collection
        } else {
            SourceKind::File
        }
    }

    /// How the calendars of the source are fetched.
    pub fn kind(&self) -> (r: SourceKind)
        ensures
            r == self.source_kind(),
    {
        if self.caldav_account_url.is_some() {
            SourceKind::Account
        } else if self.caldav_url.is_some() {
            SourceKind::Collection
        } else {
            SourceKind::File
        }
    }

    /// The user name and the password that a request carries, where the source has both.
    pub fn credentials(&self) -> (r: Option<(&str, &str)>)
        ensures
            r is Some <==> self.username is Some && self.password is Some,
            r matches Some(c) ==> c.0@ == self.username->0@ && c.1@ == self.password->0@,
    {
        match (&self.username, &self.password) {
            (Some(u), Some(p)) => Some((u.as_str(), p.as_str())),
            _ => None,
        }
    }

    /// The source of one calendar of the account: its collection, with the account's user name and
    /// password.
    pub fn collection(&self, url: &str) -> (r: CalendarSource)
        ensures
            ics::opt_text(r.caldav_url) == Some(url@),
            r.ics_url is None,
            r.caldav_account_url is None,
            ics::opt_text(r.username) == ics::opt_text(self.username),
            ics::opt_text(r.password) == ics::opt_text(self.password),
            r.exclude@.len() == 0,
            r.source_kind() == SourceKind::Collection,
    {
        CalendarSource {
            caldav_url: Some(url.to_owned()),
            caldav_account_url: None,
            ics_url: None,
            username: match &self.username {
                Some(u) => Some(u.clone()),
                None => None,
            },
            password: match &self.password {
                Some(p) => Some(p.clone()),
                None => None,
            },
            exclude: Vec::new(),
        }
    }
}

/// What is on unless it is switched off.
pub fn default_true() -> (r: bool)
    ensures
        r,
{
    true
}

/// The day of the week on which the week's summary is posted unless another is named.
pub fn default_weekly_day() -> (r: String)
    ensures
        r@ == "monday"@,
{
    "monday".to_owned()
}

/// The day of the month on which the month's summary is posted unless another is named.
pub fn default_monthly_day() -> (r: u32)
    ensures
        r == 1,
{
    1
}

/// The time at which summaries are posted unless another is named.
pub fn default_reminder_time() -> (r: TimeOfDay)
    ensures
        r == (TimeOfDay { hour: 7, minute: 0 }),
        r.valid(),
{
    TimeOfDay::new(7, 0)
}

/// What `str::to_lowercase` makes of a text.
pub uninterp spec fn lowercased(s: Seq<char>) -> Seq<char>;

/// The letter in lower case, where it is one of `A` to `Z`.
pub open spec fn ascii_lower(c: char) -> char {
    if 'A' <= c <= 'Z' {
        (c as u32 + 32) as char
    } else {
        c
    }
}

/// The text with its letters `A` to `Z` in lower case.
pub open spec fn ascii_lowercased(s: Seq<char>) -> Seq<char> {
    s.map_values(|c: char| ascii_lower(c))
}

/// Calls `str::to_lowercase`. What comes out is a function of the text; in an ASCII text the letters
/// are put in lower case and the rest is kept.
#[verifier::external_body]
fn to_lowercase(s: &str) -> (r: String)
    ensures
        r@ == lowercased(s@),
        vstd::utf8::is_ascii_chars(s@) ==> r@ == ascii_lowercased(s@),
{
    s.to_lowercase()
}

/// The text in lower case: in an ASCII text the letters `A` to `Z` are, and std says what becomes of
/// other texts.
pub open spec fn lower_case(s: Seq<char>) -> Seq<char> {
    if vstd::utf8::is_ascii_chars(s) {
        ascii_lowercased(s)
    } else {
        lowercased(s)
    }
}

/// The day of the week that a name in lower case, whole or in three letters, stands for; Monday where
/// it is no such name.
pub open spec fn weekday_named(name: Seq<char>) -> Weekday {
    if name == "tuesday"@ || name == "tue"@ {
        Weekday::Tue
    } else if name == "wednesday"@ || name == "wed"@ {
        Weekday::Wed
    } else if name == "thursday"@ || name == "thu"@ {
        Weekday::Thu
    } else if name == "friday"@ || name == "fri"@ {
        Weekday::Fri
    } else if name == "saturday"@ || name == "sat"@ {
        Weekday::Sat
    } else if name == "sunday"@ || name == "sun"@ {
        Weekday::Sun
    } else {
        Weekday::Mon
    }
}

/// The day of the week that a name in lower case stands for.
pub fn weekday_from_name(name: &str) -> (r: Weekday)
    ensures
        r == weekday_named(name@),
{
    let n: Vec<char> = text::chars_of(name);
    let n: &[char] = n.as_slice();
    if text::same_text(n, "tuesday") || text::same_text(n, "tue") {
        Weekday::Tue
    } else if text::same_text(n, "wednesday") || text::same_text(n, "wed") {
        Weekday::Wed
    } else if text::same_text(n, "thursday") || text::same_text(n, "thu") {
        Weekday::Thu
    } else if text::same_text(n, "friday") || text::same_text(n, "fri") {
        Weekday::Fri
    } else if text::same_text(n, "saturday") || text::same_text(n, "sat") {
        Weekday::Sat
    } else if text::same_text(n, "sunday") || text::same_text(n, "sun") {
        Weekday::Sun
    } else {
        Weekday::Mon
    }
}

/// The day of the week that a name stands for, in upper or lower case; Monday where it is no name of
/// a day.
pub fn parse_weekday(s: &str) -> (r: Weekday)
    ensures
        r == weekday_named(lower_case(s@)),
{
    let lower: String = to_lowercase(s);
    weekday_from_name(lower.as_str())
}

/// When and how the day's summary is posted.
#[derive(Clone, Debug)]
pub struct DailySummaryConfig {
    pub enabled: bool,
    pub time: TimeOfDay,
    pub post_if_empty: bool,
}

impl Default for DailySummaryConfig {
    fn default() -> (r: Self)
        ensures
            r.enabled,
            r.time == (TimeOfDay { hour: 7, minute: 0 }),
            !r.post_if_empty,
    {
        Self { enabled: true, time: default_reminder_time(), post_if_empty: false }
    }
}

/// When and how the week's summary is posted.
#[derive(Clone, Debug)]
pub struct WeeklySummaryConfig {
    pub enabled: bool,
    /// The day of the week on which it is posted.
    pub day: String,
    pub time: TimeOfDay,
    pub post_if_empty: bool,
}

impl Default for WeeklySummaryConfig {
    fn default() -> (r: Self)
        ensures
            !r.enabled,
            r.day@ == "monday"@,
            r.time == (TimeOfDay { hour: 7, minute: 0 }),
            !r.post_if_empty,
    {
        Self {
            enabled: false,
            day: default_weekly_day(),
            time: default_reminder_time(),
            post_if_empty: false,
        }
    }
}

/// When and how the month's summary is posted.
#[derive(Clone, Debug)]
pub struct MonthlySummaryConfig {
    pub enabled: bool,
    /// The day of the month on which it is posted, the last one where the month is shorter.
    pub day: u32,
    pub time: TimeOfDay,
    pub post_if_empty: bool,
}

impl Default for MonthlySummaryConfig {
    fn default() -> (r: Self)
        ensures
            !r.enabled,
            r.day == 1,
            r.time == (TimeOfDay { hour: 7, minute: 0 }),
            !r.post_if_empty,
    {
        Self {
            enabled: false,
            day: default_monthly_day(),
            time: default_reminder_time(),
            post_if_empty: false,
        }
    }
}

/// The calendars and their summaries.
#[derive(Clone, Debug)]
pub struct CalendarConfig {
    pub sources: Vec<CalendarSource>,
    pub daily: DailySummaryConfig,
    pub weekly: WeeklySummaryConfig,
    pub monthly: MonthlySummaryConfig,
}

/// When the summaries are posted, as it can be changed while the bot runs.
#[derive(Clone, Debug)]
pub struct Schedule {
    pub daily_enabled: bool,
    pub daily_time: TimeOfDay,
    pub daily_post_if_empty: bool,
    pub weekly_enabled: bool,
    pub weekly_day: String,
    pub weekly_time: TimeOfDay,
    pub weekly_post_if_empty: bool,
    pub monthly_enabled: bool,
    pub monthly_day: u32,
    pub monthly_time: TimeOfDay,
    pub monthly_post_if_empty: bool,
}

impl Schedule {
    /// The schedule that the configuration asks for.
    pub fn from_config(config: &CalendarConfig) -> (r: Self)
        ensures
            r.daily_enabled == config.daily.enabled,
            r.daily_time == config.daily.time,
            r.daily_post_if_empty == config.daily.post_if_empty,
            r.weekly_enabled == config.weekly.enabled,
            r.weekly_day@ == config.weekly.day@,
            r.weekly_time == config.weekly.time,
            r.weekly_post_if_empty == config.weekly.post_if_empty,
            r.monthly_enabled == config.monthly.enabled,
            r.monthly_day == config.monthly.day,
            r.monthly_time == config.monthly.time,
            r.monthly_post_if_empty == config.monthly.post_if_empty,
    {
        Self {
            daily_enabled: config.daily.enabled,
            daily_time: config.daily.time,
            daily_post_if_empty: config.daily.post_if_empty,
            weekly_enabled: config.weekly.enabled,
            weekly_day: config.weekly.day.clone(),
            weekly_time: config.weekly.time,
            weekly_post_if_empty: config.weekly.post_if_empty,
            monthly_enabled: config.monthly.enabled,
            monthly_day: config.monthly.day,
            monthly_time: config.monthly.time,
            monthly_post_if_empty: config.monthly.post_if_empty,
        }
    }
}

}
