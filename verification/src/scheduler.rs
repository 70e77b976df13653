//! When the next summary is due, and what a scheduler does next.

use crate::config;
use crate::config::Schedule;
use crate::dates;
use crate::dates::{Clock, Date, DateTime, TimeOfDay, Weekday};
use vstd::prelude::*;

verus! {

/// The day at the given time.
pub open spec fn at(date: Date, t: TimeOfDay) -> DateTime {
    DateTime { date, hour: t.hour, minute: t.minute, second: 0 }
}

/// The day at the given time.
pub fn at_time(date: Date, t: TimeOfDay) -> (r: DateTime)
    requires
        date.valid(),
        t.valid(),
    ensures
        r == at(date, t),
        r.valid(),
{
    DateTime { date, hour: t.hour, minute: t.minute, second: 0 }
}

/// How many seconds to sleep until `target`: the whole seconds that are left, none where the target
/// has passed.
pub fn seconds_until(target: DateTime, now: Clock) -> (r: u64)
    requires
        target.valid(),
        now.valid(),
    ensures
        r == if dates::seconds_between(target, now) > 0 {
            dates::seconds_between(target, now)
        } else {
            0
        },
{
    let secs: i64 = dates::whole_seconds(target, now);
    if secs > 0 {
        secs as u64
    } else {
        0
    }
}

/// How many days the next daily summary is away: none where the day's time is still to come.
pub open spec fn days_to_daily(now: Clock, t: TimeOfDay) -> int {
    if now.earlier_in_day(t) {
        0
    } else {
        1
    }
}

/// When the next daily summary is due.
pub fn next_daily(now: Clock, t: TimeOfDay) -> (r: DateTime)
    requires
        now.valid(),
        t.valid(),
        dates::in_range(now.at.date.number() + days_to_daily(now, t)),
    ensures
        r == at(dates::later(now.at.date, days_to_daily(now, t)), t),
        r.valid(),
        r.date.number() == now.at.date.number() + days_to_daily(now, t),
{
    let today: Date = now.at.date;
    if now.is_earlier_in_day(t) {
        proof {
            dates::lemma_later(today, 0, today);
        }
        at_time(today, t)
    } else {
        let tomorrow: Date = dates::plus_days(today, 1);
        proof {
            dates::lemma_later(today, 1, tomorrow);
        }
        at_time(tomorrow, t)
    }
}

/// How many days the next weekly summary is away: the days up to the next day of the given name, and
/// seven where that is the present day and its time has passed.
pub open spec fn days_to_weekly(now: Clock, weekday: Weekday, t: TimeOfDay) -> int {
    let days = (weekday.index() - now.at.date.weekday_index()) % 7;
    if days == 0 && !now.earlier_in_day(t) {
        7
    } else {
        days
    }
}

/// How many days the next weekly summary is away.
pub fn days_until_weekly(now: Clock, weekday: Weekday, t: TimeOfDay) -> (r: i64)
    requires
        now.valid(),
    ensures
        r == days_to_weekly(now, weekday, t),
        0 <= r <= 7,
{
    let wanted: i64 = weekday.num_days_from_monday();
    let present: i64 = dates::weekday(now.at.date).num_days_from_monday();
    let days: i64 = if wanted < present {
        wanted - present + 7
    } else {
        wanted - present
    };
    if days == 0 && !now.is_earlier_in_day(t) {
        7
    } else {
        days
    }
}

/// When the next weekly summary is due.
pub fn next_weekly(now: Clock, weekday: Weekday, t: TimeOfDay) -> (r: DateTime)
    requires
        now.valid(),
        t.valid(),
        dates::in_range(now.at.date.number() + days_to_weekly(now, weekday, t)),
    ensures
        r == at(dates::later(now.at.date, days_to_weekly(now, weekday, t)), t),
        r.valid(),
        r.date.number() == now.at.date.number() + days_to_weekly(now, weekday, t),
{
    let today: Date = now.at.date;
    let days: i64 = days_until_weekly(now, weekday, t);
    let target: Date = dates::plus_days(today, days);
    proof {
        dates::lemma_later(today, days as int, target);
    }
    at_time(target, t)
}

/// The day of the month that is meant by a number: the nearest of 1 to 31.
pub open spec fn day_of_month(day: int) -> int {
    if day < 1 {
        1
    } else if day > 31 {
        31
    } else {
        day
    }
}

/// The day of the month on which a month's summary is due: the given day, or the month's last.
pub open spec fn monthly_date(year: int, month: int, day: int) -> Date {
    let length = dates::days_in_month(year, month);
    let d = day_of_month(day);
    Date {
        year: year as i32,
        month: month as u32,
        day: if d < length {
            d as u32
        } else {
            length as u32
        },
    }
}

/// The year and the month behind the given ones.
pub open spec fn next_month(year: int, month: int) -> (int, int) {
    if month == 12 {
        (year + 1, 1)
    } else {
        (year, month + 1)
    }
}

/// Whether the summary of the present month is still to come.
pub open spec fn due_this_month(now: Clock, day: int, t: TimeOfDay) -> bool {
    let today = now.at.date;
    let date = monthly_date(today.year as int, today.month as int, day);
    today.before(date) || (date == today && now.earlier_in_day(t))
}

/// The day of the next monthly summary.
pub open spec fn next_monthly_date(now: Clock, day: int, t: TimeOfDay) -> Date {
    let today = now.at.date;
    if due_this_month(now, day, t) {
        monthly_date(today.year as int, today.month as int, day)
    } else {
        let (year, month) = next_month(today.year as int, today.month as int);
        monthly_date(year, month, day)
    }
}

/// When the next monthly summary is due.
pub fn next_monthly(now: Clock, day: u32, t: TimeOfDay) -> (r: DateTime)
    requires
        now.valid(),
        t.valid(),
        due_this_month(now, day as int, t) || now.at.date.year < dates::MAX_YEAR
            || now.at.date.month < 12,
    ensures
        r == at(next_monthly_date(now, day as int, t), t),
        r.valid(),
{
    let today: Date = now.at.date;
    let dom: u32 = clamped_day(day);
    let target: Date = if is_due_this_month(now, day, t) {
        dates::month_day(today.year, today.month, dom)
    } else {
        let (year, month): (i32, u32) = if today.month == 12 {
            (today.year + 1, 1)
        } else {
            (today.year, today.month + 1)
        };
        dates::month_day(year, month, dom)
    };
    at_time(target, t)
}

/// The day of the month that is meant by a number.
fn clamped_day(day: u32) -> (r: u32)
    ensures
        r == day_of_month(day as int),
{
    if day < 1 {
        1
    } else if day > 31 {
        31
    } else {
        day
    }
}

/// Whether the summary of the present month is still to come.
pub fn is_due_this_month(now: Clock, day: u32, t: TimeOfDay) -> (r: bool)
    requires
        now.valid(),
    ensures
        r == due_this_month(now, day as int, t),
{
    let today: Date = now.at.date;
    let candidate: Date = dates::month_day(today.year, today.month, clamped_day(day));
    assert(candidate == monthly_date(today.year as int, today.month as int, day as int));
    today.is_before(candidate) || (candidate == today && now.is_earlier_in_day(t))
}

/// What a scheduler is told.
#[derive(Clone, Copy, Debug)]
pub enum LoopEvent {
    /// It has been started.
    Started,
    /// The summary has been posted.
    Posted,
    /// It has slept to the end; `post_if_empty` is what the action to sleep held.
    Elapsed { post_if_empty: bool },
    /// The schedule has changed.
    Changed,
    /// The schedule will not change any more.
    Closed,
}

/// What a scheduler does next.
#[derive(Clone, Copy, Debug)]
pub enum LoopAction {
    /// Post the summary.
    Post { post_if_empty: bool },
    /// Wait until the schedule changes.
    AwaitChange,
    /// Sleep until the summary is due, or until the schedule changes.
    Sleep { secs: u64, target: DateTime, post_if_empty: bool },
    /// End.
    Stop,
}

/// What a scheduler does next once it has to plan: it sleeps until `target` where its summary is
/// enabled, and waits for a change where it is not.
pub open spec fn planned(enabled: bool, post_if_empty: bool, target: DateTime, now: Clock) -> LoopAction {
    if enabled {
        LoopAction::Sleep {
            secs: (if dates::seconds_between(target, now) > 0 {
                dates::seconds_between(target, now)
            } else {
                0
            }) as u64,
            target,
            post_if_empty,
        }
    } else {
        LoopAction::AwaitChange
    }
}

/// What a scheduler does without planning, where the event calls for no plan. In test mode it posts
/// once, where its summary is enabled, and ends.
pub open spec fn settled(test_mode: bool, event: LoopEvent, enabled: bool, post_if_empty: bool) -> Option<
    LoopAction,
> {
    if test_mode {
        if event is Started && enabled {
            Some(LoopAction::Post { post_if_empty })
        } else {
            Some(LoopAction::Stop)
        }
    } else {
        match event {
            LoopEvent::Elapsed { post_if_empty } => Some(LoopAction::Post { post_if_empty }),
            LoopEvent::Closed => Some(LoopAction::Stop),
            _ => None,
        }
    }
}

/// What a scheduler does without planning, where the event calls for no plan.
pub fn settle(test_mode: bool, event: LoopEvent, enabled: bool, post_if_empty: bool) -> (r: Option<
    LoopAction,
>)
    ensures
        r == settled(test_mode, event, enabled, post_if_empty),
{
    if test_mode {
        return match event {
            LoopEvent::Started if enabled => Some(LoopAction::Post { post_if_empty }),
            _ => Some(LoopAction::Stop),
        };
    }
    match event {
        LoopEvent::Elapsed { post_if_empty } => Some(LoopAction::Post { post_if_empty }),
        LoopEvent::Closed => Some(LoopAction::Stop),
        _ => None,
    }
}

/// Whether a plan for the day's summary stays within the calendar.
pub open spec fn daily_plannable(schedule: Schedule, now: Clock) -> bool {
    schedule.daily_enabled ==> schedule.daily_time.valid() && dates::in_range(
        now.at.date.number() + days_to_daily(now, schedule.daily_time),
    )
}

/// What the scheduler of the day's summary does next.
pub open spec fn daily_action(
    test_mode: bool,
    event: LoopEvent,
    schedule: Schedule,
    now: Clock,
) -> LoopAction {
    match settled(test_mode, event, schedule.daily_enabled, schedule.daily_post_if_empty) {
        Some(action) => action,
        None => planned(
            schedule.daily_enabled,
            schedule.daily_post_if_empty,
            at(
                dates::later(now.at.date, days_to_daily(now, schedule.daily_time)),
                schedule.daily_time,
            ),
            now,
        ),
    }
}

/// Whether the scheduler of the day's summary knows what to do next.
pub open spec fn daily_defined(
    test_mode: bool,
    event: LoopEvent,
    schedule: Schedule,
    now: Clock,
) -> bool {
    settled(test_mode, event, schedule.daily_enabled, schedule.daily_post_if_empty) is None
        ==> daily_plannable(schedule, now)
}

/// What the scheduler of the day's summary does next; nothing where a plan would leave the calendar.
pub fn daily_step(test_mode: bool, event: LoopEvent, schedule: &Schedule, now: Clock) -> (r:
    Option<LoopAction>)
    requires
        now.valid(),
    ensures
        r is Some <==> daily_defined(test_mode, event, *schedule, now),
        r matches Some(action) ==> action == daily_action(test_mode, event, *schedule, now),
{
    if let Some(action) = settle(
        test_mode,
        event,
        schedule.daily_enabled,
        schedule.daily_post_if_empty,
    ) {
        return Some(action);
    }
    if !schedule.daily_enabled {
        return Some(LoopAction::AwaitChange);
    }
    let t: TimeOfDay = schedule.daily_time;
    let days: i64 = if now.is_earlier_in_day(t) {
        0
    } else {
        1
    };
    if !t.is_valid() || !dates::reaches(now.at.date, days) {
        return None;
    }
    let target: DateTime = next_daily(now, t);
    Some(
        LoopAction::Sleep {
            secs: seconds_until(target, now),
            target,
            post_if_empty: schedule.daily_post_if_empty,
        },
    )
}

/// Whether a plan for the week's summary on the given day of the week stays within the calendar.
pub open spec fn weekly_plannable(schedule: Schedule, weekday: Weekday, now: Clock) -> bool {
    schedule.weekly_enabled ==> schedule.weekly_time.valid() && dates::in_range(
        now.at.date.number() + days_to_weekly(now, weekday, schedule.weekly_time),
    )
}

/// What the scheduler of the week's summary does next, the summary being posted on the given day of
/// the week.
pub open spec fn weekly_action(
    test_mode: bool,
    event: LoopEvent,
    schedule: Schedule,
    weekday: Weekday,
    now: Clock,
) -> LoopAction {
    match settled(test_mode, event, schedule.weekly_enabled, schedule.weekly_post_if_empty) {
        Some(action) => action,
        None => planned(
            schedule.weekly_enabled,
            schedule.weekly_post_if_empty,
            at(
                dates::later(now.at.date, days_to_weekly(now, weekday, schedule.weekly_time)),
                schedule.weekly_time,
            ),
            now,
        ),
    }
}

/// Whether the scheduler of the week's summary knows what to do next.
pub open spec fn weekly_defined(
    test_mode: bool,
    event: LoopEvent,
    schedule: Schedule,
    weekday: Weekday,
    now: Clock,
) -> bool {
    settled(test_mode, event, schedule.weekly_enabled, schedule.weekly_post_if_empty) is None
        ==> weekly_plannable(schedule, weekday, now)
}

/// What the scheduler of the week's summary does next, the summary being posted on the given day of
/// the week; nothing where a plan would leave the calendar.
pub fn weekly_step_on(
    test_mode: bool,
    event: LoopEvent,
    schedule: &Schedule,
    weekday: Weekday,
    now: Clock,
) -> (r: Option<LoopAction>)
    requires
        now.valid(),
    ensures
        r is Some <==> weekly_defined(test_mode, event, *schedule, weekday, now),
        r matches Some(action) ==> action == weekly_action(
            test_mode,
            event,
            *schedule,
            weekday,
            now,
        ),
{
    if let Some(action) = settle(
        test_mode,
        event,
        schedule.weekly_enabled,
        schedule.weekly_post_if_empty,
    ) {
        return Some(action);
    }
    if !schedule.weekly_enabled {
        return Some(LoopAction::AwaitChange);
    }
    let t: TimeOfDay = schedule.weekly_time;
    let days: i64 = days_until_weekly(now, weekday, t);
    if !t.is_valid() || !dates::reaches(now.at.date, days) {
        return None;
    }
    let target: DateTime = next_weekly(now, weekday, t);
    Some(
        LoopAction::Sleep {
            secs: seconds_until(target, now),
            target,
            post_if_empty: schedule.weekly_post_if_empty,
        },
    )
}

/// The day of the week on which the week's summary is posted.
pub open spec fn weekly_weekday(schedule: Schedule) -> Weekday {
    config::weekday_named(config::lower_case(schedule.weekly_day@))
}

/// What the scheduler of the week's summary does next; nothing where a plan would leave the calendar.
pub fn weekly_step(test_mode: bool, event: LoopEvent, schedule: &Schedule, now: Clock) -> (r:
    Option<LoopAction>)
    requires
        now.valid(),
    ensures
        r is Some <==> weekly_defined(
            test_mode,
            event,
            *schedule,
            weekly_weekday(*schedule),
            now,
        ),
        r matches Some(action) ==> action == weekly_action(
            test_mode,
            event,
            *schedule,
            weekly_weekday(*schedule),
            now,
        ),
{
    let weekday: Weekday = config::parse_weekday(schedule.weekly_day.as_str());
    weekly_step_on(test_mode, event, schedule, weekday, now)
}

/// Whether a plan for the month's summary stays within the calendar.
pub open spec fn monthly_plannable(schedule: Schedule, now: Clock) -> bool {
    schedule.monthly_enabled ==> schedule.monthly_time.valid() && (due_this_month(
        now,
        schedule.monthly_day as int,
        schedule.monthly_time,
    ) || now.at.date.year < dates::MAX_YEAR || now.at.date.month < 12)
}

/// What the scheduler of the month's summary does next.
pub open spec fn monthly_action(
    test_mode: bool,
    event: LoopEvent,
    schedule: Schedule,
    now: Clock,
) -> LoopAction {
    match settled(test_mode, event, schedule.monthly_enabled, schedule.monthly_post_if_empty) {
        Some(action) => action,
        None => planned(
            schedule.monthly_enabled,
            schedule.monthly_post_if_empty,
            at(
                next_monthly_date(now, schedule.monthly_day as int, schedule.monthly_time),
                schedule.monthly_time,
            ),
            now,
        ),
    }
}

/// Whether the scheduler of the month's summary knows what to do next.
pub open spec fn monthly_defined(
    test_mode: bool,
    event: LoopEvent,
    schedule: Schedule,
    now: Clock,
) -> bool {
    settled(test_mode, event, schedule.monthly_enabled, schedule.monthly_post_if_empty) is None
        ==> monthly_plannable(schedule, now)
}

/// What the scheduler of the month's summary does next; nothing where a plan would leave the calendar.
pub fn monthly_step(test_mode: bool, event: LoopEvent, schedule: &Schedule, now: Clock) -> (r:
    Option<LoopAction>)
    requires
        now.valid(),
    ensures
        r is Some <==> monthly_defined(test_mode, event, *schedule, now),
        r matches Some(action) ==> action == monthly_action(test_mode, event, *schedule, now),
{
    if let Some(action) = settle(
        test_mode,
        event,
        schedule.monthly_enabled,
        schedule.monthly_post_if_empty,
    ) {
        return Some(action);
    }
    if !schedule.monthly_enabled {
        return Some(LoopAction::AwaitChange);
    }
    let t: TimeOfDay = schedule.monthly_time;
    if !t.is_valid() {
        return None;
    }
    if now.at.date.year == dates::MAX_YEAR && now.at.date.month == 12 && !is_due_this_month(
        now,
        schedule.monthly_day,
        t,
    ) {
        return None;
    }
    let target: DateTime = next_monthly(now, schedule.monthly_day, t);
    Some(
        LoopAction::Sleep {
            secs: seconds_until(target, now),
            target,
            post_if_empty: schedule.monthly_post_if_empty,
        },
    )
}

}
