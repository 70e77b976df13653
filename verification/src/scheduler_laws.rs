//! What holds of the schedule: each summary is planned for the first of its times that is still to
//! come, and the sleep ends when that time comes.

use crate::config::Schedule;
use crate::dates;
use crate::dates::{Clock, Date, DateTime, TimeOfDay, Weekday};
use crate::scheduler;
use crate::scheduler::{LoopAction, LoopEvent};
use vstd::prelude::*;

verus! {

/// Whether `target` is still to come.
pub open spec fn is_ahead(target: DateTime, now: Clock) -> bool {
    target.seconds() > now.at.seconds()
}

/// A time of a day is still to come where the day is, or where it is the present day and the clock
/// does not show the time yet.
proof fn lemma_ahead(date: Date, t: TimeOfDay, now: Clock)
    requires
        date.valid(),
        now.valid(),
        t.valid(),
    ensures
        is_ahead(scheduler::at(date, t), now) <==> now.at.date.number() < date.number() || (
        now.at.date == date && now.earlier_in_day(t)),
{
    dates::lemma_order(date, now.at.date);
}

/// When the day's summary is planned.
pub open spec fn daily_target(now: Clock, t: TimeOfDay) -> DateTime {
    scheduler::at(dates::later(now.at.date, scheduler::days_to_daily(now, t)), t)
}

/// The day's summary is planned for the first moment that is still to come at which the clock shows
/// its time, which is at most a day away.
pub proof fn lemma_daily_is_next(now: Clock, t: TimeOfDay, date: Date)
    requires
        now.valid(),
        t.valid(),
        dates::in_range(now.at.date.number() + scheduler::days_to_daily(now, t)),
        date.valid(),
    ensures
        daily_target(now, t).valid(),
        is_ahead(daily_target(now, t), now),
        daily_target(now, t).seconds() - now.at.seconds() <= 86400,
        is_ahead(scheduler::at(date, t), now) ==> daily_target(now, t).seconds() <= scheduler::at(
            date,
            t,
        ).seconds(),
{
    let target = daily_target(now, t);
    dates::lemma_later_exists(now.at.date, scheduler::days_to_daily(now, t) as nat);
    lemma_ahead(target.date, t, now);
    lemma_ahead(date, t, now);
    dates::lemma_order(target.date, now.at.date);
}

/// When the week's summary is planned.
pub open spec fn weekly_target(now: Clock, weekday: Weekday, t: TimeOfDay) -> DateTime {
    scheduler::at(dates::later(now.at.date, scheduler::days_to_weekly(now, weekday, t)), t)
}

/// The week's summary is planned for the first moment that is still to come at which it is the given
/// day of the week and the clock shows its time, which is at most seven days away.
pub proof fn lemma_weekly_is_next(now: Clock, weekday: Weekday, t: TimeOfDay, date: Date)
    requires
        now.valid(),
        t.valid(),
        dates::in_range(now.at.date.number() + scheduler::days_to_weekly(now, weekday, t)),
        date.valid(),
        date.weekday_index() == weekday.index(),
    ensures
        weekly_target(now, weekday, t).valid(),
        weekly_target(now, weekday, t).date.weekday_index() == weekday.index(),
        is_ahead(weekly_target(now, weekday, t), now),
        weekly_target(now, weekday, t).seconds() - now.at.seconds() <= 7 * 86400,
        is_ahead(scheduler::at(date, t), now) ==> weekly_target(now, weekday, t).seconds()
            <= scheduler::at(date, t).seconds(),
{
    let target = weekly_target(now, weekday, t);
    let today = now.at.date;
    let n = today.number();
    let w = weekday.index();
    let days = scheduler::days_to_weekly(now, weekday, t);
    assert(0 <= w < 7);
    lemma_next_weekday(n - 1, w, date.number() - 1);
    dates::lemma_later_exists(today, days as nat);
    assert(target.date.valid() && target.date.number() == n + days);
    assert(target == scheduler::at(target.date, t));
    lemma_ahead(target.date, t, now);
    lemma_ahead(date, t, now);
    dates::lemma_order(target.date, today);
    dates::lemma_order(date, today);
    assert(target.date.weekday_index() == w) by {
        lemma_weeks_later(n - 1, w);
    }
    if is_ahead(scheduler::at(date, t), now) {
        assert(n + days <= date.number());
    }
}

/// The number of days up to the next day of a name, and what that says of a later day of the name.
proof fn lemma_next_weekday(n: int, w: int, m: int)
    requires
        0 <= w < 7,
        m % 7 == w,
    ensures
        0 <= (w - n % 7) % 7 < 7,
        m >= n ==> m - n >= (w - n % 7) % 7,
        m > n && (w - n % 7) % 7 == 0 ==> m - n >= 7,
{
    let days = (w - n % 7) % 7;
    lemma_weeks_later(n, w);
    assert((m - (n + days)) % 7 == 0);
}

/// The next day of a name is of that name, and so is the day seven days behind it.
proof fn lemma_weeks_later(n: int, w: int)
    requires
        0 <= w < 7,
    ensures
        (n + (w - n % 7) % 7) % 7 == w,
        (n + (w - n % 7) % 7 + 7) % 7 == w,
{
}

/// A month's summary is due on one of the month's days.
proof fn lemma_monthly_date(year: int, month: int, day: int)
    requires
        dates::MIN_YEAR <= year <= dates::MAX_YEAR,
        1 <= month <= 12,
    ensures
        scheduler::monthly_date(year, month, day).valid(),
        scheduler::monthly_date(year, month, day).year == year,
        scheduler::monthly_date(year, month, day).month == month,
{
}

/// The month's summary is planned for the first moment that is still to come at which it is the
/// given day of a month, or the last day of a month that has no such day, and the clock shows its
/// time. It belongs to the present month or to the next.
pub proof fn lemma_monthly_is_next(now: Clock, day: int, t: TimeOfDay, year: int, month: int)
    requires
        now.valid(),
        t.valid(),
        scheduler::due_this_month(now, day, t) || now.at.date.year < dates::MAX_YEAR
            || now.at.date.month < 12,
        dates::MIN_YEAR <= year <= dates::MAX_YEAR,
        1 <= month <= 12,
    ensures
        scheduler::next_monthly_date(now, day, t).valid(),
        is_ahead(scheduler::at(scheduler::next_monthly_date(now, day, t), t), now),
        is_ahead(scheduler::at(scheduler::monthly_date(year, month, day), t), now)
            ==> scheduler::at(scheduler::next_monthly_date(now, day, t), t).seconds()
            <= scheduler::at(scheduler::monthly_date(year, month, day), t).seconds(),
{
    let today = now.at.date;
    let this = scheduler::monthly_date(today.year as int, today.month as int, day);
    let target = scheduler::next_monthly_date(now, day, t);
    let date = scheduler::monthly_date(year, month, day);
    lemma_monthly_date(today.year as int, today.month as int, day);
    lemma_monthly_date(year, month, day);
    if !scheduler::due_this_month(now, day, t) {
        let (y, m) = scheduler::next_month(today.year as int, today.month as int);
        lemma_monthly_date(y, m, day);
    }
    lemma_ahead(target, t, now);
    lemma_ahead(date, t, now);
    lemma_ahead(this, t, now);
    dates::lemma_order(today, this);
    dates::lemma_order(today, target);
    dates::lemma_order(today, date);
    dates::lemma_order(date, target);
    dates::lemma_order(target, date);
}

/// The day of the month's summary is the given day where the month has it, and the month's last day
/// where it has not.
pub proof fn lemma_monthly_day(year: int, month: int, day: int)
    requires
        dates::MIN_YEAR <= year <= dates::MAX_YEAR,
        1 <= month <= 12,
        1 <= day <= 31,
    ensures
        dates::valid_ymd(year, month, day) ==> scheduler::monthly_date(year, month, day).day == day,
        !dates::valid_ymd(year, month, day) ==> scheduler::monthly_date(year, month, day).day
            == dates::days_in_month(year, month),
{
}

/// The moment, in nanoseconds.
pub open spec fn nanoseconds(now: Clock) -> int {
    now.at.seconds() * 1_000_000_000 + now.nanos
}

/// A sleep until a time that is still to come does not end behind it, and ends less than a second
/// before it.
pub proof fn lemma_sleep_ends_in_time(target: DateTime, now: Clock)
    requires
        now.valid(),
        is_ahead(target, now),
    ensures
        dates::seconds_between(target, now) >= 0,
        nanoseconds(now) + dates::seconds_between(target, now) * 1_000_000_000 <= target.seconds()
            * 1_000_000_000,
        target.seconds() * 1_000_000_000 < nanoseconds(now) + (dates::seconds_between(target, now)
            + 1) * 1_000_000_000,
{
}

/// Whether an action, where it is to sleep, is to sleep until `plan`, and `plan` is still to come.
pub open spec fn sleeps_until(action: LoopAction, plan: DateTime, now: Clock) -> bool {
    action matches LoopAction::Sleep { secs, target, .. } ==> {
        &&& target == plan
        &&& is_ahead(plan, now)
        &&& secs == dates::seconds_between(plan, now)
    }
}

/// A plan that is still to come is slept for.
proof fn lemma_planned(enabled: bool, post_if_empty: bool, plan: DateTime, now: Clock)
    requires
        now.valid(),
        enabled ==> plan.valid() && is_ahead(plan, now),
    ensures
        sleeps_until(scheduler::planned(enabled, post_if_empty, plan, now), plan, now),
{
    if enabled {
        dates::lemma_range_bounds();
        dates::lemma_in_range(plan.date);
        dates::lemma_in_range(now.at.date);
        let secs = dates::seconds_between(plan, now);
        assert(0 <= secs <= 400_000_000 * 86400 + 86400);
    }
}

/// Whenever the scheduler of the day's summary sleeps, it sleeps until the time that is planned, which
/// is still to come.
pub proof fn lemma_daily_sleep(event: LoopEvent, schedule: Schedule, now: Clock)
    requires
        now.valid(),
        scheduler::daily_defined(false, event, schedule, now),
    ensures
        sleeps_until(
            scheduler::daily_action(false, event, schedule, now),
            daily_target(now, schedule.daily_time),
            now,
        ),
{
    let t = schedule.daily_time;
    if scheduler::daily_action(false, event, schedule, now) is Sleep {
        lemma_daily_is_next(now, t, now.at.date);
        lemma_planned(true, schedule.daily_post_if_empty, daily_target(now, t), now);
    }
}

/// Whenever the scheduler of the week's summary sleeps, it sleeps until the time that is planned,
/// which is still to come.
pub proof fn lemma_weekly_sleep(
    event: LoopEvent,
    schedule: Schedule,
    weekday: Weekday,
    now: Clock,
)
    requires
        now.valid(),
        scheduler::weekly_defined(false, event, schedule, weekday, now),
    ensures
        sleeps_until(
            scheduler::weekly_action(false, event, schedule, weekday, now),
            weekly_target(now, weekday, schedule.weekly_time),
            now,
        ),
{
    let t = schedule.weekly_time;
    if scheduler::weekly_action(false, event, schedule, weekday, now) is Sleep {
        lemma_weekly_ahead(now, weekday, t);
        lemma_planned(true, schedule.weekly_post_if_empty, weekly_target(now, weekday, t), now);
    }
}

/// When the month's summary is planned.
pub open spec fn monthly_target(now: Clock, day: int, t: TimeOfDay) -> DateTime {
    scheduler::at(scheduler::next_monthly_date(now, day, t), t)
}

/// Whenever the scheduler of the month's summary sleeps, it sleeps until the time that is planned,
/// which is still to come.
pub proof fn lemma_monthly_sleep(event: LoopEvent, schedule: Schedule, now: Clock)
    requires
        now.valid(),
        scheduler::monthly_defined(false, event, schedule, now),
    ensures
        sleeps_until(
            scheduler::monthly_action(false, event, schedule, now),
            monthly_target(now, schedule.monthly_day as int, schedule.monthly_time),
            now,
        ),
{
    let t = schedule.monthly_time;
    let day = schedule.monthly_day as int;
    let today = now.at.date;
    if scheduler::monthly_action(false, event, schedule, now) is Sleep {
        lemma_monthly_is_next(now, day, t, today.year as int, today.month as int);
        lemma_planned(true, schedule.monthly_post_if_empty, monthly_target(now, day, t), now);
    }
}

/// The plan of the week's summary is still to come.
proof fn lemma_weekly_ahead(now: Clock, weekday: Weekday, t: TimeOfDay)
    requires
        now.valid(),
        t.valid(),
        dates::in_range(now.at.date.number() + scheduler::days_to_weekly(now, weekday, t)),
    ensures
        weekly_target(now, weekday, t).valid(),
        is_ahead(weekly_target(now, weekday, t), now),
{
    let n = now.at.date.number();
    let w = weekday.index();
    let days = scheduler::days_to_weekly(now, weekday, t);
    assert(0 <= days);
    assert((n - 1 + days) % 7 == w);
    dates::lemma_later_exists(now.at.date, days as nat);
    lemma_weekly_is_next(now, weekday, t, weekly_target(now, weekday, t).date);
}

/// In test mode each scheduler posts at most once: it posts right away where its summary is enabled,
/// and whatever comes next it ends.
pub proof fn lemma_test_mode_posts_once(
    event: LoopEvent,
    schedule: Schedule,
    weekday: Weekday,
    now: Clock,
)
    ensures
        schedule.daily_enabled && event is Started <==> scheduler::daily_action(
            true,
            event,
            schedule,
            now,
        ) is Post,
        schedule.weekly_enabled && event is Started <==> scheduler::weekly_action(
            true,
            event,
            schedule,
            weekday,
            now,
        ) is Post,
        schedule.monthly_enabled && event is Started <==> scheduler::monthly_action(
            true,
            event,
            schedule,
            now,
        ) is Post,
        !(event is Started) ==> {
            &&& scheduler::daily_action(true, event, schedule, now) is Stop
            &&& scheduler::weekly_action(true, event, schedule, weekday, now) is Stop
            &&& scheduler::monthly_action(true, event, schedule, now) is Stop
        },
{
}

/// Out of test mode a scheduler posts when it has slept to the end, and only then; it posts as the
/// schedule said when the sleep began.
pub proof fn lemma_posts_after_sleeping(
    event: LoopEvent,
    schedule: Schedule,
    weekday: Weekday,
    now: Clock,
)
    ensures
        event is Elapsed <==> scheduler::daily_action(false, event, schedule, now) is Post,
        event is Elapsed <==> scheduler::weekly_action(false, event, schedule, weekday, now) is Post,
        event is Elapsed <==> scheduler::monthly_action(false, event, schedule, now) is Post,
        event matches LoopEvent::Elapsed { post_if_empty } ==> {
            let post = LoopAction::Post { post_if_empty };
            &&& scheduler::daily_action(false, event, schedule, now) == post
            &&& scheduler::weekly_action(false, event, schedule, weekday, now) == post
            &&& scheduler::monthly_action(false, event, schedule, now) == post
        },
{
}

/// A change of the schedule takes effect at once: a scheduler whose summary is not enabled any more
/// waits for the next change, and one whose summary is enabled sleeps.
pub proof fn lemma_change_takes_effect(schedule: Schedule, weekday: Weekday, now: Clock)
    ensures
        scheduler::daily_action(false, LoopEvent::Changed, schedule, now) is Sleep
            <==> schedule.daily_enabled,
        scheduler::daily_action(false, LoopEvent::Changed, schedule, now) is AwaitChange
            <==> !schedule.daily_enabled,
        scheduler::weekly_action(false, LoopEvent::Changed, schedule, weekday, now) is Sleep
            <==> schedule.weekly_enabled,
        scheduler::weekly_action(false, LoopEvent::Changed, schedule, weekday, now) is AwaitChange
            <==> !schedule.weekly_enabled,
        scheduler::monthly_action(false, LoopEvent::Changed, schedule, now) is Sleep
            <==> schedule.monthly_enabled,
        scheduler::monthly_action(false, LoopEvent::Changed, schedule, now) is AwaitChange
            <==> !schedule.monthly_enabled,
{
}

/// In test mode a scheduler that posts does so as the schedule says of empty times.
pub proof fn lemma_test_mode_posts_as_asked(schedule: Schedule, weekday: Weekday, now: Clock)
    ensures
        schedule.daily_enabled ==> scheduler::daily_action(
            true,
            LoopEvent::Started,
            schedule,
            now,
        ) == (LoopAction::Post { post_if_empty: schedule.daily_post_if_empty }),
        schedule.weekly_enabled ==> scheduler::weekly_action(
            true,
            LoopEvent::Started,
            schedule,
            weekday,
            now,
        ) == (LoopAction::Post { post_if_empty: schedule.weekly_post_if_empty }),
        schedule.monthly_enabled ==> scheduler::monthly_action(
            true,
            LoopEvent::Started,
            schedule,
            now,
        ) == (LoopAction::Post { post_if_empty: schedule.monthly_post_if_empty }),
{
}

/// Whether a scheduler makes a plan for a summary that is enabled or not: it sleeps, to post
/// afterwards as the schedule says of empty times, or it waits for a change.
pub open spec fn makes_a_plan(action: LoopAction, enabled: bool, post_if_empty: bool) -> bool {
    &&& enabled ==> (action matches LoopAction::Sleep { post_if_empty: later, .. } && later
        == post_if_empty)
    &&& !enabled ==> action == LoopAction::AwaitChange
}

/// Out of test mode a scheduler makes a plan when it has been started, when it has posted and when the
/// schedule has changed; it ends when the schedule will not change any more.
pub proof fn lemma_schedulers_plan(
    event: LoopEvent,
    schedule: Schedule,
    weekday: Weekday,
    now: Clock,
)
    ensures
        event is Started || event is Posted || event is Changed ==> {
            &&& makes_a_plan(
                scheduler::daily_action(false, event, schedule, now),
                schedule.daily_enabled,
                schedule.daily_post_if_empty,
            )
            &&& makes_a_plan(
                scheduler::weekly_action(false, event, schedule, weekday, now),
                schedule.weekly_enabled,
                schedule.weekly_post_if_empty,
            )
            &&& makes_a_plan(
                scheduler::monthly_action(false, event, schedule, now),
                schedule.monthly_enabled,
                schedule.monthly_post_if_empty,
            )
        },
        event is Closed ==> {
            &&& scheduler::daily_action(false, event, schedule, now) is Stop
            &&& scheduler::weekly_action(false, event, schedule, weekday, now) is Stop
            &&& scheduler::monthly_action(false, event, schedule, now) is Stop
        },
{
}

/// Every scheduler knows what to do next at every moment but the calendar's last days, where the times
/// of the schedule exist.
pub proof fn lemma_schedulers_know_what_to_do(
    test_mode: bool,
    event: LoopEvent,
    schedule: Schedule,
    weekday: Weekday,
    now: Clock,
)
    requires
        now.valid(),
        schedule.daily_time.valid(),
        schedule.weekly_time.valid(),
        schedule.monthly_time.valid(),
        now.at.date.year < dates::MAX_YEAR,
    ensures
        scheduler::daily_defined(test_mode, event, schedule, now),
        scheduler::weekly_defined(test_mode, event, schedule, weekday, now),
        scheduler::monthly_defined(test_mode, event, schedule, now),
{
    let d = now.at.date;
    dates::lemma_in_range(d);
    dates::lemma_day_in_year(d);
    let last = Date { year: dates::MAX_YEAR, month: 12, day: 31 };
    let first = Date { year: dates::MAX_YEAR, month: 1, day: 1 };
    dates::lemma_order(d, first);
    assert(first.number() + 30 <= last.number()) by {
        dates::lemma_months_add_up(dates::MAX_YEAR as int, 1, 12);
    }
    assert(0 <= scheduler::days_to_weekly(now, weekday, schedule.weekly_time) <= 7);
}

/// A plan for a summary that is enabled needs a time that exists.
pub proof fn lemma_no_plan_without_a_time(schedule: Schedule, weekday: Weekday, now: Clock)
    ensures
        schedule.daily_enabled && !schedule.daily_time.valid() ==> !scheduler::daily_defined(
            false,
            LoopEvent::Started,
            schedule,
            now,
        ),
        schedule.weekly_enabled && !schedule.weekly_time.valid() ==> !scheduler::weekly_defined(
            false,
            LoopEvent::Started,
            schedule,
            weekday,
            now,
        ),
        schedule.monthly_enabled && !schedule.monthly_time.valid() ==> !scheduler::monthly_defined(
            false,
            LoopEvent::Started,
            schedule,
            now,
        ),
{
}

/// A day of the month that no month has is the nearest that one has.
pub proof fn lemma_days_that_no_month_has(year: int, month: int, day: int)
    requires
        dates::MIN_YEAR <= year <= dates::MAX_YEAR,
        1 <= month <= 12,
    ensures
        day < 1 ==> scheduler::monthly_date(year, month, day).day == 1,
        day > 31 ==> scheduler::monthly_date(year, month, day).day == dates::days_in_month(
            year,
            month,
        ),
{
}

}
