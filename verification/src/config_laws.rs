//! What holds of the configuration.

use crate::config;
use crate::config::{CalendarSource, Schedule, SourceKind};
use crate::dates::Weekday;
use crate::scheduler;
use vstd::prelude::*;

verus! {

/// The name of a day of the week, counted from Monday.
pub open spec fn day_name(index: int) -> Seq<char> {
    if index == 0 {
        "monday"@
    } else if index == 1 {
        "tuesday"@
    } else if index == 2 {
        "wednesday"@
    } else if index == 3 {
        "thursday"@
    } else if index == 4 {
        "friday"@
    } else if index == 5 {
        "saturday"@
    } else {
        "sunday"@
    }
}

/// A day of the week is known by its name and by the first three letters of its name.
pub proof fn lemma_days_are_known_by_name(index: int)
    requires
        0 <= index < 7,
    ensures
        config::weekday_named(day_name(index)).index() == index,
        config::weekday_named(day_name(index).take(3)).index() == index,
{
    lemma_day_names();
    let name = day_name(index);
    let short = name.take(3);
    assert(short[0] == name[0] && short[1] == name[1] && short[2] == name[2]);
    if index == 1 {
        assert(short == "tue"@);
    } else if index == 2 {
        assert(short == "wed"@);
    } else if index == 3 {
        assert(short == "thu"@);
    } else if index == 4 {
        assert(short == "fri"@);
    } else if index == 5 {
        assert(short == "sat"@);
    } else if index == 6 {
        assert(short == "sun"@);
    }
}

/// A name that is none of a day, nor its first three letters, means Monday.
pub proof fn lemma_other_names_mean_monday(name: Seq<char>)
    requires
        forall|index: int|
            0 <= index < 7 ==> name != #[trigger] day_name(index) && name != day_name(index).take(3),
    ensures
        config::weekday_named(name) == Weekday::Mon,
{
    lemma_day_names();
    assert(name != day_name(1) && name != day_name(1).take(3));
    assert(name != day_name(2) && name != day_name(2).take(3));
    assert(name != day_name(3) && name != day_name(3).take(3));
    assert(name != day_name(4) && name != day_name(4).take(3));
    assert(name != day_name(5) && name != day_name(5).take(3));
    assert(name != day_name(6) && name != day_name(6).take(3));
    assert(day_name(1).take(3) == "tue"@);
    assert(day_name(2).take(3) == "wed"@);
    assert(day_name(3).take(3) == "thu"@);
    assert(day_name(4).take(3) == "fri"@);
    assert(day_name(5).take(3) == "sat"@);
    assert(day_name(6).take(3) == "sun"@);
}

/// The characters of the names.
proof fn lemma_day_names()
    ensures
        "monday"@ == seq!['m', 'o', 'n', 'd', 'a', 'y'],
        "tuesday"@ == seq!['t', 'u', 'e', 's', 'd', 'a', 'y'],
        "wednesday"@ == seq!['w', 'e', 'd', 'n', 'e', 's', 'd', 'a', 'y'],
        "thursday"@ == seq!['t', 'h', 'u', 'r', 's', 'd', 'a', 'y'],
        "friday"@ == seq!['f', 'r', 'i', 'd', 'a', 'y'],
        "saturday"@ == seq!['s', 'a', 't', 'u', 'r', 'd', 'a', 'y'],
        "sunday"@ == seq!['s', 'u', 'n', 'd', 'a', 'y'],
        "tue"@ == seq!['t', 'u', 'e'],
        "wed"@ == seq!['w', 'e', 'd'],
        "thu"@ == seq!['t', 'h', 'u'],
        "fri"@ == seq!['f', 'r', 'i'],
        "sat"@ == seq!['s', 'a', 't'],
        "sun"@ == seq!['s', 'u', 'n'],
{
    reveal_strlit("monday");
    reveal_strlit("tuesday");
    reveal_strlit("wednesday");
    reveal_strlit("thursday");
    reveal_strlit("friday");
    reveal_strlit("saturday");
    reveal_strlit("sunday");
    reveal_strlit("tue");
    reveal_strlit("wed");
    reveal_strlit("thu");
    reveal_strlit("fri");
    reveal_strlit("sat");
    reveal_strlit("sun");
    assert("monday"@ =~= seq!['m', 'o', 'n', 'd', 'a', 'y']);
    assert("tuesday"@ =~= seq!['t', 'u', 'e', 's', 'd', 'a', 'y']);
    assert("wednesday"@ =~= seq!['w', 'e', 'd', 'n', 'e', 's', 'd', 'a', 'y']);
    assert("thursday"@ =~= seq!['t', 'h', 'u', 'r', 's', 'd', 'a', 'y']);
    assert("friday"@ =~= seq!['f', 'r', 'i', 'd', 'a', 'y']);
    assert("saturday"@ =~= seq!['s', 'a', 't', 'u', 'r', 'd', 'a', 'y']);
    assert("sunday"@ =~= seq!['s', 'u', 'n', 'd', 'a', 'y']);
    assert("tue"@ =~= seq!['t', 'u', 'e']);
    assert("wed"@ =~= seq!['w', 'e', 'd']);
    assert("thu"@ =~= seq!['t', 'h', 'u']);
    assert("fri"@ =~= seq!['f', 'r', 'i']);
    assert("sat"@ =~= seq!['s', 'a', 't']);
    assert("sun"@ =~= seq!['s', 'u', 'n']);
}

/// Whether two characters are the same but for upper and lower case, among the letters of ASCII.
pub open spec fn same_letter(a: char, b: char) -> bool {
    ||| a == b
    ||| 'A' <= a <= 'Z' && b as int == a as int + 32
    ||| 'A' <= b <= 'Z' && a as int == b as int + 32
}

/// Upper and lower case do not matter for a name in ASCII, and a name in lower case stays as it is.
pub proof fn lemma_case_does_not_matter(a: Seq<char>, b: Seq<char>)
    requires
        vstd::utf8::is_ascii_chars(a),
        vstd::utf8::is_ascii_chars(b),
        a.len() == b.len(),
        forall|i: int| 0 <= i < a.len() ==> same_letter(#[trigger] a[i], b[i]),
    ensures
        config::lower_case(a) == config::lower_case(b),
        (forall|i: int| 0 <= i < a.len() ==> !('A' <= #[trigger] a[i] <= 'Z')) ==> config::lower_case(
            a,
        ) == a,
{
    assert forall|i: int| 0 <= i < a.len() implies config::lower_case(a)[i] == config::lower_case(
        b,
    )[i] by {
        assert(same_letter(a[i], b[i]));
    }
    assert(config::lower_case(a) == config::lower_case(b));
    if forall|i: int| 0 <= i < a.len() ==> !('A' <= #[trigger] a[i] <= 'Z') {
        assert(config::lower_case(a) == a);
    }
}

/// The week's summary is posted on the day that the schedule names, by its name or the first three
/// letters of it, in upper or lower case.
pub proof fn lemma_day_of_the_weekly_summary(schedule: Schedule, index: int)
    requires
        0 <= index < 7,
        vstd::utf8::is_ascii_chars(schedule.weekly_day@),
        is_spelled(schedule.weekly_day@, day_name(index)) || is_spelled(
            schedule.weekly_day@,
            day_name(index).take(3),
        ),
    ensures
        scheduler::weekly_weekday(schedule).index() == index,
{
    let given = schedule.weekly_day@;
    lemma_days_are_known_by_name(index);
    lemma_day_names();
    let name = if is_spelled(given, day_name(index)) {
        day_name(index)
    } else {
        day_name(index).take(3)
    };
    assert forall|i: int| 0 <= i < name.len() implies 'a' <= #[trigger] name[i] <= 'z' by {
        assert(name[i] == day_name(index)[i]);
    }
    assert(vstd::utf8::is_ascii_chars(name));
    assert forall|i: int| 0 <= i < name.len() implies same_letter(#[trigger] name[i], given[i]) by {
        assert(same_letter(given[i], name[i]));
    }
    lemma_case_does_not_matter(name, given);
}

/// Whether two texts are the same but for upper and lower case.
pub open spec fn is_spelled(a: Seq<char>, b: Seq<char>) -> bool {
    a.len() == b.len() && forall|i: int| 0 <= i < a.len() ==> same_letter(#[trigger] a[i], b[i])
}

/// An account is asked for its calendars whatever else a source names, a collection is asked for its
/// events whatever file the source names, and otherwise the file is fetched.
pub proof fn lemma_kinds_of_sources(source: CalendarSource)
    ensures
        source.source_kind() == SourceKind::Account <==> source.caldav_account_url is Some,
        source.source_kind() == SourceKind::Collection <==> source.caldav_account_url is None
            && source.caldav_url is Some,
        source.source_kind() == SourceKind::File <==> source.caldav_account_url is None
            && source.caldav_url is None,
{
}

}
