# calendar_bot

A bot that reads iCalendar files and CalDAV accounts and posts summaries of the day, the week and the
month to Matrix rooms.

The rules live in `src/`, a library whose functions are proved with Verus against the contracts in
their headers, but for the calls into other crates named below:

- `ics`: unfolding, unescaping and reading iCalendar text
- `recurrence`: on which days a recurring event takes place
- `agenda`: the list of a day, a week or a month
- `message`: the summaries, plain and in HTML
- `caldav`: the requests to a CalDAV server and what is taken from the answers
- `config`: sources, summaries and their defaults
- `scheduler`: when the next summary is due, and what a scheduler does next
- `dates`, `text`: the calendar and the text functions that the others are built on

The modules that end in `_laws` state what holds across functions: what is written is read back, lists
are in order and lose nothing, a plan is the next time ahead.

Dates are computed, parsed and formatted by chrono and addresses by reqwest's `Url`; each call into
them stands in a small function whose doc comment says what is taken on trust.

`app/` is the program around the library: configuration files, HTTP, Matrix and the clock. It needs the
`mxbot_common` crate. `tests/` holds the library's tests.
