//! What holds of reading iCalendar text: folding and escaping are undone, what was written line by
//! line is read line by line, and neither the kind of line end nor the order of properties matters.

use crate::ics;
use crate::text;
use vstd::prelude::*;

verus! {

/// A line break at which a line is folded, and the space or tab behind it, by its number.
pub open spec fn fold_break(kind: int) -> Seq<char> {
    if kind == 0 {
        seq!['\r', '\n', ' ']
    } else if kind == 1 {
        seq!['\r', '\n', '\t']
    } else if kind == 2 {
        seq!['\n', ' ']
    } else {
        seq!['\n', '\t']
    }
}

/// A line that is folded: `head`, and then each of the further pieces behind its break.
pub open spec fn folded(head: Seq<char>, tail: Seq<(int, Seq<char>)>) -> Seq<char>
    decreases tail.len(),
{
    if tail.len() == 0 {
        head
    } else {
        head + (fold_break(tail[0].0) + folded(tail[0].1, tail.skip(1)))
    }
}

/// The line before it was folded.
pub open spec fn flat(head: Seq<char>, tail: Seq<(int, Seq<char>)>) -> Seq<char>
    decreases tail.len(),
{
    if tail.len() == 0 {
        head
    } else {
        head + flat(tail[0].1, tail.skip(1))
    }
}

/// Whether the text holds no line break.
pub open spec fn is_one_line(s: Seq<char>) -> bool {
    forall|i: int| 0 <= i < s.len() ==> #[trigger] s[i] != '\n' && s[i] != '\r'
}

/// Whether the pieces of a folded line hold no line breaks of their own.
pub open spec fn is_folding(head: Seq<char>, tail: Seq<(int, Seq<char>)>) -> bool {
    &&& is_one_line(head)
    &&& forall|i: int| 0 <= i < tail.len() ==> is_one_line((#[trigger] tail[i]).1)
}

/// A piece without line breaks stays.
proof fn lemma_piece(piece: Seq<char>, rest: Seq<char>)
    requires
        is_one_line(piece),
    ensures
        ics::unfolded(piece + rest) == piece + ics::unfolded(rest),
    decreases piece.len(),
{
    if piece.len() == 0 {
        assert(piece + rest == rest);
        assert(piece + ics::unfolded(rest) == ics::unfolded(rest));
    } else {
        let further = piece.skip(1);
        assert forall|i: int| 0 <= i < further.len() implies #[trigger] further[i] != '\n'
            && further[i] != '\r' by {
            assert(further[i] == piece[i + 1]);
        }
        lemma_piece(further, rest);
        assert((piece + rest)[0] == piece[0]);
        assert((piece + rest).skip(1) == further + rest);
        assert(seq![piece[0]] + (further + ics::unfolded(rest)) == piece + ics::unfolded(rest));
    }
}

/// A break goes.
proof fn lemma_break(kind: int, rest: Seq<char>)
    ensures
        ics::unfolded(fold_break(kind) + rest) == ics::unfolded(rest),
{
    let b = fold_break(kind);
    assert((b + rest).skip(b.len() as int) == rest);
    assert(ics::fold_len(b + rest) == b.len());
}

/// A folded line is put together, whatever follows it.
proof fn lemma_unfold_line(head: Seq<char>, tail: Seq<(int, Seq<char>)>, rest: Seq<char>)
    requires
        is_folding(head, tail),
    ensures
        ics::unfolded(folded(head, tail) + rest) == flat(head, tail) + ics::unfolded(rest),
        is_one_line(flat(head, tail)),
    decreases tail.len(),
{
    if tail.len() == 0 {
        lemma_piece(head, rest);
    } else {
        let b = fold_break(tail[0].0);
        let next = tail[0].1;
        let further = tail.skip(1);
        assert(is_one_line(tail[0].1));
        assert forall|i: int| 0 <= i < further.len() implies is_one_line(
            (#[trigger] further[i]).1,
        ) by {
            assert(is_one_line(tail[i + 1].1));
        }
        lemma_unfold_line(next, further, rest);
        let s = folded(next, further) + rest;
        assert(folded(head, tail) + rest == head + (b + s));
        lemma_piece(head, b + s);
        lemma_break(tail[0].0, s);
        assert(head + (flat(next, further) + ics::unfolded(rest)) == (head + flat(next, further))
            + ics::unfolded(rest));
    }
}

/// Unfolding undoes folding: a line that was broken anywhere, each time by a line break with a space
/// or a tab behind it, is put together as it was.
pub proof fn lemma_unfold_undoes_folding(head: Seq<char>, tail: Seq<(int, Seq<char>)>)
    requires
        is_folding(head, tail),
    ensures
        ics::unfolded(folded(head, tail)) == flat(head, tail),
{
    let none = Seq::<char>::empty();
    lemma_unfold_line(head, tail, none);
    assert(folded(head, tail) + none == folded(head, tail));
    assert(flat(head, tail) + ics::unfolded(none) == flat(head, tail));
}

/// Whether no fold reaches from the end of `a` into `b`.
pub open spec fn are_apart(a: Seq<char>, b: Seq<char>) -> bool {
    a.len() > 0 && b.len() > 0 ==> {
        &&& a.last() != '\r'
        &&& a.last() == '\n' ==> !ics::is_blank(b[0])
    }
}

/// Two texts are unfolded one by one, where no fold reaches from the one into the other.
pub proof fn lemma_unfold_apart(a: Seq<char>, b: Seq<char>)
    requires
        are_apart(a, b),
    ensures
        ics::unfolded(a + b) == ics::unfolded(a) + ics::unfolded(b),
    decreases a.len(),
{
    let s = a + b;
    if a.len() == 0 {
        assert(s == b);
        assert(ics::unfolded(a) + ics::unfolded(b) == ics::unfolded(b));
    } else if b.len() == 0 {
        assert(s == a);
        assert(ics::unfolded(a) + ics::unfolded(b) == ics::unfolded(a));
    } else {
        assert(s[0] == a[0]);
        if a.len() >= 2 {
            assert(s[1] == a[1]);
        }
        if a.len() >= 3 {
            assert(s[2] == a[2]);
        }
        assert(ics::fold_len(s) == ics::fold_len(a));
        let k = if ics::fold_len(a) > 0 {
            ics::fold_len(a)
        } else {
            1
        };
        let further = a.skip(k);
        assert(s.skip(k) == further + b);
        if further.len() > 0 {
            assert(further.last() == a.last());
        }
        lemma_unfold_apart(further, b);
        if ics::fold_len(a) == 0 {
            assert(seq![a[0]] + (ics::unfolded(further) + ics::unfolded(b)) == seq![a[0]]
                + ics::unfolded(further) + ics::unfolded(b));
        }
    }
}

/// A text that ends with neither a space nor a tab ends the same when it is unfolded.
proof fn lemma_unfolded_end(s: Seq<char>)
    requires
        s.len() > 0,
        !ics::is_blank(s.last()),
    ensures
        ics::unfolded(s).len() > 0,
        ics::unfolded(s).last() == s.last(),
    decreases s.len(),
{
    let k = if ics::fold_len(s) > 0 {
        ics::fold_len(s)
    } else {
        1
    };
    let further = s.skip(k);
    if further.len() > 0 {
        assert(further.last() == s.last());
        lemma_unfolded_end(further);
    } else {
        assert(s[k - 1] == s.last());
        assert(ics::unfolded(further) == Seq::<char>::empty());
    }
}

/// Lines are read one text after the other, where the first ends with a line break.
pub proof fn lemma_lines_apart(a: Seq<char>, b: Seq<char>)
    requires
        a.len() > 0 ==> a.last() == '\n',
    ensures
        ics::content_lines(a + b) == ics::content_lines(a) + ics::content_lines(b),
{
    text::lemma_split_push(b, ' ', '\n');
    let none = Seq::<char>::empty();
    lemma_no_lines();
    if a.len() == 0 {
        assert(a + b == b);
        assert(ics::content_lines(a) + ics::content_lines(b) == ics::content_lines(b));
    } else {
        let x = a.drop_last();
        assert(a + b == x + (seq!['\n'] + b));
        assert(a == x + (seq!['\n'] + none));
        text::lemma_split_apart(x, b, '\n');
        text::lemma_split_apart(x, none, '\n');
        let whole = text::split(a + b, '\n');
        let first = text::split(x, '\n');
        let second = text::split(b, '\n');
        assert(whole.last() == second.last());
        assert(whole.drop_last() == first + second.drop_last());
        assert(text::split(none, '\n') == seq![none]);
        assert(text::split(a, '\n').last() == none);
        assert(text::split(a, '\n').drop_last() == first);
        assert(ics::content_lines(a + b) == ics::content_lines(a) + ics::content_lines(b));
    }
}

/// The empty text holds no line.
proof fn lemma_no_lines()
    ensures
        text::split(Seq::<char>::empty(), '\n') == seq![Seq::<char>::empty()],
        ics::content_lines(Seq::<char>::empty()) == Seq::<Seq<char>>::empty(),
{
    let none = Seq::<char>::empty();
    assert(text::char_index(none, '\n', 0) is None);
    assert(text::split(none, '\n') == seq![none]);
}

/// Whether a text is a line end.
pub open spec fn is_line_end(end: Seq<char>) -> bool {
    end == "\n"@ || end == "\r\n"@
}

/// The characters of the line ends.
proof fn lemma_line_ends()
    ensures
        "\n"@ == seq!['\n'],
        "\r\n"@ == seq!['\r', '\n'],
{
    reveal_strlit("\n");
    reveal_strlit("\r\n");
    assert("\n"@ =~= seq!['\n']);
    assert("\r\n"@ =~= seq!['\r', '\n']);
}

/// A line and its end are read as the line.
proof fn lemma_line(line: Seq<char>, end: Seq<char>)
    requires
        is_one_line(line),
        is_line_end(end),
    ensures
        ics::content_lines(line + end) == seq![line],
{
    let none = Seq::<char>::empty();
    lemma_line_ends();
    let x = (line + end).drop_last();
    assert(line + end == x + (seq!['\n'] + none));
    lemma_no_lines();
    text::lemma_split_apart(x, none, '\n');
    assert forall|i: int| 0 <= i < x.len() implies x[i] != '\n' by {
        if i < line.len() {
            assert(x[i] == line[i]);
        }
    }
    text::lemma_char_index_none(x, '\n', 0);
    assert(text::split(x, '\n') == seq![x]);
    assert(text::split(line + end, '\n') == seq![x, none]);
    assert(text::split(line + end, '\n').drop_last() == seq![x]);
    assert(text::trimmed_end(line, '\r') == line);
    if end.len() == 1 {
        assert(x == line);
    } else {
        assert(x == line.push('\r'));
        assert(x.drop_last() == line);
    }
    assert(ics::content_lines(line + end) == seq![line]);
}

/// A line, its end and what follows are read as the line and the lines of what follows.
proof fn lemma_line_and_rest(line: Seq<char>, end: Seq<char>, rest: Seq<char>)
    requires
        is_one_line(line),
        is_line_end(end),
    ensures
        ics::content_lines(line + (end + rest)) == seq![line] + ics::content_lines(rest),
{
    lemma_line_ends();
    assert(line + (end + rest) == (line + end) + rest);
    assert((line + end).last() == '\n');
    lemma_lines_apart(line + end, rest);
    lemma_line(line, end);
}

/// The lines of a calendar, each folded and ended by `end`.
pub open spec fn written(
    lines: Seq<(Seq<char>, Seq<(int, Seq<char>)>)>,
    end: Seq<char>,
) -> Seq<char>
    decreases lines.len(),
{
    if lines.len() == 0 {
        Seq::empty()
    } else {
        folded(lines[0].0, lines[0].1) + (end + written(lines.skip(1), end))
    }
}

/// Whether a folded line can be told from the end of the one before: it does not begin with a space
/// or a tab.
pub open spec fn is_line(head: Seq<char>, tail: Seq<(int, Seq<char>)>) -> bool {
    &&& is_folding(head, tail)
    &&& head.len() > 0 ==> !ics::is_blank(head[0])
}

/// Whether all the lines are such lines.
pub open spec fn are_lines(lines: Seq<(Seq<char>, Seq<(int, Seq<char>)>)>) -> bool {
    forall|i: int| 0 <= i < lines.len() ==> is_line((#[trigger] lines[i]).0, lines[i].1)
}

/// The lines before they were folded.
pub open spec fn flat_lines(lines: Seq<(Seq<char>, Seq<(int, Seq<char>)>)>) -> Seq<Seq<char>> {
    lines.map_values(|l: (Seq<char>, Seq<(int, Seq<char>)>)| flat(l.0, l.1))
}

/// What is written does not begin with a space or a tab.
proof fn lemma_written_begins(lines: Seq<(Seq<char>, Seq<(int, Seq<char>)>)>, end: Seq<char>)
    requires
        are_lines(lines),
        is_line_end(end),
    ensures
        written(lines, end).len() > 0 ==> !ics::is_blank(written(lines, end)[0]),
{
    lemma_line_ends();
    if lines.len() > 0 {
        let (head, tail) = lines[0];
        assert(is_line(lines[0].0, lines[0].1));
        let line = folded(head, tail);
        if head.len() > 0 {
            assert(line[0] == head[0]);
            assert(written(lines, end)[0] == line[0]);
        } else if tail.len() > 0 {
            assert(line[0] == fold_break(tail[0].0)[0]);
            assert(written(lines, end)[0] == line[0]);
        } else {
            assert(line.len() == 0);
            assert(written(lines, end)[0] == end[0]);
        }
    }
}

/// A line end in front of what begins with neither a space nor a tab stays.
proof fn lemma_end_stays(end: Seq<char>, rest: Seq<char>)
    requires
        is_line_end(end),
        rest.len() > 0 ==> !ics::is_blank(rest[0]),
    ensures
        ics::unfolded(end + rest) == end + ics::unfolded(rest),
{
    lemma_line_ends();
    lemma_unfold_apart(end, rest);
    lemma_bare_end(end);
}

/// A line end by itself stays.
proof fn lemma_bare_end(end: Seq<char>)
    requires
        is_line_end(end),
    ensures
        ics::unfolded(end) == end,
{
    let none = Seq::<char>::empty();
    let last = seq!['\n'];
    lemma_line_ends();
    assert(last.skip(1) == none);
    assert(ics::unfolded(none) == none);
    assert(ics::unfolded(last) == last + none);
    if end.len() == 2 {
        assert(end.skip(1) == last);
        assert(ics::unfolded(end) == seq!['\r'] + ics::unfolded(last));
    }
}

/// A calendar is read line by line as it was written, whether its lines end with a line feed or with
/// a carriage return and a line feed: whichever lines were folded, and wherever, the lines that are
/// read are the lines before they were folded.
pub proof fn lemma_lines_read_back(
    lines: Seq<(Seq<char>, Seq<(int, Seq<char>)>)>,
    end: Seq<char>,
)
    requires
        are_lines(lines),
        is_line_end(end),
    ensures
        ics::content_lines(ics::unfolded(written(lines, end))) == flat_lines(lines),
    decreases lines.len(),
{
    if lines.len() == 0 {
        lemma_no_lines();
        assert(ics::unfolded(written(lines, end)) == Seq::<char>::empty());
        assert(flat_lines(lines) == Seq::<Seq<char>>::empty());
    } else {
        let (head, tail) = lines[0];
        let further = lines.skip(1);
        assert(is_line(lines[0].0, lines[0].1));
        assert forall|i: int| 0 <= i < further.len() implies is_line(
            (#[trigger] further[i]).0,
            further[i].1,
        ) by {
            assert(is_line(lines[i + 1].0, lines[i + 1].1));
        }
        lemma_lines_read_back(further, end);
        let rest = written(further, end);
        let line = flat(head, tail);
        lemma_written_begins(further, end);
        lemma_unfold_line(head, tail, end + rest);
        lemma_end_stays(end, rest);
        lemma_line_and_rest(line, end, ics::unfolded(rest));
        assert(flat_lines(lines) == seq![line] + flat_lines(further));
    }
}

/// The text with a carriage return put before every line feed.
pub open spec fn with_carriage_returns(s: Seq<char>) -> Seq<char> {
    text::replaced(s, seq!['\n'], seq!['\r', '\n'])
}

/// A carriage return is put before a line feed, and other characters stay.
proof fn lemma_with_carriage_returns(s: Seq<char>)
    requires
        s.len() > 0,
    ensures
        s[0] == '\n' ==> with_carriage_returns(s) == seq!['\r', '\n'] + with_carriage_returns(
            s.skip(1),
        ),
        s[0] != '\n' ==> with_carriage_returns(s) == seq![s[0]] + with_carriage_returns(s.skip(1)),
{
    let p = seq!['\n'];
    if p.is_prefix_of(s) {
        assert(s.subrange(0, 1)[0] == p[0]);
    }
    if s[0] == '\n' {
        assert(s.subrange(0, 1) == p);
        assert(p.is_prefix_of(s));
    }
}

/// Unfolding and putting carriage returns before the line feeds can be done in either order.
proof fn lemma_unfold_with_carriage_returns(s: Seq<char>)
    requires
        !s.contains('\r'),
    ensures
        ics::unfolded(with_carriage_returns(s)) == with_carriage_returns(ics::unfolded(s)),
        !ics::unfolded(s).contains('\r'),
    decreases s.len(),
{
    let end = seq!['\r', '\n'];
    lemma_line_ends();
    if s.len() == 0 {
        assert(with_carriage_returns(s) == s);
    } else {
        let k = if ics::fold_len(s) > 0 {
            ics::fold_len(s)
        } else {
            1
        };
        assert(s[0] != '\r') by {
            assert(s.contains(s[0]));
        }
        let further = s.skip(k);
        assert forall|i: int| 0 <= i < further.len() implies further[i] != '\r' by {
            assert(further[i] == s[i + k]);
            assert(s.contains(s[i + k]));
        }
        lemma_unfold_with_carriage_returns(further);
        lemma_with_carriage_returns(s);
        let w = with_carriage_returns(further);
        let u = ics::unfolded(further);
        if ics::fold_len(s) > 0 {
            let second = s.skip(1);
            lemma_with_carriage_returns(second);
            assert(second.skip(1) == further);
            assert(with_carriage_returns(s) == end + (seq![s[1]] + w));
            let kind: int = if s[1] == ' ' {
                0
            } else {
                1
            };
            assert(end + (seq![s[1]] + w) == fold_break(kind) + w);
            lemma_break(kind, w);
        } else {
            let whole = seq![s[0]] + u;
            assert(whole.skip(1) == u);
            lemma_with_carriage_returns(whole);
            assert forall|i: int| 0 <= i < whole.len() implies whole[i] != '\r' by {
                if i > 0 {
                    assert(whole[i] == u[i - 1]);
                    assert(u.contains(u[i - 1]));
                }
            }
            if s[0] == '\n' {
                if w.len() > 0 {
                    lemma_with_carriage_returns(further);
                    assert(further.len() > 0);
                    assert(further[0] == s[1]);
                    assert(!ics::is_blank(w[0]));
                }
                lemma_end_stays(end, w);
            } else {
                assert((seq![s[0]] + w).skip(1) == w);
            }
        }
    }
}

/// Carriage returns before the line feeds do not change the lines.
proof fn lemma_lines_with_carriage_returns(s: Seq<char>)
    requires
        !s.contains('\r'),
    ensures
        ics::content_lines(with_carriage_returns(s)) == ics::content_lines(s),
    decreases s.len(),
{
    text::lemma_char_index(s, '\n', 0);
    match text::char_index(s, '\n', 0) {
        Some(i) => {
            let line = s.take(i);
            let rest = s.skip(i + 1);
            let feed = seq!['\n'];
            let end = seq!['\r', '\n'];
            lemma_line_ends();
            assert(is_one_line(line)) by {
                assert forall|j: int| 0 <= j < line.len() implies #[trigger] line[j] != '\n'
                    && line[j] != '\r' by {
                    assert(line[j] == s[j]);
                    assert(s.contains(s[j]));
                }
            }
            assert forall|j: int| 0 <= j < rest.len() implies rest[j] != '\r' by {
                assert(rest[j] == s[i + 1 + j]);
                assert(s.contains(s[i + 1 + j]));
            }
            lemma_lines_with_carriage_returns(rest);
            let w = with_carriage_returns(rest);
            assert(s == line + (feed + rest));
            assert forall|j: int| 0 <= j < line.len() implies !feed.is_prefix_of(
                #[trigger] (line + (feed + rest)).skip(j),
            ) by {
                let u = (line + (feed + rest)).skip(j);
                assert(u[0] == line[j]);
                if feed.is_prefix_of(u) {
                    assert(u.subrange(0, 1)[0] == feed[0]);
                }
            }
            text::lemma_replaced_keeps(line, feed + rest, feed, end);
            text::lemma_replaced_front(rest, feed, end);
            assert(with_carriage_returns(s) == line + (end + w));
            assert(line + (end + w) == (line + end) + w);
            assert(line + (feed + rest) == (line + feed) + rest);
            lemma_lines_apart(line + end, w);
            lemma_lines_apart(line + feed, rest);
            lemma_line(line, end);
            lemma_line(line, feed);
        },
        None => {
            let none = Seq::<char>::empty();
            let feed = seq!['\n'];
            assert(s + none == s);
            assert forall|j: int| 0 <= j < s.len() implies !feed.is_prefix_of(
                #[trigger] (s + none).skip(j),
            ) by {
                let u = (s + none).skip(j);
                assert(u[0] == s[j]);
                if feed.is_prefix_of(u) {
                    assert(u.subrange(0, 1)[0] == feed[0]);
                }
            }
            text::lemma_replaced_keeps(s, none, feed, seq!['\r', '\n']);
            assert(s + text::replaced(none, feed, seq!['\r', '\n']) == s);
        },
    }
}

/// The kind of line end does not matter: a calendar whose lines end with line feeds, folded lines
/// among them, gives the same events when a carriage return is put before every line feed.
pub proof fn lemma_line_ends_do_not_matter(ics: Seq<char>)
    requires
        !ics.contains('\r'),
    ensures
        ics::content_lines(ics::unfolded(with_carriage_returns(ics))) == ics::content_lines(
            ics::unfolded(ics),
        ),
        ics::events_of(with_carriage_returns(ics)) == ics::events_of(ics),
        ics::is_readable(with_carriage_returns(ics)) == ics::is_readable(ics),
{
    lemma_unfold_with_carriage_returns(ics);
    lemma_lines_with_carriage_returns(ics::unfolded(ics));
}

/// A character as it is written in a text value.
pub open spec fn escaped_char(c: char) -> Seq<char> {
    if c == '\n' {
        seq!['\\', 'n']
    } else if c == ',' || c == ';' || c == '\\' {
        seq!['\\', c]
    } else {
        seq![c]
    }
}

/// A text as it is written in a text value: line breaks, commas, semicolons and backslashes are
/// escaped.
pub open spec fn escaped(s: Seq<char>) -> Seq<char>
    decreases s.len(),
{
    if s.len() == 0 {
        s
    } else {
        escaped_char(s[0]) + escaped(s.skip(1))
    }
}

/// Unescaping undoes escaping.
pub proof fn lemma_unescape_undoes_escaping(s: Seq<char>)
    ensures
        ics::unescaped(escaped(s)) == s,
    decreases s.len(),
{
    if s.len() > 0 {
        let rest = escaped(s.skip(1));
        let whole = escaped_char(s[0]) + rest;
        lemma_unescape_undoes_escaping(s.skip(1));
        assert(whole.skip(escaped_char(s[0]).len() as int) == rest);
        assert(seq![s[0]] + s.skip(1) == s);
    }
}

/// A text without backslashes is not changed by unescaping.
pub proof fn lemma_nothing_to_unescape(s: Seq<char>)
    requires
        !s.contains('\\'),
    ensures
        ics::unescaped(s) == s,
    decreases s.len(),
{
    if s.len() > 0 {
        let rest = s.skip(1);
        assert(s.contains(s[0]));
        assert forall|i: int| 0 <= i < rest.len() implies rest[i] != '\\' by {
            assert(rest[i] == s[i + 1]);
            assert(s.contains(s[i + 1]));
        }
        lemma_nothing_to_unescape(rest);
        assert(seq![s[0]] + rest == s);
    }
}

/// A line that was written as a name, a colon and a value is read as that name and that value.
pub proof fn lemma_property_read_back(name: Seq<char>, value: Seq<char>)
    requires
        !name.contains(':'),
        !name.contains(';'),
    ensures
        ics::property(name + seq![':'] + value) == Some(
            ics::Property { name, params: Seq::empty(), value },
        ),
{
    let line = name + seq![':'] + value;
    let colon = name.len() as int;
    assert forall|i: int| 0 <= i < colon implies line[i] != ':' by {
        assert(line[i] == name[i]);
        assert(name.contains(name[i]));
    }
    text::lemma_char_index_at(line, ':', 0, colon);
    assert(line.take(colon) == name);
    assert(line.skip(colon + 1) == value);
    assert forall|i: int| 0 <= i < name.len() implies name[i] != ';' by {
        assert(name.contains(name[i]));
    }
    text::lemma_char_index_none(name, ';', 0);
}

/// Calendars can be read one after the other: where the first leaves no event open, the events of
/// the two are the events of the first and those of the second.
pub proof fn lemma_one_after_the_other(a: Seq<Seq<char>>, b: Seq<Seq<char>>)
    requires
        ics::scan(a).begun is None,
    ensures
        ics::scan(a + b).ended == ics::scan(a).ended + ics::scan(b).ended,
        ics::scan(a + b).begun == ics::scan(b).begun,
        ics::scan(a + b).readable == (ics::scan(a).readable && ics::scan(b).readable),
        ics::started_events(ics::scan(a + b).ended) == ics::started_events(ics::scan(a).ended)
            + ics::started_events(ics::scan(b).ended),
    decreases b.len(),
{
    if b.len() == 0 {
        assert(a + b == a);
    } else {
        lemma_one_after_the_other(a, b.drop_last());
        assert((a + b).drop_last() == a + b.drop_last());
        assert((a + b).last() == b.last());
    }
    assert(ics::scan(a + b).ended == ics::scan(a).ended + ics::scan(b).ended);
    lemma_started_events_add_up(ics::scan(a).ended, ics::scan(b).ended);
}

/// The events of two lists of groups are those of the first and those of the second.
pub proof fn lemma_started_events_add_up(a: Seq<Seq<Seq<char>>>, b: Seq<Seq<Seq<char>>>)
    ensures
        ics::started_events(a + b) == ics::started_events(a) + ics::started_events(b),
    decreases b.len(),
{
    if b.len() == 0 {
        assert(a + b == a);
        assert(ics::started_events(a) + ics::started_events(b) == ics::started_events(a));
    } else {
        lemma_started_events_add_up(a, b.drop_last());
        assert((a + b).drop_last() == a + b.drop_last());
        assert((a + b).last() == b.last());
    }
}

/// A line end behind a text that does not end with a line break adds no line.
pub proof fn lemma_end_adds_no_line(s: Seq<char>, end: Seq<char>)
    requires
        s.len() > 0,
        s.last() != '\n',
        is_line_end(end),
    ensures
        ics::content_lines(s + end) == ics::content_lines(s),
{
    lemma_line_ends();
    lemma_no_lines();
    let none = Seq::<char>::empty();
    text::lemma_split_push(s.drop_last(), s.last(), '\n');
    assert(s.drop_last().push(s.last()) == s);
    let pieces = text::split(s, '\n');
    assert(pieces.last().len() > 0);
    let x = (s + end).drop_last();
    assert(s + end == x + (seq!['\n'] + none));
    text::lemma_split_apart(x, none, '\n');
    let whole = text::split(s + end, '\n');
    assert(whole.last() == none);
    assert(whole.drop_last() == text::split(x, '\n'));
    if end.len() == 1 {
        assert(x == s);
    } else {
        assert(x == s.push('\r'));
        text::lemma_split_push(s, '\r', '\n');
        let last = pieces.last();
        assert(last.push('\r').drop_last() == last);
        assert(text::trimmed_end(last.push('\r'), '\r') == text::trimmed_end(last, '\r'));
        assert(text::split(x, '\n') == pieces.drop_last().push(last.push('\r')));
    }
    assert(ics::content_lines(s + end) == ics::content_lines(s));
}

/// Two calendars can be written one after the other: the events of both together are the events of
/// the first and those of the second, where the first leaves no event open.
pub proof fn lemma_calendars_one_after_the_other(a: Seq<char>, end: Seq<char>, b: Seq<char>)
    requires
        "END:VCALENDAR"@.is_suffix_of(a),
        is_line_end(end),
        "BEGIN:VCALENDAR"@.is_prefix_of(b),
        ics::scan(ics::content_lines(ics::unfolded(a))).begun is None,
    ensures
        ics::events_of(a + end + b) == ics::events_of(a) + ics::events_of(b),
        ics::is_readable(a + end + b) == (ics::is_readable(a) && ics::is_readable(b)),
{
    lemma_line_ends();
    reveal_strlit("END:VCALENDAR");
    reveal_strlit("BEGIN:VCALENDAR");
    let u = ics::unfolded(a);
    let v = ics::unfolded(b);
    assert(a.last() == "END:VCALENDAR"@[12]);
    assert(b.subrange(0, 15)[0] == "BEGIN:VCALENDAR"@[0]);
    assert(a + end + b == a + (end + b));
    lemma_unfolded_end(a);
    lemma_unfold_apart(a, end + b);
    lemma_end_stays(end, b);
    assert(u + (end + v) == (u + end) + v);
    lemma_lines_apart(u + end, v);
    lemma_end_adds_no_line(u, end);
    lemma_one_after_the_other(ics::content_lines(u), ics::content_lines(v));
}

/// Whether every line that begins an event has a line behind it that ends one.
pub open spec fn all_events_end(lines: Seq<Seq<char>>) -> bool {
    forall|i: int|
        0 <= i < lines.len() && #[trigger] lines[i] == "BEGIN:VEVENT"@ ==> exists|j: int|
            i < j < lines.len() && #[trigger] lines[j] == "END:VEVENT"@
}

/// Where every event that begins ends, no event is left open.
pub proof fn lemma_no_event_left_open(lines: Seq<Seq<char>>)
    requires
        all_events_end(lines),
    ensures
        ics::scan(lines).begun is None,
{
    if ics::scan(lines).begun is Some {
        let i = lemma_open_event(lines);
        let j = choose|j: int| i < j < lines.len() && #[trigger] lines[j] == "END:VEVENT"@;
        assert(lines[j] != "END:VEVENT"@);
    }
}

/// An event that is left open has begun, and no line behind its beginning ends it.
proof fn lemma_open_event(lines: Seq<Seq<char>>) -> (i: int)
    requires
        ics::scan(lines).begun is Some,
    ensures
        0 <= i < lines.len(),
        lines[i] == "BEGIN:VEVENT"@,
        forall|j: int| i < j < lines.len() ==> #[trigger] lines[j] != "END:VEVENT"@,
    decreases lines.len(),
{
    if lines.last() == "BEGIN:VEVENT"@ {
        lines.len() - 1
    } else {
        let front = lines.drop_last();
        let i = lemma_open_event(front);
        assert forall|j: int| i < j < lines.len() implies #[trigger] lines[j] != "END:VEVENT"@ by {
            if j < front.len() {
                assert(front[j] == lines[j]);
            }
        }
        i
    }
}

/// Whether all the lines of a group can be read.
pub open spec fn lines_readable(group: Seq<Seq<char>>) -> bool {
    forall|i: int| 0 <= i < group.len() ==> ics::readable_line(#[trigger] group[i])
}

/// The lines between `BEGIN:VEVENT` and `END:VEVENT` are read as one event, whatever they are, as
/// long as no other event begins or ends among them.
pub proof fn lemma_event_read_back(group: Seq<Seq<char>>)
    requires
        !group.contains("BEGIN:VEVENT"@),
        !group.contains("END:VEVENT"@),
    ensures
        ics::scan(seq!["BEGIN:VEVENT"@] + group + seq!["END:VEVENT"@]).ended == seq![group],
        ics::scan(seq!["BEGIN:VEVENT"@] + group + seq!["END:VEVENT"@]).begun is None,
        ics::scan(seq!["BEGIN:VEVENT"@] + group + seq!["END:VEVENT"@]).readable == lines_readable(
            group,
        ),
        ics::event_of(group).dtstart.len() > 0 ==> ics::started_events(
            ics::scan(seq!["BEGIN:VEVENT"@] + group + seq!["END:VEVENT"@]).ended,
        ) == seq![ics::event_of(group)],
        ics::event_of(group).dtstart.len() == 0 ==> ics::started_events(
            ics::scan(seq!["BEGIN:VEVENT"@] + group + seq!["END:VEVENT"@]).ended,
        ) == Seq::<ics::EventModel>::empty(),
{
    let begun = seq!["BEGIN:VEVENT"@] + group;
    let lines = begun + seq!["END:VEVENT"@];
    lemma_begun(group);
    lemma_markers_differ();
    assert(lines.drop_last() == begun);
    assert(lines.last() == "END:VEVENT"@);
    assert(ics::scan(lines).ended == seq![group]);
    assert(seq![group].drop_last() == Seq::<Seq<Seq<char>>>::empty());
    assert(ics::started_events(seq![group].drop_last()) == Seq::<ics::EventModel>::empty());
    if ics::event_of(group).dtstart.len() > 0 {
        assert(ics::started_events(seq![group]) == seq![ics::event_of(group)]);
    }
}

/// The two markers are different lines.
proof fn lemma_markers_differ()
    ensures
        "BEGIN:VEVENT"@ != "END:VEVENT"@,
{
    reveal_strlit("BEGIN:VEVENT");
    reveal_strlit("END:VEVENT");
    assert("BEGIN:VEVENT"@[0] != "END:VEVENT"@[0]);
}

/// An event that has begun holds the lines that followed.
proof fn lemma_begun(group: Seq<Seq<char>>)
    requires
        !group.contains("BEGIN:VEVENT"@),
        !group.contains("END:VEVENT"@),
    ensures
        ics::scan(seq!["BEGIN:VEVENT"@] + group).ended == Seq::<Seq<Seq<char>>>::empty(),
        ics::scan(seq!["BEGIN:VEVENT"@] + group).begun == Some(group),
        ics::scan(seq!["BEGIN:VEVENT"@] + group).readable == lines_readable(group),
    decreases group.len(),
{
    let lines = seq!["BEGIN:VEVENT"@] + group;
    if group.len() == 0 {
        assert(lines.drop_last() == Seq::<Seq<char>>::empty());
        assert(lines.last() == "BEGIN:VEVENT"@);
        assert(ics::scan(lines.drop_last()).ended == Seq::<Seq<Seq<char>>>::empty());
        assert(Seq::<Seq<char>>::empty() =~= group);
    } else {
        assert(lines.drop_last() == seq!["BEGIN:VEVENT"@] + group.drop_last());
        assert(lines.last() == group.last());
        assert(group.contains(group.last()));
        assert forall|l: Seq<char>| group.drop_last().contains(l) implies group.contains(l) by {
            let i = choose|i: int| 0 <= i < group.drop_last().len() && group.drop_last()[i] == l;
            assert(group[i] == l);
        }
        lemma_begun(group.drop_last());
        assert(group.drop_last().push(group.last()) == group);
        if lines_readable(group.drop_last()) && ics::readable_line(group.last()) {
            assert forall|i: int| 0 <= i < group.len() implies ics::readable_line(
                #[trigger] group[i],
            ) by {
                if i < group.len() - 1 {
                    assert(group.drop_last()[i] == group[i]);
                }
            }
        }
        if lines_readable(group) {
            assert(ics::readable_line(group[group.len() - 1]));
            assert forall|i: int| 0 <= i < group.drop_last().len() implies ics::readable_line(
                #[trigger] group.drop_last()[i],
            ) by {
                assert(ics::readable_line(group[i]));
            }
        }
    }
}

/// Every event of a calendar has a start.
pub proof fn lemma_events_have_a_start(ics: Seq<char>, i: int)
    requires
        0 <= i < ics::events_of(ics).len(),
    ensures
        ics::events_of(ics)[i].dtstart.len() > 0,
{
    lemma_started(ics::scan(ics::content_lines(ics::unfolded(ics))).ended, i);
}

/// The events that are kept have a start.
proof fn lemma_started(groups: Seq<Seq<Seq<char>>>, i: int)
    requires
        0 <= i < ics::started_events(groups).len(),
    ensures
        ics::started_events(groups)[i].dtstart.len() > 0,
    decreases groups.len(),
{
    if i < ics::started_events(groups.drop_last()).len() {
        lemma_started(groups.drop_last(), i);
    }
}

/// Without a line `BEGIN:VEVENT` there is no event.
pub proof fn lemma_no_events(lines: Seq<Seq<char>>)
    requires
        !lines.contains("BEGIN:VEVENT"@),
    ensures
        ics::scan(lines).ended.len() == 0,
        ics::scan(lines).begun is None,
        ics::scan(lines).readable,
    decreases lines.len(),
{
    if lines.len() > 0 {
        assert(lines.contains(lines.last()));
        assert forall|l: Seq<char>| lines.drop_last().contains(l) implies lines.contains(l) by {
            let i = choose|i: int| 0 <= i < lines.drop_last().len() && lines.drop_last()[i] == l;
            assert(lines[i] == l);
        }
        lemma_no_events(lines.drop_last());
    }
}

/// A name with no colon and no semicolon in it.
spec fn is_name(name: Seq<char>) -> bool {
    !name.contains(':') && !name.contains(';')
}

/// The names of the properties are names.
proof fn lemma_names()
    ensures
        is_name("SUMMARY"@),
        is_name("LOCATION"@),
        is_name("DESCRIPTION"@),
        is_name("DTSTART"@),
        is_name("RRULE"@),
{
    reveal_strlit("SUMMARY");
    reveal_strlit("LOCATION");
    reveal_strlit("DESCRIPTION");
    reveal_strlit("DTSTART");
    reveal_strlit("RRULE");
    assert("SUMMARY"@ =~= seq!['S', 'U', 'M', 'M', 'A', 'R', 'Y']);
    assert("LOCATION"@ =~= seq!['L', 'O', 'C', 'A', 'T', 'I', 'O', 'N']);
    assert("DESCRIPTION"@ =~= seq!['D', 'E', 'S', 'C', 'R', 'I', 'P', 'T', 'I', 'O', 'N']);
    assert("DTSTART"@ =~= seq!['D', 'T', 'S', 'T', 'A', 'R', 'T']);
    assert("RRULE"@ =~= seq!['R', 'R', 'U', 'L', 'E']);
}

/// The texts of an event are read as they were before they were escaped.
pub proof fn lemma_texts_read_back(lines: Seq<Seq<char>>, s: Seq<char>)
    ensures
        ics::event_of(lines.push("SUMMARY"@ + seq![':'] + escaped(s))).summary == s,
        ics::event_of(lines.push("LOCATION"@ + seq![':'] + escaped(s))).location == Some(s),
        ics::event_of(lines.push("DESCRIPTION"@ + seq![':'] + escaped(s))).description == Some(s),
{
    lemma_names();
    lemma_unescape_undoes_escaping(s);
    lemma_property_read_back("SUMMARY"@, escaped(s));
    lemma_property_read_back("LOCATION"@, escaped(s));
    lemma_property_read_back("DESCRIPTION"@, escaped(s));
}

/// The start and the rule of an event are read as they were written.
pub proof fn lemma_start_and_rule_read_back(lines: Seq<Seq<char>>, s: Seq<char>)
    ensures
        ics::event_of(lines.push("DTSTART"@ + seq![':'] + s)).dtstart == s,
        ics::event_of(lines.push("RRULE"@ + seq![':'] + s)).rrule == Some(s),
{
    lemma_names();
    lemma_property_read_back("DTSTART"@, s);
    lemma_property_read_back("RRULE"@, s);
}

/// An event that was written as a calendar, its lines folded or not, is the event that is read; the
/// calendar can be read where each line of the event can.
pub proof fn lemma_calendar_read_back(
    lines: Seq<(Seq<char>, Seq<(int, Seq<char>)>)>,
    end: Seq<char>,
    group: Seq<Seq<char>>,
)
    requires
        are_lines(lines),
        is_line_end(end),
        flat_lines(lines) == seq!["BEGIN:VEVENT"@] + group + seq!["END:VEVENT"@],
        !group.contains("BEGIN:VEVENT"@),
        !group.contains("END:VEVENT"@),
        ics::event_of(group).dtstart.len() > 0,
    ensures
        ics::events_of(written(lines, end)) == seq![ics::event_of(group)],
        ics::is_readable(written(lines, end)) == lines_readable(group),
{
    lemma_lines_read_back(lines, end);
    lemma_event_read_back(group);
}

/// Whether two lines do not give the same property.
pub open spec fn names_differ(a: Seq<char>, b: Seq<char>) -> bool {
    ics::property(a) matches Some(p) ==> (ics::property(b) matches Some(q) ==> p.name != q.name)
}

/// Two neighbouring lines of an event that give different properties can change places.
pub proof fn lemma_properties_change_places(
    before: Seq<Seq<char>>,
    a: Seq<char>,
    b: Seq<char>,
    behind: Seq<Seq<char>>,
)
    requires
        names_differ(a, b),
    ensures
        ics::event_of(before + seq![a, b] + behind) == ics::event_of(
            before + seq![b, a] + behind,
        ),
    decreases behind.len(),
{
    let one = before + seq![a, b];
    let other = before + seq![b, a];
    if behind.len() == 0 {
        assert(one + behind == before.push(a).push(b));
        assert(other + behind == before.push(b).push(a));
        ics::lemma_with_line(before, a);
        ics::lemma_with_line(before.push(a), b);
        ics::lemma_with_line(before, b);
        ics::lemma_with_line(before.push(b), a);
        ics::lemma_names_differ();
    } else {
        let front = behind.drop_last();
        lemma_properties_change_places(before, a, b, front);
        assert(one + behind == (one + front).push(behind.last()));
        assert(other + behind == (other + front).push(behind.last()));
        ics::lemma_with_line(one + front, behind.last());
        ics::lemma_with_line(other + front, behind.last());
    }
}

/// Whether two readings of a calendar come to the same: as many events, each the same, and the same
/// event left open.
spec fn come_to_the_same(a: ics::Scan, b: ics::Scan) -> bool {
    &&& a.readable == b.readable
    &&& a.ended.len() == b.ended.len()
    &&& forall|i: int|
        0 <= i < a.ended.len() ==> ics::event_of(#[trigger] a.ended[i]) == ics::event_of(b.ended[i])
    &&& match (a.begun, b.begun) {
        (Some(g), Some(h)) => ics::event_of(g) == ics::event_of(h),
        (None, None) => true,
        _ => false,
    }
}

/// Readings that come to the same do so when the same lines are read behind them.
proof fn lemma_same_behind(a: Seq<Seq<char>>, b: Seq<Seq<char>>, behind: Seq<Seq<char>>)
    requires
        come_to_the_same(ics::scan(a), ics::scan(b)),
    ensures
        come_to_the_same(ics::scan(a + behind), ics::scan(b + behind)),
    decreases behind.len(),
{
    if behind.len() == 0 {
        assert(a + behind == a);
        assert(b + behind == b);
    } else {
        let front = behind.drop_last();
        lemma_same_behind(a, b, front);
        assert((a + behind).drop_last() == a + front);
        assert((b + behind).drop_last() == b + front);
        assert((a + behind).last() == behind.last());
        assert((b + behind).last() == behind.last());
        let s = ics::scan(a + front);
        let t = ics::scan(b + front);
        if let (Some(g), Some(h)) = (s.begun, t.begun) {
            ics::lemma_with_line(g, behind.last());
            ics::lemma_with_line(h, behind.last());
        }
    }
}

/// Groups that describe the same events give the same list of events.
proof fn lemma_same_events(a: Seq<Seq<Seq<char>>>, b: Seq<Seq<Seq<char>>>)
    requires
        a.len() == b.len(),
        forall|i: int|
            0 <= i < a.len() ==> ics::event_of(#[trigger] a[i]) == ics::event_of(b[i]),
    ensures
        ics::started_events(a) == ics::started_events(b),
    decreases a.len(),
{
    if a.len() > 0 {
        assert(ics::event_of(a[a.len() - 1]) == ics::event_of(b[a.len() - 1]));
        assert forall|i: int| 0 <= i < a.drop_last().len() implies ics::event_of(
            #[trigger] a.drop_last()[i],
        ) == ics::event_of(b.drop_last()[i]) by {
            assert(ics::event_of(a[i]) == ics::event_of(b[i]));
        }
        lemma_same_events(a.drop_last(), b.drop_last());
    }
}

/// Whether a line begins or ends an event.
pub open spec fn is_marker(line: Seq<char>) -> bool {
    line == "BEGIN:VEVENT"@ || line == "END:VEVENT"@
}

/// Two neighbouring lines that give different properties, and neither begin nor end an event, can
/// change places in a calendar.
pub proof fn lemma_lines_change_places(
    before: Seq<Seq<char>>,
    a: Seq<char>,
    b: Seq<char>,
    behind: Seq<Seq<char>>,
)
    requires
        names_differ(a, b),
        !is_marker(a),
        !is_marker(b),
    ensures
        ics::started_events(ics::scan(before + seq![a, b] + behind).ended) == ics::started_events(
            ics::scan(before + seq![b, a] + behind).ended,
        ),
        ics::scan(before + seq![a, b] + behind).readable == ics::scan(
            before + seq![b, a] + behind,
        ).readable,
{
    let one = before + seq![a, b];
    let other = before + seq![b, a];
    assert(one.drop_last() == before.push(a) && one.last() == b);
    assert(other.drop_last() == before.push(b) && other.last() == a);
    assert(before.push(a).drop_last() == before && before.push(b).drop_last() == before);
    reveal_with_fuel(ics::scan, 3);
    if let Some(g) = ics::scan(before).begun {
        let none = Seq::<Seq<char>>::empty();
        lemma_properties_change_places(g, a, b, none);
        assert(g + seq![a, b] + none == g.push(a).push(b));
        assert(g + seq![b, a] + none == g.push(b).push(a));
    }
    assert(come_to_the_same(ics::scan(one), ics::scan(other)));
    lemma_same_behind(one, other, behind);
    lemma_same_events(ics::scan(one + behind).ended, ics::scan(other + behind).ended);
}

/// Whether a line stands in a calendar as it is: it holds no line break, and does not begin with a
/// space or a tab.
pub open spec fn is_whole_line(line: Seq<char>) -> bool {
    is_one_line(line) && (line.len() > 0 ==> !ics::is_blank(line[0]))
}

/// The lines of a calendar in which two lines are known.
proof fn lemma_two_lines(
    before: Seq<char>,
    a: Seq<char>,
    b: Seq<char>,
    end: Seq<char>,
    behind: Seq<char>,
)
    requires
        before.len() > 0 ==> before.last() == '\n',
        is_whole_line(a),
        is_whole_line(b),
        is_line_end(end),
        behind.len() > 0 ==> !ics::is_blank(behind[0]),
    ensures
        ics::content_lines(ics::unfolded(before + (a + (end + (b + (end + behind))))))
            == ics::content_lines(ics::unfolded(before)) + seq![a, b] + ics::content_lines(
            ics::unfolded(behind),
        ),
{
    lemma_line_ends();
    let second = b + (end + behind);
    let first = a + (end + second);
    if b.len() > 0 {
        assert(second[0] == b[0]);
    } else {
        assert(second[0] == end[0]);
    }
    if a.len() > 0 {
        assert(first[0] == a[0]);
    } else {
        assert(first[0] == end[0]);
    }
    let u = ics::unfolded(behind);
    lemma_piece(b, end + behind);
    lemma_end_stays(end, behind);
    lemma_line_and_rest(b, end, u);
    lemma_piece(a, end + second);
    lemma_end_stays(end, second);
    lemma_line_and_rest(a, end, ics::unfolded(second));
    lemma_unfold_apart(before, first);
    if before.len() > 0 {
        lemma_unfolded_end(before);
    }
    lemma_lines_apart(ics::unfolded(before), ics::unfolded(first));
    let known = ics::content_lines(ics::unfolded(before));
    let last = ics::content_lines(u);
    assert(known + (seq![a] + (seq![b] + last)) == known + seq![a, b] + last);
}

/// Two neighbouring lines of a calendar that give different properties, and neither begin nor end an
/// event, can change places: the calendar gives the same events.
pub proof fn lemma_property_order_does_not_matter(
    before: Seq<char>,
    a: Seq<char>,
    b: Seq<char>,
    end: Seq<char>,
    behind: Seq<char>,
)
    requires
        before.len() > 0 ==> before.last() == '\n',
        is_whole_line(a),
        is_whole_line(b),
        is_line_end(end),
        behind.len() > 0 ==> !ics::is_blank(behind[0]),
        names_differ(a, b),
        !is_marker(a),
        !is_marker(b),
    ensures
        ics::events_of(before + (a + (end + (b + (end + behind))))) == ics::events_of(
            before + (b + (end + (a + (end + behind)))),
        ),
        ics::is_readable(before + (a + (end + (b + (end + behind))))) == ics::is_readable(
            before + (b + (end + (a + (end + behind)))),
        ),
{
    lemma_two_lines(before, a, b, end, behind);
    lemma_two_lines(before, b, a, end, behind);
    lemma_lines_change_places(
        ics::content_lines(ics::unfolded(before)),
        a,
        b,
        ics::content_lines(ics::unfolded(behind)),
    );
}

/// A line with a property: its name, its parameters where it has some, and its value.
pub open spec fn property_line(
    name: Seq<char>,
    params: Option<Seq<char>>,
    value: Seq<char>,
) -> Seq<char> {
    match params {
        None => name + seq![':'] + value,
        Some(params) => name + seq![';'] + params + seq![':'] + value,
    }
}

/// Whether a name and parameters can be told from a value: neither holds a colon, and the name no
/// semicolon.
pub open spec fn can_be_told(name: Seq<char>, params: Option<Seq<char>>) -> bool {
    &&& !name.contains(':')
    &&& !name.contains(';')
    &&& params matches Some(p) ==> !p.contains(':')
}

/// A line that was written as a name, parameters and a value is read as that name, those parameters
/// and that value.
pub proof fn lemma_params_read_back(
    name: Seq<char>,
    params: Option<Seq<char>>,
    value: Seq<char>,
)
    requires
        can_be_told(name, params),
    ensures
        ics::property(property_line(name, params, value)) matches Some(p) && p.name == name
            && p.value == value && p.params == match params {
            Some(given) => given,
            None => Seq::empty(),
        },
{
    match params {
        None => {
            lemma_property_read_back(name, value);
        },
        Some(given) => {
            let key = name + seq![';'] + given;
            let line = key + seq![':'] + value;
            let colon = key.len() as int;
            let semicolon = name.len() as int;
            assert forall|i: int| 0 <= i < colon implies line[i] != ':' by {
                if i < semicolon {
                    assert(line[i] == name[i]);
                    assert(name.contains(name[i]));
                } else if i > semicolon {
                    assert(line[i] == given[i - semicolon - 1]);
                    assert(given.contains(given[i - semicolon - 1]));
                }
            }
            text::lemma_char_index_at(line, ':', 0, colon);
            assert(line.take(colon) == key);
            assert(line.skip(colon + 1) == value);
            assert forall|i: int| 0 <= i < semicolon implies key[i] != ';' by {
                assert(key[i] == name[i]);
                assert(name.contains(name[i]));
            }
            text::lemma_char_index_at(key, ';', 0, semicolon);
            assert(key.take(semicolon) == name);
            assert(key.skip(semicolon + 1) == given);
        },
    }
}

/// A line without a colon holds no property, and changes nothing in an event.
pub proof fn lemma_no_property(lines: Seq<Seq<char>>, line: Seq<char>)
    requires
        !line.contains(':'),
    ensures
        ics::property(line) is None,
        ics::event_of(lines.push(line)) == ics::event_of(lines),
        ics::readable_line(line),
{
    assert forall|i: int| 0 <= i < line.len() implies line[i] != ':' by {
        assert(line.contains(line[i]));
    }
    text::lemma_char_index_none(line, ':', 0);
    ics::lemma_with_line(lines, line);
}

/// An event without lines holds nothing.
pub proof fn lemma_no_lines_no_event()
    ensures
        ics::event_of(Seq::empty()) == (ics::EventModel {
            summary: Seq::empty(),
            dtstart: Seq::empty(),
            dtstart_is_date: false,
            location: None,
            description: None,
            rrule: None,
            exdates: Seq::empty(),
        }),
{
}

/// A text property, with or without parameters, gives the event that text, whatever stood there
/// before, and changes nothing else.
pub proof fn lemma_text_written(
    lines: Seq<Seq<char>>,
    params: Option<Seq<char>>,
    s: Seq<char>,
)
    requires
        params matches Some(p) ==> !p.contains(':'),
    ensures
        ics::event_of(lines.push(property_line("SUMMARY"@, params, escaped(s)))) == (
        ics::EventModel { summary: s, ..ics::event_of(lines) }),
        ics::event_of(lines.push(property_line("LOCATION"@, params, escaped(s)))) == (
        ics::EventModel { location: Some(s), ..ics::event_of(lines) }),
        ics::event_of(lines.push(property_line("DESCRIPTION"@, params, escaped(s)))) == (
        ics::EventModel { description: Some(s), ..ics::event_of(lines) }),
{
    lemma_names();
    ics::lemma_names_differ();
    lemma_unescape_undoes_escaping(s);
    lemma_params_read_back("SUMMARY"@, params, escaped(s));
    lemma_params_read_back("LOCATION"@, params, escaped(s));
    lemma_params_read_back("DESCRIPTION"@, params, escaped(s));
    ics::lemma_with_line(lines, property_line("SUMMARY"@, params, escaped(s)));
    ics::lemma_with_line(lines, property_line("LOCATION"@, params, escaped(s)));
    ics::lemma_with_line(lines, property_line("DESCRIPTION"@, params, escaped(s)));
}

/// A rule, with or without parameters, gives the event that rule as it stands, and changes nothing
/// else.
pub proof fn lemma_rule_written(
    lines: Seq<Seq<char>>,
    params: Option<Seq<char>>,
    s: Seq<char>,
)
    requires
        params matches Some(p) ==> !p.contains(':'),
    ensures
        ics::event_of(lines.push(property_line("RRULE"@, params, s))) == (ics::EventModel {
            rrule: Some(s),
            ..ics::event_of(lines)
        }),
{
    lemma_names();
    ics::lemma_names_differ();
    lemma_params_read_back("RRULE"@, params, s);
    ics::lemma_with_line(lines, property_line("RRULE"@, params, s));
}

/// A start without parameters gives the event that start, and changes nothing else; it is a day where
/// it has eight bytes.
pub proof fn lemma_start_written(lines: Seq<Seq<char>>, s: Seq<char>)
    ensures
        ics::event_of(lines.push(property_line("DTSTART"@, None, s))) == (ics::EventModel {
            dtstart: s,
            dtstart_is_date: vstd::utf8::encode_utf8(s).len() == 8,
            ..ics::event_of(lines)
        }),
{
    reveal_strlit("VALUE=DATE");
    lemma_names();
    ics::lemma_names_differ();
    text::lemma_byte_len_is_utf8(s);
    lemma_params_read_back("DTSTART"@, None, s);
    ics::lemma_with_line(lines, property_line("DTSTART"@, None, s));
    let none = Seq::<char>::empty();
    assert(text::char_index(none, ';', 0) is None);
    assert(text::split(none, ';') == seq![none]);
    assert(!seq![none].contains("VALUE=DATE"@)) by {
        assert("VALUE=DATE"@.len() == 10);
    }
}

/// A start with parameters gives the event that start, and changes nothing else; it is a day where one
/// of the parameters is `VALUE=DATE`, or where it has eight bytes.
pub proof fn lemma_start_with_params_written(
    lines: Seq<Seq<char>>,
    params: Seq<Seq<char>>,
    s: Seq<char>,
)
    requires
        params.len() > 0,
        forall|i: int|
            0 <= i < params.len() ==> !(#[trigger] params[i]).contains(':') && !params[i].contains(
                ';',
            ),
    ensures
        ics::event_of(
            lines.push(property_line("DTSTART"@, Some(text::joined(params, seq![';'])), s)),
        ) == (ics::EventModel {
            dtstart: s,
            dtstart_is_date: params.contains("VALUE=DATE"@) || vstd::utf8::encode_utf8(s).len()
                == 8,
            ..ics::event_of(lines)
        }),
{
    let given = text::joined(params, seq![';']);
    assert forall|i: int| 0 <= i < params.len() implies !(#[trigger] params[i]).contains(':') by {
        assert(!params[i].contains(';'));
    }
    assert forall|i: int| 0 <= i < params.len() implies !(#[trigger] params[i]).contains(';') by {
        assert(!params[i].contains(':'));
    }
    text::lemma_joined_without(params, seq![';'], ':');
    text::lemma_split_undoes_joining(params, ';');
    lemma_names();
    ics::lemma_names_differ();
    text::lemma_byte_len_is_utf8(s);
    lemma_params_read_back("DTSTART"@, Some(given), s);
    ics::lemma_with_line(lines, property_line("DTSTART"@, Some(given), s));
}

/// A property of another name changes nothing in an event.
pub proof fn lemma_other_property_written(
    lines: Seq<Seq<char>>,
    name: Seq<char>,
    params: Option<Seq<char>>,
    s: Seq<char>,
)
    requires
        can_be_told(name, params),
        name != "SUMMARY"@,
        name != "DTSTART"@,
        name != "LOCATION"@,
        name != "DESCRIPTION"@,
        name != "RRULE"@,
        name != "EXDATE"@,
    ensures
        ics::event_of(lines.push(property_line(name, params, s))) == ics::event_of(lines),
        ics::readable_line(property_line(name, params, s)),
{
    lemma_params_read_back(name, params, s);
    ics::lemma_with_line(lines, property_line(name, params, s));
}

/// Only an excluded day can make a line unreadable, and one in ASCII does not.
pub proof fn lemma_readable(name: Seq<char>, params: Option<Seq<char>>, s: Seq<char>)
    requires
        can_be_told(name, params),
        name != "EXDATE"@ || forall|i: int| 0 <= i < s.len() ==> #[trigger] s[i] <= '\u{7f}',
    ensures
        ics::readable_line(property_line(name, params, s)),
{
    lemma_params_read_back(name, params, s);
    if name == "EXDATE"@ {
        lemma_ascii_cut(s, 8);
    }
}

/// A text in ASCII can be cut behind any byte.
proof fn lemma_ascii_cut(s: Seq<char>, n: nat)
    requires
        forall|i: int| 0 <= i < s.len() ==> #[trigger] s[i] <= '\u{7f}',
    ensures
        text::byte_prefix(s, n) is Some,
    decreases s.len(),
{
    if s.len() > 0 && n > 0 {
        let rest = s.skip(1);
        assert forall|i: int| 0 <= i < rest.len() implies #[trigger] rest[i] <= '\u{7f}' by {
            assert(rest[i] == s[i + 1]);
        }
        lemma_ascii_cut(rest, (n - 1) as nat);
    }
}

/// An excluded day, with or without parameters, is added behind the event's excluded days by its first
/// eight characters, and changes nothing else.
pub proof fn lemma_exclusion_written(
    lines: Seq<Seq<char>>,
    params: Option<Seq<char>>,
    day: Seq<char>,
    rest: Seq<char>,
)
    requires
        params matches Some(p) ==> !p.contains(':'),
        day.len() == 8,
        forall|i: int| 0 <= i < day.len() ==> #[trigger] day[i] <= '\u{7f}',
    ensures
        ics::event_of(lines.push(property_line("EXDATE"@, params, day + rest))) == (
        ics::EventModel {
            exdates: ics::event_of(lines).exdates.push(day),
            ..ics::event_of(lines)
        }),
        ics::readable_line(property_line("EXDATE"@, params, day + rest)),
{
    reveal_strlit("EXDATE");
    assert("EXDATE"@ =~= seq!['E', 'X', 'D', 'A', 'T', 'E']);
    ics::lemma_names_differ();
    let value = day + rest;
    lemma_params_read_back("EXDATE"@, params, value);
    ics::lemma_with_line(lines, property_line("EXDATE"@, params, value));
    assert forall|i: int| 0 <= i < 8 implies #[trigger] value[i] <= '\u{7f}' by {
        assert(value[i] == day[i]);
    }
    lemma_first_bytes(value, 8);
    assert(value.take(8) == day);
}

/// The first bytes of a text that begins with ASCII characters are its first characters.
proof fn lemma_first_bytes(s: Seq<char>, n: nat)
    requires
        n <= s.len(),
        forall|i: int| 0 <= i < n ==> #[trigger] s[i] <= '\u{7f}',
    ensures
        text::byte_prefix(s, n) == Some(s.take(n as int)),
    decreases n,
{
    if n > 0 {
        let rest = s.skip(1);
        assert forall|i: int| 0 <= i < n - 1 implies #[trigger] rest[i] <= '\u{7f}' by {
            assert(rest[i] == s[i + 1]);
        }
        lemma_first_bytes(rest, (n - 1) as nat);
        assert(seq![s[0]] + rest.take(n - 1) == s.take(n as int));
    } else {
        assert(s.take(0) == Seq::<char>::empty());
    }
}

/// A text in which no line break has a space or a tab behind it is not changed by unfolding.
pub proof fn lemma_nothing_to_unfold(s: Seq<char>)
    requires
        forall|i: int| 0 <= i < s.len() - 1 && #[trigger] s[i] == '\n' ==> s[i + 1] != ' ' && s[i + 1]
            != '\t',
    ensures
        ics::unfolded(s) == s,
    decreases s.len(),
{
    if s.len() > 0 {
        let rest = s.skip(1);
        assert forall|i: int| 0 <= i < rest.len() - 1 && #[trigger] rest[i] == '\n' implies rest[i
            + 1] != ' ' && rest[i + 1] != '\t' by {
            assert(s[i + 1] == '\n');
        }
        if s.len() >= 3 && s[1] == '\n' {
            assert(s[1int + 1] != ' ' && s[1int + 1] != '\t');
        }
        if s.len() >= 2 && s[0] == '\n' {
            assert(s[0int + 1] != ' ' && s[0int + 1] != '\t');
        }
        lemma_nothing_to_unfold(rest);
        assert(seq![s[0]] + rest == s);
    }
}

/// Behind an escaped text, unescaping goes on as if it began there.
pub proof fn lemma_unescaping_goes_on(s: Seq<char>, rest: Seq<char>)
    ensures
        ics::unescaped(escaped(s) + rest) == s + ics::unescaped(rest),
    decreases s.len(),
{
    if s.len() == 0 {
        assert(escaped(s) + rest == rest);
        assert(s + ics::unescaped(rest) == ics::unescaped(rest));
    } else {
        let c = escaped_char(s[0]);
        let further = escaped(s.skip(1)) + rest;
        lemma_unescaping_goes_on(s.skip(1), rest);
        assert(escaped(s) + rest == c + further);
        assert((c + further).skip(c.len() as int) == further);
        assert(seq![s[0]] + (s.skip(1) + ics::unescaped(rest)) == s + ics::unescaped(rest));
    }
}

/// A backslash before an `N` is a line break, as one before an `n` is; before a character that needs
/// no escape, and at the end of a text, it stays.
pub proof fn lemma_other_escapes(c: char, rest: Seq<char>)
    ensures
        ics::unescaped(seq!['\\', 'N'] + rest) == seq!['\n'] + ics::unescaped(rest),
        ics::unescaped(seq!['\\', 'n'] + rest) == seq!['\n'] + ics::unescaped(rest),
        c != 'n' && c != 'N' && c != ',' && c != ';' && c != '\\' ==> ics::unescaped(
            seq!['\\', c] + rest,
        ) == seq!['\\', c] + ics::unescaped(rest),
        ics::unescaped(seq!['\\']) == seq!['\\'],
{
    let none = Seq::<char>::empty();
    assert((seq!['\\', 'N'] + rest).skip(2) == rest);
    assert((seq!['\\', 'n'] + rest).skip(2) == rest);
    assert(seq!['\\'].skip(1) == none);
    assert(ics::unescaped(none) == none);
    if c != 'n' && c != 'N' && c != ',' && c != ';' && c != '\\' {
        let s = seq!['\\', c] + rest;
        let t = seq![c] + rest;
        assert(s.skip(1) == t);
        assert(t.skip(1) == rest);
        assert(t[0] == c && s[0] == '\\' && s[1] == c);
        assert(ics::unescaped(t) == seq![c] + ics::unescaped(rest));
        assert(ics::unescaped(s) == seq!['\\'] + ics::unescaped(t));
        assert(seq!['\\'] + (seq![c] + ics::unescaped(rest)) == seq!['\\', c] + ics::unescaped(
            rest,
        ));
    }
}

/// Carriage returns at the end of a line are dropped, however many they are; others stay.
pub proof fn lemma_carriage_returns_at_the_end(line: Seq<char>, run: Seq<char>, rest: Seq<char>)
    requires
        !line.contains('\n'),
        line.len() > 0 ==> line.last() != '\r',
        forall|i: int| 0 <= i < run.len() ==> #[trigger] run[i] == '\r',
    ensures
        ics::content_lines(line + run + seq!['\n'] + rest) == seq![line] + ics::content_lines(rest),
{
    let none = Seq::<char>::empty();
    let x = line + run;
    let a = x + seq!['\n'];
    assert(line + run + seq!['\n'] + rest == a + rest);
    assert(a.last() == '\n');
    lemma_lines_apart(a, rest);
    lemma_no_lines();
    assert(a == x + (seq!['\n'] + none));
    text::lemma_split_apart(x, none, '\n');
    assert forall|i: int| 0 <= i < x.len() implies x[i] != '\n' by {
        if i < line.len() {
            assert(x[i] == line[i]);
            assert(line.contains(line[i]));
        } else {
            assert(x[i] == run[i - line.len()]);
        }
    }
    text::lemma_char_index_none(x, '\n', 0);
    assert(text::split(x, '\n') == seq![x]);
    assert(text::split(a, '\n') == seq![x, none]);
    assert(text::split(a, '\n').drop_last() == seq![x]);
    text::lemma_trimmed_end_run(line, run, '\r');
    assert(ics::content_lines(a) == seq![line]);
}

/// A line `BEGIN:VEVENT` begins an event anew, whatever was open before: the events of the lines
/// before it and those of the lines from it on are read apart.
pub proof fn lemma_event_begins_anew(a: Seq<Seq<char>>, b: Seq<Seq<char>>)
    requires
        b.len() > 0,
        b[0] == "BEGIN:VEVENT"@,
    ensures
        ics::scan(a + b).ended == ics::scan(a).ended + ics::scan(b).ended,
        ics::scan(a + b).begun == ics::scan(b).begun,
        ics::scan(a + b).readable == (ics::scan(a).readable && ics::scan(b).readable),
    decreases b.len(),
{
    assert((a + b).drop_last() == a + b.drop_last());
    assert((a + b).last() == b.last());
    if b.len() == 1 {
        assert(b.drop_last() == Seq::<Seq<char>>::empty());
        assert(a + b.drop_last() == a);
        assert(ics::scan(b.drop_last()).ended == Seq::<Seq<Seq<char>>>::empty());
    } else {
        assert(b.drop_last()[0] == b[0]);
        lemma_event_begins_anew(a, b.drop_last());
    }
    assert(ics::scan(a + b).ended == ics::scan(a).ended + ics::scan(b).ended);
}

}
