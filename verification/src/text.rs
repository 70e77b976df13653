//! Searching, splitting and rewriting text.
//!
//! Text is modelled as the sequence of its characters. The executable functions work on character
//! slices; [`chars_of`] and [`string_of`] lead from strings to characters and back.

use vstd::prelude::*;

verus! {

/// `String::push` appends the character to the string.
pub assume_specification[ String::push ](s: &mut String, c: char)
    ensures
        final(s)@ == old(s)@.push(c),
;

/// The characters of `s`, in order.
pub fn chars_of(s: &str) -> (r: Vec<char>)
    ensures
        r@ == s@,
{
    let mut r: Vec<char> = Vec::new();
    for c in it: s.chars()
        invariant
            r@ == it.seq().take(it.index()),
            it.seq() == s@,
    {
        r.push(c);
    }
    assert(s@.take(s@.len() as int) == s@);
    r
}

/// The string that holds the characters `cs`, in order.
pub fn string_of(cs: &[char]) -> (r: String)
    ensures
        r@ == cs@,
{
    let mut r: String = String::new();
    for i in 0..cs.len()
        invariant
            r@ == cs@.take(i as int),
    {
        r.push(cs[i]);
        assert(cs@.take(i as int + 1) == cs@.take(i as int).push(cs@[i as int]));
    }
    assert(cs@.take(cs@.len() as int) == cs@);
    r
}

/// Whether `p` stands in `s` at position `i`.
pub open spec fn occurs_at(s: Seq<char>, p: Seq<char>, i: int) -> bool {
    &&& 0 <= i
    &&& i + p.len() <= s.len()
    &&& s.subrange(i, i + p.len()) == p
}

/// The first position at or after `from` at which `p` stands in `s`.
pub open spec fn index_of(s: Seq<char>, p: Seq<char>, from: int) -> Option<int>
    decreases s.len() - from + 1,
{
    if from + p.len() > s.len() {
        None
    } else if occurs_at(s, p, from) {
        Some(from)
    } else {
        index_of(s, p, from + 1)
    }
}

/// Whether `p` stands somewhere in `s`.
pub open spec fn contains_text(s: Seq<char>, p: Seq<char>) -> bool {
    exists|i: int| occurs_at(s, p, i)
}

/// The first position at or after `from` of the character `c` in `s`.
pub open spec fn char_index(s: Seq<char>, c: char, from: int) -> Option<int>
    decreases s.len() - from,
{
    if from >= s.len() {
        None
    } else if s[from] == c {
        Some(from)
    } else {
        char_index(s, c, from + 1)
    }
}

/// `s` with every occurrence of `from` replaced by `to`: the text is read from left to right,
/// and reading goes on behind each occurrence.
pub open spec fn replaced(s: Seq<char>, from: Seq<char>, to: Seq<char>) -> Seq<char>
    decreases s.len(),
{
    if s.len() == 0 {
        s
    } else if from.len() > 0 && from.is_prefix_of(s) {
        to + replaced(s.skip(from.len() as int), from, to)
    } else {
        seq![s[0]] + replaced(s.skip(1), from, to)
    }
}

/// The pieces of `s` between the occurrences of `c`; one piece where `c` does not occur.
pub open spec fn split(s: Seq<char>, c: char) -> Seq<Seq<char>>
    decreases s.len(),
{
    match char_index(s, c, 0) {
        Some(i) if 0 <= i < s.len() => seq![s.take(i)] + split(s.skip(i + 1), c),
        _ => seq![s],
    }
}

/// `s` without the run of `c` at its end.
pub open spec fn trimmed_end(s: Seq<char>, c: char) -> Seq<char>
    decreases s.len(),
{
    if s.len() > 0 && s.last() == c {
        trimmed_end(s.drop_last(), c)
    } else {
        s
    }
}

/// Whether `c` is white space: the characters of Unicode's `White_Space` property.
pub open spec fn is_white_space(c: char) -> bool {
    ||| '\u{9}' <= c <= '\u{d}'
    ||| c == ' '
    ||| c == '\u{85}'
    ||| c == '\u{a0}'
    ||| c == '\u{1680}'
    ||| '\u{2000}' <= c <= '\u{200a}'
    ||| c == '\u{2028}'
    ||| c == '\u{2029}'
    ||| c == '\u{202f}'
    ||| c == '\u{205f}'
    ||| c == '\u{3000}'
}

/// `s` without the white space at its two ends.
pub open spec fn trimmed(s: Seq<char>) -> Seq<char>
    decreases s.len(),
{
    if s.len() > 0 && is_white_space(s[0]) {
        trimmed(s.skip(1))
    } else if s.len() > 0 && is_white_space(s.last()) {
        trimmed(s.drop_last())
    } else {
        s
    }
}

/// The pieces, one after the other.
pub open spec fn joined(pieces: Seq<Seq<char>>, sep: Seq<char>) -> Seq<char>
    decreases pieces.len(),
{
    if pieces.len() == 0 {
        Seq::empty()
    } else if pieces.len() == 1 {
        pieces[0]
    } else {
        joined(pieces.drop_last(), sep) + sep + pieces.last()
    }
}

/// How many bytes `c` takes in UTF-8.
pub open spec fn char_width(c: char) -> nat {
    if c <= '\u{7f}' {
        1
    } else if c <= '\u{7ff}' {
        2
    } else if c <= '\u{ffff}' {
        3
    } else {
        4
    }
}

/// How many bytes `s` takes in UTF-8.
pub open spec fn byte_len(s: Seq<char>) -> nat
    decreases s.len(),
{
    if s.len() == 0 {
        0
    } else {
        char_width(s[0]) + byte_len(s.skip(1))
    }
}

/// The part of `s` in its first `n` bytes, all of `s` where it has no more than `n`. There is
/// none where byte `n` lies inside a character.
pub open spec fn byte_prefix(s: Seq<char>, n: nat) -> Option<Seq<char>>
    decreases s.len(),
{
    if s.len() == 0 || n == 0 {
        Some(Seq::empty())
    } else if char_width(s[0]) > n {
        None
    } else {
        match byte_prefix(s.skip(1), (n - char_width(s[0])) as nat) {
            Some(rest) => Some(seq![s[0]] + rest),
            None => None,
        }
    }
}

/// The texts of a list of strings.
pub open spec fn texts(v: Seq<String>) -> Seq<Seq<char>> {
    v.map_values(|s: String| s@)
}

/// The texts of a list of character vectors.
pub open spec fn char_texts(v: Seq<Vec<char>>) -> Seq<Seq<char>> {
    v.map_values(|s: Vec<char>| s@)
}

/// Whether `a` and `b` hold the same text.
pub fn same_text(a: &[char], b: &str) -> (r: bool)
    ensures
        r == (a@ == b@),
{
    let b: Vec<char> = chars_of(b);
    assert(a@.subrange(0, a@.len() as int) == a@);
    a.len() == b.len() && stands_at(a, b.as_slice(), 0)
}

/// Whether `p` stands in `s` at position `i`.
pub fn stands_at(s: &[char], p: &[char], i: usize) -> (r: bool)
    requires
        i <= s@.len(),
    ensures
        r == occurs_at(s@, p@, i as int),
{
    if p.len() > s.len() - i {
        return false;
    }
    let mut k: usize = 0;
    while k < p.len()
        invariant
            k <= p@.len(),
            i + p@.len() <= s@.len() <= usize::MAX,
            forall|j: int| 0 <= j < k ==> s@[i + j] == p@[j],
        decreases p@.len() - k,
    {
        if s[i + k] != p[k] {
            assert(s@.subrange(i as int, i + p@.len())[k as int] != p@[k as int]);
            return false;
        }
        k += 1;
    }
    assert(s@.subrange(i as int, i + p@.len()) == p@);
    true
}

/// The first position at or after `from` at which `p` stands in `s`.
pub fn find_text(s: &[char], p: &str, from: usize) -> (r: Option<usize>)
    requires
        from <= s@.len(),
    ensures
        r matches Some(i) ==> index_of(s@, p@, from as int) == Some(i as int) && from <= i && i
            + p@.len() <= s@.len(),
        r is None ==> index_of(s@, p@, from as int) is None,
{
    let wanted: Vec<char> = chars_of(p);
    let mut i: usize = from;
    while wanted.len() <= s.len() - i
        invariant
            from <= i <= s@.len(),
            wanted@ == p@,
            index_of(s@, p@, from as int) == index_of(s@, p@, i as int),
        decreases s@.len() - i,
    {
        if stands_at(s, wanted.as_slice(), i) {
            return Some(i);
        }
        if i == s.len() {
            assert(index_of(s@, p@, i + 1) is None);
            return None;
        }
        i += 1;
    }
    None
}

/// The first position at or after `from` of the character `c`.
pub fn find_char(s: &[char], c: char, from: usize) -> (r: Option<usize>)
    requires
        from <= s@.len(),
    ensures
        r matches Some(i) ==> char_index(s@, c, from as int) == Some(i as int) && from <= i
            < s@.len() && s@[i as int] == c,
        r is None ==> char_index(s@, c, from as int) is None,
{
    let mut i: usize = from;
    while i < s.len()
        invariant
            from <= i <= s@.len(),
            char_index(s@, c, from as int) == char_index(s@, c, i as int),
        decreases s@.len() - i,
    {
        if s[i] == c {
            return Some(i);
        }
        i += 1;
    }
    None
}

/// A copy of the characters from position `from` up to position `to`.
pub fn part(s: &[char], from: usize, to: usize) -> (r: Vec<char>)
    requires
        from <= to <= s@.len(),
    ensures
        r@ == s@.subrange(from as int, to as int),
{
    let mut r: Vec<char> = Vec::new();
    let mut i: usize = from;
    while i < to
        invariant
            from <= i <= to <= s@.len(),
            r@ == s@.subrange(from as int, i as int),
        decreases to - i,
    {
        r.push(s[i]);
        i += 1;
        assert(s@.subrange(from as int, i as int) == s@.subrange(from as int, i - 1).push(
            s@[i - 1],
        ));
    }
    r
}

/// The pieces of `s` between the occurrences of `c`.
pub fn split_text(s: &[char], c: char) -> (r: Vec<Vec<char>>)
    ensures
        char_texts(r@) == split(s@, c),
        r@.len() > 0,
{
    let mut r: Vec<Vec<char>> = Vec::new();
    let mut start: usize = 0;
    let len: usize = s.len();
    assert(s@.skip(0) == s@);
    loop
        invariant
            start <= len == s@.len(),
            char_texts(r@) + split(s@.skip(start as int), c) == split(s@, c),
        decreases s@.len() - start,
    {
        let ghost before = char_texts(r@);
        let ghost rest = s@.skip(start as int);
        let next: Option<usize> = find_char(s, c, start);
        proof {
            lemma_char_index_skip(s@, c, start as int, start as int);
        }
        match next {
            Some(i) => {
                let piece: Vec<char> = part(s, start, i);
                assert(piece@ == rest.take(i - start));
                r.push(piece);
                assert(char_texts(r@) == before.push(piece@));
                assert(rest.skip(i - start + 1) == s@.skip(i + 1));
                assert(before.push(piece@) + split(s@.skip(i + 1), c) == before + (seq![piece@]
                    + split(s@.skip(i + 1), c)));
                start = i + 1;
            },
            None => {
                let piece: Vec<char> = part(s, start, len);
                assert(piece@ == rest);
                r.push(piece);
                assert(char_texts(r@) == before + seq![piece@]);
                return r;
            },
        }
    }
}

/// Looking for a character behind position `from` in a text's tail is looking behind `k + from`
/// in the text.
pub proof fn lemma_char_index_skip(s: Seq<char>, c: char, k: int, from: int)
    requires
        0 <= k <= from <= s.len(),
    ensures
        char_index(s.skip(k), c, from - k) == match char_index(s, c, from) {
            Some(i) => Some(i - k),
            None => None,
        },
    decreases s.len() - from,
{
    if from < s.len() {
        lemma_char_index_skip(s, c, k, from + 1);
    }
}

/// How many characters of `s` are left without the run of `c` at its end.
fn end_without(s: &[char], c: char) -> (r: usize)
    ensures
        r <= s@.len(),
        s@.take(r as int) == trimmed_end(s@, c),
{
    let mut n: usize = s.len();
    assert(s@.take(n as int) == s@);
    while n > 0 && s[n - 1] == c
        invariant
            n <= s@.len(),
            trimmed_end(s@.take(n as int), c) == trimmed_end(s@, c),
        decreases n,
    {
        assert(s@.take(n as int).drop_last() == s@.take(n - 1));
        n -= 1;
    }
    n
}

/// `s` without the run of `c` at its end.
pub fn trim_end_char(s: &[char], c: char) -> (r: Vec<char>)
    ensures
        r@ == trimmed_end(s@, c),
{
    let n: usize = end_without(s, c);
    part(s, 0, n)
}

/// Whether `c` is white space.
pub fn white_space(c: char) -> (r: bool)
    ensures
        r == is_white_space(c),
{
    ('\u{9}' <= c && c <= '\u{d}') || c == ' ' || c == '\u{85}' || c == '\u{a0}' || c == '\u{1680}'
        || ('\u{2000}' <= c && c <= '\u{200a}') || c == '\u{2028}' || c == '\u{2029}' || c
        == '\u{202f}' || c == '\u{205f}' || c == '\u{3000}'
}

/// `s` without the white space at its two ends.
pub fn trim(s: &[char]) -> (r: Vec<char>)
    ensures
        r@ == trimmed(s@),
{
    let mut a: usize = 0;
    let mut b: usize = s.len();
    assert(s@.subrange(0, b as int) == s@);
    while a < b && white_space(s[a])
        invariant
            a <= b == s@.len(),
            trimmed(s@.subrange(a as int, b as int)) == trimmed(s@),
        decreases b - a,
    {
        assert(s@.subrange(a as int, b as int).skip(1) == s@.subrange(a + 1, b as int));
        a += 1;
    }
    while a < b && white_space(s[b - 1])
        invariant
            a <= b <= s@.len(),
            a < b ==> !is_white_space(s@[a as int]),
            trimmed(s@.subrange(a as int, b as int)) == trimmed(s@),
        decreases b - a,
    {
        assert(s@.subrange(a as int, b as int).drop_last() == s@.subrange(a as int, b - 1));
        b -= 1;
    }
    part(s, a, b)
}

/// How many bytes `c` takes in UTF-8.
pub fn width(c: char) -> (r: usize)
    ensures
        r == char_width(c),
        1 <= r <= 4,
{
    if c <= '\u{7f}' {
        1
    } else if c <= '\u{7ff}' {
        2
    } else if c <= '\u{ffff}' {
        3
    } else {
        4
    }
}

/// The smaller of `cap` and the number of bytes that `s` takes in UTF-8.
pub fn byte_count(s: &[char], cap: usize) -> (r: usize)
    requires
        cap <= usize::MAX - 4,
    ensures
        r == if byte_len(s@) < cap {
            byte_len(s@) as int
        } else {
            cap as int
        },
{
    let mut n: usize = 0;
    let mut i: usize = 0;
    assert(s@.skip(0) == s@);
    while i < s.len()
        invariant
            i <= s@.len(),
            n < cap + 4,
            cap <= usize::MAX - 4,
            n + byte_len(s@.skip(i as int)) == byte_len(s@),
        decreases s@.len() - i,
    {
        if n >= cap {
            return cap;
        }
        assert(s@.skip(i as int).skip(1) == s@.skip(i + 1));
        n += width(s[i]);
        i += 1;
    }
    if n < cap {
        n
    } else {
        cap
    }
}

/// The part of `s` in its first `n` bytes, where byte `n` does not lie inside a character.
pub fn first_bytes(s: &[char], n: usize) -> (r: Option<Vec<char>>)
    ensures
        r matches Some(v) ==> byte_prefix(s@, n as nat) == Some(v@),
        r is None ==> byte_prefix(s@, n as nat) is None,
{
    let mut left: usize = n;
    let mut i: usize = 0;
    assert(s@.skip(0) == s@);
    assert(forall|t: Seq<char>| s@.take(0) + t == t);
    while i < s.len() && left > 0
        invariant
            i <= s@.len(),
            byte_prefix(s@, n as nat) == match byte_prefix(s@.skip(i as int), left as nat) {
                Some(t) => Some(s@.take(i as int) + t),
                None => None,
            },
        decreases s@.len() - i,
    {
        let w: usize = width(s[i]);
        if w > left {
            return None;
        }
        let ghost rest = s@.skip(i as int);
        assert(rest.skip(1) == s@.skip(i + 1));
        assert forall|t: Seq<char>| s@.take(i as int) + (#[trigger] (seq![rest[0]] + t)) == s@.take(
            i + 1,
        ) + t by {
            assert(s@.take(i + 1) == s@.take(i as int).push(rest[0]));
            assert(s@.take(i as int) + (seq![rest[0]] + t) =~= s@.take(i as int).push(rest[0]) + t);
        }
        left -= w;
        i += 1;
    }
    let r: Vec<char> = part(s, 0, i);
    assert(r@ == s@.take(i as int));
    assert(s@.take(i as int) + Seq::<char>::empty() == r@);
    Some(r)
}

/// The pieces, with `sep` between them.
pub fn join(pieces: &Vec<String>, sep: &str) -> (r: String)
    ensures
        r@ == joined(texts(pieces@), sep@),
{
    let mut r: String = String::new();
    let ghost all = texts(pieces@);
    for i in 0..pieces.len()
        invariant
            all == texts(pieces@),
            r@ == joined(all.take(i as int), sep@),
    {
        assert(all.take(i + 1).drop_last() == all.take(i as int));
        assert(all.take(i + 1).last() == pieces@[i as int]@);
        if i > 0 {
            r.append(sep);
        }
        r.append(pieces[i].as_str());
    }
    assert(all.take(all.len() as int) == all);
    r
}

/// Where a text is found at or behind `from`, it stands there, and nowhere between; where it is not
/// found, it stands nowhere behind `from`.
pub proof fn lemma_index_of(s: Seq<char>, p: Seq<char>, from: int)
    requires
        0 <= from,
    ensures
        match index_of(s, p, from) {
            Some(i) => from <= i && occurs_at(s, p, i) && forall|j: int|
                from <= j < i ==> !occurs_at(s, p, j),
            None => forall|j: int| from <= j ==> !occurs_at(s, p, j),
        },
    decreases s.len() - from + 1,
{
    if from + p.len() <= s.len() && !occurs_at(s, p, from) {
        lemma_index_of(s, p, from + 1);
    }
}

/// A text is contained in another exactly where it is found.
pub proof fn lemma_contains(s: Seq<char>, p: Seq<char>)
    ensures
        contains_text(s, p) <==> index_of(s, p, 0) is Some,
{
    lemma_index_of(s, p, 0);
}

/// Whether `p` stands somewhere in `s`.
pub fn has_text(s: &[char], p: &str) -> (r: bool)
    ensures
        r == contains_text(s@, p@),
{
    let found: Option<usize> = find_text(s, p, 0);
    proof {
        lemma_contains(s@, p@);
    }
    found.is_some()
}

/// The bytes of two texts add up.
pub proof fn lemma_byte_len_concat(a: Seq<char>, b: Seq<char>)
    ensures
        byte_len(a + b) == byte_len(a) + byte_len(b),
    decreases a.len(),
{
    if a.len() == 0 {
        assert(a + b == b);
    } else {
        assert((a + b).skip(1) == a.skip(1) + b);
        lemma_byte_len_concat(a.skip(1), b);
    }
}

/// Cutting behind the bytes of `a` and `k` more cuts the rest behind its first `k` bytes.
pub proof fn lemma_byte_prefix_concat(a: Seq<char>, b: Seq<char>, k: nat)
    ensures
        byte_prefix(a + b, byte_len(a) + k) == match byte_prefix(b, k) {
            Some(t) => Some(a + t),
            None => None,
        },
    decreases a.len(),
{
    if a.len() == 0 {
        assert(a + b == b);
        assert(forall|t: Seq<char>| a + t == t);
    } else {
        assert((a + b).skip(1) == a.skip(1) + b);
        lemma_byte_prefix_concat(a.skip(1), b, k);
        assert forall|t: Seq<char>| seq![a[0]] + (#[trigger] (a.skip(1) + t)) == a + t by {
            assert(seq![a[0]] + (a.skip(1) + t) =~= a + t);
        }
    }
}

/// How many characters of `s` stand before its last two bytes, where these do not begin inside a
/// character.
pub fn before_last_two_bytes(s: &[char]) -> (r: Option<usize>)
    requires
        byte_len(s@) >= 2,
    ensures
        r matches Some(n) ==> n <= s@.len() && byte_prefix(s@, (byte_len(s@) - 2) as nat) == Some(
            s@.take(n as int),
        ),
        r is None ==> byte_prefix(s@, (byte_len(s@) - 2) as nat) is None,
{
    let n: usize = s.len();
    let last: usize = width(s[n - 1]);
    let ghost a1 = s@.take(n - 1);
    let ghost t1 = s@.skip(n - 1);
    proof {
        assert(a1 + t1 == s@);
        assert(t1.skip(1).len() == 0);
        assert(byte_len(t1.skip(1)) == 0);
        assert(byte_len(t1) == char_width(s@[n - 1]));
        lemma_byte_len_concat(a1, t1);
    }
    if last == 1 {
        assert(n >= 2) by {
            if n == 1 {
                assert(a1.len() == 0);
            }
        }
        let w: usize = width(s[n - 2]);
        let ghost a2 = s@.take(n - 2);
        let ghost t2 = s@.skip(n - 2);
        proof {
            assert(a2 + t2 == s@);
            assert(t2.skip(1) == t1);
            lemma_byte_len_concat(a2, t2);
            lemma_byte_prefix_concat(a2, t2, (w - 1) as nat);
            assert(a2 + Seq::<char>::empty() == a2);
        }
        if w == 1 {
            Some(n - 2)
        } else {
            None
        }
    } else {
        proof {
            lemma_byte_prefix_concat(a1, t1, (last - 2) as nat);
            assert(a1 + Seq::<char>::empty() == a1);
        }
        if last == 2 {
            Some(n - 1)
        } else {
            None
        }
    }
}

/// A text of no more than `n` bytes is its own beginning.
pub proof fn lemma_short_prefix(s: Seq<char>, n: nat)
    requires
        byte_len(s) <= n,
    ensures
        byte_prefix(s, n) == Some(s),
    decreases s.len(),
{
    if s.len() > 0 {
        lemma_short_prefix(s.skip(1), (n - char_width(s[0])) as nat);
        assert(seq![s[0]] + s.skip(1) == s);
    }
}

/// Where no character of `a` begins an occurrence of `p`, `a` is kept.
pub proof fn lemma_replaced_keeps(a: Seq<char>, b: Seq<char>, p: Seq<char>, q: Seq<char>)
    requires
        p.len() > 0,
        forall|i: int| 0 <= i < a.len() ==> !p.is_prefix_of(#[trigger] (a + b).skip(i)),
    ensures
        replaced(a + b, p, q) == a + replaced(b, p, q),
    decreases a.len(),
{
    if a.len() == 0 {
        assert(a + b == b);
        assert(a + replaced(b, p, q) == replaced(b, p, q));
    } else {
        let rest = a.skip(1);
        assert((a + b).skip(0) == a + b);
        assert((a + b).skip(1) == rest + b);
        assert forall|i: int| 0 <= i < rest.len() implies !p.is_prefix_of(
            #[trigger] (rest + b).skip(i),
        ) by {
            assert((rest + b).skip(i) == (a + b).skip(i + 1));
        }
        lemma_replaced_keeps(rest, b, p, q);
        assert(seq![a[0]] + (rest + replaced(b, p, q)) == a + replaced(b, p, q));
    }
}

/// Where `p` stands in front, it is replaced.
pub proof fn lemma_replaced_front(b: Seq<char>, p: Seq<char>, q: Seq<char>)
    requires
        p.len() > 0,
    ensures
        replaced(p + b, p, q) == q + replaced(b, p, q),
{
    assert((p + b).subrange(0, p.len() as int) == p);
    assert((p + b).skip(p.len() as int) == b);
}

/// A text has at least as many bytes as characters.
pub proof fn lemma_bytes_at_least_chars(s: Seq<char>)
    ensures
        byte_len(s) >= s.len(),
    decreases s.len(),
{
    if s.len() > 0 {
        lemma_bytes_at_least_chars(s.skip(1));
    }
}

/// The bytes of a character are the bytes of its UTF-8 encoding.
proof fn lemma_char_width(c: char)
    ensures
        char_width(c) == vstd::utf8::encode_scalar(c as u32).len(),
{
    vstd::utf8::char_is_scalar(c);
}

/// The bytes of a text are the bytes of its UTF-8 encoding.
pub proof fn lemma_byte_len_is_utf8(s: Seq<char>)
    ensures
        byte_len(s) == vstd::utf8::encode_utf8(s).len(),
    decreases s.len(),
{
    if s.len() > 0 {
        assert(s.drop_first() == s.skip(1));
        lemma_byte_len_is_utf8(s.skip(1));
        lemma_char_width(s[0]);
    }
}

/// The first bytes of a text, where they end between two characters, are that many bytes and the
/// beginning of the text.
pub proof fn lemma_byte_prefix(s: Seq<char>, n: nat)
    requires
        n <= byte_len(s),
    ensures
        byte_prefix(s, n) matches Some(p) ==> byte_len(p) == n && p.is_prefix_of(s),
    decreases s.len(),
{
    if s.len() > 0 && n > 0 && char_width(s[0]) <= n {
        let k = (n - char_width(s[0])) as nat;
        lemma_byte_prefix(s.skip(1), k);
        if let Some(rest) = byte_prefix(s.skip(1), k) {
            let p = seq![s[0]] + rest;
            assert(p.skip(1) == rest);
            assert(s.skip(1).subrange(0, rest.len() as int) == rest);
            assert(s.subrange(0, p.len() as int) == p);
        }
    } else {
        assert(s.subrange(0, 0) == Seq::<char>::empty());
    }
}

/// Joined pieces are the first one, a separator and the others, joined.
proof fn lemma_joined_front(pieces: Seq<Seq<char>>, sep: Seq<char>)
    requires
        pieces.len() > 1,
    ensures
        joined(pieces, sep) == pieces[0] + (sep + joined(pieces.skip(1), sep)),
    decreases pieces.len(),
{
    let rest = pieces.skip(1);
    if pieces.len() > 2 {
        let front = pieces.drop_last();
        lemma_joined_front(front, sep);
        assert(front.skip(1) == rest.drop_last());
        let middle = joined(rest.drop_last(), sep);
        assert(joined(rest, sep) == middle + sep + pieces.last());
        assert((pieces[0] + (sep + middle)) + sep + pieces.last() == pieces[0] + (sep + (middle
            + sep + pieces.last())));
    } else {
        assert(pieces.drop_last()[0] == pieces[0]);
        assert(rest[0] == pieces.last());
        assert(joined(pieces.drop_last(), sep) == pieces[0]);
        assert(joined(rest, sep) == pieces.last());
        assert(pieces[0] + sep + pieces.last() == pieces[0] + (sep + pieces.last()));
    }
}

/// Splitting undoes joining, where the character that separates the pieces stands in none of them.
pub proof fn lemma_split_undoes_joining(pieces: Seq<Seq<char>>, c: char)
    requires
        pieces.len() > 0,
        forall|i: int| 0 <= i < pieces.len() ==> !(#[trigger] pieces[i]).contains(c),
    ensures
        split(joined(pieces, seq![c]), c) == pieces,
    decreases pieces.len(),
{
    let s = joined(pieces, seq![c]);
    let first = pieces[0];
    assert forall|i: int| 0 <= i < first.len() implies first[i] != c by {
        assert(first.contains(first[i]));
    }
    if pieces.len() == 1 {
        lemma_char_index_none(s, c, 0);
        assert(pieces == seq![s]);
    } else {
        let rest = pieces.skip(1);
        assert forall|i: int| 0 <= i < rest.len() implies !(#[trigger] rest[i]).contains(c) by {
            assert(rest[i] == pieces[i + 1]);
        }
        lemma_joined_front(pieces, seq![c]);
        lemma_split_undoes_joining(rest, c);
        lemma_char_index_at(s, c, 0, first.len() as int);
        assert(s.take(first.len() as int) == first);
        assert(s.skip(first.len() as int + 1) == joined(rest, seq![c]));
        assert(seq![first] + rest == pieces);
    }
}

/// The first position of a character, where it is known.
pub proof fn lemma_char_index_at(s: Seq<char>, c: char, from: int, at: int)
    requires
        0 <= from <= at < s.len(),
        s[at] == c,
        forall|i: int| from <= i < at ==> s[i] != c,
    ensures
        char_index(s, c, from) == Some(at),
    decreases at - from,
{
    if from < at {
        lemma_char_index_at(s, c, from + 1, at);
    }
}

/// The first position of a character that does not occur.
pub proof fn lemma_char_index_none(s: Seq<char>, c: char, from: int)
    requires
        0 <= from <= s.len(),
        forall|i: int| from <= i < s.len() ==> s[i] != c,
    ensures
        char_index(s, c, from) is None,
    decreases s.len() - from,
{
    if from < s.len() {
        lemma_char_index_none(s, c, from + 1);
    }
}

/// Where a character is found it stands, and nowhere before; where it is not found it stands nowhere.
pub proof fn lemma_char_index(s: Seq<char>, c: char, from: int)
    requires
        0 <= from,
    ensures
        match char_index(s, c, from) {
            Some(i) => from <= i < s.len() && s[i] == c && forall|j: int|
                from <= j < i ==> s[j] != c,
            None => forall|j: int| from <= j < s.len() ==> s[j] != c,
        },
    decreases s.len() - from,
{
    if from < s.len() && s[from] != c {
        lemma_char_index(s, c, from + 1);
    }
}

/// A text that holds `c` is split into what stands before and what stands behind.
pub proof fn lemma_split_apart(a: Seq<char>, b: Seq<char>, c: char)
    ensures
        split(a + (seq![c] + b), c) == split(a, c) + split(b, c),
    decreases a.len(),
{
    let s = a + (seq![c] + b);
    lemma_char_index(a, c, 0);
    match char_index(a, c, 0) {
        Some(i) => {
            lemma_char_index_at(s, c, 0, i);
            lemma_split_apart(a.skip(i + 1), b, c);
            assert(s.take(i) == a.take(i));
            assert(s.skip(i + 1) == a.skip(i + 1) + (seq![c] + b));
            assert(split(s, c) == seq![a.take(i)] + (split(a.skip(i + 1), c) + split(b, c)));
            assert(split(a, c) == seq![a.take(i)] + split(a.skip(i + 1), c));
        },
        None => {
            let n = a.len() as int;
            assert(s[n] == c);
            lemma_char_index_at(s, c, 0, n);
            assert(s.take(n) == a);
            assert(s.skip(n + 1) == b);
        },
    }
}

/// There is always a last piece; a character that does not separate is put at its end.
pub proof fn lemma_split_push(s: Seq<char>, d: char, c: char)
    requires
        d != c,
    ensures
        split(s, c).len() > 0,
        split(s.push(d), c) == split(s, c).drop_last().push(split(s, c).last().push(d)),
    decreases s.len(),
{
    let t = s.push(d);
    lemma_char_index(s, c, 0);
    match char_index(s, c, 0) {
        Some(i) => {
            let rest = s.skip(i + 1);
            lemma_char_index_at(t, c, 0, i);
            lemma_split_push(rest, d, c);
            assert(t.take(i) == s.take(i));
            assert(t.skip(i + 1) == rest.push(d));
            assert(split(s, c) == seq![s.take(i)] + split(rest, c));
            assert(split(s, c).last() == split(rest, c).last());
            assert(split(s, c).drop_last() == seq![s.take(i)] + split(rest, c).drop_last());
            assert(split(t, c) == seq![s.take(i)] + split(rest.push(d), c));
        },
        None => {
            lemma_char_index_none(t, c, 0);
            assert(split(s, c) == seq![s]);
            assert(split(s, c).drop_last() == Seq::<Seq<char>>::empty());
            assert(split(t, c) == seq![t]);
        },
    }
}

/// The run of `c` at the end of two texts is that of the second, where the first does not end with
/// `c`.
pub proof fn lemma_trimmed_end_apart(a: Seq<char>, b: Seq<char>, c: char)
    requires
        a.len() > 0 ==> a.last() != c,
    ensures
        trimmed_end(a + b, c) == a + trimmed_end(b, c),
    decreases b.len(),
{
    if b.len() == 0 {
        assert(a + b == a);
        assert(a + trimmed_end(b, c) == a);
    } else {
        assert((a + b).last() == b.last());
        if b.last() == c {
            assert((a + b).drop_last() == a + b.drop_last());
            lemma_trimmed_end_apart(a, b.drop_last(), c);
        }
    }
}

/// A run of `c` at the end of a text goes, and nothing else.
pub proof fn lemma_trimmed_end_run(s: Seq<char>, run: Seq<char>, c: char)
    requires
        s.len() > 0 ==> s.last() != c,
        forall|i: int| 0 <= i < run.len() ==> #[trigger] run[i] == c,
    ensures
        trimmed_end(s + run, c) == s,
    decreases run.len(),
{
    if run.len() == 0 {
        assert(s + run == s);
    } else {
        assert((s + run).last() == run[run.len() - 1]);
        assert((s + run).drop_last() == s + run.drop_last());
        assert forall|i: int| 0 <= i < run.drop_last().len() implies #[trigger] run.drop_last()[i]
            == c by {
            assert(run[i] == c);
        }
        lemma_trimmed_end_run(s, run.drop_last(), c);
    }
}

/// Whether a text is white space all through.
pub open spec fn is_white(s: Seq<char>) -> bool {
    forall|i: int| 0 <= i < s.len() ==> is_white_space(#[trigger] s[i])
}

/// Whether a text neither begins nor ends with white space.
pub open spec fn is_trim(s: Seq<char>) -> bool {
    s.len() > 0 ==> !is_white_space(s[0]) && !is_white_space(s.last())
}

/// White space is what Unicode's table of properties lists as `White_Space`, by its numbers.
pub proof fn lemma_white_space(c: char)
    ensures
        is_white_space(c) <==> {
            let n = c as int;
            9 <= n <= 13 || n == 32 || n == 133 || n == 160 || n == 5760 || 8192 <= n <= 8202 || n
                == 8232 || n == 8233 || n == 8239 || n == 8287 || n == 12288
        },
{
}

/// White space round a text goes, and nothing else.
pub proof fn lemma_trimmed(left: Seq<char>, s: Seq<char>, right: Seq<char>)
    requires
        is_white(left),
        is_trim(s),
        is_white(right),
    ensures
        trimmed(left + s + right) == s,
    decreases left.len() + right.len(),
{
    let whole = left + s + right;
    if left.len() > 0 {
        assert(whole[0] == left[0]);
        let rest = left.skip(1);
        assert(whole.skip(1) == rest + s + right);
        assert forall|i: int| 0 <= i < rest.len() implies is_white_space(#[trigger] rest[i]) by {
            assert(rest[i] == left[i + 1]);
        }
        lemma_trimmed(rest, s, right);
    } else if right.len() > 0 {
        assert(whole.last() == right[right.len() - 1]);
        if s.len() > 0 {
            assert(whole[0] == s[0]);
            let rest = right.drop_last();
            assert(whole.drop_last() == left + s + rest);
            assert forall|i: int| 0 <= i < rest.len() implies is_white_space(
                #[trigger] rest[i],
            ) by {
                assert(rest[i] == right[i]);
            }
            lemma_trimmed(left, s, rest);
        } else {
            assert(whole[0] == right[0]);
            let rest = right.skip(1);
            assert(whole.skip(1) == left + s + rest);
            assert forall|i: int| 0 <= i < rest.len() implies is_white_space(
                #[trigger] rest[i],
            ) by {
                assert(rest[i] == right[i + 1]);
            }
            lemma_trimmed(left, s, rest);
        }
    } else {
        assert(whole == s);
    }
}

/// A text whose last character occurs nowhere else in it is found behind `x`, where it stands, when
/// it does not stand in `x`.
pub proof fn lemma_found_behind(pre: Seq<char>, x: Seq<char>, p: Seq<char>, y: Seq<char>)
    requires
        p.len() > 0,
        forall|k: int| 0 <= k < p.len() - 1 ==> #[trigger] p[k] != p.last(),
        !contains_text(x, p),
    ensures
        index_of(pre + (x + (p + y)), p, pre.len() as int) == Some((pre.len() + x.len()) as int),
{
    let s = pre + (x + (p + y));
    let from = pre.len() as int;
    let at = from + x.len();
    assert(s.subrange(at, at + p.len()) == p);
    assert(occurs_at(s, p, at));
    assert forall|j: int| from <= j < at implies !occurs_at(s, p, j) by {
        if occurs_at(s, p, j) {
            let end = j + p.len();
            if end <= at {
                assert(x.subrange(j - from, end - from) == s.subrange(j, end));
                assert(occurs_at(x, p, j - from));
            } else {
                assert(s.subrange(j, end)[p.len() - 1] == s[end - 1]);
                assert(s[end - 1] == p[end - 1 - at]);
            }
        }
    }
    lemma_index_of(s, p, from);
}

/// A text that stands neither in `x` nor in `y` does not stand in both together, where `y` begins
/// with a character that stands nowhere in the text but at its beginning.
pub proof fn lemma_nowhere(x: Seq<char>, y: Seq<char>, p: Seq<char>)
    requires
        p.len() > 0,
        y.len() > 0 ==> forall|k: int| 0 < k < p.len() ==> #[trigger] p[k] != y[0],
        !contains_text(x, p),
        !contains_text(y, p),
    ensures
        !contains_text(x + y, p),
{
    let s = x + y;
    assert forall|j: int| !occurs_at(s, p, j) by {
        if occurs_at(s, p, j) {
            let end = j + p.len();
            let n = x.len() as int;
            if end <= n {
                assert(x.subrange(j, end) == s.subrange(j, end));
                assert(occurs_at(x, p, j));
            } else if j >= n {
                assert(y.subrange(j - n, end - n) == s.subrange(j, end));
                assert(occurs_at(y, p, j - n));
            } else {
                assert(s.subrange(j, end)[n - j] == s[n]);
                assert(p[n - j] == y[0]);
            }
        }
    }
}

/// Joined pieces hold no character that neither the pieces nor the separator hold.
pub proof fn lemma_joined_without(pieces: Seq<Seq<char>>, sep: Seq<char>, c: char)
    requires
        forall|i: int| 0 <= i < pieces.len() ==> !(#[trigger] pieces[i]).contains(c),
        !sep.contains(c),
    ensures
        !joined(pieces, sep).contains(c),
    decreases pieces.len(),
{
    if pieces.len() > 1 {
        let front = pieces.drop_last();
        assert forall|i: int| 0 <= i < front.len() implies !(#[trigger] front[i]).contains(c) by {
            assert(front[i] == pieces[i]);
        }
        lemma_joined_without(front, sep, c);
        let a = joined(front, sep);
        let b = pieces.last();
        assert(!pieces[pieces.len() - 1].contains(c));
        let s = joined(pieces, sep);
        assert(s == a + sep + b);
        if s.contains(c) {
            let i = choose|i: int| 0 <= i < s.len() && s[i] == c;
            if i < a.len() {
                assert(a[i] == c);
            } else if i < a.len() + sep.len() {
                assert(sep[i - a.len()] == c);
            } else {
                assert(b[i - a.len() - sep.len()] == c);
            }
        }
    } else if pieces.len() == 1 {
        assert(!pieces[0].contains(c));
    }
}

}
