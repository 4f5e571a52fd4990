//! Text as sequences of characters.
//!
//! A `&str` or `String` is modelled by its `Seq<char>` view. The functions here work on
//! slices of `char`, and each has a spec function that says what it computes.

use vstd::prelude::*;
use vstd::slice::slice_subrange;

verus! {

/// `String::push` of std appends the given character to the end of the string.
pub assume_specification[ String::push ](s: &mut String, c: char)
    ensures
        final(s)@ == old(s)@.push(c),
;

/// The characters of `text`, in order.
pub fn to_chars(text: &str) -> (out: Vec<char>)
    ensures
        out@ == text@,
{
    let mut out: Vec<char> = Vec::new();
    for c in it: text.chars()
        invariant
            it.seq() == text@,
            out@ == text@.take(it.index() as int),
    {
        out.push(c);
    }
    out
}

/// The string made of the characters of `chars`, in order.
pub fn to_text(chars: &[char]) -> (out: String)
    ensures
        out@ == chars@,
{
    let mut out = String::new();
    let mut i: usize = 0;
    while i < chars.len()
        invariant
            i <= chars@.len(),
            out@ == chars@.take(i as int),
        decreases chars@.len() - i,
    {
        out.push(chars[i]);
        i += 1;
    }
    out
}

/// Adds every character of `tail` to the end of `out`.
pub fn push_all(out: &mut Vec<char>, tail: &[char])
    ensures
        final(out)@ == old(out)@ + tail@,
{
    let mut i: usize = 0;
    while i < tail.len()
        invariant
            i <= tail@.len(),
            out@ == old(out)@ + tail@.take(i as int),
        decreases tail@.len() - i,
    {
        out.push(tail[i]);
        i += 1;
    }
    assert(tail@.take(i as int) == tail@);
}

/// Whether two texts hold the same characters.
pub fn same_chars(a: &[char], b: &[char]) -> (same: bool)
    ensures
        same == (a@ == b@),
{
    if a.len() != b.len() {
        return false;
    }
    let mut i: usize = 0;
    while i < a.len()
        invariant
            i <= a@.len(),
            a@.len() == b@.len(),
            a@.take(i as int) == b@.take(i as int),
        decreases a@.len() - i,
    {
        if a[i] != b[i] {
            return false;
        }
        i += 1;
        assert(a@.take(i as int) == a@.take(i - 1).push(a@[i - 1]));
        assert(b@.take(i as int) == b@.take(i - 1).push(b@[i - 1]));
    }
    assert(a@.take(i as int) == a@);
    assert(b@.take(i as int) == b@);
    true
}

/// Whether two strings hold the same characters.
pub fn same_text(a: &str, b: &str) -> (same: bool)
    ensures
        same == (a@ == b@),
{
    same_chars(to_chars(a).as_slice(), to_chars(b).as_slice())
}

/// Whether `c` occurs in `s`.
pub fn has_char(s: &[char], c: char) -> (found: bool)
    ensures
        found == s@.contains(c),
{
    let mut i: usize = 0;
    while i < s.len()
        invariant
            i <= s@.len(),
            forall|k: int| 0 <= k < i ==> s@[k] != c,
        decreases s@.len() - i,
    {
        if s[i] == c {
            return true;
        }
        i += 1;
    }
    false
}

// ---------------------------------------------------------------------------
// ASCII classes and case
// ---------------------------------------------------------------------------

/// ASCII letters.
pub open spec fn is_alpha(c: char) -> bool {
    'a' <= c <= 'z' || 'A' <= c <= 'Z'
}

/// ASCII digits.
pub open spec fn is_digit(c: char) -> bool {
    '0' <= c <= '9'
}

/// ASCII letters and digits.
pub open spec fn is_alnum(c: char) -> bool {
    is_alpha(c) || is_digit(c)
}

/// ASCII upper-case letters become lower case; everything else stays.
pub open spec fn lower(c: char) -> char {
    if 'A' <= c <= 'Z' {
        ((c as u8 + 32) as u8) as char
    } else {
        c
    }
}

pub fn is_ascii_alpha(c: char) -> (b: bool)
    ensures
        b == is_alpha(c),
{
    ('a' <= c && c <= 'z') || ('A' <= c && c <= 'Z')
}

pub fn is_ascii_alnum(c: char) -> (b: bool)
    ensures
        b == is_alnum(c),
{
    is_ascii_alpha(c) || ('0' <= c && c <= '9')
}

pub fn to_lower(c: char) -> (l: char)
    ensures
        l == lower(c),
{
    if 'A' <= c && c <= 'Z' {
        ((c as u8) + 32u8) as char
    } else {
        c
    }
}

/// Equality up to the case of ASCII letters.
pub open spec fn same_folded(a: Seq<char>, b: Seq<char>) -> bool {
    a.len() == b.len() && forall|i: int| 0 <= i < a.len() ==> lower(#[trigger] a[i]) == lower(b[i])
}

/// Whether two texts are equal up to the case of ASCII letters.
pub fn eq_folded(a: &[char], b: &[char]) -> (same: bool)
    ensures
        same == same_folded(a@, b@),
{
    if a.len() != b.len() {
        return false;
    }
    let mut i: usize = 0;
    while i < a.len()
        invariant
            i <= a@.len(),
            a@.len() == b@.len(),
            forall|k: int| 0 <= k < i ==> lower(#[trigger] a@[k]) == lower(b@[k]),
        decreases a@.len() - i,
    {
        if to_lower(a[i]) != to_lower(b[i]) {
            return false;
        }
        i += 1;
    }
    true
}

// ---------------------------------------------------------------------------
// White space and trimming
// ---------------------------------------------------------------------------

/// The characters with the Unicode property `White_Space`.
pub open spec fn is_space(c: char) -> bool {
    ||| '\u{9}' <= c <= '\u{d}'
    ||| c == ' '
    ||| c == '\u{85}'
    ||| c == '\u{a0}'
    ||| c == '\u{1680}'
    ||| '\u{2000}' <= c <= '\u{200a}'
    ||| c == '\u{2028}'
    ||| c == '\u{2029}'
    ||| c == '\u{202f}'
    ||| c == '\u{205f}'
    ||| c == '\u{3000}'
}

pub fn is_white_space(c: char) -> (b: bool)
    ensures
        b == is_space(c),
{
    ('\u{9}' <= c && c <= '\u{d}') || c == ' ' || c == '\u{85}' || c == '\u{a0}' || c == '\u{1680}'
        || ('\u{2000}' <= c && c <= '\u{200a}') || c == '\u{2028}' || c == '\u{2029}'
        || c == '\u{202f}' || c == '\u{205f}' || c == '\u{3000}'
}

/// `s` without the white space at its two ends.
pub open spec fn trimmed(s: Seq<char>) -> Seq<char>
    decreases s.len(),
{
    if s.len() == 0 {
        s
    } else if is_space(s.first()) {
        trimmed(s.drop_first())
    } else if is_space(s.last()) {
        trimmed(s.drop_last())
    } else {
        s
    }
}

/// `s` without the white space at its two ends.
pub fn trim(s: &[char]) -> (t: &[char])
    ensures
        t@ == trimmed(s@),
{
    let mut start: usize = 0;
    assert(s@.skip(0) == s@);
    while start < s.len() && is_white_space(s[start])
        invariant
            start <= s@.len(),
            trimmed(s@) == trimmed(s@.skip(start as int)),
        decreases s@.len() - start,
    {
        assert(s@.skip(start as int).drop_first() == s@.skip(start + 1));
        start += 1;
    }
    let mut end: usize = s.len();
    assert(s@.skip(start as int) == s@.subrange(start as int, end as int));
    while start < end && is_white_space(s[end - 1])
        invariant
            start <= end <= s@.len(),
            start < end ==> !is_space(s@[start as int]),
            trimmed(s@) == trimmed(s@.subrange(start as int, end as int)),
        decreases end,
    {
        let ghost part = s@.subrange(start as int, end as int);
        assert(part.first() == s@[start as int]);
        assert(part.last() == s@[end - 1]);
        assert(part.drop_last() == s@.subrange(start as int, end - 1));
        end -= 1;
    }
    let ghost part = s@.subrange(start as int, end as int);
    assert(start < end ==> part.first() == s@[start as int] && part.last() == s@[end - 1]);
    slice_subrange(s, start, end)
}

/// Trimming removes only white space, and leaves none at either end.
pub proof fn lemma_trimmed_ends(s: Seq<char>)
    ensures
        trimmed(s).len() <= s.len(),
        trimmed(s).len() > 0 ==> !is_space(trimmed(s).first()) && !is_space(trimmed(s).last()),
        trimmed(trimmed(s)) == trimmed(s),
        forall|c: char| trimmed(s).contains(c) ==> s.contains(c),
    decreases s.len(),
{
    if s.len() == 0 {
    } else if is_space(s.first()) {
        lemma_trimmed_ends(s.drop_first());
        assert forall|c: char| trimmed(s).contains(c) implies s.contains(c) by {
            assert(s.drop_first().contains(c));
            let i = choose|i: int| 0 <= i < s.drop_first().len() && s.drop_first()[i] == c;
            assert(s[i + 1] == c);
        }
    } else if is_space(s.last()) {
        lemma_trimmed_ends(s.drop_last());
        assert forall|c: char| trimmed(s).contains(c) implies s.contains(c) by {
            assert(s.drop_last().contains(c));
            let i = choose|i: int| 0 <= i < s.drop_last().len() && s.drop_last()[i] == c;
            assert(s[i] == c);
        }
    }
}

/// White space added at the end does not change what trimming gives.
pub proof fn lemma_trimmed_push_space(s: Seq<char>, c: char)
    requires
        is_space(c),
    ensures
        trimmed(s.push(c)) == trimmed(s),
    decreases s.len(),
{
    let p = s.push(c);
    if s.len() == 0 {
        assert(p.drop_first() == s);
    } else if is_space(s.first()) {
        assert(p.first() == s.first());
        assert(p.drop_first() == s.drop_first().push(c));
        lemma_trimmed_push_space(s.drop_first(), c);
    } else {
        assert(p.first() == s.first());
        assert(p.last() == c);
        assert(p.drop_last() == s);
    }
}

/// White space added at the start does not change what trimming gives.
pub proof fn lemma_trimmed_prepend_space(s: Seq<char>, c: char)
    requires
        is_space(c),
    ensures
        trimmed(seq![c] + s) == trimmed(s),
{
    let p = seq![c] + s;
    assert(p.first() == c);
    assert(p.drop_first() == s);
}

// ---------------------------------------------------------------------------
// Lines
// ---------------------------------------------------------------------------

/// How many characters come before the first line feed.
pub open spec fn line_len(s: Seq<char>) -> nat
    decreases s.len(),
{
    if s.len() == 0 || s.first() == '\n' {
        0
    } else {
        1 + line_len(s.drop_first())
    }
}

/// A line that ended in carriage return and line feed loses the carriage return.
pub open spec fn without_cr(s: Seq<char>) -> Seq<char> {
    if s.len() > 0 && s.last() == '\r' {
        s.drop_last()
    } else {
        s
    }
}

/// The lines of a text: each ends at a line feed, with or without a carriage return before it;
/// the last one may lack its line feed, and then keeps everything up to the end.
pub open spec fn lines_of(s: Seq<char>) -> Seq<Seq<char>>
    decreases s.len(),
{
    if s.len() == 0 {
        Seq::empty()
    } else if line_len(s) >= s.len() {
        seq![s]
    } else {
        seq![without_cr(s.take(line_len(s) as int))] + lines_of(s.skip(line_len(s) as int + 1))
    }
}

/// Every line followed by a line feed.
pub open spec fn unlines(lines: Seq<Seq<char>>) -> Seq<char>
    decreases lines.len(),
{
    if lines.len() == 0 {
        Seq::empty()
    } else {
        unlines(lines.drop_last()) + lines.last().push('\n')
    }
}

pub proof fn lemma_line_len(s: Seq<char>)
    ensures
        line_len(s) <= s.len(),
        forall|i: int| 0 <= i < line_len(s) ==> s[i] != '\n',
        line_len(s) < s.len() ==> s[line_len(s) as int] == '\n',
    decreases s.len(),
{
    if s.len() == 0 || s.first() == '\n' {
    } else {
        let r = s.drop_first();
        lemma_line_len(r);
        assert forall|i: int| 0 <= i < line_len(s) implies s[i] != '\n' by {
            if i > 0 {
                assert(r[i - 1] == s[i]);
            }
        }
    }
}

/// `line_len` is the only number that its description fits.
pub proof fn lemma_line_len_is(s: Seq<char>, n: nat)
    requires
        n <= s.len(),
        forall|i: int| 0 <= i < n ==> s[i] != '\n',
        n < s.len() ==> s[n as int] == '\n',
    ensures
        line_len(s) == n,
{
    lemma_line_len(s);
}

/// A view of a vector of vectors.
pub open spec fn views(v: Seq<Vec<char>>) -> Seq<Seq<char>> {
    v.map_values(|x: Vec<char>| x@)
}

/// A view of a sequence of strings.
pub open spec fn texts(v: Seq<String>) -> Seq<Seq<char>> {
    v.map_values(|x: String| x@)
}

/// A view of a sequence of borrowed strings.
pub open spec fn strs(v: Seq<&str>) -> Seq<Seq<char>> {
    v.map_values(|x: &str| x@)
}

/// The lines of `s`.
pub fn lines(s: &[char]) -> (out: Vec<Vec<char>>)
    ensures
        views(out@) == lines_of(s@),
{
    let mut out: Vec<Vec<char>> = Vec::new();
    let mut start: usize = 0;
    assert(s@.skip(0) == s@);
    assert(views(out@) + lines_of(s@) == lines_of(s@));
    while start < s.len()
        invariant
            start <= s@.len(),
            lines_of(s@) == views(out@) + lines_of(s@.skip(start as int)),
        decreases s@.len() - start,
    {
        let ghost rest = s@.skip(start as int);
        let mut end: usize = start;
        while end < s.len() && s[end] != '\n'
            invariant
                start <= end <= s@.len(),
                forall|k: int| start <= k < end ==> s@[k] != '\n',
            decreases s@.len() - end,
        {
            end += 1;
        }
        proof {
            lemma_line_len_is(rest, (end - start) as nat);
        }
        let ghost before = views(out@);
        if end == s.len() {
            let line = slice_subrange(s, start, end);
            let mut owned: Vec<char> = Vec::new();
            push_all(&mut owned, line);
            assert(owned@ == rest);
            out.push(owned);
            assert(views(out@) == before.push(rest));
            assert(before + seq![rest] == before.push(rest));
            assert(s@.skip(end as int) == Seq::<char>::empty());
            assert(views(out@) + lines_of(s@.skip(end as int)) == views(out@));
            start = end;
        } else {
            let mut stop: usize = end;
            if stop > start && s[stop - 1] == '\r' {
                stop -= 1;
            }
            let line = slice_subrange(s, start, stop);
            let mut owned: Vec<char> = Vec::new();
            push_all(&mut owned, line);
            let ghost full = rest.take(end - start);
            assert(full.len() > 0 ==> full.last() == s@[end - 1]);
            assert(owned@ == without_cr(full));
            out.push(owned);
            assert(views(out@) == before.push(without_cr(full)));
            assert(rest.skip(end - start + 1) == s@.skip(end + 1));
            assert(before + (seq![without_cr(full)] + lines_of(s@.skip(end + 1))) == before.push(
                without_cr(full),
            ) + lines_of(s@.skip(end + 1)));
            start = end + 1;
        }
    }
    assert(s@.skip(start as int) == Seq::<char>::empty());
    assert(views(out@) + lines_of(s@.skip(start as int)) == views(out@));
    out
}

/// Every line followed by a line feed.
pub fn join_lines(lines: &Vec<Vec<char>>) -> (out: Vec<char>)
    ensures
        out@ == unlines(views(lines@)),
{
    let mut out: Vec<char> = Vec::new();
    let mut i: usize = 0;
    while i < lines.len()
        invariant
            i <= lines@.len(),
            out@ == unlines(views(lines@).take(i as int)),
        decreases lines@.len() - i,
    {
        push_all(&mut out, lines[i].as_slice());
        out.push('\n');
        i += 1;
        proof {
            let part = views(lines@).take(i as int);
            assert(part.drop_last() == views(lines@).take(i - 1));
            assert(part.last() == lines@[i - 1]@);
            assert(unlines(part) == unlines(part.drop_last()) + part.last().push('\n'));
        }
    }
    assert(views(lines@).take(i as int) == views(lines@));
    out
}

/// Lines that hold no line feed come back from a text that holds one after each of them,
/// up to a carriage return at the end of each.
pub proof fn lemma_lines_of_unlines(lines: Seq<Seq<char>>)
    requires
        forall|i: int, j: int|
            0 <= i < lines.len() && 0 <= j < lines[i].len() ==> #[trigger] lines[i][j] != '\n',
    ensures
        lines_of(unlines(lines)) == lines.map_values(|l: Seq<char>| without_cr(l)),
    decreases lines.len(),
{
    if lines.len() > 0 {
        let init = lines.drop_last();
        assert forall|i: int, j: int| 0 <= i < init.len() && 0 <= j < init[i].len() implies
            #[trigger] init[i][j] != '\n' by {
            assert(init[i] == lines[i]);
        }
        lemma_lines_of_unlines(init);
        lemma_lines_of_append(unlines(init), lines.last());
        assert(lines.map_values(|l: Seq<char>| without_cr(l)) == init.map_values(
            |l: Seq<char>| without_cr(l),
        ).push(without_cr(lines.last())));
    } else {
        assert(lines.map_values(|l: Seq<char>| without_cr(l)) == Seq::<Seq<char>>::empty());
    }
}

/// One more terminated line at the end of a text of terminated lines is one more line.
pub proof fn lemma_lines_of_append(s: Seq<char>, line: Seq<char>)
    requires
        s.len() > 0 ==> s.last() == '\n',
        forall|j: int| 0 <= j < line.len() ==> line[j] != '\n',
    ensures
        lines_of(s + line.push('\n')) == lines_of(s).push(without_cr(line)),
    decreases s.len(),
{
    let whole = s + line.push('\n');
    if s.len() == 0 {
        assert(whole == line.push('\n'));
        lemma_line_len_is(whole, line.len());
        assert(whole.take(line.len() as int) == line);
        assert(whole.skip(line.len() as int + 1) == Seq::<char>::empty());
        assert(lines_of(whole) == seq![without_cr(line)] + lines_of(Seq::<char>::empty()));
        assert(lines_of(s).push(without_cr(line)) == seq![without_cr(line)]);
    } else {
        lemma_line_len(s);
        let n = line_len(s);
        assert(n < s.len()) by {
            if n == s.len() {
                assert(s[s.len() - 1] != '\n');
            }
        }
        lemma_line_len_is(whole, n);
        assert(whole.take(n as int) == s.take(n as int));
        let rest = s.skip(n as int + 1);
        assert(whole.skip(n as int + 1) == rest + line.push('\n'));
        assert(rest.len() > 0 ==> rest.last() == s.last());
        lemma_lines_of_append(rest, line);
        assert(lines_of(s).push(without_cr(line)) == seq![without_cr(s.take(n as int))]
            + lines_of(rest).push(without_cr(line)));
    }
}

/// No line of a text holds a line feed.
pub proof fn lemma_lines_have_no_feed(s: Seq<char>)
    ensures
        forall|i: int, j: int|
            0 <= i < lines_of(s).len() && 0 <= j < lines_of(s)[i].len() ==> #[trigger] lines_of(
                s,
            )[i][j] != '\n',
    decreases s.len(),
{
    if s.len() > 0 {
        lemma_line_len(s);
        if line_len(s) < s.len() {
            let rest = s.skip(line_len(s) as int + 1);
            lemma_lines_have_no_feed(rest);
            assert forall|i: int, j: int|
                0 <= i < lines_of(s).len() && 0 <= j < lines_of(s)[i].len() implies
                #[trigger] lines_of(s)[i][j] != '\n' by {
                if i > 0 {
                    assert(lines_of(s)[i] == lines_of(rest)[i - 1]);
                }
            }
        }
    }
}

// ---------------------------------------------------------------------------
// Searching and replacing
// ---------------------------------------------------------------------------

/// `p` stands at index `i` of `s`.
pub open spec fn occurs_at(s: Seq<char>, p: Seq<char>, i: int) -> bool {
    0 <= i && i + p.len() <= s.len() && s.subrange(i, i + p.len()) == p
}

/// `p` stands somewhere in `s`.
pub open spec fn contains_text(s: Seq<char>, p: Seq<char>) -> bool {
    exists|i: int| occurs_at(s, p, i)
}

/// Where `p` first stands in `s`.
pub open spec fn position_of(s: Seq<char>, p: Seq<char>) -> Option<int>
    decreases s.len(),
{
    if occurs_at(s, p, 0) {
        Some(0)
    } else if s.len() == 0 {
        None
    } else {
        match position_of(s.drop_first(), p) {
            Some(i) => Some(i + 1),
            None => None,
        }
    }
}

pub proof fn lemma_occurs_shift(s: Seq<char>, p: Seq<char>, i: int)
    requires
        s.len() > 0,
        i >= 0,
    ensures
        occurs_at(s, p, i + 1) == occurs_at(s.drop_first(), p, i),
{
    if i + 1 + p.len() <= s.len() {
        assert(s.subrange(i + 1, i + 1 + p.len()) == s.drop_first().subrange(i, i + p.len()));
    }
}

/// `position_of` is the least index at which the pattern stands, and `None` if there is none.
pub proof fn lemma_position_of(s: Seq<char>, p: Seq<char>)
    ensures
        match position_of(s, p) {
            Some(i) => occurs_at(s, p, i) && forall|k: int| 0 <= k < i ==> !occurs_at(s, p, k),
            None => forall|k: int| !occurs_at(s, p, k),
        },
        contains_text(s, p) == (position_of(s, p) is Some),
    decreases s.len(),
{
    if occurs_at(s, p, 0) {
    } else if s.len() == 0 {
    } else {
        lemma_position_of(s.drop_first(), p);
        assert forall|k: int| k > 0 implies occurs_at(s, p, k) == occurs_at(
            s.drop_first(),
            p,
            k - 1,
        ) by {
            lemma_occurs_shift(s, p, k - 1);
        }
    }
}

/// The least index at which the pattern stands is what `position_of` gives.
pub proof fn lemma_position_of_is(s: Seq<char>, p: Seq<char>, i: int)
    requires
        occurs_at(s, p, i),
        forall|k: int| 0 <= k < i ==> !occurs_at(s, p, k),
    ensures
        position_of(s, p) == Some(i),
{
    lemma_position_of(s, p);
}

/// Whether `p` stands at index `i` of `s`.
pub fn stands_at(s: &[char], p: &[char], i: usize) -> (b: bool)
    ensures
        b == occurs_at(s@, p@, i as int),
{
    if i > s.len() || p.len() > s.len() - i {
        return false;
    }
    same_chars(slice_subrange(s, i, i + p.len()), p)
}

/// Where `p` first stands in `s`.
pub fn find(s: &[char], p: &[char]) -> (at: Option<usize>)
    ensures
        match at {
            Some(i) => position_of(s@, p@) == Some(i as int),
            None => position_of(s@, p@) is None,
        },
        at matches Some(i) ==> occurs_at(s@, p@, i as int),
{
    proof {
        lemma_position_of(s@, p@);
    }
    let mut i: usize = 0;
    while i < s.len()
        invariant
            i <= s@.len(),
            forall|k: int| 0 <= k < i ==> !occurs_at(s@, p@, k),
        decreases s@.len() - i,
    {
        if stands_at(s, p, i) {
            proof {
                lemma_position_of_is(s@, p@, i as int);
            }
            return Some(i);
        }
        i += 1;
    }
    if stands_at(s, p, i) {
        proof {
            lemma_position_of_is(s@, p@, i as int);
        }
        return Some(i);
    }
    None
}

/// Every occurrence of `p` in `s`, taken from the left and without overlap, becomes `r`.
/// An empty pattern changes nothing.
pub open spec fn replaced(s: Seq<char>, p: Seq<char>, r: Seq<char>) -> Seq<char>
    decreases s.len(),
{
    if s.len() == 0 || p.len() == 0 {
        s
    } else if occurs_at(s, p, 0) {
        r + replaced(s.skip(p.len() as int), p, r)
    } else {
        seq![s.first()] + replaced(s.drop_first(), p, r)
    }
}

/// Replaces every occurrence of `p` in `s` by `r`, from the left and without overlap.
pub fn replace(s: &[char], p: &[char], r: &[char]) -> (out: Vec<char>)
    ensures
        out@ == replaced(s@, p@, r@),
{
    let mut out: Vec<char> = Vec::new();
    if p.len() == 0 {
        push_all(&mut out, s);
        return out;
    }
    let mut i: usize = 0;
    assert(s@.skip(0) == s@);
    while i < s.len()
        invariant
            i <= s@.len(),
            p@.len() > 0,
            replaced(s@, p@, r@) == out@ + replaced(s@.skip(i as int), p@, r@),
        decreases s@.len() - i,
    {
        let ghost rest = s@.skip(i as int);
        let ghost before = out@;
        let hit = stands_at(s, p, i);
        assert(hit == occurs_at(rest, p@, 0)) by {
            if i + p@.len() <= s@.len() {
                assert(rest.subrange(0, p@.len() as int) == s@.subrange(i as int, i + p@.len()));
            }
        }
        if hit {
            push_all(&mut out, r);
            i += p.len();
            assert(rest.skip(p@.len() as int) == s@.skip(i as int));
            assert(before + (r@ + replaced(s@.skip(i as int), p@, r@)) == out@ + replaced(
                s@.skip(i as int),
                p@,
                r@,
            ));
        } else {
            out.push(s[i]);
            i += 1;
            assert(rest.drop_first() == s@.skip(i as int));
            assert(before + (seq![rest.first()] + replaced(s@.skip(i as int), p@, r@)) == out@
                + replaced(s@.skip(i as int), p@, r@));
        }
    }
    assert(s@.skip(i as int) == Seq::<char>::empty());
    assert(out@ + Seq::<char>::empty() == out@);
    out
}

/// A text in which the pattern does not stand is left as it is.
pub proof fn lemma_replaced_absent(s: Seq<char>, p: Seq<char>, r: Seq<char>)
    requires
        !contains_text(s, p),
    ensures
        replaced(s, p, r) == s,
    decreases s.len(),
{
    if s.len() == 0 || p.len() == 0 {
    } else {
        assert(!occurs_at(s, p, 0));
        assert forall|k: int| !occurs_at(s.drop_first(), p, k) by {
            if k >= 0 {
                lemma_occurs_shift(s, p, k);
                assert(!occurs_at(s, p, k + 1));
            }
        }
        lemma_replaced_absent(s.drop_first(), p, r);
        assert(seq![s.first()] + s.drop_first() == s);
    }
}

// ---------------------------------------------------------------------------
// What the operations on text do
// ---------------------------------------------------------------------------

/// `t` is what stands in `s` from `i` to `j`, and only white space stands before and behind that.
#[verifier::opaque]
pub open spec fn is_middle(s: Seq<char>, t: Seq<char>, i: int, j: int) -> bool {
    &&& 0 <= i <= j <= s.len()
    &&& t == s.subrange(i, j)
    &&& forall|k: int| 0 <= k < i ==> is_space(#[trigger] s[k])
    &&& forall|k: int| j <= k < s.len() ==> is_space(#[trigger] s[k])
}

proof fn lemma_middle_first(s: Seq<char>, t: Seq<char>, i: int, j: int)
    requires
        s.len() > 0,
        is_space(s.first()),
        is_middle(s.drop_first(), t, i, j),
    ensures
        is_middle(s, t, i + 1, j + 1),
{
    reveal(is_middle);
    let r = s.drop_first();
    assert(s.subrange(i + 1, j + 1) =~= r.subrange(i, j));
    assert forall|k: int| 0 <= k < i + 1 implies is_space(#[trigger] s[k]) by {
        if k > 0 {
            assert(is_space(r[k - 1]));
        }
    }
    assert forall|k: int| j + 1 <= k < s.len() implies is_space(#[trigger] s[k]) by {
        assert(is_space(r[k - 1]));
    }
}

proof fn lemma_middle_last(s: Seq<char>, t: Seq<char>, i: int, j: int)
    requires
        s.len() > 0,
        is_space(s.last()),
        is_middle(s.drop_last(), t, i, j),
    ensures
        is_middle(s, t, i, j),
{
    reveal(is_middle);
    let r = s.drop_last();
    assert(s.subrange(i, j) =~= r.subrange(i, j));
    assert forall|k: int| 0 <= k < i implies is_space(#[trigger] s[k]) by {
        assert(is_space(r[k]));
    }
    assert forall|k: int| j <= k < s.len() implies is_space(#[trigger] s[k]) by {
        if k < r.len() {
            assert(is_space(r[k]));
        }
    }
}

proof fn lemma_trimmed_middle(s: Seq<char>)
    ensures
        exists|i: int, j: int| #[trigger] is_middle(s, trimmed(s), i, j),
    decreases s.len(),
{
    if s.len() > 0 && is_space(s.first()) {
        let r = s.drop_first();
        lemma_trimmed_middle(r);
        let (i, j) = choose|i: int, j: int| #[trigger] is_middle(r, trimmed(r), i, j);
        lemma_middle_first(s, trimmed(r), i, j);
        assert(trimmed(s) == trimmed(r));
        assert(is_middle(s, trimmed(s), i + 1, j + 1));
    } else if s.len() > 0 && is_space(s.last()) {
        let r = s.drop_last();
        lemma_trimmed_middle(r);
        let (i, j) = choose|i: int, j: int| #[trigger] is_middle(r, trimmed(r), i, j);
        lemma_middle_last(s, trimmed(r), i, j);
        assert(trimmed(s) == trimmed(r));
        assert(is_middle(s, trimmed(s), i, j));
    } else {
        assert(trimmed(s) == s);
        assert(is_middle(s, trimmed(s), 0, s.len() as int)) by {
            reveal(is_middle);
            assert(s.subrange(0, s.len() as int) =~= s);
        }
    }
}

/// Spaces of every width, tabs and line ends are white space; nothing that is written with is: no
/// visible ASCII character, no Chinese character, and no mark or full-width form.
pub proof fn nothing_written_is_white_space(c: char)
    ensures
        c == ' ' || c == '\t' || c == '\n' || c == '\r' || c == '\u{a0}' || c == '\u{3000}'
            ==> is_space(c),
        '!' <= c && c <= '~' ==> !is_space(c),
        '\u{3001}' <= c && c <= '\u{303f}' ==> !is_space(c),
        '\u{4e00}' <= c && c <= '\u{9fff}' ==> !is_space(c),
        '\u{ff00}' <= c && c <= '\u{ffef}' ==> !is_space(c),
{
}

/// Trimming takes white space from the two ends, all of it, and nothing else: what is left is one
/// stretch of the text, with only white space before it and behind it and none at its ends.
pub proof fn trimming_takes_the_white_space_around(s: Seq<char>)
    ensures
        exists|i: int, j: int| #[trigger] is_middle(s, trimmed(s), i, j),
        trimmed(s).len() > 0 ==> !is_space(trimmed(s).first()) && !is_space(trimmed(s).last()),
{
    lemma_trimmed_middle(s);
    lemma_trimmed_ends(s);
}

pub(crate) proof fn lemma_blank(s: Seq<char>)
    ensures
        trimmed(s).len() > 0 <==> exists|i: int| 0 <= i < s.len() && !is_space(#[trigger] s[i]),
{
    trimming_takes_the_white_space_around(s);
    let (i, j) = choose|i: int, j: int| #[trigger] is_middle(s, trimmed(s), i, j);
    reveal(is_middle);
    if trimmed(s).len() > 0 {
        assert(!is_space(s[i]));
    }
}

/// Replacing goes from the left: up to the first place where the pattern stands everything stays,
/// there the replacement comes, and behind it replacing goes on.
pub proof fn replacing_goes_from_the_left(a: Seq<char>, p: Seq<char>, b: Seq<char>, r: Seq<char>)
    requires
        p.len() > 0,
        forall|i: int| 0 <= i < a.len() ==> !#[trigger] occurs_at(a + p + b, p, i),
    ensures
        replaced(a + p + b, p, r) == a + r + replaced(b, p, r),
    decreases a.len(),
{
    let s = a + p + b;
    if a.len() == 0 {
        assert(s.subrange(0, p.len() as int) =~= p);
        assert(s.skip(p.len() as int) =~= b);
        assert(a + r + replaced(b, p, r) =~= r + replaced(b, p, r));
    } else {
        let t = a.drop_first();
        assert(!occurs_at(s, p, 0));
        assert(s.drop_first() =~= t + p + b);
        assert forall|i: int| 0 <= i < t.len() implies !#[trigger] occurs_at(t + p + b, p, i) by {
            lemma_occurs_shift(s, p, i);
            assert(!occurs_at(s, p, i + 1));
        }
        replacing_goes_from_the_left(t, p, b, r);
        assert(seq![s.first()] + (t + r + replaced(b, p, r)) =~= a + r + replaced(b, p, r));
    }
}

/// Lines are cut at line feeds: what stands before the first is the first line, without the carriage
/// return before the line feed, and the rest is cut in the same way. What no line feed ends is one
/// line as it stands.
pub proof fn lines_are_cut_at_line_feeds(line: Seq<char>, rest: Seq<char>)
    requires
        !line.contains('\n'),
    ensures
        lines_of(line + seq!['\n'] + rest) == seq![
            if line.len() > 0 && line.last() == '\r' {
                line.drop_last()
            } else {
                line
            },
        ] + lines_of(rest),
        line.len() > 0 ==> lines_of(line) == seq![line],
        lines_of(Seq::empty()) == Seq::<Seq<char>>::empty(),
{
    let s = line + seq!['\n'] + rest;
    assert forall|i: int| 0 <= i < line.len() implies line[i] != '\n' by {
        assert(line.contains(line[i]));
    }
    lemma_line_len_is(s, line.len());
    assert(s.take(line.len() as int) =~= line);
    assert(s.skip(line.len() as int + 1) =~= rest);
    lemma_line_len_is(line, line.len());
}

} // verus!
