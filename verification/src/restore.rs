//! Restoring vocabulary terms in a final phrase.
//!
//! A final phrase is a fresh transcription, so a term that the live draft had spelled right may
//! come out wrong in it (`ArgoCD` as `R5CT`). The English runs of the phrase are aligned with
//! those of the draft of the same audio; where the draft holds a vocabulary term and the phrase
//! does not, the draft's spelling is put back. Chinese text and punctuation always stay as the
//! phrase has them. The guiding rule: rather restore nothing than restore wrongly.

use vstd::prelude::*;
use vstd::slice::slice_subrange;
use crate::text::{
    is_ascii_alnum, is_white_space, push_all, same_chars, to_chars, to_lower, to_text,
};
use crate::text::{is_alnum, is_space, lower, texts, views};

verus! {

// ---------------------------------------------------------------------------
// English runs
// ---------------------------------------------------------------------------

/// Characters that may stand inside a run, between two letters or digits.
pub open spec fn is_connector(c: char) -> bool {
    c == '.' || c == '/' || c == '+' || c == '#' || c == '-'
}

/// Where a run that has reached index `e` ends: it goes on over letters and digits, and over a
/// connector that a letter or digit follows.
pub open spec fn run_end(s: Seq<char>, e: int) -> int
    decreases s.len() - e,
{
    if e < 0 || e >= s.len() {
        e
    } else if is_alnum(s[e]) {
        run_end(s, e + 1)
    } else if e + 1 < s.len() && is_connector(s[e]) && is_alnum(s[e + 1]) {
        run_end(s, e + 2)
    } else {
        e
    }
}

/// The English runs of `s` from index `i` on, as half-open index ranges.
pub open spec fn runs_from(s: Seq<char>, i: int) -> Seq<(int, int)>
    decreases s.len() - i,
{
    if i < 0 || i >= s.len() {
        Seq::empty()
    } else if !is_alnum(s[i]) {
        runs_from(s, i + 1)
    } else {
        proof {
            lemma_run_end(s, i + 1);
        }
        seq![(i, run_end(s, i + 1))] + runs_from(s, run_end(s, i + 1))
    }
}

/// The English runs of `s`.
pub open spec fn runs_of(s: Seq<char>) -> Seq<(int, int)> {
    runs_from(s, 0)
}

pub proof fn lemma_run_end(s: Seq<char>, e: int)
    requires
        0 <= e <= s.len(),
    ensures
        e <= run_end(s, e) <= s.len(),
        forall|k: int| e <= k < run_end(s, e) ==> is_alnum(s[k]) || is_connector(s[k]),
        run_end(s, e) > e ==> is_alnum(s[run_end(s, e) - 1]),
        run_end(s, e) < s.len() ==> !is_alnum(s[run_end(s, e)]),
    decreases s.len() - e,
{
    if e < s.len() {
        if is_alnum(s[e]) {
            lemma_run_end(s, e + 1);
        } else if e + 1 < s.len() && is_connector(s[e]) && is_alnum(s[e + 1]) {
            lemma_run_end(s, e + 2);
        }
    }
}

/// Only letters, digits and connectors stand in `s` from `from` to `to`.
pub open spec fn run_chars(s: Seq<char>, from: int, to: int) -> bool {
    forall|c: int| from <= c < to ==> is_alnum(#[trigger] s[c]) || is_connector(s[c])
}

/// What a list of runs of `s` from `i` on looks like: in order, apart, inside `s`, each starting
/// and ending with a letter or digit and holding only run characters.
pub open spec fn runs_ok(s: Seq<char>, i: int, r: Seq<(int, int)>) -> bool {
    &&& forall|k: int| 0 <= k < r.len() ==> i <= (#[trigger] r[k]).0 < r[k].1 <= s.len()
    &&& forall|k: int, l: int| 0 <= k < l < r.len() ==> (#[trigger] r[k]).1 <= (#[trigger] r[l]).0
    &&& forall|k: int|
        0 <= k < r.len() ==> is_alnum(s[(#[trigger] r[k]).0]) && is_alnum(s[r[k].1 - 1])
    &&& forall|k: int| 0 <= k < r.len() ==> run_chars(s, (#[trigger] r[k]).0, r[k].1)
}

pub proof fn lemma_runs_from(s: Seq<char>, i: int)
    requires
        0 <= i <= s.len(),
    ensures
        runs_ok(s, i, runs_from(s, i)),
    decreases s.len() - i,
{
    if i < s.len() {
        if !is_alnum(s[i]) {
            lemma_runs_from(s, i + 1);
        } else {
            lemma_run_end(s, i + 1);
            let e = run_end(s, i + 1);
            lemma_runs_from(s, e);
            let rest = runs_from(s, e);
            let r = runs_from(s, i);
            assert forall|k: int| 0 <= k < r.len() implies i <= (#[trigger] r[k]).0 < r[k].1
                <= s.len() && is_alnum(s[r[k].0]) && is_alnum(s[r[k].1 - 1]) by {
                if k > 0 {
                    assert(r[k] == rest[k - 1]);
                }
            }
            assert forall|k: int, l: int| 0 <= k < l < r.len() implies (#[trigger] r[k]).1 <= (
            #[trigger] r[l]).0 by {
                assert(r[l] == rest[l - 1]);
                if k > 0 {
                    assert(r[k] == rest[k - 1]);
                }
            }
            assert forall|k: int| 0 <= k < r.len() implies run_chars(
                s,
                (#[trigger] r[k]).0,
                r[k].1,
            ) by {
                if k > 0 {
                    assert(r[k] == rest[k - 1]);
                }
            }
        }
    }
}

/// One English run of a text: where it stands, and its characters.
#[derive(Debug)]
pub struct Run {
    pub start: usize,
    pub end: usize,
    pub text: Vec<char>,
}

/// The index ranges of runs.
pub open spec fn ranges(runs: Seq<Run>) -> Seq<(int, int)> {
    runs.map_values(|r: Run| (r.start as int, r.end as int))
}

/// The characters of runs.
pub open spec fn run_texts(runs: Seq<Run>) -> Seq<Seq<char>> {
    runs.map_values(|r: Run| r.text@)
}

/// The characters that the ranges `r` cut out of `s`.
pub open spec fn cut(s: Seq<char>, r: Seq<(int, int)>) -> Seq<Seq<char>> {
    r.map_values(|x: (int, int)| s.subrange(x.0, x.1))
}

fn is_conn(c: char) -> (b: bool)
    ensures
        b == is_connector(c),
{
    c == '.' || c == '/' || c == '+' || c == '#' || c == '-'
}

/// The English runs of `s`: letters and digits, with single connectors between them.
pub fn extract_runs(s: &[char]) -> (runs: Vec<Run>)
    ensures
        ranges(runs@) == runs_of(s@),
        run_texts(runs@) == cut(s@, runs_of(s@)),
{
    let mut runs: Vec<Run> = Vec::new();
    let mut i: usize = 0;
    assert(ranges(runs@) + runs_from(s@, 0) == runs_from(s@, 0));
    while i < s.len()
        invariant
            i <= s@.len(),
            runs_of(s@) == ranges(runs@) + runs_from(s@, i as int),
            run_texts(runs@) == cut(s@, ranges(runs@)),
        decreases s@.len() - i,
    {
        if !is_ascii_alnum(s[i]) {
            i += 1;
            continue;
        }
        let start: usize = i;
        let mut end: usize = i + 1;
        while end < s.len() && (is_ascii_alnum(s[end]) || (is_conn(s[end]) && s.len() - end > 1
            && is_ascii_alnum(s[end + 1])))
            invariant
                start < end <= s@.len(),
                run_end(s@, start + 1) == run_end(s@, end as int),
            decreases s@.len() - end,
        {
            if is_ascii_alnum(s[end]) {
                end += 1;
            } else {
                end += 2;
            }
        }
        let ghost before = ranges(runs@);
        let ghost before_texts = run_texts(runs@);
        let mut text: Vec<char> = Vec::new();
        push_all(&mut text, slice_subrange(s, start, end));
        runs.push(Run { start, end, text });
        i = end;
        proof {
            let here = (start as int, end as int);
            assert(ranges(runs@) == before.push(here));
            assert(run_texts(runs@) == before_texts.push(s@.subrange(start as int, end as int)));
            assert(cut(s@, before.push(here)) == cut(s@, before).push(
                s@.subrange(start as int, end as int),
            ));
            assert(before + (seq![here] + runs_from(s@, end as int)) == before.push(here)
                + runs_from(s@, end as int));
        }
    }
    assert(ranges(runs@) + Seq::<(int, int)>::empty() == ranges(runs@));
    runs
}

// ---------------------------------------------------------------------------
// Projection and edit distance
// ---------------------------------------------------------------------------

/// The letters and digits of `s` in lower case: what is left when case, spaces and connectors
/// do not count.
pub open spec fn projected(s: Seq<char>) -> Seq<char>
    decreases s.len(),
{
    if s.len() == 0 {
        s
    } else if is_alnum(s.last()) {
        projected(s.drop_last()).push(lower(s.last()))
    } else {
        projected(s.drop_last())
    }
}

/// The letters and digits of `s` in lower case.
pub fn projection(s: &[char]) -> (out: Vec<char>)
    ensures
        out@ == projected(s@),
{
    let mut out: Vec<char> = Vec::new();
    let mut i: usize = 0;
    while i < s.len()
        invariant
            i <= s@.len(),
            out@ == projected(s@.take(i as int)),
        decreases s@.len() - i,
    {
        let c = s[i];
        if is_ascii_alnum(c) {
            out.push(to_lower(c));
        }
        i += 1;
        assert(s@.take(i as int).drop_last() == s@.take(i - 1));
    }
    assert(s@.take(i as int) == s@);
    out
}

pub open spec fn least(a: nat, b: nat) -> nat {
    if a <= b {
        a
    } else {
        b
    }
}

/// The Levenshtein distance: the least number of single-character insertions, deletions and
/// substitutions that turn `a` into `b`.
pub open spec fn edit_distance(a: Seq<char>, b: Seq<char>) -> nat
    decreases a.len() + b.len(),
{
    if a.len() == 0 {
        b.len()
    } else if b.len() == 0 {
        a.len()
    } else {
        let change: nat = if a.last() == b.last() {
            0
        } else {
            1
        };
        least(
            least(
                edit_distance(a.drop_last(), b.drop_last()) + change,
                edit_distance(a.drop_last(), b) + 1,
            ),
            edit_distance(a, b.drop_last()) + 1,
        )
    }
}

/// The distance is at most the length of the longer text.
pub proof fn lemma_edit_distance_bound(a: Seq<char>, b: Seq<char>)
    ensures
        edit_distance(a, b) <= if a.len() <= b.len() {
            b.len()
        } else {
            a.len()
        },
    decreases a.len() + b.len(),
{
    if a.len() > 0 && b.len() > 0 {
        lemma_edit_distance_bound(a.drop_last(), b.drop_last());
    }
}

/// The distance is zero exactly between equal texts.
pub proof fn edit_distance_zero_iff_equal(a: Seq<char>, b: Seq<char>)
    ensures
        edit_distance(a, b) == 0 <==> a == b,
    decreases a.len() + b.len(),
{
    if a.len() == 0 || b.len() == 0 {
        assert(a.len() == 0 && b.len() == 0 ==> a == b);
    } else {
        edit_distance_zero_iff_equal(a.drop_last(), b.drop_last());
        if edit_distance(a, b) == 0 {
            assert(a.drop_last().push(a.last()) == a);
            assert(b.drop_last().push(b.last()) == b);
        }
    }
}

/// The distance does not depend on the direction.
pub proof fn edit_distance_symmetric(a: Seq<char>, b: Seq<char>)
    ensures
        edit_distance(a, b) == edit_distance(b, a),
    decreases a.len() + b.len(),
{
    if a.len() > 0 && b.len() > 0 {
        edit_distance_symmetric(a.drop_last(), b.drop_last());
        edit_distance_symmetric(a.drop_last(), b);
        edit_distance_symmetric(a, b.drop_last());
    }
}

/// The Levenshtein distance of two texts.
pub fn levenshtein(a: &[char], b: &[char]) -> (d: usize)
    ensures
        d == edit_distance(a@, b@),
{
    let mut prev: Vec<usize> = Vec::new();
    let mut n: usize = 0;
    while n < b.len()
        invariant
            n <= b@.len(),
            prev@.len() == n,
            forall|k: int| 0 <= k < n ==> prev@[k] == k,
        decreases b@.len() - n,
    {
        prev.push(n);
        n += 1;
    }
    prev.push(n);
    let mut i: usize = 0;
    assert forall|k: int| 0 <= k <= b@.len() implies prev@[k] == edit_distance(
        a@.take(0),
        b@.take(k),
    ) by {}
    while i < a.len()
        invariant
            i <= a@.len(),
            prev@.len() == b@.len() + 1,
            forall|k: int|
                0 <= k <= b@.len() ==> #[trigger] prev@[k] == edit_distance(
                    a@.take(i as int),
                    b@.take(k),
                ),
        decreases a@.len() - i,
    {
        let mut cur: Vec<usize> = Vec::new();
        cur.push(i + 1);
        let mut j: usize = 0;
        while j < b.len()
            invariant
                i < a@.len(),
                j <= b@.len(),
                prev@.len() == b@.len() + 1,
                forall|k: int|
                    0 <= k <= b@.len() ==> #[trigger] prev@[k] == edit_distance(
                        a@.take(i as int),
                        b@.take(k),
                    ),
                cur@.len() == j + 1,
                forall|k: int|
                    0 <= k <= j ==> #[trigger] cur@[k] == edit_distance(
                        a@.take(i + 1),
                        b@.take(k),
                    ),
            decreases b@.len() - j,
        {
            let ghost x = a@.take(i + 1);
            let ghost y = b@.take(j + 1);
            proof {
                assert(x.drop_last() == a@.take(i as int));
                assert(y.drop_last() == b@.take(j as int));
                lemma_edit_distance_bound(x.drop_last(), y.drop_last());
            }
            let change: usize = if a[i] == b[j] {
                0
            } else {
                1
            };
            assert(prev@[j as int] == edit_distance(x.drop_last(), y.drop_last()));
            assert(prev@[j + 1] == edit_distance(x.drop_last(), y));
            assert(cur@[j as int] == edit_distance(x, y.drop_last()));
            let mut v: usize = prev[j] + change;
            if prev[j + 1] < v {
                v = prev[j + 1] + 1;
            }
            if cur[j] < v {
                v = cur[j] + 1;
            }
            cur.push(v);
            j += 1;
        }
        prev = cur;
        i += 1;
    }
    assert(a@.take(i as int) == a@);
    assert(b@.take(b@.len() as int) == b@);
    prev[b.len()]
}

// ---------------------------------------------------------------------------
// Units of the draft
// ---------------------------------------------------------------------------

/// The text from the start of run `i` to the end of run `i + n - 1`.
pub open spec fn stretch(s: Seq<char>, r: Seq<(int, int)>, i: int, n: int) -> Seq<char> {
    s.subrange(r[i].0, r[i + n - 1].1)
}

/// The text between run `k` and the next one.
pub open spec fn gap(s: Seq<char>, r: Seq<(int, int)>, k: int) -> Seq<char> {
    s.subrange(r[k].1, r[k + 1].0)
}

/// The `n` runs from `i` on are all there, with a single space between neighbours.
pub open spec fn spaced(s: Seq<char>, r: Seq<(int, int)>, i: int, n: int) -> bool {
    &&& i + n <= r.len()
    &&& forall|k: int| i <= k < i + n - 1 ==> #[trigger] gap(s, r, k) == seq![' ']
}

/// The projection `p` is that of a vocabulary term.
pub open spec fn is_term(p: Seq<char>, vocab: Seq<Seq<char>>) -> bool {
    p.len() > 0 && exists|i: int| 0 <= i < vocab.len() && projected(#[trigger] vocab[i]) == p
}

/// How many runs the unit that starts at run `i` takes: as many as form a vocabulary term with
/// single spaces between them, three at most and the most first; one where none do.
pub open spec fn unit_size(s: Seq<char>, r: Seq<(int, int)>, vocab: Seq<Seq<char>>, i: int) -> int {
    if spaced(s, r, i, 3) && is_term(projected(stretch(s, r, i, 3)), vocab) {
        3
    } else if spaced(s, r, i, 2) && is_term(projected(stretch(s, r, i, 2)), vocab) {
        2
    } else {
        1
    }
}

/// The units of a draft from run `i` on: the text of each, and whether it is a vocabulary term.
pub open spec fn units_from(
    s: Seq<char>,
    r: Seq<(int, int)>,
    vocab: Seq<Seq<char>>,
    i: int,
) -> Seq<(Seq<char>, bool)>
    decreases r.len() - i,
{
    if i < 0 || i >= r.len() {
        Seq::empty()
    } else {
        let n = unit_size(s, r, vocab, i);
        let text = stretch(s, r, i, n);
        seq![(text, is_term(projected(text), vocab))] + units_from(s, r, vocab, i + n)
    }
}

/// A piece of the draft to be aligned: its text, and whether it is a vocabulary term.
#[derive(Debug)]
pub struct Unit {
    pub text: Vec<char>,
    pub vocab_hit: bool,
}

/// The texts of units, and whether each is a vocabulary term.
pub open spec fn unit_views(units: Seq<Unit>) -> Seq<(Seq<char>, bool)> {
    units.map_values(|u: Unit| (u.text@, u.vocab_hit))
}

/// The projections of a vocabulary.
pub open spec fn projections(vocab: Seq<Seq<char>>) -> Seq<Seq<char>> {
    vocab.map_values(|v: Seq<char>| projected(v))
}

/// The projection of every term of `vocab`.
fn project_vocab(vocab: &[String]) -> (out: Vec<Vec<char>>)
    ensures
        views(out@) == projections(texts(vocab@)),
{
    let mut out: Vec<Vec<char>> = Vec::new();
    let mut i: usize = 0;
    while i < vocab.len()
        invariant
            i <= vocab@.len(),
            out@.len() == i,
            forall|k: int| 0 <= k < i ==> (#[trigger] out@[k])@ == projected(vocab@[k]@),
        decreases vocab@.len() - i,
    {
        out.push(projection(to_chars(vocab[i].as_str()).as_slice()));
        i += 1;
    }
    assert(views(out@) == projections(texts(vocab@)));
    out
}

/// Whether the projection `p` is that of a vocabulary term.
fn term_hit(p: &[char], vocab_proj: &Vec<Vec<char>>, Ghost(vocab): Ghost<Seq<Seq<char>>>) -> (hit:
    bool)
    requires
        views(vocab_proj@) == projections(vocab),
    ensures
        hit == is_term(p@, vocab),
{
    if p.len() == 0 {
        return false;
    }
    let mut i: usize = 0;
    assert(vocab_proj@.len() == projections(vocab).len());
    while i < vocab_proj.len()
        invariant
            i <= vocab_proj@.len() == vocab.len(),
            p@.len() > 0,
            views(vocab_proj@) == projections(vocab),
            forall|k: int| 0 <= k < i ==> projected(#[trigger] vocab[k]) != p@,
        decreases vocab_proj@.len() - i,
    {
        assert(projected(vocab[i as int]) == projections(vocab)[i as int]);
        assert(views(vocab_proj@)[i as int] == vocab_proj@[i as int]@);
        if same_chars(vocab_proj[i].as_slice(), p) {
            return true;
        }
        i += 1;
    }
    false
}

/// Whether the `n` runs from `i` on have a single space between neighbours and together make a
/// vocabulary term; if so, their text.
fn joined_term(
    draft: &[char],
    runs: &[Run],
    i: usize,
    n: usize,
    vocab_proj: &Vec<Vec<char>>,
    Ghost(vocab): Ghost<Seq<Seq<char>>>,
) -> (term: Option<Vec<char>>)
    requires
        runs_ok(draft@, 0, ranges(runs@)),
        views(vocab_proj@) == projections(vocab),
        i < runs@.len(),
        n >= 2,
    ensures
        match term {
            Some(text) => {
                &&& spaced(draft@, ranges(runs@), i as int, n as int)
                &&& is_term(projected(stretch(draft@, ranges(runs@), i as int, n as int)), vocab)
                &&& text@ == stretch(draft@, ranges(runs@), i as int, n as int)
            },
            None => !(spaced(draft@, ranges(runs@), i as int, n as int) && is_term(
                projected(stretch(draft@, ranges(runs@), i as int, n as int)),
                vocab,
            )),
        },
{
    let ghost r = ranges(runs@);
    if n > runs.len() - i {
        return None;
    }
    let last: usize = i + (n - 1);
    let mut k: usize = i;
    while k < last
        invariant
            runs_ok(draft@, 0, r),
            r == ranges(runs@),
            last == i + n - 1,
            i <= k <= last < runs@.len(),
            forall|l: int| i <= l < k ==> #[trigger] gap(draft@, r, l) == seq![' '],
        decreases last - k,
    {
        let from: usize = runs[k].end;
        let to: usize = runs[k + 1].start;
        proof {
            assert(r[k as int] == (runs@[k as int].start as int, runs@[k as int].end as int));
            assert(r[k + 1] == (runs@[k + 1].start as int, runs@[k + 1].end as int));
            assert(r[k as int].1 <= r[k + 1].0);
        }
        if to - from != 1 || draft[from] != ' ' {
            proof {
                let g = gap(draft@, r, k as int);
                assert(g.len() == to - from);
                assert(g.len() == 1 ==> g[0] == draft@[from as int]);
            }
            return None;
        }
        assert(gap(draft@, r, k as int) == seq![' ']);
        k += 1;
    }
    let from: usize = runs[i].start;
    let to: usize = runs[last].end;
    proof {
        assert(r[i as int] == (runs@[i as int].start as int, runs@[i as int].end as int));
        assert(r[i + n - 1] == (runs@[i + n - 1].start as int, runs@[i + n - 1].end as int));
        assert(r[i as int].1 <= r[i + n - 1].0);
    }
    let joined = slice_subrange(draft, from, to);
    if term_hit(projection(joined).as_slice(), vocab_proj, Ghost(vocab)) {
        let mut text: Vec<char> = Vec::new();
        push_all(&mut text, joined);
        Some(text)
    } else {
        None
    }
}

/// The units of a draft: neighbouring runs that together make a vocabulary term become one unit,
/// the most runs first and three at most; every other run is a unit of its own.
pub fn apple_units(draft: &[char], runs: &[Run], vocab: &[String]) -> (units: Vec<Unit>)
    requires
        ranges(runs@) == runs_of(draft@),
        run_texts(runs@) == cut(draft@, runs_of(draft@)),
    ensures
        unit_views(units@) == units_from(draft@, runs_of(draft@), texts(vocab@), 0),
{
    let ghost r = runs_of(draft@);
    let ghost v = texts(vocab@);
    let vocab_proj = project_vocab(vocab);
    proof {
        lemma_runs_from(draft@, 0);
    }
    let mut units: Vec<Unit> = Vec::new();
    let mut i: usize = 0;
    assert(unit_views(units@) + units_from(draft@, r, v, 0) == units_from(draft@, r, v, 0));
    while i < runs.len()
        invariant
            i <= runs@.len(),
            r == runs_of(draft@),
            v == texts(vocab@),
            ranges(runs@) == r,
            run_texts(runs@) == cut(draft@, r),
            runs_ok(draft@, 0, r),
            views(vocab_proj@) == projections(v),
            units_from(draft@, r, v, 0) == unit_views(units@) + units_from(
                draft@,
                r,
                v,
                i as int,
            ),
        decreases runs@.len() - i,
    {
        assert(r.len() == runs@.len());
        let ghost before = unit_views(units@);
        let mut taken: usize = 1;
        let mut text: Vec<char> = Vec::new();
        let mut vocab_hit: bool = true;
        match joined_term(draft, runs, i, 3, &vocab_proj, Ghost(v)) {
            Some(t) => {
                taken = 3;
                text = t;
            },
            None => {
                match joined_term(draft, runs, i, 2, &vocab_proj, Ghost(v)) {
                    Some(t) => {
                        taken = 2;
                        text = t;
                    },
                    None => {
                        push_all(&mut text, runs[i].text.as_slice());
                        vocab_hit = term_hit(
                            projection(runs[i].text.as_slice()).as_slice(),
                            &vocab_proj,
                            Ghost(v),
                        );
                        proof {
                            assert(run_texts(runs@)[i as int] == runs@[i as int].text@);
                            assert(cut(draft@, r)[i as int] == stretch(draft@, r, i as int, 1));
                        }
                    },
                }
            },
        }
        let ghost here = (text@, vocab_hit);
        units.push(Unit { text, vocab_hit });
        proof {
            assert(unit_views(units@) == before.push(here));
            assert(before + (seq![here] + units_from(draft@, r, v, i + taken)) == before.push(here)
                + units_from(draft@, r, v, i + taken));
        }
        i += taken;
    }
    assert(unit_views(units@) + Seq::<(Seq<char>, bool)>::empty() == unit_views(units@));
    units
}

// ---------------------------------------------------------------------------
// Alignment
// ---------------------------------------------------------------------------

/// The pieces one after another.
pub open spec fn concat(pieces: Seq<Seq<char>>) -> Seq<char>
    decreases pieces.len(),
{
    if pieces.len() == 0 {
        Seq::empty()
    } else {
        concat(pieces.drop_last()) + pieces.last()
    }
}

/// How far the `len` runs from `from` on are from unit `u`, all of them by their projections.
pub open spec fn group_cost(
    units: Seq<Seq<char>>,
    runs: Seq<Seq<char>>,
    u: int,
    from: int,
    len: int,
) -> nat {
    edit_distance(units[u], concat(runs.subrange(from, from + len)))
}

/// The least total cost of cutting the first `j` runs into `u` groups, one for each of the first
/// `u` units and none empty; `None` where there is no such cut.
pub open spec fn best_cost(units: Seq<Seq<char>>, runs: Seq<Seq<char>>, u: int, j: int) -> Option<
    nat,
>
    decreases u, 1int, 0int,
{
    if u <= 0 {
        if j == 0 {
            Some(0)
        } else {
            None
        }
    } else {
        match best_last(units, runs, u, j, j - (u - 1)) {
            Some((cost, len)) => Some(cost),
            None => None,
        }
    }
}

/// Of the cuts whose last group has at most `l` runs: the least total cost, and the least length
/// of the last group that has it.
pub open spec fn best_last(
    units: Seq<Seq<char>>,
    runs: Seq<Seq<char>>,
    u: int,
    j: int,
    l: int,
) -> Option<(nat, int)>
    decreases u, 0int, l,
{
    if u <= 0 || l <= 0 {
        None
    } else {
        let shorter = best_last(units, runs, u, j, l - 1);
        match best_cost(units, runs, u - 1, j - l) {
            None => shorter,
            Some(c) => {
                let total = c + group_cost(units, runs, u - 1, j - l, l);
                match shorter {
                    Some((cost, len)) => if total < cost {
                        Some((total, l))
                    } else {
                        shorter
                    },
                    None => Some((total, l)),
                }
            },
        }
    }
}

/// The groups of the chosen cut, each as its first run and its number of runs.
pub open spec fn groups_for(units: Seq<Seq<char>>, runs: Seq<Seq<char>>, u: int, j: int) -> Seq<
    (int, int),
>
    decreases u,
{
    if u <= 0 {
        Seq::empty()
    } else {
        let len = (best_last(units, runs, u, j, j - (u - 1))->0).1;
        groups_for(units, runs, u - 1, j - len).push((j - len, len))
    }
}

/// The alignment of units and runs, both by their projections: the cut of the runs into one
/// non-empty group for each unit that costs least, the last group being as short as it can be
/// among those, then the one before it, and so on.
pub open spec fn alignment(units: Seq<Seq<char>>, runs: Seq<Seq<char>>) -> Option<Seq<(int, int)>> {
    if runs.len() < units.len() || units.len() == 0 {
        None
    } else {
        Some(groups_for(units, runs, units.len() as int, runs.len() as int))
    }
}

/// `g` cuts the first `j` runs into consecutive non-empty groups.
pub open spec fn is_cut(g: Seq<(int, int)>, j: int) -> bool
    decreases g.len(),
{
    if g.len() == 0 {
        j == 0
    } else {
        &&& g.last().1 >= 1
        &&& g.last().0 + g.last().1 == j
        &&& is_cut(g.drop_last(), g.last().0)
    }
}

/// The total cost of a cut.
pub open spec fn cut_cost(
    units: Seq<Seq<char>>,
    runs: Seq<Seq<char>>,
    g: Seq<(int, int)>,
) -> nat
    decreases g.len(),
{
    if g.len() == 0 {
        0
    } else {
        cut_cost(units, runs, g.drop_last()) + group_cost(
            units,
            runs,
            g.len() - 1,
            g.last().0,
            g.last().1,
        )
    }
}

/// A cut of `j` runs has at most `j` groups, and starts at no run before the first.
pub proof fn lemma_cut_len(g: Seq<(int, int)>, j: int)
    requires
        is_cut(g, j),
    ensures
        g.len() <= j,
    decreases g.len(),
{
    if g.len() > 0 {
        lemma_cut_len(g.drop_last(), g.last().0);
    }
}

/// The groups of a cut follow one another and lie within the runs.
pub proof fn lemma_cut_shape(g: Seq<(int, int)>, j: int)
    requires
        is_cut(g, j),
    ensures
        forall|i: int|
            0 <= i < g.len() ==> 0 <= (#[trigger] g[i]).0 && g[i].1 >= 1 && g[i].0 + g[i].1 <= j,
        forall|i: int, k: int|
            0 <= i < k < g.len() ==> (#[trigger] g[i]).0 + g[i].1 <= (#[trigger] g[k]).0,
    decreases g.len(),
{
    if g.len() > 0 {
        let init = g.drop_last();
        lemma_cut_shape(init, g.last().0);
        lemma_cut_len(init, g.last().0);
        assert forall|i: int| 0 <= i < g.len() implies 0 <= (#[trigger] g[i]).0 && g[i].1 >= 1
            && g[i].0 + g[i].1 <= j by {
            if i < init.len() {
                assert(init[i] == g[i]);
            }
        }
        assert forall|i: int, k: int| 0 <= i < k < g.len() implies (#[trigger] g[i]).0 + g[i].1 <= (
        #[trigger] g[k]).0 by {
            assert(init[i] == g[i]);
            if k < init.len() {
                assert(init[k] == g[k]);
            }
        }
    }
}

/// A best last group is one of the groups it was chosen from.
proof fn lemma_best_last_range(
    units: Seq<Seq<char>>,
    runs: Seq<Seq<char>>,
    u: int,
    j: int,
    l: int,
)
    ensures
        best_last(units, runs, u, j, l) matches Some((cost, len)) ==> {
            &&& 1 <= len <= l
            &&& best_cost(units, runs, u - 1, j - len) is Some
            &&& cost == best_cost(units, runs, u - 1, j - len)->0 + group_cost(
                units,
                runs,
                u - 1,
                j - len,
                len,
            )
        },
    decreases l,
{
    if u > 0 && l > 0 {
        lemma_best_last_range(units, runs, u, j, l - 1);
    }
}

/// A best last group is no dearer than any of the groups it was chosen from.
proof fn lemma_best_last_least(
    units: Seq<Seq<char>>,
    runs: Seq<Seq<char>>,
    u: int,
    j: int,
    l: int,
    len: int,
)
    requires
        u > 0,
        1 <= len <= l,
        best_cost(units, runs, u - 1, j - len) is Some,
    ensures
        best_last(units, runs, u, j, l) is Some,
        (best_last(units, runs, u, j, l)->0).0 <= best_cost(units, runs, u - 1, j - len)->0
            + group_cost(units, runs, u - 1, j - len, len),
    decreases l,
{
    if len < l {
        lemma_best_last_least(units, runs, u, j, l - 1, len);
    }
}

/// There is a best cut wherever there are at least as many runs as units.
proof fn lemma_best_exists(units: Seq<Seq<char>>, runs: Seq<Seq<char>>, u: int, j: int)
    requires
        1 <= u <= j,
    ensures
        best_cost(units, runs, u, j) is Some,
    decreases u,
{
    if u == 1 {
        lemma_best_last_least(units, runs, u, j, j, j);
    } else {
        lemma_best_exists(units, runs, u - 1, j - 1);
        lemma_best_last_least(units, runs, u, j, j - (u - 1), 1);
    }
}

/// The chosen groups are a cut with as many groups as units, and cost what the best cut costs.
proof fn lemma_groups_for(units: Seq<Seq<char>>, runs: Seq<Seq<char>>, u: int, j: int)
    requires
        u >= 0,
        best_cost(units, runs, u, j) is Some,
    ensures
        groups_for(units, runs, u, j).len() == u,
        is_cut(groups_for(units, runs, u, j), j),
        cut_cost(units, runs, groups_for(units, runs, u, j)) == best_cost(units, runs, u, j)->0,
    decreases u,
{
    if u > 0 {
        lemma_best_last_range(units, runs, u, j, j - (u - 1));
        let len = (best_last(units, runs, u, j, j - (u - 1))->0).1;
        lemma_groups_for(units, runs, u - 1, j - len);
        let g = groups_for(units, runs, u, j);
        assert(g.drop_last() == groups_for(units, runs, u - 1, j - len));
    }
}

/// No cut with `u` groups costs less than the best.
proof fn lemma_best_is_least(
    units: Seq<Seq<char>>,
    runs: Seq<Seq<char>>,
    g: Seq<(int, int)>,
    j: int,
)
    requires
        is_cut(g, j),
    ensures
        best_cost(units, runs, g.len() as int, j) is Some,
        best_cost(units, runs, g.len() as int, j)->0 <= cut_cost(units, runs, g),
    decreases g.len(),
{
    if g.len() > 0 {
        let u = g.len() as int;
        lemma_best_is_least(units, runs, g.drop_last(), g.last().0);
        lemma_cut_len(g.drop_last(), g.last().0);
        lemma_best_last_least(units, runs, u, j, j - (u - 1), g.last().1);
    }
}

/// There is an alignment exactly where there is a unit and there are no fewer runs than units.
/// It gives each unit a group of consecutive runs, in order, and leaves no run out.
pub proof fn alignment_is_a_cut(units: Seq<Seq<char>>, runs: Seq<Seq<char>>)
    ensures
        alignment(units, runs) is Some <==> 1 <= units.len() <= runs.len(),
        alignment(units, runs) matches Some(g) ==> g.len() == units.len() && is_cut(
            g,
            runs.len() as int,
        ),
{
    if 1 <= units.len() <= runs.len() {
        lemma_best_exists(units, runs, units.len() as int, runs.len() as int);
        lemma_groups_for(units, runs, units.len() as int, runs.len() as int);
    }
}

/// No other way of giving each unit a group of consecutive runs costs less than the alignment.
pub proof fn alignment_is_cheapest(
    units: Seq<Seq<char>>,
    runs: Seq<Seq<char>>,
    other: Seq<(int, int)>,
)
    requires
        units.len() > 0,
        other.len() == units.len(),
        is_cut(other, runs.len() as int),
    ensures
        alignment(units, runs) matches Some(g) && cut_cost(units, runs, g) <= cut_cost(
            units,
            runs,
            other,
        ),
{
    lemma_cut_len(other, runs.len() as int);
    lemma_best_exists(units, runs, units.len() as int, runs.len() as int);
    lemma_groups_for(units, runs, units.len() as int, runs.len() as int);
    lemma_best_is_least(units, runs, other, runs.len() as int);
}

/// The index pairs of groups.
pub open spec fn pairs(g: Seq<(usize, usize)>) -> Seq<(int, int)> {
    g.map_values(|x: (usize, usize)| (x.0 as int, x.1 as int))
}

/// The texts of units.
pub open spec fn unit_texts(units: Seq<(Seq<char>, bool)>) -> Seq<Seq<char>> {
    units.map_values(|u: (Seq<char>, bool)| u.0)
}

/// A computed cost stands for a cost of the model.
spec fn cost_is(c: Option<u128>, m: Option<nat>) -> bool {
    match c {
        Some(x) => m == Some(x as nat),
        None => m is None,
    }
}

/// The projections of `len` runs from `from` on, one after another.
fn concat_runs(runs: &Vec<Vec<char>>, from: usize, len: usize) -> (out: Vec<char>)
    requires
        from + len <= runs@.len(),
    ensures
        out@ == concat(views(runs@).subrange(from as int, from + len)),
{
    let mut out: Vec<char> = Vec::new();
    let mut i: usize = 0;
    while i < len
        invariant
            i <= len,
            from + len <= runs.len(),
            out@ == concat(views(runs@).subrange(from as int, from + i)),
        decreases len - i,
    {
        push_all(&mut out, runs[from + i].as_slice());
        i += 1;
        proof {
            let part = views(runs@).subrange(from as int, from + i);
            assert(part.drop_last() == views(runs@).subrange(from as int, from + i - 1));
            assert(part.last() == runs@[from + i - 1]@);
        }
    }
    out
}

/// The best last group for `u` units and `j` runs, from the best costs for one unit less.
fn best_group(
    units: &Vec<Vec<char>>,
    runs: &Vec<Vec<char>>,
    prev: &Vec<Option<u128>>,
    u: usize,
    j: usize,
) -> (best: Option<(u128, usize)>)
    requires
        1 <= u <= units@.len(),
        j <= runs@.len(),
        prev@.len() == runs@.len() + 1,
        forall|k: int|
            0 <= k <= runs@.len() ==> cost_is(
                #[trigger] prev@[k],
                best_cost(views(units@), views(runs@), u - 1, k),
            ),
        forall|k: int|
            0 <= k <= runs@.len() ==> (#[trigger] prev@[k] matches Some(c) ==> c <= (u - 1)
                * 0xffff_ffff_ffff_ffff),
    ensures
        match best {
            Some((cost, len)) => best_last(
                views(units@),
                views(runs@),
                u as int,
                j as int,
                j - (u - 1),
            ) == Some((cost as nat, len as int)) && cost <= u * 0xffff_ffff_ffff_ffff,
            None => best_last(
                views(units@),
                views(runs@),
                u as int,
                j as int,
                j - (u - 1),
            ) is None,
        },
{
    let ghost us = views(units@);
    let ghost rs = views(runs@);
    let mut best: Option<(u128, usize)> = None;
    if j < u {
        return best;
    }
    let longest: usize = j - (u - 1);
    let mut len: usize = 0;
    while len < longest
        invariant
            1 <= u <= units@.len(),
            u <= j <= runs@.len(),
            longest == j - (u - 1),
            len <= longest,
            us == views(units@),
            rs == views(runs@),
            prev@.len() == runs@.len() + 1,
            forall|k: int|
                0 <= k <= runs@.len() ==> cost_is(
                    #[trigger] prev@[k],
                    best_cost(us, rs, u - 1, k),
                ),
            forall|k: int|
                0 <= k <= runs@.len() ==> (#[trigger] prev@[k] matches Some(c) ==> c <= (u - 1)
                    * 0xffff_ffff_ffff_ffff),
            match best {
                Some((cost, l)) => best_last(us, rs, u as int, j as int, len as int) == Some(
                    (cost as nat, l as int),
                ) && cost <= u * 0xffff_ffff_ffff_ffff,
                None => best_last(us, rs, u as int, j as int, len as int) is None,
            },
        decreases longest - len,
    {
        len += 1;
        let from: usize = j - len;
        assert(cost_is(prev@[from as int], best_cost(us, rs, u - 1, from as int)));
        match prev[from] {
            Some(c) => {
                let joined = concat_runs(runs, from, len);
                let d: usize = levenshtein(units[u - 1].as_slice(), joined.as_slice());
                assert(rs.subrange(from as int, from + len) == rs.subrange(j - len, j - len + len));
                assert(d == group_cost(us, rs, u - 1, j - len, len as int));
                let total: u128 = c + (d as u128);
                match best {
                    Some((cost, l)) => {
                        if total < cost {
                            best = Some((total, len));
                        }
                    },
                    None => {
                        best = Some((total, len));
                    },
                }
            },
            None => {},
        }
    }
    best
}

/// Cuts the runs into one non-empty group for each unit so that the projections of the groups
/// come as close as they can to those of the units. Each group is its first run and its number
/// of runs. `None` where there is no unit, or fewer runs than units.
pub fn align_groups(units: &[Unit], runs: &[Run]) -> (groups: Option<Vec<(usize, usize)>>)
    ensures
        match groups {
            Some(g) => alignment(
                projections(unit_texts(unit_views(units@))),
                projections(run_texts(runs@)),
            ) == Some(pairs(g@)),
            None => alignment(
                projections(unit_texts(unit_views(units@))),
                projections(run_texts(runs@)),
            ) is None,
        },
{
    let ghost us = projections(unit_texts(unit_views(units@)));
    let ghost rs = projections(run_texts(runs@));
    let k: usize = units.len();
    let m: usize = runs.len();
    if m < k || k == 0 {
        return None;
    }
    let mut unit_proj: Vec<Vec<char>> = Vec::new();
    let mut i: usize = 0;
    while i < k
        invariant
            i <= k == units@.len(),
            unit_proj@.len() == i,
            forall|x: int|
                0 <= x < i ==> (#[trigger] unit_proj@[x])@ == projected(units@[x].text@),
        decreases k - i,
    {
        unit_proj.push(projection(units[i].text.as_slice()));
        i += 1;
    }
    let mut run_proj: Vec<Vec<char>> = Vec::new();
    i = 0;
    while i < m
        invariant
            i <= m == runs@.len(),
            run_proj@.len() == i,
            forall|x: int| 0 <= x < i ==> (#[trigger] run_proj@[x])@ == projected(runs@[x].text@),
        decreases m - i,
    {
        run_proj.push(projection(runs[i].text.as_slice()));
        i += 1;
    }
    assert(views(unit_proj@) == us);
    assert(views(run_proj@) == rs);

    // Row by row: the best costs for `u` units, and the length of the last group of each.
    let mut prev: Vec<Option<u128>> = Vec::new();
    prev.push(Some(0));
    i = 0;
    while i < m
        invariant
            i <= m,
            prev@.len() == i + 1,
            prev@[0] == Some(0u128),
            forall|x: int| 1 <= x <= i ==> (#[trigger] prev@[x]) is None,
        decreases m - i,
    {
        prev.push(None);
        i += 1;
    }
    let mut choice: Vec<Vec<usize>> = Vec::new();
    let mut u: usize = 0;
    while u < k
        invariant
            u <= k <= m,
            k == unit_proj@.len(),
            m == run_proj@.len(),
            us == views(unit_proj@),
            rs == views(run_proj@),
            prev@.len() == m + 1,
            forall|x: int|
                0 <= x <= m ==> cost_is(#[trigger] prev@[x], best_cost(us, rs, u as int, x)),
            forall|x: int|
                0 <= x <= m ==> (#[trigger] prev@[x] matches Some(c) ==> c <= u
                    * 0xffff_ffff_ffff_ffff),
            choice@.len() == u,
            forall|y: int| 0 <= y < u ==> (#[trigger] choice@[y])@.len() == m + 1,
            forall|y: int, x: int|
                0 <= y < u && 0 <= x <= m && best_last(us, rs, y + 1, x, x - y) is Some ==> (
                #[trigger] choice@[y]@[x]) == (best_last(us, rs, y + 1, x, x - y)->0).1,
        decreases k - u,
    {
        u += 1;
        let mut row: Vec<Option<u128>> = Vec::new();
        let mut lens: Vec<usize> = Vec::new();
        let mut j: usize = 0;
        while j < m
            invariant
                j <= m,
                1 <= u <= k,
                k == unit_proj@.len(),
                m == run_proj@.len(),
                us == views(unit_proj@),
                rs == views(run_proj@),
                prev@.len() == m + 1,
                forall|x: int|
                    0 <= x <= m ==> cost_is(#[trigger] prev@[x], best_cost(us, rs, u - 1, x)),
                forall|x: int|
                    0 <= x <= m ==> (#[trigger] prev@[x] matches Some(c) ==> c <= (u - 1)
                        * 0xffff_ffff_ffff_ffff),
                row@.len() == j,
                lens@.len() == j,
                forall|x: int|
                    0 <= x < j ==> cost_is(#[trigger] row@[x], best_cost(us, rs, u as int, x)),
                forall|x: int|
                    0 <= x < j ==> (#[trigger] row@[x] matches Some(c) ==> c <= u
                        * 0xffff_ffff_ffff_ffff),
                forall|x: int|
                    0 <= x < j && best_last(us, rs, u as int, x, x - (u - 1)) is Some ==> (
                    #[trigger] lens@[x]) == (best_last(us, rs, u as int, x, x - (u - 1))->0).1,
            decreases m - j,
        {
            match best_group(&unit_proj, &run_proj, &prev, u, j) {
                Some((cost, len)) => {
                    row.push(Some(cost));
                    lens.push(len);
                },
                None => {
                    row.push(None);
                    lens.push(0);
                },
            }
            j += 1;
        }
        match best_group(&unit_proj, &run_proj, &prev, u, m) {
            Some((cost, len)) => {
                row.push(Some(cost));
                lens.push(len);
            },
            None => {
                row.push(None);
                lens.push(0);
            },
        }
        let ghost before = choice@;
        choice.push(lens);
        prev = row;
        assert forall|y: int, x: int|
            0 <= y < u && 0 <= x <= m && best_last(us, rs, y + 1, x, x - y) is Some implies (
        #[trigger] choice@[y]@[x]) == (best_last(us, rs, y + 1, x, x - y)->0).1 by {
            if y < u - 1 {
                assert(choice@[y] == before[y]);
            }
        }
    }
    // Back from the last unit to the first.
    let mut out: Vec<(usize, usize)> = Vec::new();
    let mut j: usize = m;
    proof {
        lemma_best_exists(us, rs, k as int, m as int);
        assert(groups_for(us, rs, k as int, m as int) + pairs(out@) == groups_for(
            us,
            rs,
            k as int,
            m as int,
        ));
    }
    while u > 0
        invariant
            u <= k <= m,
            j <= m,
            best_cost(us, rs, u as int, j as int) is Some,
            groups_for(us, rs, k as int, m as int) == groups_for(us, rs, u as int, j as int)
                + pairs(out@),
            choice@.len() == k,
            forall|y: int| 0 <= y < k ==> (#[trigger] choice@[y])@.len() == m + 1,
            forall|y: int, x: int|
                0 <= y < k && 0 <= x <= m && best_last(us, rs, y + 1, x, x - y) is Some ==> (
                #[trigger] choice@[y]@[x]) == (best_last(us, rs, y + 1, x, x - y)->0).1,
        decreases u,
    {
        proof {
            lemma_best_last_range(us, rs, u as int, j as int, j - (u - 1));
            assert(choice@[u - 1]@[j as int] == (best_last(
                us,
                rs,
                (u - 1) + 1,
                j as int,
                j - (u - 1),
            )->0).1);
        }
        let len: usize = choice[u - 1][j];
        let ghost before = pairs(out@);
        out.insert(0, (j - len, len));
        proof {
            let here = (j - len, len as int);
            assert(pairs(out@) == seq![here] + before);
            assert(groups_for(us, rs, u - 1, j - len).push(here) + before == groups_for(
                us,
                rs,
                u - 1,
                j - len,
            ) + (seq![here] + before));
        }
        j -= len;
        u -= 1;
    }
    assert(groups_for(us, rs, 0, j as int) + pairs(out@) == pairs(out@));
    Some(out)
}

// ---------------------------------------------------------------------------
// Restoring
// ---------------------------------------------------------------------------

pub open spec fn all_space(s: Seq<char>) -> bool {
    forall|i: int| 0 <= i < s.len() ==> is_space(#[trigger] s[i])
}

/// Nothing but white space stands between the `len` runs from `from` on.
pub open spec fn only_spaces_between(s: Seq<char>, r: Seq<(int, int)>, from: int, len: int) -> bool {
    forall|k: int| from <= k < from + len - 1 ==> all_space(#[trigger] gap(s, r, k))
}

/// The alignment can be relied on: every unit that is not a vocabulary term has the same
/// projection on both sides, and there is such a unit wherever there are more runs than units.
pub open spec fn reliable(
    units: Seq<(Seq<char>, bool)>,
    runs: Seq<Seq<char>>,
    groups: Seq<(int, int)>,
) -> bool {
    &&& runs.len() <= units.len() || exists|i: int| 0 <= i < units.len() && !(#[trigger] units[i]).1
    &&& forall|i: int|
        0 <= i < units.len() && !(#[trigger] units[i]).1 ==> concat(
            runs.subrange(groups[i].0, groups[i].0 + groups[i].1),
        ) == projected(units[i].0)
}

/// The unit is put in place of its group: it is a vocabulary term, the phrase spells it otherwise,
/// the phrase does not have another vocabulary term there, and no text but English would go.
pub open spec fn puts_back(
    w: Seq<char>,
    r: Seq<(int, int)>,
    vocab: Seq<Seq<char>>,
    unit: (Seq<char>, bool),
    group: (int, int),
) -> bool {
    let there = stretch(w, r, group.0, group.1);
    &&& unit.1
    &&& there != unit.0
    &&& projected(there) == projected(unit.0) || !is_term(projected(there), vocab)
    &&& only_spaces_between(w, r, group.0, group.1)
}

/// The phrase from index `cursor` on, with the units from `i` on put in place of their groups.
pub open spec fn patched(
    w: Seq<char>,
    r: Seq<(int, int)>,
    vocab: Seq<Seq<char>>,
    units: Seq<(Seq<char>, bool)>,
    groups: Seq<(int, int)>,
    i: int,
    cursor: int,
) -> Seq<char>
    decreases units.len() - i,
{
    if i < 0 || i >= units.len() {
        w.skip(cursor)
    } else if puts_back(w, r, vocab, units[i], groups[i]) {
        w.subrange(cursor, r[groups[i].0].0) + units[i].0 + patched(
            w,
            r,
            vocab,
            units,
            groups,
            i + 1,
            r[groups[i].0 + groups[i].1 - 1].1,
        )
    } else {
        patched(w, r, vocab, units, groups, i + 1, cursor)
    }
}

/// The units of a draft.
pub open spec fn units_of(draft: Seq<char>, vocab: Seq<Seq<char>>) -> Seq<(Seq<char>, bool)> {
    units_from(draft, runs_of(draft), vocab, 0)
}

/// The phrase `w` with the vocabulary terms of the draft restored; `w` itself where the two
/// cannot be aligned, or the alignment cannot be relied on.
pub open spec fn restored(w: Seq<char>, draft: Seq<char>, vocab: Seq<Seq<char>>) -> Seq<char> {
    let r = runs_of(w);
    let runs = projections(cut(w, r));
    let units = units_of(draft, vocab);
    match alignment(projections(unit_texts(units)), runs) {
        Some(groups) => if reliable(units, runs, groups) {
            patched(w, r, vocab, units, groups, 0, 0)
        } else {
            w
        },
        None => w,
    }
}

proof fn lemma_patched_without_terms(
    w: Seq<char>,
    r: Seq<(int, int)>,
    vocab: Seq<Seq<char>>,
    units: Seq<(Seq<char>, bool)>,
    groups: Seq<(int, int)>,
    i: int,
    cursor: int,
)
    requires
        forall|k: int| 0 <= k < units.len() ==> !(#[trigger] units[k]).1,
    ensures
        patched(w, r, vocab, units, groups, i, cursor) == w.skip(cursor),
    decreases units.len() - i,
{
    if 0 <= i < units.len() {
        lemma_patched_without_terms(w, r, vocab, units, groups, i + 1, cursor);
    }
}

/// A draft that holds no vocabulary term leaves the phrase as it is.
pub proof fn nothing_to_restore(w: Seq<char>, draft: Seq<char>, vocab: Seq<Seq<char>>)
    requires
        forall|k: int| 0 <= k < units_of(draft, vocab).len() ==> !(#[trigger] units_of(
            draft,
            vocab,
        )[k]).1,
    ensures
        restored(w, draft, vocab) == w,
{
    let r = runs_of(w);
    let units = units_of(draft, vocab);
    match alignment(projections(unit_texts(units)), projections(cut(w, r))) {
        Some(groups) => {
            lemma_patched_without_terms(w, r, vocab, units, groups, 0, 0);
            assert(w.skip(0) == w);
        },
        None => {},
    }
}

/// Whether nothing but white space stands between the `len` runs from `from` on.
fn spaces_between(s: &[char], runs: &[Run], from: usize, len: usize) -> (b: bool)
    requires
        runs_ok(s@, 0, ranges(runs@)),
        len >= 1,
        from + len <= runs.len(),
    ensures
        b == only_spaces_between(s@, ranges(runs@), from as int, len as int),
{
    let ghost r = ranges(runs@);
    let last: usize = from + (len - 1);
    let mut k: usize = from;
    while k < last
        invariant
            runs_ok(s@, 0, r),
            r == ranges(runs@),
            last == from + len - 1,
            from <= k <= last < runs@.len(),
            forall|l: int| from <= l < k ==> all_space(#[trigger] gap(s@, r, l)),
        decreases last - k,
    {
        let start: usize = runs[k].end;
        let end: usize = runs[k + 1].start;
        proof {
            assert(r[k as int] == (runs@[k as int].start as int, runs@[k as int].end as int));
            assert(r[k + 1] == (runs@[k + 1].start as int, runs@[k + 1].end as int));
            assert(r[k as int].1 <= r[k + 1].0);
        }
        let ghost g = gap(s@, r, k as int);
        let mut i: usize = start;
        while i < end
            invariant
                start <= i <= end <= s@.len(),
                g == s@.subrange(start as int, end as int),
                g == gap(s@, r, k as int),
                r == ranges(runs@),
                from <= k < last,
                last == from + len - 1,
                forall|x: int| 0 <= x < i - start ==> is_space(#[trigger] g[x]),
            decreases end - i,
        {
            assert(g[i - start] == s@[i as int]);
            if !is_white_space(s[i]) {
                assert(!all_space(gap(s@, r, k as int)));
                return false;
            }
            i += 1;
        }
        assert(all_space(gap(s@, r, k as int)));
        k += 1;
    }
    true
}

/// Whether the alignment can be relied on.
fn alignment_holds(
    units: &[Unit],
    runs: &[Run],
    groups: &Vec<(usize, usize)>,
) -> (b: bool)
    requires
        groups@.len() == units@.len(),
        is_cut(pairs(groups@), runs@.len() as int),
    ensures
        b == reliable(unit_views(units@), projections(run_texts(runs@)), pairs(groups@)),
{
    let ghost uv = unit_views(units@);
    let ghost rp = projections(run_texts(runs@));
    let ghost g = pairs(groups@);
    let mut run_proj: Vec<Vec<char>> = Vec::new();
    let mut i: usize = 0;
    while i < runs.len()
        invariant
            i <= runs@.len(),
            run_proj@.len() == i,
            forall|x: int| 0 <= x < i ==> (#[trigger] run_proj@[x])@ == projected(runs@[x].text@),
        decreases runs@.len() - i,
    {
        run_proj.push(projection(runs[i].text.as_slice()));
        i += 1;
    }
    assert(views(run_proj@) == rp);
    proof {
        lemma_cut_shape(g, runs@.len() as int);
    }
    let mut anchored: bool = false;
    i = 0;
    while i < units.len()
        invariant
            i <= units@.len() == groups@.len(),
            uv == unit_views(units@),
            g == pairs(groups@),
            rp == projections(run_texts(runs@)),
            rp == views(run_proj@),
            forall|x: int|
                0 <= x < g.len() ==> 0 <= (#[trigger] g[x]).0 && g[x].1 >= 1 && g[x].0 + g[x].1
                    <= run_proj@.len(),
            anchored == exists|x: int| 0 <= x < i && !(#[trigger] uv[x]).1,
            forall|x: int|
                0 <= x < i && !(#[trigger] uv[x]).1 ==> concat(
                    rp.subrange(g[x].0, g[x].0 + g[x].1),
                ) == projected(uv[x].0),
        decreases units@.len() - i,
    {
        assert(uv[i as int] == (units@[i as int].text@, units@[i as int].vocab_hit));
        assert(g[i as int] == (groups@[i as int].0 as int, groups@[i as int].1 as int));
        if !units[i].vocab_hit {
            anchored = true;
            let joined = concat_runs(&run_proj, groups[i].0, groups[i].1);
            let wanted = projection(units[i].text.as_slice());
            if !same_chars(joined.as_slice(), wanted.as_slice()) {
                return false;
            }
        }
        i += 1;
    }
    runs.len() <= units.len() || anchored
}

/// Puts the vocabulary terms that the draft `apple_draft` spells right back into the phrase
/// `whisper_phrase`. The phrase comes back unchanged where the draft holds no term of `vocab`,
/// has more units than the phrase has English runs, or cannot be aligned with it reliably.
pub fn restore_terms(whisper_phrase: &str, apple_draft: &str, vocab: &[String]) -> (out: String)
    ensures
        out@ == restored(whisper_phrase@, apple_draft@, texts(vocab@)),
{
    let w_chars = to_chars(whisper_phrase);
    let draft_chars = to_chars(apple_draft);
    let w = w_chars.as_slice();
    let draft = draft_chars.as_slice();
    let ghost v = texts(vocab@);
    let a_runs = extract_runs(draft);
    let units = apple_units(draft, a_runs.as_slice(), vocab);
    let ghost uv = units_of(draft@, v);
    let mut any_hit: bool = false;
    let mut i: usize = 0;
    while i < units.len()
        invariant
            i <= units@.len(),
            uv == unit_views(units@),
            !any_hit ==> forall|x: int| 0 <= x < i ==> !(#[trigger] uv[x]).1,
        decreases units@.len() - i,
    {
        assert(uv[i as int] == (units@[i as int].text@, units@[i as int].vocab_hit));
        if units[i].vocab_hit {
            any_hit = true;
        }
        i += 1;
    }
    if !any_hit {
        proof {
            nothing_to_restore(w@, draft@, v);
        }
        return to_text(w);
    }
    let w_runs = extract_runs(w);
    let ghost r = runs_of(w@);
    let ghost us = projections(unit_texts(uv));
    let ghost rs = projections(cut(w@, r));
    match align_groups(units.as_slice(), w_runs.as_slice()) {
        None => to_text(w),
        Some(groups) => {
            let ghost g = pairs(groups@);
            proof {
                alignment_is_a_cut(us, rs);
                lemma_cut_shape(g, rs.len() as int);
                lemma_runs_from(w@, 0);
                assert(us.len() == units@.len());
                assert(rs.len() == w_runs@.len());
            }
            if !alignment_holds(units.as_slice(), w_runs.as_slice(), &groups) {
                return to_text(w);
            }
            let vocab_proj = project_vocab(vocab);
            let mut out: Vec<char> = Vec::new();
            let mut cursor: usize = 0;
            i = 0;
            while i < units.len()
                invariant
                    i <= units@.len() == groups@.len(),
                    uv == unit_views(units@),
                    g == pairs(groups@),
                    r == ranges(w_runs@),
                    runs_ok(w@, 0, r),
                    views(vocab_proj@) == projections(v),
                    forall|x: int|
                        0 <= x < g.len() ==> 0 <= (#[trigger] g[x]).0 && g[x].1 >= 1 && g[x].0
                            + g[x].1 <= w_runs.len(),
                    forall|x: int, y: int|
                        0 <= x < y < g.len() ==> (#[trigger] g[x]).0 + g[x].1 <= (
                        #[trigger] g[y]).0,
                    cursor <= w@.len(),
                    forall|x: int| i <= x < g.len() ==> cursor <= r[(#[trigger] g[x]).0].0,
                    patched(w@, r, v, uv, g, 0, 0) == out@ + patched(
                        w@,
                        r,
                        v,
                        uv,
                        g,
                        i as int,
                        cursor as int,
                    ),
                decreases units@.len() - i,
            {
                let from: usize = groups[i].0;
                let len: usize = groups[i].1;
                let ghost here = g[i as int];
                proof {
                    assert(here == (from as int, len as int));
                    assert(uv[i as int] == (units@[i as int].text@, units@[i as int].vocab_hit));
                    assert(r[here.0] == (
                        w_runs@[from as int].start as int,
                        w_runs@[from as int].end as int,
                    ));
                    let z = here.0 + here.1 - 1;
                    assert(r[z] == (w_runs@[z].start as int, w_runs@[z].end as int));
                    assert(r[here.0].0 < r[z].1) by {
                        if here.0 < z {
                            assert(r[here.0].1 <= r[z].0);
                        }
                    }
                }
                let start: usize = w_runs[from].start;
                let end: usize = w_runs[from + (len - 1)].end;
                let there = slice_subrange(w, start, end);
                assert(there@ == stretch(w@, r, from as int, len as int));
                let there_proj = projection(there);
                let unit_proj = projection(units[i].text.as_slice());
                let put = units[i].vocab_hit && !same_chars(there, units[i].text.as_slice()) && (
                same_chars(there_proj.as_slice(), unit_proj.as_slice()) || !term_hit(
                    there_proj.as_slice(),
                    &vocab_proj,
                    Ghost(v),
                )) && spaces_between(w, w_runs.as_slice(), from, len);
                assert(put == puts_back(w@, r, v, uv[i as int], here));
                let ghost before = out@;
                let ghost next = patched(w@, r, v, uv, g, i + 1, end as int);
                if put {
                    push_all(&mut out, slice_subrange(w, cursor, start));
                    push_all(&mut out, units[i].text.as_slice());
                    assert(before + (w@.subrange(cursor as int, start as int) + uv[i as int].0
                        + next) == out@ + next);
                    proof {
                        assert forall|x: int| i + 1 <= x < g.len() implies end <= r[(
                        #[trigger] g[x]).0].0 by {
                            assert(here.0 + here.1 <= g[x].0);
                            assert(r[here.0 + here.1 - 1].1 <= r[g[x].0].0);
                        }
                    }
                    cursor = end;
                }
                i += 1;
            }
            push_all(&mut out, slice_subrange(w, cursor, w.len()));
            assert(w@.subrange(cursor as int, w@.len() as int) == w@.skip(cursor as int));
            to_text(out.as_slice())
        },
    }
}

// ---------------------------------------------------------------------------
// What restoring leaves alone
// ---------------------------------------------------------------------------

/// Index `k` of `s` lies in one of its English runs.
pub open spec fn in_run(s: Seq<char>, k: int) -> bool {
    exists|i: int| 0 <= i < runs_of(s).len() && (#[trigger] runs_of(s)[i]).0 <= k < runs_of(s)[i].1
}

/// Every character of `s` from `from` to `to` lies in an English run or is white space.
pub open spec fn english(s: Seq<char>, from: int, to: int) -> bool {
    forall|k: int| from <= k < to ==> in_run(s, k) || is_space(#[trigger] s[k])
}

/// Letters, digits, connectors and white space: what English text is made of.
pub open spec fn english_text(s: Seq<char>) -> bool {
    forall|k: int|
        0 <= k < s.len() ==> is_alnum(#[trigger] s[k]) || is_connector(s[k]) || is_space(s[k])
}

/// `w` from `cursor` on, with each range of `edits` replaced by its text.
pub open spec fn edited(w: Seq<char>, edits: Seq<(int, int, Seq<char>)>, cursor: int) -> Seq<char>
    decreases edits.len(),
{
    if edits.len() == 0 {
        w.skip(cursor)
    } else {
        w.subrange(cursor, edits[0].0) + edits[0].2 + edited(w, edits.drop_first(), edits[0].1)
    }
}

/// The ranges of `edits` lie in `w` from `cursor` on, in order and apart.
pub open spec fn in_order(w: Seq<char>, edits: Seq<(int, int, Seq<char>)>, cursor: int) -> bool
    decreases edits.len(),
{
    if edits.len() == 0 {
        0 <= cursor <= w.len()
    } else {
        &&& 0 <= cursor <= edits[0].0 < edits[0].1 <= w.len()
        &&& in_order(w, edits.drop_first(), edits[0].1)
    }
}

/// The edits that the units from `i` on make.
spec fn edits_from(
    w: Seq<char>,
    r: Seq<(int, int)>,
    vocab: Seq<Seq<char>>,
    units: Seq<(Seq<char>, bool)>,
    groups: Seq<(int, int)>,
    i: int,
) -> Seq<(int, int, Seq<char>)>
    decreases units.len() - i,
{
    if i < 0 || i >= units.len() {
        Seq::empty()
    } else if puts_back(w, r, vocab, units[i], groups[i]) {
        seq![(r[groups[i].0].0, r[groups[i].0 + groups[i].1 - 1].1, units[i].0)] + edits_from(
            w,
            r,
            vocab,
            units,
            groups,
            i + 1,
        )
    } else {
        edits_from(w, r, vocab, units, groups, i + 1)
    }
}

proof fn lemma_in_run(s: Seq<char>, i: int, k: int)
    requires
        0 <= i < runs_of(s).len(),
        runs_of(s)[i].0 <= k < runs_of(s)[i].1,
    ensures
        in_run(s, k),
{
}

/// The characters from the start of run `i` to the end of run `i + n - 1` are English where only
/// white space stands between the runs.
#[verifier::spinoff_prover]
proof fn lemma_stretch_english(s: Seq<char>, i: int, n: int)
    requires
        0 <= i,
        n >= 1,
        i + n <= runs_of(s).len(),
        only_spaces_between(s, runs_of(s), i, n),
    ensures
        english(s, runs_of(s)[i].0, runs_of(s)[i + n - 1].1),
    decreases n,
{
    let r = runs_of(s);
    let b = i + n - 1;
    if n > 1 {
        let a = i + n - 2;
        assert(only_spaces_between(s, r, i, n - 1));
        lemma_stretch_english(s, i, n - 1);
        assert(all_space(gap(s, r, a)));
        lemma_runs_from(s, 0);
        assert(0 <= r[a].0 < r[a].1 <= r[b].0 < r[b].1 <= s.len());
        assert forall|k: int| r[i].0 <= k < r[b].1 implies in_run(s, k) || is_space(
            #[trigger] s[k],
        ) by {
            if r[b].0 <= k {
                lemma_in_run(s, b, k);
            } else if r[a].1 <= k {
                assert(gap(s, r, a)[k - r[a].1] == s[k]);
            }
        }
    } else {
        assert forall|k: int| r[i].0 <= k < r[b].1 implies in_run(s, k) || is_space(
            #[trigger] s[k],
        ) by {
            lemma_in_run(s, b, k);
        }
    }
}

/// English ranges hold English text.
proof fn lemma_english_text(s: Seq<char>, from: int, to: int)
    requires
        0 <= from <= to <= s.len(),
        english(s, from, to),
    ensures
        english_text(s.subrange(from, to)),
{
    lemma_runs_from(s, 0);
    let t = s.subrange(from, to);
    assert forall|k: int| 0 <= k < t.len() implies is_alnum(#[trigger] t[k]) || is_connector(t[k])
        || is_space(t[k]) by {
        assert(t[k] == s[from + k]);
        if in_run(s, from + k) {
            let i = choose|i: int|
                0 <= i < runs_of(s).len() && (#[trigger] runs_of(s)[i]).0 <= from + k < runs_of(
                    s,
                )[i].1;
            assert(run_chars(s, runs_of(s)[i].0, runs_of(s)[i].1));
        }
    }
}

/// The units of a draft are English text.
proof fn lemma_units_english(s: Seq<char>, vocab: Seq<Seq<char>>, i: int)
    requires
        0 <= i,
    ensures
        forall|k: int|
            0 <= k < units_from(s, runs_of(s), vocab, i).len() ==> english_text(
                (#[trigger] units_from(s, runs_of(s), vocab, i)[k]).0,
            ),
    decreases runs_of(s).len() - i,
{
    let r = runs_of(s);
    if i < r.len() {
        let n = unit_size(s, r, vocab, i);
        lemma_units_english(s, vocab, i + n);
        lemma_runs_from(s, 0);
        assert(only_spaces_between(s, r, i, n)) by {
            assert forall|k: int| i <= k < i + n - 1 implies all_space(#[trigger] gap(s, r, k)) by {
                assert(gap(s, r, k) == seq![' ']);
            }
        }
        lemma_stretch_english(s, i, n);
        assert(r[i].0 < r[i + n - 1].1 <= s.len()) by {
            if n > 1 {
                assert(r[i].1 <= r[i + n - 1].0);
            }
        }
        lemma_english_text(s, r[i].0, r[i + n - 1].1);
        let all = units_from(s, r, vocab, i);
        let rest = units_from(s, r, vocab, i + n);
        assert forall|k: int| 0 <= k < all.len() implies english_text((#[trigger] all[k]).0) by {
            if k > 0 {
                assert(all[k] == rest[k - 1]);
            }
        }
    }
}

#[verifier::rlimit(40)]
proof fn lemma_edits_from(
    w: Seq<char>,
    vocab: Seq<Seq<char>>,
    units: Seq<(Seq<char>, bool)>,
    groups: Seq<(int, int)>,
    i: int,
    cursor: int,
)
    requires
        0 <= i,
        units.len() == groups.len(),
        forall|k: int| 0 <= k < units.len() ==> english_text((#[trigger] units[k]).0),
        is_cut(groups, runs_of(w).len() as int),
        0 <= cursor <= w.len(),
        forall|k: int|
            i <= k < groups.len() ==> cursor <= runs_of(w)[(#[trigger] groups[k]).0].0,
    ensures
        ({
            let edits = edits_from(w, runs_of(w), vocab, units, groups, i);
            &&& patched(w, runs_of(w), vocab, units, groups, i, cursor) == edited(w, edits, cursor)
            &&& in_order(w, edits, cursor)
            &&& forall|k: int|
                0 <= k < edits.len() ==> english(w, (#[trigger] edits[k]).0, edits[k].1)
                    && english_text(edits[k].2)
        }),
    decreases units.len() - i,
{
    let r = runs_of(w);
    if i < units.len() {
        lemma_runs_from(w, 0);
        lemma_cut_shape(groups, r.len() as int);
        let from = groups[i].0;
        let len = groups[i].1;
        let start = r[from].0;
        let end = r[from + len - 1].1;
        assert(start < end <= w.len()) by {
            if len > 1 {
                assert(r[from].1 <= r[from + len - 1].0);
            }
        }
        if puts_back(w, r, vocab, units[i], groups[i]) {
            assert forall|k: int| i + 1 <= k < groups.len() implies end <= r[(
            #[trigger] groups[k]).0].0 by {
                assert(from + len <= groups[k].0);
                assert(r[from + len - 1].1 <= r[groups[k].0].0);
            }
            lemma_edits_from(w, vocab, units, groups, i + 1, end);
            lemma_stretch_english(w, from, len);
            let rest = edits_from(w, r, vocab, units, groups, i + 1);
            let edits = edits_from(w, r, vocab, units, groups, i);
            assert(edits.drop_first() == rest);
            assert forall|k: int| 0 <= k < edits.len() implies english(
                w,
                (#[trigger] edits[k]).0,
                edits[k].1,
            ) && english_text(edits[k].2) by {
                if k > 0 {
                    assert(edits[k] == rest[k - 1]);
                }
            }
        } else {
            lemma_edits_from(w, vocab, units, groups, i + 1, cursor);
        }
    }
}

/// Restoring only ever replaces stretches of English runs, with nothing but white space between
/// them, by English text; everything else of the phrase stays where and as it is.
pub proof fn restoring_edits_english_only(w: Seq<char>, draft: Seq<char>, vocab: Seq<Seq<char>>)
    ensures
        exists|edits: Seq<(int, int, Seq<char>)>|
            {
                &&& in_order(w, edits, 0)
                &&& forall|k: int|
                    0 <= k < edits.len() ==> english(w, (#[trigger] edits[k]).0, edits[k].1)
                        && english_text(edits[k].2)
                &&& restored(w, draft, vocab) == #[trigger] edited(w, edits, 0)
            },
{
    let r = runs_of(w);
    let runs = projections(cut(w, r));
    let units = units_of(draft, vocab);
    let none = Seq::<(int, int, Seq<char>)>::empty();
    assert(edited(w, none, 0) == w.skip(0));
    assert(w.skip(0) == w);
    assert(in_order(w, none, 0));
    match alignment(projections(unit_texts(units)), runs) {
        Some(groups) => {
            if reliable(units, runs, groups) {
                alignment_is_a_cut(projections(unit_texts(units)), runs);
                lemma_units_english(draft, vocab, 0);
                lemma_runs_from(w, 0);
                lemma_cut_shape(groups, r.len() as int);
                assert forall|k: int| 0 <= k < groups.len() implies 0 <= r[(
                #[trigger] groups[k]).0].0 by {}
                lemma_edits_from(w, vocab, units, groups, 0, 0);
                let edits = edits_from(w, r, vocab, units, groups, 0);
                assert(restored(w, draft, vocab) == edited(w, edits, 0));
            }
        },
        None => {},
    }
}

/// The characters of `s` that English text is not made of: Chinese text and punctuation.
pub open spec fn foreign(s: Seq<char>) -> Seq<char>
    decreases s.len(),
{
    if s.len() == 0 {
        s
    } else if is_alnum(s.last()) || is_connector(s.last()) || is_space(s.last()) {
        foreign(s.drop_last())
    } else {
        foreign(s.drop_last()).push(s.last())
    }
}

proof fn lemma_foreign_add(a: Seq<char>, b: Seq<char>)
    ensures
        foreign(a + b) == foreign(a) + foreign(b),
    decreases b.len(),
{
    if b.len() == 0 {
        assert(a + b == a);
        assert(foreign(a) + foreign(b) == foreign(a));
    } else {
        lemma_foreign_add(a, b.drop_last());
        assert((a + b).drop_last() == a + b.drop_last());
        assert(foreign(a + b) == foreign(a) + foreign(b));
    }
}

proof fn lemma_foreign_english(s: Seq<char>)
    requires
        english_text(s),
    ensures
        foreign(s) == Seq::<char>::empty(),
    decreases s.len(),
{
    if s.len() > 0 {
        assert(s.last() == s[s.len() - 1]);
        assert forall|k: int| 0 <= k < s.drop_last().len() implies is_alnum(
            #[trigger] s.drop_last()[k],
        ) || is_connector(s.drop_last()[k]) || is_space(s.drop_last()[k]) by {
            assert(s.drop_last()[k] == s[k]);
        }
        lemma_foreign_english(s.drop_last());
    }
}

proof fn lemma_edited_foreign(w: Seq<char>, edits: Seq<(int, int, Seq<char>)>, cursor: int)
    requires
        in_order(w, edits, cursor),
        forall|k: int|
            0 <= k < edits.len() ==> english(w, (#[trigger] edits[k]).0, edits[k].1)
                && english_text(edits[k].2),
    ensures
        foreign(edited(w, edits, cursor)) == foreign(w.skip(cursor)),
    decreases edits.len(),
{
    if edits.len() > 0 {
        let (start, end, text) = edits[0];
        let rest = edits.drop_first();
        assert forall|k: int| 0 <= k < rest.len() implies english(
            w,
            (#[trigger] rest[k]).0,
            rest[k].1,
        ) && english_text(rest[k].2) by {
            assert(rest[k] == edits[k + 1]);
        }
        lemma_edited_foreign(w, rest, end);
        let head = w.subrange(cursor, start);
        let gone = w.subrange(start, end);
        lemma_english_text(w, start, end);
        lemma_foreign_english(gone);
        lemma_foreign_english(text);
        lemma_foreign_add(head + text, edited(w, rest, end));
        lemma_foreign_add(head, text);
        assert(w.skip(cursor) == head + gone + w.skip(end)) by {
            assert(w.skip(cursor) =~= head + gone + w.skip(end));
        }
        lemma_foreign_add(head + gone, w.skip(end));
        lemma_foreign_add(head, gone);
    }
}

/// Chinese text and punctuation come out of restoring exactly as they went in.
pub proof fn restoring_keeps_chinese_and_punctuation(
    w: Seq<char>,
    draft: Seq<char>,
    vocab: Seq<Seq<char>>,
)
    ensures
        foreign(restored(w, draft, vocab)) == foreign(w),
{
    restoring_edits_english_only(w, draft, vocab);
    let edits = choose|edits: Seq<(int, int, Seq<char>)>|
        {
            &&& in_order(w, edits, 0)
            &&& forall|k: int|
                0 <= k < edits.len() ==> english(w, (#[trigger] edits[k]).0, edits[k].1)
                    && english_text(edits[k].2)
            &&& restored(w, draft, vocab) == #[trigger] edited(w, edits, 0)
        };
    lemma_edited_foreign(w, edits, 0);
    assert(w.skip(0) == w);
}

/// Fewer English runs in the phrase than units in the draft: nothing is restored.
pub proof fn too_few_runs_restores_nothing(w: Seq<char>, draft: Seq<char>, vocab: Seq<Seq<char>>)
    requires
        runs_of(w).len() < units_of(draft, vocab).len(),
    ensures
        restored(w, draft, vocab) == w,
{
}

// ---------------------------------------------------------------------------
// What restoring puts where
// ---------------------------------------------------------------------------

/// No letter and no digit stands in `s`.
pub open spec fn no_letters(s: Seq<char>) -> bool {
    forall|k: int| 0 <= k < s.len() ==> !is_alnum(#[trigger] s[k])
}

/// Every letter and digit of `s` from `i` on lies in one of the runs from `i` on.
proof fn lemma_letters_in_runs(s: Seq<char>, i: int, k: int)
    requires
        0 <= i <= k < s.len(),
        is_alnum(s[k]),
    ensures
        exists|x: int|
            0 <= x < runs_from(s, i).len() && (#[trigger] runs_from(s, i)[x]).0 <= k < runs_from(
                s,
                i,
            )[x].1,
    decreases s.len() - i,
{
    let r = runs_from(s, i);
    if !is_alnum(s[i]) {
        lemma_letters_in_runs(s, i + 1, k);
    } else {
        lemma_run_end(s, i + 1);
        let e = run_end(s, i + 1);
        let rest = runs_from(s, e);
        if k < e {
            assert(r[0].0 <= k < r[0].1);
        } else {
            lemma_letters_in_runs(s, e, k);
            let x = choose|x: int|
                0 <= x < rest.len() && (#[trigger] rest[x]).0 <= k < rest[x].1;
            assert(r[x + 1] == rest[x]);
        }
    }
}

/// Every letter and digit of a text lies in an English run of it.
pub proof fn runs_hold_all_letters(s: Seq<char>, k: int)
    requires
        0 <= k < s.len(),
        is_alnum(s[k]),
    ensures
        in_run(s, k),
{
    lemma_letters_in_runs(s, 0, k);
    let r = runs_of(s);
    let x = choose|x: int| 0 <= x < r.len() && (#[trigger] r[x]).0 <= k < r[x].1;
    lemma_in_run(s, x, k);
}

/// A run goes on as far as it can: neither a letter or digit follows it, nor a connector with a
/// letter or digit behind.
proof fn lemma_run_is_maximal(s: Seq<char>, e: int)
    requires
        0 <= e <= s.len(),
    ensures
        ({
            let end = run_end(s, e);
            &&& end < s.len() ==> !is_alnum(s[end])
            &&& end + 1 < s.len() && is_connector(s[end]) ==> !is_alnum(s[end + 1])
        }),
    decreases s.len() - e,
{
    if e < s.len() {
        if is_alnum(s[e]) {
            lemma_run_is_maximal(s, e + 1);
        } else if e + 1 < s.len() && is_connector(s[e]) && is_alnum(s[e + 1]) {
            lemma_run_is_maximal(s, e + 2);
        }
    }
}

proof fn lemma_runs_are_whole(s: Seq<char>, i: int, x: int)
    requires
        0 <= i <= s.len(),
        0 <= x < runs_from(s, i).len(),
    ensures
        ({
            let end = runs_from(s, i)[x].1;
            &&& end < s.len() ==> !is_alnum(s[end])
            &&& end + 1 < s.len() && is_connector(s[end]) ==> !is_alnum(s[end + 1])
        }),
    decreases s.len() - i,
{
    if i < s.len() {
        if !is_alnum(s[i]) {
            lemma_runs_are_whole(s, i + 1, x);
        } else {
            lemma_run_end(s, i + 1);
            lemma_run_is_maximal(s, i + 1);
            let e = run_end(s, i + 1);
            if x > 0 {
                lemma_runs_are_whole(s, e, x - 1);
                assert(runs_from(s, i)[x] == runs_from(s, e)[x - 1]);
            }
        }
    }
}

/// What a run is: it starts and ends with a letter or digit, holds only these and connectors, and
/// could not go on behind its end. A full stop, a slash, a plus, a number sign and a hyphen connect.
pub proof fn runs_are_whole_words(s: Seq<char>, x: int)
    requires
        0 <= x < runs_of(s).len(),
    ensures
        ({
            let (start, end) = runs_of(s)[x];
            &&& 0 <= start < end <= s.len()
            &&& is_alnum(s[start]) && is_alnum(s[end - 1])
            &&& run_chars(s, start, end)
            &&& end < s.len() ==> !is_alnum(s[end])
            &&& end + 1 < s.len() && is_connector(s[end]) ==> !is_alnum(s[end + 1])
            &&& forall|k: int|
                start <= k < end && !is_alnum(#[trigger] s[k]) ==> s[k] == '.' || s[k] == '/'
                    || s[k] == '+' || s[k] == '#' || s[k] == '-'
            &&& end + 1 < s.len() && is_alnum(s[end + 1]) ==> s[end] != '.' && s[end] != '/'
                && s[end] != '+' && s[end] != '#' && s[end] != '-'
            &&& x > 0 ==> runs_of(s)[x - 1].1 <= start
        }),
{
    lemma_runs_from(s, 0);
    lemma_runs_are_whole(s, 0, x);
    if x > 0 {
        assert(runs_of(s)[x - 1].1 <= runs_of(s)[x].0);
    }
}

/// Pieces with something before, between and behind them: a gap, a piece, a gap, and so on, from
/// piece `i` on.
pub open spec fn woven(gaps: Seq<Seq<char>>, pieces: Seq<Seq<char>>, i: int) -> Seq<char>
    decreases pieces.len() - i,
{
    if i < 0 || i >= pieces.len() {
        gaps[i]
    } else {
        gaps[i] + pieces[i] + woven(gaps, pieces, i + 1)
    }
}

/// What stands before, between and behind the groups of runs.
pub open spec fn around_groups(w: Seq<char>, g: Seq<(int, int)>) -> Seq<Seq<char>> {
    let r = runs_of(w);
    Seq::new(
        g.len() + 1,
        |i: int|
            w.subrange(
                if i == 0 {
                    0
                } else {
                    r[g[i - 1].0 + g[i - 1].1 - 1].1
                },
                if i == g.len() {
                    w.len() as int
                } else {
                    r[g[i].0].0
                },
            ),
    )
}

/// The text of each group: from the start of its first run to the end of its last.
pub open spec fn group_texts(w: Seq<char>, g: Seq<(int, int)>) -> Seq<Seq<char>> {
    let r = runs_of(w);
    Seq::new(g.len(), |i: int| w.subrange(r[g[i].0].0, r[g[i].0 + g[i].1 - 1].1))
}

/// Groups of a cut follow directly on one another.
proof fn lemma_cut_joined(g: Seq<(int, int)>, j: int)
    requires
        is_cut(g, j),
        g.len() > 0,
    ensures
        g[0].0 == 0,
        g[g.len() - 1].0 + g[g.len() - 1].1 == j,
        forall|i: int| 0 < i < g.len() ==> g[i - 1].0 + g[i - 1].1 == (#[trigger] g[i]).0,
    decreases g.len(),
{
    let init = g.drop_last();
    if init.len() > 0 {
        lemma_cut_joined(init, g.last().0);
        assert forall|i: int| 0 < i < g.len() implies g[i - 1].0 + g[i - 1].1 == (
        #[trigger] g[i]).0 by {
            if i < init.len() {
                assert(init[i] == g[i] && init[i - 1] == g[i - 1]);
            } else {
                assert(init[i - 1] == g[i - 1]);
            }
        }
        assert(init[0] == g[0]);
    } else {
        assert(is_cut(init, g.last().0));
    }
}

/// Where the groups lie in the text.
proof fn lemma_groups_lie(w: Seq<char>, g: Seq<(int, int)>, i: int)
    requires
        is_cut(g, runs_of(w).len() as int),
        0 <= i < g.len(),
    ensures
        ({
            let r = runs_of(w);
            let start = r[g[i].0].0;
            let end = r[g[i].0 + g[i].1 - 1].1;
            &&& 0 <= start < end <= w.len()
            &&& i > 0 ==> r[g[i - 1].0 + g[i - 1].1 - 1].1 <= start
        }),
{
    let r = runs_of(w);
    lemma_runs_from(w, 0);
    lemma_cut_shape(g, r.len() as int);
    let from = g[i].0;
    let last = g[i].0 + g[i].1 - 1;
    if from < last {
        assert(r[from].1 <= r[last].0);
    }
    if i > 0 {
        assert(g[i - 1].0 + g[i - 1].1 <= g[i].0);
        assert(r[g[i - 1].0 + g[i - 1].1 - 1].1 <= r[from].0);
    }
}

/// A text is its groups of runs with what stands around them, and no letter or digit stands around
/// them.
proof fn lemma_woven_groups(w: Seq<char>, g: Seq<(int, int)>, i: int)
    requires
        is_cut(g, runs_of(w).len() as int),
        0 <= i <= g.len(),
    ensures
        woven(around_groups(w, g), group_texts(w, g), i) == w.skip(
            if i == 0 {
                0
            } else {
                runs_of(w)[g[i - 1].0 + g[i - 1].1 - 1].1
            },
        ),
    decreases g.len() - i,
{
    let r = runs_of(w);
    let gaps = around_groups(w, g);
    let there = group_texts(w, g);
    let at = if i == 0 {
        0
    } else {
        r[g[i - 1].0 + g[i - 1].1 - 1].1
    };
    if i > 0 {
        lemma_groups_lie(w, g, i - 1);
    }
    if i < g.len() {
        lemma_groups_lie(w, g, i);
        lemma_woven_groups(w, g, i + 1);
        assert(gaps[i] + there[i] + w.skip(r[g[i].0 + g[i].1 - 1].1) =~= w.skip(at));
    } else {
        assert(gaps[i] =~= w.skip(at));
    }
}

/// Where run `x` starts, or where the text ends.
spec fn run_start(w: Seq<char>, x: int) -> int {
    if x == runs_of(w).len() {
        w.len() as int
    } else {
        runs_of(w)[x].0
    }
}

/// Where the run before run `x` ends, or where the text starts.
spec fn run_end_before(w: Seq<char>, x: int) -> int {
    if x == 0 {
        0
    } else {
        runs_of(w)[x - 1].1
    }
}

/// No run reaches into what stands before run `x`.
proof fn lemma_no_run_between(w: Seq<char>, x: int, y: int, at: int)
    requires
        0 <= x <= runs_of(w).len(),
        0 <= y < runs_of(w).len(),
        run_end_before(w, x) <= at < run_start(w, x),
    ensures
        !(runs_of(w)[y].0 <= at < runs_of(w)[y].1),
{
    let r = runs_of(w);
    lemma_runs_from(w, 0);
    if y < x {
        if y < x - 1 {
            assert(r[y].1 <= r[x - 1].0);
            assert(r[x - 1].0 < r[x - 1].1);
        }
    } else if y > x {
        assert(r[x].1 <= r[y].0);
        assert(r[x].0 < r[x].1);
    }
}

/// No letter or digit stands between two neighbouring runs, before the first or behind the last.
#[verifier::spinoff_prover]
proof fn lemma_no_letters_between(w: Seq<char>, x: int)
    requires
        0 <= x <= runs_of(w).len(),
    ensures
        0 <= run_end_before(w, x) <= run_start(w, x) <= w.len(),
        no_letters(w.subrange(run_end_before(w, x), run_start(w, x))),
{
    let r = runs_of(w);
    let from = run_end_before(w, x);
    let to = run_start(w, x);
    assert(0 <= from <= to <= w.len()) by {
        lemma_runs_from(w, 0);
        if 0 < x < r.len() {
            assert(r[x - 1].1 <= r[x].0);
        }
        if x > 0 {
            assert(r[x - 1].1 <= w.len());
        }
    }
    let t = w.subrange(from, to);
    assert forall|k: int| 0 <= k < t.len() implies !is_alnum(#[trigger] t[k]) by {
        let at = from + k;
        assert(t[k] == w[at]);
        if is_alnum(w[at]) {
            lemma_letters_in_runs(w, 0, at);
            let y = choose|y: int| 0 <= y < r.len() && (#[trigger] r[y]).0 <= at < r[y].1;
            lemma_no_run_between(w, x, y, at);
        }
    }
}

proof fn lemma_around_has_no_letters(w: Seq<char>, g: Seq<(int, int)>, i: int)
    requires
        is_cut(g, runs_of(w).len() as int),
        g.len() > 0,
        0 <= i <= g.len(),
    ensures
        no_letters(around_groups(w, g)[i]),
{
    let n = runs_of(w).len() as int;
    lemma_cut_joined(g, n);
    lemma_cut_shape(g, n);
    let x = if i == g.len() {
        n
    } else {
        g[i].0
    };
    assert(0 <= x <= n);
    if i > 0 {
        assert(g[i - 1].0 + g[i - 1].1 == x);
        assert(x > 0) by {
            assert(g[i - 1].1 >= 1);
        }
    }
    lemma_no_letters_between(w, x);
    assert(around_groups(w, g)[i] == w.subrange(run_end_before(w, x), run_start(w, x)));
}

/// What becomes of the groups: the texts that come out for them.
spec fn put_texts(
    w: Seq<char>,
    vocab: Seq<Seq<char>>,
    units: Seq<(Seq<char>, bool)>,
    g: Seq<(int, int)>,
) -> Seq<Seq<char>> {
    Seq::new(
        g.len(),
        |i: int|
            if puts_back(w, runs_of(w), vocab, units[i], g[i]) {
                units[i].0
            } else {
                group_texts(w, g)[i]
            },
    )
}

proof fn lemma_patched_woven(
    w: Seq<char>,
    vocab: Seq<Seq<char>>,
    units: Seq<(Seq<char>, bool)>,
    g: Seq<(int, int)>,
    i: int,
    cursor: int,
)
    requires
        units.len() == g.len(),
        is_cut(g, runs_of(w).len() as int),
        0 <= i <= g.len(),
        0 <= cursor <= if i == 0 {
            0
        } else {
            runs_of(w)[g[i - 1].0 + g[i - 1].1 - 1].1
        },
    ensures
        patched(w, runs_of(w), vocab, units, g, i, cursor) == w.subrange(
            cursor,
            if i == 0 {
                0
            } else {
                runs_of(w)[g[i - 1].0 + g[i - 1].1 - 1].1
            },
        ) + woven(around_groups(w, g), put_texts(w, vocab, units, g), i),
    decreases g.len() - i,
{
    let r = runs_of(w);
    let gaps = around_groups(w, g);
    let put = put_texts(w, vocab, units, g);
    let at = if i == 0 {
        0
    } else {
        r[g[i - 1].0 + g[i - 1].1 - 1].1
    };
    if i > 0 {
        lemma_groups_lie(w, g, i - 1);
    }
    let head = w.subrange(cursor, at);
    if i < g.len() {
        lemma_groups_lie(w, g, i);
        let start = r[g[i].0].0;
        let end = r[g[i].0 + g[i].1 - 1].1;
        let rest = woven(gaps, put, i + 1);
        assert(w.subrange(cursor, start) =~= head + gaps[i]);
        if puts_back(w, r, vocab, units[i], g[i]) {
            lemma_patched_woven(w, vocab, units, g, i + 1, end);
            assert(w.subrange(end, end) + rest =~= rest);
            assert(w.subrange(cursor, start) + units[i].0 + rest =~= head + (gaps[i] + put[i]
                + rest));
        } else {
            lemma_patched_woven(w, vocab, units, g, i + 1, cursor);
            assert(w.subrange(cursor, end) =~= head + gaps[i] + put[i]);
            assert(head + gaps[i] + put[i] + rest =~= head + (gaps[i] + put[i] + rest));
        }
    } else {
        assert(w.skip(cursor) =~= head + gaps[i]);
    }
}

/// Nothing but white space stands between the runs of group `i`.
pub open spec fn group_is_unbroken(w: Seq<char>, g: Seq<(int, int)>, i: int) -> bool {
    forall|k: int|
        g[i].0 <= k < g[i].0 + g[i].1 - 1 ==> all_space(
            w.subrange((#[trigger] runs_of(w)[k]).1, runs_of(w)[k + 1].0),
        )
}

/// Restoring puts whole terms in place of whole groups. The phrase is its groups of runs with text
/// around them that holds no letter or digit; what comes out is the same text around, with, for each
/// unit of the draft in order, one of two: the unit as the draft spells it, where it is a vocabulary
/// term, its group is not broken up by other text, and the group is not some other vocabulary term;
/// or else the group as it was.
pub proof fn restoring_replaces_whole_groups(
    w: Seq<char>,
    draft: Seq<char>,
    vocab: Seq<Seq<char>>,
    g: Seq<(int, int)>,
)
    requires
        ({
            let units = units_of(draft, vocab);
            let runs = projections(cut(w, runs_of(w)));
            &&& alignment(projections(unit_texts(units)), runs) == Some(g)
            &&& reliable(units, runs, g)
        }),
    ensures
        ({
            let units = units_of(draft, vocab);
            let gaps = around_groups(w, g);
            let there = group_texts(w, g);
            &&& units.len() == g.len()
            &&& is_cut(g, runs_of(w).len() as int)
            &&& w == woven(gaps, there, 0)
            &&& forall|i: int| 0 <= i < gaps.len() ==> no_letters(#[trigger] gaps[i])
            &&& exists|put: Seq<Seq<char>>|
                {
                    &&& restored(w, draft, vocab) == #[trigger] woven(gaps, put, 0)
                    &&& put.len() == g.len()
                    &&& forall|i: int|
                        0 <= i < g.len() ==> (#[trigger] put[i]) == if units[i].1
                            && group_is_unbroken(w, g, i) && (projected(there[i]) == projected(
                            units[i].0,
                        ) || !is_term(projected(there[i]), vocab)) {
                            units[i].0
                        } else {
                            there[i]
                        }
                }
        }),
{
    let units = units_of(draft, vocab);
    let r = runs_of(w);
    let runs = projections(cut(w, r));
    let gaps = around_groups(w, g);
    let there = group_texts(w, g);
    alignment_is_a_cut(projections(unit_texts(units)), runs);
    lemma_woven_groups(w, g, 0);
    assert(w.skip(0) == w);
    assert forall|i: int| 0 <= i < gaps.len() implies no_letters(#[trigger] gaps[i]) by {
        lemma_around_has_no_letters(w, g, i);
    }
    let put = put_texts(w, vocab, units, g);
    lemma_patched_woven(w, vocab, units, g, 0, 0);
    assert(w.subrange(0, 0) + woven(gaps, put, 0) =~= woven(gaps, put, 0));
    assert(restored(w, draft, vocab) == woven(gaps, put, 0));
    assert forall|i: int| 0 <= i < g.len() implies (#[trigger] put[i]) == if units[i].1
        && group_is_unbroken(w, g, i) && (projected(there[i]) == projected(units[i].0) || !is_term(
        projected(there[i]),
        vocab,
    )) {
        units[i].0
    } else {
        there[i]
    } by {
        assert(there[i] == stretch(w, r, g[i].0, g[i].1));
        assert(group_is_unbroken(w, g, i) <==> only_spaces_between(w, r, g[i].0, g[i].1)) by {
            assert forall|k: int| g[i].0 <= k < g[i].0 + g[i].1 - 1 implies gap(w, r, k)
                == w.subrange((#[trigger] r[k]).1, r[k + 1].0) by {}
            if group_is_unbroken(w, g, i) {
                assert forall|k: int| g[i].0 <= k < g[i].0 + g[i].1 - 1 implies all_space(
                    #[trigger] gap(w, r, k),
                ) by {
                    assert(all_space(w.subrange(r[k].1, r[k + 1].0)));
                }
            }
            if only_spaces_between(w, r, g[i].0, g[i].1) {
                assert forall|k: int| g[i].0 <= k < g[i].0 + g[i].1 - 1 implies all_space(
                    w.subrange((#[trigger] r[k]).1, r[k + 1].0),
                ) by {
                    assert(all_space(gap(w, r, k)));
                }
            }
        }
    }
}

/// Rather nothing than something wrong: where a unit that is no vocabulary term does not come out
/// of the alignment with the same letters and digits on both sides, or where there are more runs
/// than units and every unit is a vocabulary term, the phrase stays as it is.
pub proof fn doubtful_alignments_restore_nothing(
    w: Seq<char>,
    draft: Seq<char>,
    vocab: Seq<Seq<char>>,
    g: Seq<(int, int)>,
)
    requires
        ({
            let units = units_of(draft, vocab);
            let runs = projections(cut(w, runs_of(w)));
            &&& alignment(projections(unit_texts(units)), runs) == Some(g)
            &&& {
                ||| exists|i: int|
                    0 <= i < units.len() && !(#[trigger] units[i]).1 && projected(
                        group_texts(w, g)[i],
                    ) != projected(units[i].0)
                ||| runs_of(w).len() > units.len() && forall|i: int|
                    0 <= i < units.len() ==> (#[trigger] units[i]).1
            }
        }),
    ensures
        restored(w, draft, vocab) == w,
{
    let units = units_of(draft, vocab);
    let r = runs_of(w);
    let runs = projections(cut(w, r));
    alignment_is_a_cut(projections(unit_texts(units)), runs);
    if exists|i: int|
        0 <= i < units.len() && !(#[trigger] units[i]).1 && projected(group_texts(w, g)[i])
            != projected(units[i].0) {
        let i = choose|i: int|
            0 <= i < units.len() && !(#[trigger] units[i]).1 && projected(group_texts(w, g)[i])
                != projected(units[i].0);
        lemma_group_letters(w, g, i);
        assert(!reliable(units, runs, g));
    }
}

/// Any other alignment is relied on: where every unit that is no vocabulary term has the same letters
/// and digits on both sides, and there are no more runs than units or such a unit is there.
pub proof fn sound_alignments_are_relied_on(
    w: Seq<char>,
    draft: Seq<char>,
    vocab: Seq<Seq<char>>,
    g: Seq<(int, int)>,
)
    requires
        ({
            let units = units_of(draft, vocab);
            let runs = projections(cut(w, runs_of(w)));
            &&& alignment(projections(unit_texts(units)), runs) == Some(g)
            &&& forall|i: int|
                0 <= i < units.len() && !(#[trigger] units[i]).1 ==> projected(group_texts(w, g)[i])
                    == projected(units[i].0)
            &&& runs_of(w).len() <= units.len() || exists|i: int|
                0 <= i < units.len() && !(#[trigger] units[i]).1
        }),
    ensures
        reliable(units_of(draft, vocab), projections(cut(w, runs_of(w))), g),
{
    let units = units_of(draft, vocab);
    let runs = projections(cut(w, runs_of(w)));
    alignment_is_a_cut(projections(unit_texts(units)), runs);
    assert forall|i: int| 0 <= i < units.len() && !(#[trigger] units[i]).1 implies concat(
        runs.subrange(g[i].0, g[i].0 + g[i].1),
    ) == projected(units[i].0) by {
        lemma_group_letters(w, g, i);
    }
}

proof fn lemma_projected_add(a: Seq<char>, b: Seq<char>)
    ensures
        projected(a + b) == projected(a) + projected(b),
    decreases b.len(),
{
    if b.len() == 0 {
        assert(a + b == a);
        assert(projected(a) + projected(b) == projected(a));
    } else {
        lemma_projected_add(a, b.drop_last());
        assert((a + b).drop_last() == a + b.drop_last());
        assert((a + b).last() == b.last());
        assert(projected(a + b) =~= projected(a) + projected(b));
    }
}

/// Only letters and digits count when words are compared, and the case of letters does not: a
/// character counts as itself where it is a small letter or a digit, a capital counts as its small
/// letter, and any other character counts as nothing.
pub proof fn case_and_punctuation_do_not_count(a: Seq<char>, c: char, b: Seq<char>)
    ensures
        projected(a + seq![c] + b) == projected(a) + (if ('a' <= c && c <= 'z') || ('0' <= c && c
            <= '9') {
            seq![c]
        } else if 'A' <= c && c <= 'Z' {
            seq![(c as u32 + 32) as char]
        } else {
            Seq::empty()
        }) + projected(b),
{
    lemma_projected_add(a + seq![c], b);
    lemma_projected_add(a, seq![c]);
    assert(seq![c].drop_last() =~= Seq::<char>::empty());
    assert(projected(seq![c].drop_last()) =~= Seq::<char>::empty());
}

proof fn lemma_projected_none(s: Seq<char>)
    requires
        no_letters(s),
    ensures
        projected(s) == Seq::<char>::empty(),
    decreases s.len(),
{
    if s.len() > 0 {
        assert(!is_alnum(s[s.len() - 1]));
        assert forall|k: int| 0 <= k < s.drop_last().len() implies !is_alnum(
            #[trigger] s.drop_last()[k],
        ) by {
            assert(s.drop_last()[k] == s[k]);
        }
        lemma_projected_none(s.drop_last());
    }
}

/// Between two neighbouring runs there is no letter or digit.
proof fn lemma_gap_has_no_letters(w: Seq<char>, k: int)
    requires
        0 <= k,
        k + 1 < runs_of(w).len(),
    ensures
        0 <= runs_of(w)[k].1 <= runs_of(w)[k + 1].0 <= w.len(),
        no_letters(gap(w, runs_of(w), k)),
{
    lemma_no_letters_between(w, k + 1);
}

/// The letters and digits of a stretch are those of its runs.
proof fn lemma_stretch_letters(w: Seq<char>, from: int, len: int)
    requires
        0 <= from,
        len >= 1,
        from + len <= runs_of(w).len(),
    ensures
        projected(stretch(w, runs_of(w), from, len)) == concat(
            projections(cut(w, runs_of(w))).subrange(from, from + len),
        ),
    decreases len,
{
    let r = runs_of(w);
    let runs = projections(cut(w, r));
    let last = from + len - 1;
    let part = runs.subrange(from, from + len);
    lemma_runs_from(w, 0);
    assert(part.drop_last() == runs.subrange(from, last));
    let word = w.subrange(r[last].0, r[last].1);
    assert(part.last() == projected(word));
    if len == 1 {
        assert(part.drop_last() == Seq::<Seq<char>>::empty());
        assert(concat(part.drop_last()) == Seq::<char>::empty());
        assert(Seq::<char>::empty() + projected(word) == projected(word));
    } else {
        lemma_stretch_letters(w, from, len - 1);
        lemma_gap_has_no_letters(w, last - 1);
        let before = stretch(w, r, from, len - 1);
        let between = gap(w, r, last - 1);
        assert(r[from].0 < r[last - 1].1) by {
            if from < last - 1 {
                assert(r[from].1 <= r[last - 1].0);
            }
        }
        assert(stretch(w, r, from, len) =~= before + between + word);
        lemma_projected_add(before + between, word);
        lemma_projected_add(before, between);
        lemma_projected_none(between);
        assert(projected(before) + Seq::<char>::empty() == projected(before));
    }
}

proof fn lemma_group_letters(w: Seq<char>, g: Seq<(int, int)>, i: int)
    requires
        is_cut(g, runs_of(w).len() as int),
        0 <= i < g.len(),
    ensures
        projected(group_texts(w, g)[i]) == concat(
            projections(cut(w, runs_of(w))).subrange(g[i].0, g[i].0 + g[i].1),
        ),
{
    lemma_cut_shape(g, runs_of(w).len() as int);
    lemma_stretch_letters(w, g[i].0, g[i].1);
}

proof fn lemma_concat_add(a: Seq<Seq<char>>, b: Seq<Seq<char>>)
    ensures
        concat(a + b) == concat(a) + concat(b),
    decreases b.len(),
{
    if b.len() == 0 {
        assert(a + b == a);
        assert(concat(a) + concat(b) == concat(a));
    } else {
        lemma_concat_add(a, b.drop_last());
        assert((a + b).drop_last() == a + b.drop_last());
        assert((a + b).last() == b.last());
        assert(concat(a + b) =~= concat(a) + concat(b));
    }
}

/// More runs hold more letters.
proof fn lemma_concat_longer(runs: Seq<Seq<char>>, a: int, b: int, j: int)
    requires
        0 <= a < b <= j <= runs.len(),
        forall|k: int| 0 <= k < runs.len() ==> (#[trigger] runs[k]).len() > 0,
    ensures
        concat(runs.subrange(a, j)).len() > concat(runs.subrange(b, j)).len(),
{
    let head = runs.subrange(a, b);
    assert(runs.subrange(a, j) == head + runs.subrange(b, j));
    lemma_concat_add(head, runs.subrange(b, j));
    assert(head.last() == runs[b - 1]);
    assert(concat(head) == concat(head.drop_last()) + head.last());
}

/// There is only one cut whose groups have given letters.
proof fn lemma_cut_is_unique(
    units: Seq<Seq<char>>,
    runs: Seq<Seq<char>>,
    g: Seq<(int, int)>,
    h: Seq<(int, int)>,
    j: int,
)
    requires
        is_cut(g, j),
        is_cut(h, j),
        g.len() == h.len() <= units.len(),
        0 <= j <= runs.len(),
        forall|k: int| 0 <= k < runs.len() ==> (#[trigger] runs[k]).len() > 0,
        forall|i: int|
            0 <= i < g.len() ==> concat(runs.subrange((#[trigger] g[i]).0, g[i].0 + g[i].1))
                == units[i],
        forall|i: int|
            0 <= i < h.len() ==> concat(runs.subrange((#[trigger] h[i]).0, h[i].0 + h[i].1))
                == units[i],
    ensures
        g == h,
    decreases g.len(),
{
    if g.len() == 0 {
        assert(g =~= h);
    } else {
        let n = g.len() - 1;
        lemma_cut_shape(g, j);
        lemma_cut_shape(h, j);
        let a = g[n];
        let b = h[n];
        assert(concat(runs.subrange(a.0, j)) == concat(runs.subrange(b.0, j)));
        if a.0 < b.0 {
            lemma_concat_longer(runs, a.0, b.0, j);
        }
        if b.0 < a.0 {
            lemma_concat_longer(runs, b.0, a.0, j);
        }
        assert(a == b);
        let gi = g.drop_last();
        let hi = h.drop_last();
        assert forall|i: int| 0 <= i < gi.len() implies concat(
            runs.subrange((#[trigger] gi[i]).0, gi[i].0 + gi[i].1),
        ) == units[i] by {
            assert(gi[i] == g[i]);
        }
        assert forall|i: int| 0 <= i < hi.len() implies concat(
            runs.subrange((#[trigger] hi[i]).0, hi[i].0 + hi[i].1),
        ) == units[i] by {
            assert(hi[i] == h[i]);
        }
        lemma_cut_is_unique(units, runs, gi, hi, a.0);
        assert(g =~= gi.push(a));
        assert(h =~= hi.push(b));
    }
}

/// A cut costs nothing exactly where each group has the letters of its unit.
proof fn lemma_free_cut(units: Seq<Seq<char>>, runs: Seq<Seq<char>>, g: Seq<(int, int)>)
    requires
        g.len() <= units.len(),
    ensures
        cut_cost(units, runs, g) == 0 <==> forall|i: int|
            0 <= i < g.len() ==> concat(runs.subrange((#[trigger] g[i]).0, g[i].0 + g[i].1))
                == units[i],
    decreases g.len(),
{
    if g.len() > 0 {
        let n = g.len() - 1;
        let init = g.drop_last();
        lemma_free_cut(units, runs, init);
        edit_distance_zero_iff_equal(units[n], concat(runs.subrange(g[n].0, g[n].0 + g[n].1)));
        if cut_cost(units, runs, g) == 0 {
            assert forall|i: int| 0 <= i < g.len() implies concat(
                runs.subrange((#[trigger] g[i]).0, g[i].0 + g[i].1),
            ) == units[i] by {
                if i < n {
                    assert(init[i] == g[i]);
                }
            }
        }
        if forall|i: int|
            0 <= i < g.len() ==> concat(runs.subrange((#[trigger] g[i]).0, g[i].0 + g[i].1))
                == units[i] {
            assert forall|i: int| 0 <= i < init.len() implies concat(
                runs.subrange((#[trigger] init[i]).0, init[i].0 + init[i].1),
            ) == units[i] by {
                assert(init[i] == g[i]);
            }
            assert(concat(runs.subrange(g[n].0, g[n].0 + g[n].1)) == units[n]);
        }
    }
}

/// The groups have the same letters and digits as the units of the draft, one by one, whatever the
/// case, the spaces and the connectors.
pub open spec fn same_letters(
    w: Seq<char>,
    units: Seq<(Seq<char>, bool)>,
    g: Seq<(int, int)>,
) -> bool {
    &&& g.len() == units.len()
    &&& is_cut(g, runs_of(w).len() as int)
    &&& forall|i: int|
        0 <= i < g.len() ==> projected(#[trigger] group_texts(w, g)[i]) == projected(units[i].0)
}

/// Where the phrase and the draft have the same words but spell them otherwise, every vocabulary
/// term comes out as the draft spells it, with nothing left over of how the phrase had it; all
/// other words stay as the phrase has them. (A term with other text between its parts stays too.)
pub proof fn same_words_take_the_drafts_spelling(
    w: Seq<char>,
    draft: Seq<char>,
    vocab: Seq<Seq<char>>,
    g: Seq<(int, int)>,
)
    requires
        ({
            let units = units_of(draft, vocab);
            &&& units.len() > 0
            &&& same_letters(w, units, g)
            &&& runs_of(w).len() <= units.len() || exists|i: int|
                0 <= i < units.len() && !(#[trigger] units[i]).1
        }),
    ensures
        exists|put: Seq<Seq<char>>|
            {
                &&& restored(w, draft, vocab) == #[trigger] woven(around_groups(w, g), put, 0)
                &&& put.len() == g.len()
                &&& forall|i: int|
                    0 <= i < g.len() ==> (#[trigger] put[i]) == if units_of(draft, vocab)[i].1
                        && group_is_unbroken(w, g, i) {
                        units_of(draft, vocab)[i].0
                    } else {
                        group_texts(w, g)[i]
                    }
            },
{
    let units = units_of(draft, vocab);
    let us = projections(unit_texts(units));
    let r = runs_of(w);
    let runs = projections(cut(w, r));
    assert forall|i: int| 0 <= i < g.len() implies concat(
        runs.subrange((#[trigger] g[i]).0, g[i].0 + g[i].1),
    ) == us[i] by {
        lemma_group_letters(w, g, i);
        assert(group_texts(w, g)[i] == group_texts(w, g)[i]);
        assert(projected(group_texts(w, g)[i]) == projected(units[i].0));
        assert(unit_texts(units)[i] == units[i].0);
    }
    lemma_cut_len(g, runs.len() as int);
    alignment_is_a_cut(us, runs);
    alignment_is_cheapest(us, runs, g);
    let h = alignment(us, runs)->0;
    lemma_free_cut(us, runs, g);
    lemma_free_cut(us, runs, h);
    lemma_runs_from(w, 0);
    assert forall|k: int| 0 <= k < runs.len() implies (#[trigger] runs[k]).len() > 0 by {
        let word = w.subrange(r[k].0, r[k].1);
        assert(runs[k] == projected(word));
        assert(is_alnum(w[r[k].1 - 1]));
        assert(word.last() == w[r[k].1 - 1]);
    }
    lemma_cut_is_unique(us, runs, g, h, runs.len() as int);
    assert(reliable(units, runs, g)) by {
        assert forall|i: int| 0 <= i < units.len() && !(#[trigger] units[i]).1 implies concat(
            runs.subrange(g[i].0, g[i].0 + g[i].1),
        ) == projected(units[i].0) by {
            assert(unit_texts(units)[i] == units[i].0);
            assert(us[i] == projected(units[i].0));
            assert(concat(runs.subrange(g[i].0, g[i].0 + g[i].1)) == us[i]);
        }
        assert(runs.len() == r.len());
    }
    restoring_replaces_whole_groups(w, draft, vocab, g);
    let put = choose|put: Seq<Seq<char>>|
        {
            &&& restored(w, draft, vocab) == #[trigger] woven(around_groups(w, g), put, 0)
            &&& put.len() == g.len()
            &&& forall|i: int|
                0 <= i < g.len() ==> (#[trigger] put[i]) == if units[i].1 && group_is_unbroken(
                    w,
                    g,
                    i,
                ) && (projected(group_texts(w, g)[i]) == projected(units[i].0) || !is_term(
                    projected(group_texts(w, g)[i]),
                    vocab,
                )) {
                    units[i].0
                } else {
                    group_texts(w, g)[i]
                }
        };
    assert forall|i: int| 0 <= i < g.len() implies (#[trigger] put[i]) == if units[i].1
        && group_is_unbroken(w, g, i) {
        units[i].0
    } else {
        group_texts(w, g)[i]
    } by {
        assert(projected(group_texts(w, g)[i]) == projected(units[i].0));
    }
}

/// A phrase that differs from the draft only in how it spells vocabulary terms, with white space in
/// them for instance, comes out as the draft.
pub proof fn misspelled_terms_come_out_as_in_the_draft(
    w: Seq<char>,
    draft: Seq<char>,
    vocab: Seq<Seq<char>>,
    g: Seq<(int, int)>,
)
    requires
        ({
            let units = units_of(draft, vocab);
            &&& units.len() > 0
            &&& same_letters(w, units, g)
            &&& runs_of(w).len() <= units.len() || exists|i: int|
                0 <= i < units.len() && !(#[trigger] units[i]).1
            &&& draft == woven(around_groups(w, g), unit_texts(units), 0)
            &&& forall|i: int|
                0 <= i < units.len() ==> if (#[trigger] units[i]).1 {
                    group_is_unbroken(w, g, i)
                } else {
                    group_texts(w, g)[i] == units[i].0
                }
        }),
    ensures
        restored(w, draft, vocab) == draft,
{
    let units = units_of(draft, vocab);
    same_words_take_the_drafts_spelling(w, draft, vocab, g);
    let put = choose|put: Seq<Seq<char>>|
        {
            &&& restored(w, draft, vocab) == #[trigger] woven(around_groups(w, g), put, 0)
            &&& put.len() == g.len()
            &&& forall|i: int|
                0 <= i < g.len() ==> (#[trigger] put[i]) == if units[i].1 && group_is_unbroken(
                    w,
                    g,
                    i,
                ) {
                    units[i].0
                } else {
                    group_texts(w, g)[i]
                }
        };
    assert(put =~= unit_texts(units)) by {
        assert forall|i: int| 0 <= i < put.len() implies put[i] == unit_texts(units)[i] by {
            assert(unit_texts(units)[i] == units[i].0);
            if units[i].1 {
            } else {
                assert(group_texts(w, g)[i] == units[i].0);
            }
        }
    }
}

/// The runs that each unit from run `i` on is made of.
spec fn unit_groups(s: Seq<char>, vocab: Seq<Seq<char>>, i: int) -> Seq<(int, int)>
    decreases runs_of(s).len() - i,
{
    let r = runs_of(s);
    if i < 0 || i >= r.len() {
        Seq::empty()
    } else {
        let n = unit_size(s, r, vocab, i);
        seq![(i, n)] + unit_groups(s, vocab, i + n)
    }
}

/// What the unit that is made of the runs `group` is: one to three whole runs of the draft, three
/// rather than two and two rather than one where they are a vocabulary term with single spaces in
/// it; and whether it is a term.
#[verifier::opaque]
pub open spec fn is_unit(
    s: Seq<char>,
    vocab: Seq<Seq<char>>,
    unit: (Seq<char>, bool),
    group: (int, int),
) -> bool {
    let r = runs_of(s);
    let joins = |n: int|
        group.0 + n <= r.len() && (forall|k: int|
            group.0 <= k < group.0 + n - 1 ==> s.subrange((#[trigger] r[k]).1, r[k + 1].0)
                == seq![' ']) && is_term(
            projected(s.subrange(r[group.0].0, r[group.0 + n - 1].1)),
            vocab,
        );
    &&& 1 <= group.1 <= 3
    &&& unit.0 == s.subrange(r[group.0].0, r[group.0 + group.1 - 1].1)
    &&& unit.1 == is_term(projected(unit.0), vocab)
    &&& group.1 > 1 ==> joins(group.1)
    &&& group.1 < 3 ==> !joins(3)
    &&& group.1 < 2 ==> !joins(2)
}

proof fn lemma_unit_groups(s: Seq<char>, vocab: Seq<Seq<char>>, i: int)
    requires
        0 <= i <= runs_of(s).len(),
    ensures
        ({
            let h = unit_groups(s, vocab, i);
            let units = units_from(s, runs_of(s), vocab, i);
            &&& h.len() == units.len()
            &&& h.len() == 0 <==> i == runs_of(s).len()
            &&& h.len() > 0 ==> h[0].0 == i && h[h.len() - 1].0 + h[h.len() - 1].1 == runs_of(
                s,
            ).len()
            &&& forall|x: int| 0 < x < h.len() ==> h[x - 1].0 + h[x - 1].1 == (#[trigger] h[x]).0
            &&& forall|x: int| 0 <= x < h.len() ==> is_unit(s, vocab, units[x], #[trigger] h[x])
        }),
    decreases runs_of(s).len() - i,
{
    let r = runs_of(s);
    if i < r.len() {
        let n = unit_size(s, r, vocab, i);
        lemma_unit_groups(s, vocab, i + n);
        let h = unit_groups(s, vocab, i);
        let rest = unit_groups(s, vocab, i + n);
        let units = units_from(s, r, vocab, i);
        let more = units_from(s, r, vocab, i + n);
        assert forall|x: int| 0 < x < h.len() implies h[x - 1].0 + h[x - 1].1 == (
        #[trigger] h[x]).0 by {
            assert(h[x] == rest[x - 1]);
            if x > 1 {
                assert(h[x - 1] == rest[x - 2]);
            }
        }
        assert forall|m: int| spaced(s, r, i, m) <==> i + m <= r.len() && (forall|k: int|
            i <= k < i + m - 1 ==> s.subrange((#[trigger] r[k]).1, r[k + 1].0) == seq![' ']) by {
            if spaced(s, r, i, m) {
                assert forall|k: int| i <= k < i + m - 1 implies s.subrange(
                    (#[trigger] r[k]).1,
                    r[k + 1].0,
                ) == seq![' '] by {
                    assert(gap(s, r, k) == seq![' ']);
                }
            }
            if i + m <= r.len() && (forall|k: int|
                i <= k < i + m - 1 ==> s.subrange((#[trigger] r[k]).1, r[k + 1].0) == seq![' ']) {
                assert forall|k: int| i <= k < i + m - 1 implies #[trigger] gap(s, r, k) == seq![
                    ' ',
                ] by {
                    assert(s.subrange(r[k].1, r[k + 1].0) == seq![' ']);
                }
            }
        }
        assert(is_unit(s, vocab, units[0], h[0])) by {
            reveal(is_unit);
        }
        assert forall|x: int| 0 <= x < h.len() implies is_unit(
            s,
            vocab,
            units[x],
            #[trigger] h[x],
        ) by {
            if x > 0 {
                assert(h[x] == rest[x - 1]);
                assert(units[x] == more[x - 1]);
            }
        }
        if rest.len() > 0 {
            assert(h[h.len() - 1] == rest[rest.len() - 1]);
        }
    }
}

proof fn lemma_is_cut(h: Seq<(int, int)>, j: int)
    requires
        h.len() > 0,
        h[0].0 == 0,
        h[h.len() - 1].0 + h[h.len() - 1].1 == j,
        forall|x: int| 0 < x < h.len() ==> h[x - 1].0 + h[x - 1].1 == (#[trigger] h[x]).0,
        forall|x: int| 0 <= x < h.len() ==> (#[trigger] h[x]).1 >= 1,
    ensures
        is_cut(h, j),
    decreases h.len(),
{
    let init = h.drop_last();
    if init.len() > 0 {
        assert forall|x: int| 0 < x < init.len() implies init[x - 1].0 + init[x - 1].1 == (
        #[trigger] init[x]).0 by {
            assert(init[x] == h[x] && init[x - 1] == h[x - 1]);
        }
        assert forall|x: int| 0 <= x < init.len() implies (#[trigger] init[x]).1 >= 1 by {
            assert(init[x] == h[x]);
        }
        assert(h[init.len() as int].0 == h[init.len() - 1].0 + h[init.len() - 1].1);
        lemma_is_cut(init, h.last().0);
    }
    assert(h[h.len() - 1].1 >= 1);
    if init.len() == 0 {
        assert(is_cut(init, 0));
        assert(h.last() == h[0]);
    }
}

/// What a unit says of its text.
proof fn lemma_unit_text(
    s: Seq<char>,
    vocab: Seq<Seq<char>>,
    unit: (Seq<char>, bool),
    group: (int, int),
)
    requires
        is_unit(s, vocab, unit, group),
    ensures
        group.1 >= 1,
        unit.0 == s.subrange(runs_of(s)[group.0].0, runs_of(s)[group.0 + group.1 - 1].1),
{
    reveal(is_unit);
}

/// The units of a draft are all of its runs, in order and each in one unit: the draft is its units
/// with text around them that holds no letter or digit.
pub proof fn units_are_the_words_of_the_draft(draft: Seq<char>, vocab: Seq<Seq<char>>)
    requires
        runs_of(draft).len() > 0,
    ensures
        exists|h: Seq<(int, int)>|
            {
                let units = units_of(draft, vocab);
                &&& #[trigger] is_cut(h, runs_of(draft).len() as int)
                &&& h.len() == units.len()
                &&& forall|x: int|
                    0 <= x < h.len() ==> is_unit(draft, vocab, units[x], #[trigger] h[x])
                &&& draft == woven(around_groups(draft, h), unit_texts(units), 0)
                &&& forall|x: int|
                    0 <= x <= h.len() ==> no_letters(#[trigger] around_groups(draft, h)[x])
            },
{
    let h = unit_groups(draft, vocab, 0);
    let units = units_of(draft, vocab);
    lemma_unit_groups(draft, vocab, 0);
    assert forall|x: int| 0 <= x < h.len() implies (#[trigger] h[x]).1 >= 1 by {
        lemma_unit_text(draft, vocab, units[x], h[x]);
    }
    lemma_is_cut(h, runs_of(draft).len() as int);
    lemma_woven_groups(draft, h, 0);
    assert(draft.skip(0) == draft);
    assert(group_texts(draft, h) =~= unit_texts(units)) by {
        assert forall|x: int| 0 <= x < h.len() implies group_texts(draft, h)[x] == unit_texts(
            units,
        )[x] by {
            lemma_unit_text(draft, vocab, units[x], h[x]);
        }
    }
    assert forall|x: int| 0 <= x <= h.len() implies no_letters(
        #[trigger] around_groups(draft, h)[x],
    ) by {
        lemma_around_has_no_letters(draft, h, x);
    }
}

// ---------------------------------------------------------------------------
// What the edit distance and the alignment are
// ---------------------------------------------------------------------------

/// `b` is `a` with one character removed, inserted or changed.
pub open spec fn one_edit(a: Seq<char>, b: Seq<char>) -> bool {
    ||| exists|i: int| 0 <= i < a.len() && b == #[trigger] a.remove(i)
    ||| exists|i: int, c: char| 0 <= i <= a.len() && b == #[trigger] a.insert(i, c)
    ||| exists|i: int, c: char| 0 <= i < a.len() && b == #[trigger] a.update(i, c)
}

/// One edit never brings two texts nearer to one another by more than one: no row of fewer edits
/// than the distance turns one text into the other.
pub proof fn edits_bring_no_nearer_than_one(a: Seq<char>, a2: Seq<char>, b: Seq<char>)
    requires
        one_edit(a, a2),
    ensures
        edit_distance(a, b) <= edit_distance(a2, b) + 1,
    decreases a.len() + a2.len() + b.len(), 1int,
{
    if b.len() == 0 {
    } else if a.len() == 0 || a2.len() == 0 {
        lemma_distance_drop_right(a, b);
        lemma_distance_to_one(a, a2, b);
    } else if exists|i: int| 0 <= i < a.len() && a2 == #[trigger] a.remove(i) {
        let i = choose|i: int| 0 <= i < a.len() && a2 == #[trigger] a.remove(i);
        if i == a.len() - 1 {
            assert(a2 =~= a.drop_last());
        } else {
            assert(a2.last() == a.last());
            assert(a2.drop_last() =~= a.drop_last().remove(i));
            lemma_same_last(a, a2, b);
        }
    } else if exists|i: int, c: char| 0 <= i <= a.len() && a2 == #[trigger] a.insert(i, c) {
        let (i, c) = choose|i: int, c: char| 0 <= i <= a.len() && a2 == #[trigger] a.insert(i, c);
        if i == a.len() {
            assert(a2.drop_last() =~= a);
            edits_bring_no_nearer_than_one(a, a2, b.drop_last());
        } else {
            assert(a2.last() == a.last());
            assert(a2.drop_last() =~= a.drop_last().insert(i, c));
            lemma_same_last(a, a2, b);
        }
    } else {
        let (i, c) = choose|i: int, c: char| 0 <= i < a.len() && a2 == #[trigger] a.update(i, c);
        if i == a.len() - 1 {
            assert(a2.drop_last() =~= a.drop_last());
            edits_bring_no_nearer_than_one(a, a2, b.drop_last());
        } else {
            assert(a2.last() == a.last());
            assert(a2.drop_last() =~= a.drop_last().update(i, c));
            lemma_same_last(a, a2, b);
        }
    }
}

/// The edit leaves the last character alone.
proof fn lemma_same_last(a: Seq<char>, a2: Seq<char>, b: Seq<char>)
    requires
        a.len() > 0,
        a2.len() > 0,
        b.len() > 0,
        a.last() == a2.last(),
        one_edit(a, a2),
        one_edit(a.drop_last(), a2.drop_last()),
    ensures
        edit_distance(a, b) <= edit_distance(a2, b) + 1,
    decreases a.len() + a2.len() + b.len(), 0int,
{
    edits_bring_no_nearer_than_one(a.drop_last(), a2.drop_last(), b.drop_last());
    edits_bring_no_nearer_than_one(a.drop_last(), a2.drop_last(), b);
    edits_bring_no_nearer_than_one(a, a2, b.drop_last());
}

proof fn lemma_distance_drop_right(a: Seq<char>, b: Seq<char>)
    requires
        b.len() > 0,
    ensures
        edit_distance(a, b) <= edit_distance(a, b.drop_last()) + 1,
{
}

/// An edit that leaves nothing, or starts from nothing.
proof fn lemma_distance_to_one(a: Seq<char>, a2: Seq<char>, b: Seq<char>)
    requires
        one_edit(a, a2),
        b.len() > 0,
        a.len() == 0 || a2.len() == 0,
    ensures
        edit_distance(a, b) <= edit_distance(a2, b) + 1,
    decreases b.len(),
{
    if a.len() == 0 {
        assert(a2.len() == 1) by {
            if exists|i: int, c: char| 0 <= i <= a.len() && a2 == #[trigger] a.insert(i, c) {
            }
        }
        lemma_distance_length(a2, b);
    } else {
        assert(a.len() == 1);
        lemma_edit_distance_bound(a, b);
    }
}

/// Two texts are at least as far apart as their lengths.
proof fn lemma_distance_length(a: Seq<char>, b: Seq<char>)
    ensures
        edit_distance(a, b) + a.len() >= b.len(),
        edit_distance(a, b) + b.len() >= a.len(),
    decreases a.len() + b.len(),
{
    if a.len() > 0 && b.len() > 0 {
        lemma_distance_length(a.drop_last(), b.drop_last());
        lemma_distance_length(a.drop_last(), b);
        lemma_distance_length(a, b.drop_last());
    }
}

/// Two texts that differ can be brought nearer by one edit: a row of as many edits as the distance
/// turns one into the other.
pub proof fn some_edit_brings_nearer(a: Seq<char>, b: Seq<char>)
    requires
        a != b,
    ensures
        exists|a2: Seq<char>| #[trigger]
            one_edit(a, a2) && edit_distance(a2, b) < edit_distance(a, b),
    decreases a.len() + b.len(),
{
    if b.len() == 0 {
        assert(a.len() > 0) by {
            if a.len() == 0 {
                assert(a =~= b);
            }
        }
        let a2 = a.drop_last();
        assert(a2 =~= a.remove(a.len() - 1));
        assert(one_edit(a, a2));
        assert(edit_distance(a2, b) < edit_distance(a, b));
    } else {
        let y = b.last();
        let grown = a.push(y);
        assert(grown =~= a.insert(a.len() as int, y));
        assert(one_edit(a, grown));
        assert(grown.drop_last() =~= a);
        assert(edit_distance(grown, b) <= edit_distance(a, b.drop_last()));
        if a.len() == 0 {
            assert(edit_distance(grown, b) < edit_distance(a, b));
        } else {
            let init = a.drop_last();
            let cut_short = init;
            assert(cut_short =~= a.remove(a.len() - 1));
            assert(one_edit(a, cut_short));
            let changed = a.update(a.len() - 1, y);
            assert(one_edit(a, changed));
            assert(changed.drop_last() =~= init);
            assert(changed.last() == y);
            assert(edit_distance(changed, b) <= edit_distance(init, b.drop_last()));
            if edit_distance(a, b) == edit_distance(a, b.drop_last()) + 1 {
                assert(edit_distance(grown, b) < edit_distance(a, b));
            } else if edit_distance(a, b) == edit_distance(init, b) + 1 {
                assert(edit_distance(cut_short, b) < edit_distance(a, b));
            } else if a.last() != y {
                assert(edit_distance(changed, b) < edit_distance(a, b));
            } else {
                assert(init != b.drop_last()) by {
                    if init == b.drop_last() {
                        assert(a =~= init.push(y));
                        assert(b =~= b.drop_last().push(y));
                    }
                }
                some_edit_brings_nearer(init, b.drop_last());
                let near = choose|n: Seq<char>| #[trigger]
                    one_edit(init, n) && edit_distance(n, b.drop_last()) < edit_distance(
                        init,
                        b.drop_last(),
                    );
                let a2 = near.push(y);
                lemma_edit_before_last(init, near, y);
                assert(init.push(y) =~= a);
                assert(a2.drop_last() =~= near);
                assert(edit_distance(a2, b) <= edit_distance(near, b.drop_last()));
                assert(one_edit(a, a2) && edit_distance(a2, b) < edit_distance(a, b));
            }
        }
    }
}

proof fn lemma_edit_before_last(a: Seq<char>, b: Seq<char>, y: char)
    requires
        one_edit(a, b),
    ensures
        one_edit(a.push(y), b.push(y)),
{
    let ay = a.push(y);
    let by = b.push(y);
    if exists|i: int| 0 <= i < a.len() && b == #[trigger] a.remove(i) {
        let i = choose|i: int| 0 <= i < a.len() && b == #[trigger] a.remove(i);
        assert(by =~= ay.remove(i));
    } else if exists|i: int, c: char| 0 <= i <= a.len() && b == #[trigger] a.insert(i, c) {
        let (i, c) = choose|i: int, c: char| 0 <= i <= a.len() && b == #[trigger] a.insert(i, c);
        assert(by =~= ay.insert(i, c));
    } else {
        let (i, c) = choose|i: int, c: char| 0 <= i < a.len() && b == #[trigger] a.update(i, c);
        assert(by =~= ay.update(i, c));
    }
}

/// What a cut costs: for each unit the edit distance between it and the runs of its group, joined,
/// all added up.
pub proof fn cuts_cost_edit_distances(
    units: Seq<Seq<char>>,
    runs: Seq<Seq<char>>,
    g: Seq<(int, int)>,
    from: int,
    len: int,
)
    ensures
        cut_cost(units, runs, Seq::empty()) == 0,
        cut_cost(units, runs, g.push((from, len))) == cut_cost(units, runs, g) + edit_distance(
            units[g.len() as int],
            concat(runs.subrange(from, from + len)),
        ),
{
    assert(g.push((from, len)).drop_last() =~= g);
}

/// Of the groups that cost as much as the best, the best is the shortest.
proof fn lemma_best_last_shortest(
    units: Seq<Seq<char>>,
    runs: Seq<Seq<char>>,
    u: int,
    j: int,
    l: int,
    len: int,
)
    requires
        u > 0,
        1 <= len <= l,
        best_cost(units, runs, u - 1, j - len) is Some,
        (best_last(units, runs, u, j, l)->0).0 == best_cost(units, runs, u - 1, j - len)->0
            + group_cost(units, runs, u - 1, j - len, len),
    ensures
        (best_last(units, runs, u, j, l)->0).1 <= len,
    decreases l,
{
    lemma_best_last_least(units, runs, u, j, l, len);
    lemma_best_last_range(units, runs, u, j, l);
    if len < l {
        lemma_best_last_least(units, runs, u, j, l - 1, len);
        lemma_best_last_range(units, runs, u, j, l - 1);
        lemma_best_last_shortest(units, runs, u, j, l - 1, len);
    }
}

/// Of all the alignments that cost least, the chosen one gives the last unit as few runs as can be.
pub proof fn alignment_gives_the_last_unit_few_runs(
    units: Seq<Seq<char>>,
    runs: Seq<Seq<char>>,
    other: Seq<(int, int)>,
)
    requires
        units.len() > 0,
        other.len() == units.len(),
        is_cut(other, runs.len() as int),
        alignment(units, runs) matches Some(g) && cut_cost(units, runs, other) == cut_cost(
            units,
            runs,
            g,
        ),
    ensures
        alignment(units, runs)->0.last().1 <= other.last().1,
{
    let u = units.len() as int;
    let j = runs.len() as int;
    let g = alignment(units, runs)->0;
    let init = other.drop_last();
    let len = other.last().1;
    lemma_cut_len(other, j);
    lemma_cut_len(init, other.last().0);
    lemma_best_exists(units, runs, u, j);
    lemma_groups_for(units, runs, u, j);
    lemma_best_is_least(units, runs, init, other.last().0);
    lemma_best_last_least(units, runs, u, j, j - (u - 1), len);
    lemma_best_last_shortest(units, runs, u, j, j - (u - 1), len);
    assert(g.last().1 == (best_last(units, runs, u, j, j - (u - 1))->0).1);
}

} // verus!
