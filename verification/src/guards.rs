//! Which transcripts to trust, and what transcribers are prompted with.

use vstd::prelude::*;
use vstd::slice::slice_subrange;
use crate::text::{find, push_all, same_chars, to_chars, to_text};
use crate::text::{contains_text, lemma_position_of, strs};

verus! {

/// At most so many terms go into a prompt.
pub const ROLLING_PROMPT_TERM_CAP: usize = 30;

/// A character that a transcript in Chinese and English may hold: ASCII, general punctuation, CJK
/// symbols and punctuation, CJK ideographs and their compatibility forms, half- and full-width
/// forms.
pub open spec fn is_safe_char(c: char) -> bool {
    ||| c as u32 <= 0x007f
    ||| 0x2000 <= c as u32 <= 0x206f
    ||| 0x3000 <= c as u32 <= 0x303f
    ||| 0x4e00 <= c as u32 <= 0x9fff
    ||| 0xf900 <= c as u32 <= 0xfaff
    ||| 0xff00 <= c as u32 <= 0xffef
}

/// Every character of `s` may stand in a transcript.
pub open spec fn is_safe(s: Seq<char>) -> bool {
    forall|i: int| 0 <= i < s.len() ==> is_safe_char(#[trigger] s[i])
}

/// Whether a transcript holds nothing but what Chinese and English are written with.
pub fn is_safe_whisper_output(text: &str) -> (b: bool)
    ensures
        b == is_safe(text@),
{
    let s = to_chars(text);
    let mut i: usize = 0;
    while i < s.len()
        invariant
            i <= s@.len(),
            s@ == text@,
            forall|k: int| 0 <= k < i ==> is_safe_char(#[trigger] s@[k]),
        decreases s@.len() - i,
    {
        let u: u32 = s[i] as u32;
        let safe = u <= 0x007f || (0x2000 <= u && u <= 0x206f) || (0x3000 <= u && u <= 0x303f) || (
        0x4e00 <= u && u <= 0x9fff) || (0xf900 <= u && u <= 0xfaff) || (0xff00 <= u && u <= 0xffef);
        if !safe {
            assert(!is_safe_char(s@[i as int]));
            return false;
        }
        i += 1;
    }
    true
}

/// A stretch of `unit` characters stands in `s` at `i` three times in a row.
pub open spec fn repeats_at(s: Seq<char>, i: int, unit: int) -> bool {
    &&& 0 <= i
    &&& 0 <= unit
    &&& i + 3 * unit <= s.len()
    &&& s.subrange(i, i + unit) == s.subrange(i + unit, i + 2 * unit)
    &&& s.subrange(i, i + unit) == s.subrange(i + 2 * unit, i + 3 * unit)
}

/// Some stretch of at least three characters stands in `s` three times in a row.
pub open spec fn is_loop(s: Seq<char>) -> bool {
    exists|i: int, unit: int| unit >= 3 && #[trigger] repeats_at(s, i, unit)
}

/// Whether a transcript is a decoder caught in a loop: the same three or more characters three
/// times in a row.
pub fn is_repetition_loop(text: &str) -> (b: bool)
    ensures
        b == is_loop(text@),
{
    let chars = to_chars(text);
    let s = chars.as_slice();
    let n: usize = s.len();
    let mut unit: usize = 3;
    while unit <= n / 3
        invariant
            n == s@.len(),
            s@ == text@,
            3 <= unit,
            forall|i: int, u: int| 3 <= u < unit ==> !#[trigger] repeats_at(s@, i, u),
        decreases n + 3 - unit,
    {
        assert(3 * unit <= n);
        let mut i: usize = 0;
        while i <= n - 3 * unit
            invariant
                n == s@.len(),
                s@ == text@,
                3 <= unit,
                3 * unit <= n,
                i <= n - 3 * unit + 1,
                forall|k: int| 0 <= k < i ==> !#[trigger] repeats_at(s@, k, unit as int),
            decreases n + 1 - i,
        {
            let first = slice_subrange(s, i, i + unit);
            let second = slice_subrange(s, i + unit, i + 2 * unit);
            let third = slice_subrange(s, i + 2 * unit, i + 3 * unit);
            if same_chars(first, second) && same_chars(first, third) {
                assert(repeats_at(s@, i as int, unit as int));
                return true;
            }
            assert(!repeats_at(s@, i as int, unit as int));
            i += 1;
        }
        assert forall|k: int, u: int| 3 <= u < unit + 1 implies !#[trigger] repeats_at(
            s@,
            k,
            u,
        ) by {
            if u == unit && repeats_at(s@, k, u) {
                assert(0 <= k < i);
            }
        }
        unit += 1;
    }
    assert forall|i: int, u: int| u >= 3 implies !#[trigger] repeats_at(s@, i, u) by {
        if repeats_at(s@, i, u) {
            assert(3 * u <= n);
            assert(u <= n / 3);
        }
    }
    false
}

// ---------------------------------------------------------------------------
// Prompts
// ---------------------------------------------------------------------------

/// The dictation commands that every prompt holds, so that they come out in their usual spelling.
pub open spec fn prompt_commands() -> Seq<Seq<char>> {
    seq!["逗點"@, "句點"@, "換行"@]
}

/// What stands in a prompt: the first terms, as many as there is room for, then the commands.
pub open spec fn prompt_parts(terms: Seq<Seq<char>>) -> Seq<Seq<char>> {
    (if terms.len() > ROLLING_PROMPT_TERM_CAP {
        terms.take(ROLLING_PROMPT_TERM_CAP as int)
    } else {
        terms
    }) + prompt_commands()
}

/// The parts with `separator` between neighbours.
pub open spec fn joined(parts: Seq<Seq<char>>, separator: Seq<char>) -> Seq<char>
    decreases parts.len(),
{
    if parts.len() == 0 {
        Seq::empty()
    } else if parts.len() == 1 {
        parts[0]
    } else {
        joined(parts.drop_last(), separator) + separator + parts.last()
    }
}

/// The prompt for some terms.
pub open spec fn prompt_of(terms: Seq<Seq<char>>) -> Seq<char> {
    "詞彙："@ + joined(prompt_parts(terms), "、"@) + "。"@
}

/// The transcript is the prompt copied out: it holds the words that a prompt starts with, or two
/// neighbouring parts of the prompt with the prompt's separator between them.
pub open spec fn is_echo(s: Seq<char>, terms: Seq<Seq<char>>) -> bool {
    ||| contains_text(s, "詞彙："@)
    ||| exists|i: int|
        0 <= i < prompt_parts(terms).len() - 1 && contains_text(
            s,
            #[trigger] prompt_parts(terms)[i] + "、"@ + prompt_parts(terms)[i + 1],
        )
}

/// What stands in a prompt.
fn parts_of(terms: &[&str]) -> (parts: Vec<Vec<char>>)
    ensures
        crate::text::views(parts@) == prompt_parts(strs(terms@)),
{
    let ghost ts = strs(terms@);
    let mut parts: Vec<Vec<char>> = Vec::new();
    let n: usize = if terms.len() > ROLLING_PROMPT_TERM_CAP {
        ROLLING_PROMPT_TERM_CAP
    } else {
        terms.len()
    };
    let mut i: usize = 0;
    while i < n
        invariant
            i <= n <= terms@.len(),
            ts == strs(terms@),
            crate::text::views(parts@) == ts.take(i as int),
        decreases n - i,
    {
        let ghost before = crate::text::views(parts@);
        parts.push(to_chars(terms[i]));
        assert(crate::text::views(parts@) == before.push(ts[i as int]));
        i += 1;
    }
    let ghost before = crate::text::views(parts@);
    assert(before == if ts.len() > ROLLING_PROMPT_TERM_CAP {
        ts.take(ROLLING_PROMPT_TERM_CAP as int)
    } else {
        ts
    });
    parts.push(to_chars("逗點"));
    parts.push(to_chars("句點"));
    parts.push(to_chars("換行"));
    assert(crate::text::views(parts@) == before.push("逗點"@).push("句點"@).push("換行"@));
    assert(crate::text::views(parts@) == before + prompt_commands());
    parts
}

/// The prompt that makes the transcriber expect `terms`, as many of them as there is room for, and
/// the dictation commands.
pub fn build_rolling_prompt(terms: &[&str]) -> (prompt: String)
    ensures
        prompt@ == prompt_of(strs(terms@)),
{
    let parts = parts_of(terms);
    let ghost ps = crate::text::views(parts@);
    let separator = to_chars("、");
    let mut out = to_chars("詞彙：");
    let ghost head = out@;
    let mut i: usize = 0;
    assert(head + joined(ps.take(0), "、"@) == head);
    while i < parts.len()
        invariant
            i <= parts@.len(),
            ps == crate::text::views(parts@),
            separator@ == "、"@,
            out@ == head + joined(ps.take(i as int), "、"@),
        decreases parts@.len() - i,
    {
        let ghost before = joined(ps.take(i as int), "、"@);
        if i > 0 {
            push_all(&mut out, separator.as_slice());
        }
        push_all(&mut out, parts[i].as_slice());
        proof {
            let part = ps.take(i + 1);
            assert(part.drop_last() == ps.take(i as int));
            assert(part.last() == parts@[i as int]@);
            if i > 0 {
                assert(joined(part, "、"@) == before + "、"@ + part.last());
                assert(head + (before + "、"@ + part.last()) == head + before + "、"@ + part.last());
            } else {
                assert(part[0] == part.last());
                assert(before == Seq::<char>::empty());
                assert(head + before + part.last() == head + part.last());
            }
        }
        i += 1;
    }
    assert(ps.take(i as int) == ps);
    push_all(&mut out, to_chars("。").as_slice());
    to_text(out.as_slice())
}

/// Whether a transcript is the prompt for `prompt_terms` copied out.
pub fn is_prompt_echo(text: &str, prompt_terms: &[&str]) -> (b: bool)
    ensures
        b == is_echo(text@, strs(prompt_terms@)),
{
    let s = to_chars(text);
    let scaffold = to_chars("詞彙：");
    proof {
        lemma_position_of(s@, "詞彙："@);
    }
    if find(s.as_slice(), scaffold.as_slice()).is_some() {
        return true;
    }
    let parts = parts_of(prompt_terms);
    let ghost ps = crate::text::views(parts@);
    let separator = to_chars("、");
    let mut i: usize = 0;
    assert(ps.len() >= prompt_commands().len());
    while i + 1 < parts.len()
        invariant
            i < parts.len(),
            ps == crate::text::views(parts@),
            ps == prompt_parts(strs(prompt_terms@)),
            separator@ == "、"@,
            s@ == text@,
            !contains_text(s@, "詞彙："@),
            forall|k: int|
                0 <= k < i ==> !contains_text(s@, #[trigger] ps[k] + "、"@ + ps[k + 1]),
        decreases parts@.len() - i,
    {
        let mut pair: Vec<char> = Vec::new();
        push_all(&mut pair, parts[i].as_slice());
        push_all(&mut pair, separator.as_slice());
        push_all(&mut pair, parts[i + 1].as_slice());
        assert(pair@ == ps[i as int] + "、"@ + ps[i + 1]);
        proof {
            lemma_position_of(s@, pair@);
        }
        if find(s.as_slice(), pair.as_slice()).is_some() {
            return true;
        }
        i += 1;
    }
    false
}

/// No prompt holds more than so many terms, and what it holds comes first in the list.
pub proof fn prompts_hold_the_first_terms(terms: Seq<Seq<char>>)
    ensures
        prompt_parts(terms).len() <= ROLLING_PROMPT_TERM_CAP + prompt_commands().len(),
        terms.len() > 0 ==> prompt_parts(terms).first() == terms.first(),
{
}

/// A prompt that is copied out is always noticed.
pub proof fn prompt_is_noticed_as_echo(terms: Seq<Seq<char>>)
    ensures
        is_echo(prompt_of(terms), terms),
{
    let p = prompt_of(terms);
    let head = "詞彙："@;
    assert(p.subrange(0, head.len() as int) == head);
    assert(crate::text::occurs_at(p, head, 0));
}

// ---------------------------------------------------------------------------
// What the guards notice
// ---------------------------------------------------------------------------

/// Whatever stands three times in a row is noticed where it has at least three characters, wherever
/// in the transcript it stands.
pub proof fn three_times_in_a_row_is_a_loop(a: Seq<char>, unit: Seq<char>, b: Seq<char>)
    requires
        unit.len() >= 3,
    ensures
        is_loop(a + unit + unit + unit + b),
{
    let s = a + unit + unit + unit + b;
    let i = a.len() as int;
    let n = unit.len() as int;
    assert(s.subrange(i, i + n) =~= unit);
    assert(s.subrange(i + n, i + 2 * n) =~= unit);
    assert(s.subrange(i + 2 * n, i + 3 * n) =~= unit);
    assert(repeats_at(s, i, n));
}

/// Nothing else is taken for a loop: one that is noticed holds at least three characters three times
/// in a row.
pub proof fn only_three_times_in_a_row_is_a_loop(s: Seq<char>)
    requires
        is_loop(s),
    ensures
        exists|a: Seq<char>, unit: Seq<char>, b: Seq<char>|
            unit.len() >= 3 && s == #[trigger] (a + unit + unit + unit + b),
{
    let (i, n) = choose|i: int, n: int| n >= 3 && #[trigger] repeats_at(s, i, n);
    let a = s.take(i);
    let unit = s.subrange(i, i + n);
    let b = s.skip(i + 3 * n);
    assert(s =~= a + s.subrange(i, i + n) + s.subrange(i + n, i + 2 * n) + s.subrange(
        i + 2 * n,
        i + 3 * n,
    ) + b);
    assert(s == a + unit + unit + unit + b);
}

/// A transcript is safe exactly where both of its parts are, and one without characters is.
pub proof fn safe_transcripts_are_safe_throughout(a: Seq<char>, b: Seq<char>)
    ensures
        is_safe(a + b) <==> is_safe(a) && is_safe(b),
        is_safe(Seq::empty()),
{
    let s = a + b;
    if is_safe(s) {
        assert forall|i: int| 0 <= i < a.len() implies is_safe_char(#[trigger] a[i]) by {
            assert(s[i] == a[i]);
        }
        assert forall|i: int| 0 <= i < b.len() implies is_safe_char(#[trigger] b[i]) by {
            assert(s[a.len() + i] == b[i]);
        }
    }
    if is_safe(a) && is_safe(b) {
        assert forall|i: int| 0 <= i < s.len() implies is_safe_char(#[trigger] s[i]) by {
            if i < a.len() {
                assert(s[i] == a[i]);
            } else {
                assert(s[i] == b[i - a.len()]);
            }
        }
    }
}

/// Which characters pass: those that Chinese and English are written with do, and those of other
/// scripts do not: letters with accents, Greek, Cyrillic, Hebrew, Arabic, Indic scripts, Thai,
/// Hangul, kana, Bopomofo.
pub proof fn other_scripts_are_not_safe(c: char)
    ensures
        '\u{0}' <= c <= '\u{7f}' ==> is_safe_char(c),
        '\u{4e00}' <= c <= '\u{9fff}' ==> is_safe_char(c),
        '\u{3000}' <= c <= '\u{303f}' ==> is_safe_char(c),
        '\u{ff00}' <= c <= '\u{ffef}' ==> is_safe_char(c),
        '\u{2010}' <= c <= '\u{2027}' ==> is_safe_char(c),
        '\u{80}' <= c <= '\u{1fff}' ==> !is_safe_char(c),
        '\u{3040}' <= c <= '\u{31ff}' ==> !is_safe_char(c),
        '\u{a000}' <= c <= '\u{d7ff}' ==> !is_safe_char(c),
        '\u{e000}' <= c <= '\u{f8ff}' ==> !is_safe_char(c),
        '\u{1f000}' <= c <= '\u{1faff}' ==> !is_safe_char(c),
{
}

/// Lists of parts are joined by the separator: between two lists it stands once, and one part alone
/// has none.
pub proof fn parts_are_joined_by_the_separator(
    a: Seq<Seq<char>>,
    b: Seq<Seq<char>>,
    separator: Seq<char>,
)
    requires
        a.len() > 0,
        b.len() > 0,
    ensures
        joined(a + b, separator) == joined(a, separator) + separator + joined(b, separator),
        b.len() == 1 ==> joined(b, separator) == b[0],
    decreases b.len(),
{
    assert((a + b).last() == b.last());
    assert((a + b).drop_last() =~= a + b.drop_last());
    if b.len() == 1 {
        assert(a + b.drop_last() =~= a);
    } else {
        parts_are_joined_by_the_separator(a, b.drop_last(), separator);
        assert(joined(a, separator) + separator + joined(b.drop_last(), separator) + separator
            + b.last() =~= joined(a, separator) + separator + (joined(b.drop_last(), separator)
            + separator + b.last()));
    }
}

/// What a prompt says: the terms, up to thirty of them, then the three commands, all in one list.
pub proof fn prompts_list_terms_and_commands(terms: Seq<Seq<char>>)
    ensures
        terms.len() == 0 ==> prompt_of(terms) == "詞彙：逗點、句點、換行。"@,
        1 <= terms.len() <= 30 ==> prompt_of(terms) == "詞彙："@ + joined(terms, "、"@)
            + "、逗點、句點、換行。"@,
        terms.len() > 30 ==> prompt_of(terms) == prompt_of(terms.take(30)),
{
    let sep = "、"@;
    let commands = prompt_commands();
    reveal_strlit("逗點");
    reveal_strlit("句點");
    reveal_strlit("換行");
    reveal_strlit("、");
    reveal_strlit("。");
    reveal_strlit("詞彙：");
    reveal_strlit("詞彙：逗點、句點、換行。");
    reveal_strlit("、逗點、句點、換行。");
    assert(commands.drop_last() =~= seq!["逗點"@, "句點"@]);
    assert(commands.drop_last().drop_last() =~= seq!["逗點"@]);
    let listed = "逗點"@ + sep + "句點"@ + sep + "換行"@;
    assert(joined(commands, sep) =~= listed) by {
        assert(joined(seq!["逗點"@], sep) == "逗點"@);
        assert(joined(commands.drop_last(), sep) == "逗點"@ + sep + "句點"@);
    }
    if terms.len() == 0 {
        assert(prompt_parts(terms) =~= commands);
        assert(prompt_of(terms) =~= "詞彙：逗點、句點、換行。"@);
    } else if terms.len() <= 30 {
        parts_are_joined_by_the_separator(terms, commands, sep);
        assert(sep + listed + "。"@ =~= "、逗點、句點、換行。"@);
        assert(prompt_of(terms) =~= "詞彙："@ + joined(terms, sep) + (sep + listed + "。"@));
    } else {
        assert(prompt_parts(terms.take(30)) =~= prompt_parts(terms));
    }
}

/// What is no echo: a transcript that neither starts like a prompt anywhere nor holds the prompt's
/// separator, whatever terms it holds.
pub proof fn transcripts_without_the_separator_are_no_echo(s: Seq<char>, terms: Seq<Seq<char>>)
    requires
        !contains_text(s, "詞彙："@),
        !contains_text(s, "、"@),
    ensures
        !is_echo(s, terms),
{
    let parts = prompt_parts(terms);
    assert forall|i: int| 0 <= i < parts.len() - 1 implies !contains_text(
        s,
        #[trigger] parts[i] + "、"@ + parts[i + 1],
    ) by {
        let pair = parts[i] + "、"@ + parts[i + 1];
        if contains_text(s, pair) {
            let at = choose|at: int| crate::text::occurs_at(s, pair, at);
            let from = at + parts[i].len();
            let n = "、"@.len();
            assert(s.subrange(from, from + n) =~= s.subrange(at, at + pair.len()).subrange(
                parts[i].len() as int,
                (parts[i].len() + n) as int,
            ));
            assert(pair.subrange(parts[i].len() as int, (parts[i].len() + n) as int) =~= "、"@);
            assert(crate::text::occurs_at(s, "、"@, from));
        }
    }
}

/// What is an echo: a transcript that holds two neighbours of the prompt's list, with the separator
/// between them, wherever they stand in it. The last of the terms has the first command behind it.
pub proof fn two_neighbours_of_the_prompt_are_an_echo(
    a: Seq<char>,
    b: Seq<char>,
    terms: Seq<Seq<char>>,
    i: int,
)
    requires
        0 <= i < terms.len() <= 30,
    ensures
        is_echo(
            a + terms[i] + "、"@ + (if i + 1 < terms.len() {
                terms[i + 1]
            } else {
                "逗點"@
            }) + b,
            terms,
        ),
{
    let parts = prompt_parts(terms);
    let next = if i + 1 < terms.len() {
        terms[i + 1]
    } else {
        "逗點"@
    };
    assert(parts[i] == terms[i]);
    assert(parts[i + 1] == next);
    let s = a + terms[i] + "、"@ + next + b;
    let pair = parts[i] + "、"@ + parts[i + 1];
    let at = a.len() as int;
    assert(s.subrange(at, at + pair.len()) =~= pair);
    assert(crate::text::occurs_at(s, pair, at));
}

} // verus!
