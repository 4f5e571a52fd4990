//! Dictation commands.
//!
//! A transcriber writes spoken commands such as 逗點 (comma) or 換行 (new line) out as words,
//! often misheard, and often with punctuation of its own beside them. Normalising turns the words
//! into what they command. Punctuation that was commanded is kept apart from the transcriber's
//! own until the end: while the text is worked on, a command is a private-use character.

use vstd::prelude::*;
use crate::text::{push_all, replace, to_chars, to_text};
use crate::text::{
    contains_text, lemma_occurs_shift, lemma_replaced_absent, occurs_at, replaced,
};

verus! {

/// Stands for a commanded line break while a text is worked on.
pub const NEWLINE_MASK: char = '\u{E000}';

/// Stands for a commanded comma while a text is worked on.
pub const COMMA_MASK: char = '\u{E001}';

/// Stands for a commanded full stop while a text is worked on.
pub const STOP_MASK: char = '\u{E002}';

/// Stands for a commanded question mark while a text is worked on.
pub const QUESTION_MASK: char = '\u{E003}';

/// Stands for a commanded exclamation mark while a text is worked on.
pub const EXCLAMATION_MASK: char = '\u{E004}';

/// Stands for a commanded colon while a text is worked on.
pub const COLON_MASK: char = '\u{E005}';

/// Stands for a commanded semicolon while a text is worked on.
pub const SEMICOLON_MASK: char = '\u{E006}';

/// Stands for a commanded enumeration comma while a text is worked on.
pub const PAUSE_MASK: char = '\u{E007}';

/// The spoken words and their usual mishearings, with what each of them stands for, in the order
/// in which they are looked for.
pub open spec fn command_table() -> Seq<(Seq<char>, char)> {
    seq![
        ("逗點"@, COMMA_MASK),
        ("逗號"@, COMMA_MASK),
        ("鬥點"@, COMMA_MASK),
        ("鬥號"@, COMMA_MASK),
        ("豆點"@, COMMA_MASK),
        ("豆號"@, COMMA_MASK),
        ("都點"@, COMMA_MASK),
        ("抖點"@, COMMA_MASK),
        ("逗典"@, COMMA_MASK),
        ("兜點"@, COMMA_MASK),
        ("句點"@, STOP_MASK),
        ("句號"@, STOP_MASK),
        ("聚點"@, STOP_MASK),
        ("聚號"@, STOP_MASK),
        ("據點"@, STOP_MASK),
        ("巨點"@, STOP_MASK),
        ("問號"@, QUESTION_MASK),
        ("驚嘆號"@, EXCLAMATION_MASK),
        ("感嘆號"@, EXCLAMATION_MASK),
        ("京嘆號"@, EXCLAMATION_MASK),
        ("趕嘆號"@, EXCLAMATION_MASK),
        ("冒號"@, COLON_MASK),
        ("分號"@, SEMICOLON_MASK),
        ("份號"@, SEMICOLON_MASK),
        ("頓號"@, PAUSE_MASK),
        ("換行"@, NEWLINE_MASK),
        ("新一行"@, NEWLINE_MASK),
        ("新行"@, NEWLINE_MASK),
        ("喚行"@, NEWLINE_MASK),
        ("緩行"@, NEWLINE_MASK),
        ("荒航"@, NEWLINE_MASK),
        ("換航"@, NEWLINE_MASK),
    ]
}

fn commands() -> (table: Vec<(&'static str, char)>)
    ensures
        table@.map_values(|e: (&str, char)| (e.0@, e.1)) == command_table(),
{
    let table: Vec<(&'static str, char)> = vec![
        ("逗點", COMMA_MASK),
        ("逗號", COMMA_MASK),
        ("鬥點", COMMA_MASK),
        ("鬥號", COMMA_MASK),
        ("豆點", COMMA_MASK),
        ("豆號", COMMA_MASK),
        ("都點", COMMA_MASK),
        ("抖點", COMMA_MASK),
        ("逗典", COMMA_MASK),
        ("兜點", COMMA_MASK),
        ("句點", STOP_MASK),
        ("句號", STOP_MASK),
        ("聚點", STOP_MASK),
        ("聚號", STOP_MASK),
        ("據點", STOP_MASK),
        ("巨點", STOP_MASK),
        ("問號", QUESTION_MASK),
        ("驚嘆號", EXCLAMATION_MASK),
        ("感嘆號", EXCLAMATION_MASK),
        ("京嘆號", EXCLAMATION_MASK),
        ("趕嘆號", EXCLAMATION_MASK),
        ("冒號", COLON_MASK),
        ("分號", SEMICOLON_MASK),
        ("份號", SEMICOLON_MASK),
        ("頓號", PAUSE_MASK),
        ("換行", NEWLINE_MASK),
        ("新一行", NEWLINE_MASK),
        ("新行", NEWLINE_MASK),
        ("喚行", NEWLINE_MASK),
        ("緩行", NEWLINE_MASK),
        ("荒航", NEWLINE_MASK),
        ("換航", NEWLINE_MASK),
    ];
    assert(table@.map_values(|e: (&str, char)| (e.0@, e.1)) =~= command_table());
    table
}

/// `s` with every word of `table` replaced by what it stands for, one word after the other.
pub open spec fn masked(s: Seq<char>, table: Seq<(Seq<char>, char)>) -> Seq<char>
    decreases table.len(),
{
    if table.len() == 0 {
        s
    } else {
        replaced(masked(s, table.drop_last()), table.last().0, seq![table.last().1])
    }
}

fn mask(s: &[char]) -> (out: Vec<char>)
    ensures
        out@ == masked(s@, command_table()),
{
    let table = commands();
    let ghost t = command_table();
    let mut out: Vec<char> = Vec::new();
    push_all(&mut out, s);
    let mut i: usize = 0;
    assert(t.take(0) == Seq::<(Seq<char>, char)>::empty());
    while i < table.len()
        invariant
            i <= table@.len(),
            t == table@.map_values(|e: (&str, char)| (e.0@, e.1)),
            out@ == masked(s@, t.take(i as int)),
        decreases table@.len() - i,
    {
        let (word, stand_in) = table[i];
        let mut with: Vec<char> = Vec::new();
        with.push(stand_in);
        assert(with@ == seq![stand_in]);
        out = replace(out.as_slice(), to_chars(word).as_slice(), with.as_slice());
        i += 1;
        assert(t.take(i as int).drop_last() == t.take(i - 1));
        assert(t.take(i as int).last() == t[i - 1]);
        assert(t[i - 1] == (table@[i - 1].0@, table@[i - 1].1));
    }
    assert(t.take(i as int) == t);
    out
}

// ---------------------------------------------------------------------------
// Repeated punctuation
// ---------------------------------------------------------------------------

/// The kind of a punctuation mark, named by its full-width form.
pub open spec fn kind(c: char) -> Option<char> {
    if c == ',' || c == '，' {
        Some('，')
    } else if c == '.' || c == '。' {
        Some('。')
    } else if c == '?' || c == '？' {
        Some('？')
    } else if c == '!' || c == '！' {
        Some('！')
    } else if c == ':' || c == '：' {
        Some('：')
    } else if c == ';' || c == '；' {
        Some('；')
    } else if c == '、' {
        Some('、')
    } else {
        None
    }
}

pub open spec fn same_kind(a: char, b: char) -> bool {
    kind(a) is Some && kind(a) == kind(b)
}

/// Marks of one kind that stand side by side, half- or full-width, become one full-width mark.
pub open spec fn collapsed(s: Seq<char>) -> Seq<char>
    decreases s.len(),
{
    if s.len() == 0 {
        s
    } else {
        let init = collapsed(s.drop_last());
        let c = s.last();
        if init.len() > 0 && same_kind(init.last(), c) {
            init.drop_last().push(kind(c)->0)
        } else {
            init.push(c)
        }
    }
}

/// No two marks of one kind stand side by side in `s`.
pub open spec fn no_repeats(s: Seq<char>) -> bool {
    forall|i: int| 0 < i < s.len() ==> !same_kind(s[i - 1], #[trigger] s[i])
}

fn kind_of(c: char) -> (k: Option<char>)
    ensures
        k == kind(c),
{
    if c == ',' || c == '，' {
        Some('，')
    } else if c == '.' || c == '。' {
        Some('。')
    } else if c == '?' || c == '？' {
        Some('？')
    } else if c == '!' || c == '！' {
        Some('！')
    } else if c == ':' || c == '：' {
        Some('：')
    } else if c == ';' || c == '；' {
        Some('；')
    } else if c == '、' {
        Some('、')
    } else {
        None
    }
}

/// Puts one full-width mark in place of marks of one kind that stand side by side.
pub fn collapse_same_kind(s: &[char]) -> (out: Vec<char>)
    ensures
        out@ == collapsed(s@),
{
    let mut out: Vec<char> = Vec::new();
    let mut i: usize = 0;
    while i < s.len()
        invariant
            i <= s@.len(),
            out@ == collapsed(s@.take(i as int)),
        decreases s@.len() - i,
    {
        let c = s[i];
        let ghost before = out@;
        i += 1;
        assert(s@.take(i as int).drop_last() == s@.take(i - 1));
        assert(s@.take(i as int).last() == c);
        let mut repeats: bool = false;
        let n: usize = out.len();
        if n > 0 {
            match (kind_of(out[n - 1]), kind_of(c)) {
                (Some(a), Some(b)) => {
                    repeats = a == b;
                },
                _ => {},
            }
        }
        assert(repeats == (before.len() > 0 && same_kind(before.last(), c)));
        if repeats {
            out.pop();
            match kind_of(c) {
                Some(k) => {
                    out.push(k);
                },
                None => {},
            }
        } else {
            out.push(c);
        }
    }
    assert(s@.take(i as int) == s@);
    out
}

/// After collapsing, no two marks of one kind stand side by side.
pub proof fn collapsing_leaves_no_repeats(s: Seq<char>)
    ensures
        no_repeats(collapsed(s)),
    decreases s.len(),
{
    if s.len() > 0 {
        collapsing_leaves_no_repeats(s.drop_last());
        let init = collapsed(s.drop_last());
        let c = s.last();
        let r = collapsed(s);
        assert forall|i: int| 0 < i < r.len() implies !same_kind(r[i - 1], #[trigger] r[i]) by {
            if i < init.len() {
                assert(!same_kind(init[i - 1], init[i]));
            }
        }
    }
}

/// A text without repeated marks is left as it is.
pub proof fn collapsing_keeps_what_does_not_repeat(s: Seq<char>)
    requires
        no_repeats(s),
    ensures
        collapsed(s) == s,
    decreases s.len(),
{
    if s.len() > 0 {
        let init = s.drop_last();
        assert forall|i: int| 0 < i < init.len() implies !same_kind(
            init[i - 1],
            #[trigger] init[i],
        ) by {
            assert(!same_kind(s[i - 1], s[i]));
        }
        collapsing_keeps_what_does_not_repeat(init);
        if init.len() > 0 {
            assert(!same_kind(s[s.len() - 2], s[s.len() - 1]));
        }
        assert(init.push(s.last()) == s);
    }
}

/// Collapsing twice is collapsing once.
pub proof fn collapsing_is_idempotent(s: Seq<char>)
    ensures
        collapsed(collapsed(s)) == collapsed(s),
{
    collapsing_leaves_no_repeats(s);
    collapsing_keeps_what_does_not_repeat(collapsed(s));
}

// ---------------------------------------------------------------------------
// What stands beside a commanded line break
// ---------------------------------------------------------------------------

/// The private-use characters that stand for commands.
pub open spec fn is_mask(c: char) -> bool {
    NEWLINE_MASK <= c <= PAUSE_MASK
}

/// `s` without the spaces at its end.
pub open spec fn drop_end_spaces(s: Seq<char>) -> Seq<char>
    decreases s.len(),
{
    if s.len() > 0 && s.last() == ' ' {
        drop_end_spaces(s.drop_last())
    } else {
        s
    }
}

/// `s` without the spaces at its start.
pub open spec fn drop_start_spaces(s: Seq<char>) -> Seq<char>
    decreases s.len(),
{
    if s.len() > 0 && s.first() == ' ' {
        drop_start_spaces(s.drop_first())
    } else {
        s
    }
}

/// What stays of the text before a commanded line break: its spaces go, and so does a mark that
/// stands at the very start or right after another command. A mark after a word stays.
pub open spec fn kept_before(s: Seq<char>) -> Seq<char> {
    let a = drop_end_spaces(s);
    if a.len() > 0 && kind(a.last()) is Some && (a.len() == 1 || is_mask(a[a.len() - 2])) {
        drop_end_spaces(a.drop_last())
    } else {
        a
    }
}

/// What stays of the text after a commanded line break: its spaces go, and so does one mark.
pub open spec fn kept_after(s: Seq<char>) -> Seq<char> {
    let a = drop_start_spaces(s);
    if a.len() > 0 && kind(a.first()) is Some {
        drop_start_spaces(a.drop_first())
    } else {
        a
    }
}

pub proof fn lemma_drop_start_spaces(s: Seq<char>)
    ensures
        drop_start_spaces(s).len() <= s.len(),
        drop_start_spaces(s) == s.skip(s.len() - drop_start_spaces(s).len()),
    decreases s.len(),
{
    if s.len() > 0 && s.first() == ' ' {
        lemma_drop_start_spaces(s.drop_first());
        assert(s.drop_first().skip(
            s.drop_first().len() - drop_start_spaces(s.drop_first()).len(),
        ) == s.skip(s.len() - drop_start_spaces(s).len()));
    } else {
        assert(s.skip(0) == s);
    }
}

pub proof fn lemma_kept_after(s: Seq<char>)
    ensures
        kept_after(s).len() <= s.len(),
{
    let a = drop_start_spaces(s);
    lemma_drop_start_spaces(s);
    if a.len() > 0 {
        lemma_drop_start_spaces(a.drop_first());
    }
}

/// `rest`, worked on from the left and added to `done`: at each commanded line break, what the
/// transcriber left on either side of it goes.
pub open spec fn absorb(done: Seq<char>, rest: Seq<char>) -> Seq<char>
    decreases rest.len(),
{
    if rest.len() == 0 {
        done
    } else if rest.first() == NEWLINE_MASK {
        proof {
            lemma_kept_after(rest.drop_first());
        }
        absorb(kept_before(done).push(NEWLINE_MASK), kept_after(rest.drop_first()))
    } else {
        absorb(done.push(rest.first()), rest.drop_first())
    }
}

/// `s` without what the transcriber left beside each commanded line break.
pub open spec fn absorbed(s: Seq<char>) -> Seq<char> {
    absorb(Seq::empty(), s)
}

/// Removes the spaces at the end of `out`.
fn pop_spaces(out: &mut Vec<char>)
    ensures
        final(out)@ == drop_end_spaces(old(out)@),
{
    while out.len() > 0 && out[out.len() - 1] == ' '
        invariant
            drop_end_spaces(old(out)@) == drop_end_spaces(out@),
        decreases out@.len(),
    {
        out.pop();
    }
}

/// The first index from `i` on at which `s` holds no space.
fn skip_spaces(s: &[char], i: usize) -> (j: usize)
    requires
        i <= s@.len(),
    ensures
        i <= j <= s@.len(),
        s@.skip(j as int) == drop_start_spaces(s@.skip(i as int)),
{
    let mut j: usize = i;
    while j < s.len() && s[j] == ' '
        invariant
            i <= j <= s@.len(),
            drop_start_spaces(s@.skip(i as int)) == drop_start_spaces(s@.skip(j as int)),
        decreases s@.len() - j,
    {
        assert(s@.skip(j as int).drop_first() == s@.skip(j + 1));
        j += 1;
    }
    j
}

fn is_command(c: char) -> (b: bool)
    ensures
        b == is_mask(c),
{
    NEWLINE_MASK <= c && c <= PAUSE_MASK
}

/// Removes, beside each commanded line break, the spaces on both sides, one mark after it, and a
/// mark before it that stands at the start or right after another command.
pub fn absorb_around_newlines(s: &[char]) -> (out: Vec<char>)
    ensures
        out@ == absorbed(s@),
{
    let mut out: Vec<char> = Vec::new();
    let mut i: usize = 0;
    assert(s@.skip(0) == s@);
    while i < s.len()
        invariant
            i <= s@.len(),
            absorbed(s@) == absorb(out@, s@.skip(i as int)),
        decreases s@.len() - i,
    {
        let c = s[i];
        let ghost rest = s@.skip(i as int);
        assert(rest.drop_first() == s@.skip(i + 1));
        if c == NEWLINE_MASK {
            let ghost before = out@;
            pop_spaces(&mut out);
            let ghost a = out@;
            let n: usize = out.len();
            if n > 0 && kind_of(out[n - 1]).is_some() && (n == 1 || is_command(out[n - 2])) {
                out.pop();
                pop_spaces(&mut out);
            }
            assert(out@ == kept_before(before));
            out.push(NEWLINE_MASK);
            let mut j: usize = skip_spaces(s, i + 1);
            let ghost b = s@.skip(j as int);
            if j < s.len() && kind_of(s[j]).is_some() {
                assert(b.drop_first() == s@.skip(j + 1));
                j = skip_spaces(s, j + 1);
            }
            assert(s@.skip(j as int) == kept_after(rest.drop_first()));
            i = j;
        } else {
            out.push(c);
            i += 1;
        }
    }
    out
}

/// What no line break takes away: everything but spaces and punctuation marks.
pub open spec fn lasting(s: Seq<char>) -> Seq<char>
    decreases s.len(),
{
    if s.len() == 0 {
        s
    } else if s.last() == ' ' || kind(s.last()) is Some {
        lasting(s.drop_last())
    } else {
        lasting(s.drop_last()).push(s.last())
    }
}

proof fn lemma_lasting_add(a: Seq<char>, b: Seq<char>)
    ensures
        lasting(a + b) == lasting(a) + lasting(b),
    decreases b.len(),
{
    if b.len() == 0 {
        assert(a + b == a);
        assert(lasting(a) + lasting(b) == lasting(a));
    } else {
        lemma_lasting_add(a, b.drop_last());
        assert((a + b).drop_last() == a + b.drop_last());
        assert(lasting(a + b) == lasting(a) + lasting(b));
    }
}

proof fn lemma_lasting_prepend(c: char, s: Seq<char>)
    ensures
        lasting(seq![c] + s) == if c == ' ' || kind(c) is Some {
            lasting(s)
        } else {
            seq![c] + lasting(s)
        },
{
    lemma_lasting_add(seq![c], s);
    assert(seq![c].drop_last() == Seq::<char>::empty());
    assert(lasting(seq![c].drop_last()) == Seq::<char>::empty());
    assert(lasting(seq![c]) == if c == ' ' || kind(c) is Some {
        Seq::<char>::empty()
    } else {
        seq![c]
    });
    assert(Seq::<char>::empty() + lasting(s) == lasting(s));
}

proof fn lemma_lasting_end(s: Seq<char>)
    ensures
        lasting(drop_end_spaces(s)) == lasting(s),
    decreases s.len(),
{
    if s.len() > 0 && s.last() == ' ' {
        lemma_lasting_end(s.drop_last());
    }
}

proof fn lemma_lasting_start(s: Seq<char>)
    ensures
        lasting(drop_start_spaces(s)) == lasting(s),
    decreases s.len(),
{
    if s.len() > 0 && s.first() == ' ' {
        lemma_lasting_start(s.drop_first());
        assert(seq![s.first()] + s.drop_first() == s);
        lemma_lasting_prepend(s.first(), s.drop_first());
    }
}

proof fn lemma_lasting_kept(s: Seq<char>)
    ensures
        lasting(kept_before(s)) == lasting(s),
        lasting(kept_after(s)) == lasting(s),
{
    let a = drop_end_spaces(s);
    lemma_lasting_end(s);
    if a.len() > 0 {
        lemma_lasting_end(a.drop_last());
    }
    let b = drop_start_spaces(s);
    lemma_lasting_start(s);
    if b.len() > 0 {
        lemma_lasting_start(b.drop_first());
        assert(seq![b.first()] + b.drop_first() == b);
        lemma_lasting_prepend(b.first(), b.drop_first());
    }
}

proof fn lemma_lasting_absorb(done: Seq<char>, rest: Seq<char>)
    ensures
        lasting(absorb(done, rest)) == lasting(done) + lasting(rest),
    decreases rest.len(),
{
    if rest.len() == 0 {
        assert(lasting(done) + lasting(rest) == lasting(done));
    } else {
        let c = rest.first();
        let tail = rest.drop_first();
        assert(seq![c] + tail == rest);
        lemma_lasting_prepend(c, tail);
        if c == NEWLINE_MASK {
            lemma_kept_after(tail);
            lemma_lasting_kept(done);
            lemma_lasting_kept(tail);
            let d = kept_before(done).push(c);
            lemma_lasting_absorb(d, kept_after(tail));
            assert(d.drop_last() == kept_before(done));
            assert(lasting(d) == lasting(done).push(c));
            assert(lasting(done).push(c) + lasting(tail) == lasting(done) + (seq![c] + lasting(
                tail,
            )));
        } else {
            let d = done.push(c);
            lemma_lasting_absorb(d, tail);
            assert(d.drop_last() == done);
            assert(lasting(done).push(c) + lasting(tail) == lasting(done) + (seq![c] + lasting(
                tail,
            )));
        }
    }
}

/// A line break takes nothing but spaces and the transcriber's punctuation: words, and the
/// stand-ins of commands, all stay, in their order.
pub proof fn absorbing_keeps_words_and_commands(s: Seq<char>)
    ensures
        lasting(absorbed(s)) == lasting(s),
{
    lemma_lasting_absorb(Seq::empty(), s);
    assert(Seq::<char>::empty() + lasting(s) == lasting(s));
}

proof fn lemma_absorb_without_breaks(done: Seq<char>, rest: Seq<char>)
    requires
        !rest.contains(NEWLINE_MASK),
    ensures
        absorb(done, rest) == done + rest,
    decreases rest.len(),
{
    if rest.len() == 0 {
        assert(done + rest == done);
    } else {
        let c = rest.first();
        let tail = rest.drop_first();
        assert(rest.contains(c));
        assert(!tail.contains(NEWLINE_MASK)) by {
            if tail.contains(NEWLINE_MASK) {
                let i = choose|i: int| 0 <= i < tail.len() && tail[i] == NEWLINE_MASK;
                assert(rest[i + 1] == NEWLINE_MASK);
            }
        }
        lemma_absorb_without_breaks(done.push(c), tail);
        assert(done.push(c) + tail == done + rest);
    }
}

// ---------------------------------------------------------------------------
// The whole
// ---------------------------------------------------------------------------

/// What the stand-in of a command becomes in the end; any other character stays.
pub open spec fn unmasked(c: char) -> char {
    if c == NEWLINE_MASK {
        '\n'
    } else if c == COMMA_MASK {
        '，'
    } else if c == STOP_MASK {
        '。'
    } else if c == QUESTION_MASK {
        '？'
    } else if c == EXCLAMATION_MASK {
        '！'
    } else if c == COLON_MASK {
        '：'
    } else if c == SEMICOLON_MASK {
        '；'
    } else if c == PAUSE_MASK {
        '、'
    } else {
        c
    }
}

/// A full-width mark.
pub open spec fn is_full_mark(c: char) -> bool {
    kind(c) == Some(c)
}

/// `s` without the spaces right before a full-width mark.
pub open spec fn tidied(s: Seq<char>) -> Seq<char>
    decreases s.len(),
{
    if s.len() == 0 {
        s
    } else {
        let rest = tidied(s.drop_first());
        if s.first() == ' ' && rest.len() > 0 && is_full_mark(rest.first()) {
            rest
        } else {
            seq![s.first()] + rest
        }
    }
}

proof fn lemma_collapsed_len(s: Seq<char>)
    ensures
        collapsed(s).len() <= s.len(),
        collapsed(s).len() == s.len() ==> collapsed(s) == s,
    decreases s.len(),
{
    if s.len() > 0 {
        lemma_collapsed_len(s.drop_last());
        assert(s.drop_last().push(s.last()) == s);
    }
}

proof fn lemma_tidied_len(s: Seq<char>)
    ensures
        tidied(s).len() <= s.len(),
        tidied(s).len() == s.len() ==> tidied(s) == s,
    decreases s.len(),
{
    if s.len() > 0 {
        lemma_tidied_len(s.drop_first());
        assert(seq![s.first()] + s.drop_first() == s);
    }
}

/// Repeated marks collapse and spaces before full-width marks go, again and again until nothing
/// changes: where a space goes, marks can come to stand side by side.
pub open spec fn settled(s: Seq<char>) -> Seq<char>
    decreases s.len(),
{
    let t = tidied(collapsed(s));
    if t.len() < s.len() {
        settled(t)
    } else {
        t
    }
}

/// What normalising gives: command words are masked, the transcriber's repeated marks collapse,
/// what it left beside commanded line breaks goes, commands become what they command, and marks
/// that now repeat and spaces before full-width marks go.
pub open spec fn normalized(s: Seq<char>) -> Seq<char> {
    settled(absorbed(collapsed(masked(s, command_table()))).map_values(|c: char| unmasked(c)))
}

fn unmask(c: char) -> (u: char)
    ensures
        u == unmasked(c),
{
    if c == NEWLINE_MASK {
        '\n'
    } else if c == COMMA_MASK {
        '，'
    } else if c == STOP_MASK {
        '。'
    } else if c == QUESTION_MASK {
        '？'
    } else if c == EXCLAMATION_MASK {
        '！'
    } else if c == COLON_MASK {
        '：'
    } else if c == SEMICOLON_MASK {
        '；'
    } else if c == PAUSE_MASK {
        '、'
    } else {
        c
    }
}

fn unmask_all(s: &[char]) -> (out: Vec<char>)
    ensures
        out@ == s@.map_values(|c: char| unmasked(c)),
{
    let mut out: Vec<char> = Vec::new();
    let mut i: usize = 0;
    while i < s.len()
        invariant
            i <= s@.len(),
            out@.len() == i,
            forall|k: int| 0 <= k < i ==> #[trigger] out@[k] == unmasked(s@[k]),
        decreases s@.len() - i,
    {
        out.push(unmask(s[i]));
        i += 1;
    }
    assert(out@ =~= s@.map_values(|c: char| unmasked(c)));
    out
}

/// Whether a full-width mark is the first character from `i` on that is no space.
fn mark_follows(s: &[char], i: usize) -> (b: bool)
    requires
        i <= s@.len(),
    ensures
        b == (tidied(s@.skip(i as int)).len() > 0 && is_full_mark(tidied(s@.skip(i as int)).first())),
{
    let ghost at = s@.skip(i as int);
    proof {
        lemma_tidied_first(at);
    }
    let j: usize = skip_spaces(s, i);
    if j < s.len() {
        let c = s[j];
        assert(drop_start_spaces(at).first() == c);
        match kind_of(c) {
            Some(k) => k == c,
            None => false,
        }
    } else {
        assert(drop_start_spaces(at).len() == 0);
        false
    }
}

/// A tidied text starts with a full-width mark exactly where the first character that is no space
/// is one.
proof fn lemma_tidied_first(s: Seq<char>)
    ensures
        (tidied(s).len() > 0 && is_full_mark(tidied(s).first())) == (drop_start_spaces(s).len() > 0
            && is_full_mark(drop_start_spaces(s).first())),
    decreases s.len(),
{
    if s.len() > 0 {
        lemma_tidied_first(s.drop_first());
        if s.first() == ' ' {
            assert(!is_full_mark(' '));
        }
    }
}

/// Removes the spaces right before full-width marks.
fn tidy(s: &[char]) -> (out: Vec<char>)
    ensures
        out@ == tidied(s@),
{
    let mut out: Vec<char> = Vec::new();
    let mut i: usize = 0;
    assert(s@.skip(0) == s@);
    while i < s.len()
        invariant
            i <= s@.len(),
            tidied(s@) == out@ + tidied(s@.skip(i as int)),
        decreases s@.len() - i,
    {
        let c = s[i];
        let ghost rest = s@.skip(i as int);
        let ghost before = out@;
        assert(rest.drop_first() == s@.skip(i + 1));
        if !(c == ' ' && mark_follows(s, i + 1)) {
            out.push(c);
            assert(before + (seq![c] + tidied(s@.skip(i + 1))) == out@ + tidied(s@.skip(i + 1)));
        }
        i += 1;
    }
    assert(s@.skip(i as int) == Seq::<char>::empty());
    assert(out@ + Seq::<char>::empty() == out@);
    out
}

/// Collapses repeated marks and removes spaces before full-width marks until nothing changes.
fn settle(s: &[char]) -> (out: Vec<char>)
    ensures
        out@ == settled(s@),
{
    let mut before: usize = s.len();
    let mut out = tidy(collapse_same_kind(s).as_slice());
    while out.len() < before
        invariant
            settled(s@) == if out@.len() < before {
                settled(out@)
            } else {
                out@
            },
        decreases before,
    {
        before = out.len();
        out = tidy(collapse_same_kind(out.as_slice()).as_slice());
    }
    out
}

/// Turns dictation commands that the transcriber wrote out as words into what they command, and
/// cleans up the punctuation around them.
pub fn normalize_dictation_commands(text: &str) -> (out: String)
    ensures
        out@ == normalized(text@),
{
    let a = mask(to_chars(text).as_slice());
    let b = collapse_same_kind(a.as_slice());
    let c = absorb_around_newlines(b.as_slice());
    let d = unmask_all(c.as_slice());
    let e = settle(d.as_slice());
    to_text(e.as_slice())
}

// ---------------------------------------------------------------------------
// What normalising promises
// ---------------------------------------------------------------------------

/// No space stands right before a full-width mark in `s`.
pub open spec fn no_space_before_mark(s: Seq<char>) -> bool {
    forall|i: int| 0 < i < s.len() && is_full_mark(#[trigger] s[i]) ==> s[i - 1] != ' '
}

/// No stand-in of a command is left in `s`.
pub open spec fn no_masks(s: Seq<char>) -> bool {
    forall|i: int| 0 <= i < s.len() ==> !is_mask(#[trigger] s[i])
}

proof fn lemma_collapsed_no_masks(s: Seq<char>)
    requires
        no_masks(s),
    ensures
        no_masks(collapsed(s)),
    decreases s.len(),
{
    if s.len() > 0 {
        let init = s.drop_last();
        assert forall|i: int| 0 <= i < init.len() implies !is_mask(#[trigger] init[i]) by {
            assert(init[i] == s[i]);
        }
        lemma_collapsed_no_masks(init);
        assert(!is_mask(s[s.len() - 1]));
    }
}

proof fn lemma_tidied_no_masks(s: Seq<char>)
    requires
        no_masks(s),
    ensures
        no_masks(tidied(s)),
    decreases s.len(),
{
    if s.len() > 0 {
        let tail = s.drop_first();
        assert forall|i: int| 0 <= i < tail.len() implies !is_mask(#[trigger] tail[i]) by {
            assert(tail[i] == s[i + 1]);
        }
        lemma_tidied_no_masks(tail);
        assert(!is_mask(s[0]));
        let t = tidied(s);
        let rest = tidied(tail);
        assert forall|i: int| 0 <= i < t.len() implies !is_mask(#[trigger] t[i]) by {
            if t.len() > rest.len() && i > 0 {
                assert(t[i] == rest[i - 1]);
            }
        }
    }
}

proof fn lemma_settled_no_masks(s: Seq<char>)
    requires
        no_masks(s),
    ensures
        no_masks(settled(s)),
    decreases s.len(),
{
    lemma_collapsed_no_masks(s);
    lemma_tidied_no_masks(collapsed(s));
    let t = tidied(collapsed(s));
    if t.len() < s.len() {
        lemma_settled_no_masks(t);
    }
}

/// No private-use stand-in of a command is ever left in a normalised text.
pub proof fn normalizing_leaves_no_stand_ins(s: Seq<char>)
    ensures
        no_masks(normalized(s)),
{
    let a = absorbed(collapsed(masked(s, command_table()))).map_values(|c: char| unmasked(c));
    assert(no_masks(a));
    lemma_settled_no_masks(a);
}

proof fn lemma_tidied_spacing(s: Seq<char>)
    ensures
        no_space_before_mark(tidied(s)),
    decreases s.len(),
{
    if s.len() > 0 {
        lemma_tidied_spacing(s.drop_first());
        let rest = tidied(s.drop_first());
        let t = tidied(s);
        assert forall|i: int| 0 < i < t.len() && is_full_mark(#[trigger] t[i]) implies t[i - 1]
            != ' ' by {
            if t.len() > rest.len() {
                assert(t[i] == rest[i - 1]);
                if i > 1 {
                    assert(t[i - 1] == rest[i - 2]);
                }
            }
        }
    }
}

proof fn lemma_settled(s: Seq<char>)
    ensures
        no_repeats(settled(s)),
        no_space_before_mark(settled(s)),
    decreases s.len(),
{
    let t = tidied(collapsed(s));
    if t.len() < s.len() {
        lemma_settled(t);
    } else {
        lemma_collapsed_len(s);
        lemma_tidied_len(collapsed(s));
        collapsing_leaves_no_repeats(s);
        lemma_tidied_spacing(collapsed(s));
    }
}

/// No two marks of one kind are ever left side by side: a mark that was commanded and one of the
/// transcriber's own become one.
pub proof fn normalizing_leaves_no_repeats(s: Seq<char>)
    ensures
        no_repeats(normalized(s)),
{
    lemma_settled(
        absorbed(collapsed(masked(s, command_table()))).map_values(|c: char| unmasked(c)),
    );
}

/// No space is ever left right before a full-width mark.
pub proof fn normalizing_leaves_no_space_before_marks(s: Seq<char>)
    ensures
        no_space_before_mark(normalized(s)),
{
    lemma_settled(
        absorbed(collapsed(masked(s, command_table()))).map_values(|c: char| unmasked(c)),
    );
}

proof fn lemma_tidied_keeps(s: Seq<char>)
    requires
        no_space_before_mark(s),
    ensures
        tidied(s) == s,
    decreases s.len(),
{
    if s.len() > 0 {
        let tail = s.drop_first();
        assert forall|i: int| 0 < i < tail.len() && is_full_mark(#[trigger] tail[i]) implies tail[i
            - 1] != ' ' by {
            assert(is_full_mark(s[i + 1]));
        }
        lemma_tidied_keeps(tail);
        if tail.len() > 0 {
            assert(tail.first() == s[1]);
        }
        assert(seq![s.first()] + tail == s);
    }
}

proof fn lemma_masked_absent(s: Seq<char>, table: Seq<(Seq<char>, char)>)
    requires
        forall|i: int| 0 <= i < table.len() ==> !contains_text(s, (#[trigger] table[i]).0),
    ensures
        masked(s, table) == s,
    decreases table.len(),
{
    if table.len() > 0 {
        let init = table.drop_last();
        assert forall|i: int| 0 <= i < init.len() implies !contains_text(s, (#[trigger] init[i]).0) by {
            assert(init[i] == table[i]);
        }
        lemma_masked_absent(s, init);
        assert(!contains_text(s, table[table.len() - 1].0));
        lemma_replaced_absent(s, table.last().0, seq![table.last().1]);
    }
}

// None of the steps brings a word into being that holds neither marks nor stand-ins: where such a
// word stands in the outcome of a step, it stood in the text before.

/// No character of `w` is a punctuation mark.
spec fn markless(w: Seq<char>) -> bool {
    forall|i: int| 0 <= i < w.len() ==> kind(#[trigger] w[i]) is None
}

proof fn lemma_contains_prefix(s: Seq<char>, n: int, w: Seq<char>)
    requires
        0 <= n <= s.len(),
        contains_text(s.take(n), w),
    ensures
        contains_text(s, w),
{
    let i = choose|i: int| occurs_at(s.take(n), w, i);
    assert(s.take(n).subrange(i, i + w.len()) == s.subrange(i, i + w.len()));
    assert(occurs_at(s, w, i));
}

proof fn lemma_contains_suffix(s: Seq<char>, n: int, w: Seq<char>)
    requires
        0 <= n <= s.len(),
        contains_text(s.skip(n), w),
    ensures
        contains_text(s, w),
{
    let i = choose|i: int| occurs_at(s.skip(n), w, i);
    assert(s.skip(n).subrange(i, i + w.len()) == s.subrange(n + i, n + i + w.len()));
    assert(occurs_at(s, w, n + i));
}

/// Around a character that `w` does not hold, `w` stands on one side of it or on the other.
proof fn lemma_contains_around(a: Seq<char>, x: char, b: Seq<char>, w: Seq<char>)
    requires
        w.len() > 0,
        !w.contains(x),
        contains_text(a.push(x) + b, w),
    ensures
        contains_text(a, w) || contains_text(b, w),
{
    let all = a.push(x) + b;
    let n = a.len() as int;
    let i = choose|i: int| occurs_at(all, w, i);
    let part = all.subrange(i, i + w.len());
    if i + w.len() <= n {
        assert(a.subrange(i, i + w.len()) == part);
        assert(occurs_at(a, w, i));
    } else if i > n {
        assert(b.subrange(i - n - 1, i - n - 1 + w.len()) == part);
        assert(occurs_at(b, w, i - n - 1));
    } else {
        assert(part[n - i] == all[n]);
        assert(w.contains(w[n - i]));
        assert(false);
    }
}

/// `w` stands at the end of a text that a character was added to, or stood in it before.
proof fn lemma_contains_push(s: Seq<char>, c: char, w: Seq<char>)
    requires
        w.len() > 0,
        contains_text(s.push(c), w),
    ensures
        contains_text(s, w) || (w.last() == c && w.len() <= s.len() + 1 && occurs_at(
            s.push(c),
            w,
            s.len() + 1 - w.len(),
        )),
{
    let all = s.push(c);
    let i = choose|i: int| occurs_at(all, w, i);
    if i + w.len() <= s.len() {
        assert(s.subrange(i, i + w.len()) == all.subrange(i, i + w.len()));
        assert(occurs_at(s, w, i));
    } else {
        assert(all.subrange(i, i + w.len())[w.len() - 1] == c);
    }
}

/// `w` stands at the start of a text that a character was put before, or stood in it before.
proof fn lemma_contains_prepend(c: char, s: Seq<char>, w: Seq<char>)
    requires
        w.len() > 0,
        contains_text(seq![c] + s, w),
    ensures
        contains_text(s, w) || occurs_at(seq![c] + s, w, 0),
{
    let all = seq![c] + s;
    let i = choose|i: int| occurs_at(all, w, i);
    if i > 0 {
        lemma_occurs_shift(all, w, i - 1);
        assert(all.drop_first() == s);
        assert(occurs_at(s, w, i - 1));
    }
}

/// A word without marks at the end of a collapsed text stood at the end before.
proof fn lemma_collapsed_end(s: Seq<char>, w: Seq<char>)
    requires
        markless(w),
        w.len() <= collapsed(s).len(),
        occurs_at(collapsed(s), w, collapsed(s).len() - w.len()),
    ensures
        w.len() <= s.len(),
        occurs_at(s, w, s.len() - w.len()),
    decreases s.len(),
{
    let t = collapsed(s);
    if w.len() == 0 {
        assert(s.subrange(s.len() as int, s.len() as int) == w);
    } else {
        let init = collapsed(s.drop_last());
        let c = s.last();
        let part = t.subrange(t.len() - w.len(), t.len() as int);
        assert(part[w.len() - 1] == t.last());
        assert(kind(w[w.len() - 1]) is None);
        let v = w.drop_last();
        assert forall|i: int| 0 <= i < v.len() implies kind(#[trigger] v[i]) is None by {
            assert(v[i] == w[i]);
        }
        assert(t == init.push(c));
        assert(init.subrange(init.len() - v.len(), init.len() as int) == part.drop_last());
        lemma_collapsed_end(s.drop_last(), v);
        assert(s.subrange(s.len() - w.len(), s.len() as int) == s.drop_last().subrange(
            s.drop_last().len() - v.len(),
            s.drop_last().len() as int,
        ).push(c));
        assert(v.push(c) == w);
    }
}

/// Collapsing brings no word without marks into being.
proof fn lemma_collapsed_words(s: Seq<char>, w: Seq<char>)
    requires
        w.len() > 0,
        markless(w),
        contains_text(collapsed(s), w),
    ensures
        contains_text(s, w),
    decreases s.len(),
{
    if s.len() > 0 {
        let init = collapsed(s.drop_last());
        let c = s.last();
        assert(kind(w[w.len() - 1]) is None);
        assert(s.drop_last() == s.take(s.len() - 1));
        if init.len() > 0 && same_kind(init.last(), c) {
            assert(kind(kind(c)->0) is Some);
            lemma_contains_push(init.drop_last(), kind(c)->0, w);
            assert(init.drop_last() == init.take(init.len() - 1));
            lemma_contains_prefix(init, init.len() - 1, w);
            lemma_collapsed_words(s.drop_last(), w);
            lemma_contains_prefix(s, s.len() - 1, w);
        } else {
            lemma_contains_push(init, c, w);
            if contains_text(init, w) {
                lemma_collapsed_words(s.drop_last(), w);
                lemma_contains_prefix(s, s.len() - 1, w);
            } else {
                lemma_collapsed_end(s, w);
            }
        }
    }
}

/// A word without marks at the start of a tidied text stood at the start before.
proof fn lemma_tidied_start(s: Seq<char>, w: Seq<char>)
    requires
        markless(w),
        occurs_at(tidied(s), w, 0),
    ensures
        occurs_at(s, w, 0),
    decreases s.len(),
{
    if w.len() == 0 {
        assert(s.subrange(0, 0) == w);
    } else if s.len() > 0 {
        let rest = tidied(s.drop_first());
        let t = tidied(s);
        let part = t.subrange(0, w.len() as int);
        assert(part[0] == t[0]);
        assert(kind(w[0]) is None);
        assert(t == seq![s.first()] + rest);
        let v = w.drop_first();
        assert forall|i: int| 0 <= i < v.len() implies kind(#[trigger] v[i]) is None by {
            assert(v[i] == w[i + 1]);
        }
        assert(rest.subrange(0, v.len() as int) == part.drop_first());
        lemma_tidied_start(s.drop_first(), v);
        assert(s.subrange(0, w.len() as int) == seq![s.first()] + s.drop_first().subrange(
            0,
            v.len() as int,
        ));
        assert(seq![s.first()] + v == w);
    }
}

/// Tidying brings no word without marks into being.
proof fn lemma_tidied_words(s: Seq<char>, w: Seq<char>)
    requires
        w.len() > 0,
        markless(w),
        contains_text(tidied(s), w),
    ensures
        contains_text(s, w),
    decreases s.len(),
{
    if s.len() > 0 {
        let rest = tidied(s.drop_first());
        assert(s.drop_first() == s.skip(1));
        if s.first() == ' ' && rest.len() > 0 && is_full_mark(rest.first()) {
            lemma_tidied_words(s.drop_first(), w);
            lemma_contains_suffix(s, 1, w);
        } else {
            lemma_contains_prepend(s.first(), rest, w);
            if contains_text(rest, w) {
                lemma_tidied_words(s.drop_first(), w);
                lemma_contains_suffix(s, 1, w);
            } else {
                lemma_tidied_start(s, w);
            }
        }
    }
}

/// Settling brings no word without marks into being.
proof fn lemma_settled_words(s: Seq<char>, w: Seq<char>)
    requires
        w.len() > 0,
        markless(w),
        contains_text(settled(s), w),
    ensures
        contains_text(s, w),
    decreases s.len(),
{
    let t = tidied(collapsed(s));
    if t.len() < s.len() {
        lemma_settled_words(t, w);
    }
    lemma_tidied_words(collapsed(s), w);
    lemma_collapsed_words(s, w);
}

/// A word without the character that is put in stood at the start before, if it does so after.
proof fn lemma_replaced_start(s: Seq<char>, p: Seq<char>, m: char, w: Seq<char>)
    requires
        !w.contains(m),
        occurs_at(replaced(s, p, seq![m]), w, 0),
    ensures
        occurs_at(s, w, 0),
    decreases s.len(),
{
    if w.len() == 0 {
        assert(s.subrange(0, 0) == w);
    } else if s.len() > 0 && p.len() > 0 {
        let t = replaced(s, p, seq![m]);
        let part = t.subrange(0, w.len() as int);
        assert(part[0] == t[0]);
        assert(w.contains(w[0]));
        let rest = replaced(s.drop_first(), p, seq![m]);
        assert(t == seq![s.first()] + rest);
        let v = w.drop_first();
        assert(!v.contains(m)) by {
            if v.contains(m) {
                let i = choose|i: int| 0 <= i < v.len() && v[i] == m;
                assert(w[i + 1] == m);
            }
        }
        assert(rest.subrange(0, v.len() as int) == part.drop_first());
        lemma_replaced_start(s.drop_first(), p, m, v);
        assert(s.subrange(0, w.len() as int) == seq![s.first()] + s.drop_first().subrange(
            0,
            v.len() as int,
        ));
        assert(seq![s.first()] + v == w);
    }
}

/// Putting a character in place of a word brings no word without that character into being, and
/// leaves nothing of the word itself.
proof fn lemma_replaced_words(s: Seq<char>, p: Seq<char>, m: char, w: Seq<char>)
    requires
        w.len() > 0,
        !w.contains(m),
        contains_text(replaced(s, p, seq![m]), w),
    ensures
        contains_text(s, w),
        p != w,
    decreases s.len(),
{
    if s.len() > 0 && p.len() > 0 {
        if occurs_at(s, p, 0) {
            let rest = replaced(s.skip(p.len() as int), p, seq![m]);
            assert(Seq::<char>::empty().push(m) + rest == seq![m] + rest);
            lemma_contains_around(Seq::empty(), m, rest, w);
            lemma_replaced_words(s.skip(p.len() as int), p, m, w);
            lemma_contains_suffix(s, p.len() as int, w);
        } else {
            let rest = replaced(s.drop_first(), p, seq![m]);
            assert(s.drop_first() == s.skip(1));
            lemma_contains_prepend(s.first(), rest, w);
            if contains_text(rest, w) {
                lemma_replaced_words(s.drop_first(), p, m, w);
                lemma_contains_suffix(s, 1, w);
            } else {
                lemma_replaced_start(s, p, m, w);
            }
        }
    }
}

/// Each entry of the table is a word of characters that are neither marks nor stand-ins nor line
/// breaks, and a stand-in.
spec fn is_command_entry(e: (Seq<char>, char)) -> bool {
    &&& e.0.len() > 0
    &&& is_mask(e.1)
    &&& markless(e.0)
    &&& no_masks(e.0)
    &&& !e.0.contains('\n')
}

/// Masking brings no word without stand-ins into being, and leaves no word of the table.
proof fn lemma_masked_words(s: Seq<char>, table: Seq<(Seq<char>, char)>, w: Seq<char>)
    requires
        w.len() > 0,
        no_masks(w),
        forall|i: int| 0 <= i < table.len() ==> is_mask((#[trigger] table[i]).1),
        contains_text(masked(s, table), w),
    ensures
        contains_text(s, w),
        forall|i: int| 0 <= i < table.len() ==> (#[trigger] table[i]).0 != w,
    decreases table.len(),
{
    if table.len() > 0 {
        let init = table.drop_last();
        let last = table[table.len() - 1];
        assert forall|i: int| 0 <= i < init.len() implies is_mask((#[trigger] init[i]).1) by {
            assert(init[i] == table[i]);
        }
        assert(!w.contains(last.1)) by {
            if w.contains(last.1) {
                let i = choose|i: int| 0 <= i < w.len() && w[i] == last.1;
                assert(!is_mask(w[i]));
            }
        }
        lemma_replaced_words(masked(s, init), last.0, last.1, w);
        lemma_masked_words(s, init, w);
        assert forall|i: int| 0 <= i < table.len() implies (#[trigger] table[i]).0 != w by {
            if i < init.len() {
                assert(init[i] == table[i]);
            }
        }
    }
}

proof fn lemma_drop_end_spaces(s: Seq<char>)
    ensures
        drop_end_spaces(s).len() <= s.len(),
        drop_end_spaces(s) == s.take(drop_end_spaces(s).len() as int),
        drop_end_spaces(s).len() > 0 ==> drop_end_spaces(s).last() != ' ',
    decreases s.len(),
{
    if s.len() > 0 && s.last() == ' ' {
        lemma_drop_end_spaces(s.drop_last());
        let n = drop_end_spaces(s).len() as int;
        assert(s.drop_last().take(n) == s.take(n));
    } else {
        assert(s.take(s.len() as int) == s);
    }
}

proof fn lemma_kept_before_is_start(s: Seq<char>)
    ensures
        kept_before(s).len() <= s.len(),
        kept_before(s) == s.take(kept_before(s).len() as int),
        kept_before(s).len() > 0 ==> kept_before(s).last() != ' ',
{
    let a = drop_end_spaces(s);
    lemma_drop_end_spaces(s);
    if a.len() > 0 {
        lemma_drop_end_spaces(a.drop_last());
        let n = drop_end_spaces(a.drop_last()).len() as int;
        assert(a.drop_last().take(n) == s.take(n));
    }
}

proof fn lemma_no_start_space(s: Seq<char>)
    ensures
        drop_start_spaces(s).len() > 0 ==> drop_start_spaces(s).first() != ' ',
    decreases s.len(),
{
    if s.len() > 0 && s.first() == ' ' {
        lemma_no_start_space(s.drop_first());
    }
}

proof fn lemma_kept_after_is_end(s: Seq<char>)
    ensures
        kept_after(s).len() <= s.len(),
        kept_after(s) == s.skip(s.len() - kept_after(s).len()),
        kept_after(s).len() > 0 ==> kept_after(s).first() != ' ',
{
    let a = drop_start_spaces(s);
    lemma_drop_start_spaces(s);
    lemma_no_start_space(s);
    if a.len() > 0 {
        let b = a.drop_first();
        lemma_drop_start_spaces(b);
        lemma_no_start_space(b);
        let n = drop_start_spaces(b).len();
        assert(b.skip(b.len() - n) == s.skip(s.len() - n));
    }
}

/// Absorbing brings no word without line breaks into being.
proof fn lemma_absorb_words(done: Seq<char>, rest: Seq<char>, w: Seq<char>)
    requires
        w.len() > 0,
        !w.contains(NEWLINE_MASK),
        contains_text(absorb(done, rest), w),
    ensures
        contains_text(done + rest, w),
    decreases rest.len(),
{
    let all = done + rest;
    if rest.len() == 0 {
        assert(all == done);
    } else if rest.first() == NEWLINE_MASK {
        let tail = rest.drop_first();
        let before = kept_before(done);
        let after = kept_after(tail);
        lemma_kept_before_is_start(done);
        lemma_kept_after_is_end(tail);
        lemma_absorb_words(before.push(NEWLINE_MASK), after, w);
        lemma_contains_around(before, NEWLINE_MASK, after, w);
        if contains_text(before, w) {
            assert(before == all.take(before.len() as int));
            lemma_contains_prefix(all, before.len() as int, w);
        } else {
            assert(after == all.skip(all.len() - after.len()));
            lemma_contains_suffix(all, all.len() - after.len(), w);
        }
    } else {
        lemma_absorb_words(done.push(rest.first()), rest.drop_first(), w);
        assert(done.push(rest.first()) + rest.drop_first() == all);
    }
}

/// What is worked on before the commands become what they command.
spec fn prepared(s: Seq<char>) -> Seq<char> {
    absorbed(collapsed(masked(s, command_table())))
}

/// The steps before the commands become what they command bring no word without marks and
/// stand-ins into being, and leave no command word.
proof fn lemma_prepared_words(s: Seq<char>, w: Seq<char>)
    requires
        w.len() > 0,
        markless(w),
        no_masks(w),
        contains_text(prepared(s), w),
    ensures
        contains_text(s, w),
        forall|i: int| 0 <= i < command_table().len() ==> (#[trigger] command_table()[i]).0 != w,
{
    let m = masked(s, command_table());
    let c = collapsed(m);
    assert(!w.contains(NEWLINE_MASK)) by {
        if w.contains(NEWLINE_MASK) {
            let i = choose|i: int| 0 <= i < w.len() && w[i] == NEWLINE_MASK;
            assert(!is_mask(w[i]));
        }
    }
    lemma_absorb_words(Seq::empty(), c, w);
    assert(Seq::<char>::empty() + c == c);
    lemma_collapsed_words(m, w);
    lemma_masked_words(s, command_table(), w);
}

/// What the table of commands holds.
proof fn lemma_command_entries(k: int)
    requires
        0 <= k < command_table().len(),
    ensures
        is_command_entry(command_table()[k]),
{
    reveal_strlit("逗點");
    reveal_strlit("逗號");
    reveal_strlit("鬥點");
    reveal_strlit("鬥號");
    reveal_strlit("豆點");
    reveal_strlit("豆號");
    reveal_strlit("都點");
    reveal_strlit("抖點");
    reveal_strlit("逗典");
    reveal_strlit("兜點");
    reveal_strlit("句點");
    reveal_strlit("句號");
    reveal_strlit("聚點");
    reveal_strlit("聚號");
    reveal_strlit("據點");
    reveal_strlit("巨點");
    reveal_strlit("問號");
    reveal_strlit("驚嘆號");
    reveal_strlit("感嘆號");
    reveal_strlit("京嘆號");
    reveal_strlit("趕嘆號");
    reveal_strlit("冒號");
    reveal_strlit("分號");
    reveal_strlit("份號");
    reveal_strlit("頓號");
    reveal_strlit("換行");
    reveal_strlit("新一行");
    reveal_strlit("新行");
    reveal_strlit("喚行");
    reveal_strlit("緩行");
    reveal_strlit("荒航");
    reveal_strlit("換航");
    let e = command_table()[k];
    assert(e.0.len() == 2 || e.0.len() == 3);
    assert forall|i: int| 0 <= i < e.0.len() implies kind(#[trigger] e.0[i]) is None && !is_mask(
        e.0[i],
    ) && e.0[i] != '\n' by {}
}

/// No command word is left in a normalised text.
pub proof fn normalizing_leaves_no_command_words(s: Seq<char>, k: int)
    requires
        0 <= k < command_table().len(),
    ensures
        !contains_text(normalized(s), command_table()[k].0),
{
    let w = command_table()[k].0;
    lemma_command_entries(k);
    if contains_text(normalized(s), w) {
        let a = prepared(s);
        let b = a.map_values(|c: char| unmasked(c));
        lemma_settled_words(b, w);
        let i = choose|i: int| occurs_at(b, w, i);
        assert(a.subrange(i, i + w.len()) =~= w) by {
            assert forall|j: int| 0 <= j < w.len() implies a[i + j] == #[trigger] w[j] by {
                assert(b.subrange(i, i + w.len())[j] == unmasked(a[i + j]));
                assert(w.contains(w[j]));
                assert(kind(w[j]) is None);
            }
        }
        assert(occurs_at(a, w, i));
        lemma_prepared_words(s, w);
    }
}

/// No space stands right before or right after a commanded line break.
spec fn tight(s: Seq<char>) -> bool {
    forall|i: int|
        0 <= i < s.len() && #[trigger] s[i] == NEWLINE_MASK ==> (i > 0 ==> s[i - 1] != ' ') && (i + 1
            < s.len() ==> s[i + 1] != ' ')
}

proof fn lemma_absorb_tight(done: Seq<char>, rest: Seq<char>)
    requires
        tight(done),
        done.len() > 0 && done.last() == NEWLINE_MASK && rest.len() > 0 ==> rest.first() != ' ',
    ensures
        tight(absorb(done, rest)),
    decreases rest.len(),
{
    if rest.len() == 0 {
    } else if rest.first() == NEWLINE_MASK {
        let tail = rest.drop_first();
        let before = kept_before(done);
        lemma_kept_before_is_start(done);
        lemma_kept_after_is_end(tail);
        let next = before.push(NEWLINE_MASK);
        assert forall|i: int| 0 <= i < next.len() && #[trigger] next[i] == NEWLINE_MASK implies (i
            > 0 ==> next[i - 1] != ' ') && (i + 1 < next.len() ==> next[i + 1] != ' ') by {
            if i < before.len() {
                assert(done[i] == NEWLINE_MASK);
            }
        }
        lemma_absorb_tight(next, kept_after(tail));
    } else {
        let next = done.push(rest.first());
        assert forall|i: int| 0 <= i < next.len() && #[trigger] next[i] == NEWLINE_MASK implies (i
            > 0 ==> next[i - 1] != ' ') && (i + 1 < next.len() ==> next[i + 1] != ' ') by {
            assert(done[i] == NEWLINE_MASK);
        }
        lemma_absorb_tight(next, rest.drop_first());
    }
}

/// No space stands right before or right after a line break in `s`.
pub open spec fn no_space_beside_break(s: Seq<char>) -> bool {
    forall|i: int|
        0 <= i < s.len() && #[trigger] s[i] == '\n' ==> (i > 0 ==> s[i - 1] != ' ') && (i + 1
            < s.len() ==> s[i + 1] != ' ')
}

/// A space is never left beside a line break that was commanded: a text that holds no line break of
/// its own comes out with no space on either side of any.
pub proof fn normalizing_leaves_no_space_beside_breaks(s: Seq<char>)
    requires
        !s.contains('\n'),
    ensures
        no_space_beside_break(normalized(s)),
{
    let a = prepared(s);
    let b = a.map_values(|c: char| unmasked(c));
    let r = normalized(s);
    lemma_absorb_tight(Seq::empty(), collapsed(masked(s, command_table())));
    assert(!a.contains('\n')) by {
        if a.contains('\n') {
            let w = seq!['\n'];
            let i = choose|i: int| 0 <= i < a.len() && a[i] == '\n';
            assert(a.subrange(i, i + 1) == w);
            assert(occurs_at(a, w, i));
            lemma_prepared_words(s, w);
            let k = choose|k: int| occurs_at(s, w, k);
            assert(s.subrange(k, k + 1)[0] == s[k]);
            assert(s.contains(s[k]));
        }
    }
    assert forall|i: int| 0 <= i < b.len() && #[trigger] b[i] == '\n' implies a[i]
        == NEWLINE_MASK by {
        assert(a.contains(a[i]));
    }
    assert forall|i: int| 0 <= i < r.len() && #[trigger] r[i] == '\n' implies (i > 0 ==> r[i - 1]
        != ' ') && (i + 1 < r.len() ==> r[i + 1] != ' ') by {
        if i > 0 && r[i - 1] == ' ' {
            let w = seq![' ', '\n'];
            assert(r.subrange(i - 1, i + 1) == w);
            assert(occurs_at(r, w, i - 1));
            lemma_settled_words(b, w);
            let k = choose|k: int| occurs_at(b, w, k);
            assert(b.subrange(k, k + 2)[0] == b[k] && b.subrange(k, k + 2)[1] == b[k + 1]);
            assert(a[k + 1] == NEWLINE_MASK && a[k] == ' ');
        }
        if i + 1 < r.len() && r[i + 1] == ' ' {
            let w = seq!['\n', ' '];
            assert(r.subrange(i, i + 2) == w);
            assert(occurs_at(r, w, i));
            lemma_settled_words(b, w);
            let k = choose|k: int| occurs_at(b, w, k);
            assert(b.subrange(k, k + 2)[0] == b[k] && b.subrange(k, k + 2)[1] == b[k + 1]);
            assert(a[k] == NEWLINE_MASK && a[k + 1] == ' ');
        }
    }
}

/// A text that is already clean is left exactly as it is: no command word, no stand-in, no two
/// marks of one kind side by side, and no space before a full-width mark.
pub proof fn clean_text_is_left_alone(s: Seq<char>)
    requires
        forall|i: int|
            0 <= i < command_table().len() ==> !contains_text(s, (#[trigger] command_table()[i]).0),
        no_masks(s),
        no_repeats(s),
        no_space_before_mark(s),
    ensures
        normalized(s) == s,
{
    lemma_masked_absent(s, command_table());
    collapsing_keeps_what_does_not_repeat(s);
    assert(!s.contains(NEWLINE_MASK)) by {
        if s.contains(NEWLINE_MASK) {
            let i = choose|i: int| 0 <= i < s.len() && s[i] == NEWLINE_MASK;
            assert(!is_mask(s[i]));
        }
    }
    lemma_absorb_without_breaks(Seq::empty(), s);
    assert(Seq::<char>::empty() + s == s);
    assert(s.map_values(|c: char| unmasked(c)) =~= s);
    lemma_tidied_keeps(s);
}

// ---------------------------------------------------------------------------
// What each command does
// ---------------------------------------------------------------------------

/// Only `word` stands in `s` of all the command words, and only at index `at`.
pub open spec fn only_command(s: Seq<char>, word: Seq<char>, at: int) -> bool {
    &&& forall|i: int| #[trigger] occurs_at(s, word, i) ==> i == at
    &&& forall|k: int|
        0 <= k < command_table().len() && (#[trigger] command_table()[k]).0 != word
            ==> !contains_text(s, command_table()[k].0)
}

/// A clean text: no stand-in, no two marks of one kind side by side, no space before a full-width
/// mark.
pub open spec fn is_clean(s: Seq<char>) -> bool {
    no_masks(s) && no_repeats(s) && no_space_before_mark(s)
}

/// What a command is put between: neither side has a space or a mark beside it.
pub open spec fn makes_room(a: Seq<char>, b: Seq<char>) -> bool {
    &&& is_clean(a)
    &&& is_clean(b)
    &&& a.len() > 0 ==> a.last() != ' ' && kind(a.last()) is None
    &&& b.len() > 0 ==> b.first() != ' ' && kind(b.first()) is None
}

/// A word that stands at one place only is replaced there.
proof fn lemma_replaced_once(a: Seq<char>, p: Seq<char>, b: Seq<char>, m: char)
    requires
        p.len() > 0,
        forall|i: int| #[trigger] occurs_at(a + p + b, p, i) ==> i == a.len(),
    ensures
        replaced(a + p + b, p, seq![m]) == a + seq![m] + b,
    decreases a.len(),
{
    let s = a + p + b;
    assert(s.subrange(a.len() as int, (a.len() + p.len()) as int) == p);
    assert(occurs_at(s, p, a.len() as int));
    if a.len() == 0 {
        assert(s.skip(p.len() as int) == b);
        assert(!contains_text(b, p)) by {
            if contains_text(b, p) {
                let i = choose|i: int| occurs_at(b, p, i);
                assert(s.subrange(i + p.len(), i + p.len() + p.len()) == b.subrange(
                    i,
                    i + p.len(),
                ));
                assert(occurs_at(s, p, i + p.len()));
            }
        }
        lemma_replaced_absent(b, p, seq![m]);
        assert(a + seq![m] + b == seq![m] + b);
    } else {
        assert(!occurs_at(s, p, 0));
        let t = a.drop_first();
        assert(s.drop_first() == t + p + b);
        assert forall|i: int| #[trigger] occurs_at(t + p + b, p, i) implies i == t.len() by {
            lemma_occurs_shift(s, p, i);
            assert(occurs_at(s, p, i + 1));
        }
        lemma_replaced_once(t, p, b, m);
        assert(seq![s.first()] + (t + seq![m] + b) == a + seq![m] + b);
    }
}

/// Masking a text with one command word puts its stand-in there.
proof fn lemma_masked_once(
    a: Seq<char>,
    k: int,
    b: Seq<char>,
    table: Seq<(Seq<char>, char)>,
    n: int,
)
    requires
        0 <= k < table.len(),
        0 <= n <= table.len(),
        forall|i: int| 0 <= i < table.len() ==> is_command_entry(#[trigger] table[i]),
        forall|i: int| 0 <= i < table.len() && i != k ==> (#[trigger] table[i]).0 != table[k].0,
        forall|i: int| #[trigger] occurs_at(a + table[k].0 + b, table[k].0, i) ==> i == a.len(),
        forall|i: int|
            0 <= i < table.len() && i != k ==> !contains_text(
                a + table[k].0 + b,
                (#[trigger] table[i]).0,
            ),
    ensures
        masked(a + table[k].0 + b, table.take(n)) == if n <= k {
            a + table[k].0 + b
        } else {
            a + seq![table[k].1] + b
        },
    decreases n,
{
    let s = a + table[k].0 + b;
    if n > 0 {
        lemma_masked_once(a, k, b, table, n - 1);
        let t = table.take(n);
        let e = table[n - 1];
        assert(t.drop_last() == table.take(n - 1));
        assert(t.last() == e);
        assert(is_command_entry(e));
        if n - 1 == k {
            lemma_replaced_once(a, e.0, b, e.1);
        } else if n - 1 < k {
            lemma_replaced_absent(s, e.0, seq![e.1]);
        } else {
            let done = a + seq![table[k].1] + b;
            assert(!contains_text(done, e.0)) by {
                if contains_text(done, e.0) {
                    lemma_replaced_once(a, table[k].0, b, table[k].1);
                    assert(is_command_entry(table[k]));
                    assert(!e.0.contains(table[k].1)) by {
                        if e.0.contains(table[k].1) {
                            let i = choose|i: int| 0 <= i < e.0.len() && e.0[i] == table[k].1;
                            assert(!is_mask(e.0[i]));
                        }
                    }
                    lemma_replaced_words(s, table[k].0, table[k].1, e.0);
                }
            }
            lemma_replaced_absent(done, e.0, seq![e.1]);
        }
    } else {
        assert(table.take(0) == Seq::<(Seq<char>, char)>::empty());
    }
}

/// Two clean texts with a character between them that is no space and no mark like its neighbours
/// are a clean text, as far as repeated marks and spaces go.
proof fn lemma_joined(a: Seq<char>, x: char, b: Seq<char>)
    requires
        makes_room(a, b),
        x != ' ',
    ensures
        no_repeats(a + seq![x] + b),
        no_space_before_mark(a + seq![x] + b),
{
    let s = a + seq![x] + b;
    let n = a.len() as int;
    assert forall|i: int| 0 < i < s.len() implies !same_kind(s[i - 1], #[trigger] s[i]) by {
        if i < n {
            assert(!same_kind(a[i - 1], a[i]));
        } else if i == n {
            assert(s[i - 1] == a.last());
        } else if i == n + 1 {
            assert(s[i] == b.first());
        } else {
            assert(!same_kind(b[i - n - 2], b[i - n - 1]));
        }
    }
    assert forall|i: int| 0 < i < s.len() && is_full_mark(#[trigger] s[i]) implies s[i - 1]
        != ' ' by {
        if i < n {
            assert(is_full_mark(a[i]));
        } else if i == n {
            assert(s[i - 1] == a.last());
        } else if i > n + 1 {
            assert(is_full_mark(b[i - n - 1]));
        }
    }
}

/// A text with one command word, with its stand-in in place of it.
proof fn lemma_masked_text(a: Seq<char>, k: int, b: Seq<char>)
    requires
        0 <= k < command_table().len(),
        only_command(a + command_table()[k].0 + b, command_table()[k].0, a.len() as int),
    ensures
        masked(a + command_table()[k].0 + b, command_table()) == a + seq![command_table()[k].1] + b,
{
    let table = command_table();
    let e = table[k];
    let s = a + e.0 + b;
    assert forall|i: int| 0 <= i < table.len() implies is_command_entry(#[trigger] table[i]) by {
        lemma_command_entries(i);
    }
    assert forall|i: int| 0 <= i < table.len() && i != k implies (#[trigger] table[i]).0
        != e.0 by {
        lemma_command_words_differ(i, k);
    }
    lemma_masked_once(a, k, b, table, table.len() as int);
    assert(table.take(table.len() as int) == table);
}

/// A command between two clean texts becomes what its stand-in becomes, and nothing else changes.
proof fn lemma_command_carried_out(a: Seq<char>, k: int, b: Seq<char>)
    requires
        0 <= k < command_table().len(),
        makes_room(a, b),
        only_command(a + command_table()[k].0 + b, command_table()[k].0, a.len() as int),
    ensures
        normalized(a + command_table()[k].0 + b) == a + seq![unmasked(command_table()[k].1)] + b,
{
    let table = command_table();
    let e = table[k];
    let s = a + e.0 + b;
    let m = a + seq![e.1] + b;
    lemma_masked_text(a, k, b);
    lemma_command_entries(k);
    assert(kind(e.1) is None);
    lemma_joined(a, e.1, b);
    collapsing_keeps_what_does_not_repeat(m);
    assert(absorbed(m) == m) by {
        lemma_absorb_between(a, e.1, b);
    }
    let u = unmasked(e.1);
    let r = a + seq![u] + b;
    assert(m.map_values(|c: char| unmasked(c)) =~= r) by {
        assert forall|i: int| 0 <= i < m.len() implies unmasked(#[trigger] m[i]) == r[i] by {
            if i < a.len() {
                assert(!is_mask(a[i]));
            } else if i > a.len() {
                assert(!is_mask(b[i - a.len() - 1]));
            }
        }
    }
    lemma_joined(a, u, b);
    collapsing_keeps_what_does_not_repeat(r);
    lemma_tidied_keeps(r);
}

/// A text with one stand-in, and neither a space nor a mark beside it, has nothing to absorb.
proof fn lemma_absorb_between(a: Seq<char>, x: char, b: Seq<char>)
    requires
        makes_room(a, b),
        is_mask(x),
    ensures
        absorbed(a + seq![x] + b) == a + seq![x] + b,
{
    let s = a + seq![x] + b;
    assert(!a.contains(NEWLINE_MASK)) by {
        if a.contains(NEWLINE_MASK) {
            let i = choose|i: int| 0 <= i < a.len() && a[i] == NEWLINE_MASK;
            assert(!is_mask(a[i]));
        }
    }
    assert(!b.contains(NEWLINE_MASK)) by {
        if b.contains(NEWLINE_MASK) {
            let i = choose|i: int| 0 <= i < b.len() && b[i] == NEWLINE_MASK;
            assert(!is_mask(b[i]));
        }
    }
    assert(s == a + (seq![x] + b));
    lemma_absorb_prefix(Seq::empty(), a, seq![x] + b);
    assert(Seq::<char>::empty() + a == a);
    let rest = seq![x] + b;
    assert(rest.drop_first() == b);
    if x == NEWLINE_MASK {
        assert(kept_before(a) == a);
        assert(kept_after(b) == b);
    }
    lemma_absorb_without_breaks(a.push(x), b);
    assert(a.push(x) + b == s);
}

/// What stands before the first commanded line break is only passed on.
proof fn lemma_absorb_prefix(done: Seq<char>, a: Seq<char>, rest: Seq<char>)
    requires
        !a.contains(NEWLINE_MASK),
    ensures
        absorb(done, a + rest) == absorb(done + a, rest),
    decreases a.len(),
{
    if a.len() == 0 {
        assert(a + rest == rest);
        assert(done + a == done);
    } else {
        let t = a.drop_first();
        assert(a.contains(a.first()));
        assert(!t.contains(NEWLINE_MASK)) by {
            if t.contains(NEWLINE_MASK) {
                let i = choose|i: int| 0 <= i < t.len() && t[i] == NEWLINE_MASK;
                assert(a[i + 1] == NEWLINE_MASK);
            }
        }
        lemma_absorb_prefix(done.push(a.first()), t, rest);
        assert((a + rest).drop_first() == t + rest);
        assert(done.push(a.first()) + t == done + a);
    }
}

/// No word stands twice in the table of commands.
proof fn lemma_command_words_differ(i: int, k: int)
    requires
        0 <= i < command_table().len(),
        0 <= k < command_table().len(),
        i != k,
    ensures
        command_table()[i].0 != command_table()[k].0,
{
    reveal_strlit("逗點");
    reveal_strlit("逗號");
    reveal_strlit("鬥點");
    reveal_strlit("鬥號");
    reveal_strlit("豆點");
    reveal_strlit("豆號");
    reveal_strlit("都點");
    reveal_strlit("抖點");
    reveal_strlit("逗典");
    reveal_strlit("兜點");
    reveal_strlit("句點");
    reveal_strlit("句號");
    reveal_strlit("聚點");
    reveal_strlit("聚號");
    reveal_strlit("據點");
    reveal_strlit("巨點");
    reveal_strlit("問號");
    reveal_strlit("驚嘆號");
    reveal_strlit("感嘆號");
    reveal_strlit("京嘆號");
    reveal_strlit("趕嘆號");
    reveal_strlit("冒號");
    reveal_strlit("分號");
    reveal_strlit("份號");
    reveal_strlit("頓號");
    reveal_strlit("換行");
    reveal_strlit("新一行");
    reveal_strlit("新行");
    reveal_strlit("喚行");
    reveal_strlit("緩行");
    reveal_strlit("荒航");
    reveal_strlit("換航");
    let p = command_table()[i].0;
    let q = command_table()[k].0;
    assert(p.len() != q.len() || p[0] != q[0] || p[1] != q[1]);
}

/// Every command word, and every usual mishearing of one, becomes the mark that it commands, or a
/// line break: in a text that holds that one command and is clean otherwise, nothing else changes.
pub proof fn commands_are_carried_out(a: Seq<char>, word: Seq<char>, b: Seq<char>)
    requires
        makes_room(a, b),
        only_command(a + word + b, word, a.len() as int),
    ensures
        word == "逗點"@ ==> normalized(a + word + b) == a + seq!['，'] + b,
        word == "逗號"@ ==> normalized(a + word + b) == a + seq!['，'] + b,
        word == "鬥點"@ ==> normalized(a + word + b) == a + seq!['，'] + b,
        word == "鬥號"@ ==> normalized(a + word + b) == a + seq!['，'] + b,
        word == "豆點"@ ==> normalized(a + word + b) == a + seq!['，'] + b,
        word == "豆號"@ ==> normalized(a + word + b) == a + seq!['，'] + b,
        word == "都點"@ ==> normalized(a + word + b) == a + seq!['，'] + b,
        word == "抖點"@ ==> normalized(a + word + b) == a + seq!['，'] + b,
        word == "逗典"@ ==> normalized(a + word + b) == a + seq!['，'] + b,
        word == "兜點"@ ==> normalized(a + word + b) == a + seq!['，'] + b,
        word == "句點"@ ==> normalized(a + word + b) == a + seq!['。'] + b,
        word == "句號"@ ==> normalized(a + word + b) == a + seq!['。'] + b,
        word == "聚點"@ ==> normalized(a + word + b) == a + seq!['。'] + b,
        word == "聚號"@ ==> normalized(a + word + b) == a + seq!['。'] + b,
        word == "據點"@ ==> normalized(a + word + b) == a + seq!['。'] + b,
        word == "巨點"@ ==> normalized(a + word + b) == a + seq!['。'] + b,
        word == "問號"@ ==> normalized(a + word + b) == a + seq!['？'] + b,
        word == "驚嘆號"@ ==> normalized(a + word + b) == a + seq!['！'] + b,
        word == "感嘆號"@ ==> normalized(a + word + b) == a + seq!['！'] + b,
        word == "京嘆號"@ ==> normalized(a + word + b) == a + seq!['！'] + b,
        word == "趕嘆號"@ ==> normalized(a + word + b) == a + seq!['！'] + b,
        word == "冒號"@ ==> normalized(a + word + b) == a + seq!['：'] + b,
        word == "分號"@ ==> normalized(a + word + b) == a + seq!['；'] + b,
        word == "份號"@ ==> normalized(a + word + b) == a + seq!['；'] + b,
        word == "頓號"@ ==> normalized(a + word + b) == a + seq!['、'] + b,
        word == "換行"@ ==> normalized(a + word + b) == a + seq!['\n'] + b,
        word == "新一行"@ ==> normalized(a + word + b) == a + seq!['\n'] + b,
        word == "新行"@ ==> normalized(a + word + b) == a + seq!['\n'] + b,
        word == "喚行"@ ==> normalized(a + word + b) == a + seq!['\n'] + b,
        word == "緩行"@ ==> normalized(a + word + b) == a + seq!['\n'] + b,
        word == "荒航"@ ==> normalized(a + word + b) == a + seq!['\n'] + b,
        word == "換航"@ ==> normalized(a + word + b) == a + seq!['\n'] + b,
{
    if word == "逗點"@ {
        lemma_command_carried_out(a, 0, b);
    }
    if word == "逗號"@ {
        lemma_command_carried_out(a, 1, b);
    }
    if word == "鬥點"@ {
        lemma_command_carried_out(a, 2, b);
    }
    if word == "鬥號"@ {
        lemma_command_carried_out(a, 3, b);
    }
    if word == "豆點"@ {
        lemma_command_carried_out(a, 4, b);
    }
    if word == "豆號"@ {
        lemma_command_carried_out(a, 5, b);
    }
    if word == "都點"@ {
        lemma_command_carried_out(a, 6, b);
    }
    if word == "抖點"@ {
        lemma_command_carried_out(a, 7, b);
    }
    if word == "逗典"@ {
        lemma_command_carried_out(a, 8, b);
    }
    if word == "兜點"@ {
        lemma_command_carried_out(a, 9, b);
    }
    if word == "句點"@ {
        lemma_command_carried_out(a, 10, b);
    }
    if word == "句號"@ {
        lemma_command_carried_out(a, 11, b);
    }
    if word == "聚點"@ {
        lemma_command_carried_out(a, 12, b);
    }
    if word == "聚號"@ {
        lemma_command_carried_out(a, 13, b);
    }
    if word == "據點"@ {
        lemma_command_carried_out(a, 14, b);
    }
    if word == "巨點"@ {
        lemma_command_carried_out(a, 15, b);
    }
    if word == "問號"@ {
        lemma_command_carried_out(a, 16, b);
    }
    if word == "驚嘆號"@ {
        lemma_command_carried_out(a, 17, b);
    }
    if word == "感嘆號"@ {
        lemma_command_carried_out(a, 18, b);
    }
    if word == "京嘆號"@ {
        lemma_command_carried_out(a, 19, b);
    }
    if word == "趕嘆號"@ {
        lemma_command_carried_out(a, 20, b);
    }
    if word == "冒號"@ {
        lemma_command_carried_out(a, 21, b);
    }
    if word == "分號"@ {
        lemma_command_carried_out(a, 22, b);
    }
    if word == "份號"@ {
        lemma_command_carried_out(a, 23, b);
    }
    if word == "頓號"@ {
        lemma_command_carried_out(a, 24, b);
    }
    if word == "換行"@ {
        lemma_command_carried_out(a, 25, b);
    }
    if word == "新一行"@ {
        lemma_command_carried_out(a, 26, b);
    }
    if word == "新行"@ {
        lemma_command_carried_out(a, 27, b);
    }
    if word == "喚行"@ {
        lemma_command_carried_out(a, 28, b);
    }
    if word == "緩行"@ {
        lemma_command_carried_out(a, 29, b);
    }
    if word == "荒航"@ {
        lemma_command_carried_out(a, 30, b);
    }
    if word == "換航"@ {
        lemma_command_carried_out(a, 31, b);
    }
}

// ---------------------------------------------------------------------------
// What becomes of the transcriber's own marks
// ---------------------------------------------------------------------------

/// `c` is one of the two ways in which a mark is written, half-width or full-width; the enumeration
/// comma has only one.
pub open spec fn is_written_as(c: char, mark: char) -> bool {
    ||| mark == '，' && (c == ',' || c == '，')
    ||| mark == '。' && (c == '.' || c == '。')
    ||| mark == '？' && (c == '?' || c == '？')
    ||| mark == '！' && (c == '!' || c == '！')
    ||| mark == '：' && (c == ':' || c == '：')
    ||| mark == '；' && (c == ';' || c == '；')
    ||| mark == '、' && c == '、'
}

/// A mark that is written twice in a row, in whichever width each time, becomes one full-width mark.
pub proof fn marks_of_both_widths_merge(
    a: Seq<char>,
    x: char,
    y: char,
    mark: char,
    b: Seq<char>,
)
    requires
        is_written_as(x, mark),
        is_written_as(y, mark),
    ensures
        collapsed(a + seq![x, y] + b) == collapsed(a + seq![mark] + b),
{
    collapsing_merges_neighbours(a, x, y, b);
}

/// Two characters that are not ways to write one mark stay as they are side by side.
pub proof fn other_characters_stay_side_by_side(x: char, y: char)
    requires
        forall|mark: char| is_written_as(x, mark) ==> !#[trigger] is_written_as(y, mark),
    ensures
        collapsed(seq![x, y]) == seq![x, y],
{
    if same_kind(x, y) {
        assert(is_written_as(x, kind(x)->0));
        assert(is_written_as(y, kind(x)->0));
    }
    assert(no_repeats(seq![x, y]));
    collapsing_keeps_what_does_not_repeat(seq![x, y]);
}

/// Two marks of one kind side by side count as one, in its full-width form, wherever they stand:
/// with [`collapsing_keeps_what_does_not_repeat`], this says what collapsing gives.
pub proof fn collapsing_merges_neighbours(a: Seq<char>, x: char, y: char, b: Seq<char>)
    requires
        same_kind(x, y),
    ensures
        collapsed(a + seq![x, y] + b) == collapsed(a + seq![kind(x)->0] + b),
    decreases b.len(),
{
    let one = kind(x)->0;
    let p = a + seq![x, y];
    let q = a + seq![one];
    if b.len() == 0 {
        assert(p + b =~= p);
        assert(q + b =~= q);
        let px = a.push(x);
        assert(p.drop_last() =~= px);
        assert(px.drop_last() =~= a);
        assert(q.drop_last() =~= a);
        assert(kind(one) == Some(one));
        let c = collapsed(a);
        let cx = collapsed(px);
        if c.len() > 0 && same_kind(c.last(), x) {
            assert(cx == c.drop_last().push(one));
            assert(cx.drop_last() =~= c.drop_last());
        } else {
            assert(cx == c.push(x));
            assert(cx.drop_last() =~= c);
        }
    } else {
        collapsing_merges_neighbours(a, x, y, b.drop_last());
        assert((p + b).drop_last() =~= p + b.drop_last());
        assert((q + b).drop_last() =~= q + b.drop_last());
        assert((p + b).last() == b.last());
        assert((q + b).last() == b.last());
    }
}

/// A space before a full-width mark counts for nothing when a text is tidied: with the law that
/// other texts stay, this says what tidying gives.
proof fn lemma_tidied_space(a: Seq<char>, m: char, b: Seq<char>)
    requires
        is_full_mark(m),
    ensures
        tidied(a + seq![' ', m] + b) == tidied(a + seq![m] + b),
    decreases a.len(),
{
    let p = a + seq![' ', m] + b;
    let q = a + seq![m] + b;
    if a.len() == 0 {
        assert(p.drop_first() =~= q);
        assert(q.first() == m);
        assert(m != ' ');
        assert(tidied(q).first() == m);
    } else {
        lemma_tidied_space(a.drop_first(), m, b);
        assert(p.drop_first() =~= a.drop_first() + seq![' ', m] + b);
        assert(q.drop_first() =~= a.drop_first() + seq![m] + b);
    }
}

/// Nothing but spaces.
pub open spec fn only_blanks(s: Seq<char>) -> bool {
    forall|i: int| 0 <= i < s.len() ==> #[trigger] s[i] == ' '
}

proof fn lemma_tidied_spaces(a: Seq<char>, spaces: Seq<char>, m: char, b: Seq<char>)
    requires
        is_full_mark(m),
        only_blanks(spaces),
    ensures
        tidied(a + spaces + seq![m] + b) == tidied(a + seq![m] + b),
    decreases spaces.len(),
{
    if spaces.len() == 0 {
        assert(a + spaces =~= a);
    } else {
        let init = spaces.drop_last();
        assert(spaces[spaces.len() - 1] == ' ');
        assert(a + spaces + seq![m] + b =~= (a + init) + seq![' ', m] + b);
        lemma_tidied_space(a + init, m, b);
        assert forall|i: int| 0 <= i < init.len() implies #[trigger] init[i] == ' ' by {
            assert(init[i] == spaces[i]);
        }
        lemma_tidied_spaces(a, init, m, b);
    }
}

proof fn lemma_drop_blanks(a: Seq<char>, spaces: Seq<char>, b: Seq<char>)
    requires
        only_blanks(spaces),
    ensures
        a.len() > 0 && a.last() != ' ' ==> drop_end_spaces(a + spaces) == a,
        b.len() == 0 || b.first() != ' ' ==> drop_start_spaces(spaces + b) == b,
    decreases spaces.len(),
{
    if spaces.len() == 0 {
        assert(a + spaces =~= a);
        assert(spaces + b =~= b);
    } else {
        let init = spaces.drop_last();
        let tail = spaces.drop_first();
        assert(spaces[spaces.len() - 1] == ' ' && spaces[0] == ' ');
        assert forall|i: int| 0 <= i < init.len() implies #[trigger] init[i] == ' ' by {
            assert(init[i] == spaces[i]);
        }
        assert forall|i: int| 0 <= i < tail.len() implies #[trigger] tail[i] == ' ' by {
            assert(tail[i] == spaces[i + 1]);
        }
        lemma_drop_blanks(a, init, b);
        lemma_drop_blanks(a, tail, b);
        assert((a + spaces).drop_last() =~= a + init);
        assert((spaces + b).drop_first() =~= tail + b);
    }
}

/// Texts that hold no stand-ins hold none together, and are not changed by unmasking.
proof fn lemma_no_breaks(s: Seq<char>)
    requires
        no_masks(s),
    ensures
        !s.contains(NEWLINE_MASK),
        s.map_values(|c: char| unmasked(c)) == s,
{
    if s.contains(NEWLINE_MASK) {
        let i = choose|i: int| 0 <= i < s.len() && s[i] == NEWLINE_MASK;
        assert(!is_mask(s[i]));
    }
    assert forall|i: int| 0 <= i < s.len() implies unmasked(#[trigger] s[i]) == s[i] by {
        assert(!is_mask(s[i]));
    }
    assert(s.map_values(|c: char| unmasked(c)) =~= s);
}

/// A clean text stays settled.
proof fn lemma_settled_keeps(s: Seq<char>)
    requires
        no_repeats(s),
        no_space_before_mark(s),
    ensures
        settled(s) == s,
{
    collapsing_keeps_what_does_not_repeat(s);
    lemma_tidied_keeps(s);
}

/// A clean text, a mark, spaces, a character that is no mark like the one before, and a clean text:
/// no marks repeat.
proof fn lemma_spread(a: Seq<char>, own: char, spaces: Seq<char>, x: char, b: Seq<char>)
    requires
        makes_room(a, b),
        only_blanks(spaces),
        kind(x) is None || spaces.len() > 0,
    ensures
        no_repeats(a + seq![own] + spaces + seq![x] + b),
{
    let s = a + seq![own] + spaces + seq![x] + b;
    let n = a.len() as int;
    let p = n + 1 + spaces.len();
    assert forall|i: int| 0 < i < s.len() implies !same_kind(s[i - 1], #[trigger] s[i]) by {
        if i < n {
            assert(!same_kind(a[i - 1], a[i]));
        } else if i == n {
            assert(s[i - 1] == a.last());
        } else if i < p {
            assert(s[i] == spaces[i - n - 1]);
        } else if i == p {
            if spaces.len() > 0 {
                assert(s[i - 1] == spaces[spaces.len() - 1]);
            }
        } else if i == p + 1 {
            assert(s[i] == b.first());
        } else {
            assert(s[i] == b[i - p - 1] && s[i - 1] == b[i - p - 2]);
            assert(!same_kind(b[i - p - 2], b[i - p - 1]));
        }
    }
}

/// Two marks of one kind between clean texts.
proof fn lemma_settled_pair(a: Seq<char>, own: char, m: char, b: Seq<char>)
    requires
        makes_room(a, b),
        kind(own) == Some(m),
    ensures
        settled(a + seq![own, m] + b) == a + seq![m] + b,
        no_space_before_mark(a + seq![own, m] + b),
{
    let r = a + seq![m] + b;
    let near = a + seq![own, m] + b;
    let n = a.len() as int;
    assert(kind(m) == Some(m));
    assert(m != ' ' && own != ' ');
    lemma_joined(a, m, b);
    lemma_settled_keeps(r);
    collapsing_merges_neighbours(a, own, m, b);
    collapsing_keeps_what_does_not_repeat(r);
    lemma_tidied_keeps(r);
    assert forall|i: int| 0 < i < near.len() && is_full_mark(#[trigger] near[i]) implies near[i
        - 1] != ' ' by {
        if i < n {
            assert(is_full_mark(a[i]));
        } else if i == n {
            assert(near[i - 1] == a.last());
        } else if i > n + 2 {
            assert(near[i] == b[i - n - 2] && near[i - 1] == b[i - n - 3]);
            assert(is_full_mark(b[i - n - 2]));
        }
    }
}

proof fn lemma_settled_step(s: Seq<char>, next: Seq<char>)
    requires
        collapsed(s) == s,
        tidied(s) == next,
        next.len() < s.len(),
    ensures
        settled(s) == settled(next),
{
}

/// Spaces between a mark and a full-width mark go.
proof fn lemma_tidied_between(a: Seq<char>, own: char, spaces: Seq<char>, m: char, b: Seq<char>)
    requires
        is_full_mark(m),
        only_blanks(spaces),
        no_space_before_mark(a + seq![own, m] + b),
    ensures
        tidied(a + seq![own] + spaces + seq![m] + b) == a + seq![own, m] + b,
{
    let near = a + seq![own, m] + b;
    lemma_tidied_spaces(a + seq![own], spaces, m, b);
    assert(a + seq![own] + seq![m] + b =~= near);
    lemma_tidied_keeps(near);
}

/// One of the transcriber's own marks, with spaces behind it, and then the mark of the same kind.
proof fn lemma_settled_merges(a: Seq<char>, own: char, spaces: Seq<char>, m: char, b: Seq<char>)
    requires
        makes_room(a, b),
        only_blanks(spaces),
        kind(own) == Some(m),
    ensures
        settled(a + seq![own] + spaces + seq![m] + b) == a + seq![m] + b,
{
    let s = a + seq![own] + spaces + seq![m] + b;
    let near = a + seq![own, m] + b;
    lemma_settled_pair(a, own, m, b);
    if spaces.len() == 0 {
        assert(s =~= near);
    } else {
        assert(kind(m) == Some(m));
        lemma_spread(a, own, spaces, m, b);
        collapsing_keeps_what_does_not_repeat(s);
        lemma_tidied_between(a, own, spaces, m, b);
        lemma_settled_step(s, near);
    }
}

proof fn lemma_marks_merge(a: Seq<char>, own: char, spaces: Seq<char>, k: int, b: Seq<char>)
    requires
        a.len() > 0,
        makes_room(a, b),
        only_blanks(spaces),
        0 <= k < command_table().len(),
        command_table()[k].1 != NEWLINE_MASK,
        kind(own) == Some(unmasked(command_table()[k].1)),
        only_command(
            a + seq![own] + spaces + command_table()[k].0 + b,
            command_table()[k].0,
            (a.len() + 1 + spaces.len()) as int,
        ),
    ensures
        normalized(a + seq![own] + spaces + command_table()[k].0 + b) == a + seq![
            unmasked(command_table()[k].1),
        ] + b,
{
    let e = command_table()[k];
    let head = a + seq![own] + spaces;
    lemma_command_entries(k);
    lemma_masked_text(head, k, b);
    let m = head + seq![e.1] + b;
    let n = a.len() as int;
    lemma_spread(a, own, spaces, e.1, b);
    collapsing_keeps_what_does_not_repeat(m);
    assert(no_masks(head)) by {
        assert forall|i: int| 0 <= i < head.len() implies !is_mask(#[trigger] head[i]) by {
            if i < n {
                assert(!is_mask(a[i]));
            } else if i > n {
                assert(spaces[i - n - 1] == ' ');
            }
        }
    }
    lemma_no_breaks(head);
    lemma_no_breaks(b);
    assert(!m.contains(NEWLINE_MASK)) by {
        if m.contains(NEWLINE_MASK) {
            let i = choose|i: int| 0 <= i < m.len() && m[i] == NEWLINE_MASK;
            if i < head.len() {
                assert(head.contains(head[i]));
            } else if i > head.len() {
                assert(b.contains(b[i - head.len() - 1]));
            }
        }
    }
    lemma_absorb_without_breaks(Seq::empty(), m);
    assert(Seq::<char>::empty() + m =~= m);
    let u = unmasked(e.1);
    assert(m.map_values(|c: char| unmasked(c)) =~= head + seq![u] + b) by {
        let f = |c: char| unmasked(c);
        assert forall|i: int| 0 <= i < m.len() implies unmasked(#[trigger] m[i]) == (head + seq![u]
            + b)[i] by {
            if i < head.len() {
                assert(head.map_values(f)[i] == head[i]);
            } else if i > head.len() {
                assert(b.map_values(f)[i - head.len() - 1] == b[i - head.len() - 1]);
            }
        }
    }
    lemma_settled_merges(a, own, spaces, u, b);
}

/// A commanded mark and the transcriber's own mark of the same kind, half- or full-width and with or
/// without spaces between, become one full-width mark.
pub proof fn commanded_marks_merge_with_the_transcribers(
    a: Seq<char>,
    own: char,
    spaces: Seq<char>,
    word: Seq<char>,
    b: Seq<char>,
)
    requires
        a.len() > 0,
        makes_room(a, b),
        only_blanks(spaces),
        only_command(
            a + seq![own] + spaces + word + b,
            word,
            (a.len() + 1 + spaces.len()) as int,
        ),
    ensures
        word == "逗點"@ && kind(own) == Some('，') ==> normalized(
            a + seq![own] + spaces + word + b,
        ) == a + seq!['，'] + b,
        word == "逗號"@ && kind(own) == Some('，') ==> normalized(
            a + seq![own] + spaces + word + b,
        ) == a + seq!['，'] + b,
        word == "鬥點"@ && kind(own) == Some('，') ==> normalized(
            a + seq![own] + spaces + word + b,
        ) == a + seq!['，'] + b,
        word == "鬥號"@ && kind(own) == Some('，') ==> normalized(
            a + seq![own] + spaces + word + b,
        ) == a + seq!['，'] + b,
        word == "豆點"@ && kind(own) == Some('，') ==> normalized(
            a + seq![own] + spaces + word + b,
        ) == a + seq!['，'] + b,
        word == "豆號"@ && kind(own) == Some('，') ==> normalized(
            a + seq![own] + spaces + word + b,
        ) == a + seq!['，'] + b,
        word == "都點"@ && kind(own) == Some('，') ==> normalized(
            a + seq![own] + spaces + word + b,
        ) == a + seq!['，'] + b,
        word == "抖點"@ && kind(own) == Some('，') ==> normalized(
            a + seq![own] + spaces + word + b,
        ) == a + seq!['，'] + b,
        word == "逗典"@ && kind(own) == Some('，') ==> normalized(
            a + seq![own] + spaces + word + b,
        ) == a + seq!['，'] + b,
        word == "兜點"@ && kind(own) == Some('，') ==> normalized(
            a + seq![own] + spaces + word + b,
        ) == a + seq!['，'] + b,
        word == "句點"@ && kind(own) == Some('。') ==> normalized(
            a + seq![own] + spaces + word + b,
        ) == a + seq!['。'] + b,
        word == "句號"@ && kind(own) == Some('。') ==> normalized(
            a + seq![own] + spaces + word + b,
        ) == a + seq!['。'] + b,
        word == "聚點"@ && kind(own) == Some('。') ==> normalized(
            a + seq![own] + spaces + word + b,
        ) == a + seq!['。'] + b,
        word == "聚號"@ && kind(own) == Some('。') ==> normalized(
            a + seq![own] + spaces + word + b,
        ) == a + seq!['。'] + b,
        word == "據點"@ && kind(own) == Some('。') ==> normalized(
            a + seq![own] + spaces + word + b,
        ) == a + seq!['。'] + b,
        word == "巨點"@ && kind(own) == Some('。') ==> normalized(
            a + seq![own] + spaces + word + b,
        ) == a + seq!['。'] + b,
        word == "問號"@ && kind(own) == Some('？') ==> normalized(
            a + seq![own] + spaces + word + b,
        ) == a + seq!['？'] + b,
        word == "驚嘆號"@ && kind(own) == Some('！') ==> normalized(
            a + seq![own] + spaces + word + b,
        ) == a + seq!['！'] + b,
        word == "感嘆號"@ && kind(own) == Some('！') ==> normalized(
            a + seq![own] + spaces + word + b,
        ) == a + seq!['！'] + b,
        word == "京嘆號"@ && kind(own) == Some('！') ==> normalized(
            a + seq![own] + spaces + word + b,
        ) == a + seq!['！'] + b,
        word == "趕嘆號"@ && kind(own) == Some('！') ==> normalized(
            a + seq![own] + spaces + word + b,
        ) == a + seq!['！'] + b,
        word == "冒號"@ && kind(own) == Some('：') ==> normalized(
            a + seq![own] + spaces + word + b,
        ) == a + seq!['：'] + b,
        word == "分號"@ && kind(own) == Some('；') ==> normalized(
            a + seq![own] + spaces + word + b,
        ) == a + seq!['；'] + b,
        word == "份號"@ && kind(own) == Some('；') ==> normalized(
            a + seq![own] + spaces + word + b,
        ) == a + seq!['；'] + b,
        word == "頓號"@ && kind(own) == Some('、') ==> normalized(
            a + seq![own] + spaces + word + b,
        ) == a + seq!['、'] + b,
{
    if word == "逗點"@ && kind(own) == Some('，') {
        lemma_marks_merge(a, own, spaces, 0, b);
    }
    if word == "逗號"@ && kind(own) == Some('，') {
        lemma_marks_merge(a, own, spaces, 1, b);
    }
    if word == "鬥點"@ && kind(own) == Some('，') {
        lemma_marks_merge(a, own, spaces, 2, b);
    }
    if word == "鬥號"@ && kind(own) == Some('，') {
        lemma_marks_merge(a, own, spaces, 3, b);
    }
    if word == "豆點"@ && kind(own) == Some('，') {
        lemma_marks_merge(a, own, spaces, 4, b);
    }
    if word == "豆號"@ && kind(own) == Some('，') {
        lemma_marks_merge(a, own, spaces, 5, b);
    }
    if word == "都點"@ && kind(own) == Some('，') {
        lemma_marks_merge(a, own, spaces, 6, b);
    }
    if word == "抖點"@ && kind(own) == Some('，') {
        lemma_marks_merge(a, own, spaces, 7, b);
    }
    if word == "逗典"@ && kind(own) == Some('，') {
        lemma_marks_merge(a, own, spaces, 8, b);
    }
    if word == "兜點"@ && kind(own) == Some('，') {
        lemma_marks_merge(a, own, spaces, 9, b);
    }
    if word == "句點"@ && kind(own) == Some('。') {
        lemma_marks_merge(a, own, spaces, 10, b);
    }
    if word == "句號"@ && kind(own) == Some('。') {
        lemma_marks_merge(a, own, spaces, 11, b);
    }
    if word == "聚點"@ && kind(own) == Some('。') {
        lemma_marks_merge(a, own, spaces, 12, b);
    }
    if word == "聚號"@ && kind(own) == Some('。') {
        lemma_marks_merge(a, own, spaces, 13, b);
    }
    if word == "據點"@ && kind(own) == Some('。') {
        lemma_marks_merge(a, own, spaces, 14, b);
    }
    if word == "巨點"@ && kind(own) == Some('。') {
        lemma_marks_merge(a, own, spaces, 15, b);
    }
    if word == "問號"@ && kind(own) == Some('？') {
        lemma_marks_merge(a, own, spaces, 16, b);
    }
    if word == "驚嘆號"@ && kind(own) == Some('！') {
        lemma_marks_merge(a, own, spaces, 17, b);
    }
    if word == "感嘆號"@ && kind(own) == Some('！') {
        lemma_marks_merge(a, own, spaces, 18, b);
    }
    if word == "京嘆號"@ && kind(own) == Some('！') {
        lemma_marks_merge(a, own, spaces, 19, b);
    }
    if word == "趕嘆號"@ && kind(own) == Some('！') {
        lemma_marks_merge(a, own, spaces, 20, b);
    }
    if word == "冒號"@ && kind(own) == Some('：') {
        lemma_marks_merge(a, own, spaces, 21, b);
    }
    if word == "分號"@ && kind(own) == Some('；') {
        lemma_marks_merge(a, own, spaces, 22, b);
    }
    if word == "份號"@ && kind(own) == Some('；') {
        lemma_marks_merge(a, own, spaces, 23, b);
    }
    if word == "頓號"@ && kind(own) == Some('、') {
        lemma_marks_merge(a, own, spaces, 24, b);
    }
}

/// Marks and spaces before and behind a commanded line break, once its word is masked.
proof fn lemma_break_settles(head: Seq<char>, kept: Seq<char>, tail: Seq<char>, b: Seq<char>)
    requires
        no_masks(head),
        kept_before(head) == kept,
        kept_after(tail) == b,
        no_masks(b),
        no_masks(kept),
        no_repeats(head + seq![NEWLINE_MASK] + tail),
        no_repeats(kept + seq!['\n'] + b),
        no_space_before_mark(kept + seq!['\n'] + b),
    ensures
        settled(
            absorbed(collapsed(head + seq![NEWLINE_MASK] + tail)).map_values(
                |c: char| unmasked(c),
            ),
        ) == kept + seq!['\n'] + b,
{
    let m = head + seq![NEWLINE_MASK] + tail;
    collapsing_keeps_what_does_not_repeat(m);
    lemma_no_breaks(head);
    lemma_no_breaks(b);
    lemma_no_breaks(kept);
    let rest = seq![NEWLINE_MASK] + tail;
    assert(m =~= head + rest);
    lemma_absorb_prefix(Seq::empty(), head, rest);
    assert(Seq::<char>::empty() + head =~= head);
    assert(rest.drop_first() =~= tail);
    lemma_absorb_without_breaks(kept.push(NEWLINE_MASK), b);
    let after = kept + seq![NEWLINE_MASK] + b;
    assert(kept.push(NEWLINE_MASK) + b =~= after);
    let r = kept + seq!['\n'] + b;
    assert(after.map_values(|c: char| unmasked(c)) =~= r) by {
        let f = |c: char| unmasked(c);
        assert forall|i: int| 0 <= i < after.len() implies unmasked(#[trigger] after[i])
            == r[i] by {
            if i < kept.len() {
                assert(kept.map_values(f)[i] == kept[i]);
            } else if i > kept.len() {
                assert(b.map_values(f)[i - kept.len() - 1] == b[i - kept.len() - 1]);
            }
        }
    }
    lemma_settled_keeps(r);
}

proof fn lemma_mark_before_break(a: Seq<char>, own: char, spaces: Seq<char>, k: int, b: Seq<char>)
    requires
        a.len() > 0,
        makes_room(a, b),
        only_blanks(spaces),
        kind(own) is Some,
        0 <= k < command_table().len(),
        command_table()[k].1 == NEWLINE_MASK,
        only_command(
            a + seq![own] + spaces + command_table()[k].0 + b,
            command_table()[k].0,
            (a.len() + 1 + spaces.len()) as int,
        ),
    ensures
        normalized(a + seq![own] + spaces + command_table()[k].0 + b) == a + seq![own] + seq![
            '\n',
        ] + b,
{
    let kept = a + seq![own];
    let head = kept + spaces;
    let n = a.len() as int;
    lemma_masked_text(head, k, b);
    assert(no_masks(kept)) by {
        assert forall|i: int| 0 <= i < kept.len() implies !is_mask(#[trigger] kept[i]) by {
            if i < n {
                assert(!is_mask(a[i]));
            }
        }
    }
    assert(no_masks(head)) by {
        assert forall|i: int| 0 <= i < head.len() implies !is_mask(#[trigger] head[i]) by {
            if i <= n {
                assert(!is_mask(kept[i]));
            } else {
                assert(spaces[i - n - 1] == ' ');
            }
        }
    }
    assert(kept.last() == own);
    lemma_drop_blanks(kept, spaces, b);
    assert(kept_before(head) == kept) by {
        assert(kept[kept.len() - 2] == a.last());
        assert(!is_mask(a[n - 1]));
    }
    assert(kept_after(b) == b);
    let m = head + seq![NEWLINE_MASK] + b;
    lemma_spread(a, own, spaces, NEWLINE_MASK, b);
    lemma_broken(a, own, b);
    lemma_break_settles(head, kept, b, b);
}

/// A clean text, a mark, a line break, and a clean text are clean together.
proof fn lemma_broken(a: Seq<char>, own: char, b: Seq<char>)
    requires
        a.len() > 0,
        makes_room(a, b),
        kind(own) is Some,
    ensures
        no_repeats(a + seq![own] + seq!['\n'] + b),
        no_space_before_mark(a + seq![own] + seq!['\n'] + b),
{
    let r = a + seq![own] + seq!['\n'] + b;
    let n = a.len() as int;
    assert forall|i: int| 0 < i < r.len() implies !same_kind(r[i - 1], #[trigger] r[i]) by {
        if i < n {
            assert(!same_kind(a[i - 1], a[i]));
        } else if i == n {
            assert(r[i - 1] == a.last());
        } else if i == n + 1 {
            assert(r[i] == '\n');
        } else if i == n + 2 {
            assert(r[i] == b.first());
        } else {
            assert(!same_kind(b[i - n - 3], b[i - n - 2]));
        }
    }
    assert forall|i: int| 0 < i < r.len() && is_full_mark(#[trigger] r[i]) implies r[i - 1]
        != ' ' by {
        if i < n {
            assert(is_full_mark(a[i]));
        } else if i == n {
            assert(r[i - 1] == a.last());
        } else if i == n + 1 {
            assert(r[i] == '\n');
        } else if i > n + 2 {
            assert(is_full_mark(b[i - n - 2]));
        }
    }
}

proof fn lemma_mark_after_break(
    a: Seq<char>,
    k: int,
    spaces: Seq<char>,
    own: char,
    more: Seq<char>,
    b: Seq<char>,
)
    requires
        makes_room(a, b),
        only_blanks(spaces),
        only_blanks(more),
        kind(own) is Some,
        0 <= k < command_table().len(),
        command_table()[k].1 == NEWLINE_MASK,
        only_command(
            a + command_table()[k].0 + (spaces + seq![own] + more + b),
            command_table()[k].0,
            a.len() as int,
        ),
    ensures
        normalized(a + command_table()[k].0 + (spaces + seq![own] + more + b)) == a + seq!['\n'] + b,
{
    let tail = spaces + seq![own] + more + b;
    let n = a.len() as int;
    let q = spaces.len() as int;
    lemma_masked_text(a, k, tail);
    let rest = seq![own] + more + b;
    assert(tail =~= spaces + rest);
    lemma_drop_blanks(a, spaces, rest);
    assert(rest.first() == own);
    assert(drop_start_spaces(tail) == rest);
    assert(rest.drop_first() =~= more + b);
    lemma_drop_blanks(a, more, b);
    assert(kept_after(tail) == b);
    assert(kept_before(a) == a);
    let m = a + seq![NEWLINE_MASK] + tail;
    assert(no_repeats(m)) by {
        assert forall|i: int| 0 < i < m.len() implies !same_kind(m[i - 1], #[trigger] m[i]) by {
            let at = n + 1 + q;
            let p = at + 1 + more.len();
            if i < n {
                assert(!same_kind(a[i - 1], a[i]));
            } else if i == n {
                assert(m[i] == NEWLINE_MASK);
            } else if i < at {
                assert(m[i] == spaces[i - n - 1]);
            } else if i == at {
                if q > 0 {
                    assert(m[i - 1] == spaces[q - 1]);
                } else {
                    assert(m[i - 1] == NEWLINE_MASK);
                }
            } else if i < p {
                assert(m[i] == more[i - at - 1]);
            } else if i == p {
                assert(m[i] == b.first());
            } else {
                assert(m[i] == b[i - p] && m[i - 1] == b[i - p - 1]);
                assert(!same_kind(b[i - p - 1], b[i - p]));
            }
        }
    }
    lemma_joined(a, '\n', b);
    lemma_break_settles(a, a, tail, b);
}

/// What a commanded line break leaves of the transcriber's own marks and spaces: a mark right after a
/// word, before the break, stays, for it may have been commanded; a mark behind the break goes; and
/// so do the spaces on both sides.
pub proof fn line_breaks_keep_marks_after_words_only(
    a: Seq<char>,
    own: char,
    spaces: Seq<char>,
    more: Seq<char>,
    word: Seq<char>,
    b: Seq<char>,
)
    requires
        a.len() > 0,
        makes_room(a, b),
        only_blanks(spaces),
        only_blanks(more),
        kind(own) is Some,
        ({
            ||| word == "換行"@
            ||| word == "新一行"@
            ||| word == "新行"@
            ||| word == "喚行"@
            ||| word == "緩行"@
            ||| word == "荒航"@
            ||| word == "換航"@
        }),
        only_command(
            a + seq![own] + spaces + word + b,
            word,
            (a.len() + 1 + spaces.len()) as int,
        ),
        only_command(a + word + (spaces + seq![own] + more + b), word, a.len() as int),
    ensures
        normalized(a + seq![own] + spaces + word + b) == a + seq![own] + seq!['\n'] + b,
        normalized(a + word + (spaces + seq![own] + more + b)) == a + seq!['\n'] + b,
{
    if word == "換行"@ {
        lemma_mark_before_break(a, own, spaces, 25, b);
        lemma_mark_after_break(a, 25, spaces, own, more, b);
    }
    if word == "新一行"@ {
        lemma_mark_before_break(a, own, spaces, 26, b);
        lemma_mark_after_break(a, 26, spaces, own, more, b);
    }
    if word == "新行"@ {
        lemma_mark_before_break(a, own, spaces, 27, b);
        lemma_mark_after_break(a, 27, spaces, own, more, b);
    }
    if word == "喚行"@ {
        lemma_mark_before_break(a, own, spaces, 28, b);
        lemma_mark_after_break(a, 28, spaces, own, more, b);
    }
    if word == "緩行"@ {
        lemma_mark_before_break(a, own, spaces, 29, b);
        lemma_mark_after_break(a, 29, spaces, own, more, b);
    }
    if word == "荒航"@ {
        lemma_mark_before_break(a, own, spaces, 30, b);
        lemma_mark_after_break(a, 30, spaces, own, more, b);
    }
    if word == "換航"@ {
        lemma_mark_before_break(a, own, spaces, 31, b);
        lemma_mark_after_break(a, 31, spaces, own, more, b);
    }
}

} // verus!
