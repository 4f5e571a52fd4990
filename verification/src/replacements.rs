//! The user's table of corrections: what was heard, and what it should have been.
//!
//! The table is kept in a text file, one rule a line: `heard => correct`. Lines that start with
//! `#` are comments. Applied to a transcript, every rule is a plain replacement of text.

use vstd::prelude::*;
use vstd::slice::slice_subrange;
use crate::error::RaflowError;
use crate::text::{
    eq_folded, find, has_char, join_lines, lines, push_all, same_chars, to_chars, to_text, trim,
};
use crate::text::{
    contains_text, lemma_lines_have_no_feed, lemma_lines_of_unlines, lemma_position_of,
    lemma_position_of_is, lemma_trimmed_ends, lemma_trimmed_prepend_space,
    lemma_trimmed_push_space, lines_of, occurs_at, position_of, same_folded, trimmed, unlines,
    views, without_cr,
};

verus! {

/// A table of corrections: what was heard, and what it should have been.
pub type Replacements = Vec<(String, String)>;

/// A rule as text: what was heard, and what it should have been.
pub type RuleText = (Seq<char>, Seq<char>);

/// The rules of a table as text.
pub open spec fn rule_texts(table: Seq<(String, String)>) -> Seq<RuleText> {
    table.map_values(|r: (String, String)| (r.0@, r.1@))
}

// ---------------------------------------------------------------------------
// Reading a table
// ---------------------------------------------------------------------------

/// What stands before and after the first `=>` of a line that is neither blank nor a comment.
pub open spec fn sides_of(line: Seq<char>) -> Option<RuleText> {
    let t = trimmed(line);
    if t.len() == 0 || t.first() == '#' {
        None
    } else {
        match position_of(t, "=>"@) {
            Some(i) => Some((trimmed(t.take(i)), trimmed(t.skip(i + 2)))),
            None => None,
        }
    }
}

/// The rule on a line: both of its sides have to hold something.
pub open spec fn rule_of(line: Seq<char>) -> Option<RuleText> {
    match sides_of(line) {
        Some((from, to)) => if from.len() == 0 || to.len() == 0 {
            None
        } else {
            Some((from, to))
        },
        None => None,
    }
}

/// The rules on some lines, in order.
pub open spec fn rules_in(lines: Seq<Seq<char>>) -> Seq<RuleText>
    decreases lines.len(),
{
    if lines.len() == 0 {
        Seq::empty()
    } else {
        match rule_of(lines.last()) {
            Some(rule) => rules_in(lines.drop_last()).push(rule),
            None => rules_in(lines.drop_last()),
        }
    }
}

/// `rule` put into `table` behind every rule whose left side is at least as long.
pub open spec fn inserted(table: Seq<RuleText>, rule: RuleText) -> Seq<RuleText>
    decreases table.len(),
{
    if table.len() == 0 || table.last().0.len() >= rule.0.len() {
        table.push(rule)
    } else {
        inserted(table.drop_last(), rule).push(table.last())
    }
}

/// Rules with longer left sides first; those of equal length keep their order.
pub open spec fn longest_first(rules: Seq<RuleText>) -> Seq<RuleText>
    decreases rules.len(),
{
    if rules.len() == 0 {
        rules
    } else {
        inserted(longest_first(rules.drop_last()), rules.last())
    }
}

/// The table that a file holds.
pub open spec fn table_of(contents: Seq<char>) -> Seq<RuleText> {
    longest_first(rules_in(lines_of(contents)))
}

proof fn lemma_inserted_at(table: Seq<RuleText>, rule: RuleText, at: int)
    requires
        0 <= at <= table.len(),
        at > 0 ==> table[at - 1].0.len() >= rule.0.len(),
        forall|k: int| at <= k < table.len() ==> (#[trigger] table[k]).0.len() < rule.0.len(),
    ensures
        inserted(table, rule) == table.insert(at, rule),
    decreases table.len(),
{
    if at == table.len() {
        assert(table.insert(at, rule) == table.push(rule));
    } else {
        assert(table.last() == table[table.len() - 1]);
        assert forall|k: int| at <= k < table.drop_last().len() implies (
        #[trigger] table.drop_last()[k]).0.len() < rule.0.len() by {
            assert(table.drop_last()[k] == table[k]);
        }
        lemma_inserted_at(table.drop_last(), rule, at);
        assert(table.drop_last().insert(at, rule).push(table.last()) == table.insert(at, rule));
    }
}

/// The sides of a rule line.
fn split_line(line: &[char]) -> (sides: Option<(Vec<char>, Vec<char>)>)
    ensures
        match sides {
            Some((from, to)) => sides_of(line@) == Some((from@, to@)),
            None => sides_of(line@) is None,
        },
{
    let t = trim(line);
    if t.len() == 0 || t[0] == '#' {
        return None;
    }
    let arrow = to_chars("=>");
    proof {
        reveal_strlit("=>");
    }
    match find(t, arrow.as_slice()) {
        Some(i) => {
            let mut from: Vec<char> = Vec::new();
            push_all(&mut from, trim(slice_subrange(t, 0, i)));
            let mut to: Vec<char> = Vec::new();
            push_all(&mut to, trim(slice_subrange(t, i + 2, t.len())));
            assert(t@.subrange(0, i as int) == t@.take(i as int));
            assert(t@.subrange(i + 2, t@.len() as int) == t@.skip(i + 2));
            Some((from, to))
        },
        None => None,
    }
}

/// Reads a table of corrections: one rule `heard => correct` a line. Comments, blank lines and
/// lines without `=>` or with an empty side are passed over. Longer left sides come first, so a
/// short rule cannot break up what a longer one is meant for.
pub fn parse_replacements(contents: &str) -> (table: Replacements)
    ensures
        rule_texts(table@) == table_of(contents@),
{
    let all = lines(to_chars(contents).as_slice());
    let ghost ls = lines_of(contents@);
    let mut table: Replacements = Vec::new();
    let mut i: usize = 0;
    assert(rule_texts(table@) == Seq::<RuleText>::empty());
    while i < all.len()
        invariant
            i <= all@.len(),
            ls == views(all@),
            rule_texts(table@) == longest_first(rules_in(ls.take(i as int))),
        decreases all@.len() - i,
    {
        proof {
            assert(ls.take(i + 1).drop_last() == ls.take(i as int));
            assert(ls.take(i + 1).last() == all@[i as int]@);
        }
        match split_line(all[i].as_slice()) {
            Some((from, to)) => {
                if from.len() > 0 && to.len() > 0 {
                    let ghost before = rule_texts(table@);
                    let ghost rule = (from@, to@);
                    let mut at: usize = table.len();
                    while at > 0 && table[at - 1].0.as_str().unicode_len() < from.len()
                        invariant
                            at <= table@.len(),
                            before == rule_texts(table@),
                            forall|k: int|
                                at <= k < table@.len() ==> (#[trigger] before[k]).0.len()
                                    < from@.len(),
                        decreases at,
                    {
                        assert(before[at - 1].0 == table@[at - 1].0@);
                        at -= 1;
                    }
                    proof {
                        if at > 0 {
                            assert(before[at - 1].0 == table@[at - 1].0@);
                        }
                        lemma_inserted_at(before, rule, at as int);
                        let rules = rules_in(ls.take(i as int));
                        assert(rules_in(ls.take(i + 1)) == rules.push(rule));
                        assert(rules.push(rule).drop_last() == rules);
                    }
                    table.insert(at, (to_text(from.as_slice()), to_text(to.as_slice())));
                    assert(rule_texts(table@) == before.insert(at as int, rule));
                }
            },
            None => {},
        }
        i += 1;
    }
    assert(ls.take(i as int) == ls);
    table
}

// ---------------------------------------------------------------------------
// Applying a table
// ---------------------------------------------------------------------------

/// `p` stands at index `i` of `s`, up to the case of ASCII letters.
pub open spec fn folded_at(s: Seq<char>, p: Seq<char>, i: int) -> bool {
    0 <= i && i + p.len() <= s.len() && same_folded(s.subrange(i, i + p.len()), p)
}

/// Every occurrence of `p` in `s` up to the case of ASCII letters, taken from the left and without
/// overlap, becomes `r`. An empty pattern changes nothing.
pub open spec fn replaced_folded(s: Seq<char>, p: Seq<char>, r: Seq<char>) -> Seq<char>
    decreases s.len(),
{
    if s.len() == 0 || p.len() == 0 {
        s
    } else if folded_at(s, p, 0) {
        r + replaced_folded(s.skip(p.len() as int), p, r)
    } else {
        seq![s.first()] + replaced_folded(s.drop_first(), p, r)
    }
}

/// `s` with the rules of `table` applied one after the other.
pub open spec fn corrected(s: Seq<char>, table: Seq<RuleText>) -> Seq<char>
    decreases table.len(),
{
    if table.len() == 0 {
        s
    } else {
        replaced_folded(corrected(s, table.drop_last()), table.last().0, table.last().1)
    }
}

/// Replaces every occurrence of `from` in `s` by `to`, whatever the case of its ASCII letters.
pub fn replace_case_insensitive(s: &[char], from: &[char], to: &[char]) -> (out: Vec<char>)
    ensures
        out@ == replaced_folded(s@, from@, to@),
{
    let mut out: Vec<char> = Vec::new();
    if from.len() == 0 {
        push_all(&mut out, s);
        return out;
    }
    let n: usize = from.len();
    let mut i: usize = 0;
    assert(s@.skip(0) == s@);
    while i < s.len()
        invariant
            i <= s@.len(),
            n == from@.len() > 0,
            replaced_folded(s@, from@, to@) == out@ + replaced_folded(
                s@.skip(i as int),
                from@,
                to@,
            ),
        decreases s@.len() - i,
    {
        let ghost rest = s@.skip(i as int);
        let ghost before = out@;
        let hit = n <= s.len() - i && eq_folded(slice_subrange(s, i, i + n), from);
        assert(hit == folded_at(rest, from@, 0)) by {
            if i + n <= s@.len() {
                assert(rest.subrange(0, n as int) == s@.subrange(i as int, i + n));
            }
        }
        if hit {
            push_all(&mut out, to);
            i += n;
            assert(rest.skip(n as int) == s@.skip(i as int));
            assert(before + (to@ + replaced_folded(s@.skip(i as int), from@, to@)) == out@
                + replaced_folded(s@.skip(i as int), from@, to@));
        } else {
            out.push(s[i]);
            i += 1;
            assert(rest.drop_first() == s@.skip(i as int));
            assert(before + (seq![rest.first()] + replaced_folded(s@.skip(i as int), from@, to@))
                == out@ + replaced_folded(s@.skip(i as int), from@, to@));
        }
    }
    assert(s@.skip(i as int) == Seq::<char>::empty());
    assert(out@ + Seq::<char>::empty() == out@);
    out
}

/// Applies every rule of the table to `text`, in the order of the table.
pub fn apply_replacements(text: &str, replacements: &Replacements) -> (out: String)
    ensures
        out@ == corrected(text@, rule_texts(replacements@)),
{
    let ghost table = rule_texts(replacements@);
    let mut out = to_chars(text);
    let mut i: usize = 0;
    assert(table.take(0) == Seq::<RuleText>::empty());
    while i < replacements.len()
        invariant
            i <= replacements@.len(),
            table == rule_texts(replacements@),
            out@ == corrected(text@, table.take(i as int)),
        decreases replacements@.len() - i,
    {
        let from = to_chars(replacements[i].0.as_str());
        let to = to_chars(replacements[i].1.as_str());
        out = replace_case_insensitive(out.as_slice(), from.as_slice(), to.as_slice());
        i += 1;
        assert(table.take(i as int).drop_last() == table.take(i - 1));
        assert(table.take(i as int).last() == table[i - 1]);
    }
    assert(table.take(i as int) == table);
    to_text(out.as_slice())
}

// ---------------------------------------------------------------------------
// Learning a correction
// ---------------------------------------------------------------------------

/// The line that holds a rule.
pub open spec fn rule_line(heard: Seq<char>, correct: Seq<char>) -> Seq<char> {
    heard + " => "@ + correct
}

/// `line` is where a rule for `heard` stands, whatever the case of its ASCII letters.
pub open spec fn is_line_for(line: Seq<char>, heard: Seq<char>) -> bool {
    match sides_of(line) {
        Some((from, to)) => same_folded(from, heard),
        None => false,
    }
}

/// The first line on which a rule for `heard` stands.
pub open spec fn line_for(lines: Seq<Seq<char>>, heard: Seq<char>) -> Option<int>
    decreases lines.len(),
{
    if lines.len() == 0 {
        None
    } else {
        match line_for(lines.drop_last(), heard) {
            Some(i) => Some(i),
            None => if is_line_for(lines.last(), heard) {
                Some(lines.len() - 1)
            } else {
                None
            },
        }
    }
}

/// The lines with the rule in place: on the first line that has one for `heard`, or at the end.
pub open spec fn with_rule(lines: Seq<Seq<char>>, heard: Seq<char>, correct: Seq<char>) -> Seq<
    Seq<char>,
> {
    match line_for(lines, heard) {
        Some(i) => lines.update(i, rule_line(heard, correct)),
        None => lines.push(rule_line(heard, correct)),
    }
}

/// The text breaks its line.
pub open spec fn has_line_break(s: Seq<char>) -> bool {
    s.contains('\n') || s.contains('\r')
}

/// Why a correction cannot be kept: it would not come back from its line as it went in.
pub open spec fn fault_of(heard: Seq<char>, correct: Seq<char>) -> Option<Seq<char>> {
    if has_line_break(heard) || has_line_break(correct) {
        Some("heard/correct 不可含換行"@)
    } else if contains_text(heard, "=>"@) {
        Some("heard 不可含分隔符 =>"@)
    } else if heard.len() > 0 && heard.first() == '#' {
        Some("heard 不可以 # 開頭（會被當作註解）"@)
    } else {
        None
    }
}

/// There is something to correct: both sides hold something, and they differ.
pub open spec fn corrects(heard: Seq<char>, correct: Seq<char>) -> bool {
    heard.len() > 0 && correct.len() > 0 && heard != correct
}

/// What becomes of a file when a correction, both sides trimmed, is added to it: its new contents,
/// or the reason for refusing the correction.
pub open spec fn upserted(existing: Seq<char>, heard: Seq<char>, correct: Seq<char>) -> Result<
    Seq<char>,
    Seq<char>,
> {
    if !corrects(heard, correct) {
        Ok(existing)
    } else {
        match fault_of(heard, correct) {
            Some(detail) => Err(detail),
            None => Ok(unlines(with_rule(lines_of(existing), heard, correct))),
        }
    }
}

/// A result is the one that the model gives; a refusal is an invalid replacement with its reason.
pub open spec fn result_is(
    r: Result<String, RaflowError>,
    m: Result<Seq<char>, Seq<char>>,
) -> bool {
    match m {
        Ok(text) => r matches Ok(s) && s@ == text,
        Err(detail) => r matches Err(RaflowError::InvalidReplacement { detail: d }) && d@ == detail,
    }
}

pub(crate) fn breaks_line(s: &[char]) -> (b: bool)
    ensures
        b == has_line_break(s@),
{
    has_char(s, '\n') || has_char(s, '\r')
}

/// Adds a correction to the contents of a table file, or brings the rule that is there for the
/// same words up to date. The new contents come back, each line ended by one line feed; other
/// lines and comments stay as they are. Nothing changes where a side is empty or both are equal.
/// A correction that could not be read back as it is given is refused.
pub fn upsert_replacement(existing: &str, heard: &str, correct: &str) -> (r: Result<
    String,
    RaflowError,
>)
    ensures
        result_is(r, upserted(existing@, trimmed(heard@), trimmed(correct@))),
{
    let heard_chars = to_chars(heard);
    let correct_chars = to_chars(correct);
    let h = trim(heard_chars.as_slice());
    let c = trim(correct_chars.as_slice());
    if h.len() == 0 || c.len() == 0 || same_chars(h, c) {
        return Ok(existing.to_owned());
    }
    if breaks_line(h) || breaks_line(c) {
        return Err(
            RaflowError::InvalidReplacement { detail: "heard/correct 不可含換行".to_owned() },
        );
    }
    proof {
        lemma_position_of(h@, "=>"@);
    }
    if find(h, to_chars("=>").as_slice()).is_some() {
        return Err(
            RaflowError::InvalidReplacement { detail: "heard 不可含分隔符 =>".to_owned() },
        );
    }
    if h[0] == '#' {
        return Err(
            RaflowError::InvalidReplacement {
                detail: "heard 不可以 # 開頭（會被當作註解）".to_owned(),
            },
        );
    }
    let mut rule: Vec<char> = Vec::new();
    push_all(&mut rule, h);
    push_all(&mut rule, to_chars(" => ").as_slice());
    push_all(&mut rule, c);
    assert(rule@ == rule_line(h@, c@));
    let mut all = lines(to_chars(existing).as_slice());
    let ghost ls = lines_of(existing@);
    let mut at: Option<usize> = None;
    let mut i: usize = 0;
    while i < all.len()
        invariant
            i <= all@.len(),
            ls == views(all@),
            match at {
                Some(k) => k < i && line_for(ls.take(i as int), h@) == Some(k as int),
                None => line_for(ls.take(i as int), h@) is None,
            },
        decreases all@.len() - i,
    {
        proof {
            assert(ls.take(i + 1).drop_last() == ls.take(i as int));
            assert(ls.take(i + 1).last() == all@[i as int]@);
        }
        if at.is_none() {
            match split_line(all[i].as_slice()) {
                Some((from, to)) => {
                    if eq_folded(from.as_slice(), h) {
                        at = Some(i);
                    }
                },
                None => {},
            }
        }
        i += 1;
    }
    assert(ls.take(i as int) == ls);
    match at {
        Some(k) => {
            all.set(k, rule);
            assert(views(all@) == ls.update(k as int, rule_line(h@, c@)));
        },
        None => {
            all.push(rule);
            assert(views(all@) == ls.push(rule_line(h@, c@)));
        },
    }
    let out = join_lines(&all);
    Ok(to_text(out.as_slice()))
}

// ---------------------------------------------------------------------------
// What the table promises
// ---------------------------------------------------------------------------

/// Longer left sides come before shorter ones.
pub open spec fn is_longest_first(table: Seq<RuleText>) -> bool {
    forall|i: int, j: int|
        0 <= i <= j < table.len() ==> (#[trigger] table[i]).0.len() >= (#[trigger] table[j]).0.len()
}

/// The rules whose left side has `n` characters, in order.
pub open spec fn of_length(rules: Seq<RuleText>, n: nat) -> Seq<RuleText>
    decreases rules.len(),
{
    if rules.len() == 0 {
        rules
    } else if rules.last().0.len() == n {
        of_length(rules.drop_last(), n).push(rules.last())
    } else {
        of_length(rules.drop_last(), n)
    }
}

proof fn lemma_inserted_ordered(table: Seq<RuleText>, rule: RuleText)
    requires
        is_longest_first(table),
    ensures
        is_longest_first(inserted(table, rule)),
        forall|k: int|
            0 <= k < inserted(table, rule).len() ==> (#[trigger] inserted(table, rule)[k]) == rule
                || table.contains(inserted(table, rule)[k]),
        inserted(table, rule).len() == table.len() + 1,
        inserted(table, rule).contains(rule),
        forall|r: RuleText| table.contains(r) ==> inserted(table, rule).contains(r),
    decreases table.len(),
{
    let out = inserted(table, rule);
    if table.len() == 0 || table.last().0.len() >= rule.0.len() {
        assert forall|i: int, j: int| 0 <= i <= j < out.len() implies (#[trigger] out[i]).0.len()
            >= (#[trigger] out[j]).0.len() by {
            if j == table.len() && i < table.len() {
                assert(table[i].0.len() >= table[table.len() - 1].0.len());
            }
        }
        assert(out[table.len() as int] == rule);
        assert forall|r: RuleText| table.contains(r) implies out.contains(r) by {
            let k = choose|k: int| 0 <= k < table.len() && table[k] == r;
            assert(out[k] == r);
        }
        assert forall|k: int| 0 <= k < out.len() implies (#[trigger] out[k]) == rule
            || table.contains(out[k]) by {
            if k < table.len() {
                assert(out[k] == table[k]);
            }
        }
    } else {
        let init = table.drop_last();
        assert forall|i: int, j: int| 0 <= i <= j < init.len() implies (#[trigger] init[i]).0.len()
            >= (#[trigger] init[j]).0.len() by {
            assert(init[i] == table[i] && init[j] == table[j]);
        }
        lemma_inserted_ordered(init, rule);
        let rec = inserted(init, rule);
        assert forall|k: int| 0 <= k < rec.len() implies (#[trigger] rec[k]).0.len()
            >= table.last().0.len() by {
            if rec[k] != rule {
                let x = choose|x: int| 0 <= x < init.len() && init[x] == rec[k];
                assert(table[x].0.len() >= table[table.len() - 1].0.len());
            }
        }
        assert(out == rec.push(table.last()));
        assert forall|i: int, j: int| 0 <= i <= j < out.len() implies (#[trigger] out[i]).0.len()
            >= (#[trigger] out[j]).0.len() by {
            if j < rec.len() {
                assert(out[i] == rec[i] && out[j] == rec[j]);
            } else if i < rec.len() {
                assert(out[i] == rec[i]);
            }
        }
        let at = choose|k: int| 0 <= k < rec.len() && rec[k] == rule;
        assert(out[at] == rule);
        assert forall|r: RuleText| table.contains(r) implies out.contains(r) by {
            let k = choose|k: int| 0 <= k < table.len() && table[k] == r;
            if k < init.len() {
                assert(init[k] == r);
                assert(init.contains(r));
                assert(rec.contains(r));
                let x = choose|x: int| 0 <= x < rec.len() && rec[x] == r;
                assert(out[x] == r);
            } else {
                assert(out[rec.len() as int] == r);
            }
        }
        assert forall|k: int| 0 <= k < out.len() implies (#[trigger] out[k]) == rule
            || table.contains(out[k]) by {
            if k < rec.len() {
                assert(out[k] == rec[k]);
                if rec[k] != rule {
                    let x = choose|x: int| 0 <= x < init.len() && init[x] == rec[k];
                    assert(table[x] == out[k]);
                }
            } else {
                assert(table[table.len() - 1] == out[k]);
            }
        }
    }
}

/// Sorting puts longer left sides first, and loses no rule.
pub proof fn longest_first_is_ordered(rules: Seq<RuleText>)
    ensures
        is_longest_first(longest_first(rules)),
        longest_first(rules).len() == rules.len(),
        forall|r: RuleText| rules.contains(r) ==> longest_first(rules).contains(r),
    decreases rules.len(),
{
    if rules.len() > 0 {
        let init = rules.drop_last();
        longest_first_is_ordered(init);
        lemma_inserted_ordered(longest_first(init), rules.last());
        assert forall|r: RuleText| rules.contains(r) implies longest_first(rules).contains(r) by {
            let k = choose|k: int| 0 <= k < rules.len() && rules[k] == r;
            if k < init.len() {
                assert(init[k] == r);
                assert(init.contains(r));
                assert(longest_first(init).contains(r));
            }
        }
    }
}

proof fn lemma_inserted_of_length(table: Seq<RuleText>, rule: RuleText, n: nat)
    requires
        is_longest_first(table),
    ensures
        of_length(inserted(table, rule), n) == of_length(table.push(rule), n),
    decreases table.len(),
{
    assert(table.push(rule).drop_last() == table);
    if table.len() > 0 && table.last().0.len() < rule.0.len() {
        let init = table.drop_last();
        assert forall|i: int, j: int| 0 <= i <= j < init.len() implies (#[trigger] init[i]).0.len()
            >= (#[trigger] init[j]).0.len() by {
            assert(init[i] == table[i] && init[j] == table[j]);
        }
        lemma_inserted_of_length(init, rule, n);
        assert(init.push(rule).drop_last() == init);
        let rec = inserted(init, rule);
        assert(rec.push(table.last()).drop_last() == rec);
        assert(inserted(table, rule) == rec.push(table.last()));
        let last = table.last();
        assert(of_length(rec.push(last), n) == if last.0.len() == n {
            of_length(rec, n).push(last)
        } else {
            of_length(rec, n)
        });
        assert(of_length(init.push(rule), n) == if rule.0.len() == n {
            of_length(init, n).push(rule)
        } else {
            of_length(init, n)
        });
        assert(of_length(table, n) == if last.0.len() == n {
            of_length(init, n).push(last)
        } else {
            of_length(init, n)
        });
        assert(table.push(rule).last() == rule);
        assert(of_length(table.push(rule), n) == if rule.0.len() == n {
            of_length(table, n).push(rule)
        } else {
            of_length(table, n)
        });
    }
}

/// Rules whose left sides are equally long keep the order that they have in the file; and each
/// rule of the file is in the table as often as in the file.
pub proof fn equal_lengths_keep_file_order(rules: Seq<RuleText>, n: nat)
    ensures
        of_length(longest_first(rules), n) == of_length(rules, n),
    decreases rules.len(),
{
    if rules.len() > 0 {
        let init = rules.drop_last();
        equal_lengths_keep_file_order(init, n);
        longest_first_is_ordered(init);
        let sorted = longest_first(init);
        lemma_inserted_of_length(sorted, rules.last(), n);
        assert(sorted.push(rules.last()).drop_last() == sorted);
    }
}

/// An empty table changes nothing.
pub proof fn empty_table_changes_nothing(s: Seq<char>)
    ensures
        corrected(s, Seq::empty()) == s,
{
}

/// What a rule matches does not depend on the case of its ASCII letters.
pub proof fn rules_match_in_any_case(s: Seq<char>, p: Seq<char>, q: Seq<char>, r: Seq<char>)
    requires
        same_folded(p, q),
    ensures
        replaced_folded(s, p, r) == replaced_folded(s, q, r),
    decreases s.len(),
{
    if s.len() > 0 && p.len() > 0 {
        assert(folded_at(s, p, 0) == folded_at(s, q, 0)) by {
            if p.len() <= s.len() {
                let t = s.subrange(0, p.len() as int);
                assert(same_folded(t, p) == same_folded(t, q)) by {
                    if same_folded(t, p) {
                        assert forall|i: int| 0 <= i < t.len() implies crate::text::lower(
                            #[trigger] t[i],
                        ) == crate::text::lower(q[i]) by {
                            assert(crate::text::lower(p[i]) == crate::text::lower(q[i]));
                        }
                    }
                    if same_folded(t, q) {
                        assert forall|i: int| 0 <= i < t.len() implies crate::text::lower(
                            #[trigger] t[i],
                        ) == crate::text::lower(p[i]) by {
                            assert(crate::text::lower(p[i]) == crate::text::lower(q[i]));
                        }
                    }
                }
            }
        }
        if folded_at(s, p, 0) {
            rules_match_in_any_case(s.skip(p.len() as int), p, q, r);
        } else {
            rules_match_in_any_case(s.drop_first(), p, q, r);
        }
    }
}

// ---------------------------------------------------------------------------
// What learning a correction promises
// ---------------------------------------------------------------------------

/// A correction as it is kept: both sides trimmed and different, neither empty, with nothing in
/// them that would break their line.
pub open spec fn is_kept(heard: Seq<char>, correct: Seq<char>) -> bool {
    &&& trimmed(heard) == heard
    &&& trimmed(correct) == correct
    &&& corrects(heard, correct)
    &&& fault_of(heard, correct) is None
}

/// The line of a correction that is kept reads back as that correction.
pub proof fn lemma_rule_line(heard: Seq<char>, correct: Seq<char>)
    requires
        is_kept(heard, correct),
    ensures
        sides_of(rule_line(heard, correct)) == Some((heard, correct)),
        rule_of(rule_line(heard, correct)) == Some((heard, correct)),
        forall|j: int|
            0 <= j < rule_line(heard, correct).len() ==> #[trigger] rule_line(heard, correct)[j]
                != '\n',
        without_cr(rule_line(heard, correct)) == rule_line(heard, correct),
{
    reveal_strlit("=>");
    reveal_strlit(" => ");
    let line = rule_line(heard, correct);
    let n = heard.len() as int;
    lemma_trimmed_ends(heard);
    lemma_trimmed_ends(correct);
    assert(line.first() == heard.first());
    assert(line.last() == correct.last());
    assert(trimmed(line) == line);
    // The first `=>` is the one in the middle.
    let arrow = "=>"@;
    assert(line.subrange(n + 1, n + 3) == arrow);
    assert(occurs_at(line, arrow, n + 1));
    assert forall|k: int| 0 <= k < n + 1 implies !occurs_at(line, arrow, k) by {
        if occurs_at(line, arrow, k) {
            let part = line.subrange(k, k + 2);
            assert(part[0] == line[k] && part[1] == line[k + 1]);
            if k + 2 <= n {
                assert(heard.subrange(k, k + 2) == part);
                assert(occurs_at(heard, arrow, k));
                assert(contains_text(heard, arrow));
            } else if k + 1 == n {
                assert(line[n] == ' ');
            } else {
                assert(line[k] == ' ');
            }
        }
    }
    lemma_position_of_is(line, arrow, n + 1);
    assert(line.take(n + 1) == heard.push(' '));
    lemma_trimmed_push_space(heard, ' ');
    assert(line.skip(n + 3) == seq![' '] + correct);
    lemma_trimmed_prepend_space(correct, ' ');
    assert forall|j: int| 0 <= j < line.len() implies #[trigger] line[j] != '\n' by {
        if j < n {
            assert(heard.contains(heard[j]));
        } else if j >= n + 4 {
            assert(correct.contains(correct[j - n - 4]));
        }
    }
}

proof fn lemma_rules_add(a: Seq<Seq<char>>, b: Seq<Seq<char>>)
    ensures
        rules_in(a + b) == rules_in(a) + rules_in(b),
    decreases b.len(),
{
    if b.len() == 0 {
        assert(a + b == a);
        assert(rules_in(a) + rules_in(b) == rules_in(a));
    } else {
        lemma_rules_add(a, b.drop_last());
        assert((a + b).drop_last() == a + b.drop_last());
        assert(rules_in(a + b) == rules_in(a) + rules_in(b));
    }
}

/// A carriage return at the end of a line changes nothing of the rule on it.
proof fn lemma_rules_without_cr(lines: Seq<Seq<char>>)
    ensures
        rules_in(lines.map_values(|l: Seq<char>| without_cr(l))) == rules_in(lines),
    decreases lines.len(),
{
    let mapped = lines.map_values(|l: Seq<char>| without_cr(l));
    if lines.len() > 0 {
        lemma_rules_without_cr(lines.drop_last());
        assert(mapped.drop_last() == lines.drop_last().map_values(
            |l: Seq<char>| without_cr(l),
        ));
        let l = lines.last();
        if l.len() > 0 && l.last() == '\r' {
            assert(l == l.drop_last().push('\r'));
            lemma_trimmed_push_space(l.drop_last(), '\r');
        }
        assert(trimmed(without_cr(l)) == trimmed(l));
        assert(mapped.last() == without_cr(l));
    } else {
        assert(mapped == lines);
    }
}

proof fn lemma_line_for(lines: Seq<Seq<char>>, heard: Seq<char>)
    ensures
        match line_for(lines, heard) {
            Some(i) => 0 <= i < lines.len() && is_line_for(lines[i], heard) && forall|k: int|
                0 <= k < i ==> !is_line_for(#[trigger] lines[k], heard),
            None => forall|k: int| 0 <= k < lines.len() ==> !is_line_for(#[trigger] lines[k], heard),
        },
    decreases lines.len(),
{
    if lines.len() > 0 {
        let init = lines.drop_last();
        lemma_line_for(init, heard);
        match line_for(init, heard) {
            Some(i) => {
                assert forall|k: int| 0 <= k < i implies !is_line_for(#[trigger] lines[k], heard) by {
                    assert(init[k] == lines[k]);
                }
            },
            None => {
                assert forall|k: int| 0 <= k < init.len() implies !is_line_for(
                    #[trigger] lines[k],
                    heard,
                ) by {
                    assert(init[k] == lines[k]);
                }
            },
        }
    }
}

proof fn lemma_line_for_is(lines: Seq<Seq<char>>, heard: Seq<char>, i: int)
    requires
        0 <= i < lines.len(),
        is_line_for(lines[i], heard),
        forall|k: int| 0 <= k < i ==> !is_line_for(#[trigger] lines[k], heard),
    ensures
        line_for(lines, heard) == Some(i),
{
    lemma_line_for(lines, heard);
}

proof fn lemma_with_rule_feeds(existing: Seq<char>, heard: Seq<char>, correct: Seq<char>)
    requires
        is_kept(heard, correct),
    ensures
        lines_of(unlines(with_rule(lines_of(existing), heard, correct))) == with_rule(
            lines_of(existing),
            heard,
            correct,
        ).map_values(|l: Seq<char>| without_cr(l)),
{
    let before = lines_of(existing);
    let after = with_rule(before, heard, correct);
    lemma_lines_have_no_feed(existing);
    lemma_line_for(before, heard);
    lemma_rule_line(heard, correct);
    assert forall|i: int, j: int| 0 <= i < after.len() && 0 <= j < after[i].len() implies
        #[trigger] after[i][j] != '\n' by {
        if after[i] != rule_line(heard, correct) {
            assert(after[i] == before[i]);
            assert(before[i][j] != '\n');
        }
    }
    lemma_lines_of_unlines(after);
}

/// A correction that is kept is exactly one rule of the new file: it stands where the first rule
/// for the same words stood, or at the end, and every other line reads as it did before.
pub proof fn learned_correction_is_one_rule(
    existing: Seq<char>,
    heard: Seq<char>,
    correct: Seq<char>,
)
    requires
        is_kept(heard, correct),
    ensures
        ({
            let before = lines_of(existing);
            let at = match line_for(before, heard) {
                Some(i) => i,
                None => before.len() as int,
            };
            let behind = match line_for(before, heard) {
                Some(i) => before.skip(i + 1),
                None => Seq::empty(),
            };
            upserted(existing, heard, correct) matches Ok(contents) && rules_in(lines_of(contents))
                == rules_in(before.take(at)) + seq![(heard, correct)] + rules_in(behind)
        }),
{
    let before = lines_of(existing);
    let line = rule_line(heard, correct);
    let after = with_rule(before, heard, correct);
    lemma_with_rule_feeds(existing, heard, correct);
    lemma_rules_without_cr(after);
    lemma_rule_line(heard, correct);
    lemma_line_for(before, heard);
    let at = match line_for(before, heard) {
        Some(i) => i,
        None => before.len() as int,
    };
    let behind = match line_for(before, heard) {
        Some(i) => before.skip(i + 1),
        None => Seq::empty(),
    };
    assert(after == before.take(at) + seq![line] + behind);
    lemma_rules_add(before.take(at) + seq![line], behind);
    lemma_rules_add(before.take(at), seq![line]);
    assert(rules_in(seq![line]) == seq![(heard, correct)]) by {
        assert(seq![line].drop_last() == Seq::<Seq<char>>::empty());
        assert(rules_in(seq![line]) == rules_in(seq![line].drop_last()).push((heard, correct)));
        assert(rules_in(seq![line].drop_last()) == Seq::<RuleText>::empty());
    }
}

/// What was learned is in the table that the new file holds.
pub proof fn learned_correction_is_read_back(
    existing: Seq<char>,
    heard: Seq<char>,
    correct: Seq<char>,
)
    requires
        is_kept(heard, correct),
    ensures
        upserted(existing, heard, correct) matches Ok(contents) && table_of(contents).contains(
            (heard, correct),
        ),
{
    learned_correction_is_one_rule(existing, heard, correct);
    let contents = upserted(existing, heard, correct)->Ok_0;
    let rules = rules_in(lines_of(contents));
    let before = lines_of(existing);
    let at = match line_for(before, heard) {
        Some(i) => i,
        None => before.len() as int,
    };
    let k = rules_in(before.take(at)).len() as int;
    assert(rules[k] == (heard, correct));
    assert(rules.contains((heard, correct)));
    longest_first_is_ordered(rules);
}

proof fn lemma_folded(a: Seq<char>, b: Seq<char>, c: Seq<char>)
    requires
        same_folded(a, b),
        same_folded(a, c),
    ensures
        same_folded(c, b),
{
    assert forall|i: int| 0 <= i < c.len() implies crate::text::lower(#[trigger] c[i])
        == crate::text::lower(b[i]) by {
        assert(crate::text::lower(a[i]) == crate::text::lower(b[i]));
    }
}

/// A rule changes nothing of a text that is no longer than its left side and is not that side
/// itself.
proof fn lemma_no_match(s: Seq<char>, p: Seq<char>, r: Seq<char>)
    requires
        p.len() >= s.len(),
        !same_folded(s, p),
    ensures
        replaced_folded(s, p, r) == s,
    decreases s.len(),
{
    if s.len() > 0 {
        if p.len() == s.len() {
            assert(s.subrange(0, p.len() as int) == s);
        }
        assert(!folded_at(s, p, 0));
        lemma_no_match(s.drop_first(), p, r);
        assert(seq![s.first()] + s.drop_first() == s);
    }
}

proof fn lemma_corrected_add(s: Seq<char>, a: Seq<RuleText>, b: Seq<RuleText>)
    ensures
        corrected(s, a + b) == corrected(corrected(s, a), b),
    decreases b.len(),
{
    if b.len() == 0 {
        assert(a + b == a);
    } else {
        lemma_corrected_add(s, a, b.drop_last());
        assert((a + b).drop_last() == a + b.drop_last());
        assert((a + b).last() == b.last());
    }
}

/// None of the rules is for `heard`, whatever the case of its ASCII letters.
pub open spec fn none_for(rules: Seq<RuleText>, heard: Seq<char>) -> bool {
    forall|i: int| 0 <= i < rules.len() ==> !same_folded((#[trigger] rules[i]).0, heard)
}

/// Rules with long left sides that are not for `said` leave it as it is.
proof fn lemma_long_rules_pass(said: Seq<char>, rules: Seq<RuleText>)
    requires
        none_for(rules, said),
        forall|i: int| 0 <= i < rules.len() ==> (#[trigger] rules[i]).0.len() >= said.len(),
    ensures
        corrected(said, rules) == said,
    decreases rules.len(),
{
    if rules.len() > 0 {
        let init = rules.drop_last();
        assert forall|i: int| 0 <= i < init.len() implies !same_folded(
            (#[trigger] init[i]).0,
            said,
        ) && init[i].0.len() >= said.len() by {
            assert(init[i] == rules[i]);
        }
        lemma_long_rules_pass(said, init);
        let rule = rules[rules.len() - 1];
        if same_folded(said, rule.0) {
            lemma_folded(said, said, rule.0);
        }
        lemma_no_match(said, rule.0, rule.1);
    }
}

proof fn lemma_of_length_add(a: Seq<RuleText>, b: Seq<RuleText>, n: nat)
    ensures
        of_length(a + b, n) == of_length(a, n) + of_length(b, n),
    decreases b.len(),
{
    if b.len() == 0 {
        assert(a + b == a);
        assert(of_length(a, n) + of_length(b, n) == of_length(a, n));
    } else {
        lemma_of_length_add(a, b.drop_last(), n);
        assert((a + b).drop_last() == a + b.drop_last());
        assert((a + b).last() == b.last());
        assert(of_length(a + b, n) == of_length(a, n) + of_length(b, n));
    }
}

proof fn lemma_of_length_contains(rules: Seq<RuleText>, n: nat, rule: RuleText)
    ensures
        of_length(rules, n).contains(rule) <==> rules.contains(rule) && rule.0.len() == n,
    decreases rules.len(),
{
    if rules.len() > 0 {
        let init = rules.drop_last();
        lemma_of_length_contains(init, n, rule);
        assert(rules == init.push(rules.last()));
        let rec = of_length(init, n);
        assert(rules.contains(rule) <==> init.contains(rule) || rule == rules.last()) by {
            lemma_push_contains(init, rules.last(), rule);
        }
        lemma_push_contains(rec, rules.last(), rule);
    }
}

proof fn lemma_push_contains(rules: Seq<RuleText>, last: RuleText, rule: RuleText)
    ensures
        rules.push(last).contains(rule) <==> rules.contains(rule) || rule == last,
{
    let all = rules.push(last);
    if rules.contains(rule) {
        let k = choose|k: int| 0 <= k < rules.len() && rules[k] == rule;
        assert(all[k] == rule);
    }
    if rule == last {
        assert(all[rules.len() as int] == rule);
    }
    if all.contains(rule) {
        let k = choose|k: int| 0 <= k < all.len() && all[k] == rule;
        if k < rules.len() {
            assert(rules[k] == rule);
        }
    }
}

/// Where the rule stands that is at index `p` among those of its length.
proof fn lemma_of_length_at(rules: Seq<RuleText>, n: nat, p: int) -> (k: int)
    requires
        0 <= p < of_length(rules, n).len(),
    ensures
        0 <= k < rules.len(),
        rules[k] == of_length(rules, n)[p],
        of_length(rules.take(k), n) == of_length(rules, n).take(p),
    decreases rules.len(),
{
    let init = rules.drop_last();
    if p < of_length(init, n).len() {
        let k = lemma_of_length_at(init, n, p);
        assert(init.take(k) == rules.take(k));
        assert(of_length(init, n).take(p) == of_length(rules, n).take(p));
        k
    } else {
        assert(rules.take(rules.len() - 1) == init);
        assert(of_length(rules, n).take(p) == of_length(init, n));
        rules.len() - 1
    }
}

/// The lines before the one that a rule is put on hold no rule for the same words.
proof fn lemma_rules_before(lines: Seq<Seq<char>>, heard: Seq<char>)
    requires
        forall|k: int| 0 <= k < lines.len() ==> !is_line_for(#[trigger] lines[k], heard),
    ensures
        none_for(rules_in(lines), heard),
    decreases lines.len(),
{
    if lines.len() > 0 {
        let init = lines.drop_last();
        assert forall|k: int| 0 <= k < init.len() implies !is_line_for(#[trigger] init[k], heard) by {
            assert(init[k] == lines[k]);
        }
        lemma_rules_before(init, heard);
        assert(!is_line_for(lines[lines.len() - 1], heard));
        let rules = rules_in(lines);
        assert forall|i: int| 0 <= i < rules.len() implies !same_folded(
            (#[trigger] rules[i]).0,
            heard,
        ) by {
            if i < rules_in(init).len() {
                assert(rules[i] == rules_in(init)[i]);
            }
        }
    }
}

/// The rule that was learned is the one at index `k` of the table, and the first for these words.
pub open spec fn is_learned_at(
    table: Seq<RuleText>,
    heard: Seq<char>,
    correct: Seq<char>,
    k: int,
) -> bool {
    0 <= k < table.len() && table[k] == (heard, correct) && none_for(table.take(k), heard)
}

/// What was learned takes effect, whatever else the file holds: it is the first rule for these
/// words, and the words that were heard, in any case, become what was said. The rules before it
/// change nothing of them; those behind it are then applied to what was said.
pub proof fn learned_correction_takes_effect(
    existing: Seq<char>,
    heard: Seq<char>,
    correct: Seq<char>,
    said: Seq<char>,
)
    requires
        is_kept(heard, correct),
        same_folded(said, heard),
    ensures
        upserted(existing, heard, correct) matches Ok(contents) && exists|k: int|
            #[trigger] is_learned_at(table_of(contents), heard, correct, k) && corrected(
                said,
                table_of(contents),
            ) == corrected(correct, table_of(contents).skip(k + 1)),
{
    learned_correction_is_one_rule(existing, heard, correct);
    let contents = upserted(existing, heard, correct)->Ok_0;
    let before = lines_of(existing);
    lemma_line_for(before, heard);
    let at = match line_for(before, heard) {
        Some(i) => i,
        None => before.len() as int,
    };
    let behind = match line_for(before, heard) {
        Some(i) => before.skip(i + 1),
        None => Seq::empty(),
    };
    let n = heard.len();
    let rule = (heard, correct);
    let a = rules_in(before.take(at));
    let b = rules_in(behind);
    let rules = rules_in(lines_of(contents));
    let table = table_of(contents);
    assert forall|k: int| 0 <= k < before.take(at).len() implies !is_line_for(
        #[trigger] before.take(at)[k],
        heard,
    ) by {
        assert(before.take(at)[k] == before[k]);
    }
    lemma_rules_before(before.take(at), heard);
    // Among the rules of its length, the new one stands behind those of the lines before it.
    lemma_of_length_add(a + seq![rule], b, n);
    lemma_of_length_add(a, seq![rule], n);
    assert(of_length(seq![rule], n) == seq![rule]) by {
        assert(seq![rule].drop_last() == Seq::<RuleText>::empty());
        assert(of_length(seq![rule].drop_last(), n) == Seq::<RuleText>::empty());
        assert(of_length(seq![rule], n) == Seq::<RuleText>::empty().push(rule));
    }
    equal_lengths_keep_file_order(rules, n);
    longest_first_is_ordered(rules);
    let p = of_length(a, n).len() as int;
    assert(of_length(table, n)[p] == rule);
    assert(of_length(table, n).take(p) == of_length(a, n));
    let k = lemma_of_length_at(table, n, p);
    let first = table.take(k);
    assert forall|j: int| 0 <= j < first.len() implies !same_folded((#[trigger] first[j]).0, heard) by {
        if same_folded(first[j].0, heard) {
            assert(first.contains(first[j]));
            lemma_of_length_contains(first, n, first[j]);
            lemma_of_length_contains(a, n, first[j]);
            let i = choose|i: int| 0 <= i < a.len() && a[i] == first[j];
            assert(!same_folded(a[i].0, heard));
        }
    }
    assert(is_learned_at(table, heard, correct, k));
    // What comes first leaves the words alone.
    assert forall|j: int| 0 <= j < first.len() implies !same_folded((#[trigger] first[j]).0, said)
        && first[j].0.len() >= said.len() by {
        assert(first[j] == table[j]);
        assert(table[j].0.len() >= table[k].0.len());
        if same_folded(first[j].0, said) {
            assert(same_folded(said, first[j].0));
            lemma_folded(said, heard, first[j].0);
        }
    }
    lemma_long_rules_pass(said, first);
    // Then the rule itself.
    assert(replaced_folded(said, heard, correct) == correct) by {
        assert(said.subrange(0, heard.len() as int) == said);
        assert(folded_at(said, heard, 0));
        let rest = said.skip(heard.len() as int);
        assert(rest == Seq::<char>::empty());
        assert(replaced_folded(rest, heard, correct) == rest);
        assert(correct + rest == correct);
    }
    let upto = table.take(k + 1);
    assert(upto.drop_last() == first);
    assert(corrected(said, upto) == correct);
    assert(upto + table.skip(k + 1) == table);
    lemma_corrected_add(said, upto, table.skip(k + 1));
}

/// Learning a correction again changes nothing more, as long as no line of the file ends in a
/// stray carriage return.
pub proof fn learning_twice_is_learning_once(
    existing: Seq<char>,
    heard: Seq<char>,
    correct: Seq<char>,
)
    requires
        is_kept(heard, correct),
        forall|i: int|
            0 <= i < lines_of(existing).len() ==> without_cr(#[trigger] lines_of(existing)[i])
                == lines_of(existing)[i],
    ensures
        upserted(existing, heard, correct) matches Ok(contents) && upserted(
            contents,
            heard,
            correct,
        ) == Ok::<Seq<char>, Seq<char>>(contents),
{
    let before = lines_of(existing);
    let line = rule_line(heard, correct);
    let after = with_rule(before, heard, correct);
    lemma_with_rule_feeds(existing, heard, correct);
    lemma_rule_line(heard, correct);
    lemma_line_for(before, heard);
    let at = match line_for(before, heard) {
        Some(i) => i,
        None => before.len() as int,
    };
    assert(after.map_values(|l: Seq<char>| without_cr(l)) =~= after) by {
        assert forall|i: int| 0 <= i < after.len() implies without_cr(#[trigger] after[i])
            == after[i] by {
            if i != at {
                assert(after[i] == before[i]);
            }
        }
    }
    assert(same_folded(heard, heard));
    assert(is_line_for(after[at], heard));
    assert forall|k: int| 0 <= k < at implies !is_line_for(#[trigger] after[k], heard) by {
        assert(after[k] == before[k]);
    }
    lemma_line_for_is(after, heard, at);
    assert(after.update(at, line) == after);
}

// ---------------------------------------------------------------------------
// What applying and keeping rules does
// ---------------------------------------------------------------------------

/// A rule works from the left: up to the first place where its left side stands, in any case,
/// everything stays; there its right side comes, as it is spelled; and behind it the rule works on.
pub proof fn rules_work_from_the_left(
    a: Seq<char>,
    said: Seq<char>,
    b: Seq<char>,
    heard: Seq<char>,
    correct: Seq<char>,
)
    requires
        heard.len() > 0,
        same_folded(said, heard),
        forall|i: int| 0 <= i < a.len() ==> !#[trigger] folded_at(a + said + b, heard, i),
    ensures
        replaced_folded(a + said + b, heard, correct) == a + correct + replaced_folded(
            b,
            heard,
            correct,
        ),
    decreases a.len(),
{
    let s = a + said + b;
    if a.len() == 0 {
        assert(s.subrange(0, heard.len() as int) =~= said);
        assert(folded_at(s, heard, 0));
        assert(s.skip(heard.len() as int) =~= b);
        assert(a + correct + replaced_folded(b, heard, correct) =~= correct + replaced_folded(
            b,
            heard,
            correct,
        ));
    } else {
        let t = a.drop_first();
        let rest = t + said + b;
        assert(!folded_at(s, heard, 0));
        assert(s.drop_first() =~= rest);
        assert forall|i: int| 0 <= i < t.len() implies !#[trigger] folded_at(rest, heard, i) by {
            assert(!folded_at(s, heard, i + 1));
            if i + heard.len() <= rest.len() {
                assert(rest.subrange(i, i + heard.len()) =~= s.subrange(
                    i + 1,
                    i + 1 + heard.len(),
                ));
            }
        }
        rules_work_from_the_left(t, said, b, heard, correct);
        assert(seq![s.first()] + (t + correct + replaced_folded(b, heard, correct)) =~= a + correct
            + replaced_folded(b, heard, correct));
    }
}

/// A text in which the left side of a rule does not stand, in any case, is left alone by it.
pub proof fn rules_leave_other_text_alone(s: Seq<char>, heard: Seq<char>, correct: Seq<char>)
    requires
        forall|i: int| !#[trigger] folded_at(s, heard, i),
    ensures
        replaced_folded(s, heard, correct) == s,
    decreases s.len(),
{
    if s.len() > 0 && heard.len() > 0 {
        let t = s.drop_first();
        assert(!folded_at(s, heard, 0));
        assert forall|i: int| !#[trigger] folded_at(t, heard, i) by {
            assert(!folded_at(s, heard, i + 1));
            if 0 <= i && i + heard.len() <= t.len() {
                assert(t.subrange(i, i + heard.len()) =~= s.subrange(i + 1, i + 1 + heard.len()));
            }
        }
        rules_leave_other_text_alone(t, heard, correct);
        assert(seq![s.first()] + t =~= s);
    }
}

/// The rules of a table are applied in its order, each to what the ones before it have left.
pub proof fn rules_are_applied_in_order(s: Seq<char>, a: Seq<RuleText>, b: Seq<RuleText>)
    ensures
        corrected(s, a + b) == corrected(corrected(s, a), b),
        forall|heard: Seq<char>, correct: Seq<char>|
            corrected(s, seq![(heard, correct)]) == #[trigger] replaced_folded(s, heard, correct),
{
    lemma_corrected_add(s, a, b);
    assert forall|heard: Seq<char>, correct: Seq<char>|
        corrected(s, seq![(heard, correct)]) == #[trigger] replaced_folded(s, heard, correct) by {
        let one = seq![(heard, correct)];
        assert(one.drop_last() =~= Seq::<RuleText>::empty());
        assert(corrected(s, one.drop_last()) == s);
    }
}

/// A line is a rule where it holds an arrow: what stands before the first arrow was heard, what
/// stands behind it is correct, both without the white space around them. Without an arrow, as a
/// comment, or with one side empty it is none. White space around a line does not count.
pub proof fn a_line_is_split_at_its_first_arrow(left: Seq<char>, right: Seq<char>)
    requires
        trimmed(left + "=>"@ + right) == left + "=>"@ + right,
        forall|i: int|
            0 <= i < left.len() ==> !#[trigger] occurs_at(left + "=>"@ + right, "=>"@, i),
    ensures
        rule_of(left + "=>"@ + right) == if (left.len() > 0 && left.first() == '#') || trimmed(
            left,
        ).len() == 0 || trimmed(right).len() == 0 {
            None::<RuleText>
        } else {
            Some((trimmed(left), trimmed(right)))
        },
{
    reveal_strlit("=>");
    let line = left + "=>"@ + right;
    let n = left.len() as int;
    assert(line.subrange(n, n + 2) =~= "=>"@);
    assert(occurs_at(line, "=>"@, n));
    lemma_position_of_is(line, "=>"@, n);
    assert(line.take(n) =~= left);
    assert(line.skip(n + 2) =~= right);
    if left.len() == 0 {
        assert(trimmed(left).len() == 0);
    }
}

/// White space around a line does not count, and a line without an arrow is no rule.
pub proof fn only_lines_with_an_arrow_are_rules(line: Seq<char>)
    ensures
        rule_of(trimmed(line)) == rule_of(line),
        !contains_text(trimmed(line), "=>"@) ==> rule_of(line) is None,
        trimmed(line).len() > 0 && trimmed(line).first() == '#' ==> rule_of(line) is None,
{
    lemma_trimmed_ends(line);
    lemma_position_of(trimmed(line), "=>"@);
}

/// The rules of a file are those of its lines, in order.
pub proof fn each_line_is_at_most_one_rule(
    before: Seq<Seq<char>>,
    line: Seq<char>,
    behind: Seq<Seq<char>>,
)
    ensures
        rules_in(before + seq![line] + behind) == rules_in(before) + (match rule_of(line) {
            Some(rule) => seq![rule],
            None => Seq::empty(),
        }) + rules_in(behind),
        rules_in(Seq::empty()) == Seq::<RuleText>::empty(),
{
    lemma_rules_add(before + seq![line], behind);
    lemma_rules_add(before, seq![line]);
    assert(seq![line].drop_last() =~= Seq::<Seq<char>>::empty());
    assert(rules_in(seq![line].drop_last()) =~= Seq::<RuleText>::empty());
    assert(rules_in(seq![line]) =~= match rule_of(line) {
        Some(rule) => seq![rule],
        None => Seq::empty(),
    });
}

/// Learning a correction touches one line. Where a line has a rule for the same words, in any case,
/// the first such line is replaced; else a line is added at the end. It reads `heard => correct`;
/// every other line, comments and blank lines too, stays as it is and where it is.
pub proof fn learning_keeps_all_other_lines(
    existing: Seq<char>,
    heard: Seq<char>,
    correct: Seq<char>,
)
    requires
        is_kept(heard, correct),
    ensures
        ({
            let before = lines_of(existing);
            let line = heard + " => "@ + correct;
            upserted(existing, heard, correct) matches Ok(contents) && {
                ||| contents == unlines(before.push(line)) && forall|k: int|
                    0 <= k < before.len() ==> !is_line_for(#[trigger] before[k], heard)
                ||| exists|at: int|
                    {
                        &&& 0 <= at < before.len()
                        &&& contents == #[trigger] unlines(before.update(at, line))
                        &&& is_line_for(before[at], heard)
                        &&& forall|k: int| 0 <= k < at ==> !is_line_for(#[trigger] before[k], heard)
                    }
            }
        }),
{
    let before = lines_of(existing);
    lemma_line_for(before, heard);
    match line_for(before, heard) {
        Some(at) => {
            assert(upserted(existing, heard, correct)->Ok_0 == unlines(
                before.update(at, heard + " => "@ + correct),
            ));
        },
        None => {},
    }
}

/// A correction is refused only where its line would not read back: where a side breaks the line,
/// where what was heard holds the arrow, or where the line would be a comment. A correction that
/// changes nothing leaves the file alone, and any other one is kept, with whatever it holds.
pub proof fn only_unreadable_corrections_are_refused(
    existing: Seq<char>,
    heard: Seq<char>,
    correct: Seq<char>,
)
    requires
        trimmed(heard) == heard,
        trimmed(correct) == correct,
    ensures
        ({
            let breaks = heard.contains('\n') || heard.contains('\r') || correct.contains('\n')
                || correct.contains('\r');
            let arrow = exists|i: int|
                0 <= i < heard.len() - 1 && #[trigger] heard[i] == '=' && heard[i + 1] == '>';
            let comment = heard.len() > 0 && heard[0] == '#';
            let nothing = heard.len() == 0 || correct.len() == 0 || heard == correct;
            &&& nothing ==> upserted(existing, heard, correct) == Ok::<Seq<char>, Seq<char>>(
                existing,
            )
            &&& !nothing ==> (upserted(existing, heard, correct) is Err <==> breaks || arrow
                || comment)
            &&& is_kept(heard, correct) <==> !nothing && !breaks && !arrow && !comment
        }),
{
    reveal_strlit("=>");
    if contains_text(heard, "=>"@) {
        let i = choose|i: int| occurs_at(heard, "=>"@, i);
        let part = heard.subrange(i, i + 2);
        assert("=>"@.len() == 2);
        assert(part == "=>"@);
        assert(heard[i] == part[0] && heard[i + 1] == part[1]);
    }
    if exists|i: int|
        0 <= i < heard.len() - 1 && #[trigger] heard[i] == '=' && heard[i + 1] == '>' {
        let i = choose|i: int|
            0 <= i < heard.len() - 1 && #[trigger] heard[i] == '=' && heard[i + 1] == '>';
        assert(heard.subrange(i, i + 2) =~= "=>"@);
        assert(occurs_at(heard, "=>"@, i));
    }
}

} // verus!
