//! English tokens of what was typed last: candidates for "what was heard" when the user teaches
//! a correction.

use vstd::prelude::*;
use vstd::slice::slice_subrange;
use std::collections::VecDeque;
use crate::text::{is_ascii_alnum, is_ascii_alpha, to_chars, to_text};
use crate::terms::push_new;
use crate::text::{is_alnum, is_alpha, texts};
use crate::terms::{distinct, distinct_has_no_duplicates, lemma_distinct_push};

verus! {

/// How many letters and digits `s` starts with.
pub open spec fn word_len(s: Seq<char>) -> nat
    decreases s.len(),
{
    if s.len() == 0 || !is_alnum(s.first()) {
        0
    } else {
        1 + word_len(s.drop_first())
    }
}

/// There is an ASCII letter in `s`.
pub open spec fn has_letter(s: Seq<char>) -> bool {
    exists|i: int| 0 <= i < s.len() && is_alpha(#[trigger] s[i])
}

/// The English tokens of a text: the longest stretches of ASCII letters and digits, in order,
/// without those that hold no letter.
pub open spec fn tokens_of(s: Seq<char>) -> Seq<Seq<char>>
    decreases s.len(),
{
    if s.len() == 0 {
        Seq::empty()
    } else if word_len(s) == 0 {
        tokens_of(s.drop_first())
    } else {
        proof {
            lemma_word_len(s);
        }
        let word = s.take(word_len(s) as int);
        let rest = tokens_of(s.skip(word_len(s) as int));
        if has_letter(word) {
            seq![word] + rest
        } else {
            rest
        }
    }
}

pub proof fn lemma_word_len(s: Seq<char>)
    ensures
        word_len(s) <= s.len(),
    decreases s.len(),
{
    if s.len() > 0 && is_alnum(s.first()) {
        lemma_word_len(s.drop_first());
    }
}

proof fn lemma_word_len_is(s: Seq<char>, n: nat)
    requires
        n <= s.len(),
        forall|i: int| 0 <= i < n ==> is_alnum(#[trigger] s[i]),
        n < s.len() ==> !is_alnum(s[n as int]),
    ensures
        word_len(s) == n,
    decreases s.len(),
{
    if n > 0 {
        let r = s.drop_first();
        assert(is_alnum(s[0]));
        assert forall|i: int| 0 <= i < n - 1 implies is_alnum(#[trigger] r[i]) by {
            assert(r[i] == s[i + 1]);
        }
        lemma_word_len_is(r, (n - 1) as nat);
    }
}

/// The English tokens of a text, in order and as often as they stand in it.
pub fn extract_english_tokens(text: &str) -> (tokens: Vec<String>)
    ensures
        texts(tokens@) == tokens_of(text@),
{
    let chars = to_chars(text);
    let s = chars.as_slice();
    let mut tokens: Vec<String> = Vec::new();
    let mut i: usize = 0;
    assert(s@.skip(0) == s@);
    assert(texts(tokens@) + tokens_of(s@) == tokens_of(s@));
    while i < s.len()
        invariant
            i <= s@.len(),
            tokens_of(s@) == texts(tokens@) + tokens_of(s@.skip(i as int)),
        decreases s@.len() - i,
    {
        let ghost rest = s@.skip(i as int);
        let mut end: usize = i;
        let mut letter: bool = false;
        while end < s.len() && is_ascii_alnum(s[end])
            invariant
                i <= end <= s@.len(),
                forall|k: int| i <= k < end ==> is_alnum(#[trigger] s@[k]),
                letter == exists|k: int| i <= k < end && is_alpha(#[trigger] s@[k]),
            decreases s@.len() - end,
        {
            if is_ascii_alpha(s[end]) {
                letter = true;
            }
            end += 1;
        }
        proof {
            lemma_word_len_is(rest, (end - i) as nat);
        }
        if end == i {
            assert(rest.drop_first() == s@.skip(i + 1));
            i += 1;
        } else {
            let ghost word = rest.take(end - i);
            let ghost before = texts(tokens@);
            assert(letter == has_letter(word)) by {
                if letter {
                    let k = choose|k: int| i <= k < end && is_alpha(#[trigger] s@[k]);
                    assert(word[k - i] == s@[k]);
                }
                if has_letter(word) {
                    let k = choose|k: int| 0 <= k < word.len() && is_alpha(#[trigger] word[k]);
                    assert(word[k] == s@[k + i]);
                }
            }
            assert(rest.skip(end - i) == s@.skip(end as int));
            if letter {
                let piece = slice_subrange(s, i, end);
                assert(piece@ == word);
                tokens.push(to_text(piece));
                assert(texts(tokens@) == before.push(word));
                assert(before + (seq![word] + tokens_of(s@.skip(end as int))) == before.push(word)
                    + tokens_of(s@.skip(end as int)));
            }
            i = end;
        }
    }
    assert(texts(tokens@) + Seq::<Seq<char>>::empty() == texts(tokens@));
    tokens
}

// ---------------------------------------------------------------------------
// The tokens of the last sentences
// ---------------------------------------------------------------------------

/// The tokens of the sentences that were typed last, so many sentences at most.
#[derive(Debug, Clone)]
pub struct RecentTokens {
    cap: usize,
    sentences: VecDeque<Vec<String>>,
}

/// The tokens of each sentence, the oldest sentence first.
pub open spec fn token_views(sentences: Seq<Vec<String>>) -> Seq<Seq<Seq<char>>> {
    sentences.map_values(|s: Vec<String>| texts(s@))
}

/// The last `cap` entries of `s`.
pub open spec fn last_of<A>(s: Seq<A>, cap: nat) -> Seq<A> {
    if s.len() > cap {
        s.skip(s.len() - cap)
    } else {
        s
    }
}

/// The kept sentences after one more sentence: one without tokens takes no place, and the oldest
/// goes where there are more than `cap`.
pub open spec fn with_sentence(
    sentences: Seq<Seq<Seq<char>>>,
    cap: nat,
    tokens: Seq<Seq<char>>,
) -> Seq<Seq<Seq<char>>> {
    if tokens.len() == 0 {
        sentences
    } else {
        last_of(sentences.push(tokens), cap)
    }
}

/// All tokens, those of the newest sentence first, each sentence in its own order.
pub open spec fn newest_first(sentences: Seq<Seq<Seq<char>>>) -> Seq<Seq<char>>
    decreases sentences.len(),
{
    if sentences.len() == 0 {
        Seq::empty()
    } else {
        sentences.last() + newest_first(sentences.drop_last())
    }
}

impl RecentTokens {
    /// How many sentences are kept.
    pub closed spec fn cap(&self) -> nat {
        self.cap as nat
    }

    /// The tokens of the kept sentences, the oldest sentence first.
    pub closed spec fn sentences(&self) -> Seq<Seq<Seq<char>>> {
        token_views(self.sentences@)
    }

    /// No more sentences are kept than there is room for.
    pub open spec fn wf(&self) -> bool {
        self.sentences().len() <= self.cap()
    }

    /// Room for `cap` sentences, none kept yet.
    pub fn new(cap: usize) -> (r: Self)
        ensures
            r.wf(),
            r.cap() == cap,
            r.sentences() == Seq::<Seq<Seq<char>>>::empty(),
    {
        let r = RecentTokens { cap, sentences: VecDeque::new() };
        assert(token_views(r.sentences@) == Seq::<Seq<Seq<char>>>::empty());
        r
    }

    /// Keeps the tokens of a sentence that was typed.
    pub fn push_sentence(&mut self, text: &str)
        requires
            old(self).wf(),
        ensures
            final(self).wf(),
            final(self).cap() == old(self).cap(),
            final(self).sentences() == with_sentence(
                old(self).sentences(),
                old(self).cap(),
                tokens_of(text@),
            ),
    {
        let ghost before = self.sentences();
        if self.cap == 0 {
            assert(last_of(before.push(tokens_of(text@)), 0) == before);
            return;
        }
        let tokens = extract_english_tokens(text);
        if tokens.len() == 0 {
            assert(texts(tokens@).len() == 0);
            return;
        }
        let ghost new = texts(tokens@);
        assert(new.len() == tokens@.len());
        if self.sentences.len() == self.cap {
            let ghost all = self.sentences@;
            let dropped = self.sentences.pop_front();
            assert(self.sentences@ == all.skip(1));
            assert(token_views(self.sentences@) == before.skip(1));
            self.sentences.push_back(tokens);
            assert(token_views(self.sentences@) == before.skip(1).push(new));
            assert(before.push(new).skip(1) == before.skip(1).push(new));
        } else {
            self.sentences.push_back(tokens);
            assert(token_views(self.sentences@) == before.push(new));
        }
    }

    /// The tokens of the kept sentences, each once, those of the newest sentence first.
    pub fn candidates(&self) -> (tokens: Vec<String>)
        ensures
            texts(tokens@) == distinct(newest_first(self.sentences())),
    {
        let ghost all = self.sentences();
        let mut out: Vec<String> = Vec::new();
        let mut n: usize = self.sentences.len();
        let ghost mut done: Seq<Seq<char>> = Seq::empty();
        assert(texts(out@) == distinct(done));
        assert(all.take(n as int) == all);
        assert(done + newest_first(all) == newest_first(all));
        while n > 0
            invariant
                n <= self.sentences@.len(),
                all == token_views(self.sentences@),
                texts(out@) == distinct(done),
                newest_first(all) == done + newest_first(all.take(n as int)),
            decreases n,
        {
            n -= 1;
            let sentence = &self.sentences[n];
            let ghost words = texts(sentence@);
            let ghost before = done;
            let mut k: usize = 0;
            assert(before + words.take(0) == before);
            while k < sentence.len()
                invariant
                    k <= sentence@.len(),
                    words == texts(sentence@),
                    done == before + words.take(k as int),
                    texts(out@) == distinct(done),
                decreases sentence@.len() - k,
            {
                let word = to_chars(sentence[k].as_str());
                push_new(&mut out, word.as_slice());
                proof {
                    lemma_distinct_push(done, word@);
                    done = done.push(word@);
                }
                k += 1;
                assert(before + words.take(k as int) == (before + words.take(k - 1)).push(
                    words[k - 1],
                ));
            }
            proof {
                let part = all.take(n + 1);
                assert(part.last() == words);
                assert(part.drop_last() == all.take(n as int));
                assert(words.take(k as int) == words);
                assert(before + (words + newest_first(all.take(n as int))) == done
                    + newest_first(all.take(n as int)));
            }
        }
        assert(all.take(0) == Seq::<Seq<Seq<char>>>::empty());
        assert(done + newest_first(all.take(0)) == done);
        out
    }
}

/// The kept sentences after some texts were typed, one after the other, with room for `cap`.
pub open spec fn kept_after(cap: nat, typed: Seq<Seq<char>>) -> Seq<Seq<Seq<char>>>
    decreases typed.len(),
{
    if typed.len() == 0 {
        Seq::empty()
    } else {
        with_sentence(kept_after(cap, typed.drop_last()), cap, tokens_of(typed.last()))
    }
}

/// The tokens of the texts that have any.
pub open spec fn with_tokens(typed: Seq<Seq<char>>) -> Seq<Seq<Seq<char>>>
    decreases typed.len(),
{
    if typed.len() == 0 {
        Seq::empty()
    } else if tokens_of(typed.last()).len() == 0 {
        with_tokens(typed.drop_last())
    } else {
        with_tokens(typed.drop_last()).push(tokens_of(typed.last()))
    }
}

/// Whatever was typed, exactly the last `cap` sentences that hold English tokens are kept.
pub proof fn last_sentences_are_kept(cap: nat, typed: Seq<Seq<char>>)
    ensures
        kept_after(cap, typed) == last_of(with_tokens(typed), cap),
    decreases typed.len(),
{
    if typed.len() > 0 {
        let init = typed.drop_last();
        last_sentences_are_kept(cap, init);
        let tokens = tokens_of(typed.last());
        let all = with_tokens(init);
        if tokens.len() > 0 {
            let pushed = last_of(all, cap).push(tokens);
            assert(last_of(pushed, cap) =~= last_of(all.push(tokens), cap));
        }
    }
}

/// No token is offered twice, and only tokens of kept sentences are offered.
pub proof fn candidates_are_distinct(sentences: Seq<Seq<Seq<char>>>)
    ensures
        distinct(newest_first(sentences)).no_duplicates(),
        forall|x: Seq<char>|
            distinct(newest_first(sentences)).contains(x) <==> exists|i: int|
                0 <= i < sentences.len() && (#[trigger] sentences[i]).contains(x),
{
    distinct_has_no_duplicates(newest_first(sentences));
    assert forall|x: Seq<char>|
        distinct(newest_first(sentences)).contains(x) <==> exists|i: int|
            0 <= i < sentences.len() && (#[trigger] sentences[i]).contains(x) by {
        lemma_newest_first_contains(sentences, x);
        assert(distinct(newest_first(sentences)).contains(x) <==> newest_first(
            sentences,
        ).contains(x));
    }
}

proof fn lemma_newest_first_contains(sentences: Seq<Seq<Seq<char>>>, x: Seq<char>)
    ensures
        newest_first(sentences).contains(x) <==> exists|i: int|
            0 <= i < sentences.len() && (#[trigger] sentences[i]).contains(x),
    decreases sentences.len(),
{
    if sentences.len() > 0 {
        let init = sentences.drop_last();
        let last = sentences.last();
        lemma_newest_first_contains(init, x);
        let all = newest_first(sentences);
        let older = newest_first(init);
        if all.contains(x) {
            let k = choose|k: int| 0 <= k < all.len() && all[k] == x;
            if k < last.len() {
                assert(last[k] == x);
                assert(sentences[sentences.len() - 1].contains(x));
            } else {
                assert(older[k - last.len()] == x);
                assert(older.contains(x));
                let i = choose|i: int| 0 <= i < init.len() && (#[trigger] init[i]).contains(x);
                assert(sentences[i].contains(x));
            }
        }
        if exists|i: int| 0 <= i < sentences.len() && (#[trigger] sentences[i]).contains(x) {
            let i = choose|i: int| 0 <= i < sentences.len() && (#[trigger] sentences[i]).contains(x);
            if i == sentences.len() - 1 {
                let k = choose|k: int| 0 <= k < last.len() && last[k] == x;
                assert(all[k] == x);
            } else {
                assert(init[i].contains(x));
                let k = choose|k: int| 0 <= k < older.len() && older[k] == x;
                assert(all[last.len() + k] == x);
            }
        }
    }
}

// ---------------------------------------------------------------------------
// What a token is
// ---------------------------------------------------------------------------

proof fn lemma_tokens_skip(a: Seq<char>, rest: Seq<char>)
    requires
        forall|i: int| 0 <= i < a.len() ==> !is_alnum(#[trigger] a[i]),
    ensures
        tokens_of(a + rest) == tokens_of(rest),
    decreases a.len(),
{
    if a.len() == 0 {
        assert(a + rest =~= rest);
    } else {
        let s = a + rest;
        assert(!is_alnum(a[0]));
        assert(word_len(s) == 0);
        assert(s.drop_first() =~= a.drop_first() + rest);
        assert forall|i: int| 0 <= i < a.drop_first().len() implies !is_alnum(
            #[trigger] a.drop_first()[i],
        ) by {
            assert(a.drop_first()[i] == a[i + 1]);
        }
        lemma_tokens_skip(a.drop_first(), rest);
    }
}

/// A text up to a character that is neither a letter nor a digit has its tokens apart from what
/// comes behind.
proof fn lemma_tokens_apart(a: Seq<char>, b: Seq<char>)
    requires
        a.len() > 0 && b.len() > 0 ==> !is_alnum(a.last()) || !is_alnum(b.first()),
    ensures
        tokens_of(a + b) == tokens_of(a) + tokens_of(b),
    decreases a.len(),
{
    let s = a + b;
    let n = word_len(a);
    lemma_word_len(a);
    lemma_word_len_ends(a);
    if a.len() == 0 {
        assert(s =~= b);
        assert(tokens_of(a) + tokens_of(b) =~= tokens_of(b));
    } else {
        assert(word_len(s) == n) by {
            assert forall|i: int| 0 <= i < n implies is_alnum(#[trigger] s[i]) by {
                assert(a[i] == s[i]);
            }
            if n == a.len() && b.len() > 0 {
                assert(a[n - 1] == a.last());
            }
            lemma_word_len_is(s, n);
        }
        if n == 0 {
            assert(s.drop_first() =~= a.drop_first() + b);
            if a.drop_first().len() > 0 {
                assert(a.drop_first().last() == a.last());
            }
            lemma_tokens_apart(a.drop_first(), b);
        } else {
            let rest = a.skip(n as int);
            assert(s.take(n as int) =~= a.take(n as int));
            assert(s.skip(n as int) =~= rest + b);
            if rest.len() > 0 {
                assert(rest.last() == a.last());
            }
            lemma_tokens_apart(rest, b);
            let word = a.take(n as int);
            assert(seq![word] + (tokens_of(rest) + tokens_of(b)) =~= seq![word] + tokens_of(rest)
                + tokens_of(b));
        }
    }
}

proof fn lemma_word_len_ends(s: Seq<char>)
    ensures
        forall|i: int| 0 <= i < word_len(s) ==> is_alnum(#[trigger] s[i]),
        word_len(s) < s.len() ==> !is_alnum(s[word_len(s) as int]),
    decreases s.len(),
{
    if s.len() > 0 && is_alnum(s.first()) {
        let r = s.drop_first();
        lemma_word_len_ends(r);
        lemma_word_len(r);
        assert forall|i: int| 0 <= i < word_len(s) implies is_alnum(#[trigger] s[i]) by {
            if i > 0 {
                assert(r[i - 1] == s[i]);
            }
        }
    }
}

/// Tokens are whole words. A stretch of letters and digits that none of these stand beside is one
/// token where it holds a letter, and none where it holds only digits; what stands before and
/// behind it has its own tokens; and where there are no letters and digits there is no token.
pub proof fn tokens_are_whole_words(a: Seq<char>, word: Seq<char>, b: Seq<char>)
    requires
        word.len() > 0,
        forall|i: int| 0 <= i < word.len() ==> is_alnum(#[trigger] word[i]),
        a.len() > 0 ==> !is_alnum(a.last()),
        b.len() > 0 ==> !is_alnum(b.first()),
    ensures
        tokens_of(a + word + b) == tokens_of(a) + (if exists|i: int|
            0 <= i < word.len() && is_alpha(#[trigger] word[i]) {
            seq![word]
        } else {
            Seq::empty()
        }) + tokens_of(b),
        (forall|i: int| 0 <= i < a.len() ==> !is_alnum(#[trigger] a[i])) ==> tokens_of(a).len()
            == 0,
{
    lemma_tokens_apart(a + word, b);
    lemma_tokens_apart(a, word);
    lemma_word_len_is(word, word.len());
    assert(word.take(word.len() as int) =~= word);
    assert(word.skip(word.len() as int) =~= Seq::<char>::empty());
    assert(tokens_of(Seq::<char>::empty()) =~= Seq::<Seq<char>>::empty());
    assert(seq![word] + Seq::<Seq<char>>::empty() =~= seq![word]);
    if forall|i: int| 0 <= i < a.len() ==> !is_alnum(#[trigger] a[i]) {
        lemma_tokens_skip(a, Seq::empty());
        assert(a + Seq::<char>::empty() =~= a);
    }
}

/// The tokens of the newest sentence come first, in their order, and those of older ones behind.
pub proof fn newest_tokens_come_first(sentences: Seq<Seq<Seq<char>>>, newest: Seq<Seq<char>>)
    ensures
        newest_first(sentences.push(newest)) == newest + newest_first(sentences),
        newest_first(Seq::empty()) == Seq::<Seq<char>>::empty(),
{
    assert(sentences.push(newest).drop_last() =~= sentences);
}

} // verus!
