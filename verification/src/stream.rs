//! Typing a transcript as it changes: what to erase, and what to type.

use vstd::prelude::*;
use vstd::slice::slice_subrange;
use crate::error::RaflowError;
use crate::text::{to_chars, to_text};

verus! {

/// One change of a text at its end: first so many backspaces, then some text to type.
#[derive(Debug, Clone, PartialEq, Eq)]
pub struct StreamDiff {
    pub backspace: usize,
    pub append: String,
}

/// How many characters two texts have in common at their start.
pub open spec fn common_prefix(a: Seq<char>, b: Seq<char>) -> nat
    decreases a.len(),
{
    if a.len() == 0 || b.len() == 0 || a.first() != b.first() {
        0
    } else {
        1 + common_prefix(a.drop_first(), b.drop_first())
    }
}

/// A text after so many backspaces at its end and then some typing.
pub open spec fn typed(text: Seq<char>, backspace: int, append: Seq<char>) -> Seq<char> {
    text.take(text.len() - backspace) + append
}

pub(crate) proof fn lemma_common_prefix(a: Seq<char>, b: Seq<char>)
    ensures
        common_prefix(a, b) <= a.len(),
        common_prefix(a, b) <= b.len(),
        forall|i: int| 0 <= i < common_prefix(a, b) ==> a[i] == b[i],
        common_prefix(a, b) < a.len() && common_prefix(a, b) < b.len() ==> a[common_prefix(
            a,
            b,
        ) as int] != b[common_prefix(a, b) as int],
    decreases a.len(),
{
    if a.len() == 0 || b.len() == 0 || a.first() != b.first() {
    } else {
        lemma_common_prefix(a.drop_first(), b.drop_first());
        assert forall|i: int| 0 <= i < common_prefix(a, b) implies a[i] == b[i] by {
            if i > 0 {
                assert(a.drop_first()[i - 1] == b.drop_first()[i - 1]);
            }
        }
    }
}

/// What to erase and what to type so that `prev` becomes `new`: everything behind what the two
/// have in common.
pub fn compute_stream_diff(prev: &str, new: &str) -> (diff: StreamDiff)
    ensures
        diff.backspace == prev@.len() - common_prefix(prev@, new@),
        diff.append@ == new@.skip(common_prefix(prev@, new@) as int),
{
    let a = to_chars(prev);
    let b = to_chars(new);
    let mut n: usize = 0;
    assert(a@.skip(0) == a@ && b@.skip(0) == b@);
    while n < a.len() && n < b.len() && a[n] == b[n]
        invariant
            n <= a@.len(),
            n <= b@.len(),
            common_prefix(a@, b@) == n + common_prefix(a@.skip(n as int), b@.skip(n as int)),
        decreases a@.len() - n,
    {
        assert(a@.skip(n as int).drop_first() == a@.skip(n + 1));
        assert(b@.skip(n as int).drop_first() == b@.skip(n + 1));
        n += 1;
    }
    assert(common_prefix(a@.skip(n as int), b@.skip(n as int)) == 0);
    assert(b@.subrange(n as int, b@.len() as int) == b@.skip(n as int));
    StreamDiff {
        backspace: a.len() - n,
        append: to_text(slice_subrange(b.as_slice(), n, b.len())),
    }
}

/// Erasing and typing what the difference says turns the old text into the new one.
pub proof fn diff_turns_old_into_new(prev: Seq<char>, new: Seq<char>)
    ensures
        typed(
            prev,
            prev.len() - common_prefix(prev, new),
            new.skip(common_prefix(prev, new) as int),
        ) == new,
{
    lemma_common_prefix(prev, new);
    let n = common_prefix(prev, new) as int;
    assert(prev.take(n) + new.skip(n) =~= new);
}

/// No other erasing and typing that turns the old text into the new one erases less or types less.
pub proof fn diff_is_least(prev: Seq<char>, new: Seq<char>, backspace: int, append: Seq<char>)
    requires
        0 <= backspace <= prev.len(),
        typed(prev, backspace, append) == new,
    ensures
        prev.len() - common_prefix(prev, new) <= backspace,
        new.skip(common_prefix(prev, new) as int).len() <= append.len(),
{
    lemma_common_prefix(prev, new);
    let kept = prev.len() - backspace;
    let n = common_prefix(prev, new) as int;
    if kept > n {
        assert(new.len() >= kept);
        assert(new[n] == prev.take(kept)[n]);
        assert(false);
    }
}

// ---------------------------------------------------------------------------
// Where text goes
// ---------------------------------------------------------------------------

/// Something that can type into the text field that has the focus.
///
/// `injects` and `erases` say which outcomes a backend allows for; one that does not say allows
/// for every outcome.
pub trait InputBackend: Sized {
    /// `text` was to be typed: the backend before, the backend after, and what came back.
    open spec fn injects(before: Self, text: Seq<char>, after: Self, r: Result<(), RaflowError>) -> bool {
        true
    }

    /// `count` backspaces were to be made: the backend before, the backend after, and what came
    /// back.
    open spec fn erases(before: Self, count: usize, after: Self, r: Result<(), RaflowError>) -> bool {
        true
    }

    /// Types `text`.
    fn inject(&mut self, text: &str) -> (r: Result<(), RaflowError>)
        ensures
            Self::injects(*old(self), text@, *final(self), r),
    ;

    /// Makes `count` backspaces; none at all where `count` is zero.
    fn backspace(&mut self, count: usize) -> (r: Result<(), RaflowError>)
        ensures
            Self::erases(*old(self), count, *final(self), r),
    ;

    /// Makes `new` of the text `prev` that is in the field. The backend is asked for backspaces
    /// only where there are any, and to type only where there is anything; typing is not tried
    /// once erasing has failed.
    fn stream_update(&mut self, prev: &str, new: &str) -> (r: Result<(), RaflowError>)
        ensures
            ({
                let n = (prev@.len() - common_prefix(prev@, new@)) as usize;
                let append = new@.skip(common_prefix(prev@, new@) as int);
                if n == 0 && append.len() == 0 {
                    *final(self) == *old(self) && r is Ok
                } else if n == 0 {
                    Self::injects(*old(self), append, *final(self), r)
                } else if append.len() == 0 {
                    Self::erases(*old(self), n, *final(self), r)
                } else {
                    ||| r is Err && Self::erases(*old(self), n, *final(self), r)
                    ||| exists|mid: Self, erased: Result<(), RaflowError>|
                        #[trigger] Self::erases(*old(self), n, mid, erased) && erased is Ok
                            && Self::injects(mid, append, *final(self), r)
                }
            }),
    {
        let diff = compute_stream_diff(prev, new);
        proof {
            lemma_common_prefix(prev@, new@);
        }
        if diff.backspace > 0 {
            let erased = self.backspace(diff.backspace);
            if erased.is_err() || diff.append.as_str().is_empty() {
                return erased;
            }
            return self.inject(diff.append.as_str());
        }
        if !diff.append.as_str().is_empty() {
            return self.inject(diff.append.as_str());
        }
        Ok(())
    }
}

/// Something that can put text on the clipboard.
pub trait ClipboardBackend: Sized {
    /// `text` was to be copied: the clipboard before, the clipboard after, and what came back.
    open spec fn copies(before: Self, text: Seq<char>, after: Self, r: Result<(), RaflowError>) -> bool {
        true
    }

    /// Copies `text`.
    fn copy(&mut self, text: &str) -> (r: Result<(), RaflowError>)
        ensures
            Self::copies(*old(self), text@, *final(self), r),
    ;
}

} // verus!
