//! Typing transcripts into the focused text field: what is typed, what is erased, and when not to.

use vstd::prelude::*;
use crate::stream::{compute_stream_diff, StreamDiff};
use crate::stream::{common_prefix, diff_turns_old_into_new, lemma_common_prefix, typed};

verus! {

// ---------------------------------------------------------------------------
// Phrases
// ---------------------------------------------------------------------------

/// What happens to the phrase that is being spoken.
#[derive(Debug, Clone, PartialEq, Eq)]
pub enum PhraseEvent<'a> {
    /// A new session: nothing is locked and there is no draft.
    SessionStarted,
    /// The newest draft of the phrase.
    Partial(&'a str),
    /// The phrase is final; it is locked and never changes again.
    PhraseFinal(&'a str),
    /// The last phrase is final.
    Final(&'a str),
    /// The session failed; nothing is locked any more and there is no draft.
    Error,
}

/// What a printer knows of the text field: the phrases that are locked, and behind them the draft
/// of the one that is being spoken.
#[verifier::ext_equal]
pub struct Typed {
    pub committed: Seq<char>,
    pub draft: Seq<char>,
}

impl Typed {
    /// What the printer has typed since the session began.
    pub open spec fn text(self) -> Seq<char> {
        self.committed + self.draft
    }
}

/// The new phrase text that an event brings, if it brings one.
pub open spec fn phrase_of(event: PhraseEvent) -> Option<Seq<char>> {
    match event {
        PhraseEvent::Partial(text) => Some(text@),
        PhraseEvent::PhraseFinal(text) => Some(text@),
        PhraseEvent::Final(text) => Some(text@),
        PhraseEvent::SessionStarted => None,
        PhraseEvent::Error => None,
    }
}

/// What a printer knows after an event.
pub open spec fn after_event(state: Typed, event: PhraseEvent) -> Typed {
    match event {
        PhraseEvent::SessionStarted | PhraseEvent::Error => Typed {
            committed: Seq::empty(),
            draft: Seq::empty(),
        },
        PhraseEvent::Partial(text) => Typed { committed: state.committed, draft: text@ },
        PhraseEvent::PhraseFinal(text) | PhraseEvent::Final(text) => Typed {
            committed: state.committed + text@,
            draft: Seq::empty(),
        },
    }
}

/// How many backspaces an event calls for: those that take the draft back to what it has in common
/// with the new phrase text.
pub open spec fn erased_by(state: Typed, event: PhraseEvent) -> int {
    match phrase_of(event) {
        Some(text) => state.draft.len() - common_prefix(state.draft, text),
        None => 0,
    }
}

/// What an event calls to be typed.
pub open spec fn typed_by(state: Typed, event: PhraseEvent) -> Seq<char> {
    match phrase_of(event) {
        Some(text) => text.skip(common_prefix(state.draft, text) as int),
        None => Seq::empty(),
    }
}

/// Keeps track of what was typed, and says how to go on. Locked phrases are never erased.
#[derive(Debug, Clone)]
pub struct PhrasePrinter {
    committed: String,
    last_partial: String,
}

impl View for PhrasePrinter {
    type V = Typed;

    closed spec fn view(&self) -> Typed {
        Typed { committed: self.committed@, draft: self.last_partial@ }
    }
}

impl Default for PhrasePrinter {
    fn default() -> (p: Self)
        ensures
            p@ == (Typed { committed: Seq::empty(), draft: Seq::empty() }),
    {
        PhrasePrinter { committed: String::new(), last_partial: String::new() }
    }
}

impl PhrasePrinter {
    /// Nothing locked, and no draft.
    pub fn new() -> (p: Self)
        ensures
            p@ == (Typed { committed: Seq::empty(), draft: Seq::empty() }),
    {
        PhrasePrinter { committed: String::new(), last_partial: String::new() }
    }

    /// The locked phrases.
    pub fn committed(&self) -> (text: &str)
        ensures
            text@ == self@.committed,
    {
        self.committed.as_str()
    }

    /// The draft of the phrase that is being spoken.
    pub fn last_partial(&self) -> (text: &str)
        ensures
            text@ == self@.draft,
    {
        self.last_partial.as_str()
    }

    /// Lets go of the draft: what was typed of it is the user's from now on.
    pub fn let_go(&mut self)
        ensures
            final(self)@ == (Typed { committed: old(self)@.committed, draft: Seq::empty() }),
    {
        self.last_partial = String::new();
    }

    /// Takes an event in, and says what to erase and what to type.
    pub fn apply(&mut self, event: PhraseEvent<'_>) -> (diff: StreamDiff)
        ensures
            final(self)@ == after_event(old(self)@, event),
            diff.backspace == erased_by(old(self)@, event),
            diff.append@ == typed_by(old(self)@, event),
    {
        match event {
            PhraseEvent::SessionStarted | PhraseEvent::Error => {
                self.committed = String::new();
                self.last_partial = String::new();
                let none = StreamDiff { backspace: 0, append: String::new() };
                none
            },
            PhraseEvent::Partial(text) => {
                let diff = compute_stream_diff(self.last_partial.as_str(), text);
                self.last_partial = text.to_owned();
                diff
            },
            PhraseEvent::PhraseFinal(text) | PhraseEvent::Final(text) => {
                let diff = compute_stream_diff(self.last_partial.as_str(), text);
                self.committed.append(text);
                self.last_partial = String::new();
                diff
            },
        }
    }
}

/// No event ever calls for more backspaces than the draft is long: locked phrases are never erased.
pub proof fn locked_phrases_are_never_erased(state: Typed, event: PhraseEvent)
    ensures
        0 <= erased_by(state, event) <= state.draft.len(),
{
    match phrase_of(event) {
        Some(text) => lemma_common_prefix(state.draft, text),
        None => {},
    }
}

/// The text field after an event, where what the event calls for is done in it.
pub open spec fn field_after(field: Seq<char>, state: Typed, event: PhraseEvent) -> Seq<char> {
    typed(field, erased_by(state, event), typed_by(state, event))
}

/// A field that ends in what the printer has typed still does so after a phrase event, and what
/// stood before that is untouched.
proof fn lemma_field_after(before: Seq<char>, state: Typed, event: PhraseEvent)
    requires
        phrase_of(event) is Some,
    ensures
        field_after(before + state.text(), state, event) == before + after_event(
            state,
            event,
        ).text(),
{
    let text = phrase_of(event)->0;
    let n = common_prefix(state.draft, text) as int;
    lemma_common_prefix(state.draft, text);
    diff_turns_old_into_new(state.draft, text);
    let field = before + state.text();
    let kept = field.take(field.len() - erased_by(state, event));
    assert(kept == before + state.committed + state.draft.take(n));
    assert(kept + text.skip(n) == before + state.committed + (state.draft.take(n) + text.skip(n)));
    assert(state.draft.take(n) + text.skip(n) == text);
    assert(before + state.committed + text == before + after_event(state, event).text());
}

/// What a printer knows after some events.
pub open spec fn after_events(state: Typed, events: Seq<PhraseEvent>) -> Typed
    decreases events.len(),
{
    if events.len() == 0 {
        state
    } else {
        after_event(after_events(state, events.drop_last()), events.last())
    }
}

/// The text field after some events, where what each of them calls for is done in it.
pub open spec fn field_after_all(field: Seq<char>, state: Typed, events: Seq<PhraseEvent>) -> Seq<
    char,
>
    decreases events.len(),
{
    if events.len() == 0 {
        field
    } else {
        field_after(
            field_after_all(field, state, events.drop_last()),
            after_events(state, events.drop_last()),
            events.last(),
        )
    }
}

/// However a session goes on, the field holds what stood in it before the session, then the locked
/// phrases, then the draft: nothing that was there before is touched.
pub proof fn field_holds_what_was_spoken(before: Seq<char>, events: Seq<PhraseEvent>)
    requires
        forall|i: int| 0 <= i < events.len() ==> phrase_of(#[trigger] events[i]) is Some,
    ensures
        ({
            let fresh = Typed { committed: Seq::empty(), draft: Seq::empty() };
            field_after_all(before, fresh, events) == before + after_events(fresh, events).text()
        }),
    decreases events.len(),
{
    let fresh = Typed { committed: Seq::empty(), draft: Seq::empty() };
    if events.len() == 0 {
        assert(fresh.text() == Seq::<char>::empty());
        assert(before + fresh.text() == before);
    } else {
        let init = events.drop_last();
        assert forall|i: int| 0 <= i < init.len() implies phrase_of(#[trigger] init[i]) is Some by {
            assert(init[i] == events[i]);
        }
        field_holds_what_was_spoken(before, init);
        assert(phrase_of(events[events.len() - 1]) is Some);
        lemma_field_after(before, after_events(fresh, init), events.last());
    }
}

/// The final phrases of some events, one after the other.
pub open spec fn final_text(events: Seq<PhraseEvent>) -> Seq<char>
    decreases events.len(),
{
    if events.len() == 0 {
        Seq::empty()
    } else {
        match events.last() {
            PhraseEvent::PhraseFinal(text) | PhraseEvent::Final(text) => final_text(
                events.drop_last(),
            ) + text@,
            _ => final_text(events.drop_last()),
        }
    }
}

/// What is locked in a session is its final phrases in order, whatever drafts came between them,
/// and the draft is the newest one, unless a final phrase has taken its place.
pub proof fn final_phrases_are_locked_in_order(events: Seq<PhraseEvent>)
    requires
        forall|i: int| 0 <= i < events.len() ==> phrase_of(#[trigger] events[i]) is Some,
    ensures
        ({
            let fresh = Typed { committed: Seq::empty(), draft: Seq::empty() };
            let state = after_events(fresh, events);
            &&& state.committed == final_text(events)
            &&& state.draft == if events.len() > 0 && events.last() is Partial {
                phrase_of(events.last())->0
            } else {
                Seq::empty()
            }
        }),
    decreases events.len(),
{
    if events.len() > 0 {
        let init = events.drop_last();
        assert forall|i: int| 0 <= i < init.len() implies phrase_of(#[trigger] init[i]) is Some by {
            assert(init[i] == events[i]);
        }
        final_phrases_are_locked_in_order(init);
        assert(phrase_of(events[events.len() - 1]) is Some);
    }
}

/// A locked phrase stays locked: it remains at its place, at the start of what is locked, through
/// every later phrase event.
pub proof fn locked_phrases_stay(state: Typed, event: PhraseEvent)
    requires
        phrase_of(event) is Some,
    ensures
        state.committed.is_prefix_of(after_event(state, event).committed),
{
}

// ---------------------------------------------------------------------------
// Focus
// ---------------------------------------------------------------------------

/// What a guard knows: which application had the focus when the session began, as far as that is
/// known, and whether it has been left since.
pub struct Guarded {
    pub session_pid: Option<i32>,
    pub latched: bool,
}

/// The application that has the focus is known to be another than at the start of the session.
pub open spec fn focus_moved(session: Option<i32>, current: Option<i32>) -> bool {
    session is Some && current is Some && session != current
}

/// What a guard knows after being asked.
pub open spec fn after_asking(state: Guarded, current: Option<i32>) -> Guarded {
    Guarded {
        session_pid: state.session_pid,
        latched: state.latched || focus_moved(state.session_pid, current),
    }
}

/// Watches over the focus: once the user has moved to another application, nothing more is typed
/// in this session. Where the application is not known, typing goes on.
#[derive(Debug, Clone)]
pub struct FocusGuard {
    session_pid: Option<i32>,
    latched_off: bool,
}

impl View for FocusGuard {
    type V = Guarded;

    closed spec fn view(&self) -> Guarded {
        Guarded { session_pid: self.session_pid, latched: self.latched_off }
    }
}

impl Default for FocusGuard {
    fn default() -> (g: Self)
        ensures
            g@ == (Guarded { session_pid: None, latched: false }),
    {
        FocusGuard { session_pid: None, latched_off: false }
    }
}

impl FocusGuard {
    /// No session yet: everything may be typed.
    pub fn new() -> (g: Self)
        ensures
            g@ == (Guarded { session_pid: None, latched: false }),
    {
        FocusGuard { session_pid: None, latched_off: false }
    }

    /// A session begins while `pid` has the focus.
    pub fn session_started(&mut self, pid: Option<i32>)
        ensures
            final(self)@ == (Guarded { session_pid: pid, latched: false }),
    {
        self.session_pid = pid;
        self.latched_off = false;
    }

    /// Whether the focus was left in this session.
    pub fn latched(&self) -> (b: bool)
        ensures
            b == self@.latched,
    {
        self.latched_off
    }

    /// Whether to type while `current_pid` has the focus.
    pub fn should_inject(&mut self, current_pid: Option<i32>) -> (b: bool)
        ensures
            final(self)@ == after_asking(old(self)@, current_pid),
            b == !after_asking(old(self)@, current_pid).latched,
    {
        if self.latched_off {
            return false;
        }
        match (self.session_pid, current_pid) {
            (Some(session), Some(current)) => {
                if session != current {
                    self.latched_off = true;
                    false
                } else {
                    true
                }
            },
            _ => true,
        }
    }
}

/// What a guard knows after being asked several times.
pub open spec fn after_asking_all(state: Guarded, asked: Seq<Option<i32>>) -> Guarded
    decreases asked.len(),
{
    if asked.len() == 0 {
        state
    } else {
        after_asking(after_asking_all(state, asked.drop_last()), asked.last())
    }
}

/// Once the focus was with another application, the answer stays no for the rest of the session,
/// also after the focus has come back; before that it is yes.
pub proof fn typing_stops_once_focus_is_left(pid: Option<i32>, asked: Seq<Option<i32>>)
    ensures
        after_asking_all(Guarded { session_pid: pid, latched: false }, asked).session_pid == pid,
        after_asking_all(Guarded { session_pid: pid, latched: false }, asked).latched <==> exists|
            i: int,
        |
            0 <= i < asked.len() && focus_moved(pid, #[trigger] asked[i]),
    decreases asked.len(),
{
    if asked.len() > 0 {
        let init = asked.drop_last();
        typing_stops_once_focus_is_left(pid, init);
        if exists|i: int| 0 <= i < init.len() && focus_moved(pid, #[trigger] init[i]) {
            let i = choose|i: int| 0 <= i < init.len() && focus_moved(pid, #[trigger] init[i]);
            assert(focus_moved(pid, asked[i]));
        }
        if exists|i: int| 0 <= i < asked.len() && focus_moved(pid, #[trigger] asked[i]) {
            let i = choose|i: int| 0 <= i < asked.len() && focus_moved(pid, #[trigger] asked[i]);
            if i < init.len() {
                assert(focus_moved(pid, init[i]));
            }
        }
        if focus_moved(pid, asked.last()) {
            assert(focus_moved(pid, asked[asked.len() - 1]));
        }
    }
}

} // verus!
