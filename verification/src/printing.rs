//! What a transcript makes the tool do: print, type, show, copy.
//!
//! The application performs the actions in order; everything that is decided is decided here.

use vstd::prelude::*;
use crate::error::RaflowError;
use crate::permissions::error_report;
use crate::printer::{FocusGuard, PhraseEvent, PhrasePrinter};
use crate::replacements::{apply_replacements, Replacements};
use crate::stream::{InputBackend, StreamDiff};
use crate::tokens::RecentTokens;
use crate::transcript::TranscriptUpdate;
use crate::permissions::report_text;
use crate::printer::{after_asking, focus_moved, Guarded, Typed};
use crate::replacements::{corrected, rule_texts, RuleText};
use crate::stream::{common_prefix, lemma_common_prefix};
use crate::terms::distinct;
use crate::text::texts;
use crate::tokens::{
    kept_after, last_of, last_sentences_are_kept, newest_first, tokens_of, with_sentence, with_tokens,
};
use crate::transcript::UpdateText;

verus! {

/// The tokens of so many sentences are kept as candidates for corrections.
pub const RECENT_TOKENS_CAP: usize = 5;

/// Something for the application to do.
#[derive(Debug, PartialEq, Eq)]
pub enum PrinterAction {
    /// Print a line.
    Print(String),
    /// Report a line as an error.
    Report(String),
    /// Erase and type in the focused text field.
    Inject(StreamDiff),
    /// Tell the user that typing has stopped because the focus has moved.
    WarnFocusMoved,
    /// Copy the whole text to the clipboard.
    Copy(String),
    /// Show a text on the overlay.
    Show(String),
    /// Hide the overlay and clear it.
    ClearOverlay,
    /// Hide the overlay after a while.
    ScheduleHide,
    /// Offer these tokens as candidates for corrections.
    OfferTokens(Vec<String>),
    /// Show that typing pauses because the user is editing.
    Pause,
    /// Show that typing goes on.
    Resume,
}

/// An action as text.
pub enum ActionText {
    Print(Seq<char>),
    Report(Seq<char>),
    Inject(int, Seq<char>),
    WarnFocusMoved,
    Copy(Seq<char>),
    Show(Seq<char>),
    ClearOverlay,
    ScheduleHide,
    OfferTokens(Seq<Seq<char>>),
    Pause,
    Resume,
}

impl View for PrinterAction {
    type V = ActionText;

    open spec fn view(&self) -> ActionText {
        match self {
            PrinterAction::Print(s) => ActionText::Print(s@),
            PrinterAction::Report(s) => ActionText::Report(s@),
            PrinterAction::Inject(d) => ActionText::Inject(d.backspace as int, d.append@),
            PrinterAction::WarnFocusMoved => ActionText::WarnFocusMoved,
            PrinterAction::Copy(s) => ActionText::Copy(s@),
            PrinterAction::Show(s) => ActionText::Show(s@),
            PrinterAction::ClearOverlay => ActionText::ClearOverlay,
            PrinterAction::ScheduleHide => ActionText::ScheduleHide,
            PrinterAction::OfferTokens(t) => ActionText::OfferTokens(texts(t@)),
            PrinterAction::Pause => ActionText::Pause,
            PrinterAction::Resume => ActionText::Resume,
        }
    }
}

/// Actions as text.
pub open spec fn action_texts(actions: Seq<PrinterAction>) -> Seq<ActionText> {
    actions.map_values(|a: PrinterAction| a@)
}

/// Everything that the printer knows.
pub struct Printing {
    pub typed: Typed,
    pub table: Seq<RuleText>,
    pub guard: Guarded,
    pub sentences: Seq<Seq<Seq<char>>>,
    /// Phrases become final while the session goes on.
    pub rolling: bool,
    /// The user has taken over; typing waits until more is spoken.
    pub paused: bool,
    /// The phrase that is being spoken was partly typed when the user took over; the rest of it is
    /// not typed.
    pub skips: bool,
}

/// Typing waits, whatever `text` is to be typed.
pub open spec fn waits(state: Printing, text: Seq<char>) -> bool {
    state.paused && (state.skips || text.len() == 0)
}

/// What is done about typing so that the draft becomes `text` while `pid` has the focus: typing
/// where that is allowed, else one warning when it is no longer; nothing while typing waits.
pub open spec fn inject_actions(state: Printing, text: Seq<char>, pid: Option<i32>) -> Seq<
    ActionText,
> {
    let n = common_prefix(state.typed.draft, text);
    if waits(state, text) {
        Seq::empty()
    } else if !after_asking(state.guard, pid).latched {
        seq![ActionText::Inject(state.typed.draft.len() - n, text.skip(n as int))]
    } else if !state.guard.latched {
        seq![ActionText::WarnFocusMoved]
    } else {
        Seq::empty()
    }
}

/// What the printer knows after an update. `table` is the table of corrections as it is now, and
/// `pid` the application that has the focus.
pub open spec fn after_update(
    state: Printing,
    update: UpdateText,
    table: Seq<RuleText>,
    pid: Option<i32>,
) -> Printing {
    match update {
        UpdateText::SessionStarted { rolling } => Printing {
            typed: Typed { committed: Seq::empty(), draft: Seq::empty() },
            table,
            guard: Guarded { session_pid: pid, latched: false },
            sentences: Seq::empty(),
            rolling,
            paused: false,
            skips: false,
        },
        UpdateText::Partial(raw) => if waits(state, corrected(raw, state.table)) {
            state
        } else {
            Printing {
                typed: Typed {
                    committed: state.typed.committed,
                    draft: corrected(raw, state.table),
                },
                guard: after_asking(state.guard, pid),
                paused: false,
                skips: false,
                ..state
            }
        },
        UpdateText::PhraseFinal(raw) | UpdateText::Final(raw) => Printing {
            typed: Typed {
                committed: state.typed.committed + corrected(raw, state.table),
                draft: Seq::empty(),
            },
            guard: if waits(state, corrected(raw, state.table)) {
                state.guard
            } else {
                after_asking(state.guard, pid)
            },
            sentences: with_sentence(
                state.sentences,
                RECENT_TOKENS_CAP as nat,
                tokens_of(corrected(raw, state.table)),
            ),
            rolling: state.rolling && update is PhraseFinal,
            paused: update is PhraseFinal && waits(state, corrected(raw, state.table)),
            skips: false,
            ..state
        },
        UpdateText::Error(_) => Printing {
            typed: Typed { committed: Seq::empty(), draft: Seq::empty() },
            paused: false,
            skips: false,
            ..state
        },
    }
}

/// Typing goes on, where it has paused.
pub open spec fn resume_actions(state: Printing, after: Printing) -> Seq<ActionText> {
    if state.paused && !after.paused {
        seq![ActionText::Resume]
    } else {
        Seq::empty()
    }
}

/// The user takes over. A sign of that counts only where phrases become final while the session
/// goes on: elsewhere there is no next phrase for typing to go on with.
pub open spec fn takes_over(state: Printing) -> bool {
    state.rolling && !state.paused
}

/// What the printer knows after a sign that the user has taken over. What was typed of the phrase
/// is let go of.
pub open spec fn after_takeover(state: Printing) -> Printing {
    if takes_over(state) {
        Printing {
            typed: Typed { committed: state.typed.committed, draft: Seq::empty() },
            paused: true,
            skips: state.typed.draft.len() > 0,
            ..state
        }
    } else {
        state
    }
}

/// What an update makes the application do.
pub open spec fn actions_for(
    state: Printing,
    update: UpdateText,
    table: Seq<RuleText>,
    pid: Option<i32>,
) -> Seq<ActionText> {
    let after = after_update(state, update, table, pid);
    match update {
        UpdateText::SessionStarted { .. } => seq![
            ActionText::ClearOverlay,
            ActionText::OfferTokens(Seq::empty()),
        ] + resume_actions(state, after),
        UpdateText::Partial(raw) => {
            let text = corrected(raw, state.table);
            seq![ActionText::Print("~ "@ + text)] + inject_actions(state, text, pid)
                + seq![ActionText::Show(after.typed.committed + text)] + resume_actions(
                state,
                after,
            )
        },
        UpdateText::PhraseFinal(raw) => {
            let text = corrected(raw, state.table);
            seq![ActionText::Print("= "@ + text)] + inject_actions(state, text, pid)
                + seq![
                    ActionText::Show(after.typed.committed),
                    ActionText::OfferTokens(distinct(newest_first(after.sentences))),
                ] + resume_actions(state, after)
        },
        UpdateText::Final(raw) => {
            let text = corrected(raw, state.table);
            seq![ActionText::Print("= "@ + text)] + inject_actions(state, text, pid)
                + seq![
                    ActionText::Copy(after.typed.committed),
                    ActionText::Show(after.typed.committed),
                    ActionText::ScheduleHide,
                    ActionText::OfferTokens(distinct(newest_first(after.sentences))),
                ] + resume_actions(state, after)
        },
        UpdateText::Error(message) => seq![
            ActionText::Report("! speech error: "@ + message),
            ActionText::Show("! "@ + message),
            ActionText::ScheduleHide,
        ] + resume_actions(state, after),
    }
}

/// Backspaces were made where there were any to make.
pub open spec fn erases_if_any<B: InputBackend>(
    before: B,
    n: usize,
    after: B,
    r: Result<(), RaflowError>,
) -> bool {
    if n == 0 {
        after == before && r is Ok
    } else {
        B::erases(before, n, after, r)
    }
}

/// Text was typed where there was any.
pub open spec fn injects_if_any<B: InputBackend>(
    before: B,
    text: Seq<char>,
    after: B,
    r: Result<(), RaflowError>,
) -> bool {
    if text.len() == 0 {
        after == before && r is Ok
    } else {
        B::injects(before, text, after, r)
    }
}

/// What went wrong while typing.
#[derive(Debug, PartialEq, Eq)]
pub enum InjectFailure {
    /// Erasing failed; nothing was typed.
    Backspace(RaflowError),
    /// Typing failed, after erasing where there was anything to erase.
    Append(RaflowError),
}

impl InjectFailure {
    /// What is reported of the failure.
    pub fn report(&self) -> (text: String)
        ensures
            text@ == match self {
                InjectFailure::Backspace(e) => report_text(
                    "! stream inject failed (backspace)"@,
                    *e,
                ),
                InjectFailure::Append(e) => report_text("! stream inject failed (append)"@, *e),
            },
    {
        match self {
            InjectFailure::Backspace(e) => error_report("! stream inject failed (backspace)", e),
            InjectFailure::Append(e) => error_report("! stream inject failed (append)", e),
        }
    }
}

/// Erases and types. The backend is asked for backspaces only where there are any, and to type
/// only where there is anything; typing is not tried once erasing has failed.
pub fn exec_inject<B: InputBackend>(backend: &mut B, diff: &StreamDiff) -> (failure: Option<
    InjectFailure,
>)
    ensures
        ({
            let n = diff.backspace;
            let append = diff.append@;
            match failure {
                Some(InjectFailure::Backspace(e)) => n > 0 && B::erases(
                    *old(backend),
                    n,
                    *final(backend),
                    Err(e),
                ),
                Some(InjectFailure::Append(e)) => {
                    &&& append.len() > 0
                    &&& if n == 0 {
                        B::injects(*old(backend), append, *final(backend), Err(e))
                    } else {
                        exists|mid: B, erased: Result<(), RaflowError>|
                            #[trigger] B::erases(*old(backend), n, mid, erased) && erased is Ok
                                && B::injects(mid, append, *final(backend), Err(e))
                    }
                },
                None => exists|mid: B, erased: Result<(), RaflowError>, typed: Result<(), RaflowError>|
                    #[trigger] erases_if_any(*old(backend), n, mid, erased) && erased is Ok
                        && #[trigger] injects_if_any(mid, append, *final(backend), typed) && typed is Ok,
            }
        }),
{
    let ghost before = *backend;
    let mut erased: Result<(), RaflowError> = Ok(());
    if diff.backspace > 0 {
        erased = backend.backspace(diff.backspace);
        match erased {
            Err(err) => {
                return Some(InjectFailure::Backspace(err));
            },
            Ok(()) => {},
        }
    }
    let ghost mid = *backend;
    assert(erases_if_any(before, diff.backspace, mid, erased));
    let mut typed: Result<(), RaflowError> = Ok(());
    if !diff.append.as_str().is_empty() {
        typed = backend.inject(diff.append.as_str());
        match typed {
            Err(err) => {
                return Some(InjectFailure::Append(err));
            },
            Ok(()) => {},
        }
    }
    assert(injects_if_any(mid, diff.append@, *backend, typed));
    None
}

/// Turns the updates of speech sessions into actions.
#[derive(Debug)]
pub struct Printer {
    printer: PhrasePrinter,
    replacements: Replacements,
    guard: FocusGuard,
    recent: RecentTokens,
    rolling: bool,
    paused: bool,
    skips: bool,
}

impl View for Printer {
    type V = Printing;

    closed spec fn view(&self) -> Printing {
        Printing {
            typed: self.printer@,
            table: rule_texts(self.replacements@),
            guard: self.guard@,
            sentences: self.recent.sentences(),
            rolling: self.rolling,
            paused: self.paused,
            skips: self.skips,
        }
    }
}

fn joined(a: &str, b: &str) -> (s: String)
    ensures
        s@ == a@ + b@,
{
    let mut s = a.to_owned();
    s.append(b);
    s
}

impl Printer {
    /// The token buffer is in order.
    pub closed spec fn wf(&self) -> bool {
        self.recent.wf() && self.recent.cap() == RECENT_TOKENS_CAP
    }

    /// A printer that has typed nothing yet, with the table of corrections as it is now.
    pub fn new(replacements: Replacements) -> (p: Self)
        ensures
            p.wf(),
            p@ == (Printing {
                typed: Typed { committed: Seq::empty(), draft: Seq::empty() },
                table: rule_texts(replacements@),
                guard: Guarded { session_pid: None, latched: false },
                sentences: Seq::empty(),
                rolling: false,
                paused: false,
                skips: false,
            }),
    {
        Printer {
            printer: PhrasePrinter::new(),
            replacements,
            guard: FocusGuard::new(),
            recent: RecentTokens::new(RECENT_TOKENS_CAP),
            rolling: false,
            paused: false,
            skips: false,
        }
    }

    /// Takes in a sign that the user has taken over, and says what to do. Typing pauses; where part
    /// of a phrase is typed already, the rest of it never is. What is spoken after that is typed
    /// where the user has left off.
    pub fn on_takeover(&mut self) -> (action: Option<PrinterAction>)
        requires
            old(self).wf(),
        ensures
            final(self).wf(),
            final(self)@ == after_takeover(old(self)@),
            action == if takes_over(old(self)@) {
                Some(PrinterAction::Pause)
            } else {
                None
            },
    {
        if self.rolling && !self.paused {
            self.skips = !self.printer.last_partial().is_empty();
            self.printer.let_go();
            self.paused = true;
            Some(PrinterAction::Pause)
        } else {
            None
        }
    }

    /// Whether typing waits, whatever `text` is to be typed.
    fn waits(&self, text: &str) -> (b: bool)
        ensures
            b == waits(self@, text@),
    {
        self.paused && (self.skips || text.is_empty())
    }

    /// The pause goes on or ends, and what is left of a phrase counts no more.
    fn settle_pause(&mut self, goes_on: bool, actions: &mut Vec<PrinterAction>)
        ensures
            final(self).printer == old(self).printer,
            final(self).replacements == old(self).replacements,
            final(self).guard == old(self).guard,
            final(self).recent == old(self).recent,
            final(self).rolling == old(self).rolling,
            final(self).paused == goes_on,
            !final(self).skips,
            action_texts(final(actions)@) == action_texts(old(actions)@) + resume_actions(
                old(self)@,
                final(self)@,
            ),
    {
        let ghost before = action_texts(actions@);
        let resumes = self.paused && !goes_on;
        self.paused = goes_on;
        self.skips = false;
        if resumes {
            actions.push(PrinterAction::Resume);
            assert(action_texts(actions@) == before.push(ActionText::Resume));
            assert(before + seq![ActionText::Resume] == before.push(ActionText::Resume));
        } else {
            assert(before + Seq::<ActionText>::empty() == before);
        }
    }

    /// Asks the guard, and adds what is to be done about typing.
    fn plan_inject(&mut self, diff: StreamDiff, pid: Option<i32>, actions: &mut Vec<PrinterAction>)
        ensures
            final(self).printer == old(self).printer,
            final(self).replacements == old(self).replacements,
            final(self).recent == old(self).recent,
            final(self).rolling == old(self).rolling,
            final(self).paused == old(self).paused,
            final(self).skips == old(self).skips,
            final(self).guard@ == after_asking(old(self).guard@, pid),
            action_texts(final(actions)@) == action_texts(old(actions)@) + (if !after_asking(
                old(self).guard@,
                pid,
            ).latched {
                seq![ActionText::Inject(diff.backspace as int, diff.append@)]
            } else if !old(self).guard@.latched {
                seq![ActionText::WarnFocusMoved]
            } else {
                Seq::empty()
            }),
    {
        let ghost before = action_texts(actions@);
        let was_latched = self.guard.latched();
        if self.guard.should_inject(pid) {
            let ghost done = ActionText::Inject(diff.backspace as int, diff.append@);
            actions.push(PrinterAction::Inject(diff));
            assert(action_texts(actions@) == before.push(done));
            assert(before + seq![done] == before.push(done));
        } else if !was_latched {
            actions.push(PrinterAction::WarnFocusMoved);
            assert(action_texts(actions@) == before.push(ActionText::WarnFocusMoved));
            assert(before + seq![ActionText::WarnFocusMoved] == before.push(
                ActionText::WarnFocusMoved,
            ));
        } else {
            assert(before + Seq::<ActionText>::empty() == before);
        }
    }

    /// A draft of the phrase that is being spoken has come.
    fn on_partial(&mut self, raw: &str, pid: Option<i32>) -> (actions: Vec<PrinterAction>)
        requires
            old(self).wf(),
        ensures
            final(self).wf(),
            final(self)@ == after_update(
                old(self)@,
                UpdateText::Partial(raw@),
                old(self)@.table,
                pid,
            ),
            action_texts(actions@) == actions_for(
                old(self)@,
                UpdateText::Partial(raw@),
                old(self)@.table,
                pid,
            ),
    {
        let ghost state = self@;
        let text = apply_replacements(raw, &self.replacements);
        let waits = self.waits(text.as_str());
        let mut actions: Vec<PrinterAction> = Vec::new();
        actions.push(PrinterAction::Print(joined("~ ", text.as_str())));
        if !waits {
            let diff = self.printer.apply(PhraseEvent::Partial(text.as_str()));
            self.plan_inject(diff, pid, &mut actions);
        }
        let ghost so_far = action_texts(actions@);
        assert(so_far == seq![ActionText::Print("~ "@ + text@)] + inject_actions(
            state,
            text@,
            pid,
        ));
        let shown = joined(self.printer.committed(), text.as_str());
        actions.push(PrinterAction::Show(shown));
        assert(action_texts(actions@) == so_far + seq![ActionText::Show(shown@)]);
        if !waits {
            self.settle_pause(false, &mut actions);
        }
        assert(action_texts(actions@) == actions_for(
            state,
            UpdateText::Partial(raw@),
            state.table,
            pid,
        ));
        actions
    }

    /// A phrase has become final, and the session has ended with it or goes on.
    fn on_final(&mut self, raw: &str, ends: bool, pid: Option<i32>) -> (actions: Vec<
        PrinterAction,
    >)
        requires
            old(self).wf(),
        ensures
            ({
                let update = if ends {
                    UpdateText::Final(raw@)
                } else {
                    UpdateText::PhraseFinal(raw@)
                };
                let state = old(self)@;
                &&& final(self).wf()
                &&& final(self)@ == after_update(state, update, state.table, pid)
                &&& action_texts(actions@) == actions_for(state, update, state.table, pid)
            }),
    {
        let ghost state = self@;
        let text = apply_replacements(raw, &self.replacements);
        let waits = self.waits(text.as_str());
        let mut actions: Vec<PrinterAction> = Vec::new();
        actions.push(PrinterAction::Print(joined("= ", text.as_str())));
        let diff = self.printer.apply(
            if ends {
                PhraseEvent::Final(text.as_str())
            } else {
                PhraseEvent::PhraseFinal(text.as_str())
            },
        );
        if !waits {
            self.plan_inject(diff, pid, &mut actions);
        }
        let ghost so_far = action_texts(actions@);
        assert(so_far == seq![ActionText::Print("= "@ + text@)] + inject_actions(
            state,
            text@,
            pid,
        ));
        let ghost whole = self.printer@.committed;
        if ends {
            actions.push(PrinterAction::Copy(self.printer.committed().to_owned()));
        }
        actions.push(PrinterAction::Show(self.printer.committed().to_owned()));
        if ends {
            actions.push(PrinterAction::ScheduleHide);
        }
        self.recent.push_sentence(text.as_str());
        let offered = self.recent.candidates();
        let ghost offered_texts = texts(offered@);
        actions.push(PrinterAction::OfferTokens(offered));
        assert(action_texts(actions@) == so_far + (if ends {
            seq![
                ActionText::Copy(whole),
                ActionText::Show(whole),
                ActionText::ScheduleHide,
                ActionText::OfferTokens(offered_texts),
            ]
        } else {
            seq![ActionText::Show(whole), ActionText::OfferTokens(offered_texts)]
        }));
        self.rolling = self.rolling && !ends;
        self.settle_pause(waits && !ends, &mut actions);
        actions
    }

    /// Takes an update in, and says what to do. `table` is the table of corrections as it is now:
    /// a session keeps the one that it begins with. `pid` is the application that has the focus.
    pub fn on_update(
        &mut self,
        update: &TranscriptUpdate,
        table: Replacements,
        pid: Option<i32>,
    ) -> (actions: Vec<PrinterAction>)
        requires
            old(self).wf(),
        ensures
            final(self).wf(),
            final(self)@ == after_update(old(self)@, update@, rule_texts(table@), pid),
            action_texts(actions@) == actions_for(old(self)@, update@, rule_texts(table@), pid),
    {
        match update {
            TranscriptUpdate::SessionStarted { rolling } => {
                self.replacements = table;
                self.guard.session_started(pid);
                let _ = self.printer.apply(PhraseEvent::SessionStarted);
                self.recent = RecentTokens::new(RECENT_TOKENS_CAP);
                self.rolling = *rolling;
                let mut actions: Vec<PrinterAction> = Vec::new();
                actions.push(PrinterAction::ClearOverlay);
                let none: Vec<String> = Vec::new();
                assert(texts(none@) == Seq::<Seq<char>>::empty());
                actions.push(PrinterAction::OfferTokens(none));
                assert(action_texts(actions@) == seq![
                    ActionText::ClearOverlay,
                    ActionText::OfferTokens(Seq::empty()),
                ]);
                self.settle_pause(false, &mut actions);
                actions
            },
            TranscriptUpdate::Partial(raw) => self.on_partial(raw.as_str(), pid),
            TranscriptUpdate::PhraseFinal(raw) => self.on_final(raw.as_str(), false, pid),
            TranscriptUpdate::Final(raw) => self.on_final(raw.as_str(), true, pid),
            TranscriptUpdate::Error(message) => {
                let _ = self.printer.apply(PhraseEvent::Error);
                let mut actions: Vec<PrinterAction> = Vec::new();
                actions.push(
                    PrinterAction::Report(joined("! speech error: ", message.as_str())),
                );
                actions.push(PrinterAction::Show(joined("! ", message.as_str())));
                actions.push(PrinterAction::ScheduleHide);
                assert(action_texts(actions@) == seq![
                    ActionText::Report("! speech error: "@ + message@),
                    ActionText::Show("! "@ + message@),
                    ActionText::ScheduleHide,
                ]);
                self.settle_pause(false, &mut actions);
                actions
            },
        }
    }
}

// ---------------------------------------------------------------------------
// Laws
// ---------------------------------------------------------------------------

/// An update with what was found when it came: the table of corrections, and the application that
/// had the focus.
pub struct Arrival {
    pub update: UpdateText,
    pub table: Seq<RuleText>,
    pub pid: Option<i32>,
}

/// Something that the printer is told.
pub enum Told {
    Update(Arrival),
    Takeover,
}

/// What the printer knows once it has been told something.
pub open spec fn after_told(state: Printing, told: Told) -> Printing {
    match told {
        Told::Update(a) => after_update(state, a.update, a.table, a.pid),
        Told::Takeover => after_takeover(state),
    }
}

/// What the printer knows once it has been told several things.
pub open spec fn after_all(state: Printing, told: Seq<Told>) -> Printing
    decreases told.len(),
{
    if told.len() == 0 {
        state
    } else {
        after_told(after_all(state, told.drop_last()), told.last())
    }
}

/// It belongs to a session that goes on or ends well.
pub open spec fn goes_on(told: Told) -> bool {
    match told {
        Told::Update(a) => a.update is Partial || a.update is PhraseFinal || a.update is Final,
        Told::Takeover => true,
    }
}

/// The phrases that became final, corrected, in order.
pub open spec fn final_text(told: Seq<Told>, table: Seq<RuleText>) -> Seq<char>
    decreases told.len(),
{
    if told.len() == 0 {
        Seq::empty()
    } else {
        final_text(told.drop_last(), table) + match told.last() {
            Told::Update(
                Arrival { update: UpdateText::PhraseFinal(raw), .. },
            ) => corrected(raw, table),
            Told::Update(Arrival { update: UpdateText::Final(raw), .. }) => corrected(raw, table),
            _ => Seq::empty(),
        }
    }
}

proof fn lemma_committed_is_final_text(start: Printing, told: Seq<Told>)
    requires
        start.typed.committed.len() == 0,
        forall|i: int| 0 <= i < told.len() ==> goes_on(#[trigger] told[i]),
    ensures
        after_all(start, told).table == start.table,
        after_all(start, told).typed.committed == final_text(told, start.table),
    decreases told.len(),
{
    if told.len() > 0 {
        let init = told.drop_last();
        assert forall|i: int| 0 <= i < init.len() implies goes_on(#[trigger] init[i]) by {
            assert(init[i] == told[i]);
        }
        lemma_committed_is_final_text(start, init);
        assert(goes_on(told[told.len() - 1]));
        assert(final_text(init, start.table) + Seq::<char>::empty() == final_text(
            init,
            start.table,
        ));
    } else {
        assert(start.typed.committed == Seq::<char>::empty());
    }
}

/// When a session ends, the clipboard gets every phrase of the session that became final, in order
/// and corrected by the table that the session began with, whichever application had the focus
/// meanwhile and however often the user took over.
pub proof fn clipboard_gets_the_whole_session(
    state: Printing,
    start: Arrival,
    told: Seq<Told>,
    end: Arrival,
)
    requires
        start.update is SessionStarted,
        forall|i: int| 0 <= i < told.len() ==> goes_on(#[trigger] told[i]),
        end.update is Final,
    ensures
        ({
            let begun = after_update(state, start.update, start.table, start.pid);
            actions_for(after_all(begun, told), end.update, end.table, end.pid).contains(
                ActionText::Copy(final_text(told.push(Told::Update(end)), start.table)),
            )
        }),
{
    let begun = after_update(state, start.update, start.table, start.pid);
    lemma_committed_is_final_text(begun, told);
    assert(told.push(Told::Update(end)).drop_last() == told);
    let now = after_all(begun, told);
    let actions = actions_for(now, end.update, end.table, end.pid);
    let text = corrected(end.update->Final_0, now.table);
    let k = 1 + inject_actions(now, text, end.pid).len() as int;
    assert(actions[k] == ActionText::Copy(
        final_text(told.push(Told::Update(end)), start.table),
    ));
}

/// Once the focus has left the application that a session began in, nothing of the session is
/// typed any more, and the user is not told again.
pub proof fn nothing_is_typed_elsewhere(
    state: Printing,
    update: UpdateText,
    table: Seq<RuleText>,
    pid: Option<i32>,
)
    requires
        state.guard.latched,
        !(update is SessionStarted),
    ensures
        after_update(state, update, table, pid).guard.latched,
        forall|k: int|
            0 <= k < actions_for(state, update, table, pid).len() ==> {
                &&& !(#[trigger] actions_for(state, update, table, pid)[k] is Inject)
                &&& !(actions_for(state, update, table, pid)[k] is WarnFocusMoved)
            },
{
}

/// By how many characters an update makes the text field longer.
pub open spec fn grown_by(state: Printing, a: Arrival) -> int {
    match a.update {
        UpdateText::Partial(raw) | UpdateText::PhraseFinal(raw) | UpdateText::Final(raw) => {
            let text = corrected(raw, state.table);
            let injected = inject_actions(state, text, a.pid);
            if injected.len() > 0 && injected[0] is Inject {
                injected[0]->Inject_1.len() - injected[0]->Inject_0
            } else {
                0
            }
        },
        _ => 0,
    }
}

/// How many characters the text field holds of what was typed while the printer was told `told`.
pub open spec fn grown(state: Printing, told: Seq<Told>) -> int
    decreases told.len(),
{
    if told.len() == 0 {
        0
    } else {
        grown(state, told.drop_last()) + match told.last() {
            Told::Update(a) => grown_by(after_all(state, told.drop_last()), a),
            Told::Takeover => 0,
        }
    }
}

proof fn lemma_draft_was_typed_since(taken: Printing, told: Seq<Told>)
    requires
        taken.typed.draft.len() == 0,
    ensures
        grown(taken, told) >= 0,
        after_all(taken, told).guard.latched || after_all(taken, told).typed.draft.len() <= grown(
            taken,
            told,
        ),
    decreases told.len(),
{
    if told.len() > 0 {
        let init = told.drop_last();
        lemma_draft_was_typed_since(taken, init);
        let before = after_all(taken, init);
        match told.last() {
            Told::Update(a) => {
                match a.update {
                    UpdateText::Partial(raw)
                    | UpdateText::PhraseFinal(raw)
                    | UpdateText::Final(raw) => {
                        lemma_common_prefix(before.typed.draft, corrected(raw, before.table));
                    },
                    _ => {},
                }
            },
            Told::Takeover => {},
        }
    }
}

/// Once the user has taken over, nothing that stood in the text field then is ever erased: there
/// are never more backspaces than there are characters that were typed since.
pub proof fn what_the_user_edits_is_never_erased(state: Printing, told: Seq<Told>, next: Arrival)
    requires
        takes_over(state),
    ensures
        ({
            let taken = after_takeover(state);
            let actions = actions_for(
                after_all(taken, told),
                next.update,
                next.table,
                next.pid,
            );
            forall|k: int|
                0 <= k < actions.len() ==> (#[trigger] actions[k] matches ActionText::Inject(n, _)
                    ==> 0 <= n <= grown(taken, told))
        }),
{
    let taken = after_takeover(state);
    let now = after_all(taken, told);
    lemma_draft_was_typed_since(taken, told);
    match next.update {
        UpdateText::Partial(raw) | UpdateText::PhraseFinal(raw) | UpdateText::Final(raw) => {
            lemma_common_prefix(now.typed.draft, corrected(raw, now.table));
        },
        _ => {},
    }
}

/// Of a phrase that was partly typed when the user took over, nothing more is typed: neither
/// another draft of it nor what becomes final.
pub proof fn an_interrupted_phrase_is_left_alone(state: Printing, next: Arrival)
    requires
        takes_over(state),
        state.typed.draft.len() > 0,
        next.update is Partial || next.update is PhraseFinal || next.update is Final,
    ensures
        ({
            let taken = after_takeover(state);
            let actions = actions_for(taken, next.update, next.table, next.pid);
            &&& forall|k: int| 0 <= k < actions.len() ==> !(#[trigger] actions[k] is Inject)
            &&& next.update is Partial ==> after_update(
                taken,
                next.update,
                next.table,
                next.pid,
            ) == taken
        }),
{
}

/// Once a phrase has ended, or where none was begun when the user took over, typing goes on as soon
/// as something is spoken: the whole of it is typed, and nothing is erased.
pub proof fn typing_goes_on_with_the_next_phrase(state: Printing, next: Arrival)
    requires
        state.paused,
        !state.skips,
        state.typed.draft.len() == 0,
        next.update is Partial,
        corrected(next.update->Partial_0, state.table).len() > 0,
        !after_asking(state.guard, next.pid).latched,
    ensures
        ({
            let text = corrected(next.update->Partial_0, state.table);
            &&& actions_for(state, next.update, next.table, next.pid) == seq![
                ActionText::Print("~ "@ + text),
                ActionText::Inject(0, text),
                ActionText::Show(state.typed.committed + text),
                ActionText::Resume,
            ]
            &&& !after_update(state, next.update, next.table, next.pid).paused
        }),
{
    let text = corrected(next.update->Partial_0, state.table);
    assert(common_prefix(state.typed.draft, text) == 0);
    assert(text.skip(0) == text);
    assert(actions_for(state, next.update, next.table, next.pid) =~= seq![
        ActionText::Print("~ "@ + text),
        ActionText::Inject(0, text),
        ActionText::Show(state.typed.committed + text),
        ActionText::Resume,
    ]);
}

/// A pause never outlasts the phrase that was interrupted, nor the session: once the phrase is
/// final the next one is typed, and the end of the session ends the pause.
pub proof fn pauses_end(state: Printing, end: Arrival)
    requires
        end.update is PhraseFinal || end.update is Final || end.update is Error
            || end.update is SessionStarted,
    ensures
        ({
            let after = after_update(state, end.update, end.table, end.pid);
            &&& !after.skips
            &&& after.typed.draft.len() == 0
            &&& !(end.update is PhraseFinal) ==> !after.paused
        }),
{
}

// ---------------------------------------------------------------------------
// The text field
// ---------------------------------------------------------------------------

/// A text field in which some actions were performed, one after the other: backspaces take
/// characters from its end, and typing adds to it.
pub open spec fn field_with(field: Seq<char>, actions: Seq<ActionText>) -> Seq<char>
    decreases actions.len(),
{
    if actions.len() == 0 {
        field
    } else {
        let so_far = field_with(field, actions.drop_last());
        match actions.last() {
            ActionText::Inject(n, text) => so_far.take(so_far.len() - n) + text,
            _ => so_far,
        }
    }
}

/// A text field in which everything was done that some updates called for.
pub open spec fn field_after_told(field: Seq<char>, state: Printing, told: Seq<Told>) -> Seq<char>
    decreases told.len(),
{
    if told.len() == 0 {
        field
    } else {
        let so_far = field_after_told(field, state, told.drop_last());
        match told.last() {
            Told::Update(a) => field_with(
                so_far,
                actions_for(after_all(state, told.drop_last()), a.update, a.table, a.pid),
            ),
            Told::Takeover => so_far,
        }
    }
}

/// The draft that is open after some updates: the last draft, corrected, where no phrase has become
/// final since.
pub open spec fn open_draft_of(told: Seq<Told>, table: Seq<RuleText>) -> Seq<char> {
    if told.len() == 0 {
        Seq::empty()
    } else {
        match told.last() {
            Told::Update(Arrival { update: UpdateText::Partial(raw), .. }) => corrected(raw, table),
            _ => Seq::empty(),
        }
    }
}

/// It is said while the application that the session began in still has the focus, as far as is
/// known, and the user has not taken over.
pub open spec fn in_place(told: Told, pid: Option<i32>) -> bool {
    told matches Told::Update(a) && goes_on(told) && !focus_moved(pid, a.pid)
}

proof fn lemma_field_add(field: Seq<char>, a: Seq<ActionText>, b: Seq<ActionText>)
    ensures
        field_with(field, a + b) == field_with(field_with(field, a), b),
    decreases b.len(),
{
    if b.len() == 0 {
        assert(a + b == a);
    } else {
        lemma_field_add(field, a, b.drop_last());
        assert((a + b).drop_last() == a + b.drop_last());
        assert((a + b).last() == b.last());
    }
}

proof fn lemma_field_untouched(field: Seq<char>, actions: Seq<ActionText>)
    requires
        forall|i: int| 0 <= i < actions.len() ==> !((#[trigger] actions[i]) is Inject),
    ensures
        field_with(field, actions) == field,
    decreases actions.len(),
{
    if actions.len() > 0 {
        let init = actions.drop_last();
        assert forall|i: int| 0 <= i < init.len() implies !((#[trigger] init[i]) is Inject) by {
            assert(init[i] == actions[i]);
        }
        lemma_field_untouched(field, init);
        assert(!(actions[actions.len() - 1] is Inject));
    }
}

/// One update in place: the field has the new draft or the final phrase in place of the old draft.
proof fn lemma_field_update(before: Seq<char>, state: Printing, a: Arrival)
    requires
        in_place(Told::Update(a), state.guard.session_pid),
        !state.paused,
        !state.guard.latched,
    ensures
        ({
            let after = after_update(state, a.update, a.table, a.pid);
            &&& field_with(
                before + state.typed.committed + state.typed.draft,
                actions_for(state, a.update, a.table, a.pid),
            ) == before + after.typed.committed + after.typed.draft
            &&& !after.paused
            &&& !after.guard.latched
            &&& after.guard.session_pid == state.guard.session_pid
        }),
{
    let after = after_update(state, a.update, a.table, a.pid);
    let actions = actions_for(state, a.update, a.table, a.pid);
    let text = match a.update {
        UpdateText::Partial(raw) => corrected(raw, state.table),
        UpdateText::PhraseFinal(raw) => corrected(raw, state.table),
        UpdateText::Final(raw) => corrected(raw, state.table),
        _ => Seq::empty(),
    };
    let draft = state.typed.draft;
    let n = common_prefix(draft, text) as int;
    let typed = ActionText::Inject(draft.len() - n, text.skip(n));
    lemma_common_prefix(draft, text);
    let head = seq![actions[0]];
    let tail = actions.skip(2);
    assert(inject_actions(state, text, a.pid) == seq![typed]);
    assert(actions[1] == typed);
    assert(actions =~= head + seq![typed] + tail);
    assert forall|i: int| 0 <= i < tail.len() implies !((#[trigger] tail[i]) is Inject) by {
        assert(tail[i] == actions[i + 2]);
    }
    let field = before + state.typed.committed + draft;
    lemma_field_add(field, head + seq![typed], tail);
    lemma_field_add(field, head, seq![typed]);
    lemma_field_untouched(field, head);
    let kept = field.take(field.len() - (draft.len() - n));
    assert(seq![typed].drop_last() == Seq::<ActionText>::empty());
    assert(field_with(field, seq![typed].drop_last()) == field);
    assert(field_with(field, seq![typed]) == kept + text.skip(n));
    lemma_field_untouched(kept + text.skip(n), tail);
    assert(kept == before + state.typed.committed + draft.take(n));
    assert(draft.take(n) + text.skip(n) =~= text);
    assert(kept + text.skip(n) =~= before + state.typed.committed + text);
    assert(before + state.typed.committed + text =~= before + after.typed.committed
        + after.typed.draft);
}

/// In a session in which the focus stays and nobody takes over, the text field always holds what
/// stood in it before, then every phrase that became final, corrected, then the open draft,
/// corrected. The panel shows the same text.
pub proof fn text_field_holds_the_session(
    state: Printing,
    start: Arrival,
    told: Seq<Told>,
    before: Seq<char>,
)
    requires
        start.update is SessionStarted,
        forall|i: int| 0 <= i < told.len() ==> in_place(#[trigger] told[i], start.pid),
    ensures
        ({
            let begun = after_update(state, start.update, start.table, start.pid);
            let spoken = final_text(told, start.table) + open_draft_of(told, start.table);
            &&& field_after_told(before, begun, told) == before + spoken
            &&& after_all(begun, told).typed.committed == final_text(told, start.table)
            &&& after_all(begun, told).typed.draft == open_draft_of(told, start.table)
            &&& told.len() > 0 ==> (told.last() matches Told::Update(a) && actions_for(
                after_all(begun, told.drop_last()),
                a.update,
                a.table,
                a.pid,
            ).contains(ActionText::Show(spoken)))
        }),
{
    lemma_text_field(state, start, told, before);
}

proof fn lemma_text_field(
    state: Printing,
    start: Arrival,
    told: Seq<Told>,
    before: Seq<char>,
)
    requires
        start.update is SessionStarted,
        forall|i: int| 0 <= i < told.len() ==> in_place(#[trigger] told[i], start.pid),
    ensures
        ({
            let begun = after_update(state, start.update, start.table, start.pid);
            let now = after_all(begun, told);
            let spoken = final_text(told, start.table) + open_draft_of(told, start.table);
            &&& field_after_told(before, begun, told) == before + spoken
            &&& now.typed.committed == final_text(told, start.table)
            &&& now.typed.draft == open_draft_of(told, start.table)
            &&& now.table == start.table
            &&& !now.paused
            &&& !now.guard.latched
            &&& now.guard.session_pid == start.pid
            &&& told.len() > 0 ==> (told.last() matches Told::Update(a) && actions_for(
                after_all(begun, told.drop_last()),
                a.update,
                a.table,
                a.pid,
            ).contains(ActionText::Show(spoken)))
        }),
    decreases told.len(),
{
    let begun = after_update(state, start.update, start.table, start.pid);
    let spoken = final_text(told, start.table) + open_draft_of(told, start.table);
    if told.len() == 0 {
        assert(spoken == Seq::<char>::empty());
        assert(before + spoken == before);
    } else {
        let init = told.drop_last();
        assert forall|i: int| 0 <= i < init.len() implies in_place(
            #[trigger] init[i],
            start.pid,
        ) by {
            assert(init[i] == told[i]);
        }
        lemma_text_field(state, start, init, before);
        assert(in_place(told[told.len() - 1], start.pid));
        let a = told.last()->Update_0;
        let now = after_all(begun, init);
        lemma_field_update(before, now, a);
        let next = after_update(now, a.update, a.table, a.pid);
        let earlier = final_text(init, start.table) + open_draft_of(init, start.table);
        assert(before + earlier == before + now.typed.committed + now.typed.draft);
        assert(final_text(init, start.table) + Seq::<char>::empty() == final_text(
            init,
            start.table,
        ));
        assert(next.typed.committed == final_text(told, start.table));
        assert(next.typed.draft == open_draft_of(told, start.table));
        assert(before + spoken == before + next.typed.committed + next.typed.draft);
        let actions = actions_for(now, a.update, a.table, a.pid);
        assert(spoken == next.typed.committed + next.typed.draft);
        assert(next.typed.committed + Seq::<char>::empty() == next.typed.committed);
        if a.update is Final {
            assert(actions[3] == ActionText::Show(spoken));
        } else {
            assert(actions[2] == ActionText::Show(spoken));
        }
    }
}

/// The phrases that became final, corrected, one by one.
pub open spec fn final_phrases(told: Seq<Told>, table: Seq<RuleText>) -> Seq<Seq<char>>
    decreases told.len(),
{
    if told.len() == 0 {
        Seq::empty()
    } else {
        match told.last() {
            Told::Update(
                Arrival { update: UpdateText::PhraseFinal(raw), .. },
            ) => final_phrases(told.drop_last(), table).push(corrected(raw, table)),
            Told::Update(Arrival { update: UpdateText::Final(raw), .. }) => final_phrases(
                told.drop_last(),
                table,
            ).push(corrected(raw, table)),
            _ => final_phrases(told.drop_last(), table),
        }
    }
}

proof fn lemma_sentences(start: Printing, told: Seq<Told>)
    requires
        start.sentences.len() == 0,
        forall|i: int| 0 <= i < told.len() ==> goes_on(#[trigger] told[i]),
    ensures
        after_all(start, told).table == start.table,
        after_all(start, told).sentences == kept_after(5, final_phrases(told, start.table)),
    decreases told.len(),
{
    if told.len() > 0 {
        let init = told.drop_last();
        assert forall|i: int| 0 <= i < init.len() implies goes_on(#[trigger] init[i]) by {
            assert(init[i] == told[i]);
        }
        lemma_sentences(start, init);
        assert(goes_on(told[told.len() - 1]));
        let phrases = final_phrases(told, start.table);
        let before = final_phrases(init, start.table);
        if phrases.len() > before.len() {
            assert(phrases.drop_last() =~= before);
        }
    } else {
        assert(start.sentences =~= Seq::<Seq<Seq<char>>>::empty());
    }
}

/// When a phrase becomes final, the words that a correction can be taught for are those of the last
/// five final phrases of the session that hold any, each once and the newest phrase's first.
pub proof fn words_of_the_last_phrases_are_offered(
    state: Printing,
    start: Arrival,
    told: Seq<Told>,
    next: Arrival,
)
    requires
        start.update is SessionStarted,
        forall|i: int| 0 <= i < told.len() ==> goes_on(#[trigger] told[i]),
        next.update is PhraseFinal || next.update is Final,
    ensures
        ({
            let begun = after_update(state, start.update, start.table, start.pid);
            let phrases = final_phrases(told.push(Told::Update(next)), start.table);
            actions_for(after_all(begun, told), next.update, next.table, next.pid).contains(
                ActionText::OfferTokens(
                    distinct(newest_first(last_of(with_tokens(phrases), 5))),
                ),
            )
        }),
{
    let begun = after_update(state, start.update, start.table, start.pid);
    let all = told.push(Told::Update(next));
    let phrases = final_phrases(all, start.table);
    let now = after_all(begun, told);
    assert(begun.sentences.len() == 0);
    assert forall|i: int| 0 <= i < all.len() implies goes_on(#[trigger] all[i]) by {
        if i < told.len() {
            assert(all[i] == told[i]);
        }
    }
    lemma_sentences(begun, told);
    lemma_sentences(begun, all);
    assert(all.drop_last() =~= told);
    last_sentences_are_kept(5, phrases);
    let after = after_update(now, next.update, next.table, next.pid);
    assert(after_all(begun, all) == after);
    let actions = actions_for(now, next.update, next.table, next.pid);
    let raw = match next.update {
        UpdateText::PhraseFinal(raw) => raw,
        UpdateText::Final(raw) => raw,
        _ => Seq::empty(),
    };
    let k = inject_actions(now, corrected(raw, now.table), next.pid).len();
    let at = if next.update is Final {
        k + 4
    } else {
        k + 2
    };
    assert(actions[at as int] == ActionText::OfferTokens(distinct(newest_first(after.sentences))));
}

/// Whatever has the focus and whoever is typing, the panel shows the whole session with every
/// update: all phrases that became final, corrected, and behind them the new draft, corrected.
pub proof fn panel_shows_the_whole_session(
    state: Printing,
    start: Arrival,
    told: Seq<Told>,
    next: Arrival,
)
    requires
        start.update is SessionStarted,
        forall|i: int| 0 <= i < told.len() ==> goes_on(#[trigger] told[i]),
        goes_on(Told::Update(next)),
    ensures
        ({
            let begun = after_update(state, start.update, start.table, start.pid);
            let all = told.push(Told::Update(next));
            actions_for(after_all(begun, told), next.update, next.table, next.pid).contains(
                ActionText::Show(final_text(all, start.table) + open_draft_of(all, start.table)),
            )
        }),
{
    let begun = after_update(state, start.update, start.table, start.pid);
    let all = told.push(Told::Update(next));
    lemma_committed_is_final_text(begun, told);
    assert(all.drop_last() == told);
    let now = after_all(begun, told);
    let actions = actions_for(now, next.update, next.table, next.pid);
    let text = match next.update {
        UpdateText::Partial(raw) => corrected(raw, now.table),
        UpdateText::PhraseFinal(raw) => corrected(raw, now.table),
        UpdateText::Final(raw) => corrected(raw, now.table),
        _ => Seq::empty(),
    };
    let spoken = final_text(all, start.table) + open_draft_of(all, start.table);
    let done = final_text(told, start.table);
    assert(done + Seq::<char>::empty() == done);
    assert(done + text + Seq::<char>::empty() == done + text);
    assert(spoken == done + text);
    let k = inject_actions(now, text, next.pid).len() as int;
    let at = if next.update is Final {
        k + 2
    } else {
        k + 1
    };
    assert(actions[at] == ActionText::Show(spoken));
}

/// A session begins as if there had been none before it: nothing of an earlier one is remembered,
/// the panel is cleared, and no words are offered any more.
pub proof fn sessions_begin_afresh(earlier: Printing, other: Printing, start: Arrival)
    requires
        start.update is SessionStarted,
    ensures
        after_update(earlier, start.update, start.table, start.pid) == after_update(
            other,
            start.update,
            start.table,
            start.pid,
        ),
        actions_for(earlier, start.update, start.table, start.pid).contains(
            ActionText::ClearOverlay,
        ),
        actions_for(earlier, start.update, start.table, start.pid).contains(
            ActionText::OfferTokens(Seq::empty()),
        ),
{
    let actions = actions_for(earlier, start.update, start.table, start.pid);
    assert(actions[0] == ActionText::ClearOverlay);
    assert(actions[1] == ActionText::OfferTokens(Seq::empty()));
}

/// When the focus is first found elsewhere, the user is told, and nothing is typed there.
pub proof fn leaving_the_field_is_told_once(state: Printing, next: Arrival)
    requires
        goes_on(Told::Update(next)),
        !state.paused,
        !state.guard.latched,
        focus_moved(state.guard.session_pid, next.pid),
    ensures
        ({
            let actions = actions_for(state, next.update, next.table, next.pid);
            let after = after_update(state, next.update, next.table, next.pid);
            &&& actions.contains(ActionText::WarnFocusMoved)
            &&& forall|k: int| 0 <= k < actions.len() ==> !(#[trigger] actions[k] is Inject)
            &&& after.guard.latched
        }),
{
    let actions = actions_for(state, next.update, next.table, next.pid);
    assert(actions[1] == ActionText::WarnFocusMoved);
}

proof fn lemma_rolls_as_begun(start: Printing, told: Seq<Told>)
    requires
        forall|i: int|
            0 <= i < told.len() ==> goes_on(#[trigger] told[i]) && !(told[i] matches Told::Update(
                a,
            ) && a.update is Final),
    ensures
        after_all(start, told).rolling == start.rolling,
    decreases told.len(),
{
    if told.len() > 0 {
        let init = told.drop_last();
        assert forall|i: int| 0 <= i < init.len() implies goes_on(#[trigger] init[i]) && !(
        init[i] matches Told::Update(a) && a.update is Final) by {
            assert(init[i] == told[i]);
        }
        lemma_rolls_as_begun(start, init);
        let last = told[told.len() - 1];
        assert(goes_on(last) && !(last matches Told::Update(a) && a.update is Final));
    }
}

/// The user can take over as long as a session in which phrases become final goes on, and not in any
/// other one, nor once it has ended. Taking over pauses the typing, and a second sign of it changes
/// nothing.
pub proof fn users_take_over_while_phrases_become_final(
    state: Printing,
    start: Arrival,
    told: Seq<Told>,
    end: Arrival,
)
    requires
        start.update is SessionStarted,
        forall|i: int|
            0 <= i < told.len() ==> goes_on(#[trigger] told[i]) && !(told[i] matches Told::Update(
                a,
            ) && a.update is Final),
        end.update is Final,
    ensures
        ({
            let begun = after_update(state, start.update, start.table, start.pid);
            let now = after_all(begun, told);
            let ended = after_update(now, end.update, end.table, end.pid);
            &&& start.update->rolling ==> after_takeover(now).paused
            &&& !start.update->rolling ==> after_takeover(now) == now
            &&& after_takeover(ended) == ended
            &&& after_takeover(after_takeover(now)) == after_takeover(now)
        }),
{
    let begun = after_update(state, start.update, start.table, start.pid);
    lemma_rolls_as_begun(begun, told);
}

/// A takeover costs no more than the phrase that it interrupts. Where nothing of a phrase was typed
/// when the user took over, the next draft is typed whole; and where something was, the first draft
/// behind the interrupted phrase is, however many drafts of that phrase came before it was final.
pub proof fn takeovers_cost_one_phrase(
    state: Printing,
    drafts: Seq<Told>,
    last: Arrival,
    next: Arrival,
)
    requires
        takes_over(state),
        !state.guard.latched,
        forall|i: int|
            0 <= i < drafts.len() ==> (#[trigger] drafts[i] matches Told::Update(a)
                && a.update is Partial),
        last.update is PhraseFinal,
        next.update is Partial,
        corrected(next.update->Partial_0, state.table).len() > 0,
        !focus_moved(state.guard.session_pid, next.pid),
    ensures
        ({
            let text = corrected(next.update->Partial_0, state.table);
            let taken = after_takeover(state);
            let over = after_update(
                after_all(taken, drafts),
                last.update,
                last.table,
                last.pid,
            );
            &&& state.typed.draft.len() == 0 ==> actions_for(
                taken,
                next.update,
                next.table,
                next.pid,
            ).contains(ActionText::Inject(0, text))
            &&& state.typed.draft.len() > 0 ==> actions_for(
                over,
                next.update,
                next.table,
                next.pid,
            ).contains(ActionText::Inject(0, text))
        }),
{
    let text = corrected(next.update->Partial_0, state.table);
    let taken = after_takeover(state);
    assert(common_prefix(Seq::empty(), text) == 0);
    assert(text.skip(0) == text);
    assert(taken.typed.draft == Seq::<char>::empty());
    if state.typed.draft.len() == 0 {
        let actions = actions_for(taken, next.update, next.table, next.pid);
        assert(actions[1] == ActionText::Inject(0, text));
    } else {
        lemma_skipped_drafts(taken, drafts);
        let over = after_update(taken, last.update, last.table, last.pid);
        let actions = actions_for(over, next.update, next.table, next.pid);
        assert(over.typed.draft == Seq::<char>::empty());
        assert(actions[1] == ActionText::Inject(0, text));
    }
}

/// A pause lasts until more is spoken: not even the interrupted phrase that becomes final ends it, but
/// the next draft that holds anything does, and then the user is shown that typing goes on.
pub proof fn pauses_last_until_more_is_spoken(
    state: Printing,
    drafts: Seq<Told>,
    last: Arrival,
    next: Arrival,
)
    requires
        takes_over(state),
        state.typed.draft.len() > 0,
        forall|i: int|
            0 <= i < drafts.len() ==> (#[trigger] drafts[i] matches Told::Update(a)
                && a.update is Partial),
        last.update is PhraseFinal,
        next.update is Partial,
    ensures
        ({
            let text = corrected(next.update->Partial_0, state.table);
            let waiting = after_all(after_takeover(state), drafts);
            let over = after_update(waiting, last.update, last.table, last.pid);
            let after = after_update(over, next.update, next.table, next.pid);
            let actions = actions_for(over, next.update, next.table, next.pid);
            &&& waiting.paused && over.paused
            &&& !actions_for(waiting, last.update, last.table, last.pid).contains(
                ActionText::Resume,
            )
            &&& after.paused <==> text.len() == 0
            &&& actions.contains(ActionText::Resume) <==> text.len() > 0
        }),
{
    let taken = after_takeover(state);
    lemma_skipped_drafts(taken, drafts);
    let over = after_update(taken, last.update, last.table, last.pid);
    let text = corrected(next.update->Partial_0, state.table);
    let actions = actions_for(over, next.update, next.table, next.pid);
    if text.len() > 0 {
        assert(actions.last() == ActionText::Resume);
        assert(actions[actions.len() - 1] == ActionText::Resume);
    }
}

proof fn lemma_skipped_drafts(taken: Printing, drafts: Seq<Told>)
    requires
        taken.paused,
        taken.skips,
        forall|i: int|
            0 <= i < drafts.len() ==> (#[trigger] drafts[i] matches Told::Update(a)
                && a.update is Partial),
    ensures
        after_all(taken, drafts) == taken,
    decreases drafts.len(),
{
    if drafts.len() > 0 {
        let init = drafts.drop_last();
        assert forall|i: int| 0 <= i < init.len() implies (#[trigger] init[i] matches Told::Update(
            a,
        ) && a.update is Partial) by {
            assert(init[i] == drafts[i]);
        }
        lemma_skipped_drafts(taken, init);
        let last = drafts[drafts.len() - 1];
        assert(last matches Told::Update(a) && a.update is Partial);
    }
}

} // verus!
