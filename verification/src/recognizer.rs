//! What is made of the recogniser's results: drafts, final phrases, and when to transcribe again.

use vstd::prelude::*;
use crate::audio::AudioFrame;
use crate::error::RaflowError;
use crate::guards::is_safe_whisper_output;
use crate::restore::restore_terms;
use crate::rolling::{rolling_final_flush_delivered, RollingTickOutcome};
use crate::terms::{default_contextual_terms, merge_contextual_terms, prompt_terms_user_first};
use crate::text::{is_ascii_alpha, same_text, to_chars, trim};
use crate::transcript::TranscriptUpdate;
use crate::whisper::{parse_restore_trace_flag, strip_committed_prefix};
use crate::guards::is_safe;
use crate::restore::restored;
use crate::terms::{
    builtin_prompt_terms, builtin_terms, distinct, distinct_has_no_duplicates,
    first_of_each_stays_in_place, user_terms,
};
use crate::text::{
    is_alpha, is_middle, is_space, lemma_blank, texts, trimmed, trimming_takes_the_white_space_around,
};
use crate::tokens::{has_letter, last_of};
use crate::transcript::UpdateText;
use crate::whisper::trace_flag;

verus! {

/// No more samples than these are transcribed at once: one minute.
pub const MAX_PCM_SAMPLES_FOR_WHISPER: usize = 960_000;

/// Samples are kept up to this many before old ones go.
pub const PCM_KEEP_LIMIT: usize = 1_440_000;

/// Whether a transcript holds English.
pub fn apple_final_has_english(text: &str) -> (b: bool)
    ensures
        b == has_letter(text@),
{
    let s = to_chars(text);
    let mut i: usize = 0;
    while i < s.len()
        invariant
            i <= s@.len(),
            s@ == text@,
            forall|k: int| 0 <= k < i ==> !is_alpha(#[trigger] s@[k]),
        decreases s@.len() - i,
    {
        if is_ascii_alpha(s[i]) {
            assert(is_alpha(s@[i as int]));
            return true;
        }
        i += 1;
    }
    false
}

/// Whether a final transcript is to be transcribed again: only English in a Chinese session is.
pub fn should_correct_with_whisper(session_locale: &str, apple_final: &str) -> (b: bool)
    ensures
        b == (session_locale@ == "zh-TW"@ && has_letter(apple_final@)),
{
    same_text(session_locale, "zh-TW") && apple_final_has_english(apple_final)
}

/// Whether a session makes phrases final while it goes on: it has to be able to, speech has to be
/// found in it, and it has to be Chinese.
pub fn rolling_session_active(rolling_capable: bool, vad_ready: bool, session_locale: &str) -> (b:
    bool)
    ensures
        b == (rolling_capable && vad_ready && session_locale@ == "zh-TW"@),
{
    rolling_capable && vad_ready && same_text(session_locale, "zh-TW")
}

/// Everything that is known of a session.
#[verifier::ext_equal]
pub struct Listening {
    pub locale: Seq<char>,
    /// Making phrases final is switched on.
    pub rolling: bool,
    /// There is a transcriber.
    pub has_whisper: bool,
    /// The transcriber may be used in this session.
    pub correction: bool,
    /// Phrases are made final in this session.
    pub session_rolling: bool,
    /// The recogniser's own final result is not passed on.
    pub suppress_final: bool,
    /// The cursor: so many samples have gone into final phrases.
    pub finalized: int,
    /// So many characters of the live transcript stand for final phrases.
    pub committed: int,
    /// So many characters long is the live transcript.
    pub cumulative: int,
    /// The live transcript.
    pub live: Seq<char>,
    pub prompt_terms: Seq<Seq<char>>,
    pub vocabulary: Seq<Seq<char>>,
    pub trace: bool,
    pub pcm: Seq<i16>,
}

/// What is to be done about a result.
#[derive(Debug, PartialEq, Eq)]
pub enum RecognitionStep {
    Nothing,
    Send(TranscriptUpdate),
    /// Transcribe these samples; `fallback` is the recogniser's own transcript.
    Transcribe { pcm: Vec<i16>, fallback: String },
}

/// A step as text.
pub enum StepText {
    Nothing,
    Send(UpdateText),
    Transcribe { pcm: Seq<i16>, fallback: Seq<char> },
}

impl View for RecognitionStep {
    type V = StepText;

    open spec fn view(&self) -> StepText {
        match self {
            RecognitionStep::Nothing => StepText::Nothing,
            RecognitionStep::Send(u) => StepText::Send(u@),
            RecognitionStep::Transcribe { pcm, fallback } => StepText::Transcribe {
                pcm: pcm@,
                fallback: fallback@,
            },
        }
    }
}

/// `text` without its first `n` characters.
pub open spec fn without_first(text: Seq<char>, n: int) -> Seq<char> {
    if n <= text.len() {
        text.skip(n)
    } else {
        Seq::empty()
    }
}

/// A session as it begins. `gate` is the user's switch, `vad_ready` tells that speech can be found,
/// `file` is the user's term file, and `trace` the switch for traces.
pub open spec fn begun(
    s: Listening,
    locale: Seq<char>,
    gate: bool,
    vad_ready: bool,
    file: Option<&str>,
    trace: Option<&str>,
) -> Listening {
    let session_rolling = s.rolling && gate && s.has_whisper && vad_ready && locale == "zh-TW"@;
    Listening {
        locale,
        rolling: s.rolling,
        has_whisper: s.has_whisper,
        correction: gate,
        session_rolling,
        suppress_final: session_rolling,
        finalized: 0,
        committed: 0,
        cumulative: 0,
        live: Seq::empty(),
        prompt_terms: distinct(user_terms(file) + builtin_prompt_terms()),
        vocabulary: distinct(builtin_terms() + user_terms(file)),
        trace: trace_flag(trace),
        pcm: Seq::empty(),
    }
}

/// What a result leaves behind: a draft is remembered, and a final result that is transcribed again
/// takes the samples with it.
pub open spec fn after_result(s: Listening, text: Seq<char>, is_final: bool) -> Listening {
    if !is_final {
        Listening { cumulative: text.len() as int, live: text, ..s }
    } else if transcribes(s, text) {
        Listening { pcm: Seq::empty(), ..s }
    } else {
        s
    }
}

/// A final result is to be transcribed again, as far as there are samples.
pub open spec fn transcribes(s: Listening, text: Seq<char>) -> bool {
    !s.session_rolling && s.has_whisper && s.correction && s.locale == "zh-TW"@ && has_letter(text)
}

/// What is done about a result.
pub open spec fn step_for(s: Listening, text: Seq<char>, is_final: bool) -> StepText {
    if !is_final {
        StepText::Send(
            UpdateText::Partial(
                if s.session_rolling {
                    without_first(text, s.committed)
                } else {
                    text
                },
            ),
        )
    } else if s.session_rolling {
        if s.suppress_final {
            StepText::Nothing
        } else {
            StepText::Send(UpdateText::Final(without_first(text, s.committed)))
        }
    } else if transcribes(s, text) && s.pcm.len() > 0 {
        StepText::Transcribe {
            pcm: last_of(s.pcm, MAX_PCM_SAMPLES_FOR_WHISPER as nat),
            fallback: text,
        }
    } else {
        StepText::Send(UpdateText::Final(text))
    }
}

/// The samples after some more: a session that makes phrases final keeps all of them, another keeps
/// the last minute once there is half as much more.
pub open spec fn with_samples(s: Listening, more: Seq<i16>) -> Seq<i16> {
    let all = s.pcm + more;
    if !s.session_rolling && all.len() > PCM_KEEP_LIMIT {
        last_of(all, MAX_PCM_SAMPLES_FOR_WHISPER as nat)
    } else {
        all
    }
}

/// The final phrase that comes of a transcript, with the terms that the live transcript spells
/// right put back.
pub open spec fn phrase_restored(s: Listening, phrase: Seq<char>) -> Seq<char> {
    restored(phrase, without_first(s.live, s.committed), s.vocabulary)
}

/// The samples that a step has used up are gone, and so is the part of the live transcript that
/// stands for them. A closing step that has left speech over lets the recogniser's own final result
/// through.
pub open spec fn after_tick(
    s: Listening,
    phrase: Option<Seq<char>>,
    cursor: int,
    pending: int,
    is_final: bool,
) -> Listening {
    Listening {
        finalized: if phrase is Some {
            cursor
        } else {
            s.finalized
        },
        committed: if phrase is Some {
            s.cumulative
        } else {
            s.committed
        },
        suppress_final: s.suppress_final && !(is_final && phrase is None && pending > 0),
        ..s
    }
}

/// What a step makes known: the final phrase, and at the end of the session that nothing is left.
pub open spec fn tick_updates(
    s: Listening,
    phrase: Option<Seq<char>>,
    pending: int,
    is_final: bool,
) -> Seq<UpdateText> {
    (match phrase {
        Some(p) => seq![UpdateText::PhraseFinal(phrase_restored(s, p))],
        None => Seq::empty(),
    }) + (if is_final && (phrase is Some || pending == 0) {
        seq![UpdateText::Final(Seq::empty())]
    } else {
        Seq::empty()
    })
}

/// Updates as text.
pub open spec fn update_texts(updates: Seq<TranscriptUpdate>) -> Seq<UpdateText> {
    updates.map_values(|u: TranscriptUpdate| u@)
}

/// An optional text.
pub open spec fn optional_text(o: Option<String>) -> Option<Seq<char>> {
    match o {
        Some(s) => Some(s@),
        None => None,
    }
}

/// Keeps track of a session of the recogniser.
#[derive(Debug)]
pub struct Recognizer {
    locale: String,
    rolling: bool,
    has_whisper: bool,
    correction: bool,
    session_rolling: bool,
    suppress_final: bool,
    finalized_samples: usize,
    committed_chars: usize,
    cumulative_chars: usize,
    live: String,
    prompt_terms: Vec<String>,
    vocabulary: Vec<String>,
    trace: bool,
    pcm: Vec<i16>,
}

impl View for Recognizer {
    type V = Listening;

    closed spec fn view(&self) -> Listening {
        Listening {
            locale: self.locale@,
            rolling: self.rolling,
            has_whisper: self.has_whisper,
            correction: self.correction,
            session_rolling: self.session_rolling,
            suppress_final: self.suppress_final,
            finalized: self.finalized_samples as int,
            committed: self.committed_chars as int,
            cumulative: self.cumulative_chars as int,
            live: self.live@,
            prompt_terms: texts(self.prompt_terms@),
            vocabulary: texts(self.vocabulary@),
            trace: self.trace,
            pcm: self.pcm@,
        }
    }
}

impl Recognizer {
    /// No session yet. `rolling` switches making phrases final on; `has_whisper` tells that there
    /// is a transcriber.
    pub fn new(locale: &str, rolling: bool, has_whisper: bool) -> (r: Self)
        ensures
            r@ == (Listening {
                locale: locale@,
                rolling,
                has_whisper,
                correction: true,
                session_rolling: false,
                suppress_final: false,
                finalized: 0,
                committed: 0,
                cumulative: 0,
                live: Seq::empty(),
                prompt_terms: Seq::empty(),
                vocabulary: Seq::empty(),
                trace: false,
                pcm: Seq::empty(),
            }),
    {
        let r = Recognizer {
            locale: locale.to_owned(),
            rolling,
            has_whisper,
            correction: true,
            session_rolling: false,
            suppress_final: false,
            finalized_samples: 0,
            committed_chars: 0,
            cumulative_chars: 0,
            live: String::new(),
            prompt_terms: Vec::new(),
            vocabulary: Vec::new(),
            trace: false,
            pcm: Vec::new(),
        };
        assert(texts(r.prompt_terms@) == Seq::<Seq<char>>::empty());
        assert(texts(r.vocabulary@) == Seq::<Seq<char>>::empty());
        r
    }

    /// Whether a recogniser for another language is needed.
    pub fn needs_locale(&self, locale: &str) -> (b: bool)
        ensures
            b == (self@.locale != locale@),
    {
        !same_text(self.locale.as_str(), locale)
    }

    /// A session begins.
    pub fn begin(
        &mut self,
        locale: &str,
        gate: bool,
        vad_ready: bool,
        user_file: Option<&str>,
        trace: Option<&str>,
    )
        ensures
            final(self)@ == begun(old(self)@, locale@, gate, vad_ready, user_file, trace),
    {
        self.locale = locale.to_owned();
        self.pcm = Vec::new();
        self.finalized_samples = 0;
        self.committed_chars = 0;
        self.cumulative_chars = 0;
        self.live = String::new();
        self.prompt_terms = prompt_terms_user_first(user_file);
        let defaults = default_contextual_terms();
        self.vocabulary = merge_contextual_terms(defaults.as_slice(), user_file);
        self.trace = parse_restore_trace_flag(trace);
        self.correction = gate;
        let capable = self.rolling && self.correction && self.has_whisper;
        self.session_rolling = rolling_session_active(capable, vad_ready, locale);
        self.suppress_final = self.session_rolling;
    }

    /// Takes a result of the recogniser in.
    pub fn on_result(&mut self, text: &str, is_final: bool) -> (step: RecognitionStep)
        ensures
            step@ == step_for(old(self)@, text@, is_final),
            final(self)@ == after_result(old(self)@, text@, is_final),
    {
        if !is_final {
            self.cumulative_chars = text.unicode_len();
            self.live = text.to_owned();
            let draft = if self.session_rolling {
                strip_committed_prefix(text, self.committed_chars)
            } else {
                text.to_owned()
            };
            return RecognitionStep::Send(TranscriptUpdate::Partial(draft));
        }
        if self.session_rolling {
            if self.suppress_final {
                return RecognitionStep::Nothing;
            }
            let tail = strip_committed_prefix(text, self.committed_chars);
            return RecognitionStep::Send(TranscriptUpdate::Final(tail));
        }
        if self.has_whisper && self.correction && should_correct_with_whisper(
            self.locale.as_str(),
            text,
        ) {
            let mut pcm: Vec<i16> = Vec::new();
            pcm.append(&mut self.pcm);
            assert(pcm@ == old(self)@.pcm);
            if pcm.len() == 0 {
                return RecognitionStep::Send(TranscriptUpdate::Final(text.to_owned()));
            }
            keep_last(&mut pcm);
            return RecognitionStep::Transcribe { pcm, fallback: text.to_owned() };
        }
        RecognitionStep::Send(TranscriptUpdate::Final(text.to_owned()))
    }

    /// Keeps the samples of a frame.
    pub fn keep_frame(&mut self, frame: &AudioFrame)
        ensures
            final(self)@ == (Listening { pcm: with_samples(old(self)@, frame.pcm@), ..old(self)@ }),
    {
        let ghost before = self.pcm@;
        let mut i: usize = 0;
        while i < frame.pcm.len()
            invariant
                i <= frame.pcm@.len(),
                self.pcm@ == before + frame.pcm@.take(i as int),
                self@ == (Listening { pcm: self.pcm@, ..old(self)@ }),
            decreases frame.pcm@.len() - i,
        {
            self.pcm.push(frame.pcm[i]);
            i += 1;
            assert(frame.pcm@.take(i as int) == frame.pcm@.take(i - 1).push(frame.pcm@[i - 1]));
        }
        assert(frame.pcm@.take(i as int) == frame.pcm@);
        if !self.session_rolling && self.pcm.len() > PCM_KEEP_LIMIT {
            keep_last(&mut self.pcm);
        }
    }

    /// Whether phrases are made final in this session.
    pub fn session_rolling(&self) -> (b: bool)
        ensures
            b == self@.session_rolling,
    {
        self.session_rolling
    }

    /// Whether what was restored is to be traced.
    pub fn traces(&self) -> (b: bool)
        ensures
            b == self@.trace,
    {
        self.trace
    }

    /// The cursor.
    pub fn finalized_samples(&self) -> (n: usize)
        ensures
            n == self@.finalized,
    {
        self.finalized_samples
    }

    /// The samples that are kept.
    pub fn pcm(&self) -> (samples: &[i16])
        ensures
            samples@ == self@.pcm,
    {
        self.pcm.as_slice()
    }

    /// The terms to prompt the transcriber with.
    pub fn prompt_terms(&self) -> (terms: &[String])
        ensures
            texts(terms@) == self@.prompt_terms,
    {
        self.prompt_terms.as_slice()
    }

    /// The terms that the recogniser is to expect.
    pub fn vocabulary(&self) -> (terms: &[String])
        ensures
            texts(terms@) == self@.vocabulary,
    {
        self.vocabulary.as_slice()
    }

    /// The live transcript of what is not final yet.
    pub fn open_draft(&self) -> (draft: String)
        ensures
            draft@ == without_first(self@.live, self@.committed),
    {
        strip_committed_prefix(self.live.as_str(), self.committed_chars)
    }

    /// Takes in what a step towards the next final phrase has come to.
    pub fn on_tick(&mut self, outcome: &RollingTickOutcome, is_final: bool) -> (updates: Vec<
        TranscriptUpdate,
    >)
        ensures
            final(self)@ == after_tick(
                old(self)@,
                optional_text(outcome.phrase),
                outcome.finalized_samples as int,
                outcome.pending_speech_samples as int,
                is_final,
            ),
            update_texts(updates@) == tick_updates(
                old(self)@,
                optional_text(outcome.phrase),
                outcome.pending_speech_samples as int,
                is_final,
            ),
    {
        let ghost before = self@;
        let mut updates: Vec<TranscriptUpdate> = Vec::new();
        assert(update_texts(updates@) == Seq::<UpdateText>::empty());
        let mut locked: bool = false;
        match &outcome.phrase {
            Some(phrase) => {
                let draft = self.open_draft();
                let text = restore_terms(
                    phrase.as_str(),
                    draft.as_str(),
                    self.vocabulary.as_slice(),
                );
                let ghost said = UpdateText::PhraseFinal(text@);
                updates.push(TranscriptUpdate::PhraseFinal(text));
                assert(update_texts(updates@) == seq![said]);
                self.finalized_samples = outcome.finalized_samples;
                self.committed_chars = self.cumulative_chars;
                locked = true;
            },
            None => {},
        }
        let ghost so_far = update_texts(updates@);
        if is_final {
            if rolling_final_flush_delivered(locked, outcome.pending_speech_samples) {
                let nothing = String::new();
                updates.push(TranscriptUpdate::Final(nothing));
                assert(nothing@ == Seq::<char>::empty());
                assert(update_texts(updates@) == so_far.push(UpdateText::Final(Seq::empty())));
                assert(update_texts(updates@) == so_far + seq![UpdateText::Final(Seq::empty())]);
            } else {
                self.suppress_final = false;
                assert(so_far + Seq::<UpdateText>::empty() == so_far);
            }
        } else {
            assert(so_far + Seq::<UpdateText>::empty() == so_far);
        }
        updates
    }

    /// A step has failed. Where it was the closing one, the recogniser's own final result is let
    /// through.
    pub fn on_tick_failed(&mut self, is_final: bool)
        ensures
            final(self)@ == (Listening {
                suppress_final: old(self)@.suppress_final && !is_final,
                ..old(self)@
            }),
    {
        if is_final {
            self.suppress_final = false;
        }
    }
}

/// Keeps the last minute of samples.
fn keep_last(pcm: &mut Vec<i16>)
    ensures
        final(pcm)@ == last_of(old(pcm)@, MAX_PCM_SAMPLES_FOR_WHISPER as nat),
{
    if pcm.len() > MAX_PCM_SAMPLES_FOR_WHISPER {
        let drop: usize = pcm.len() - MAX_PCM_SAMPLES_FOR_WHISPER;
        let mut last = pcm.split_off(drop);
        pcm.clear();
        pcm.append(&mut last);
    }
}

/// The transcript to send: what the transcriber made of the samples, or `fallback` where it failed,
/// said nothing, or is not trusted.
pub open spec fn corrected_final(
    fallback: Seq<char>,
    transcript: Result<String, RaflowError>,
) -> Seq<char> {
    match transcript {
        Ok(t) => if trimmed(t@).len() == 0 || !is_safe(t@) {
            fallback
        } else {
            t@
        },
        Err(_) => fallback,
    }
}

/// The final update for samples that were transcribed again.
pub fn settle_final(fallback: String, transcript: Result<String, RaflowError>) -> (update:
    TranscriptUpdate)
    ensures
        update@ == UpdateText::Final(corrected_final(fallback@, transcript)),
{
    match transcript {
        Ok(t) => {
            let chars = to_chars(t.as_str());
            if trim(chars.as_slice()).len() == 0 || !is_safe_whisper_output(t.as_str()) {
                TranscriptUpdate::Final(fallback)
            } else {
                TranscriptUpdate::Final(t)
            }
        },
        Err(_) => TranscriptUpdate::Final(fallback),
    }
}

/// The number of samples that a frame is handed over with; a frame without samples is refused.
pub fn check_frame(frame: &AudioFrame) -> (r: Result<usize, RaflowError>)
    ensures
        if frame.pcm@.len() == 0 {
            r matches Err(RaflowError::SpeechAuthorization { status }) && status@
                == "empty audio frame"@
        } else {
            r matches Ok(n) && n == frame.pcm@.len()
        },
{
    if frame.pcm.len() == 0 {
        Err(RaflowError::SpeechAuthorization { status: "empty audio frame".to_owned() })
    } else {
        Ok(frame.pcm.len())
    }
}

// ---------------------------------------------------------------------------
// What a session promises
// ---------------------------------------------------------------------------

/// A session that makes phrases final never ends without a final update: either the closing step
/// sends one, or the recogniser's own final result is passed on when it comes.
pub proof fn a_session_always_ends_in_a_final(
    s: Listening,
    phrase: Option<Seq<char>>,
    cursor: int,
    pending: int,
    text: Seq<char>,
)
    requires
        s.session_rolling,
        pending >= 0,
    ensures
        ({
            let closed = after_tick(s, phrase, cursor, pending, true);
            let sent = tick_updates(s, phrase, pending, true);
            ||| sent.len() > 0 && sent.last() is Final
            ||| step_for(closed, text, true) == StepText::Send(
                UpdateText::Final(without_first(text, closed.committed)),
            )
        }),
{
}

/// The recogniser's own final result is passed on at most where the closing step sent none: no text
/// is sent twice.
pub proof fn no_second_final(
    s: Listening,
    phrase: Option<Seq<char>>,
    cursor: int,
    pending: int,
    text: Seq<char>,
)
    requires
        s.session_rolling,
        s.suppress_final,
        pending >= 0,
        phrase is Some || pending == 0,
    ensures
        step_for(after_tick(s, phrase, cursor, pending, true), text, true) == StepText::Nothing,
{
}

/// An English session is never transcribed again, and makes no phrase final.
pub proof fn english_sessions_are_left_alone(
    s: Listening,
    locale: Seq<char>,
    gate: bool,
    vad_ready: bool,
    file: Option<&str>,
    trace: Option<&str>,
    text: Seq<char>,
)
    requires
        locale != "zh-TW"@,
    ensures
        ({
            let session = begun(s, locale, gate, vad_ready, file, trace);
            &&& !session.session_rolling
            &&& step_for(session, text, true) == StepText::Send(UpdateText::Final(text))
            &&& step_for(session, text, false) == StepText::Send(UpdateText::Partial(text))
        }),
{
}

/// With the user's switch off, what the recogniser hears is what is sent.
pub proof fn switched_off_sends_what_is_heard(
    s: Listening,
    locale: Seq<char>,
    vad_ready: bool,
    file: Option<&str>,
    trace: Option<&str>,
    text: Seq<char>,
)
    ensures
        ({
            let session = begun(s, locale, false, vad_ready, file, trace);
            &&& step_for(session, text, true) == StepText::Send(UpdateText::Final(text))
            &&& step_for(session, text, false) == StepText::Send(UpdateText::Partial(text))
        }),
{
}

/// While phrases are made final, the samples that the cursor counts stay in place: what is kept
/// only ever grows at its end.
pub proof fn samples_stay_in_place(s: Listening, more: Seq<i16>)
    requires
        s.session_rolling,
    ensures
        s.pcm.is_prefix_of(with_samples(s, more)),
{
}

/// Something that happens while a session goes on.
pub enum SessionEvent {
    /// The recogniser has a draft.
    Heard(Seq<char>),
    /// A step towards the next final phrase has come to this.
    Step { phrase: Option<Seq<char>>, cursor: int, pending: int },
    /// Samples came in.
    Samples(Seq<i16>),
}

/// What is known after something has happened.
pub open spec fn after_session_event(s: Listening, event: SessionEvent) -> Listening {
    match event {
        SessionEvent::Heard(text) => after_result(s, text, false),
        SessionEvent::Step { phrase, cursor, pending } => after_tick(
            s,
            phrase,
            cursor,
            pending,
            false,
        ),
        SessionEvent::Samples(more) => Listening { pcm: with_samples(s, more), ..s },
    }
}

/// What is known after several things have happened.
pub open spec fn after_session_events(s: Listening, events: Seq<SessionEvent>) -> Listening
    decreases events.len(),
{
    if events.len() == 0 {
        s
    } else {
        after_session_event(after_session_events(s, events.drop_last()), events.last())
    }
}

/// A phrase becomes final.
pub open spec fn locks(event: SessionEvent) -> bool {
    event matches SessionEvent::Step { phrase, .. } && phrase is Some
}

proof fn lemma_events_add(s: Listening, a: Seq<SessionEvent>, b: Seq<SessionEvent>)
    ensures
        after_session_events(s, a + b) == after_session_events(after_session_events(s, a), b),
    decreases b.len(),
{
    if b.len() == 0 {
        assert(a + b == a);
    } else {
        lemma_events_add(s, a, b.drop_last());
        assert((a + b).drop_last() == a + b.drop_last());
        assert((a + b).last() == b.last());
    }
}

/// Nothing that happens in a session changes what kind of session it is, nor its vocabulary, nor
/// lets the recogniser's own final result through.
proof fn lemma_session_kept(s: Listening, events: Seq<SessionEvent>)
    ensures
        after_session_events(s, events).session_rolling == s.session_rolling,
        after_session_events(s, events).suppress_final == s.suppress_final,
        after_session_events(s, events).vocabulary == s.vocabulary,
        after_session_events(s, events).locale == s.locale,
        after_session_events(s, events).has_whisper == s.has_whisper,
        after_session_events(s, events).correction == s.correction,
    decreases events.len(),
{
    if events.len() > 0 {
        lemma_session_kept(s, events.drop_last());
    }
}

/// As long as no draft comes, the live transcript stays.
proof fn lemma_no_draft(s: Listening, events: Seq<SessionEvent>)
    requires
        forall|i: int| 0 <= i < events.len() ==> !((#[trigger] events[i]) is Heard),
    ensures
        after_session_events(s, events).live == s.live,
        after_session_events(s, events).cumulative == s.cumulative,
    decreases events.len(),
{
    if events.len() > 0 {
        let init = events.drop_last();
        assert forall|i: int| 0 <= i < init.len() implies !((#[trigger] init[i]) is Heard) by {
            assert(init[i] == events[i]);
        }
        lemma_no_draft(s, init);
        assert(!(events[events.len() - 1] is Heard));
    }
}

/// As long as no phrase becomes final, what stands for final phrases stays, and so does the cursor.
proof fn lemma_no_phrase(s: Listening, events: Seq<SessionEvent>)
    requires
        forall|i: int| 0 <= i < events.len() ==> !locks(#[trigger] events[i]),
    ensures
        after_session_events(s, events).committed == s.committed,
        after_session_events(s, events).finalized == s.finalized,
    decreases events.len(),
{
    if events.len() > 0 {
        let init = events.drop_last();
        assert forall|i: int| 0 <= i < init.len() implies !locks(#[trigger] init[i]) by {
            assert(init[i] == events[i]);
        }
        lemma_no_phrase(s, init);
        assert(!locks(events[events.len() - 1]));
    }
}

/// Until a phrase becomes final, every draft of a session is sent as it is heard.
pub proof fn drafts_are_sent_whole_before_the_first_phrase(
    s: Listening,
    locale: Seq<char>,
    gate: bool,
    vad_ready: bool,
    file: Option<&str>,
    trace: Option<&str>,
    events: Seq<SessionEvent>,
    text: Seq<char>,
)
    requires
        forall|i: int| 0 <= i < events.len() ==> !locks(#[trigger] events[i]),
    ensures
        step_for(
            after_session_events(begun(s, locale, gate, vad_ready, file, trace), events),
            text,
            false,
        ) == StepText::Send(UpdateText::Partial(text)),
{
    let session = begun(s, locale, gate, vad_ready, file, trace);
    lemma_no_phrase(session, events);
    assert(text.skip(0) == text);
}

/// What was heard before the last final phrase never comes again. However a session went before:
/// once a phrase becomes final while `draft` is the last draft that was heard, a later draft
/// `draft + more` is sent as `more`, until the next phrase becomes final; the recogniser's own final
/// result, where it is passed on, is cut in the same way; the next phrase is restored from `more`;
/// and the cursor stands where the phrase has put it.
pub proof fn final_phrases_are_left_out_of_later_drafts(
    session: Listening,
    before: Seq<SessionEvent>,
    draft: Seq<char>,
    silent: Seq<SessionEvent>,
    phrase: Seq<char>,
    cursor: int,
    pending: int,
    later: Seq<SessionEvent>,
    more: Seq<char>,
    next: Seq<char>,
)
    requires
        session.session_rolling,
        forall|i: int| 0 <= i < silent.len() ==> !((#[trigger] silent[i]) is Heard),
        forall|i: int| 0 <= i < later.len() ==> !locks(#[trigger] later[i]),
    ensures
        ({
            let events = before + seq![SessionEvent::Heard(draft)] + silent + seq![
                SessionEvent::Step { phrase: Some(phrase), cursor, pending },
            ] + later;
            let now = after_session_events(session, events);
            let heard = after_result(now, draft + more, false);
            &&& step_for(now, draft + more, false) == StepText::Send(UpdateText::Partial(more))
            &&& step_for(now, draft + more, true) == if session.suppress_final {
                StepText::Nothing
            } else {
                StepText::Send(UpdateText::Final(more))
            }
            &&& tick_updates(heard, Some(next), pending, false) == seq![
                UpdateText::PhraseFinal(restored(next, more, session.vocabulary)),
            ]
            &&& now.finalized == cursor
        }),
{
    let heard_draft = seq![SessionEvent::Heard(draft)];
    let step = seq![SessionEvent::Step { phrase: Some(phrase), cursor, pending }];
    let a = before + heard_draft;
    let b = a + silent;
    let c = b + step;
    let s0 = after_session_events(session, before);
    let s1 = after_session_events(session, a);
    let s2 = after_session_events(session, b);
    let s3 = after_session_events(session, c);
    let now = after_session_events(session, c + later);
    assert(a.drop_last() == before && a.last() == SessionEvent::Heard(draft));
    assert(s1 == after_result(s0, draft, false));
    lemma_events_add(session, a, silent);
    lemma_no_draft(s1, silent);
    assert(c.drop_last() == b && c.last() == step[0]);
    assert(s3 == after_tick(s2, Some(phrase), cursor, pending, false));
    lemma_events_add(session, c, later);
    lemma_no_phrase(s3, later);
    lemma_session_kept(session, c + later);
    assert(now.committed == draft.len());
    assert((draft + more).skip(draft.len() as int) == more);
    let heard = after_result(now, draft + more, false);
    assert(tick_updates(heard, Some(next), pending, false) =~= seq![
        UpdateText::PhraseFinal(restored(next, more, session.vocabulary)),
    ]);
}

/// Phrases are made final in a session exactly where that is switched on, the user wants it, there
/// is a transcriber, speech can be found, and the session is Chinese. The recogniser's own final
/// result is held back then.
pub proof fn sessions_roll_where_everything_is_there(
    s: Listening,
    locale: Seq<char>,
    gate: bool,
    vad_ready: bool,
    file: Option<&str>,
    trace: Option<&str>,
    text: Seq<char>,
)
    ensures
        ({
            let session = begun(s, locale, gate, vad_ready, file, trace);
            &&& session.session_rolling <==> {
                &&& s.rolling
                &&& gate
                &&& s.has_whisper
                &&& vad_ready
                &&& locale == "zh-TW"@
            }
            &&& session.session_rolling ==> step_for(session, text, true) == StepText::Nothing
        }),
{
}

/// A Chinese session that makes no phrases final has its final result transcribed again where that
/// holds English, the user wants it, and there is a transcriber and something to transcribe: what
/// was recorded, its last minute at most. Otherwise the result is sent as it is.
pub proof fn mixed_finals_are_transcribed_again(s: Listening, text: Seq<char>)
    requires
        !s.session_rolling,
    ensures
        ({
            let again = s.has_whisper && s.correction && s.locale == "zh-TW"@ && (exists|i: int|
                0 <= i < text.len() && is_alpha(#[trigger] text[i])) && s.pcm.len() > 0;
            match step_for(s, text, true) {
                StepText::Transcribe { pcm, fallback } => {
                    &&& again
                    &&& fallback == text
                    &&& pcm.is_suffix_of(s.pcm)
                    &&& pcm.len() == if s.pcm.len() <= 960_000 {
                        s.pcm.len()
                    } else {
                        960_000
                    }
                },
                StepText::Send(update) => !again && update == UpdateText::Final(text),
                StepText::Nothing => false,
            }
        }),
{
    let pcm = last_of(s.pcm, MAX_PCM_SAMPLES_FOR_WHISPER as nat);
    assert(pcm.is_suffix_of(s.pcm)) by {
        assert(pcm =~= s.pcm.subrange(s.pcm.len() - pcm.len(), s.pcm.len() as int));
    }
}

/// What is kept of the samples: where no phrases are made final, never more than a minute and a
/// half, always the newest, and always the last minute of them.
pub proof fn the_last_minute_is_always_kept(s: Listening, more: Seq<i16>)
    requires
        !s.session_rolling,
    ensures
        with_samples(s, more).is_suffix_of(s.pcm + more),
        with_samples(s, more).len() <= 1_440_000,
        with_samples(s, more).len() >= if (s.pcm + more).len() <= 960_000 {
            (s.pcm + more).len()
        } else {
            960_000
        },
{
    let all = s.pcm + more;
    let kept = with_samples(s, more);
    assert(kept =~= all.subrange(all.len() - kept.len(), all.len() as int));
}

/// A session knows every term of the user's and every built-in one, each once. The transcriber is
/// prompted with the user's first, in the order of the file; what the recogniser is to expect begins
/// with the built-in ones.
pub proof fn sessions_know_all_terms(
    s: Listening,
    locale: Seq<char>,
    gate: bool,
    vad_ready: bool,
    file: Option<&str>,
    trace: Option<&str>,
    term: Seq<char>,
)
    ensures
        ({
            let b = begun(s, locale, gate, vad_ready, file, trace);
            &&& b.prompt_terms.no_duplicates() && b.vocabulary.no_duplicates()
            &&& b.prompt_terms.contains(term) <==> user_terms(file).contains(term)
                || builtin_prompt_terms().contains(term)
            &&& b.vocabulary.contains(term) <==> user_terms(file).contains(term)
                || builtin_terms().contains(term)
            &&& distinct(user_terms(file)).is_prefix_of(b.prompt_terms)
            &&& distinct(builtin_terms()).is_prefix_of(b.vocabulary)
        }),
{
    let user = user_terms(file);
    distinct_has_no_duplicates(user + builtin_prompt_terms());
    distinct_has_no_duplicates(builtin_terms() + user);
    first_of_each_stays_in_place(user, builtin_prompt_terms());
    first_of_each_stays_in_place(builtin_terms(), user);
    lemma_either(user, builtin_prompt_terms(), term);
    lemma_either(builtin_terms(), user, term);
}

proof fn lemma_either(a: Seq<Seq<char>>, b: Seq<Seq<char>>, x: Seq<char>)
    ensures
        (a + b).contains(x) <==> a.contains(x) || b.contains(x),
{
    if a.contains(x) {
        let k = choose|k: int| 0 <= k < a.len() && a[k] == x;
        assert((a + b)[k] == x);
    }
    if b.contains(x) {
        let k = choose|k: int| 0 <= k < b.len() && b[k] == x;
        assert((a + b)[a.len() + k] == x);
    }
    if (a + b).contains(x) {
        let k = choose|k: int| 0 <= k < (a + b).len() && (a + b)[k] == x;
        if k < a.len() {
            assert(a[k] == x);
        } else {
            assert(b[k - a.len()] == x);
        }
    }
}

/// What was transcribed again is sent where the transcriber has something to say that can be
/// trusted, and word for word; else the recogniser's own transcript is sent, so that nothing that
/// was heard is lost.
pub proof fn transcripts_are_sent_where_they_can_be(
    fallback: Seq<char>,
    transcript: Result<String, RaflowError>,
)
    ensures
        match transcript {
            Err(_) => corrected_final(fallback, transcript) == fallback,
            Ok(t) => {
                let speaks = exists|i: int| 0 <= i < t@.len() && !is_space(#[trigger] t@[i]);
                &&& speaks && is_safe(t@) ==> corrected_final(fallback, transcript) == t@
                &&& !(speaks && is_safe(t@)) ==> corrected_final(fallback, transcript) == fallback
            },
        },
{
    match transcript {
        Ok(t) => lemma_blank(t@),
        Err(_) => {},
    }
}

/// What was said is traced only where the user has asked for it in so many words.
pub proof fn traces_have_to_be_asked_for(
    s: Listening,
    locale: Seq<char>,
    gate: bool,
    vad_ready: bool,
    file: Option<&str>,
    word: &str,
)
    ensures
        !begun(s, locale, gate, vad_ready, file, None).trace,
        word@ == "1"@ || word@ == "true"@ || word@ == "yes"@ || word@ == "on"@ ==> begun(
            s,
            locale,
            gate,
            vad_ready,
            file,
            Some(word),
        ).trace,
        word@ == "0"@ || word@.len() == 0 ==> !begun(
            s,
            locale,
            gate,
            vad_ready,
            file,
            Some(word),
        ).trace,
{
    reveal_strlit("0");
    reveal_strlit("1");
    reveal_strlit("true");
    reveal_strlit("yes");
    reveal_strlit("on");
    assert(trimmed(word@).len() <= word@.len()) by {
        trimming_takes_the_white_space_around(word@);
        reveal(is_middle);
    }
    if word@ == "0"@ {
        assert(trimmed(word@)[0] == '0');
    }
}

} // verus!
