//! Speech sessions, and the key that starts and stops them.

use vstd::prelude::*;
use crate::audio::AudioFrame;
use crate::error::RaflowError;
use crate::hotkey::HotkeyEvent;
use crate::text::same_text;
use crate::transcript::TranscriptUpdate;

verus! {

/// A speech recogniser. Where its transcripts go is its own affair.
///
/// The spec functions say which outcomes a recogniser allows for, given how it was before, how it
/// is after, and what came back. One that does not say allows for every outcome.
pub trait SpeechBackend: Sized {
    open spec fn starts(before: Self, locale: Seq<char>, after: Self, r: Result<(), RaflowError>) -> bool {
        true
    }

    open spec fn hears(before: Self, frame: AudioFrame, after: Self, r: Result<(), RaflowError>) -> bool {
        true
    }

    open spec fn stops(before: Self, after: Self, r: Result<(), RaflowError>) -> bool {
        true
    }

    open spec fn ticks(before: Self, is_final: bool, after: Self, r: Result<(), RaflowError>) -> bool {
        true
    }

    /// It may be so, or not so, that the session makes phrases final while it goes on.
    open spec fn may_roll(&self, b: bool) -> bool {
        true
    }

    /// Begins to listen, in the language of `locale`.
    fn start(&mut self, locale: &str) -> (r: Result<(), RaflowError>)
        ensures
            Self::starts(*old(self), locale@, *final(self), r),
    ;

    /// Hears a frame.
    fn push_frame(&mut self, frame: &AudioFrame) -> (r: Result<(), RaflowError>)
        ensures
            Self::hears(*old(self), *frame, *final(self), r),
    ;

    /// Stops listening.
    fn stop(&mut self) -> (r: Result<(), RaflowError>)
        ensures
            Self::stops(*old(self), *final(self), r),
    ;

    /// Makes a phrase final where there is one to be made so. `is_final` tells that recording ends.
    /// A recogniser that makes no phrases final does nothing.
    fn rolling_tick(&mut self, is_final: bool) -> (r: Result<(), RaflowError>)
        ensures
            Self::ticks(*old(self), is_final, *final(self), r),
    ;

    /// Whether the session makes phrases final while it goes on.
    fn session_rolling(&self) -> (b: bool)
        ensures
            self.may_roll(b),
    ;
}

/// A recogniser that is listening, or is not.
pub struct Session<B: SpeechBackend> {
    backend: B,
    streaming: bool,
}

impl<B: SpeechBackend> Session<B> {
    pub closed spec fn backend(&self) -> B {
        self.backend
    }

    /// The recogniser is listening.
    pub closed spec fn streaming(&self) -> bool {
        self.streaming
    }

    /// A recogniser that is not listening.
    pub fn new(backend: B) -> (s: Self)
        ensures
            s.backend() == backend,
            !s.streaming(),
    {
        Session { backend, streaming: false }
    }

    /// Whether the recogniser is listening.
    pub fn is_streaming(&self) -> (b: bool)
        ensures
            b == self.streaming(),
    {
        self.streaming
    }

    /// Begins to listen; refused where it is listening already.
    pub fn start(&mut self, locale: &str) -> (r: Result<(), RaflowError>)
        ensures
            if old(self).streaming() {
                r == Err::<(), RaflowError>(RaflowError::SpeechBusy) && *final(self) == *old(self)
            } else {
                &&& B::starts(old(self).backend(), locale@, final(self).backend(), r)
                &&& final(self).streaming() == (r is Ok)
            },
    {
        if self.streaming {
            return Err(RaflowError::SpeechBusy);
        }
        let r = self.backend.start(locale);
        if r.is_ok() {
            self.streaming = true;
        }
        r
    }

    /// Hears a frame; one that comes while it is not listening is dropped.
    pub fn push_frame(&mut self, frame: &AudioFrame) -> (r: Result<(), RaflowError>)
        ensures
            final(self).streaming() == old(self).streaming(),
            if old(self).streaming() {
                B::hears(old(self).backend(), *frame, final(self).backend(), r)
            } else {
                r is Ok && *final(self) == *old(self)
            },
    {
        if !self.streaming {
            return Ok(());
        }
        self.backend.push_frame(frame)
    }

    /// Stops listening; it goes on listening where that fails.
    pub fn stop(&mut self) -> (r: Result<(), RaflowError>)
        ensures
            if old(self).streaming() {
                &&& B::stops(old(self).backend(), final(self).backend(), r)
                &&& final(self).streaming() == (r is Err)
            } else {
                r is Ok && *final(self) == *old(self)
            },
    {
        if !self.streaming {
            return Ok(());
        }
        let r = self.backend.stop();
        if r.is_ok() {
            self.streaming = false;
        }
        r
    }

    /// Makes a phrase final where there is one; nothing while it is not listening.
    pub fn rolling_tick(&mut self, is_final: bool) -> (r: Result<(), RaflowError>)
        ensures
            final(self).streaming() == old(self).streaming(),
            if old(self).streaming() {
                B::ticks(old(self).backend(), is_final, final(self).backend(), r)
            } else {
                r is Ok && *final(self) == *old(self)
            },
    {
        if !self.streaming {
            return Ok(());
        }
        self.backend.rolling_tick(is_final)
    }

    /// Whether the session makes phrases final while it goes on.
    pub fn is_rolling(&self) -> (b: bool)
        ensures
            self.backend().may_roll(b),
    {
        self.backend.session_rolling()
    }
}

// ---------------------------------------------------------------------------
// The key
// ---------------------------------------------------------------------------

/// What the caller has to do about recording.
#[derive(Debug, Clone, Copy, PartialEq, Eq)]
pub enum Transition {
    Unchanged,
    StartRecording,
    StopRecording,
}

/// Something that knows which language the next session is to be in.
pub trait LocaleProvider: Sized {
    /// The locale may be this one.
    open spec fn may_prefer(&self, locale: Seq<char>) -> bool {
        true
    }

    /// The locale for a session that begins now.
    fn preferred(&self) -> (locale: String)
        ensures
            self.may_prefer(locale@),
    ;
}

/// Always the same locale.
#[derive(Debug)]
pub struct FixedLocale {
    pub locale: String,
}

impl LocaleProvider for FixedLocale {
    open spec fn may_prefer(&self, locale: Seq<char>) -> bool {
        locale == self.locale@
    }

    fn preferred(&self) -> (locale: String) {
        self.locale.clone()
    }
}

/// What went wrong, if anything did.
pub open spec fn failure_of(r: Result<Transition, RaflowError>) -> Option<RaflowError> {
    match r {
        Ok(_) => None,
        Err(e) => Some(e),
    }
}

/// How a recogniser that is not listening may look, and what may come back, after an attempt to
/// start it in `preferred`: where that locale is not served, `fallback` is tried instead, unless it
/// is the same.
pub open spec fn starts_with_fallback<B: SpeechBackend>(
    before: B,
    preferred: Seq<char>,
    fallback: Seq<char>,
    after: B,
    failure: Option<RaflowError>,
) -> bool {
    exists|mid: B, first: Result<(), RaflowError>|
        {
            &&& #[trigger] B::starts(before, preferred, mid, first)
            &&& match first {
                Ok(_) => after == mid && failure is None,
                Err(RaflowError::SpeechUnavailable { .. }) if preferred != fallback =>
                    exists|second: Result<(), RaflowError>|
                        #[trigger] B::starts(mid, fallback, after, second) && match second {
                            Ok(_) => failure is None,
                            Err(e) => failure == Some(e),
                        },
                Err(e) => after == mid && failure == Some(e),
            }
        }
}

/// The same for the locale that the provider prefers, whichever that is.
pub open spec fn starts_as_preferred<B: SpeechBackend, P: LocaleProvider>(
    provider: P,
    before: B,
    fallback: Seq<char>,
    after: B,
    failure: Option<RaflowError>,
) -> bool {
    exists|preferred: Seq<char>|
        provider.may_prefer(preferred) && #[trigger] starts_with_fallback(
            before,
            preferred,
            fallback,
            after,
            failure,
        )
}

/// How a recogniser that is listening may look, and what may come back, after an attempt to stop
/// it: the last phrase is made final first, and it is not stopped where that fails.
pub open spec fn stops_after_flush<B: SpeechBackend>(
    before: B,
    after: B,
    failure: Option<RaflowError>,
) -> bool {
    exists|mid: B, flushed: Result<(), RaflowError>|
        {
            &&& #[trigger] B::ticks(before, true, mid, flushed)
            &&& match flushed {
                Err(e) => after == mid && failure == Some(e),
                Ok(_) => exists|stopped: Result<(), RaflowError>|
                    #[trigger] B::stops(mid, after, stopped) && match stopped {
                        Ok(_) => failure is None,
                        Err(e) => failure == Some(e),
                    },
            }
        }
}

/// A session in a language that the recogniser serves is started in it, at the first attempt.
pub proof fn served_languages_are_recorded_in<B: SpeechBackend>(
    before: B,
    preferred: Seq<char>,
    fallback: Seq<char>,
    after: B,
    failure: Option<RaflowError>,
)
    requires
        starts_with_fallback(before, preferred, fallback, after, failure),
        forall|mid: B, r: Result<(), RaflowError>| #[trigger]
            B::starts(before, preferred, mid, r) ==> r is Ok,
    ensures
        failure is None,
        exists|r: Result<(), RaflowError>| #[trigger]
            B::starts(before, preferred, after, r) && r is Ok,
{
}

/// Where the recogniser does not serve the language, the session is started in the language to fall
/// back on, if that is another one and is served.
pub proof fn other_languages_fall_back<B: SpeechBackend>(
    before: B,
    preferred: Seq<char>,
    fallback: Seq<char>,
    after: B,
    failure: Option<RaflowError>,
)
    requires
        starts_with_fallback(before, preferred, fallback, after, failure),
        preferred != fallback,
        forall|mid: B, r: Result<(), RaflowError>| #[trigger]
            B::starts(before, preferred, mid, r) ==> (r matches Err(
                RaflowError::SpeechUnavailable { .. },
            )),
        forall|mid: B, end: B, r: Result<(), RaflowError>| #[trigger]
            B::starts(mid, fallback, end, r) ==> r is Ok,
    ensures
        failure is None,
        exists|mid: B, r: Result<(), RaflowError>| #[trigger]
            B::starts(mid, fallback, after, r) && r is Ok,
{
}

/// Any other failure ends the attempt: no second one is made, and it is the failure that is told.
/// The same holds where the language to fall back on is the one that was tried.
pub proof fn other_failures_are_told<B: SpeechBackend>(
    before: B,
    preferred: Seq<char>,
    fallback: Seq<char>,
    after: B,
    failure: Option<RaflowError>,
)
    requires
        starts_with_fallback(before, preferred, fallback, after, failure),
        forall|mid: B, r: Result<(), RaflowError>| #[trigger]
            B::starts(before, preferred, mid, r) ==> r is Err,
        preferred == fallback || forall|mid: B, r: Result<(), RaflowError>| #[trigger]
            B::starts(before, preferred, mid, r) ==> !(r matches Err(
                RaflowError::SpeechUnavailable { .. },
            )),
    ensures
        failure is Some,
        B::starts(before, preferred, after, Err(failure->0)),
{
}

/// A recogniser that is stopped has been told first that recording ends, and has made its last
/// phrase final; where that fails it is not stopped, and the failure is told.
pub proof fn last_phrase_is_final_before_stopping<B: SpeechBackend>(
    before: B,
    after: B,
    failure: Option<RaflowError>,
)
    requires
        stops_after_flush(before, after, failure),
    ensures
        failure is None ==> exists|
            mid: B,
            flushed: Result<(), RaflowError>,
            stopped: Result<(), RaflowError>,
        |
            {
                &&& #[trigger] B::ticks(before, true, mid, flushed) && flushed is Ok
                &&& #[trigger] B::stops(mid, after, stopped) && stopped is Ok
            },
        (forall|mid: B, r: Result<(), RaflowError>| #[trigger]
            B::ticks(before, true, mid, r) ==> r is Err) ==> failure is Some && B::ticks(
            before,
            true,
            after,
            Err(failure->0),
        ),
{
}

/// Starts and stops sessions as the key is pressed. Updates of its own are kept until they are
/// taken.
pub struct App<B: SpeechBackend, P: LocaleProvider> {
    session: Session<B>,
    recording: bool,
    provider: P,
    fallback_locale: String,
    outbox: Vec<TranscriptUpdate>,
}

impl<B: SpeechBackend> App<B, FixedLocale> {
    /// Every session is in the same language.
    pub fn new(backend: B, locale: String) -> (a: Self)
        ensures
            a.wf(),
            !a.recording(),
            a.backend() == backend,
            a.provider().locale@ == locale@,
            a.fallback() == locale@,
            a.outbox().len() == 0,
    {
        let fallback = locale.clone();
        App::with_locale_provider(backend, FixedLocale { locale }, fallback)
    }
}

impl<B: SpeechBackend, P: LocaleProvider> App<B, P> {
    pub closed spec fn backend(&self) -> B {
        self.session.backend()
    }

    /// A session is being recorded.
    pub closed spec fn recording(&self) -> bool {
        self.recording
    }

    pub closed spec fn provider(&self) -> P {
        self.provider
    }

    /// The locale to fall back on.
    pub closed spec fn fallback(&self) -> Seq<char> {
        self.fallback_locale@
    }

    /// The updates that have not been taken yet.
    pub closed spec fn outbox(&self) -> Seq<TranscriptUpdate> {
        self.outbox@
    }

    /// The recogniser listens exactly while a session is recorded.
    pub closed spec fn wf(&self) -> bool {
        self.recording == self.session.streaming()
    }

    /// `provider` is asked for the language of each session; `fallback_locale` is for languages
    /// that the recogniser does not serve.
    pub fn with_locale_provider(backend: B, provider: P, fallback_locale: String) -> (a: Self)
        ensures
            a.wf(),
            !a.recording(),
            a.backend() == backend,
            a.provider() == provider,
            a.fallback() == fallback_locale@,
            a.outbox().len() == 0,
    {
        App {
            session: Session::new(backend),
            recording: false,
            provider,
            fallback_locale,
            outbox: Vec::new(),
        }
    }

    /// Whether a session is being recorded.
    pub fn is_recording(&self) -> (b: bool)
        ensures
            b == self.recording(),
    {
        self.recording
    }

    /// Takes the updates that have come up since the last time.
    pub fn take_updates(&mut self) -> (updates: Vec<TranscriptUpdate>)
        requires
            old(self).wf(),
        ensures
            updates@ == old(self).outbox(),
            final(self).outbox() == Seq::<TranscriptUpdate>::empty(),
            final(self).wf(),
            final(self).recording() == old(self).recording(),
            final(self).backend() == old(self).backend(),
            final(self).provider() == old(self).provider(),
            final(self).fallback() == old(self).fallback(),
    {
        let mut updates: Vec<TranscriptUpdate> = Vec::new();
        updates.append(&mut self.outbox);
        assert(updates@ == old(self).outbox());
        updates
    }

    /// A press starts a session, or stops the one that is being recorded; a release does nothing.
    /// The start of a session is announced by an update of its own.
    pub fn on_hotkey(&mut self, event: HotkeyEvent) -> (r: Result<Transition, RaflowError>)
        requires
            old(self).wf(),
        ensures
            final(self).wf(),
            final(self).provider() == old(self).provider(),
            final(self).fallback() == old(self).fallback(),
            match (event, old(self).recording()) {
                (HotkeyEvent::Released, _) => r == Ok::<Transition, RaflowError>(Transition::Unchanged)
                    && *final(self) == *old(self),
                (HotkeyEvent::Pressed, false) => {
                    &&& starts_as_preferred(
                        old(self).provider(),
                        old(self).backend(),
                        old(self).fallback(),
                        final(self).backend(),
                        failure_of(r),
                    )
                    &&& final(self).recording() == (r is Ok)
                    &&& r matches Ok(t) ==> t == Transition::StartRecording
                    &&& r is Err ==> final(self).outbox() == old(self).outbox()
                    &&& r is Ok ==> {
                        &&& final(self).outbox().len() == old(self).outbox().len() + 1
                        &&& final(self).outbox().drop_last() == old(self).outbox()
                        &&& final(self).outbox().last() matches TranscriptUpdate::SessionStarted {
                            rolling,
                        }
                        &&& final(self).backend().may_roll(rolling)
                    }
                },
                (HotkeyEvent::Pressed, true) => {
                    &&& stops_after_flush(old(self).backend(), final(self).backend(), failure_of(r))
                    &&& final(self).recording() == (r is Err)
                    &&& r matches Ok(t) ==> t == Transition::StopRecording
                    &&& final(self).outbox() == old(self).outbox()
                },
            },
    {
        match event {
            HotkeyEvent::Released => Ok(Transition::Unchanged),
            HotkeyEvent::Pressed => {
                if !self.recording {
                    let ghost b0 = self.session.backend();
                    let preferred = self.provider.preferred();
                    let first = self.session.start(preferred.as_str());
                    let ghost mid = self.session.backend();
                    assert(B::starts(b0, preferred@, mid, first));
                    match first {
                        Ok(()) => {},
                        Err(e) => {
                            let unavailable = match &e {
                                RaflowError::SpeechUnavailable { .. } => true,
                                _ => false,
                            };
                            let same = same_text(preferred.as_str(), self.fallback_locale.as_str());
                            if !(unavailable && !same) {
                                let failed: Result<Transition, RaflowError> = Err(e);
                                assert(starts_with_fallback(
                                    b0,
                                    preferred@,
                                    self.fallback_locale@,
                                    mid,
                                    failure_of(failed),
                                ));
                                assert(starts_as_preferred(
                                    self.provider,
                                    b0,
                                    self.fallback_locale@,
                                    mid,
                                    failure_of(failed),
                                ));
                                return failed;
                            }
                            let second = self.session.start(self.fallback_locale.as_str());
                            let ghost end = self.session.backend();
                            assert(B::starts(mid, self.fallback_locale@, end, second));
                            match second {
                                Ok(()) => {},
                                Err(e2) => {
                                    let failed: Result<Transition, RaflowError> = Err(e2);
                                    assert(starts_with_fallback(
                                        b0,
                                        preferred@,
                                        self.fallback_locale@,
                                        end,
                                        failure_of(failed),
                                    ));
                                    assert(starts_as_preferred(
                                        self.provider,
                                        b0,
                                        self.fallback_locale@,
                                        end,
                                        failure_of(failed),
                                    ));
                                    return failed;
                                },
                            }
                        },
                    }
                    assert(starts_with_fallback(
                        b0,
                        preferred@,
                        self.fallback_locale@,
                        self.session.backend(),
                        None,
                    ));
                    self.recording = true;
                    let rolling = self.session.is_rolling();
                    self.outbox.push(TranscriptUpdate::SessionStarted { rolling });
                    Ok(Transition::StartRecording)
                } else {
                    let ghost b0 = self.session.backend();
                    let flushed = self.session.rolling_tick(true);
                    let ghost mid = self.session.backend();
                    assert(B::ticks(b0, true, mid, flushed));
                    match flushed {
                        Ok(()) => {},
                        Err(e) => {
                            return Err(e);
                        },
                    }
                    let stopped = self.session.stop();
                    assert(B::stops(mid, self.session.backend(), stopped));
                    match stopped {
                        Ok(()) => {},
                        Err(e) => {
                            return Err(e);
                        },
                    }
                    self.recording = false;
                    Ok(Transition::StopRecording)
                }
            },
        }
    }

    /// Hears a frame; one that comes while nothing is recorded is dropped.
    pub fn on_audio_frame(&mut self, frame: &AudioFrame) -> (r: Result<(), RaflowError>)
        requires
            old(self).wf(),
        ensures
            final(self).wf(),
            final(self).recording() == old(self).recording(),
            final(self).provider() == old(self).provider(),
            final(self).fallback() == old(self).fallback(),
            final(self).outbox() == old(self).outbox(),
            if old(self).recording() {
                B::hears(old(self).backend(), *frame, final(self).backend(), r)
            } else {
                r is Ok && final(self).backend() == old(self).backend()
            },
    {
        self.session.push_frame(frame)
    }

    /// Makes a phrase final where there is one; nothing while nothing is recorded.
    pub fn on_rolling_tick(&mut self, is_final: bool) -> (r: Result<(), RaflowError>)
        requires
            old(self).wf(),
        ensures
            final(self).wf(),
            final(self).recording() == old(self).recording(),
            final(self).provider() == old(self).provider(),
            final(self).fallback() == old(self).fallback(),
            final(self).outbox() == old(self).outbox(),
            if old(self).recording() {
                B::ticks(old(self).backend(), is_final, final(self).backend(), r)
            } else {
                r is Ok && final(self).backend() == old(self).backend()
            },
    {
        self.session.rolling_tick(is_final)
    }
}

} // verus!
