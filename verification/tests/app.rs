//! The key that starts and stops recordings.

use std::cell::{Cell, RefCell};
use std::rc::Rc;

use raflow::audio::AudioFrame;
use raflow::error::RaflowError;
use raflow::hotkey::HotkeyEvent;
use raflow::session::{App, FixedLocale, LocaleProvider, SpeechBackend, Transition};
use raflow::transcript::TranscriptUpdate;

#[derive(Debug, Clone, PartialEq, Eq)]
enum FakeEvent {
    Started(String),
    Frame(usize),
    Stopped,
    RollingTick(bool),
}

#[derive(Default)]
struct FakeInner {
    events: Vec<FakeEvent>,
    start_error: Option<RaflowError>,
    unavailable: Vec<String>,
    attempts: Vec<String>,
    rolling: bool,
}

#[derive(Clone, Default)]
struct FakeBackend {
    inner: Rc<RefCell<FakeInner>>,
}

impl FakeBackend {
    fn new() -> Self {
        Self::default()
    }

    fn with_start_error(err: RaflowError) -> Self {
        let fb = Self::new();
        fb.inner.borrow_mut().start_error = Some(err);
        fb
    }

    fn with_unavailable(locales: &[&str]) -> Self {
        let fb = Self::new();
        fb.inner.borrow_mut().unavailable = locales.iter().map(|l| l.to_string()).collect();
        fb
    }

    fn events(&self) -> Vec<FakeEvent> {
        self.inner.borrow().events.clone()
    }

    fn attempts(&self) -> Vec<String> {
        self.inner.borrow().attempts.clone()
    }
}

impl SpeechBackend for FakeBackend {
    fn start(&mut self, locale: &str) -> Result<(), RaflowError> {
        let mut inner = self.inner.borrow_mut();
        inner.attempts.push(locale.to_string());
        if let Some(err) = inner.start_error.take() {
            return Err(err);
        }
        if inner.unavailable.iter().any(|l| l == locale) {
            return Err(RaflowError::SpeechUnavailable {
                locale: locale.to_string(),
            });
        }
        inner.events.push(FakeEvent::Started(locale.to_string()));
        Ok(())
    }

    fn push_frame(&mut self, frame: &AudioFrame) -> Result<(), RaflowError> {
        self.inner
            .borrow_mut()
            .events
            .push(FakeEvent::Frame(frame.pcm.len()));
        Ok(())
    }

    fn stop(&mut self) -> Result<(), RaflowError> {
        self.inner.borrow_mut().events.push(FakeEvent::Stopped);
        Ok(())
    }

    fn rolling_tick(&mut self, is_final: bool) -> Result<(), RaflowError> {
        self.inner
            .borrow_mut()
            .events
            .push(FakeEvent::RollingTick(is_final));
        Ok(())
    }

    fn session_rolling(&self) -> bool {
        self.inner.borrow().rolling
    }
}

struct English;

impl LocaleProvider for English {
    fn preferred(&self) -> String {
        "en-US".to_string()
    }
}

struct ChineseOnce {
    calls: Rc<Cell<usize>>,
}

impl LocaleProvider for ChineseOnce {
    fn preferred(&self) -> String {
        let n = self.calls.get();
        self.calls.set(n + 1);
        if n == 0 {
            "zh-TW".to_string()
        } else {
            "en-US".to_string()
        }
    }
}

fn sample_frame() -> AudioFrame {
    AudioFrame {
        pcm: vec![0; 320],
        sample_rate: 16_000,
    }
}

fn fresh_app(fake: FakeBackend) -> App<FakeBackend, FixedLocale> {
    App::new(fake, "zh-TW".to_string())
}

#[test]
fn initial_state_is_idle() {
    let app = fresh_app(FakeBackend::new());
    assert!(!app.is_recording());
}

#[test]
fn pressed_toggles_between_idle_and_recording() {
    let fake = FakeBackend::new();
    let mut app = fresh_app(fake.clone());

    let cases = [
        (HotkeyEvent::Pressed, Transition::StartRecording, true),
        (HotkeyEvent::Pressed, Transition::StopRecording, false),
        (HotkeyEvent::Pressed, Transition::StartRecording, true),
        (HotkeyEvent::Pressed, Transition::StopRecording, false),
    ];
    for (event, expected_transition, expected_recording) in cases {
        let t = app.on_hotkey(event).expect("hotkey handling failed");
        assert_eq!(t, expected_transition);
        assert_eq!(app.is_recording(), expected_recording);
    }

    assert_eq!(
        fake.events(),
        vec![
            FakeEvent::Started("zh-TW".into()),
            FakeEvent::RollingTick(true),
            FakeEvent::Stopped,
            FakeEvent::Started("zh-TW".into()),
            FakeEvent::RollingTick(true),
            FakeEvent::Stopped,
        ],
    );
}

#[test]
fn released_is_ignored_in_both_states() {
    let fake = FakeBackend::new();
    let mut app = fresh_app(fake.clone());

    let released_idle = app.on_hotkey(HotkeyEvent::Released).unwrap();
    assert_eq!(released_idle, Transition::Unchanged);
    assert!(!app.is_recording());

    app.on_hotkey(HotkeyEvent::Pressed).unwrap();
    let released_recording = app.on_hotkey(HotkeyEvent::Released).unwrap();
    assert_eq!(released_recording, Transition::Unchanged);
    assert!(app.is_recording(), "Released must not stop recording");

    assert_eq!(fake.events(), vec![FakeEvent::Started("zh-TW".into())]);
}

#[test]
fn audio_frames_forward_only_when_recording() {
    let fake = FakeBackend::new();
    let mut app = fresh_app(fake.clone());
    let frame = sample_frame();

    app.on_audio_frame(&frame).unwrap();

    app.on_hotkey(HotkeyEvent::Pressed).unwrap();
    app.on_audio_frame(&frame).unwrap();
    app.on_audio_frame(&frame).unwrap();

    app.on_hotkey(HotkeyEvent::Pressed).unwrap();
    app.on_audio_frame(&frame).unwrap();

    assert_eq!(
        fake.events(),
        vec![
            FakeEvent::Started("zh-TW".into()),
            FakeEvent::Frame(320),
            FakeEvent::Frame(320),
            FakeEvent::RollingTick(true),
            FakeEvent::Stopped,
        ],
    );
}

#[test]
fn start_error_leaves_app_idle_and_allows_retry() {
    let fake = FakeBackend::with_start_error(RaflowError::SpeechUnavailable {
        locale: "zh-TW".into(),
    });
    let mut app = fresh_app(fake.clone());

    let err = app.on_hotkey(HotkeyEvent::Pressed).unwrap_err();
    assert!(matches!(err, RaflowError::SpeechUnavailable { .. }));
    assert!(!app.is_recording(), "failed start must keep us in Idle");

    let retry = app.on_hotkey(HotkeyEvent::Pressed).unwrap();
    assert_eq!(retry, Transition::StartRecording);
    assert!(app.is_recording());

    assert_eq!(fake.events(), vec![FakeEvent::Started("zh-TW".into())]);
}

#[test]
fn session_started_emitted_only_on_start_recording() {
    let mut app = App::new(FakeBackend::new(), "zh-TW".into());

    app.on_hotkey(HotkeyEvent::Released).unwrap();
    assert!(app.take_updates().is_empty(), "Released in Idle must not emit");

    app.on_hotkey(HotkeyEvent::Pressed).unwrap();
    assert_eq!(
        app.take_updates(),
        vec![TranscriptUpdate::SessionStarted { rolling: false }],
        "Idle → Recording must emit SessionStarted exactly once",
    );
    assert!(app.take_updates().is_empty(), "no extra emission");

    app.on_hotkey(HotkeyEvent::Released).unwrap();
    assert!(
        app.take_updates().is_empty(),
        "Released in Recording must not emit"
    );

    app.on_hotkey(HotkeyEvent::Pressed).unwrap();
    assert!(
        app.take_updates().is_empty(),
        "Recording → Idle must NOT emit SessionStarted",
    );

    app.on_hotkey(HotkeyEvent::Pressed).unwrap();
    assert_eq!(
        app.take_updates(),
        vec![TranscriptUpdate::SessionStarted { rolling: false }],
        "second Idle → Recording must emit SessionStarted again",
    );
}

#[test]
fn session_started_not_emitted_when_start_fails() {
    let fake = FakeBackend::with_start_error(RaflowError::SpeechUnavailable {
        locale: "zh-TW".into(),
    });
    let mut app = App::new(fake, "zh-TW".into());

    let _ = app.on_hotkey(HotkeyEvent::Pressed).unwrap_err();
    assert!(
        app.take_updates().is_empty(),
        "failed StartRecording must not emit SessionStarted",
    );

    app.on_hotkey(HotkeyEvent::Pressed).unwrap();
    assert_eq!(
        app.take_updates(),
        vec![TranscriptUpdate::SessionStarted { rolling: false }]
    );
}

#[test]
fn stop_flushes_rolling_before_stopping() {
    let fake = FakeBackend::new();
    let mut app = fresh_app(fake.clone());

    app.on_hotkey(HotkeyEvent::Pressed).unwrap();
    app.on_hotkey(HotkeyEvent::Pressed).unwrap();

    assert_eq!(
        fake.events(),
        vec![
            FakeEvent::Started("zh-TW".into()),
            FakeEvent::RollingTick(true),
            FakeEvent::Stopped,
        ],
        "stop 前必須先 rolling_tick(true)",
    );
}

#[test]
fn periodic_rolling_tick_forwards_only_when_recording() {
    let fake = FakeBackend::new();
    let mut app = fresh_app(fake.clone());

    app.on_rolling_tick(false).unwrap();
    app.on_hotkey(HotkeyEvent::Pressed).unwrap();
    app.on_rolling_tick(false).unwrap();

    let ticks: Vec<_> = fake
        .events()
        .into_iter()
        .filter(|e| matches!(e, FakeEvent::RollingTick(_)))
        .collect();
    assert_eq!(
        ticks,
        vec![FakeEvent::RollingTick(false)],
        "idle tick 不可轉發"
    );
}

#[test]
fn locale_provider_value_is_passed_to_backend_start() -> Result<(), RaflowError> {
    let fake = FakeBackend::new();
    let mut app = App::with_locale_provider(
        fake.clone(),
        English,
        "zh-TW".to_string(),
    );

    app.on_hotkey(HotkeyEvent::Pressed)?;

    assert_eq!(fake.events(), vec![FakeEvent::Started("en-US".into())]);
    Ok(())
}

#[test]
fn locale_provider_is_read_on_each_start() -> Result<(), RaflowError> {
    let calls = Rc::new(Cell::new(0));
    let fake = FakeBackend::new();
    let mut app = App::with_locale_provider(
        fake.clone(),
        ChineseOnce {
            calls: calls.clone(),
        },
        "zh-TW".to_string(),
    );

    app.on_hotkey(HotkeyEvent::Pressed)?;
    app.on_hotkey(HotkeyEvent::Pressed)?;
    app.on_hotkey(HotkeyEvent::Pressed)?;

    assert_eq!(
        calls.get(),
        2,
        "provider read once per start"
    );
    assert_eq!(
        fake.events(),
        vec![
            FakeEvent::Started("zh-TW".into()),
            FakeEvent::RollingTick(true),
            FakeEvent::Stopped,
            FakeEvent::Started("en-US".into()),
        ],
    );
    Ok(())
}

#[test]
fn falls_back_to_fallback_locale_when_preferred_unavailable() -> Result<(), RaflowError> {
    let fake = FakeBackend::with_unavailable(&["en-US"]);
    let mut app = App::with_locale_provider(
        fake.clone(),
        English,
        "zh-TW".to_string(),
    );

    let t = app.on_hotkey(HotkeyEvent::Pressed)?;

    assert_eq!(t, Transition::StartRecording);
    assert!(app.is_recording(), "fallback 成功後應進入 Recording");
    assert_eq!(
        fake.attempts(),
        vec!["en-US".to_string(), "zh-TW".to_string()],
        "必須先試 preferred(en-US) 再退回 fallback(zh-TW)",
    );
    assert_eq!(
        fake.events(),
        vec![FakeEvent::Started("zh-TW".into())],
        "只有 fallback 成功啟動",
    );
    Ok(())
}

#[test]
fn start_fails_when_both_preferred_and_fallback_unavailable() {
    let fake = FakeBackend::with_unavailable(&["en-US", "zh-TW"]);
    let mut app = App::with_locale_provider(
        fake.clone(),
        English,
        "zh-TW".to_string(),
    );

    let result = app.on_hotkey(HotkeyEvent::Pressed);

    assert!(
        matches!(result, Err(RaflowError::SpeechUnavailable { .. })),
        "expected SpeechUnavailable, got {result:?}",
    );
    assert!(!app.is_recording(), "兩者皆失敗必須留在 Idle");
    assert_eq!(
        fake.attempts(),
        vec!["en-US".to_string(), "zh-TW".to_string()],
        "兩個 locale 都試過",
    );
    assert!(app.take_updates().is_empty(), "完全失敗不可送 SessionStarted",);
}
