//! A recogniser that is listening or is not.

use std::cell::RefCell;
use std::rc::Rc;

use raflow::audio::AudioFrame;
use raflow::error::RaflowError;
use raflow::session::{Session, SpeechBackend};

#[derive(Debug, Clone, PartialEq, Eq)]
enum FakeEvent {
    Started(String),
    Frame(usize),
    Stopped,
    RollingTick(bool),
}

#[derive(Clone)]
struct FakeBackend {
    events: Rc<RefCell<Vec<FakeEvent>>>,
    start_error: Rc<RefCell<Option<RaflowError>>>,
}

impl FakeBackend {
    fn new() -> Self {
        Self {
            events: Rc::new(RefCell::new(Vec::new())),
            start_error: Rc::new(RefCell::new(None)),
        }
    }

    fn with_start_error(err: RaflowError) -> Self {
        let backend = Self::new();
        *backend.start_error.borrow_mut() = Some(err);
        backend
    }

    fn events(&self) -> Vec<FakeEvent> {
        self.events.borrow().clone()
    }
}

impl SpeechBackend for FakeBackend {
    fn start(&mut self, locale: &str) -> Result<(), RaflowError> {
        if let Some(err) = self.start_error.borrow_mut().take() {
            return Err(err);
        }
        self.events
            .borrow_mut()
            .push(FakeEvent::Started(locale.to_string()));
        Ok(())
    }

    fn push_frame(&mut self, frame: &AudioFrame) -> Result<(), RaflowError> {
        self.events
            .borrow_mut()
            .push(FakeEvent::Frame(frame.pcm.len()));
        Ok(())
    }

    fn stop(&mut self) -> Result<(), RaflowError> {
        self.events.borrow_mut().push(FakeEvent::Stopped);
        Ok(())
    }

    fn rolling_tick(&mut self, is_final: bool) -> Result<(), RaflowError> {
        self.events
            .borrow_mut()
            .push(FakeEvent::RollingTick(is_final));
        Ok(())
    }

    fn session_rolling(&self) -> bool {
        false
    }
}

fn sample_frame() -> AudioFrame {
    AudioFrame {
        pcm: vec![0; 320],
        sample_rate: 16_000,
    }
}

#[test]
fn start_transitions_idle_to_streaming_and_calls_backend() {
    let backend = FakeBackend::new();
    let mut session = Session::new(backend.clone());
    assert!(session.start("zh-TW").is_ok());
    assert!(session.is_streaming());
    assert_eq!(
        backend.events(),
        vec![FakeEvent::Started("zh-TW".into())]
    );
}

#[test]
fn double_start_returns_busy_without_touching_backend() {
    let backend = FakeBackend::new();
    let mut session = Session::new(backend.clone());
    assert!(session.start("zh-TW").is_ok());
    let result = session.start("zh-TW");
    assert!(matches!(result, Err(RaflowError::SpeechBusy)));
    assert_eq!(
        backend.events(),
        vec![FakeEvent::Started("zh-TW".into())]
    );
}

#[test]
fn start_error_leaves_session_idle() {
    let mut session = Session::new(FakeBackend::with_start_error(
        RaflowError::SpeechUnavailable {
            locale: "zh-TW".into(),
        },
    ));
    let result = session.start("zh-TW");
    assert!(matches!(result, Err(RaflowError::SpeechUnavailable { .. })));
    assert!(!session.is_streaming());
}

#[test]
fn push_frame_forwards_only_when_streaming() {
    let cases = [
        (false, 0, "idle drops frames silently"),
        (true, 1, "streaming forwards to backend"),
    ];
    for (start_first, expected_forwards, label) in cases {
        let backend = FakeBackend::new();
    let mut session = Session::new(backend.clone());
        if start_first {
            assert!(session.start("zh-TW").is_ok(), "{label}");
        }
        let frame = sample_frame();
        assert!(session.push_frame(&frame).is_ok(), "{label}");

        let frame_count = backend
            .events()
            .iter()
            .filter(|ev| matches!(ev, FakeEvent::Frame(_)))
            .count();
        assert_eq!(frame_count, expected_forwards, "{label}");
    }
}

#[test]
fn stop_transitions_to_idle_and_permits_restart() {
    let backend = FakeBackend::new();
    let mut session = Session::new(backend.clone());
    assert!(session.start("zh-TW").is_ok());
    assert!(session.stop().is_ok());
    assert!(!session.is_streaming());

    assert!(session.start("zh-TW").is_ok());
    assert!(session.is_streaming());
    assert_eq!(
        backend.events(),
        vec![
            FakeEvent::Started("zh-TW".into()),
            FakeEvent::Stopped,
            FakeEvent::Started("zh-TW".into()),
        ]
    );
}

#[test]
fn rolling_tick_forwards_only_when_streaming() {
    let cases = [
        (false, 0, "idle drops rolling tick"),
        (true, 1, "streaming forwards rolling tick"),
    ];
    for (start_first, expected_forwards, label) in cases {
        let backend = FakeBackend::new();
    let mut session = Session::new(backend.clone());
        if start_first {
            assert!(session.start("zh-TW").is_ok(), "{label}");
        }
        assert!(session.rolling_tick(false).is_ok(), "{label}");
        assert!(session.rolling_tick(true).is_ok(), "{label}");

        let tick_count = backend
            .events()
            .iter()
            .filter(|ev| matches!(ev, FakeEvent::RollingTick(_)))
            .count();
        assert_eq!(tick_count, expected_forwards * 2, "{label}");
    }
}

#[test]
fn stop_in_idle_is_noop() {
    let backend = FakeBackend::new();
    let mut session = Session::new(backend.clone());
    assert!(session.stop().is_ok());
    assert!(!session.is_streaming());
    assert_eq!(backend.events(), vec![]);
}
