//! Errors, frames, key events and transcript updates.

use raflow::audio::AudioFrame;
use raflow::error::RaflowError;
use raflow::hotkey::HotkeyEvent;
use raflow::transcript::TranscriptUpdate;

fn sample_config_load_err() -> RaflowError {
    RaflowError::ConfigLoad {
        path: "/tmp/missing.toml".to_string(),
        source: "not found".to_string(),
    }
}

#[test]
fn frame_holds_pcm_and_rate() {
    let frame = AudioFrame {
        pcm: vec![0, 1, -1],
        sample_rate: 16_000,
    };
    assert_eq!(frame.pcm.len(), 3);
    assert_eq!(frame.sample_rate, 16_000);
}

#[test]
fn frame_equality_requires_matching_rate_and_pcm() {
    let a = AudioFrame {
        pcm: vec![0, 1],
        sample_rate: 16_000,
    };
    let b = AudioFrame {
        pcm: vec![0, 1],
        sample_rate: 16_000,
    };
    let c = AudioFrame {
        pcm: vec![0, 1],
        sample_rate: 48_000,
    };
    assert_eq!(a, b);
    assert_ne!(a, c);
}

#[test]
fn config_load_display_contains_path() {
    let err = sample_config_load_err();
    assert!(
        err.message().contains("/tmp/missing.toml"),
        "display should embed the failing path, got: {err:?}"
    );
}

#[test]
fn config_load_preserves_source_chain() {
    let err = sample_config_load_err();
    assert!(
        err.source().is_some(),
        "#[source] must expose the underlying io::Error"
    );
}

#[test]
fn hotkey_register_display_contains_detail() {
    let err = RaflowError::HotkeyRegister {
        detail: "already registered".to_string(),
    };
    assert!(
        err.message().contains("already registered"),
        "display should embed the failure detail, got: {err:?}"
    );
}

#[test]
fn audio_capture_display_contains_detail() {
    let err = RaflowError::AudioCapture {
        detail: "no default input device".to_string(),
    };
    assert!(
        err.message().contains("no default input device"),
        "display should embed the failure detail, got: {err:?}"
    );
}

#[test]
fn speech_error_displays_have_expected_shape() {
    let cases: Vec<(RaflowError, &str)> = vec![
        (
            RaflowError::SpeechAuthorization {
                status: "denied".into(),
            },
            "denied",
        ),
        (
            RaflowError::SpeechUnavailable {
                locale: "zh-TW".into(),
            },
            "zh-TW",
        ),
        (RaflowError::SpeechBusy, "already running"),
    ];
    for (err, needle) in cases {
        assert!(
            err.message().contains(needle),
            "display should embed {needle:?}, got: {err:?}"
        );
    }
}

#[test]
fn text_inject_display_contains_detail() {
    let err = RaflowError::TextInject {
        detail: "accessibility permission denied".into(),
    };
    assert!(
        err.message().contains("accessibility permission denied"),
        "display should embed injection failure detail, got: {err:?}"
    );
}

#[test]
fn clipboard_write_display_contains_detail() {
    let err = RaflowError::ClipboardWrite {
        detail: "NSPasteboard unavailable".into(),
    };
    assert!(
        err.message().contains("NSPasteboard unavailable"),
        "display should embed clipboard failure detail, got: {err:?}"
    );
}

#[test]
fn whisper_errors_have_expected_shape() {
    let cases: Vec<(RaflowError, &str)> = vec![
        (
            RaflowError::WhisperModelMissing {
                path: "/Users/me/models/ggml-small.bin".to_string(),
            },
            "/Users/me/models/ggml-small.bin",
        ),
        (
            RaflowError::WhisperLoad {
                detail: "ggml format invalid".into(),
            },
            "ggml format invalid",
        ),
        (
            RaflowError::WhisperInference {
                detail: "decoder OOM".into(),
            },
            "decoder OOM",
        ),
    ];
    for (err, needle) in cases {
        assert!(
            err.message().contains(needle),
            "display should embed {needle:?}, got: {err:?}"
        );
    }
}

#[test]
fn variants_are_distinct() {
    assert_ne!(HotkeyEvent::Pressed, HotkeyEvent::Released);
}

#[test]
fn is_copy_and_eq() {
    let a = HotkeyEvent::Pressed;
    let b = a;
    assert_eq!(a, b);
}

#[test]
fn variants_preserve_their_payload() {
    let cases = [
        TranscriptUpdate::Partial("你好".into()),
        TranscriptUpdate::Final("你好世界".into()),
        TranscriptUpdate::Error("network offline".into()),
    ];
    for original in &cases {
        let clone = original.clone();
        assert_eq!(&clone, original);
    }
}

#[test]
fn partial_and_final_with_same_text_are_distinct() {
    let a = TranscriptUpdate::Partial("hi".into());
    let b = TranscriptUpdate::Final("hi".into());
    assert_ne!(a, b);
}

#[test]
fn session_started_carries_rolling_flag() {
    let a = TranscriptUpdate::SessionStarted { rolling: true };
    assert_eq!(a.clone(), a);
    assert_ne!(
        TranscriptUpdate::SessionStarted { rolling: true },
        TranscriptUpdate::SessionStarted { rolling: false },
    );
    assert_ne!(a, TranscriptUpdate::Partial(String::new()));
    assert_ne!(a, TranscriptUpdate::Final(String::new()));
}

#[test]
fn phrase_final_is_distinct_from_partial_and_final() {
    let pf = TranscriptUpdate::PhraseFinal("你好，世界".into());
    assert_eq!(pf.clone(), pf);
    assert_ne!(pf, TranscriptUpdate::Partial("你好，世界".into()));
    assert_ne!(pf, TranscriptUpdate::Final("你好，世界".into()));
    match pf {
        TranscriptUpdate::PhraseFinal(t) => assert_eq!(t, "你好，世界"),
        other => panic!("expected PhraseFinal, got {other:?}"),
    }
}

#[test]
fn every_error_has_its_message() {
    let s = |t: &str| t.to_string();
    let cases = [
        (
            RaflowError::ConfigWrite {
                path: s("/x"),
                source: s("disk full"),
            },
            "failed to write config to /x",
            Some("disk full"),
        ),
        (
            RaflowError::ConfigLoad {
                path: s("/x"),
                source: s("not found"),
            },
            "failed to load config from /x",
            Some("not found"),
        ),
        (
            RaflowError::InvalidReplacement { detail: s("d") },
            "invalid replacement: d",
            None,
        ),
        (
            RaflowError::SpeechBusy,
            "speech session is already running",
            None,
        ),
        (
            RaflowError::WhisperModelMissing { path: s("/m") },
            "whisper model not found at /m",
            None,
        ),
    ];
    for (err, message, source) in cases {
        assert_eq!(err.message(), message);
        assert_eq!(err.source().map(String::as_str), source);
    }
}
