//! Phrases on their way into the text field, and the guard over the focus.

use raflow::printer::{FocusGuard, PhraseEvent, PhrasePrinter};
use raflow::stream::StreamDiff;

fn diff(backspace: usize, append: &str) -> StreamDiff {
    StreamDiff {
        backspace,
        append: append.to_string(),
    }
}

#[test]
fn phrase_printer_rolling_sequence() {
    let mut p = PhrasePrinter::new();

    assert_eq!(p.apply(PhraseEvent::Partial("你好")), diff(0, "你好"));
    assert_eq!(p.apply(PhraseEvent::Partial("你好世界")), diff(0, "世界"));

    assert_eq!(
        p.apply(PhraseEvent::PhraseFinal("你好，世界")),
        diff(2, "，世界")
    );
    assert_eq!(p.committed(), "你好，世界");
    assert_eq!(p.last_partial(), "");

    assert_eq!(p.apply(PhraseEvent::Partial("再見")), diff(0, "再見"));
    assert_eq!(p.apply(PhraseEvent::Final("再見。")), diff(0, "。"));
    assert_eq!(p.committed(), "你好，世界再見。");
    assert_eq!(p.last_partial(), "");
}

#[test]
fn phrase_printer_backspace_never_exceeds_last_partial() {
    let cases: &[(&str, &str)] = &[
        ("當前草稿很長很長很長", "短"),
        ("abc", "完全不同"),
        ("", "從空草稿定稿"),
        ("重疊前綴xyz", "重疊前綴123"),
    ];
    for (draft, finalized) in cases {
        let mut p = PhrasePrinter::new();
        p.apply(PhraseEvent::PhraseFinal("已鎖定的第一句很長"));
        let before_len = draft.chars().count();
        p.apply(PhraseEvent::Partial(draft));
        let d = p.apply(PhraseEvent::PhraseFinal(finalized));
        assert!(
            d.backspace <= before_len,
            "backspace {} 超過當前草稿長度 {} (draft={draft:?})",
            d.backspace,
            before_len
        );
    }
}

#[test]
fn phrase_printer_reset_events_are_noop_and_clear_state() {
    for reset in [PhraseEvent::SessionStarted, PhraseEvent::Error] {
        let mut p = PhrasePrinter::new();
        p.apply(PhraseEvent::Partial("草稿"));
        p.apply(PhraseEvent::PhraseFinal("鎖定句"));
        let d = p.apply(reset);
        assert_eq!(d, diff(0, ""), "reset 應為 no-op");
        assert_eq!(p.committed(), "");
        assert_eq!(p.last_partial(), "");
    }
}

#[test]
fn focus_guard_decision_table() {
    type Step = (Option<i32>, bool);
    let cases: &[(&str, Option<i32>, &[Step])] = &[
        (
            "same pid keeps injecting",
            Some(100),
            &[(Some(100), true), (Some(100), true)],
        ),
        (
            "pid change blocks",
            Some(100),
            &[(Some(100), true), (Some(200), false)],
        ),
        (
            "latched: back to original still blocked",
            Some(100),
            &[(Some(200), false), (Some(100), false)],
        ),
        (
            "latched: unknown current still blocked",
            Some(100),
            &[(Some(200), false), (None, false)],
        ),
        (
            "unknown session pid fails open",
            None,
            &[(Some(100), true), (Some(200), true)],
        ),
        (
            "unknown current pid fails open (transient AX failure)",
            Some(100),
            &[(None, true), (Some(100), true)],
        ),
    ];
    for (label, session_pid, steps) in cases {
        let mut guard = FocusGuard::new();
        guard.session_started(*session_pid);
        for (i, (current, expected)) in steps.iter().enumerate() {
            assert_eq!(
                guard.should_inject(*current),
                *expected,
                "{label}: step {i} current={current:?}"
            );
        }
    }
}

#[test]
fn focus_guard_new_session_resets_latch() {
    let mut guard = FocusGuard::new();
    guard.session_started(Some(100));
    assert!(!guard.latched(), "fresh session starts unlatched");
    assert!(!guard.should_inject(Some(200)), "first session latches");
    assert!(guard.latched(), "pid mismatch latches");
    guard.session_started(Some(200));
    assert!(!guard.latched(), "new session resets latch");
    assert!(
        guard.should_inject(Some(200)),
        "new session with new baseline injects again"
    );
}
