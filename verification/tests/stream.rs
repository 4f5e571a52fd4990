//! Typing what has changed.

use raflow::error::RaflowError;
use raflow::stream::{compute_stream_diff, ClipboardBackend, InputBackend, StreamDiff};

#[derive(Debug, PartialEq, Eq)]
enum Op {
    Type(String),
    Backspace(usize),
}

struct FakeInput {
    ops: Vec<Op>,
    error_on_inject: Option<String>,
    error_on_backspace: bool,
}

impl FakeInput {
    fn new() -> Self {
        Self {
            ops: Vec::new(),
            error_on_inject: None,
            error_on_backspace: false,
        }
    }

    fn with_error_on_inject(trigger: &str) -> Self {
        Self {
            ops: Vec::new(),
            error_on_inject: Some(trigger.to_string()),
            error_on_backspace: false,
        }
    }

    fn with_error_on_backspace() -> Self {
        Self {
            ops: Vec::new(),
            error_on_inject: None,
            error_on_backspace: true,
        }
    }

    fn typed(&self) -> Vec<String> {
        self.ops
            .iter()
            .filter_map(|op| match op {
                Op::Type(s) => Some(s.clone()),
                _ => None,
            })
            .collect()
    }
}

impl InputBackend for FakeInput {
    fn inject(&mut self, text: &str) -> Result<(), RaflowError> {
        if text.is_empty() {
            return Ok(());
        }
        if let Some(trigger) = &self.error_on_inject {
            if trigger == text {
                return Err(RaflowError::TextInject {
                    detail: format!("fake failure on {text:?}"),
                });
            }
        }
        self.ops.push(Op::Type(text.to_string()));
        Ok(())
    }

    fn backspace(&mut self, count: usize) -> Result<(), RaflowError> {
        if count == 0 {
            return Ok(());
        }
        if self.error_on_backspace {
            return Err(RaflowError::TextInject {
                detail: format!("fake backspace failure (count={count})"),
            });
        }
        self.ops.push(Op::Backspace(count));
        Ok(())
    }
}

struct FakeClipboard {
    copied: Vec<String>,
    fail_next: bool,
}

impl FakeClipboard {
    fn new() -> Self {
        Self {
            copied: Vec::new(),
            fail_next: false,
        }
    }
}

impl ClipboardBackend for FakeClipboard {
    fn copy(&mut self, text: &str) -> Result<(), RaflowError> {
        if text.is_empty() {
            return Ok(());
        }
        if self.fail_next {
            self.fail_next = false;
            return Err(RaflowError::ClipboardWrite {
                detail: "fake clipboard failure".into(),
            });
        }
        self.copied.push(text.to_string());
        Ok(())
    }
}

#[test]
fn non_empty_text_is_recorded() {
    let mut fake = FakeInput::new();
    let cases = ["你好", "hello world", "數字 123", "end.\n"];
    for text in cases {
        assert!(fake.inject(text).is_ok(), "inject({text:?})");
    }
    assert_eq!(
        fake.typed(),
        vec![
            "你好".to_string(),
            "hello world".to_string(),
            "數字 123".to_string(),
            "end.\n".to_string(),
        ],
    );
}

#[test]
fn empty_text_is_noop() {
    let mut fake = FakeInput::new();
    assert!(fake.inject("").is_ok());
    assert!(fake.ops.is_empty(), "empty inject must not record a call");
}

#[test]
fn input_backend_surfaces_injection_errors() {
    let mut fake = FakeInput::with_error_on_inject("boom");
    let err = fake.inject("boom").unwrap_err();
    assert!(matches!(err, RaflowError::TextInject { .. }));
    assert!(fake.ops.is_empty());
    assert!(fake.inject("ok").is_ok());
    assert_eq!(fake.typed(), vec!["ok".to_string()]);
}

#[test]
fn clipboard_records_non_empty_text() {
    let mut fake = FakeClipboard::new();
    assert!(fake.copy("你好").is_ok());
    assert!(fake.copy("").is_ok(), "empty string must be no-op");
    assert_eq!(fake.copied, vec!["你好".to_string()]);
}

#[test]
fn clipboard_surfaces_write_errors() {
    let mut fake = FakeClipboard::new();
    fake.fail_next = true;
    let err = fake.copy("boom").unwrap_err();
    assert!(matches!(err, RaflowError::ClipboardWrite { .. }));
    assert!(fake.copied.is_empty());
    assert!(fake.copy("ok").is_ok());
    assert_eq!(fake.copied, vec!["ok".to_string()]);
}

#[test]
fn compute_stream_diff_matches_spec_table() {
    let cases = [
        ("fresh start", "", "我", 0, "我"),
        ("append one", "我", "我的", 0, "的"),
        ("append two", "我的", "我的筆", 0, "筆"),
        ("append after final-ish", "我的筆", "我的筆電", 0, "電"),
        ("shrink", "師姐姐", "師姐", 1, ""),
        ("rewrite", "你好", "我好", 2, "我好"),
        ("full replace", "abc", "xyz", 3, "xyz"),
        ("clear", "abc", "", 3, ""),
        ("noop", "abc", "abc", 0, ""),
        ("empty pair", "", "", 0, ""),
        ("ascii append", "hello", "hello!", 0, "!"),
    ];
    for (label, prev, new, backspace, append) in cases {
        let diff = compute_stream_diff(prev, new);
        assert_eq!(
            diff,
            StreamDiff {
                backspace,
                append: append.to_string()
            },
            "case {label:?}: prev={prev:?} new={new:?}",
        );
    }
}

#[test]
fn stream_update_typical_partial_sequence() {
    let mut fake = FakeInput::new();
    let stream = ["", "我", "我的", "我的筆", "我的筆電"];
    for window in stream.windows(2) {
        assert!(fake.stream_update(window[0], window[1]).is_ok());
    }
    assert_eq!(
        fake.ops,
        vec![
            Op::Type("我".into()),
            Op::Type("的".into()),
            Op::Type("筆".into()),
            Op::Type("電".into()),
        ],
    );
}

#[test]
fn stream_update_handles_rewrite() {
    let mut fake = FakeInput::new();
    assert!(fake.stream_update("", "師姐姐").is_ok());
    assert!(fake.stream_update("師姐姐", "師姐").is_ok());
    assert_eq!(fake.ops, vec![Op::Type("師姐姐".into()), Op::Backspace(1)],);
}

#[test]
fn stream_update_handles_full_replace() {
    let mut fake = FakeInput::new();
    assert!(fake.stream_update("", "你好").is_ok());
    assert!(fake.stream_update("你好", "我好").is_ok());
    assert_eq!(
        fake.ops,
        vec![
            Op::Type("你好".into()),
            Op::Backspace(2),
            Op::Type("我好".into()),
        ],
    );
}

#[test]
fn stream_update_propagates_backspace_error() {
    let mut fake = FakeInput::with_error_on_backspace();
    let err = fake.stream_update("abc", "ab").unwrap_err();
    assert!(matches!(err, RaflowError::TextInject { .. }));
    assert!(fake.ops.is_empty(), "backspace error must short-circuit");
}

#[test]
fn stream_update_propagates_inject_error() {
    let mut fake = FakeInput::with_error_on_inject("xyz");
    let err = fake.stream_update("abc", "xyz").unwrap_err();
    assert!(matches!(err, RaflowError::TextInject { .. }));
    assert_eq!(fake.ops, vec![Op::Backspace(3)]);
}

#[test]
fn stream_update_noop_on_identical_text() {
    let mut fake = FakeInput::new();
    assert!(fake.stream_update("abc", "abc").is_ok());
    assert!(fake.ops.is_empty());
}

#[test]
fn the_difference_turns_the_old_text_into_the_new_one() {
    for (old, new) in [("師姐姐", "師姐"), ("abc", "xyz"), ("", "a"), ("ab", "abé")] {
        let diff = compute_stream_diff(old, new);
        let kept: String = old.chars().take(old.chars().count() - diff.backspace).collect();
        assert_eq!(kept + &diff.append, new);
    }
}
