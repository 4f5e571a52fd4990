//! What a transcript makes the tool do.

use raflow::error::RaflowError;
use raflow::permissions::error_report;
use raflow::printing::{exec_inject, InjectFailure, Printer, PrinterAction};
use raflow::replacements::parse_replacements;
use raflow::stream::{InputBackend, StreamDiff};
use raflow::transcript::TranscriptUpdate;

fn table(s: &str) -> Vec<(String, String)> {
    parse_replacements(s)
}

fn show(s: &str) -> PrinterAction {
    PrinterAction::Show(s.to_string())
}

fn inject(backspace: usize, append: &str) -> PrinterAction {
    PrinterAction::Inject(StreamDiff {
        backspace,
        append: append.to_string(),
    })
}

fn print(s: &str) -> PrinterAction {
    PrinterAction::Print(s.to_string())
}

fn offer(tokens: &[&str]) -> PrinterAction {
    PrinterAction::OfferTokens(tokens.iter().map(|t| t.to_string()).collect())
}

fn start() -> TranscriptUpdate {
    TranscriptUpdate::SessionStarted { rolling: true }
}

#[test]
fn a_session_is_typed_shown_and_copied() {
    let mut p = Printer::new(table(""));
    assert_eq!(
        p.on_update(&start(), table("阿狗CD => ArgoCD"), Some(1)),
        vec![PrinterAction::ClearOverlay, offer(&[])]
    );
    assert_eq!(
        p.on_update(&TranscriptUpdate::Partial("用阿狗CD".to_string()), table(""), Some(1)),
        vec![print("~ 用ArgoCD"), inject(0, "用ArgoCD"), show("用ArgoCD")]
    );
    assert_eq!(
        p.on_update(&TranscriptUpdate::PhraseFinal("用阿狗CD。".to_string()), table(""), Some(1)),
        vec![
            print("= 用ArgoCD。"),
            inject(0, "。"),
            show("用ArgoCD。"),
            offer(&["ArgoCD"])
        ]
    );
    assert_eq!(
        p.on_update(&TranscriptUpdate::Final("跟 Helm".to_string()), table(""), Some(1)),
        vec![
            print("= 跟 Helm"),
            inject(0, "跟 Helm"),
            PrinterAction::Copy("用ArgoCD。跟 Helm".to_string()),
            show("用ArgoCD。跟 Helm"),
            PrinterAction::ScheduleHide,
            offer(&["Helm", "ArgoCD"])
        ]
    );
}

#[test]
fn nothing_is_typed_once_the_focus_has_moved() {
    let mut p = Printer::new(table(""));
    p.on_update(&start(), table(""), Some(1));
    let say = |s: &str| TranscriptUpdate::PhraseFinal(s.to_string());
    assert_eq!(
        p.on_update(&say("一"), table(""), Some(2)),
        vec![print("= 一"), PrinterAction::WarnFocusMoved, show("一"), offer(&[])]
    );
    assert_eq!(
        p.on_update(&say("二"), table(""), Some(1)),
        vec![print("= 二"), show("一二"), offer(&[])]
    );
    let end = p.on_update(&TranscriptUpdate::Final("三".to_string()), table(""), Some(1));
    assert!(end.contains(&PrinterAction::Copy("一二三".to_string())));
    p.on_update(&start(), table(""), Some(1));
    assert!(p
        .on_update(&say("四"), table(""), Some(1))
        .contains(&inject(0, "四")));
}

#[test]
fn typing_stops_when_the_user_takes_over_a_phrase() {
    let mut p = Printer::new(table(""));
    let draft = |s: &str| TranscriptUpdate::Partial(s.to_string());
    let say = |s: &str| TranscriptUpdate::PhraseFinal(s.to_string());
    p.on_update(&start(), table(""), Some(1));
    p.on_update(&draft("今天"), table(""), Some(1));
    assert_eq!(p.on_takeover(), Some(PrinterAction::Pause));
    assert_eq!(p.on_takeover(), None);
    assert_eq!(
        p.on_update(&draft("明天天氣"), table(""), Some(1)),
        vec![print("~ 明天天氣"), show("明天天氣")]
    );
    assert_eq!(
        p.on_update(&say("明天天氣好。"), table(""), Some(1)),
        vec![print("= 明天天氣好。"), show("明天天氣好。"), offer(&[])]
    );
    assert_eq!(
        p.on_update(&draft(""), table(""), Some(1)),
        vec![print("~ "), show("明天天氣好。")]
    );
    assert_eq!(
        p.on_update(&draft("出門"), table(""), Some(1)),
        vec![
            print("~ 出門"),
            inject(0, "出門"),
            show("明天天氣好。出門"),
            PrinterAction::Resume
        ]
    );
    let end = p.on_update(&TranscriptUpdate::Final("出門吧".to_string()), table(""), Some(1));
    assert!(end.contains(&inject(0, "吧")));
    assert!(end.contains(&PrinterAction::Copy("明天天氣好。出門吧".to_string())));
    assert_eq!(p.on_takeover(), None);
}

#[test]
fn between_phrases_typing_goes_on_when_the_user_speaks() {
    let mut p = Printer::new(table(""));
    p.on_update(&start(), table(""), Some(1));
    p.on_update(&TranscriptUpdate::PhraseFinal("一。".to_string()), table(""), Some(1));
    assert_eq!(p.on_takeover(), Some(PrinterAction::Pause));
    assert_eq!(
        p.on_update(&TranscriptUpdate::PhraseFinal("二。".to_string()), table(""), Some(1)),
        vec![
            print("= 二。"),
            inject(0, "二。"),
            show("一。二。"),
            offer(&[]),
            PrinterAction::Resume
        ]
    );
}

#[test]
fn a_pause_ends_with_the_session() {
    let mut p = Printer::new(table(""));
    p.on_update(&start(), table(""), Some(1));
    p.on_update(&TranscriptUpdate::Partial("一".to_string()), table(""), Some(1));
    assert_eq!(p.on_takeover(), Some(PrinterAction::Pause));
    assert_eq!(
        p.on_update(&TranscriptUpdate::Final("一二".to_string()), table(""), Some(1)),
        vec![
            print("= 一二"),
            PrinterAction::Copy("一二".to_string()),
            show("一二"),
            PrinterAction::ScheduleHide,
            offer(&[]),
            PrinterAction::Resume
        ]
    );
}

#[test]
fn without_phrases_nobody_takes_over() {
    let mut p = Printer::new(table(""));
    assert_eq!(p.on_takeover(), None);
    p.on_update(&TranscriptUpdate::SessionStarted { rolling: false }, table(""), Some(1));
    p.on_update(&TranscriptUpdate::Partial("一".to_string()), table(""), Some(1));
    assert_eq!(p.on_takeover(), None);
    assert!(p
        .on_update(&TranscriptUpdate::Final("二".to_string()), table(""), Some(1))
        .contains(&inject(1, "二")));
}

#[test]
fn an_error_is_reported_and_shown() {
    let mut p = Printer::new(table(""));
    assert_eq!(
        p.on_update(&TranscriptUpdate::Error("offline".to_string()), table(""), None),
        vec![
            PrinterAction::Report("! speech error: offline".to_string()),
            show("! offline"),
            PrinterAction::ScheduleHide
        ]
    );
}

#[derive(Default)]
struct Field {
    text: String,
    refuse_backspace: bool,
    refuse_text: bool,
}

impl InputBackend for Field {
    fn inject(&mut self, text: &str) -> Result<(), RaflowError> {
        if self.refuse_text {
            return Err(RaflowError::TextInject {
                detail: "text".to_string(),
            });
        }
        self.text.push_str(text);
        Ok(())
    }

    fn backspace(&mut self, count: usize) -> Result<(), RaflowError> {
        if self.refuse_backspace {
            return Err(RaflowError::TextInject {
                detail: "backspace".to_string(),
            });
        }
        for _ in 0..count {
            self.text.pop();
        }
        Ok(())
    }
}

#[test]
fn typing_stops_at_the_first_failure() {
    let diff = |backspace: usize, append: &str| StreamDiff {
        backspace,
        append: append.to_string(),
    };
    let mut field = Field {
        text: "你好嗎".to_string(),
        ..Field::default()
    };
    assert_eq!(exec_inject(&mut field, &diff(2, "們")), None);
    assert_eq!(field.text, "你們");
    assert_eq!(exec_inject(&mut field, &diff(0, "")), None);

    field.refuse_backspace = true;
    let failure = exec_inject(&mut field, &diff(1, "x")).unwrap();
    assert!(matches!(&failure, InjectFailure::Backspace(_)));
    assert_eq!(field.text, "你們");
    let err = RaflowError::TextInject {
        detail: "backspace".to_string(),
    };
    assert_eq!(
        failure.report(),
        error_report("! stream inject failed (backspace)", &err)
    );

    field.refuse_backspace = false;
    field.refuse_text = true;
    let failure = exec_inject(&mut field, &diff(1, "x")).unwrap();
    assert!(failure.report().starts_with("! stream inject failed (append): text injection failed: text\n"));
    assert_eq!(field.text, "你");
}
