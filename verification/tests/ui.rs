//! The menu, the panel and the worker.

use raflow::error::RaflowError;
use raflow::focus::{FocusDetection, FocusInfo};
use raflow::session::Transition;
use raflow::settings::Settings;
use raflow::ui::{
    build_menu, menu_command, session_locale, MenuCommand, MenuEntry, Ui, UiAction, UiEvent,
    OVERLAY_HIDE_DELAY_MS, ROLLING_TICK_INTERVAL_MS,
};
use raflow::worker::{
    after_capture, after_frame, after_hotkey, after_timer, correction_log, model_log, plan_model,
    ModelPlan, WorkerAction,
};

fn all_on() -> Settings {
    Settings {
        auto_locale: true,
        whisper_correction: true,
    }
}

fn started() -> Ui {
    let mut ui = Ui::new();
    assert!(ui.on_event(UiEvent::Started { overlay: true }, 0).is_empty());
    ui
}

fn text(s: &str) -> UiEvent {
    UiEvent::OverlayText(Some(s.to_string()))
}

#[test]
fn the_menu_shows_the_settings() {
    let settings = Settings {
        auto_locale: false,
        whisper_correction: true,
    };
    let menu = build_menu("0.1.0", settings);
    assert_eq!(menu.len(), 12);
    assert_eq!(menu[0], MenuEntry::Label("raflow v0.1.0".to_string()));
    assert_eq!(menu[1], MenuEntry::Separator);
    assert_eq!(
        menu[2],
        MenuEntry::Check {
            id: "settings.auto_locale",
            title: "依輸入法自動切換語言",
            checked: false
        }
    );
    assert_eq!(
        menu[3],
        MenuEntry::Check {
            id: "settings.whisper_correction",
            title: "Whisper 智慧校正（中文/中英混講）",
            checked: true
        }
    );
    assert_eq!(
        menu[11],
        MenuEntry::Item {
            id: "quit",
            title: "結束 raflow"
        }
    );
    for entry in menu {
        match entry {
            MenuEntry::Item { id, .. } => assert_ne!(menu_command(id), MenuCommand::Unknown),
            MenuEntry::Check { id, .. } => {
                assert_eq!(menu_command(id), MenuCommand::UpdateSettings)
            }
            _ => {}
        }
    }
}

#[test]
fn menu_entries_do_what_they_say() {
    let click = |id: &str, marks: Option<Settings>| {
        started().on_event(
            UiEvent::MenuClick {
                id: id.to_string(),
                marks,
            },
            0,
        )
    };
    assert_eq!(click("quit", None), vec![UiAction::Quit]);
    assert_eq!(
        click("settings.auto_locale", Some(all_on())),
        vec![UiAction::StoreSettings(all_on())]
    );
    assert_eq!(click("settings.whisper_correction", None), vec![]);
    assert_eq!(click("edit.terms", None), vec![UiAction::EditTerms]);
    assert_eq!(click("edit.replacements", None), vec![UiAction::EditReplacements]);
    assert_eq!(click("edit.teach_correction", None), vec![UiAction::TeachCorrection]);
    assert_eq!(click("diagnostics", None), vec![UiAction::Diagnose]);
    assert_eq!(click("restart", None), vec![UiAction::Restart]);
    assert_eq!(click("elsewhere", Some(all_on())), vec![]);
}

#[test]
fn the_panel_shows_text_outside_text_fields_only() {
    let mut ui = started();
    let button = FocusDetection::Detected(FocusInfo {
        role: "AXButton".to_string(),
        editable: false,
    });
    assert_eq!(
        ui.on_event(UiEvent::RecordingStarted(button), 1),
        vec![UiAction::RecordingIcon]
    );
    assert_eq!(
        ui.on_event(text("你好"), 2),
        vec![UiAction::ShowText("你好".to_string())]
    );
    assert_eq!(
        ui.on_event(UiEvent::RecordingStarted(FocusDetection::Unknown), 3),
        vec![UiAction::RecordingIcon]
    );
    assert_eq!(ui.on_event(text("你好"), 4), vec![UiAction::HideOverlay]);
    assert_eq!(
        ui.on_event(UiEvent::OverlayText(None), 5),
        vec![UiAction::HideOverlay, UiAction::ClearOverlay]
    );
    assert_eq!(
        ui.on_event(UiEvent::RecordingStopped, 6),
        vec![UiAction::IdleIcon]
    );
}

#[test]
fn the_panel_goes_away_in_time() {
    let mut ui = started();
    assert_eq!(ui.deadline(), None);
    assert!(ui
        .on_event(UiEvent::OverlayScheduleHide(OVERLAY_HIDE_DELAY_MS), 1_000)
        .is_empty());
    assert_eq!(ui.deadline(), Some(4_000));
    assert!(ui.on_event(UiEvent::Woken, 3_999).is_empty());
    assert_eq!(ui.deadline(), Some(4_000));
    assert_eq!(ui.on_event(UiEvent::Woken, 4_000), vec![UiAction::HideOverlay]);
    assert_eq!(ui.deadline(), None);
    assert!(ui.on_event(UiEvent::Woken, 9_000).is_empty());

    ui.on_event(UiEvent::OverlayScheduleHide(10), 0);
    ui.on_event(text("再來"), 5);
    assert_eq!(ui.deadline(), None);
    assert!(ui.on_event(UiEvent::Woken, 10).is_empty());
}

#[test]
fn without_a_panel_nothing_is_shown_or_put_off() {
    let mut ui = Ui::new();
    assert!(ui.on_event(UiEvent::Started { overlay: false }, 0).is_empty());
    ui.on_event(UiEvent::OverlayScheduleHide(10), 0);
    assert!(ui.on_event(text("x"), 1).is_empty());
    assert_eq!(ui.deadline(), Some(10));
    assert!(ui.on_event(UiEvent::Woken, 10).is_empty());
    assert_eq!(ui.deadline(), None);
}

#[test]
fn recent_tokens_are_kept_for_corrections() {
    let mut ui = Ui::new();
    assert!(ui.recent_tokens().is_empty());
    ui.on_event(UiEvent::RecentTokensUpdated(vec!["K8S".to_string()]), 0);
    assert_eq!(ui.recent_tokens(), ["K8S".to_string()]);
}

#[test]
fn the_language_follows_the_input_source_where_switched_on() {
    let off = Settings {
        auto_locale: false,
        whisper_correction: true,
    };
    assert_eq!(session_locale(all_on(), "en-US".to_string()), "en-US");
    assert_eq!(session_locale(off, "en-US".to_string()), "zh-TW");
}

#[test]
fn capture_follows_the_recording() {
    let busy = || RaflowError::SpeechBusy;
    assert_eq!(
        after_hotkey(&Ok(Transition::StartRecording)),
        vec![WorkerAction::StartCapture]
    );
    assert_eq!(
        after_hotkey(&Ok(Transition::StopRecording)),
        vec![
            WorkerAction::StopCapture,
            WorkerAction::Log("○ stopped".to_string()),
            WorkerAction::RecordingStopped
        ]
    );
    assert_eq!(after_hotkey(&Ok(Transition::Unchanged)), vec![]);
    assert_eq!(
        after_hotkey(&Err(busy())),
        vec![WorkerAction::Report(
            "! hotkey handling failed: speech session is already running".to_string()
        )]
    );
    assert_eq!(
        after_capture(&Ok(())),
        vec![
            WorkerAction::Log("● recording".to_string()),
            WorkerAction::RecordingStarted
        ]
    );
    let failed = after_capture(&Err(RaflowError::AudioCapture {
        detail: "no input device".to_string(),
    }));
    assert!(matches!(&failed[..], [WorkerAction::Report(r)]
        if r.starts_with("! audio start failed: audio capture failed: no input device\n")));
    assert_eq!(after_timer(&Ok(())), None);
    assert_eq!(
        after_timer(&Err(busy())).as_deref(),
        Some("! rolling tick failed: speech session is already running")
    );
    assert_eq!(
        after_frame(&Err(busy())).as_deref(),
        Some("! frame handling failed: speech session is already running")
    );
    assert_eq!(after_frame(&Ok(())), None);
}

#[test]
fn the_log_tells_about_the_transcriber() {
    assert_eq!(plan_model(None, true), ModelPlan::NoPath);
    assert_eq!(
        plan_model(Some("/m".to_string()), true),
        ModelPlan::Load {
            path: "/m".to_string()
        }
    );
    match plan_model(Some("/m".to_string()), false) {
        ModelPlan::Missing { log } => {
            assert!(log.starts_with("raflow: whisper disabled — model not found at /m\n"))
        }
        other => panic!("expected a missing model, got {other:?}"),
    }
    assert_eq!(model_log("/m", &Ok(())), "raflow: whisper enabled (model: /m)");
    assert!(model_log("/m", &Err(RaflowError::SpeechBusy))
        .starts_with("raflow: whisper disabled — load failed: speech session is already running"));
    assert!(correction_log(true).contains(&format!("每 {ROLLING_TICK_INTERVAL_MS}ms")));
    assert!(correction_log(false).contains("OFF"));
}

#[test]
fn a_pause_shows_on_the_icon_while_recording() {
    let mut ui = started();
    assert!(ui.on_event(UiEvent::Paused, 1).is_empty());
    ui.on_event(UiEvent::RecordingStarted(FocusDetection::Unknown), 2);
    assert_eq!(ui.on_event(UiEvent::Paused, 3), vec![UiAction::PausedIcon]);
    assert_eq!(ui.on_event(UiEvent::Resumed, 4), vec![UiAction::RecordingIcon]);
    assert_eq!(ui.on_event(UiEvent::RecordingStopped, 5), vec![UiAction::IdleIcon]);
    assert!(ui.on_event(UiEvent::Resumed, 6).is_empty());
}
