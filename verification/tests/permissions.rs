//! Permissions and diagnostics.

use raflow::error::RaflowError;
use raflow::permissions::{
    build_diagnostic, capture_snapshot, collect_diag_inputs, diagnostic_dialog, error_report,
    first_actionable_settings_url, model_file_ready, onboarding_body, onboarding_dialog,
    page_after_diagnostics, page_after_onboarding, permission_hint, restart_dialog, DiagInputs,
    DiagLevel, Permission, PermissionSnapshot,
};

fn snap(mic: bool, speech: bool, ax: bool) -> PermissionSnapshot {
    PermissionSnapshot {
        microphone: mic,
        speech_recognition: speech,
        accessibility: ax,
    }
}

fn diag(
    mic: bool,
    speech: bool,
    ax: bool,
    ax_restart: bool,
    whisper: bool,
    vad: bool,
) -> DiagInputs {
    DiagInputs {
        microphone: mic,
        speech_recognition: speech,
        accessibility: ax,
        accessibility_needs_restart: ax_restart,
        whisper_model_ready: whisper,
        vad_model_ready: vad,
    }
}

#[test]
fn missing_reports_ungranted_in_fixed_order() {
    let cases: Vec<(PermissionSnapshot, Vec<Permission>)> = vec![
        (snap(true, true, true), vec![]),
        (
            snap(false, false, false),
            vec![
                Permission::Microphone,
                Permission::SpeechRecognition,
                Permission::Accessibility,
            ],
        ),
        (snap(false, true, true), vec![Permission::Microphone]),
        (snap(true, false, true), vec![Permission::SpeechRecognition]),
        (snap(true, true, false), vec![Permission::Accessibility]),
        (
            snap(true, false, false),
            vec![Permission::SpeechRecognition, Permission::Accessibility],
        ),
        (
            snap(false, true, false),
            vec![Permission::Microphone, Permission::Accessibility],
        ),
    ];
    for (snapshot, expected) in cases {
        assert_eq!(snapshot.missing(), expected, "snapshot={snapshot:?}");
        assert_eq!(
            snapshot.missing().is_empty(),
            expected.is_empty(),
            "snapshot={snapshot:?}"
        );
    }
}

#[test]
fn onboarding_body_none_when_all_granted() {
    assert!(onboarding_body(&[]).is_none());
    assert!(snap(true, true, true).missing().is_empty());
}

#[test]
fn onboarding_body_restart_note_only_when_accessibility_missing() {
    let with_ax = onboarding_body(&[Permission::Accessibility]).unwrap_or_default();
    assert!(with_ax.contains("重新啟動 raflow"), "缺輔助使用應提示重啟");
    let without_ax = onboarding_body(&[Permission::Microphone]).unwrap_or_default();
    assert!(
        !without_ax.contains("重新啟動 raflow"),
        "非輔助使用缺項不該提示重啟"
    );
}

#[test]
fn onboarding_body_lists_each_missing_permission_with_symptom() {
    let missing = vec![Permission::Microphone, Permission::Accessibility];
    let Some(body) = onboarding_body(&missing) else {
        panic!("有缺項應產生內文");
    };
    assert!(body.contains("麥克風"));
    assert!(body.contains(Permission::Microphone.symptom()));
    assert!(body.contains("輔助使用"));
    assert!(body.contains(Permission::Accessibility.symptom()));
    assert!(!body.contains("語音辨識"));
    assert!(body.contains("1."));
    assert!(body.contains("2."));
    assert!(body.contains("雙擊 Cmd"));
    assert!(!body.contains("Input Monitoring"));
}

#[test]
fn build_diagnostic_has_five_rows_in_fixed_order() {
    let rows = build_diagnostic(&diag(true, true, true, false, true, true));
    let labels: Vec<&str> = rows.iter().map(|r| r.label).collect();
    assert_eq!(
        labels,
        vec!["麥克風", "語音辨識", "輔助使用", "Whisper 模型", "VAD 模型"]
    );
    assert!(rows.iter().all(|r| r.level == DiagLevel::Ready));
}

#[test]
fn build_diagnostic_levels_reflect_state() {
    let rows = build_diagnostic(&diag(false, false, false, false, false, false));
    assert!(rows.iter().all(|r| r.level == DiagLevel::Warn));
    assert!(rows[0].detail.contains("靜音"));
}

#[test]
fn accessibility_needs_restart_shows_warn_with_restart_hint() {
    let rows = build_diagnostic(&diag(true, true, true, true, true, true));
    let ax = rows.iter().find(|r| r.label == "輔助使用").expect("有輔助使用列");
    assert_eq!(ax.level, DiagLevel::Warn);
    assert!(ax.detail.contains("重新啟動"));
    let rows2 = build_diagnostic(&diag(true, true, false, false, true, true));
    let ax2 = rows2.iter().find(|r| r.label == "輔助使用").expect("有輔助使用列");
    assert_eq!(ax2.level, DiagLevel::Warn);
    assert!(ax2.detail.contains("Cmd+V"));
}

#[test]
fn first_actionable_settings_url_follows_priority_and_skips_models() {
    assert_eq!(
        first_actionable_settings_url(&diag(true, true, true, false, true, true)),
        None
    );
    assert_eq!(
        first_actionable_settings_url(&diag(true, true, true, false, false, false)),
        None
    );
    assert_eq!(
        first_actionable_settings_url(&diag(false, false, false, false, true, true)),
        Some(Permission::Microphone.settings_url())
    );
    assert_eq!(
        first_actionable_settings_url(&diag(true, true, false, false, true, true)),
        Some(Permission::Accessibility.settings_url())
    );
}

#[test]
fn settings_urls_target_correct_privacy_panes() {
    let cases = [
        (Permission::Microphone, "Privacy_Microphone"),
        (Permission::SpeechRecognition, "Privacy_SpeechRecognition"),
        (Permission::Accessibility, "Privacy_Accessibility"),
    ];
    for (perm, pane) in cases {
        assert!(
            perm.settings_url().ends_with(pane),
            "{perm:?} 深連結應指向 {pane}"
        );
        assert!(
            perm.settings_url()
                .starts_with("x-apple.systempreferences:")
        );
    }
}

#[test]
fn permission_hint_covers_all_actionable_errors() {
    let cases: Vec<(RaflowError, &str)> = vec![
        (
            RaflowError::SpeechAuthorization {
                status: "denied".into(),
            },
            "語音辨識",
        ),
        (
            RaflowError::AudioCapture {
                detail: "no input device".into(),
            },
            "麥克風",
        ),
        (
            RaflowError::TextInject {
                detail: "accessibility denied".into(),
            },
            "輔助使用",
        ),
        (
            RaflowError::HotkeyRegister {
                detail: "in use".into(),
            },
            "Input Monitoring",
        ),
    ];
    for (err, keyword) in cases {
        let hint = permission_hint(&err).unwrap_or_else(|| {
            panic!("expected hint for {err:?}");
        });
        assert!(
            hint.contains(keyword),
            "hint for {err:?} should mention {keyword:?}, got: {hint}",
        );
        assert!(
            hint.contains("x-apple.systempreferences:"),
            "hint for {err:?} should include a System Settings deep link",
        );
    }
}

#[test]
fn permission_hint_is_none_for_non_actionable_errors() {
    let cases = [
        RaflowError::SpeechBusy,
        RaflowError::SpeechUnavailable {
            locale: "zh-TW".into(),
        },
        RaflowError::ClipboardWrite {
            detail: "NSPasteboard error".into(),
        },
        RaflowError::InvalidReplacement {
            detail: "heard 不可含換行".into(),
        },
        RaflowError::ConfigWrite {
            path: "/x/replacements.txt".into(),
            source: "disk full".into(),
        },
    ];
    for err in cases {
        assert!(
            permission_hint(&err).is_none(),
            "{err:?} should have no actionable hint",
        );
    }
}

#[test]
fn diagnostics_go_by_what_was_found() {
    let snapshot = capture_snapshot(true, false, false);
    assert_eq!(snapshot, snap(true, false, false));
    let inputs = collect_diag_inputs(snapshot, true, Some(true), Some(false));
    assert!(!inputs.accessibility_needs_restart, "not granted, nothing to restart for");
    assert!(inputs.whisper_model_ready && !inputs.vad_model_ready);
    assert!(collect_diag_inputs(snap(true, true, true), true, None, None).accessibility_needs_restart);
    assert!(model_file_ready(Some(true)));
    assert!(!model_file_ready(Some(false)));
    assert!(!model_file_ready(None));
    assert_eq!(DiagLevel::Ready.icon(), "✅");
    assert_eq!(DiagLevel::Warn.icon(), "⚠️");
}

#[test]
fn dialogs_offer_the_settings_where_they_help() {
    assert_eq!(onboarding_dialog(&[]), None);
    let missing = [Permission::SpeechRecognition, Permission::Accessibility];
    let dialog = onboarding_dialog(&missing).unwrap();
    assert_eq!(dialog.title, "raflow 需要一些權限");
    assert_eq!(Some(dialog.body), onboarding_body(&missing));
    assert_eq!(dialog.buttons, vec!["開啟系統設定", "稍後"]);
    assert_eq!(
        page_after_onboarding(&missing, true),
        Some(Permission::SpeechRecognition.settings_url())
    );
    assert_eq!(page_after_onboarding(&missing, false), None);
    assert_eq!(page_after_onboarding(&[], true), None);

    let green = diag(true, true, true, false, false, false);
    assert_eq!(diagnostic_dialog(&green).buttons, vec!["好"]);
    assert_eq!(page_after_diagnostics(&green, true), None);
    let mute = diag(false, true, true, false, true, true);
    assert_eq!(diagnostic_dialog(&mute).buttons, vec!["開啟系統設定", "關閉"]);
    assert_eq!(
        page_after_diagnostics(&mute, true),
        Some(Permission::Microphone.settings_url())
    );
    assert_eq!(page_after_diagnostics(&mute, false), None);
    assert_eq!(restart_dialog().buttons, vec!["立即重新啟動", "稍後"]);
}

#[test]
fn the_whole_onboarding_text() {
    assert_eq!(
        onboarding_body(&[Permission::Microphone]).as_deref(),
        Some(
            "raflow 還需要以下權限才能正常運作：\n\n1. 麥克風——收音；沒開會錄到靜音、說話完全沒有任何字\n\n點「開啟系統設定」會直接跳到第一項的設定頁；在清單裡把 raflow 打勾即可。\n改完可從 menu bar 圖示 →「診斷…」再次確認剩下幾項。\n\n（若雙擊 Cmd 完全沒反應，同樣是「輔助使用」未授權——raflow 的雙擊偵測以它為準，不需另外開「輸入監控」。）"
        )
    );
    let many = [Permission::Microphone; 11];
    assert!(onboarding_body(&many).unwrap().contains("\n11. 麥克風——"));
}

#[test]
fn errors_are_reported_with_what_mends_them() {
    let err = RaflowError::SpeechAuthorization {
        status: "denied".to_string(),
    };
    let report = error_report("x", &err);
    assert_eq!(
        report,
        format!("x: {}\n{}", err.message(), permission_hint(&err).unwrap())
    );
    assert_eq!(
        error_report("x", &RaflowError::SpeechBusy),
        "x: speech session is already running"
    );
}
