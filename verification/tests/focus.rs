//! Where the focus is, and which language is spoken.

use raflow::focus::{
    classify, detect_focus, editable_roles, frontmost_app_pid, register_silently, FocusDetection,
    FocusInfo,
};
use raflow::locale::{current_input_locale, locale_for_language};

#[test]
fn register_silently_smoke() {
    for trusted in [false, true] {
        assert!(register_silently(Some(true), trusted));
        assert!(!register_silently(Some(false), trusted));
        assert_eq!(register_silently(None, trusted), trusted);
    }
}

#[test]
fn frontmost_app_pid_smoke() {
    for found in [None, Some((true, 4_321)), Some((true, 0)), Some((true, -1)), Some((false, 7))] {
        if let Some(pid) = frontmost_app_pid(true, found) {
            assert!(pid > 0, "AX 回報的 PID 必為正值，got {pid}");
            assert_eq!(found, Some((true, pid)));
        }
    }
    assert_eq!(frontmost_app_pid(true, Some((true, 4_321))), Some(4_321));
    assert_eq!(frontmost_app_pid(true, Some((true, 0))), None);
    assert_eq!(frontmost_app_pid(true, Some((false, 7))), None);
    assert_eq!(frontmost_app_pid(false, Some((true, 4_321))), None);
}

#[test]
fn editable_roles_cover_canonical_macos_text_inputs() {
    assert!(editable_roles().contains(&"AXTextField"));
    assert!(editable_roles().contains(&"AXTextArea"));
    assert!(editable_roles().contains(&"AXSecureTextField"));
    assert!(!editable_roles().contains(&"AXButton"));
    assert!(!editable_roles().contains(&"AXStaticText"));
    assert!(!editable_roles().contains(&"AXLink"));
}

#[test]
fn suppresses_panel_decision_table() {
    let cases: &[(FocusDetection, bool, &str)] = &[
        (FocusDetection::Untrusted, true, "untrusted suppresses"),
        (
            FocusDetection::Unknown,
            true,
            "unknown suppresses (Electron fallback)",
        ),
        (
            FocusDetection::Detected(FocusInfo {
                role: "AXTextField".into(),
                editable: true,
            }),
            true,
            "detected editable suppresses",
        ),
        (
            FocusDetection::Detected(FocusInfo {
                role: "AXButton".into(),
                editable: false,
            }),
            false,
            "detected non-editable does not suppress",
        ),
    ];
    for (det, expected, label) in cases {
        assert_eq!(det.suppresses_panel(), *expected, "{label}");
    }
}

#[test]
fn classify_decision_table() {
    let cases: &[(Option<&str>, bool, bool, &str)] = &[
        (Some("AXTextField"), false, true, "TextField by role"),
        (Some("AXTextArea"), false, true, "TextArea by role"),
        (Some("AXSearchField"), false, true, "SearchField by role"),
        (
            Some("AXSecureTextField"),
            false,
            true,
            "SecureTextField by role",
        ),
        (Some("AXComboBox"), false, true, "ComboBox by role"),
        (
            Some("AXGroup"),
            true,
            true,
            "AXGroup with text range fallback",
        ),
        (Some(""), true, true, "empty role with text range fallback"),
        (None, true, true, "no role with text range fallback"),
        (
            Some("AXUnknown"),
            true,
            true,
            "unknown role with text range fallback",
        ),
        (Some("AXButton"), false, false, "Button no fallback"),
        (Some("AXLink"), false, false, "Link no fallback"),
        (Some("AXStaticText"), false, false, "StaticText no fallback"),
        (Some("AXGroup"), false, false, "Group no fallback"),
        (None, false, false, "no role no fallback"),
    ];
    for (role, supports, expected, label) in cases {
        let got = classify(*role, *supports);
        assert_eq!(
            got, *expected,
            "{label}: role={role:?} text_range={supports} → {got}, want {expected}"
        );
    }
}

#[test]
fn locale_for_language_maps_zh_en_with_fallback() {
    let cases: &[(Option<&str>, &str, &str)] = &[
        (Some("zh"), "zh-TW", "bare zh"),
        (Some("zh-Hant"), "zh-TW", "traditional"),
        (Some("zh-Hans"), "zh-TW", "simplified"),
        (Some("zh-TW"), "zh-TW", "already zh-TW"),
        (Some("ZH-HANT"), "zh-TW", "uppercase normalised"),
        (Some("en"), "en-US", "bare en"),
        (Some("en-US"), "en-US", "en-US"),
        (Some("en-GB"), "en-US", "en-GB folds to en-US"),
        (Some("EN"), "en-US", "uppercase en"),
        (Some("ja"), "zh-TW", "japanese falls back"),
        (Some("ko"), "zh-TW", "korean falls back"),
        (Some(""), "zh-TW", "empty falls back"),
        (None, "zh-TW", "none falls back"),
    ];
    for (lang, expected, label) in cases {
        assert_eq!(
            locale_for_language(*lang),
            *expected,
            "{label}: lang={lang:?} → want {expected}"
        );
    }
}

#[test]
fn current_input_locale_returns_supported_locale() {
    for lang in [None, Some("zh-Hant"), Some("en"), Some("fr"), Some("e"), Some("z")] {
        let locale = current_input_locale(lang);
        assert!(
            locale == "zh-TW" || locale == "en-US",
            "unexpected locale: {locale:?}"
        );
        assert_eq!(locale, locale_for_language(lang));
    }
}

#[test]
fn the_focus_is_told_from_the_element() {
    let element = |role: Option<&str>, range: bool| Some((role.map(|r| r.to_string()), range));
    assert_eq!(detect_focus(false, element(Some("AXTextField"), true)), FocusDetection::Untrusted);
    assert_eq!(detect_focus(true, None), FocusDetection::Unknown);
    assert_eq!(
        detect_focus(true, element(Some("AXTextArea"), false)),
        FocusDetection::Detected(FocusInfo {
            role: "AXTextArea".to_string(),
            editable: true
        })
    );
    assert_eq!(
        detect_focus(true, element(None, false)),
        FocusDetection::Detected(FocusInfo {
            role: "<unknown>".to_string(),
            editable: false
        })
    );
    assert_eq!(editable_roles().len(), 5);
}
