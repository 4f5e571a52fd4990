//! What the user can switch.

use raflow::settings::Settings;

#[test]
fn env_override_folds_into_whisper_correction() {
    let cases: &[(Option<&str>, bool, bool)] = &[
        (None, true, true),
        (None, false, false),
        (Some("0"), true, false),
        (Some("false"), true, false),
        (Some(""), true, false),
        (Some("1"), false, true),
    ];
    for (env, file_wc, expected) in cases.iter().copied() {
        let s = Settings {
            auto_locale: true,
            whisper_correction: file_wc,
        }
        .apply_env_override(env);
        assert_eq!(s.whisper_correction, expected, "env={env:?} file={file_wc}");
        assert!(s.auto_locale, "env 覆寫不得影響 auto_locale");
    }
}

#[test]
fn what_a_file_does_not_name_is_on() {
    let on = Settings {
        auto_locale: true,
        whisper_correction: true,
    };
    assert_eq!(Settings::default(), on);
    assert_eq!(Settings::from_fields(None, None), on);
    assert_eq!(
        Settings::from_fields(Some(false), None),
        Settings {
            auto_locale: false,
            whisper_correction: true
        }
    );
    assert_eq!(
        Settings::from_fields(Some(true), Some(false)),
        Settings {
            auto_locale: true,
            whisper_correction: false
        }
    );
    assert_eq!(Settings::from_parsed(None), on);
    let off = Settings::from_fields(Some(false), Some(false));
    assert_eq!(Settings::from_parsed(Some(off)), off);
}
