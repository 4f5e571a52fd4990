//! Where files are kept.

use raflow::error::RaflowError;
use raflow::paths::{
    app_support_dir, contextual_terms_path, default_model_path, default_vad_model_path, join_path,
    models_dir, preferred_model_in, replacements_path, resolve_model_path, resolve_vad_model_path,
    settings_path,
};
use raflow::whisper::{check_model, check_transcription};

#[test]
fn resolve_model_path_respects_env_override() {
    for turbo_found in [false, true] {
        if let Some(p) = default_model_path(Some("/Users/me"), turbo_found) {
            let (dir, name) = p.rsplit_once('/').unwrap();
            assert!(
                dir.ends_with("raflow/models"),
                "default path should land in raflow/models, got {p}"
            );
            assert!(
                ["ggml-large-v3-turbo-q5_0.bin", "ggml-small.bin"].contains(&name),
                "default filename should be one of the known models, got {p}"
            );
        }
        assert_eq!(
            resolve_model_path(Some("/tmp/mine.bin"), Some("/Users/me"), turbo_found),
            Some("/tmp/mine.bin".to_string())
        );
        assert_eq!(
            resolve_model_path(None, Some("/Users/me"), turbo_found),
            default_model_path(Some("/Users/me"), turbo_found)
        );
        assert_eq!(resolve_model_path(None, None, turbo_found), None);
    }
}

#[test]
fn preferred_model_in_prefers_turbo_over_small() {
    type Case<'a> = (&'a [&'a str], &'a str);
    let cases: &[Case] = &[
        (&[], "ggml-small.bin"),
        (&["ggml-small.bin"], "ggml-small.bin"),
        (
            &["ggml-large-v3-turbo-q5_0.bin"],
            "ggml-large-v3-turbo-q5_0.bin",
        ),
        (
            &["ggml-small.bin", "ggml-large-v3-turbo-q5_0.bin"],
            "ggml-large-v3-turbo-q5_0.bin",
        ),
    ];
    for (i, (present, expected)) in cases.iter().enumerate() {
        let turbo_found = present.contains(&"ggml-large-v3-turbo-q5_0.bin");
        let picked = preferred_model_in("/models", turbo_found);
        assert_eq!(picked, format!("/models/{expected}"), "case {i}");
    }
}

#[test]
fn default_vad_model_path_lands_in_models_dir() {
    if let Some(p) = default_vad_model_path(Some("/Users/me")) {
        assert!(
            p.ends_with("raflow/models/ggml-silero-v6.2.0.bin"),
            "default VAD path should be raflow/models/ggml-silero-v6.2.0.bin, got {p}"
        );
    }
    assert_eq!(
        default_vad_model_path(Some("/Users/me")).as_deref(),
        Some("/Users/me/Library/Application Support/raflow/models/ggml-silero-v6.2.0.bin")
    );
    assert_eq!(default_vad_model_path(None), None);
    assert_eq!(
        resolve_vad_model_path(Some("vad.bin"), None).as_deref(),
        Some("vad.bin")
    );
    assert_eq!(
        resolve_vad_model_path(None, Some("/Users/me")),
        default_vad_model_path(Some("/Users/me"))
    );
}

#[test]
fn load_returns_model_missing_for_nonexistent_path() {
    let bogus = "/tmp/raflow-test-definitely-missing-model.bin";
    let result = check_model(false, Some(bogus), bogus);
    match result {
        Err(RaflowError::WhisperModelMissing { path }) => {
            assert_eq!(path, bogus.to_string());
        }
        Err(RaflowError::WhisperLoad { .. }) => {}
        Err(other) => panic!("expected WhisperModelMissing or WhisperLoad, got {other:?}"),
        Ok(_) => panic!("must not load a non-existent model"),
    }
}

#[test]
fn a_model_path_has_to_be_text() {
    assert_eq!(check_model(true, Some("/m.bin"), "/m.bin"), Ok("/m.bin".to_string()));
    assert_eq!(
        check_model(true, None, "/m\u{fffd}.bin"),
        Err(RaflowError::WhisperLoad {
            detail: "model path is not valid UTF-8: /m\u{fffd}.bin".to_string()
        })
    );
}

#[test]
fn nothing_is_transcribed_without_samples() {
    assert_eq!(check_transcription(0, false, "/v.bin"), Ok(false));
    assert_eq!(check_transcription(1, true, "/v.bin"), Ok(true));
    assert_eq!(
        check_transcription(1, false, "/v.bin"),
        Err(RaflowError::WhisperModelMissing {
            path: "/v.bin".to_string()
        })
    );
}

#[test]
fn paths_are_joined_by_one_slash() {
    assert_eq!(join_path("", "a"), "a");
    assert_eq!(join_path("/", "a"), "/a");
    assert_eq!(join_path("x", "a"), "x/a");
    assert_eq!(join_path("x/", "a"), "x/a");
    assert_eq!(
        app_support_dir("/Users/me/"),
        "/Users/me/Library/Application Support/raflow"
    );
    assert_eq!(
        models_dir("/Users/me"),
        "/Users/me/Library/Application Support/raflow/models"
    );
}

#[test]
fn the_environment_overrides_every_file() {
    let home = Some("/Users/me");
    let dir = "/Users/me/Library/Application Support/raflow";
    assert_eq!(settings_path(None, home), Some(format!("{dir}/settings.json")));
    assert_eq!(
        replacements_path(None, home),
        Some(format!("{dir}/replacements.txt"))
    );
    assert_eq!(
        contextual_terms_path(None, home),
        Some(format!("{dir}/contextual_terms.txt"))
    );
    for over in ["/x", ""] {
        assert_eq!(settings_path(Some(over), home).as_deref(), Some(over));
        assert_eq!(replacements_path(Some(over), None).as_deref(), Some(over));
        assert_eq!(contextual_terms_path(Some(over), home).as_deref(), Some(over));
    }
    assert_eq!(settings_path(None, None), None);
}
