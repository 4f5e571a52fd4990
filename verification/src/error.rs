//! What can go wrong.

use vstd::prelude::*;
use crate::text::{contains_text, occurs_at};

verus! {

/// An error of the tool. Paths and underlying causes are held as text.
#[derive(Debug, PartialEq, Eq)]
pub enum RaflowError {
    /// A configuration file is there and cannot be read.
    ConfigLoad { path: String, source: String },
    /// A configuration file cannot be written.
    ConfigWrite { path: String, source: String },
    /// A correction or a term that cannot be kept in a line-based file.
    InvalidReplacement { detail: String },
    HotkeyRegister { detail: String },
    AudioCapture { detail: String },
    SpeechAuthorization { status: String },
    /// The recogniser does not serve the locale.
    SpeechUnavailable { locale: String },
    /// A session is running already.
    SpeechBusy,
    TextInject { detail: String },
    ClipboardWrite { detail: String },
    WhisperModelMissing { path: String },
    WhisperLoad { detail: String },
    WhisperInference { detail: String },
}

impl RaflowError {
    /// The one-line message of the error.
    pub open spec fn message_text(&self) -> Seq<char> {
        match self {
            RaflowError::ConfigLoad { path, .. } => "failed to load config from "@ + path@,
            RaflowError::ConfigWrite { path, .. } => "failed to write config to "@ + path@,
            RaflowError::InvalidReplacement { detail } => "invalid replacement: "@ + detail@,
            RaflowError::HotkeyRegister { detail } => "failed to register hotkey: "@ + detail@,
            RaflowError::AudioCapture { detail } => "audio capture failed: "@ + detail@,
            RaflowError::SpeechAuthorization { status } => "speech authorization failed: "@
                + status@,
            RaflowError::SpeechUnavailable { locale } =>
                "speech recognition not available for locale "@ + locale@,
            RaflowError::SpeechBusy => "speech session is already running"@,
            RaflowError::TextInject { detail } => "text injection failed: "@ + detail@,
            RaflowError::ClipboardWrite { detail } => "clipboard write failed: "@ + detail@,
            RaflowError::WhisperModelMissing { path } => "whisper model not found at "@ + path@,
            RaflowError::WhisperLoad { detail } => "whisper context load failed: "@ + detail@,
            RaflowError::WhisperInference { detail } => "whisper inference failed: "@ + detail@,
        }
    }

    /// The one-line message of the error.
    pub fn message(&self) -> (text: String)
        ensures
            text@ == self.message_text(),
    {
        match self {
            RaflowError::ConfigLoad { path, .. } => prefixed("failed to load config from ", path),
            RaflowError::ConfigWrite { path, .. } => prefixed("failed to write config to ", path),
            RaflowError::InvalidReplacement { detail } => prefixed("invalid replacement: ", detail),
            RaflowError::HotkeyRegister { detail } => prefixed(
                "failed to register hotkey: ",
                detail,
            ),
            RaflowError::AudioCapture { detail } => prefixed("audio capture failed: ", detail),
            RaflowError::SpeechAuthorization { status } => prefixed(
                "speech authorization failed: ",
                status,
            ),
            RaflowError::SpeechUnavailable { locale } => prefixed(
                "speech recognition not available for locale ",
                locale,
            ),
            RaflowError::SpeechBusy => "speech session is already running".to_owned(),
            RaflowError::TextInject { detail } => prefixed("text injection failed: ", detail),
            RaflowError::ClipboardWrite { detail } => prefixed("clipboard write failed: ", detail),
            RaflowError::WhisperModelMissing { path } => prefixed(
                "whisper model not found at ",
                path,
            ),
            RaflowError::WhisperLoad { detail } => prefixed("whisper context load failed: ", detail),
            RaflowError::WhisperInference { detail } => prefixed(
                "whisper inference failed: ",
                detail,
            ),
        }
    }

    /// The underlying cause, for the errors that have one.
    pub fn source(&self) -> (cause: Option<&String>)
        ensures
            cause == match self {
                RaflowError::ConfigLoad { source, .. } => Some(source),
                RaflowError::ConfigWrite { source, .. } => Some(source),
                _ => None,
            },
    {
        match self {
            RaflowError::ConfigLoad { source, .. } => Some(source),
            RaflowError::ConfigWrite { source, .. } => Some(source),
            _ => None,
        }
    }
}

fn prefixed(prefix: &str, rest: &String) -> (text: String)
    ensures
        text@ == prefix@ + rest@,
{
    let mut text = prefix.to_owned();
    text.append(rest.as_str());
    text
}

/// Every message names what went wrong.
pub proof fn messages_name_what_went_wrong(err: RaflowError)
    ensures
        match err {
            RaflowError::ConfigLoad { .. } => contains_text(err.message_text(), "load config"@),
            RaflowError::ConfigWrite { .. } => contains_text(err.message_text(), "write config"@),
            RaflowError::InvalidReplacement { .. } => contains_text(
                err.message_text(),
                "replacement"@,
            ),
            RaflowError::HotkeyRegister { .. } => contains_text(err.message_text(), "hotkey"@),
            RaflowError::AudioCapture { .. } => contains_text(err.message_text(), "audio"@),
            RaflowError::SpeechAuthorization { .. } => contains_text(
                err.message_text(),
                "authorization"@,
            ),
            RaflowError::SpeechUnavailable { .. } => contains_text(
                err.message_text(),
                "not available"@,
            ),
            RaflowError::SpeechBusy => contains_text(err.message_text(), "already running"@),
            RaflowError::TextInject { .. } => contains_text(err.message_text(), "injection"@),
            RaflowError::ClipboardWrite { .. } => contains_text(err.message_text(), "clipboard"@),
            RaflowError::WhisperModelMissing { .. } => contains_text(
                err.message_text(),
                "not found"@,
            ),
            RaflowError::WhisperLoad { .. } => contains_text(err.message_text(), "load"@),
            RaflowError::WhisperInference { .. } => contains_text(
                err.message_text(),
                "inference"@,
            ),
        },
{
    let m = err.message_text();
    match err {
        RaflowError::ConfigLoad { .. } => {
            reveal_strlit("failed to load config from ");
            reveal_strlit("load config");
            assert(m.subrange(10, 21) =~= "load config"@);
            assert(occurs_at(m, "load config"@, 10));
        },
        RaflowError::ConfigWrite { .. } => {
            reveal_strlit("failed to write config to ");
            reveal_strlit("write config");
            assert(m.subrange(10, 22) =~= "write config"@);
            assert(occurs_at(m, "write config"@, 10));
        },
        RaflowError::InvalidReplacement { .. } => {
            reveal_strlit("invalid replacement: ");
            reveal_strlit("replacement");
            assert(m.subrange(8, 19) =~= "replacement"@);
            assert(occurs_at(m, "replacement"@, 8));
        },
        RaflowError::HotkeyRegister { .. } => {
            reveal_strlit("failed to register hotkey: ");
            reveal_strlit("hotkey");
            assert(m.subrange(19, 25) =~= "hotkey"@);
            assert(occurs_at(m, "hotkey"@, 19));
        },
        RaflowError::AudioCapture { .. } => {
            reveal_strlit("audio capture failed: ");
            reveal_strlit("audio");
            assert(m.subrange(0, 5) =~= "audio"@);
            assert(occurs_at(m, "audio"@, 0));
        },
        RaflowError::SpeechAuthorization { .. } => {
            reveal_strlit("speech authorization failed: ");
            reveal_strlit("authorization");
            assert(m.subrange(7, 20) =~= "authorization"@);
            assert(occurs_at(m, "authorization"@, 7));
        },
        RaflowError::SpeechUnavailable { .. } => {
            reveal_strlit("speech recognition not available for locale ");
            reveal_strlit("not available");
            assert(m.subrange(19, 32) =~= "not available"@);
            assert(occurs_at(m, "not available"@, 19));
        },
        RaflowError::SpeechBusy => {
            reveal_strlit("speech session is already running");
            reveal_strlit("already running");
            assert(m.subrange(18, 33) =~= "already running"@);
            assert(occurs_at(m, "already running"@, 18));
        },
        RaflowError::TextInject { .. } => {
            reveal_strlit("text injection failed: ");
            reveal_strlit("injection");
            assert(m.subrange(5, 14) =~= "injection"@);
            assert(occurs_at(m, "injection"@, 5));
        },
        RaflowError::ClipboardWrite { .. } => {
            reveal_strlit("clipboard write failed: ");
            reveal_strlit("clipboard");
            assert(m.subrange(0, 9) =~= "clipboard"@);
            assert(occurs_at(m, "clipboard"@, 0));
        },
        RaflowError::WhisperModelMissing { .. } => {
            reveal_strlit("whisper model not found at ");
            reveal_strlit("not found");
            assert(m.subrange(14, 23) =~= "not found"@);
            assert(occurs_at(m, "not found"@, 14));
        },
        RaflowError::WhisperLoad { .. } => {
            reveal_strlit("whisper context load failed: ");
            reveal_strlit("load");
            assert(m.subrange(16, 20) =~= "load"@);
            assert(occurs_at(m, "load"@, 16));
        },
        RaflowError::WhisperInference { .. } => {
            reveal_strlit("whisper inference failed: ");
            reveal_strlit("inference");
            assert(m.subrange(8, 17) =~= "inference"@);
            assert(occurs_at(m, "inference"@, 8));
        },
    }
}

/// Every message ends in what is known about the error.
pub proof fn messages_end_in_what_is_known(err: RaflowError)
    ensures
        ({
            let known = match err {
                RaflowError::ConfigLoad { path, .. } => path@,
                RaflowError::ConfigWrite { path, .. } => path@,
                RaflowError::InvalidReplacement { detail } => detail@,
                RaflowError::HotkeyRegister { detail } => detail@,
                RaflowError::AudioCapture { detail } => detail@,
                RaflowError::SpeechAuthorization { status } => status@,
                RaflowError::SpeechUnavailable { locale } => locale@,
                RaflowError::SpeechBusy => Seq::empty(),
                RaflowError::TextInject { detail } => detail@,
                RaflowError::ClipboardWrite { detail } => detail@,
                RaflowError::WhisperModelMissing { path } => path@,
                RaflowError::WhisperLoad { detail } => detail@,
                RaflowError::WhisperInference { detail } => detail@,
            };
            known.is_suffix_of(err.message_text())
        }),
{
}

} // verus!
