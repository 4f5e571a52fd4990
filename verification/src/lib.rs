//! Dictation core: everything the tool decides about transcripts, vocabularies,
//! keystrokes, sessions and permissions, with its behaviour stated and proved.

pub mod audio;
pub mod correction;
pub mod dictation;
pub mod error;
pub mod files;
pub mod focus;
pub mod guards;
pub mod hotkey;
pub mod icon;
pub mod locale;
pub mod paths;
pub mod permissions;
pub mod printer;
pub mod printing;
pub mod recognizer;
pub mod replacements;
pub mod restore;
pub mod rolling;
pub mod session;
pub mod settings;
pub mod stream;
pub mod terms;
pub mod text;
pub mod tokens;
pub mod traditional;
pub mod transcript;
pub mod ui;
pub mod whisper;
pub mod worker;
