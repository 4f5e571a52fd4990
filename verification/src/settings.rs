//! What the user can switch.

use vstd::prelude::*;
use crate::whisper::parse_rolling_flag;
use crate::whisper::rolling_flag;

verus! {

/// What the user can switch.
#[derive(Debug, Clone, Copy, PartialEq, Eq)]
pub struct Settings {
    /// The language follows the keyboard's input source when a recording starts; else it is
    /// Chinese.
    pub auto_locale: bool,
    /// What was heard is corrected; else it is typed as it was heard.
    pub whisper_correction: bool,
}

impl Default for Settings {
    /// Everything is on.
    fn default() -> (s: Self)
        ensures
            s == (Settings { auto_locale: true, whisper_correction: true }),
    {
        Settings { auto_locale: true, whisper_correction: true }
    }
}

impl Settings {
    /// The settings of a file that names these; what it does not name is on.
    pub fn from_fields(auto_locale: Option<bool>, whisper_correction: Option<bool>) -> (s: Self)
        ensures
            s.auto_locale == (auto_locale != Some(false)),
            s.whisper_correction == (whisper_correction != Some(false)),
    {
        Settings {
            auto_locale: match auto_locale {
                Some(b) => b,
                None => true,
            },
            whisper_correction: match whisper_correction {
                Some(b) => b,
                None => true,
            },
        }
    }

    /// The settings of a file, where it could be read and made sense; else the default.
    pub fn from_parsed(parsed: Option<Settings>) -> (s: Self)
        ensures
            match parsed {
                Some(p) => s == p,
                None => s == (Settings { auto_locale: true, whisper_correction: true }),
            },
    {
        match parsed {
            Some(p) => p,
            None => Settings::default(),
        }
    }

    /// The settings with the switch of the environment applied: where it is set, it decides about
    /// the correction.
    pub fn apply_env_override(self, rolling_env: Option<&str>) -> (s: Self)
        ensures
            s.auto_locale == self.auto_locale,
            s.whisper_correction == (match rolling_env {
                Some(_) => rolling_flag(rolling_env),
                None => self.whisper_correction,
            }),
    {
        match rolling_env {
            Some(_) => Settings {
                auto_locale: self.auto_locale,
                whisper_correction: parse_rolling_flag(rolling_env),
            },
            None => self,
        }
    }
}

} // verus!
