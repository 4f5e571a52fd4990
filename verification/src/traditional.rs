//! Simplified to traditional Chinese, with the wording that is usual in Taiwan.

use vstd::prelude::*;
use ferrous_opencc::config::BuiltinConfig;
use ferrous_opencc::OpenCC;

verus! {

/// A converter of the `ferrous_opencc` crate.
#[verifier::external_type_specification]
#[verifier::external_body]
pub struct ExOpenCC(OpenCC);

/// What the converter `cc` makes of `text`: its dictionaries are applied one after the other, each
/// from the left and the longest entry first.
pub uninterp spec fn opencc_text(cc: OpenCC, text: Seq<char>) -> Seq<char>;

/// `OpenCC::convert` of `ferrous_opencc` converts a text with the dictionaries that the converter
/// holds. What comes out depends on the converter and the text alone.
pub assume_specification[ OpenCC::convert ](cc: &OpenCC, input: &str) -> (out: String)
    ensures
        out@ == opencc_text(*cc, input@),
;

/// The converter for the built-in configuration of this file name; `None` where the crate has none
/// of that name or cannot load it.
pub uninterp spec fn opencc_builtin(file_name: Seq<char>) -> Option<OpenCC>;

/// `OpenCC::from_config` of `ferrous_opencc`, with the configuration that
/// `BuiltinConfig::from_filename` finds for a file name. Configurations and dictionaries are built
/// into the crate, so the outcome depends on the file name alone.
#[verifier::external_body]
fn load_builtin(file_name: &str) -> (cc: Option<OpenCC>)
    ensures
        cc == opencc_builtin(file_name@),
{
    BuiltinConfig::from_filename(file_name).and_then(OpenCC::from_config).ok()
}

/// What becomes of `text` in traditional Chinese with the wording of Taiwan; `text` itself where
/// the converter cannot be loaded.
pub open spec fn taiwan_text(text: Seq<char>) -> Seq<char> {
    match opencc_builtin("s2twp.json"@) {
        Some(cc) => opencc_text(cc, text),
        None => text,
    }
}

/// Converts text to traditional Chinese, as far as the converter could be loaded.
pub struct Traditional {
    opencc: Option<OpenCC>,
}

impl Traditional {
    /// What this makes of `text`: what its converter does, or `text` itself without one.
    pub closed spec fn converted(&self, text: Seq<char>) -> Seq<char> {
        match self.opencc {
            Some(cc) => opencc_text(cc, text),
            None => text,
        }
    }

    /// There is a converter.
    pub closed spec fn is_loaded(&self) -> bool {
        self.opencc is Some
    }

    /// Without a converter, text stays as it is.
    pub proof fn unloaded_keeps_text(&self, text: Seq<char>)
        requires
            !self.is_loaded(),
        ensures
            self.converted(text) == text,
    {
    }

    /// With the converter for Taiwan, or without one where it cannot be loaded.
    pub fn load() -> (t: Self)
        ensures
            forall|text: Seq<char>| #[trigger] t.converted(text) == taiwan_text(text),
            t.is_loaded() == (opencc_builtin("s2twp.json"@) is Some),
    {
        Traditional { opencc: load_builtin("s2twp.json") }
    }

    /// Without a converter.
    pub fn none() -> (t: Self)
        ensures
            !t.is_loaded(),
    {
        Traditional { opencc: None }
    }

    /// Whether there is a converter.
    pub fn loaded(&self) -> (b: bool)
        ensures
            b == self.is_loaded(),
    {
        self.opencc.is_some()
    }

    /// `text` in traditional Chinese; `text` itself without a converter.
    pub fn to_traditional(&self, text: &str) -> (out: String)
        ensures
            out@ == self.converted(text@),
    {
        match &self.opencc {
            Some(cc) => cc.convert(text),
            None => text.to_owned(),
        }
    }
}

} // verus!
