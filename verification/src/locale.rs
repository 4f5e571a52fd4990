//! The language that is spoken, from the keyboard's input source.

use vstd::prelude::*;
use vstd::slice::slice_subrange;
use crate::text::{eq_folded, to_chars};
use crate::text::same_folded;

verus! {

/// The text begins with the letters, in either case.
pub open spec fn begins(text: Seq<char>, letters: Seq<char>) -> bool {
    letters.len() <= text.len() && same_folded(text.take(letters.len() as int), letters)
}

fn begins_with(text: &[char], letters: &[char]) -> (b: bool)
    ensures
        b == begins(text@, letters@),
{
    if letters.len() > text.len() {
        return false;
    }
    let head = slice_subrange(text, 0, letters.len());
    assert(head@ =~= text@.take(letters@.len() as int));
    eq_folded(head, letters)
}

/// The locale for the language of an input source: English for English, else Chinese.
pub open spec fn locale_of(lang: Option<&str>) -> Seq<char> {
    match lang {
        Some(l) => if !begins(l@, "zh"@) && begins(l@, "en"@) {
            "en-US"@
        } else {
            "zh-TW"@
        },
        None => "zh-TW"@,
    }
}

/// The locale for the language of an input source.
pub fn locale_for_language(lang: Option<&str>) -> (locale: &'static str)
    ensures
        locale@ == locale_of(lang),
{
    match lang {
        Some(l) => {
            let chars = to_chars(l);
            if begins_with(chars.as_slice(), to_chars("zh").as_slice()) {
                "zh-TW"
            } else if begins_with(chars.as_slice(), to_chars("en").as_slice()) {
                "en-US"
            } else {
                "zh-TW"
            }
        },
        None => "zh-TW",
    }
}

/// The locale to record in, from the first language of the keyboard's input source, where it has
/// one.
pub fn current_input_locale(lang: Option<&str>) -> (locale: String)
    ensures
        locale@ == locale_of(lang),
{
    locale_for_language(lang).to_owned()
}

/// The locale is one of the two that are served, whatever the input source.
pub proof fn locale_is_served(lang: Option<&str>)
    ensures
        locale_of(lang) == "zh-TW"@ || locale_of(lang) == "en-US"@,
{
}

/// An input source whose language begins with the letters of English is recorded in English, in
/// either case, and no other one is.
pub proof fn english_is_recorded_for_english_only(lang: &str)
    ensures
        locale_of(Some(lang)) == "en-US"@ <==> lang@.len() >= 2 && (lang@[0] == 'e' || lang@[0]
            == 'E') && (lang@[1] == 'n' || lang@[1] == 'N'),
        locale_of(None) == "zh-TW"@,
{
    reveal_strlit("zh");
    reveal_strlit("en");
    reveal_strlit("en-US");
    reveal_strlit("zh-TW");
    assert("en-US"@[0] != "zh-TW"@[0]);
    if lang@.len() >= 2 {
        let head = lang@.take(2);
        assert(head[0] == lang@[0] && head[1] == lang@[1]);
        assert("zh"@.len() == 2 && "en"@.len() == 2);
        assert(begins(lang@, "en"@) <==> same_folded(head, "en"@));
        assert(begins(lang@, "zh"@) <==> same_folded(head, "zh"@));
    }
}

} // verus!
