//! Teaching the tool a correction, step by step.
//!
//! The application asks the user, saves files and shows notices; what comes next is decided here.

use vstd::prelude::*;
use crate::error::RaflowError;
use crate::permissions::error_report;
use crate::text::{to_chars, to_text, trim};
use crate::permissions::report_text;
use crate::text::{
    is_middle, is_space, lemma_blank, trimmed, trimming_takes_the_white_space_around,
};

verus! {

/// What the user filled in.
#[derive(Debug, PartialEq, Eq)]
pub struct CorrectionInput {
    /// What was heard.
    pub heard: String,
    /// What was said.
    pub correct: String,
    /// What was said becomes the first of the user's terms as well.
    pub add_to_priority: bool,
}

/// What comes next.
#[derive(Debug, PartialEq, Eq)]
pub enum TeachStep {
    /// Nothing: the user has cancelled.
    Cancelled,
    /// The correction goes into the file of corrections.
    SaveRule { path: String, heard: String, correct: String },
    /// The term goes into the file of terms.
    SaveTerm { path: String, term: String },
    /// The user is told that something went wrong; some of it goes to the log first.
    Notice { log: Option<String>, title: &'static str, body: String },
    /// All is done; the log says so, the user is not bothered.
    Remembered { log: String },
}

/// A step as text.
pub enum TeachText {
    Cancelled,
    SaveRule(Seq<char>, Seq<char>, Seq<char>),
    SaveTerm(Seq<char>, Seq<char>),
    Notice(Option<Seq<char>>, Seq<char>, Seq<char>),
    Remembered(Seq<char>),
}

impl View for TeachStep {
    type V = TeachText;

    open spec fn view(&self) -> TeachText {
        match self {
            TeachStep::Cancelled => TeachText::Cancelled,
            TeachStep::SaveRule { path, heard, correct } => TeachText::SaveRule(
                path@,
                heard@,
                correct@,
            ),
            TeachStep::SaveTerm { path, term } => TeachText::SaveTerm(path@, term@),
            TeachStep::Notice { log, title, body } => TeachText::Notice(
                match log {
                    Some(l) => Some(l@),
                    None => None,
                },
                title@,
                body@,
            ),
            TeachStep::Remembered { log } => TeachText::Remembered(log@),
        }
    }
}

fn trimmed_text(s: &str) -> (t: String)
    ensures
        t@ == trimmed(s@),
{
    let chars = to_chars(s);
    to_text(trim(chars.as_slice()))
}

/// The first step, once the user has filled in the correction or has cancelled. `rules_path` is
/// where the file of corrections is.
pub open spec fn first_step(
    input: Option<CorrectionInput>,
    rules_path: Option<String>,
) -> TeachText {
    match input {
        None => TeachText::Cancelled,
        Some(i) => if trimmed(i.heard@).len() == 0 || trimmed(i.correct@).len() == 0 {
            TeachText::Notice(None, "未記住"@, "「聽成」和「正確」都要填。"@)
        } else {
            match rules_path {
                None => TeachText::Notice(
                    None,
                    "記住失敗"@,
                    "找不到設定檔路徑（HOME 未設？）。"@,
                ),
                Some(p) => TeachText::SaveRule(p@, trimmed(i.heard@), trimmed(i.correct@)),
            }
        },
    }
}

/// The first step, once the user has filled in the correction or has cancelled. `rules_path` is
/// where the file of corrections is.
pub fn teach_correction(input: &Option<CorrectionInput>, rules_path: Option<String>) -> (step:
    TeachStep)
    ensures
        step@ == first_step(*input, rules_path),
{
    match input {
        None => TeachStep::Cancelled,
        Some(i) => {
            let heard = trimmed_text(i.heard.as_str());
            let correct = trimmed_text(i.correct.as_str());
            if heard.as_str().is_empty() || correct.as_str().is_empty() {
                return TeachStep::Notice {
                    log: None,
                    title: "未記住",
                    body: "「聽成」和「正確」都要填。".to_owned(),
                };
            }
            match rules_path {
                None => TeachStep::Notice {
                    log: None,
                    title: "記住失敗",
                    body: "找不到設定檔路徑（HOME 未設？）。".to_owned(),
                },
                Some(path) => TeachStep::SaveRule { path, heard, correct },
            }
        },
    }
}

/// `t` is one stretch of `s`, only white space stands around it there, and it neither begins nor
/// ends in any.
pub open spec fn is_all_but_blanks(s: Seq<char>, t: Seq<char>) -> bool {
    &&& exists|i: int, j: int| #[trigger] is_middle(s, t, i, j)
    &&& t.len() > 0 ==> !is_space(t.first()) && !is_space(t.last())
}

/// A correction is saved exactly where neither side is blank, and then without the white space
/// around it.
pub proof fn filled_in_corrections_are_saved(input: CorrectionInput, path: String)
    ensures
        (exists|i: int| 0 <= i < input.heard@.len() && !is_space(#[trigger] input.heard@[i])) && (
        exists|i: int| 0 <= i < input.correct@.len() && !is_space(#[trigger] input.correct@[i]))
            <==> first_step(Some(input), Some(path)) is SaveRule,
        first_step(Some(input), Some(path)) matches TeachText::SaveRule(p, heard, correct) ==> {
            &&& p == path@
            &&& is_all_but_blanks(input.heard@, heard)
            &&& is_all_but_blanks(input.correct@, correct)
        },
        first_step(None, Some(path)) is Cancelled,
{
    lemma_blank(input.heard@);
    lemma_blank(input.correct@);
    trimming_takes_the_white_space_around(input.heard@);
    trimming_takes_the_white_space_around(input.correct@);
}

/// What the log says when all is done.
pub open spec fn remembered_text(input: CorrectionInput) -> Seq<char> {
    "raflow: 已記住更正「"@ + trimmed(input.heard@) + " => "@ + trimmed(input.correct@) + "」"@
        + (if input.add_to_priority {
        "＋優先區"@
    } else {
        Seq::empty()
    }) + "（下次錄音生效）"@
}

fn remembered(input: &CorrectionInput) -> (log: String)
    ensures
        log@ == remembered_text(*input),
{
    let mut log = "raflow: 已記住更正「".to_owned();
    let heard = trimmed_text(input.heard.as_str());
    let correct = trimmed_text(input.correct.as_str());
    log.append(heard.as_str());
    log.append(" => ");
    log.append(correct.as_str());
    log.append("」");
    let ghost so_far = log@;
    if input.add_to_priority {
        log.append("＋優先區");
    } else {
        assert(so_far + Seq::<char>::empty() == so_far);
    }
    log.append("（下次錄音生效）");
    log
}

fn with_message(prefix: &str, err: &RaflowError) -> (text: String)
    ensures
        text@ == prefix@ + err.message_text(),
{
    let mut text = prefix.to_owned();
    let message = err.message();
    text.append(message.as_str());
    text
}

/// The step after the correction was saved or was not. `terms_path` is where the file of terms is.
pub fn after_rule_saved(
    input: &CorrectionInput,
    saved: &Result<(), RaflowError>,
    terms_path: Option<String>,
) -> (step: TeachStep)
    ensures
        step@ == (match saved {
            Err(e) => TeachText::Notice(
                Some(report_text("! 更正寫入失敗"@, *e)),
                "記住失敗"@,
                "寫入取代規則失敗："@ + e.message_text(),
            ),
            Ok(_) => if !input.add_to_priority {
                TeachText::Remembered(remembered_text(*input))
            } else {
                match terms_path {
                    Some(p) => TeachText::SaveTerm(p@, trimmed(input.correct@)),
                    None => TeachText::Notice(
                        Some(
                            "! 無法解析 contextual_terms.txt 路徑，未加入優先區（取代規則已存）"@,
                        ),
                        "已記住（優先區未加入）"@,
                        "取代規則已存，但找不到 contextual_terms.txt 路徑。"@,
                    ),
                }
            },
        }),
{
    match saved {
        Err(e) => TeachStep::Notice {
            log: Some(error_report("! 更正寫入失敗", e)),
            title: "記住失敗",
            body: with_message("寫入取代規則失敗：", e),
        },
        Ok(_) => {
            if !input.add_to_priority {
                return TeachStep::Remembered { log: remembered(input) };
            }
            match terms_path {
                Some(path) => TeachStep::SaveTerm {
                    path,
                    term: trimmed_text(input.correct.as_str()),
                },
                None => TeachStep::Notice {
                    log: Some(
                        "! 無法解析 contextual_terms.txt 路徑，未加入優先區（取代規則已存）".to_owned(),
                    ),
                    title: "已記住（優先區未加入）",
                    body: "取代規則已存，但找不到 contextual_terms.txt 路徑。".to_owned(),
                },
            }
        },
    }
}

/// The step after the term was saved or was not.
pub fn after_term_saved(input: &CorrectionInput, saved: &Result<(), RaflowError>) -> (step:
    TeachStep)
    ensures
        step@ == (match saved {
            Err(e) => TeachText::Notice(
                Some(report_text("! 優先區寫入失敗（取代規則已存）"@, *e)),
                "已記住（優先區未加入）"@,
                "取代規則已存，但加入 Whisper 優先區失敗："@ + e.message_text(),
            ),
            Ok(_) => TeachText::Remembered(remembered_text(*input)),
        }),
{
    match saved {
        Err(e) => TeachStep::Notice {
            log: Some(error_report("! 優先區寫入失敗（取代規則已存）", e)),
            title: "已記住（優先區未加入）",
            body: with_message("取代規則已存，但加入 Whisper 優先區失敗：", e),
        },
        Ok(_) => TeachStep::Remembered { log: remembered(input) },
    }
}

} // verus!
