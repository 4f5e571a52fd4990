//! Teaching the tool a correction.

use raflow::correction::{
    after_rule_saved, after_term_saved, teach_correction, CorrectionInput, TeachStep,
};
use raflow::error::RaflowError;

fn input(heard: &str, correct: &str, add_to_priority: bool) -> CorrectionInput {
    CorrectionInput {
        heard: heard.to_string(),
        correct: correct.to_string(),
        add_to_priority,
    }
}

fn full() -> RaflowError {
    RaflowError::ConfigWrite {
        path: "/x".to_string(),
        source: "disk full".to_string(),
    }
}

#[test]
fn both_sides_have_to_be_filled_in() {
    assert_eq!(teach_correction(&None, None), TeachStep::Cancelled);
    for (heard, correct) in [("", "x"), ("x", "  "), (" ", "")] {
        assert_eq!(
            teach_correction(&Some(input(heard, correct, true)), Some("/r".to_string())),
            TeachStep::Notice {
                log: None,
                title: "未記住",
                body: "「聽成」和「正確」都要填。".to_string()
            }
        );
    }
    assert_eq!(
        teach_correction(&Some(input("a", "b", false)), None),
        TeachStep::Notice {
            log: None,
            title: "記住失敗",
            body: "找不到設定檔路徑（HOME 未設？）。".to_string()
        }
    );
    assert_eq!(
        teach_correction(&Some(input("  ANSIPO ", " Ansible\n", true)), Some("/r".to_string())),
        TeachStep::SaveRule {
            path: "/r".to_string(),
            heard: "ANSIPO".to_string(),
            correct: "Ansible".to_string()
        }
    );
}

#[test]
fn the_term_is_saved_after_the_rule() {
    let i = input(" ANSIPO ", " Ansible ", true);
    assert_eq!(
        after_rule_saved(&i, &Ok(()), Some("/t".to_string())),
        TeachStep::SaveTerm {
            path: "/t".to_string(),
            term: "Ansible".to_string()
        }
    );
    assert_eq!(
        after_term_saved(&i, &Ok(())),
        TeachStep::Remembered {
            log: "raflow: 已記住更正「ANSIPO => Ansible」＋優先區（下次錄音生效）".to_string()
        }
    );
    assert_eq!(
        after_rule_saved(&input("a", "b", false), &Ok(()), None),
        TeachStep::Remembered {
            log: "raflow: 已記住更正「a => b」（下次錄音生效）".to_string()
        }
    );
}

#[test]
fn every_failure_is_told() {
    let i = input("a", "b", true);
    assert_eq!(
        after_rule_saved(&i, &Err(full()), Some("/t".to_string())),
        TeachStep::Notice {
            log: Some("! 更正寫入失敗: failed to write config to /x".to_string()),
            title: "記住失敗",
            body: "寫入取代規則失敗：failed to write config to /x".to_string()
        }
    );
    assert_eq!(
        after_rule_saved(&i, &Ok(()), None),
        TeachStep::Notice {
            log: Some(
                "! 無法解析 contextual_terms.txt 路徑，未加入優先區（取代規則已存）".to_string()
            ),
            title: "已記住（優先區未加入）",
            body: "取代規則已存，但找不到 contextual_terms.txt 路徑。".to_string()
        }
    );
    assert_eq!(
        after_term_saved(&i, &Err(full())),
        TeachStep::Notice {
            log: Some("! 優先區寫入失敗（取代規則已存）: failed to write config to /x".to_string()),
            title: "已記住（優先區未加入）",
            body: "取代規則已存，但加入 Whisper 優先區失敗：failed to write config to /x".to_string()
        }
    );
}
