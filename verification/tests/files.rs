//! Changes of the user's files.

use raflow::error::RaflowError;
use raflow::files::{
    open_user_config, upsert_contextual_priority_term_file, upsert_replacement_file, FileRead,
    FileUpdate, OpenPlan, CONTEXTUAL_TERMS_TEMPLATE, REPLACEMENTS_TEMPLATE,
};
use raflow::replacements::parse_replacements;
use raflow::terms::merge_contextual_terms;

fn contents(s: &str) -> FileRead {
    FileRead::Contents(s.to_string())
}

#[test]
fn a_correction_makes_the_file_or_is_added_to_it() {
    assert_eq!(
        upsert_replacement_file("/r", FileRead::Missing, "ANSIPO", "Ansible"),
        Ok(FileUpdate::Write("ANSIPO => Ansible\n".to_string()))
    );
    assert_eq!(
        upsert_replacement_file("/r", contents("ANSIPO => Ansible\n"), "狗", "dog"),
        Ok(FileUpdate::Write("ANSIPO => Ansible\n狗 => dog\n".to_string()))
    );
    assert_eq!(
        upsert_replacement_file("/r", contents("ANSIPO => Ansible\n"), "   ", "X"),
        Ok(FileUpdate::Keep)
    );
    assert_eq!(
        upsert_replacement_file("/r", contents("a => b\n"), "a", "b"),
        Ok(FileUpdate::Keep)
    );
}

#[test]
fn a_refused_correction_touches_no_file() {
    assert!(matches!(
        upsert_replacement_file("/r", contents("a => b\n"), "a\nb", "c"),
        Err(RaflowError::InvalidReplacement { .. })
    ));
    assert!(matches!(
        upsert_contextual_priority_term_file("/t", contents("Foo\n"), "a\nb"),
        Err(RaflowError::InvalidReplacement { .. })
    ));
}

#[test]
fn a_file_that_cannot_be_read_is_left_alone() {
    let failed = || FileRead::Failed("permission denied".to_string());
    let expected = |path: &str| {
        Err(RaflowError::ConfigLoad {
            path: path.to_string(),
            source: "permission denied".to_string(),
        })
    };
    assert_eq!(upsert_replacement_file("/r", failed(), "a", "b"), expected("/r"));
    assert_eq!(
        upsert_contextual_priority_term_file("/t", failed(), "Ansible"),
        expected("/t")
    );
}

#[test]
fn a_term_is_promoted_in_its_file() {
    let up = upsert_contextual_priority_term_file;
    assert_eq!(
        up("/t", FileRead::Missing, "Ansible"),
        Ok(FileUpdate::Write("Ansible\n".to_string()))
    );
    assert_eq!(
        up("/t", contents("# c\nFoo\nBar\nAnsible\n"), "Ansible"),
        Ok(FileUpdate::Write("# c\nAnsible\nFoo\nBar\n".to_string()))
    );
    assert_eq!(
        up("/t", contents("# c\nAnsible\nFoo\nBar\n"), "Ansible"),
        Ok(FileUpdate::Keep)
    );
}

#[test]
fn templates_hold_comments_only() {
    assert!(parse_replacements(REPLACEMENTS_TEMPLATE).is_empty());
    assert!(merge_contextual_terms(&[], Some(CONTEXTUAL_TERMS_TEMPLATE)).is_empty());
}

#[test]
fn a_missing_file_is_made_before_it_is_opened() {
    assert_eq!(open_user_config(None, true), OpenPlan::NoPath);
    assert_eq!(
        open_user_config(Some("/x".to_string()), true),
        OpenPlan::Open("/x".to_string())
    );
    assert_eq!(
        open_user_config(Some("/x".to_string()), false),
        OpenPlan::CreateAndOpen("/x".to_string())
    );
}
