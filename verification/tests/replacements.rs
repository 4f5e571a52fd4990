//! The table of corrections.

use raflow::error::RaflowError;
use raflow::replacements::{apply_replacements, parse_replacements, upsert_replacement};

#[test]
fn parse_replacements_skips_junk_and_sorts_by_length_desc() {
    let contents = "\
# 這是註解\n\
狗 => dog\n\
阿狗CD => ArgoCD\n\
\n\
  卡夫卡  =>  Kafka  \n\
# 另一個註解\n\
沒有箭頭的行\n\
=> 缺左邊\n\
缺右邊 =>\n\
K8S => Kubernetes\n";
    let reps = parse_replacements(contents);
    assert_eq!(
        reps,
        vec![
            ("阿狗CD".to_string(), "ArgoCD".to_string()),
            ("卡夫卡".to_string(), "Kafka".to_string()),
            ("K8S".to_string(), "Kubernetes".to_string()),
            ("狗".to_string(), "dog".to_string()),
        ],
    );
}

#[test]
fn apply_replacements_is_case_insensitive_and_longest_first() {
    let reps = parse_replacements("狗 => dog\n阿狗CD => ArgoCD");
    assert_eq!(
        apply_replacements("我們的阿狗CD工具", &reps),
        "我們的ArgoCD工具"
    );

    let ci = parse_replacements("argocd => ArgoCD");
    assert_eq!(
        apply_replacements("我用 ARGOCD 部署", &ci),
        "我用 ArgoCD 部署"
    );
    assert_eq!(apply_replacements("跑 argocd sync", &ci), "跑 ArgoCD sync");
    assert_eq!(apply_replacements("ArgoCD 已存在", &ci), "ArgoCD 已存在");

    assert_eq!(apply_replacements("純文字", &ci), "純文字");
    assert_eq!(apply_replacements("阿狗CD", &Vec::new()), "阿狗CD");
}

#[test]
fn upsert_replacement_adds_updates_and_preserves_file() {
    assert_eq!(
        upsert_replacement("", "ANSIPO", "Ansible").ok().as_deref(),
        Some("ANSIPO => Ansible\n")
    );

    assert_eq!(
        upsert_replacement("# 標題\n狗 => dog", "ANSIPO", "Ansible")
            .ok()
            .as_deref(),
        Some("# 標題\n狗 => dog\nANSIPO => Ansible\n")
    );

    assert_eq!(
        upsert_replacement("# c\nANSIPO => Foo\n狗 => dog\n", "ANSIPO", "Ansible")
            .ok()
            .as_deref(),
        Some("# c\nANSIPO => Ansible\n狗 => dog\n")
    );

    assert_eq!(
        upsert_replacement("ansipo => Foo\n", "ANSIPO", "Ansible")
            .ok()
            .as_deref(),
        Some("ANSIPO => Ansible\n")
    );

    assert_eq!(
        upsert_replacement("", "  ANSIPO  ", "  Ansible  ")
            .ok()
            .as_deref(),
        Some("ANSIPO => Ansible\n")
    );

    assert_eq!(
        upsert_replacement("# a => b\n", "ANSIPO", "Ansible")
            .ok()
            .as_deref(),
        Some("# a => b\nANSIPO => Ansible\n")
    );

    assert_eq!(
        upsert_replacement("狗 => dog\n", "", "X").ok().as_deref(),
        Some("狗 => dog\n")
    );
    assert_eq!(
        upsert_replacement("狗 => dog\n", "X", "   ")
            .ok()
            .as_deref(),
        Some("狗 => dog\n")
    );

    assert_eq!(
        upsert_replacement("狗 => dog\n", "Ansible", "Ansible")
            .ok()
            .as_deref(),
        Some("狗 => dog\n")
    );
    assert_eq!(
        upsert_replacement("狗 => dog\n", " Ansible ", "Ansible")
            .ok()
            .as_deref(),
        Some("狗 => dog\n")
    );

    assert_eq!(
        upsert_replacement("", "argocd", "ArgoCD").ok().as_deref(),
        Some("argocd => ArgoCD\n")
    );

    assert_eq!(
        upsert_replacement("", "AtoB", "A => B").ok().as_deref(),
        Some("AtoB => A => B\n")
    );
}

#[test]
fn upsert_replacement_rejects_line_oriented_metachars() {
    for (heard, correct) in [
        ("AN\nSIPO", "Ansible"),
        ("ANSIPO", "Ansi\nble"),
        ("AN\rSIPO", "Ansible"),
        ("ANSIPO", "Ansi\rble"),
        ("A => B", "Ansible"),
        ("#note", "Ansible"),
    ] {
        let r = upsert_replacement("狗 => dog\n", heard, correct);
        assert!(
            matches!(r, Err(RaflowError::InvalidReplacement { .. })),
            "({heard:?}, {correct:?}) 應被拒為 InvalidReplacement，實得 {r:?}"
        );
    }
}

#[test]
fn upsert_replacement_result_round_trips_through_parser() {
    let cases = [
        ("", "ANSIPO", "Ansible"),
        ("# c\n狗 => dog\n", "  卡夫卡  ", "  Kafka  "),
        ("", "AtoB", "A => B"),
    ];
    for (existing, heard, correct) in cases {
        let before = parse_replacements(existing).len();
        let out = upsert_replacement(existing, heard, correct)
            .ok()
            .unwrap_or_default();
        let rules = parse_replacements(&out);
        assert_eq!(
            rules.len(),
            before + 1,
            "({existing:?}, {heard:?}, {correct:?}) 應恰好新增一條規則"
        );
        let hit = rules
            .iter()
            .find(|(from, _)| from == heard.trim())
            .map(|(_, to)| to.as_str());
        assert_eq!(
            hit,
            Some(correct.trim()),
            "round-trip 後 from/to 必須等於 trim 後輸入"
        );
    }
}

#[test]
fn learning_a_correction_twice_changes_nothing_more() {
    for existing in ["", "# c\n", "狗 => dog", "a => b\r\nANSIPO => x\r\n"] {
        let once = upsert_replacement(existing, "ANSIPO", "Ansible").unwrap();
        assert_eq!(upsert_replacement(&once, "ANSIPO", "Ansible").unwrap(), once);
    }
}

#[test]
fn rules_of_equal_length_keep_their_order() {
    let rules = parse_replacements("ab => 1\nabc => 2\ncd => 3\nbcd => 4\n");
    let from: Vec<&str> = rules.iter().map(|(f, _)| f.as_str()).collect();
    assert_eq!(from, vec!["abc", "bcd", "ab", "cd"]);
}

#[test]
fn matches_do_not_overlap() {
    let rules = parse_replacements("aa => b\n");
    assert_eq!(apply_replacements("aaa AA", &rules), "ba b");
}

#[test]
fn a_learned_correction_takes_effect_among_other_rules() {
    let existing = "ANSIPA => x\nlong ANSIPO tail => y\nansipo => old\nANSIPO => later\nible => IBLE\n";
    let contents = upsert_replacement(existing, "AnsiPO", "Ansible").unwrap();
    let rules = parse_replacements(&contents);
    assert_eq!(apply_replacements("ansipo", &rules), "AnsIBLE");
    let alone = parse_replacements(&upsert_replacement("", "AnsiPO", "Ansible").unwrap());
    assert_eq!(apply_replacements("ANSIPO", &alone), "Ansible");
}
