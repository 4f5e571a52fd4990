//! Terms, and the tokens that corrections are offered for.

use raflow::error::RaflowError;
use raflow::terms::{
    default_contextual_terms, default_prompt_terms, merge_contextual_terms,
    prompt_terms_user_first, upsert_contextual_priority_term,
};
use raflow::tokens::{extract_english_tokens, RecentTokens};

#[test]
fn upsert_contextual_priority_term_prepends_and_dedups() {
    let ok = |e: &str, t: &str| upsert_contextual_priority_term(e, t).ok();
    assert_eq!(ok("", "Ansible").as_deref(), Some("Ansible\n"));
    assert_eq!(ok("# c\n", "Ansible").as_deref(), Some("# c\nAnsible\n"));
    assert_eq!(
        ok("# c\nFoo\nBar\n", "Ansible").as_deref(),
        Some("# c\nAnsible\nFoo\nBar\n")
    );
    assert_eq!(ok("Foo", "Ansible").as_deref(), Some("Ansible\nFoo\n"));
    assert_eq!(
        ok("Ansible\nFoo\n", "Ansible").as_deref(),
        Some("Ansible\nFoo\n")
    );
    assert_eq!(
        ok("  Ansible  \nFoo\n", "Ansible").as_deref(),
        Some("  Ansible  \nFoo\n")
    );
    assert_eq!(
        ok("Foo\nBar\nAnsible\n", "Ansible").as_deref(),
        Some("Ansible\nFoo\nBar\n")
    );
    assert_eq!(
        ok("# c\nFoo\nBar\nAnsible\n", "Ansible").as_deref(),
        Some("# c\nAnsible\nFoo\nBar\n")
    );
    assert_eq!(
        ok("Foo\nAnsible\nBar\nAnsible\n", "Ansible").as_deref(),
        Some("Ansible\nFoo\nBar\n")
    );
    assert_eq!(ok("", "  Ansible  ").as_deref(), Some("Ansible\n"));
    assert_eq!(ok("Foo\n", "   ").as_deref(), Some("Foo\n"));
    assert!(matches!(
        upsert_contextual_priority_term("", "a\nb"),
        Err(RaflowError::InvalidReplacement { .. })
    ));
    assert!(matches!(
        upsert_contextual_priority_term("", "#note"),
        Err(RaflowError::InvalidReplacement { .. })
    ));
}

#[test]
fn extract_english_tokens_pulls_ascii_word_runs() {
    assert_eq!(
        extract_english_tokens("我想部署到雲端"),
        Vec::<String>::new()
    );

    assert_eq!(extract_english_tokens(""), Vec::<String>::new());

    assert_eq!(
        extract_english_tokens("我用 Terraform 跟 K8S 部署 Ansible"),
        vec!["Terraform", "K8S", "Ansible"]
    );

    assert_eq!(
        extract_english_tokens("(ArgoCD) 很好用，用 Helm。"),
        vec!["ArgoCD", "Helm"]
    );

    assert_eq!(extract_english_tokens("升級到 v3 版本 123 次"), vec!["v3"]);

    assert_eq!(
        extract_english_tokens("large-v3-turbo"),
        vec!["large", "v3", "turbo"]
    );

    assert_eq!(extract_english_tokens("K8S 又 K8S"), vec!["K8S", "K8S"]);
}

#[test]
fn recent_tokens_caps_and_dedups_newest_first() {
    assert_eq!(RecentTokens::new(3).candidates(), Vec::<String>::new());

    let mut b = RecentTokens::new(3);
    b.push_sentence("用 Terraform 跟 K8S");
    assert_eq!(b.candidates(), vec!["Terraform", "K8S"]);

    let mut b = RecentTokens::new(2);
    b.push_sentence("Apple");
    b.push_sentence("Banana");
    b.push_sentence("Cherry");
    assert_eq!(b.candidates(), vec!["Cherry", "Banana"]);

    let mut b = RecentTokens::new(3);
    b.push_sentence("Foo");
    b.push_sentence("Bar Foo");
    assert_eq!(b.candidates(), vec!["Bar", "Foo"]);

    let mut b = RecentTokens::new(1);
    b.push_sentence("Alpha");
    b.push_sentence("純中文沒有英文");
    assert_eq!(b.candidates(), vec!["Alpha"]);

    let mut b = RecentTokens::new(0);
    b.push_sentence("Alpha");
    assert_eq!(b.candidates(), Vec::<String>::new());
}

#[test]
fn prompt_terms_user_first_orders_and_dedups() {
    let user = "MyService\n# 註解\n\nArgoCD\n";
    let terms = prompt_terms_user_first(Some(user));
    assert_eq!(terms[0], "MyService", "使用者詞應排最前：{terms:?}");
    assert_eq!(terms[1], "ArgoCD");
    assert_eq!(terms.iter().filter(|t| *t == "ArgoCD").count(), 1);
    assert!(
        terms.iter().any(|t| t == "Terraform"),
        "缺核心預設：{terms:?}"
    );
    assert_eq!(prompt_terms_user_first(None), default_prompt_terms());
}

#[test]
fn merge_contextual_terms_appends_dedups_and_skips_comments() {
    let defaults = &["Kubernetes", "Docker", "AWS"];
    let user = "  Terraform \n\n# 這是註解\nDocker\nkubectl\n#另一個註解\n   \n我的服務ABC";
    let merged = merge_contextual_terms(defaults, Some(user));
    assert_eq!(
        merged,
        vec![
            "Kubernetes".to_string(),
            "Docker".to_string(),
            "AWS".to_string(),
            "Terraform".to_string(),
            "kubectl".to_string(),
            "我的服務ABC".to_string(),
        ],
    );
    assert_eq!(
        merge_contextual_terms(defaults, None),
        vec![
            "Kubernetes".to_string(),
            "Docker".to_string(),
            "AWS".to_string()
        ],
    );
    assert!(!default_contextual_terms().is_empty());
    assert!(default_contextual_terms().contains(&"ChatGPT"));
}

#[test]
fn a_promoted_term_leads_the_prompt() {
    for existing in ["", "# c\nFoo\nBar\n", "Foo\nAnsible\n"] {
        let once = upsert_contextual_priority_term(existing, " Ansible ").unwrap();
        assert_eq!(prompt_terms_user_first(Some(&once))[0], "Ansible");
        assert_eq!(upsert_contextual_priority_term(&once, "Ansible").unwrap(), once);
    }
    assert!(matches!(
        upsert_contextual_priority_term("", "a\rb"),
        Err(RaflowError::InvalidReplacement { .. })
    ));
}

#[test]
fn no_built_in_term_is_there_twice() {
    let terms = default_contextual_terms();
    for (i, t) in terms.iter().enumerate() {
        assert!(!terms[..i].contains(t), "{t}");
    }
    assert_eq!(default_prompt_terms().len(), 9);
}
