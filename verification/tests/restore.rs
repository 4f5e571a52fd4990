//! Bringing English terms back.

use raflow::restore::{extract_runs, levenshtein, projection, restore_terms};

fn vocab() -> Vec<String> {
    [
        "ArgoCD",
        "GitLab CI",
        "Terraform",
        "Vault",
        "CI/CD",
        "IaC",
        "Secret Manager",
        "Kubernetes",
        "Docker",
    ]
    .iter()
    .map(|s| s.to_string())
    .collect()
}

#[test]
fn restore_terms_recovers_vocab_hits_and_guards_misalignment() {
    let cases: &[(&str, &str, &str)] = &[
        (
            "我們用11CI搭配R5CT做XHD部署。",
            "我們用GitLab CI搭配ArgoCD做CI/CD部署",
            "我們用GitLab CI搭配ArgoCD做CI/CD部署。",
        ),
        (
            "Telephone的State存在Vault後面的Secret Manager。",
            "Terraform的state存在Vault後面的Secret Manager",
            "Terraform的State存在Vault後面的Secret Manager。",
        ),
        (
            "Teraphone是我們的IaC工具",
            "Terraform是我們的IaC工具",
            "Terraform是我們的IaC工具",
        ),
        ("我們用argocd部署", "我們用ArgoCD部署", "我們用ArgoCD部署"),
        (
            "我們用GitLab CI搭配ArgoCD部署",
            "我們用GitLab CI搭配ArgoCD部署",
            "我們用GitLab CI搭配ArgoCD部署",
        ),
        ("我們用的部署", "我們用ArgoCD部署", "我們用的部署"),
        ("我們用Full部署", "我們用Foo部署", "我們用Full部署"),
        ("使用Space與R5CT", "使用state與ArgoCD", "使用Space與R5CT"),
        (
            "用R5CT and Podman部署",
            "用ArgoCD部署",
            "用R5CT and Podman部署",
        ),
        ("我們用R5CT部署", "", "我們用R5CT部署"),
        (
            "我們用Docker部署",
            "我們用Kubernetes部署",
            "我們用Docker部署",
        ),
        (
            "我們用GitLab CI部署",
            "我們用Terraform部署",
            "我們用GitLab CI部署",
        ),
        (
            "我們用R5CT，做部署。",
            "我們用ArgoCD做不熟",
            "我們用ArgoCD，做部署。",
        ),
    ];
    for (whisper, apple, expected) in cases.iter().copied() {
        assert_eq!(
            restore_terms(whisper, apple, &vocab()),
            expected,
            "restore_terms({whisper:?}, {apple:?})"
        );
    }
}

#[test]
fn chinese_and_punctuation_stay_between_terms() {
    let vocab = vocab();
    assert_eq!(restore_terms("純中文。", "我們用ArgoCD", &vocab), "純中文。");
    assert_eq!(
        restore_terms("用git，lab部署", "用GitLab CI部署", &vocab),
        "用git，lab部署"
    );
}

#[test]
fn edit_distance_counts_changes() {
    let chars = |s: &str| s.chars().collect::<Vec<char>>();
    for (a, b, d) in [("", "", 0), ("abc", "", 3), ("kitten", "sitting", 3), ("ab", "ba", 2)] {
        assert_eq!(levenshtein(&chars(a), &chars(b)), d);
        assert_eq!(levenshtein(&chars(b), &chars(a)), d);
    }
}

#[test]
fn runs_are_english_stretches() {
    let s: Vec<char> = "我用GitLab CI跟K8S".chars().collect();
    let runs = extract_runs(&s);
    let cut: Vec<String> = runs.iter().map(|r| s[r.start..r.end].iter().collect()).collect();
    assert_eq!(cut, vec!["GitLab", "CI", "K8S"]);
    assert_eq!(projection(&['C', 'I', '/', 'c', 'D', ' ']), vec!['c', 'i', 'c', 'd']);
}
