//! Vocabulary terms: the words that the recognisers are told to expect.
//!
//! The user's own terms are kept in a text file, one a line, the most important first. Lines that
//! start with `#` are comments.

use vstd::prelude::*;
use crate::error::RaflowError;
use crate::replacements::breaks_line;
use crate::text::{join_lines, lines, push_all, same_chars, to_chars, to_text, trim};
use crate::replacements::{has_line_break, result_is};
use crate::text::{
    lemma_lines_have_no_feed, lemma_lines_of_unlines, lemma_trimmed_push_space, lines_of, strs,
    texts, trimmed, unlines, views, without_cr,
};

verus! {

/// Terms that are offered to the recogniser whatever the user's file holds.
pub open spec fn builtin_terms() -> Seq<Seq<char>> {
    seq![
        "Kubernetes"@,
        "kubectl"@,
        "Docker"@,
        "Terraform"@,
        "Ansible"@,
        "Helm"@,
        "Istio"@,
        "Envoy"@,
        "Prometheus"@,
        "Grafana"@,
        "Nginx"@,
        "HAProxy"@,
        "containerd"@,
        "Vault"@,
        "Consul"@,
        "etcd"@,
        "AWS"@,
        "GCP"@,
        "Azure"@,
        "EC2"@,
        "S3"@,
        "Lambda"@,
        "DynamoDB"@,
        "CloudFront"@,
        "EKS"@,
        "GKE"@,
        "IAM"@,
        "VPC"@,
        "RDS"@,
        "CloudWatch"@,
        "Jenkins"@,
        "GitLab"@,
        "GitHub"@,
        "GitHub Actions"@,
        "ArgoCD"@,
        "CircleCI"@,
        "PostgreSQL"@,
        "MySQL"@,
        "MongoDB"@,
        "Redis"@,
        "Kafka"@,
        "Elasticsearch"@,
        "RabbitMQ"@,
        "Cassandra"@,
        "ClickHouse"@,
        "GraphQL"@,
        "gRPC"@,
        "REST"@,
        "WebSocket"@,
        "OAuth"@,
        "JWT"@,
        "Webhook"@,
        "Python"@,
        "Golang"@,
        "Rust"@,
        "TypeScript"@,
        "JavaScript"@,
        "Node.js"@,
        "DevOps"@,
        "SRE"@,
        "DevSecOps"@,
        "observability"@,
        "OpenTelemetry"@,
        "microservice"@,
        "serverless"@,
        "namespace"@,
        "ingress"@,
        "sidecar"@,
        "rollback"@,
        "canary"@,
        "SLA"@,
        "SLO"@,
        "SLI"@,
        "ChatGPT"@,
        "OpenAI"@,
        "Anthropic"@,
        "Copilot"@,
        "Cursor"@,
        "LLM"@,
        "GPT"@,
        "RAG"@,
        "YAML"@,
        "JSON"@,
        "API"@,
        "CLI"@,
        "SDK"@,
        "CDN"@,
        "DNS"@,
        "TLS"@,
        "CI/CD"@,
        "Deployment"@,
        "StatefulSet"@,
        "DaemonSet"@,
        "ConfigMap"@,
        "kubelet"@,
        "HPA"@,
        "PVC"@,
        "Linkerd"@,
        "Traefik"@,
        "Kong"@,
        "Datadog"@,
        "PagerDuty"@,
        "Loki"@,
        "Thanos"@,
        "Jaeger"@,
        "Alertmanager"@,
        "Flux"@,
        "Tekton"@,
        "Pulumi"@,
        "Spinnaker"@,
        "Podman"@,
        "Kaniko"@,
        "ECS"@,
        "Fargate"@,
        "SQS"@,
        "SNS"@,
        "Cloud Run"@,
        "CockroachDB"@,
        "Trino"@,
        "Flink"@,
        "Airflow"@,
        "NATS"@,
        "Trivy"@,
        "Falco"@,
        "cert-manager"@,
        "OPA"@,
        "Cilium"@,
        "Calico"@,
        "CNI"@,
        "mTLS"@,
        "Protobuf"@,
        "MTTR"@,
        "RTO"@,
        "RPO"@,
        "runbook"@,
        "postmortem"@,
        "error budget"@,
        "on-call"@,
        "p95"@,
        "p99"@,
    ]
}

/// Terms that prompts hold whatever the user's file holds.
pub open spec fn builtin_prompt_terms() -> Seq<Seq<char>> {
    seq![
        "ArgoCD"@,
        "GitLab CI"@,
        "Terraform"@,
        "Vault"@,
        "CI/CD"@,
        "IaC"@,
        "Secret Manager"@,
        "Kubernetes"@,
        "Docker"@,
    ]
}

/// Terms that are offered to the recogniser whatever the user's file holds.
pub fn default_contextual_terms() -> (terms: Vec<&'static str>)
    ensures
        strs(terms@) == builtin_terms(),
{
    let terms: Vec<&'static str> = vec![
        "Kubernetes",
        "kubectl",
        "Docker",
        "Terraform",
        "Ansible",
        "Helm",
        "Istio",
        "Envoy",
        "Prometheus",
        "Grafana",
        "Nginx",
        "HAProxy",
        "containerd",
        "Vault",
        "Consul",
        "etcd",
        "AWS",
        "GCP",
        "Azure",
        "EC2",
        "S3",
        "Lambda",
        "DynamoDB",
        "CloudFront",
        "EKS",
        "GKE",
        "IAM",
        "VPC",
        "RDS",
        "CloudWatch",
        "Jenkins",
        "GitLab",
        "GitHub",
        "GitHub Actions",
        "ArgoCD",
        "CircleCI",
        "PostgreSQL",
        "MySQL",
        "MongoDB",
        "Redis",
        "Kafka",
        "Elasticsearch",
        "RabbitMQ",
        "Cassandra",
        "ClickHouse",
        "GraphQL",
        "gRPC",
        "REST",
        "WebSocket",
        "OAuth",
        "JWT",
        "Webhook",
        "Python",
        "Golang",
        "Rust",
        "TypeScript",
        "JavaScript",
        "Node.js",
        "DevOps",
        "SRE",
        "DevSecOps",
        "observability",
        "OpenTelemetry",
        "microservice",
        "serverless",
        "namespace",
        "ingress",
        "sidecar",
        "rollback",
        "canary",
        "SLA",
        "SLO",
        "SLI",
        "ChatGPT",
        "OpenAI",
        "Anthropic",
        "Copilot",
        "Cursor",
        "LLM",
        "GPT",
        "RAG",
        "YAML",
        "JSON",
        "API",
        "CLI",
        "SDK",
        "CDN",
        "DNS",
        "TLS",
        "CI/CD",
        "Deployment",
        "StatefulSet",
        "DaemonSet",
        "ConfigMap",
        "kubelet",
        "HPA",
        "PVC",
        "Linkerd",
        "Traefik",
        "Kong",
        "Datadog",
        "PagerDuty",
        "Loki",
        "Thanos",
        "Jaeger",
        "Alertmanager",
        "Flux",
        "Tekton",
        "Pulumi",
        "Spinnaker",
        "Podman",
        "Kaniko",
        "ECS",
        "Fargate",
        "SQS",
        "SNS",
        "Cloud Run",
        "CockroachDB",
        "Trino",
        "Flink",
        "Airflow",
        "NATS",
        "Trivy",
        "Falco",
        "cert-manager",
        "OPA",
        "Cilium",
        "Calico",
        "CNI",
        "mTLS",
        "Protobuf",
        "MTTR",
        "RTO",
        "RPO",
        "runbook",
        "postmortem",
        "error budget",
        "on-call",
        "p95",
        "p99",
    ];
    assert(strs(terms@) =~= builtin_terms());
    terms
}

/// Terms that prompts hold whatever the user's file holds: few, because a prompt has room for few.
pub fn default_prompt_terms() -> (terms: Vec<&'static str>)
    ensures
        strs(terms@) == builtin_prompt_terms(),
{
    let terms: Vec<&'static str> = vec![
        "ArgoCD",
        "GitLab CI",
        "Terraform",
        "Vault",
        "CI/CD",
        "IaC",
        "Secret Manager",
        "Kubernetes",
        "Docker",
    ];
    assert(strs(terms@) =~= builtin_prompt_terms());
    terms
}

// ---------------------------------------------------------------------------
// Term files
// ---------------------------------------------------------------------------

/// A line that holds a term: it is neither blank nor a comment.
pub open spec fn is_term_line(line: Seq<char>) -> bool {
    trimmed(line).len() > 0 && trimmed(line).first() != '#'
}

/// The terms on some lines, in order.
pub open spec fn terms_in(lines: Seq<Seq<char>>) -> Seq<Seq<char>>
    decreases lines.len(),
{
    if lines.len() == 0 {
        Seq::empty()
    } else if is_term_line(lines.last()) {
        terms_in(lines.drop_last()).push(trimmed(lines.last()))
    } else {
        terms_in(lines.drop_last())
    }
}

/// The terms in a file, if there is one.
pub open spec fn user_terms(file: Option<&str>) -> Seq<Seq<char>> {
    match file {
        Some(contents) => terms_in(lines_of(contents@)),
        None => Seq::empty(),
    }
}

/// `s` without what already stands further left.
pub open spec fn distinct(s: Seq<Seq<char>>) -> Seq<Seq<char>>
    decreases s.len(),
{
    if s.len() == 0 {
        s
    } else {
        let init = distinct(s.drop_last());
        if init.contains(s.last()) {
            init
        } else {
            init.push(s.last())
        }
    }
}

/// Nothing stands twice in a list of distinct entries, and the same entries stand in it as in the
/// list it was made from.
pub proof fn distinct_has_no_duplicates(s: Seq<Seq<char>>)
    ensures
        distinct(s).no_duplicates(),
        forall|x: Seq<char>| distinct(s).contains(x) <==> s.contains(x),
        distinct(s).len() <= s.len(),
    decreases s.len(),
{
    if s.len() > 0 {
        let init = s.drop_last();
        distinct_has_no_duplicates(init);
        let d = distinct(init);
        assert(init.push(s.last()) == s);
        assert forall|x: Seq<char>| distinct(s).contains(x) <==> s.contains(x) by {
            if s.contains(x) {
                let k = choose|k: int| 0 <= k < s.len() && s[k] == x;
                if k < init.len() {
                    assert(init[k] == x);
                    assert(init.contains(x));
                    assert(d.contains(x));
                    let j = choose|j: int| 0 <= j < d.len() && d[j] == x;
                    assert(distinct(s)[j] == x);
                } else if !d.contains(x) {
                    assert(distinct(s)[d.len() as int] == x);
                }
            }
            if distinct(s).contains(x) {
                let j = choose|j: int| 0 <= j < distinct(s).len() && distinct(s)[j] == x;
                if j < d.len() {
                    assert(d[j] == x);
                    assert(d.contains(x));
                    assert(init.contains(x));
                    let k = choose|k: int| 0 <= k < init.len() && init[k] == x;
                    assert(s[k] == x);
                } else {
                    assert(s[s.len() - 1] == x);
                }
            }
        }
    }
}

/// The first entry of a list is the first of its distinct entries.
proof fn lemma_distinct_first(s: Seq<Seq<char>>)
    requires
        s.len() > 0,
    ensures
        distinct(s).len() > 0,
        distinct(s).first() == s.first(),
    decreases s.len(),
{
    if s.len() > 1 {
        lemma_distinct_first(s.drop_last());
        assert(s.drop_last().first() == s.first());
        let init = distinct(s.drop_last());
        assert(init.push(s.last()).first() == init.first());
    } else {
        assert(s.drop_last() == Seq::<Seq<char>>::empty());
        assert(distinct(s.drop_last()).len() == 0);
        assert(distinct(s) == distinct(s.drop_last()).push(s.last()));
        assert(s.last() == s.first());
    }
}

/// Adds `entry` to `list` unless it stands in it.
pub(crate) fn push_new(list: &mut Vec<String>, entry: &[char])
    ensures
        texts(final(list)@) == if texts(old(list)@).contains(entry@) {
            texts(old(list)@)
        } else {
            texts(old(list)@).push(entry@)
        },
{
    let ghost before = texts(list@);
    let mut i: usize = 0;
    while i < list.len()
        invariant
            i <= list@.len(),
            before == texts(list@),
            forall|k: int| 0 <= k < i ==> #[trigger] before[k] != entry@,
            *list == *old(list),
        decreases list@.len() - i,
    {
        assert(before[i as int] == list@[i as int]@);
        if same_chars(to_chars(list[i].as_str()).as_slice(), entry) {
            return;
        }
        i += 1;
    }
    list.push(to_text(entry));
    assert(texts(list@) == before.push(entry@));
}

/// One more entry at the end, added unless it is there.
pub(crate) proof fn lemma_distinct_push(s: Seq<Seq<char>>, x: Seq<char>)
    ensures
        distinct(s.push(x)) == if distinct(s).contains(x) {
            distinct(s)
        } else {
            distinct(s).push(x)
        },
{
    assert(s.push(x).drop_last() == s);
}

/// Adds the terms of `file` to `list`, each unless it stands in it.
fn add_user_terms(list: &mut Vec<String>, file: Option<&str>, Ghost(so_far): Ghost<Seq<Seq<char>>>)
    requires
        texts(old(list)@) == distinct(so_far),
    ensures
        texts(final(list)@) == distinct(so_far + user_terms(file)),
{
    match file {
        Some(contents) => {
            let all = lines(to_chars(contents).as_slice());
            let ghost ls = lines_of(contents@);
            let mut i: usize = 0;
            assert(so_far + terms_in(ls.take(0)) == so_far);
            while i < all.len()
                invariant
                    i <= all@.len(),
                    ls == views(all@),
                    texts(list@) == distinct(so_far + terms_in(ls.take(i as int))),
                decreases all@.len() - i,
            {
                proof {
                    assert(ls.take(i + 1).drop_last() == ls.take(i as int));
                    assert(ls.take(i + 1).last() == all@[i as int]@);
                }
                let t = trim(all[i].as_slice());
                if t.len() > 0 && t[0] != '#' {
                    let ghost had = so_far + terms_in(ls.take(i as int));
                    push_new(list, t);
                    proof {
                        lemma_distinct_push(had, t@);
                        assert(had.push(t@) == so_far + terms_in(ls.take(i + 1)));
                    }
                }
                i += 1;
            }
            assert(ls.take(i as int) == ls);
        },
        None => {
            assert(so_far + user_terms(file) == so_far);
        },
    }
}

/// Adds the terms of `terms` to `list`, each unless it stands in it.
fn add_terms(list: &mut Vec<String>, terms: &[&str], Ghost(so_far): Ghost<Seq<Seq<char>>>)
    requires
        texts(old(list)@) == distinct(so_far),
    ensures
        texts(final(list)@) == distinct(so_far + strs(terms@)),
{
    let ghost ts = strs(terms@);
    let mut i: usize = 0;
    assert(so_far + ts.take(0) == so_far);
    while i < terms.len()
        invariant
            i <= terms@.len(),
            ts == strs(terms@),
            texts(list@) == distinct(so_far + ts.take(i as int)),
        decreases terms@.len() - i,
    {
        let t = to_chars(terms[i]);
        push_new(list, t.as_slice());
        proof {
            lemma_distinct_push(so_far + ts.take(i as int), t@);
            assert((so_far + ts.take(i as int)).push(t@) == so_far + ts.take(i + 1));
        }
        i += 1;
    }
    assert(ts.take(i as int) == ts);
}

/// The terms for the recogniser: `defaults`, then those of the user's file, each once.
pub fn merge_contextual_terms(defaults: &[&str], user_file: Option<&str>) -> (terms: Vec<String>)
    ensures
        texts(terms@) == distinct(strs(defaults@) + user_terms(user_file)),
{
    let mut terms: Vec<String> = Vec::new();
    let ghost none = Seq::<Seq<char>>::empty();
    assert(texts(terms@) == none);
    add_terms(&mut terms, defaults, Ghost(none));
    assert(none + strs(defaults@) == strs(defaults@));
    add_user_terms(&mut terms, user_file, Ghost(strs(defaults@)));
    terms
}

/// The terms for prompts: those of the user's file, then the built-in ones, each once.
pub fn prompt_terms_user_first(user_file: Option<&str>) -> (terms: Vec<String>)
    ensures
        texts(terms@) == distinct(user_terms(user_file) + builtin_prompt_terms()),
{
    let mut terms: Vec<String> = Vec::new();
    let ghost none = Seq::<Seq<char>>::empty();
    assert(texts(terms@) == none);
    add_user_terms(&mut terms, user_file, Ghost(none));
    assert(none + user_terms(user_file) == user_terms(user_file));
    let defaults = default_prompt_terms();
    add_terms(&mut terms, defaults.as_slice(), Ghost(user_terms(user_file)));
    terms
}

// ---------------------------------------------------------------------------
// Giving a term priority
// ---------------------------------------------------------------------------

/// `lines` without the lines that hold `term`.
pub open spec fn without_term(lines: Seq<Seq<char>>, term: Seq<char>) -> Seq<Seq<char>>
    decreases lines.len(),
{
    if lines.len() == 0 {
        lines
    } else if is_term_line(lines.last()) && trimmed(lines.last()) == term {
        without_term(lines.drop_last(), term)
    } else {
        without_term(lines.drop_last(), term).push(lines.last())
    }
}

/// The first line that holds a term; the number of lines where none does.
pub open spec fn first_term_line(lines: Seq<Seq<char>>) -> int
    decreases lines.len(),
{
    if lines.len() == 0 {
        0
    } else if is_term_line(lines.first()) {
        0
    } else {
        1 + first_term_line(lines.drop_first())
    }
}

/// `lines` with `term` on a line of its own before all other terms, and nowhere else.
pub open spec fn with_term_first(lines: Seq<Seq<char>>, term: Seq<char>) -> Seq<Seq<char>> {
    let others = without_term(lines, term);
    others.insert(first_term_line(others), term)
}

/// Why a term cannot be kept: it would not come back from its line as it went in.
pub open spec fn term_fault(term: Seq<char>) -> Option<Seq<char>> {
    if has_line_break(term) {
        Some("術語不可含換行"@)
    } else if term.len() > 0 && term.first() == '#' {
        Some("術語不可以 # 開頭（會被當作註解）"@)
    } else {
        None
    }
}

/// What becomes of a file when a trimmed term is given priority in it: its new contents, or the
/// reason for refusing the term. A file whose first term it is stays as it is.
pub open spec fn promoted(existing: Seq<char>, term: Seq<char>) -> Result<Seq<char>, Seq<char>> {
    let terms = terms_in(lines_of(existing));
    if term.len() == 0 {
        Ok(existing)
    } else {
        match term_fault(term) {
            Some(detail) => Err(detail),
            None => if terms.len() > 0 && terms.first() == term {
                Ok(existing)
            } else {
                Ok(unlines(with_term_first(lines_of(existing), term)))
            },
        }
    }
}

proof fn lemma_first_term_line(lines: Seq<Seq<char>>)
    ensures
        0 <= first_term_line(lines) <= lines.len(),
        forall|k: int| 0 <= k < first_term_line(lines) ==> !is_term_line(#[trigger] lines[k]),
        first_term_line(lines) < lines.len() ==> is_term_line(lines[first_term_line(lines)]),
    decreases lines.len(),
{
    if lines.len() > 0 && !is_term_line(lines.first()) {
        let rest = lines.drop_first();
        lemma_first_term_line(rest);
        assert forall|k: int| 0 <= k < first_term_line(lines) implies !is_term_line(
            #[trigger] lines[k],
        ) by {
            if k > 0 {
                assert(rest[k - 1] == lines[k]);
            }
        }
    }
}

proof fn lemma_first_term_line_is(lines: Seq<Seq<char>>, n: int)
    requires
        0 <= n <= lines.len(),
        forall|k: int| 0 <= k < n ==> !is_term_line(#[trigger] lines[k]),
        n < lines.len() ==> is_term_line(lines[n]),
    ensures
        first_term_line(lines) == n,
{
    lemma_first_term_line(lines);
}

proof fn lemma_terms_add(a: Seq<Seq<char>>, b: Seq<Seq<char>>)
    ensures
        terms_in(a + b) == terms_in(a) + terms_in(b),
    decreases b.len(),
{
    if b.len() == 0 {
        assert(a + b == a);
        assert(terms_in(a) + terms_in(b) == terms_in(a));
    } else {
        lemma_terms_add(a, b.drop_last());
        assert((a + b).drop_last() == a + b.drop_last());
        assert(terms_in(a + b) == terms_in(a) + terms_in(b));
    }
}

proof fn lemma_no_terms(lines: Seq<Seq<char>>)
    requires
        forall|k: int| 0 <= k < lines.len() ==> !is_term_line(#[trigger] lines[k]),
    ensures
        terms_in(lines) == Seq::<Seq<char>>::empty(),
    decreases lines.len(),
{
    if lines.len() > 0 {
        let init = lines.drop_last();
        assert forall|k: int| 0 <= k < init.len() implies !is_term_line(#[trigger] init[k]) by {
            assert(init[k] == lines[k]);
        }
        lemma_no_terms(init);
        assert(!is_term_line(lines[lines.len() - 1]));
    }
}

/// Gives `term` the first place among the terms of a term file. The new contents come back, each
/// line ended by one line feed; other lines and comments keep their order. Nothing changes where
/// the term is empty or has the first place already. A term that could not be read back as it is
/// given is refused.
pub fn upsert_contextual_priority_term(existing: &str, term: &str) -> (r: Result<
    String,
    RaflowError,
>)
    ensures
        result_is(r, promoted(existing@, trimmed(term@))),
{
    let term_chars = to_chars(term);
    let t = trim(term_chars.as_slice());
    if t.len() == 0 {
        return Ok(existing.to_owned());
    }
    if breaks_line(t) {
        return Err(RaflowError::InvalidReplacement { detail: "術語不可含換行".to_owned() });
    }
    if t[0] == '#' {
        return Err(
            RaflowError::InvalidReplacement {
                detail: "術語不可以 # 開頭（會被當作註解）".to_owned(),
            },
        );
    }
    let all = lines(to_chars(existing).as_slice());
    let ghost ls = lines_of(existing@);
    // The lines that hold another term or none, and the first of them that holds one.
    let mut kept: Vec<Vec<char>> = Vec::new();
    let mut at: Option<usize> = None;
    let mut leads: bool = false;
    let mut seen: bool = false;
    let mut i: usize = 0;
    while i < all.len()
        invariant
            i <= all@.len(),
            ls == views(all@),
            views(kept@) == without_term(ls.take(i as int), t@),
            seen == exists|k: int| 0 <= k < i && is_term_line(#[trigger] ls[k]),
            leads == (terms_in(ls.take(i as int)).len() > 0 && terms_in(
                ls.take(i as int),
            ).first() == t@),
            seen == (terms_in(ls.take(i as int)).len() > 0),
            match at {
                Some(n) => n < kept@.len() && is_term_line(views(kept@)[n as int]) && forall|k: int|
                    0 <= k < n ==> !is_term_line(#[trigger] views(kept@)[k]),
                None => forall|k: int|
                    0 <= k < kept@.len() ==> !is_term_line(#[trigger] views(kept@)[k]),
            },
        decreases all@.len() - i,
    {
        let ghost so_far = ls.take(i as int);
        let ghost before = views(kept@);
        proof {
            assert(ls.take(i + 1).drop_last() == so_far);
            assert(ls.take(i + 1).last() == all@[i as int]@);
            assert(ls[i as int] == all@[i as int]@);
        }
        let line = trim(all[i].as_slice());
        let holds_term = line.len() > 0 && line[0] != '#';
        let same = same_chars(line, t);
        if holds_term && !seen {
            seen = true;
            leads = same;
        }
        if !(holds_term && same) {
            let mut copy: Vec<char> = Vec::new();
            push_all(&mut copy, all[i].as_slice());
            if holds_term && at.is_none() {
                at = Some(kept.len());
            }
            kept.push(copy);
            proof {
                assert(views(kept@) == before.push(all@[i as int]@));
                assert forall|k: int| 0 <= k < before.len() implies views(kept@)[k] == before[k] by {}
            }
        }
        i += 1;
    }
    assert(ls.take(i as int) == ls);
    if leads {
        return Ok(existing.to_owned());
    }
    let n: usize = match at {
        Some(k) => k,
        None => kept.len(),
    };
    let ghost others = views(kept@);
    proof {
        lemma_first_term_line_is(others, n as int);
    }
    let mut first: Vec<char> = Vec::new();
    push_all(&mut first, t);
    kept.insert(n, first);
    assert(views(kept@) == others.insert(n as int, t@));
    let out = join_lines(&kept);
    Ok(to_text(out.as_slice()))
}

// ---------------------------------------------------------------------------
// What giving priority promises
// ---------------------------------------------------------------------------

/// A term as it is kept: trimmed and not empty, with nothing in it that would break its line.
pub open spec fn term_is_kept(term: Seq<char>) -> bool {
    trimmed(term) == term && term.len() > 0 && term_fault(term) is None
}

/// The entries of `s` other than `x`, in order.
pub open spec fn others_than(s: Seq<Seq<char>>, x: Seq<char>) -> Seq<Seq<char>>
    decreases s.len(),
{
    if s.len() == 0 {
        s
    } else if s.last() == x {
        others_than(s.drop_last(), x)
    } else {
        others_than(s.drop_last(), x).push(s.last())
    }
}

proof fn lemma_terms_without(lines: Seq<Seq<char>>, term: Seq<char>)
    ensures
        terms_in(without_term(lines, term)) == others_than(terms_in(lines), term),
    decreases lines.len(),
{
    if lines.len() > 0 {
        lemma_terms_without(lines.drop_last(), term);
        let l = lines.last();
        let rest = without_term(lines.drop_last(), term);
        assert(rest.push(l).drop_last() == rest);
        let ts = terms_in(lines.drop_last());
        assert(ts.push(trimmed(l)).drop_last() == ts);
    }
}

proof fn lemma_terms_without_cr(lines: Seq<Seq<char>>)
    ensures
        terms_in(lines.map_values(|l: Seq<char>| without_cr(l))) == terms_in(lines),
    decreases lines.len(),
{
    let mapped = lines.map_values(|l: Seq<char>| without_cr(l));
    if lines.len() > 0 {
        lemma_terms_without_cr(lines.drop_last());
        assert(mapped.drop_last() == lines.drop_last().map_values(|l: Seq<char>| without_cr(l)));
        let l = lines.last();
        if l.len() > 0 && l.last() == '\r' {
            assert(l == l.drop_last().push('\r'));
            lemma_trimmed_push_space(l.drop_last(), '\r');
        }
        assert(trimmed(without_cr(l)) == trimmed(l));
        assert(mapped.last() == without_cr(l));
    } else {
        assert(mapped == lines);
    }
}

proof fn lemma_without_term_lines(lines: Seq<Seq<char>>, term: Seq<char>)
    ensures
        forall|k: int|
            0 <= k < without_term(lines, term).len() ==> lines.contains(
                #[trigger] without_term(lines, term)[k],
            ),
    decreases lines.len(),
{
    if lines.len() > 0 {
        let init = lines.drop_last();
        lemma_without_term_lines(init, term);
        let w = without_term(init, term);
        assert forall|k: int| 0 <= k < without_term(lines, term).len() implies lines.contains(
            #[trigger] without_term(lines, term)[k],
        ) by {
            if k < w.len() {
                assert(without_term(lines, term)[k] == w[k]);
                let j = choose|j: int| 0 <= j < init.len() && init[j] == w[k];
                assert(lines[j] == w[k]);
            } else {
                assert(lines[lines.len() - 1] == without_term(lines, term)[k]);
            }
        }
    }
}

proof fn lemma_terms_with_first(lines: Seq<Seq<char>>, term: Seq<char>)
    requires
        term_is_kept(term),
    ensures
        terms_in(with_term_first(lines, term)) == seq![term] + others_than(terms_in(lines), term),
{
    let others = without_term(lines, term);
    let n = first_term_line(others);
    lemma_first_term_line(others);
    lemma_terms_without(lines, term);
    let head = others.take(n);
    let tail = others.skip(n);
    assert forall|k: int| 0 <= k < head.len() implies !is_term_line(#[trigger] head[k]) by {
        assert(head[k] == others[k]);
    }
    lemma_no_terms(head);
    assert(head + tail == others);
    lemma_terms_add(head, tail);
    assert(with_term_first(lines, term) == head + seq![term] + tail);
    lemma_terms_add(head + seq![term], tail);
    lemma_terms_add(head, seq![term]);
    assert(seq![term].drop_last() == Seq::<Seq<char>>::empty());
    assert(terms_in(seq![term].drop_last()) == Seq::<Seq<char>>::empty());
    assert(terms_in(seq![term]) == seq![term]);
    assert(Seq::<Seq<char>>::empty() + terms_in(tail) == terms_in(tail));
    assert(Seq::<Seq<char>>::empty() + seq![term] == seq![term]);
}

/// A term that is kept is the first term of the new file. All other terms keep their order, and
/// unless the file was left as it was, the term stands in it once.
pub proof fn priority_term_comes_first(existing: Seq<char>, term: Seq<char>)
    requires
        term_is_kept(term),
    ensures
        ({
            let terms = terms_in(lines_of(existing));
            promoted(existing, term) matches Ok(contents) && {
                &&& terms_in(lines_of(contents)).len() > 0
                &&& terms_in(lines_of(contents)).first() == term
                &&& contents == existing || terms_in(lines_of(contents)) == seq![term]
                    + others_than(terms, term)
            }
        }),
{
    let ls = lines_of(existing);
    let terms = terms_in(ls);
    if !(terms.len() > 0 && terms.first() == term) {
        let after = with_term_first(ls, term);
        let others = without_term(ls, term);
        lemma_first_term_line(others);
        lemma_lines_have_no_feed(existing);
        lemma_without_term_lines(ls, term);
        assert forall|i: int, j: int| 0 <= i < after.len() && 0 <= j < after[i].len() implies
            #[trigger] after[i][j] != '\n' by {
            let n = first_term_line(others);
            if i == n {
                assert(term.contains(term[j]));
            } else {
                let o = if i < n {
                    i
                } else {
                    i - 1
                };
                assert(after[i] == others[o]);
                let k = choose|k: int| 0 <= k < ls.len() && ls[k] == others[o];
                assert(ls[k][j] != '\n');
            }
        }
        lemma_lines_of_unlines(after);
        lemma_terms_without_cr(after);
        lemma_terms_with_first(ls, term);
    }
}

/// A term that has just been given priority is the first term of every prompt.
pub proof fn priority_term_leads_the_prompt(existing: Seq<char>, term: Seq<char>)
    requires
        term_is_kept(term),
    ensures
        ({
            let contents = promoted(existing, term)->Ok_0;
            let prompt = distinct(terms_in(lines_of(contents)) + builtin_prompt_terms());
            promoted(existing, term) is Ok && prompt.len() > 0 && prompt.first() == term
        }),
{
    priority_term_comes_first(existing, term);
    let contents = promoted(existing, term)->Ok_0;
    let all = terms_in(lines_of(contents)) + builtin_prompt_terms();
    lemma_distinct_first(all);
}

/// Giving a term priority again changes nothing.
pub proof fn promoting_twice_is_promoting_once(existing: Seq<char>, term: Seq<char>)
    requires
        term_is_kept(term),
    ensures
        promoted(existing, term) matches Ok(contents) && promoted(contents, term) == Ok::<
            Seq<char>,
            Seq<char>,
        >(contents),
{
    priority_term_comes_first(existing, term);
}

// ---------------------------------------------------------------------------
// What lists of terms hold
// ---------------------------------------------------------------------------

/// A list of which nothing stands twice stays as it is; and what comes behind a list never changes
/// which of its entries stand where.
pub proof fn first_of_each_stays_in_place(s: Seq<Seq<char>>, more: Seq<Seq<char>>)
    ensures
        s.no_duplicates() ==> distinct(s) == s,
        distinct(s).is_prefix_of(distinct(s + more)),
    decreases s.len() + more.len(),
{
    if more.len() > 0 {
        first_of_each_stays_in_place(s, more.drop_last());
        assert((s + more).drop_last() =~= s + more.drop_last());
        assert((s + more).last() == more.last());
    } else {
        assert(s + more =~= s);
        if s.len() > 0 {
            first_of_each_stays_in_place(s.drop_last(), more);
            if s.no_duplicates() {
                let init = s.drop_last();
                assert(init.no_duplicates());
                assert(!init.contains(s.last())) by {
                    if init.contains(s.last()) {
                        let i = choose|i: int| 0 <= i < init.len() && init[i] == s.last();
                        assert(s[i] == s[s.len() - 1]);
                    }
                }
                assert(init.push(s.last()) =~= s);
            }
        }
    }
}

/// A line is a term, without the white space around it, unless it is blank or a comment; a file
/// holds the terms of its lines in order.
pub proof fn each_line_is_a_term(before: Seq<Seq<char>>, line: Seq<char>, behind: Seq<Seq<char>>)
    ensures
        terms_in(before + seq![line] + behind) == terms_in(before) + (if trimmed(line).len() == 0
            || trimmed(line).first() == '#' {
            Seq::empty()
        } else {
            seq![trimmed(line)]
        }) + terms_in(behind),
        terms_in(Seq::empty()) == Seq::<Seq<char>>::empty(),
{
    lemma_terms_add(before + seq![line], behind);
    lemma_terms_add(before, seq![line]);
    assert(seq![line].drop_last() =~= Seq::<Seq<char>>::empty());
    assert(terms_in(seq![line].drop_last()) =~= Seq::<Seq<char>>::empty());
    if is_term_line(line) {
        assert(terms_in(seq![line]) =~= seq![trimmed(line)]);
    } else {
        assert(terms_in(seq![line]) =~= Seq::<Seq<char>>::empty());
    }
}

/// The lines that do not hold `term`.
pub open spec fn lines_besides(lines: Seq<Seq<char>>, term: Seq<char>) -> Seq<Seq<char>> {
    lines.filter(|l: Seq<char>| trimmed(l) != term)
}

proof fn lemma_without_is_filter(lines: Seq<Seq<char>>, term: Seq<char>)
    requires
        term_is_kept(term),
    ensures
        without_term(lines, term) == lines_besides(lines, term),
    decreases lines.len(),
{
    reveal(Seq::filter);
    if lines.len() > 0 {
        lemma_without_is_filter(lines.drop_last(), term);
    } else {
        assert(lines =~= lines_besides(lines, term));
    }
}

/// `contents` are the lines `others`, in their order, with `term` on a line of its own before line
/// `n`: the first of them that holds a term, or the end where none does.
pub open spec fn leads_at(
    contents: Seq<char>,
    others: Seq<Seq<char>>,
    term: Seq<char>,
    n: int,
) -> bool {
    &&& 0 <= n <= others.len()
    &&& contents == unlines(others.take(n) + seq![term] + others.skip(n))
    &&& forall|k: int| 0 <= k < n ==> !is_term_line(#[trigger] others[k])
    &&& n < others.len() ==> is_term_line(others[n])
}

/// Giving a term priority touches no other line: comments, blank lines and other terms all stay, in
/// their order, and the term stands right before the first line that holds another one.
pub proof fn promoting_keeps_all_other_lines(existing: Seq<char>, term: Seq<char>)
    requires
        term_is_kept(term),
    ensures
        promoted(existing, term) matches Ok(contents) && (contents == existing || exists|n: int|
            #[trigger] leads_at(contents, lines_besides(lines_of(existing), term), term, n)),
{
    let ls = lines_of(existing);
    let terms = terms_in(ls);
    if !(terms.len() > 0 && terms.first() == term) {
        lemma_without_is_filter(ls, term);
        let others = lines_besides(ls, term);
        lemma_first_term_line(others);
        let n = first_term_line(others);
        assert(others.insert(n, term) =~= others.take(n) + seq![term] + others.skip(n));
        assert(leads_at(promoted(existing, term)->Ok_0, others, term, n));
    }
}

/// A file is left as it is only where the term leads it already.
pub proof fn only_a_leading_term_changes_nothing(existing: Seq<char>, term: Seq<char>)
    requires
        term_is_kept(term),
        promoted(existing, term) == Ok::<Seq<char>, Seq<char>>(existing),
    ensures
        terms_in(lines_of(existing)).len() > 0,
        terms_in(lines_of(existing)).first() == term,
{
    priority_term_comes_first(existing, term);
}

/// A term is refused only where its line would not read back: where it breaks the line, or where the
/// line would be a comment. A blank leaves the file alone, and any other term is kept.
pub proof fn only_unreadable_terms_are_refused(existing: Seq<char>, term: Seq<char>)
    requires
        trimmed(term) == term,
    ensures
        term.len() == 0 ==> promoted(existing, term) == Ok::<Seq<char>, Seq<char>>(existing),
        promoted(existing, term) is Err <==> term.contains('\n') || term.contains('\r') || (
        term.len() > 0 && term[0] == '#'),
        term_is_kept(term) <==> term.len() > 0 && !term.contains('\n') && !term.contains('\r')
            && term[0] != '#',
{
}

} // verus!
