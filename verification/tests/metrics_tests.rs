use quipu::metrics::histogram::Histogram;
use quipu::metrics::{client_key, esc, normalize_client, normalize_task, request_key, MAX_CLIENTS, MAX_TASKS};
use quipu::metrics::attestation::{ImportObservation, VerificationResult};

#[test]
fn client_label_precedence_and_normalisation() {
    assert_eq!(normalize_client(Some("hank-policy-hook"), Some("curl/8.5.0")), "hank-policy-hook");
    assert_eq!(normalize_client(None, Some("curl/8.5.0")), "curl");
    assert_eq!(normalize_client(None, Some("bobbin/0.6.5")), "bobbin");
    assert_eq!(normalize_client(None, None), "unattributed");
    assert_eq!(normalize_client(Some(""), None), "unattributed");
    assert_eq!(normalize_client(Some("   "), Some("")), "unattributed");
    assert_eq!(normalize_client(Some(""), Some("st/1.2")), "st");
    assert_eq!(normalize_client(Some("ev\"il\\\nagent name"), None), "evil");
    assert_eq!(normalize_client(Some(&"x".repeat(200)), None).len(), 32);
    assert_eq!(normalize_client(Some("日本語"), None), "unattributed");

    assert_eq!(normalize_task(Some("aegis-3AYBC")), "aegis-3aybc");
    assert_eq!(normalize_task(None), "unattributed");
    assert_eq!(normalize_task(Some("   ")), "unattributed");
    assert_eq!(normalize_task(Some("bad\n task!")), "badtask");
    assert_eq!(normalize_task(Some(&"x".repeat(200))).len(), 64);
    assert_eq!(normalize_task(Some("日本語")), "unattributed");
}

#[test]
fn unicode_white_space_falls_through_to_the_user_agent() {
    // An ideographic space is white space: the explicit name is empty.
    assert_eq!(normalize_client(Some("\u{3000}"), Some("Wget/1.21")), "wget");
    assert_eq!(normalize_client(Some(" \u{a0}\t"), None), "unattributed");
}

#[test]
fn leading_white_space_is_trimmed_before_the_cut() {
    assert_eq!(normalize_client(Some("  Curl/8"), None), "curl");
    assert_eq!(normalize_client(Some("My.Tool_v2 extra"), None), "my.tool_v2");
}

#[test]
fn task_keeps_dots_underscores_and_dashes() {
    assert_eq!(normalize_task(Some("  A.B_c-D  ")), "a.b_c-d");
    assert_eq!(normalize_task(Some("x/y")), "xy");
}

fn pairs(keys: &[(&str, &str)]) -> Vec<(String, String)> {
    keys.iter().map(|(a, b)| (a.to_string(), b.to_string())).collect()
}

fn triples(keys: &[(&str, &str, &str)]) -> Vec<(String, String, String)> {
    keys.iter().map(|(a, b, c)| (a.to_string(), b.to_string(), c.to_string())).collect()
}

#[test]
fn client_key_folds_past_the_budget_and_keeps_known_callers() {
    let mut keys: Vec<(String, String)> = Vec::new();
    for i in 0..(MAX_CLIENTS - 1) {
        keys.push((format!("caller{i}"), "/query".to_string()));
    }
    // The budget of named callers is full: a new caller is filed under `other`...
    assert_eq!(client_key(&keys, "newcomer", "/query"), ("other".to_string(), "/query".to_string()));
    // ...while a known caller keeps its label, on any endpoint.
    assert_eq!(client_key(&keys, "caller3", "/entity"), ("caller3".to_string(), "/entity".to_string()));
    // With one slot left, the newcomer keeps its own label.
    keys.pop();
    assert_eq!(client_key(&keys, "newcomer", "/query"), ("newcomer".to_string(), "/query".to_string()));
}

#[test]
fn client_budget_counts_callers_not_endpoints() {
    let mut keys: Vec<(String, String)> = Vec::new();
    for i in 0..MAX_CLIENTS {
        keys.push(("existing".to_string(), format!("/route/{i}")));
    }
    keys.push(("other".to_string(), "/query".to_string()));
    assert_eq!(client_key(&keys, "new-caller", "/query").0, "new-caller");
    assert_eq!(client_key(&pairs(&[]), "x", "/q"), ("x".to_string(), "/q".to_string()));
}

#[test]
fn request_key_bounds_callers_and_tasks_independently() {
    let mut keys: Vec<(String, String, String)> = Vec::new();
    for i in 0..(MAX_TASKS - 1) {
        keys.push(("query-first".to_string(), format!("aegis-{i}"), "/query".to_string()));
    }
    let (client, task, endpoint) = request_key(&keys, "query-first", "aegis-new", "/query");
    assert_eq!(client, "query-first");
    assert_eq!(task, "other");
    assert_eq!(endpoint, "/query");
    let (client, task, _) = request_key(&keys, "someone-else", "aegis-3", "/query");
    assert_eq!(client, "someone-else");
    assert_eq!(task, "aegis-3");
    let k = request_key(&triples(&[("a", "t", "/e")]), "b", "u", "/f");
    assert_eq!(k, ("b".to_string(), "u".to_string(), "/f".to_string()));
}

#[test]
fn label_values_escape_backslash_quote_and_newline() {
    assert_eq!(esc("/od\"d\\path"), "/od\\\"d\\\\path");
    assert_eq!(esc("a\nb"), "a\\nb");
    assert_eq!(esc("plain"), "plain");
    assert_eq!(esc(""), "");
}

#[test]
fn import_observations_keep_to_their_own_vocabulary() {
    let mut o = ImportObservation::new();
    assert_eq!((o.tier, o.outcome), ("unverified", "error"));
    o.tier("attested");
    o.outcome("staged");
    assert_eq!((o.tier, o.outcome), ("attested", "staged"));
    o.tier("made-up-tier");
    o.outcome("exploded");
    assert_eq!((o.tier, o.outcome), ("unverified", "error"));
    o.tier("transport");
    o.outcome("quarantined");
    assert_eq!((o.tier, o.outcome), ("transport", "quarantined"));
}

#[test]
fn verification_verdicts_have_fixed_labels() {
    assert_eq!(VerificationResult::Verified.label(), "ok");
    assert_eq!(VerificationResult::Badsig.label(), "badsig");
    assert_eq!(VerificationResult::Skew.label(), "skew");
    assert_eq!(VerificationResult::Error.label(), "error");
}

#[test]
fn cumulative_buckets_rise_with_the_bound_up_to_the_count() {
    let mut h = Histogram::new(3);
    h.record(Some(1));
    h.record(Some(0));
    h.record(None);
    h.record(Some(1));
    assert_eq!(h.total(), 4);
    assert_eq!(h.buckets(), 3);
    assert_eq!(h.cumulative(), vec![1, 3, 3]);
    assert_eq!(Histogram::new(2).cumulative(), vec![0, 0]);
}
