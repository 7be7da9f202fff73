use quipu::path::backtest::{backtest, RowResult};
use quipu::path::cone::{cone, ConeOptions, ConeReport, ConeVerdict};
use quipu::path::draft::{draft, DraftOptions};
use quipu::path::grammar::{match_pattern, MatchOutcome, StepSig, GRAMMAR_VERSION};
use quipu::path::PathVocab;
use quipu::store::{Datum, Op, Store};
use quipu::value::Value;

const TS: &str = "2026-08-20T00:00:00Z";
const TRAJ: &str = "http://ex/traj";
const PRODUCES: &str = "http://ex/v/produces";
const CONSUMED_BY: &str = "http://ex/v/consumedBy";

fn intern(store: &mut Store, iri: &str) -> i64 {
    store.intern(iri).expect("intern")
}

fn assert_value(store: &mut Store, s: &str, p: &str, v: Value) {
    let sid = intern(store, s);
    let pid = intern(store, p);
    let datum = Datum {
        entity: sid,
        attribute: pid,
        value: v,
        valid_from: TS.to_string(),
        valid_to: None,
        op: Op::Assert,
    };
    store.transact(&[datum], Some("test")).expect("transact");
}

fn edge(store: &mut Store, s: &str, p: &str, o: &str) {
    let oid = intern(store, o);
    assert_value(store, s, p, Value::Ref(oid));
}

fn lit(store: &mut Store, s: &str, p: &str, v: &str) {
    assert_value(store, s, p, Value::Str(v.to_string()));
}

fn int_lit(store: &mut Store, s: &str, p: &str, v: i64) {
    assert_value(store, s, p, Value::Int(v));
}

fn seed_empty() -> (Store, PathVocab) {
    (Store::open_in_memory("test"), PathVocab::new("http://ex/v/"))
}

fn seed_unverified_trajectory() -> (Store, PathVocab) {
    let (mut store, vocab) = seed_empty();
    edge(&mut store, "http://ex/s1", &vocab.step_of.clone(), TRAJ);
    int_lit(&mut store, "http://ex/s1", &vocab.step_order.clone(), 1);
    lit(&mut store, "http://ex/s1", &vocab.action_kind.clone(), "edit");
    (store, vocab)
}

fn seed_verified_trajectory() -> (Store, PathVocab) {
    let (mut store, vocab) = seed_empty();
    let step_of = vocab.step_of.clone();
    let order = vocab.step_order.clone();
    let kind = vocab.action_kind.clone();
    for (iri, n, k) in [
        ("http://ex/s1-implement", 1, "edit"),
        ("http://ex/s2-detour", 2, "edit"),
        ("http://ex/s3-test", 3, "run"),
        ("http://ex/s4-verify", 4, "verify"),
        ("http://ex/s5-mail", 5, "mail"),
    ] {
        edge(&mut store, iri, &step_of, TRAJ);
        int_lit(&mut store, iri, &order, n);
        lit(&mut store, iri, &kind, k);
    }
    edge(&mut store, "http://ex/s1-implement", PRODUCES, "http://ex/a1");
    edge(&mut store, "http://ex/a1", CONSUMED_BY, "http://ex/s3-test");
    edge(&mut store, "http://ex/s2-detour", PRODUCES, "http://ex/a2");
    edge(&mut store, "http://ex/s3-test", PRODUCES, "http://ex/r1");
    edge(&mut store, "http://ex/r1", CONSUMED_BY, "http://ex/s4-verify");
    edge(&mut store, "http://ex/s4-verify", &vocab.verified_by.clone(), "http://ex/verif");
    lit(&mut store, "http://ex/verif", &vocab.falsifier.clone(), "a non-200 from /health");
    (store, vocab)
}

fn via_opts() -> ConeOptions {
    ConeOptions { via: vec![PRODUCES.to_string(), CONSUMED_BY.to_string()], ..Default::default() }
}

fn sig(kind: &str, class: &str) -> StepSig {
    StepSig { action_kind: kind.into(), target_class: class.into() }
}

// ---- grammar ----

#[test]
fn exact_sequence_conforms() {
    let p = vec![sig("edit", "literal"), sig("run", "literal")];
    let s: Vec<_> = p.iter().cloned().map(Some).collect();
    assert_eq!(match_pattern(&p, &s), MatchOutcome::Conforms);
}

#[test]
fn gaps_are_allowed() {
    let p = vec![sig("edit", "literal"), sig("verify", "literal")];
    let s = vec![
        Some(sig("read", "literal")),
        Some(sig("edit", "literal")),
        Some(sig("run", "literal")),
        Some(sig("verify", "literal")),
    ];
    assert_eq!(match_pattern(&p, &s), MatchOutcome::Conforms);
}

#[test]
fn order_is_not_negotiable() {
    let p = vec![sig("run", "literal"), sig("edit", "literal")];
    let s = vec![Some(sig("edit", "literal")), Some(sig("run", "literal"))];
    assert_eq!(
        match_pattern(&p, &s),
        MatchOutcome::DeviatesAt { pattern_index: 1, matched: 1 }
    );
}

#[test]
fn unevaluable_steps_neither_match_nor_deviate() {
    let p = vec![sig("edit", "literal")];
    let s = vec![None, Some(sig("edit", "literal"))];
    assert_eq!(match_pattern(&p, &s), MatchOutcome::Conforms);
}

#[test]
fn empty_trajectory_deviates_at_the_first_element() {
    let p = vec![sig("edit", "literal")];
    assert_eq!(
        match_pattern(&p, &[]),
        MatchOutcome::DeviatesAt { pattern_index: 0, matched: 0 }
    );
}

#[test]
fn empty_pattern_always_conforms() {
    let s = vec![None, Some(sig("edit", "literal"))];
    assert_eq!(match_pattern(&[], &s), MatchOutcome::Conforms);
    assert_eq!(match_pattern(&[], &[]), MatchOutcome::Conforms);
}

#[test]
fn target_class_is_part_of_the_signature() {
    let p = vec![sig("edit", "http://ex/File")];
    let s = vec![Some(sig("edit", "literal"))];
    assert_eq!(
        match_pattern(&p, &s),
        MatchOutcome::DeviatesAt { pattern_index: 0, matched: 0 }
    );
}

// ---- cone ----

#[test]
fn refuses_a_trajectory_with_no_steps() {
    let (mut store, vocab) = seed_empty();
    intern(&mut store, "http://ex/traj-bare");
    let err = cone(&store, "http://ex/traj-bare", &vocab, &ConeOptions::default()).unwrap_err();
    assert!(err.message().contains("no steps"), "{err:?}");
}

#[test]
fn refuses_an_unverified_trajectory() {
    let (mut store, vocab) = seed_unverified_trajectory();
    let err = cone(&store, TRAJ, &vocab, &ConeOptions::default()).unwrap_err();
    assert!(err.message().contains("no falsifier-gated verification"), "{err:?}");
    let _ = &mut store;
}

#[test]
fn refuses_an_unknown_trajectory() {
    let (store, vocab) = seed_empty();
    let err = cone(&store, "http://ex/nowhere", &vocab, &ConeOptions::default()).unwrap_err();
    assert_eq!(err.message(), "entity not found: http://ex/nowhere");
}

#[test]
fn classifies_in_out_and_cannot_evaluate() {
    let (store, vocab) = seed_verified_trajectory();
    let report = cone(&store, TRAJ, &vocab, &via_opts()).unwrap();
    let verdicts: Vec<(&str, &ConeVerdict)> =
        report.steps.iter().map(|s| (s.iri.as_str(), &s.verdict)).collect();
    assert_eq!(
        verdicts,
        vec![
            ("http://ex/s1-implement", &ConeVerdict::InCone),
            ("http://ex/s2-detour", &ConeVerdict::OutOfCone),
            ("http://ex/s3-test", &ConeVerdict::InCone),
            ("http://ex/s4-verify", &ConeVerdict::InCone),
            ("http://ex/s5-mail", &ConeVerdict::CannotEvaluate),
        ],
        "{report:?}"
    );
}

#[test]
fn an_unfalsifiable_verification_does_not_anchor_the_cone() {
    let (mut store, vocab) = seed_verified_trajectory();
    edge(&mut store, "http://ex/s2-detour", &vocab.verified_by.clone(), "http://ex/verif-eyeball");
    let report = cone(&store, TRAJ, &vocab, &via_opts()).unwrap();
    assert_eq!(report.verifications, vec!["http://ex/verif".to_string()]);
    let detour = report.steps.iter().find(|s| s.iri == "http://ex/s2-detour").unwrap();
    assert_eq!(detour.verdict, ConeVerdict::OutOfCone, "{report:?}");
}

#[test]
fn cone_reports_its_inputs_and_step_order() {
    let (store, vocab) = seed_verified_trajectory();
    let report = cone(&store, TRAJ, &vocab, &via_opts()).unwrap();
    assert_eq!(report.trajectory, TRAJ);
    assert_eq!(report.hops, 8);
    assert_eq!(
        report.derivation_predicates,
        vec![PRODUCES.to_string(), CONSUMED_BY.to_string(), vocab.verified_by.clone()]
    );
    let orders: Vec<Option<i64>> = report.steps.iter().map(|s| s.order).collect();
    assert_eq!(orders, vec![Some(1), Some(2), Some(3), Some(4), Some(5)]);
}

#[test]
fn zero_hops_reaches_only_the_verified_step_itself() {
    let (store, vocab) = seed_verified_trajectory();
    let opts = ConeOptions { hops: 0, ..via_opts() };
    let report = cone(&store, TRAJ, &vocab, &opts).unwrap();
    let s1 = report.steps.iter().find(|s| s.iri == "http://ex/s1-implement").unwrap();
    assert_eq!(s1.verdict, ConeVerdict::OutOfCone, "{report:?}");
}

// ---- draft ----

fn report() -> (Store, PathVocab, ConeReport) {
    let (store, vocab) = seed_verified_trajectory();
    let r = cone(&store, TRAJ, &vocab, &via_opts()).unwrap();
    (store, vocab, r)
}

fn opts() -> DraftOptions {
    DraftOptions {
        name: "gp-deploy".into(),
        label: "golden path: deploy".into(),
        human_omissions: vec![("http://ex/s1-implement".into(), "http://ex/decision-prune".into())],
        dead_ends: vec!["http://ex/s2-detour".into()],
        base_ns: "http://ex/v/".into(),
    }
}

#[test]
fn drafts_mechanical_and_human_omissions_with_their_authorities() {
    let (_s, _v, r) = report();
    let ttl = draft(&r, &opts()).unwrap();
    assert!(ttl.contains("aegis:prunedFrom <http://ex/traj>"), "{ttl}");
    assert!(ttl.contains("aegis:omittedStep <http://ex/s2-detour>"), "{ttl}");
    assert!(ttl.contains("\"cone-analysis\""), "{ttl}");
    assert!(ttl.contains("aegis:omittedStep <http://ex/s1-implement>"), "{ttl}");
    assert!(ttl.contains("aegis:omissionRuling <http://ex/decision-prune>"), "{ttl}");
    assert!(ttl.contains("aegis:deadEnd <http://ex/s2-detour>"), "{ttl}");
}

#[test]
fn cannot_evaluate_steps_are_not_silently_cut() {
    let (_s, _v, r) = report();
    let ttl = draft(&r, &opts()).unwrap();
    assert!(
        !ttl.contains("aegis:omittedStep <http://ex/s5-mail>"),
        "a CannotEvaluate step was cut without a human decision:\n{ttl}"
    );
}

#[test]
fn a_typo_in_a_human_omission_is_refused() {
    let (_s, _v, r) = report();
    let mut o = opts();
    o.human_omissions = vec![("http://ex/nope".into(), "http://ex/d".into())];
    assert!(draft(&r, &o).is_err());
}

#[test]
fn the_draft_parses_as_turtle_shaped_output() {
    let (_s, _v, r) = report();
    let ttl = draft(&r, &opts()).unwrap();
    assert_eq!(ttl.matches("a aegis:GoldenPath").count(), 1);
    assert_eq!(ttl.matches("a aegis:PathOmission").count(), 2);
}

#[test]
fn a_label_with_quotes_is_escaped() {
    let (_s, _v, r) = report();
    let mut o = opts();
    o.label = "say \"hi\" \\ bye".into();
    let ttl = draft(&r, &o).unwrap();
    assert!(ttl.contains("\"say \\\"hi\\\" \\\\ bye\""), "{ttl}");
}

#[test]
fn a_typo_in_a_dead_end_is_refused() {
    let (_s, _v, r) = report();
    let mut o = opts();
    o.dead_ends = vec!["http://ex/nope".into()];
    assert!(draft(&r, &o).is_err());
}

// ---- backtest ----

fn seed_backtest() -> (Store, PathVocab) {
    let (mut store, vocab) = seed_verified_trajectory();
    let v = vocab.clone();
    edge(&mut store, TRAJ, &v.trajectory_of, "http://ex/wi");
    lit(&mut store, "http://ex/wi", &v.about, "service-deploy");
    edge(&mut store, "http://ex/s6-note", &v.step_of, TRAJ);
    int_lit(&mut store, "http://ex/s6-note", &v.step_order, 6);

    edge(&mut store, "http://ex/t-follow", &v.trajectory_of, "http://ex/wi-follow");
    lit(&mut store, "http://ex/wi-follow", &v.about, "service-deploy");
    lit(&mut store, "http://ex/wi-follow", &v.outcome, "done");
    for (iri, n, k) in [("http://ex/f1", 1, "edit"), ("http://ex/f2", 2, "run"), ("http://ex/f3", 3, "verify")] {
        edge(&mut store, iri, &v.step_of, "http://ex/t-follow");
        int_lit(&mut store, iri, &v.step_order, n);
        lit(&mut store, iri, &v.action_kind, k);
    }

    edge(&mut store, "http://ex/t-stray", &v.trajectory_of, "http://ex/wi-stray");
    lit(&mut store, "http://ex/wi-stray", &v.about, "service-deploy");
    lit(&mut store, "http://ex/wi-stray", &v.outcome, "failed");
    for (iri, n, k) in [("http://ex/x1", 1, "edit"), ("http://ex/x2", 2, "verify")] {
        edge(&mut store, iri, &v.step_of, "http://ex/t-stray");
        int_lit(&mut store, iri, &v.step_order, n);
        lit(&mut store, iri, &v.action_kind, k);
    }

    edge(&mut store, "http://ex/t-other", &v.trajectory_of, "http://ex/wi-other");
    lit(&mut store, "http://ex/wi-other", &v.about, "retry-loop");

    edge(&mut store, "http://ex/t-blind", &v.trajectory_of, "http://ex/wi-blind");
    lit(&mut store, "http://ex/wi-blind", &v.about, "service-deploy");
    lit(&mut store, "http://ex/wi-blind", &v.outcome, "done");
    edge(&mut store, "http://ex/b1", &v.step_of, "http://ex/t-blind");
    int_lit(&mut store, "http://ex/b1", &v.step_order, 1);

    (store, vocab)
}

fn omissions() -> Vec<String> {
    vec![
        "http://ex/s2-detour".to_string(),
        "http://ex/s5-mail".to_string(),
        "http://ex/s6-note".to_string(),
    ]
}

#[test]
fn separates_conformers_deviators_and_cannot_evaluate() {
    let (store, vocab) = seed_backtest();
    let report = backtest(&store, TRAJ, &omissions(), &vocab).unwrap();
    assert_eq!(report.grammar, GRAMMAR_VERSION);
    assert_eq!(report.pattern.len(), 3, "{:?}", report.pattern);
    assert_eq!(report.rows.len(), 3, "{:?}", report.rows);
    assert_eq!((report.conformers_done, report.conformers_total), (1, 1));
    assert_eq!((report.deviators_done, report.deviators_total), (0, 1));
    assert_eq!(report.cannot_evaluate, 1);
    let blind = report.rows.iter().find(|r| r.trajectory.contains("t-blind")).unwrap();
    assert_eq!(blind.result, RowResult::CannotEvaluate);
}

#[test]
fn off_topic_trajectories_are_not_in_the_population() {
    let (store, vocab) = seed_backtest();
    let report = backtest(&store, TRAJ, &omissions(), &vocab).unwrap();
    assert!(!report.rows.iter().any(|r| r.trajectory.contains("t-other")), "{:?}", report.rows);
}

#[test]
fn a_kept_step_without_a_signature_refuses_compilation() {
    let (store, vocab) = seed_backtest();
    let err = backtest(
        &store,
        TRAJ,
        &["http://ex/s2-detour".to_string(), "http://ex/s5-mail".to_string()],
        &vocab,
    )
    .unwrap_err();
    assert!(err.message().contains("s6-note"), "{err:?}");
}

#[test]
fn refuses_when_no_topic_bounds_the_population() {
    let (store, vocab) = seed_verified_trajectory();
    let err = backtest(&store, TRAJ, &omissions(), &vocab).unwrap_err();
    assert!(err.message().contains("no topic"), "{err:?}");
}

#[test]
fn backtest_rows_are_sorted_and_carry_outcomes() {
    let (store, vocab) = seed_backtest();
    let report = backtest(&store, TRAJ, &omissions(), &vocab).unwrap();
    let names: Vec<&str> = report.rows.iter().map(|r| r.trajectory.as_str()).collect();
    assert_eq!(names, vec!["http://ex/t-blind", "http://ex/t-follow", "http://ex/t-stray"]);
    assert_eq!(report.rows[1].result, RowResult::Conforms);
    assert_eq!(report.rows[1].outcome.as_deref(), Some("done"));
    assert_eq!(report.rows[2].result, RowResult::DeviatesAt { pattern_index: 1 });
    assert_eq!(report.rows[0].unevaluated_steps, 1);
    assert_eq!(report.topics, vec!["service-deploy".to_string()]);
    let kinds: Vec<&str> = report.pattern.iter().map(|s| s.action_kind.as_str()).collect();
    assert_eq!(kinds, vec!["edit", "run", "verify"]);
}
