use quipu::namespace::RDF_TYPE;
use quipu::owl::reactive::{Delta, ReactiveOwl};
use quipu::owl::Ontology;
use quipu::store::{Datum, Op, Store, INFERRED_GRAPH, ROOT_GRAPH};
use quipu::value::Value;

const TS: &str = "2026-01-01T00:00:00Z";

const TEST_ONTOLOGY: &str = r#"
@prefix owl: <http://www.w3.org/2002/07/owl#> .
@prefix rdfs: <http://www.w3.org/2000/01/rdf-schema#> .
@prefix rdf: <http://www.w3.org/1999/02/22-rdf-syntax-ns#> .
@prefix ex: <http://example.org/> .

ex:Animal a owl:Class .
ex:Mammal a owl:Class ;
    rdfs:subClassOf ex:Animal .
ex:Dog a owl:Class ;
    rdfs:subClassOf ex:Mammal .

ex:Person a owl:Class .
ex:Robot a owl:Class ;
    owl:disjointWith ex:Person .

ex:authors a owl:ObjectProperty .
ex:authoredBy a owl:ObjectProperty ;
    owl:inverseOf ex:authors .

ex:friendOf a owl:ObjectProperty, owl:SymmetricProperty .

ex:ssn a owl:DatatypeProperty, owl:FunctionalProperty .

ex:knows a owl:ObjectProperty ;
    rdfs:domain ex:Person ;
    rdfs:range ex:Person .
"#;

fn ex(local: &str) -> String {
    format!("http://example.org/{local}")
}

/// Assert `(s, p, o)` (IRIs) in the ROOT graph as one transaction; returns
/// the datums written.
fn ingest(store: &mut Store, triples: &[(&str, &str, &str)]) -> Vec<Datum> {
    let mut datums = Vec::new();
    for (s, p, o) in triples {
        let e = store.intern(s).unwrap();
        let a = store.intern(p).unwrap();
        let v = store.intern(o).unwrap();
        datums.push(Datum {
            entity: e,
            attribute: a,
            value: Value::Ref(v),
            valid_from: TS.into(),
            valid_to: None,
            op: Op::Assert,
        });
    }
    store.transact(&datums, Some("test")).unwrap();
    datums
}

/// `(s, p, o)` is a live fact of the ROOT graph or its inferred companion.
fn holds(store: &Store, s: &str, p: &str, o: &str) -> bool {
    let (Some(e), Some(a), Some(v)) = (store.lookup(s), store.lookup(p), store.lookup(o)) else {
        return false;
    };
    store
        .current_facts_in_graphs(&[ROOT_GRAPH, INFERRED_GRAPH])
        .iter()
        .any(|f| f.entity == e && f.attribute == a && f.value == Value::Ref(v))
}

#[test]
fn parse_ontology_extracts_axioms() {
    let ont = Ontology::from_turtle(TEST_ONTOLOGY).unwrap();
    assert_eq!(ont.axioms.subclass_of.len(), 2);
    assert!(ont
        .axioms
        .disjoint_with
        .contains(&("http://example.org/Robot".into(), "http://example.org/Person".into())));
    assert!(ont.axioms.functional_properties.contains(&"http://example.org/ssn".to_string()));
    assert!(ont.axioms.symmetric_properties.contains(&"http://example.org/friendOf".to_string()));
    assert_eq!(ont.axioms.inverse_of.len(), 2);
    assert_eq!(ont.axioms.domains.len(), 1);
    assert_eq!(ont.axioms.ranges.len(), 1);
}

#[test]
fn loaded_range_applies_to_facts_written_after_ontology_load() {
    let mut store = Store::open_in_memory("test");
    store.load_ontology("range", TEST_ONTOLOGY, "2026-01-01T00:00:00Z");
    let datums = ingest(&mut store, &[(&ex("alice"), &ex("knows"), &ex("bob"))]);
    ReactiveOwl
        .after_commit(
            &mut store,
            &Delta { source: Some("post-load-range-probe".into()), asserts: datums, retracts: vec![] },
            "2026-01-02T00:00:00Z",
        )
        .unwrap();
    assert!(holds(&store, &ex("alice"), RDF_TYPE, &ex("Person")));
    assert!(holds(&store, &ex("bob"), RDF_TYPE, &ex("Person")));
}

#[test]
fn store_ontology_persistence() {
    let mut store = Store::open_in_memory("test");
    store.load_ontology("test", TEST_ONTOLOGY, "2026-01-01T00:00:00Z");

    let list = store.list_ontologies();
    assert_eq!(list.len(), 1);
    assert_eq!(list[0].name, "test");

    let combined = store.get_combined_ontologies().unwrap();
    assert!(combined.is_some());

    assert!(store.remove_ontology("test"));
    assert!(store.list_ontologies().is_empty());
}

#[test]
fn reloading_an_ontology_under_the_same_name_replaces_it() {
    let mut store = Store::open_in_memory("test");
    store.load_ontology("a", TEST_ONTOLOGY, "t1");
    store.load_ontology("b", TEST_ONTOLOGY, "t1");
    store.load_ontology("a", "", "t2");
    let list = store.list_ontologies();
    let names: Vec<&str> = list.iter().map(|o| o.name.as_str()).collect();
    assert_eq!(names, vec!["b", "a"]);
    assert_eq!(list[1].loaded_at, "t2");
    assert!(!store.remove_ontology("missing"));
}

#[test]
fn materialize_subclass_transitive_closure() {
    let ont = Ontology::from_turtle(TEST_ONTOLOGY).unwrap();
    let mut store = Store::open_in_memory("test");
    ingest(&mut store, &[(&ex("fido"), RDF_TYPE, &ex("Dog"))]);
    let report = ont.materialize(&mut store, TS).unwrap();
    assert!(report.subclass_inferences > 0, "expected subclass inferences");
    assert!(holds(&store, &ex("fido"), RDF_TYPE, &ex("Animal")));
    assert!(holds(&store, &ex("fido"), RDF_TYPE, &ex("Mammal")));
}

#[test]
fn validate_rejects_disjoint_class() {
    let ont = Ontology::from_turtle(TEST_ONTOLOGY).unwrap();
    let mut store = Store::open_in_memory("test");
    ingest(&mut store, &[(&ex("alice"), RDF_TYPE, &ex("Person"))]);

    let rdf_type_id = store.intern(RDF_TYPE).unwrap();
    let alice_id = store.intern(&ex("alice")).unwrap();
    let robot_id = store.intern(&ex("Robot")).unwrap();
    let proposed = vec![Datum {
        entity: alice_id,
        attribute: rdf_type_id,
        value: Value::Ref(robot_id),
        valid_from: "2026-01-02T00:00:00Z".to_string(),
        valid_to: None,
        op: Op::Assert,
    }];
    let violations = ont.validate(&store, &proposed).unwrap();
    assert!(!violations.is_empty(), "expected disjoint class violation");
    assert!(violations[0].message.contains("disjoint"));
}

#[test]
fn validate_rejects_functional_property_second_value() {
    let ont = Ontology::from_turtle(TEST_ONTOLOGY).unwrap();
    let mut store = Store::open_in_memory("test");
    let alice_id = store.intern(&ex("alice")).unwrap();
    let ssn_id = store.intern(&ex("ssn")).unwrap();
    store
        .transact(
            &[Datum {
                entity: alice_id,
                attribute: ssn_id,
                value: Value::Str("123-45-6789".into()),
                valid_from: TS.into(),
                valid_to: None,
                op: Op::Assert,
            }],
            Some("test"),
        )
        .unwrap();

    let proposed = vec![Datum {
        entity: alice_id,
        attribute: ssn_id,
        value: Value::Str("987-65-4321".into()),
        valid_from: "2026-01-02T00:00:00Z".to_string(),
        valid_to: None,
        op: Op::Assert,
    }];
    let violations = ont.validate(&store, &proposed).unwrap();
    assert!(!violations.is_empty(), "expected functional property violation");
    assert!(violations[0].message.contains("functional"));
}

#[test]
fn validate_accepts_a_consistent_write() {
    let ont = Ontology::from_turtle(TEST_ONTOLOGY).unwrap();
    let mut store = Store::open_in_memory("test");
    ingest(&mut store, &[(&ex("alice"), RDF_TYPE, &ex("Person"))]);
    let rdf_type_id = store.intern(RDF_TYPE).unwrap();
    let alice_id = store.intern(&ex("alice")).unwrap();
    let animal = store.intern(&ex("Animal")).unwrap();
    let proposed = vec![Datum {
        entity: alice_id,
        attribute: rdf_type_id,
        value: Value::Ref(animal),
        valid_from: TS.into(),
        valid_to: None,
        op: Op::Assert,
    }];
    assert!(ont.validate(&store, &proposed).unwrap().is_empty());
}

#[test]
fn materialize_inverse_property() {
    let ont = Ontology::from_turtle(TEST_ONTOLOGY).unwrap();
    let mut store = Store::open_in_memory("test");
    ingest(&mut store, &[(&ex("alice"), &ex("authors"), &ex("paper1"))]);
    let report = ont.materialize(&mut store, TS).unwrap();
    assert!(report.inverse_inferences > 0, "expected inverse inferences");
    assert!(holds(&store, &ex("paper1"), &ex("authoredBy"), &ex("alice")));
}

#[test]
fn materialize_subproperty_restates_facts_under_the_superproperty() {
    const SUBPROP_ONTOLOGY: &str = r#"
@prefix owl: <http://www.w3.org/2002/07/owl#> .
@prefix rdfs: <http://www.w3.org/2000/01/rdf-schema#> .
@prefix ex: <http://example.org/> .

ex:touches a owl:ObjectProperty .
ex:references a owl:ObjectProperty ;
    rdfs:subPropertyOf ex:touches .
ex:calls a owl:ObjectProperty ;
    rdfs:subPropertyOf ex:references .
"#;
    let ont = Ontology::from_turtle(SUBPROP_ONTOLOGY).unwrap();
    let mut store = Store::open_in_memory("test");
    ingest(&mut store, &[(&ex("fnA"), &ex("calls"), &ex("fnB"))]);
    let report = ont.materialize(&mut store, TS).unwrap();
    assert!(report.sub_property_inferences > 0);
    assert!(holds(&store, &ex("fnA"), &ex("references"), &ex("fnB")));
    assert!(holds(&store, &ex("fnA"), &ex("touches"), &ex("fnB")));
}

#[test]
fn materialize_transitive_property_full_closure() {
    const TRANS_ONTOLOGY: &str = r#"
@prefix owl: <http://www.w3.org/2002/07/owl#> .
@prefix ex: <http://example.org/> .

ex:dependsOn a owl:ObjectProperty, owl:TransitiveProperty .
"#;
    let ont = Ontology::from_turtle(TRANS_ONTOLOGY).unwrap();
    let mut store = Store::open_in_memory("test");
    let d = ex("dependsOn");
    ingest(&mut store, &[(&ex("a"), &d, &ex("b")), (&ex("b"), &d, &ex("c")), (&ex("c"), &d, &ex("d"))]);
    let report = ont.materialize(&mut store, TS).unwrap();
    assert_eq!(report.transitive_inferences, 3, "expected the full closure of a 3-link chain");
    assert!(holds(&store, &ex("a"), &d, &ex("d")));
    let rerun = ont.materialize(&mut store, "2026-01-02T00:00:00Z").unwrap();
    assert_eq!(rerun.transitive_inferences, 0);
}

#[test]
fn materialize_equivalent_property_restates_both_directions() {
    const EQUIV_ONTOLOGY: &str = r#"
@prefix owl: <http://www.w3.org/2002/07/owl#> .
@prefix ex: <http://example.org/> .

ex:wrote a owl:ObjectProperty ;
    owl:equivalentProperty ex:authored .
"#;
    let ont = Ontology::from_turtle(EQUIV_ONTOLOGY).unwrap();
    let mut store = Store::open_in_memory("test");
    ingest(
        &mut store,
        &[(&ex("alice"), &ex("wrote"), &ex("paper1")), (&ex("bob"), &ex("authored"), &ex("paper2"))],
    );
    let report = ont.materialize(&mut store, TS).unwrap();
    assert_eq!(report.equivalent_property_inferences, 2);
    assert!(holds(&store, &ex("alice"), &ex("authored"), &ex("paper1")));
    assert!(holds(&store, &ex("bob"), &ex("wrote"), &ex("paper2")));
    let rerun = ont.materialize(&mut store, "2026-01-02T00:00:00Z").unwrap();
    assert_eq!(rerun.equivalent_property_inferences, 0);
}

#[test]
fn materialize_reaches_fixpoint_across_axiom_families() {
    const FIXPOINT_ONTOLOGY: &str = r#"
@prefix owl: <http://www.w3.org/2002/07/owl#> .
@prefix rdfs: <http://www.w3.org/2000/01/rdf-schema#> .
@prefix ex: <http://example.org/> .

ex:Agent a owl:Class .
ex:Person a owl:Class ;
    rdfs:subClassOf ex:Agent .
ex:knows a owl:ObjectProperty ;
    rdfs:range ex:Person .
"#;
    let ont = Ontology::from_turtle(FIXPOINT_ONTOLOGY).unwrap();
    let mut store = Store::open_in_memory("test");
    ingest(&mut store, &[(&ex("alice"), &ex("knows"), &ex("bob"))]);
    let report = ont.materialize(&mut store, TS).unwrap();
    assert!(report.domain_range_inferences > 0, "range must fire");
    assert!(report.subclass_inferences > 0);
    assert!(holds(&store, &ex("bob"), RDF_TYPE, &ex("Agent")));
    let rerun = ont.materialize(&mut store, "2026-01-02T00:00:00Z").unwrap();
    assert_eq!(rerun.total, 0, "a re-run at fixpoint must be a no-op");
    assert!(!rerun.pass_budget_exhausted);
}

#[test]
fn materialize_leaves_the_root_graph_alone() {
    let ont = Ontology::from_turtle(TEST_ONTOLOGY).unwrap();
    let mut store = Store::open_in_memory("test");
    ingest(&mut store, &[(&ex("fido"), RDF_TYPE, &ex("Dog"))]);
    let before = store.current_facts_in_graph(ROOT_GRAPH);
    let report = ont.materialize(&mut store, TS).unwrap();
    assert_eq!(store.current_facts_in_graph(ROOT_GRAPH), before);
    assert_eq!(store.current_facts_in_graph(INFERRED_GRAPH).len(), report.total);
    assert_eq!(report.total, 2);
}

#[test]
fn relevant_write_rematerializes() {
    const ONT: &str = r#"
@prefix owl: <http://www.w3.org/2002/07/owl#> .
@prefix ex: <http://example.org/> .
ex:dependsOn a owl:ObjectProperty, owl:TransitiveProperty .
"#;
    let mut store = Store::open_in_memory("test");
    store.load_ontology("t", ONT, TS);
    let d = ex("dependsOn");
    for (s, o) in [("a", "b"), ("b", "c")] {
        let datums = ingest(&mut store, &[(&ex(s), &d, &ex(o))]);
        ReactiveOwl
            .after_commit(&mut store, &Delta { source: Some("test".into()), asserts: datums, retracts: vec![] }, TS)
            .unwrap();
    }
    assert!(holds(&store, &ex("a"), &d, &ex("c")));
}

#[test]
fn inverse_and_symmetric_axioms_remain_live_after_load() {
    const ONT: &str = r#"
@prefix owl: <http://www.w3.org/2002/07/owl#> .
@prefix ex: <http://example.org/> .
ex:authors owl:inverseOf ex:authoredBy .
ex:friendOf a owl:SymmetricProperty .
"#;
    let mut store = Store::open_in_memory("test");
    store.load_ontology("relations", ONT, TS);
    let datums = ingest(
        &mut store,
        &[(&ex("alice"), &ex("authors"), &ex("paper")), (&ex("alice"), &ex("friendOf"), &ex("bob"))],
    );
    ReactiveOwl
        .after_commit(&mut store, &Delta { source: None, asserts: datums, retracts: vec![] }, TS)
        .unwrap();
    assert!(holds(&store, &ex("paper"), &ex("authoredBy"), &ex("alice")));
    assert!(holds(&store, &ex("bob"), &ex("friendOf"), &ex("alice")));
}

#[test]
fn irrelevant_write_is_skipped() {
    const ONT: &str = r#"
@prefix owl: <http://www.w3.org/2002/07/owl#> .
@prefix ex: <http://example.org/> .
ex:dependsOn a owl:ObjectProperty, owl:TransitiveProperty .
"#;
    let mut store = Store::open_in_memory("test");
    store.load_ontology("t", ONT, TS);
    let datums = ingest(&mut store, &[(&ex("a"), &ex("unrelated"), &ex("b"))]);
    ReactiveOwl
        .after_commit(&mut store, &Delta { source: None, asserts: datums, retracts: vec![] }, TS)
        .unwrap();
    let head = store.transaction_head();
    let count = (1..=head)
        .filter(|tx| store.transaction_source(*tx) == Some(Some("owl:materialize".to_string())))
        .count();
    assert_eq!(count, 0, "no materialization pass may run for unrelated vocabulary");
    assert_eq!(head, 1);
}

#[test]
fn the_materializers_own_output_does_not_retrigger_it() {
    const ONT: &str = r#"
@prefix owl: <http://www.w3.org/2002/07/owl#> .
@prefix ex: <http://example.org/> .
ex:dependsOn a owl:ObjectProperty, owl:TransitiveProperty .
"#;
    let mut store = Store::open_in_memory("test");
    store.load_ontology("t", ONT, TS);
    let d = ex("dependsOn");
    let datums = ingest(&mut store, &[(&ex("a"), &d, &ex("b")), (&ex("b"), &d, &ex("c"))]);
    ReactiveOwl
        .after_commit(
            &mut store,
            &Delta { source: Some("owl:materialize".into()), asserts: datums, retracts: vec![] },
            TS,
        )
        .unwrap();
    assert!(!holds(&store, &ex("a"), &d, &ex("c")));
    assert_eq!(store.transaction_head(), 1);
}

// --- owl:sameAs: identity arrives as data, never as an axiom -----------------

/// Deliberately empty of sameAs: the identity is asserted in the data.
const SA_ONT: &str = r#"
@prefix owl: <http://www.w3.org/2002/07/owl#> .
@prefix ex:  <http://example.org/> .
ex:hosts a owl:ObjectProperty .
"#;

const SAME_AS: &str = "http://www.w3.org/2002/07/owl#sameAs";

/// Facts with attribute `p` that are live in the given graphs.
fn count_with_attribute(store: &Store, graphs: &[i64], p: &str) -> usize {
    let Some(a) = store.lookup(p) else {
        return 0;
    };
    store.current_facts_in_graphs(graphs).iter().filter(|f| f.attribute == a).count()
}

#[test]
fn same_as_propagates_predicates_to_the_twin() {
    let ont = Ontology::from_turtle(SA_ONT).unwrap();
    let mut store = Store::open_in_memory("test");
    ingest(
        &mut store,
        &[(&ex("node"), SAME_AS, &ex("nodeAlias")), (&ex("node"), &ex("hosts"), &ex("payload"))],
    );
    assert!(
        !holds(&store, &ex("nodeAlias"), &ex("hosts"), &ex("payload")),
        "the twin answers BEFORE materialisation — this fixture cannot detect the defect"
    );
    let report = ont.materialize(&mut store, TS).unwrap();
    assert!(report.same_as_inferences > 0, "nothing was derived from sameAs");
    assert!(
        holds(&store, &ex("nodeAlias"), &ex("hosts"), &ex("payload")),
        "the sameAs twin must reach the fact"
    );
}

#[test]
fn same_as_closes_transitively_over_a_chain() {
    let ont = Ontology::from_turtle(SA_ONT).unwrap();
    let mut store = Store::open_in_memory("test");
    ingest(
        &mut store,
        &[
            (&ex("a"), SAME_AS, &ex("b")),
            (&ex("b"), SAME_AS, &ex("c")),
            (&ex("a"), &ex("hosts"), &ex("payload")),
        ],
    );
    ont.materialize(&mut store, TS).unwrap();
    assert!(
        holds(&store, &ex("c"), &ex("hosts"), &ex("payload")),
        "the far end of an identity chain must receive the fact"
    );
    assert!(
        holds(&store, &ex("c"), SAME_AS, &ex("a")),
        "identity is symmetric and transitive: c sameAs a"
    );
}

#[test]
fn same_as_rewrites_the_object_not_only_the_subject() {
    let ont = Ontology::from_turtle(SA_ONT).unwrap();
    let mut store = Store::open_in_memory("test");
    ingest(
        &mut store,
        &[(&ex("target"), SAME_AS, &ex("targetAlias")), (&ex("node"), &ex("hosts"), &ex("target"))],
    );
    ont.materialize(&mut store, TS).unwrap();
    assert!(
        holds(&store, &ex("node"), &ex("hosts"), &ex("targetAlias")),
        "a fact must be restated against the object's co-referent"
    );
}

#[test]
fn same_as_only_adds_answers_never_removes_them() {
    let ont = Ontology::from_turtle(SA_ONT).unwrap();
    let mut store = Store::open_in_memory("test");
    ingest(
        &mut store,
        &[
            (&ex("x"), SAME_AS, &ex("y")),
            (&ex("x"), &ex("hosts"), &ex("one")),
            (&ex("y"), &ex("hosts"), &ex("two")),
            (&ex("z"), &ex("hosts"), &ex("three")),
        ],
    );
    let before = count_with_attribute(&store, &[ROOT_GRAPH], &ex("hosts"));
    ont.materialize(&mut store, TS).unwrap();
    let after = count_with_attribute(&store, &[ROOT_GRAPH, INFERRED_GRAPH], &ex("hosts"));
    assert!(
        after > before,
        "the fixture must actually gain rows, or the superset check is vacuous \
         (before {before}, after {after})"
    );
    assert!(
        holds(&store, &ex("z"), &ex("hosts"), &ex("three")),
        "a fact about an entity with no identity assertion must be unaffected"
    );
}

#[test]
fn same_as_does_not_emit_reflexive_identity() {
    let ont = Ontology::from_turtle(SA_ONT).unwrap();
    let mut store = Store::open_in_memory("test");
    ingest(&mut store, &[(&ex("p"), SAME_AS, &ex("q"))]);
    ont.materialize(&mut store, TS).unwrap();
    let same_as_id = store.lookup(SAME_AS).unwrap();
    let reflexive = store
        .current_facts_in_graph(INFERRED_GRAPH)
        .into_iter()
        .filter(|f| f.attribute == same_as_id && f.value == Value::Ref(f.entity))
        .count();
    assert_eq!(
        reflexive, 0,
        "x sameAs x is inert noise and would add one triple per participating entity"
    );
}

#[test]
fn same_as_materialisation_is_idempotent() {
    let ont = Ontology::from_turtle(SA_ONT).unwrap();
    let mut store = Store::open_in_memory("test");
    ingest(
        &mut store,
        &[
            (&ex("a"), SAME_AS, &ex("b")),
            (&ex("b"), SAME_AS, &ex("c")),
            (&ex("a"), &ex("hosts"), &ex("payload")),
        ],
    );
    let first = ont.materialize(&mut store, TS).unwrap();
    assert!(first.same_as_inferences > 0);
    let second = ont.materialize(&mut store, "2026-01-02T00:00:00Z").unwrap();
    assert_eq!(
        second.same_as_inferences, 0,
        "re-materialising must be a no-op; a non-zero count means the rule feeds itself"
    );
}

#[test]
fn same_as_does_not_rewrite_predicates_and_the_count_says_so() {
    let ont = Ontology::from_turtle(SA_ONT).unwrap();
    let mut store = Store::open_in_memory("test");
    ingest(
        &mut store,
        &[(&ex("hosts"), SAME_AS, &ex("runs")), (&ex("box"), &ex("hosts"), &ex("svc"))],
    );
    ont.materialize(&mut store, TS).unwrap();
    assert!(
        holds(&store, &ex("runs"), SAME_AS, &ex("hosts")),
        "the identity closure must still fire over predicate IRIs"
    );
    let rewritten = usize::from(holds(&store, &ex("box"), &ex("runs"), &ex("svc")));
    assert_eq!(
        rewritten, 0,
        "a fact is not restated under a co-referent PREDICATE"
    );
}

#[test]
fn ontology_axiom_summary() {
    let ont = Ontology::from_turtle(TEST_ONTOLOGY).unwrap();
    let summary: serde_json::Value = serde_json::from_str(&ont.axiom_summary()).unwrap();
    assert_eq!(summary["subclass_of"], 2);
    assert_eq!(summary["disjoint_with"], 1); // stored as 2 pairs, reported as 1
    assert_eq!(summary["functional_properties"], 1);
}

#[test]
fn axiom_summary_is_the_sorted_json_object_of_the_counts() {
    let ont = Ontology::from_turtle(TEST_ONTOLOGY).unwrap();
    let text = ont.axiom_summary();
    let summary: serde_json::Value = serde_json::from_str(&text).unwrap();
    assert_eq!(serde_json::to_string(&summary).unwrap(), text);
    assert_eq!(summary["inverse_of"], 1);
    assert_eq!(summary["total_triples"], ont.triples.len());
}

#[test]
fn the_published_freshness_note_does_not_retrigger_the_reasoner() {
    const ONT: &str = r#"
@prefix owl: <http://www.w3.org/2002/07/owl#> .
@prefix ex: <http://example.org/> .
ex:dependsOn a owl:ObjectProperty, owl:TransitiveProperty .
"#;
    let mut store = Store::open_in_memory("test");
    store.load_ontology("t", ONT, TS);
    let d = ex("dependsOn");
    let datums = ingest(&mut store, &[(&ex("a"), &d, &ex("b")), (&ex("b"), &d, &ex("c"))]);
    ReactiveOwl
        .after_commit(&mut store, &Delta { source: Some("owl:plane".into()), asserts: datums, retracts: vec![] }, TS)
        .unwrap();
    assert!(!holds(&store, &ex("a"), &d, &ex("c")));
    assert_eq!(store.transaction_head(), 1);
}

#[test]
fn text_that_is_not_turtle_is_refused_and_turtle_is_read() {
    assert!(Ontology::from_turtle("@prefix ex: <http://example.org/> . ex:a ex:b").is_err());
    assert!(Ontology::from_turtle("@prefix ex: <http://example.org/> . ex:a ex:b ex:c .").is_ok());
    assert!(Ontology::from_turtle("").is_ok());
}

#[test]
fn the_plane_migration_does_not_retrigger_the_reasoner() {
    const ONT: &str = r#"
@prefix owl: <http://www.w3.org/2002/07/owl#> .
@prefix ex: <http://example.org/> .
ex:dependsOn a owl:ObjectProperty, owl:TransitiveProperty .
"#;
    let mut store = Store::open_in_memory("test");
    store.load_ontology("t", ONT, TS);
    let d = ex("dependsOn");
    let datums = ingest(&mut store, &[(&ex("a"), &d, &ex("b")), (&ex("b"), &d, &ex("c"))]);
    ReactiveOwl
        .after_commit(&mut store, &Delta { source: Some("owl:migrate".into()), asserts: datums.clone(), retracts: vec![] }, TS)
        .unwrap();
    assert!(!holds(&store, &ex("a"), &d, &ex("c")));
    // A relevant write that asserted nothing derives nothing either.
    ReactiveOwl
        .after_commit(&mut store, &Delta { source: None, asserts: vec![], retracts: datums.clone() }, TS)
        .unwrap();
    assert!(!holds(&store, &ex("a"), &d, &ex("c")));
    // The same write from anyone else is re-materialized.
    ReactiveOwl
        .after_commit(&mut store, &Delta { source: None, asserts: datums, retracts: vec![] }, TS)
        .unwrap();
    assert!(holds(&store, &ex("a"), &d, &ex("c")));
}

#[test]
fn parsed_turtle_gives_its_triples_in_order() {
    let o = Ontology::from_turtle(
        "@prefix ex: <http://example.org/> . ex:a ex:b ex:c . _:x ex:b \"v\" .",
    )
    .unwrap();
    assert_eq!(o.triples.len(), 2);
    assert_eq!(o.triples[0], ("http://example.org/a".to_string(), "http://example.org/b".to_string(), "http://example.org/c".to_string()));
    assert_eq!(o.triples[1].0, "_:x");
}

const SN_ONT: &str = r#"
@prefix owl:  <http://www.w3.org/2002/07/owl#> .
@prefix rdfs: <http://www.w3.org/2000/01/rdf-schema#> .
@prefix ex:   <http://example.org/> .
ex:Dog     rdfs:subClassOf ex:Mammal .
ex:Mammal  rdfs:subClassOf ex:Animal .
ex:Pet     owl:equivalentClass ex:Companion .
ex:owns    owl:inverseOf ex:ownedBy .
ex:knows   a owl:SymmetricProperty .
ex:partOf  a owl:TransitiveProperty .
ex:likes   rdfs:subPropertyOf ex:regards .
ex:cares   owl:equivalentProperty ex:tends .
ex:feeds   rdfs:domain ex:Keeper ; rdfs:range ex:Animal .
"#;

/// Every fact in the inferred companion graph, as a comparable set.
fn sn_derived(store: &Store) -> std::collections::BTreeSet<(i64, i64, String)> {
    store
        .current_facts_in_graph(INFERRED_GRAPH)
        .into_iter()
        .map(|f| (f.entity, f.attribute, format!("{:?}", f.value)))
        .collect()
}

/// The ROOT facts of `after` that `before` does not hold.
fn new_facts(before: &[quipu::store::Fact], after: &[quipu::store::Fact]) -> Vec<quipu::store::Fact> {
    after
        .iter()
        .filter(|f| !before.iter().any(|b| b.entity == f.entity && b.attribute == f.attribute && b.value == f.value))
        .cloned()
        .collect()
}

#[test]
fn semi_naive_reaches_the_same_fixpoint_as_naive() {
    let data: Vec<(String, String, String)> = vec![
        (ex("fido"), RDF_TYPE.to_string(), ex("Dog")),
        (ex("rex"), RDF_TYPE.to_string(), ex("Pet")),
        (ex("ann"), ex("owns"), ex("fido")),
        (ex("ann"), ex("knows"), ex("bob")),
        (ex("paw"), ex("partOf"), ex("leg")),
        (ex("leg"), ex("partOf"), ex("fido")),
        (ex("ann"), ex("likes"), ex("rex")),
        (ex("ann"), ex("cares"), ex("rex")),
        (ex("ann"), ex("feeds"), ex("fido")),
        (ex("fido"), SAME_AS.to_string(), ex("fidoAlias")),
        (ex("ann"), ex("knows"), ex("annAlias")),
        (ex("ann"), SAME_AS.to_string(), ex("annAlias")),
    ];
    let triples: Vec<(&str, &str, &str)> = data.iter().map(|(s, p, o)| (s.as_str(), p.as_str(), o.as_str())).collect();
    let ont = Ontology::from_turtle(SN_ONT).unwrap();

    let mut naive = Store::open_in_memory("naive");
    naive.load_ontology("t", SN_ONT, TS);
    ingest(&mut naive, &triples);
    let rn = ont.materialize(&mut naive, TS).unwrap();

    let mut semi = Store::open_in_memory("semi");
    semi.load_ontology("t", SN_ONT, TS);
    ingest(&mut semi, &triples);
    let seed = semi.current_facts_in_graph(ROOT_GRAPH);
    let rs = ont.materialize_delta(&mut semi, TS, &seed).unwrap();

    assert!(rn.total > 0, "fixture derives nothing — the comparison below would be vacuous");
    assert_eq!(sn_derived(&naive), sn_derived(&semi), "naive total {}, semi total {}", rn.total, rs.total);
}

#[test]
fn transitive_closure_joins_the_delta_against_history() {
    let mut store = Store::open_in_memory("test");
    store.load_ontology("t", SN_ONT, TS);
    let ont = Ontology::from_turtle(SN_ONT).unwrap();
    let p = ex("partOf");
    ingest(&mut store, &[(&ex("a"), &p, &ex("b"))]);
    let first = store.current_facts_in_graph(ROOT_GRAPH);
    ont.materialize_delta(&mut store, TS, &first).unwrap();

    let before = store.current_facts_in_graph(ROOT_GRAPH);
    ingest(&mut store, &[(&ex("b"), &p, &ex("c"))]);
    let after = store.current_facts_in_graph(ROOT_GRAPH);
    let seed = new_facts(&before, &after);
    assert_eq!(seed.len(), 1, "the seed must be the ONE new edge, not the store");
    ont.materialize_delta(&mut store, TS, &seed).unwrap();
    assert!(holds(&store, &ex("a"), &p, &ex("c")), "a→c must be derived from a delta containing only b→c");
}

#[test]
fn same_as_fires_when_the_identity_is_older_than_the_delta() {
    let ont = Ontology::from_turtle(SN_ONT).unwrap();
    let mut store = Store::open_in_memory("test");
    store.load_ontology("t", SN_ONT, TS);
    ingest(&mut store, &[(&ex("old"), SAME_AS, &ex("oldAlias"))]);
    ont.materialize(&mut store, TS).unwrap();

    let before = store.current_facts_in_graph(ROOT_GRAPH);
    ingest(&mut store, &[(&ex("old"), &ex("likes"), &ex("rex"))]);
    let after = store.current_facts_in_graph(ROOT_GRAPH);
    let seed = new_facts(&before, &after);
    assert_eq!(seed.len(), 1, "the delta must be exactly the one new fact");
    ont.materialize_delta(&mut store, "2026-01-02T00:00:00Z", &seed).unwrap();
    assert!(holds(&store, &ex("oldAlias"), &ex("likes"), &ex("rex")));
}
