use std::sync::atomic::{AtomicUsize, Ordering};

use quipu::namespace::RDF_TYPE;
use quipu::owl_snapshot::{Snapshot, APPLY_BATCH, DERIVED_AS_OF_TX, ROOT_INFERRED_GRAPH_IRI};
use quipu::store::{Datum, Op, Store, INFERRED_GRAPH};
use quipu::value::Value;

const TS: &str = "2026-01-01T00:00:00Z";
const LATER: &str = "2026-01-02T00:00:00Z";
const ONT: &str = "@prefix rdfs: <http://www.w3.org/2000/01/rdf-schema#> . \
    <urn:Child> rdfs:subClassOf <urn:Parent> .";

static STORES: AtomicUsize = AtomicUsize::new(0);

/// A fresh store with an identity of its own.
fn fresh_store() -> Store {
    let n = STORES.fetch_add(1, Ordering::SeqCst);
    Store::open_in_memory(&format!("store-{n}"))
}

fn seed(count: usize) -> Store {
    let mut store = fresh_store();
    store.load_ontology("test", ONT, TS);
    let attr = store.intern(RDF_TYPE).unwrap();
    let child = store.intern("urn:Child").unwrap();
    let data: Vec<_> = (0..count)
        .map(|n| Datum {
            entity: store.intern(&format!("urn:entity:{n}")).unwrap(),
            attribute: attr,
            value: Value::Ref(child),
            valid_from: TS.into(),
            valid_to: None,
            op: Op::Assert,
        })
        .collect();
    store.transact(&data, None).unwrap();
    store
}

fn snapshot(store: &Store) -> Snapshot {
    let mut s = Snapshot::capture(store, fresh_store(), TS).unwrap();
    s.derive().unwrap();
    s
}

fn retract_first_root_fact(live: &mut Store) {
    let f = live.current_facts().remove(0);
    live.transact(
        &[Datum {
            entity: f.entity,
            attribute: f.attribute,
            value: f.value,
            valid_from: LATER.into(),
            valid_to: None,
            op: Op::Retract,
        }],
        None,
    )
    .unwrap();
}

#[test]
fn snapshot_remaps_ids_and_applies_in_bounded_batches() {
    let mut live = seed(APPLY_BATCH + 1);
    let root_before = live.current_facts();
    let mut plan = snapshot(&live);
    assert_eq!(plan.remaining(), APPLY_BATCH + 1);
    live.intern("urn:concurrent-term").unwrap();
    assert_eq!(plan.apply_batch(&mut live).unwrap(), APPLY_BATCH);
    assert_eq!(plan.remaining(), 1);
    assert_eq!(plan.apply_batch(&mut live).unwrap(), 1);
    plan.finish(&mut live).unwrap();
    assert_eq!(live.current_facts().len(), root_before.len());
    let parent = live.lookup("urn:Parent").unwrap();
    let inferred = live.current_facts_in_graph(INFERRED_GRAPH);
    assert_eq!(inferred.iter().filter(|f| f.value == Value::Ref(parent)).count(), APPLY_BATCH + 1);
}

#[test]
fn partial_apply_never_publishes_freshness_after_a_retraction() {
    let mut live = seed(APPLY_BATCH + 1);
    let mut plan = snapshot(&live);
    assert!(plan.finish(&mut live).is_err());
    assert_eq!(plan.apply_batch(&mut live).unwrap(), APPLY_BATCH);
    retract_first_root_fact(&mut live);
    assert!(plan.apply_batch(&mut live).is_err());
    assert!(plan.finish(&mut live).is_err());
    let freshness = live.lookup(DERIVED_AS_OF_TX);
    assert!(!live.current_facts_in_graph(INFERRED_GRAPH).iter().any(|f| Some(f.attribute) == freshness));
}

#[test]
fn freshness_is_the_snapshot_head_not_concurrent_additions() {
    let mut live = seed(1);
    let mut plan = snapshot(&live);
    let head = plan.premise_head;
    plan.apply_batch(&mut live).unwrap();
    plan.finish(&mut live).unwrap();
    assert!(live.transaction_head() > head);
    let companion = live.lookup(ROOT_INFERRED_GRAPH_IRI).unwrap();
    let freshness = live.lookup(DERIVED_AS_OF_TX).unwrap();
    let values: Vec<_> = live
        .current_facts_in_graph(INFERRED_GRAPH)
        .into_iter()
        .filter(|f| f.entity == companion && f.attribute == freshness)
        .map(|f| f.value)
        .collect();
    assert_eq!(values, vec![Value::Int(head)]);
}

#[test]
fn republishing_replaces_the_previous_freshness_record() {
    let mut live = seed(1);
    for _ in 0..2 {
        let mut plan = snapshot(&live);
        while plan.remaining() > 0 {
            plan.apply_batch(&mut live).unwrap();
        }
        plan.finish(&mut live).unwrap();
    }
    let companion = live.lookup(ROOT_INFERRED_GRAPH_IRI).unwrap();
    let freshness = live.lookup(DERIVED_AS_OF_TX).unwrap();
    let values: Vec<_> = live
        .current_facts_in_graph(INFERRED_GRAPH)
        .into_iter()
        .filter(|f| f.entity == companion && f.attribute == freshness)
        .collect();
    assert_eq!(values.len(), 1);
}

#[test]
fn concurrent_additions_do_not_starve_snapshot_publication() {
    let mut live = seed(1);
    let mut plan = snapshot(&live);
    let extra = live.current_facts()[0].clone();
    let entity = live.intern("urn:new-premise").unwrap();
    live.transact(
        &[Datum {
            entity,
            attribute: extra.attribute,
            value: extra.value,
            valid_from: LATER.into(),
            valid_to: None,
            op: Op::Assert,
        }],
        None,
    )
    .unwrap();
    assert!(live.transaction_head() > plan.premise_head);
    assert_eq!(plan.apply_batch(&mut live).unwrap(), 1);
}

#[test]
fn retracted_premise_prevents_publication() {
    let mut live = seed(1);
    let mut plan = snapshot(&live);
    retract_first_root_fact(&mut live);
    assert!(plan.apply_batch(&mut live).unwrap_err().message().contains("retracted"));
    assert_eq!(plan.remaining(), 1);
}

#[test]
fn ontology_change_and_store_swap_prevent_publication() {
    let mut live = seed(1);
    let mut plan = snapshot(&live);
    assert!(plan.apply_batch(&mut seed(1)).is_err());
    live.remove_ontology("test");
    assert!(plan.apply_batch(&mut live).is_err());
}

#[test]
fn unrelated_named_graphs_are_not_premises() {
    let mut live = seed(1);
    let graph = live.intern("urn:private").unwrap();
    let f = live.current_facts().remove(0);
    let entity = live.intern("urn:private-entity").unwrap();
    live.transact_to_graph(
        &[Datum {
            entity,
            attribute: f.attribute,
            value: f.value,
            valid_from: TS.into(),
            valid_to: None,
            op: Op::Assert,
        }],
        None,
        graph,
    )
    .unwrap();
    assert_eq!(snapshot(&live).remaining(), 1);
}

#[test]
fn inference_budget_rejects_before_live_publication() {
    let mut scratch = seed(2);
    let ontology = scratch.get_combined_ontologies().unwrap().unwrap();
    assert!(ontology
        .materialize_limited(&mut scratch, TS, 1)
        .unwrap_err()
        .message()
        .contains("budget exceeded"));
}

#[test]
fn a_snapshot_refuses_a_scratch_store_that_is_not_empty() {
    let live = seed(1);
    let err = Snapshot::capture(&live, seed(1), TS).err().unwrap();
    assert_eq!(err.message(), "OWL scratch store must be empty");
}

#[test]
fn the_lifecycle_is_enforced() {
    let mut live = seed(1);
    let mut plan = Snapshot::capture(&live, fresh_store(), TS).unwrap();
    assert_eq!(plan.ontology_count(), 1);
    assert_eq!(plan.apply_batch(&mut live).unwrap_err().message(), "OWL snapshot has not been derived");
    assert_eq!(plan.finish(&mut live).unwrap_err().message(), "OWL snapshot is incomplete");
    plan.derive().unwrap();
    assert_eq!(plan.derive().unwrap_err().message(), "OWL snapshot already derived");
    assert_eq!(plan.report.total, 1);
    assert_eq!(plan.apply_batch(&mut live).unwrap(), 1);
    assert_eq!(plan.apply_batch(&mut live).unwrap(), 0);
    plan.finish(&mut live).unwrap();
}

#[test]
fn without_ontologies_nothing_is_derived_or_published() {
    let mut live = fresh_store();
    let attr = live.intern(RDF_TYPE).unwrap();
    let child = live.intern("urn:Child").unwrap();
    live.transact(
        &[Datum { entity: child, attribute: attr, value: Value::Ref(child), valid_from: TS.into(), valid_to: None, op: Op::Assert }],
        None,
    )
    .unwrap();
    let mut plan = snapshot(&live);
    assert_eq!(plan.ontology_count(), 0);
    assert_eq!(plan.remaining(), 0);
    let head = live.transaction_head();
    assert_eq!(plan.apply_batch(&mut live).unwrap(), 0);
    plan.finish(&mut live).unwrap();
    assert_eq!(live.transaction_head(), head);
}
