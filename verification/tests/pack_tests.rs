use quipu::pack::{canonical_content, content_hash, hex_encode, local_name, pack_to_bytes, turtle_bundle, verify, PackOptions};
use quipu::pack_load::{unpack, unpack_verified, LoadOptions};
use quipu::store::{Datum, Op, QueryParam, Store, StoredQuery};
use quipu::value::Value;

const TS: &str = "2026-08-06T00:00:00Z";

/// A store with graph `urn:g:pack` holding two triples (written in the
/// given order) and one unrelated ROOT fact.
fn producer(order: usize) -> Store {
    let mut store = Store::open_in_memory("producer");
    let graph = store.intern("urn:g:pack").unwrap();
    let alice = store.intern("http://example.org/alice").unwrap();
    let bob = store.intern("http://example.org/bob").unwrap();
    let knows = store.intern("http://example.org/knows").unwrap();
    let name = store.intern("http://example.org/name").unwrap();
    let mut ds = vec![
        Datum { entity: alice, attribute: knows, value: Value::Ref(bob), valid_from: TS.into(), valid_to: None, op: Op::Assert },
        Datum { entity: alice, attribute: name, value: Value::Str("Alice".into()), valid_from: TS.into(), valid_to: None, op: Op::Assert },
    ];
    if order == 1 {
        ds.reverse();
    }
    store.transact_to_graph(&ds, None, graph).unwrap();
    store
        .transact(&[Datum { entity: bob, attribute: name, value: Value::Str("Bob".into()), valid_from: TS.into(), valid_to: None, op: Op::Assert }], None)
        .unwrap();
    store
}

#[test]
fn pack_to_bytes_refuses_a_nonzero_space_naming_the_restriction() {
    let store = producer(0);
    let opts = PackOptions { space: Some(7), ..Default::default() };
    let err = pack_to_bytes(&store, "urn:g:pack", &opts, TS).err().expect("no file to respace");
    let msg = err.message();
    assert!(msg.contains("file destination"), "names the restriction: {msg}");
    assert!(msg.contains("respace"), "says the remedy: {msg}");
}

#[test]
fn content_hash_is_sha256_in_hex() {
    assert_eq!(
        content_hash("abc"),
        "sha256:ba7816bf8f01cfea414140de5dae2223b00361a396177a9cb410ff61f20015ad"
    );
    assert_eq!(
        content_hash(""),
        "sha256:e3b0c44298fc1c149afbf4c8996fb92427ae41e4649b934ca495991b7852b855"
    );
    assert_eq!(hex_encode(&[0x00, 0x0f, 0xa0, 0xff]), "000fa0ff");
}

#[test]
fn local_name_is_what_follows_the_last_separator() {
    assert_eq!(local_name("urn:g:pack"), "pack");
    assert_eq!(local_name("http://example.org/ns#Thing"), "Thing");
    assert_eq!(local_name("http://example.org/dir/"), "http://example.org/dir/");
    assert_eq!(local_name("plain"), "plain");
}

#[test]
fn canonical_content_is_sorted_n_triples() {
    let store = producer(0);
    let text = canonical_content(&store, "urn:g:pack", &[], &[]).unwrap();
    assert_eq!(
        text,
        "# quipu-pack-content v1\n## triples\n\
<http://example.org/alice> <http://example.org/knows> <http://example.org/bob> .\n\
<http://example.org/alice> <http://example.org/name> \"Alice\" .\n\
## shapes\n## queries\n## labels\n"
    );
    assert_eq!(canonical_content(&store, "urn:g:missing", &[], &[]).unwrap_err().message(), "unknown graph: urn:g:missing");
    assert_eq!(
        canonical_content(&store, "urn:g:pack", &["s".to_string()], &[]).unwrap_err().message(),
        "pack: no such shape graph: s"
    );
}

#[test]
fn same_triples_in_another_order_hash_the_same() {
    let a = canonical_content(&producer(0), "urn:g:pack", &[], &[]).unwrap();
    let b = canonical_content(&producer(1), "urn:g:pack", &[], &[]).unwrap();
    assert_eq!(content_hash(&a), content_hash(&b));
}

#[test]
fn a_pack_carries_its_graph_and_verifies() {
    let store = producer(0);
    let (manifest, pack) = pack_to_bytes(&store, "urn:g:pack", &PackOptions::default(), TS).unwrap();
    assert_eq!(manifest.pack_format, "1");
    assert_eq!(manifest.name, "pack");
    assert_eq!(manifest.version, "0.1.0");
    assert_eq!(manifest.term_space, 0);
    assert_eq!(manifest.source_graph, "urn:g:pack");
    assert_eq!(manifest.created_at, TS);
    assert!(manifest.content_hash.starts_with("sha256:"));
    assert!(manifest.counts.contains("\"facts\":2"), "{}", manifest.counts);
    assert!(manifest.producer.contains("\"repository\":null"), "{}", manifest.producer);
    let (claimed, recomputed, matches) = verify(&pack).unwrap();
    assert!(matches);
    assert_eq!(claimed, recomputed);
    let g = pack.lookup("urn:g:pack").unwrap();
    assert_eq!(pack.current_facts_in_graph(g).len(), 2);
    assert_eq!(pack.read_manifest().unwrap(), manifest);
}

#[test]
fn pack_refusals() {
    let store = producer(0);
    let partial = PackOptions { repository: Some("r".into()), ..Default::default() };
    assert!(pack_to_bytes(&store, "urn:g:pack", &partial, TS).err().unwrap().message().contains("supplied together"));
    assert_eq!(
        pack_to_bytes(&store, "urn:g:nope", &PackOptions::default(), TS).err().unwrap().message(),
        "pack: unknown graph: urn:g:nope"
    );
    let vectors = PackOptions { with_vectors: true, ..Default::default() };
    assert!(pack_to_bytes(&store, "urn:g:pack", &vectors, TS).is_ok());
    let mut delegated = producer(0);
    delegated.set_vector_search_delegate();
    assert!(pack_to_bytes(&delegated, "urn:g:pack", &vectors, TS).err().unwrap().message().contains("--with-vectors"));
    let full = PackOptions {
        repository: Some("repo".into()),
        repository_sha: Some("abc".into()),
        model_id: Some("m".into()),
        model_version: Some("1".into()),
        name: Some("named".into()),
        ..Default::default()
    };
    let (m, _) = pack_to_bytes(&store, "urn:g:pack", &full, TS).unwrap();
    assert_eq!(m.name, "named");
    assert!(m.producer.contains("\"repository\":\"repo\""), "{}", m.producer);
}

#[test]
fn unpacking_twice_is_a_no_op() {
    let store = producer(0);
    let (_, pack) = pack_to_bytes(&store, "urn:g:pack", &PackOptions::default(), TS).unwrap();
    let mut dest = Store::open_in_memory("dest");
    let first = unpack(&pack, &mut dest, None, TS).unwrap();
    assert_eq!(first.outcome, "loaded");
    assert_eq!(first.facts, 2);
    assert_eq!(first.graph, "urn:g:pack");
    let head = dest.transaction_head();
    let second = unpack(&pack, &mut dest, None, TS).unwrap();
    assert_eq!(second.outcome, "unchanged");
    assert_eq!(second.facts, 0);
    assert_eq!(dest.transaction_head(), head);
    let g = dest.lookup("urn:g:pack").unwrap();
    assert_eq!(dest.current_facts_in_graph(g).len(), 2);
}

#[test]
fn unpack_into_another_graph_and_check_the_repository() {
    let store = producer(0);
    let (_, pack) = pack_to_bytes(&store, "urn:g:pack", &PackOptions::default(), TS).unwrap();
    let mut dest = Store::open_in_memory("dest");
    let opts = LoadOptions { into: Some("urn:g:copy"), expect_repository: None, head_sha: Some("h1") };
    let rep = unpack_verified(&pack, &mut dest, &opts, TS).unwrap();
    assert_eq!(rep.graph, "urn:g:copy");
    assert_eq!(rep.head_sha.as_deref(), Some("h1"));
    assert!(dest.lookup("urn:g:copy").is_some());
    let mut other = Store::open_in_memory("other");
    let expect = LoadOptions { into: None, expect_repository: Some("repo"), head_sha: None };
    assert_eq!(
        unpack_verified(&pack, &mut other, &expect, TS).unwrap_err().message(),
        "pack: repository mismatch: expected \"repo\", manifest has None"
    );
}

#[test]
fn a_store_that_is_not_a_pack_is_refused() {
    let store = producer(0);
    assert_eq!(verify(&store).unwrap_err().message(), "pack: store has no readable manifest");
    let mut dest = Store::open_in_memory("dest");
    assert!(unpack(&store, &mut dest, None, TS).is_err());
}

#[test]
fn both_formats_agree_on_the_content_hash() {
    let store = producer(0);
    let (a, _) = pack_to_bytes(&store, "urn:g:pack", &PackOptions::default(), TS).unwrap();
    let b = turtle_bundle(&store, "urn:g:pack", &PackOptions::default(), TS).unwrap();
    assert_eq!(a.content_hash, b.manifest.content_hash, "one graph, one identity, two renderings");
}

#[test]
fn the_turtle_bundle_refuses_a_nonzero_space_naming_the_restriction() {
    let store = producer(0);
    let opts = PackOptions { space: Some(7), ..Default::default() };
    let err = turtle_bundle(&store, "urn:g:pack", &opts, TS).err().expect("no term ids in a bundle");
    assert!(err.message().contains("term space"), "{}", err.message());
}

#[test]
fn the_turtle_bundle_refuses_an_unknown_graph_and_writes_nothing() {
    let store = producer(0);
    let err = turtle_bundle(&store, "urn:g:missing", &PackOptions::default(), TS).err().unwrap();
    assert_eq!(err.message(), "pack: unknown graph: urn:g:missing");
}

#[test]
fn the_turtle_bundle_carries_its_graph_and_a_json_manifest() {
    let store = producer(0);
    let b = turtle_bundle(&store, "urn:g:pack", &PackOptions::default(), TS).unwrap();
    assert_eq!(b.manifest.pack_format, "1-turtle");
    assert_eq!(b.manifest.name, "pack");
    assert_eq!(b.manifest.term_space, 0);
    assert_eq!(
        b.graph_ttl,
        "<http://example.org/alice> <http://example.org/knows> <http://example.org/bob> .\n\
         <http://example.org/alice> <http://example.org/name> \"Alice\" .\n"
    );
    let counts: serde_json::Value = serde_json::from_str(&b.manifest.counts).unwrap();
    assert_eq!(counts["facts"], 2);
    let producer: serde_json::Value = serde_json::from_str(&b.manifest.producer).unwrap();
    assert!(producer["tool"].as_str().unwrap().contains("turtle"));
    // A shape the store does not hold is refused by name.
    let opts = PackOptions { shapes: vec!["s1".into()], ..Default::default() };
    assert_eq!(
        turtle_bundle(&store, "urn:g:pack", &opts, TS).err().unwrap().message(),
        "pack: no such shape graph: s1"
    );
}

/// A store whose graph `urn:g:pack` holds one literal-valued and one
/// reference-valued triple, after `extra_terms` unrelated terms were
/// interned (so that two such stores give the same IRIs different ids).
fn producer_after_junk(extra_terms: usize) -> Store {
    let mut store = Store::open_in_memory("producer");
    for i in 0..extra_terms {
        store.intern(&format!("urn:junk:{i}")).unwrap();
    }
    let g = store.intern("urn:g:pack").unwrap();
    let s = store.intern("http://example.org/s").unwrap();
    let p = store.intern("http://example.org/p").unwrap();
    let q = store.intern("http://example.org/q").unwrap();
    let o = store.intern("http://example.org/o").unwrap();
    let ds = vec![
        Datum { entity: s, attribute: p, value: Value::Str("literal".into()), valid_from: TS.into(), valid_to: None, op: Op::Assert },
        Datum { entity: s, attribute: q, value: Value::Ref(o), valid_from: TS.into(), valid_to: None, op: Op::Assert },
    ];
    store.transact_to_graph(&ds, None, g).unwrap();
    store
}

#[test]
fn the_hash_is_identical_across_different_term_id_assignment() {
    let a = producer_after_junk(0);
    let b = producer_after_junk(37);
    let ha = content_hash(&canonical_content(&a, "urn:g:pack", &[], &[]).unwrap());
    let hb = content_hash(&canonical_content(&b, "urn:g:pack", &[], &[]).unwrap());
    assert_eq!(ha, hb, "same triples, different ids -> same hash");
    assert!(ha.starts_with("sha256:"));

    let mut c = producer_after_junk(0);
    let g = c.lookup("urn:g:pack").unwrap();
    let s = c.intern("http://example.org/s").unwrap();
    let extra = c.intern("http://example.org/extra").unwrap();
    c.transact_to_graph(
        &[Datum { entity: s, attribute: extra, value: Value::Str("more".into()), valid_from: TS.into(), valid_to: None, op: Op::Assert }],
        None,
        g,
    )
    .unwrap();
    let hc = content_hash(&canonical_content(&c, "urn:g:pack", &[], &[]).unwrap());
    assert_ne!(ha, hc, "an added triple MUST change the hash");
}

#[test]
fn an_object_position_reference_survives_re_interning() {
    let store = producer_after_junk(11);
    let (_, opened) = pack_to_bytes(&store, "urn:g:pack", &PackOptions::default(), TS).unwrap();
    let g = opened.lookup("urn:g:pack").unwrap();
    let refs: Vec<String> = opened
        .current_facts_in_graph(g)
        .iter()
        .filter_map(|f| match &f.value {
            Value::Ref(id) => opened.resolve(*id).ok(),
            _ => None,
        })
        .collect();
    assert_eq!(
        refs,
        vec!["http://example.org/o".to_string()],
        "the reference resolves to the SAME IRI in the packed store"
    );
}

#[test]
fn naming_a_shape_that_does_not_exist_is_refused() {
    let store = producer_after_junk(0);
    let opts = PackOptions { shapes: vec!["nope".into()], ..Default::default() };
    let err = pack_to_bytes(&store, "urn:g:pack", &opts, TS).err().expect("no such shape");
    assert!(err.message().contains("no such shape"), "{}", err.message());
}

#[test]
fn packing_an_unknown_graph_is_refused() {
    let store = producer_after_junk(0);
    let err = pack_to_bytes(&store, "urn:g:missing", &PackOptions::default(), TS).err().expect("unknown graph");
    assert!(err.message().contains("unknown graph"), "{}", err.message());
}

#[test]
fn with_vectors_refuses_on_a_non_sqlite_backend_naming_the_restriction() {
    let mut store = producer_after_junk(0);
    store.set_vector_search_delegate();
    assert!(!store.has_sqlite_vector_backend());
    let opts = PackOptions { with_vectors: true, ..Default::default() };
    let err = pack_to_bytes(&store, "urn:g:pack", &opts, TS).err().expect("delegate cannot enumerate");
    let msg = err.message();
    assert!(msg.contains("SQLite vector backend"), "names the restriction: {msg}");
    assert!(msg.contains("enumerated"), "says WHY: {msg}");
}

#[test]
fn repo_pack_refuses_partial_provenance_and_wrong_repository_before_writing() {
    let source = producer_after_junk(0);
    let partial = PackOptions { repository: Some("scbrown/example".into()), ..Default::default() };
    let err = pack_to_bytes(&source, "urn:g:pack", &partial, TS).err().unwrap();
    assert!(err.message().contains("must be supplied together"));

    let complete = PackOptions {
        repository: Some("scbrown/example".into()),
        repository_sha: Some("base123".into()),
        model_id: Some("model".into()),
        model_version: Some("v1".into()),
        ..Default::default()
    };
    let (_, artifact) = pack_to_bytes(&source, "urn:g:pack", &complete, TS).unwrap();
    let mut destination = Store::open_in_memory("destination");
    let head = destination.transaction_head();
    let terms = destination.term_count();
    let err = unpack_verified(
        &artifact,
        &mut destination,
        &LoadOptions { expect_repository: Some("scbrown/other"), ..Default::default() },
        TS,
    )
    .unwrap_err();
    assert!(err.message().contains("repository mismatch"));
    assert_eq!(destination.transaction_head(), head, "a refused load writes nothing");
    assert_eq!(destination.term_count(), terms);
}

fn stored_query(name: &str, description: &str, template: &str) -> StoredQuery {
    StoredQuery {
        name: name.into(),
        description: description.into(),
        template: template.into(),
        dataset: None,
        params: vec![],
    }
}

#[test]
fn shapes_and_queries_named_on_the_command_travel_with_the_pack() {
    let mut store = producer_after_junk(0);
    store.load_shapes("s1", "# a shape", TS);
    store.query_load(&stored_query("q1", "d", "SELECT ?s WHERE { ?s ?p ?o }"));
    let opts = PackOptions { shapes: vec!["s1".into()], queries: vec!["q1".into()], ..Default::default() };
    let (_, opened) = pack_to_bytes(&store, "urn:g:pack", &opts, TS).unwrap();
    assert_eq!(opened.list_shapes().len(), 1);
    assert_eq!(opened.query_list().len(), 1);
    assert!(verify(&opened).unwrap().2, "hash covers shapes and queries too");
}

#[test]
fn unpack_materializes_and_versions_registries_beside_existing_entries() {
    let mut source = producer_after_junk(0);
    source.load_shapes("shared", "# producer shape", TS);
    source.query_load(&stored_query("shared", "producer", "SELECT ?s WHERE { ?s ?p ?o }"));
    let opts = PackOptions { shapes: vec!["shared".into()], queries: vec!["shared".into()], ..Default::default() };
    let (_, artifact) = pack_to_bytes(&source, "urn:g:pack", &opts, TS).unwrap();

    let mut consumer = Store::open_in_memory("unpack-dest");
    consumer.load_shapes("shared", "# consumer shape", "2025-01-01T00:00:00Z");
    consumer.query_load(&stored_query("shared", "consumer", "SELECT ?o WHERE { ?s ?p ?o }"));

    let report = unpack(&artifact, &mut consumer, Some("urn:g:materialized"), "2026-01-01T00:00:00Z").unwrap();
    assert!(report.facts > 0);
    assert_eq!((report.shapes, report.queries, report.vectors), (1, 1, 0));
    let g = consumer.lookup("urn:g:materialized").unwrap();
    let s = consumer.lookup("http://example.org/s").unwrap();
    let p = consumer.lookup("http://example.org/p").unwrap();
    let rows: Vec<_> = consumer
        .current_facts_in_graph(g)
        .into_iter()
        .filter(|f| f.entity == s && f.attribute == p)
        .collect();
    assert_eq!(rows.len(), 1, "materialized pack graph is locally queryable");
    assert_eq!(consumer.list_shapes()[0].1, "# producer shape");
    assert_eq!(consumer.query_get("shared").unwrap().description, "producer");
}

#[test]
fn packing_with_vectors_on_the_stores_own_backend_carries_none() {
    let store = producer_after_junk(0);
    let opts = PackOptions { with_vectors: true, ..Default::default() };
    let (manifest, _) = pack_to_bytes(&store, "urn:g:pack", &opts, TS).unwrap();
    assert!(manifest.counts.ends_with("\"queries\":0,\"shapes\":0,\"vectors\":0}"), "{}", manifest.counts);
}

#[test]
fn named_shapes_and_queries_enter_the_canonical_content_in_the_order_named() {
    let mut store = producer_after_junk(0);
    store.load_shapes("b", "# shape b", TS);
    store.load_shapes("a", "# shape a", TS);
    store.query_load(&StoredQuery {
        name: "q".into(),
        description: "find".into(),
        template: "SELECT ?s WHERE { ?s ?p ?o }".into(),
        dataset: Some("urn:ds".into()),
        params: vec![
            QueryParam { name: "x".into(), kind: "iri".into(), required: true, default: None },
            QueryParam { name: "n".into(), kind: "int".into(), required: false, default: Some("3".into()) },
        ],
    });
    let text = canonical_content(&store, "urn:g:pack", &["a".to_string(), "b".to_string()], &["q".to_string()]).unwrap();
    assert!(text.ends_with(
        "## shapes\n### a\n# shape a\n### b\n# shape b\n## queries\n### q\nfind\nSELECT ?s WHERE { ?s ?p ?o }\n\
         dataset=urn:ds\nparam x iri true -\nparam n int false 3\n## labels\n"
    ), "{text}");
    // A missing query is refused by name, after the shapes are checked.
    let err = canonical_content(&store, "urn:g:pack", &["a".to_string()], &["q".to_string(), "r".to_string()]).unwrap_err();
    assert_eq!(err.message(), "pack: no such stored query: r");
    let err = canonical_content(&store, "urn:g:pack", &["z".to_string()], &["r".to_string()]).unwrap_err();
    assert_eq!(err.message(), "pack: no such shape graph: z");
    // The counts name how many were asked for.
    let opts = PackOptions { shapes: vec!["a".into(), "b".into()], queries: vec!["q".into()], ..Default::default() };
    let (manifest, pack) = pack_to_bytes(&store, "urn:g:pack", &opts, TS).unwrap();
    assert!(manifest.counts.contains("\"queries\":1,\"shapes\":2"), "{}", manifest.counts);
    assert_eq!(pack.list_shapes().len(), 2);
    let b = turtle_bundle(&store, "urn:g:pack", &opts, TS).unwrap();
    assert_eq!(b.shapes_ttl, "# --- a ---\n# shape a\n\n# --- b ---\n# shape b\n\n");
    assert_eq!(b.queries.len(), 1);
    assert_eq!(b.queries[0].params.len(), 2);
    assert_eq!(b.manifest.content_hash, manifest.content_hash);
}

#[test]
fn a_registry_entry_loaded_again_under_its_name_replaces_the_first() {
    let mut store = Store::open_in_memory("registries");
    store.load_shapes("s", "# first", TS);
    store.load_shapes("t", "# other", TS);
    store.load_shapes("s", "# second", TS);
    assert_eq!(store.list_shapes().len(), 2);
    assert_eq!(store.shape_get("s").unwrap(), "# second");
    assert_eq!(store.list_shapes()[0].0, "s");
    assert!(store.shape_get("u").is_none());
    store.query_load(&stored_query("q", "first", "SELECT ?s WHERE { ?s ?p ?o }"));
    store.query_load(&stored_query("q", "second", "SELECT ?o WHERE { ?s ?p ?o }"));
    assert_eq!(store.query_list().len(), 1);
    assert_eq!(store.query_get("q").unwrap().description, "second");
}

#[test]
fn literals_and_json_strings_are_escaped() {
    let mut store = Store::open_in_memory("escapes");
    let g = store.intern("urn:g:pack").unwrap();
    let s = store.intern("http://example.org/s").unwrap();
    let p = store.intern("http://example.org/p").unwrap();
    let ds = vec![Datum {
        entity: s,
        attribute: p,
        value: Value::Str("a\"b\\c\nd\u{1}e\u{7f}é".into()),
        valid_from: TS.into(),
        valid_to: None,
        op: Op::Assert,
    }];
    store.transact_to_graph(&ds, None, g).unwrap();
    let text = canonical_content(&store, "urn:g:pack", &[], &[]).unwrap();
    assert!(
        text.contains("<http://example.org/s> <http://example.org/p> \"a\\\"b\\\\c\\nd\\u0001e\\u007Fé\" .\n"),
        "{text}"
    );
    let opts = PackOptions {
        repository: Some("r\"x\u{1}".into()),
        repository_sha: Some("sha".into()),
        model_id: Some("m".into()),
        model_version: Some("v\u{7f}".into()),
        ..Default::default()
    };
    let (manifest, _) = pack_to_bytes(&store, "urn:g:pack", &opts, TS).unwrap();
    assert!(manifest.producer.contains("\"repository\":\"r\\\"x\\u0001\""), "{}", manifest.producer);
    assert!(manifest.producer.contains("\"model_version\":\"v\u{7f}\""), "{}", manifest.producer);
}
