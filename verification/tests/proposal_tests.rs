use quipu::proposal::{NewProposal, ProposalKind, ProposalStatus};
use quipu::store::Store;

fn test_store() -> Store {
    Store::open_in_memory("test")
}

#[test]
fn insert_and_get_proposal() {
    let mut store = test_store();
    let id = store
        .insert_proposal(&NewProposal {
            kind: &ProposalKind::Shape,
            target: "ex:PersonShape",
            diff: "@prefix sh: <http://www.w3.org/ns/shacl#> .\n@prefix ex: <http://example.org/> .\nex:PersonShape a sh:NodeShape .",
            rationale: Some("Need Person shape for validation"),
            proposer: "agent/tester",
            trigger_ref: Some("val-fail-001"),
            created_at: "2026-04-12T00:00:00Z",
        })
        .unwrap();

    let proposal = store.get_proposal(id).unwrap().unwrap();
    assert_eq!(proposal.kind, ProposalKind::Shape);
    assert_eq!(proposal.target, "ex:PersonShape");
    assert_eq!(proposal.proposer, "agent/tester");
    assert_eq!(proposal.status, ProposalStatus::Pending);
    assert_eq!(proposal.trigger_ref.as_deref(), Some("val-fail-001"));
}

#[test]
fn list_proposals_all_and_filtered() {
    let mut store = test_store();
    store
        .insert_proposal(&NewProposal {
            kind: &ProposalKind::Shape,
            target: "ex:A",
            diff: "turtle-a",
            rationale: None,
            proposer: "agent/a",
            trigger_ref: None,
            created_at: "2026-04-12T01:00:00Z",
        })
        .unwrap();
    store
        .insert_proposal(&NewProposal {
            kind: &ProposalKind::Property,
            target: "ex:B",
            diff: "turtle-b",
            rationale: None,
            proposer: "agent/b",
            trigger_ref: None,
            created_at: "2026-04-12T02:00:00Z",
        })
        .unwrap();

    let all = store.list_proposals(None).unwrap();
    assert_eq!(all.len(), 2);

    let pending = store.list_proposals(Some(&ProposalStatus::Pending)).unwrap();
    assert_eq!(pending.len(), 2);

    let accepted = store.list_proposals(Some(&ProposalStatus::Accepted)).unwrap();
    assert!(accepted.is_empty());
}

#[test]
fn reject_proposal() {
    let mut store = test_store();
    let id = store
        .insert_proposal(&NewProposal {
            kind: &ProposalKind::Class,
            target: "ex:Widget",
            diff: "turtle-diff",
            rationale: None,
            proposer: "agent/tester",
            trigger_ref: None,
            created_at: "2026-04-12T00:00:00Z",
        })
        .unwrap();

    let rejected = store
        .reject_proposal(id, "aegis/crew/braino", "2026-04-12T01:00:00Z", "Not needed")
        .unwrap();
    assert_eq!(rejected.status, ProposalStatus::Rejected);
    assert_eq!(rejected.decision_note.as_deref(), Some("Not needed"));

    // Shape table should be unchanged.
    let shapes = store.list_shapes();
    assert!(shapes.is_empty());
}

#[test]
fn cannot_accept_already_rejected() {
    let mut store = test_store();
    let id = store
        .insert_proposal(&NewProposal {
            kind: &ProposalKind::Shape,
            target: "ex:X",
            diff: "turtle",
            rationale: None,
            proposer: "agent/a",
            trigger_ref: None,
            created_at: "2026-04-12T00:00:00Z",
        })
        .unwrap();
    store.reject_proposal(id, "approver", "2026-04-12T01:00:00Z", "no").unwrap();
    let err = store
        .accept_proposal(id, "approver", "2026-04-12T02:00:00Z", None)
        .unwrap_err();
    assert!(err.message().contains("already"));
    assert_eq!(err.message(), "proposal 1 is already rejected");
}

#[test]
fn accepting_records_the_decision_and_lists_newest_first() {
    let mut store = test_store();
    let new = |target: &'static str, at: &'static str| NewProposal {
        kind: &ProposalKind::Ontology,
        target,
        diff: "d",
        rationale: None,
        proposer: "p",
        trigger_ref: None,
        created_at: at,
    };
    let a = store.insert_proposal(&new("ex:Old", "2026-01-01T00:00:00Z")).unwrap();
    let b = store.insert_proposal(&new("ex:New", "2026-03-01T00:00:00Z")).unwrap();
    let c = store.insert_proposal(&new("ex:Tie", "2026-01-01T00:00:00Z")).unwrap();
    assert_eq!((a, b, c), (1, 2, 3));

    let accepted = store.accept_proposal(b, "rev", "2026-03-02T00:00:00Z", Some("ok")).unwrap();
    assert_eq!(accepted.status, ProposalStatus::Accepted);
    assert_eq!(accepted.decided_by.as_deref(), Some("rev"));
    assert_eq!(accepted.decided_at.as_deref(), Some("2026-03-02T00:00:00Z"));
    assert_eq!(accepted.decision_note.as_deref(), Some("ok"));

    let all = store.list_proposals(None).unwrap();
    let targets: Vec<&str> = all.iter().map(|p| p.target.as_str()).collect();
    assert_eq!(targets, vec!["ex:New", "ex:Old", "ex:Tie"]);

    let pending = store.list_proposals(Some(&ProposalStatus::Pending)).unwrap();
    assert_eq!(pending.len(), 2);
    let again = store.reject_proposal(b, "rev", "later", "changed my mind").unwrap_err();
    assert_eq!(again.message(), "proposal 2 is already accepted");
}

#[test]
fn deciding_an_unknown_proposal_is_refused() {
    let mut store = test_store();
    let err = store.accept_proposal(7, "rev", "now", None).unwrap_err();
    assert_eq!(err.message(), "proposal 7 not found");
    assert!(store.get_proposal(7).unwrap().is_none());
    assert!(store.get_proposal(0).unwrap().is_none());
}

#[test]
fn kinds_and_statuses_parse_from_their_wire_names() {
    assert_eq!(ProposalKind::from_json("shape").unwrap(), ProposalKind::Shape);
    assert_eq!(ProposalKind::from_json("ontology").unwrap(), ProposalKind::Ontology);
    assert_eq!(ProposalKind::from_json("class").unwrap(), ProposalKind::Class);
    assert_eq!(ProposalKind::from_json("property").unwrap(), ProposalKind::Property);
    assert_eq!(
        ProposalKind::from_json("Shape").unwrap_err().message(),
        "unknown proposal kind: Shape"
    );
    assert_eq!(ProposalStatus::from_json("pending").unwrap(), ProposalStatus::Pending);
    assert_eq!(ProposalStatus::from_json("accepted").unwrap(), ProposalStatus::Accepted);
    assert_eq!(ProposalStatus::from_json("rejected").unwrap(), ProposalStatus::Rejected);
    assert_eq!(
        ProposalStatus::from_json("done").unwrap_err().message(),
        "unknown proposal status: done"
    );
    assert_eq!(ProposalKind::Property.as_str(), "property");
    assert_eq!(ProposalStatus::Rejected.as_str(), "rejected");
}

#[test]
fn accept_shape_proposal_validates_turtle() {
    let mut store = test_store();
    let valid_turtle = r#"
@prefix sh: <http://www.w3.org/ns/shacl#> .
@prefix ex: <http://example.org/> .
@prefix xsd: <http://www.w3.org/2001/XMLSchema#> .

ex:PersonShape a sh:NodeShape ;
    sh:targetClass ex:Person ;
    sh:property [
        sh:path ex:name ;
        sh:datatype xsd:string ;
        sh:minCount 1 ;
    ] .
"#;
    let id = store
        .insert_proposal(&NewProposal {
            kind: &ProposalKind::Shape,
            target: "PersonShape",
            diff: valid_turtle,
            rationale: Some("Add person validation"),
            proposer: "agent/tester",
            trigger_ref: None,
            created_at: "2026-04-12T00:00:00Z",
        })
        .unwrap();

    let accepted = store
        .accept_proposal(id, "aegis/crew/braino", "2026-04-12T01:00:00Z", None)
        .unwrap();
    assert_eq!(accepted.status, ProposalStatus::Accepted);
    assert_eq!(accepted.decided_by.as_deref(), Some("aegis/crew/braino"));

    // Shape should now be in the shapes table.
    let shapes = store.list_shapes();
    assert_eq!(shapes.len(), 1);
    assert_eq!(shapes[0].0, "PersonShape");
}

#[test]
fn accept_invalid_turtle_keeps_pending() {
    let mut store = test_store();
    let id = store
        .insert_proposal(&NewProposal {
            kind: &ProposalKind::Shape,
            target: "BadShape",
            diff: "this is not valid turtle {{{",
            rationale: None,
            proposer: "agent/tester",
            trigger_ref: None,
            created_at: "2026-04-12T00:00:00Z",
        })
        .unwrap();

    let err = store
        .accept_proposal(id, "approver", "2026-04-12T01:00:00Z", None)
        .unwrap_err();
    assert!(err.message().contains("invalid"));

    // Proposal should still be pending.
    let proposal = store.get_proposal(id).unwrap().unwrap();
    assert_eq!(proposal.status, ProposalStatus::Pending);
    assert!(store.list_shapes().is_empty());
}
