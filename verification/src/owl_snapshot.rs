//! Scheduled derivation over a private snapshot of the premises.
//!
//! A [`Snapshot`] copies the current ROOT graph and its inferred companion
//! (no history, no other named graph) into a private scratch store, derives
//! the closure there, and applies what it derived to the live store in
//! bounded batches. Before every batch, and before freshness is published,
//! the live store must still be the one captured, with the same ontologies,
//! and no premise may have been retracted since the capture: additions are
//! allowed, the result being explicitly as of the snapshot.

use vstd::prelude::*;

use crate::owl::materialize::{
    datum_fact, lemma_extend_refl, lemma_extend_same, lemma_extend_trans, lemma_select_appended,
    lemma_triples_stable, obj_ok, to_datums, MATERIALIZE_SOURCE,
};
use crate::owl::triple::{graph_triples, premises, read_graph, read_premises, premise_facts, triple_of, triples_of, triples_view, Triple, TripleView};
use crate::owl::materialize::{closed, derived_after};
use crate::owl::{combined_axioms, extract_spec, no_axioms, strip_all, AxView, MaterializeReport, RawView};
use crate::store::{
    apply_all, apply_datum, asserted_row, RowView, datums_view, fact_known, facts_view, retracted_after, select, Datum, DatumView, FactView,
    Op, OntologyEntry, Store, INFERRED_GRAPH, MAX_TX, ROOT_GRAPH,
};
use crate::text::{owned, str_eq};
use crate::value::{Error, Value, ValueView};

verus! {

/// Most derived assertions applied by one batch.
pub const APPLY_BATCH: usize = 64;

/// Most premise facts a snapshot copies.
pub const MAX_PREMISES: usize = 2_000_000;

/// Most facts a snapshot may derive.
pub const MAX_DERIVED: usize = 100_000;

/// The IRI that names the ROOT graph's inferred companion; freshness is
/// recorded on it.
pub const ROOT_INFERRED_GRAPH_IRI: &'static str = "urn:quipu:graph:root#inferred";

/// The attribute that records the transaction the companion is derived as of.
pub const DERIVED_AS_OF_TX: &'static str = "https://quipu.dev/ontology/derivedAsOfTx";

/// The attribute that records what kind of source a graph is.
pub const SOURCE_KIND: &'static str = "https://quipu.dev/ontology/sourceKind";

/// The source label of the transaction that publishes freshness.
pub const PLANE_SOURCE: &'static str = "owl:plane";

/// The source label of the inferred plane's migration writes.
pub const MIGRATE_SOURCE: &'static str = "owl:migrate";

/// The source label of the scratch store's copy of the premises.
pub const SNAPSHOT_SOURCE: &'static str = "owl:snapshot";

/// A registered ontology's content: `(name, turtle, loaded_at)`.
pub type EntryView = (Seq<char>, Seq<char>, Seq<char>);

/// The contents of registered ontologies.
pub open spec fn entries_view(v: Seq<OntologyEntry>) -> Seq<EntryView> {
    v.map_values(|e: OntologyEntry| (e.name@, e.turtle@, e.loaded_at@))
}

/// A retracted fact of the companion that only recorded freshness.
pub open spec fn is_freshness(live: &Store, f: FactView) -> bool {
    &&& live.id_of(ROOT_INFERRED_GRAPH_IRI@) == Some(f.entity)
    &&& live.id_of(DERIVED_AS_OF_TX@) == Some(f.attribute)
}

/// Some premise of `live` (a ROOT fact, or a companion fact other than a
/// freshness record) was retracted by a transaction after `head`.
pub open spec fn premise_retracted(live: &Store, head: i64) -> bool {
    ||| retracted_after(live.rows(), ROOT_GRAPH, head).len() > 0
    ||| exists|k: int|
        0 <= k < retracted_after(live.rows(), INFERRED_GRAPH, head).len() && !is_freshness(
            live,
            #[trigger] retracted_after(live.rows(), INFERRED_GRAPH, head)[k],
        )
}

/// Private derivation state. Its term ids are never used in the live store:
/// derived facts travel as IRIs.
pub struct Snapshot {
    scratch: Store,
    identity: String,
    ontologies: Vec<OntologyEntry>,
    /// Transaction watermark of the captured premises.
    pub premise_head: i64,
    timestamp: String,
    proposals: Vec<Triple>,
    next: usize,
    derived: bool,
    /// Derivation counts, before anything is applied to the live store.
    pub report: MaterializeReport,
    /// The axioms of the ontology the closure was derived under.
    axioms: Ghost<AxView>,
}

impl Snapshot {
    /// Internal consistency.
    pub closed spec fn inv(&self) -> bool {
        &&& self.scratch.wf()
        &&& self.next <= self.proposals@.len()
        &&& !self.derived ==> self.proposals@.len() == 0
        &&& forall|i: int| 0 <= i < self.proposals@.len() ==> obj_ok((#[trigger] triples_view(self.proposals@)[i]).2)
    }

    /// The closure has been derived.
    pub closed spec fn is_derived(&self) -> bool {
        self.derived
    }

    /// The axioms of the combined ontology the closure was derived under.
    pub closed spec fn derived_axioms(&self) -> AxView {
        self.axioms@
    }

    /// The axioms of the scratch store's ontologies together, where their
    /// triples are stated (see [`combined_axioms`]).
    pub closed spec fn stated_axioms(&self) -> Option<AxView> {
        combined_axioms(self.scratch.ontology_entries())
    }

    /// The scratch store holds an ontology.
    pub closed spec fn has_ontology(&self) -> bool {
        self.scratch.ontology_entries().len() > 0
    }

    /// Every ontology the scratch store holds reads as Turtle.
    pub closed spec fn ontologies_readable(&self) -> bool {
        crate::owl::ontologies_readable(self.scratch.ontology_entries())
    }

    /// The scratch store has no room for another term or transaction.
    pub closed spec fn scratch_full(&self) -> bool {
        self.scratch.terms().len() >= crate::store::MAX_TERMS || self.scratch.head() >= MAX_TX
    }

    /// How many derived facts have been applied.
    pub closed spec fn applied(&self) -> nat {
        self.next as nat
    }

    /// The derived facts to apply, in order.
    pub closed spec fn planned(&self) -> Seq<TripleView> {
        triples_view(self.proposals@)
    }

    /// The transaction watermark of the captured premises.
    pub closed spec fn head(&self) -> i64 {
        self.premise_head
    }

    /// The derivation counts.
    pub closed spec fn counts(&self) -> MaterializeReport {
        self.report
    }

    /// The identity of the captured store.
    pub closed spec fn captured_identity(&self) -> Seq<char> {
        self.identity@
    }

    /// The ontologies of the captured store.
    pub closed spec fn captured_ontologies(&self) -> Seq<EntryView> {
        entries_view(self.ontologies@)
    }

    /// The timestamp derived facts are written with.
    pub closed spec fn stamp(&self) -> Seq<char> {
        self.timestamp@
    }

    /// The live facts of graph `g` of the scratch store, as triples.
    pub closed spec fn scratch_graph(&self, g: i64) -> Seq<TripleView> {
        graph_triples(&self.scratch, g)
    }

    /// Why this snapshot may not be applied to `live` now, if it may not.
    pub open spec fn refusal(&self, live: &Store) -> Option<Seq<char>> {
        if live.identity() != self.captured_identity() || entries_view(live.ontology_entries())
            != self.captured_ontologies() {
            Some("OWL snapshot identity or ontology changed"@)
        } else if premise_retracted(live, self.head()) {
            Some("OWL snapshot premises retracted; retry required"@)
        } else {
            None
        }
    }

    /// `other` is this snapshot with possibly more of the plan applied.
    pub closed spec fn same_plan(&self, other: &Snapshot) -> bool {
        &&& self.scratch == other.scratch
        &&& self.identity@ == other.identity@
        &&& entries_view(self.ontologies@) == entries_view(other.ontologies@)
        &&& self.premise_head == other.premise_head
        &&& self.timestamp@ == other.timestamp@
        &&& triples_view(self.proposals@) == triples_view(other.proposals@)
        &&& self.derived == other.derived
        &&& self.report == other.report
    }

    /// A snapshot with the same plan has the same captured state, plan and
    /// counts.
    pub proof fn lemma_same_plan(&self, other: &Snapshot)
        requires
            self.same_plan(other),
        ensures
            self.planned() == other.planned(),
            self.is_derived() == other.is_derived(),
            self.captured_identity() == other.captured_identity(),
            self.captured_ontologies() == other.captured_ontologies(),
            self.head() == other.head(),
            self.stamp() == other.stamp(),
            self.counts() == other.counts(),
            self.scratch_premises() == other.scratch_premises(),
    {
    }
}

/// The facts of `fs` with attribute `a`, in order.
pub open spec fn with_attribute(fs: Seq<FactView>, a: i64) -> Seq<FactView>
    decreases fs.len(),
{
    if fs.len() == 0 {
        fs
    } else {
        let rest = with_attribute(fs.drop_last(), a);
        if fs.last().attribute == a {
            rest.push(fs.last())
        } else {
            rest
        }
    }
}

/// The retraction of fact `f`, dated `ts`.
pub open spec fn retraction_of(f: FactView, ts: Seq<char>) -> DatumView {
    DatumView { entity: f.entity, attribute: f.attribute, value: f.value, valid_from: ts, valid_to: None, op: Op::Retract }
}

/// The write that publishes freshness: retract the previous freshness values
/// `olds` of companion term `g` under attribute `a`, assert that the
/// companion is derived as of transaction `head`, and assert under `k` that
/// it is an inferred source.
pub open spec fn freshness_write(
    olds: Seq<FactView>,
    g: i64,
    a: i64,
    k: i64,
    head: i64,
    ts: Seq<char>,
) -> Seq<DatumView> {
    olds.map_values(|f: FactView| retraction_of(f, ts)) + seq![
        DatumView { entity: g, attribute: a, value: ValueView::Int(head), valid_from: ts, valid_to: None, op: Op::Assert },
        DatumView { entity: g, attribute: k, value: ValueView::Str("inferred"@), valid_from: ts, valid_to: None, op: Op::Assert },
    ]
}

/// `fin` is `old` after publishing freshness `head`: one new transaction,
/// labelled [`PLANE_SOURCE`], of [`freshness_write`] to the companion graph.
pub open spec fn publishes_freshness(old: &Store, fin: &Store, head: i64, ts: Seq<char>) -> bool {
    &&& fin.id_of(ROOT_INFERRED_GRAPH_IRI@) is Some
    &&& fin.id_of(DERIVED_AS_OF_TX@) is Some
    &&& fin.id_of(SOURCE_KIND@) is Some
    &&& {
        let g = fin.id_of(ROOT_INFERRED_GRAPH_IRI@)->0;
        let a = fin.id_of(DERIVED_AS_OF_TX@)->0;
        let k = fin.id_of(SOURCE_KIND@)->0;
        let olds = with_attribute(select(old.rows(), seq![INFERRED_GRAPH], Some(g)), a);
        &&& fin.rows() == apply_all(old.rows(), freshness_write(olds, g, a, k, head, ts), (old.head() + 1) as i64, INFERRED_GRAPH)
        &&& fin.sources() == old.sources().push(Some(PLANE_SOURCE@))
    }
}

/// Facts of a store whose term table only grew denote the same triples.
pub(crate) proof fn lemma_graph_stable(a: &Store, b: &Store, g: i64)
    requires
        a.wf(),
        b.terms_extend(a),
        b.rows() == a.rows(),
    ensures
        graph_triples(b, g) == graph_triples(a, g),
{
    a.lemma_selected_known(seq![g], None);
    lemma_triples_stable(a, b, select(a.rows(), seq![g], None));
}

/// Writing asserted datums to graph `g` appends their triples to `g` and
/// leaves every other graph as it was.
pub(crate) proof fn lemma_graph_write(
    mid: &Store,
    fin: &Store,
    ds: Seq<Datum>,
    tx: i64,
    g: i64,
    staged: Seq<TripleView>,
    h: i64,
)
    requires
        mid.wf(),
        fin.terms() == mid.terms(),
        fin.rows() == apply_all(mid.rows(), datums_view(ds), tx, g),
        ds.len() == staged.len(),
        forall|i: int|
            0 <= i < ds.len() ==> {
                &&& (#[trigger] ds[i])@.op == Op::Assert
                &&& forall|t: i64| triple_of(mid, #[trigger] datum_fact(ds[i]@, t)) == staged[i]
            },
    ensures
        h == g ==> graph_triples(fin, h) == graph_triples(mid, h) + staged,
        h != g ==> graph_triples(fin, h) == graph_triples(mid, h),
{
    let dv = datums_view(ds);
    assert forall|i: int| 0 <= i < dv.len() implies (#[trigger] dv[i]).op == Op::Assert by {
        assert(dv[i] == ds[i]@);
    }
    lemma_select_appended(mid.rows(), dv, tx, g, seq![h]);
    if h == g {
        assert(seq![h].contains(g)) by {
            assert(seq![h][0] == g);
        }
        let old_f = select(mid.rows(), seq![h], None);
        let newf = dv.map_values(|d: DatumView| asserted_row(d, tx, g).fact);
        assert(triples_of(fin, old_f) =~= triples_of(mid, old_f));
        assert(triples_of(fin, newf) =~= staged) by {
            assert forall|i: int| 0 <= i < newf.len() implies triples_of(fin, newf)[i] == staged[i] by {
                assert(newf[i] == datum_fact(ds[i]@, tx));
                assert(triple_of(mid, datum_fact(ds[i]@, tx)) == staged[i]);
            }
        }
        assert(triples_of(fin, old_f + newf) =~= triples_of(fin, old_f) + triples_of(fin, newf));
    } else {
        assert(!seq![h].contains(g));
        assert(triples_of(fin, select(mid.rows(), seq![h], None)) =~= triples_of(
            mid,
            select(mid.rows(), seq![h], None),
        ));
    }
}

/// Triples read from a store carry well-formed objects.
proof fn lemma_graph_obj_ok(s: &Store, g: i64)
    requires
        s.wf(),
    ensures
        forall|i: int| 0 <= i < graph_triples(s, g).len() ==> obj_ok((#[trigger] graph_triples(s, g)[i]).2),
{
    assert forall|i: int| 0 <= i < graph_triples(s, g).len() implies obj_ok((#[trigger] graph_triples(s, g)[i]).2) by {
        assert(graph_triples(s, g)[i] == triple_of(s, select(s.rows(), seq![g], None)[i]));
    }
}

/// Premises read from a store carry well-formed objects.
proof fn lemma_premises_obj_ok(s: &Store)
    requires
        s.wf(),
    ensures
        forall|i: int| 0 <= i < premises(s).len() ==> obj_ok((#[trigger] premises(s)[i]).2),
{
    assert forall|i: int| 0 <= i < premises(s).len() implies obj_ok((#[trigger] premises(s)[i]).2) by {
        assert(premises(s)[i] == triple_of(s, premise_facts(s)[i]));
    }
}

/// Copy `triples` into graph `g` of `scratch` as one transaction.
fn copy_into(scratch: &mut Store, triples: &Vec<Triple>, timestamp: &str, g: i64) -> (r: Result<(), Error>)
    requires
        old(scratch).wf(),
        forall|i: int| 0 <= i < triples@.len() ==> obj_ok((#[trigger] triples_view(triples@)[i]).2),
    ensures
        final(scratch).wf(),
        final(scratch).terms_extend(old(scratch)),
        final(scratch).ontology_entries() == old(scratch).ontology_entries(),
        final(scratch).identity() == old(scratch).identity(),
        r is Ok ==> graph_triples(final(scratch), g) == graph_triples(old(scratch), g) + triples_view(triples@),
        r is Ok ==> forall|h: i64| h != g ==> graph_triples(final(scratch), h) == #[trigger] graph_triples(old(scratch), h),
        r is Ok ==> final(scratch).head() == old(scratch).head() + 1,
        final(scratch).terms().len() <= old(scratch).terms().len() + 3 * triples@.len(),
        old(scratch).head() < MAX_TX && old(scratch).terms().len() + 3 * triples@.len() < crate::store::MAX_TERMS
            ==> r is Ok,
{
    let ghost s0 = *scratch;
    let ds = to_datums(scratch, triples, timestamp)?;
    let ghost mid = *scratch;
    proof {
        lemma_graph_stable(&s0, &mid, g);
        assert forall|h: i64| graph_triples(&mid, h) == #[trigger] graph_triples(&s0, h) by {
            lemma_graph_stable(&s0, &mid, h);
        }
    }
    let _tx = scratch.transact_to_graph(ds.as_slice(), Some(SNAPSHOT_SOURCE), g)?;
    proof {
        let tx = _tx;
        assert(mid.terms().subrange(0, mid.terms().len() as int) =~= scratch.terms());
        lemma_extend_trans(&s0, &mid, scratch);
        lemma_graph_write(&mid, scratch, ds@, tx, g, triples_view(triples@), g);
        assert forall|h: i64| h != g implies graph_triples(scratch, h) == #[trigger] graph_triples(&s0, h) by {
            lemma_graph_write(&mid, scratch, ds@, tx, g, triples_view(triples@), h);
        }
    }
    Ok(())
}

/// Content equality of two ontology registries.
fn same_entries(a: &Vec<OntologyEntry>, b: &Vec<OntologyEntry>) -> (r: bool)
    ensures
        r == (entries_view(a@) == entries_view(b@)),
{
    if a.len() != b.len() {
        proof {
            assert(entries_view(a@).len() != entries_view(b@).len());
        }
        return false;
    }
    let mut i: usize = 0;
    while i < a.len()
        invariant
            i <= a@.len(),
            a@.len() == b@.len(),
            forall|k: int| 0 <= k < i ==> entries_view(a@)[k] == entries_view(b@)[k],
        decreases a.len() - i,
    {
        if !(str_eq(a[i].name.as_str(), b[i].name.as_str()) && str_eq(a[i].turtle.as_str(), b[i].turtle.as_str())
            && str_eq(a[i].loaded_at.as_str(), b[i].loaded_at.as_str())) {
            proof {
                assert(entries_view(a@)[i as int] != entries_view(b@)[i as int]);
            }
            return false;
        }
        i = i + 1;
    }
    proof {
        assert(entries_view(a@) =~= entries_view(b@));
    }
    true
}

impl Snapshot {
    /// Copy the current ROOT graph and its inferred companion of `source`
    /// (no history, no other named graph) and its ontologies into `scratch`,
    /// which must hold no premise and no ontology. Nothing is derived and
    /// nothing live is written.
    pub fn capture(source: &Store, scratch: Store, timestamp: &str) -> (r: Result<Snapshot, Error>)
        requires
            source.wf(),
            scratch.wf(),
        ensures
            (graph_triples(&scratch, ROOT_GRAPH).len() > 0 || graph_triples(&scratch, INFERRED_GRAPH).len() > 0
                || scratch.ontology_entries().len() > 0) ==> (r matches Err(e) && e is InvalidValue && e.text()
                == "OWL scratch store must be empty"@),
            (graph_triples(&scratch, ROOT_GRAPH).len() == 0 && graph_triples(&scratch, INFERRED_GRAPH).len() == 0
                && scratch.ontology_entries().len() == 0 && graph_triples(source, ROOT_GRAPH).len()
                + graph_triples(source, INFERRED_GRAPH).len() > MAX_PREMISES) ==> (r matches Err(e)
                && e is InvalidValue && e.text() == "OWL snapshot premise budget exceeded"@),
            (graph_triples(&scratch, ROOT_GRAPH).len() == 0 && graph_triples(&scratch, INFERRED_GRAPH).len() == 0
                && scratch.ontology_entries().len() == 0 && graph_triples(source, ROOT_GRAPH).len()
                + graph_triples(source, INFERRED_GRAPH).len() <= MAX_PREMISES && scratch.head() + 1 < MAX_TX
                && scratch.terms().len() + 3 * (graph_triples(source, ROOT_GRAPH).len() + graph_triples(
                source,
                INFERRED_GRAPH,
            ).len()) < crate::store::MAX_TERMS) ==> r is Ok,
            r matches Ok(s) ==> {
                &&& s.inv()
                &&& !s.is_derived()
                &&& s.applied() == 0
                &&& s.planned().len() == 0
                &&& s.captured_identity() == source.identity()
                &&& s.captured_ontologies() == entries_view(source.ontology_entries())
                &&& s.head() == source.head()
                &&& s.stamp() == timestamp@
                &&& s.scratch_graph(ROOT_GRAPH) == graph_triples(source, ROOT_GRAPH)
                &&& s.scratch_graph(INFERRED_GRAPH) == graph_triples(source, INFERRED_GRAPH)
                &&& s.counts().total == 0 && s.counts().passes == 0 && !s.counts().pass_budget_exhausted
            },
    {
        let mut scratch = scratch;
        let ghost s0 = scratch;
        proof {
            scratch.lemma_selected_known(seq![ROOT_GRAPH], None);
        }
        let present_root = scratch.current_facts_in_graph(ROOT_GRAPH);
        let present_comp = scratch.current_facts_in_graph(INFERRED_GRAPH);
        let onts = scratch.list_ontologies();
        if present_root.len() > 0 || present_comp.len() > 0 || onts.len() > 0 {
            return Err(Error::InvalidValue(owned("OWL scratch store must be empty")));
        }
        let premise_head = source.transaction_head();
        let identity = source.store_id();
        let ontologies = source.list_ontologies();
        let root = read_graph(source, ROOT_GRAPH);
        let comp = read_graph(source, INFERRED_GRAPH);
        if root.len() > MAX_PREMISES || comp.len() > MAX_PREMISES - root.len() {
            return Err(Error::InvalidValue(owned("OWL snapshot premise budget exceeded")));
        }
        proof {
            lemma_graph_obj_ok(source, ROOT_GRAPH);
            lemma_graph_obj_ok(source, INFERRED_GRAPH);
        }
        copy_into(&mut scratch, &root, timestamp, ROOT_GRAPH)?;
        let ghost s1 = scratch;
        copy_into(&mut scratch, &comp, timestamp, INFERRED_GRAPH)?;
        let ghost s2 = scratch;
        proof {
            assert(graph_triples(&s2, ROOT_GRAPH) == graph_triples(&s1, ROOT_GRAPH));
            assert(graph_triples(&s1, INFERRED_GRAPH) == graph_triples(&s0, INFERRED_GRAPH));
            assert(graph_triples(&s2, ROOT_GRAPH) =~= graph_triples(source, ROOT_GRAPH));
            assert(graph_triples(&s2, INFERRED_GRAPH) =~= graph_triples(source, INFERRED_GRAPH));
        }
        let mut i: usize = 0;
        while i < ontologies.len()
            invariant
                scratch.wf(),
                i <= ontologies@.len(),
                graph_triples(&scratch, ROOT_GRAPH) == graph_triples(source, ROOT_GRAPH),
                graph_triples(&scratch, INFERRED_GRAPH) == graph_triples(source, INFERRED_GRAPH),
            decreases ontologies.len() - i,
        {
            let ghost before = scratch;
            scratch.load_ontology(
                ontologies[i].name.as_str(),
                ontologies[i].turtle.as_str(),
                ontologies[i].loaded_at.as_str(),
            );
            proof {
                lemma_extend_refl(&before);
                lemma_extend_same(&before, &before, &scratch);
                lemma_graph_stable(&before, &scratch, ROOT_GRAPH);
                lemma_graph_stable(&before, &scratch, INFERRED_GRAPH);
            }
            i = i + 1;
        }
        let snap = Snapshot {
            scratch,
            identity,
            ontologies,
            premise_head,
            timestamp: owned(timestamp),
            proposals: Vec::new(),
            next: 0,
            derived: false,
            report: MaterializeReport::empty(),
            axioms: Ghost(no_axioms()),
        };
        Ok(snap)
    }

    /// Number of ontologies in the snapshot (zero is distinct from an empty
    /// closure).
    pub fn ontology_count(&self) -> (n: usize)
        ensures
            n == self.captured_ontologies().len(),
    {
        self.ontologies.len()
    }

    /// Number of derived facts remaining to apply.
    pub fn remaining(&self) -> (n: usize)
        requires
            self.inv(),
        ensures
            n == self.planned().len() - self.applied(),
    {
        self.proposals.len() - self.next
    }

    /// Derive the closure of the captured ontologies on the scratch store.
    /// No live store is touched. With no ontology nothing is derived.
    pub fn derive(&mut self) -> (r: Result<(), Error>)
        requires
            old(self).inv(),
        ensures
            final(self).inv(),
            old(self).is_derived() ==> (r matches Err(e) && e is InvalidValue && e.text()
                == "OWL snapshot already derived"@ && *final(self) == *old(self)),
            !old(self).is_derived() ==> {
                &&& final(self).captured_identity() == old(self).captured_identity()
                &&& final(self).captured_ontologies() == old(self).captured_ontologies()
                &&& final(self).head() == old(self).head()
                &&& final(self).stamp() == old(self).stamp()
                &&& final(self).applied() == 0
            },
            r is Ok ==> {
                &&& final(self).is_derived()
                &&& final(self).planned().len() <= MAX_DERIVED
                &&& final(self).scratch_premises() == old(self).scratch_premises() + final(self).planned()
            },
            r is Err && !old(self).is_derived() ==> !final(self).is_derived() && final(self).planned().len() == 0,
            r is Err && !old(self).is_derived() ==> !old(self).ontologies_readable() || final(self).scratch_full()
                || final(self).counts().pass_budget_exhausted || final(self).scratch_premises().len() - old(
                self,
            ).scratch_premises().len() > MAX_DERIVED,
            !old(self).is_derived() && r is Ok && !old(self).has_ontology() ==> final(self).planned().len() == 0,
            !old(self).is_derived() && r is Ok && old(self).has_ontology() ==> {
                &&& closed(final(self).derived_axioms(), final(self).scratch_premises())
                &&& derived_after(
                    final(self).derived_axioms(),
                    final(self).scratch_premises(),
                    old(self).scratch_premises().len() as int,
                )
                &&& exists|raw: Seq<RawView>| final(self).derived_axioms() == extract_spec(strip_all(raw))
                &&& old(self).stated_axioms() matches Some(ax) ==> final(self).derived_axioms() == ax
            },
    {
        if self.derived {
            return Err(Error::InvalidValue(owned("OWL snapshot already derived")));
        }
        let ghost p0 = premises(&self.scratch);
        let ontology = match self.scratch.get_combined_ontologies() {
            Ok(Some(o)) => o,
            Ok(None) => {
                self.derived = true;
                proof {
                    assert(triples_view(self.proposals@) =~= Seq::<TripleView>::empty());
                    assert(p0 + Seq::<TripleView>::empty() =~= p0);
                }
                return Ok(());
            },
            Err(e) => return Err(e),
        };
        let before = read_premises(&self.scratch).len();
        let rep = self.materialize_scratch(&ontology)?;
        self.axioms = Ghost(ontology.axioms@);
        self.report = rep;
        if rep.pass_budget_exhausted || rep.total > MAX_DERIVED {
            return Err(Error::InvalidValue(owned("OWL derivation budget exceeded; not applied")));
        }
        let all = read_premises(&self.scratch);
        let ghost p1 = premises(&self.scratch);
        proof {
            lemma_premises_obj_ok(&self.scratch);
        }
        let mut out: Vec<Triple> = Vec::new();
        let mut i: usize = before;
        while i < all.len()
            invariant
                before <= i <= all@.len(),
                triples_view(all@) == p1,
                before == p0.len(),
                triples_view(out@) == p1.subrange(before as int, i as int),
                forall|j: int| 0 <= j < p1.len() ==> obj_ok((#[trigger] p1[j]).2),
            decreases all.len() - i,
        {
            let t = all[i].copy();
            proof {
                assert(triples_view(all@)[i as int] == all@[i as int]@);
            }
            let ghost prev = triples_view(out@);
            out.push(t);
            proof {
                assert(triples_view(out@) =~= prev.push(t@));
                assert(p1.subrange(before as int, i + 1) =~= p1.subrange(before as int, i as int).push(p1[i as int]));
            }
            i = i + 1;
        }
        proof {
            assert(p1 =~= p0 + p1.subrange(p0.len() as int, p1.len() as int));
        }
        self.proposals = out;
        self.derived = true;
        Ok(())
    }

    /// Materialize `ontology` on the scratch store, within the derivation
    /// budget.
    fn materialize_scratch(&mut self, ontology: &crate::owl::Ontology) -> (r: Result<MaterializeReport, Error>)
        requires
            old(self).inv(),
            !old(self).derived,
        ensures
            final(self).inv(),
            !final(self).derived,
            final(self).identity == old(self).identity,
            final(self).ontologies == old(self).ontologies,
            final(self).premise_head == old(self).premise_head,
            final(self).timestamp == old(self).timestamp,
            final(self).next == 0,
            final(self).proposals@.len() == 0,
            premises(&old(self).scratch).is_prefix_of(premises(&final(self).scratch)),
            crate::owl::materialize::derived_after(
                ontology.axioms@,
                premises(&final(self).scratch),
                premises(&old(self).scratch).len() as int,
            ),
            premises(&final(self).scratch).len() - premises(&old(self).scratch).len() > MAX_DERIVED ==> r is Err,
            r is Err ==> final(self).scratch.terms().len() >= crate::store::MAX_TERMS || final(self).scratch.head()
                >= MAX_TX || premises(&final(self).scratch).len() - premises(&old(self).scratch).len() > MAX_DERIVED,
            r matches Ok(rep) ==> {
                &&& rep.total == premises(&final(self).scratch).len() - premises(&old(self).scratch).len()
                &&& rep.total <= MAX_DERIVED
                &&& crate::owl::materialize::family_total(rep) == rep.total
                &&& rep.passes <= crate::owl::materialize::MAX_PASSES
                &&& rep.pass_budget_exhausted ==> rep.passes == crate::owl::materialize::MAX_PASSES
                &&& !rep.pass_budget_exhausted ==> crate::owl::materialize::closed(
                    ontology.axioms@,
                    premises(&final(self).scratch),
                )
            },
    {
        let ts = self.timestamp.clone();
        let r = ontology.materialize_limited(&mut self.scratch, ts.as_str(), MAX_DERIVED);
        r
    }

    /// The premises of the scratch store, as triples.
    pub closed spec fn scratch_premises(&self) -> Seq<TripleView> {
        premises(&self.scratch)
    }

    /// Apply the next at most [`APPLY_BATCH`] derived facts to the live
    /// store's inferred companion, as one transaction labelled
    /// `owl:materialize`, after checking that `live` may still receive them.
    pub fn apply_batch(&mut self, live: &mut Store) -> (r: Result<usize, Error>)
        requires
            old(self).inv(),
            old(live).wf(),
        ensures
            final(self).inv(),
            final(live).wf(),
            final(live).terms_extend(old(live)),
            final(live).identity() == old(live).identity(),
            final(live).ontology_entries() == old(live).ontology_entries(),
            graph_triples(final(live), ROOT_GRAPH) == graph_triples(old(live), ROOT_GRAPH),
            !old(self).is_derived() ==> (r matches Err(e) && e is InvalidValue && e.text()
                == "OWL snapshot has not been derived"@),
            (old(self).is_derived() && old(self).refusal(old(live)) is Some) ==> (r matches Err(e) && e is InvalidValue
                && e.text() == old(self).refusal(old(live))->0),
            r is Err ==> *final(self) == *old(self) && final(live).rows() == old(live).rows()
                && final(live).sources() == old(live).sources(),
            old(self).is_derived() && old(self).refusal(old(live)) is None && old(live).head() < MAX_TX && old(
                live,
            ).terms().len() + 3 * APPLY_BATCH < crate::store::MAX_TERMS ==> r is Ok,
            r matches Ok(n) ==> {
                let start = old(self).applied() as int;
                &&& old(self).is_derived()
                &&& old(self).refusal(old(live)) is None
                &&& n == if old(self).planned().len() - start < APPLY_BATCH {
                    old(self).planned().len() - start
                } else {
                    APPLY_BATCH as int
                }
                &&& final(self).same_plan(old(self))
                &&& final(self).planned() == old(self).planned()
                &&& final(self).is_derived()
                &&& final(self).captured_identity() == old(self).captured_identity()
                &&& final(self).captured_ontologies() == old(self).captured_ontologies()
                &&& final(self).head() == old(self).head()
                &&& final(self).stamp() == old(self).stamp()
                &&& final(self).counts() == old(self).counts()
                &&& final(self).applied() == start + n
                &&& graph_triples(final(live), INFERRED_GRAPH) == graph_triples(old(live), INFERRED_GRAPH)
                    + old(self).planned().subrange(start, start + n)
            },
    {
        proof {
            lemma_extend_refl(live);
        }
        if !self.derived {
            return Err(Error::InvalidValue(owned("OWL snapshot has not been derived")));
        }
        self.validate(live)?;
        let end: usize = if self.proposals.len() - self.next < APPLY_BATCH {
            self.proposals.len()
        } else {
            self.next + APPLY_BATCH
        };
        let mut batch: Vec<Triple> = Vec::new();
        let mut i: usize = self.next;
        while i < end
            invariant
                self.next <= i <= end <= self.proposals@.len(),
                triples_view(batch@) == triples_view(self.proposals@).subrange(self.next as int, i as int),
            decreases end - i,
        {
            let t = self.proposals[i].copy();
            proof {
                assert(triples_view(self.proposals@)[i as int] == self.proposals@[i as int]@);
            }
            let ghost prev = triples_view(batch@);
            batch.push(t);
            proof {
                assert(triples_view(batch@) =~= prev.push(t@));
                assert(triples_view(self.proposals@).subrange(self.next as int, i + 1) =~= triples_view(
                    self.proposals@,
                ).subrange(self.next as int, i as int).push(triples_view(self.proposals@)[i as int]));
            }
            i = i + 1;
        }
        let ghost l0 = *live;
        if batch.len() > 0 {
            proof {
                assert forall|j: int| 0 <= j < batch@.len() implies obj_ok((#[trigger] triples_view(batch@)[j]).2) by {
                    assert(triples_view(batch@)[j] == triples_view(self.proposals@)[self.next + j]);
                }
            }
            let ds = match to_datums(live, &batch, self.timestamp.as_str()) {
                Ok(ds) => ds,
                Err(e) => {
                    proof {
                        lemma_graph_stable(&l0, live, ROOT_GRAPH);
                    }
                    return Err(e);
                },
            };
            let ghost mid = *live;
            proof {
                lemma_graph_stable(&l0, &mid, ROOT_GRAPH);
                lemma_graph_stable(&l0, &mid, INFERRED_GRAPH);
            }
            let _tx = live.transact_to_graph(ds.as_slice(), Some(MATERIALIZE_SOURCE), INFERRED_GRAPH)?;
            proof {
                lemma_graph_write(&mid, live, ds@, _tx, INFERRED_GRAPH, triples_view(batch@), INFERRED_GRAPH);
                lemma_graph_write(&mid, live, ds@, _tx, INFERRED_GRAPH, triples_view(batch@), ROOT_GRAPH);
                assert(mid.terms().subrange(0, mid.terms().len() as int) =~= live.terms());
                lemma_extend_trans(&l0, &mid, live);
            }
        } else {
            proof {
                lemma_extend_refl(live);
                assert(graph_triples(live, INFERRED_GRAPH) + triples_view(batch@) =~= graph_triples(live, INFERRED_GRAPH));
            }
        }
        let n = batch.len();
        self.next = end;
        Ok(n)
    }

    /// Publish freshness: only once every derived fact has been applied and
    /// the premises are still valid. The companion is recorded as derived as
    /// of the captured transaction, not of anything written since.
    pub fn finish(&self, live: &mut Store) -> (r: Result<(), Error>)
        requires
            self.inv(),
            old(live).wf(),
        ensures
            final(live).wf(),
            final(live).terms_extend(old(live)),
            final(live).identity() == old(live).identity(),
            final(live).ontology_entries() == old(live).ontology_entries(),
            (!self.is_derived() || self.applied() != self.planned().len()) ==> (r matches Err(e) && e is InvalidValue
                && e.text() == "OWL snapshot is incomplete"@ && *final(live) == *old(live)),
            (self.is_derived() && self.applied() == self.planned().len() && self.refusal(old(live)) is Some) ==> (r matches Err(
                e,
            ) && e is InvalidValue && e.text() == self.refusal(old(live))->0 && *final(live) == *old(live)),
            r is Ok ==> self.is_derived() && self.applied() == self.planned().len() && self.refusal(old(live)) is None,
            self.is_derived() && self.applied() == self.planned().len() && self.refusal(old(live)) is None && old(
                live,
            ).head() < MAX_TX && old(live).terms().len() + 3 < crate::store::MAX_TERMS ==> r is Ok,
            r is Ok && self.captured_ontologies().len() == 0 ==> *final(live) == *old(live),
            r is Ok && self.captured_ontologies().len() > 0 ==> publishes_freshness(old(live), final(live), self.head(), self.stamp()),
            r is Err ==> final(live).rows() == old(live).rows() && final(live).sources() == old(live).sources(),
    {
        proof {
            lemma_extend_refl(live);
        }
        if !self.derived || self.remaining() != 0 {
            return Err(Error::InvalidValue(owned("OWL snapshot is incomplete")));
        }
        self.validate(live)?;
        if self.ontologies.len() == 0 {
            return Ok(());
        }
        let ghost l0 = *live;
        let g = live.intern(ROOT_INFERRED_GRAPH_IRI)?;
        let ghost l1 = *live;
        let a = match live.intern(DERIVED_AS_OF_TX) {
            Ok(id) => id,
            Err(e) => {
                proof {
                    lemma_extend_trans(&l0, &l1, live);
                }
                return Err(e);
            },
        };
        let ghost l2 = *live;
        proof {
            lemma_extend_trans(&l0, &l1, &l2);
        }
        let k = match live.intern(SOURCE_KIND) {
            Ok(id) => id,
            Err(e) => {
                proof {
                    lemma_extend_trans(&l0, &l2, live);
                }
                return Err(e);
            },
        };
        let ghost l3 = *live;
        proof {
            lemma_extend_trans(&l0, &l2, &l3);
            lemma_extend_trans(&l1, &l2, &l3);
            assert(l3.terms()[g - 1] == l1.terms()[g - 1]);
            l3.lemma_id_of(ROOT_INFERRED_GRAPH_IRI@, g - 1);
            assert(l3.terms()[a - 1] == l2.terms()[a - 1]);
            l3.lemma_id_of(DERIVED_AS_OF_TX@, a - 1);
            assert(l3.rows() == l0.rows());
            l3.lemma_selected_known(seq![INFERRED_GRAPH], Some(g));
        }
        let current = live.entity_facts_in_graph(INFERRED_GRAPH, g);
        let ghost cv = facts_view(current@);
        let mut ds: Vec<Datum> = Vec::new();
        let mut i: usize = 0;
        while i < current.len()
            invariant
                i <= current@.len(),
                cv == facts_view(current@),
                cv == select(l3.rows(), seq![INFERRED_GRAPH], Some(g)),
                forall|j: int| 0 <= j < cv.len() ==> fact_known(#[trigger] cv[j], l3.terms().len() as int),
                datums_view(ds@) == with_attribute(cv.take(i as int), a).map_values(
                    |f: FactView| retraction_of(f, self.timestamp@),
                ),
                forall|j: int| 0 <= j < ds@.len() ==> crate::store::datum_known(
                    #[trigger] ds@[j]@,
                    l3.terms().len() as int,
                ),
            decreases current.len() - i,
        {
            proof {
                assert(cv.take(i + 1).drop_last() =~= cv.take(i as int));
                assert(cv[i as int] == current@[i as int]@);
            }
            let ghost before = datums_view(ds@);
            if current[i].attribute == a {
                let d = Datum {
                    entity: current[i].entity,
                    attribute: current[i].attribute,
                    value: current[i].value.copy(),
                    valid_from: self.timestamp.clone(),
                    valid_to: None,
                    op: Op::Retract,
                };
                proof {
                    assert(fact_known(cv[i as int], l3.terms().len() as int));
                }
                ds.push(d);
                proof {
                    assert(datums_view(ds@) =~= before.push(retraction_of(cv[i as int], self.timestamp@)));
                    assert(with_attribute(cv.take(i + 1), a) == with_attribute(cv.take(i as int), a).push(cv[i as int]));
                    assert(with_attribute(cv.take(i + 1), a).map_values(|f: FactView| retraction_of(f, self.timestamp@))
                        =~= with_attribute(cv.take(i as int), a).map_values(|f: FactView| retraction_of(f, self.timestamp@)).push(
                        retraction_of(cv[i as int], self.timestamp@),
                    ));
                }
            }
            i = i + 1;
        }
        proof {
            assert(cv.take(cv.len() as int) =~= cv);
        }
        let ghost retracts = datums_view(ds@);
        ds.push(Datum {
            entity: g,
            attribute: a,
            value: Value::Int(self.premise_head),
            valid_from: self.timestamp.clone(),
            valid_to: None,
            op: Op::Assert,
        });
        ds.push(Datum {
            entity: g,
            attribute: k,
            value: Value::Str(owned("inferred")),
            valid_from: self.timestamp.clone(),
            valid_to: None,
            op: Op::Assert,
        });
        proof {
            assert(l3.id_of(ROOT_INFERRED_GRAPH_IRI@) == Some(g));
            assert(l3.id_of(DERIVED_AS_OF_TX@) == Some(a));
            assert(datums_view(ds@) =~= freshness_write(
                with_attribute(select(l0.rows(), seq![INFERRED_GRAPH], Some(g)), a),
                g,
                a,
                k,
                self.premise_head,
                self.timestamp@,
            ));
        }
        let _tx = live.transact_to_graph(ds.as_slice(), Some(PLANE_SOURCE), INFERRED_GRAPH)?;
        Ok(())
    }

    /// Refuse unless `live` is still the captured store, with the same
    /// ontologies, and no premise was retracted since the capture.
    fn validate(&self, live: &Store) -> (r: Result<(), Error>)
        requires
            live.wf(),
        ensures
            match self.refusal(live) {
                Some(m) => r matches Err(e) && e is InvalidValue && e.text() == m,
                None => r is Ok,
            },
    {
        let id = live.store_id();
        let onts = live.list_ontologies();
        if !str_eq(id.as_str(), self.identity.as_str()) || !same_entries(&onts, &self.ontologies) {
            return Err(Error::InvalidValue(owned("OWL snapshot identity or ontology changed")));
        }
        let root_gone = live.retracted_since(ROOT_GRAPH, self.premise_head);
        if root_gone.len() > 0 {
            proof {
                assert(facts_view(root_gone@).len() > 0);
            }
            return Err(Error::InvalidValue(owned("OWL snapshot premises retracted; retry required")));
        }
        let fresh_entity = live.lookup(ROOT_INFERRED_GRAPH_IRI);
        let fresh_attr = live.lookup(DERIVED_AS_OF_TX);
        let comp_gone = live.retracted_since(INFERRED_GRAPH, self.premise_head);
        let ghost gone = retracted_after(live.rows(), INFERRED_GRAPH, self.premise_head);
        let mut k: usize = 0;
        while k < comp_gone.len()
            invariant
                k <= comp_gone@.len(),
                facts_view(comp_gone@) == gone,
                gone == retracted_after(live.rows(), INFERRED_GRAPH, self.head()),
                live.identity() == self.captured_identity(),
                entries_view(live.ontology_entries()) == self.captured_ontologies(),
                fresh_entity == live.id_of(ROOT_INFERRED_GRAPH_IRI@),
                fresh_attr == live.id_of(DERIVED_AS_OF_TX@),
                forall|j: int| 0 <= j < k ==> is_freshness(live, #[trigger] gone[j]),
            decreases comp_gone.len() - k,
        {
            let f = &comp_gone[k];
            let is_fresh = match (fresh_entity, fresh_attr) {
                (Some(e), Some(a)) => f.entity == e && f.attribute == a,
                _ => false,
            };
            proof {
                assert(gone[k as int] == f@);
            }
            if !is_fresh {
                proof {
                    assert(!is_freshness(live, retracted_after(live.rows(), INFERRED_GRAPH, self.head())[k as int]));
                    assert(premise_retracted(live, self.head()));
                }
                return Err(Error::InvalidValue(owned("OWL snapshot premises retracted; retry required")));
            }
            k = k + 1;
        }
        proof {
            assert(facts_view(root_gone@).len() == 0);
            if exists|j: int| 0 <= j < gone.len() && !is_freshness(live, #[trigger] gone[j]) {
                let j = choose|j: int| 0 <= j < gone.len() && !is_freshness(live, #[trigger] gone[j]);
                assert(is_freshness(live, gone[j]));
            }
        }
        Ok(())
    }
}


/// `r` is a live freshness record of companion term `g` under attribute `a`.
pub open spec fn fresh_row(r: RowView, g: i64, a: i64) -> bool {
    &&& r.retracted is None
    &&& r.graph == INFERRED_GRAPH
    &&& r.fact.entity == g
    &&& r.fact.attribute == a
}

proof fn lemma_with_attribute_push(fs: Seq<FactView>, x: FactView, a: i64)
    ensures
        with_attribute(fs.push(x), a) == if x.attribute == a {
            with_attribute(fs, a).push(x)
        } else {
            with_attribute(fs, a)
        },
{
    assert(fs.push(x).drop_last() =~= fs);
}

proof fn lemma_select_push(rows: Seq<RowView>, r: RowView, g: i64)
    ensures
        select(rows.push(r), seq![INFERRED_GRAPH], Some(g)) == if r.retracted is None && r.graph == INFERRED_GRAPH
            && r.fact.entity == g {
            select(rows, seq![INFERRED_GRAPH], Some(g)).push(r.fact)
        } else {
            select(rows, seq![INFERRED_GRAPH], Some(g))
        },
{
    assert(rows.push(r).drop_last() =~= rows);
    assert(seq![INFERRED_GRAPH].contains(r.graph) <==> r.graph == INFERRED_GRAPH) by {
        if r.graph == INFERRED_GRAPH {
            assert(seq![INFERRED_GRAPH][0] == r.graph);
        }
    }
}

/// Every live freshness record is listed among the freshness facts.
proof fn lemma_fresh_listed(rows: Seq<RowView>, g: i64, a: i64, i: int)
    requires
        0 <= i < rows.len(),
        fresh_row(rows[i], g, a),
    ensures
        with_attribute(select(rows, seq![INFERRED_GRAPH], Some(g)), a).contains(rows[i].fact),
    decreases rows.len(),
{
    let prev = rows.drop_last();
    assert(prev.push(rows.last()) =~= rows);
    lemma_select_push(prev, rows.last(), g);
    let sp = select(prev, seq![INFERRED_GRAPH], Some(g));
    lemma_with_attribute_push(sp, rows.last().fact, a);
    if i < rows.len() - 1 {
        assert(prev[i] == rows[i]);
        lemma_fresh_listed(prev, g, a, i);
        let w = with_attribute(sp, a);
        let j = choose|j: int| 0 <= j < w.len() && w[j] == rows[i].fact;
        if fresh_row(rows.last(), g, a) {
            assert(w.push(rows.last().fact)[j] == rows[i].fact);
        } else if rows.last().retracted is None && rows.last().graph == INFERRED_GRAPH && rows.last().fact.entity == g {
            assert(w.push(rows.last().fact)[j] == rows[i].fact);
        }
    } else {
        let w = with_attribute(sp, a);
        assert(w.push(rows[i].fact)[w.len() as int] == rows[i].fact);
    }
}

/// With no live freshness record, no freshness fact is listed.
proof fn lemma_no_fresh(rows: Seq<RowView>, g: i64, a: i64)
    requires
        forall|i: int| 0 <= i < rows.len() ==> !fresh_row(#[trigger] rows[i], g, a),
    ensures
        with_attribute(select(rows, seq![INFERRED_GRAPH], Some(g)), a).len() == 0,
    decreases rows.len(),
{
    if rows.len() > 0 {
        let prev = rows.drop_last();
        assert forall|i: int| 0 <= i < prev.len() implies !fresh_row(#[trigger] prev[i], g, a) by {
            assert(prev[i] == rows[i]);
        }
        lemma_no_fresh(prev, g, a);
        assert(prev.push(rows.last()) =~= rows);
        lemma_select_push(prev, rows.last(), g);
        lemma_with_attribute_push(select(prev, seq![INFERRED_GRAPH], Some(g)), rows.last().fact, a);
        assert(!fresh_row(rows[rows.len() - 1], g, a));
    }
}

/// Applying retractions keeps every row's content and closes each live row
/// one of them names.
proof fn lemma_retractions(rows: Seq<RowView>, ds: Seq<DatumView>, tx: i64, gr: i64)
    requires
        forall|j: int| 0 <= j < ds.len() ==> (#[trigger] ds[j]).op == Op::Retract,
    ensures
        apply_all(rows, ds, tx, gr).len() == rows.len(),
        forall|i: int|
            0 <= i < rows.len() ==> (#[trigger] apply_all(rows, ds, tx, gr)[i]).fact == rows[i].fact
                && apply_all(rows, ds, tx, gr)[i].graph == rows[i].graph
                && (rows[i].retracted is Some ==> apply_all(rows, ds, tx, gr)[i].retracted is Some),
        forall|i: int, j: int|
            0 <= i < rows.len() && 0 <= j < ds.len() && rows[i].graph == gr && rows[i].fact.entity == (#[trigger] ds[j]).entity
                && rows[i].fact.attribute == ds[j].attribute && rows[i].fact.value == ds[j].value
                ==> (#[trigger] apply_all(rows, ds, tx, gr)[i]).retracted is Some,
    decreases ds.len(),
{
    if ds.len() > 0 {
        let pre = ds.drop_last();
        assert forall|j: int| 0 <= j < pre.len() implies (#[trigger] pre[j]).op == Op::Retract by {
            assert(pre[j] == ds[j]);
        }
        lemma_retractions(rows, pre, tx, gr);
        let mid = apply_all(rows, pre, tx, gr);
        let d = ds.last();
        assert(d.op == Op::Retract);
        let fin = apply_all(rows, ds, tx, gr);
        assert(fin == apply_datum(mid, d, tx, gr));
        assert forall|i: int, j: int|
            0 <= i < rows.len() && 0 <= j < ds.len() && rows[i].graph == gr && rows[i].fact.entity == (#[trigger] ds[j]).entity
                && rows[i].fact.attribute == ds[j].attribute && rows[i].fact.value == ds[j].value
            implies (#[trigger] apply_all(rows, ds, tx, gr)[i]).retracted is Some by {
            if j < pre.len() {
                assert(pre[j] == ds[j]);
                assert(mid[i].retracted is Some);
            }
        }
    }
}

/// After freshness is published, the companion's live freshness record is
/// exactly the captured transaction watermark: whatever it recorded before
/// is retracted, and writes made after the capture do not move it.
pub proof fn law_freshness_is_the_snapshot_head(old: &Store, fin: &Store, head: i64, ts: Seq<char>)
    requires
        fin.wf(),
        publishes_freshness(old, fin, head, ts),
    ensures
        with_attribute(
            select(fin.rows(), seq![INFERRED_GRAPH], Some(fin.id_of(ROOT_INFERRED_GRAPH_IRI@)->0)),
            fin.id_of(DERIVED_AS_OF_TX@)->0,
        ).map_values(|f: FactView| f.value) == seq![ValueView::Int(head)],
{
    let g = fin.id_of(ROOT_INFERRED_GRAPH_IRI@)->0;
    let a = fin.id_of(DERIVED_AS_OF_TX@)->0;
    let k = fin.id_of(SOURCE_KIND@)->0;
    let tx = (old.head() + 1) as i64;
    let olds = with_attribute(select(old.rows(), seq![INFERRED_GRAPH], Some(g)), a);
    let rs = olds.map_values(|f: FactView| retraction_of(f, ts));
    let a1 = DatumView { entity: g, attribute: a, value: ValueView::Int(head), valid_from: ts, valid_to: None, op: Op::Assert };
    let a2 = DatumView { entity: g, attribute: k, value: ValueView::Str("inferred"@), valid_from: ts, valid_to: None, op: Op::Assert };
    let ds = freshness_write(olds, g, a, k, head, ts);
    assert(ds.drop_last() =~= rs.push(a1));
    assert(ds.drop_last().drop_last() =~= rs);
    let mid = apply_all(old.rows(), rs, tx, INFERRED_GRAPH);
    let ds1 = rs.push(a1);
    assert(ds.drop_last() =~= ds1);
    assert(ds.last() == a2);
    assert(ds1.drop_last() =~= rs);
    assert(ds1.last() == a1);
    assert(apply_all(old.rows(), ds, tx, INFERRED_GRAPH) == apply_datum(
        apply_all(old.rows(), ds1, tx, INFERRED_GRAPH),
        a2,
        tx,
        INFERRED_GRAPH,
    ));
    assert(apply_all(old.rows(), ds1, tx, INFERRED_GRAPH) == apply_datum(mid, a1, tx, INFERRED_GRAPH));
    assert(fin.rows() == mid.push(asserted_row(a1, tx, INFERRED_GRAPH)).push(asserted_row(a2, tx, INFERRED_GRAPH)));
    assert forall|j: int| 0 <= j < rs.len() implies (#[trigger] rs[j]).op == Op::Retract by {}
    lemma_retractions(old.rows(), rs, tx, INFERRED_GRAPH);
    assert forall|i: int| 0 <= i < mid.len() implies !fresh_row(#[trigger] mid[i], g, a) by {
        if fresh_row(mid[i], g, a) {
            assert(old.rows()[i].retracted is None);
            assert(fresh_row(old.rows()[i], g, a));
            lemma_fresh_listed(old.rows(), g, a, i);
            let j = choose|j: int| 0 <= j < olds.len() && olds[j] == old.rows()[i].fact;
            assert(rs[j] == retraction_of(olds[j], ts));
        }
    }
    lemma_no_fresh(mid, g, a);
    let r1 = asserted_row(a1, tx, INFERRED_GRAPH);
    let r2 = asserted_row(a2, tx, INFERRED_GRAPH);
    lemma_select_push(mid, r1, g);
    lemma_select_push(mid.push(r1), r2, g);
    let s0 = select(mid, seq![INFERRED_GRAPH], Some(g));
    lemma_with_attribute_push(s0, r1.fact, a);
    lemma_with_attribute_push(s0.push(r1.fact), r2.fact, a);
    assert(k != a) by {
        reveal_strlit("https://quipu.dev/ontology/sourceKind");
        reveal_strlit("https://quipu.dev/ontology/derivedAsOfTx");
        assert(SOURCE_KIND@.len() == 37);
        assert(DERIVED_AS_OF_TX@.len() == 40);
        fin.lemma_id_of_term(SOURCE_KIND@);
        fin.lemma_id_of_term(DERIVED_AS_OF_TX@);
        if k == a {
            assert(fin.term(k) == SOURCE_KIND@);
            assert(fin.term(a) == DERIVED_AS_OF_TX@);
        }
    }
    assert(with_attribute(s0, a).len() == 0);
    assert(with_attribute(s0, a) =~= Seq::<FactView>::empty());
    assert(with_attribute(select(fin.rows(), seq![INFERRED_GRAPH], Some(g)), a) =~= seq![r1.fact]);
    assert(seq![r1.fact].map_values(|f: FactView| f.value) =~= seq![ValueView::Int(head)]);
}

} // verus!
