//! An in-memory temporal fact store: interned terms, an append-only fact log
//! partitioned into graphs, and retraction by transaction.
//!
//! Term ids start at 1; graph 0 is the ROOT graph. A fact is *current* until a
//! later transaction retracts it.

use vstd::prelude::*;

use crate::pack::{Manifest, ManifestView};
use crate::proposal::{Proposal, ProposalView, proposals_view};
use crate::text::str_eq;
use crate::value::{Error, Value, ValueView};

verus! {

/// The ROOT graph's id.
pub const ROOT_GRAPH: i64 = 0;

/// The ROOT graph's companion graph, where entailments are written. Named
/// graphs are numbered by the term id of their IRI, which is never negative,
/// so this id cannot collide with one.
pub const INFERRED_GRAPH: i64 = -1;

/// Terms are numbered from 1; the table never grows past this many entries.
pub const MAX_TERMS: usize = 0x3fff_ffff;

/// Transactions are numbered from 1; the log never grows past this many.
pub const MAX_TX: usize = 0x3fff_ffff;

/// Proposals are numbered from 1; the table never grows past this many.
pub const MAX_PROPOSALS: usize = 0x3fff_ffff;

/// Whether a datum asserts or retracts.
#[derive(Debug, Clone, Copy, PartialEq, Eq, Structural)]
pub enum Op {
    Assert,
    Retract,
}

/// A stored fact: `(entity, attribute, value)` written by transaction `tx`.
#[derive(Debug, Clone, PartialEq, Eq)]
pub struct Fact {
    pub entity: i64,
    pub attribute: i64,
    pub value: Value,
    pub tx: i64,
    pub valid_from: String,
}

/// The content of a [`Fact`].
pub ghost struct FactView {
    pub entity: i64,
    pub attribute: i64,
    pub value: ValueView,
    pub tx: i64,
    pub valid_from: Seq<char>,
}

impl View for Fact {
    type V = FactView;

    open spec fn view(&self) -> FactView {
        FactView {
            entity: self.entity,
            attribute: self.attribute,
            value: self.value@,
            tx: self.tx,
            valid_from: self.valid_from@,
        }
    }
}

impl Fact {
    /// A copy with the same content.
    pub fn copy(&self) -> (r: Fact)
        ensures
            r@ == self@,
    {
        Fact {
            entity: self.entity,
            attribute: self.attribute,
            value: self.value.copy(),
            tx: self.tx,
            valid_from: self.valid_from.clone(),
        }
    }
}

/// A write request: assert or retract `(entity, attribute, value)`.
#[derive(Debug, Clone, PartialEq, Eq)]
pub struct Datum {
    pub entity: i64,
    pub attribute: i64,
    pub value: Value,
    pub valid_from: String,
    pub valid_to: Option<String>,
    pub op: Op,
}

/// The content of a [`Datum`] that a write uses.
pub ghost struct DatumView {
    pub entity: i64,
    pub attribute: i64,
    pub value: ValueView,
    pub valid_from: Seq<char>,
    pub valid_to: Option<Seq<char>>,
    pub op: Op,
}

impl View for Datum {
    type V = DatumView;

    open spec fn view(&self) -> DatumView {
        DatumView {
            entity: self.entity,
            attribute: self.attribute,
            value: self.value@,
            valid_from: self.valid_from@,
            valid_to: match &self.valid_to {
                Some(t) => Some(t@),
                None => None,
            },
            op: self.op,
        }
    }
}

/// One row of the fact log: the fact, its graph, and the transaction that
/// retracted it (if any).
pub ghost struct RowView {
    pub fact: FactView,
    pub graph: i64,
    pub retracted: Option<i64>,
}

/// The facts of `v`, by content.
pub open spec fn facts_view(v: Seq<Fact>) -> Seq<FactView> {
    v.map_values(|f: Fact| f@)
}

/// The datums of `v`, by content.
pub open spec fn datums_view(v: Seq<Datum>) -> Seq<DatumView> {
    v.map_values(|d: Datum| d@)
}

/// A row is live, sits in one of `graphs`, and (when given) has that entity.
pub open spec fn selects(r: RowView, graphs: Seq<i64>, entity: Option<i64>) -> bool {
    &&& r.retracted is None
    &&& graphs.contains(r.graph)
    &&& match entity {
        Some(e) => r.fact.entity == e,
        None => true,
    }
}

/// The live facts of `rows` in `graphs` (restricted to `entity` when given),
/// in log order.
pub open spec fn select(rows: Seq<RowView>, graphs: Seq<i64>, entity: Option<i64>) -> Seq<FactView>
    decreases rows.len(),
{
    if rows.len() == 0 {
        Seq::empty()
    } else {
        let prev = select(rows.drop_last(), graphs, entity);
        if selects(rows.last(), graphs, entity) {
            prev.push(rows.last().fact)
        } else {
            prev
        }
    }
}

/// The facts of `graph` in `rows` that a transaction after `tx` retracted,
/// in log order.
pub open spec fn retracted_after(rows: Seq<RowView>, graph: i64, tx: i64) -> Seq<FactView>
    decreases rows.len(),
{
    if rows.len() == 0 {
        Seq::empty()
    } else {
        let prev = retracted_after(rows.drop_last(), graph, tx);
        let r = rows.last();
        if r.graph == graph && (r.retracted matches Some(t) && t > tx) {
            prev.push(r.fact)
        } else {
            prev
        }
    }
}

/// The row a datum asserts.
pub open spec fn asserted_row(d: DatumView, tx: i64, graph: i64) -> RowView {
    RowView {
        fact: FactView {
            entity: d.entity,
            attribute: d.attribute,
            value: d.value,
            tx,
            valid_from: d.valid_from,
        },
        graph,
        retracted: None,
    }
}

/// A retraction of `d` in `graph` closes this row.
pub open spec fn closes(r: RowView, d: DatumView, graph: i64) -> bool {
    &&& r.retracted is None
    &&& r.graph == graph
    &&& r.fact.entity == d.entity
    &&& r.fact.attribute == d.attribute
    &&& r.fact.value == d.value
}

/// The log after applying one datum in transaction `tx` to `graph`.
pub open spec fn apply_datum(rows: Seq<RowView>, d: DatumView, tx: i64, graph: i64) -> Seq<RowView> {
    match d.op {
        Op::Assert => rows.push(asserted_row(d, tx, graph)),
        Op::Retract => Seq::new(
            rows.len(),
            |i: int|
                if closes(rows[i], d, graph) {
                    RowView { retracted: Some(tx), ..rows[i] }
                } else {
                    rows[i]
                },
        ),
    }
}

/// The log after applying `ds` in order, in transaction `tx`, to `graph`.
pub open spec fn apply_all(rows: Seq<RowView>, ds: Seq<DatumView>, tx: i64, graph: i64) -> Seq<RowView>
    decreases ds.len(),
{
    if ds.len() == 0 {
        rows
    } else {
        apply_datum(apply_all(rows, ds.drop_last(), tx, graph), ds.last(), tx, graph)
    }
}

/// Some entry of `entries` is registered under `name`.
pub open spec fn has_name(entries: Seq<OntologyEntry>, name: Seq<char>) -> bool {
    exists|k: int| 0 <= k < entries.len() && #[trigger] entries[k].name@ == name
}

/// `entries` without those registered under `name`, in order.
pub open spec fn without_name(entries: Seq<OntologyEntry>, name: Seq<char>) -> Seq<OntologyEntry>
    decreases entries.len(),
{
    if entries.len() == 0 {
        entries
    } else if entries.last().name@ == name {
        without_name(entries.drop_last(), name)
    } else {
        without_name(entries.drop_last(), name).push(entries.last())
    }
}

/// Every id a fact row mentions names one of the first `n` terms.
pub open spec fn row_known(r: RowView, n: int) -> bool {
    &&& 1 <= r.fact.entity <= n
    &&& 1 <= r.fact.attribute <= n
    &&& match r.fact.value {
        ValueView::Ref(t) => 1 <= t <= n,
        _ => true,
    }
}

/// Every id a fact mentions names one of the first `n` terms.
pub open spec fn fact_known(f: FactView, n: int) -> bool {
    &&& 1 <= f.entity <= n
    &&& 1 <= f.attribute <= n
    &&& match f.value {
        ValueView::Ref(t) => 1 <= t <= n,
        _ => true,
    }
}

/// Every fact `select` returns comes from a row with that content.
pub proof fn lemma_select_from_rows(rows: Seq<RowView>, graphs: Seq<i64>, entity: Option<i64>, k: int)
    requires
        0 <= k < select(rows, graphs, entity).len(),
    ensures
        exists|i: int| 0 <= i < rows.len() && #[trigger] rows[i].fact == select(rows, graphs, entity)[k]
            && selects(rows[i], graphs, entity),
    decreases rows.len(),
{
    let prev = select(rows.drop_last(), graphs, entity);
    if k < prev.len() {
        lemma_select_from_rows(rows.drop_last(), graphs, entity, k);
        let i = choose|i: int| 0 <= i < rows.drop_last().len() && #[trigger] rows.drop_last()[i].fact == prev[k]
            && selects(rows.drop_last()[i], graphs, entity);
        assert(rows[i] == rows.drop_last()[i]);
    } else {
        assert(rows[rows.len() - 1].fact == select(rows, graphs, entity)[k]);
    }
}

/// Every id a datum mentions names one of the first `n` terms.
pub open spec fn datum_known(d: DatumView, n: int) -> bool {
    &&& 1 <= d.entity <= n
    &&& 1 <= d.attribute <= n
    &&& match d.value {
        ValueView::Ref(t) => 1 <= t <= n,
        _ => true,
    }
}

/// A registered ontology document: `(name, turtle, loaded_at)`.
#[derive(Debug, Clone, PartialEq, Eq)]
pub struct OntologyEntry {
    pub name: String,
    pub turtle: String,
    pub loaded_at: String,
}

/// The in-memory store.
pub struct Store {
    identity: String,
    terms: Vec<String>,
    facts: Vec<Fact>,
    graphs: Vec<i64>,
    retracted: Vec<Option<i64>>,
    tx_sources: Vec<Option<String>>,
    ontologies: Vec<OntologyEntry>,
    proposals: Vec<Proposal>,
    pack_manifest: Option<Manifest>,
    pack_loads: Vec<String>,
    shapes: Vec<(String, String, String)>,
    queries: Vec<StoredQuery>,
    vector_delegate: bool,
}

/// A parameter of a stored query.
#[derive(Debug, Clone, PartialEq, Eq)]
pub struct QueryParam {
    pub name: String,
    pub kind: String,
    pub required: bool,
    pub default: Option<String>,
}

/// The content of a [`QueryParam`]: `(name, kind, required, default)`.
pub type ParamView = (Seq<char>, Seq<char>, bool, Option<Seq<char>>);

impl View for QueryParam {
    type V = ParamView;

    open spec fn view(&self) -> ParamView {
        (
            self.name@,
            self.kind@,
            self.required,
            match &self.default {
                Some(d) => Some(d@),
                None => None,
            },
        )
    }
}

/// A named, parameterised query kept in the store.
#[derive(Debug, Clone, PartialEq, Eq)]
pub struct StoredQuery {
    pub name: String,
    pub description: String,
    pub template: String,
    pub dataset: Option<String>,
    pub params: Vec<QueryParam>,
}

/// The content of a [`StoredQuery`]: `(name, description, template,
/// dataset, params)`.
pub type QueryView = (Seq<char>, Seq<char>, Seq<char>, Option<Seq<char>>, Seq<ParamView>);

impl View for StoredQuery {
    type V = QueryView;

    open spec fn view(&self) -> QueryView {
        (
            self.name@,
            self.description@,
            self.template@,
            match &self.dataset {
                Some(d) => Some(d@),
                None => None,
            },
            self.params@.map_values(|p: QueryParam| p@),
        )
    }
}

/// A loaded shape graph: `(name, turtle, loaded_at)`.
pub type ShapeView = (Seq<char>, Seq<char>, Seq<char>);

/// What a store keeps beside its facts for packing: its shape graphs, its
/// stored queries, and whether its vector search is delegated to another
/// backend.
pub type CatalogView = (Seq<ShapeView>, Seq<QueryView>, bool);

/// The shapes after loading `(name, turtle)` at `ts`: the entry of that name
/// replaced in place, or a new entry at the end.
pub open spec fn put_shape(shapes: Seq<ShapeView>, name: Seq<char>, turtle: Seq<char>, ts: Seq<char>) -> Seq<ShapeView> {
    match index_of_name(shapes.map_values(|e: ShapeView| e.0), name) {
        Some(i) => shapes.update(i, (name, turtle, ts)),
        None => shapes.push((name, turtle, ts)),
    }
}

/// The queries after loading `q`: the query of that name replaced in place,
/// or `q` added at the end.
pub open spec fn put_query(queries: Seq<QueryView>, q: QueryView) -> Seq<QueryView> {
    match index_of_name(queries.map_values(|e: QueryView| e.0), q.0) {
        Some(i) => queries.update(i, q),
        None => queries.push(q),
    }
}

/// A shape graph loaded under a name is what that name then finds, in
/// place of any earlier one.
pub proof fn law_a_loaded_shape_is_found(shapes: Seq<ShapeView>, name: Seq<char>, turtle: Seq<char>, ts: Seq<char>)
    ensures
        index_of_name(put_shape(shapes, name, turtle, ts).map_values(|e: ShapeView| e.0), name) matches Some(i)
            && put_shape(shapes, name, turtle, ts)[i] == (name, turtle, ts),
        put_shape(shapes, name, turtle, ts).len() == shapes.len() + if index_of_name(
            shapes.map_values(|e: ShapeView| e.0),
            name,
        ) is Some {
            0int
        } else {
            1int
        },
{
    let names = shapes.map_values(|e: ShapeView| e.0);
    let after = put_shape(shapes, name, turtle, ts);
    lemma_index_range(names, name);
    match index_of_name(names, name) {
        Some(i) => {
            assert(after.map_values(|e: ShapeView| e.0) =~= names);
        },
        None => {
            assert(after.map_values(|e: ShapeView| e.0).drop_last() =~= names);
        },
    }
}

/// A stored query loaded under its name is what that name then finds, in
/// place of any earlier one.
pub proof fn law_a_loaded_query_is_found(queries: Seq<QueryView>, q: QueryView)
    ensures
        index_of_name(put_query(queries, q).map_values(|e: QueryView| e.0), q.0) matches Some(i) && put_query(
            queries,
            q,
        )[i] == q,
        put_query(queries, q).len() == queries.len() + if index_of_name(
            queries.map_values(|e: QueryView| e.0),
            q.0,
        ) is Some {
            0int
        } else {
            1int
        },
{
    let names = queries.map_values(|e: QueryView| e.0);
    let after = put_query(queries, q);
    lemma_index_range(names, q.0);
    match index_of_name(names, q.0) {
        Some(i) => {
            assert(after.map_values(|e: QueryView| e.0) =~= names);
        },
        None => {
            assert(after.map_values(|e: QueryView| e.0).drop_last() =~= names);
        },
    }
}

/// The first position of `name` in `names`.
pub open spec fn index_of_name(names: Seq<Seq<char>>, name: Seq<char>) -> Option<int>
    decreases names.len(),
{
    if names.len() == 0 {
        None
    } else {
        match index_of_name(names.drop_last(), name) {
            Some(i) => Some(i),
            None => if names.last() == name {
                Some(names.len() - 1)
            } else {
                None
            },
        }
    }
}

/// The position of `name` among `names`, found by a scan.
fn find_name(names: &Vec<String>, name: &str) -> (r: Option<usize>)
    ensures
        r matches Some(k) ==> index_of_name(names@.map_values(|s: String| s@), name@) == Some(k as int),
        r is None ==> index_of_name(names@.map_values(|s: String| s@), name@) is None,
{
    let ghost nv = names@.map_values(|s: String| s@);
    let mut i: usize = 0;
    while i < names.len()
        invariant
            i <= names@.len(),
            nv == names@.map_values(|s: String| s@),
            index_of_name(nv.take(i as int), name@) is None,
        decreases names.len() - i,
    {
        proof {
            assert(nv.take(i + 1).drop_last() =~= nv.take(i as int));
        }
        if str_eq(names[i].as_str(), name) {
            proof {
                lemma_index_prefix(nv, i as int + 1, name@);
            }
            return Some(i);
        }
        i = i + 1;
    }
    proof {
        assert(nv.take(nv.len() as int) =~= nv);
    }
    None
}

/// A name found in a prefix is found at the same place in the whole.
proof fn lemma_index_prefix(names: Seq<Seq<char>>, n: int, name: Seq<char>)
    requires
        0 <= n <= names.len(),
        index_of_name(names.take(n), name) is Some,
    ensures
        index_of_name(names, name) == index_of_name(names.take(n), name),
    decreases names.len() - n,
{
    if n < names.len() {
        assert(names.take(n + 1).drop_last() =~= names.take(n));
        lemma_index_prefix(names, n + 1, name);
    } else {
        assert(names.take(n) =~= names);
    }
}

/// Mapping a list that grew by one element.
pub proof fn lemma_map_push<A, B>(prev: Seq<A>, x: A, f: spec_fn(A) -> B, all: Seq<B>, i: int)
    requires
        prev.map_values(f) == all.take(i),
        0 <= i < all.len(),
        f(x) == all[i],
    ensures
        prev.push(x).map_values(f) == all.take(i + 1),
{
    assert(prev.map_values(f).len() == prev.len());
    assert(prev.len() == i);
    let q = prev.push(x);
    assert(q.map_values(f).len() == i + 1);
    assert forall|k: int| 0 <= k < i + 1 implies #[trigger] q.map_values(f)[k] == all.take(i + 1)[k] by {
        assert(q.map_values(f)[k] == f(q[k]));
        if k < i {
            assert(q[k] == prev[k]);
            assert(prev.map_values(f)[k] == f(prev[k]));
            assert(prev.map_values(f)[k] == all.take(i)[k]);
        } else {
            assert(q[k] == x);
        }
    }
    assert(prev.push(x).map_values(f) =~= all.take(i + 1));
}

/// A position found is a position of the list.
pub proof fn lemma_index_range(names: Seq<Seq<char>>, name: Seq<char>)
    ensures
        index_of_name(names, name) matches Some(i) ==> 0 <= i < names.len() && names[i] == name,
    decreases names.len(),
{
    if names.len() > 0 {
        lemma_index_range(names.drop_last(), name);
    }
}

impl Store {
    /// The interned terms, by content; term `i + 1` is `terms()[i]`.
    pub closed spec fn terms(&self) -> Seq<Seq<char>> {
        self.terms@.map_values(|s: String| s@)
    }

    /// The fact log.
    pub closed spec fn rows(&self) -> Seq<RowView> {
        Seq::new(
            self.facts@.len(),
            |i: int| RowView { fact: self.facts@[i]@, graph: self.graphs@[i], retracted: self.retracted@[i] },
        )
    }

    /// The source label of each transaction; transaction `i + 1` is `sources()[i]`.
    pub closed spec fn sources(&self) -> Seq<Option<Seq<char>>> {
        self.tx_sources@.map_values(|s: Option<String>| match s {
            Some(t) => Some(t@),
            None => None,
        })
    }

    /// The registered ontologies, in registration order.
    pub closed spec fn ontology_entries(&self) -> Seq<OntologyEntry> {
        self.ontologies@
    }

    /// The schema proposals, in the order they were recorded; proposal
    /// `i + 1` is `proposal_log()[i]`.
    pub closed spec fn proposal_log(&self) -> Seq<ProposalView> {
        proposals_view(self.proposals@)
    }

    /// The manifest of the pack this store is, if it is one.
    pub closed spec fn manifest_of(&self) -> Option<ManifestView> {
        match self.pack_manifest {
            Some(m) => Some(m@),
            None => None,
        }
    }

    /// The content hashes of the packs loaded into this store, in load order.
    pub closed spec fn loaded_packs(&self) -> Seq<Seq<char>> {
        self.pack_loads@.map_values(|h: String| h@)
    }

    /// The store's identity.
    pub closed spec fn identity(&self) -> Seq<char> {
        self.identity@
    }

    /// The shape graphs, stored queries and vector-backend kind.
    pub closed spec fn catalog(&self) -> CatalogView {
        (
            self.shapes@.map_values(|e: (String, String, String)| (e.0@, e.1@, e.2@)),
            self.queries@.map_values(|q: StoredQuery| q@),
            self.vector_delegate,
        )
    }

    /// The latest transaction number (0 before any write).
    pub open spec fn head(&self) -> int {
        self.sources().len() as int
    }

    /// Internal consistency: the log's columns line up, terms are distinct, and
    /// the tables stay within their numbering range.
    pub closed spec fn wf(&self) -> bool {
        &&& self.facts@.len() == self.graphs@.len()
        &&& self.facts@.len() == self.retracted@.len()
        &&& self.terms@.len() <= MAX_TERMS
        &&& self.tx_sources@.len() <= MAX_TX
        &&& self.proposals@.len() <= MAX_PROPOSALS
        &&& forall|i: int| 0 <= i < self.proposals@.len() ==> (#[trigger] self.proposals@[i]).id == i + 1
        &&& forall|i: int| 0 <= i < self.rows().len() ==> row_known(#[trigger] self.rows()[i], self.terms().len() as int)
        &&& forall|i: int, j: int|
            0 <= i < self.terms@.len() && 0 <= j < self.terms@.len() && i != j
                ==> #[trigger] self.terms@[i]@ != #[trigger] self.terms@[j]@
    }

    /// `id` names an interned term.
    pub open spec fn has_term(&self, id: i64) -> bool {
        1 <= id <= self.terms().len()
    }

    /// The IRI of term `id` (meaningful when `has_term(id)`).
    pub open spec fn term(&self, id: i64) -> Seq<char> {
        self.terms()[id - 1]
    }

    /// The id of `iri`, if it is interned.
    pub open spec fn id_of(&self, iri: Seq<char>) -> Option<i64> {
        if exists|i: int| 0 <= i < self.terms().len() && self.terms()[i] == iri {
            Some(((choose|i: int| 0 <= i < self.terms().len() && self.terms()[i] == iri) + 1) as i64)
        } else {
            None
        }
    }

    /// The live facts of the ROOT graph, in log order.
    pub open spec fn root_facts(&self) -> Seq<FactView> {
        select(self.rows(), seq![ROOT_GRAPH], None)
    }

    /// Only terms and facts were added: every old term keeps its id.
    pub open spec fn terms_extend(&self, old: &Store) -> bool {
        &&& old.terms().len() <= self.terms().len()
        &&& self.terms().subrange(0, old.terms().len() as int) == old.terms()
    }

    /// The log is a vector: its length fits a `usize`.
    pub proof fn lemma_rows_bounded(&self)
        ensures
            self.rows().len() <= usize::MAX,
    {
        assert(self.rows().len() == self.facts@.len());
        assert(self.facts@.len() == self.facts.len());
    }

    /// Facts read from a well-formed store mention only interned terms.
    pub proof fn lemma_selected_known(&self, graphs: Seq<i64>, entity: Option<i64>)
        requires
            self.wf(),
        ensures
            forall|k: int| 0 <= k < select(self.rows(), graphs, entity).len()
                ==> fact_known(#[trigger] select(self.rows(), graphs, entity)[k], self.terms().len() as int),
    {
        assert forall|k: int| 0 <= k < select(self.rows(), graphs, entity).len()
            implies fact_known(#[trigger] select(self.rows(), graphs, entity)[k], self.terms().len() as int) by {
            lemma_select_from_rows(self.rows(), graphs, entity, k);
            let i = choose|i: int| 0 <= i < self.rows().len() && #[trigger] self.rows()[i].fact == select(self.rows(), graphs, entity)[k]
                && selects(self.rows()[i], graphs, entity);
            assert(row_known(self.rows()[i], self.terms().len() as int));
        }
    }

    /// The id `id_of` finds names the IRI it was asked for.
    pub proof fn lemma_id_of_term(&self, iri: Seq<char>)
        requires
            self.wf(),
            self.id_of(iri) is Some,
        ensures
            self.has_term(self.id_of(iri)->0),
            self.term(self.id_of(iri)->0) == iri,
    {
        let c = choose|i: int| 0 <= i < self.terms().len() && self.terms()[i] == iri;
        assert(self.terms().len() <= MAX_TERMS);
    }

    pub(crate) proof fn lemma_id_of(&self, iri: Seq<char>, i: int)
        requires
            self.wf(),
            0 <= i < self.terms().len(),
            self.terms()[i] == iri,
        ensures
            self.id_of(iri) == Some((i + 1) as i64),
    {
        let c = choose|k: int| 0 <= k < self.terms().len() && self.terms()[k] == iri;
        if c != i {
            assert(self.terms@[c]@ == self.terms@[i]@);
        }
    }

    /// An empty store named `identity`.
    pub fn open_in_memory(identity: &str) -> (s: Store)
        ensures
            s.wf(),
            s.terms().len() == 0,
            s.rows().len() == 0,
            s.head() == 0,
            s.ontology_entries().len() == 0,
            s.proposal_log().len() == 0,
            s.manifest_of() is None,
            s.loaded_packs().len() == 0,
            s.identity() == identity@,
            s.catalog() == (Seq::<ShapeView>::empty(), Seq::<QueryView>::empty(), false),
    {
        let s = Store {
            identity: identity.to_owned(),
            terms: Vec::new(),
            facts: Vec::new(),
            graphs: Vec::new(),
            retracted: Vec::new(),
            tx_sources: Vec::new(),
            ontologies: Vec::new(),
            proposals: Vec::new(),
            pack_manifest: None,
            pack_loads: Vec::new(),
            shapes: Vec::new(),
            queries: Vec::new(),
            vector_delegate: false,
        };
        assert(s.terms() =~= Seq::<Seq<char>>::empty());
        assert(s.rows() =~= Seq::<RowView>::empty());
        assert(s.sources() =~= Seq::<Option<Seq<char>>>::empty());
        assert(s.catalog().0 =~= Seq::<ShapeView>::empty());
        assert(s.catalog().1 =~= Seq::<QueryView>::empty());
        s
    }

    /// The store's identity.
    pub fn store_id(&self) -> (r: String)
        ensures
            r@ == self.identity(),
    {
        self.identity.clone()
    }

    /// Number of interned terms.
    pub fn term_count(&self) -> (n: usize)
        ensures
            n == self.terms().len(),
    {
        self.terms.len()
    }

    /// The latest transaction number.
    pub fn transaction_head(&self) -> (h: i64)
        requires
            self.wf(),
        ensures
            h == self.head(),
    {
        self.tx_sources.len() as i64
    }

    /// The source label of transaction `tx`: `None` when there is no such
    /// transaction, `Some(None)` when it carried no label.
    pub fn transaction_source(&self, tx: i64) -> (r: Option<Option<String>>)
        requires
            self.wf(),
        ensures
            (1 <= tx <= self.head()) <==> r is Some,
            r matches Some(label) ==> self.sources()[tx - 1] == match label {
                Some(s) => Some(s@),
                None => None::<Seq<char>>,
            },
    {
        if tx >= 1 && (tx as u64) <= (self.tx_sources.len() as u64) {
            let i: usize = (tx - 1) as usize;
            match &self.tx_sources[i] {
                Some(s) => Some(Some(s.clone())),
                None => Some(None),
            }
        } else {
            None
        }
    }

    /// The id of `iri`, if interned.
    pub fn lookup(&self, iri: &str) -> (r: Option<i64>)
        requires
            self.wf(),
        ensures
            r == self.id_of(iri@),
            r matches Some(id) ==> self.has_term(id) && self.term(id) == iri@,
    {
        let mut i: usize = 0;
        while i < self.terms.len()
            invariant
                self.wf(),
                i <= self.terms@.len(),
                forall|k: int| 0 <= k < i ==> self.terms()[k] != iri@,
            decreases self.terms.len() - i,
        {
            if str_eq(self.terms[i].as_str(), iri) {
                proof {
                    self.lemma_id_of(iri@, i as int);
                }
                return Some((i + 1) as i64);
            }
            i = i + 1;
        }
        None
    }

    /// The IRI of term `id`.
    pub fn resolve(&self, id: i64) -> (r: Result<String, Error>)
        requires
            self.wf(),
        ensures
            self.has_term(id) <==> r is Ok,
            r matches Ok(s) ==> s@ == self.term(id),
    {
        if id >= 1 && (id as u64) <= (self.terms.len() as u64) {
            Ok(self.terms[(id - 1) as usize].clone())
        } else {
            Err(Error::InvalidValue(crate::text::owned("unknown term id")))
        }
    }

    /// The id of `iri`, interning it when new.
    pub fn intern(&mut self, iri: &str) -> (r: Result<i64, Error>)
        requires
            old(self).wf(),
        ensures
            final(self).wf(),
            final(self).terms_extend(old(self)),
            final(self).rows() == old(self).rows(),
            final(self).sources() == old(self).sources(),
            final(self).ontology_entries() == old(self).ontology_entries(),
            final(self).identity() == old(self).identity(),
            final(self).proposal_log() == old(self).proposal_log(),
            final(self).manifest_of() == old(self).manifest_of(),
            final(self).loaded_packs() == old(self).loaded_packs(),
            final(self).catalog() == old(self).catalog(),
            old(self).id_of(iri@) is Some ==> final(self).terms() == old(self).terms() && r == Ok::<i64, Error>(old(self).id_of(iri@)->0),
            old(self).id_of(iri@) is None ==> (r is Ok <==> old(self).terms().len() < MAX_TERMS),
            old(self).id_of(iri@) is None && r is Ok ==> final(self).terms() == old(self).terms().push(iri@),
            old(self).id_of(iri@) is None && r is Err ==> final(self).terms() == old(self).terms(),
            r matches Ok(id) ==> final(self).has_term(id) && final(self).term(id) == iri@ && final(self).id_of(iri@) == Some(id),
    {
        match self.lookup(iri) {
            Some(id) => {
                assert(self.terms().subrange(0, self.terms().len() as int) =~= self.terms());
                Ok(id)
            },
            None => {
                if self.terms.len() >= MAX_TERMS {
                    assert(self.terms().subrange(0, self.terms().len() as int) =~= self.terms());
                    return Err(Error::InvalidValue(crate::text::owned("term table is full")));
                }
                let ghost before = self.terms();
                self.terms.push(iri.to_owned());
                proof {
                    assert(self.terms() =~= before.push(iri@));
                    assert forall|i: int, j: int|
                        0 <= i < self.terms@.len() && 0 <= j < self.terms@.len() && i != j
                            implies #[trigger] self.terms@[i]@ != #[trigger] self.terms@[j]@ by {
                        if i < before.len() && j < before.len() {
                            assert(self.terms@[i]@ == before[i]);
                            assert(self.terms@[j]@ == before[j]);
                        } else if i < before.len() {
                            assert(self.terms@[i]@ == before[i]);
                        } else {
                            assert(self.terms@[j]@ == before[j]);
                        }
                    }
                    assert(self.terms().subrange(0, before.len() as int) =~= before);
                    assert forall|i: int| 0 <= i < self.rows().len() implies row_known(#[trigger] self.rows()[i], self.terms().len() as int) by {
                        assert(row_known(old(self).rows()[i], before.len() as int));
                    }
                    self.lemma_id_of(iri@, before.len() as int);
                }
                Ok(self.terms.len() as i64)
            },
        }
    }

    /// Live facts of the given graphs (restricted to `entity` when given).
    fn select_facts(&self, graphs: &[i64], entity: Option<i64>) -> (out: Vec<Fact>)
        requires
            self.wf(),
        ensures
            facts_view(out@) == select(self.rows(), graphs@, entity),
    {
        let mut out: Vec<Fact> = Vec::new();
        let mut i: usize = 0;
        while i < self.facts.len()
            invariant
                self.wf(),
                i <= self.facts@.len(),
                facts_view(out@) == select(self.rows().take(i as int), graphs@, entity),
            decreases self.facts.len() - i,
        {
            let ghost rows = self.rows();
            proof {
                assert(rows.take(i + 1).drop_last() =~= rows.take(i as int));
            }
            let g = self.graphs[i];
            let mut in_graphs = false;
            let mut k: usize = 0;
            while k < graphs.len()
                invariant
                    k <= graphs@.len(),
                    in_graphs == exists|j: int| 0 <= j < k && graphs@[j] == g,
                decreases graphs.len() - k,
            {
                if graphs[k] == g {
                    in_graphs = true;
                }
                k = k + 1;
            }
            let entity_ok = match entity {
                Some(e) => self.facts[i].entity == e,
                None => true,
            };
            if self.retracted[i].is_none() && in_graphs && entity_ok {
                let ghost before = out@;
                out.push(self.facts[i].copy());
                proof {
                    assert(facts_view(out@) =~= facts_view(before).push(self.facts@[i as int]@));
                }
            }
            i = i + 1;
        }
        proof {
            assert(self.rows().take(self.facts@.len() as int) =~= self.rows());
        }
        out
    }

    /// Live facts of the ROOT graph.
    pub fn current_facts(&self) -> (out: Vec<Fact>)
        requires
            self.wf(),
        ensures
            facts_view(out@) == self.root_facts(),
    {
        let g: Vec<i64> = vec![ROOT_GRAPH];
        proof {
            assert(g@ =~= seq![ROOT_GRAPH]);
        }
        self.select_facts(g.as_slice(), None)
    }

    /// Live facts of the ROOT graph about `entity`.
    pub fn entity_facts(&self, entity: i64) -> (out: Vec<Fact>)
        requires
            self.wf(),
        ensures
            facts_view(out@) == select(self.rows(), seq![ROOT_GRAPH], Some(entity)),
    {
        let g: Vec<i64> = vec![ROOT_GRAPH];
        proof {
            assert(g@ =~= seq![ROOT_GRAPH]);
        }
        self.select_facts(g.as_slice(), Some(entity))
    }

    /// The facts of `graph` retracted by a transaction after `tx`.
    pub fn retracted_since(&self, graph: i64, tx: i64) -> (out: Vec<Fact>)
        requires
            self.wf(),
        ensures
            facts_view(out@) == retracted_after(self.rows(), graph, tx),
    {
        let mut out: Vec<Fact> = Vec::new();
        let mut i: usize = 0;
        while i < self.facts.len()
            invariant
                self.wf(),
                i <= self.facts@.len(),
                facts_view(out@) == retracted_after(self.rows().take(i as int), graph, tx),
            decreases self.facts.len() - i,
        {
            let ghost rows = self.rows();
            proof {
                assert(rows.take(i + 1).drop_last() =~= rows.take(i as int));
            }
            let hit = match self.retracted[i] {
                Some(t) => self.graphs[i] == graph && t > tx,
                None => false,
            };
            if hit {
                let ghost before = out@;
                out.push(self.facts[i].copy());
                proof {
                    assert(facts_view(out@) =~= facts_view(before).push(self.facts@[i as int]@));
                }
            }
            i = i + 1;
        }
        proof {
            assert(self.rows().take(self.facts@.len() as int) =~= self.rows());
        }
        out
    }

    /// Live facts of `entity` in `graph`.
    pub fn entity_facts_in_graph(&self, graph: i64, entity: i64) -> (out: Vec<Fact>)
        requires
            self.wf(),
        ensures
            facts_view(out@) == select(self.rows(), seq![graph], Some(entity)),
    {
        let g: Vec<i64> = vec![graph];
        proof {
            assert(g@ =~= seq![graph]);
        }
        self.select_facts(g.as_slice(), Some(entity))
    }

    /// Live facts of the given graphs.
    pub fn current_facts_in_graphs(&self, graphs: &[i64]) -> (out: Vec<Fact>)
        requires
            self.wf(),
        ensures
            facts_view(out@) == select(self.rows(), graphs@, None),
    {
        self.select_facts(graphs, None)
    }

    /// Live facts of one graph.
    pub fn current_facts_in_graph(&self, graph: i64) -> (out: Vec<Fact>)
        requires
            self.wf(),
        ensures
            facts_view(out@) == select(self.rows(), seq![graph], None),
    {
        let g: Vec<i64> = vec![graph];
        proof {
            assert(g@ =~= seq![graph]);
        }
        self.select_facts(g.as_slice(), None)
    }

    /// Apply `datums` in order, as one new transaction labelled `source`,
    /// to `graph`. Assertions append live rows; a retraction closes every live
    /// row of `graph` with the same entity, attribute and value.
    pub fn transact_to_graph(
        &mut self,
        datums: &[Datum],
        source: Option<&str>,
        graph: i64,
    ) -> (r: Result<i64, Error>)
        requires
            old(self).wf(),
        ensures
            final(self).wf(),
            final(self).terms() == old(self).terms(),
            final(self).ontology_entries() == old(self).ontology_entries(),
            final(self).identity() == old(self).identity(),
            final(self).proposal_log() == old(self).proposal_log(),
            final(self).manifest_of() == old(self).manifest_of(),
            final(self).loaded_packs() == old(self).loaded_packs(),
            final(self).catalog() == old(self).catalog(),
            r is Ok <==> old(self).head() < MAX_TX && forall|i: int| 0 <= i < datums@.len()
                ==> datum_known(#[trigger] datums@[i]@, old(self).terms().len() as int),
            r is Err ==> final(self).rows() == old(self).rows() && final(self).sources() == old(self).sources(),
            r matches Ok(tx) ==> {
                &&& tx == old(self).head() + 1
                &&& final(self).rows() == apply_all(old(self).rows(), datums_view(datums@), tx, graph)
                &&& final(self).sources() == old(self).sources().push(match source {
                    Some(s) => Some(s@),
                    None => None::<Seq<char>>,
                })
            },
    {
        if self.tx_sources.len() >= MAX_TX {
            return Err(Error::InvalidValue(crate::text::owned("transaction log is full")));
        }
        if !self.all_known(datums) {
            return Err(Error::InvalidValue(crate::text::owned("write names an unknown term")));
        }
        let tx: i64 = (self.tx_sources.len() + 1) as i64;
        let ghost start = self.rows();
        let mut i: usize = 0;
        while i < datums.len()
            invariant
                self.wf(),
                i <= datums@.len(),
                self.terms() == old(self).terms(),
                self.ontology_entries() == old(self).ontology_entries(),
                self.identity() == old(self).identity(),
                self.proposal_log() == old(self).proposal_log(),
                self.manifest_of() == old(self).manifest_of(),
                self.loaded_packs() == old(self).loaded_packs(),
                self.catalog() == old(self).catalog(),
                self.sources() == old(self).sources(),
                self.tx_sources@.len() < MAX_TX,
                tx == self.tx_sources@.len() + 1,
                start == old(self).rows(),
                forall|k: int| 0 <= k < datums@.len() ==> datum_known(#[trigger] datums@[k]@, old(self).terms().len() as int),
                self.rows() == apply_all(start, datums_view(datums@).take(i as int), tx, graph),
            decreases datums.len() - i,
        {
            proof {
                assert(datums_view(datums@).take(i + 1).drop_last() =~= datums_view(datums@).take(i as int));
                assert(datum_known(datums@[i as int]@, self.terms().len() as int));
            }
            self.apply_one(&datums[i], tx, graph);
            i = i + 1;
        }
        proof {
            assert(datums_view(datums@).take(datums@.len() as int) =~= datums_view(datums@));
        }
        let ghost before_sources = self.sources();
        let label: Option<String> = match source {
            Some(s) => Some(s.to_owned()),
            None => None,
        };
        self.tx_sources.push(label);
        proof {
            assert(self.sources() =~= before_sources.push(match source {
                Some(s) => Some(s@),
                None => None::<Seq<char>>,
            }));
        }
        Ok(tx)
    }

    /// Apply `datums` to the ROOT graph as one transaction.
    pub fn transact(&mut self, datums: &[Datum], source: Option<&str>) -> (r: Result<i64, Error>)
        requires
            old(self).wf(),
        ensures
            final(self).wf(),
            final(self).terms() == old(self).terms(),
            final(self).ontology_entries() == old(self).ontology_entries(),
            final(self).identity() == old(self).identity(),
            final(self).proposal_log() == old(self).proposal_log(),
            final(self).manifest_of() == old(self).manifest_of(),
            final(self).loaded_packs() == old(self).loaded_packs(),
            final(self).catalog() == old(self).catalog(),
            r is Ok <==> old(self).head() < MAX_TX && forall|i: int| 0 <= i < datums@.len()
                ==> datum_known(#[trigger] datums@[i]@, old(self).terms().len() as int),
            r is Err ==> final(self).rows() == old(self).rows() && final(self).sources() == old(self).sources(),
            r matches Ok(tx) ==> {
                &&& tx == old(self).head() + 1
                &&& final(self).rows() == apply_all(old(self).rows(), datums_view(datums@), tx, ROOT_GRAPH)
                &&& final(self).sources() == old(self).sources().push(match source {
                    Some(s) => Some(s@),
                    None => None::<Seq<char>>,
                })
            },
    {
        self.transact_to_graph(datums, source, ROOT_GRAPH)
    }

    /// Every datum names only interned terms.
    fn all_known(&self, datums: &[Datum]) -> (r: bool)
        ensures
            r == forall|i: int| 0 <= i < datums@.len() ==> datum_known(#[trigger] datums@[i]@, self.terms().len() as int),
    {
        let n = self.terms.len();
        let mut j: usize = 0;
        while j < datums.len()
            invariant
                j <= datums@.len(),
                n == self.terms().len(),
                forall|k: int| 0 <= k < j ==> datum_known(#[trigger] datums@[k]@, n as int),
            decreases datums.len() - j,
        {
            let d = &datums[j];
            let ok_ref = match &d.value {
                Value::Ref(t) => 1 <= *t && (*t as u64) <= (n as u64),
                _ => true,
            };
            if !(1 <= d.entity && (d.entity as u64) <= (n as u64) && 1 <= d.attribute
                && (d.attribute as u64) <= (n as u64) && ok_ref) {
                assert(!datum_known(datums@[j as int]@, n as int));
                return false;
            }
            j = j + 1;
        }
        true
    }

    fn apply_one(&mut self, d: &Datum, tx: i64, graph: i64)
        requires
            old(self).wf(),
            datum_known(d@, old(self).terms().len() as int),
        ensures
            final(self).wf(),
            final(self).terms() == old(self).terms(),
            final(self).ontology_entries() == old(self).ontology_entries(),
            final(self).identity() == old(self).identity(),
            final(self).proposal_log() == old(self).proposal_log(),
            final(self).manifest_of() == old(self).manifest_of(),
            final(self).loaded_packs() == old(self).loaded_packs(),
            final(self).catalog() == old(self).catalog(),
            final(self).sources() == old(self).sources(),
            final(self).tx_sources@.len() == old(self).tx_sources@.len(),
            final(self).rows() == apply_datum(old(self).rows(), d@, tx, graph),
    {
        let ghost before = self.rows();
        match d.op {
            Op::Assert => {
                self.facts.push(Fact {
                    entity: d.entity,
                    attribute: d.attribute,
                    value: d.value.copy(),
                    tx,
                    valid_from: d.valid_from.clone(),
                });
                self.graphs.push(graph);
                self.retracted.push(None);
                proof {
                    assert(self.rows() =~= before.push(asserted_row(d@, tx, graph)));
                    assert forall|i: int| 0 <= i < self.rows().len() implies row_known(#[trigger] self.rows()[i], self.terms().len() as int) by {
                        if i < before.len() {
                            assert(row_known(before[i], self.terms().len() as int));
                        }
                    }
                }
            },
            Op::Retract => {
                let mut k: usize = 0;
                while k < self.facts.len()
                    invariant
                        self.wf(),
                        k <= self.facts@.len(),
                        self.terms() == old(self).terms(),
                        self.ontology_entries() == old(self).ontology_entries(),
                        self.identity() == old(self).identity(),
                        self.proposal_log() == old(self).proposal_log(),
                        self.manifest_of() == old(self).manifest_of(),
                        self.loaded_packs() == old(self).loaded_packs(),
                        self.catalog() == old(self).catalog(),
                        self.sources() == old(self).sources(),
                        self.tx_sources@.len() == old(self).tx_sources@.len(),
                        before == old(self).rows(),
                        self.rows().len() == before.len(),
                        forall|j: int| 0 <= j < k ==> self.rows()[j] == (if closes(before[j], d@, graph) {
                            RowView { retracted: Some(tx), ..before[j] }
                        } else {
                            before[j]
                        }),
                        forall|j: int| k <= j < before.len() ==> self.rows()[j] == before[j],
                    decreases self.facts.len() - k,
                {
                    let ghost mid = self.rows();
                    if self.retracted[k].is_none() && self.graphs[k] == graph
                        && self.facts[k].entity == d.entity && self.facts[k].attribute == d.attribute
                        && self.facts[k].value.same(&d.value) {
                        self.retracted.set(k, Some(tx));
                        proof {
                            assert(closes(before[k as int], d@, graph));
                            assert(self.rows()[k as int] == RowView { retracted: Some(tx), ..before[k as int] });
                            assert forall|j: int| 0 <= j < self.rows().len() && j != k implies self.rows()[j] == mid[j] by {}
                        }
                    } else {
                        proof {
                            assert(!closes(before[k as int], d@, graph));
                            assert(self.rows() == mid);
                        }
                    }
                    proof {
                        assert forall|j: int| 0 <= j < k + 1 implies self.rows()[j] == (if closes(before[j], d@, graph) {
                            RowView { retracted: Some(tx), ..before[j] }
                        } else {
                            before[j]
                        }) by {
                            if j < k {
                                assert(self.rows()[j] == mid[j]);
                            }
                        }
                    }
                    k = k + 1;
                }
                proof {
                    assert(self.rows() =~= apply_datum(before, d@, tx, graph));
                }
            },
        }
    }

    /// Register an ontology document under `name`, replacing one of the same name.
    pub fn load_ontology(&mut self, name: &str, turtle: &str, loaded_at: &str)
        requires
            old(self).wf(),
        ensures
            final(self).wf(),
            final(self).terms() == old(self).terms(),
            final(self).rows() == old(self).rows(),
            final(self).sources() == old(self).sources(),
            final(self).identity() == old(self).identity(),
            final(self).proposal_log() == old(self).proposal_log(),
            final(self).manifest_of() == old(self).manifest_of(),
            final(self).loaded_packs() == old(self).loaded_packs(),
            final(self).catalog() == old(self).catalog(),
            final(self).ontology_entries().len() >= 1,
            final(self).ontology_entries().drop_last() == without_name(old(self).ontology_entries(), name@),
            final(self).ontology_entries().last().name@ == name@,
            final(self).ontology_entries().last().turtle@ == turtle@,
            final(self).ontology_entries().last().loaded_at@ == loaded_at@,
    {
        self.remove_ontology(name);
        let ghost kept = self.ontologies@;
        self.ontologies.push(OntologyEntry {
            name: name.to_owned(),
            turtle: turtle.to_owned(),
            loaded_at: loaded_at.to_owned(),
        });
        assert(self.ontologies@.drop_last() =~= kept);
    }

    /// Drop the ontology registered under `name`; reports whether one was.
    pub fn remove_ontology(&mut self, name: &str) -> (removed: bool)
        requires
            old(self).wf(),
        ensures
            final(self).wf(),
            final(self).terms() == old(self).terms(),
            final(self).rows() == old(self).rows(),
            final(self).sources() == old(self).sources(),
            final(self).identity() == old(self).identity(),
            final(self).proposal_log() == old(self).proposal_log(),
            final(self).manifest_of() == old(self).manifest_of(),
            final(self).loaded_packs() == old(self).loaded_packs(),
            final(self).catalog() == old(self).catalog(),
            removed == has_name(old(self).ontology_entries(), name@),
            final(self).ontology_entries() == without_name(old(self).ontology_entries(), name@),
    {
        let mut kept: Vec<OntologyEntry> = Vec::new();
        let mut removed = false;
        let mut i: usize = 0;
        while i < self.ontologies.len()
            invariant
                self.wf(),
                i <= self.ontologies@.len(),
                kept@ == without_name(self.ontologies@.subrange(0, i as int), name@),
                removed == has_name(self.ontologies@.subrange(0, i as int), name@),
            decreases self.ontologies.len() - i,
        {
            let ghost pre = self.ontologies@.subrange(0, i as int);
            let ghost cur = self.ontologies@.subrange(0, i + 1);
            proof {
                assert(cur.drop_last() =~= pre);
                assert(cur.last() == self.ontologies@[i as int]);
            }
            if str_eq(self.ontologies[i].name.as_str(), name) {
                proof {
                    assert(cur[i as int].name@ == name@);
                }
                removed = true;
            } else {
                let e = OntologyEntry {
                    name: self.ontologies[i].name.clone(),
                    turtle: self.ontologies[i].turtle.clone(),
                    loaded_at: self.ontologies[i].loaded_at.clone(),
                };
                assert(e == self.ontologies@[i as int]);
                kept.push(e);
                proof {
                    if has_name(cur, name@) {
                        let w = choose|k: int| 0 <= k < cur.len() && #[trigger] cur[k].name@ == name@;
                        assert(pre[w] == cur[w]);
                    }
                }
            }
            i = i + 1;
        }
        proof {
            assert(self.ontologies@.subrange(0, self.ontologies@.len() as int) =~= self.ontologies@);
        }
        self.ontologies = kept;
        assert(self.rows() =~= old(self).rows());
        assert(self.terms() =~= old(self).terms());
        removed
    }

    /// The registered ontologies, in registration order.
    pub fn list_ontologies(&self) -> (r: Vec<OntologyEntry>)
        ensures
            r@ == self.ontology_entries(),
    {
        let mut out: Vec<OntologyEntry> = Vec::new();
        let mut i: usize = 0;
        while i < self.ontologies.len()
            invariant
                i <= self.ontologies@.len(),
                out@ == self.ontologies@.subrange(0, i as int),
            decreases self.ontologies.len() - i,
        {
            let e = OntologyEntry {
                name: self.ontologies[i].name.clone(),
                turtle: self.ontologies[i].turtle.clone(),
                loaded_at: self.ontologies[i].loaded_at.clone(),
            };
            assert(e == self.ontologies@[i as int]);
            out.push(e);
            proof {
                assert(out@ =~= self.ontologies@.subrange(0, i + 1));
            }
            i = i + 1;
        }
        proof {
            assert(self.ontologies@.subrange(0, self.ontologies@.len() as int) =~= self.ontologies@);
        }
        out
    }

    /// Number of recorded proposals.
    pub(crate) fn proposal_count(&self) -> (n: usize)
        ensures
            n == self.proposal_log().len(),
    {
        self.proposals.len()
    }

    /// The `i`-th recorded proposal (id `i + 1`).
    pub(crate) fn proposal_at(&self, i: usize) -> (p: &Proposal)
        requires
            self.wf(),
            i < self.proposal_log().len(),
        ensures
            p@ == self.proposal_log()[i as int],
            p.id == i + 1,
    {
        &self.proposals[i]
    }

    /// Record `p` as the next proposal.
    pub(crate) fn push_proposal(&mut self, p: Proposal)
        requires
            old(self).wf(),
            old(self).proposal_log().len() < MAX_PROPOSALS,
            p.id == old(self).proposal_log().len() + 1,
        ensures
            final(self).wf(),
            final(self).terms() == old(self).terms(),
            final(self).rows() == old(self).rows(),
            final(self).sources() == old(self).sources(),
            final(self).ontology_entries() == old(self).ontology_entries(),
            final(self).identity() == old(self).identity(),
            final(self).proposal_log() == old(self).proposal_log().push(p@),
            final(self).manifest_of() == old(self).manifest_of(),
            final(self).loaded_packs() == old(self).loaded_packs(),
            final(self).catalog() == old(self).catalog(),
    {
        let ghost before = self.proposals@;
        self.proposals.push(p);
        assert(proposals_view(self.proposals@) =~= proposals_view(before).push(p@));
        assert(self.rows() =~= old(self).rows());
    }

    /// Replace the `i`-th proposal by `p`, which keeps its id.
    pub(crate) fn replace_proposal(&mut self, i: usize, p: Proposal)
        requires
            old(self).wf(),
            i < old(self).proposal_log().len(),
            p.id == i + 1,
        ensures
            final(self).wf(),
            final(self).terms() == old(self).terms(),
            final(self).rows() == old(self).rows(),
            final(self).sources() == old(self).sources(),
            final(self).ontology_entries() == old(self).ontology_entries(),
            final(self).identity() == old(self).identity(),
            final(self).proposal_log() == old(self).proposal_log().update(i as int, p@),
            final(self).manifest_of() == old(self).manifest_of(),
            final(self).loaded_packs() == old(self).loaded_packs(),
            final(self).catalog() == old(self).catalog(),
    {
        let ghost before = self.proposals@;
        self.proposals.set(i, p);
        assert(proposals_view(self.proposals@) =~= proposals_view(before).update(i as int, p@));
        assert(self.rows() =~= old(self).rows());
    }

    /// The manifest of the pack this store is, if it is one.
    pub fn read_manifest(&self) -> (r: Option<Manifest>)
        ensures
            match r {
                Some(m) => self.manifest_of() == Some(m@),
                None => self.manifest_of() is None,
            },
    {
        match &self.pack_manifest {
            Some(m) => Some(m.copy()),
            None => None,
        }
    }

    /// Record this store's pack manifest.
    pub(crate) fn set_manifest(&mut self, m: Manifest)
        requires
            old(self).wf(),
        ensures
            final(self).wf(),
            final(self).terms() == old(self).terms(),
            final(self).rows() == old(self).rows(),
            final(self).sources() == old(self).sources(),
            final(self).ontology_entries() == old(self).ontology_entries(),
            final(self).identity() == old(self).identity(),
            final(self).proposal_log() == old(self).proposal_log(),
            final(self).loaded_packs() == old(self).loaded_packs(),
            final(self).catalog() == old(self).catalog(),
            final(self).manifest_of() == Some(m@),
    {
        self.pack_manifest = Some(m);
        assert(self.rows() =~= old(self).rows());
    }

    /// Whether the pack with content hash `hash` was loaded into this store.
    pub fn has_loaded(&self, hash: &str) -> (r: bool)
        ensures
            r == self.loaded_packs().contains(hash@),
    {
        let mut i: usize = 0;
        while i < self.pack_loads.len()
            invariant
                i <= self.pack_loads@.len(),
                forall|k: int| 0 <= k < i ==> self.loaded_packs()[k] != hash@,
            decreases self.pack_loads.len() - i,
        {
            if str_eq(self.pack_loads[i].as_str(), hash) {
                proof {
                    assert(self.loaded_packs()[i as int] == hash@);
                }
                return true;
            }
            i = i + 1;
        }
        false
    }

    /// Record that the pack with content hash `hash` was loaded.
    pub(crate) fn record_load(&mut self, hash: &str)
        requires
            old(self).wf(),
        ensures
            final(self).wf(),
            final(self).terms() == old(self).terms(),
            final(self).rows() == old(self).rows(),
            final(self).sources() == old(self).sources(),
            final(self).ontology_entries() == old(self).ontology_entries(),
            final(self).identity() == old(self).identity(),
            final(self).proposal_log() == old(self).proposal_log(),
            final(self).manifest_of() == old(self).manifest_of(),
            final(self).loaded_packs() == old(self).loaded_packs().push(hash@),
            final(self).catalog() == old(self).catalog(),
    {
        let ghost before = self.pack_loads@;
        self.pack_loads.push(hash.to_owned());
        assert(self.loaded_packs() =~= before.map_values(|h: String| h@).push(hash@));
        assert(self.rows() =~= old(self).rows());
    }
}

impl Store {
    /// Load (or replace, by name) a shape graph.
    pub fn load_shapes(&mut self, name: &str, turtle: &str, loaded_at: &str)
        requires
            old(self).wf(),
        ensures
            final(self).wf(),
            final(self).terms() == old(self).terms(),
            final(self).rows() == old(self).rows(),
            final(self).sources() == old(self).sources(),
            final(self).ontology_entries() == old(self).ontology_entries(),
            final(self).identity() == old(self).identity(),
            final(self).proposal_log() == old(self).proposal_log(),
            final(self).manifest_of() == old(self).manifest_of(),
            final(self).loaded_packs() == old(self).loaded_packs(),
            final(self).catalog() == (put_shape(old(self).catalog().0, name@, turtle@, loaded_at@), old(self).catalog().1, old(
                self,
            ).catalog().2),
    {
        let names = self.shape_names();
        let entry = (name.to_owned(), turtle.to_owned(), loaded_at.to_owned());
        proof {
            lemma_index_range(old(self).catalog().0.map_values(|e: ShapeView| e.0), name@);
        }
        match find_name(&names, name) {
            Some(k) => {
                self.shapes.set(k, entry);
            },
            None => {
                self.shapes.push(entry);
            },
        }
        proof {
            assert(self.rows() =~= old(self).rows());
            assert(self.catalog().0 =~= put_shape(old(self).catalog().0, name@, turtle@, loaded_at@));
        }
    }

    /// The shape graphs, in load order: `(name, turtle, loaded_at)`.
    pub fn list_shapes(&self) -> (r: Vec<(String, String, String)>)
        ensures
            r@.map_values(|e: (String, String, String)| (e.0@, e.1@, e.2@)) == self.catalog().0,
    {
        let mut out: Vec<(String, String, String)> = Vec::new();
        let ghost all = self.catalog().0;
        let mut i: usize = 0;
        while i < self.shapes.len()
            invariant
                i <= self.shapes@.len(),
                all == self.catalog().0,
                all.len() == self.shapes@.len(),
                out@.map_values(|e: (String, String, String)| (e.0@, e.1@, e.2@)) == all.take(i as int),
            decreases self.shapes.len() - i,
        {
            let ghost prev = out@;
            let e = &self.shapes[i];
            let x = (e.0.clone(), e.1.clone(), e.2.clone());
            proof {
                assert(all[i as int] == (self.shapes@[i as int].0@, self.shapes@[i as int].1@, self.shapes@[i as int].2@));
                lemma_map_push(prev, x, |e: (String, String, String)| (e.0@, e.1@, e.2@), all, i as int);
            }
            out.push(x);
            i = i + 1;
        }
        proof {
            assert(all.take(all.len() as int) =~= all);
        }
        out
    }

    /// The names of the shape graphs, in load order.
    pub fn shape_names(&self) -> (r: Vec<String>)
        ensures
            r@.map_values(|s: String| s@) == self.catalog().0.map_values(|e: ShapeView| e.0),
    {
        let mut out: Vec<String> = Vec::new();
        let ghost all = self.catalog().0.map_values(|e: ShapeView| e.0);
        let mut i: usize = 0;
        while i < self.shapes.len()
            invariant
                i <= self.shapes@.len(),
                all == self.catalog().0.map_values(|e: ShapeView| e.0),
                all.len() == self.shapes@.len(),
                out@.map_values(|s: String| s@) == all.take(i as int),
            decreases self.shapes.len() - i,
        {
            let ghost prev = out@;
            let x = self.shapes[i].0.clone();
            proof {
                assert(all[i as int] == self.shapes@[i as int].0@);
                lemma_map_push(prev, x, |s: String| s@, all, i as int);
            }
            out.push(x);
            i = i + 1;
        }
        proof {
            assert(all.take(all.len() as int) =~= all);
        }
        out
    }

    /// The names of the stored queries, in load order.
    pub fn query_names(&self) -> (r: Vec<String>)
        ensures
            r@.map_values(|s: String| s@) == self.catalog().1.map_values(|e: QueryView| e.0),
    {
        let mut out: Vec<String> = Vec::new();
        let ghost all = self.catalog().1.map_values(|e: QueryView| e.0);
        let mut i: usize = 0;
        while i < self.queries.len()
            invariant
                i <= self.queries@.len(),
                all == self.catalog().1.map_values(|e: QueryView| e.0),
                all.len() == self.queries@.len(),
                out@.map_values(|s: String| s@) == all.take(i as int),
            decreases self.queries.len() - i,
        {
            let ghost prev = out@;
            let x = self.queries[i].name.clone();
            proof {
                assert(all[i as int] == self.queries@[i as int].name@);
                lemma_map_push(prev, x, |s: String| s@, all, i as int);
            }
            out.push(x);
            i = i + 1;
        }
        proof {
            assert(all.take(all.len() as int) =~= all);
        }
        out
    }

    /// Load (or replace, by name) a stored query.
    pub fn query_load(&mut self, q: &StoredQuery)
        requires
            old(self).wf(),
        ensures
            final(self).wf(),
            final(self).terms() == old(self).terms(),
            final(self).rows() == old(self).rows(),
            final(self).sources() == old(self).sources(),
            final(self).ontology_entries() == old(self).ontology_entries(),
            final(self).identity() == old(self).identity(),
            final(self).proposal_log() == old(self).proposal_log(),
            final(self).manifest_of() == old(self).manifest_of(),
            final(self).loaded_packs() == old(self).loaded_packs(),
            final(self).catalog() == (old(self).catalog().0, put_query(old(self).catalog().1, q@), old(self).catalog().2),
    {
        let names = self.query_names();
        let copy = copy_query(q);
        proof {
            lemma_index_range(old(self).catalog().1.map_values(|e: QueryView| e.0), q.name@);
        }
        match find_name(&names, q.name.as_str()) {
            Some(k) => {
                self.queries.set(k, copy);
            },
            None => {
                self.queries.push(copy);
            },
        }
        proof {
            assert(self.rows() =~= old(self).rows());
            assert(self.catalog().1 =~= put_query(old(self).catalog().1, q@));
        }
    }

    /// The stored query named `name`.
    pub fn query_get(&self, name: &str) -> (r: Option<StoredQuery>)
        ensures
            match index_of_name(self.catalog().1.map_values(|e: QueryView| e.0), name@) {
                Some(i) => r matches Some(q) && q@ == self.catalog().1[i],
                None => r is None,
            },
    {
        let names = self.query_names();
        proof {
            lemma_index_range(self.catalog().1.map_values(|e: QueryView| e.0), name@);
            assert(self.catalog().1.len() == self.queries@.len());
        }
        match find_name(&names, name) {
            Some(k) => {
                proof {
                    assert(self.catalog().1[k as int] == self.queries@[k as int]@);
                }
                Some(copy_query(&self.queries[k]))
            },
            None => None,
        }
    }

    /// The Turtle text of the shape graph named `name`.
    pub fn shape_get(&self, name: &str) -> (r: Option<String>)
        ensures
            match index_of_name(self.catalog().0.map_values(|e: ShapeView| e.0), name@) {
                Some(i) => r matches Some(t) && t@ == self.catalog().0[i].1,
                None => r is None,
            },
    {
        let names = self.shape_names();
        proof {
            lemma_index_range(self.catalog().0.map_values(|e: ShapeView| e.0), name@);
            assert(self.catalog().0.len() == self.shapes@.len());
        }
        match find_name(&names, name) {
            Some(k) => {
                proof {
                    assert(self.catalog().0[k as int] == (
                        self.shapes@[k as int].0@,
                        self.shapes@[k as int].1@,
                        self.shapes@[k as int].2@,
                    ));
                }
                Some(self.shapes[k].1.clone())
            },
            None => None,
        }
    }

    /// The stored queries, in load order.
    pub fn query_list(&self) -> (r: Vec<StoredQuery>)
        ensures
            r@.map_values(|q: StoredQuery| q@) == self.catalog().1,
    {
        let mut out: Vec<StoredQuery> = Vec::new();
        let mut i: usize = 0;
        while i < self.queries.len()
            invariant
                i <= self.queries@.len(),
                self.catalog().1.len() == self.queries@.len(),
                out@.map_values(|q: StoredQuery| q@) == self.catalog().1.take(i as int),
            decreases self.queries.len() - i,
        {
            let ghost prev = out@;
            let x = copy_query(&self.queries[i]);
            proof {
                assert(self.catalog().1[i as int] == self.queries@[i as int]@);
                lemma_map_push(prev, x, |q: StoredQuery| q@, self.catalog().1, i as int);
            }
            out.push(x);
            i = i + 1;
        }
        proof {
            assert(self.catalog().1.take(self.queries@.len() as int) =~= self.catalog().1);
        }
        out
    }

    /// Hand vector search to a backend other than the store's own: its
    /// embeddings can then no longer be enumerated for a pack.
    pub fn set_vector_search_delegate(&mut self)
        requires
            old(self).wf(),
        ensures
            final(self).wf(),
            final(self).terms() == old(self).terms(),
            final(self).rows() == old(self).rows(),
            final(self).sources() == old(self).sources(),
            final(self).ontology_entries() == old(self).ontology_entries(),
            final(self).identity() == old(self).identity(),
            final(self).proposal_log() == old(self).proposal_log(),
            final(self).manifest_of() == old(self).manifest_of(),
            final(self).loaded_packs() == old(self).loaded_packs(),
            final(self).catalog() == (old(self).catalog().0, old(self).catalog().1, true),
    {
        self.vector_delegate = true;
        assert(self.rows() =~= old(self).rows());
    }

    /// Vector search runs on the store's own backend.
    pub fn has_sqlite_vector_backend(&self) -> (r: bool)
        ensures
            r == !self.catalog().2,
    {
        !self.vector_delegate
    }
}

/// A copy of a query parameter.
fn copy_param(p: &QueryParam) -> (r: QueryParam)
    ensures
        r@ == p@,
{
    QueryParam {
        name: p.name.clone(),
        kind: p.kind.clone(),
        required: p.required,
        default: match &p.default {
            Some(d) => Some(d.clone()),
            None => None,
        },
    }
}

/// A copy of a stored query.
pub fn copy_query(q: &StoredQuery) -> (r: StoredQuery)
    ensures
        r@ == q@,
{
    let mut params: Vec<QueryParam> = Vec::new();
    let mut i: usize = 0;
    while i < q.params.len()
        invariant
            i <= q.params@.len(),
            params@.map_values(|p: QueryParam| p@) == q.params@.map_values(|p: QueryParam| p@).take(i as int),
        decreases q.params.len() - i,
    {
        let ghost prev = params@;
        let x = copy_param(&q.params[i]);
        proof {
            assert(q.params@.map_values(|p: QueryParam| p@)[i as int] == q.params@[i as int]@);
            lemma_map_push(prev, x, |p: QueryParam| p@, q.params@.map_values(|p: QueryParam| p@), i as int);
        }
        params.push(x);
        i = i + 1;
    }
    proof {
        assert(q.params@.map_values(|p: QueryParam| p@).take(q.params@.len() as int) =~= q.params@.map_values(
            |p: QueryParam| p@,
        ));
    }
    StoredQuery {
        name: q.name.clone(),
        description: q.description.clone(),
        template: q.template.clone(),
        dataset: match &q.dataset {
            Some(d) => Some(d.clone()),
            None => None,
        },
        params,
    }
}

} // verus!
