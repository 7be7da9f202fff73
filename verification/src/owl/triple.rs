//! IRI-level triples: facts with their term ids resolved to IRIs.
//!
//! Entailment is a matter of IRIs, not of the ids a particular store gave
//! them, so the rule families read and produce triples.

use vstd::prelude::*;

use crate::store::{facts_view, fact_known, select, FactView, Store, INFERRED_GRAPH, ROOT_GRAPH};
use crate::value::{Value, ValueView};

verus! {

/// The object of a triple: an IRI, or a literal.
#[derive(Debug, Clone)]
pub enum Obj {
    Iri(String),
    Lit(Value),
}

/// The content of an [`Obj`].
pub ghost enum ObjView {
    Iri(Seq<char>),
    Lit(ValueView),
}

impl View for Obj {
    type V = ObjView;

    open spec fn view(&self) -> ObjView {
        match self {
            Obj::Iri(s) => ObjView::Iri(s@),
            Obj::Lit(v) => ObjView::Lit(v@),
        }
    }
}

impl Obj {
    /// Whether two objects hold the same content.
    pub fn same(&self, other: &Obj) -> (r: bool)
        ensures
            r == (self@ == other@),
    {
        match (self, other) {
            (Obj::Iri(a), Obj::Iri(b)) => *a == *b,
            (Obj::Lit(a), Obj::Lit(b)) => a.same(b),
            _ => false,
        }
    }

    /// A copy with the same content.
    pub fn copy(&self) -> (r: Obj)
        ensures
            r@ == self@,
    {
        match self {
            Obj::Iri(s) => Obj::Iri(s.clone()),
            Obj::Lit(v) => Obj::Lit(v.copy()),
        }
    }
}

/// A fact at the level of IRIs.
#[derive(Debug, Clone)]
pub struct Triple {
    pub subject: String,
    pub predicate: String,
    pub object: Obj,
}

/// The content of a [`Triple`]: `(subject, predicate, object)`.
pub type TripleView = (Seq<char>, Seq<char>, ObjView);

impl View for Triple {
    type V = TripleView;

    open spec fn view(&self) -> TripleView {
        (self.subject@, self.predicate@, self.object@)
    }
}

impl Triple {
    /// Whether two triples hold the same content.
    pub fn same(&self, other: &Triple) -> (r: bool)
        ensures
            r == (self@ == other@),
    {
        self.subject == other.subject && self.predicate == other.predicate && self.object.same(&other.object)
    }

    /// A copy with the same content.
    pub fn copy(&self) -> (r: Triple)
        ensures
            r@ == self@,
    {
        Triple { subject: self.subject.clone(), predicate: self.predicate.clone(), object: self.object.copy() }
    }
}

/// The contents of a list of triples.
pub open spec fn triples_view(v: Seq<Triple>) -> Seq<TripleView> {
    v.map_values(|t: Triple| t@)
}

/// The object a fact value denotes in `s`.
pub open spec fn obj_of(s: &Store, v: ValueView) -> ObjView {
    match v {
        ValueView::Ref(t) => ObjView::Iri(s.term(t)),
        _ => ObjView::Lit(v),
    }
}

/// The triple a fact denotes in `s`.
pub open spec fn triple_of(s: &Store, f: FactView) -> TripleView {
    (s.term(f.entity), s.term(f.attribute), obj_of(s, f.value))
}

/// The graphs whose facts are premises: ROOT and its inferred companion.
pub open spec fn premise_graphs() -> Seq<i64> {
    seq![ROOT_GRAPH, INFERRED_GRAPH]
}

/// The live premise facts of `s`, in log order.
pub open spec fn premise_facts(s: &Store) -> Seq<FactView> {
    select(s.rows(), premise_graphs(), None)
}

/// The triples the premise facts denote.
pub open spec fn triples_of(s: &Store, fs: Seq<FactView>) -> Seq<TripleView> {
    fs.map_values(|f: FactView| triple_of(s, f))
}

/// The premises of `s`, as triples, in log order.
pub open spec fn premises(s: &Store) -> Seq<TripleView> {
    triples_of(s, premise_facts(s))
}

/// The live facts of graph `g` in `s`, as triples, in log order.
pub open spec fn graph_triples(s: &Store, g: i64) -> Seq<TripleView> {
    triples_of(s, select(s.rows(), seq![g], None))
}

/// The IRI of an interned term.
pub fn term_iri(store: &Store, id: i64) -> (r: String)
    requires
        store.wf(),
        store.has_term(id),
    ensures
        r@ == store.term(id),
{
    match store.resolve(id) {
        Ok(s) => s,
        Err(_) => {
            assert(false);
            String::new()
        },
    }
}

/// The premises of `store`, as triples.
pub fn read_premises(store: &Store) -> (out: Vec<Triple>)
    requires
        store.wf(),
    ensures
        triples_view(out@) == premises(store),
{
    let graphs: Vec<i64> = vec![ROOT_GRAPH, INFERRED_GRAPH];
    proof {
        assert(graphs@ =~= premise_graphs());
        store.lemma_selected_known(premise_graphs(), None);
    }
    let facts = store.current_facts_in_graphs(graphs.as_slice());
    let ghost fv = facts_view(facts@);
    let mut out: Vec<Triple> = Vec::new();
    let mut i: usize = 0;
    while i < facts.len()
        invariant
            store.wf(),
            i <= facts@.len(),
            fv == facts_view(facts@),
            fv == premise_facts(store),
            forall|k: int| 0 <= k < fv.len() ==> fact_known(#[trigger] fv[k], store.terms().len() as int),
            triples_view(out@) == triples_of(store, fv).take(i as int),
        decreases facts.len() - i,
    {
        let f = &facts[i];
        proof {
            assert(fv[i as int] == f@);
            assert(fact_known(fv[i as int], store.terms().len() as int));
        }
        let subject = term_iri(store, f.entity);
        let predicate = term_iri(store, f.attribute);
        let object = match &f.value {
            Value::Ref(t) => Obj::Iri(term_iri(store, *t)),
            other => Obj::Lit(other.copy()),
        };
        let t = Triple { subject, predicate, object };
        proof {
            assert(t@ == triple_of(store, fv[i as int]));
        }
        let ghost before = out@;
        out.push(t);
        proof {
            assert(triples_view(out@) =~= triples_view(before).push(triple_of(store, fv[i as int])));
            assert(triples_of(store, fv).take(i + 1) =~= triples_of(store, fv).take(i as int).push(
                triple_of(store, fv[i as int]),
            ));
        }
        i = i + 1;
    }
    proof {
        assert(triples_of(store, fv).take(fv.len() as int) =~= triples_of(store, fv));
    }
    out
}

/// The live facts of graph `g`, as triples.
pub fn read_graph(store: &Store, g: i64) -> (out: Vec<Triple>)
    requires
        store.wf(),
    ensures
        triples_view(out@) == graph_triples(store, g),
{
    proof {
        store.lemma_selected_known(seq![g], None);
    }
    let facts = store.current_facts_in_graph(g);
    let ghost fv = facts_view(facts@);
    let mut out: Vec<Triple> = Vec::new();
    let mut i: usize = 0;
    while i < facts.len()
        invariant
            store.wf(),
            i <= facts@.len(),
            fv == facts_view(facts@),
            fv == select(store.rows(), seq![g], None),
            forall|k: int| 0 <= k < fv.len() ==> fact_known(#[trigger] fv[k], store.terms().len() as int),
            triples_view(out@) == triples_of(store, fv).take(i as int),
        decreases facts.len() - i,
    {
        let f = &facts[i];
        proof {
            assert(fv[i as int] == f@);
            assert(fact_known(fv[i as int], store.terms().len() as int));
        }
        let subject = term_iri(store, f.entity);
        let predicate = term_iri(store, f.attribute);
        let object = match &f.value {
            Value::Ref(t) => Obj::Iri(term_iri(store, *t)),
            other => Obj::Lit(other.copy()),
        };
        let t = Triple { subject, predicate, object };
        proof {
            assert(t@ == triple_of(store, fv[i as int]));
        }
        let ghost before = out@;
        out.push(t);
        proof {
            assert(triples_view(out@) =~= triples_view(before).push(triple_of(store, fv[i as int])));
            assert(triples_of(store, fv).take(i + 1) =~= triples_of(store, fv).take(i as int).push(
                triple_of(store, fv[i as int]),
            ));
        }
        i = i + 1;
    }
    proof {
        assert(triples_of(store, fv).take(fv.len() as int) =~= triples_of(store, fv));
    }
    out
}

/// Whether `t` is one of `v`.
pub fn contains_triple(v: &Vec<Triple>, t: &Triple) -> (r: bool)
    ensures
        r == triples_view(v@).contains(t@),
{
    let mut i: usize = 0;
    while i < v.len()
        invariant
            i <= v@.len(),
            forall|k: int| 0 <= k < i ==> v@[k]@ != t@,
        decreases v.len() - i,
    {
        if v[i].same(t) {
            proof {
                assert(triples_view(v@)[i as int] == t@);
            }
            return true;
        }
        i = i + 1;
    }
    proof {
        if triples_view(v@).contains(t@) {
            let k = choose|k: int| 0 <= k < triples_view(v@).len() && triples_view(v@)[k] == t@;
            assert(v@[k]@ == t@);
        }
    }
    false
}

} // verus!
