//! Reactive OWL materialization: keep entailments live as facts change.
//!
//! [`ReactiveOwl`] re-runs materialization when a committed delta touches
//! vocabulary the loaded ontologies mention. Re-materialization is safe to
//! repeat: a pass stages only facts not already present, so a delta that
//! changes nothing produces no write. Its own output (source
//! `owl:materialize`) never triggers it again.

use vstd::prelude::*;

use crate::namespace::RDF_TYPE;
use crate::store::{datums_view, Datum, DatumView, Fact, Store};
use crate::text::str_eq;
use crate::value::{Error, Value, ValueView};

use super::materialize::{lemma_extend_refl, rematerialized, MATERIALIZE_SOURCE};
use crate::owl_snapshot::{MIGRATE_SOURCE, PLANE_SOURCE};
use super::{combined_axioms, stated_terms, has_name, names_view, ontologies_readable, pairs_view, AxView, Axioms, Ontology};

verus! {

/// A committed write, as an observer sees it.
#[derive(Debug, Clone)]
pub struct Delta {
    /// The transaction's source label.
    pub source: Option<String>,
    /// The datums it asserted.
    pub asserts: Vec<Datum>,
    /// The datums it retracted.
    pub retracts: Vec<Datum>,
}

/// Observer that re-materializes the loaded ontologies on relevant deltas.
pub struct ReactiveOwl;

/// Some pair of `v` names `x` on either side.
pub open spec fn pair_mentions(v: Seq<(Seq<char>, Seq<char>)>, x: Seq<char>) -> bool {
    exists|k: int| 0 <= k < v.len() && ((#[trigger] v[k]).0 == x || v[k].1 == x)
}

/// Some pair of `v` names `x` on its left.
pub open spec fn pair_left(v: Seq<(Seq<char>, Seq<char>)>, x: Seq<char>) -> bool {
    exists|k: int| 0 <= k < v.len() && (#[trigger] v[k]).0 == x
}

/// Some pair of `v` names `x` on its right.
pub open spec fn pair_right(v: Seq<(Seq<char>, Seq<char>)>, x: Seq<char>) -> bool {
    exists|k: int| 0 <= k < v.len() && (#[trigger] v[k]).1 == x
}

/// The axioms mention `x` as a property.
pub open spec fn mentions_property(ax: AxView, x: Seq<char>) -> bool {
    ||| pair_mentions(ax.subproperty_of, x)
    ||| pair_mentions(ax.inverse_of, x)
    ||| pair_mentions(ax.equivalent_properties, x)
    ||| ax.symmetric_properties.contains(x)
    ||| ax.transitive_properties.contains(x)
    ||| pair_left(ax.domains, x)
    ||| pair_left(ax.ranges, x)
}

/// The axioms mention `x` as a class.
pub open spec fn mentions_class(ax: AxView, x: Seq<char>) -> bool {
    ||| pair_right(ax.domains, x)
    ||| pair_right(ax.ranges, x)
    ||| pair_mentions(ax.subclass_of, x)
    ||| pair_mentions(ax.equivalent_classes, x)
}

/// A datum touches the axioms' vocabulary: its attribute is a mentioned
/// property, or it types something with a mentioned class.
pub open spec fn touches(ax: AxView, s: &Store, d: DatumView) -> bool {
    ||| s.has_term(d.attribute) && mentions_property(ax, s.term(d.attribute))
    ||| s.id_of(RDF_TYPE@) == Some(d.attribute) && d.value is Ref && s.has_term(d.value->Ref_0) && mentions_class(
        ax,
        s.term(d.value->Ref_0),
    )
}

/// Some asserted or retracted datum of the delta touches the vocabulary.
pub open spec fn delta_relevant(ax: AxView, s: &Store, asserts: Seq<DatumView>, retracts: Seq<DatumView>) -> bool {
    exists|d: DatumView| (asserts.contains(d) || retracts.contains(d)) && #[trigger] touches(ax, s, d)
}

fn add_pairs(out: &mut Vec<String>, v: &Vec<(String, String)>, left: bool, right: bool)
    ensures
        forall|x: Seq<char>|
            #[trigger] names_view(final(out)@).contains(x) <==> (names_view(old(out)@).contains(x) || (left && pair_left(
                pairs_view(v@),
                x,
            )) || (right && pair_right(pairs_view(v@), x))),
{
    let ghost pv = pairs_view(v@);
    let ghost start = names_view(out@);
    let mut i: usize = 0;
    while i < v.len()
        invariant
            i <= v@.len(),
            pv == pairs_view(v@),
            forall|x: Seq<char>|
                #[trigger] names_view(out@).contains(x) <==> (start.contains(x) || (left && exists|k: int|
                    0 <= k < i && (#[trigger] pv[k]).0 == x) || (right && exists|k: int| 0 <= k < i && (#[trigger] pv[k]).1 == x)),
        decreases v.len() - i,
    {
        let ghost before = names_view(out@);
        proof {
            assert(pv[i as int] == (v@[i as int].0@, v@[i as int].1@));
        }
        if left {
            out.push(v[i].0.clone());
        }
        let ghost mid = names_view(out@);
        if right {
            out.push(v[i].1.clone());
        }
        proof {
            let now = names_view(out@);
            assert(left ==> mid =~= before.push(pv[i as int].0));
            assert(!left ==> mid =~= before);
            assert(right ==> now =~= mid.push(pv[i as int].1));
            assert(!right ==> now =~= mid);
            assert forall|x: Seq<char>| #[trigger] now.contains(x) <==> (start.contains(x) || (left && exists|k: int|
                0 <= k < i + 1 && (#[trigger] pv[k]).0 == x) || (right && exists|k: int| 0 <= k < i + 1 && (#[trigger] pv[k]).1 == x)) by {
                assert(before.contains(x) <==> (start.contains(x) || (left && exists|k: int|
                    0 <= k < i && (#[trigger] pv[k]).0 == x) || (right && exists|k: int| 0 <= k < i && (#[trigger] pv[k]).1 == x)));
                if before.contains(x) {
                    let j = choose|j: int| 0 <= j < before.len() && before[j] == x;
                    assert(mid[j] == x);
                    assert(now[j] == x);
                }
                if mid.contains(x) {
                    let j = choose|j: int| 0 <= j < mid.len() && mid[j] == x;
                    assert(now[j] == x);
                }
                if left && pv[i as int].0 == x {
                    assert(mid[mid.len() - 1] == x);
                    assert(mid.contains(x));
                }
                if right && pv[i as int].1 == x {
                    assert(now[now.len() - 1] == x);
                }
                if now.contains(x) && !before.contains(x) {
                    let j = choose|j: int| 0 <= j < now.len() && now[j] == x;
                    if j < mid.len() {
                        assert(mid[j] == x);
                        if j >= before.len() {
                            assert(left && pv[i as int].0 == x);
                        }
                    } else {
                        assert(right && pv[i as int].1 == x);
                    }
                }
            }
        }
        i = i + 1;
    }
}

fn add_names(out: &mut Vec<String>, v: &Vec<String>)
    ensures
        forall|x: Seq<char>|
            #[trigger] names_view(final(out)@).contains(x) <==> (names_view(old(out)@).contains(x) || names_view(v@).contains(x)),
{
    let ghost start = names_view(out@);
    let mut i: usize = 0;
    while i < v.len()
        invariant
            i <= v@.len(),
            names_view(out@) == start + names_view(v@).take(i as int),
        decreases v.len() - i,
    {
        let ghost before = names_view(out@);
        let item = v[i].clone();
        out.push(item);
        proof {
            assert(names_view(out@) =~= before.push(item@));
            assert(names_view(v@).take(i + 1) =~= names_view(v@).take(i as int).push(v@[i as int]@));
            assert(names_view(out@) =~= start + names_view(v@).take(i + 1));
        }
        i = i + 1;
    }
    proof {
        assert(names_view(v@).take(v@.len() as int) =~= names_view(v@));
        assert forall|x: Seq<char>| #[trigger] names_view(out@).contains(x) <==> (start.contains(x) || names_view(v@).contains(x)) by {
            let now = names_view(out@);
            if now.contains(x) {
                let j = choose|j: int| 0 <= j < now.len() && now[j] == x;
                if j >= start.len() {
                    assert(names_view(v@)[j - start.len()] == x);
                }
            }
            if start.contains(x) {
                let j = choose|j: int| 0 <= j < start.len() && start[j] == x;
                assert(now[j] == x);
            }
            if names_view(v@).contains(x) {
                let j = choose|j: int| 0 <= j < names_view(v@).len() && names_view(v@)[j] == x;
                assert(now[start.len() + j] == x);
            }
        }
    }
}

/// The property and class IRIs the axioms mention: the relevance test.
pub fn vocab_of(axioms: &Axioms) -> (r: (Vec<String>, Vec<String>))
    ensures
        forall|x: Seq<char>| #[trigger] names_view(r.0@).contains(x) <==> mentions_property(axioms@, x),
        forall|x: Seq<char>| #[trigger] names_view(r.1@).contains(x) <==> mentions_class(axioms@, x),
{
    let mut properties: Vec<String> = Vec::new();
    let mut classes: Vec<String> = Vec::new();
    add_pairs(&mut properties, &axioms.subproperty_of, true, true);
    add_pairs(&mut properties, &axioms.inverse_of, true, true);
    add_pairs(&mut properties, &axioms.equivalent_properties, true, true);
    add_names(&mut properties, &axioms.symmetric_properties);
    add_names(&mut properties, &axioms.transitive_properties);
    add_pairs(&mut properties, &axioms.domains, true, false);
    add_pairs(&mut properties, &axioms.ranges, true, false);
    add_pairs(&mut classes, &axioms.domains, false, true);
    add_pairs(&mut classes, &axioms.ranges, false, true);
    add_pairs(&mut classes, &axioms.subclass_of, true, true);
    add_pairs(&mut classes, &axioms.equivalent_classes, true, true);
    proof {
        assert forall|x: Seq<char>| #[trigger] names_view(properties@).contains(x) <==> mentions_property(axioms@, x) by {
            let ax = axioms@;
            assert(pair_mentions(ax.subproperty_of, x) <==> (pair_left(ax.subproperty_of, x) || pair_right(ax.subproperty_of, x)));
            assert(pair_mentions(ax.inverse_of, x) <==> (pair_left(ax.inverse_of, x) || pair_right(ax.inverse_of, x)));
            assert(pair_mentions(ax.equivalent_properties, x) <==> (pair_left(ax.equivalent_properties, x) || pair_right(
                ax.equivalent_properties,
                x,
            )));
        }
        assert forall|x: Seq<char>| #[trigger] names_view(classes@).contains(x) <==> mentions_class(axioms@, x) by {
            let ax = axioms@;
            assert(pair_mentions(ax.subclass_of, x) <==> (pair_left(ax.subclass_of, x) || pair_right(ax.subclass_of, x)));
            assert(pair_mentions(ax.equivalent_classes, x) <==> (pair_left(ax.equivalent_classes, x) || pair_right(
                ax.equivalent_classes,
                x,
            )));
        }
    }
    (properties, classes)
}

/// Whether one datum touches the vocabulary.
fn datum_touches(store: &Store, d: &Datum, properties: &Vec<String>, classes: &Vec<String>, rdf_type: Option<i64>, Ghost(ax): Ghost<AxView>) -> (r: bool)
    requires
        store.wf(),
        rdf_type == store.id_of(RDF_TYPE@),
        forall|x: Seq<char>| #[trigger] names_view(properties@).contains(x) <==> mentions_property(ax, x),
        forall|x: Seq<char>| #[trigger] names_view(classes@).contains(x) <==> mentions_class(ax, x),
    ensures
        r == touches(ax, store, d@),
{
    if let Ok(attr_iri) = store.resolve(d.attribute) {
        if has_name(properties, &attr_iri) {
            return true;
        }
    }
    if rdf_type == Some(d.attribute) {
        if let Value::Ref(class_id) = &d.value {
            if let Ok(class_iri) = store.resolve(*class_id) {
                if has_name(classes, &class_iri) {
                    return true;
                }
            }
        }
    }
    false
}

/// Whether a delta touches the vocabulary the axioms mention.
pub fn is_relevant(axioms: &Axioms, store: &Store, delta: &Delta) -> (r: bool)
    requires
        store.wf(),
    ensures
        r == delta_relevant(axioms@, store, datums_view(delta.asserts@), datums_view(delta.retracts@)),
{
    let (properties, classes) = vocab_of(axioms);
    let rdf_type = store.lookup(RDF_TYPE);
    let ghost av = datums_view(delta.asserts@);
    let ghost rv = datums_view(delta.retracts@);
    let mut i: usize = 0;
    while i < delta.asserts.len()
        invariant
            store.wf(),
            i <= delta.asserts@.len(),
            av == datums_view(delta.asserts@),
            rdf_type == store.id_of(RDF_TYPE@),
            forall|x: Seq<char>| #[trigger] names_view(properties@).contains(x) <==> mentions_property(axioms@, x),
            forall|x: Seq<char>| #[trigger] names_view(classes@).contains(x) <==> mentions_class(axioms@, x),
            forall|k: int| 0 <= k < i ==> !touches(axioms@, store, #[trigger] av[k]),
        decreases delta.asserts.len() - i,
    {
        if datum_touches(store, &delta.asserts[i], &properties, &classes, rdf_type, Ghost(axioms@)) {
            proof {
                assert(av[i as int] == delta.asserts@[i as int]@);
                assert(av.contains(av[i as int]));
            }
            return true;
        }
        proof {
            assert(av[i as int] == delta.asserts@[i as int]@);
        }
        i = i + 1;
    }
    let mut j: usize = 0;
    while j < delta.retracts.len()
        invariant
            store.wf(),
            j <= delta.retracts@.len(),
            rv == datums_view(delta.retracts@),
            av == datums_view(delta.asserts@),
            rdf_type == store.id_of(RDF_TYPE@),
            forall|x: Seq<char>| #[trigger] names_view(properties@).contains(x) <==> mentions_property(axioms@, x),
            forall|x: Seq<char>| #[trigger] names_view(classes@).contains(x) <==> mentions_class(axioms@, x),
            forall|k: int| 0 <= k < av.len() ==> !touches(axioms@, store, #[trigger] av[k]),
            forall|k: int| 0 <= k < j ==> !touches(axioms@, store, #[trigger] rv[k]),
        decreases delta.retracts.len() - j,
    {
        if datum_touches(store, &delta.retracts[j], &properties, &classes, rdf_type, Ghost(axioms@)) {
            proof {
                assert(rv[j as int] == delta.retracts@[j as int]@);
                assert(rv.contains(rv[j as int]));
            }
            return true;
        }
        proof {
            assert(rv[j as int] == delta.retracts@[j as int]@);
        }
        j = j + 1;
    }
    proof {
        assert forall|d: DatumView| (av.contains(d) || rv.contains(d)) implies !#[trigger] touches(axioms@, store, d) by {
            if av.contains(d) {
                let k = choose|k: int| 0 <= k < av.len() && av[k] == d;
            } else {
                let k = choose|k: int| 0 <= k < rv.len() && rv[k] == d;
            }
        }
    }
    false
}

/// The delta is the reasoner's own output: its derivations, the freshness
/// note it publishes, or the inferred plane's migration.
pub open spec fn own_output(source: Option<String>) -> bool {
    source matches Some(s) && (s@ == MATERIALIZE_SOURCE@ || s@ == PLANE_SOURCE@ || s@ == MIGRATE_SOURCE@)
}

/// `fin` is `old` after reacting, under axioms `ax`, to a write labelled
/// `source` that asserted `asserts` and retracted `retracts` (`ok` when the
/// reaction succeeded): the reasoner's own output, a write that asserted
/// nothing and a write outside the ontology's vocabulary change nothing;
/// any other write is re-materialized from its asserted facts.
pub open spec fn reacted(
    ax: AxView,
    old: &Store,
    fin: &Store,
    source: Option<String>,
    asserts: Seq<DatumView>,
    retracts: Seq<DatumView>,
    ok: bool,
) -> bool {
    if own_output(source) || asserts.len() == 0 || !delta_relevant(ax, old, asserts, retracts) {
        *fin == *old && ok
    } else {
        rematerialized(ax, old, fin, ok)
    }
}

/// The facts `ds` asserted, as re-materialization seeds.
fn seed_of(ds: &Vec<Datum>) -> (r: Vec<Fact>)
    ensures
        r@.len() == ds@.len(),
{
    let mut out: Vec<Fact> = Vec::new();
    let mut i: usize = 0;
    while i < ds.len()
        invariant
            i <= ds@.len(),
            out@.len() == i,
        decreases ds.len() - i,
    {
        out.push(Fact {
            entity: ds[i].entity,
            attribute: ds[i].attribute,
            value: ds[i].value.copy(),
            tx: 0,
            valid_from: ds[i].valid_from.clone(),
        });
        i = i + 1;
    }
    out
}

impl ReactiveOwl {
    /// React to a committed `delta` under `ontology`: re-materialize from
    /// its asserted facts when it touches the ontology's vocabulary, and do
    /// nothing for the reasoner's own output, for a write that asserted
    /// nothing, or for unrelated vocabulary.
    pub fn react(&self, ontology: &Ontology, store: &mut Store, delta: &Delta, timestamp: &str) -> (r: Result<(), Error>)
        requires
            old(store).wf(),
        ensures
            final(store).wf(),
            final(store).terms_extend(old(store)),
            final(store).identity() == old(store).identity(),
            final(store).ontology_entries() == old(store).ontology_entries(),
            reacted(
                ontology.axioms@,
                old(store),
                final(store),
                delta.source,
                datums_view(delta.asserts@),
                datums_view(delta.retracts@),
                r is Ok,
            ),
            r is Err ==> final(store).terms().len() >= crate::store::MAX_TERMS || final(store).head()
                >= crate::store::MAX_TX,
    {
        proof {
            lemma_extend_refl(store);
        }
        if let Some(src) = &delta.source {
            if str_eq(src.as_str(), MATERIALIZE_SOURCE) || str_eq(src.as_str(), PLANE_SOURCE) || str_eq(
                src.as_str(),
                MIGRATE_SOURCE,
            ) {
                return Ok(());
            }
        }
        if delta.asserts.len() == 0 {
            return Ok(());
        }
        if !is_relevant(&ontology.axioms, store, delta) {
            return Ok(());
        }
        let seed = seed_of(&delta.asserts);
        match ontology.materialize_delta(store, timestamp, seed.as_slice()) {
            Ok(_) => Ok(()),
            Err(e) => Err(e),
        }
    }

    /// React to a committed `delta` under the ontologies registered in
    /// `store` (combined); with none registered, do nothing.
    pub fn after_commit(&self, store: &mut Store, delta: &Delta, timestamp: &str) -> (r: Result<(), Error>)
        requires
            old(store).wf(),
        ensures
            final(store).wf(),
            final(store).terms_extend(old(store)),
            final(store).identity() == old(store).identity(),
            final(store).ontology_entries() == old(store).ontology_entries(),
            old(store).ontology_entries().len() == 0 ==> *final(store) == *old(store) && r is Ok,
            old(store).ontology_entries().len() > 0 && !ontologies_readable(old(store).ontology_entries()) ==> (r is Err
                && *final(store) == *old(store)),
            combined_axioms(old(store).ontology_entries()) matches Some(ax) ==> reacted(
                ax,
                old(store),
                final(store),
                delta.source,
                datums_view(delta.asserts@),
                datums_view(delta.retracts@),
                r is Ok,
            ),
            old(store).ontology_entries().len() > 0 && ontologies_readable(old(store).ontology_entries()) ==> exists|
                ax: AxView,
            |
                #[trigger] reacted(
                    ax,
                    old(store),
                    final(store),
                    delta.source,
                    datums_view(delta.asserts@),
                    datums_view(delta.retracts@),
                    r is Ok,
                ),
            r is Err && ontologies_readable(old(store).ontology_entries()) ==> final(store).terms().len()
                >= crate::store::MAX_TERMS || final(store).head() >= crate::store::MAX_TX,
    {
        proof {
            lemma_extend_refl(store);
        }
        let ontology = match store.get_combined_ontologies() {
            Ok(Some(o)) => o,
            Ok(None) => return Ok(()),
            Err(e) => {
                proof {
                    if stated_terms(store.ontology_entries()) is Some {
                        super::lemma_stated_are_readable(store.ontology_entries());
                    }
                }
                return Err(e);
            },
        };
        let ghost s0 = *store;
        let r = self.react(&ontology, store, delta, timestamp);
        proof {
            assert(reacted(
                ontology.axioms@,
                &s0,
                store,
                delta.source,
                datums_view(delta.asserts@),
                datums_view(delta.retracts@),
                r is Ok,
            ));
        }
        r
    }
}

} // verus!
