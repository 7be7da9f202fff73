//! OWL 2 RL materialization, to fixpoint.
//!
//! Passes repeat until one derives nothing new, so axiom families compose: a
//! type introduced by `rdfs:range` feeds the sub-class closure of the next
//! pass. Premises are the ROOT graph and its inferred companion; every
//! entailment is written to the companion. Every pass only adds facts, so the
//! loop is monotone; it is also bounded, and running out of passes is
//! reported, never silent.

use vstd::prelude::*;

use crate::store::{
    asserted_row, apply_all, apply_datum, datum_known, datums_view, fact_known, select, selects, Datum, DatumView,
    Fact, FactView, Op, RowView, Store, INFERRED_GRAPH, MAX_TERMS, MAX_TX, ROOT_GRAPH,
};
use crate::value::{Error, Value, ValueView};

use super::rules::{derive_pass, derives, entails, lemma_pass_complete, pass_ok, Family};
use super::triple::{
    graph_triples, obj_of, premise_facts, premise_graphs, premises, read_premises, triple_of, triples_of, triples_view, Obj, ObjView,
    Triple, TripleView,
};
use super::{AxView, MaterializeReport, Ontology};

verus! {

/// The most derivation passes one materialization runs.
pub const MAX_PASSES: usize = 64;

/// The source label of materialized transactions.
pub const MATERIALIZE_SOURCE: &'static str = "owl:materialize";

/// Every fact past position `from` of `ps` is entailed by the facts before it
/// and is not one of them.
pub open spec fn derived_after(ax: AxView, ps: Seq<TripleView>, from: int) -> bool {
    forall|i: int|
        from <= i < ps.len() ==> entails(ax, ps.take(i).to_set(), #[trigger] ps[i]) && !ps.take(i).contains(ps[i])
}

/// `ps` is closed under the rule families.
pub open spec fn closed(ax: AxView, ps: Seq<TripleView>) -> bool {
    forall|g: TripleView| #[trigger] entails(ax, ps.to_set(), g) ==> ps.contains(g)
}

/// The sum of the per-family counters.
pub open spec fn family_total(r: MaterializeReport) -> int {
    r.subclass_inferences + r.sub_property_inferences + r.inverse_inferences + r.symmetric_inferences
        + r.transitive_inferences + r.equivalent_class_inferences + r.equivalent_property_inferences
        + r.same_as_inferences + r.domain_range_inferences
}

/// The first family, in pass order, that derives `g` from `s` (the last
/// family when none does).
pub open spec fn first_family(ax: AxView, s: Set<TripleView>, g: TripleView) -> Family {
    if derives(Family::Subclass, ax, s, g) {
        Family::Subclass
    } else if derives(Family::SubProperty, ax, s, g) {
        Family::SubProperty
    } else if derives(Family::EquivalentClass, ax, s, g) {
        Family::EquivalentClass
    } else if derives(Family::Inverse, ax, s, g) {
        Family::Inverse
    } else if derives(Family::Symmetric, ax, s, g) {
        Family::Symmetric
    } else if derives(Family::Transitive, ax, s, g) {
        Family::Transitive
    } else if derives(Family::EquivalentProperty, ax, s, g) {
        Family::EquivalentProperty
    } else if derives(Family::SameAs, ax, s, g) {
        Family::SameAs
    } else {
        Family::DomainRange
    }
}

/// The triples a pass over the premises `s` newly derives, first by
/// family `f`.
pub open spec fn fresh_by(ax: AxView, s: Set<TripleView>, f: Family) -> Set<TripleView> {
    Set::new(|g: TripleView| entails(ax, s, g) && !s.contains(g) && first_family(ax, s, g) == f)
}

/// The premises after `k` productive passes from the premises `s`: each
/// pass adds everything the premises entail.
pub open spec fn after_passes(ax: AxView, s: Set<TripleView>, k: nat) -> Set<TripleView>
    decreases k,
{
    if k == 0 {
        s
    } else {
        let prev = after_passes(ax, s, (k - 1) as nat);
        prev.union(Set::new(|g: TripleView| entails(ax, prev, g)))
    }
}

/// How many facts `k` productive passes from the premises `s` derive first
/// by family `f`.
pub open spec fn attributed(ax: AxView, s: Set<TripleView>, k: nat, f: Family) -> int
    decreases k,
{
    if k == 0 {
        0
    } else {
        attributed(ax, s, (k - 1) as nat, f) + fresh_by(ax, after_passes(ax, s, (k - 1) as nat), f).len()
    }
}

/// The passes of a run that derived something: all of them when the budget
/// ran out, else all but the last.
pub open spec fn productive_passes(r: MaterializeReport) -> nat {
    if r.pass_budget_exhausted {
        r.passes as nat
    } else {
        (r.passes - 1) as nat
    }
}

/// The counter a report keeps for family `f`.
pub open spec fn family_count(r: MaterializeReport, f: Family) -> int {
    match f {
        Family::Subclass => r.subclass_inferences as int,
        Family::SubProperty => r.sub_property_inferences as int,
        Family::EquivalentClass => r.equivalent_class_inferences as int,
        Family::Inverse => r.inverse_inferences as int,
        Family::Symmetric => r.symmetric_inferences as int,
        Family::Transitive => r.transitive_inferences as int,
        Family::EquivalentProperty => r.equivalent_property_inferences as int,
        Family::SameAs => r.same_as_inferences as int,
        Family::DomainRange => r.domain_range_inferences as int,
    }
}

/// The staged triples of `out` tagged `f`.
pub open spec fn tagged(out: Seq<TripleView>, tags: Seq<Family>, f: Family) -> Set<TripleView> {
    Set::new(|g: TripleView| exists|i: int| 0 <= i < out.len() && out[i] == g && tags[i] == f)
}

proof fn lemma_tagged_len(out: Seq<TripleView>, tags: Seq<Family>, f: Family)
    requires
        out.no_duplicates(),
        out.len() == tags.len(),
    ensures
        tagged(out, tags, f).finite(),
        tagged(out, tags, f).len() == tally(tags, f),
    decreases out.len(),
{
    if out.len() == 0 {
        assert(tagged(out, tags, f) =~= Set::<TripleView>::empty());
    } else {
        let n = out.len() - 1;
        let dl = out.drop_last();
        let tl = tags.drop_last();
        lemma_tagged_len(dl, tl, f);
        assert(!tagged(dl, tl, f).contains(out[n])) by {
            if tagged(dl, tl, f).contains(out[n]) {
                let i = choose|i: int| 0 <= i < dl.len() && dl[i] == out[n] && tl[i] == f;
                assert(out[i] == out[n]);
            }
        }
        if tags[n] == f {
            assert forall|g: TripleView| #[trigger] tagged(out, tags, f).contains(g) == tagged(dl, tl, f).insert(
                out[n],
            ).contains(g) by {
                if tagged(out, tags, f).contains(g) && g != out[n] {
                    let i = choose|i: int| 0 <= i < out.len() && out[i] == g && tags[i] == f;
                    assert(dl[i] == out[i] && tl[i] == tags[i]);
                }
                if tagged(dl, tl, f).contains(g) {
                    let i = choose|i: int| 0 <= i < dl.len() && dl[i] == g && tl[i] == f;
                    assert(out[i] == dl[i] && tags[i] == tl[i]);
                }
            }
            assert(tagged(out, tags, f) =~= tagged(dl, tl, f).insert(out[n]));
        } else {
            assert forall|g: TripleView| #[trigger] tagged(out, tags, f).contains(g) == tagged(dl, tl, f).contains(g) by {
                if tagged(out, tags, f).contains(g) {
                    let i = choose|i: int| 0 <= i < out.len() && out[i] == g && tags[i] == f;
                    assert(i != n);
                    assert(dl[i] == out[i] && tl[i] == tags[i]);
                }
                if tagged(dl, tl, f).contains(g) {
                    let i = choose|i: int| 0 <= i < dl.len() && dl[i] == g && tl[i] == f;
                    assert(out[i] == dl[i] && tags[i] == tl[i]);
                }
            }
            assert(tagged(out, tags, f) =~= tagged(dl, tl, f));
        }
    }
}

/// What a complete pass stages, first by `f`, is what the premises newly
/// entail first by `f`; and the premises and the pass together are what the
/// next pass starts from.
proof fn lemma_pass_attribution(ax: AxView, ps: Seq<TripleView>, out: Seq<TripleView>, tags: Seq<Family>)
    requires
        pass_ok(ax, ps, out, tags, 9),
    ensures
        forall|f: Family| #[trigger] fresh_by(ax, ps.to_set(), f) == tagged(out, tags, f),
        (ps + out).to_set() == ps.to_set().union(Set::new(|g: TripleView| entails(ax, ps.to_set(), g))),
{
    lemma_pass_complete(ax, ps, out, tags);
    let s = ps.to_set();
    assert forall|f: Family| #[trigger] fresh_by(ax, s, f) == tagged(out, tags, f) by {
        assert forall|g: TripleView| fresh_by(ax, s, f).contains(g) == #[trigger] tagged(out, tags, f).contains(g) by {
            if fresh_by(ax, s, f).contains(g) {
                assert(super::rules::covered(ps, out, g));
                assert(!ps.contains(g));
                let i = choose|i: int| 0 <= i < out.len() && out[i] == g;
                assert(derives(tags[i], ax, s, g));
                assert(first_family(ax, s, g) == tags[i]);
            }
            if tagged(out, tags, f).contains(g) {
                let i = choose|i: int| 0 <= i < out.len() && out[i] == g && tags[i] == f;
                assert(derives(tags[i], ax, s, out[i]));
                assert(entails(ax, s, g));
                assert(!ps.contains(out[i]));
                assert(first_family(ax, s, g) == tags[i]);
            }
        }
        assert(fresh_by(ax, s, f) =~= tagged(out, tags, f));
    }
    assert forall|g: TripleView| #[trigger] (ps + out).to_set().contains(g) == s.union(
        Set::new(|g: TripleView| entails(ax, s, g)),
    ).contains(g) by {
        if (ps + out).contains(g) {
            let i = choose|i: int| 0 <= i < (ps + out).len() && (ps + out)[i] == g;
            if i >= ps.len() {
                assert(out[i - ps.len()] == g);
                assert(entails(ax, s, out[i - ps.len()]));
            } else {
                assert(ps[i] == g);
            }
        }
        if s.contains(g) {
            let i = choose|i: int| 0 <= i < ps.len() && ps[i] == g;
            assert((ps + out)[i] == g);
        } else if entails(ax, s, g) {
            assert(super::rules::covered(ps, out, g));
            let i = choose|i: int| 0 <= i < out.len() && out[i] == g;
            assert((ps + out)[ps.len() + i] == g);
        }
    }
    assert((ps + out).to_set() =~= s.union(Set::new(|g: TripleView| entails(ax, s, g))));
}

/// Asserting datums appends one row each.
proof fn lemma_asserts_append(rows: Seq<RowView>, ds: Seq<DatumView>, tx: i64, g: i64)
    requires
        forall|i: int| 0 <= i < ds.len() ==> (#[trigger] ds[i]).op == Op::Assert,
    ensures
        apply_all(rows, ds, tx, g).len() == rows.len() + ds.len(),
    decreases ds.len(),
{
    if ds.len() > 0 {
        assert forall|i: int| 0 <= i < ds.drop_last().len() implies (#[trigger] ds.drop_last()[i]).op == Op::Assert by {
            assert(ds.drop_last()[i] == ds[i]);
        }
        lemma_asserts_append(rows, ds.drop_last(), tx, g);
        assert(ds.last() == ds[ds.len() - 1]);
    }
}

/// `fin` is `old` re-materialized under `ax` (`ok` when it succeeded): the
/// premises only grow, by facts entailed in order; ROOT and every graph but
/// the inferred companion keep their facts; every transaction written is
/// labelled `owl:materialize`; a closed store is always re-materialized; and
/// a success reaches the premises after some passes, closed unless the pass
/// budget ran out.
pub open spec fn rematerialized(ax: AxView, old: &Store, fin: &Store, ok: bool) -> bool {
    &&& premises(old).is_prefix_of(premises(fin))
    &&& derived_after(ax, premises(fin), premises(old).len() as int)
    &&& fin.root_facts() == old.root_facts()
    &&& forall|h: i64| h != ROOT_GRAPH && h != INFERRED_GRAPH ==> #[trigger] graph_triples(fin, h) == graph_triples(old, h)
    &&& old.sources().is_prefix_of(fin.sources())
    &&& forall|i: int| old.head() <= i < fin.head() ==> #[trigger] fin.sources()[i] == Some(MATERIALIZE_SOURCE@)
    &&& closed(ax, premises(old)) ==> ok
    &&& ok ==> exists|k: nat|
        k <= MAX_PASSES && premises(fin).to_set() == #[trigger] after_passes(ax, premises(old).to_set(), k) && (closed(
            ax,
            premises(fin),
        ) || fin.head() == old.head() + MAX_PASSES)
}

/// A literal object never hides a term reference.
pub open spec fn obj_ok(o: ObjView) -> bool {
    o matches ObjView::Lit(v) ==> !(v is Ref)
}

/// How many of `tags` are `f`.
pub open spec fn tally(tags: Seq<Family>, f: Family) -> nat
    decreases tags.len(),
{
    if tags.len() == 0 {
        0
    } else {
        tally(tags.drop_last(), f) + if tags.last() == f {
            1nat
        } else {
            0nat
        }
    }
}

proof fn lemma_tally_sum(tags: Seq<Family>)
    ensures
        tally(tags, Family::Subclass) + tally(tags, Family::SubProperty) + tally(tags, Family::EquivalentClass) + tally(
            tags,
            Family::Inverse,
        ) + tally(tags, Family::Symmetric) + tally(tags, Family::Transitive) + tally(tags, Family::EquivalentProperty)
            + tally(tags, Family::SameAs) + tally(tags, Family::DomainRange) == tags.len(),
    decreases tags.len(),
{
    if tags.len() > 0 {
        lemma_tally_sum(tags.drop_last());
    }
}

/// How many of `tags` are `f`.
fn count_family(tags: &Vec<Family>, f: Family) -> (n: usize)
    ensures
        n == tally(tags@, f),
{
    let mut n: usize = 0;
    let mut i: usize = 0;
    while i < tags.len()
        invariant
            i <= tags@.len(),
            n == tally(tags@.take(i as int), f),
            n <= i,
        decreases tags.len() - i,
    {
        proof {
            assert(tags@.take(i + 1).drop_last() =~= tags@.take(i as int));
        }
        if tags[i] == f {
            n = n + 1;
        }
        i = i + 1;
    }
    proof {
        assert(tags@.take(tags@.len() as int) =~= tags@);
    }
    n
}

/// Selecting after appending asserted rows.
pub(crate) proof fn lemma_select_appended(rows: Seq<RowView>, ds: Seq<DatumView>, tx: i64, g: i64, graphs: Seq<i64>)
    requires
        forall|i: int| 0 <= i < ds.len() ==> (#[trigger] ds[i]).op == Op::Assert,
    ensures
        graphs.contains(g) ==> select(apply_all(rows, ds, tx, g), graphs, None) == select(rows, graphs, None) + ds.map_values(
            |d: DatumView| asserted_row(d, tx, g).fact,
        ),
        !graphs.contains(g) ==> select(apply_all(rows, ds, tx, g), graphs, None) == select(rows, graphs, None),
        apply_all(rows, ds, tx, g).len() == rows.len() + ds.len(),
    decreases ds.len(),
{
    if ds.len() > 0 {
        let pre = ds.drop_last();
        assert forall|i: int| 0 <= i < pre.len() implies (#[trigger] pre[i]).op == Op::Assert by {
            assert(pre[i] == ds[i]);
        }
        lemma_select_appended(rows, pre, tx, g, graphs);
        let base = apply_all(rows, pre, tx, g);
        assert(ds.last().op == Op::Assert);
        let r = asserted_row(ds.last(), tx, g);
        assert(apply_all(rows, ds, tx, g) == base.push(r));
        assert(base.push(r).drop_last() =~= base);
        if graphs.contains(g) {
            assert(selects(r, graphs, None));
            assert(ds.map_values(|d: DatumView| asserted_row(d, tx, g).fact) =~= pre.map_values(
                |d: DatumView| asserted_row(d, tx, g).fact,
            ).push(r.fact));
        }
    }
}

/// A selection is no longer than the log.
proof fn lemma_select_len(rows: Seq<RowView>, graphs: Seq<i64>, entity: Option<i64>)
    ensures
        select(rows, graphs, entity).len() <= rows.len(),
    decreases rows.len(),
{
    if rows.len() > 0 {
        lemma_select_len(rows.drop_last(), graphs, entity);
    }
}

/// Facts of an older store denote the same triples once its term table has
/// grown.
pub(crate) proof fn lemma_triples_stable(old_s: &Store, new_s: &Store, fs: Seq<FactView>)
    requires
        new_s.terms_extend(old_s),
        forall|k: int| 0 <= k < fs.len() ==> fact_known(#[trigger] fs[k], old_s.terms().len() as int),
    ensures
        triples_of(new_s, fs) == triples_of(old_s, fs),
{
    assert forall|k: int| 0 <= k < fs.len() implies triples_of(new_s, fs)[k] == triples_of(old_s, fs)[k] by {
        let f = fs[k];
        assert(fact_known(f, old_s.terms().len() as int));
        assert(new_s.terms()[f.entity - 1] == old_s.terms()[f.entity - 1]);
        assert(new_s.terms()[f.attribute - 1] == old_s.terms()[f.attribute - 1]);
        if let ValueView::Ref(t) = f.value {
            assert(new_s.terms()[t - 1] == old_s.terms()[t - 1]);
        }
    }
    assert(triples_of(new_s, fs) =~= triples_of(old_s, fs));
}

/// The fact a datum asserts.
pub open spec fn datum_fact(d: DatumView, tx: i64) -> FactView {
    asserted_row(d, tx, INFERRED_GRAPH).fact
}

/// Turn staged triples into datums, interning their terms.
pub(crate) fn to_datums(store: &mut Store, staged: &Vec<Triple>, timestamp: &str) -> (r: Result<Vec<Datum>, Error>)
    requires
        old(store).wf(),
        forall|i: int| 0 <= i < staged@.len() ==> obj_ok((#[trigger] triples_view(staged@)[i]).2),
    ensures
        final(store).wf(),
        final(store).terms_extend(old(store)),
        final(store).rows() == old(store).rows(),
        final(store).sources() == old(store).sources(),
        final(store).ontology_entries() == old(store).ontology_entries(),
        final(store).identity() == old(store).identity(),
        final(store).manifest_of() == old(store).manifest_of(),
        final(store).loaded_packs() == old(store).loaded_packs(),
        final(store).proposal_log() == old(store).proposal_log(),
        final(store).catalog() == old(store).catalog(),
        r is Err ==> final(store).terms().len() >= MAX_TERMS,
        final(store).terms().len() <= old(store).terms().len() + 3 * staged@.len(),
        r matches Ok(ds) ==> {
            &&& ds@.len() == staged@.len()
            &&& forall|i: int|
                0 <= i < ds@.len() ==> {
                    &&& (#[trigger] ds@[i])@.op == Op::Assert
                    &&& ds@[i]@.valid_from == timestamp@
                    &&& ds@[i]@.valid_to is None
                    &&& datum_known(ds@[i]@, final(store).terms().len() as int)
                    &&& forall|tx: i64| triple_of(final(store), #[trigger] datum_fact(ds@[i]@, tx)) == staged@[i]@
                }
        },
{
    let ghost s0 = *store;
    let mut ds: Vec<Datum> = Vec::new();
    let mut i: usize = 0;
    proof {
        lemma_extend_refl(&s0);
    }
    while i < staged.len()
        invariant
            i <= staged@.len(),
            store.wf(),
            store.terms_extend(&s0),
            store.rows() == s0.rows(),
            store.sources() == s0.sources(),
            store.ontology_entries() == s0.ontology_entries(),
            store.identity() == s0.identity(),
            s0.rows() == old(store).rows(),
            s0.terms() == old(store).terms(),
            s0.sources() == old(store).sources(),
            s0.ontology_entries() == old(store).ontology_entries(),
            s0.identity() == old(store).identity(),
            store.manifest_of() == old(store).manifest_of(),
            store.loaded_packs() == old(store).loaded_packs(),
            store.proposal_log() == old(store).proposal_log(),
            store.catalog() == old(store).catalog(),
            store.terms().len() <= s0.terms().len() + 3 * i,
            forall|j: int| 0 <= j < staged@.len() ==> obj_ok((#[trigger] triples_view(staged@)[j]).2),
            ds@.len() == i,
            forall|j: int|
                0 <= j < i ==> {
                    &&& (#[trigger] ds@[j])@.op == Op::Assert
                    &&& ds@[j]@.valid_from == timestamp@
                    &&& ds@[j]@.valid_to is None
                    &&& datum_known(ds@[j]@, store.terms().len() as int)
                    &&& forall|tx: i64| triple_of(store, #[trigger] datum_fact(ds@[j]@, tx)) == staged@[j]@
                },
        decreases staged.len() - i,
    {
        let ghost before = *store;
        let t = &staged[i];
        let e = match store.intern(t.subject.as_str()) {
            Ok(id) => id,
            Err(err) => {
                proof {
                    lemma_extend_same(&s0, &before, store);
                }
                return Err(err);
            },
        };
        let ghost s1 = *store;
        let a = match store.intern(t.predicate.as_str()) {
            Ok(id) => id,
            Err(err) => {
                proof {
                    lemma_extend_trans(&s0, &before, &s1);
                    lemma_extend_same(&s0, &s1, store);
                }
                return Err(err);
            },
        };
        let ghost s2 = *store;
        let v = match &t.object {
            Obj::Iri(o) => match store.intern(o.as_str()) {
                Ok(id) => Value::Ref(id),
                Err(err) => {
                    proof {
                        lemma_extend_trans(&s0, &before, &s1);
                        lemma_extend_trans(&s0, &s1, &s2);
                        lemma_extend_same(&s0, &s2, store);
                    }
                    return Err(err);
                },
            },
            Obj::Lit(v) => v.copy(),
        };
        proof {
            lemma_extend_refl(store);
            lemma_extend_trans(&s0, &before, &s1);
            lemma_extend_trans(&s0, &s1, &s2);
            lemma_extend_trans(&s0, &s2, store);
            lemma_extend_trans(&before, &s1, &s2);
            lemma_extend_trans(&before, &s2, store);
            lemma_extend_trans(&s1, &s2, store);
        }
        let d = Datum {
            entity: e,
            attribute: a,
            value: v,
            valid_from: crate::text::owned(timestamp),
            valid_to: None,
            op: Op::Assert,
        };
        proof {
            assert(store.has_term(e) && store.term(e) == t.subject@) by {
                assert(store.terms()[e - 1] == s1.terms()[e - 1]);
            }
            assert(store.has_term(a) && store.term(a) == t.predicate@) by {
                assert(store.terms()[a - 1] == s2.terms()[a - 1]);
            }
            assert(obj_ok(triples_view(staged@)[i as int].2));
            assert(triples_view(staged@)[i as int] == t@);
            assert forall|tx: i64| triple_of(store, #[trigger] datum_fact(d@, tx)) == t@ by {}
        }
        let ghost ds_before = ds@;
        ds.push(d);
        proof {
            assert forall|j: int|
                0 <= j < i + 1 implies {
                    &&& (#[trigger] ds@[j])@.op == Op::Assert
                    &&& ds@[j]@.valid_from == timestamp@
                    &&& ds@[j]@.valid_to is None
                    &&& datum_known(ds@[j]@, store.terms().len() as int)
                    &&& forall|tx: i64| triple_of(store, #[trigger] datum_fact(ds@[j]@, tx)) == staged@[j]@
                } by {
                if j < i {
                    assert(ds@[j] == ds_before[j]);
                    let dj = ds@[j]@;
                    assert(datum_known(dj, before.terms().len() as int));
                    assert forall|tx: i64| triple_of(store, #[trigger] datum_fact(dj, tx)) == staged@[j]@ by {
                        let f = datum_fact(dj, tx);
                        assert(triple_of(&before, f) == staged@[j]@);
                        assert(store.terms()[f.entity - 1] == before.terms()[f.entity - 1]);
                        assert(store.terms()[f.attribute - 1] == before.terms()[f.attribute - 1]);
                        if let ValueView::Ref(o) = f.value {
                            assert(store.terms()[o - 1] == before.terms()[o - 1]);
                        }
                    }
                }
            }
        }
        i = i + 1;
    }
    Ok(ds)
}

/// A term table extends itself.
pub(crate) proof fn lemma_extend_refl(a: &Store)
    ensures
        a.terms_extend(a),
{
    assert(a.terms().subrange(0, a.terms().len() as int) =~= a.terms());
}

/// Same terms as an extension is an extension.
pub(crate) proof fn lemma_extend_same(a: &Store, b: &Store, c: &Store)
    requires
        b.terms_extend(a),
        c.terms() == b.terms(),
    ensures
        c.terms_extend(a),
{
}

/// Growth of the term table is transitive.
pub(crate) proof fn lemma_extend_trans(a: &Store, b: &Store, c: &Store)
    requires
        b.terms_extend(a),
        c.terms_extend(b),
    ensures
        c.terms_extend(a),
{
    assert(c.terms().subrange(0, a.terms().len() as int) =~= b.terms().subrange(0, a.terms().len() as int));
}

impl Ontology {
    /// Materialize the OWL 2 RL entailments of this ontology into `store`,
    /// to fixpoint.
    ///
    /// Each pass reads the premises (ROOT and its inferred companion) and
    /// writes what they entail and do not already state to the companion,
    /// as one transaction with source `owl:materialize`. Passes repeat until
    /// one derives nothing new, at most [`MAX_PASSES`] times; a run that hits
    /// the budget says so in `pass_budget_exhausted`.
    pub fn materialize(&self, store: &mut Store, timestamp: &str) -> (r: Result<MaterializeReport, Error>)
        requires
            old(store).wf(),
        ensures
            final(store).wf(),
            final(store).terms_extend(old(store)),
            final(store).identity() == old(store).identity(),
            final(store).ontology_entries() == old(store).ontology_entries(),
            final(store).root_facts() == old(store).root_facts(),
            premises(old(store)).is_prefix_of(premises(final(store))),
            closed(self.axioms@, premises(old(store))) ==> premises(final(store)) == premises(old(store)),
            derived_after(self.axioms@, premises(final(store)), premises(old(store)).len() as int),
            forall|i: int|
                premises(old(store)).len() <= i < premise_facts(final(store)).len() ==> (#[trigger] premise_facts(
                    final(store),
                )[i]).valid_from == timestamp@,
            r is Err ==> final(store).terms().len() >= MAX_TERMS || final(store).head() >= MAX_TX,
            closed(self.axioms@, premises(old(store))) ==> r is Ok,
            forall|h: i64|
                h != ROOT_GRAPH && h != INFERRED_GRAPH ==> #[trigger] graph_triples(final(store), h) == graph_triples(
                    old(store),
                    h,
                ),
            r is Ok ==> final(store).rows().len() == old(store).rows().len() + premises(final(store)).len() - premises(
                old(store),
            ).len(),
            old(store).sources().is_prefix_of(final(store).sources()),
            forall|i: int|
                old(store).head() <= i < final(store).head() ==> #[trigger] final(store).sources()[i] == Some(
                    MATERIALIZE_SOURCE@,
                ),
            r matches Ok(rep) ==> {
                &&& rep.total == premises(final(store)).len() - premises(old(store)).len()
                &&& family_total(rep) == rep.total
                &&& 1 <= rep.passes <= MAX_PASSES
                &&& rep.pass_budget_exhausted ==> rep.passes == MAX_PASSES && final(store).head() == old(store).head()
                    + MAX_PASSES && rep.total >= MAX_PASSES
                &&& !rep.pass_budget_exhausted ==> closed(self.axioms@, premises(final(store))) && final(store).head()
                    == old(store).head() + rep.passes - 1
                &&& !closed(self.axioms@, premises(old(store))) ==> rep.total > 0
                &&& closed(self.axioms@, premises(old(store))) ==> rep.passes == 1 && !rep.pass_budget_exhausted
                    && *final(store) == *old(store)
                &&& premises(final(store)).to_set() == after_passes(
                    self.axioms@,
                    premises(old(store)).to_set(),
                    productive_passes(rep),
                )
                &&& forall|f: Family|
                    #[trigger] family_count(rep, f) == attributed(
                        self.axioms@,
                        premises(old(store)).to_set(),
                        productive_passes(rep),
                        f,
                    )
            },
    {
        let ghost s0 = *store;
        let ghost p0 = premises(store);
        let ghost ax = self.axioms@;
        let mut report = MaterializeReport::empty();
        let mut passes: usize = 0;
        proof {
            assert(p0.is_prefix_of(p0));
            lemma_extend_refl(&s0);
            s0.lemma_selected_known(premise_graphs(), None);
            assert forall|i: int| 0 <= i < p0.len() implies obj_ok((#[trigger] p0[i]).2) by {
                assert(p0[i] == triple_of(&s0, premise_facts(&s0)[i]));
            }
        }
        loop
            invariant_except_break
                report.passes == 0,
                !report.pass_budget_exhausted,
                store.head() == s0.head() + passes,
                report.total >= passes,
                closed(ax, p0) ==> passes == 0 && *store == s0,
                premises(store).to_set() == after_passes(ax, p0.to_set(), passes as nat),
                forall|f: Family| #[trigger] family_count(report, f) == attributed(ax, p0.to_set(), passes as nat, f),
            invariant
                s0 == *old(store),
                store.wf(),
                passes <= MAX_PASSES,
                ax == self.axioms@,
                p0 == premises(&s0),
                s0.wf(),
                store.terms_extend(&s0),
                store.identity() == s0.identity(),
                store.ontology_entries() == s0.ontology_entries(),
                store.root_facts() == s0.root_facts(),
                p0.is_prefix_of(premises(store)),
                derived_after(ax, premises(store), p0.len() as int),
                forall|i: int| p0.len() <= i < premise_facts(store).len() ==> (#[trigger] premise_facts(store)[i]).valid_from
                    == timestamp@,
                forall|i: int| 0 <= i < premises(store).len() ==> obj_ok((#[trigger] premises(store)[i]).2),
                report.total == premises(store).len() - p0.len(),
                family_total(report) == report.total,
                closed(ax, p0) ==> premises(store) == p0,
                !closed(ax, p0) && passes > 0 ==> report.total > 0,
                s0.sources().is_prefix_of(store.sources()),
                forall|i: int|
                    s0.head() <= i < store.head() ==> #[trigger] store.sources()[i] == Some(MATERIALIZE_SOURCE@),
                forall|h: i64|
                    h != ROOT_GRAPH && h != INFERRED_GRAPH ==> #[trigger] graph_triples(store, h) == graph_triples(&s0, h),
                store.rows().len() == s0.rows().len() + premises(store).len() - p0.len(),
            ensures
                report.passes == 0,
                premises(store).to_set() == after_passes(
                    ax,
                    p0.to_set(),
                    (if report.pass_budget_exhausted {
                        passes as int
                    } else {
                        passes - 1
                    }) as nat,
                ),
                forall|f: Family|
                    #[trigger] family_count(report, f) == attributed(
                        ax,
                        p0.to_set(),
                        (if report.pass_budget_exhausted {
                            passes as int
                        } else {
                            passes - 1
                        }) as nat,
                        f,
                    ),
                report.pass_budget_exhausted ==> passes == MAX_PASSES && store.head() == s0.head() + MAX_PASSES
                    && report.total >= MAX_PASSES,
                !report.pass_budget_exhausted ==> closed(ax, premises(store)) && passes >= 1 && store.head()
                    == s0.head() + passes - 1,
                !closed(ax, p0) ==> report.total > 0,
                closed(ax, p0) ==> passes == 1 && !report.pass_budget_exhausted && *store == s0,
            decreases MAX_PASSES - passes,
        {
            let ghost k = passes as nat;
            let ghost r0 = report;
            if passes >= MAX_PASSES {
                report.pass_budget_exhausted = true;
                proof {
                    assert forall|f: Family| #[trigger] family_count(report, f) == attributed(
                        ax,
                        p0.to_set(),
                        passes as nat,
                        f,
                    ) by {
                        assert(family_count(report, f) == family_count(r0, f));
                    }
                }
                break;
            }
            passes = passes + 1;
            let premise_list = read_premises(store);
            let ghost ps = premises(store);
            report.premise_facts_read = report.premise_facts_read.saturating_add(premise_list.len()).saturating_add(
                premise_list.len(),
            );
            let pass = derive_pass(&premise_list, &self.axioms);
            proof {
                lemma_pass_attribution(ax, ps, pass.staged(), pass.tags@);
                lemma_pass_complete(ax, ps, pass.staged(), pass.tags@);
                if closed(ax, p0) && pass.staged().len() > 0 {
                    assert(entails(ax, ps.to_set(), pass.staged()[0]));
                    assert(ps.contains(pass.staged()[0]));
                    assert(false);
                }
            }
            if pass.out.len() == 0 {
                proof {
                    assert forall|g: TripleView| #[trigger] entails(ax, ps.to_set(), g) implies ps.contains(g) by {
                        assert(super::rules::covered(ps, pass.staged(), g));
                    }
                    if report.total == 0 {
                        assert(ps =~= p0);
                    }
                    assert((passes - 1) as nat == k);
                    assert forall|f: Family| #[trigger] family_count(report, f) == attributed(
                        ax,
                        p0.to_set(),
                        k,
                        f,
                    ) by {
                        assert(family_count(report, f) == family_count(r0, f));
                    }
                }
                break;
            }
            proof {
                lemma_staged_ok(ax, ps, pass.staged());
            }
            let ghost s_before = *store;
            let datums = match to_datums(store, &pass.out, timestamp) {
                Ok(ds) => ds,
                Err(e) => {
                    proof {
                        lemma_premises_stable(&s_before, store);
                        lemma_extend_trans(&s0, &s_before, store);
                        assert forall|h: i64| h != ROOT_GRAPH && h != INFERRED_GRAPH implies #[trigger] graph_triples(
                            store,
                            h,
                        ) == graph_triples(&s0, h) by {
                            crate::owl_snapshot::lemma_graph_stable(&s_before, store, h);
                        }
                    }
                    return Err(e);
                },
            };
            let ghost s_mid = *store;
            proof {
                lemma_premises_stable(&s_before, &s_mid);
                lemma_extend_trans(&s0, &s_before, &s_mid);
            }
            let tx = match store.transact_to_graph(datums.as_slice(), Some(MATERIALIZE_SOURCE), INFERRED_GRAPH) {
                Ok(tx) => tx,
                Err(e) => {
                    proof {
                        lemma_extend_same(&s0, &s_mid, store);
                        lemma_extend_refl(&s_mid);
                        lemma_extend_same(&s_mid, &s_mid, store);
                        lemma_premises_stable(&s_mid, store);
                        assert forall|h: i64| h != ROOT_GRAPH && h != INFERRED_GRAPH implies #[trigger] graph_triples(
                            store,
                            h,
                        ) == graph_triples(&s0, h) by {
                            crate::owl_snapshot::lemma_graph_stable(&s_before, &s_mid, h);
                            crate::owl_snapshot::lemma_graph_stable(&s_mid, store, h);
                        }
                    }
                    return Err(e);
                },
            };
            proof {
                lemma_after_write(ax, &s0, &s_mid, store, datums@, tx, pass.staged(), timestamp@, p0);
                assert forall|h: i64| h != ROOT_GRAPH && h != INFERRED_GRAPH implies #[trigger] graph_triples(store, h)
                    == graph_triples(&s0, h) by {
                    crate::owl_snapshot::lemma_graph_stable(&s_before, &s_mid, h);
                    crate::owl_snapshot::lemma_graph_write(&s_mid, store, datums@, tx, INFERRED_GRAPH, pass.staged(), h);
                }
                lemma_asserts_append(s_mid.rows(), datums_view(datums@), tx, INFERRED_GRAPH);
                s_mid.lemma_rows_bounded();
                store.lemma_rows_bounded();
                lemma_select_len(store.rows(), premise_graphs(), None);
            }
            let n = pass.out.len();
            let ghost r1 = report;
            let c0 = count_family(&pass.tags, Family::Subclass);
            let c1 = count_family(&pass.tags, Family::SubProperty);
            let c2 = count_family(&pass.tags, Family::EquivalentClass);
            let c3 = count_family(&pass.tags, Family::Inverse);
            let c4 = count_family(&pass.tags, Family::Symmetric);
            let c5 = count_family(&pass.tags, Family::Transitive);
            let c6 = count_family(&pass.tags, Family::EquivalentProperty);
            let c7 = count_family(&pass.tags, Family::SameAs);
            let c8 = count_family(&pass.tags, Family::DomainRange);
            proof {
                lemma_tally_sum(pass.tags@);
            }
            report.subclass_inferences = report.subclass_inferences + c0;
            report.sub_property_inferences = report.sub_property_inferences + c1;
            report.equivalent_class_inferences = report.equivalent_class_inferences + c2;
            report.inverse_inferences = report.inverse_inferences + c3;
            report.symmetric_inferences = report.symmetric_inferences + c4;
            report.transitive_inferences = report.transitive_inferences + c5;
            report.equivalent_property_inferences = report.equivalent_property_inferences + c6;
            report.same_as_inferences = report.same_as_inferences + c7;
            report.domain_range_inferences = report.domain_range_inferences + c8;
            report.total = report.total + n;
            proof {
                assert(ps.to_set() == after_passes(ax, p0.to_set(), k));
                assert(passes as nat == k + 1);
                assert forall|f: Family| #[trigger] family_count(report, f) == attributed(
                    ax,
                    p0.to_set(),
                    passes as nat,
                    f,
                ) by {
                    assert(family_count(r0, f) == attributed(ax, p0.to_set(), k, f));
                    assert(family_count(r1, f) == family_count(r0, f));
                    assert(family_count(report, f) == family_count(r1, f) + tally(pass.tags@, f));
                    lemma_tagged_len(pass.staged(), pass.tags@, f);
                    assert(fresh_by(ax, ps.to_set(), f) == tagged(pass.staged(), pass.tags@, f));
                    assert(attributed(ax, p0.to_set(), (k + 1) as nat, f) == attributed(ax, p0.to_set(), k, f) + fresh_by(
                        ax,
                        after_passes(ax, p0.to_set(), k),
                        f,
                    ).len());
                }
                assert(premises(store) == ps + pass.staged());
                assert(after_passes(ax, p0.to_set(), (k + 1) as nat) =~= ps.to_set().union(
                    Set::new(|g: TripleView| entails(ax, ps.to_set(), g)),
                ));
            }
        }
        let ghost r2 = report;
        report.passes = passes;
        proof {
            assert forall|f: Family| #[trigger] family_count(report, f) == attributed(
                ax,
                p0.to_set(),
                productive_passes(report),
                f,
            ) by {
                assert(family_count(report, f) == family_count(r2, f));
            }
        }
        Ok(report)
    }

    /// Materialize after a committed write whose asserted facts are `seed`.
    /// A write that asserted nothing derives nothing. Otherwise the run
    /// reaches the same fixpoint as [`Ontology::materialize`], whatever the
    /// seed: each pass reads every premise, so no derivation that the new
    /// facts enable through older ones is missed.
    pub fn materialize_delta(&self, store: &mut Store, timestamp: &str, seed: &[Fact]) -> (r: Result<
        MaterializeReport,
        Error,
    >)
        requires
            old(store).wf(),
        ensures
            final(store).wf(),
            final(store).terms_extend(old(store)),
            final(store).identity() == old(store).identity(),
            final(store).ontology_entries() == old(store).ontology_entries(),
            seed@.len() == 0 ==> (r matches Ok(rep) && rep.passes == 1 && rep.total == 0 && !rep.pass_budget_exhausted
                && family_total(rep) == 0 && *final(store) == *old(store)),
            seed@.len() > 0 ==> rematerialized(self.axioms@, old(store), final(store), r is Ok),
            seed@.len() > 0 ==> (r is Err ==> final(store).terms().len() >= MAX_TERMS || final(store).head() >= MAX_TX),
            seed@.len() > 0 ==> (r matches Ok(rep) ==> {
                &&& rep.total == premises(final(store)).len() - premises(old(store)).len()
                &&& family_total(rep) == rep.total
                &&& 1 <= rep.passes <= MAX_PASSES
                &&& premises(final(store)).to_set() == after_passes(
                    self.axioms@,
                    premises(old(store)).to_set(),
                    productive_passes(rep),
                )
                &&& forall|f: Family|
                    #[trigger] family_count(rep, f) == attributed(
                        self.axioms@,
                        premises(old(store)).to_set(),
                        productive_passes(rep),
                        f,
                    )
            }),
    {
        if seed.len() == 0 {
            let mut rep = MaterializeReport::empty();
            rep.passes = 1;
            proof {
                lemma_extend_refl(store);
            }
            return Ok(rep);
        }
        let ghost s0 = *store;
        let r = self.materialize(store, timestamp);
        proof {
            if let Ok(rep) = r {
                let k = productive_passes(rep);
                assert(k <= MAX_PASSES);
                assert(premises(store).to_set() == after_passes(self.axioms@, premises(&s0).to_set(), k));
                assert(closed(self.axioms@, premises(store)) || store.head() == s0.head() + MAX_PASSES);
            }
        }
        r
    }

    /// [`Ontology::materialize`] under a budget: a run that derives more than
    /// `limit` facts is refused (the facts it wrote stay in `store`, which a
    /// caller with a budget keeps private).
    pub fn materialize_limited(&self, store: &mut Store, timestamp: &str, limit: usize) -> (r: Result<
        MaterializeReport,
        Error,
    >)
        requires
            old(store).wf(),
        ensures
            final(store).wf(),
            final(store).terms_extend(old(store)),
            final(store).identity() == old(store).identity(),
            final(store).ontology_entries() == old(store).ontology_entries(),
            final(store).root_facts() == old(store).root_facts(),
            premises(old(store)).is_prefix_of(premises(final(store))),
            derived_after(self.axioms@, premises(final(store)), premises(old(store)).len() as int),
            premises(final(store)).len() - premises(old(store)).len() > limit ==> r is Err,
            closed(self.axioms@, premises(old(store))) ==> r is Ok,
            forall|h: i64|
                h != ROOT_GRAPH && h != INFERRED_GRAPH ==> #[trigger] graph_triples(final(store), h) == graph_triples(
                    old(store),
                    h,
                ),
            old(store).sources().is_prefix_of(final(store).sources()),
            forall|i: int|
                old(store).head() <= i < final(store).head() ==> #[trigger] final(store).sources()[i] == Some(
                    MATERIALIZE_SOURCE@,
                ),
            r is Err ==> final(store).terms().len() >= MAX_TERMS || final(store).head() >= MAX_TX || premises(
                final(store),
            ).len() - premises(old(store)).len() > limit,
            r matches Ok(rep) ==> {
                &&& rep.total <= limit
                &&& rep.total == premises(final(store)).len() - premises(old(store)).len()
                &&& family_total(rep) == rep.total
                &&& 1 <= rep.passes <= MAX_PASSES
                &&& rep.pass_budget_exhausted ==> rep.passes == MAX_PASSES && final(store).head() == old(store).head()
                    + MAX_PASSES && rep.total >= MAX_PASSES
                &&& !rep.pass_budget_exhausted ==> closed(self.axioms@, premises(final(store))) && final(store).head()
                    == old(store).head() + rep.passes - 1
                &&& !closed(self.axioms@, premises(old(store))) ==> rep.total > 0
                &&& closed(self.axioms@, premises(old(store))) ==> rep.passes == 1 && !rep.pass_budget_exhausted
                    && *final(store) == *old(store)
                &&& premises(final(store)).to_set() == after_passes(
                    self.axioms@,
                    premises(old(store)).to_set(),
                    productive_passes(rep),
                )
                &&& forall|f: Family|
                    #[trigger] family_count(rep, f) == attributed(
                        self.axioms@,
                        premises(old(store)).to_set(),
                        productive_passes(rep),
                        f,
                    )
            },
    {
        let rep = self.materialize(store, timestamp)?;
        if rep.total > limit {
            let mut msg = crate::text::owned("OWL inference budget exceeded: ");
            let n = crate::text::usize_to_string(rep.total);
            crate::text::push_str(&mut msg, n.as_str());
            crate::text::push_str(&mut msg, " derivations, limit ");
            let m = crate::text::usize_to_string(limit);
            crate::text::push_str(&mut msg, m.as_str());
            return Err(Error::InvalidValue(msg));
        }
        Ok(rep)
    }
}

/// Staged triples carry well-formed objects when the premises do.
proof fn lemma_staged_ok(ax: AxView, ps: Seq<TripleView>, out: Seq<TripleView>)
    requires
        forall|i: int| 0 <= i < ps.len() ==> obj_ok((#[trigger] ps[i]).2),
        forall|i: int| 0 <= i < out.len() ==> entails(ax, ps.to_set(), #[trigger] out[i]),
    ensures
        forall|i: int| 0 <= i < out.len() ==> obj_ok((#[trigger] out[i]).2),
{
    assert forall|i: int| 0 <= i < out.len() implies obj_ok((#[trigger] out[i]).2) by {
        let g = out[i];
        let f = choose|f: Family| #[trigger] super::rules::derives(f, ax, ps.to_set(), g);
        lemma_entailed_obj_ok(ax, ps, f, g);
    }
}

proof fn lemma_entailed_obj_ok(ax: AxView, ps: Seq<TripleView>, f: Family, g: TripleView)
    requires
        forall|i: int| 0 <= i < ps.len() ==> obj_ok((#[trigger] ps[i]).2),
        super::rules::derives(f, ax, ps.to_set(), g),
    ensures
        obj_ok(g.2),
{
    let pset = ps.to_set();
    match f {
        Family::SubProperty => {
            let p = choose|p: Seq<char>| #[trigger] pset.contains((g.0, p, g.2)) && super::rules::super_of(ax.subproperty_of, p, g.1);
            assert(ps.contains((g.0, p, g.2)));
            let m = choose|m: int| 0 <= m < ps.len() && ps[m] == (g.0, p, g.2);
            assert(obj_ok(ps[m].2));
        },
        Family::EquivalentProperty => {
            let j = choose|j: int| 0 <= j < ax.equivalent_properties.len() && ({
                let (p, q) = #[trigger] ax.equivalent_properties[j];
                ||| q == g.1 && pset.contains((g.0, p, g.2))
                ||| p == g.1 && pset.contains((g.0, q, g.2))
            });
            let (p, q) = ax.equivalent_properties[j];
            if q == g.1 && pset.contains((g.0, p, g.2)) {
                assert(ps.contains((g.0, p, g.2)));
                let m = choose|m: int| 0 <= m < ps.len() && ps[m] == (g.0, p, g.2);
                assert(obj_ok(ps[m].2));
            } else {
                assert(ps.contains((g.0, q, g.2)));
                let m = choose|m: int| 0 <= m < ps.len() && ps[m] == (g.0, q, g.2);
                assert(obj_ok(ps[m].2));
            }
        },
        Family::SameAs => {
            let e = super::rules::same_rel(pset);
            if g.1 != crate::namespace::OWL_SAME_AS@ && exists|x: Seq<char>|
                #[trigger] pset.contains((x, g.1, g.2)) && super::reach::reaches(e, x, g.0) && g.0 != x {
                let x = choose|x: Seq<char>| #[trigger] pset.contains((x, g.1, g.2)) && super::reach::reaches(e, x, g.0) && g.0 != x;
                assert(ps.contains((x, g.1, g.2)));
                let m = choose|m: int| 0 <= m < ps.len() && ps[m] == (x, g.1, g.2);
                assert(obj_ok(ps[m].2));
            }
        },
        _ => {},
    }
}

/// Reading premises only depends on the log, and the log's triples survive
/// growth of the term table.
pub(crate) proof fn lemma_premises_stable(a: &Store, b: &Store)
    requires
        a.wf(),
        b.terms_extend(a),
        b.rows() == a.rows(),
    ensures
        premises(b) == premises(a),
        premise_facts(b) == premise_facts(a),
{
    a.lemma_selected_known(premise_graphs(), None);
    lemma_triples_stable(a, b, premise_facts(a));
}

/// One write of staged triples appends exactly them to the premises.
proof fn lemma_after_write(
    ax: AxView,
    s0: &Store,
    mid: &Store,
    fin: &Store,
    ds: Seq<Datum>,
    tx: i64,
    staged: Seq<TripleView>,
    ts: Seq<char>,
    p0: Seq<TripleView>,
)
    requires
        mid.wf(),
        fin.wf(),
        mid.terms_extend(s0),
        fin.terms() == mid.terms(),
        fin.rows() == apply_all(mid.rows(), datums_view(ds), tx, INFERRED_GRAPH),
        ds.len() == staged.len(),
        forall|i: int|
            0 <= i < ds.len() ==> {
                &&& (#[trigger] ds[i])@.op == Op::Assert
                &&& ds[i]@.valid_from == ts
                &&& forall|t: i64| triple_of(mid, #[trigger] datum_fact(ds[i]@, t)) == staged[i]
            },
        staged.no_duplicates(),
        forall|i: int| 0 <= i < staged.len() ==> !premises(mid).contains(#[trigger] staged[i]),
        forall|i: int| 0 <= i < staged.len() ==> entails(ax, premises(mid).to_set(), #[trigger] staged[i]),
        forall|i: int| 0 <= i < staged.len() ==> obj_ok((#[trigger] staged[i]).2),
        forall|i: int| 0 <= i < premises(mid).len() ==> obj_ok((#[trigger] premises(mid)[i]).2),
        mid.root_facts() == s0.root_facts(),
        p0.is_prefix_of(premises(mid)),
        derived_after(ax, premises(mid), p0.len() as int),
        forall|i: int| p0.len() <= i < premise_facts(mid).len() ==> (#[trigger] premise_facts(mid)[i]).valid_from == ts,
    ensures
        fin.terms_extend(s0),
        premises(fin) == premises(mid) + staged,
        premise_facts(fin).len() == premise_facts(mid).len() + staged.len(),
        fin.root_facts() == s0.root_facts(),
        p0.is_prefix_of(premises(fin)),
        derived_after(ax, premises(fin), p0.len() as int),
        forall|i: int| p0.len() <= i < premise_facts(fin).len() ==> (#[trigger] premise_facts(fin)[i]).valid_from == ts,
        forall|i: int| 0 <= i < premises(fin).len() ==> obj_ok((#[trigger] premises(fin)[i]).2),
{
    let dv = datums_view(ds);
    assert forall|i: int| 0 <= i < dv.len() implies (#[trigger] dv[i]).op == Op::Assert by {
        assert(dv[i] == ds[i]@);
    }
    lemma_select_appended(mid.rows(), dv, tx, INFERRED_GRAPH, premise_graphs());
    lemma_select_appended(mid.rows(), dv, tx, INFERRED_GRAPH, seq![ROOT_GRAPH]);
    assert(premise_graphs().contains(INFERRED_GRAPH)) by {
        assert(premise_graphs()[1] == INFERRED_GRAPH);
    }
    assert(!seq![ROOT_GRAPH].contains(INFERRED_GRAPH));
    let newf = dv.map_values(|d: DatumView| asserted_row(d, tx, INFERRED_GRAPH).fact);
    assert(premise_facts(fin) == premise_facts(mid) + newf);
    assert(fin.terms_extend(mid)) by {
        assert(fin.terms().subrange(0, mid.terms().len() as int) =~= mid.terms());
    }
    lemma_extend_trans(s0, mid, fin);
    mid.lemma_selected_known(premise_graphs(), None);
    assert(triples_of(fin, premise_facts(mid)) == triples_of(mid, premise_facts(mid))) by {
        lemma_triples_stable(mid, fin, premise_facts(mid));
    }
    assert(triples_of(fin, newf) =~= staged) by {
        assert forall|i: int| 0 <= i < newf.len() implies triples_of(fin, newf)[i] == staged[i] by {
            assert(newf[i] == datum_fact(ds[i]@, tx));
            assert(triple_of(mid, datum_fact(ds[i]@, tx)) == staged[i]);
        }
    }
    assert(triples_of(fin, premise_facts(fin)) =~= triples_of(fin, premise_facts(mid)) + triples_of(fin, newf));
    let pm = premises(mid);
    let pf = premises(fin);
    assert(pf == pm + staged);
    assert(p0.is_prefix_of(pf)) by {
        assert forall|i: int| 0 <= i < p0.len() implies p0[i] == pf[i] by {
            assert(p0[i] == pm[i]);
        }
    }
    assert forall|i: int| p0.len() <= i < pf.len() implies entails(ax, pf.take(i).to_set(), #[trigger] pf[i]) && !pf.take(
        i,
    ).contains(pf[i]) by {
        if i < pm.len() {
            assert(pf.take(i) =~= pm.take(i));
            assert(pf[i] == pm[i]);
        } else {
            let k = i - pm.len();
            assert(pf[i] == staged[k]);
            assert(pm.to_set().subset_of(pf.take(i).to_set())) by {
                assert forall|x: TripleView| pm.to_set().contains(x) implies pf.take(i).to_set().contains(x) by {
                    let j = choose|j: int| 0 <= j < pm.len() && pm[j] == x;
                    assert(pf.take(i)[j] == x);
                }
            }
            lemma_entails_monotone(ax, pm.to_set(), pf.take(i).to_set(), staged[k]);
            if pf.take(i).contains(pf[i]) {
                let j = choose|j: int| 0 <= j < pf.take(i).len() && pf.take(i)[j] == pf[i];
                if j < pm.len() {
                    assert(pm[j] == staged[k]);
                    assert(pm.contains(staged[k]));
                } else {
                    assert(staged[j - pm.len()] == staged[k]);
                }
            }
        }
    }
    assert forall|i: int| p0.len() <= i < premise_facts(fin).len() implies (#[trigger] premise_facts(fin)[i]).valid_from
        == ts by {
        if i >= premise_facts(mid).len() {
            let k = i - premise_facts(mid).len();
            assert(premise_facts(fin)[i] == newf[k]);
            assert(newf[k] == datum_fact(ds[k]@, tx));
        } else {
            assert(premise_facts(fin)[i] == premise_facts(mid)[i]);
        }
    }
    assert forall|i: int| 0 <= i < pf.len() implies obj_ok((#[trigger] pf[i]).2) by {
        if i >= pm.len() {
            assert(pf[i] == staged[i - pm.len()]);
        } else {
            assert(pf[i] == pm[i]);
        }
    }
}

/// Entailment is monotone in the premises: more premises, more entailments.
pub proof fn lemma_entails_monotone(ax: AxView, a: Set<TripleView>, b: Set<TripleView>, g: TripleView)
    requires
        a.subset_of(b),
        entails(ax, a, g),
    ensures
        entails(ax, b, g),
{
    let f = choose|f: Family| #[trigger] super::rules::derives(f, ax, a, g);
    super::rules::lemma_derives_monotone(f, ax, a, b, g);
}


/// Every fact a materialization adds is entailed: whatever set contains the
/// starting premises and is closed under the rule families contains every
/// fact of a sequence in which each fact past the start is entailed by those
/// before it. With the fixpoint that `materialize` reaches, its result is
/// the least closed set containing the starting premises.
pub proof fn law_materialized_facts_are_least(ax: AxView, ps: Seq<TripleView>, n: int, s: Set<TripleView>)
    requires
        0 <= n <= ps.len(),
        derived_after(ax, ps, n),
        ps.take(n).to_set().subset_of(s),
        forall|g: TripleView| #[trigger] entails(ax, s, g) ==> s.contains(g),
    ensures
        ps.to_set().subset_of(s),
    decreases ps.len() - n,
{
    if n < ps.len() {
        assert(entails(ax, ps.take(n).to_set(), ps[n]));
        lemma_entails_monotone(ax, ps.take(n).to_set(), s, ps[n]);
        assert(ps.take(n + 1).to_set().subset_of(s)) by {
            assert forall|x: TripleView| ps.take(n + 1).to_set().contains(x) implies s.contains(x) by {
                let pre = ps.take(n + 1);
                assert(pre.contains(x));
                let j = choose|j: int| 0 <= j < pre.len() && pre[j] == x;
                if j < n {
                    assert(ps.take(n)[j] == x);
                    assert(ps.take(n).to_set().contains(x));
                }
            }
        }
        law_materialized_facts_are_least(ax, ps, n + 1, s);
    } else {
        assert(ps.take(n) =~= ps);
    }
}

/// A materialization that did not run out of passes is a fixpoint: running
/// the rule families over its result derives nothing new.
pub proof fn law_fixpoint_derives_nothing(ax: AxView, ps: Seq<TripleView>, out: Seq<TripleView>, tags: Seq<Family>)
    requires
        closed(ax, ps),
        pass_ok(ax, ps, out, tags, 9),
    ensures
        out.len() == 0,
{
    lemma_pass_complete(ax, ps, out, tags);
    if out.len() > 0 {
        assert(entails(ax, ps.to_set(), out[0]));
        assert(ps.contains(out[0]));
    }
}

/// The identity closure never states that an entity is the same as itself.
pub proof fn law_same_as_is_never_reflexive(ps: Set<TripleView>, x: Seq<char>)
    ensures
        !super::rules::by_same_as(ps, (x, crate::namespace::OWL_SAME_AS@, ObjView::Iri(x))),
{
}
} // verus!
