//! Write-time validation against OWL constraints.
//!
//! Two checks on a batch of proposed writes, merged with what the ROOT graph
//! already states: an entity must not be typed with two disjoint classes, and
//! a functional property must not carry two distinct values.

use vstd::prelude::*;

use crate::namespace::RDF_TYPE;
use crate::path::read::{facts_of, ref_values, refs_in};
use crate::path::reach::contains_id;
use crate::store::{datums_view, facts_view, Datum, DatumView, FactView, Op, Store};
use crate::text::{decimal, i64_to_string, owned, push_str, signed_decimal, str_eq, usize_to_string};
use crate::value::{Value, ValueView};

use super::triple::term_iri;
use super::{names_view, pairs_view, AxView, Ontology, PairView};

verus! {

/// The kind of OWL constraint violation.
#[derive(Debug, Clone)]
pub enum ViolationKind {
    /// The entity has types from two disjoint classes.
    DisjointClass {
        /// The first class.
        class_a: String,
        /// The second (disjoint) class.
        class_b: String,
    },
    /// A functional property has more than one value.
    FunctionalProperty {
        /// The property IRI.
        property: String,
        /// Number of distinct values found.
        count: usize,
    },
}

/// The content of a [`ViolationKind`].
pub ghost enum KindView {
    Disjoint(Seq<char>, Seq<char>),
    Functional(Seq<char>, nat),
}

/// A constraint violation found by validation.
#[derive(Debug, Clone)]
pub struct OwlViolation {
    /// The kind of violation.
    pub kind: ViolationKind,
    /// The focus entity IRI.
    pub focus_node: String,
    /// Human-readable message.
    pub message: String,
}

/// The content of an [`OwlViolation`]: `(kind, focus, message)`.
pub type ViolationView = (KindView, Seq<char>, Seq<char>);

impl View for OwlViolation {
    type V = ViolationView;

    open spec fn view(&self) -> ViolationView {
        (
            match &self.kind {
                ViolationKind::DisjointClass { class_a, class_b } => KindView::Disjoint(class_a@, class_b@),
                ViolationKind::FunctionalProperty { property, count } => KindView::Functional(property@, *count as nat),
            },
            self.focus_node@,
            self.message@,
        )
    }
}

impl OwlViolation {
    /// A copy with the same content.
    pub fn copy(&self) -> (r: OwlViolation)
        ensures
            r@ == self@,
    {
        let kind = match &self.kind {
            ViolationKind::DisjointClass { class_a, class_b } => ViolationKind::DisjointClass {
                class_a: class_a.clone(),
                class_b: class_b.clone(),
            },
            ViolationKind::FunctionalProperty { property, count } => ViolationKind::FunctionalProperty {
                property: property.clone(),
                count: *count,
            },
        };
        OwlViolation { kind, focus_node: self.focus_node.clone(), message: self.message.clone() }
    }
}

/// The contents of a list of violations.
pub open spec fn violations_view(v: Seq<OwlViolation>) -> Seq<ViolationView> {
    v.map_values(|x: OwlViolation| x@)
}

/// `s` with later repeats dropped.
pub open spec fn dedup<A>(s: Seq<A>) -> Seq<A>
    decreases s.len(),
{
    if s.len() == 0 {
        Seq::empty()
    } else {
        let p = dedup(s.drop_last());
        if p.contains(s.last()) {
            p
        } else {
            p.push(s.last())
        }
    }
}

/// The subjects of the proposed `rdf:type` assertions (type id `t`), in order.
pub open spec fn type_subjects(ps: Seq<DatumView>, t: i64) -> Seq<i64>
    decreases ps.len(),
{
    if ps.len() == 0 {
        Seq::empty()
    } else {
        let d = ps.last();
        let prev = type_subjects(ps.drop_last(), t);
        if d.op == Op::Assert && d.attribute == t && d.value is Ref {
            prev.push(d.entity)
        } else {
            prev
        }
    }
}

/// The classes the proposed assertions give `e`, in order.
pub open spec fn proposed_types(ps: Seq<DatumView>, t: i64, e: i64) -> Seq<i64>
    decreases ps.len(),
{
    if ps.len() == 0 {
        Seq::empty()
    } else {
        let d = ps.last();
        let prev = proposed_types(ps.drop_last(), t, e);
        if d.op == Op::Assert && d.attribute == t && d.entity == e && d.value is Ref {
            prev.push(d.value->Ref_0)
        } else {
            prev
        }
    }
}

/// `x` inserted into ascending `v`.
pub open spec fn insert_id(x: i64, v: Seq<i64>) -> Seq<i64>
    decreases v.len(),
{
    if v.len() == 0 {
        seq![x]
    } else if x < v[0] {
        seq![x] + v
    } else {
        seq![v[0]] + insert_id(x, v.drop_first())
    }
}

/// `v` in ascending order.
pub open spec fn sort_ids(v: Seq<i64>) -> Seq<i64>
    decreases v.len(),
{
    if v.len() == 0 {
        Seq::empty()
    } else {
        insert_id(v.last(), sort_ids(v.drop_last()))
    }
}

/// Every class of `e`, proposed or already stated, each once, ascending.
pub open spec fn type_ids(s: &Store, ps: Seq<DatumView>, t: i64, e: i64) -> Seq<i64> {
    sort_ids(dedup(proposed_types(ps, t, e) + refs_in(facts_of(s, e), t)))
}

/// The IRIs of the interned ids among `ids`, in order.
pub open spec fn known_names(s: &Store, ids: Seq<i64>) -> Seq<Seq<char>>
    decreases ids.len(),
{
    if ids.len() == 0 {
        Seq::empty()
    } else {
        let prev = known_names(s, ids.drop_last());
        if s.has_term(ids.last()) {
            prev.push(s.term(ids.last()))
        } else {
            prev
        }
    }
}

/// The disjoint pairs `(a, x)` for `x` in `rest`, in order.
pub open spec fn pair_hits(ax: AxView, a: Seq<char>, rest: Seq<Seq<char>>) -> Seq<PairView>
    decreases rest.len(),
{
    if rest.len() == 0 {
        Seq::empty()
    } else {
        let prev = pair_hits(ax, a, rest.drop_last());
        if ax.disjoint_with.contains((a, rest.last())) {
            prev.push((a, rest.last()))
        } else {
            prev
        }
    }
}

/// The disjoint pairs `(names[i], names[j])`, `i < j`, in order.
pub open spec fn all_hits(ax: AxView, names: Seq<Seq<char>>) -> Seq<PairView>
    decreases names.len(),
{
    if names.len() == 0 {
        Seq::empty()
    } else {
        pair_hits(ax, names[0], names.drop_first()) + all_hits(ax, names.drop_first())
    }
}

/// How a violation names entity `e`.
pub open spec fn focus_of(s: &Store, e: i64) -> Seq<char> {
    if s.has_term(e) {
        s.term(e)
    } else {
        "entity:"@ + signed_decimal(e as int)
    }
}

/// The message of a disjoint-class violation.
pub open spec fn disjoint_msg(focus: Seq<char>, a: Seq<char>, b: Seq<char>) -> Seq<char> {
    focus + " cannot be both <"@ + a + "> and <"@ + b + "> (disjoint classes)"@
}

/// The message of a functional-property violation.
pub open spec fn functional_msg(focus: Seq<char>, n: nat, p: Seq<char>) -> Seq<char> {
    focus + " has "@ + decimal(n) + " values for functional property <"@ + p + "> (max 1)"@
}

/// The violations for the disjoint pairs `hits` of entity `e`.
pub open spec fn hit_violations(s: &Store, e: i64, hits: Seq<PairView>) -> Seq<ViolationView>
    decreases hits.len(),
{
    if hits.len() == 0 {
        Seq::empty()
    } else {
        let (a, b) = hits.last();
        hit_violations(s, e, hits.drop_last()).push((KindView::Disjoint(a, b), focus_of(s, e), disjoint_msg(focus_of(s, e), a, b)))
    }
}

/// The disjoint-class violations of entities `ents`, in order.
pub open spec fn disjoint_violations(ax: AxView, s: &Store, ps: Seq<DatumView>, t: i64, ents: Seq<i64>) -> Seq<ViolationView>
    decreases ents.len(),
{
    if ents.len() == 0 {
        Seq::empty()
    } else {
        let e = ents.last();
        disjoint_violations(ax, s, ps, t, ents.drop_last()) + hit_violations(
            s,
            e,
            all_hits(ax, known_names(s, type_ids(s, ps, t, e))),
        )
    }
}

/// The `(entity, attribute)` keys of the proposed assertions, each once.
pub open spec fn assert_keys(ps: Seq<DatumView>) -> Seq<(i64, i64)>
    decreases ps.len(),
{
    if ps.len() == 0 {
        Seq::empty()
    } else {
        let prev = assert_keys(ps.drop_last());
        let d = ps.last();
        if d.op == Op::Assert && !prev.contains((d.entity, d.attribute)) {
            prev.push((d.entity, d.attribute))
        } else {
            prev
        }
    }
}

/// The proposed values for `(e, a)`, in order.
pub open spec fn proposed_values(ps: Seq<DatumView>, e: i64, a: i64) -> Seq<ValueView>
    decreases ps.len(),
{
    if ps.len() == 0 {
        Seq::empty()
    } else {
        let d = ps.last();
        let prev = proposed_values(ps.drop_last(), e, a);
        if d.op == Op::Assert && d.entity == e && d.attribute == a {
            prev.push(d.value)
        } else {
            prev
        }
    }
}

/// The values of attribute `a` among `facts`, in order.
pub open spec fn values_in(facts: Seq<FactView>, a: i64) -> Seq<ValueView>
    decreases facts.len(),
{
    if facts.len() == 0 {
        Seq::empty()
    } else {
        let prev = values_in(facts.drop_last(), a);
        if facts.last().attribute == a {
            prev.push(facts.last().value)
        } else {
            prev
        }
    }
}

/// How many distinct values `(e, a)` would carry.
pub open spec fn distinct_values(s: &Store, ps: Seq<DatumView>, e: i64, a: i64) -> nat {
    dedup(proposed_values(ps, e, a) + values_in(facts_of(s, e), a)).len()
}

/// The functional-property violations over `keys`, in order.
pub open spec fn functional_violations(ax: AxView, s: &Store, ps: Seq<DatumView>, keys: Seq<(i64, i64)>) -> Seq<ViolationView>
    decreases keys.len(),
{
    if keys.len() == 0 {
        Seq::empty()
    } else {
        let prev = functional_violations(ax, s, ps, keys.drop_last());
        let (e, a) = keys.last();
        let n = distinct_values(s, ps, e, a);
        if s.has_term(a) && ax.functional_properties.contains(s.term(a)) && n > 1 {
            prev.push((KindView::Functional(s.term(a), n), focus_of(s, e), functional_msg(focus_of(s, e), n, s.term(a))))
        } else {
            prev
        }
    }
}

/// `(e, a)` is asserted somewhere in `ps`.
pub open spec fn asserts_key(ps: Seq<DatumView>, e: i64, a: i64) -> bool {
    exists|i: int| 0 <= i < ps.len() && (#[trigger] ps[i]).op == Op::Assert && ps[i].entity == e && ps[i].attribute == a
}

/// `a` is a functional property under `ax` for which `(e, a)` has more than
/// one distinct value, proposed or current.
pub open spec fn multi_valued(ax: AxView, s: &Store, ps: Seq<DatumView>, e: i64, a: i64) -> bool {
    s.has_term(a) && ax.functional_properties.contains(s.term(a)) && distinct_values(s, ps, e, a) > 1
}

/// The functional-property violation of `(e, a)`.
pub open spec fn functional_violation(s: &Store, ps: Seq<DatumView>, e: i64, a: i64) -> ViolationView {
    let n = distinct_values(s, ps, e, a);
    (KindView::Functional(s.term(a), n), focus_of(s, e), functional_msg(focus_of(s, e), n, s.term(a)))
}

proof fn lemma_assert_keys_are_the_asserted(ps: Seq<DatumView>)
    ensures
        forall|e: i64, a: i64| #[trigger] assert_keys(ps).contains((e, a)) <==> asserts_key(ps, e, a),
    decreases ps.len(),
{
    if ps.len() > 0 {
        let pre = ps.drop_last();
        let d = ps.last();
        let kp = assert_keys(pre);
        let kk = assert_keys(ps);
        lemma_assert_keys_are_the_asserted(pre);
        assert forall|e: i64, a: i64| #[trigger] kk.contains((e, a)) <==> (kp.contains((e, a)) || (d.op == Op::Assert
            && d.entity == e && d.attribute == a)) by {
            if d.op == Op::Assert && !kp.contains((d.entity, d.attribute)) {
                assert(kk == kp.push((d.entity, d.attribute)));
                if kk.contains((e, a)) {
                    let j = choose|j: int| 0 <= j < kk.len() && kk[j] == (e, a);
                    if j < kp.len() {
                        assert(kp[j] == kk[j]);
                    }
                }
                if kp.contains((e, a)) {
                    let j = choose|j: int| 0 <= j < kp.len() && kp[j] == (e, a);
                    assert(kk[j] == kp[j]);
                }
                assert(kk[kk.len() - 1] == (d.entity, d.attribute));
            } else {
                assert(kk == kp);
            }
        }
        assert forall|e: i64, a: i64| asserts_key(ps, e, a) <==> (asserts_key(pre, e, a) || (d.op == Op::Assert
            && d.entity == e && d.attribute == a)) by {
            if asserts_key(pre, e, a) {
                let i = choose|i: int| 0 <= i < pre.len() && (#[trigger] pre[i]).op == Op::Assert && pre[i].entity == e
                    && pre[i].attribute == a;
                assert(ps[i] == pre[i]);
            }
            if asserts_key(ps, e, a) {
                let i = choose|i: int| 0 <= i < ps.len() && (#[trigger] ps[i]).op == Op::Assert && ps[i].entity == e
                    && ps[i].attribute == a;
                if i < pre.len() {
                    assert(pre[i] == ps[i]);
                }
            }
            if d.op == Op::Assert && d.entity == e && d.attribute == a {
                assert(ps[ps.len() - 1] == d);
            }
        }
    }
}

proof fn lemma_functional_violations_of_keys(ax: AxView, s: &Store, ps: Seq<DatumView>, keys: Seq<(i64, i64)>)
    ensures
        forall|e: i64, a: i64|
            keys.contains((e, a)) && #[trigger] multi_valued(ax, s, ps, e, a) ==> functional_violations(
                ax,
                s,
                ps,
                keys,
            ).contains(functional_violation(s, ps, e, a)),
        forall|v: ViolationView|
            #[trigger] functional_violations(ax, s, ps, keys).contains(v) ==> exists|e: i64, a: i64|
                keys.contains((e, a)) && multi_valued(ax, s, ps, e, a) && v == #[trigger] functional_violation(s, ps, e, a),
    decreases keys.len(),
{
    if keys.len() > 0 {
        let pre = keys.drop_last();
        lemma_functional_violations_of_keys(ax, s, ps, pre);
        let fp = functional_violations(ax, s, ps, pre);
        let fk = functional_violations(ax, s, ps, keys);
        let (le, la) = keys.last();
        assert forall|e: i64, a: i64| keys.contains((e, a)) && #[trigger] multi_valued(ax, s, ps, e, a) implies fk.contains(
            functional_violation(s, ps, e, a),
        ) by {
            let j = choose|j: int| 0 <= j < keys.len() && keys[j] == (e, a);
            if j < pre.len() {
                assert(pre[j] == keys[j]);
                let m = choose|m: int| 0 <= m < fp.len() && fp[m] == functional_violation(s, ps, e, a);
                assert(fk[m] == fp[m]);
            } else {
                assert(fk[fk.len() - 1] == functional_violation(s, ps, e, a));
            }
        }
        assert forall|v: ViolationView| #[trigger] fk.contains(v) implies exists|e: i64, a: i64|
            keys.contains((e, a)) && multi_valued(ax, s, ps, e, a) && v == #[trigger] functional_violation(s, ps, e, a) by {
            let m = choose|m: int| 0 <= m < fk.len() && fk[m] == v;
            if m < fp.len() {
                assert(fk[m] == fp[m]);
                assert(fp.contains(v));
                let (e, a) = choose|e: i64, a: i64|
                    pre.contains((e, a)) && multi_valued(ax, s, ps, e, a) && v == #[trigger] functional_violation(s, ps, e, a);
                let j = choose|j: int| 0 <= j < pre.len() && pre[j] == (e, a);
                assert(keys[j] == pre[j]);
            } else {
                assert(keys[keys.len() - 1] == (le, la));
                assert(v == functional_violation(s, ps, le, la));
            }
        }
    }
}

proof fn lemma_hit_kinds(s: &Store, e: i64, hits: Seq<PairView>)
    ensures
        forall|k: int| 0 <= k < hit_violations(s, e, hits).len() ==> (#[trigger] hit_violations(s, e, hits)[k]).0 is Disjoint,
    decreases hits.len(),
{
    if hits.len() > 0 {
        lemma_hit_kinds(s, e, hits.drop_last());
        let pre = hit_violations(s, e, hits.drop_last());
        assert forall|k: int| 0 <= k < hit_violations(s, e, hits).len() implies (#[trigger] hit_violations(s, e, hits)[k]).0 is Disjoint by {
            if k < pre.len() {
                assert(hit_violations(s, e, hits)[k] == pre[k]);
            }
        }
    }
}

proof fn lemma_disjoint_kinds(ax: AxView, s: &Store, ps: Seq<DatumView>, t: i64, ents: Seq<i64>)
    ensures
        forall|k: int|
            0 <= k < disjoint_violations(ax, s, ps, t, ents).len() ==> (#[trigger] disjoint_violations(ax, s, ps, t, ents)[k]).0 is Disjoint,
    decreases ents.len(),
{
    if ents.len() > 0 {
        lemma_disjoint_kinds(ax, s, ps, t, ents.drop_last());
        let pre = disjoint_violations(ax, s, ps, t, ents.drop_last());
        let e = ents.last();
        let h = hit_violations(s, e, all_hits(ax, known_names(s, type_ids(s, ps, t, e))));
        lemma_hit_kinds(s, e, all_hits(ax, known_names(s, type_ids(s, ps, t, e))));
        assert forall|k: int| 0 <= k < disjoint_violations(ax, s, ps, t, ents).len() implies (#[trigger] disjoint_violations(ax, s, ps, t, ents)[k]).0 is Disjoint by {
            if k < pre.len() {
                assert(disjoint_violations(ax, s, ps, t, ents)[k] == pre[k]);
            } else {
                assert(disjoint_violations(ax, s, ps, t, ents)[k] == h[k - pre.len()]);
            }
        }
    }
}

/// Law: a write is flagged for a functional property exactly for each
/// entity and functional property it asserts that would then hold more than
/// one distinct value (current and proposed together), and the violation
/// reports that number of values.
pub proof fn law_functional_violations_are_the_multi_valued_keys(ax: AxView, s: &Store, ps: Seq<DatumView>)
    ensures
        forall|e: i64, a: i64|
            asserts_key(ps, e, a) && #[trigger] multi_valued(ax, s, ps, e, a) ==> violations_of(ax, s, ps).contains(
                functional_violation(s, ps, e, a),
            ),
        forall|v: ViolationView|
            #[trigger] violations_of(ax, s, ps).contains(v) && v.0 is Functional ==> exists|e: i64, a: i64|
                asserts_key(ps, e, a) && multi_valued(ax, s, ps, e, a) && v == #[trigger] functional_violation(s, ps, e, a),
{
    lemma_assert_keys_are_the_asserted(ps);
    lemma_functional_violations_of_keys(ax, s, ps, assert_keys(ps));
    let dis = match s.id_of(RDF_TYPE@) {
        None => Seq::empty(),
        Some(t) => disjoint_violations(ax, s, ps, t, dedup(type_subjects(ps, t))),
    };
    let fv = functional_violations(ax, s, ps, assert_keys(ps));
    assert(violations_of(ax, s, ps) == dis + fv);
    assert forall|e: i64, a: i64| asserts_key(ps, e, a) && #[trigger] multi_valued(ax, s, ps, e, a) implies violations_of(
        ax,
        s,
        ps,
    ).contains(functional_violation(s, ps, e, a)) by {
        assert(assert_keys(ps).contains((e, a)));
        let m = choose|m: int| 0 <= m < fv.len() && fv[m] == functional_violation(s, ps, e, a);
        assert((dis + fv)[dis.len() + m] == fv[m]);
    }
    assert forall|v: ViolationView| #[trigger] violations_of(ax, s, ps).contains(v) && v.0 is Functional implies exists|
        e: i64,
        a: i64,
    | asserts_key(ps, e, a) && multi_valued(ax, s, ps, e, a) && v == #[trigger] functional_violation(s, ps, e, a) by {
        let m = choose|m: int| 0 <= m < (dis + fv).len() && (dis + fv)[m] == v;
        if m < dis.len() {
            assert(dis[m] == v);
            match s.id_of(RDF_TYPE@) {
                None => {},
                Some(t) => lemma_disjoint_kinds(ax, s, ps, t, dedup(type_subjects(ps, t))),
            }
            assert(false);
        } else {
            assert(fv[m - dis.len()] == v);
            assert(fv.contains(v));
            let (e, a) = choose|e: i64, a: i64|
                assert_keys(ps).contains((e, a)) && multi_valued(ax, s, ps, e, a) && v == #[trigger] functional_violation(s, ps, e, a);
            assert(assert_keys(ps).contains((e, a)));
        }
    }
}

/// Every violation `proposed` would cause in `s`: disjoint classes first
/// (entities in first-proposed order, class pairs by ascending class id),
/// then functional properties (keys in first-proposed order).
pub open spec fn violations_of(ax: AxView, s: &Store, ps: Seq<DatumView>) -> Seq<ViolationView> {
    let dis = match s.id_of(RDF_TYPE@) {
        None => Seq::empty(),
        Some(t) => disjoint_violations(ax, s, ps, t, dedup(type_subjects(ps, t))),
    };
    dis + functional_violations(ax, s, ps, assert_keys(ps))
}

/// The entities `proposed` types, each once, in first-proposed order.
fn typed_entities(proposed: &[Datum], t: i64) -> (r: Vec<i64>)
    ensures
        r@ == dedup(type_subjects(datums_view(proposed@), t)),
{
    let ghost pv = datums_view(proposed@);
    let mut r: Vec<i64> = Vec::new();
    let mut i: usize = 0;
    while i < proposed.len()
        invariant
            i <= proposed@.len(),
            pv == datums_view(proposed@),
            r@ == dedup(type_subjects(pv.take(i as int), t)),
        decreases proposed.len() - i,
    {
        let d = &proposed[i];
        proof {
            assert(pv.take(i + 1).drop_last() =~= pv.take(i as int));
            assert(pv.take(i + 1).last() == d@);
        }
        if d.op == Op::Assert && d.attribute == t {
            if let Value::Ref(_) = &d.value {
                if !contains_id(&r, d.entity) {
                    r.push(d.entity);
                }
                proof {
                    let ts = type_subjects(pv.take(i + 1), t);
                    assert(ts.drop_last() =~= type_subjects(pv.take(i as int), t));
                }
            }
        }
        i = i + 1;
    }
    proof {
        assert(pv.take(pv.len() as int) =~= pv);
    }
    r
}

/// The classes `proposed` gives `e`, in order.
fn proposed_types_of(proposed: &[Datum], t: i64, e: i64) -> (r: Vec<i64>)
    ensures
        r@ == proposed_types(datums_view(proposed@), t, e),
{
    let ghost pv = datums_view(proposed@);
    let mut r: Vec<i64> = Vec::new();
    let mut i: usize = 0;
    while i < proposed.len()
        invariant
            i <= proposed@.len(),
            pv == datums_view(proposed@),
            r@ == proposed_types(pv.take(i as int), t, e),
        decreases proposed.len() - i,
    {
        let d = &proposed[i];
        proof {
            assert(pv.take(i + 1).drop_last() =~= pv.take(i as int));
            assert(pv.take(i + 1).last() == d@);
        }
        if d.op == Op::Assert && d.attribute == t && d.entity == e {
            if let Value::Ref(c) = &d.value {
                r.push(*c);
            }
        }
        i = i + 1;
    }
    proof {
        assert(pv.take(pv.len() as int) =~= pv);
    }
    r
}

/// `v` with later repeats dropped.
fn dedup_ids(v: &Vec<i64>) -> (r: Vec<i64>)
    ensures
        r@ == dedup(v@),
{
    let mut r: Vec<i64> = Vec::new();
    let mut i: usize = 0;
    while i < v.len()
        invariant
            i <= v@.len(),
            r@ == dedup(v@.take(i as int)),
        decreases v.len() - i,
    {
        proof {
            assert(v@.take(i + 1).drop_last() =~= v@.take(i as int));
            assert(v@.take(i + 1).last() == v@[i as int]);
        }
        if !contains_id(&r, v[i]) {
            r.push(v[i]);
        }
        i = i + 1;
    }
    proof {
        assert(v@.take(v@.len() as int) =~= v@);
    }
    r
}

proof fn lemma_insert_id_at(x: i64, v: Seq<i64>, j: int)
    requires
        0 <= j <= v.len(),
        forall|k: int| 0 <= k < j ==> !(x < #[trigger] v[k]),
        j < v.len() ==> x < v[j],
    ensures
        insert_id(x, v) == v.insert(j, x),
    decreases j,
{
    if j == 0 {
        if v.len() == 0 {
            assert(v.insert(0, x) =~= seq![x]);
        } else {
            assert(v.insert(0, x) =~= seq![x] + v);
        }
    } else {
        let t = v.drop_first();
        assert(!(x < v[0]));
        assert forall|k: int| 0 <= k < j - 1 implies !(x < #[trigger] t[k]) by {
            assert(t[k] == v[k + 1]);
        }
        if j < v.len() {
            assert(t[j - 1] == v[j]);
        }
        lemma_insert_id_at(x, t, j - 1);
        assert(seq![v[0]] + t.insert(j - 1, x) =~= v.insert(j, x));
    }
}

/// `v` in ascending order (stable insertion sort).
fn sorted_ids(v: &Vec<i64>) -> (r: Vec<i64>)
    ensures
        r@ == sort_ids(v@),
{
    let mut r: Vec<i64> = Vec::new();
    let mut i: usize = 0;
    while i < v.len()
        invariant
            i <= v@.len(),
            r@ == sort_ids(v@.take(i as int)),
        decreases v.len() - i,
    {
        let x = v[i];
        let ghost cur = r@;
        let mut j: usize = 0;
        while j < r.len() && !(x < r[j])
            invariant
                j <= r@.len(),
                cur == r@,
                forall|k: int| 0 <= k < j ==> !(x < #[trigger] cur[k]),
            decreases r.len() - j,
        {
            j = j + 1;
        }
        proof {
            assert(v@.take(i + 1).drop_last() =~= v@.take(i as int));
            assert(v@.take(i + 1).last() == x);
            lemma_insert_id_at(x, cur, j as int);
        }
        r.insert(j, x);
        i = i + 1;
    }
    proof {
        assert(v@.take(v@.len() as int) =~= v@);
    }
    r
}

/// The IRIs of the interned ids among `ids`, in order.
fn names_of_known(store: &Store, ids: &Vec<i64>) -> (r: Vec<String>)
    requires
        store.wf(),
    ensures
        names_view(r@) == known_names(store, ids@),
{
    let mut r: Vec<String> = Vec::new();
    let mut i: usize = 0;
    while i < ids.len()
        invariant
            store.wf(),
            i <= ids@.len(),
            names_view(r@) == known_names(store, ids@.take(i as int)),
        decreases ids.len() - i,
    {
        proof {
            assert(ids@.take(i + 1).drop_last() =~= ids@.take(i as int));
            assert(ids@.take(i + 1).last() == ids@[i as int]);
        }
        let ghost before = names_view(r@);
        match store.resolve(ids[i]) {
            Ok(name) => {
                r.push(name);
                proof {
                    assert(names_view(r@) =~= before.push(store.term(ids@[i as int])));
                }
            },
            Err(_) => {},
        }
        i = i + 1;
    }
    proof {
        assert(ids@.take(ids@.len() as int) =~= ids@);
    }
    r
}

/// Every class of `e`, proposed or already stated, each once, ascending.
fn types_of(store: &Store, proposed: &[Datum], t: i64, e: i64) -> (r: Vec<i64>)
    requires
        store.wf(),
        store.id_of(RDF_TYPE@) == Some(t),
    ensures
        r@ == type_ids(store, datums_view(proposed@), t, e),
{
    let mut all = proposed_types_of(proposed, t, e);
    let existing = ref_values(store, e, RDF_TYPE);
    let ghost first = all@;
    let mut k: usize = 0;
    while k < existing.len()
        invariant
            k <= existing@.len(),
            all@ == first + existing@.take(k as int),
        decreases existing.len() - k,
    {
        all.push(existing[k]);
        proof {
            assert(all@ =~= first + existing@.take(k + 1));
        }
        k = k + 1;
    }
    proof {
        assert(existing@.take(existing@.len() as int) =~= existing@);
    }
    let distinct = dedup_ids(&all);
    sorted_ids(&distinct)
}

/// How a violation names entity `e`.
fn focus_name(store: &Store, e: i64) -> (r: String)
    requires
        store.wf(),
    ensures
        r@ == focus_of(store, e),
{
    match store.resolve(e) {
        Ok(name) => name,
        Err(_) => {
            let mut s = owned("entity:");
            let n = i64_to_string(e);
            push_str(&mut s, n.as_str());
            s
        },
    }
}

/// The disjoint pairs among `names` (`i < j`), in order.
fn disjoint_pairs(ax: &super::Axioms, names: &Vec<String>) -> (r: Vec<(String, String)>)
    ensures
        pairs_view(r@) == all_hits(ax@, names_view(names@)),
{
    let ghost nv = names_view(names@);
    let mut r: Vec<(String, String)> = Vec::new();
    let mut i: usize = 0;
    proof {
        assert(nv.subrange(0, nv.len() as int) =~= nv);
        assert(pairs_view(r@) + all_hits(ax@, nv.subrange(0, nv.len() as int)) =~= all_hits(ax@, nv));
    }
    while i < names.len()
        invariant
            i <= names@.len(),
            nv == names_view(names@),
            pairs_view(r@) + all_hits(ax@, nv.subrange(i as int, nv.len() as int)) == all_hits(ax@, nv),
        decreases names.len() - i,
    {
        let ghost rest = nv.subrange(i + 1, nv.len() as int);
        let ghost base = pairs_view(r@);
        proof {
            let tail = nv.subrange(i as int, nv.len() as int);
            assert(tail.drop_first() =~= rest);
            assert(tail[0] == names@[i as int]@);
        }
        let a = &names[i];
        let mut j: usize = i + 1;
        while j < names.len()
            invariant
                i < j <= names@.len(),
                i < names@.len(),
                nv == names_view(names@),
                rest == nv.subrange(i + 1, nv.len() as int),
                a@ == nv[i as int],
                pairs_view(r@) == base + pair_hits(ax@, a@, rest.take(j - i - 1)),
            decreases names.len() - j,
        {
            let ghost before = pairs_view(r@);
            proof {
                assert(rest.take(j - i).drop_last() =~= rest.take(j - i - 1));
                assert(rest.take(j - i).last() == names@[j as int]@);
            }
            if super::has_pair(&ax.disjoint_with, a, &names[j]) {
                r.push((a.clone(), names[j].clone()));
                proof {
                    assert(pairs_view(r@) =~= before.push((a@, names@[j as int]@)));
                }
            }
            j = j + 1;
        }
        proof {
            assert(rest.take(rest.len() as int) =~= rest);
            let tail = nv.subrange(i as int, nv.len() as int);
            assert(all_hits(ax@, tail) == pair_hits(ax@, a@, rest) + all_hits(ax@, rest));
            assert(pairs_view(r@) + all_hits(ax@, rest) =~= base + all_hits(ax@, tail));
        }
        i = i + 1;
    }
    proof {
        assert(nv.subrange(nv.len() as int, nv.len() as int) =~= Seq::<Seq<char>>::empty());
        assert(pairs_view(r@) =~= all_hits(ax@, nv));
    }
    r
}

/// The violations for the disjoint pairs of entity `e`.
fn disjoint_violations_of(store: &Store, e: i64, hits: &Vec<(String, String)>) -> (r: Vec<OwlViolation>)
    requires
        store.wf(),
    ensures
        violations_view(r@) == hit_violations(store, e, pairs_view(hits@)),
{
    let ghost hv = pairs_view(hits@);
    let focus = focus_name(store, e);
    let mut r: Vec<OwlViolation> = Vec::new();
    let mut i: usize = 0;
    while i < hits.len()
        invariant
            store.wf(),
            i <= hits@.len(),
            hv == pairs_view(hits@),
            focus@ == focus_of(store, e),
            violations_view(r@) == hit_violations(store, e, hv.take(i as int)),
        decreases hits.len() - i,
    {
        let (a, b) = &hits[i];
        let mut message = focus.clone();
        push_str(&mut message, " cannot be both <");
        push_str(&mut message, a.as_str());
        push_str(&mut message, "> and <");
        push_str(&mut message, b.as_str());
        push_str(&mut message, "> (disjoint classes)");
        let v = OwlViolation {
            kind: ViolationKind::DisjointClass { class_a: a.clone(), class_b: b.clone() },
            focus_node: focus.clone(),
            message,
        };
        let ghost before = violations_view(r@);
        r.push(v);
        proof {
            assert(hv.take(i + 1).drop_last() =~= hv.take(i as int));
            assert(hv.take(i + 1).last() == (a@, b@));
            assert(violations_view(r@) =~= before.push(v@));
            assert(v@ == (KindView::Disjoint(a@, b@), focus_of(store, e), disjoint_msg(focus_of(store, e), a@, b@)));
        }
        i = i + 1;
    }
    proof {
        assert(hv.take(hv.len() as int) =~= hv);
    }
    r
}

/// The `(entity, attribute)` keys of the proposed assertions, each once.
fn keys_of(proposed: &[Datum]) -> (r: Vec<(i64, i64)>)
    ensures
        r@ == assert_keys(datums_view(proposed@)),
{
    let ghost pv = datums_view(proposed@);
    let mut r: Vec<(i64, i64)> = Vec::new();
    let mut i: usize = 0;
    while i < proposed.len()
        invariant
            i <= proposed@.len(),
            pv == datums_view(proposed@),
            r@ == assert_keys(pv.take(i as int)),
        decreases proposed.len() - i,
    {
        let d = &proposed[i];
        proof {
            assert(pv.take(i + 1).drop_last() =~= pv.take(i as int));
            assert(pv.take(i + 1).last() == d@);
        }
        if d.op == Op::Assert {
            let mut seen = false;
            let mut k: usize = 0;
            while k < r.len()
                invariant
                    k <= r@.len(),
                    seen == exists|m: int| 0 <= m < k && r@[m] == (d.entity, d.attribute),
                decreases r.len() - k,
            {
                if r[k].0 == d.entity && r[k].1 == d.attribute {
                    seen = true;
                }
                k = k + 1;
            }
            if !seen {
                r.push((d.entity, d.attribute));
            }
        }
        i = i + 1;
    }
    proof {
        assert(pv.take(pv.len() as int) =~= pv);
    }
    r
}

/// Whether `x` is one of `v`, by content.
fn contains_value(v: &Vec<Value>, x: &Value) -> (r: bool)
    ensures
        r == v@.map_values(|y: Value| y@).contains(x@),
{
    let ghost vv = v@.map_values(|y: Value| y@);
    let mut i: usize = 0;
    while i < v.len()
        invariant
            i <= v@.len(),
            vv == v@.map_values(|y: Value| y@),
            forall|k: int| 0 <= k < i ==> vv[k] != x@,
        decreases v.len() - i,
    {
        if v[i].same(x) {
            proof {
                assert(vv[i as int] == x@);
            }
            return true;
        }
        i = i + 1;
    }
    false
}

/// How many distinct values `(e, a)` would carry.
fn count_distinct(store: &Store, proposed: &[Datum], e: i64, a: i64) -> (n: usize)
    requires
        store.wf(),
    ensures
        n as nat == distinct_values(store, datums_view(proposed@), e, a),
{
    let ghost pv = datums_view(proposed@);
    let mut all: Vec<Value> = Vec::new();
    let mut i: usize = 0;
    while i < proposed.len()
        invariant
            i <= proposed@.len(),
            pv == datums_view(proposed@),
            all@.map_values(|y: Value| y@) == proposed_values(pv.take(i as int), e, a),
        decreases proposed.len() - i,
    {
        let d = &proposed[i];
        proof {
            assert(pv.take(i + 1).drop_last() =~= pv.take(i as int));
            assert(pv.take(i + 1).last() == d@);
        }
        let ghost before = all@.map_values(|y: Value| y@);
        if d.op == Op::Assert && d.entity == e && d.attribute == a {
            all.push(d.value.copy());
            proof {
                assert(all@.map_values(|y: Value| y@) =~= before.push(d.value@));
            }
        }
        i = i + 1;
    }
    proof {
        assert(pv.take(pv.len() as int) =~= pv);
    }
    let facts = store.entity_facts(e);
    let ghost fv = facts_view(facts@);
    let ghost first = all@.map_values(|y: Value| y@);
    let mut k: usize = 0;
    while k < facts.len()
        invariant
            k <= facts@.len(),
            fv == facts_view(facts@),
            all@.map_values(|y: Value| y@) == first + values_in(fv.take(k as int), a),
        decreases facts.len() - k,
    {
        proof {
            assert(fv.take(k + 1).drop_last() =~= fv.take(k as int));
            assert(fv.take(k + 1).last() == facts@[k as int]@);
        }
        let ghost before = all@.map_values(|y: Value| y@);
        if facts[k].attribute == a {
            all.push(facts[k].value.copy());
            proof {
                assert(all@.map_values(|y: Value| y@) =~= before.push(facts@[k as int].value@));
            }
        }
        k = k + 1;
    }
    proof {
        assert(fv.take(fv.len() as int) =~= fv);
    }
    let ghost allv = all@.map_values(|y: Value| y@);
    let mut distinct: Vec<Value> = Vec::new();
    let mut j: usize = 0;
    while j < all.len()
        invariant
            j <= all@.len(),
            allv == all@.map_values(|y: Value| y@),
            distinct@.map_values(|y: Value| y@) == dedup(allv.take(j as int)),
            distinct@.len() <= j,
        decreases all.len() - j,
    {
        proof {
            assert(allv.take(j + 1).drop_last() =~= allv.take(j as int));
            assert(allv.take(j + 1).last() == all@[j as int]@);
        }
        let ghost before = distinct@.map_values(|y: Value| y@);
        if !contains_value(&distinct, &all[j]) {
            distinct.push(all[j].copy());
            proof {
                assert(distinct@.map_values(|y: Value| y@) =~= before.push(all@[j as int]@));
            }
        }
        j = j + 1;
    }
    proof {
        assert(allv.take(allv.len() as int) =~= allv);
    }
    distinct.len()
}

/// The functional-property violations over `keys`.
fn functional_violations_of(ax: &super::Axioms, store: &Store, proposed: &[Datum], keys: &Vec<(i64, i64)>) -> (r: Vec<
    OwlViolation,
>)
    requires
        store.wf(),
    ensures
        violations_view(r@) == functional_violations(ax@, store, datums_view(proposed@), keys@),
{
    let ghost pv = datums_view(proposed@);
    let mut r: Vec<OwlViolation> = Vec::new();
    let mut i: usize = 0;
    while i < keys.len()
        invariant
            store.wf(),
            i <= keys@.len(),
            pv == datums_view(proposed@),
            violations_view(r@) == functional_violations(ax@, store, pv, keys@.take(i as int)),
        decreases keys.len() - i,
    {
        let (e, a) = keys[i];
        proof {
            assert(keys@.take(i + 1).drop_last() =~= keys@.take(i as int));
            assert(keys@.take(i + 1).last() == (e, a));
        }
        match store.resolve(a) {
            Ok(attr_iri) => {
                if super::has_name(&ax.functional_properties, &attr_iri) {
                    let n = count_distinct(store, proposed, e, a);
                    if n > 1 {
                        let focus = focus_name(store, e);
                        let mut message = focus.clone();
                        push_str(&mut message, " has ");
                        let count = usize_to_string(n);
                        push_str(&mut message, count.as_str());
                        push_str(&mut message, " values for functional property <");
                        push_str(&mut message, attr_iri.as_str());
                        push_str(&mut message, "> (max 1)");
                        let v = OwlViolation {
                            kind: ViolationKind::FunctionalProperty { property: attr_iri.clone(), count: n },
                            focus_node: focus,
                            message,
                        };
                        let ghost before = violations_view(r@);
                        r.push(v);
                        proof {
                            assert(violations_view(r@) =~= before.push(v@));
                        }
                    }
                }
            },
            Err(_) => {},
        }
        i = i + 1;
    }
    proof {
        assert(keys@.take(keys@.len() as int) =~= keys@);
    }
    r
}

impl Ontology {
    /// Validate proposed writes against the ontology's constraints, merged
    /// with the ROOT facts of `store`.
    ///
    /// An entity cannot be typed with two disjoint classes, and a functional
    /// property cannot carry more than one distinct value. An empty result
    /// means the writes are valid.
    pub fn validate(&self, store: &Store, proposed: &[Datum]) -> (r: Result<Vec<OwlViolation>, crate::value::Error>)
        requires
            store.wf(),
        ensures
            r matches Ok(v) && violations_view(v@) == violations_of(self.axioms@, store, datums_view(proposed@)),
    {
        let ghost pv = datums_view(proposed@);
        let mut out: Vec<OwlViolation> = Vec::new();
        match store.lookup(RDF_TYPE) {
            Some(t) => {
                let ents = typed_entities(proposed, t);
                let mut i: usize = 0;
                while i < ents.len()
                    invariant
                        store.wf(),
                        store.id_of(RDF_TYPE@) == Some(t),
                        i <= ents@.len(),
                        pv == datums_view(proposed@),
                        violations_view(out@) == disjoint_violations(self.axioms@, store, pv, t, ents@.take(i as int)),
                    decreases ents.len() - i,
                {
                    let e = ents[i];
                    let ids = types_of(store, proposed, t, e);
                    let names = names_of_known(store, &ids);
                    let hits = disjoint_pairs(&self.axioms, &names);
                    let found = disjoint_violations_of(store, e, &hits);
                    let ghost before = violations_view(out@);
                    let mut k: usize = 0;
                    while k < found.len()
                        invariant
                            k <= found@.len(),
                            violations_view(out@) == before + violations_view(found@).take(k as int),
                        decreases found.len() - k,
                    {
                        let ghost prior = violations_view(out@);
                        out.push(found[k].copy());
                        proof {
                            assert(violations_view(out@) =~= prior.push(found@[k as int]@));
                        }
                        proof {
                            assert(violations_view(out@) =~= before + violations_view(found@).take(k + 1));
                        }
                        k = k + 1;
                    }
                    proof {
                        assert(violations_view(found@).take(found@.len() as int) =~= violations_view(found@));
                        assert(ents@.take(i + 1).drop_last() =~= ents@.take(i as int));
                        assert(ents@.take(i + 1).last() == e);
                    }
                    i = i + 1;
                }
                proof {
                    assert(ents@.take(ents@.len() as int) =~= ents@);
                }
            },
            None => {
                proof {
                    assert(violations_view(out@) =~= Seq::<ViolationView>::empty());
                }
            },
        }
        let keys = keys_of(proposed);
        let func = functional_violations_of(&self.axioms, store, proposed, &keys);
        let ghost before = violations_view(out@);
        let mut k: usize = 0;
        while k < func.len()
            invariant
                k <= func@.len(),
                violations_view(out@) == before + violations_view(func@).take(k as int),
            decreases func.len() - k,
        {
            let ghost prior = violations_view(out@);
            out.push(func[k].copy());
            proof {
                assert(violations_view(out@) =~= prior.push(func@[k as int]@));
            }
            proof {
                assert(violations_view(out@) =~= before + violations_view(func@).take(k + 1));
            }
            k = k + 1;
        }
        proof {
            assert(violations_view(func@).take(func@.len() as int) =~= violations_view(func@));
        }
        Ok(out)
    }
}

/// `dedup` keeps the same elements, each once.
proof fn lemma_dedup_set<A>(s: Seq<A>)
    ensures
        dedup(s).no_duplicates(),
        dedup(s).to_set() == s.to_set(),
    decreases s.len(),
{
    if s.len() > 0 {
        let pre = s.drop_last();
        lemma_dedup_set(pre);
        let p = dedup(pre);
        assert forall|x: A| #[trigger] s.to_set().contains(x) == pre.to_set().insert(s.last()).contains(x) by {
            if s.contains(x) {
                let i = choose|i: int| 0 <= i < s.len() && s[i] == x;
                if i < pre.len() {
                    assert(pre[i] == x);
                }
            }
            if pre.contains(x) {
                let i = choose|i: int| 0 <= i < pre.len() && pre[i] == x;
                assert(s[i] == x);
            }
            if x == s.last() {
                assert(s[s.len() - 1] == x);
            }
        }
        assert(s.to_set() =~= pre.to_set().insert(s.last()));
        if p.contains(s.last()) {
            assert(p.to_set().contains(s.last()));
            assert(pre.to_set().insert(s.last()) =~= pre.to_set());
        } else {
            let q = p.push(s.last());
            assert forall|a: int, b: int| 0 <= a < b < q.len() implies q[a] != q[b] by {
                if b == q.len() - 1 {
                    assert(q[a] == p[a]);
                    assert(p.contains(p[a]));
                } else {
                    assert(q[a] == p[a] && q[b] == p[b]);
                }
            }
            assert forall|x: A| #[trigger] q.to_set().contains(x) == p.to_set().insert(s.last()).contains(x) by {
                if q.contains(x) {
                    let i = choose|i: int| 0 <= i < q.len() && q[i] == x;
                    if i < p.len() {
                        assert(p[i] == x);
                    }
                }
                if p.contains(x) {
                    let i = choose|i: int| 0 <= i < p.len() && p[i] == x;
                    assert(q[i] == x);
                }
                if x == s.last() {
                    assert(q[q.len() - 1] == x);
                }
            }
            assert(q.to_set() =~= p.to_set().insert(s.last()));
        }
    }
}

proof fn lemma_proposed_values_members(ps: Seq<DatumView>, e: i64, a: i64, v: ValueView)
    ensures
        proposed_values(ps, e, a).contains(v) <==> exists|i: int|
            0 <= i < ps.len() && (#[trigger] ps[i]).op == Op::Assert && ps[i].entity == e && ps[i].attribute == a
                && ps[i].value == v,
    decreases ps.len(),
{
    if ps.len() > 0 {
        let pre = ps.drop_last();
        lemma_proposed_values_members(pre, e, a, v);
        let pv = proposed_values(pre, e, a);
        let d = ps.last();
        if exists|i: int|
            0 <= i < pre.len() && (#[trigger] pre[i]).op == Op::Assert && pre[i].entity == e && pre[i].attribute == a
                && pre[i].value == v {
            let i = choose|i: int|
                0 <= i < pre.len() && (#[trigger] pre[i]).op == Op::Assert && pre[i].entity == e && pre[i].attribute == a
                    && pre[i].value == v;
            assert(ps[i] == pre[i]);
            let k = choose|k: int| 0 <= k < pv.len() && pv[k] == v;
            if d.op == Op::Assert && d.entity == e && d.attribute == a {
                assert(pv.push(d.value)[k] == v);
            }
        }
        if exists|i: int|
            0 <= i < ps.len() && (#[trigger] ps[i]).op == Op::Assert && ps[i].entity == e && ps[i].attribute == a
                && ps[i].value == v {
            let i = choose|i: int|
                0 <= i < ps.len() && (#[trigger] ps[i]).op == Op::Assert && ps[i].entity == e && ps[i].attribute == a
                    && ps[i].value == v;
            if i < pre.len() {
                assert(pre[i] == ps[i]);
                let k = choose|k: int| 0 <= k < pv.len() && pv[k] == v;
                if d.op == Op::Assert && d.entity == e && d.attribute == a {
                    assert(pv.push(d.value)[k] == v);
                }
            } else {
                assert(ps[i] == d);
                assert(pv.push(d.value)[pv.len() as int] == v);
            }
        }
        if proposed_values(ps, e, a).contains(v) {
            let k = choose|k: int| 0 <= k < proposed_values(ps, e, a).len() && proposed_values(ps, e, a)[k] == v;
            if d.op == Op::Assert && d.entity == e && d.attribute == a && k == pv.len() {
                assert(ps[ps.len() - 1] == d);
            } else {
                assert(pv[k] == v);
            }
        }
    }
}

proof fn lemma_values_in_members(facts: Seq<FactView>, a: i64, v: ValueView)
    ensures
        values_in(facts, a).contains(v) <==> exists|i: int|
            0 <= i < facts.len() && (#[trigger] facts[i]).attribute == a && facts[i].value == v,
    decreases facts.len(),
{
    if facts.len() > 0 {
        let pre = facts.drop_last();
        lemma_values_in_members(pre, a, v);
        let pv = values_in(pre, a);
        let f = facts.last();
        if exists|i: int| 0 <= i < pre.len() && (#[trigger] pre[i]).attribute == a && pre[i].value == v {
            let i = choose|i: int| 0 <= i < pre.len() && (#[trigger] pre[i]).attribute == a && pre[i].value == v;
            assert(facts[i] == pre[i]);
            let k = choose|k: int| 0 <= k < pv.len() && pv[k] == v;
            if f.attribute == a {
                assert(pv.push(f.value)[k] == v);
            }
        }
        if exists|i: int| 0 <= i < facts.len() && (#[trigger] facts[i]).attribute == a && facts[i].value == v {
            let i = choose|i: int| 0 <= i < facts.len() && (#[trigger] facts[i]).attribute == a && facts[i].value == v;
            if i < pre.len() {
                assert(pre[i] == facts[i]);
                let k = choose|k: int| 0 <= k < pv.len() && pv[k] == v;
                if f.attribute == a {
                    assert(pv.push(f.value)[k] == v);
                }
            } else {
                assert(facts[i] == f);
                assert(pv.push(f.value)[pv.len() as int] == v);
            }
        }
        if values_in(facts, a).contains(v) {
            let k = choose|k: int| 0 <= k < values_in(facts, a).len() && values_in(facts, a)[k] == v;
            if f.attribute == a && k == pv.len() {
                assert(facts[facts.len() - 1] == f);
            } else {
                assert(pv[k] == v);
            }
        }
    }
}

/// The values a write would leave on `(e, a)`: those it asserts for it and
/// those the store's ROOT graph already holds for it.
pub open spec fn values_on(s: &Store, ps: Seq<DatumView>, e: i64, a: i64) -> Set<ValueView> {
    Set::new(
        |v: ValueView|
            (exists|i: int|
                0 <= i < ps.len() && (#[trigger] ps[i]).op == Op::Assert && ps[i].entity == e && ps[i].attribute == a
                    && ps[i].value == v) || (exists|i: int|
                0 <= i < facts_of(s, e).len() && (#[trigger] facts_of(s, e)[i]).attribute == a && facts_of(s, e)[i].value
                    == v),
    )
}

proof fn lemma_count_is_of_values_on(s: &Store, ps: Seq<DatumView>, e: i64, a: i64)
    ensures
        values_on(s, ps, e, a).finite(),
        distinct_values(s, ps, e, a) == values_on(s, ps, e, a).len(),
{
    let all = proposed_values(ps, e, a) + values_in(facts_of(s, e), a);
    lemma_dedup_set(all);
    dedup(all).unique_seq_to_set();
    assert forall|v: ValueView| #[trigger] all.to_set().contains(v) == values_on(s, ps, e, a).contains(v) by {
        lemma_proposed_values_members(ps, e, a, v);
        lemma_values_in_members(facts_of(s, e), a, v);
        let pv = proposed_values(ps, e, a);
        let sv = values_in(facts_of(s, e), a);
        if all.contains(v) {
            let k = choose|k: int| 0 <= k < all.len() && all[k] == v;
            if k < pv.len() {
                assert(pv[k] == v);
            } else {
                assert(sv[k - pv.len()] == v);
            }
        }
        if pv.contains(v) {
            let k = choose|k: int| 0 <= k < pv.len() && pv[k] == v;
            assert(all[k] == v);
        }
        if sv.contains(v) {
            let k = choose|k: int| 0 <= k < sv.len() && sv[k] == v;
            assert(all[pv.len() + k] == v);
        }
    }
    assert(all.to_set() =~= values_on(s, ps, e, a));
}

/// Law: the count a functional-property check reports for `(e, a)` is the
/// number of different values among those proposed and those stored, equal
/// values counted once. So a write that only re-asserts values the store
/// already holds for `(e, a)` leaves the count where the store alone puts it.
pub proof fn law_the_count_is_of_distinct_values(s: &Store, ps: Seq<DatumView>, e: i64, a: i64)
    ensures
        values_on(s, ps, e, a).finite(),
        distinct_values(s, ps, e, a) == values_on(s, ps, e, a).len(),
        (forall|i: int|
            0 <= i < ps.len() && (#[trigger] ps[i]).op == Op::Assert && ps[i].entity == e && ps[i].attribute == a
                ==> exists|j: int|
                0 <= j < facts_of(s, e).len() && (#[trigger] facts_of(s, e)[j]).attribute == a && facts_of(s, e)[j].value
                    == ps[i].value) ==> distinct_values(s, ps, e, a) == distinct_values(s, Seq::<DatumView>::empty(), e, a),
{
    lemma_count_is_of_values_on(s, ps, e, a);
    lemma_count_is_of_values_on(s, Seq::<DatumView>::empty(), e, a);
    if forall|i: int|
        0 <= i < ps.len() && (#[trigger] ps[i]).op == Op::Assert && ps[i].entity == e && ps[i].attribute == a
            ==> exists|j: int|
            0 <= j < facts_of(s, e).len() && (#[trigger] facts_of(s, e)[j]).attribute == a && facts_of(s, e)[j].value
                == ps[i].value {
        assert(values_on(s, ps, e, a) =~= values_on(s, Seq::<DatumView>::empty(), e, a));
    }
}

} // verus!
