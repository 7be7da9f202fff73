//! The OWL 2 RL rule families, over IRI-level triples.
//!
//! Each family says which triples one pass derives from a set of premises:
//! sub-class and sub-property closure, equivalent classes, inverse, symmetric
//! and transitive properties, equivalent properties, `owl:sameAs` identity
//! and rewriting, and domain/range typing. A pass stages each derived triple
//! that is not already a premise, once, under the first family (in that
//! order) that derives it.

use vstd::prelude::*;

use crate::namespace::{OWL_SAME_AS, RDF_TYPE};
use crate::text::str_eq;

use super::reach::{edges_view, lemma_edge_reaches, lemma_reaches_has_first_edge, reach_from, reaches, Rel};
use super::triple::{contains_triple, triples_view, Obj, ObjView, Triple, TripleView};
use super::{names_view, pairs_view, AxView, Axioms, PairView};

verus! {

broadcast use vstd::seq_lib::group_seq_properties;

/// `d` is reachable from `c` over one or more `pairs`, and is not `c`.
pub open spec fn super_of(pairs: Seq<PairView>, c: Seq<char>, d: Seq<char>) -> bool {
    reaches(pairs.to_set(), c, d) && d != c
}

/// The `(subject, object)` pairs of the IRI-valued `p` premises.
pub open spec fn edge_rel(ps: Set<TripleView>, p: Seq<char>) -> Rel {
    Set::new(|e: PairView| ps.contains((e.0, p, ObjView::Iri(e.1))))
}

/// The `owl:sameAs` premises, in both directions.
pub open spec fn same_rel(ps: Set<TripleView>) -> Rel {
    Set::new(
        |e: PairView|
            ps.contains((e.0, OWL_SAME_AS@, ObjView::Iri(e.1))) || ps.contains((e.1, OWL_SAME_AS@, ObjView::Iri(e.0))),
    )
}

/// The object is an IRI.
pub open spec fn iri_obj(o: ObjView) -> bool {
    o is Iri
}

/// The IRI of an IRI object.
pub open spec fn iri_of(o: ObjView) -> Seq<char> {
    o->Iri_0
}

/// Sub-class: `x a c` and `c ⊑ d` give `x a d`.
pub open spec fn by_subclass(ax: AxView, ps: Set<TripleView>, g: TripleView) -> bool {
    &&& g.1 == RDF_TYPE@
    &&& iri_obj(g.2)
    &&& exists|c: Seq<char>|
        #[trigger] ps.contains((g.0, RDF_TYPE@, ObjView::Iri(c))) && super_of(ax.subclass_of, c, iri_of(g.2))
}

/// Sub-property: `x p v` and `p ⊑ q` give `x q v`.
pub open spec fn by_subproperty(ax: AxView, ps: Set<TripleView>, g: TripleView) -> bool {
    exists|p: Seq<char>| #[trigger] ps.contains((g.0, p, g.2)) && super_of(ax.subproperty_of, p, g.1)
}

/// Equivalent classes: an instance of either class is an instance of the
/// other.
pub open spec fn by_equivalent_class(ax: AxView, ps: Set<TripleView>, g: TripleView) -> bool {
    &&& g.1 == RDF_TYPE@
    &&& iri_obj(g.2)
    &&& exists|j: int|
        0 <= j < ax.equivalent_classes.len() && {
            let (a, b) = #[trigger] ax.equivalent_classes[j];
            ||| ps.contains((g.0, RDF_TYPE@, ObjView::Iri(a))) && iri_of(g.2) == b
            ||| ps.contains((g.0, RDF_TYPE@, ObjView::Iri(b))) && iri_of(g.2) == a
        }
}

/// Inverse properties: `s p o` and `p inverseOf q` give `o q s`.
pub open spec fn by_inverse(ax: AxView, ps: Set<TripleView>, g: TripleView) -> bool {
    &&& iri_obj(g.2)
    &&& exists|j: int|
        0 <= j < ax.inverse_of.len() && (#[trigger] ax.inverse_of[j]).1 == g.1 && ps.contains(
            (iri_of(g.2), ax.inverse_of[j].0, ObjView::Iri(g.0)),
        )
}

/// Symmetric properties: `s p o` gives `o p s`.
pub open spec fn by_symmetric(ax: AxView, ps: Set<TripleView>, g: TripleView) -> bool {
    &&& iri_obj(g.2)
    &&& ax.symmetric_properties.contains(g.1)
    &&& ps.contains((iri_of(g.2), g.1, ObjView::Iri(g.0)))
}

/// Transitive properties: a chain of `p` edges from `s` to `t` gives `s p t`.
pub open spec fn by_transitive(ax: AxView, ps: Set<TripleView>, g: TripleView) -> bool {
    &&& iri_obj(g.2)
    &&& ax.transitive_properties.contains(g.1)
    &&& reaches(edge_rel(ps, g.1), g.0, iri_of(g.2))
    &&& iri_of(g.2) != g.0
}

/// Equivalent properties: a fact under either property restates under the
/// other.
pub open spec fn by_equivalent_property(ax: AxView, ps: Set<TripleView>, g: TripleView) -> bool {
    exists|j: int|
        0 <= j < ax.equivalent_properties.len() && {
            let (p, q) = #[trigger] ax.equivalent_properties[j];
            ||| q == g.1 && ps.contains((g.0, p, g.2))
            ||| p == g.1 && ps.contains((g.0, q, g.2))
        }
}

/// `owl:sameAs`: every co-referent pair is identified (never reflexively),
/// and each fact is restated for every co-referent of its subject and of its
/// object. `owl:sameAs` facts are not rewritten.
pub open spec fn by_same_as(ps: Set<TripleView>, g: TripleView) -> bool {
    let e = same_rel(ps);
    ||| g.1 == OWL_SAME_AS@ && iri_obj(g.2) && reaches(e, g.0, iri_of(g.2)) && iri_of(g.2) != g.0
    ||| g.1 != OWL_SAME_AS@ && exists|x: Seq<char>| #[trigger] ps.contains((x, g.1, g.2)) && reaches(e, x, g.0) && g.0 != x
    ||| g.1 != OWL_SAME_AS@ && iri_obj(g.2) && exists|o: Seq<char>|
        #[trigger] ps.contains((g.0, g.1, ObjView::Iri(o))) && reaches(e, o, iri_of(g.2)) && iri_of(g.2) != o
}

/// Domain and range: the subject of a `p` fact is of `p`'s domain, the
/// (IRI) object of `p`'s range.
pub open spec fn by_domain_range(ax: AxView, ps: Set<TripleView>, g: TripleView) -> bool {
    &&& g.1 == RDF_TYPE@
    &&& iri_obj(g.2)
    &&& {
        ||| exists|j: int, v: ObjView|
            0 <= j < ax.domains.len() && (#[trigger] ax.domains[j]).1 == iri_of(g.2) && #[trigger] ps.contains(
                (g.0, ax.domains[j].0, v),
            )
        ||| exists|j: int, s: Seq<char>|
            0 <= j < ax.ranges.len() && (#[trigger] ax.ranges[j]).1 == iri_of(g.2) && #[trigger] ps.contains(
                (s, ax.ranges[j].0, ObjView::Iri(g.0)),
            )
    }
}

/// A rule family, in the order a pass applies them.
#[derive(Debug, Clone, Copy, PartialEq, Eq, Structural)]
pub enum Family {
    Subclass,
    SubProperty,
    EquivalentClass,
    Inverse,
    Symmetric,
    Transitive,
    EquivalentProperty,
    SameAs,
    DomainRange,
}

/// The position of a family in a pass.
pub open spec fn rank(f: Family) -> nat {
    match f {
        Family::Subclass => 0,
        Family::SubProperty => 1,
        Family::EquivalentClass => 2,
        Family::Inverse => 3,
        Family::Symmetric => 4,
        Family::Transitive => 5,
        Family::EquivalentProperty => 6,
        Family::SameAs => 7,
        Family::DomainRange => 8,
    }
}

/// The family at position `r`.
pub open spec fn family_at(r: nat) -> Family {
    if r == 0 {
        Family::Subclass
    } else if r == 1 {
        Family::SubProperty
    } else if r == 2 {
        Family::EquivalentClass
    } else if r == 3 {
        Family::Inverse
    } else if r == 4 {
        Family::Symmetric
    } else if r == 5 {
        Family::Transitive
    } else if r == 6 {
        Family::EquivalentProperty
    } else if r == 7 {
        Family::SameAs
    } else {
        Family::DomainRange
    }
}

/// Family `f` derives `g` from premises `ps`.
pub open spec fn derives(f: Family, ax: AxView, ps: Set<TripleView>, g: TripleView) -> bool {
    match f {
        Family::Subclass => by_subclass(ax, ps, g),
        Family::SubProperty => by_subproperty(ax, ps, g),
        Family::EquivalentClass => by_equivalent_class(ax, ps, g),
        Family::Inverse => by_inverse(ax, ps, g),
        Family::Symmetric => by_symmetric(ax, ps, g),
        Family::Transitive => by_transitive(ax, ps, g),
        Family::EquivalentProperty => by_equivalent_property(ax, ps, g),
        Family::SameAs => by_same_as(ps, g),
        Family::DomainRange => by_domain_range(ax, ps, g),
    }
}

/// Some family derives `g` from `ps`: one OWL 2 RL entailment step.
pub open spec fn entails(ax: AxView, ps: Set<TripleView>, g: TripleView) -> bool {
    exists|f: Family| #[trigger] derives(f, ax, ps, g)
}

/// `g` is a premise or already staged.
pub open spec fn covered(ps: Seq<TripleView>, out: Seq<TripleView>, g: TripleView) -> bool {
    ps.contains(g) || out.contains(g)
}

/// The staged triples of a pass: new, each once, each tagged with the first
/// family that derives it; families before position `done` are exhausted.
pub open spec fn pass_ok(
    ax: AxView,
    ps: Seq<TripleView>,
    out: Seq<TripleView>,
    tags: Seq<Family>,
    done: nat,
) -> bool {
    &&& out.len() == tags.len()
    &&& out.no_duplicates()
    &&& forall|i: int| 0 <= i < out.len() ==> !ps.contains(#[trigger] out[i])
    &&& forall|i: int|
        0 <= i < out.len() ==> derives(#[trigger] tags[i], ax, ps.to_set(), out[i]) && rank(tags[i]) <= done
    &&& forall|i: int, f: Family|
        0 <= i < out.len() && rank(f) < rank(#[trigger] tags[i]) ==> !#[trigger] derives(f, ax, ps.to_set(), out[i])
    &&& forall|f: Family, g: TripleView|
        rank(f) < done && #[trigger] derives(f, ax, ps.to_set(), g) ==> covered(ps, out, g)
}

/// A pass in progress: the staged triples and their families.
pub struct Pass {
    pub out: Vec<Triple>,
    pub tags: Vec<Family>,
}

impl Pass {
    /// The staged triples, by content.
    pub open spec fn staged(&self) -> Seq<TripleView> {
        triples_view(self.out@)
    }

    /// Stage `g` unless it is a premise or already staged.
    fn offer(&mut self, premises: &Vec<Triple>, g: Triple, fam: Family, Ghost(ax): Ghost<AxView>)
        requires
            pass_ok(ax, triples_view(premises@), old(self).staged(), old(self).tags@, rank(fam)),
            derives(fam, ax, triples_view(premises@).to_set(), g@),
        ensures
            pass_ok(ax, triples_view(premises@), final(self).staged(), final(self).tags@, rank(fam)),
            covered(triples_view(premises@), final(self).staged(), g@),
            old(self).staged().is_prefix_of(final(self).staged()),
    {
        let ghost ps = triples_view(premises@);
        let ghost before = self.staged();
        let ghost tags_before = self.tags@;
        if contains_triple(premises, &g) || contains_triple(&self.out, &g) {
            proof {
                assert(before.is_prefix_of(before));
            }
            return ;
        }
        let ghost gv = g@;
        self.out.push(g);
        self.tags.push(fam);
        proof {
            let now = self.staged();
            assert(now =~= before.push(gv));
            assert(self.tags@ =~= tags_before.push(fam));
            assert(now[now.len() - 1] == gv);
            assert(before.is_prefix_of(now)) by {
                assert(now.subrange(0, before.len() as int) =~= before);
            }
            assert forall|f: Family| rank(f) < rank(fam) implies !#[trigger] derives(f, ax, ps.to_set(), gv) by {
                if derives(f, ax, ps.to_set(), gv) {
                    assert(covered(ps, before, gv));
                }
            }
            assert forall|i: int, j: int| 0 <= i < now.len() && 0 <= j < now.len() && i != j implies now[i] != now[j] by {
                if i < before.len() && j < before.len() {
                    assert(now[i] == before[i] && now[j] == before[j]);
                } else if i < before.len() {
                    assert(now[i] == before[i]);
                    assert(before.contains(now[i]));
                } else if j < before.len() {
                    assert(now[j] == before[j]);
                    assert(before.contains(now[j]));
                }
            }
            assert forall|i: int| 0 <= i < now.len() implies !ps.contains(#[trigger] now[i]) by {
                if i < before.len() {
                    assert(now[i] == before[i]);
                }
            }
            assert forall|i: int|
                0 <= i < now.len() implies derives(#[trigger] self.tags@[i], ax, ps.to_set(), now[i]) && rank(
                    self.tags@[i],
                ) <= rank(fam) by {
                if i < before.len() {
                    assert(now[i] == before[i] && self.tags@[i] == tags_before[i]);
                }
            }
            assert forall|i: int, f: Family|
                0 <= i < now.len() && rank(f) < rank(#[trigger] self.tags@[i]) implies !#[trigger] derives(
                    f,
                    ax,
                    ps.to_set(),
                    now[i],
                ) by {
                if i < before.len() {
                    assert(now[i] == before[i] && self.tags@[i] == tags_before[i]);
                }
            }
            assert forall|f: Family, h: TripleView|
                rank(f) < rank(fam) && #[trigger] derives(f, ax, ps.to_set(), h) implies covered(ps, now, h) by {
                assert(covered(ps, before, h));
                if before.contains(h) {
                    let i = choose|i: int| 0 <= i < before.len() && before[i] == h;
                    assert(now[i] == h);
                }
            }
        }
    }
}

/// Staged membership survives further staging.
pub proof fn lemma_covered_grows(ps: Seq<TripleView>, a: Seq<TripleView>, b: Seq<TripleView>, g: TripleView)
    requires
        a.is_prefix_of(b),
        covered(ps, a, g),
    ensures
        covered(ps, b, g),
{
    if a.contains(g) {
        let i = choose|i: int| 0 <= i < a.len() && a[i] == g;
        assert(b[i] == g);
    }
}

/// Staging is a prefix order.
pub proof fn lemma_prefix_trans(a: Seq<TripleView>, b: Seq<TripleView>, c: Seq<TripleView>)
    requires
        a.is_prefix_of(b),
        b.is_prefix_of(c),
    ensures
        a.is_prefix_of(c),
{
    assert forall|i: int| 0 <= i < a.len() implies a[i] == c[i] by {
        assert(a[i] == b[i]);
    }
}

/// The members of `v` other than `x`, in order.
fn without(v: &Vec<String>, x: &str) -> (out: Vec<String>)
    requires
        names_view(v@).no_duplicates(),
    ensures
        forall|d: Seq<char>| names_view(out@).contains(d) <==> (names_view(v@).contains(d) && d != x@),
        names_view(out@).no_duplicates(),
{
    let ghost nv = names_view(v@);
    let mut out: Vec<String> = Vec::new();
    let mut i: usize = 0;
    while i < v.len()
        invariant
            i <= v@.len(),
            nv == names_view(v@),
            nv.no_duplicates(),
            names_view(out@).no_duplicates(),
            forall|d: Seq<char>| #[trigger] names_view(out@).contains(d) <==> (nv.take(i as int).contains(d) && d != x@),
        decreases v.len() - i,
    {
        let ghost before = names_view(out@);
        proof {
            assert(nv.take(i + 1) =~= nv.take(i as int).push(nv[i as int]));
            assert(nv[i as int] == v@[i as int]@);
        }
        if !str_eq(v[i].as_str(), x) {
            out.push(v[i].clone());
            proof {
                assert(names_view(out@) =~= before.push(nv[i as int]));
                assert(!nv.take(i as int).contains(nv[i as int]));
                assert(!before.contains(nv[i as int]));
            }
        }
        i = i + 1;
    }
    proof {
        assert(nv.take(nv.len() as int) =~= nv);
    }
    out
}

/// Whether `x` is a key of the closure built so far.
fn has_key(cl: &Vec<(String, Vec<String>)>, x: &str) -> (r: bool)
    ensures
        r == exists|k: int| 0 <= k < cl@.len() && (#[trigger] cl@[k]).0@ == x@,
{
    let mut i: usize = 0;
    while i < cl.len()
        invariant
            i <= cl@.len(),
            forall|k: int| 0 <= k < i ==> (#[trigger] cl@[k]).0@ != x@,
        decreases cl.len() - i,
    {
        if str_eq(cl[i].0.as_str(), x) {
            return true;
        }
        i = i + 1;
    }
    false
}

/// The transitive closure of a relation: for each source (first occurrence
/// order), everything it reaches other than itself, when that is not empty.
/// Each source is a key once; each set is non-empty and lists a target once.
pub fn transitive_closure(pairs: &Vec<(String, String)>) -> (cl: Vec<(String, Vec<String>)>)
    ensures
        forall|a: int, b: int| 0 <= a < b < cl@.len() ==> (#[trigger] cl@[a]).0@ != (#[trigger] cl@[b]).0@,
        forall|k: int| 0 <= k < cl@.len() ==> (#[trigger] cl@[k]).1@.len() > 0 && names_view(cl@[k].1@).no_duplicates(),
        forall|k: int, d: Seq<char>|
            0 <= k < cl@.len() ==> (#[trigger] names_view(cl@[k].1@).contains(d) <==> super_of(
                pairs_view(pairs@),
                cl@[k].0@,
                d,
            )),
        forall|c: Seq<char>, d: Seq<char>|
            #[trigger] super_of(pairs_view(pairs@), c, d) ==> exists|k: int| 0 <= k < cl@.len() && (#[trigger] cl@[k]).0@ == c,
{
    let ghost pv = pairs_view(pairs@);
    let mut cl: Vec<(String, Vec<String>)> = Vec::new();
    let mut i: usize = 0;
    while i < pairs.len()
        invariant
            i <= pairs@.len(),
            pv == pairs_view(pairs@),
            forall|a: int, b: int| 0 <= a < b < cl@.len() ==> (#[trigger] cl@[a]).0@ != (#[trigger] cl@[b]).0@,
            forall|k: int| 0 <= k < cl@.len() ==> (#[trigger] cl@[k]).1@.len() > 0 && names_view(cl@[k].1@).no_duplicates(),
            forall|k: int, d: Seq<char>|
                0 <= k < cl@.len() ==> (#[trigger] names_view(cl@[k].1@).contains(d) <==> super_of(pv, cl@[k].0@, d)),
            forall|c: Seq<char>, d: Seq<char>|
                #[trigger] super_of(pv, c, d) && (exists|m: int| 0 <= m < i && (#[trigger] pv[m]).0 == c) ==> exists|k: int|
                    0 <= k < cl@.len() && (#[trigger] cl@[k]).0@ == c,
        decreases pairs.len() - i,
    {
        let sub = &pairs[i].0;
        proof {
            assert(pv[i as int].0 == sub@);
            assert(edges_view(pairs@) == pv);
        }
        let reached = reach_from(pairs, sub.as_str());
        let supers = without(&reached, sub.as_str());
        let ghost before = cl@;
        let known = has_key(&cl, sub.as_str());
        if supers.len() > 0 && !known {
            cl.push((sub.clone(), supers));
        }
        proof {
            assert forall|k: int, d: Seq<char>|
                0 <= k < cl@.len() implies (#[trigger] names_view(cl@[k].1@).contains(d) <==> super_of(pv, cl@[k].0@, d)) by {
                if k < before.len() {
                    assert(cl@[k] == before[k]);
                }
            }
            assert forall|c: Seq<char>, d: Seq<char>|
                #[trigger] super_of(pv, c, d) && (exists|m: int| 0 <= m < i + 1 && (#[trigger] pv[m]).0 == c) implies exists|k: int|
                    0 <= k < cl@.len() && (#[trigger] cl@[k]).0@ == c by {
                let m = choose|m: int| 0 <= m < i + 1 && (#[trigger] pv[m]).0 == c;
                if m < i {
                    let k = choose|k: int| 0 <= k < before.len() && (#[trigger] before[k]).0@ == c;
                    assert(cl@[k] == before[k]);
                } else if known {
                    let k = choose|k: int| 0 <= k < before.len() && (#[trigger] before[k]).0@ == sub@;
                    assert(cl@[k] == before[k]);
                } else {
                    assert(names_view(reached@).contains(d));
                    assert(names_view(supers@).contains(d));
                    assert(supers@.len() > 0);
                    assert(cl@[before.len() as int].0@ == c);
                }
            }
        }
        i = i + 1;
    }
    proof {
        assert forall|c: Seq<char>, d: Seq<char>|
            #[trigger] super_of(pv, c, d) implies exists|k: int| 0 <= k < cl@.len() && (#[trigger] cl@[k]).0@ == c by {
            lemma_reaches_has_first_edge(pv.to_set(), c, d);
            let e = choose|e: Seq<char>| #[trigger] pv.to_set().contains((c, e));
            assert(pv.contains((c, e)));
            let m = choose|m: int| 0 <= m < pv.len() && pv[m] == (c, e);
            assert(pv[m].0 == c);
            assert(exists|m: int| 0 <= m < pv.len() && (#[trigger] pv[m]).0 == c);
        }
    }
    cl
}

/// Everything `c` reaches in a closure, other than itself.
fn closure_lookup(cl: &Vec<(String, Vec<String>)>, c: &str, Ghost(pv): Ghost<Seq<PairView>>) -> (r: Vec<String>)
    requires
        forall|k: int, d: Seq<char>|
            0 <= k < cl@.len() ==> (#[trigger] names_view(cl@[k].1@).contains(d) <==> super_of(pv, cl@[k].0@, d)),
        forall|c2: Seq<char>, d: Seq<char>|
            #[trigger] super_of(pv, c2, d) ==> exists|k: int| 0 <= k < cl@.len() && (#[trigger] cl@[k]).0@ == c2,
    ensures
        forall|d: Seq<char>| names_view(r@).contains(d) <==> super_of(pv, c@, d),
{
    let mut k: usize = 0;
    while k < cl.len()
        invariant
            k <= cl@.len(),
            forall|m: int| 0 <= m < k ==> (#[trigger] cl@[m]).0@ != c@,
            forall|k2: int, d: Seq<char>|
                0 <= k2 < cl@.len() ==> (#[trigger] names_view(cl@[k2].1@).contains(d) <==> super_of(pv, cl@[k2].0@, d)),
            forall|c2: Seq<char>, d: Seq<char>|
                #[trigger] super_of(pv, c2, d) ==> exists|k2: int| 0 <= k2 < cl@.len() && (#[trigger] cl@[k2]).0@ == c2,
        decreases cl.len() - k,
    {
        if str_eq(cl[k].0.as_str(), c) {
            let mut out: Vec<String> = Vec::new();
            let mut j: usize = 0;
            while j < cl[k].1.len()
                invariant
                    j <= cl@[k as int].1@.len(),
                    k < cl@.len(),
                    names_view(out@) == names_view(cl@[k as int].1@).take(j as int),
                decreases cl@[k as int].1@.len() - j,
            {
                let ghost before = names_view(out@);
                let item = cl[k].1[j].clone();
                proof {
                    assert(item@ == names_view(cl@[k as int].1@)[j as int]);
                }
                out.push(item);
                proof {
                    assert(names_view(out@) =~= before.push(item@));
                    assert(names_view(cl@[k as int].1@).take(j + 1) =~= names_view(cl@[k as int].1@).take(j as int).push(item@));
                }
                j = j + 1;
            }
            proof {
                assert(names_view(cl@[k as int].1@).take(cl@[k as int].1@.len() as int) =~= names_view(cl@[k as int].1@));
                assert forall|d: Seq<char>| names_view(out@).contains(d) <==> super_of(pv, c@, d) by {
                    assert(#[trigger] names_view(cl@[k as int].1@).contains(d) <==> super_of(pv, cl@[k as int].0@, d));
                }
            }
            return out;
        }
        k = k + 1;
    }
    let out: Vec<String> = Vec::new();
    proof {
        assert forall|d: Seq<char>| names_view(out@).contains(d) <==> super_of(pv, c@, d) by {
            if super_of(pv, c@, d) {
                let m = choose|m: int| 0 <= m < cl@.len() && (#[trigger] cl@[m]).0@ == c@;
            }
        }
    }
    out
}

/// `g` is the sub-class consequence of premise `t`.
pub open spec fn subclass_from(ax: AxView, t: TripleView, g: TripleView) -> bool {
    &&& t.1 == RDF_TYPE@
    &&& iri_obj(t.2)
    &&& g.0 == t.0
    &&& g.1 == RDF_TYPE@
    &&& iri_obj(g.2)
    &&& super_of(ax.subclass_of, iri_of(t.2), iri_of(g.2))
}

/// A premise of `ps` is at some index.
pub proof fn lemma_premise_index(ps: Seq<TripleView>, t: TripleView)
    requires
        ps.to_set().contains(t),
    ensures
        exists|m: int| 0 <= m < ps.len() && ps[m] == t,
{
    assert(ps.contains(t));
}

/// Stage the sub-class family.
fn stage_subclass(pass: &mut Pass, premises: &Vec<Triple>, ax: &Axioms)
    requires
        pass_ok(ax@, triples_view(premises@), old(pass).staged(), old(pass).tags@, 0),
    ensures
        pass_ok(ax@, triples_view(premises@), final(pass).staged(), final(pass).tags@, 1),
        old(pass).staged().is_prefix_of(final(pass).staged()),
{
    let ghost ps = triples_view(premises@);
    let ghost start = pass.staged();
    let ghost pv = ax@.subclass_of;
    let cl = transitive_closure(&ax.subclass_of);
    let mut k: usize = 0;
    while k < premises.len()
        invariant
            k <= premises@.len(),
            ps == triples_view(premises@),
            pv == ax@.subclass_of,
            pass_ok(ax@, ps, pass.staged(), pass.tags@, 0),
            start.is_prefix_of(pass.staged()),
            forall|k2: int, d: Seq<char>|
                0 <= k2 < cl@.len() ==> (#[trigger] names_view(cl@[k2].1@).contains(d) <==> super_of(pv, cl@[k2].0@, d)),
            forall|c2: Seq<char>, d: Seq<char>|
                #[trigger] super_of(pv, c2, d) ==> exists|k2: int| 0 <= k2 < cl@.len() && (#[trigger] cl@[k2]).0@ == c2,
            forall|m: int, g: TripleView| 0 <= m < k && #[trigger] subclass_from(ax@, ps[m], g) ==> covered(ps, pass.staged(), g),
        decreases premises.len() - k,
    {
        let t = &premises[k];
        proof {
            assert(ps[k as int] == t@);
        }
        let ghost mid = pass.staged();
        if str_eq(t.predicate.as_str(), RDF_TYPE) {
            if let Obj::Iri(c) = &t.object {
                let supers = closure_lookup(&cl, c.as_str(), Ghost(pv));
                let mut j: usize = 0;
                while j < supers.len()
                    invariant
                        j <= supers@.len(),
                        ps == triples_view(premises@),
                        k < premises@.len(),
                        ps[k as int] == t@,
                        t.predicate@ == RDF_TYPE@,
                        t.object@ == ObjView::Iri(c@),
                        pv == ax@.subclass_of,
                        forall|d: Seq<char>| names_view(supers@).contains(d) <==> super_of(pv, c@, d),
                        pass_ok(ax@, ps, pass.staged(), pass.tags@, 0),
                        start.is_prefix_of(pass.staged()),
                        mid.is_prefix_of(pass.staged()),
                        forall|j2: int| 0 <= j2 < j ==> covered(ps, pass.staged(),
                            (t.subject@, RDF_TYPE@, ObjView::Iri(#[trigger] supers@[j2]@))),
                    decreases supers.len() - j,
                {
                    let g = Triple {
                        subject: t.subject.clone(),
                        predicate: crate::text::owned(RDF_TYPE),
                        object: Obj::Iri(supers[j].clone()),
                    };
                    let ghost before = pass.staged();
                    proof {
                        assert(names_view(supers@)[j as int] == supers@[j as int]@);
                        assert(super_of(pv, c@, supers@[j as int]@));
                        assert(ps.contains(ps[k as int]));
                        assert(ps.to_set().contains(ps[k as int]));
                        assert(by_subclass(ax@, ps.to_set(), g@));
                        assert(derives(Family::Subclass, ax@, ps.to_set(), g@));
                    }
                    pass.offer(premises, g, Family::Subclass, Ghost(ax@));
                    proof {
                        lemma_prefix_trans(start, before, pass.staged());
                        lemma_prefix_trans(mid, before, pass.staged());
                        assert forall|j2: int| 0 <= j2 < j + 1 implies covered(ps, pass.staged(),
                            (t.subject@, RDF_TYPE@, ObjView::Iri(#[trigger] supers@[j2]@))) by {
                            if j2 < j {
                                lemma_covered_grows(ps, before, pass.staged(), (t.subject@, RDF_TYPE@, ObjView::Iri(supers@[j2]@)));
                            }
                        }
                    }
                    j = j + 1;
                }
                proof {
                    assert forall|g: TripleView| #[trigger] subclass_from(ax@, ps[k as int], g) implies covered(ps, pass.staged(), g) by {
                        assert(names_view(supers@).contains(iri_of(g.2)));
                        let j2 = choose|j2: int| 0 <= j2 < names_view(supers@).len() && names_view(supers@)[j2] == iri_of(g.2);
                        assert(supers@[j2]@ == iri_of(g.2));
                        assert(covered(ps, pass.staged(), (t.subject@, RDF_TYPE@, ObjView::Iri(supers@[j2]@))));
                    }
                }
            }
        }
        proof {
            assert forall|m: int, g: TripleView| 0 <= m < k + 1 && #[trigger] subclass_from(ax@, ps[m], g) implies covered(ps, pass.staged(), g) by {
                if m < k {
                    lemma_covered_grows(ps, mid, pass.staged(), g);
                }
            }
        }
        k = k + 1;
    }
    proof {
        let now = pass.staged();
        assert forall|f: Family, g: TripleView| rank(f) < 1 && #[trigger] derives(f, ax@, ps.to_set(), g) implies covered(ps, now, g) by {
            assert(f == Family::Subclass);
            let c = choose|c: Seq<char>| #[trigger] ps.to_set().contains((g.0, RDF_TYPE@, ObjView::Iri(c))) && super_of(ax@.subclass_of, c, iri_of(g.2));
            lemma_premise_index(ps, (g.0, RDF_TYPE@, ObjView::Iri(c)));
            let m = choose|m: int| 0 <= m < ps.len() && ps[m] == (g.0, RDF_TYPE@, ObjView::Iri(c));
            assert(subclass_from(ax@, ps[m], g));
        }
    }
}

/// `g` is the sub-property consequence of premise `t`.
pub open spec fn subprop_from(ax: AxView, t: TripleView, g: TripleView) -> bool {
    &&& g.0 == t.0
    &&& g.2 == t.2
    &&& super_of(ax.subproperty_of, t.1, g.1)
}

/// Stage the sub-property family.
fn stage_subproperty(pass: &mut Pass, premises: &Vec<Triple>, ax: &Axioms)
    requires
        pass_ok(ax@, triples_view(premises@), old(pass).staged(), old(pass).tags@, 1),
    ensures
        pass_ok(ax@, triples_view(premises@), final(pass).staged(), final(pass).tags@, 2),
        old(pass).staged().is_prefix_of(final(pass).staged()),
{
    let ghost ps = triples_view(premises@);
    let ghost start = pass.staged();
    let ghost pv = ax@.subproperty_of;
    let cl = transitive_closure(&ax.subproperty_of);
    let mut k: usize = 0;
    while k < premises.len()
        invariant
            k <= premises@.len(),
            ps == triples_view(premises@),
            pv == ax@.subproperty_of,
            pass_ok(ax@, ps, pass.staged(), pass.tags@, 1),
            start.is_prefix_of(pass.staged()),
            forall|k2: int, d: Seq<char>|
                0 <= k2 < cl@.len() ==> (#[trigger] names_view(cl@[k2].1@).contains(d) <==> super_of(pv, cl@[k2].0@, d)),
            forall|c2: Seq<char>, d: Seq<char>|
                #[trigger] super_of(pv, c2, d) ==> exists|k2: int| 0 <= k2 < cl@.len() && (#[trigger] cl@[k2]).0@ == c2,
            forall|m: int, g: TripleView| 0 <= m < k && #[trigger] subprop_from(ax@, ps[m], g) ==> covered(ps, pass.staged(), g),
        decreases premises.len() - k,
    {
        let t = &premises[k];
        proof {
            assert(ps[k as int] == t@);
        }
        let ghost mid = pass.staged();
        {
            let p = &t.predicate;
            let supers = closure_lookup(&cl, p.as_str(), Ghost(pv));
            let mut j: usize = 0;
            while j < supers.len()
                invariant
                    j <= supers@.len(),
                    ps == triples_view(premises@),
                    k < premises@.len(),
                    ps[k as int] == t@,
                    t.predicate@ == p@,
                    pv == ax@.subproperty_of,
                    forall|d: Seq<char>| names_view(supers@).contains(d) <==> super_of(pv, p@, d),
                    pass_ok(ax@, ps, pass.staged(), pass.tags@, 1),
                    start.is_prefix_of(pass.staged()),
                    mid.is_prefix_of(pass.staged()),
                    forall|j2: int| 0 <= j2 < j ==> covered(ps, pass.staged(), (t.subject@, #[trigger] supers@[j2]@, t.object@)),
                decreases supers.len() - j,
            {
                let g = Triple { subject: t.subject.clone(), predicate: supers[j].clone(), object: t.object.copy() };
                let ghost before = pass.staged();
                proof {
                    assert(names_view(supers@)[j as int] == supers@[j as int]@);
                    assert(super_of(pv, p@, supers@[j as int]@));
                    assert(ps.contains(ps[k as int]));
                    assert(ps.to_set().contains(ps[k as int]));
                    assert(ps[k as int] == (t.subject@, p@, t.object@));
                    assert(ps.to_set().contains((g@.0, p@, g@.2)));
                    assert(by_subproperty(ax@, ps.to_set(), g@));
                    assert(derives(Family::SubProperty, ax@, ps.to_set(), g@));
                }
                pass.offer(premises, g, Family::SubProperty, Ghost(ax@));
                proof {
                    lemma_prefix_trans(start, before, pass.staged());
                    lemma_prefix_trans(mid, before, pass.staged());
                    assert forall|j2: int| 0 <= j2 < j + 1 implies covered(ps, pass.staged(), (t.subject@, #[trigger] supers@[j2]@, t.object@)) by {
                        if j2 < j {
                            lemma_covered_grows(ps, before, pass.staged(), (t.subject@, supers@[j2]@, t.object@));
                        }
                    }
                }
                j = j + 1;
            }
            proof {
                assert forall|g: TripleView| #[trigger] subprop_from(ax@, ps[k as int], g) implies covered(ps, pass.staged(), g) by {
                    assert(names_view(supers@).contains(g.1));
                    let j2 = choose|j2: int| 0 <= j2 < names_view(supers@).len() && names_view(supers@)[j2] == g.1;
                    assert(supers@[j2]@ == g.1);
                    assert(covered(ps, pass.staged(), (t.subject@, supers@[j2]@, t.object@)));
                }
            }
        }
        proof {
            assert forall|m: int, g: TripleView| 0 <= m < k + 1 && #[trigger] subprop_from(ax@, ps[m], g) implies covered(ps, pass.staged(), g) by {
                if m < k {
                    lemma_covered_grows(ps, mid, pass.staged(), g);
                }
            }
        }
        k = k + 1;
    }
    proof {
        let now = pass.staged();
        assert forall|f: Family, g: TripleView| rank(f) < 2 && #[trigger] derives(f, ax@, ps.to_set(), g) implies covered(ps, now, g) by {
            if rank(f) >= 1 {
            assert(f == Family::SubProperty);
            let p = choose|p: Seq<char>| #[trigger] ps.to_set().contains((g.0, p, g.2)) && super_of(ax@.subproperty_of, p, g.1);
            lemma_premise_index(ps, (g.0, p, g.2));
            let m = choose|m: int| 0 <= m < ps.len() && ps[m] == (g.0, p, g.2);
            assert(subprop_from(ax@, ps[m], g));
            }
        }
    }
}


/// `g` is what equivalent-class pair `j` makes of premise `t`.
pub open spec fn eqclass_from(ax: AxView, j: int, t: TripleView, g: TripleView) -> bool {
    let (a, b) = ax.equivalent_classes[j];
    &&& 0 <= j < ax.equivalent_classes.len()
    &&& t.1 == RDF_TYPE@
    &&& iri_obj(t.2)
    &&& {
        ||| iri_of(t.2) == a && g == (t.0, RDF_TYPE@, ObjView::Iri(b))
        ||| iri_of(t.2) != a && iri_of(t.2) == b && g == (t.0, RDF_TYPE@, ObjView::Iri(a))
    }
}

proof fn lemma_eqclass_from(ax: AxView, ps: Seq<TripleView>, j: int, k: int, g: TripleView)
    requires
        0 <= k < ps.len(),
        eqclass_from(ax, j, ps[k], g),
    ensures
        derives(Family::EquivalentClass, ax, ps.to_set(), g),
{
    assert(ps.contains(ps[k]));
    assert(ps.to_set().contains(ps[k]));
}

/// `g` is what inverse pair `j` makes of premise `t`.
pub open spec fn inverse_from(ax: AxView, j: int, t: TripleView, g: TripleView) -> bool {
    &&& 0 <= j < ax.inverse_of.len()
    &&& t.1 == ax.inverse_of[j].0
    &&& iri_obj(t.2)
    &&& g == (iri_of(t.2), ax.inverse_of[j].1, ObjView::Iri(t.0))
}

proof fn lemma_inverse_from(ax: AxView, ps: Seq<TripleView>, j: int, k: int, g: TripleView)
    requires
        0 <= k < ps.len(),
        inverse_from(ax, j, ps[k], g),
    ensures
        derives(Family::Inverse, ax, ps.to_set(), g),
{
    assert(ps.contains(ps[k]));
    assert(ps.to_set().contains(ps[k]));
}

/// `g` is what symmetric property `j` makes of premise `t`.
pub open spec fn symmetric_from(ax: AxView, j: int, t: TripleView, g: TripleView) -> bool {
    &&& 0 <= j < ax.symmetric_properties.len()
    &&& t.1 == ax.symmetric_properties[j]
    &&& iri_obj(t.2)
    &&& g == (iri_of(t.2), t.1, ObjView::Iri(t.0))
}

proof fn lemma_symmetric_from(ax: AxView, ps: Seq<TripleView>, j: int, k: int, g: TripleView)
    requires
        0 <= k < ps.len(),
        symmetric_from(ax, j, ps[k], g),
    ensures
        derives(Family::Symmetric, ax, ps.to_set(), g),
{
    assert(ps.contains(ps[k]));
    assert(ps.to_set().contains(ps[k]));
    assert(ax.symmetric_properties.contains(ax.symmetric_properties[j]));
}

/// `g` restates premise `t` from the first property of pair `j` to the
/// second.
pub open spec fn eqprop_fwd(ax: AxView, j: int, t: TripleView, g: TripleView) -> bool {
    &&& 0 <= j < ax.equivalent_properties.len()
    &&& t.1 == ax.equivalent_properties[j].0
    &&& g == (t.0, ax.equivalent_properties[j].1, t.2)
}

proof fn lemma_eqprop_fwd(ax: AxView, ps: Seq<TripleView>, j: int, k: int, g: TripleView)
    requires
        0 <= k < ps.len(),
        eqprop_fwd(ax, j, ps[k], g),
    ensures
        derives(Family::EquivalentProperty, ax, ps.to_set(), g),
{
    assert(ps.contains(ps[k]));
    assert(ps.to_set().contains(ps[k]));
}

/// `g` restates premise `t` from the second property of pair `j` to the
/// first.
pub open spec fn eqprop_back(ax: AxView, j: int, t: TripleView, g: TripleView) -> bool {
    &&& 0 <= j < ax.equivalent_properties.len()
    &&& t.1 == ax.equivalent_properties[j].1
    &&& g == (t.0, ax.equivalent_properties[j].0, t.2)
}

proof fn lemma_eqprop_back(ax: AxView, ps: Seq<TripleView>, j: int, k: int, g: TripleView)
    requires
        0 <= k < ps.len(),
        eqprop_back(ax, j, ps[k], g),
    ensures
        derives(Family::EquivalentProperty, ax, ps.to_set(), g),
{
    assert(ps.contains(ps[k]));
    assert(ps.to_set().contains(ps[k]));
}

/// `g` types the subject of premise `t` with domain `j`.
pub open spec fn domain_from(ax: AxView, j: int, t: TripleView, g: TripleView) -> bool {
    &&& 0 <= j < ax.domains.len()
    &&& t.1 == ax.domains[j].0
    &&& g == (t.0, RDF_TYPE@, ObjView::Iri(ax.domains[j].1))
}

proof fn lemma_domain_from(ax: AxView, ps: Seq<TripleView>, j: int, k: int, g: TripleView)
    requires
        0 <= k < ps.len(),
        domain_from(ax, j, ps[k], g),
    ensures
        derives(Family::DomainRange, ax, ps.to_set(), g),
{
    assert(ps.contains(ps[k]));
    assert(ps.to_set().contains(ps[k]));
    let t = ps[k];
    assert(ps.to_set().contains((g.0, ax.domains[j].0, t.2)));
}

/// `g` types the (IRI) object of premise `t` with range `j`.
pub open spec fn range_from(ax: AxView, j: int, t: TripleView, g: TripleView) -> bool {
    &&& 0 <= j < ax.ranges.len()
    &&& t.1 == ax.ranges[j].0
    &&& iri_obj(t.2)
    &&& g == (iri_of(t.2), RDF_TYPE@, ObjView::Iri(ax.ranges[j].1))
}

proof fn lemma_range_from(ax: AxView, ps: Seq<TripleView>, j: int, k: int, g: TripleView)
    requires
        0 <= k < ps.len(),
        range_from(ax, j, ps[k], g),
    ensures
        derives(Family::DomainRange, ax, ps.to_set(), g),
{
    assert(ps.contains(ps[k]));
    assert(ps.to_set().contains(ps[k]));
    let t = ps[k];
    assert(ps.to_set().contains((t.0, ax.ranges[j].0, ObjView::Iri(g.0))));
}

/// Stage the equivalent-class family.
fn stage_equivalent_class(pass: &mut Pass, premises: &Vec<Triple>, ax: &Axioms)
    requires
        pass_ok(ax@, triples_view(premises@), old(pass).staged(), old(pass).tags@, 2),
    ensures
        pass_ok(ax@, triples_view(premises@), final(pass).staged(), final(pass).tags@, 3),
        old(pass).staged().is_prefix_of(final(pass).staged()),
{
    let ghost ps = triples_view(premises@);
    let ghost start = pass.staged();
    proof {
        assert(start.is_prefix_of(start));
    }

    let mut j: usize = 0;
    while j < ax.equivalent_classes.len()
        invariant
            j <= ax.equivalent_classes@.len(),
            ps == triples_view(premises@),
            pass_ok(ax@, ps, pass.staged(), pass.tags@, 2),
            start.is_prefix_of(pass.staged()),

            forall|j2: int, m: int, g: TripleView|
                0 <= j2 < j && 0 <= m < ps.len() && #[trigger] eqclass_from(ax@, j2, ps[m], g) ==> covered(ps, pass.staged(), g),
        decreases ax.equivalent_classes.len() - j,
    {
        let ghost mid_j = pass.staged();
        let mut k: usize = 0;
        while k < premises.len()
            invariant
                j < ax.equivalent_classes@.len(),
                k <= premises@.len(),
                ps == triples_view(premises@),
                pass_ok(ax@, ps, pass.staged(), pass.tags@, 2),
                start.is_prefix_of(pass.staged()),
                mid_j.is_prefix_of(pass.staged()),

                forall|j2: int, m: int, g: TripleView|
                    0 <= j2 < j && 0 <= m < ps.len() && #[trigger] eqclass_from(ax@, j2, ps[m], g) ==> covered(ps, mid_j, g),
                forall|m: int, g: TripleView|
                    0 <= m < k && #[trigger] eqclass_from(ax@, j as int, ps[m], g) ==> covered(ps, pass.staged(), g),
            decreases premises.len() - k,
        {
            let t = &premises[k];
            let ghost mid = pass.staged();
            proof {
                assert(ps[k as int] == t@);
                assert(ps.contains(ps[k as int]));
            }
            if str_eq(t.predicate.as_str(), RDF_TYPE) {
                if let Obj::Iri(c) = &t.object {
                    let a = &ax.equivalent_classes[j].0;
                    let b = &ax.equivalent_classes[j].1;
                    proof {
                        assert(pairs_view(ax.equivalent_classes@)[j as int] == (a@, b@));
                    }
                    if str_eq(c.as_str(), a.as_str()) {
                    let g = Triple { subject: t.subject.clone(), predicate: crate::text::owned(RDF_TYPE), object: Obj::Iri(b.clone()) };
                    let ghost before = pass.staged();
                    proof {
                        assert(eqclass_from(ax@, j as int, ps[k as int], g@));
                        lemma_eqclass_from(ax@, ps, j as int, k as int, g@);
                    }
                    pass.offer(premises, g, Family::EquivalentClass, Ghost(ax@));
                    proof {
                        lemma_prefix_trans(start, before, pass.staged());
                        lemma_prefix_trans(mid_j, before, pass.staged());
                        lemma_prefix_trans(mid, before, pass.staged());
                    }
                    } else if str_eq(c.as_str(), b.as_str()) {
                    let g = Triple { subject: t.subject.clone(), predicate: crate::text::owned(RDF_TYPE), object: Obj::Iri(a.clone()) };
                    let ghost before = pass.staged();
                    proof {
                        assert(eqclass_from(ax@, j as int, ps[k as int], g@));
                        lemma_eqclass_from(ax@, ps, j as int, k as int, g@);
                    }
                    pass.offer(premises, g, Family::EquivalentClass, Ghost(ax@));
                    proof {
                        lemma_prefix_trans(start, before, pass.staged());
                        lemma_prefix_trans(mid_j, before, pass.staged());
                        lemma_prefix_trans(mid, before, pass.staged());
                    }
                    }
                }
            }
            proof {
                assert forall|m: int, g: TripleView|
                    0 <= m < k + 1 && #[trigger] eqclass_from(ax@, j as int, ps[m], g) implies covered(ps, pass.staged(), g) by {
                    if m < k {
                        lemma_covered_grows(ps, mid, pass.staged(), g);
                    }
                }
            }
            k = k + 1;
        }
        proof {
            assert forall|j2: int, m: int, g: TripleView|
                0 <= j2 < j + 1 && 0 <= m < ps.len() && #[trigger] eqclass_from(ax@, j2, ps[m], g) implies covered(ps, pass.staged(), g) by {
                if j2 < j {
                    lemma_covered_grows(ps, mid_j, pass.staged(), g);
                }
            }
        }
        j = j + 1;
    }

    proof {
        let now = pass.staged();
        assert forall|f: Family, g: TripleView| rank(f) < 3 && #[trigger] derives(f, ax@, ps.to_set(), g) implies covered(ps, now, g) by {
            if rank(f) < 2 {
            } else {
                assert(f == Family::EquivalentClass);
                let j = choose|j: int| 0 <= j < ax@.equivalent_classes.len() && ({
                    let (a, b) = #[trigger] ax@.equivalent_classes[j];
                    ||| ps.to_set().contains((g.0, RDF_TYPE@, ObjView::Iri(a))) && iri_of(g.2) == b
                    ||| ps.to_set().contains((g.0, RDF_TYPE@, ObjView::Iri(b))) && iri_of(g.2) == a
                });
                let (a, b) = ax@.equivalent_classes[j];
                if ps.to_set().contains((g.0, RDF_TYPE@, ObjView::Iri(a))) && iri_of(g.2) == b {
                    lemma_premise_index(ps, (g.0, RDF_TYPE@, ObjView::Iri(a)));
                    let m = choose|m: int| 0 <= m < ps.len() && ps[m] == (g.0, RDF_TYPE@, ObjView::Iri(a));
                    assert(eqclass_from(ax@, j, ps[m], g));
                } else {
                    lemma_premise_index(ps, (g.0, RDF_TYPE@, ObjView::Iri(b)));
                    let m = choose|m: int| 0 <= m < ps.len() && ps[m] == (g.0, RDF_TYPE@, ObjView::Iri(b));
                    assert(eqclass_from(ax@, j, ps[m], g));
                }
            }
        }
    }
}


/// Stage the inverse-property family.
fn stage_inverse(pass: &mut Pass, premises: &Vec<Triple>, ax: &Axioms)
    requires
        pass_ok(ax@, triples_view(premises@), old(pass).staged(), old(pass).tags@, 3),
    ensures
        pass_ok(ax@, triples_view(premises@), final(pass).staged(), final(pass).tags@, 4),
        old(pass).staged().is_prefix_of(final(pass).staged()),
{
    let ghost ps = triples_view(premises@);
    let ghost start = pass.staged();
    proof {
        assert(start.is_prefix_of(start));
    }

    let mut j: usize = 0;
    while j < ax.inverse_of.len()
        invariant
            j <= ax.inverse_of@.len(),
            ps == triples_view(premises@),
            pass_ok(ax@, ps, pass.staged(), pass.tags@, 3),
            start.is_prefix_of(pass.staged()),

            forall|j2: int, m: int, g: TripleView|
                0 <= j2 < j && 0 <= m < ps.len() && #[trigger] inverse_from(ax@, j2, ps[m], g) ==> covered(ps, pass.staged(), g),
        decreases ax.inverse_of.len() - j,
    {
        let ghost mid_j = pass.staged();
        let mut k: usize = 0;
        while k < premises.len()
            invariant
                j < ax.inverse_of@.len(),
                k <= premises@.len(),
                ps == triples_view(premises@),
                pass_ok(ax@, ps, pass.staged(), pass.tags@, 3),
                start.is_prefix_of(pass.staged()),
                mid_j.is_prefix_of(pass.staged()),

                forall|j2: int, m: int, g: TripleView|
                    0 <= j2 < j && 0 <= m < ps.len() && #[trigger] inverse_from(ax@, j2, ps[m], g) ==> covered(ps, mid_j, g),
                forall|m: int, g: TripleView|
                    0 <= m < k && #[trigger] inverse_from(ax@, j as int, ps[m], g) ==> covered(ps, pass.staged(), g),
            decreases premises.len() - k,
        {
            let t = &premises[k];
            let ghost mid = pass.staged();
            proof {
                assert(ps[k as int] == t@);
                assert(ps.contains(ps[k as int]));
            }
            if str_eq(t.predicate.as_str(), ax.inverse_of[j].0.as_str()) {
                if let Obj::Iri(o) = &t.object {
                    proof {
                        assert(pairs_view(ax.inverse_of@)[j as int] == (ax.inverse_of@[j as int].0@, ax.inverse_of@[j as int].1@));
                    }
                    let g = Triple { subject: o.clone(), predicate: ax.inverse_of[j].1.clone(), object: Obj::Iri(t.subject.clone()) };
                    let ghost before = pass.staged();
                    proof {
                        assert(inverse_from(ax@, j as int, ps[k as int], g@));
                        lemma_inverse_from(ax@, ps, j as int, k as int, g@);
                    }
                    pass.offer(premises, g, Family::Inverse, Ghost(ax@));
                    proof {
                        lemma_prefix_trans(start, before, pass.staged());
                        lemma_prefix_trans(mid_j, before, pass.staged());
                        lemma_prefix_trans(mid, before, pass.staged());
                    }
                }
            }
            proof {
                assert forall|m: int, g: TripleView|
                    0 <= m < k + 1 && #[trigger] inverse_from(ax@, j as int, ps[m], g) implies covered(ps, pass.staged(), g) by {
                    if m < k {
                        lemma_covered_grows(ps, mid, pass.staged(), g);
                    }
                }
            }
            k = k + 1;
        }
        proof {
            assert forall|j2: int, m: int, g: TripleView|
                0 <= j2 < j + 1 && 0 <= m < ps.len() && #[trigger] inverse_from(ax@, j2, ps[m], g) implies covered(ps, pass.staged(), g) by {
                if j2 < j {
                    lemma_covered_grows(ps, mid_j, pass.staged(), g);
                }
            }
        }
        j = j + 1;
    }

    proof {
        let now = pass.staged();
        assert forall|f: Family, g: TripleView| rank(f) < 4 && #[trigger] derives(f, ax@, ps.to_set(), g) implies covered(ps, now, g) by {
            if rank(f) < 3 {
            } else {
                assert(f == Family::Inverse);
                let j = choose|j: int|
                    0 <= j < ax@.inverse_of.len() && (#[trigger] ax@.inverse_of[j]).1 == g.1 && ps.to_set().contains(
                        (iri_of(g.2), ax@.inverse_of[j].0, ObjView::Iri(g.0)),
                    );
                let t = (iri_of(g.2), ax@.inverse_of[j].0, ObjView::Iri(g.0));
                lemma_premise_index(ps, t);
                let m = choose|m: int| 0 <= m < ps.len() && ps[m] == t;
                assert(inverse_from(ax@, j, ps[m], g));
            }
        }
    }
}


/// Stage the symmetric-property family.
fn stage_symmetric(pass: &mut Pass, premises: &Vec<Triple>, ax: &Axioms)
    requires
        pass_ok(ax@, triples_view(premises@), old(pass).staged(), old(pass).tags@, 4),
    ensures
        pass_ok(ax@, triples_view(premises@), final(pass).staged(), final(pass).tags@, 5),
        old(pass).staged().is_prefix_of(final(pass).staged()),
{
    let ghost ps = triples_view(premises@);
    let ghost start = pass.staged();
    proof {
        assert(start.is_prefix_of(start));
    }

    let mut j: usize = 0;
    while j < ax.symmetric_properties.len()
        invariant
            j <= ax.symmetric_properties@.len(),
            ps == triples_view(premises@),
            pass_ok(ax@, ps, pass.staged(), pass.tags@, 4),
            start.is_prefix_of(pass.staged()),

            forall|j2: int, m: int, g: TripleView|
                0 <= j2 < j && 0 <= m < ps.len() && #[trigger] symmetric_from(ax@, j2, ps[m], g) ==> covered(ps, pass.staged(), g),
        decreases ax.symmetric_properties.len() - j,
    {
        let ghost mid_j = pass.staged();
        let mut k: usize = 0;
        while k < premises.len()
            invariant
                j < ax.symmetric_properties@.len(),
                k <= premises@.len(),
                ps == triples_view(premises@),
                pass_ok(ax@, ps, pass.staged(), pass.tags@, 4),
                start.is_prefix_of(pass.staged()),
                mid_j.is_prefix_of(pass.staged()),

                forall|j2: int, m: int, g: TripleView|
                    0 <= j2 < j && 0 <= m < ps.len() && #[trigger] symmetric_from(ax@, j2, ps[m], g) ==> covered(ps, mid_j, g),
                forall|m: int, g: TripleView|
                    0 <= m < k && #[trigger] symmetric_from(ax@, j as int, ps[m], g) ==> covered(ps, pass.staged(), g),
            decreases premises.len() - k,
        {
            let t = &premises[k];
            let ghost mid = pass.staged();
            proof {
                assert(ps[k as int] == t@);
                assert(ps.contains(ps[k as int]));
            }
            if str_eq(t.predicate.as_str(), ax.symmetric_properties[j].as_str()) {
                if let Obj::Iri(o) = &t.object {
                    proof {
                        assert(names_view(ax.symmetric_properties@)[j as int] == ax.symmetric_properties@[j as int]@);
                    }
                    let g = Triple { subject: o.clone(), predicate: ax.symmetric_properties[j].clone(), object: Obj::Iri(t.subject.clone()) };
                    let ghost before = pass.staged();
                    proof {
                        assert(symmetric_from(ax@, j as int, ps[k as int], g@));
                        lemma_symmetric_from(ax@, ps, j as int, k as int, g@);
                    }
                    pass.offer(premises, g, Family::Symmetric, Ghost(ax@));
                    proof {
                        lemma_prefix_trans(start, before, pass.staged());
                        lemma_prefix_trans(mid_j, before, pass.staged());
                        lemma_prefix_trans(mid, before, pass.staged());
                    }
                }
            }
            proof {
                assert forall|m: int, g: TripleView|
                    0 <= m < k + 1 && #[trigger] symmetric_from(ax@, j as int, ps[m], g) implies covered(ps, pass.staged(), g) by {
                    if m < k {
                        lemma_covered_grows(ps, mid, pass.staged(), g);
                    }
                }
            }
            k = k + 1;
        }
        proof {
            assert forall|j2: int, m: int, g: TripleView|
                0 <= j2 < j + 1 && 0 <= m < ps.len() && #[trigger] symmetric_from(ax@, j2, ps[m], g) implies covered(ps, pass.staged(), g) by {
                if j2 < j {
                    lemma_covered_grows(ps, mid_j, pass.staged(), g);
                }
            }
        }
        j = j + 1;
    }

    proof {
        let now = pass.staged();
        assert forall|f: Family, g: TripleView| rank(f) < 5 && #[trigger] derives(f, ax@, ps.to_set(), g) implies covered(ps, now, g) by {
            if rank(f) < 4 {
            } else {
                assert(f == Family::Symmetric);
                let j = choose|j: int| 0 <= j < ax@.symmetric_properties.len() && ax@.symmetric_properties[j] == g.1;
                let t = (iri_of(g.2), g.1, ObjView::Iri(g.0));
                lemma_premise_index(ps, t);
                let m = choose|m: int| 0 <= m < ps.len() && ps[m] == t;
                assert(symmetric_from(ax@, j, ps[m], g));
            }
        }
    }
}


/// Stage the equivalent-property family.
fn stage_equivalent_property(pass: &mut Pass, premises: &Vec<Triple>, ax: &Axioms)
    requires
        pass_ok(ax@, triples_view(premises@), old(pass).staged(), old(pass).tags@, 6),
    ensures
        pass_ok(ax@, triples_view(premises@), final(pass).staged(), final(pass).tags@, 7),
        old(pass).staged().is_prefix_of(final(pass).staged()),
{
    let ghost ps = triples_view(premises@);
    let ghost start = pass.staged();
    proof {
        assert(start.is_prefix_of(start));
    }

    let mut j: usize = 0;
    while j < ax.equivalent_properties.len()
        invariant
            j <= ax.equivalent_properties@.len(),
            ps == triples_view(premises@),
            pass_ok(ax@, ps, pass.staged(), pass.tags@, 6),
            start.is_prefix_of(pass.staged()),

            forall|j2: int, m: int, g: TripleView|
                0 <= j2 < j && 0 <= m < ps.len() && #[trigger] eqprop_fwd(ax@, j2, ps[m], g) ==> covered(ps, pass.staged(), g),
        decreases ax.equivalent_properties.len() - j,
    {
        let ghost mid_j = pass.staged();
        let mut k: usize = 0;
        while k < premises.len()
            invariant
                j < ax.equivalent_properties@.len(),
                k <= premises@.len(),
                ps == triples_view(premises@),
                pass_ok(ax@, ps, pass.staged(), pass.tags@, 6),
                start.is_prefix_of(pass.staged()),
                mid_j.is_prefix_of(pass.staged()),

                forall|j2: int, m: int, g: TripleView|
                    0 <= j2 < j && 0 <= m < ps.len() && #[trigger] eqprop_fwd(ax@, j2, ps[m], g) ==> covered(ps, mid_j, g),
                forall|m: int, g: TripleView|
                    0 <= m < k && #[trigger] eqprop_fwd(ax@, j as int, ps[m], g) ==> covered(ps, pass.staged(), g),
            decreases premises.len() - k,
        {
            let t = &premises[k];
            let ghost mid = pass.staged();
            proof {
                assert(ps[k as int] == t@);
                assert(ps.contains(ps[k as int]));
            }
            if str_eq(t.predicate.as_str(), ax.equivalent_properties[j].0.as_str()) {
                proof {
                    assert(pairs_view(ax.equivalent_properties@)[j as int] == (ax.equivalent_properties@[j as int].0@, ax.equivalent_properties@[j as int].1@));
                }
                    let g = Triple { subject: t.subject.clone(), predicate: ax.equivalent_properties[j].1.clone(), object: t.object.copy() };
                    let ghost before = pass.staged();
                    proof {
                        assert(eqprop_fwd(ax@, j as int, ps[k as int], g@));
                        lemma_eqprop_fwd(ax@, ps, j as int, k as int, g@);
                    }
                    pass.offer(premises, g, Family::EquivalentProperty, Ghost(ax@));
                    proof {
                        lemma_prefix_trans(start, before, pass.staged());
                        lemma_prefix_trans(mid_j, before, pass.staged());
                        lemma_prefix_trans(mid, before, pass.staged());
                    }
            }
            proof {
                assert forall|m: int, g: TripleView|
                    0 <= m < k + 1 && #[trigger] eqprop_fwd(ax@, j as int, ps[m], g) implies covered(ps, pass.staged(), g) by {
                    if m < k {
                        lemma_covered_grows(ps, mid, pass.staged(), g);
                    }
                }
            }
            k = k + 1;
        }
        proof {
            assert forall|j2: int, m: int, g: TripleView|
                0 <= j2 < j + 1 && 0 <= m < ps.len() && #[trigger] eqprop_fwd(ax@, j2, ps[m], g) implies covered(ps, pass.staged(), g) by {
                if j2 < j {
                    lemma_covered_grows(ps, mid_j, pass.staged(), g);
                }
            }
        }
        j = j + 1;
    }

    let mut j: usize = 0;
    while j < ax.equivalent_properties.len()
        invariant
            j <= ax.equivalent_properties@.len(),
            ps == triples_view(premises@),
            pass_ok(ax@, ps, pass.staged(), pass.tags@, 6),
            start.is_prefix_of(pass.staged()),
                forall|j2: int, m: int, g: TripleView| 0 <= j2 < ax.equivalent_properties@.len() && 0 <= m < ps.len() && #[trigger] eqprop_fwd(ax@, j2, ps[m], g) ==> covered(ps, pass.staged(), g),
            forall|j2: int, m: int, g: TripleView|
                0 <= j2 < j && 0 <= m < ps.len() && #[trigger] eqprop_back(ax@, j2, ps[m], g) ==> covered(ps, pass.staged(), g),
        decreases ax.equivalent_properties.len() - j,
    {
        let ghost mid_j = pass.staged();
        let mut k: usize = 0;
        while k < premises.len()
            invariant
                j < ax.equivalent_properties@.len(),
                k <= premises@.len(),
                ps == triples_view(premises@),
                pass_ok(ax@, ps, pass.staged(), pass.tags@, 6),
                start.is_prefix_of(pass.staged()),
                mid_j.is_prefix_of(pass.staged()),
                forall|j2: int, m: int, g: TripleView| 0 <= j2 < ax.equivalent_properties@.len() && 0 <= m < ps.len() && #[trigger] eqprop_fwd(ax@, j2, ps[m], g) ==> covered(ps, pass.staged(), g),
                forall|j2: int, m: int, g: TripleView|
                    0 <= j2 < j && 0 <= m < ps.len() && #[trigger] eqprop_back(ax@, j2, ps[m], g) ==> covered(ps, mid_j, g),
                forall|m: int, g: TripleView|
                    0 <= m < k && #[trigger] eqprop_back(ax@, j as int, ps[m], g) ==> covered(ps, pass.staged(), g),
            decreases premises.len() - k,
        {
            let t = &premises[k];
            let ghost mid = pass.staged();
            proof {
                assert(ps[k as int] == t@);
                assert(ps.contains(ps[k as int]));
            }
            if str_eq(t.predicate.as_str(), ax.equivalent_properties[j].1.as_str()) {
                proof {
                    assert(pairs_view(ax.equivalent_properties@)[j as int] == (ax.equivalent_properties@[j as int].0@, ax.equivalent_properties@[j as int].1@));
                }
                    let g = Triple { subject: t.subject.clone(), predicate: ax.equivalent_properties[j].0.clone(), object: t.object.copy() };
                    let ghost before = pass.staged();
                    proof {
                        assert(eqprop_back(ax@, j as int, ps[k as int], g@));
                        lemma_eqprop_back(ax@, ps, j as int, k as int, g@);
                    }
                    pass.offer(premises, g, Family::EquivalentProperty, Ghost(ax@));
                    proof {
                        lemma_prefix_trans(start, before, pass.staged());
                        lemma_prefix_trans(mid_j, before, pass.staged());
                        lemma_prefix_trans(mid, before, pass.staged());
                    }
            }
            proof {
                assert forall|m: int, g: TripleView|
                    0 <= m < k + 1 && #[trigger] eqprop_back(ax@, j as int, ps[m], g) implies covered(ps, pass.staged(), g) by {
                    if m < k {
                        lemma_covered_grows(ps, mid, pass.staged(), g);
                    }
                }
            }
            k = k + 1;
        }
        proof {
            assert forall|j2: int, m: int, g: TripleView|
                0 <= j2 < j + 1 && 0 <= m < ps.len() && #[trigger] eqprop_back(ax@, j2, ps[m], g) implies covered(ps, pass.staged(), g) by {
                if j2 < j {
                    lemma_covered_grows(ps, mid_j, pass.staged(), g);
                }
            }
        }
        j = j + 1;
    }

    proof {
        let now = pass.staged();
        assert forall|f: Family, g: TripleView| rank(f) < 7 && #[trigger] derives(f, ax@, ps.to_set(), g) implies covered(ps, now, g) by {
            if rank(f) < 6 {
            } else {
                assert(f == Family::EquivalentProperty);
                let j = choose|j: int| 0 <= j < ax@.equivalent_properties.len() && ({
                    let (p, q) = #[trigger] ax@.equivalent_properties[j];
                    ||| q == g.1 && ps.to_set().contains((g.0, p, g.2))
                    ||| p == g.1 && ps.to_set().contains((g.0, q, g.2))
                });
                let (p, q) = ax@.equivalent_properties[j];
                if q == g.1 && ps.to_set().contains((g.0, p, g.2)) {
                    lemma_premise_index(ps, (g.0, p, g.2));
                    let m = choose|m: int| 0 <= m < ps.len() && ps[m] == (g.0, p, g.2);
                    assert(eqprop_fwd(ax@, j, ps[m], g));
                } else {
                    lemma_premise_index(ps, (g.0, q, g.2));
                    let m = choose|m: int| 0 <= m < ps.len() && ps[m] == (g.0, q, g.2);
                    assert(eqprop_back(ax@, j, ps[m], g));
                }
            }
        }
    }
}


/// Stage the domain/range family.
fn stage_domain_range(pass: &mut Pass, premises: &Vec<Triple>, ax: &Axioms)
    requires
        pass_ok(ax@, triples_view(premises@), old(pass).staged(), old(pass).tags@, 8),
    ensures
        pass_ok(ax@, triples_view(premises@), final(pass).staged(), final(pass).tags@, 9),
        old(pass).staged().is_prefix_of(final(pass).staged()),
{
    let ghost ps = triples_view(premises@);
    let ghost start = pass.staged();
    proof {
        assert(start.is_prefix_of(start));
    }

    let mut j: usize = 0;
    while j < ax.domains.len()
        invariant
            j <= ax.domains@.len(),
            ps == triples_view(premises@),
            pass_ok(ax@, ps, pass.staged(), pass.tags@, 8),
            start.is_prefix_of(pass.staged()),

            forall|j2: int, m: int, g: TripleView|
                0 <= j2 < j && 0 <= m < ps.len() && #[trigger] domain_from(ax@, j2, ps[m], g) ==> covered(ps, pass.staged(), g),
        decreases ax.domains.len() - j,
    {
        let ghost mid_j = pass.staged();
        let mut k: usize = 0;
        while k < premises.len()
            invariant
                j < ax.domains@.len(),
                k <= premises@.len(),
                ps == triples_view(premises@),
                pass_ok(ax@, ps, pass.staged(), pass.tags@, 8),
                start.is_prefix_of(pass.staged()),
                mid_j.is_prefix_of(pass.staged()),

                forall|j2: int, m: int, g: TripleView|
                    0 <= j2 < j && 0 <= m < ps.len() && #[trigger] domain_from(ax@, j2, ps[m], g) ==> covered(ps, mid_j, g),
                forall|m: int, g: TripleView|
                    0 <= m < k && #[trigger] domain_from(ax@, j as int, ps[m], g) ==> covered(ps, pass.staged(), g),
            decreases premises.len() - k,
        {
            let t = &premises[k];
            let ghost mid = pass.staged();
            proof {
                assert(ps[k as int] == t@);
                assert(ps.contains(ps[k as int]));
            }
            if str_eq(t.predicate.as_str(), ax.domains[j].0.as_str()) {
                proof {
                    assert(pairs_view(ax.domains@)[j as int] == (ax.domains@[j as int].0@, ax.domains@[j as int].1@));
                }
                    let g = Triple { subject: t.subject.clone(), predicate: crate::text::owned(RDF_TYPE), object: Obj::Iri(ax.domains[j].1.clone()) };
                    let ghost before = pass.staged();
                    proof {
                        assert(domain_from(ax@, j as int, ps[k as int], g@));
                        lemma_domain_from(ax@, ps, j as int, k as int, g@);
                    }
                    pass.offer(premises, g, Family::DomainRange, Ghost(ax@));
                    proof {
                        lemma_prefix_trans(start, before, pass.staged());
                        lemma_prefix_trans(mid_j, before, pass.staged());
                        lemma_prefix_trans(mid, before, pass.staged());
                    }
            }
            proof {
                assert forall|m: int, g: TripleView|
                    0 <= m < k + 1 && #[trigger] domain_from(ax@, j as int, ps[m], g) implies covered(ps, pass.staged(), g) by {
                    if m < k {
                        lemma_covered_grows(ps, mid, pass.staged(), g);
                    }
                }
            }
            k = k + 1;
        }
        proof {
            assert forall|j2: int, m: int, g: TripleView|
                0 <= j2 < j + 1 && 0 <= m < ps.len() && #[trigger] domain_from(ax@, j2, ps[m], g) implies covered(ps, pass.staged(), g) by {
                if j2 < j {
                    lemma_covered_grows(ps, mid_j, pass.staged(), g);
                }
            }
        }
        j = j + 1;
    }

    let mut j: usize = 0;
    while j < ax.ranges.len()
        invariant
            j <= ax.ranges@.len(),
            ps == triples_view(premises@),
            pass_ok(ax@, ps, pass.staged(), pass.tags@, 8),
            start.is_prefix_of(pass.staged()),
                forall|j2: int, m: int, g: TripleView| 0 <= j2 < ax.domains@.len() && 0 <= m < ps.len() && #[trigger] domain_from(ax@, j2, ps[m], g) ==> covered(ps, pass.staged(), g),
            forall|j2: int, m: int, g: TripleView|
                0 <= j2 < j && 0 <= m < ps.len() && #[trigger] range_from(ax@, j2, ps[m], g) ==> covered(ps, pass.staged(), g),
        decreases ax.ranges.len() - j,
    {
        let ghost mid_j = pass.staged();
        let mut k: usize = 0;
        while k < premises.len()
            invariant
                j < ax.ranges@.len(),
                k <= premises@.len(),
                ps == triples_view(premises@),
                pass_ok(ax@, ps, pass.staged(), pass.tags@, 8),
                start.is_prefix_of(pass.staged()),
                mid_j.is_prefix_of(pass.staged()),
                forall|j2: int, m: int, g: TripleView| 0 <= j2 < ax.domains@.len() && 0 <= m < ps.len() && #[trigger] domain_from(ax@, j2, ps[m], g) ==> covered(ps, pass.staged(), g),
                forall|j2: int, m: int, g: TripleView|
                    0 <= j2 < j && 0 <= m < ps.len() && #[trigger] range_from(ax@, j2, ps[m], g) ==> covered(ps, mid_j, g),
                forall|m: int, g: TripleView|
                    0 <= m < k && #[trigger] range_from(ax@, j as int, ps[m], g) ==> covered(ps, pass.staged(), g),
            decreases premises.len() - k,
        {
            let t = &premises[k];
            let ghost mid = pass.staged();
            proof {
                assert(ps[k as int] == t@);
                assert(ps.contains(ps[k as int]));
            }
            if str_eq(t.predicate.as_str(), ax.ranges[j].0.as_str()) {
                if let Obj::Iri(o) = &t.object {
                    proof {
                        assert(pairs_view(ax.ranges@)[j as int] == (ax.ranges@[j as int].0@, ax.ranges@[j as int].1@));
                    }
                    let g = Triple { subject: o.clone(), predicate: crate::text::owned(RDF_TYPE), object: Obj::Iri(ax.ranges[j].1.clone()) };
                    let ghost before = pass.staged();
                    proof {
                        assert(range_from(ax@, j as int, ps[k as int], g@));
                        lemma_range_from(ax@, ps, j as int, k as int, g@);
                    }
                    pass.offer(premises, g, Family::DomainRange, Ghost(ax@));
                    proof {
                        lemma_prefix_trans(start, before, pass.staged());
                        lemma_prefix_trans(mid_j, before, pass.staged());
                        lemma_prefix_trans(mid, before, pass.staged());
                    }
                }
            }
            proof {
                assert forall|m: int, g: TripleView|
                    0 <= m < k + 1 && #[trigger] range_from(ax@, j as int, ps[m], g) implies covered(ps, pass.staged(), g) by {
                    if m < k {
                        lemma_covered_grows(ps, mid, pass.staged(), g);
                    }
                }
            }
            k = k + 1;
        }
        proof {
            assert forall|j2: int, m: int, g: TripleView|
                0 <= j2 < j + 1 && 0 <= m < ps.len() && #[trigger] range_from(ax@, j2, ps[m], g) implies covered(ps, pass.staged(), g) by {
                if j2 < j {
                    lemma_covered_grows(ps, mid_j, pass.staged(), g);
                }
            }
        }
        j = j + 1;
    }

    proof {
        let now = pass.staged();
        assert forall|f: Family, g: TripleView| rank(f) < 9 && #[trigger] derives(f, ax@, ps.to_set(), g) implies covered(ps, now, g) by {
            if rank(f) < 8 {
            } else {
                assert(f == Family::DomainRange);
                if exists|j: int, v: ObjView|
                    0 <= j < ax@.domains.len() && (#[trigger] ax@.domains[j]).1 == iri_of(g.2) && #[trigger] ps.to_set().contains(
                        (g.0, ax@.domains[j].0, v),
                    ) {
                    let (j, v) = choose|j: int, v: ObjView|
                        0 <= j < ax@.domains.len() && (#[trigger] ax@.domains[j]).1 == iri_of(g.2) && #[trigger] ps.to_set().contains(
                            (g.0, ax@.domains[j].0, v),
                        );
                    let t = (g.0, ax@.domains[j].0, v);
                    lemma_premise_index(ps, t);
                    let m = choose|m: int| 0 <= m < ps.len() && ps[m] == t;
                    assert(domain_from(ax@, j, ps[m], g));
                } else {
                    let (j, s) = choose|j: int, s: Seq<char>|
                        0 <= j < ax@.ranges.len() && (#[trigger] ax@.ranges[j]).1 == iri_of(g.2) && #[trigger] ps.to_set().contains(
                            (s, ax@.ranges[j].0, ObjView::Iri(g.0)),
                        );
                    let t = (s, ax@.ranges[j].0, ObjView::Iri(g.0));
                    lemma_premise_index(ps, t);
                    let m = choose|m: int| 0 <= m < ps.len() && ps[m] == t;
                    assert(range_from(ax@, j, ps[m], g));
                }
            }
        }
    }
}


/// The `(subject, object)` pairs of the IRI-valued `p` premises, in order.
fn edges_of(premises: &Vec<Triple>, p: &str) -> (edges: Vec<(String, String)>)
    ensures
        edges_view(edges@).to_set() == edge_rel(triples_view(premises@).to_set(), p@),
{
    let ghost ps = triples_view(premises@);
    let mut edges: Vec<(String, String)> = Vec::new();
    let mut k: usize = 0;
    while k < premises.len()
        invariant
            k <= premises@.len(),
            ps == triples_view(premises@),
            forall|x: PairView| #[trigger] edges_view(edges@).contains(x) <==> exists|m: int|
                0 <= m < k && ps[m] == (x.0, p@, ObjView::Iri(x.1)),
        decreases premises.len() - k,
    {
        let t = &premises[k];
        let ghost before = edges_view(edges@);
        proof {
            assert(ps[k as int] == t@);
        }
        if str_eq(t.predicate.as_str(), p) {
            if let Obj::Iri(o) = &t.object {
                edges.push((t.subject.clone(), o.clone()));
                proof {
                    assert(edges_view(edges@) =~= before.push((t.subject@, o@)));
                }
            }
        }
        proof {
            assert forall|x: PairView| #[trigger] edges_view(edges@).contains(x) <==> exists|m: int|
                0 <= m < k + 1 && ps[m] == (x.0, p@, ObjView::Iri(x.1)) by {
                let now = edges_view(edges@);
                assert(before.contains(x) <==> exists|m: int| 0 <= m < k && ps[m] == (x.0, p@, ObjView::Iri(x.1)));
                if before.contains(x) {
                    let i = choose|i: int| 0 <= i < before.len() && before[i] == x;
                    assert(now[i] == x);
                }
                if now.contains(x) && !before.contains(x) {
                    let i = choose|i: int| 0 <= i < now.len() && now[i] == x;
                    assert(i == now.len() - 1);
                }
                if exists|m: int| 0 <= m < k + 1 && ps[m] == (x.0, p@, ObjView::Iri(x.1)) {
                    let m = choose|m: int| 0 <= m < k + 1 && ps[m] == (x.0, p@, ObjView::Iri(x.1));
                    if m == k && !before.contains(x) {
                        assert(now[now.len() - 1] == x);
                    }
                }
            }
        }
        k = k + 1;
    }
    proof {
        let rel = edge_rel(ps.to_set(), p@);
        assert forall|x: PairView| edges_view(edges@).to_set().contains(x) <==> rel.contains(x) by {
            if rel.contains(x) {
                assert(ps.contains((x.0, p@, ObjView::Iri(x.1))));
                let m = choose|m: int| 0 <= m < ps.len() && ps[m] == (x.0, p@, ObjView::Iri(x.1));
                assert(edges_view(edges@).contains(x));
            }
            if edges_view(edges@).contains(x) {
                let m = choose|m: int| 0 <= m < ps.len() && ps[m] == (x.0, p@, ObjView::Iri(x.1));
                assert(ps.contains(ps[m]));
            }
        }
        assert(edges_view(edges@).to_set() =~= rel);
    }
    edges
}

/// `g` is a transitive consequence under transitive property `j`.
pub open spec fn trans_from(ax: AxView, ps: Set<TripleView>, j: int, g: TripleView) -> bool {
    &&& 0 <= j < ax.transitive_properties.len()
    &&& g.1 == ax.transitive_properties[j]
    &&& iri_obj(g.2)
    &&& reaches(edge_rel(ps, g.1), g.0, iri_of(g.2))
    &&& iri_of(g.2) != g.0
}

/// Stage the transitive-property family.
fn stage_transitive(pass: &mut Pass, premises: &Vec<Triple>, ax: &Axioms)
    requires
        pass_ok(ax@, triples_view(premises@), old(pass).staged(), old(pass).tags@, 5),
    ensures
        pass_ok(ax@, triples_view(premises@), final(pass).staged(), final(pass).tags@, 6),
        old(pass).staged().is_prefix_of(final(pass).staged()),
{
    let ghost ps = triples_view(premises@);
    let ghost pset = ps.to_set();
    let ghost start = pass.staged();
    proof {
        assert(start.is_prefix_of(start));
    }
    let mut j: usize = 0;
    while j < ax.transitive_properties.len()
        invariant
            j <= ax.transitive_properties@.len(),
            ps == triples_view(premises@),
            pset == ps.to_set(),
            pass_ok(ax@, ps, pass.staged(), pass.tags@, 5),
            start.is_prefix_of(pass.staged()),
            forall|j2: int, g: TripleView| 0 <= j2 < j && #[trigger] trans_from(ax@, pset, j2, g) ==> covered(ps, pass.staged(), g),
        decreases ax.transitive_properties.len() - j,
    {
        let p = &ax.transitive_properties[j];
        proof {
            assert(names_view(ax.transitive_properties@)[j as int] == p@);
        }
        let edges = edges_of(premises, p.as_str());
        let ghost rel = edge_rel(pset, p@);
        let ghost mid_j = pass.staged();
        let mut e: usize = 0;
        while e < edges.len()
            invariant
                j < ax.transitive_properties@.len(),
                ax@.transitive_properties[j as int] == p@,
                e <= edges@.len(),
                ps == triples_view(premises@),
                pset == ps.to_set(),
                rel == edge_rel(pset, p@),
                edges_view(edges@).to_set() == rel,
                pass_ok(ax@, ps, pass.staged(), pass.tags@, 5),
                start.is_prefix_of(pass.staged()),
                mid_j.is_prefix_of(pass.staged()),
                forall|j2: int, g: TripleView| 0 <= j2 < j && #[trigger] trans_from(ax@, pset, j2, g) ==> covered(ps, mid_j, g),
                forall|g: TripleView|
                    #[trigger] trans_from(ax@, pset, j as int, g) && (exists|e2: int| 0 <= e2 < e && (#[trigger] edges@[e2]).0@ == g.0)
                        ==> covered(ps, pass.staged(), g),
            decreases edges.len() - e,
        {
            let from = &edges[e].0;
            let reached = reach_from(&edges, from.as_str());
            let ghost mid = pass.staged();
            let mut r: usize = 0;
            while r < reached.len()
                invariant
                    j < ax.transitive_properties@.len(),
                    ax@.transitive_properties[j as int] == p@,
                    r <= reached@.len(),
                    ps == triples_view(premises@),
                    pset == ps.to_set(),
                    rel == edge_rel(pset, p@),
                    edges_view(edges@).to_set() == rel,
                    forall|b: Seq<char>| names_view(reached@).contains(b) <==> reaches(rel, from@, b),
                    pass_ok(ax@, ps, pass.staged(), pass.tags@, 5),
                    start.is_prefix_of(pass.staged()),
                    mid_j.is_prefix_of(pass.staged()),
                    mid.is_prefix_of(pass.staged()),
                    forall|r2: int| 0 <= r2 < r && (#[trigger] reached@[r2])@ != from@ ==> covered(ps, pass.staged(),
                        (from@, p@, ObjView::Iri(reached@[r2]@))),
                decreases reached.len() - r,
            {
                let ghost before = pass.staged();
                if !str_eq(reached[r].as_str(), from.as_str()) {
                    let g = Triple { subject: from.clone(), predicate: p.clone(), object: Obj::Iri(reached[r].clone()) };
                    proof {
                        assert(names_view(reached@)[r as int] == reached@[r as int]@);
                        assert(reaches(rel, from@, reached@[r as int]@));
                        assert(by_transitive(ax@, pset, g@));
                        assert(derives(Family::Transitive, ax@, pset, g@));
                    }
                    pass.offer(premises, g, Family::Transitive, Ghost(ax@));
                }
                proof {
                    if pass.staged() != before {
                        lemma_prefix_trans(start, before, pass.staged());
                        lemma_prefix_trans(mid_j, before, pass.staged());
                        lemma_prefix_trans(mid, before, pass.staged());
                    }
                    assert forall|r2: int| 0 <= r2 < r + 1 && (#[trigger] reached@[r2])@ != from@ implies covered(ps, pass.staged(),
                        (from@, p@, ObjView::Iri(reached@[r2]@))) by {
                        if r2 < r {
                            lemma_covered_grows(ps, before, pass.staged(), (from@, p@, ObjView::Iri(reached@[r2]@)));
                        }
                    }
                }
                r = r + 1;
            }
            proof {
                assert forall|g: TripleView|
                    #[trigger] trans_from(ax@, pset, j as int, g) && (exists|e2: int| 0 <= e2 < e + 1 && (#[trigger] edges@[e2]).0@ == g.0)
                        implies covered(ps, pass.staged(), g) by {
                    let e2 = choose|e2: int| 0 <= e2 < e + 1 && (#[trigger] edges@[e2]).0@ == g.0;
                    if e2 < e {
                        lemma_covered_grows(ps, mid, pass.staged(), g);
                    } else {
                        assert(names_view(reached@).contains(iri_of(g.2)));
                        let r2 = choose|r2: int| 0 <= r2 < names_view(reached@).len() && names_view(reached@)[r2] == iri_of(g.2);
                        assert(reached@[r2]@ == iri_of(g.2));
                        assert(g == (from@, p@, ObjView::Iri(reached@[r2]@)));
                    }
                }
            }
            e = e + 1;
        }
        proof {
            assert forall|j2: int, g: TripleView| 0 <= j2 < j + 1 && #[trigger] trans_from(ax@, pset, j2, g) implies covered(ps, pass.staged(), g) by {
                if j2 < j {
                    lemma_covered_grows(ps, mid_j, pass.staged(), g);
                } else {
                    lemma_reaches_has_first_edge(rel, g.0, iri_of(g.2));
                    let d = choose|d: Seq<char>| #[trigger] rel.contains((g.0, d));
                    assert(edges_view(edges@).contains((g.0, d)));
                    let e2 = choose|e2: int| 0 <= e2 < edges_view(edges@).len() && edges_view(edges@)[e2] == (g.0, d);
                    assert(edges@[e2].0@ == g.0);
                }
            }
        }
        j = j + 1;
    }
    proof {
        let now = pass.staged();
        assert forall|f: Family, g: TripleView| rank(f) < 6 && #[trigger] derives(f, ax@, pset, g) implies covered(ps, now, g) by {
            if rank(f) >= 5 {
                assert(f == Family::Transitive);
                let j2 = choose|j2: int| 0 <= j2 < ax@.transitive_properties.len() && ax@.transitive_properties[j2] == g.1;
                assert(trans_from(ax@, pset, j2, g));
            }
        }
    }
}

/// The `owl:sameAs` premises as edges, in both directions.
fn same_edges(premises: &Vec<Triple>) -> (edges: Vec<(String, String)>)
    ensures
        edges_view(edges@).to_set() == same_rel(triples_view(premises@).to_set()),
{
    let ghost ps = triples_view(premises@);
    let mut edges: Vec<(String, String)> = Vec::new();
    let mut k: usize = 0;
    while k < premises.len()
        invariant
            k <= premises@.len(),
            ps == triples_view(premises@),
            forall|x: PairView| #[trigger] edges_view(edges@).contains(x) <==> exists|m: int|
                0 <= m < k && (ps[m] == (x.0, OWL_SAME_AS@, ObjView::Iri(x.1)) || ps[m] == (x.1, OWL_SAME_AS@, ObjView::Iri(x.0))),
        decreases premises.len() - k,
    {
        let t = &premises[k];
        let ghost before = edges_view(edges@);
        proof {
            assert(ps[k as int] == t@);
        }
        if str_eq(t.predicate.as_str(), OWL_SAME_AS) {
            if let Obj::Iri(o) = &t.object {
                edges.push((t.subject.clone(), o.clone()));
                edges.push((o.clone(), t.subject.clone()));
                proof {
                    assert(edges_view(edges@) =~= before.push((t.subject@, o@)).push((o@, t.subject@)));
                }
            }
        }
        proof {
            assert forall|x: PairView| #[trigger] edges_view(edges@).contains(x) <==> exists|m: int|
                0 <= m < k + 1 && (ps[m] == (x.0, OWL_SAME_AS@, ObjView::Iri(x.1)) || ps[m] == (x.1, OWL_SAME_AS@, ObjView::Iri(x.0))) by {
                let now = edges_view(edges@);
                assert(before.contains(x) <==> exists|m: int|
                    0 <= m < k && (ps[m] == (x.0, OWL_SAME_AS@, ObjView::Iri(x.1)) || ps[m] == (x.1, OWL_SAME_AS@, ObjView::Iri(x.0))));
                if before.contains(x) {
                    let i = choose|i: int| 0 <= i < before.len() && before[i] == x;
                    assert(now[i] == x);
                }
                if now.contains(x) && !before.contains(x) {
                    let i = choose|i: int| 0 <= i < now.len() && now[i] == x;
                    assert(i >= before.len());
                }
                if exists|m: int| 0 <= m < k + 1 && (ps[m] == (x.0, OWL_SAME_AS@, ObjView::Iri(x.1)) || ps[m] == (x.1, OWL_SAME_AS@, ObjView::Iri(x.0))) {
                    let m = choose|m: int| 0 <= m < k + 1 && (ps[m] == (x.0, OWL_SAME_AS@, ObjView::Iri(x.1)) || ps[m] == (x.1, OWL_SAME_AS@, ObjView::Iri(x.0)));
                    if m == k && !before.contains(x) {
                        if ps[m] == (x.0, OWL_SAME_AS@, ObjView::Iri(x.1)) {
                            assert(now[before.len() as int] == x);
                        } else {
                            assert(now[before.len() as int + 1] == x);
                        }
                    }
                }
            }
        }
        k = k + 1;
    }
    proof {
        let rel = same_rel(ps.to_set());
        assert forall|x: PairView| edges_view(edges@).to_set().contains(x) <==> rel.contains(x) by {
            if rel.contains(x) {
                if ps.to_set().contains((x.0, OWL_SAME_AS@, ObjView::Iri(x.1))) {
                    assert(ps.contains((x.0, OWL_SAME_AS@, ObjView::Iri(x.1))));
                    let m = choose|m: int| 0 <= m < ps.len() && ps[m] == (x.0, OWL_SAME_AS@, ObjView::Iri(x.1));
                } else {
                    assert(ps.contains((x.1, OWL_SAME_AS@, ObjView::Iri(x.0))));
                    let m = choose|m: int| 0 <= m < ps.len() && ps[m] == (x.1, OWL_SAME_AS@, ObjView::Iri(x.0));
                }
                assert(edges_view(edges@).contains(x));
            }
            if edges_view(edges@).contains(x) {
                let m = choose|m: int|
                    0 <= m < ps.len() && (ps[m] == (x.0, OWL_SAME_AS@, ObjView::Iri(x.1)) || ps[m] == (x.1, OWL_SAME_AS@, ObjView::Iri(x.0)));
                assert(ps.contains(ps[m]));
            }
        }
        assert(edges_view(edges@).to_set() =~= rel);
    }
    edges
}

/// `g` identifies two co-referents.
pub open spec fn same_pair(e: Rel, g: TripleView) -> bool {
    &&& g.1 == OWL_SAME_AS@
    &&& iri_obj(g.2)
    &&& reaches(e, g.0, iri_of(g.2))
    &&& iri_of(g.2) != g.0
}

/// `g` restates premise `t` for a co-referent of its subject.
pub open spec fn same_subject(e: Rel, t: TripleView, g: TripleView) -> bool {
    &&& t.1 != OWL_SAME_AS@
    &&& g.1 == t.1
    &&& g.2 == t.2
    &&& reaches(e, t.0, g.0)
    &&& g.0 != t.0
}

/// `g` restates premise `t` for a co-referent of its object.
pub open spec fn same_object(e: Rel, t: TripleView, g: TripleView) -> bool {
    &&& t.1 != OWL_SAME_AS@
    &&& iri_obj(t.2)
    &&& g.0 == t.0
    &&& g.1 == t.1
    &&& iri_obj(g.2)
    &&& reaches(e, iri_of(t.2), iri_of(g.2))
    &&& iri_of(g.2) != iri_of(t.2)
}

/// Stage the `owl:sameAs` family.
fn stage_same_as(pass: &mut Pass, premises: &Vec<Triple>, ax: &Axioms)
    requires
        pass_ok(ax@, triples_view(premises@), old(pass).staged(), old(pass).tags@, 7),
    ensures
        pass_ok(ax@, triples_view(premises@), final(pass).staged(), final(pass).tags@, 8),
        old(pass).staged().is_prefix_of(final(pass).staged()),
{
    let ghost ps = triples_view(premises@);
    let ghost pset = ps.to_set();
    let ghost start = pass.staged();
    proof {
        assert(start.is_prefix_of(start));
    }
    let edges = same_edges(premises);
    let ghost rel = same_rel(pset);
    let mut e: usize = 0;
    while e < edges.len()
        invariant
            e <= edges@.len(),
            ps == triples_view(premises@),
            pset == ps.to_set(),
            rel == same_rel(pset),
            edges_view(edges@).to_set() == rel,
            pass_ok(ax@, ps, pass.staged(), pass.tags@, 7),
            start.is_prefix_of(pass.staged()),
            forall|g: TripleView|
                #[trigger] same_pair(rel, g) && (exists|e2: int| 0 <= e2 < e && (#[trigger] edges@[e2]).0@ == g.0)
                    ==> covered(ps, pass.staged(), g),
        decreases edges.len() - e,
    {
        let from = &edges[e].0;
        let reached = reach_from(&edges, from.as_str());
        let ghost mid = pass.staged();
        let mut r: usize = 0;
        while r < reached.len()
            invariant
                r <= reached@.len(),
                ps == triples_view(premises@),
                pset == ps.to_set(),
                rel == same_rel(pset),
                edges_view(edges@).to_set() == rel,
                forall|b: Seq<char>| names_view(reached@).contains(b) <==> reaches(rel, from@, b),
                pass_ok(ax@, ps, pass.staged(), pass.tags@, 7),
                start.is_prefix_of(pass.staged()),
                mid.is_prefix_of(pass.staged()),
                forall|r2: int| 0 <= r2 < r && (#[trigger] reached@[r2])@ != from@ ==> covered(ps, pass.staged(),
                    (from@, OWL_SAME_AS@, ObjView::Iri(reached@[r2]@))),
            decreases reached.len() - r,
        {
            let ghost before = pass.staged();
            if !str_eq(reached[r].as_str(), from.as_str()) {
                let g = Triple {
                    subject: from.clone(),
                    predicate: crate::text::owned(OWL_SAME_AS),
                    object: Obj::Iri(reached[r].clone()),
                };
                proof {
                    assert(names_view(reached@)[r as int] == reached@[r as int]@);
                    assert(reaches(rel, from@, reached@[r as int]@));
                    assert(by_same_as(pset, g@));
                    assert(derives(Family::SameAs, ax@, pset, g@));
                }
                pass.offer(premises, g, Family::SameAs, Ghost(ax@));
            }
            proof {
                if pass.staged() != before {
                    lemma_prefix_trans(start, before, pass.staged());
                    lemma_prefix_trans(mid, before, pass.staged());
                }
                assert forall|r2: int| 0 <= r2 < r + 1 && (#[trigger] reached@[r2])@ != from@ implies covered(ps, pass.staged(),
                    (from@, OWL_SAME_AS@, ObjView::Iri(reached@[r2]@))) by {
                    if r2 < r {
                        lemma_covered_grows(ps, before, pass.staged(), (from@, OWL_SAME_AS@, ObjView::Iri(reached@[r2]@)));
                    }
                }
            }
            r = r + 1;
        }
        proof {
            assert forall|g: TripleView|
                #[trigger] same_pair(rel, g) && (exists|e2: int| 0 <= e2 < e + 1 && (#[trigger] edges@[e2]).0@ == g.0)
                    implies covered(ps, pass.staged(), g) by {
                let e2 = choose|e2: int| 0 <= e2 < e + 1 && (#[trigger] edges@[e2]).0@ == g.0;
                if e2 < e {
                    lemma_covered_grows(ps, mid, pass.staged(), g);
                } else {
                    assert(names_view(reached@).contains(iri_of(g.2)));
                    let r2 = choose|r2: int| 0 <= r2 < names_view(reached@).len() && names_view(reached@)[r2] == iri_of(g.2);
                    assert(reached@[r2]@ == iri_of(g.2));
                    assert(g == (from@, OWL_SAME_AS@, ObjView::Iri(reached@[r2]@)));
                }
            }
        }
        e = e + 1;
    }
    let ghost mid_a = pass.staged();
    let mut k: usize = 0;
    while k < premises.len()
        invariant
            k <= premises@.len(),
            ps == triples_view(premises@),
            pset == ps.to_set(),
            rel == same_rel(pset),
            edges_view(edges@).to_set() == rel,
            pass_ok(ax@, ps, pass.staged(), pass.tags@, 7),
            start.is_prefix_of(pass.staged()),
            mid_a.is_prefix_of(pass.staged()),
            forall|g: TripleView|
                #[trigger] same_pair(rel, g) && (exists|e2: int| 0 <= e2 < edges@.len() && (#[trigger] edges@[e2]).0@ == g.0)
                    ==> covered(ps, mid_a, g),
            forall|m: int, g: TripleView|
                #![trigger same_subject(rel, ps[m], g)]
                #![trigger same_object(rel, ps[m], g)]
                0 <= m < k && (same_subject(rel, ps[m], g) || same_object(rel, ps[m], g))
                    ==> covered(ps, pass.staged(), g),
        decreases premises.len() - k,
    {
        let t = &premises[k];
        let ghost mid = pass.staged();
        proof {
            assert(ps[k as int] == t@);
        }
        if !str_eq(t.predicate.as_str(), OWL_SAME_AS) {
            let reached = reach_from(&edges, t.subject.as_str());
            let mut r: usize = 0;
            while r < reached.len()
                invariant
                    r <= reached@.len(),
                    k < premises@.len(),
                    ps == triples_view(premises@),
                    ps[k as int] == t@,
                    t.predicate@ != OWL_SAME_AS@,
                    pset == ps.to_set(),
                    rel == same_rel(pset),
                    forall|b: Seq<char>| names_view(reached@).contains(b) <==> reaches(rel, t.subject@, b),
                    pass_ok(ax@, ps, pass.staged(), pass.tags@, 7),
                    start.is_prefix_of(pass.staged()),
                    mid_a.is_prefix_of(pass.staged()),
                    mid.is_prefix_of(pass.staged()),
                    forall|r2: int| 0 <= r2 < r && (#[trigger] reached@[r2])@ != t.subject@ ==> covered(ps, pass.staged(),
                        (reached@[r2]@, t.predicate@, t.object@)),
                decreases reached.len() - r,
            {
                let ghost before = pass.staged();
                if !str_eq(reached[r].as_str(), t.subject.as_str()) {
                    let g = Triple { subject: reached[r].clone(), predicate: t.predicate.clone(), object: t.object.copy() };
                    proof {
                        assert(names_view(reached@)[r as int] == reached@[r as int]@);
                        assert(names_view(reached@).contains(reached@[r as int]@));
                        assert(ps.contains(ps[k as int]));
                        assert(pset.contains((t.subject@, g@.1, g@.2)));
                        assert(by_same_as(pset, g@));
                        assert(derives(Family::SameAs, ax@, pset, g@));
                    }
                    pass.offer(premises, g, Family::SameAs, Ghost(ax@));
                }
                proof {
                    if pass.staged() != before {
                        lemma_prefix_trans(start, before, pass.staged());
                        lemma_prefix_trans(mid_a, before, pass.staged());
                        lemma_prefix_trans(mid, before, pass.staged());
                    }
                    assert forall|r2: int| 0 <= r2 < r + 1 && (#[trigger] reached@[r2])@ != t.subject@ implies covered(ps, pass.staged(),
                        (reached@[r2]@, t.predicate@, t.object@)) by {
                        if r2 < r {
                            lemma_covered_grows(ps, before, pass.staged(), (reached@[r2]@, t.predicate@, t.object@));
                        }
                    }
                }
                r = r + 1;
            }
            let ghost mid_s = pass.staged();
            proof {
                assert forall|g: TripleView| #[trigger] same_subject(rel, ps[k as int], g) implies covered(ps, mid_s, g) by {
                    assert(names_view(reached@).contains(g.0));
                    let r2 = choose|r2: int| 0 <= r2 < names_view(reached@).len() && names_view(reached@)[r2] == g.0;
                    assert(reached@[r2]@ == g.0);
                    assert(g == (reached@[r2]@, t.predicate@, t.object@));
                }
            }
            if let Obj::Iri(o) = &t.object {
                let reached2 = reach_from(&edges, o.as_str());
                let mut r: usize = 0;
                while r < reached2.len()
                    invariant
                        r <= reached2@.len(),
                        k < premises@.len(),
                        ps == triples_view(premises@),
                        ps[k as int] == t@,
                        t.predicate@ != OWL_SAME_AS@,
                        t.object@ == ObjView::Iri(o@),
                        pset == ps.to_set(),
                        rel == same_rel(pset),
                        forall|b: Seq<char>| names_view(reached2@).contains(b) <==> reaches(rel, o@, b),
                        pass_ok(ax@, ps, pass.staged(), pass.tags@, 7),
                        start.is_prefix_of(pass.staged()),
                        mid_a.is_prefix_of(pass.staged()),
                        mid.is_prefix_of(pass.staged()),
                        mid_s.is_prefix_of(pass.staged()),
                        forall|r2: int| 0 <= r2 < r && (#[trigger] reached2@[r2])@ != o@ ==> covered(ps, pass.staged(),
                            (t.subject@, t.predicate@, ObjView::Iri(reached2@[r2]@))),
                    decreases reached2.len() - r,
                {
                    let ghost before = pass.staged();
                    if !str_eq(reached2[r].as_str(), o.as_str()) {
                        let g = Triple { subject: t.subject.clone(), predicate: t.predicate.clone(), object: Obj::Iri(reached2[r].clone()) };
                        proof {
                            assert(names_view(reached2@)[r as int] == reached2@[r as int]@);
                            assert(names_view(reached2@).contains(reached2@[r as int]@));
                            assert(ps.contains(ps[k as int]));
                            assert(pset.contains((t.subject@, t.predicate@, ObjView::Iri(o@))));
                            assert(by_same_as(pset, g@));
                            assert(derives(Family::SameAs, ax@, pset, g@));
                        }
                        pass.offer(premises, g, Family::SameAs, Ghost(ax@));
                    }
                    proof {
                        if pass.staged() != before {
                            lemma_prefix_trans(start, before, pass.staged());
                            lemma_prefix_trans(mid_a, before, pass.staged());
                            lemma_prefix_trans(mid, before, pass.staged());
                            lemma_prefix_trans(mid_s, before, pass.staged());
                        }
                        assert forall|r2: int| 0 <= r2 < r + 1 && (#[trigger] reached2@[r2])@ != o@ implies covered(ps, pass.staged(),
                            (t.subject@, t.predicate@, ObjView::Iri(reached2@[r2]@))) by {
                            if r2 < r {
                                lemma_covered_grows(ps, before, pass.staged(), (t.subject@, t.predicate@, ObjView::Iri(reached2@[r2]@)));
                            }
                        }
                    }
                    r = r + 1;
                }
                proof {
                    assert forall|g: TripleView| #[trigger] same_object(rel, ps[k as int], g) implies covered(ps, pass.staged(), g) by {
                        assert(names_view(reached2@).contains(iri_of(g.2)));
                        let r2 = choose|r2: int| 0 <= r2 < names_view(reached2@).len() && names_view(reached2@)[r2] == iri_of(g.2);
                        assert(reached2@[r2]@ == iri_of(g.2));
                        assert(g == (t.subject@, t.predicate@, ObjView::Iri(reached2@[r2]@)));
                    }
                }
            }
            proof {
                assert forall|g: TripleView| #[trigger] same_subject(rel, ps[k as int], g) implies covered(ps, pass.staged(), g) by {
                    lemma_covered_grows(ps, mid_s, pass.staged(), g);
                }
            }
        }
        proof {
            assert forall|m: int, g: TripleView|
                #![trigger same_subject(rel, ps[m], g)]
                #![trigger same_object(rel, ps[m], g)]
                0 <= m < k + 1 && (same_subject(rel, ps[m], g) || same_object(rel, ps[m], g))
                    implies covered(ps, pass.staged(), g) by {
                if m < k {
                    lemma_covered_grows(ps, mid, pass.staged(), g);
                }
            }
        }
        k = k + 1;
    }
    proof {
        let now = pass.staged();
        assert forall|f: Family, g: TripleView| rank(f) < 8 && #[trigger] derives(f, ax@, pset, g) implies covered(ps, now, g) by {
            if rank(f) >= 7 {
                assert(f == Family::SameAs);
                if g.1 == OWL_SAME_AS@ && iri_obj(g.2) && reaches(rel, g.0, iri_of(g.2)) && iri_of(g.2) != g.0 {
                    lemma_reaches_has_first_edge(rel, g.0, iri_of(g.2));
                    let d = choose|d: Seq<char>| #[trigger] rel.contains((g.0, d));
                    assert(edges_view(edges@).contains((g.0, d)));
                    let e2 = choose|e2: int| 0 <= e2 < edges_view(edges@).len() && edges_view(edges@)[e2] == (g.0, d);
                    assert(edges@[e2].0@ == g.0);
                    assert(same_pair(rel, g));
                    lemma_covered_grows(ps, mid_a, now, g);
                } else if g.1 != OWL_SAME_AS@ && exists|x: Seq<char>| #[trigger] pset.contains((x, g.1, g.2)) && reaches(rel, x, g.0) && g.0 != x {
                    let x = choose|x: Seq<char>| #[trigger] pset.contains((x, g.1, g.2)) && reaches(rel, x, g.0) && g.0 != x;
                    lemma_premise_index(ps, (x, g.1, g.2));
                    let m = choose|m: int| 0 <= m < ps.len() && ps[m] == (x, g.1, g.2);
                    assert(same_subject(rel, ps[m], g));
                } else {
                    let o = choose|o: Seq<char>| #[trigger] pset.contains((g.0, g.1, ObjView::Iri(o))) && reaches(rel, o, iri_of(g.2)) && iri_of(g.2) != o;
                    lemma_premise_index(ps, (g.0, g.1, ObjView::Iri(o)));
                    let m = choose|m: int| 0 <= m < ps.len() && ps[m] == (g.0, g.1, ObjView::Iri(o));
                    assert(same_object(rel, ps[m], g));
                }
            }
        }
    }
}

/// Every triple some family entails from `ps` is a premise or staged, and
/// every staged triple is entailed.
pub proof fn lemma_pass_complete(ax: AxView, ps: Seq<TripleView>, out: Seq<TripleView>, tags: Seq<Family>)
    requires
        pass_ok(ax, ps, out, tags, 9),
    ensures
        forall|g: TripleView| #[trigger] entails(ax, ps.to_set(), g) ==> covered(ps, out, g),
        forall|i: int| 0 <= i < out.len() ==> entails(ax, ps.to_set(), #[trigger] out[i]),
{
    assert forall|g: TripleView| #[trigger] entails(ax, ps.to_set(), g) implies covered(ps, out, g) by {
        let f = choose|f: Family| #[trigger] derives(f, ax, ps.to_set(), g);
        assert(rank(f) < 9);
    }
    assert forall|i: int| 0 <= i < out.len() implies entails(ax, ps.to_set(), #[trigger] out[i]) by {
        assert(derives(tags[i], ax, ps.to_set(), out[i]));
    }
}

/// One derivation pass: every triple the rule families entail from
/// `premises` that is not already a premise, each once, tagged with the
/// first family (in pass order) that derives it.
pub fn derive_pass(premises: &Vec<Triple>, ax: &Axioms) -> (pass: Pass)
    ensures
        pass_ok(ax@, triples_view(premises@), pass.staged(), pass.tags@, 9),
{
    let mut pass = Pass { out: Vec::new(), tags: Vec::new() };
    proof {
        assert(pass.staged() =~= Seq::<TripleView>::empty());
    }
    stage_subclass(&mut pass, premises, ax);
    stage_subproperty(&mut pass, premises, ax);
    stage_equivalent_class(&mut pass, premises, ax);
    stage_inverse(&mut pass, premises, ax);
    stage_symmetric(&mut pass, premises, ax);
    stage_transitive(&mut pass, premises, ax);
    stage_equivalent_property(&mut pass, premises, ax);
    stage_same_as(&mut pass, premises, ax);
    stage_domain_range(&mut pass, premises, ax);
    pass
}

/// Each family is monotone in the premises.
pub proof fn lemma_derives_monotone(f: Family, ax: AxView, a: Set<TripleView>, b: Set<TripleView>, g: TripleView)
    requires
        a.subset_of(b),
        derives(f, ax, a, g),
    ensures
        derives(f, ax, b, g),
{
    match f {
        Family::Subclass => {
            let c = choose|c: Seq<char>| #[trigger] a.contains((g.0, RDF_TYPE@, ObjView::Iri(c))) && super_of(ax.subclass_of, c, iri_of(g.2));
            assert(b.contains((g.0, RDF_TYPE@, ObjView::Iri(c))));
        },
        Family::SubProperty => {
            let p = choose|p: Seq<char>| #[trigger] a.contains((g.0, p, g.2)) && super_of(ax.subproperty_of, p, g.1);
            assert(b.contains((g.0, p, g.2)));
        },
        Family::EquivalentClass => {
            let j = choose|j: int| 0 <= j < ax.equivalent_classes.len() && ({
                let (x, y) = #[trigger] ax.equivalent_classes[j];
                ||| a.contains((g.0, RDF_TYPE@, ObjView::Iri(x))) && iri_of(g.2) == y
                ||| a.contains((g.0, RDF_TYPE@, ObjView::Iri(y))) && iri_of(g.2) == x
            });
            let (x, y) = ax.equivalent_classes[j];
            if a.contains((g.0, RDF_TYPE@, ObjView::Iri(x))) {
                assert(b.contains((g.0, RDF_TYPE@, ObjView::Iri(x))));
            }
            if a.contains((g.0, RDF_TYPE@, ObjView::Iri(y))) {
                assert(b.contains((g.0, RDF_TYPE@, ObjView::Iri(y))));
            }
        },
        Family::Inverse => {
            let j = choose|j: int|
                0 <= j < ax.inverse_of.len() && (#[trigger] ax.inverse_of[j]).1 == g.1 && a.contains(
                    (iri_of(g.2), ax.inverse_of[j].0, ObjView::Iri(g.0)),
                );
            assert(b.contains((iri_of(g.2), ax.inverse_of[j].0, ObjView::Iri(g.0))));
        },
        Family::Symmetric => {
            assert(b.contains((iri_of(g.2), g.1, ObjView::Iri(g.0))));
        },
        Family::Transitive => {
            assert(edge_rel(a, g.1).subset_of(edge_rel(b, g.1)));
            super::reach::lemma_reaches_monotone(edge_rel(a, g.1), edge_rel(b, g.1), g.0, iri_of(g.2));
        },
        Family::EquivalentProperty => {
            let j = choose|j: int| 0 <= j < ax.equivalent_properties.len() && ({
                let (p, q) = #[trigger] ax.equivalent_properties[j];
                ||| q == g.1 && a.contains((g.0, p, g.2))
                ||| p == g.1 && a.contains((g.0, q, g.2))
            });
            let (p, q) = ax.equivalent_properties[j];
            if a.contains((g.0, p, g.2)) {
                assert(b.contains((g.0, p, g.2)));
            }
            if a.contains((g.0, q, g.2)) {
                assert(b.contains((g.0, q, g.2)));
            }
        },
        Family::SameAs => {
            let ea = same_rel(a);
            let eb = same_rel(b);
            assert(ea.subset_of(eb));
            if g.1 == OWL_SAME_AS@ && iri_obj(g.2) && reaches(ea, g.0, iri_of(g.2)) && iri_of(g.2) != g.0 {
                super::reach::lemma_reaches_monotone(ea, eb, g.0, iri_of(g.2));
            } else if g.1 != OWL_SAME_AS@ && exists|x: Seq<char>| #[trigger] a.contains((x, g.1, g.2)) && reaches(ea, x, g.0) && g.0 != x {
                let x = choose|x: Seq<char>| #[trigger] a.contains((x, g.1, g.2)) && reaches(ea, x, g.0) && g.0 != x;
                super::reach::lemma_reaches_monotone(ea, eb, x, g.0);
                assert(b.contains((x, g.1, g.2)));
            } else {
                let o = choose|o: Seq<char>| #[trigger] a.contains((g.0, g.1, ObjView::Iri(o))) && reaches(ea, o, iri_of(g.2)) && iri_of(g.2) != o;
                super::reach::lemma_reaches_monotone(ea, eb, o, iri_of(g.2));
                assert(b.contains((g.0, g.1, ObjView::Iri(o))));
            }
        },
        Family::DomainRange => {
            if exists|j: int, v: ObjView|
                0 <= j < ax.domains.len() && (#[trigger] ax.domains[j]).1 == iri_of(g.2) && #[trigger] a.contains(
                    (g.0, ax.domains[j].0, v),
                ) {
                let (j, v) = choose|j: int, v: ObjView|
                    0 <= j < ax.domains.len() && (#[trigger] ax.domains[j]).1 == iri_of(g.2) && #[trigger] a.contains(
                        (g.0, ax.domains[j].0, v),
                    );
                assert(b.contains((g.0, ax.domains[j].0, v)));
            } else {
                let (j, s) = choose|j: int, s: Seq<char>|
                    0 <= j < ax.ranges.len() && (#[trigger] ax.ranges[j]).1 == iri_of(g.2) && #[trigger] a.contains(
                        (s, ax.ranges[j].0, ObjView::Iri(g.0)),
                    );
                assert(b.contains((s, ax.ranges[j].0, ObjView::Iri(g.0))));
            }
        },
    }
}
} // verus!
