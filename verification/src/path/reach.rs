//! Bounded forward reachability along derivation predicates.
//!
//! From a start entity, layer `d` holds everything reachable over at most `d`
//! derivation edges (live ROOT facts whose attribute is one of the given
//! predicates and whose value references the next entity).

use vstd::prelude::*;

use crate::store::{facts_view, Fact, FactView, Store};
use crate::value::{Value, ValueView};

verus! {

/// Attribute `a` is one of the derivation predicates `preds`.
pub open spec fn is_derivation(s: &Store, preds: Seq<Seq<char>>, a: i64) -> bool {
    exists|k: int| 0 <= k < preds.len() && s.id_of(#[trigger] preds[k]) == Some(a)
}

/// Some fact of `facts` leads from an entity of `w` to `t` over a derivation
/// predicate.
pub open spec fn fed_by(s: &Store, preds: Seq<Seq<char>>, w: Set<i64>, facts: Seq<FactView>, t: i64) -> bool {
    exists|k: int|
        0 <= k < facts.len() && w.contains((#[trigger] facts[k]).entity) && is_derivation(s, preds, facts[k].attribute)
            && facts[k].value == ValueView::Ref(t)
}

/// `w` and everything one derivation edge away from it.
pub open spec fn step_out(s: &Store, preds: Seq<Seq<char>>, w: Set<i64>) -> Set<i64> {
    w.union(Set::new(|t: i64| fed_by(s, preds, w, s.root_facts(), t)))
}

/// Everything reachable from `start` over at most `d` derivation edges.
pub open spec fn within(s: &Store, preds: Seq<Seq<char>>, start: i64, d: nat) -> Set<i64>
    decreases d,
{
    if d == 0 {
        set![start]
    } else {
        step_out(s, preds, within(s, preds, start, (d - 1) as nat))
    }
}

/// The first of `verifs` (other than `start`) that lies in `w`.
pub open spec fn first_in(w: Set<i64>, start: i64, verifs: Seq<i64>) -> Option<i64>
    decreases verifs.len(),
{
    if verifs.len() == 0 {
        None
    } else if verifs[0] != start && w.contains(verifs[0]) {
        Some(verifs[0])
    } else {
        first_in(w, start, verifs.drop_first())
    }
}

/// The least depth `d` in `from..=hops` at which one of `verifs` is reached
/// from `start`, with the first such verification.
pub open spec fn hit_from(
    s: &Store,
    preds: Seq<Seq<char>>,
    start: i64,
    verifs: Seq<i64>,
    from: nat,
    hops: nat,
) -> Option<(nat, i64)>
    decreases hops + 1 - from,
{
    if from > hops {
        None
    } else {
        match first_in(within(s, preds, start, from), start, verifs) {
            Some(v) => Some((from, v)),
            None => hit_from(s, preds, start, verifs, from + 1, hops),
        }
    }
}

/// Once a layer adds nothing, every later layer is the same.
pub proof fn lemma_within_stable(s: &Store, preds: Seq<Seq<char>>, start: i64, n: nat, m: nat)
    requires
        within(s, preds, start, n + 1) == within(s, preds, start, n),
        n <= m,
    ensures
        within(s, preds, start, m) == within(s, preds, start, n),
    decreases m - n,
{
    if m > n {
        lemma_within_stable(s, preds, start, n, (m - 1) as nat);
    }
}

proof fn lemma_no_hit_after_fixpoint(
    s: &Store,
    preds: Seq<Seq<char>>,
    start: i64,
    verifs: Seq<i64>,
    n: nat,
    from: nat,
    hops: nat,
)
    requires
        within(s, preds, start, n + 1) == within(s, preds, start, n),
        n <= from,
        first_in(within(s, preds, start, n), start, verifs) is None,
    ensures
        hit_from(s, preds, start, verifs, from, hops) is None,
    decreases hops + 1 - from,
{
    if from <= hops {
        lemma_within_stable(s, preds, start, n, from);
        lemma_no_hit_after_fixpoint(s, preds, start, verifs, n, from + 1, hops);
    }
}

proof fn lemma_fed_by_extend(s: &Store, preds: Seq<Seq<char>>, w: Set<i64>, facts: Seq<FactView>, i: int, t: i64)
    requires
        0 <= i < facts.len(),
    ensures
        fed_by(s, preds, w, facts.take(i + 1), t) <==> (fed_by(s, preds, w, facts.take(i), t) || (w.contains(
            facts[i].entity,
        ) && is_derivation(s, preds, facts[i].attribute) && facts[i].value == ValueView::Ref(t))),
{
    let a = facts.take(i);
    let b = facts.take(i + 1);
    if fed_by(s, preds, w, b, t) {
        let k = choose|k: int|
            0 <= k < b.len() && w.contains((#[trigger] b[k]).entity) && is_derivation(s, preds, b[k].attribute)
                && b[k].value == ValueView::Ref(t);
        if k < i {
            assert(a[k] == b[k]);
        } else {
            assert(b[k] == facts[i]);
        }
    }
    if fed_by(s, preds, w, a, t) {
        let k = choose|k: int|
            0 <= k < a.len() && w.contains((#[trigger] a[k]).entity) && is_derivation(s, preds, a[k].attribute)
                && a[k].value == ValueView::Ref(t);
        assert(b[k] == a[k]);
    }
    if w.contains(facts[i].entity) && is_derivation(s, preds, facts[i].attribute) && facts[i].value == ValueView::Ref(
        t,
    ) {
        assert(b[i] == facts[i]);
    }
}

/// Whether `x` occurs in `v`.
pub fn contains_id(v: &Vec<i64>, x: i64) -> (r: bool)
    ensures
        r == v@.contains(x),
{
    let mut k: usize = 0;
    while k < v.len()
        invariant
            k <= v@.len(),
            forall|m: int| 0 <= m < k ==> v@[m] != x,
        decreases v.len() - k,
    {
        if v[k] == x {
            return true;
        }
        k = k + 1;
    }
    false
}

/// The ids of the derivation predicates that are interned terms.
pub fn derivation_ids(store: &Store, preds: &Vec<String>) -> (ids: Vec<i64>)
    requires
        store.wf(),
    ensures
        forall|a: i64| ids@.contains(a) <==> is_derivation(store, preds@.map_values(|p: String| p@), a),
{
    let ghost pv = preds@.map_values(|p: String| p@);
    let mut ids: Vec<i64> = Vec::new();
    let mut i: usize = 0;
    while i < preds.len()
        invariant
            store.wf(),
            i <= preds@.len(),
            pv == preds@.map_values(|p: String| p@),
            forall|a: i64| ids@.contains(a) <==> is_derivation(store, pv.take(i as int), a),
        decreases preds.len() - i,
    {
        let found = store.lookup(preds[i].as_str());
        let ghost before = ids@;
        if let Some(a) = found {
            ids.push(a);
        }
        proof {
            let pt = pv.take(i as int);
            let pn = pv.take(i + 1);
            assert(pn[i as int] == preds@[i as int]@);
            assert forall|a: i64| ids@.contains(a) <==> is_derivation(store, pn, a) by {
                if is_derivation(store, pn, a) {
                    let k = choose|k: int| 0 <= k < pn.len() && store.id_of(#[trigger] pn[k]) == Some(a);
                    if k < i {
                        assert(pt[k] == pn[k]);
                        assert(before.contains(a));
                        let j = choose|j: int| 0 <= j < before.len() && before[j] == a;
                        assert(ids@[j] == a);
                    } else {
                        assert(ids@[ids@.len() - 1] == a);
                    }
                }
                if ids@.contains(a) {
                    let j = choose|j: int| 0 <= j < ids@.len() && ids@[j] == a;
                    if j < before.len() {
                        assert(before[j] == a);
                        assert(before.contains(a));
                        assert(is_derivation(store, pt, a));
                        let k = choose|k: int| 0 <= k < pt.len() && store.id_of(#[trigger] pt[k]) == Some(a);
                        assert(pn[k] == pt[k]);
                    } else {
                        assert(store.id_of(pn[i as int]) == Some(a));
                    }
                }
            }
        }
        i = i + 1;
    }
    proof {
        assert(pv.take(pv.len() as int) =~= pv);
    }
    ids
}

/// Grow `visited` by one derivation edge; says whether anything was added.
fn expand(
    store: &Store,
    facts: &Vec<Fact>,
    pred_ids: &Vec<i64>,
    preds: Ghost<Seq<Seq<char>>>,
    visited: &mut Vec<i64>,
) -> (grew: bool)
    requires
        facts_view(facts@) == store.root_facts(),
        forall|a: i64| pred_ids@.contains(a) <==> is_derivation(store, preds@, a),
    ensures
        forall|x: i64| final(visited)@.contains(x) <==> step_out(store, preds@, old(visited)@.to_set()).contains(x),
        !grew ==> step_out(store, preds@, old(visited)@.to_set()) == old(visited)@.to_set(),
{
    let ghost w = visited@.to_set();
    let ghost fv = facts_view(facts@);
    let snapshot = visited.clone();
    proof {
        assert(snapshot@ =~= visited@);
    }
    let mut grew = false;
    let mut i: usize = 0;
    while i < facts.len()
        invariant
            i <= facts@.len(),
            fv == facts_view(facts@),
            fv == store.root_facts(),
            snapshot@.to_set() == w,
            forall|a: i64| pred_ids@.contains(a) <==> is_derivation(store, preds@, a),
            forall|x: i64| visited@.contains(x) <==> (w.contains(x) || fed_by(store, preds@, w, fv.take(i as int), x)),
            !grew ==> forall|x: i64| visited@.contains(x) <==> w.contains(x),
        decreases facts.len() - i,
    {
        proof {
            assert(fv[i as int] == facts@[i as int]@);
        }
        let ghost before = visited@;
        assert(forall|x: i64| before.contains(x) <==> (w.contains(x) || fed_by(store, preds@, w, fv.take(i as int), x)));
        let ghost f = fv[i as int];
        let is_pred = contains_id(pred_ids, facts[i].attribute);
        let from_w = contains_id(&snapshot, facts[i].entity);
        proof {
            assert(is_pred == is_derivation(store, preds@, f.attribute));
            assert(from_w == w.contains(f.entity));
        }
        let mut pushed: Option<i64> = None;
        if is_pred && from_w {
            if let Value::Ref(t) = &facts[i].value {
                if !contains_id(visited, *t) {
                    visited.push(*t);
                    grew = true;
                    pushed = Some(*t);
                }
            }
        }
        proof {
            assert(pushed is None ==> visited@ == before);
            assert(pushed is None && w.contains(f.entity) && is_derivation(store, preds@, f.attribute) && f.value is Ref
                ==> before.contains(f.value->Ref_0));
            assert(pushed matches Some(t) ==> visited@ == before.push(t) && f.value == ValueView::Ref(t) && !before.contains(t));
            assert forall|x: i64| visited@.contains(x) <==> (w.contains(x) || fed_by(store, preds@, w, fv.take(i + 1), x)) by {
                lemma_fed_by_extend(store, preds@, w, fv, i as int, x);
                if before.contains(x) {
                    let j = choose|j: int| 0 <= j < before.len() && before[j] == x;
                    assert(visited@[j] == x);
                    assert(visited@.contains(x));
                }
                if let Some(t) = pushed {
                    assert(visited@[visited@.len() - 1] == t);
                    if visited@.contains(x) && x != t {
                        let j = choose|j: int| 0 <= j < visited@.len() && visited@[j] == x;
                        assert(before[j] == x);
                    }
                }
                if w.contains(f.entity) && is_derivation(store, preds@, f.attribute) && f.value == ValueView::Ref(x) {
                    assert(facts@[i as int].value@ == ValueView::Ref(x));
                    assert(visited@.contains(x));
                }
                if visited@.contains(x) {
                    assert(w.contains(x) || fed_by(store, preds@, w, fv.take(i + 1), x));
                }
                if fed_by(store, preds@, w, fv.take(i + 1), x) {
                    if fed_by(store, preds@, w, fv.take(i as int), x) {
                        assert(before.contains(x) <==> (w.contains(x) || fed_by(store, preds@, w, fv.take(i as int), x)));
                        assert(before.contains(x));
                    }
                    assert(visited@.contains(x));
                }
                if w.contains(x) {
                    assert(visited@.contains(x));
                }
            }
        }
        i = i + 1;
    }
    proof {
        assert(fv.take(fv.len() as int) =~= fv);
        assert(forall|x: i64| visited@.contains(x) <==> (w.contains(x) || fed_by(store, preds@, w, fv, x)));
        assert forall|x: i64| step_out(store, preds@, w).contains(x) <==> visited@.contains(x) by {
            assert(visited@.contains(x) <==> (w.contains(x) || fed_by(store, preds@, w, fv, x)));
        }
        if !grew {
            assert(step_out(store, preds@, w) =~= w);
        }
    }
    grew
}

/// The index of the first of `verifs` (other than `start`) in `visited`.
fn first_index(verifs: &Vec<(i64, String)>, ids: Ghost<Seq<i64>>, start: i64, visited: &Vec<i64>) -> (r: Option<usize>)
    requires
        ids@.len() == verifs@.len(),
        forall|k: int| 0 <= k < verifs@.len() ==> (#[trigger] verifs@[k]).0 == ids@[k],
    ensures
        r matches Some(k) ==> k < ids@.len() && first_in(visited@.to_set(), start, ids@) == Some(ids@[k as int]),
        r is None ==> first_in(visited@.to_set(), start, ids@) is None,
{
    let ghost w = visited@.to_set();
    let mut k: usize = 0;
    proof {
        assert(ids@.subrange(0, ids@.len() as int) =~= ids@);
    }
    while k < verifs.len()
        invariant
            k <= verifs@.len(),
            ids@.len() == verifs@.len(),
            forall|m: int| 0 <= m < verifs@.len() ==> (#[trigger] verifs@[m]).0 == ids@[m],
            w == visited@.to_set(),
            first_in(w, start, ids@) == first_in(w, start, ids@.subrange(k as int, ids@.len() as int)),
        decreases verifs.len() - k,
    {
        let ghost rest = ids@.subrange(k as int, ids@.len() as int);
        proof {
            assert(rest.drop_first() =~= ids@.subrange(k + 1, ids@.len() as int));
            assert(rest[0] == verifs@[k as int].0);
        }
        let v = verifs[k].0;
        if v != start && contains_id(visited, v) {
            return Some(k);
        }
        k = k + 1;
    }
    None
}

/// The least depth in `1..=hops` at which `start` reaches one of `verifs`,
/// with the index of the first verification reached there.
pub fn find_hit(
    store: &Store,
    facts: &Vec<Fact>,
    pred_ids: &Vec<i64>,
    preds: Ghost<Seq<Seq<char>>>,
    start: i64,
    verifs: &Vec<(i64, String)>,
    ids: Ghost<Seq<i64>>,
    hops: usize,
) -> (r: Option<(usize, usize)>)
    requires
        facts_view(facts@) == store.root_facts(),
        forall|a: i64| pred_ids@.contains(a) <==> is_derivation(store, preds@, a),
        ids@.len() == verifs@.len(),
        forall|k: int| 0 <= k < verifs@.len() ==> (#[trigger] verifs@[k]).0 == ids@[k],
    ensures
        r matches Some((d, k)) ==> k < ids@.len() && hit_from(store, preds@, start, ids@, 1, hops as nat) == Some(
            (d as nat, ids@[k as int]),
        ),
        r is None ==> hit_from(store, preds@, start, ids@, 1, hops as nat) is None,
{
    let mut visited: Vec<i64> = Vec::new();
    visited.push(start);
    proof {
        assert forall|x: i64| visited@.to_set().contains(x) <==> within(store, preds@, start, 0).contains(x) by {
            if x == start {
                assert(visited@[0] == x);
            }
        }
        assert(visited@.to_set() =~= within(store, preds@, start, 0));
        assert(first_in(within(store, preds@, start, 0), start, ids@) is None) by {
            lemma_first_in_start(start, ids@);
        }
    }
    let mut d: usize = 0;
    while d < hops
        invariant
            d <= hops,
            facts_view(facts@) == store.root_facts(),
            forall|a: i64| pred_ids@.contains(a) <==> is_derivation(store, preds@, a),
            ids@.len() == verifs@.len(),
            forall|k: int| 0 <= k < verifs@.len() ==> (#[trigger] verifs@[k]).0 == ids@[k],
            visited@.to_set() == within(store, preds@, start, d as nat),
            hit_from(store, preds@, start, ids@, 1, hops as nat) == hit_from(
                store,
                preds@,
                start,
                ids@,
                (d + 1) as nat,
                hops as nat,
            ),
            first_in(within(store, preds@, start, d as nat), start, ids@) is None,
        decreases hops - d,
    {
        let ghost w = within(store, preds@, start, d as nat);
        let grew = expand(store, facts, pred_ids, preds, &mut visited);
        proof {
            assert(visited@.to_set() =~= within(store, preds@, start, (d + 1) as nat));
        }
        d = d + 1;
        match first_index(verifs, ids, start, &visited) {
            Some(k) => {
                return Some((d, k));
            },
            None => {},
        }
        if !grew {
            proof {
                lemma_no_hit_after_fixpoint(store, preds@, start, ids@, (d - 1) as nat, (d + 1) as nat, hops as nat);
            }
            return None;
        }
    }
    None
}

proof fn lemma_first_in_start(start: i64, verifs: Seq<i64>)
    ensures
        first_in(set![start], start, verifs) is None,
    decreases verifs.len(),
{
    if verifs.len() > 0 {
        lemma_first_in_start(start, verifs.drop_first());
    }
}

} // verus!
