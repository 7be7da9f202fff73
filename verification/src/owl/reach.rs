//! Reachability over a relation given as a list of IRI pairs.
//!
//! `reaches(edges, a, b)` holds when `b` can be reached from `a` over one or
//! more edges. Transitive closures (sub-class, sub-property, transitive
//! properties) and `owl:sameAs` identity classes are all this relation.

use vstd::prelude::*;

use crate::text::str_eq;

use super::names_view;

verus! {

/// An edge list, by content.
pub open spec fn edges_view(v: Seq<(String, String)>) -> Seq<(Seq<char>, Seq<char>)> {
    v.map_values(|e: (String, String)| (e.0@, e.1@))
}

/// A relation: a set of `(from, to)` IRI pairs.
pub type Rel = Set<(Seq<char>, Seq<char>)>;

/// One step from `w`: every target of an edge whose source is in `w`.
pub open spec fn step(edges: Rel, w: Set<Seq<char>>) -> Set<Seq<char>> {
    Set::new(|d: Seq<char>| exists|x: Seq<char>| w.contains(x) && #[trigger] edges.contains((x, d)))
}

/// Everything reachable from `a` over between one and `n + 1` edges.
pub open spec fn layer(edges: Rel, a: Seq<char>, n: nat) -> Set<Seq<char>>
    decreases n,
{
    if n == 0 {
        step(edges, set![a])
    } else {
        let w = layer(edges, a, (n - 1) as nat);
        w.union(step(edges, w))
    }
}

/// `b` is reachable from `a` over one or more edges.
pub open spec fn reaches(edges: Rel, a: Seq<char>, b: Seq<char>) -> bool {
    exists|n: nat| #[trigger] layer(edges, a, n).contains(b)
}

/// Layers only grow.
pub proof fn lemma_layer_monotone(edges: Rel, a: Seq<char>, m: nat, n: nat)
    requires
        m <= n,
    ensures
        layer(edges, a, m).subset_of(layer(edges, a, n)),
    decreases n - m,
{
    if m < n {
        lemma_layer_monotone(edges, a, m, (n - 1) as nat);
    }
}

/// Once a layer adds nothing, every later layer is the same.
pub proof fn lemma_layer_stable(edges: Rel, a: Seq<char>, n: nat, m: nat)
    requires
        layer(edges, a, n + 1) == layer(edges, a, n),
        n <= m,
    ensures
        layer(edges, a, m) == layer(edges, a, n),
    decreases m - n,
{
    if m > n {
        lemma_layer_stable(edges, a, n, (m - 1) as nat);
    }
}

/// At a stable layer, reachability is membership in that layer.
pub proof fn lemma_reaches_at_fixpoint(edges: Rel, a: Seq<char>, n: nat, b: Seq<char>)
    requires
        layer(edges, a, n + 1) == layer(edges, a, n),
    ensures
        reaches(edges, a, b) <==> layer(edges, a, n).contains(b),
{
    if reaches(edges, a, b) {
        let m = choose|m: nat| #[trigger] layer(edges, a, m).contains(b);
        if m <= n {
            lemma_layer_monotone(edges, a, m, n);
        } else {
            lemma_layer_stable(edges, a, n, m);
        }
    }
}

/// Reachability is transitive: whatever is reachable from something
/// reachable from `a` is reachable from `a`, so the closure that
/// `reach_from` returns needs no second pass.
pub proof fn law_reach_is_transitive(edges: Rel, a: Seq<char>, b: Seq<char>, c: Seq<char>)
    requires
        reaches(edges, a, b),
        reaches(edges, b, c),
    ensures
        reaches(edges, a, c),
{
    let m = choose|m: nat| #[trigger] layer(edges, b, m).contains(c);
    lemma_reaches_extend(edges, a, b, m, c);
}

proof fn lemma_reaches_extend(edges: Rel, a: Seq<char>, b: Seq<char>, m: nat, c: Seq<char>)
    requires
        reaches(edges, a, b),
        layer(edges, b, m).contains(c),
    ensures
        reaches(edges, a, c),
    decreases m,
{
    let n = choose|n: nat| #[trigger] layer(edges, a, n).contains(b);
    if m == 0 {
        let x = choose|x: Seq<char>| set![b].contains(x) && #[trigger] edges.contains((x, c));
        assert(edges.contains((b, c)));
        assert(step(edges, layer(edges, a, n)).contains(c));
        assert(layer(edges, a, n + 1).contains(c));
    } else {
        let w = layer(edges, b, (m - 1) as nat);
        if w.contains(c) {
            lemma_reaches_extend(edges, a, b, (m - 1) as nat, c);
        } else {
            let x = choose|x: Seq<char>| w.contains(x) && #[trigger] edges.contains((x, c));
            lemma_reaches_extend(edges, a, b, (m - 1) as nat, x);
            let n2 = choose|n2: nat| #[trigger] layer(edges, a, n2).contains(x);
            assert(step(edges, layer(edges, a, n2)).contains(c));
            assert(layer(edges, a, n2 + 1).contains(c));
        }
    }
}

/// An edge is a one-step path.
pub proof fn lemma_edge_reaches(edges: Rel, a: Seq<char>, b: Seq<char>)
    requires
        edges.contains((a, b)),
    ensures
        reaches(edges, a, b),
{
    assert(set![a].contains(a));
    assert(layer(edges, a, 0).contains(b));
}

/// A path starts with an edge out of its source.
pub proof fn lemma_reaches_has_first_edge(edges: Rel, a: Seq<char>, b: Seq<char>)
    requires
        reaches(edges, a, b),
    ensures
        exists|d: Seq<char>| #[trigger] edges.contains((a, d)),
{
    let n = choose|n: nat| #[trigger] layer(edges, a, n).contains(b);
    lemma_first_edge_at(edges, a, n, b);
}

proof fn lemma_first_edge_at(edges: Rel, a: Seq<char>, n: nat, b: Seq<char>)
    requires
        layer(edges, a, n).contains(b),
    ensures
        exists|d: Seq<char>| #[trigger] edges.contains((a, d)),
    decreases n,
{
    if n == 0 {
        let x = choose|x: Seq<char>| set![a].contains(x) && #[trigger] edges.contains((x, b));
        assert(edges.contains((a, b)));
    } else {
        let w = layer(edges, a, (n - 1) as nat);
        if w.contains(b) {
            lemma_first_edge_at(edges, a, (n - 1) as nat, b);
        } else {
            let x = choose|x: Seq<char>| w.contains(x) && #[trigger] edges.contains((x, b));
            lemma_first_edge_at(edges, a, (n - 1) as nat, x);
        }
    }
}

/// More edges reach at least as much.
pub proof fn lemma_reaches_monotone(e1: Rel, e2: Rel, a: Seq<char>, b: Seq<char>)
    requires
        e1.subset_of(e2),
        reaches(e1, a, b),
    ensures
        reaches(e2, a, b),
{
    let n = choose|n: nat| #[trigger] layer(e1, a, n).contains(b);
    lemma_layer_sub(e1, e2, a, n);
    assert(layer(e2, a, n).contains(b));
}

proof fn lemma_layer_sub(e1: Rel, e2: Rel, a: Seq<char>, n: nat)
    requires
        e1.subset_of(e2),
    ensures
        layer(e1, a, n).subset_of(layer(e2, a, n)),
    decreases n,
{
    if n == 0 {
        assert forall|d: Seq<char>| layer(e1, a, 0).contains(d) implies layer(e2, a, 0).contains(d) by {
            let x = choose|x: Seq<char>| set![a].contains(x) && #[trigger] e1.contains((x, d));
            assert(e2.contains((x, d)));
        }
    } else {
        lemma_layer_sub(e1, e2, a, (n - 1) as nat);
        let w1 = layer(e1, a, (n - 1) as nat);
        let w2 = layer(e2, a, (n - 1) as nat);
        assert forall|d: Seq<char>| layer(e1, a, n).contains(d) implies layer(e2, a, n).contains(d) by {
            if !w1.contains(d) {
                let x = choose|x: Seq<char>| w1.contains(x) && #[trigger] e1.contains((x, d));
                assert(w2.contains(x) && e2.contains((x, d)));
                assert(step(e2, w2).contains(d));
            }
        }
    }
}

/// Whether `x` is one of `v`.
pub fn contains_string(v: &Vec<String>, x: &str) -> (r: bool)
    ensures
        r == names_view(v@).contains(x@),
{
    let ghost sv = names_view(v@);
    let mut i: usize = 0;
    while i < v.len()
        invariant
            i <= v@.len(),
            sv == names_view(v@),
            forall|k: int| 0 <= k < i ==> sv[k] != x@,
        decreases v.len() - i,
    {
        if str_eq(v[i].as_str(), x) {
            proof {
                assert(sv[i as int] == x@);
            }
            return true;
        }
        i = i + 1;
    }
    false
}

/// Everything reachable from `a` over one or more edges, each once.
pub fn reach_from(edges: &Vec<(String, String)>, a: &str) -> (out: Vec<String>)
    ensures
        forall|b: Seq<char>|
            names_view(out@).contains(b) <==> reaches(edges_view(edges@).to_set(), a@, b),
        names_view(out@).no_duplicates(),
{
    let ghost ev = edges_view(edges@);
    let ghost rel = ev.to_set();
    let mut visited: Vec<String> = Vec::new();
    // Layer 0: the direct successors of `a`.
    let mut k: usize = 0;
    while k < edges.len()
        invariant
            k <= edges@.len(),
            ev == edges_view(edges@),
            names_view(visited@).no_duplicates(),
            forall|d: Seq<char>|
                #[trigger] names_view(visited@).contains(d) <==> exists|j: int|
                    0 <= j < k && (#[trigger] ev[j]).0 == a@ && ev[j].1 == d,
        decreases edges.len() - k,
    {
        let ghost before = names_view(visited@);
        proof {
            assert(ev[k as int] == (edges@[k as int].0@, edges@[k as int].1@));
        }
        if str_eq(edges[k].0.as_str(), a) && !contains_string(&visited, edges[k].1.as_str()) {
            visited.push(edges[k].1.clone());
            proof {
                assert(names_view(visited@) =~= before.push(ev[k as int].1));
            }
        }
        proof {
            let now = names_view(visited@);
            assert forall|d: Seq<char>| now.contains(d) <==> exists|j: int|
                0 <= j < k + 1 && (#[trigger] ev[j]).0 == a@ && ev[j].1 == d by {
                assert(before.contains(d) <==> exists|j: int| 0 <= j < k && (#[trigger] ev[j]).0 == a@ && ev[j].1 == d);
                if now.contains(d) && !before.contains(d) {
                    assert(now[now.len() - 1] == d);
                    assert(ev[k as int].0 == a@ && ev[k as int].1 == d);
                }
                if before.contains(d) {
                    let i = choose|i: int| 0 <= i < before.len() && before[i] == d;
                    assert(now[i] == d);
                }
                if exists|j: int| 0 <= j < k + 1 && (#[trigger] ev[j]).0 == a@ && ev[j].1 == d {
                    let j = choose|j: int| 0 <= j < k + 1 && (#[trigger] ev[j]).0 == a@ && ev[j].1 == d;
                    if j == k && !before.contains(d) {
                        assert(now[now.len() - 1] == d);
                    }
                }
            }
        }
        k = k + 1;
    }
    proof {
        let now = names_view(visited@);
        assert forall|d: Seq<char>| now.contains(d) <==> layer(rel, a@, 0).contains(d) by {
            assert(now.contains(d) <==> exists|j: int| 0 <= j < ev.len() && (#[trigger] ev[j]).0 == a@ && ev[j].1 == d);
            if now.contains(d) {
                let j = choose|j: int| 0 <= j < ev.len() && (#[trigger] ev[j]).0 == a@ && ev[j].1 == d;
                assert(ev[j] == (a@, d));
                assert(rel.contains((a@, d)));
                assert(set![a@].contains(a@));
            }
            if layer(rel, a@, 0).contains(d) {
                let x = choose|x: Seq<char>| set![a@].contains(x) && #[trigger] rel.contains((x, d));
                assert(ev.contains((x, d)));
                let j = choose|j: int| 0 <= j < ev.len() && ev[j] == (x, d);
                assert(ev[j].0 == a@ && ev[j].1 == d);
            }
        }
        assert forall|d: Seq<char>| now.contains(d) implies exists|j: int| 0 <= j < ev.len() && (#[trigger] ev[j]).1 == d by {
            let j = choose|j: int| 0 <= j < ev.len() && (#[trigger] ev[j]).0 == a@ && ev[j].1 == d;
        }
    }
    let mut n: usize = 0;
    loop
        invariant
            ev == edges_view(edges@),
            rel == ev.to_set(),
            names_view(visited@).no_duplicates(),
            forall|d: Seq<char>| names_view(visited@).contains(d) <==> layer(rel, a@, n as nat).contains(d),
            forall|d: Seq<char>|
                names_view(visited@).contains(d) ==> exists|j: int| 0 <= j < ev.len() && (#[trigger] ev[j]).1 == d,
            n <= visited@.len(),
        decreases edges@.len() - visited@.len(),
    {
        proof {
            lemma_targets_bound(ev, names_view(visited@));
        }
        let snapshot = visited.clone();
        proof {
            assert(names_view(snapshot@) =~= names_view(visited@));
        }
        let ghost w = layer(rel, a@, n as nat);
        let start_len: usize = visited.len();
        let mut j: usize = 0;
        while j < edges.len()
            invariant
                j <= edges@.len(),
                ev == edges_view(edges@),
                forall|d: Seq<char>| names_view(snapshot@).contains(d) <==> w.contains(d),
                visited@.len() >= start_len,
                start_len >= n,
                names_view(visited@).no_duplicates(),
                forall|d: Seq<char>|
                    names_view(visited@).contains(d) <==> (w.contains(d) || exists|i: int|
                        0 <= i < j && w.contains((#[trigger] ev[i]).0) && ev[i].1 == d),
                forall|d: Seq<char>|
                    names_view(visited@).contains(d) ==> exists|i: int| 0 <= i < ev.len() && (#[trigger] ev[i]).1 == d,
            decreases edges.len() - j,
        {
            let ghost before = names_view(visited@);
            proof {
                assert(ev[j as int] == (edges@[j as int].0@, edges@[j as int].1@));
            }
            if contains_string(&snapshot, edges[j].0.as_str()) && !contains_string(&visited, edges[j].1.as_str()) {
                visited.push(edges[j].1.clone());
                proof {
                    assert(names_view(visited@) =~= before.push(ev[j as int].1));
                }
            }
            proof {
                let now = names_view(visited@);
                assert forall|d: Seq<char>| now.contains(d) <==> (w.contains(d) || exists|i: int|
                    0 <= i < j + 1 && w.contains((#[trigger] ev[i]).0) && ev[i].1 == d) by {
                    assert(before.contains(d) <==> (w.contains(d) || exists|i: int|
                        0 <= i < j && w.contains((#[trigger] ev[i]).0) && ev[i].1 == d));
                    if now.contains(d) && !before.contains(d) {
                        assert(now[now.len() - 1] == d);
                    }
                    if before.contains(d) {
                        let i = choose|i: int| 0 <= i < before.len() && before[i] == d;
                        assert(now[i] == d);
                    }
                    if exists|i: int| 0 <= i < j + 1 && w.contains((#[trigger] ev[i]).0) && ev[i].1 == d {
                        let i = choose|i: int| 0 <= i < j + 1 && w.contains((#[trigger] ev[i]).0) && ev[i].1 == d;
                        if i == j && !before.contains(d) {
                            assert(now[now.len() - 1] == d);
                        }
                    }
                }
                assert forall|d: Seq<char>| now.contains(d) implies exists|i: int| 0 <= i < ev.len() && (#[trigger] ev[i]).1 == d by {
                    if !before.contains(d) {
                        assert(now[now.len() - 1] == d);
                        assert(ev[j as int].1 == d);
                    } else {
                        assert(before.contains(d) ==> exists|i: int| 0 <= i < ev.len() && (#[trigger] ev[i]).1 == d);
                    }
                }
            }
            j = j + 1;
        }
        let grew = visited.len() > start_len;
        proof {
            assert(j == ev.len());
            lemma_round_complete(ev, rel, w, names_view(visited@), a@, n as nat);
        }
        if !grew {
            proof {
                let now = names_view(visited@);
                assert(visited@.len() == start_len);
                assert(layer(rel, a@, (n + 1) as nat) =~= layer(rel, a@, n as nat)) by {
                    assert forall|d: Seq<char>| layer(rel, a@, (n + 1) as nat).contains(d) implies layer(rel, a@, n as nat).contains(d) by {
                        assert(now.contains(d));
                        lemma_grown_contains(names_view(snapshot@), now, d);
                    }
                }
                assert forall|b: Seq<char>| now.contains(b) <==> reaches(rel, a@, b) by {
                    lemma_reaches_at_fixpoint(rel, a@, n as nat, b);
                    assert(now.contains(b) <==> layer(rel, a@, (n + 1) as nat).contains(b));
                }
            }
            return visited;
        }
        proof {
            lemma_targets_bound(ev, names_view(visited@));
        }
        n = n + 1;
    }
}

/// After a full round, the list is the next layer.
proof fn lemma_round_complete(
    ev: Seq<(Seq<char>, Seq<char>)>,
    rel: Rel,
    w: Set<Seq<char>>,
    now: Seq<Seq<char>>,
    a: Seq<char>,
    n: nat,
)
    requires
        rel == ev.to_set(),
        w == layer(rel, a, n),
        forall|d: Seq<char>|
            #[trigger] now.contains(d) <==> (w.contains(d) || exists|i: int|
                0 <= i < ev.len() && w.contains((#[trigger] ev[i]).0) && ev[i].1 == d),
    ensures
        forall|d: Seq<char>| now.contains(d) <==> layer(rel, a, n + 1).contains(d),
{
    assert forall|d: Seq<char>| now.contains(d) <==> layer(rel, a, n + 1).contains(d) by {
        assert(now.contains(d) <==> (w.contains(d) || exists|i: int|
            0 <= i < ev.len() && w.contains((#[trigger] ev[i]).0) && ev[i].1 == d));
        if step(rel, w).contains(d) {
            let x = choose|x: Seq<char>| w.contains(x) && #[trigger] rel.contains((x, d));
            assert(ev.contains((x, d)));
            let i = choose|i: int| 0 <= i < ev.len() && ev[i] == (x, d);
            assert(w.contains(ev[i].0) && ev[i].1 == d);
        }
        if exists|i: int| 0 <= i < ev.len() && w.contains((#[trigger] ev[i]).0) && ev[i].1 == d {
            let i = choose|i: int| 0 <= i < ev.len() && w.contains((#[trigger] ev[i]).0) && ev[i].1 == d;
            assert(ev[i] == (ev[i].0, d));
            assert(rel.contains((ev[i].0, d)));
            assert(step(rel, w).contains(d));
        }
    }
}

/// Without growth, every element of the grown list was already there.
proof fn lemma_grown_contains(old_v: Seq<Seq<char>>, new_v: Seq<Seq<char>>, d: Seq<char>)
    requires
        new_v.len() == old_v.len(),
        old_v.no_duplicates(),
        new_v.no_duplicates(),
        forall|x: Seq<char>| old_v.contains(x) ==> new_v.contains(x),
        new_v.contains(d),
    ensures
        old_v.contains(d),
{
    broadcast use vstd::set::group_set_axioms;
    old_v.unique_seq_to_set();
    new_v.unique_seq_to_set();
    if !old_v.contains(d) {
        assert(old_v.to_set().insert(d).subset_of(new_v.to_set()));
        vstd::seq_lib::seq_to_set_is_finite(new_v);
        vstd::set_lib::lemma_len_subset(old_v.to_set().insert(d), new_v.to_set());
        vstd::seq_lib::seq_to_set_is_finite(old_v);
        assert(!old_v.to_set().contains(d));
    }
}

/// A duplicate-free list of edge targets is no longer than the edge list.
proof fn lemma_targets_bound(ev: Seq<(Seq<char>, Seq<char>)>, v: Seq<Seq<char>>)
    requires
        v.no_duplicates(),
        forall|d: Seq<char>| v.contains(d) ==> exists|j: int| 0 <= j < ev.len() && (#[trigger] ev[j]).1 == d,
    ensures
        v.len() <= ev.len(),
{
    let targets = ev.map_values(|e: (Seq<char>, Seq<char>)| e.1);
    v.unique_seq_to_set();
    targets.lemma_cardinality_of_set();
    vstd::seq_lib::seq_to_set_is_finite(targets);
    assert forall|d: Seq<char>| v.to_set().contains(d) implies targets.to_set().contains(d) by {
        let j = choose|j: int| 0 <= j < ev.len() && (#[trigger] ev[j]).1 == d;
        assert(targets[j] == d);
    }
    vstd::set_lib::lemma_len_subset(v.to_set(), targets.to_set());
}

} // verus!
