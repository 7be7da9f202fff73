//! Choosing the hits of a ranked vector search: scope, one hit per entity,
//! and a limit.

use vstd::prelude::*;

verus! {

/// The matches a search keeps, as positions into `ranked` (the entity of
/// each match, best first): those in scope, the first match of each entity,
/// at most `limit` of them, in rank order.
pub open spec fn kept_hits(ranked: Seq<i64>, scoped: Seq<bool>, limit: nat) -> Seq<int>
    decreases ranked.len(),
{
    if ranked.len() == 0 {
        Seq::empty()
    } else {
        let prev = kept_hits(ranked.drop_last(), scoped.drop_last(), limit);
        let i = ranked.len() - 1;
        if prev.len() < limit && scoped[i] && !(exists|k: int| 0 <= k < prev.len() && ranked[prev[k]] == ranked[i]) {
            prev.push(i)
        } else {
            prev
        }
    }
}

proof fn lemma_kept_hits_range(ranked: Seq<i64>, scoped: Seq<bool>, limit: nat)
    ensures
        kept_hits(ranked, scoped, limit).len() <= limit,
        forall|k: int|
            0 <= k < kept_hits(ranked, scoped, limit).len() ==> 0 <= #[trigger] kept_hits(ranked, scoped, limit)[k]
                < ranked.len(),
    decreases ranked.len(),
{
    if ranked.len() > 0 {
        lemma_kept_hits_range(ranked.drop_last(), scoped.drop_last(), limit);
    }
}

/// Choose the hits of a ranked search: keep the in-scope matches (`scoped`,
/// one flag per match), the first match of each entity, and at most `limit`
/// of them, in rank order. Returns their positions in `ranked`.
pub fn select_hits(ranked: &Vec<i64>, scoped: &Vec<bool>, limit: usize) -> (r: Vec<usize>)
    requires
        scoped@.len() == ranked@.len(),
    ensures
        r@.map_values(|j: usize| j as int) == kept_hits(ranked@, scoped@, limit as nat),
{
    let mut out: Vec<usize> = Vec::new();
    let mut i: usize = 0;
    while i < ranked.len()
        invariant
            i <= ranked@.len(),
            scoped@.len() == ranked@.len(),
            out@.map_values(|j: usize| j as int) == kept_hits(ranked@.take(i as int), scoped@.take(i as int), limit as nat),
            forall|k: int| 0 <= k < out@.len() ==> #[trigger] out@[k] < i,
        decreases ranked.len() - i,
    {
        let ghost rp = ranked@.take(i + 1);
        let ghost sp = scoped@.take(i + 1);
        let ghost prev = kept_hits(ranked@.take(i as int), scoped@.take(i as int), limit as nat);
        proof {
            assert(rp.drop_last() =~= ranked@.take(i as int));
            assert(sp.drop_last() =~= scoped@.take(i as int));
            lemma_kept_hits_range(ranked@.take(i as int), scoped@.take(i as int), limit as nat);
            assert(out@.len() == prev.len());
        }
        let mut seen = false;
        let mut k: usize = 0;
        while k < out.len()
            invariant
                k <= out@.len(),
                i < ranked@.len(),
                forall|m: int| 0 <= m < out@.len() ==> #[trigger] out@[m] < i,
                seen <==> exists|m: int| 0 <= m < k && ranked@[out@[m] as int] == ranked@[i as int],
            decreases out.len() - k,
        {
            if ranked[out[k]] == ranked[i] {
                seen = true;
            }
            k = k + 1;
        }
        proof {
            assert forall|m: int| 0 <= m < prev.len() implies #[trigger] prev[m] == out@[m] as int && rp[prev[m]]
                == ranked@[out@[m] as int] by {
                assert(out@.map_values(|j: usize| j as int)[m] == out@[m] as int);
            }
            if seen {
                let m = choose|m: int| 0 <= m < out@.len() && ranked@[out@[m] as int] == ranked@[i as int];
                assert(rp[prev[m]] == ranked@[out@[m] as int]);
                assert(rp[prev[m]] == rp[i as int]);
            }
            if exists|m: int| 0 <= m < prev.len() && rp[prev[m]] == rp[i as int] {
                let m = choose|m: int| 0 <= m < prev.len() && rp[prev[m]] == rp[i as int];
                assert(rp[prev[m]] == ranked@[out@[m] as int]);
            }
            assert((exists|m: int| 0 <= m < prev.len() && rp[prev[m]] == rp[i as int]) == seen);
            assert(rp[i as int] == ranked@[i as int]);
            assert(sp[i as int] == scoped@[i as int]);
        }
        if out.len() < limit && scoped[i] && !seen {
            let ghost before = out@;
            out.push(i);
            proof {
                assert(out@.map_values(|j: usize| j as int) =~= before.map_values(|j: usize| j as int).push(i as int));
            }
        }
        i = i + 1;
    }
    proof {
        assert(ranked@.take(ranked@.len() as int) =~= ranked@);
        assert(scoped@.take(scoped@.len() as int) =~= scoped@);
    }
    out
}

} // verus!
