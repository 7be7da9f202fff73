//! The provenance cone: which steps did the verified result depend on?
//!
//! A step is IN the cone when something it produced flows, along the
//! derivation predicates, into a falsifier-gated verification of the
//! trajectory's result. A step outside the cone contributed nothing the
//! verified result depends on: mechanically prunable. A step with no recorded
//! derivation edges CANNOT be evaluated, and says so.
//!
//! The relation is forward reachability ("did anything the step produced flow
//! into the verified result"), walked breadth-first to a depth bound.

use vstd::prelude::*;

use crate::store::{facts_view, Store};
use crate::text::{decimal, owned, push_str, str_eq, usize_to_string};
use crate::value::Error;

use super::reach::{derivation_ids, find_hit, hit_from};
use super::read::{
    admissible_of, admissible_verifications, ordered_steps, ref_values, ref_values_of, require_entity, steps_of,
    steps_view, StepView,
};
use super::PathVocab;

verus! {

/// Default BFS depth for the derivation walk.
pub const DEFAULT_CONE_HOPS: usize = 8;

/// Options for a cone computation.
#[derive(Debug, Clone)]
pub struct ConeOptions {
    /// Derivation predicates to walk, in addition to `verifiedBy` (which is
    /// always followed: it is the edge that reaches the verification).
    pub via: Vec<String>,
    /// Depth bound for the derivation walk.
    pub hops: usize,
}

impl Default for ConeOptions {
    fn default() -> (r: Self)
        ensures
            r.via@.len() == 0,
            r.hops == DEFAULT_CONE_HOPS,
    {
        ConeOptions { via: Vec::new(), hops: DEFAULT_CONE_HOPS }
    }
}

/// One step's cone verdict.
#[derive(Debug, Clone, Copy, PartialEq, Eq, Structural)]
pub enum ConeVerdict {
    /// Something this step produced flows into a verified result. Pruning it
    /// requires a human Decision.
    InCone,
    /// Nothing this step produced reaches a verified result: mechanically
    /// prunable.
    OutOfCone,
    /// The step records no outgoing derivation edges, so the question cannot
    /// be answered. Not prunable: missing data degrades toward human ruling,
    /// never toward guessing.
    CannotEvaluate,
}

/// One step in a cone report.
#[derive(Debug, Clone)]
pub struct ConeStep {
    pub iri: String,
    pub order: Option<i64>,
    pub verdict: ConeVerdict,
    /// The human-readable basis for the verdict.
    pub reason: String,
}

/// The cone of one trajectory.
#[derive(Debug, Clone)]
pub struct ConeReport {
    pub trajectory: String,
    /// The falsifier-gated verifications the cone was computed against.
    pub verifications: Vec<String>,
    /// The derivation predicates that were walked.
    pub derivation_predicates: Vec<String>,
    pub hops: usize,
    pub steps: Vec<ConeStep>,
}

/// The contents of a sequence of strings.
pub open spec fn strings_view(v: Seq<String>) -> Seq<Seq<char>> {
    v.map_values(|x: String| x@)
}

/// `via`, with `verifiedBy` appended unless already present.
pub open spec fn derivation_preds(via: Seq<Seq<char>>, verified_by: Seq<char>) -> Seq<Seq<char>> {
    if via.contains(verified_by) {
        via
    } else {
        via.push(verified_by)
    }
}

/// How many derivation edges leave `e`, counting each predicate of `preds`
/// (as listed) separately.
pub open spec fn outgoing_count(s: &Store, e: i64, preds: Seq<Seq<char>>) -> nat
    decreases preds.len(),
{
    if preds.len() == 0 {
        0
    } else {
        outgoing_count(s, e, preds.drop_last()) + ref_values_of(s, e, preds.last()).len()
    }
}

/// `n`, saturated at `usize::MAX`.
pub open spec fn capped(n: nat) -> nat {
    if n > usize::MAX {
        usize::MAX as nat
    } else {
        n
    }
}

/// The reason given for a step without derivation edges.
pub open spec fn no_edges_reason() -> Seq<char> {
    "no outgoing derivation edges recorded — cannot say what this step fed"@
}

/// The verdict and reason for the step entity `e`.
pub open spec fn step_verdict(
    s: &Store,
    preds: Seq<Seq<char>>,
    hops: usize,
    verifs: Seq<i64>,
    e: i64,
) -> (ConeVerdict, Seq<char>) {
    let out = outgoing_count(s, e, preds);
    if out == 0 {
        (ConeVerdict::CannotEvaluate, no_edges_reason())
    } else {
        match hit_from(s, preds, e, verifs, 1, hops as nat) {
            Some((d, v)) => (ConeVerdict::InCone, "reaches "@ + s.term(v) + " at depth "@ + decimal(d)),
            None => (
                ConeVerdict::OutOfCone,
                "no verified result reachable within "@ + decimal(hops as nat) + " hops over "@ + decimal(
                    capped(out),
                ) + " derivation edge(s)"@,
            ),
        }
    }
}

/// `rs` reports `steps`, one for one.
pub open spec fn reports_steps(
    rs: Seq<ConeStep>,
    s: &Store,
    preds: Seq<Seq<char>>,
    hops: usize,
    verifs: Seq<i64>,
    steps: Seq<StepView>,
) -> bool {
    &&& rs.len() == steps.len()
    &&& forall|k: int|
        0 <= k < rs.len() ==> {
            &&& (#[trigger] rs[k]).iri@ == steps[k].1
            &&& rs[k].order == steps[k].2
            &&& (rs[k].verdict, rs[k].reason@) == step_verdict(s, preds, hops, verifs, steps[k].0)
        }
}

/// The refusal for an IRI the store does not know.
pub open spec fn not_found_msg(iri: Seq<char>) -> Seq<char> {
    "entity not found: "@ + iri
}

/// The refusal for a trajectory without steps.
pub open spec fn no_steps_msg(iri: Seq<char>) -> Seq<char> {
    "trajectory has no steps: "@ + iri + " — nothing to compute a cone over"@
}

/// The refusal for a trajectory without a falsifier-gated verification.
pub open spec fn unverified_msg(iri: Seq<char>) -> Seq<char> {
    "trajectory "@ + iri
        + " has no falsifier-gated verification — not admissible; a cone against an unverified result would mark every step prunable against nothing"@
}

/// Copy a list of strings.
fn copy_strings(v: &Vec<String>) -> (out: Vec<String>)
    ensures
        strings_view(out@) == strings_view(v@),
{
    let mut out: Vec<String> = Vec::new();
    let mut i: usize = 0;
    while i < v.len()
        invariant
            i <= v@.len(),
            strings_view(out@) == strings_view(v@).take(i as int),
        decreases v.len() - i,
    {
        let ghost before = out@;
        out.push(v[i].clone());
        proof {
            assert(strings_view(out@) =~= strings_view(before).push(v@[i as int]@));
            assert(strings_view(v@).take(i + 1) =~= strings_view(v@).take(i as int).push(v@[i as int]@));
        }
        i = i + 1;
    }
    proof {
        assert(strings_view(v@).take(v@.len() as int) =~= strings_view(v@));
    }
    out
}

/// Whether `x` occurs in `v`.
fn contains_string(v: &Vec<String>, x: &str) -> (r: bool)
    ensures
        r == strings_view(v@).contains(x@),
{
    let mut i: usize = 0;
    while i < v.len()
        invariant
            i <= v@.len(),
            forall|k: int| 0 <= k < i ==> v@[k]@ != x@,
        decreases v.len() - i,
    {
        if str_eq(v[i].as_str(), x) {
            proof {
                assert(strings_view(v@)[i as int] == x@);
            }
            return true;
        }
        i = i + 1;
    }
    proof {
        if strings_view(v@).contains(x@) {
            let k = choose|k: int| 0 <= k < strings_view(v@).len() && strings_view(v@)[k] == x@;
            assert(v@[k]@ == x@);
        }
    }
    false
}

/// The derivation edges leaving `e` over `preds`, saturated at `usize::MAX`.
fn count_outgoing(store: &Store, e: i64, preds: &Vec<String>) -> (n: usize)
    requires
        store.wf(),
    ensures
        n as nat == capped(outgoing_count(store, e, strings_view(preds@))),
{
    let ghost pv = strings_view(preds@);
    let mut n: usize = 0;
    let mut i: usize = 0;
    while i < preds.len()
        invariant
            store.wf(),
            i <= preds@.len(),
            pv == strings_view(preds@),
            n as nat == capped(outgoing_count(store, e, pv.take(i as int))),
        decreases preds.len() - i,
    {
        let refs = ref_values(store, e, preds[i].as_str());
        proof {
            assert(pv.take(i + 1).drop_last() =~= pv.take(i as int));
            assert(pv.take(i + 1).last() == preds@[i as int]@);
        }
        n = n.saturating_add(refs.len());
        i = i + 1;
    }
    proof {
        assert(pv.take(pv.len() as int) =~= pv);
    }
    n
}

/// Compute the provenance cone of `trajectory_iri`.
///
/// Refuses (rather than returning an empty report) when the trajectory has no
/// steps or no falsifier-gated verification: a cone against an unverified
/// result would make everything prunable against nothing.
pub fn cone(store: &Store, trajectory_iri: &str, vocab: &PathVocab, opts: &ConeOptions) -> (r: Result<
    ConeReport,
    Error,
>)
    requires
        store.wf(),
    ensures
        match store.id_of(trajectory_iri@) {
            None => r matches Err(e) && e.is_invalid() && e.text() == not_found_msg(trajectory_iri@),
            Some(t) => {
                let steps = ordered_steps(store, vocab, t);
                let verifs = admissible_of(store, vocab, steps);
                let preds = derivation_preds(strings_view(opts.via@), vocab.verified_by@);
                if steps.len() == 0 {
                    r matches Err(e) && e.is_invalid() && e.text() == no_steps_msg(trajectory_iri@)
                } else if verifs.len() == 0 {
                    r matches Err(e) && e.is_invalid() && e.text() == unverified_msg(trajectory_iri@)
                } else {
                    r matches Ok(rep) && rep.trajectory@ == trajectory_iri@ && strings_view(rep.verifications@)
                        == verifs.map_values(|v: i64| store.term(v)) && strings_view(
                        rep.derivation_predicates@,
                    ) == preds && rep.hops == opts.hops && reports_steps(
                        rep.steps@,
                        store,
                        preds,
                        opts.hops,
                        verifs,
                        steps,
                    )
                }
            },
        },
{
    let traj_id = match require_entity(store, trajectory_iri) {
        Ok(id) => id,
        Err(e) => {
            return Err(e);
        },
    };
    let steps = steps_of(store, vocab, traj_id);
    if steps.len() == 0 {
        let mut msg = owned("trajectory has no steps: ");
        push_str(&mut msg, trajectory_iri);
        push_str(&mut msg, " — nothing to compute a cone over");
        return Err(Error::InvalidValue(msg));
    }
    let verifications = admissible_verifications(store, vocab, steps.as_slice());
    let ghost verifs = admissible_of(store, vocab, steps_view(steps@));
    if verifications.len() == 0 {
        let mut msg = owned("trajectory ");
        push_str(&mut msg, trajectory_iri);
        push_str(
            &mut msg,
            " has no falsifier-gated verification — not admissible; a cone against an unverified result would mark every step prunable against nothing",
        );
        return Err(Error::InvalidValue(msg));
    }
    let mut derivation_predicates = copy_strings(&opts.via);
    if !contains_string(&derivation_predicates, vocab.verified_by.as_str()) {
        derivation_predicates.push(vocab.verified_by.clone());
    }
    let ghost preds = derivation_preds(strings_view(opts.via@), vocab.verified_by@);
    proof {
        assert(strings_view(derivation_predicates@) =~= preds);
    }
    let facts = store.current_facts();
    let pred_ids = derivation_ids(store, &derivation_predicates);
    let mut names: Vec<String> = Vec::new();
    let mut k: usize = 0;
    while k < verifications.len()
        invariant
            k <= verifications@.len(),
            verifications@.len() == verifs.len(),
            forall|m: int|
                0 <= m < verifications@.len() ==> (#[trigger] verifications@[m]).0 == verifs[m]
                    && verifications@[m].1@ == store.term(verifications@[m].0),
            strings_view(names@) == verifs.take(k as int).map_values(|v: i64| store.term(v)),
        decreases verifications.len() - k,
    {
        let ghost before = names@;
        names.push(verifications[k].1.clone());
        proof {
            assert(strings_view(names@) =~= strings_view(before).push(store.term(verifs[k as int])));
            assert(verifs.take(k + 1).map_values(|v: i64| store.term(v)) =~= verifs.take(k as int).map_values(
                |v: i64| store.term(v),
            ).push(store.term(verifs[k as int])));
        }
        k = k + 1;
    }
    proof {
        assert(verifs.take(verifs.len() as int) =~= verifs);
    }
    let mut report_steps: Vec<ConeStep> = Vec::new();
    let mut i: usize = 0;
    while i < steps.len()
        invariant
            store.wf(),
            i <= steps@.len(),
            facts_view(facts@) == store.root_facts(),
            forall|a: i64| pred_ids@.contains(a) <==> super::reach::is_derivation(store, preds, a),
            strings_view(derivation_predicates@) == preds,
            verifications@.len() == verifs.len(),
            forall|m: int|
                0 <= m < verifications@.len() ==> (#[trigger] verifications@[m]).0 == verifs[m]
                    && verifications@[m].1@ == store.term(verifications@[m].0),
            reports_steps(report_steps@, store, preds, opts.hops, verifs, steps_view(steps@).take(i as int)),
        decreases steps.len() - i,
    {
        let step = &steps[i];
        let outgoing = count_outgoing(store, step.id, &derivation_predicates);
        let ghost expect = step_verdict(store, preds, opts.hops, verifs, step.id);
        let (verdict, reason) = if outgoing == 0 {
            (ConeVerdict::CannotEvaluate, owned("no outgoing derivation edges recorded — cannot say what this step fed"))
        } else {
            match find_hit(store, &facts, &pred_ids, Ghost(preds), step.id, &verifications, Ghost(verifs), opts.hops) {
                Some((d, kk)) => {
                    let mut reason = owned("reaches ");
                    push_str(&mut reason, verifications[kk].1.as_str());
                    push_str(&mut reason, " at depth ");
                    let depth = usize_to_string(d);
                    push_str(&mut reason, depth.as_str());
                    (ConeVerdict::InCone, reason)
                },
                None => {
                    let mut reason = owned("no verified result reachable within ");
                    let h = usize_to_string(opts.hops);
                    push_str(&mut reason, h.as_str());
                    push_str(&mut reason, " hops over ");
                    let n = usize_to_string(outgoing);
                    push_str(&mut reason, n.as_str());
                    push_str(&mut reason, " derivation edge(s)");
                    (ConeVerdict::OutOfCone, reason)
                },
            }
        };
        proof {
            assert((verdict, reason@) == expect);
        }
        let ghost before = report_steps@;
        report_steps.push(ConeStep { iri: step.iri.clone(), order: step.order, verdict, reason });
        proof {
            let sv = steps_view(steps@);
            assert(sv.take(i + 1)[i as int] == steps@[i as int]@);
            assert forall|m: int| 0 <= m < i implies #[trigger] sv.take(i + 1)[m] == sv.take(i as int)[m] by {}
            assert(report_steps@[i as int] == report_steps@.last());
            assert forall|m: int| 0 <= m < i implies #[trigger] report_steps@[m] == before[m] by {}
        }
        i = i + 1;
    }
    proof {
        assert(steps_view(steps@).take(steps@.len() as int) =~= steps_view(steps@));
    }
    Ok(
        ConeReport {
            trajectory: owned(trajectory_iri),
            verifications: names,
            derivation_predicates,
            hops: opts.hops,
            steps: report_steps,
        },
    )
}

} // verus!
