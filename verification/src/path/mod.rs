//! Golden paths — trajectory pruning, backtesting, and drafting.
//!
//! A completed work item with verified results leaves a Trajectory of Steps;
//! the provenance cone says which steps the verified result depended on; the
//! backtest replays a pruned candidate over recorded history; the draft emits
//! the `GoldenPath` as Turtle for human review. Nothing here writes to the
//! store.

use vstd::prelude::*;

use crate::text::{owned, push_str};

pub mod grammar;
pub mod read;
pub mod reach;
pub mod cone;
pub mod draft;
pub mod backtest;

verus! {

/// The golden-path vocabulary, resolved against a base namespace.
#[derive(Debug, Clone, PartialEq, Eq)]
pub struct PathVocab {
    pub step_of: String,
    pub step_order: String,
    pub action_kind: String,
    pub action_target: String,
    pub verified_by: String,
    pub falsifier: String,
    pub trajectory_of: String,
    pub about: String,
    pub outcome: String,
    pub pruned_from: String,
    pub omits_step: String,
    pub omitted_step: String,
    pub omission_authority: String,
    pub omission_ruling: String,
    pub dead_end: String,
    pub source_kind: String,
}

/// `base` followed by `local`.
pub open spec fn iri_in(base: Seq<char>, local: Seq<char>) -> Seq<char> {
    base + local
}

fn join(base: &str, local: &str) -> (r: String)
    ensures
        r@ == iri_in(base@, local@),
{
    let mut s = owned(base);
    push_str(&mut s, local);
    s
}

impl PathVocab {
    /// Every term is `base_ns` followed by its local name.
    pub open spec fn resolved_against(&self, base_ns: Seq<char>) -> bool {
        &&& self.step_of@ == iri_in(base_ns, "stepOf"@)
        &&& self.step_order@ == iri_in(base_ns, "stepOrder"@)
        &&& self.action_kind@ == iri_in(base_ns, "actionKind"@)
        &&& self.action_target@ == iri_in(base_ns, "actionTarget"@)
        &&& self.verified_by@ == iri_in(base_ns, "verifiedBy"@)
        &&& self.falsifier@ == iri_in(base_ns, "falsifier"@)
        &&& self.trajectory_of@ == iri_in(base_ns, "trajectoryOf"@)
        &&& self.about@ == iri_in(base_ns, "about"@)
        &&& self.outcome@ == iri_in(base_ns, "outcome"@)
        &&& self.pruned_from@ == iri_in(base_ns, "prunedFrom"@)
        &&& self.omits_step@ == iri_in(base_ns, "omitsStep"@)
        &&& self.omitted_step@ == iri_in(base_ns, "omittedStep"@)
        &&& self.omission_authority@ == iri_in(base_ns, "omissionAuthority"@)
        &&& self.omission_ruling@ == iri_in(base_ns, "omissionRuling"@)
        &&& self.dead_end@ == iri_in(base_ns, "deadEnd"@)
        &&& self.source_kind@ == iri_in(base_ns, "sourceKind"@)
    }

    /// Resolve the vocabulary against `base_ns`.
    pub fn new(base_ns: &str) -> (v: PathVocab)
        ensures
            v.resolved_against(base_ns@),
    {
        PathVocab {
            step_of: join(base_ns, "stepOf"),
            step_order: join(base_ns, "stepOrder"),
            action_kind: join(base_ns, "actionKind"),
            action_target: join(base_ns, "actionTarget"),
            verified_by: join(base_ns, "verifiedBy"),
            falsifier: join(base_ns, "falsifier"),
            trajectory_of: join(base_ns, "trajectoryOf"),
            about: join(base_ns, "about"),
            outcome: join(base_ns, "outcome"),
            pruned_from: join(base_ns, "prunedFrom"),
            omits_step: join(base_ns, "omitsStep"),
            omitted_step: join(base_ns, "omittedStep"),
            omission_authority: join(base_ns, "omissionAuthority"),
            omission_ruling: join(base_ns, "omissionRuling"),
            dead_end: join(base_ns, "deadEnd"),
            source_kind: join(base_ns, "sourceKind"),
        }
    }
}

} // verus!
