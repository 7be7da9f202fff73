//! Bounded observations of pack imports and of signature verification:
//! each decision is counted under one of a fixed set of labels, so that no
//! caller-supplied word can mint a new series.

use vstd::prelude::*;

use crate::text::str_eq;

verus! {

/// The trust-tier label of an import: the tier when it is one of the known
/// ones, `unverified` otherwise.
pub open spec fn tier_label(tier: Seq<char>) -> Seq<char> {
    if tier == "transport"@ || tier == "claimed"@ || tier == "attested"@ {
        tier
    } else {
        "unverified"@
    }
}

/// The outcome label of an import: the outcome when it is one of the known
/// ones, `error` otherwise.
pub open spec fn outcome_label(outcome: Seq<char>) -> Seq<char> {
    if outcome == "staged"@ || outcome == "quarantined"@ || outcome == "unchanged"@ {
        outcome
    } else {
        "error"@
    }
}

/// One import decision, counted once whichever way the import ends: until
/// told otherwise it is an `error` at tier `unverified`.
pub struct ImportObservation {
    pub tier: &'static str,
    pub outcome: &'static str,
}

impl ImportObservation {
    /// A fresh observation: outcome `error`, tier `unverified`.
    pub fn new() -> (r: ImportObservation)
        ensures
            r.tier@ == "unverified"@,
            r.outcome@ == "error"@,
    {
        ImportObservation { tier: "unverified", outcome: "error" }
    }

    /// Record the verified trust tier (see [`tier_label`]).
    pub fn tier(&mut self, tier: &str)
        ensures
            final(self).tier@ == tier_label(tier@),
            final(self).outcome == old(self).outcome,
    {
        self.tier = if str_eq(tier, "transport") {
            "transport"
        } else if str_eq(tier, "claimed") {
            "claimed"
        } else if str_eq(tier, "attested") {
            "attested"
        } else {
            "unverified"
        };
    }

    /// Record the outcome (see [`outcome_label`]).
    pub fn outcome(&mut self, outcome: &str)
        ensures
            final(self).outcome@ == outcome_label(outcome@),
            final(self).tier == old(self).tier,
    {
        self.outcome = if str_eq(outcome, "staged") {
            "staged"
        } else if str_eq(outcome, "quarantined") {
            "quarantined"
        } else if str_eq(outcome, "unchanged") {
            "unchanged"
        } else {
            "error"
        };
    }
}

/// The verdict of a signature verification (`Verified` is the one counted
/// as `ok`).
#[derive(Clone, Copy, Debug, PartialEq, Eq, Structural)]
pub enum VerificationResult {
    Verified,
    Badsig,
    Replay,
    Revoked,
    Unbound,
    Skew,
    Invalid,
    Error,
}

/// The label of a verdict.
pub open spec fn verdict_label(r: VerificationResult) -> Seq<char> {
    match r {
        VerificationResult::Verified => "ok"@,
        VerificationResult::Badsig => "badsig"@,
        VerificationResult::Replay => "replay"@,
        VerificationResult::Revoked => "revoked"@,
        VerificationResult::Unbound => "unbound"@,
        VerificationResult::Skew => "skew"@,
        VerificationResult::Invalid => "invalid"@,
        VerificationResult::Error => "error"@,
    }
}

impl VerificationResult {
    /// The label a verdict is counted under.
    pub fn label(self) -> (r: &'static str)
        ensures
            r@ == verdict_label(self),
    {
        match self {
            VerificationResult::Verified => "ok",
            VerificationResult::Badsig => "badsig",
            VerificationResult::Replay => "replay",
            VerificationResult::Revoked => "revoked",
            VerificationResult::Unbound => "unbound",
            VerificationResult::Skew => "skew",
            VerificationResult::Invalid => "invalid",
            VerificationResult::Error => "error",
        }
    }
}

} // verus!
