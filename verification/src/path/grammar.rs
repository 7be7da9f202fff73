//! Conformance grammar v1 — the versioned step-matching contract.
//!
//! "Trajectory T conforms to path P" means: P's signatures occur in T's
//! evaluable steps as a subsequence (in order, gaps allowed). Unevaluable
//! steps never match and never deviate.

use vstd::prelude::*;

verus! {

/// The grammar version everything in this module implements.
pub const GRAMMAR_VERSION: &'static str = "gp-grammar/1";

/// A step's v1 signature: `(actionKind, targetClass)`, compared exactly.
#[derive(Debug, Clone, PartialEq, Eq)]
pub struct StepSig {
    /// The step's `actionKind` string, case-sensitive.
    pub action_kind: String,
    /// The class of the step's target: an IRI target's lexicographically
    /// smallest `rdf:type`, `"untyped"` for an IRI target with no recorded
    /// type, `"literal"` for a literal target, `"none"` without a target.
    pub target_class: String,
}

/// The content of a [`StepSig`]: `(actionKind, targetClass)`.
pub type SigView = (Seq<char>, Seq<char>);

impl View for StepSig {
    type V = SigView;

    open spec fn view(&self) -> SigView {
        (self.action_kind@, self.target_class@)
    }
}

impl StepSig {
    /// Exact signature equality.
    pub fn same(&self, other: &StepSig) -> (r: bool)
        ensures
            r == (self@ == other@),
    {
        self.action_kind == other.action_kind && self.target_class == other.target_class
    }

    /// A copy with the same content.
    pub fn copy(&self) -> (r: StepSig)
        ensures
            r@ == self@,
    {
        StepSig { action_kind: self.action_kind.clone(), target_class: self.target_class.clone() }
    }
}

/// Where a match attempt landed.
#[derive(Debug, Clone, PartialEq, Eq, Structural)]
pub enum MatchOutcome {
    /// Every pattern element was matched, in order.
    Conforms,
    /// `pattern_index` is the first pattern element that could not be matched
    /// by any remaining evaluable step; `matched` elements were matched.
    DeviatesAt { pattern_index: usize, matched: usize },
}

/// The signatures of a pattern, by content.
pub open spec fn pattern_view(p: Seq<StepSig>) -> Seq<SigView> {
    p.map_values(|s: StepSig| s@)
}

/// The (optional) signatures of a trajectory's steps, by content.
pub open spec fn steps_view(s: Seq<Option<StepSig>>) -> Seq<Option<SigView>> {
    s.map_values(|o: Option<StepSig>| match o {
        Some(x) => Some(x@),
        None => None,
    })
}

/// How many leading pattern elements an in-order scan of `steps` matches,
/// taking each step greedily for the next unmatched element.
pub open spec fn greedy(p: Seq<SigView>, steps: Seq<Option<SigView>>) -> nat
    decreases steps.len(),
{
    if steps.len() == 0 {
        0
    } else {
        let k = greedy(p, steps.drop_last());
        if k < p.len() && steps.last() == Some(p[k as int]) {
            k + 1
        } else {
            k
        }
    }
}

/// `idx` places the first `m` pattern elements on strictly increasing,
/// matching steps.
pub open spec fn places(p: Seq<SigView>, steps: Seq<Option<SigView>>, idx: Seq<int>, m: int) -> bool {
    &&& 0 <= m <= p.len()
    &&& idx.len() == m
    &&& forall|k: int| 0 <= k < m ==> 0 <= #[trigger] idx[k] < steps.len()
    &&& forall|k: int| 0 <= k < m ==> steps[#[trigger] idx[k]] == Some(p[k])
    &&& forall|a: int, b: int| 0 <= a < b < m ==> #[trigger] idx[a] < #[trigger] idx[b]
}

/// The pattern occurs in the evaluable steps as a subsequence.
pub open spec fn embeds(p: Seq<SigView>, steps: Seq<Option<SigView>>) -> bool {
    exists|idx: Seq<int>| places(p, steps, idx, p.len() as int)
}

/// The outcome the grammar assigns to `p` against `steps`.
pub open spec fn outcome_of(p: Seq<SigView>, steps: Seq<Option<SigView>>) -> MatchOutcome {
    let g = greedy(p, steps);
    if g == p.len() {
        MatchOutcome::Conforms
    } else {
        MatchOutcome::DeviatesAt { pattern_index: g as usize, matched: g as usize }
    }
}

proof fn lemma_greedy_bounds(p: Seq<SigView>, steps: Seq<Option<SigView>>)
    ensures
        greedy(p, steps) <= p.len(),
        greedy(p, steps) <= steps.len(),
    decreases steps.len(),
{
    if steps.len() > 0 {
        lemma_greedy_bounds(p, steps.drop_last());
    }
}

/// The placement the greedy scan builds.
spec fn greedy_idx(p: Seq<SigView>, steps: Seq<Option<SigView>>) -> Seq<int>
    decreases steps.len(),
{
    if steps.len() == 0 {
        Seq::empty()
    } else {
        let w = greedy_idx(p, steps.drop_last());
        let k = greedy(p, steps.drop_last());
        if k < p.len() && steps.last() == Some(p[k as int]) {
            w.push(steps.len() - 1)
        } else {
            w
        }
    }
}

proof fn lemma_greedy_places(p: Seq<SigView>, steps: Seq<Option<SigView>>)
    ensures
        places(p, steps, greedy_idx(p, steps), greedy(p, steps) as int),
    decreases steps.len(),
{
    lemma_greedy_bounds(p, steps);
    if steps.len() > 0 {
        let pre = steps.drop_last();
        lemma_greedy_places(p, pre);
        lemma_greedy_bounds(p, pre);
        let w = greedy_idx(p, pre);
        let k = greedy(p, pre);
        assert forall|j: int| 0 <= j < k implies steps[#[trigger] w[j]] == Some(p[j]) by {
            assert(pre[w[j]] == Some(p[j]));
        }
        if k < p.len() && steps.last() == Some(p[k as int]) {
            let w2 = w.push(steps.len() - 1);
            assert forall|j: int| 0 <= j < k + 1 implies steps[#[trigger] w2[j]] == Some(p[j]) by {
                if j < k {
                    assert(w2[j] == w[j]);
                }
            }
            assert forall|a: int, b: int| 0 <= a < b < k + 1 implies #[trigger] w2[a] < #[trigger] w2[b] by {
                if b < k {
                    assert(w2[a] == w[a] && w2[b] == w[b]);
                } else {
                    assert(w2[a] == w[a]);
                }
            }
        }
    }
}

/// Greedy matching is optimal: any placement of `m` leading elements means
/// the greedy scan matches at least `m`.
proof fn lemma_greedy_optimal(p: Seq<SigView>, steps: Seq<Option<SigView>>, idx: Seq<int>, m: int)
    requires
        places(p, steps, idx, m),
    ensures
        greedy(p, steps) >= m,
    decreases steps.len(), m,
{
    if m == 0 {
        return;
    }
    let pre = steps.drop_last();
    let last = idx[m - 1];
    lemma_greedy_bounds(p, pre);
    if last == steps.len() - 1 {
        let idx2 = idx.drop_last();
        assert forall|k: int| 0 <= k < m - 1 implies 0 <= #[trigger] idx2[k] < pre.len() by {
            assert(idx[k] < idx[m - 1]);
        }
        assert forall|k: int| 0 <= k < m - 1 implies pre[#[trigger] idx2[k]] == Some(p[k]) by {
            assert(idx[k] < idx[m - 1]);
            assert(steps[idx[k]] == Some(p[k]));
        }
        assert forall|a: int, b: int| 0 <= a < b < m - 1 implies #[trigger] idx2[a] < #[trigger] idx2[b] by {
            assert(idx[a] < idx[b]);
        }
        lemma_greedy_optimal(p, pre, idx2, m - 1);
        assert(steps.last() == Some(p[m - 1]));
    } else {
        assert forall|k: int| 0 <= k < m implies 0 <= #[trigger] idx[k] < pre.len() by {
            if k < m - 1 {
                assert(idx[k] < idx[m - 1]);
            }
        }
        assert forall|k: int| 0 <= k < m implies pre[#[trigger] idx[k]] == Some(p[k]) by {
            if k < m - 1 {
                assert(idx[k] < idx[m - 1]);
            }
            assert(steps[idx[k]] == Some(p[k]));
        }
        lemma_greedy_optimal(p, pre, idx, m);
    }
}

/// Law: a trajectory conforms exactly when the pattern occurs in its
/// evaluable steps as a subsequence — in order, with gaps allowed.
pub proof fn law_conforms_iff_subsequence(p: Seq<SigView>, steps: Seq<Option<SigView>>)
    ensures
        (outcome_of(p, steps) == MatchOutcome::Conforms) <==> embeds(p, steps),
{
    lemma_greedy_places(p, steps);
    lemma_greedy_bounds(p, steps);
    if embeds(p, steps) {
        let idx = choose|idx: Seq<int>| places(p, steps, idx, p.len() as int);
        lemma_greedy_optimal(p, steps, idx, p.len() as int);
    }
}

/// Law: the scan matches the longest leading part of the pattern that occurs
/// in the evaluable steps as a subsequence: that many elements can be placed
/// in order, and one more cannot. A deviation is reported at that length.
pub proof fn law_deviation_is_the_longest_placeable_prefix(p: Seq<SigView>, steps: Seq<Option<SigView>>)
    ensures
        exists|idx: Seq<int>| places(p, steps, idx, greedy(p, steps) as int),
        forall|idx: Seq<int>, m: int| #[trigger] places(p, steps, idx, m) ==> m <= greedy(p, steps),
        greedy(p, steps) < p.len() ==> outcome_of(p, steps) == (MatchOutcome::DeviatesAt {
            pattern_index: greedy(p, steps) as usize,
            matched: greedy(p, steps) as usize,
        }),
{
    lemma_greedy_places(p, steps);
    lemma_greedy_bounds(p, steps);
    assert forall|idx: Seq<int>, m: int| #[trigger] places(p, steps, idx, m) implies m <= greedy(p, steps) by {
        lemma_greedy_optimal(p, steps, idx, m);
    }
}

/// Law: unevaluable steps are neutral — removing a step that carries no
/// signature never changes the outcome.
pub proof fn law_unevaluable_steps_are_neutral(
    p: Seq<SigView>,
    steps: Seq<Option<SigView>>,
    i: int,
)
    requires
        0 <= i < steps.len(),
        steps[i] is None,
    ensures
        outcome_of(p, steps.remove(i)) == outcome_of(p, steps),
    decreases steps.len(),
{
    lemma_greedy_neutral(p, steps, i);
}

proof fn lemma_greedy_neutral(p: Seq<SigView>, steps: Seq<Option<SigView>>, i: int)
    requires
        0 <= i < steps.len(),
        steps[i] is None,
    ensures
        greedy(p, steps.remove(i)) == greedy(p, steps),
    decreases steps.len(),
{
    let r = steps.remove(i);
    if i == steps.len() - 1 {
        assert(r =~= steps.drop_last());
    } else {
        lemma_greedy_neutral(p, steps.drop_last(), i);
        assert(r.drop_last() =~= steps.drop_last().remove(i));
        assert(r.last() == steps.last());
    }
}

/// Match `pattern` as a subsequence of `steps` (in order, gaps allowed).
///
/// `None` entries are unevaluable steps: they never match and never deviate.
pub fn match_pattern(pattern: &[StepSig], steps: &[Option<StepSig>]) -> (r: MatchOutcome)
    ensures
        r == outcome_of(pattern_view(pattern@), steps_view(steps@)),
{
    let ghost p = pattern_view(pattern@);
    let ghost s = steps_view(steps@);
    let mut next: usize = 0;
    let mut i: usize = 0;
    while i < steps.len()
        invariant
            i <= steps@.len(),
            p == pattern_view(pattern@),
            s == steps_view(steps@),
            next == greedy(p, s.take(i as int)),
            next <= pattern@.len(),
        decreases steps.len() - i,
    {
        proof {
            assert(s.take(i + 1).drop_last() =~= s.take(i as int));
            lemma_greedy_bounds(p, s.take(i as int));
        }
        if next < pattern.len() {
            match &steps[i] {
                Some(sig) => {
                    if sig.same(&pattern[next]) {
                        next = next + 1;
                    }
                },
                None => {},
            }
        }
        i = i + 1;
    }
    proof {
        assert(s.take(steps@.len() as int) =~= s);
    }
    if next == pattern.len() {
        MatchOutcome::Conforms
    } else {
        MatchOutcome::DeviatesAt { pattern_index: next, matched: next }
    }
}

} // verus!
