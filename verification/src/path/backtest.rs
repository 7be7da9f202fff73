//! Backtest a candidate golden path over recorded history.
//!
//! Given an exemplar trajectory and the steps a candidate omits, compile the
//! candidate's v1 pattern and replay it over every other trajectory whose
//! work item shares a topic with the exemplar's: who would have conformed,
//! and how did their work items close? The report is what a human promotes
//! on, so `0 matches` and `cannot evaluate` are kept apart.

use vstd::prelude::*;

use crate::store::{facts_view, FactView, Store};
use crate::text::{owned, push_str, seq_lt, str_eq, str_lt, lemma_seq_lt_irreflexive, lemma_seq_lt_transitive};
use crate::value::{Error, Value, ValueView};

use super::cone::strings_view;
use super::grammar::{match_pattern, outcome_of, pattern_view, MatchOutcome, SigView, StepSig, GRAMMAR_VERSION};
use super::read::{
    ordered_steps, ref_values, ref_values_of, require_entity, step_sig, step_sig_of, steps_of, steps_view,
    str_value, str_value_of, str_values, str_values_of, StepRef, StepView,
};
use super::PathVocab;

verus! {

/// How one historical trajectory fared against the candidate pattern.
#[derive(Debug, Clone, Copy, PartialEq, Eq, Structural)]
pub enum RowResult {
    Conforms,
    DeviatesAt { pattern_index: usize },
    /// Every step of the trajectory is unevaluable (or it has none): this row
    /// is evidence of missing data, not of non-conformance.
    CannotEvaluate,
}

/// One historical trajectory in the backtest.
#[derive(Debug, Clone)]
pub struct BacktestRow {
    pub trajectory: String,
    pub workitem: String,
    /// The work item's close disposition; absence means open.
    pub outcome: Option<String>,
    pub result: RowResult,
    /// Steps that carried no v1 signature and were skipped by matching.
    pub unevaluated_steps: usize,
}

/// The backtest report a promotion cites.
#[derive(Debug, Clone)]
pub struct BacktestReport {
    /// The grammar version this replay evaluated with.
    pub grammar: &'static str,
    pub exemplar: String,
    /// The compiled candidate pattern.
    pub pattern: Vec<StepSig>,
    /// The topics applicability matched on.
    pub topics: Vec<String>,
    pub rows: Vec<BacktestRow>,
    pub conformers_done: usize,
    pub conformers_total: usize,
    pub deviators_done: usize,
    pub deviators_total: usize,
    pub cannot_evaluate: usize,
}

/// An applicable trajectory: `(trajectory id, trajectory IRI, work item id,
/// work item IRI)`.
pub type TrajView = (i64, Seq<char>, i64, Seq<char>);

/// The compiled pattern and the kept steps without a signature, over `steps`
/// minus `omitted`.
pub open spec fn compile_spec(s: &Store, vocab: &PathVocab, steps: Seq<StepView>, omitted: Seq<Seq<char>>) -> (
    Seq<SigView>,
    Seq<Seq<char>>,
)
    decreases steps.len(),
{
    if steps.len() == 0 {
        (Seq::empty(), Seq::empty())
    } else {
        let (p, miss) = compile_spec(s, vocab, steps.drop_last(), omitted);
        let st = steps.last();
        if omitted.contains(st.1) {
            (p, miss)
        } else {
            match step_sig_of(s, vocab, st.0) {
                Some(sig) => (p.push(sig), miss),
                None => (p, miss.push(st.1)),
            }
        }
    }
}

/// The topics of the exemplar's (first) work item.
pub open spec fn exemplar_topics(s: &Store, vocab: &PathVocab, exemplar: i64) -> Seq<Seq<char>> {
    let wis = ref_values_of(s, exemplar, vocab.trajectory_of@);
    if wis.len() == 0 {
        Seq::empty()
    } else {
        str_values_of(s, wis[0], vocab.about@)
    }
}

/// Some topic of `wt` is one of `topics`.
pub open spec fn shares_topic(wt: Seq<Seq<char>>, topics: Seq<Seq<char>>) -> bool {
    exists|k: int| 0 <= k < wt.len() && topics.contains(#[trigger] wt[k])
}

/// The applicable trajectories among `facts`, in log order.
pub open spec fn candidates(
    s: &Store,
    vocab: &PathVocab,
    facts: Seq<FactView>,
    traj_of: i64,
    exemplar: i64,
    topics: Seq<Seq<char>>,
) -> Seq<TrajView>
    decreases facts.len(),
{
    if facts.len() == 0 {
        Seq::empty()
    } else {
        let prev = candidates(s, vocab, facts.drop_last(), traj_of, exemplar, topics);
        let f = facts.last();
        if f.attribute == traj_of && f.entity != exemplar && f.value is Ref && shares_topic(
            str_values_of(s, f.value->Ref_0, vocab.about@),
            topics,
        ) {
            prev.push((f.entity, s.term(f.entity), f.value->Ref_0, s.term(f.value->Ref_0)))
        } else {
            prev
        }
    }
}

/// `x` inserted into `v` after every entry whose trajectory IRI is not
/// greater.
pub open spec fn insert_by_iri(x: TrajView, v: Seq<TrajView>) -> Seq<TrajView>
    decreases v.len(),
{
    if v.len() == 0 {
        seq![x]
    } else if seq_lt(x.1, v[0].1) {
        seq![x] + v
    } else {
        seq![v[0]] + insert_by_iri(x, v.drop_first())
    }
}

/// `v` sorted by trajectory IRI, stably.
pub open spec fn sort_by_iri(v: Seq<TrajView>) -> Seq<TrajView>
    decreases v.len(),
{
    if v.len() == 0 {
        Seq::empty()
    } else {
        insert_by_iri(v.last(), sort_by_iri(v.drop_last()))
    }
}

/// The trajectories (other than the exemplar) whose work item shares one of
/// `topics`, sorted by trajectory IRI.
pub open spec fn applicable_spec(s: &Store, vocab: &PathVocab, exemplar: i64, topics: Seq<Seq<char>>) -> Seq<
    TrajView,
> {
    match s.id_of(vocab.trajectory_of@) {
        None => Seq::empty(),
        Some(t) => sort_by_iri(candidates(s, vocab, s.root_facts(), t, exemplar, topics)),
    }
}

/// The signatures of `steps`.
pub open spec fn sigs_of(s: &Store, vocab: &PathVocab, steps: Seq<StepView>) -> Seq<Option<SigView>> {
    steps.map_values(|st: StepView| step_sig_of(s, vocab, st.0))
}

/// How many of `sigs` are missing.
pub open spec fn count_none(sigs: Seq<Option<SigView>>) -> nat
    decreases sigs.len(),
{
    if sigs.len() == 0 {
        0
    } else {
        count_none(sigs.drop_last()) + if sigs.last() is None {
            1nat
        } else {
            0nat
        }
    }
}

/// The grammar's verdict on one trajectory's signatures.
pub open spec fn row_result(p: Seq<SigView>, sigs: Seq<Option<SigView>>) -> RowResult {
    if count_none(sigs) == sigs.len() {
        RowResult::CannotEvaluate
    } else {
        match outcome_of(p, sigs) {
            MatchOutcome::Conforms => RowResult::Conforms,
            MatchOutcome::DeviatesAt { pattern_index, .. } => RowResult::DeviatesAt { pattern_index },
        }
    }
}

/// `row` reports trajectory `t` against pattern `p`.
pub open spec fn row_of(row: BacktestRow, s: &Store, vocab: &PathVocab, p: Seq<SigView>, t: TrajView) -> bool {
    let sigs = sigs_of(s, vocab, ordered_steps(s, vocab, t.0));
    &&& row.trajectory@ == t.1
    &&& row.workitem@ == t.3
    &&& match row.outcome {
        Some(o) => str_value_of(s, t.2, vocab.outcome@) == Some(o@),
        None => str_value_of(s, t.2, vocab.outcome@) is None,
    }
    &&& row.result == row_result(p, sigs)
    &&& row.unevaluated_steps == count_none(sigs)
}

/// The row's work item closed as `done`.
pub open spec fn is_done(row: BacktestRow) -> bool {
    row.outcome matches Some(o) && o@ == "done"@
}

/// `(conformers done, conformers, deviators done, deviators, cannot evaluate)`.
pub open spec fn tally(rows: Seq<BacktestRow>) -> (nat, nat, nat, nat, nat)
    decreases rows.len(),
{
    if rows.len() == 0 {
        (0, 0, 0, 0, 0)
    } else {
        let (cd, ct, dd, dt, ce) = tally(rows.drop_last());
        let r = rows.last();
        match r.result {
            RowResult::Conforms => (cd + if is_done(r) {
                1nat
            } else {
                0nat
            }, ct + 1, dd, dt, ce),
            RowResult::DeviatesAt { .. } => (cd, ct, dd + if is_done(r) {
                1nat
            } else {
                0nat
            }, dt + 1, ce),
            RowResult::CannotEvaluate => (cd, ct, dd, dt, ce + 1),
        }
    }
}

/// Law: the tally partitions the rows into conformers, deviators and rows
/// that cannot be evaluated, and the done counts never exceed their totals.
pub proof fn law_the_tally_partitions_the_rows(rows: Seq<BacktestRow>)
    ensures
        tally(rows).1 + tally(rows).3 + tally(rows).4 == rows.len(),
        tally(rows).0 <= tally(rows).1,
        tally(rows).2 <= tally(rows).3,
    decreases rows.len(),
{
    if rows.len() > 0 {
        law_the_tally_partitions_the_rows(rows.drop_last());
    }
}

/// `v` is in order of trajectory IRI.
pub open spec fn sorted_by_iri(v: Seq<TrajView>) -> bool {
    forall|i: int, j: int| 0 <= i < j < v.len() ==> !seq_lt(#[trigger] v[j].1, #[trigger] v[i].1)
}

proof fn lemma_insert_by_iri_props(x: TrajView, v: Seq<TrajView>)
    requires
        sorted_by_iri(v),
    ensures
        sorted_by_iri(insert_by_iri(x, v)),
        insert_by_iri(x, v).len() == v.len() + 1,
        forall|k: int| 0 <= k < insert_by_iri(x, v).len() ==> #[trigger] insert_by_iri(x, v)[k] == x || v.contains(
            insert_by_iri(x, v)[k],
        ),
    decreases v.len(),
{
    if v.len() == 0 {
    } else if seq_lt(x.1, v[0].1) {
        let w = seq![x] + v;
        assert forall|i: int, j: int| 0 <= i < j < w.len() implies !seq_lt(#[trigger] w[j].1, #[trigger] w[i].1) by {
            if i == 0 {
                if seq_lt(w[j].1, x.1) {
                    if j - 1 > 0 {
                        assert(!seq_lt(v[j - 1].1, v[0].1));
                    }
                    lemma_seq_lt_transitive(w[j].1, x.1, v[0].1);
                    if j - 1 == 0 {
                        crate::text::lemma_seq_lt_irreflexive(v[0].1);
                    }
                }
            } else {
                assert(w[i] == v[i - 1] && w[j] == v[j - 1]);
            }
        }
        assert forall|k: int| 0 <= k < w.len() implies #[trigger] w[k] == x || v.contains(w[k]) by {
            if k > 0 {
                assert(w[k] == v[k - 1]);
            }
        }
    } else {
        let rest = v.drop_first();
        assert forall|i: int, j: int| 0 <= i < j < rest.len() implies !seq_lt(#[trigger] rest[j].1, #[trigger] rest[i].1) by {
            assert(rest[i] == v[i + 1] && rest[j] == v[j + 1]);
        }
        lemma_insert_by_iri_props(x, rest);
        let ins = insert_by_iri(x, rest);
        let w = seq![v[0]] + ins;
        assert(insert_by_iri(x, v) == w);
        assert forall|k: int| 0 <= k < ins.len() implies !seq_lt(#[trigger] ins[k].1, v[0].1) by {
            if ins[k] != x {
                let m = choose|m: int| 0 <= m < rest.len() && rest[m] == ins[k];
                assert(rest[m] == v[m + 1]);
            }
        }
        assert forall|i: int, j: int| 0 <= i < j < w.len() implies !seq_lt(#[trigger] w[j].1, #[trigger] w[i].1) by {
            if i == 0 {
                assert(w[j] == ins[j - 1]);
            } else {
                assert(w[i] == ins[i - 1] && w[j] == ins[j - 1]);
            }
        }
        assert forall|k: int| 0 <= k < w.len() implies #[trigger] w[k] == x || v.contains(w[k]) by {
            if k == 0 {
                assert(v[0] == w[0]);
            } else {
                assert(w[k] == ins[k - 1]);
                if ins[k - 1] != x {
                    let m = choose|m: int| 0 <= m < rest.len() && rest[m] == ins[k - 1];
                    assert(v[m + 1] == rest[m]);
                }
            }
        }
    }
}

proof fn lemma_sort_by_iri_props(v: Seq<TrajView>)
    ensures
        sorted_by_iri(sort_by_iri(v)),
        sort_by_iri(v).len() == v.len(),
        forall|k: int| 0 <= k < sort_by_iri(v).len() ==> v.contains(#[trigger] sort_by_iri(v)[k]),
    decreases v.len(),
{
    if v.len() > 0 {
        let pre = v.drop_last();
        lemma_sort_by_iri_props(pre);
        lemma_insert_by_iri_props(v.last(), sort_by_iri(pre));
        assert forall|k: int| 0 <= k < sort_by_iri(v).len() implies v.contains(#[trigger] sort_by_iri(v)[k]) by {
            let y = sort_by_iri(v)[k];
            if y == v.last() {
                assert(v[v.len() - 1] == y);
            } else {
                let m = choose|m: int| 0 <= m < sort_by_iri(pre).len() && sort_by_iri(pre)[m] == y;
                let n = choose|n: int| 0 <= n < pre.len() && pre[n] == sort_by_iri(pre)[m];
                assert(v[n] == pre[n]);
            }
        }
    }
}

proof fn lemma_candidates_props(
    s: &Store,
    vocab: &PathVocab,
    facts: Seq<FactView>,
    traj_of: i64,
    exemplar: i64,
    topics: Seq<Seq<char>>,
)
    ensures
        forall|k: int|
            0 <= k < candidates(s, vocab, facts, traj_of, exemplar, topics).len() ==> {
                let t = #[trigger] candidates(s, vocab, facts, traj_of, exemplar, topics)[k];
                &&& t.0 != exemplar
                &&& shares_topic(str_values_of(s, t.2, vocab.about@), topics)
            },
    decreases facts.len(),
{
    if facts.len() > 0 {
        lemma_candidates_props(s, vocab, facts.drop_last(), traj_of, exemplar, topics);
        let prev = candidates(s, vocab, facts.drop_last(), traj_of, exemplar, topics);
        let c = candidates(s, vocab, facts, traj_of, exemplar, topics);
        assert forall|k: int| 0 <= k < c.len() implies {
            let t = #[trigger] c[k];
            &&& t.0 != exemplar
            &&& shares_topic(str_values_of(s, t.2, vocab.about@), topics)
        } by {
            if k < prev.len() {
                assert(c[k] == prev[k]);
            }
        }
    }
}

/// Law: the applicable trajectories are in order of trajectory IRI, never
/// include the exemplar, and each one's work item shares a topic with the
/// exemplar's.
pub proof fn law_applicable_trajectories_are_sorted_and_on_topic(
    s: &Store,
    vocab: &PathVocab,
    exemplar: i64,
    topics: Seq<Seq<char>>,
)
    ensures
        sorted_by_iri(applicable_spec(s, vocab, exemplar, topics)),
        forall|k: int|
            0 <= k < applicable_spec(s, vocab, exemplar, topics).len() ==> {
                let t = #[trigger] applicable_spec(s, vocab, exemplar, topics)[k];
                &&& t.0 != exemplar
                &&& shares_topic(str_values_of(s, t.2, vocab.about@), topics)
            },
{
    match s.id_of(vocab.trajectory_of@) {
        None => {},
        Some(t) => {
            let c = candidates(s, vocab, s.root_facts(), t, exemplar, topics);
            lemma_sort_by_iri_props(c);
            lemma_candidates_props(s, vocab, s.root_facts(), t, exemplar, topics);
            assert forall|k: int| 0 <= k < sort_by_iri(c).len() implies {
                let u = #[trigger] sort_by_iri(c)[k];
                &&& u.0 != exemplar
                &&& shares_topic(str_values_of(s, u.2, vocab.about@), topics)
            } by {
                let m = choose|m: int| 0 <= m < c.len() && c[m] == sort_by_iri(c)[k];
            }
        },
    }
}

/// `items` joined with `", "`.
pub open spec fn joined(items: Seq<Seq<char>>) -> Seq<char>
    decreases items.len(),
{
    if items.len() == 0 {
        Seq::empty()
    } else if items.len() == 1 {
        items[0]
    } else {
        joined(items.drop_last()) + ", "@ + items.last()
    }
}

/// The refusal for an exemplar without steps.
pub open spec fn no_steps_msg(iri: Seq<char>) -> Seq<char> {
    "exemplar trajectory has no steps: "@ + iri
}

/// The refusal for kept steps without a signature.
pub open spec fn uncompilable_msg(missing: Seq<Seq<char>>) -> Seq<char> {
    "cannot compile the candidate pattern: kept step(s) with no actionKind (no "@ + GRAMMAR_VERSION@
        + " signature): "@ + joined(missing)
        + ". Omit them or record their action kinds — a pattern with holes would match something other than what is being promoted"@
}

/// The refusal for an empty pattern.
pub open spec fn empty_pattern_msg() -> Seq<char> {
    "the candidate pattern is empty after omissions — nothing to backtest"@
}

/// The refusal for an exemplar whose work item records no topic.
pub open spec fn no_topic_msg(iri: Seq<char>) -> Seq<char> {
    "cannot establish applicability: the exemplar's work item records no topic (no `about` value reachable from "@
        + iri + ") — a backtest over an unbounded population would count everything and mean nothing"@
}

/// Whether `x` is one of `v`.
fn contains_str(v: &[String], x: &str) -> (r: bool)
    ensures
        r == strings_view(v@).contains(x@),
{
    let mut i: usize = 0;
    while i < v.len()
        invariant
            i <= v@.len(),
            forall|k: int| 0 <= k < i ==> v@[k]@ != x@,
        decreases v.len() - i,
    {
        if str_eq(v[i].as_str(), x) {
            proof {
                assert(strings_view(v@)[i as int] == x@);
            }
            return true;
        }
        i = i + 1;
    }
    proof {
        if strings_view(v@).contains(x@) {
            let k = choose|k: int| 0 <= k < strings_view(v@).len() && strings_view(v@)[k] == x@;
            assert(v@[k]@ == x@);
        }
    }
    false
}

/// Compile the candidate pattern: kept steps, in order, each with a
/// signature; the kept steps without one are returned beside it.
fn compile(store: &Store, vocab: &PathVocab, steps: &Vec<StepRef>, omitted: &[String]) -> (r: (
    Vec<StepSig>,
    Vec<String>,
))
    requires
        store.wf(),
    ensures
        (pattern_view(r.0@), strings_view(r.1@)) == compile_spec(
            store,
            vocab,
            steps_view(steps@),
            strings_view(omitted@),
        ),
{
    let ghost sv = steps_view(steps@);
    let ghost om = strings_view(omitted@);
    let mut pattern: Vec<StepSig> = Vec::new();
    let mut missing: Vec<String> = Vec::new();
    let mut i: usize = 0;
    proof {
        assert(pattern_view(pattern@) =~= Seq::<SigView>::empty());
        assert(strings_view(missing@) =~= Seq::<Seq<char>>::empty());
    }
    while i < steps.len()
        invariant
            store.wf(),
            i <= steps@.len(),
            sv == steps_view(steps@),
            om == strings_view(omitted@),
            (pattern_view(pattern@), strings_view(missing@)) == compile_spec(store, vocab, sv.take(i as int), om),
        decreases steps.len() - i,
    {
        let step = &steps[i];
        proof {
            assert(sv.take(i + 1).drop_last() =~= sv.take(i as int));
            assert(sv.take(i + 1).last() == step@);
        }
        let ghost p0 = pattern@;
        let ghost m0 = missing@;
        if !contains_str(omitted, step.iri.as_str()) {
            match step_sig(store, vocab, step.id) {
                Some(sig) => {
                    pattern.push(sig);
                    proof {
                        assert(pattern_view(pattern@) =~= pattern_view(p0).push(pattern@.last()@));
                    }
                },
                None => {
                    missing.push(step.iri.clone());
                    proof {
                        assert(strings_view(missing@) =~= strings_view(m0).push(step.iri@));
                    }
                },
            }
        }
        i = i + 1;
    }
    proof {
        assert(sv.take(sv.len() as int) =~= sv);
    }
    (pattern, missing)
}

/// `items` joined with `", "`.
fn join_items(items: &Vec<String>) -> (out: String)
    ensures
        out@ == joined(strings_view(items@)),
{
    let ghost iv = strings_view(items@);
    let mut out = String::new();
    let mut i: usize = 0;
    proof {
        assert(iv.take(0) =~= Seq::<Seq<char>>::empty());
    }
    while i < items.len()
        invariant
            i <= items@.len(),
            iv == strings_view(items@),
            out@ == joined(iv.take(i as int)),
        decreases items.len() - i,
    {
        proof {
            assert(iv.take(i + 1).drop_last() =~= iv.take(i as int));
            assert(iv.take(i + 1).last() == items@[i as int]@);
        }
        if i > 0 {
            push_str(&mut out, ", ");
        }
        push_str(&mut out, items[i].as_str());
        proof {
            if i == 0 {
                assert(iv.take(1)[0] == items@[0]@);
            }
        }
        i = i + 1;
    }
    proof {
        assert(iv.take(iv.len() as int) =~= iv);
    }
    out
}

/// Whether some topic of `wt` is one of `topics`.
fn any_shared(wt: &Vec<String>, topics: &Vec<String>) -> (r: bool)
    ensures
        r == shares_topic(strings_view(wt@), strings_view(topics@)),
{
    let mut i: usize = 0;
    while i < wt.len()
        invariant
            i <= wt@.len(),
            forall|k: int| 0 <= k < i ==> !strings_view(topics@).contains(#[trigger] strings_view(wt@)[k]),
        decreases wt.len() - i,
    {
        if contains_str(topics.as_slice(), wt[i].as_str()) {
            proof {
                assert(strings_view(wt@)[i as int] == wt@[i as int]@);
            }
            return true;
        }
        proof {
            assert(strings_view(wt@)[i as int] == wt@[i as int]@);
        }
        i = i + 1;
    }
    false
}

proof fn lemma_insert_by_iri_at(x: TrajView, v: Seq<TrajView>, j: int)
    requires
        0 <= j <= v.len(),
        forall|k: int| 0 <= k < j ==> !seq_lt(x.1, (#[trigger] v[k]).1),
        j < v.len() ==> seq_lt(x.1, v[j].1),
    ensures
        insert_by_iri(x, v) == v.insert(j, x),
    decreases j,
{
    if j == 0 {
        if v.len() == 0 {
            assert(v.insert(0, x) =~= seq![x]);
        } else {
            assert(v.insert(0, x) =~= seq![x] + v);
        }
    } else {
        let t = v.drop_first();
        assert(!seq_lt(x.1, v[0].1));
        assert forall|k: int| 0 <= k < j - 1 implies !seq_lt(x.1, (#[trigger] t[k]).1) by {
            assert(t[k] == v[k + 1]);
        }
        if j < v.len() {
            assert(t[j - 1] == v[j]);
        }
        lemma_insert_by_iri_at(x, t, j - 1);
        assert(seq![v[0]] + t.insert(j - 1, x) =~= v.insert(j, x));
    }
}

/// The contents of an applicable-trajectory list.
pub open spec fn trajs_view(v: Seq<(i64, String, i64, String)>) -> Seq<TrajView> {
    v.map_values(|t: (i64, String, i64, String)| (t.0, t.1@, t.2, t.3@))
}

/// Trajectories (other than the exemplar) whose work item shares one of the
/// exemplar's topics, sorted by trajectory IRI.
fn applicable_trajectories(store: &Store, vocab: &PathVocab, exemplar_id: i64, topics: &Vec<String>) -> (out: Vec<
    (i64, String, i64, String),
>)
    requires
        store.wf(),
    ensures
        trajs_view(out@) == applicable_spec(store, vocab, exemplar_id, strings_view(topics@)),
{
    let traj_of = match store.lookup(vocab.trajectory_of.as_str()) {
        Some(a) => a,
        None => {
            let out: Vec<(i64, String, i64, String)> = Vec::new();
            assert(trajs_view(out@) =~= Seq::<TrajView>::empty());
            return out;
        },
    };
    let ghost tv = strings_view(topics@);
    let facts = store.current_facts();
    proof {
        store.lemma_selected_known(seq![crate::store::ROOT_GRAPH], None);
    }
    let ghost fv = facts_view(facts@);
    let mut found: Vec<(i64, String, i64, String)> = Vec::new();
    let mut i: usize = 0;
    proof {
        assert(trajs_view(found@) =~= candidates(store, vocab, fv.take(0), traj_of, exemplar_id, tv));
    }
    while i < facts.len()
        invariant
            store.wf(),
            i <= facts@.len(),
            fv == facts_view(facts@),
            fv == store.root_facts(),
            tv == strings_view(topics@),
            forall|k: int| 0 <= k < fv.len() ==> crate::store::fact_known(#[trigger] fv[k], store.terms().len() as int),
            trajs_view(found@) == candidates(store, vocab, fv.take(i as int), traj_of, exemplar_id, tv),
        decreases facts.len() - i,
    {
        proof {
            assert(fv.take(i + 1).drop_last() =~= fv.take(i as int));
            assert(fv.take(i + 1).last() == facts@[i as int]@);
            assert(crate::store::fact_known(fv[i as int], store.terms().len() as int));
        }
        let ghost before = found@;
        let f = &facts[i];
        if f.attribute == traj_of && f.entity != exemplar_id {
            if let Value::Ref(wi) = &f.value {
                let wt = str_values(store, *wi, vocab.about.as_str());
                if any_shared(&wt, topics) {
                    let t_iri = term_iri(store, f.entity);
                    let w_iri = term_iri(store, *wi);
                    found.push((f.entity, t_iri, *wi, w_iri));
                    proof {
                        assert(trajs_view(found@) =~= trajs_view(before).push(
                            (f.entity, store.term(f.entity), *wi, store.term(*wi)),
                        ));
                    }
                }
            }
        }
        i = i + 1;
    }
    proof {
        assert(fv.take(fv.len() as int) =~= fv);
    }
    sort_trajs(found)
}

/// The IRI of an interned term.
fn term_iri(store: &Store, id: i64) -> (r: String)
    requires
        store.wf(),
        store.has_term(id),
    ensures
        r@ == store.term(id),
{
    match store.resolve(id) {
        Ok(s) => s,
        Err(_) => {
            assert(false);
            String::new()
        },
    }
}

/// Stable insertion sort by trajectory IRI.
fn sort_trajs(v: Vec<(i64, String, i64, String)>) -> (out: Vec<(i64, String, i64, String)>)
    ensures
        trajs_view(out@) == sort_by_iri(trajs_view(v@)),
{
    let mut out: Vec<(i64, String, i64, String)> = Vec::new();
    let mut i: usize = 0;
    proof {
        assert(trajs_view(out@) =~= Seq::<TrajView>::empty());
        assert(trajs_view(v@).take(0) =~= Seq::<TrajView>::empty());
    }
    while i < v.len()
        invariant
            i <= v@.len(),
            trajs_view(out@) == sort_by_iri(trajs_view(v@).take(i as int)),
        decreases v.len() - i,
    {
        let x = (v[i].0, v[i].1.clone(), v[i].2, v[i].3.clone());
        let ghost xs: TrajView = (x.0, x.1@, x.2, x.3@);
        let ghost cur = trajs_view(out@);
        proof {
            assert(xs == trajs_view(v@)[i as int]);
        }
        let mut j: usize = 0;
        while j < out.len() && !str_lt(x.1.as_str(), out[j].1.as_str())
            invariant
                j <= out@.len(),
                xs == (x.0, x.1@, x.2, x.3@),
                cur == trajs_view(out@),
                forall|k: int| 0 <= k < j ==> !seq_lt(xs.1, (#[trigger] cur[k]).1),
            decreases out.len() - j,
        {
            proof {
                assert(cur[j as int].1 == out@[j as int].1@);
            }
            j = j + 1;
        }
        proof {
            assert(trajs_view(v@).take(i + 1).drop_last() =~= trajs_view(v@).take(i as int));
            assert(trajs_view(v@).take(i + 1).last() == xs);
            if j < cur.len() {
                assert(cur[j as int].1 == out@[j as int].1@);
                assert(seq_lt(xs.1, cur[j as int].1));
            }
            lemma_insert_by_iri_at(xs, cur, j as int);
        }
        out.insert(j, x);
        proof {
            assert(trajs_view(out@) =~= cur.insert(j as int, xs));
        }
        i = i + 1;
    }
    proof {
        assert(trajs_view(v@).take(v@.len() as int) =~= trajs_view(v@));
    }
    out
}

/// Replay `pattern` over one applicable trajectory.
fn evaluate_row(
    store: &Store,
    vocab: &PathVocab,
    pattern: &Vec<StepSig>,
    traj: &(i64, String, i64, String),
) -> (row: BacktestRow)
    requires
        store.wf(),
    ensures
        row_of(row, store, vocab, pattern_view(pattern@), (traj.0, traj.1@, traj.2, traj.3@)),
{
    let steps = steps_of(store, vocab, traj.0);
    let ghost want = sigs_of(store, vocab, ordered_steps(store, vocab, traj.0));
    let mut sigs: Vec<Option<StepSig>> = Vec::new();
    let mut unevaluated: usize = 0;
    let mut i: usize = 0;
    while i < steps.len()
        invariant
            store.wf(),
            i <= steps@.len(),
            steps_view(steps@) == ordered_steps(store, vocab, traj.0),
            want == sigs_of(store, vocab, ordered_steps(store, vocab, traj.0)),
            super::grammar::steps_view(sigs@) == want.take(i as int),
            unevaluated as nat == count_none(want.take(i as int)),
            unevaluated <= i,
        decreases steps.len() - i,
    {
        let sig = step_sig(store, vocab, steps[i].id);
        proof {
            assert(want.take(i + 1).drop_last() =~= want.take(i as int));
            assert(want[i as int] == step_sig_of(store, vocab, steps_view(steps@)[i as int].0));
            assert(want.take(i + 1).last() == want[i as int]);
        }
        if sig.is_none() {
            unevaluated = unevaluated + 1;
        }
        let ghost before = sigs@;
        sigs.push(sig);
        proof {
            assert(super::grammar::steps_view(sigs@) =~= want.take(i + 1));
        }
        i = i + 1;
    }
    proof {
        assert(want.take(want.len() as int) =~= want);
    }
    let outcome = str_value(store, traj.2, vocab.outcome.as_str());
    let result = if unevaluated == sigs.len() {
        RowResult::CannotEvaluate
    } else {
        match match_pattern(pattern.as_slice(), sigs.as_slice()) {
            MatchOutcome::Conforms => RowResult::Conforms,
            MatchOutcome::DeviatesAt { pattern_index, .. } => RowResult::DeviatesAt { pattern_index },
        }
    };
    BacktestRow {
        trajectory: traj.1.clone(),
        workitem: traj.3.clone(),
        outcome,
        result,
        unevaluated_steps: unevaluated,
    }
}

/// Backtest the candidate obtained from `exemplar_iri` by omitting
/// `omitted_step_iris`.
///
/// Refuses when the pattern cannot be compiled: a kept step with no
/// `actionKind` has no v1 signature, and a pattern with a hole in it would
/// silently match something other than the path a human thinks they are
/// promoting.
pub fn backtest(store: &Store, exemplar_iri: &str, omitted_step_iris: &[String], vocab: &PathVocab) -> (r: Result<
    BacktestReport,
    Error,
>)
    requires
        store.wf(),
    ensures
        match store.id_of(exemplar_iri@) {
            None => r matches Err(e) && e.is_invalid() && e.text() == "entity not found: "@ + exemplar_iri@,
            Some(x) => {
                let steps = ordered_steps(store, vocab, x);
                let compiled = compile_spec(store, vocab, steps, strings_view(omitted_step_iris@));
                let topics = exemplar_topics(store, vocab, x);
                if steps.len() == 0 {
                    r matches Err(e) && e.is_invalid() && e.text() == no_steps_msg(exemplar_iri@)
                } else if compiled.1.len() > 0 {
                    r matches Err(e) && e.is_invalid() && e.text() == uncompilable_msg(compiled.1)
                } else if compiled.0.len() == 0 {
                    r matches Err(e) && e.is_invalid() && e.text() == empty_pattern_msg()
                } else if topics.len() == 0 {
                    r matches Err(e) && e.is_invalid() && e.text() == no_topic_msg(exemplar_iri@)
                } else {
                    r matches Ok(rep) && {
                        let trajs = applicable_spec(store, vocab, x, topics);
                        &&& rep.grammar@ == GRAMMAR_VERSION@
                        &&& rep.exemplar@ == exemplar_iri@
                        &&& pattern_view(rep.pattern@) == compiled.0
                        &&& strings_view(rep.topics@) == topics
                        &&& rep.rows@.len() == trajs.len()
                        &&& forall|k: int|
                            0 <= k < trajs.len() ==> row_of(#[trigger] rep.rows@[k], store, vocab, compiled.0, trajs[k])
                        &&& (
                            rep.conformers_done as nat,
                            rep.conformers_total as nat,
                            rep.deviators_done as nat,
                            rep.deviators_total as nat,
                            rep.cannot_evaluate as nat,
                        ) == tally(rep.rows@)
                    }
                }
            },
        },
{
    let exemplar_id = match require_entity(store, exemplar_iri) {
        Ok(id) => id,
        Err(e) => {
            return Err(e);
        },
    };
    let steps = steps_of(store, vocab, exemplar_id);
    if steps.len() == 0 {
        let mut msg = owned("exemplar trajectory has no steps: ");
        push_str(&mut msg, exemplar_iri);
        return Err(Error::InvalidValue(msg));
    }
    let (pattern, missing) = compile(store, vocab, &steps, omitted_step_iris);
    if missing.len() > 0 {
        let mut msg = owned("cannot compile the candidate pattern: kept step(s) with no actionKind (no ");
        push_str(&mut msg, GRAMMAR_VERSION);
        push_str(&mut msg, " signature): ");
        let list = join_items(&missing);
        push_str(&mut msg, list.as_str());
        push_str(
            &mut msg,
            ". Omit them or record their action kinds — a pattern with holes would match something other than what is being promoted",
        );
        return Err(Error::InvalidValue(msg));
    }
    if pattern.len() == 0 {
        return Err(Error::InvalidValue(owned("the candidate pattern is empty after omissions — nothing to backtest")));
    }
    let wis = ref_values(store, exemplar_id, vocab.trajectory_of.as_str());
    let topics: Vec<String> = if wis.len() > 0 {
        str_values(store, wis[0], vocab.about.as_str())
    } else {
        let t: Vec<String> = Vec::new();
        assert(strings_view(t@) =~= Seq::<Seq<char>>::empty());
        t
    };
    if topics.len() == 0 {
        let mut msg = owned(
            "cannot establish applicability: the exemplar's work item records no topic (no `about` value reachable from ",
        );
        push_str(&mut msg, exemplar_iri);
        push_str(&mut msg, ") — a backtest over an unbounded population would count everything and mean nothing");
        return Err(Error::InvalidValue(msg));
    }
    let trajs = applicable_trajectories(store, vocab, exemplar_id, &topics);
    let ghost tv = applicable_spec(store, vocab, exemplar_id, strings_view(topics@));
    let ghost p = pattern_view(pattern@);
    let mut rows: Vec<BacktestRow> = Vec::new();
    let mut c_done: usize = 0;
    let mut c_total: usize = 0;
    let mut d_done: usize = 0;
    let mut d_total: usize = 0;
    let mut cannot: usize = 0;
    let mut i: usize = 0;
    while i < trajs.len()
        invariant
            store.wf(),
            i <= trajs@.len(),
            trajs_view(trajs@) == tv,
            p == pattern_view(pattern@),
            rows@.len() == i,
            forall|k: int| 0 <= k < i ==> row_of(#[trigger] rows@[k], store, vocab, p, tv[k]),
            (c_done as nat, c_total as nat, d_done as nat, d_total as nat, cannot as nat) == tally(rows@),
            c_done <= c_total,
            d_done <= d_total,
            c_total + d_total + cannot == i,
        decreases trajs.len() - i,
    {
        let row = evaluate_row(store, vocab, &pattern, &trajs[i]);
        proof {
            assert(tv[i as int] == (trajs@[i as int].0, trajs@[i as int].1@, trajs@[i as int].2, trajs@[i as int].3@));
        }
        let done = match &row.outcome {
            Some(o) => str_eq(o.as_str(), "done"),
            None => false,
        };
        match row.result {
            RowResult::Conforms => {
                c_total = c_total + 1;
                if done {
                    c_done = c_done + 1;
                }
            },
            RowResult::DeviatesAt { .. } => {
                d_total = d_total + 1;
                if done {
                    d_done = d_done + 1;
                }
            },
            RowResult::CannotEvaluate => {
                cannot = cannot + 1;
            },
        }
        let ghost before = rows@;
        rows.push(row);
        proof {
            assert(rows@.drop_last() =~= before);
            assert forall|k: int| 0 <= k < i + 1 implies row_of(#[trigger] rows@[k], store, vocab, p, tv[k]) by {
                if k < i {
                    assert(rows@[k] == before[k]);
                }
            }
        }
        i = i + 1;
    }
    Ok(
        BacktestReport {
            grammar: GRAMMAR_VERSION,
            exemplar: owned(exemplar_iri),
            pattern,
            topics,
            rows,
            conformers_done: c_done,
            conformers_total: c_total,
            deviators_done: d_done,
            deviators_total: d_total,
            cannot_evaluate: cannot,
        },
    )
}

proof fn lemma_count_none(sigs: Seq<Option<SigView>>)
    ensures
        count_none(sigs) <= sigs.len(),
        count_none(sigs) == sigs.len() <==> forall|i: int| 0 <= i < sigs.len() ==> (#[trigger] sigs[i]) is None,
    decreases sigs.len(),
{
    if sigs.len() > 0 {
        let pre = sigs.drop_last();
        lemma_count_none(pre);
        if forall|i: int| 0 <= i < sigs.len() ==> (#[trigger] sigs[i]) is None {
            assert forall|i: int| 0 <= i < pre.len() implies (#[trigger] pre[i]) is None by {
                assert(pre[i] == sigs[i]);
            }
            assert(sigs[sigs.len() - 1] is None);
        }
        if sigs.len() == count_none(sigs) {
            assert(sigs.last() is None);
            assert forall|i: int| 0 <= i < sigs.len() implies (#[trigger] sigs[i]) is None by {
                if i < pre.len() {
                    assert(pre[i] == sigs[i]);
                }
            }
        }
    }
}

/// Law: a trajectory cannot be evaluated exactly when none of its steps has
/// a signature. Otherwise the grammar decides: the row conforms exactly when
/// the pattern occurs in order among the signed steps, and a step without a
/// signature never makes it unevaluable.
pub proof fn law_unevaluable_iff_no_step_is_signed(p: Seq<SigView>, sigs: Seq<Option<SigView>>)
    ensures
        (row_result(p, sigs) == RowResult::CannotEvaluate) <==> forall|i: int|
            0 <= i < sigs.len() ==> (#[trigger] sigs[i]) is None,
        (exists|i: int| 0 <= i < sigs.len() && (#[trigger] sigs[i]) is Some) ==> ((row_result(p, sigs)
            == RowResult::Conforms) <==> super::grammar::embeds(p, sigs)),
{
    lemma_count_none(sigs);
    super::grammar::law_conforms_iff_subsequence(p, sigs);
}

} // verus!
