//! Read helpers over the golden-path vocabulary.
//!
//! All reads look at the live facts of the ROOT graph. "First" means earliest
//! in the fact log.

use vstd::prelude::*;

use crate::namespace::RDF_TYPE;
use crate::store::{facts_view, fact_known, select, FactView, Store, ROOT_GRAPH};
use crate::text::{chars_lt, chars_of, lemma_seq_lt_asymmetric, lemma_seq_lt_irreflexive, lemma_seq_lt_total,
    lemma_seq_lt_transitive, owned, parse_i64, parse_i64_spec, seq_lt, str_lt};
use crate::value::{Error, Value, ValueView};

use super::grammar::{SigView, StepSig};
use super::PathVocab;

verus! {

/// The live ROOT facts about `e`, in log order.
pub open spec fn facts_of(s: &Store, e: i64) -> Seq<FactView> {
    select(s.rows(), seq![ROOT_GRAPH], Some(e))
}

/// The first string value of attribute `attr` among `facts`.
pub open spec fn first_str(facts: Seq<FactView>, attr: i64) -> Option<Seq<char>>
    decreases facts.len(),
{
    if facts.len() == 0 {
        None
    } else if facts[0].attribute == attr && facts[0].value is Str {
        Some(facts[0].value->Str_0)
    } else {
        first_str(facts.drop_first(), attr)
    }
}

/// The integer a value denotes: an integer literal, or a string that parses
/// as one.
pub open spec fn int_of(v: ValueView) -> Option<int> {
    match v {
        ValueView::Int(i) => Some(i as int),
        ValueView::Str(t) => parse_i64_spec(t),
        _ => None,
    }
}

/// The first integer value of attribute `attr` among `facts`.
pub open spec fn first_int(facts: Seq<FactView>, attr: i64) -> Option<int>
    decreases facts.len(),
{
    if facts.len() == 0 {
        None
    } else if facts[0].attribute == attr && int_of(facts[0].value) is Some {
        int_of(facts[0].value)
    } else {
        first_int(facts.drop_first(), attr)
    }
}

/// The referenced ids of attribute `attr` among `facts`, in order.
pub open spec fn refs_in(facts: Seq<FactView>, attr: i64) -> Seq<i64>
    decreases facts.len(),
{
    if facts.len() == 0 {
        Seq::empty()
    } else {
        let prev = refs_in(facts.drop_last(), attr);
        if facts.last().attribute == attr && facts.last().value is Ref {
            prev.push(facts.last().value->Ref_0)
        } else {
            prev
        }
    }
}

/// The string values of attribute `attr` among `facts`, in order.
pub open spec fn strs_in(facts: Seq<FactView>, attr: i64) -> Seq<Seq<char>>
    decreases facts.len(),
{
    if facts.len() == 0 {
        Seq::empty()
    } else {
        let prev = strs_in(facts.drop_last(), attr);
        if facts.last().attribute == attr && facts.last().value is Str {
            prev.push(facts.last().value->Str_0)
        } else {
            prev
        }
    }
}

/// Every string value `e` carries for `attr_iri`, in order.
pub open spec fn str_values_of(s: &Store, e: i64, attr_iri: Seq<char>) -> Seq<Seq<char>> {
    match s.id_of(attr_iri) {
        Some(a) => strs_in(facts_of(s, e), a),
        None => Seq::empty(),
    }
}

/// The first fact of attribute `attr` among `facts`.
pub open spec fn first_with(facts: Seq<FactView>, attr: i64) -> Option<FactView>
    decreases facts.len(),
{
    if facts.len() == 0 {
        None
    } else if facts[0].attribute == attr {
        Some(facts[0])
    } else {
        first_with(facts.drop_first(), attr)
    }
}

/// `str_value`: the first string value of `attr_iri` on `e`.
pub open spec fn str_value_of(s: &Store, e: i64, attr_iri: Seq<char>) -> Option<Seq<char>> {
    match s.id_of(attr_iri) {
        Some(a) => first_str(facts_of(s, e), a),
        None => None,
    }
}

/// `int_value`: the first integer value of `attr_iri` on `e`.
pub open spec fn int_value_of(s: &Store, e: i64, attr_iri: Seq<char>) -> Option<int> {
    match s.id_of(attr_iri) {
        Some(a) => first_int(facts_of(s, e), a),
        None => None,
    }
}

/// `ref_values`: every id `e` references through `attr_iri`, in order.
pub open spec fn ref_values_of(s: &Store, e: i64, attr_iri: Seq<char>) -> Seq<i64> {
    match s.id_of(attr_iri) {
        Some(a) => refs_in(facts_of(s, e), a),
        None => Seq::empty(),
    }
}

/// `has_value`: `e` carries some value for `attr_iri`.
pub open spec fn has_value_of(s: &Store, e: i64, attr_iri: Seq<char>) -> bool {
    match s.id_of(attr_iri) {
        Some(a) => first_with(facts_of(s, e), a) is Some,
        None => false,
    }
}

/// The lexicographically least element of a non-empty sequence.
pub open spec fn least(names: Seq<Seq<char>>) -> Seq<char>
    decreases names.len(),
{
    if names.len() <= 1 {
        names[0]
    } else {
        let m = least(names.drop_last());
        if seq_lt(names.last(), m) {
            names.last()
        } else {
            m
        }
    }
}

/// The IRIs of the given term ids.
pub open spec fn names_of(s: &Store, ids: Seq<i64>) -> Seq<Seq<char>> {
    ids.map_values(|t: i64| s.term(t))
}

/// The `targetClass` half of a step's v1 signature.
pub open spec fn target_class_of(s: &Store, vocab: &PathVocab, step: i64) -> Seq<char> {
    match s.id_of(vocab.action_target@) {
        None => "none"@,
        Some(a) => match first_with(facts_of(s, step), a) {
            None => "none"@,
            Some(f) => match f.value {
                ValueView::Ref(t) => {
                    let names = names_of(s, ref_values_of(s, t, RDF_TYPE@));
                    if names.len() == 0 {
                        "untyped"@
                    } else {
                        least(names)
                    }
                },
                _ => "literal"@,
            },
        },
    }
}

/// The v1 signature of a step, or `None` when it records no `actionKind`.
pub open spec fn step_sig_of(s: &Store, vocab: &PathVocab, step: i64) -> Option<SigView> {
    match str_value_of(s, step, vocab.action_kind@) {
        None => None,
        Some(kind) => Some((kind, target_class_of(s, vocab, step))),
    }
}

/// A trajectory step.
#[derive(Debug, Clone, PartialEq, Eq)]
pub struct StepRef {
    pub id: i64,
    pub iri: String,
    pub order: Option<i64>,
}

/// The content of a [`StepRef`]: `(id, iri, order)`.
pub type StepView = (i64, Seq<char>, Option<i64>);

impl View for StepRef {
    type V = StepView;

    open spec fn view(&self) -> StepView {
        (self.id, self.iri@, self.order)
    }
}

impl StepRef {
    /// A copy with the same content.
    pub fn copy(&self) -> (r: StepRef)
        ensures
            r@ == self@,
    {
        StepRef { id: self.id, iri: self.iri.clone(), order: self.order }
    }
}

/// The steps of `v`, by content.
pub open spec fn steps_view(v: Seq<StepRef>) -> Seq<StepView> {
    v.map_values(|s: StepRef| s@)
}

/// Step order: by `stepOrder` (unordered steps last), then by IRI.
pub open spec fn step_lt(a: StepView, b: StepView) -> bool {
    match (a.2, b.2) {
        (Some(x), Some(y)) => x < y || (x == y && seq_lt(a.1, b.1)),
        (Some(_), None) => true,
        (None, Some(_)) => false,
        (None, None) => seq_lt(a.1, b.1),
    }
}

/// `v` is sorted by step order.
pub open spec fn steps_sorted(v: Seq<StepView>) -> bool {
    forall|i: int, j: int| 0 <= i < j < v.len() ==> !step_lt(#[trigger] v[j], #[trigger] v[i])
}

/// `x` inserted into `s` before the first element it precedes (after every
/// element it does not precede).
pub open spec fn insert_step(x: StepView, s: Seq<StepView>) -> Seq<StepView>
    decreases s.len(),
{
    if s.len() == 0 {
        seq![x]
    } else if step_lt(x, s[0]) {
        seq![x] + s
    } else {
        seq![s[0]] + insert_step(x, s.drop_first())
    }
}

/// `s` sorted by step order, stably (equal steps keep their order).
pub open spec fn sort_steps_spec(s: Seq<StepView>) -> Seq<StepView>
    decreases s.len(),
{
    if s.len() == 0 {
        Seq::empty()
    } else {
        insert_step(s.last(), sort_steps_spec(s.drop_last()))
    }
}

/// The steps of trajectory `traj`, in step order.
pub open spec fn ordered_steps(s: &Store, vocab: &PathVocab, traj: i64) -> Seq<StepView> {
    sort_steps_spec(trajectory_steps(s, vocab, traj))
}

proof fn lemma_insert_step_at(x: StepView, s: Seq<StepView>, j: int)
    requires
        0 <= j <= s.len(),
        forall|k: int| 0 <= k < j ==> !step_lt(x, #[trigger] s[k]),
        j < s.len() ==> step_lt(x, s[j]),
    ensures
        insert_step(x, s) == s.insert(j, x),
    decreases j,
{
    if j == 0 {
        if s.len() == 0 {
            assert(s.insert(0, x) =~= seq![x]);
        } else {
            assert(s.insert(0, x) =~= seq![x] + s);
        }
    } else {
        let t = s.drop_first();
        assert(!step_lt(x, s[0]));
        assert forall|k: int| 0 <= k < j - 1 implies !step_lt(x, #[trigger] t[k]) by {
            assert(t[k] == s[k + 1]);
        }
        if j < s.len() {
            assert(t[j - 1] == s[j]);
        }
        lemma_insert_step_at(x, t, j - 1);
        assert(seq![s[0]] + t.insert(j - 1, x) =~= s.insert(j, x));
    }
}

proof fn lemma_step_lt_transitive(a: StepView, b: StepView, c: StepView)
    requires
        step_lt(a, b),
        step_lt(b, c),
    ensures
        step_lt(a, c),
{
    if a.2 is Some && b.2 is Some && c.2 is Some {
        if a.2 == b.2 && b.2 == c.2 {
            lemma_seq_lt_transitive(a.1, b.1, c.1);
        }
    } else if a.2 is None && b.2 is None && c.2 is None {
        lemma_seq_lt_transitive(a.1, b.1, c.1);
    }
}

/// The step entities of trajectory `traj` among `facts`, in log order.
pub open spec fn step_entities(facts: Seq<FactView>, step_of: i64, traj: i64) -> Seq<i64>
    decreases facts.len(),
{
    if facts.len() == 0 {
        Seq::empty()
    } else {
        let prev = step_entities(facts.drop_last(), step_of, traj);
        if facts.last().attribute == step_of && facts.last().value == ValueView::Ref(traj) {
            prev.push(facts.last().entity)
        } else {
            prev
        }
    }
}

/// The step of entity `e`: its id, IRI and `stepOrder`.
pub open spec fn step_of_entity(s: &Store, vocab: &PathVocab, e: i64) -> StepView {
    (
        e,
        s.term(e),
        match int_value_of(s, e, vocab.step_order@) {
            Some(n) => Some(n as i64),
            None => None,
        },
    )
}

/// The steps of trajectory `traj`, unsorted (log order).
pub open spec fn trajectory_steps(s: &Store, vocab: &PathVocab, traj: i64) -> Seq<StepView> {
    match s.id_of(vocab.step_of@) {
        None => Seq::empty(),
        Some(a) => step_entities(s.root_facts(), a, traj).map_values(|e: i64| step_of_entity(s, vocab, e)),
    }
}

/// Scan `facts` (ascending) for the first string value of `attr`.
fn scan_first_str(facts: &Vec<crate::store::Fact>, attr: i64) -> (r: Option<String>)
    ensures
        r matches Some(t) ==> first_str(facts_view(facts@), attr) == Some(t@),
        r is None ==> first_str(facts_view(facts@), attr) is None,
{
    let ghost fv = facts_view(facts@);
    let mut i: usize = 0;
    proof {
        assert(fv.subrange(0, fv.len() as int) =~= fv);
    }
    while i < facts.len()
        invariant
            i <= facts@.len(),
            fv == facts_view(facts@),
            first_str(fv, attr) == first_str(fv.subrange(i as int, fv.len() as int), attr),
        decreases facts.len() - i,
    {
        let ghost rest = fv.subrange(i as int, fv.len() as int);
        proof {
            assert(rest.drop_first() =~= fv.subrange(i + 1, fv.len() as int));
            assert(rest[0] == facts@[i as int]@);
        }
        if facts[i].attribute == attr {
            if let Value::Str(t) = &facts[i].value {
                return Some(t.clone());
            }
        }
        i = i + 1;
    }
    proof {
        assert(fv.subrange(fv.len() as int, fv.len() as int).len() == 0);
    }
    None
}

/// First string value of `attr_iri` on `entity`, if any.
pub fn str_value(store: &Store, entity: i64, attr_iri: &str) -> (r: Option<String>)
    requires
        store.wf(),
    ensures
        r matches Some(t) ==> str_value_of(store, entity, attr_iri@) == Some(t@),
        r is None ==> str_value_of(store, entity, attr_iri@) is None,
{
    let attr = match store.lookup(attr_iri) {
        Some(a) => a,
        None => return None,
    };
    let facts = store.entity_facts(entity);
    scan_first_str(&facts, attr)
}

/// First integer value of `attr_iri` on `entity`, if any. A string that
/// parses as an integer counts.
pub fn int_value(store: &Store, entity: i64, attr_iri: &str) -> (r: Option<i64>)
    requires
        store.wf(),
    ensures
        r matches Some(n) ==> int_value_of(store, entity, attr_iri@) == Some(n as int),
        r is None ==> int_value_of(store, entity, attr_iri@) is None,
{
    let attr = match store.lookup(attr_iri) {
        Some(a) => a,
        None => return None,
    };
    let facts = store.entity_facts(entity);
    let ghost fv = facts_view(facts@);
    let mut i: usize = 0;
    proof {
        assert(fv.subrange(0, fv.len() as int) =~= fv);
    }
    while i < facts.len()
        invariant
            i <= facts@.len(),
            fv == facts_view(facts@),
            fv == facts_of(store, entity),
            store.id_of(attr_iri@) == Some(attr),
            first_int(fv, attr) == first_int(fv.subrange(i as int, fv.len() as int), attr),
        decreases facts.len() - i,
    {
        let ghost rest = fv.subrange(i as int, fv.len() as int);
        proof {
            assert(rest.drop_first() =~= fv.subrange(i + 1, fv.len() as int));
            assert(rest[0] == facts@[i as int]@);
        }
        if facts[i].attribute == attr {
            match &facts[i].value {
                Value::Int(n) => {
                    proof {
                        assert(int_of(rest[0].value) == Some(*n as int));
                    }
                    return Some(*n);
                },
                Value::Str(t) => {
                    if let Some(n) = parse_i64(t.as_str()) {
                        proof {
                            assert(int_of(rest[0].value) == Some(n as int));
                        }
                        return Some(n);
                    }
                },
                _ => {},
            }
        }
        i = i + 1;
    }
    proof {
        assert(fv.subrange(fv.len() as int, fv.len() as int).len() == 0);
    }
    None
}

/// Scan `facts` for every reference of `attr`, in order.
fn scan_refs(facts: &Vec<crate::store::Fact>, attr: i64) -> (out: Vec<i64>)
    ensures
        out@ == refs_in(facts_view(facts@), attr),
{
    let ghost fv = facts_view(facts@);
    let mut out: Vec<i64> = Vec::new();
    let mut i: usize = 0;
    while i < facts.len()
        invariant
            i <= facts@.len(),
            fv == facts_view(facts@),
            out@ == refs_in(fv.take(i as int), attr),
        decreases facts.len() - i,
    {
        proof {
            assert(fv.take(i + 1).drop_last() =~= fv.take(i as int));
        }
        if facts[i].attribute == attr {
            if let Value::Ref(id) = &facts[i].value {
                out.push(*id);
            }
        }
        i = i + 1;
    }
    proof {
        assert(fv.take(fv.len() as int) =~= fv);
    }
    out
}

/// All entity ids referenced by `entity` via `attr_iri`, in order.
pub fn ref_values(store: &Store, entity: i64, attr_iri: &str) -> (out: Vec<i64>)
    requires
        store.wf(),
    ensures
        out@ == ref_values_of(store, entity, attr_iri@),
{
    let attr = match store.lookup(attr_iri) {
        Some(a) => a,
        None => return Vec::new(),
    };
    let facts = store.entity_facts(entity);
    scan_refs(&facts, attr)
}

/// Scan `facts` for the first fact of `attr`.
fn scan_first_with(facts: &Vec<crate::store::Fact>, attr: i64) -> (r: Option<usize>)
    ensures
        r matches Some(i) ==> i < facts@.len() && first_with(facts_view(facts@), attr) == Some(facts@[i as int]@),
        r is None ==> first_with(facts_view(facts@), attr) is None,
{
    let ghost fv = facts_view(facts@);
    let mut i: usize = 0;
    proof {
        assert(fv.subrange(0, fv.len() as int) =~= fv);
    }
    while i < facts.len()
        invariant
            i <= facts@.len(),
            fv == facts_view(facts@),
            first_with(fv, attr) == first_with(fv.subrange(i as int, fv.len() as int), attr),
        decreases facts.len() - i,
    {
        let ghost rest = fv.subrange(i as int, fv.len() as int);
        proof {
            assert(rest.drop_first() =~= fv.subrange(i + 1, fv.len() as int));
            assert(rest[0] == facts@[i as int]@);
        }
        if facts[i].attribute == attr {
            return Some(i);
        }
        i = i + 1;
    }
    proof {
        assert(fv.subrange(fv.len() as int, fv.len() as int).len() == 0);
    }
    None
}

/// Whether `entity` carries any value for `attr_iri`.
pub fn has_value(store: &Store, entity: i64, attr_iri: &str) -> (r: bool)
    requires
        store.wf(),
    ensures
        r == has_value_of(store, entity, attr_iri@),
{
    let attr = match store.lookup(attr_iri) {
        Some(a) => a,
        None => return false,
    };
    let facts = store.entity_facts(entity);
    scan_first_with(&facts, attr).is_some()
}

/// The IRI of an interned term.
fn term_iri(store: &Store, id: i64) -> (r: String)
    requires
        store.wf(),
        store.has_term(id),
    ensures
        r@ == store.term(id),
{
    match store.resolve(id) {
        Ok(s) => s,
        Err(_) => {
            assert(false);
            String::new()
        },
    }
}

/// The `targetClass` half of a step's v1 signature: `"none"` without a
/// target, `"literal"` for a literal target, an IRI target's lexicographically
/// smallest `rdf:type`, `"untyped"` for an IRI target with no type.
pub fn target_class(store: &Store, vocab: &PathVocab, step: i64) -> (r: String)
    requires
        store.wf(),
    ensures
        r@ == target_class_of(store, vocab, step),
{
    let attr = match store.lookup(vocab.action_target.as_str()) {
        Some(a) => a,
        None => return owned("none"),
    };
    let facts = store.entity_facts(step);
    let i = match scan_first_with(&facts, attr) {
        Some(i) => i,
        None => return owned("none"),
    };
    proof {
        store.lemma_selected_known(seq![ROOT_GRAPH], Some(step));
        assert(facts_view(facts@)[i as int] == facts@[i as int]@);
    }
    match &facts[i].value {
        Value::Ref(target) => {
            let types = ref_values(store, *target, RDF_TYPE);
            if types.len() == 0 {
                return owned("untyped");
            }
            proof {
                lemma_refs_known(store, *target, RDF_TYPE@);
            }
            let ghost names = names_of(store, types@);
            let mut best = term_iri(store, types[0]);
            let mut k: usize = 1;
            while k < types.len()
                invariant
                    store.wf(),
                    1 <= k <= types@.len(),
                    names == names_of(store, types@),
                    forall|j: int| 0 <= j < types@.len() ==> store.has_term(#[trigger] types@[j]),
                    best@ == least(names.take(k as int)),
                decreases types.len() - k,
            {
                let cand = term_iri(store, types[k]);
                proof {
                    assert(names.take(k + 1).drop_last() =~= names.take(k as int));
                    assert(names.take(k + 1).last() == cand@);
                }
                if str_lt(cand.as_str(), best.as_str()) {
                    best = cand;
                }
                k = k + 1;
            }
            proof {
                assert(names.take(types@.len() as int) =~= names);
            }
            best
        },
        _ => owned("literal"),
    }
}

/// Referenced ids read from a well-formed store are interned terms.
proof fn lemma_refs_known(store: &Store, e: i64, attr_iri: Seq<char>)
    requires
        store.wf(),
    ensures
        forall|j: int| 0 <= j < ref_values_of(store, e, attr_iri).len()
            ==> store.has_term(#[trigger] ref_values_of(store, e, attr_iri)[j]),
{
    store.lemma_selected_known(seq![ROOT_GRAPH], Some(e));
    if let Some(a) = store.id_of(attr_iri) {
        lemma_refs_in_known(facts_of(store, e), a, store.terms().len() as int);
    }
}

proof fn lemma_refs_in_known(facts: Seq<FactView>, attr: i64, n: int)
    requires
        forall|k: int| 0 <= k < facts.len() ==> fact_known(#[trigger] facts[k], n),
    ensures
        forall|j: int| 0 <= j < refs_in(facts, attr).len() ==> 1 <= #[trigger] refs_in(facts, attr)[j] <= n,
    decreases facts.len(),
{
    if facts.len() > 0 {
        let pre = facts.drop_last();
        assert forall|k: int| 0 <= k < pre.len() implies fact_known(#[trigger] pre[k], n) by {
            assert(pre[k] == facts[k]);
        }
        lemma_refs_in_known(pre, attr, n);
        assert(fact_known(facts[facts.len() - 1], n));
        let prev = refs_in(pre, attr);
        assert forall|j: int| 0 <= j < refs_in(facts, attr).len() implies 1 <= #[trigger] refs_in(facts, attr)[j] <= n by {
            if j < prev.len() {
                assert(refs_in(facts, attr)[j] == prev[j]);
            }
        }
    }
}

/// The v1 signature of a step, or `None` when it records no `actionKind`.
pub fn step_sig(store: &Store, vocab: &PathVocab, step: i64) -> (r: Option<StepSig>)
    requires
        store.wf(),
    ensures
        r matches Some(sig) ==> step_sig_of(store, vocab, step) == Some(sig@),
        r is None ==> step_sig_of(store, vocab, step) is None,
{
    let action_kind = match str_value(store, step, vocab.action_kind.as_str()) {
        Some(k) => k,
        None => return None,
    };
    let target_class = target_class(store, vocab, step);
    Some(StepSig { action_kind, target_class })
}

/// Resolve a trajectory IRI to its entity id.
pub fn require_entity(store: &Store, iri: &str) -> (r: Result<i64, Error>)
    requires
        store.wf(),
    ensures
        r matches Ok(id) ==> store.id_of(iri@) == Some(id),
        r is Err ==> store.id_of(iri@) is None && r->Err_0.is_invalid() && r->Err_0.text() == "entity not found: "@
            + iri@,
{
    match store.lookup(iri) {
        Some(id) => Ok(id),
        None => {
            let mut msg = owned("entity not found: ");
            crate::text::push_str(&mut msg, iri);
            Err(Error::InvalidValue(msg))
        },
    }
}

/// The step entities of a trajectory, unsorted.
fn collect_steps(store: &Store, vocab: &PathVocab, traj: i64, step_of: i64) -> (out: Vec<StepRef>)
    requires
        store.wf(),
        store.id_of(vocab.step_of@) == Some(step_of),
    ensures
        steps_view(out@) == trajectory_steps(store, vocab, traj),
{
    let facts = store.current_facts();
    proof {
        store.lemma_selected_known(seq![ROOT_GRAPH], None);
    }
    let ghost fv = facts_view(facts@);
    let mut out: Vec<StepRef> = Vec::new();
    let mut i: usize = 0;
    while i < facts.len()
        invariant
            store.wf(),
            i <= facts@.len(),
            fv == facts_view(facts@),
            fv == store.root_facts(),
            forall|k: int| 0 <= k < fv.len() ==> fact_known(#[trigger] fv[k], store.terms().len() as int),
            steps_view(out@) == step_entities(fv.take(i as int), step_of, traj).map_values(
                |e: i64| step_of_entity(store, vocab, e),
            ),
        decreases facts.len() - i,
    {
        proof {
            assert(fv.take(i + 1).drop_last() =~= fv.take(i as int));
            assert(fv[i as int] == facts@[i as int]@);
            assert(fact_known(fv[i as int], store.terms().len() as int));
        }
        let ghost before = steps_view(out@);
        if facts[i].attribute == step_of && facts[i].value.same(&Value::Ref(traj)) {
            let e = facts[i].entity;
            let iri = term_iri(store, e);
            let order = int_value(store, e, vocab.step_order.as_str());
            out.push(StepRef { id: e, iri, order });
            proof {
                assert(steps_view(out@) =~= before.push(step_of_entity(store, vocab, e)));
            }
        }
        i = i + 1;
    }
    proof {
        assert(fv.take(fv.len() as int) =~= fv);
    }
    out
}

/// Strict step order on two steps.
fn step_less(a: &StepRef, b: &StepRef) -> (r: bool)
    ensures
        r == step_lt(a@, b@),
{
    match (a.order, b.order) {
        (Some(x), Some(y)) => x < y || (x == y && str_lt(a.iri.as_str(), b.iri.as_str())),
        (Some(_), None) => true,
        (None, Some(_)) => false,
        (None, None) => str_lt(a.iri.as_str(), b.iri.as_str()),
    }
}

/// Sort steps by step order (insertion sort).
fn sort_steps(v: Vec<StepRef>) -> (out: Vec<StepRef>)
    ensures
        steps_view(out@) == sort_steps_spec(steps_view(v@)),
        steps_sorted(steps_view(out@)),
        steps_view(out@).to_multiset() == steps_view(v@).to_multiset(),
{
    broadcast use vstd::seq_lib::group_to_multiset_ensures;
    let mut out: Vec<StepRef> = Vec::new();
    let mut i: usize = 0;
    while i < v.len()
        invariant
            i <= v@.len(),
            steps_view(out@) == sort_steps_spec(steps_view(v@).take(i as int)),
            steps_sorted(steps_view(out@)),
            steps_view(out@).to_multiset() == steps_view(v@).take(i as int).to_multiset(),
        decreases v.len() - i,
    {
        let x = v[i].copy();
        let ghost xs = x@;
        let ghost cur = steps_view(out@);
        let mut j: usize = 0;
        while j < out.len() && !step_less(&x, &out[j])
            invariant
                j <= out@.len(),
                xs == x@,
                cur == steps_view(out@),
                forall|k: int| 0 <= k < j ==> !step_lt(xs, #[trigger] cur[k]),
            decreases out.len() - j,
        {
            proof {
                assert(cur[j as int] == out@[j as int]@);
            }
            j = j + 1;
        }
        proof {
            assert(steps_view(v@).take(i + 1) =~= steps_view(v@).take(i as int).push(xs));
            if j < cur.len() {
                assert(cur[j as int] == out@[j as int]@);
                assert(step_lt(xs, cur[j as int]));
            }
        }
        out.insert(j, x);
        proof {
            let nv = steps_view(out@);
            assert(nv =~= cur.insert(j as int, xs));
            assert(nv.remove(j as int) =~= cur);
            vstd::seq_lib::to_multiset_insert(cur, j as int, xs);
            lemma_insert_step_at(xs, cur, j as int);
            assert(steps_view(v@).take(i + 1).drop_last() =~= steps_view(v@).take(i as int));
            vstd::seq_lib::to_multiset_build(steps_view(v@).take(i as int), xs);
            assert forall|a: int, b: int| 0 <= a < b < nv.len() implies !step_lt(#[trigger] nv[b], #[trigger] nv[a]) by {
                if a < j && b == j {
                    assert(!step_lt(xs, cur[a]));
                } else if a == j && b > j {
                    let y = cur[b - 1];
                    if j < cur.len() {
                        assert(step_lt(xs, cur[j as int]));
                        if step_lt(y, xs) {
                            lemma_step_lt_transitive(y, xs, cur[j as int]);
                            if b - 1 > j {
                                assert(!step_lt(cur[b - 1], cur[j as int]));
                            } else {
                                lemma_step_lt_irreflexive(y);
                            }
                        }
                    }
                } else if a < j && b < j {
                    assert(nv[a] == cur[a] && nv[b] == cur[b]);
                } else if a < j {
                    assert(nv[a] == cur[a] && nv[b] == cur[b - 1]);
                } else {
                    assert(nv[a] == cur[a - 1] && nv[b] == cur[b - 1]);
                }
            }
        }
        i = i + 1;
    }
    proof {
        assert(steps_view(v@).take(v@.len() as int) =~= steps_view(v@));
    }
    out
}

proof fn lemma_step_lt_irreflexive(a: StepView)
    ensures
        !step_lt(a, a),
{
    lemma_seq_lt_irreflexive(a.1);
}

/// The step entities of a trajectory, sorted by `stepOrder` (unordered steps
/// last, then by IRI).
pub fn steps_of(store: &Store, vocab: &PathVocab, traj_id: i64) -> (out: Vec<StepRef>)
    requires
        store.wf(),
    ensures
        steps_view(out@) == ordered_steps(store, vocab, traj_id),
        steps_sorted(steps_view(out@)),
        steps_view(out@).to_multiset() == trajectory_steps(store, vocab, traj_id).to_multiset(),
{
    let step_of = match store.lookup(vocab.step_of.as_str()) {
        Some(a) => a,
        None => {
            let out: Vec<StepRef> = Vec::new();
            assert(steps_view(out@) =~= Seq::<StepView>::empty());
            return out;
        },
    };
    let unsorted = collect_steps(store, vocab, traj_id, step_of);
    sort_steps(unsorted)
}

/// Every `verifiedBy` target of `steps`, in step order.
pub open spec fn verification_candidates(s: &Store, vocab: &PathVocab, steps: Seq<StepView>) -> Seq<i64>
    decreases steps.len(),
{
    if steps.len() == 0 {
        Seq::empty()
    } else {
        verification_candidates(s, vocab, steps.drop_last()) + ref_values_of(s, steps.last().0, vocab.verified_by@)
    }
}

/// The candidates that carry a `falsifier`, each kept at its first occurrence.
pub open spec fn gated(s: &Store, vocab: &PathVocab, cands: Seq<i64>) -> Seq<i64>
    decreases cands.len(),
{
    if cands.len() == 0 {
        Seq::empty()
    } else {
        let prev = gated(s, vocab, cands.drop_last());
        let v = cands.last();
        if has_value_of(s, v, vocab.falsifier@) && !prev.contains(v) {
            prev.push(v)
        } else {
            prev
        }
    }
}

/// The falsifier-gated verifications produced by `steps`, in first-seen order.
pub open spec fn admissible_of(s: &Store, vocab: &PathVocab, steps: Seq<StepView>) -> Seq<i64> {
    gated(s, vocab, verification_candidates(s, vocab, steps))
}

/// Whether `id` is among the ids of `out`.
fn has_id(out: &Vec<(i64, String)>, id: i64) -> (r: bool)
    ensures
        r == exists|k: int| 0 <= k < out@.len() && (#[trigger] out@[k]).0 == id,
{
    let mut k: usize = 0;
    while k < out.len()
        invariant
            k <= out@.len(),
            forall|m: int| 0 <= m < k ==> (#[trigger] out@[m]).0 != id,
        decreases out.len() - k,
    {
        if out[k].0 == id {
            return true;
        }
        k = k + 1;
    }
    false
}

/// The falsifier-gated verifications produced by a trajectory's steps:
/// `(verification id, verification IRI)` for every `verifiedBy` target that
/// carries a `falsifier`, each once, in first-seen order. An unfalsifiable
/// check never appears here.
pub fn admissible_verifications(store: &Store, vocab: &PathVocab, steps: &[StepRef]) -> (out: Vec<(i64, String)>)
    requires
        store.wf(),
    ensures
        out@.len() == admissible_of(store, vocab, steps_view(steps@)).len(),
        forall|k: int| 0 <= k < out@.len() ==> (#[trigger] out@[k]).0 == admissible_of(store, vocab, steps_view(steps@))[k]
            && out@[k].1@ == store.term(out@[k].0),
{
    let ghost sv = steps_view(steps@);
    let mut out: Vec<(i64, String)> = Vec::new();
    let ghost mut ids: Seq<i64> = Seq::empty();
    let mut i: usize = 0;
    while i < steps.len()
        invariant
            store.wf(),
            i <= steps@.len(),
            sv == steps_view(steps@),
            ids == gated(store, vocab, verification_candidates(store, vocab, sv.take(i as int))),
            out@.len() == ids.len(),
            forall|k: int| 0 <= k < out@.len() ==> (#[trigger] out@[k]).0 == ids[k] && out@[k].1@ == store.term(ids[k]),
        decreases steps.len() - i,
    {
        let ghost base = verification_candidates(store, vocab, sv.take(i as int));
        proof {
            assert(sv.take(i + 1).drop_last() =~= sv.take(i as int));
            assert(sv.take(i + 1).last() == steps@[i as int]@);
            lemma_refs_known(store, steps[i as int].id, vocab.verified_by@);
        }
        let refs = ref_values(store, steps[i].id, vocab.verified_by.as_str());
        let mut j: usize = 0;
        while j < refs.len()
            invariant
                store.wf(),
                j <= refs@.len(),
                refs@ == ref_values_of(store, steps@[i as int].id, vocab.verified_by@),
                forall|m: int| 0 <= m < refs@.len() ==> store.has_term(#[trigger] refs@[m]),
                ids == gated(store, vocab, base + refs@.take(j as int)),
                out@.len() == ids.len(),
                forall|k: int| 0 <= k < out@.len() ==> (#[trigger] out@[k]).0 == ids[k] && out@[k].1@ == store.term(ids[k]),
            decreases refs.len() - j,
        {
            let v = refs[j];
            proof {
                assert((base + refs@.take(j + 1)).drop_last() =~= base + refs@.take(j as int));
                assert((base + refs@.take(j + 1)).last() == v);
            }
            let gate = has_value(store, v, vocab.falsifier.as_str());
            let seen = has_id(&out, v);
            proof {
                if seen {
                    let k = choose|k: int| 0 <= k < out@.len() && (#[trigger] out@[k]).0 == v;
                    assert(ids[k] == v);
                } else {
                    assert forall|k: int| 0 <= k < ids.len() implies ids[k] != v by {
                        assert(out@[k].0 == ids[k]);
                    }
                }
            }
            if gate && !seen {
                let name = term_iri(store, v);
                out.push((v, name));
                proof {
                    ids = ids.push(v);
                }
            }
            j = j + 1;
        }
        proof {
            assert(refs@.take(refs@.len() as int) =~= refs@);
        }
        i = i + 1;
    }
    proof {
        assert(sv.take(sv.len() as int) =~= sv);
    }
    out
}

/// Every string value of `attr_iri` on `entity`, in order.
pub fn str_values(store: &Store, entity: i64, attr_iri: &str) -> (out: Vec<String>)
    requires
        store.wf(),
    ensures
        crate::path::cone::strings_view(out@) == str_values_of(store, entity, attr_iri@),
{
    let attr = match store.lookup(attr_iri) {
        Some(a) => a,
        None => {
            let out: Vec<String> = Vec::new();
            assert(crate::path::cone::strings_view(out@) =~= Seq::<Seq<char>>::empty());
            return out;
        },
    };
    let facts = store.entity_facts(entity);
    let ghost fv = facts_view(facts@);
    let mut out: Vec<String> = Vec::new();
    let mut i: usize = 0;
    proof {
        assert(crate::path::cone::strings_view(out@) =~= strs_in(fv.take(0), attr));
    }
    while i < facts.len()
        invariant
            i <= facts@.len(),
            fv == facts_view(facts@),
            crate::path::cone::strings_view(out@) == strs_in(fv.take(i as int), attr),
        decreases facts.len() - i,
    {
        proof {
            assert(fv.take(i + 1).drop_last() =~= fv.take(i as int));
            assert(fv.take(i + 1).last() == facts@[i as int]@);
        }
        let ghost before = out@;
        if facts[i].attribute == attr {
            if let Value::Str(t) = &facts[i].value {
                out.push(t.clone());
                proof {
                    assert(crate::path::cone::strings_view(out@) =~= crate::path::cone::strings_view(before).push(t@));
                }
            }
        }
        i = i + 1;
    }
    proof {
        assert(fv.take(fv.len() as int) =~= fv);
    }
    out
}

} // verus!
