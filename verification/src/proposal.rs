//! Schema evolution proposals: an agent proposes a schema change, and a
//! an approver accepts or rejects it. A proposal is `pending` until decided,
//! and a decision is final.

use vstd::prelude::*;

use crate::store::{put_shape, Store, MAX_PROPOSALS};
use crate::text::{i64_to_string, owned, push_str, seq_lt, signed_decimal, str_eq, str_lt};
use crate::value::Error;

verus! {

/// The kind of schema change being proposed.
#[derive(Debug, Clone, Copy, PartialEq, Eq, Structural)]
pub enum ProposalKind {
    Shape,
    Ontology,
    Class,
    Property,
}

/// The lifecycle status of a proposal.
#[derive(Debug, Clone, Copy, PartialEq, Eq, Structural)]
pub enum ProposalStatus {
    Pending,
    Accepted,
    Rejected,
}

impl ProposalKind {
    /// The kind's wire name.
    pub open spec fn name(&self) -> Seq<char> {
        match self {
            ProposalKind::Shape => "shape"@,
            ProposalKind::Ontology => "ontology"@,
            ProposalKind::Class => "class"@,
            ProposalKind::Property => "property"@,
        }
    }

    /// The kind a wire name denotes, if any.
    pub open spec fn parse(s: Seq<char>) -> Option<ProposalKind> {
        if s == "shape"@ {
            Some(ProposalKind::Shape)
        } else if s == "ontology"@ {
            Some(ProposalKind::Ontology)
        } else if s == "class"@ {
            Some(ProposalKind::Class)
        } else if s == "property"@ {
            Some(ProposalKind::Property)
        } else {
            None
        }
    }

    /// The kind's wire name.
    pub fn as_str(&self) -> (r: &'static str)
        ensures
            r@ == self.name(),
    {
        match self {
            ProposalKind::Shape => "shape",
            ProposalKind::Ontology => "ontology",
            ProposalKind::Class => "class",
            ProposalKind::Property => "property",
        }
    }

    fn from_str(s: &str) -> (r: Result<ProposalKind, Error>)
        ensures
            match r {
                Ok(k) => ProposalKind::parse(s@) == Some(k),
                Err(e) => ProposalKind::parse(s@) is None && e is InvalidValue
                    && e.text() == "unknown proposal kind: "@ + s@,
            },
    {
        if str_eq(s, "shape") {
            Ok(ProposalKind::Shape)
        } else if str_eq(s, "ontology") {
            Ok(ProposalKind::Ontology)
        } else if str_eq(s, "class") {
            Ok(ProposalKind::Class)
        } else if str_eq(s, "property") {
            Ok(ProposalKind::Property)
        } else {
            let mut msg = owned("unknown proposal kind: ");
            push_str(&mut msg, s);
            Err(Error::InvalidValue(msg))
        }
    }

    /// Parse a kind from its wire name; any other string is refused.
    pub fn from_json(s: &str) -> (r: Result<ProposalKind, Error>)
        ensures
            match r {
                Ok(k) => ProposalKind::parse(s@) == Some(k),
                Err(e) => ProposalKind::parse(s@) is None && e is InvalidValue
                    && e.text() == "unknown proposal kind: "@ + s@,
            },
    {
        ProposalKind::from_str(s)
    }
}

impl ProposalStatus {
    /// The status's wire name.
    pub open spec fn name(&self) -> Seq<char> {
        match self {
            ProposalStatus::Pending => "pending"@,
            ProposalStatus::Accepted => "accepted"@,
            ProposalStatus::Rejected => "rejected"@,
        }
    }

    /// The status a wire name denotes, if any.
    pub open spec fn parse(s: Seq<char>) -> Option<ProposalStatus> {
        if s == "pending"@ {
            Some(ProposalStatus::Pending)
        } else if s == "accepted"@ {
            Some(ProposalStatus::Accepted)
        } else if s == "rejected"@ {
            Some(ProposalStatus::Rejected)
        } else {
            None
        }
    }

    /// The status's wire name.
    pub fn as_str(&self) -> (r: &'static str)
        ensures
            r@ == self.name(),
    {
        match self {
            ProposalStatus::Pending => "pending",
            ProposalStatus::Accepted => "accepted",
            ProposalStatus::Rejected => "rejected",
        }
    }

    fn from_str(s: &str) -> (r: Result<ProposalStatus, Error>)
        ensures
            match r {
                Ok(k) => ProposalStatus::parse(s@) == Some(k),
                Err(e) => ProposalStatus::parse(s@) is None && e is InvalidValue
                    && e.text() == "unknown proposal status: "@ + s@,
            },
    {
        if str_eq(s, "pending") {
            Ok(ProposalStatus::Pending)
        } else if str_eq(s, "accepted") {
            Ok(ProposalStatus::Accepted)
        } else if str_eq(s, "rejected") {
            Ok(ProposalStatus::Rejected)
        } else {
            let mut msg = owned("unknown proposal status: ");
            push_str(&mut msg, s);
            Err(Error::InvalidValue(msg))
        }
    }

    /// Parse a status from its wire name; any other string is refused.
    pub fn from_json(s: &str) -> (r: Result<ProposalStatus, Error>)
        ensures
            match r {
                Ok(k) => ProposalStatus::parse(s@) == Some(k),
                Err(e) => ProposalStatus::parse(s@) is None && e is InvalidValue
                    && e.text() == "unknown proposal status: "@ + s@,
            },
    {
        ProposalStatus::from_str(s)
    }
}

/// A schema evolution proposal.
#[derive(Debug, Clone)]
pub struct Proposal {
    pub id: i64,
    pub kind: ProposalKind,
    pub target: String,
    pub diff: String,
    pub rationale: Option<String>,
    pub proposer: String,
    pub trigger_ref: Option<String>,
    pub status: ProposalStatus,
    pub decided_by: Option<String>,
    pub decided_at: Option<String>,
    pub decision_note: Option<String>,
    pub created_at: String,
}

/// The content of a [`Proposal`].
pub ghost struct ProposalView {
    pub id: i64,
    pub kind: ProposalKind,
    pub target: Seq<char>,
    pub diff: Seq<char>,
    pub rationale: Option<Seq<char>>,
    pub proposer: Seq<char>,
    pub trigger_ref: Option<Seq<char>>,
    pub status: ProposalStatus,
    pub decided_by: Option<Seq<char>>,
    pub decided_at: Option<Seq<char>>,
    pub decision_note: Option<Seq<char>>,
    pub created_at: Seq<char>,
}

/// The content of an optional owned string.
pub open spec fn opt_string(o: Option<String>) -> Option<Seq<char>> {
    match o {
        Some(s) => Some(s@),
        None => None,
    }
}

/// The content of an optional string slice.
pub open spec fn opt_str(o: Option<&str>) -> Option<Seq<char>> {
    match o {
        Some(s) => Some(s@),
        None => None,
    }
}

impl View for Proposal {
    type V = ProposalView;

    open spec fn view(&self) -> ProposalView {
        ProposalView {
            id: self.id,
            kind: self.kind,
            target: self.target@,
            diff: self.diff@,
            rationale: opt_string(self.rationale),
            proposer: self.proposer@,
            trigger_ref: opt_string(self.trigger_ref),
            status: self.status,
            decided_by: opt_string(self.decided_by),
            decided_at: opt_string(self.decided_at),
            decision_note: opt_string(self.decision_note),
            created_at: self.created_at@,
        }
    }
}

fn copy_opt(o: &Option<String>) -> (r: Option<String>)
    ensures
        opt_string(r) == opt_string(*o),
{
    match o {
        Some(s) => Some(s.clone()),
        None => None,
    }
}

fn own_opt(o: Option<&str>) -> (r: Option<String>)
    ensures
        opt_string(r) == opt_str(o),
{
    match o {
        Some(s) => Some(owned(s)),
        None => None,
    }
}

impl Proposal {
    /// A copy with the same content.
    pub fn copy(&self) -> (r: Proposal)
        ensures
            r@ == self@,
    {
        Proposal {
            id: self.id,
            kind: self.kind,
            target: self.target.clone(),
            diff: self.diff.clone(),
            rationale: copy_opt(&self.rationale),
            proposer: self.proposer.clone(),
            trigger_ref: copy_opt(&self.trigger_ref),
            status: self.status,
            decided_by: copy_opt(&self.decided_by),
            decided_at: copy_opt(&self.decided_at),
            decision_note: copy_opt(&self.decision_note),
            created_at: self.created_at.clone(),
        }
    }
}

/// Input for creating a new proposal.
pub struct NewProposal<'a> {
    pub kind: &'a ProposalKind,
    pub target: &'a str,
    pub diff: &'a str,
    pub rationale: Option<&'a str>,
    pub proposer: &'a str,
    pub trigger_ref: Option<&'a str>,
    pub created_at: &'a str,
}

/// The pending proposal `input` becomes under `id`.
pub open spec fn proposed(input: &NewProposal, id: i64) -> ProposalView {
    ProposalView {
        id,
        kind: *input.kind,
        target: input.target@,
        diff: input.diff@,
        rationale: opt_str(input.rationale),
        proposer: input.proposer@,
        trigger_ref: opt_str(input.trigger_ref),
        status: ProposalStatus::Pending,
        decided_by: None,
        decided_at: None,
        decision_note: None,
        created_at: input.created_at@,
    }
}

/// The proposal with id `id` in `log`, if any (ids are positions from 1).
pub open spec fn proposal_with_id(log: Seq<ProposalView>, id: i64) -> Option<ProposalView> {
    if 1 <= id <= log.len() {
        Some(log[id - 1])
    } else {
        None
    }
}

/// The start of the refusal of a shape proposal whose diff is not Turtle;
/// the parser's message follows it.
pub const SHAPE_INVALID: &'static str = "proposed shape Turtle is invalid, proposal remains pending: ";

/// Whether `oxttl`'s Turtle parser, with no base IRI, reads all of `text`
/// without an error.
pub uninterp spec fn turtle_reads(text: Seq<char>) -> bool;

/// Read `text` as Turtle with `oxttl::TurtleParser` (no base IRI),
/// keeping nothing but the first error, displayed. Whether it succeeds is
/// a function of the text; the message is left unsaid.
#[verifier::external_body]
fn turtle_syntax_check(text: &str) -> (r: Result<(), String>)
    ensures
        r is Ok <==> turtle_reads(text@),
{
    for t in oxttl::TurtleParser::new().for_reader(text.as_bytes()) {
        if let Err(e) = t {
            return Err(e.to_string());
        }
    }
    Ok(())
}

/// A pending shape proposal is refused when its diff is not Turtle.
pub open spec fn shape_refused(p: ProposalView) -> bool {
    p.kind == ProposalKind::Shape && !turtle_reads(p.diff)
}

/// Why deciding proposal `id` is refused, if it is.
pub open spec fn decision_refusal(log: Seq<ProposalView>, id: i64) -> Option<Seq<char>> {
    match proposal_with_id(log, id) {
        None => Some("proposal "@ + signed_decimal(id as int) + " not found"@),
        Some(p) => if p.status != ProposalStatus::Pending {
            Some("proposal "@ + signed_decimal(id as int) + " is already "@ + p.status.name())
        } else {
            None
        },
    }
}

/// `p` decided with `status` by `by` at `at`, with `note`.
pub open spec fn decided(
    p: ProposalView,
    status: ProposalStatus,
    by: Seq<char>,
    at: Seq<char>,
    note: Option<Seq<char>>,
) -> ProposalView {
    ProposalView {
        status,
        decided_by: Some(by),
        decided_at: Some(at),
        decision_note: note,
        ..p
    }
}

/// The proposals of `log` with status `status` (all of them for `None`), in
/// log order.
pub open spec fn with_status(log: Seq<ProposalView>, status: Option<ProposalStatus>) -> Seq<ProposalView>
    decreases log.len(),
{
    if log.len() == 0 {
        log
    } else {
        let rest = with_status(log.drop_last(), status);
        if status is None || status == Some(log.last().status) {
            rest.push(log.last())
        } else {
            rest
        }
    }
}

/// `a` was created strictly after `b` (timestamps compare as text).
pub open spec fn newer(a: ProposalView, b: ProposalView) -> bool {
    seq_lt(b.created_at, a.created_at)
}

/// `x` inserted into `s` before the first proposal it is newer than.
pub open spec fn insert_newest_first(x: ProposalView, s: Seq<ProposalView>) -> Seq<ProposalView>
    decreases s.len(),
{
    if s.len() == 0 {
        seq![x]
    } else if newer(x, s[0]) {
        seq![x] + s
    } else {
        seq![s[0]] + insert_newest_first(x, s.drop_first())
    }
}

/// `s` ordered newest first; proposals created at the same time keep their
/// log order.
pub open spec fn newest_first(s: Seq<ProposalView>) -> Seq<ProposalView>
    decreases s.len(),
{
    if s.len() == 0 {
        s
    } else {
        insert_newest_first(s.last(), newest_first(s.drop_last()))
    }
}

/// The contents of a sequence of proposals.
pub open spec fn proposals_view(v: Seq<Proposal>) -> Seq<ProposalView> {
    v.map_values(|p: Proposal| p@)
}

proof fn lemma_insert_at(x: ProposalView, s: Seq<ProposalView>, j: int)
    requires
        0 <= j <= s.len(),
        forall|k: int| 0 <= k < j ==> !newer(x, #[trigger] s[k]),
        j < s.len() ==> newer(x, s[j]),
    ensures
        insert_newest_first(x, s) == s.insert(j, x),
    decreases j,
{
    if j == 0 {
        if s.len() == 0 {
            assert(s.insert(0, x) =~= seq![x]);
        } else {
            assert(s.insert(0, x) =~= seq![x] + s);
        }
    } else {
        let t = s.drop_first();
        assert(!newer(x, s[0]));
        assert forall|k: int| 0 <= k < j - 1 implies !newer(x, #[trigger] t[k]) by {
            assert(t[k] == s[k + 1]);
        }
        if j < s.len() {
            assert(t[j - 1] == s[j]);
        }
        lemma_insert_at(x, t, j - 1);
        assert(seq![s[0]] + t.insert(j - 1, x) =~= s.insert(j, x));
    }
}

/// Order `v` newest first (insertion sort, stable).
fn sort_newest_first(v: Vec<Proposal>) -> (out: Vec<Proposal>)
    ensures
        proposals_view(out@) == newest_first(proposals_view(v@)),
{
    let mut out: Vec<Proposal> = Vec::new();
    let mut i: usize = 0;
    while i < v.len()
        invariant
            i <= v@.len(),
            proposals_view(out@) == newest_first(proposals_view(v@).take(i as int)),
        decreases v.len() - i,
    {
        let x = v[i].copy();
        let ghost xs = x@;
        let ghost cur = proposals_view(out@);
        let mut j: usize = 0;
        while j < out.len() && !str_lt(out[j].created_at.as_str(), x.created_at.as_str())
            invariant
                j <= out@.len(),
                xs == x@,
                cur == proposals_view(out@),
                forall|k: int| 0 <= k < j ==> !newer(xs, #[trigger] cur[k]),
            decreases out.len() - j,
        {
            proof {
                assert(cur[j as int] == out@[j as int]@);
            }
            j = j + 1;
        }
        proof {
            assert(proposals_view(v@).take(i + 1).drop_last() =~= proposals_view(v@).take(i as int));
            assert(proposals_view(v@).take(i + 1).last() == xs);
            if j < cur.len() {
                assert(cur[j as int] == out@[j as int]@);
            }
            lemma_insert_at(xs, cur, j as int);
        }
        out.insert(j, x);
        proof {
            assert(proposals_view(out@) =~= cur.insert(j as int, xs));
        }
        i = i + 1;
    }
    proof {
        assert(proposals_view(v@).take(v@.len() as int) =~= proposals_view(v@));
    }
    out
}

/// `"proposal <id>"`.
fn proposal_label(id: i64) -> (r: String)
    ensures
        r@ == "proposal "@ + signed_decimal(id as int),
{
    let mut msg = owned("proposal ");
    let n = i64_to_string(id);
    push_str(&mut msg, n.as_str());
    msg
}

impl Store {
    /// Record a new pending proposal; returns its id (ids count from 1).
    /// Refused only when the proposal table is full.
    pub fn insert_proposal(&mut self, input: &NewProposal) -> (r: Result<i64, Error>)
        requires
            old(self).wf(),
        ensures
            final(self).wf(),
            final(self).terms() == old(self).terms(),
            final(self).rows() == old(self).rows(),
            final(self).sources() == old(self).sources(),
            final(self).ontology_entries() == old(self).ontology_entries(),
            final(self).identity() == old(self).identity(),
            r is Ok <==> old(self).proposal_log().len() < MAX_PROPOSALS,
            r matches Ok(id) ==> id == old(self).proposal_log().len() + 1
                && final(self).proposal_log() == old(self).proposal_log().push(proposed(input, id)),
            r is Err ==> final(self).proposal_log() == old(self).proposal_log(),
    {
        let n = self.proposal_count();
        if n >= MAX_PROPOSALS {
            return Err(Error::InvalidValue(owned("proposal table is full")));
        }
        let id: i64 = (n + 1) as i64;
        let p = Proposal {
            id,
            kind: *input.kind,
            target: owned(input.target),
            diff: owned(input.diff),
            rationale: own_opt(input.rationale),
            proposer: owned(input.proposer),
            trigger_ref: own_opt(input.trigger_ref),
            status: ProposalStatus::Pending,
            decided_by: None,
            decided_at: None,
            decision_note: None,
            created_at: owned(input.created_at),
        };
        self.push_proposal(p);
        Ok(id)
    }

    /// The proposal with id `id`, if there is one.
    pub fn get_proposal(&self, id: i64) -> (r: Result<Option<Proposal>, Error>)
        requires
            self.wf(),
        ensures
            r matches Ok(found) && match found {
                Some(p) => proposal_with_id(self.proposal_log(), id) == Some(p@),
                None => proposal_with_id(self.proposal_log(), id) is None,
            },
    {
        let n = self.proposal_count();
        if id >= 1 && (id as u64) <= (n as u64) {
            Ok(Some(self.proposal_at((id - 1) as usize).copy()))
        } else {
            Ok(None)
        }
    }

    /// The proposals with status `status` (all of them for `None`), newest
    /// first by creation time; proposals created at the same time keep the
    /// order they were recorded in.
    pub fn list_proposals(&self, status: Option<&ProposalStatus>) -> (r: Result<Vec<Proposal>, Error>)
        requires
            self.wf(),
        ensures
            r matches Ok(v) && proposals_view(v@) == newest_first(with_status(
                self.proposal_log(),
                match status {
                    Some(s) => Some(*s),
                    None => None,
                },
            )),
    {
        let ghost want: Option<ProposalStatus> = match status {
            Some(s) => Some(*s),
            None => None,
        };
        let ghost log = self.proposal_log();
        let n = self.proposal_count();
        let mut picked: Vec<Proposal> = Vec::new();
        let mut i: usize = 0;
        while i < n
            invariant
                self.wf(),
                n == log.len(),
                log == self.proposal_log(),
                i <= n,
                want == match status {
                    Some(s) => Some(*s),
                    None => None::<ProposalStatus>,
                },
                proposals_view(picked@) == with_status(log.take(i as int), want),
            decreases n - i,
        {
            let p = self.proposal_at(i);
            proof {
                assert(log.take(i + 1).drop_last() =~= log.take(i as int));
                assert(log.take(i + 1).last() == p@);
            }
            let keep = match status {
                Some(s) => p.status == *s,
                None => true,
            };
            if keep {
                let ghost before = proposals_view(picked@);
                picked.push(p.copy());
                proof {
                    assert(proposals_view(picked@) =~= before.push(p@));
                }
            }
            i = i + 1;
        }
        proof {
            assert(log.take(n as int) =~= log);
        }
        Ok(sort_newest_first(picked))
    }

    /// Decide proposal `id` with `status`; refused unless it exists and is
    /// pending.
    fn decide_proposal(
        &mut self,
        id: i64,
        status: ProposalStatus,
        decided_by: &str,
        decided_at: &str,
        note: Option<&str>,
    ) -> (r: Result<Proposal, Error>)
        requires
            old(self).wf(),
        ensures
            final(self).wf(),
            final(self).terms() == old(self).terms(),
            final(self).rows() == old(self).rows(),
            final(self).sources() == old(self).sources(),
            final(self).ontology_entries() == old(self).ontology_entries(),
            final(self).identity() == old(self).identity(),
            final(self).manifest_of() == old(self).manifest_of(),
            final(self).loaded_packs() == old(self).loaded_packs(),
            final(self).catalog() == old(self).catalog(),
            match decision_refusal(old(self).proposal_log(), id) {
                Some(msg) => r matches Err(e) && e is InvalidValue && e.text() == msg && *final(self) == *old(self),
                None => r matches Ok(p) && {
                    let d = decided(old(self).proposal_log()[id - 1], status, decided_by@, decided_at@, opt_str(note));
                    &&& p@ == d
                    &&& final(self).proposal_log() == old(self).proposal_log().update(id - 1, d)
                },
            },
    {
        let n = self.proposal_count();
        if !(id >= 1 && (id as u64) <= (n as u64)) {
            let mut msg = proposal_label(id);
            push_str(&mut msg, " not found");
            return Err(Error::InvalidValue(msg));
        }
        let idx: usize = (id - 1) as usize;
        let cur = self.proposal_at(idx).copy();
        if cur.status != ProposalStatus::Pending {
            let mut msg = proposal_label(id);
            push_str(&mut msg, " is already ");
            push_str(&mut msg, cur.status.as_str());
            return Err(Error::InvalidValue(msg));
        }
        let p = Proposal {
            status,
            decided_by: Some(owned(decided_by)),
            decided_at: Some(owned(decided_at)),
            decision_note: own_opt(note),
            ..cur
        };
        let out = p.copy();
        self.replace_proposal(idx, p);
        Ok(out)
    }

    /// Accept proposal `id`: refused unless it exists and is still pending.
    /// A shape proposal is accepted only if its diff reads as Turtle; the
    /// shape graph is then loaded under the proposal's target, stamped with
    /// the decision time. Returns the proposal as decided.
    pub fn accept_proposal(
        &mut self,
        id: i64,
        decided_by: &str,
        decided_at: &str,
        note: Option<&str>,
    ) -> (r: Result<Proposal, Error>)
        requires
            old(self).wf(),
        ensures
            final(self).wf(),
            final(self).terms() == old(self).terms(),
            final(self).rows() == old(self).rows(),
            final(self).sources() == old(self).sources(),
            final(self).ontology_entries() == old(self).ontology_entries(),
            final(self).identity() == old(self).identity(),
            match decision_refusal(old(self).proposal_log(), id) {
                Some(msg) => r matches Err(e) && e is InvalidValue && e.text() == msg && *final(self) == *old(self),
                None => {
                    let p0 = old(self).proposal_log()[id - 1];
                    if shape_refused(p0) {
                        r matches Err(e) && e is InvalidValue && SHAPE_INVALID@.is_prefix_of(e.text())
                            && *final(self) == *old(self)
                    } else {
                        r matches Ok(p) && {
                            let d = decided(p0, ProposalStatus::Accepted, decided_by@, decided_at@, opt_str(note));
                            &&& p@ == d
                            &&& final(self).proposal_log() == old(self).proposal_log().update(id - 1, d)
                            &&& final(self).catalog() == (
                                if p0.kind == ProposalKind::Shape {
                                    put_shape(old(self).catalog().0, p0.target, p0.diff, decided_at@)
                                } else {
                                    old(self).catalog().0
                                },
                                old(self).catalog().1,
                                old(self).catalog().2,
                            )
                        }
                    }
                },
            },
    {
        let n = self.proposal_count();
        if id >= 1 && (id as u64) <= (n as u64) {
            let idx: usize = (id - 1) as usize;
            let cur = self.proposal_at(idx).copy();
            if cur.status == ProposalStatus::Pending && cur.kind == ProposalKind::Shape {
                match turtle_syntax_check(cur.diff.as_str()) {
                    Ok(()) => {},
                    Err(m) => {
                        let mut msg = owned(SHAPE_INVALID);
                        push_str(&mut msg, m.as_str());
                        return Err(Error::InvalidValue(msg));
                    },
                }
                self.load_shapes(cur.target.as_str(), cur.diff.as_str(), decided_at);
            }
        }
        self.decide_proposal(id, ProposalStatus::Accepted, decided_by, decided_at, note)
    }

    /// Reject proposal `id` with a reason: refused unless it exists and is
    /// still pending. Returns the proposal as decided.
    pub fn reject_proposal(
        &mut self,
        id: i64,
        decided_by: &str,
        decided_at: &str,
        note: &str,
    ) -> (r: Result<Proposal, Error>)
        requires
            old(self).wf(),
        ensures
            final(self).wf(),
            final(self).terms() == old(self).terms(),
            final(self).rows() == old(self).rows(),
            final(self).sources() == old(self).sources(),
            final(self).ontology_entries() == old(self).ontology_entries(),
            final(self).identity() == old(self).identity(),
            final(self).catalog() == old(self).catalog(),
            match decision_refusal(old(self).proposal_log(), id) {
                Some(msg) => r matches Err(e) && e is InvalidValue && e.text() == msg
                    && final(self).proposal_log() == old(self).proposal_log(),
                None => r matches Ok(p) && {
                    let d = decided(
                        old(self).proposal_log()[id - 1],
                        ProposalStatus::Rejected,
                        decided_by@,
                        decided_at@,
                        Some(note@),
                    );
                    &&& p@ == d
                    &&& final(self).proposal_log() == old(self).proposal_log().update(id - 1, d)
                },
            },
    {
        self.decide_proposal(id, ProposalStatus::Rejected, decided_by, decided_at, Some(note))
    }
}

/// A recorded proposal is read back as it was proposed: right after an
/// insert under `id`, the proposal with that id is the pending proposal
/// built from the input.
pub proof fn law_get_after_insert(log: Seq<ProposalView>, input: &NewProposal)
    requires
        log.len() < MAX_PROPOSALS,
        forall|i: int| 0 <= i < log.len() ==> (#[trigger] log[i]).id == i + 1,
    ensures
        proposal_with_id(log.push(proposed(input, (log.len() + 1) as i64)), (log.len() + 1) as i64)
            == Some(proposed(input, (log.len() + 1) as i64)),
        proposed(input, (log.len() + 1) as i64).status == ProposalStatus::Pending,
{
}

/// Law: a proposal read back after it is recorded carries every field of
/// the request exactly as given (kind, target, diff, rationale, proposer,
/// trigger and creation time), under the next id, pending and undecided.
pub proof fn law_a_recorded_proposal_keeps_its_request(log: Seq<ProposalView>, input: &NewProposal)
    requires
        log.len() < MAX_PROPOSALS,
        forall|i: int| 0 <= i < log.len() ==> (#[trigger] log[i]).id == i + 1,
    ensures
        ({
            let id = (log.len() + 1) as i64;
            proposal_with_id(log.push(proposed(input, id)), id) matches Some(p) && {
                &&& p.id == id
                &&& p.kind == *input.kind
                &&& p.target == input.target@
                &&& p.diff == input.diff@
                &&& p.rationale == match input.rationale {
                    Some(r) => Some(r@),
                    None => None::<Seq<char>>,
                }
                &&& p.proposer == input.proposer@
                &&& p.trigger_ref == match input.trigger_ref {
                    Some(t) => Some(t@),
                    None => None::<Seq<char>>,
                }
                &&& p.created_at == input.created_at@
                &&& p.status == ProposalStatus::Pending
                &&& p.decided_by is None && p.decided_at is None && p.decision_note is None
            }
        }),
{
    let id = (log.len() + 1) as i64;
    assert(log.push(proposed(input, id))[id - 1] == proposed(input, id));
}

/// A decision is final: once proposal `id` is accepted or rejected, every
/// later attempt to decide it is refused as already decided.
pub proof fn law_decisions_are_final(
    log: Seq<ProposalView>,
    id: i64,
    status: ProposalStatus,
    by: Seq<char>,
    at: Seq<char>,
    note: Option<Seq<char>>,
)
    requires
        decision_refusal(log, id) is None,
        status != ProposalStatus::Pending,
    ensures
        decision_refusal(log.update(id - 1, decided(log[id - 1], status, by, at, note)), id)
            == Some("proposal "@ + signed_decimal(id as int) + " is already "@ + status.name()),
{
}

/// Deciding one proposal leaves every other proposal as it was.
pub proof fn law_decision_touches_one(
    log: Seq<ProposalView>,
    id: i64,
    other: i64,
    status: ProposalStatus,
    by: Seq<char>,
    at: Seq<char>,
    note: Option<Seq<char>>,
)
    requires
        decision_refusal(log, id) is None,
        other != id,
    ensures
        proposal_with_id(log.update(id - 1, decided(log[id - 1], status, by, at, note)), other)
            == proposal_with_id(log, other),
{
}

} // verus!
