//! Draft a `GoldenPath` as Turtle for human review.
//!
//! The tool emits a candidate for a human to read, edit, and load; it never
//! writes the store itself. Mechanical omissions come from the cone report
//! (authority `cone-analysis`); human omissions must each name the Decision
//! that made them (authority `human-decision`); dead ends are named
//! explicitly. The result is born a candidate: promotions are separate human
//! acts, and none are drafted here.

use vstd::prelude::*;

use crate::text::{chars_of, decimal, owned, push_char, push_str, str_eq, string_from_chars, usize_to_string};
use crate::value::Error;

use super::cone::{strings_view, ConeReport, ConeStep, ConeVerdict};

verus! {

/// What to draft.
#[derive(Debug, Clone)]
pub struct DraftOptions {
    /// Local name for the `GoldenPath` (IRI = `base_ns` + name).
    pub name: String,
    /// Human-readable label.
    pub label: String,
    /// Step IRIs a human chose to omit, each with the Decision IRI that
    /// authorizes the cut.
    pub human_omissions: Vec<(String, String)>,
    /// Step IRIs preserved as dead-end hazards.
    pub dead_ends: Vec<String>,
    /// Namespace the vocabulary and the new IRIs live in.
    pub base_ns: String,
}

/// One omission: `(step IRI, authority, ruling Decision IRI)`.
pub type OmissionView = (Seq<char>, Seq<char>, Option<Seq<char>>);

/// The escape of one character inside a Turtle string literal.
pub open spec fn escape_char(c: char) -> Seq<char> {
    if c == '\\' {
        seq!['\\', '\\']
    } else if c == '"' {
        seq!['\\', '"']
    } else {
        seq![c]
    }
}

/// `s` with backslashes and double quotes escaped.
pub open spec fn escaped(s: Seq<char>) -> Seq<char>
    decreases s.len(),
{
    if s.len() == 0 {
        Seq::empty()
    } else {
        escaped(s.drop_last()) + escape_char(s.last())
    }
}

/// `s` as a Turtle string literal.
pub open spec fn turtle_str(s: Seq<char>) -> Seq<char> {
    seq!['"'] + escaped(s) + seq!['"']
}

/// The step IRIs of a cone report's steps.
pub open spec fn step_iris(steps: Seq<ConeStep>) -> Seq<Seq<char>> {
    steps.map_values(|s: ConeStep| s.iri@)
}

/// The step IRIs of the human omissions.
pub open spec fn human_steps(h: Seq<(String, String)>) -> Seq<Seq<char>> {
    h.map_values(|p: (String, String)| p.0@)
}

/// The first of `names` that `known` does not contain.
pub open spec fn first_unknown(names: Seq<Seq<char>>, known: Seq<Seq<char>>) -> Option<Seq<char>>
    decreases names.len(),
{
    if names.len() == 0 {
        None
    } else if !known.contains(names[0]) {
        Some(names[0])
    } else {
        first_unknown(names.drop_first(), known)
    }
}

/// Law: a draft is refused exactly when some step it names (as a human
/// omission or a dead end) is not a step of the cone report, and the step
/// the refusal names is such a step. `first_unknown` finds none exactly when
/// every name is known, and what it finds is a name that is not.
pub proof fn law_refused_exactly_for_unknown_steps(names: Seq<Seq<char>>, known: Seq<Seq<char>>)
    ensures
        first_unknown(names, known) is None <==> forall|i: int| 0 <= i < names.len() ==> known.contains(#[trigger] names[i]),
        first_unknown(names, known) matches Some(n) ==> names.contains(n) && !known.contains(n),
    decreases names.len(),
{
    if names.len() > 0 {
        let rest = names.drop_first();
        law_refused_exactly_for_unknown_steps(rest, known);
        assert forall|i: int| 0 <= i < rest.len() implies rest[i] == names[i + 1] by {}
        if known.contains(names[0]) {
            if forall|i: int| 0 <= i < rest.len() ==> known.contains(#[trigger] rest[i]) {
                assert forall|i: int| 0 <= i < names.len() implies known.contains(#[trigger] names[i]) by {
                    if i > 0 {
                        assert(names[i] == rest[i - 1]);
                    }
                }
            } else {
                let j = choose|j: int| 0 <= j < rest.len() && !known.contains(#[trigger] rest[j]);
                assert(names[j + 1] == rest[j]);
            }
            if first_unknown(names, known) is Some {
                let n = first_unknown(names, known)->0;
                let j = choose|j: int| 0 <= j < rest.len() && rest[j] == n;
                assert(names[j + 1] == n);
            }
        } else {
            assert(names[0] == names[0]);
        }
    }
}

/// The cone's out-of-cone steps that no human omission already names.
pub open spec fn mechanical(steps: Seq<ConeStep>, human: Seq<Seq<char>>) -> Seq<OmissionView>
    decreases steps.len(),
{
    if steps.len() == 0 {
        Seq::empty()
    } else {
        let prev = mechanical(steps.drop_last(), human);
        let s = steps.last();
        if s.verdict == ConeVerdict::OutOfCone && !human.contains(s.iri@) {
            prev.push((s.iri@, "cone-analysis"@, None))
        } else {
            prev
        }
    }
}

/// The human omissions, each with its Decision.
pub open spec fn humane(h: Seq<(String, String)>) -> Seq<OmissionView> {
    h.map_values(|p: (String, String)| (p.0@, "human-decision"@, Some(p.1@)))
}

/// Every omission, mechanical first.
pub open spec fn omissions_of(steps: Seq<ConeStep>, h: Seq<(String, String)>) -> Seq<OmissionView> {
    mechanical(steps, human_steps(h)) + humane(h)
}

/// The IRI of the `i`-th omission.
pub open spec fn omission_iri(path_iri: Seq<char>, i: nat) -> Seq<char> {
    path_iri + "/omission-"@ + decimal(i)
}

/// The `omitsStep` lines for `n` omissions.
pub open spec fn omits_lines(path_iri: Seq<char>, n: nat) -> Seq<char>
    decreases n,
{
    if n == 0 {
        Seq::empty()
    } else {
        omits_lines(path_iri, (n - 1) as nat) + "    aegis:omitsStep <"@ + omission_iri(path_iri, (n - 1) as nat)
            + "> ;\n"@
    }
}

/// The `deadEnd` lines.
pub open spec fn dead_lines(deads: Seq<Seq<char>>) -> Seq<char>
    decreases deads.len(),
{
    if deads.len() == 0 {
        Seq::empty()
    } else {
        dead_lines(deads.drop_last()) + "    aegis:deadEnd <"@ + deads.last() + "> ;\n"@
    }
}

/// `c` is trimmed from the end of the `GoldenPath` block.
pub open spec fn trimmed(c: char) -> bool {
    c == ' ' || c == '\n' || c == ';'
}

/// `s` without its trailing spaces, newlines and semicolons.
pub open spec fn trim_end(s: Seq<char>) -> Seq<char>
    decreases s.len(),
{
    if s.len() > 0 && trimmed(s.last()) {
        trim_end(s.drop_last())
    } else {
        s
    }
}

/// The `PathOmission` block of the `i`-th omission.
pub open spec fn omission_block(path_iri: Seq<char>, label: Seq<char>, i: nat, o: OmissionView) -> Seq<char> {
    "\n"@ + "<"@ + omission_iri(path_iri, i) + "> a aegis:PathOmission ;\n"@ + "    rdfs:label "@ + turtle_str(
        "omission "@ + decimal(i) + " of "@ + label,
    ) + " ;\n"@ + "    aegis:sourceKind \"declared\" ;\n"@ + "    aegis:omittedStep <"@ + o.0 + "> ;\n"@ + match o.2 {
        Some(d) => "    aegis:omissionAuthority \""@ + o.1 + "\" ;\n"@ + "    aegis:omissionRuling <"@ + d + "> .\n"@,
        None => "    aegis:omissionAuthority \""@ + o.1 + "\" .\n"@,
    }
}

/// The `PathOmission` blocks of `os`, in order.
pub open spec fn omission_blocks(path_iri: Seq<char>, label: Seq<char>, os: Seq<OmissionView>) -> Seq<char>
    decreases os.len(),
{
    if os.len() == 0 {
        Seq::empty()
    } else {
        omission_blocks(path_iri, label, os.drop_last()) + omission_block(
            path_iri,
            label,
            (os.len() - 1) as nat,
            os.last(),
        )
    }
}

/// The head of the `GoldenPath` block, up to its `prunedFrom` line.
pub open spec fn path_head(ns: Seq<char>, path_iri: Seq<char>, traj: Seq<char>, label: Seq<char>) -> Seq<char> {
    "@prefix aegis: <"@ + ns + "> .\n"@ + "@prefix rdfs:  <http://www.w3.org/2000/01/rdf-schema#> .\n"@ + "\n"@
        + "# Drafted from "@ + traj + " — review, then load. Nothing was written.\n"@ + "<"@ + path_iri
        + "> a aegis:GoldenPath ;\n"@ + "    rdfs:label "@ + turtle_str(label) + " ;\n"@
        + "    aegis:sourceKind \"declared\" ;\n"@ + "    aegis:prunedFrom <"@ + traj + "> ;\n"@
}

/// The Turtle drafted for `report` under `opts`.
pub open spec fn draft_text(report: &ConeReport, opts: &DraftOptions) -> Seq<char> {
    let path_iri = opts.base_ns@ + opts.name@;
    let os = omissions_of(report.steps@, opts.human_omissions@);
    trim_end(
        path_head(opts.base_ns@, path_iri, report.trajectory@, opts.label@) + omits_lines(path_iri, os.len())
            + dead_lines(strings_view(opts.dead_ends@)),
    ) + " .\n"@ + omission_blocks(path_iri, opts.label@, os)
}

/// The refusal for a human omission the cone report does not contain.
pub open spec fn unknown_omission_msg(step: Seq<char>) -> Seq<char> {
    "human omission names a step the cone report does not contain: "@ + step
}

/// The refusal for a dead end the cone report does not contain.
pub open spec fn unknown_dead_end_msg(step: Seq<char>) -> Seq<char> {
    "dead end names a step the cone report does not contain: "@ + step
}

/// Whether one of `steps` has IRI `iri`.
fn names_step(steps: &Vec<ConeStep>, iri: &str) -> (r: bool)
    ensures
        r == step_iris(steps@).contains(iri@),
{
    let mut i: usize = 0;
    while i < steps.len()
        invariant
            i <= steps@.len(),
            forall|k: int| 0 <= k < i ==> steps@[k].iri@ != iri@,
        decreases steps.len() - i,
    {
        if str_eq(steps[i].iri.as_str(), iri) {
            proof {
                assert(step_iris(steps@)[i as int] == iri@);
            }
            return true;
        }
        i = i + 1;
    }
    proof {
        if step_iris(steps@).contains(iri@) {
            let k = choose|k: int| 0 <= k < step_iris(steps@).len() && step_iris(steps@)[k] == iri@;
            assert(steps@[k].iri@ == iri@);
        }
    }
    false
}

/// Whether a human omission names `iri`.
fn human_names(h: &Vec<(String, String)>, iri: &str) -> (r: bool)
    ensures
        r == human_steps(h@).contains(iri@),
{
    let mut i: usize = 0;
    while i < h.len()
        invariant
            i <= h@.len(),
            forall|k: int| 0 <= k < i ==> h@[k].0@ != iri@,
        decreases h.len() - i,
    {
        if str_eq(h[i].0.as_str(), iri) {
            proof {
                assert(human_steps(h@)[i as int] == iri@);
            }
            return true;
        }
        i = i + 1;
    }
    proof {
        if human_steps(h@).contains(iri@) {
            let k = choose|k: int| 0 <= k < human_steps(h@).len() && human_steps(h@)[k] == iri@;
            assert(h@[k].0@ == iri@);
        }
    }
    false
}

/// Append `s` as a Turtle string literal.
fn push_turtle_str(out: &mut String, s: &str)
    ensures
        final(out)@ == old(out)@ + turtle_str(s@),
{
    let cs = chars_of(s);
    push_char(out, '"');
    let ghost start = out@;
    let mut i: usize = 0;
    while i < cs.len()
        invariant
            i <= cs@.len(),
            cs@ == s@,
            out@ == start + escaped(cs@.take(i as int)),
        decreases cs.len() - i,
    {
        let c = cs[i];
        proof {
            assert(cs@.take(i + 1).drop_last() =~= cs@.take(i as int));
            assert(cs@.take(i + 1).last() == c);
        }
        if c == '\\' {
            push_char(out, '\\');
            push_char(out, '\\');
        } else if c == '"' {
            push_char(out, '\\');
            push_char(out, '"');
        } else {
            push_char(out, c);
        }
        proof {
            assert(out@ =~= start + escaped(cs@.take(i + 1)));
        }
        i = i + 1;
    }
    push_char(out, '"');
    proof {
        assert(cs@.take(cs@.len() as int) =~= cs@);
        assert(out@ =~= old(out)@ + turtle_str(s@));
    }
}

/// The omission list: mechanical cuts first, then the human ones.
fn collect_omissions(report: &ConeReport, opts: &DraftOptions) -> (out: Vec<(String, String, Option<String>)>)
    ensures
        out@.len() == omissions_of(report.steps@, opts.human_omissions@).len(),
        forall|k: int|
            0 <= k < out@.len() ==> {
                let o = omissions_of(report.steps@, opts.human_omissions@)[k];
                &&& (#[trigger] out@[k]).0@ == o.0
                &&& out@[k].1@ == o.1
                &&& match out@[k].2 {
                    Some(d) => o.2 == Some(d@),
                    None => o.2 is None,
                }
            },
{
    let ghost hs = human_steps(opts.human_omissions@);
    let mut out: Vec<(String, String, Option<String>)> = Vec::new();
    let mut i: usize = 0;
    while i < report.steps.len()
        invariant
            i <= report.steps@.len(),
            hs == human_steps(opts.human_omissions@),
            out@.len() == mechanical(report.steps@.take(i as int), hs).len(),
            forall|k: int|
                0 <= k < out@.len() ==> {
                    let o = mechanical(report.steps@.take(i as int), hs)[k];
                    &&& (#[trigger] out@[k]).0@ == o.0
                    &&& out@[k].1@ == o.1
                    &&& out@[k].2 is None && o.2 is None
                },
        decreases report.steps.len() - i,
    {
        let step = &report.steps[i];
        proof {
            assert(report.steps@.take(i + 1).drop_last() =~= report.steps@.take(i as int));
            assert(report.steps@.take(i + 1).last() == report.steps@[i as int]);
        }
        if step.verdict == ConeVerdict::OutOfCone && !human_names(&opts.human_omissions, step.iri.as_str()) {
            out.push((step.iri.clone(), owned("cone-analysis"), None));
        }
        i = i + 1;
    }
    proof {
        assert(report.steps@.take(report.steps@.len() as int) =~= report.steps@);
    }
    let ghost mech = mechanical(report.steps@, hs);
    let mut j: usize = 0;
    while j < opts.human_omissions.len()
        invariant
            j <= opts.human_omissions@.len(),
            mech == mechanical(report.steps@, hs),
            hs == human_steps(opts.human_omissions@),
            out@.len() == mech.len() + j,
            forall|k: int|
                0 <= k < out@.len() ==> {
                    let o = omissions_of(report.steps@, opts.human_omissions@)[k];
                    &&& (#[trigger] out@[k]).0@ == o.0
                    &&& out@[k].1@ == o.1
                    &&& match out@[k].2 {
                        Some(d) => o.2 == Some(d@),
                        None => o.2 is None,
                    }
                },
        decreases opts.human_omissions.len() - j,
    {
        let h = &opts.human_omissions[j];
        let ghost before = out@;
        out.push((h.0.clone(), owned("human-decision"), Some(h.1.clone())));
        proof {
            let os = omissions_of(report.steps@, opts.human_omissions@);
            let hu = humane(opts.human_omissions@);
            assert(hu.len() == opts.human_omissions@.len());
            assert(os == mech + hu);
            assert(os[mech.len() + j] == hu[j as int]);
            assert forall|k: int| 0 <= k < before.len() implies #[trigger] out@[k] == before[k] by {}
        }
        j = j + 1;
    }
    out
}

/// Emit the `GoldenPath` + `PathOmission` Turtle for `cone_report`'s
/// trajectory.
///
/// Mechanically prunable steps (`OutOfCone`) become omissions with authority
/// `cone-analysis`. `CannotEvaluate` steps are NOT omitted: missing data
/// degrades toward keeping the step and telling the human, never toward a
/// silent cut. A human omission of an `InCone` step is accepted (the human
/// overrules the cone; that is what the Decision is for), but omitting a step
/// the cone never saw is refused as a probable typo.
pub fn draft(cone_report: &ConeReport, opts: &DraftOptions) -> (r: Result<String, Error>)
    ensures
        match first_unknown(human_steps(opts.human_omissions@), step_iris(cone_report.steps@)) {
            Some(step) => r matches Err(e) && e.is_invalid() && e.text() == unknown_omission_msg(step),
            None => match first_unknown(
                strings_view(opts.dead_ends@),
                step_iris(cone_report.steps@),
            ) {
                Some(step) => r matches Err(e) && e.is_invalid() && e.text() == unknown_dead_end_msg(step),
                None => r matches Ok(t) && t@ == draft_text(cone_report, opts),
            },
        },
{
    let ghost known = step_iris(cone_report.steps@);
    let ghost hs = human_steps(opts.human_omissions@);
    let ghost ds = strings_view(opts.dead_ends@);
    let mut i: usize = 0;
    proof {
        assert(hs.subrange(0, hs.len() as int) =~= hs);
    }
    while i < opts.human_omissions.len()
        invariant
            i <= opts.human_omissions@.len(),
            hs == human_steps(opts.human_omissions@),
            known == step_iris(cone_report.steps@),
            first_unknown(hs, known) == first_unknown(hs.subrange(i as int, hs.len() as int), known),
        decreases opts.human_omissions.len() - i,
    {
        let ghost rest = hs.subrange(i as int, hs.len() as int);
        proof {
            assert(rest.drop_first() =~= hs.subrange(i + 1, hs.len() as int));
            assert(rest[0] == opts.human_omissions@[i as int].0@);
        }
        let step = &opts.human_omissions[i].0;
        if !names_step(&cone_report.steps, step.as_str()) {
            let mut msg = owned("human omission names a step the cone report does not contain: ");
            push_str(&mut msg, step.as_str());
            return Err(Error::InvalidValue(msg));
        }
        i = i + 1;
    }
    let mut j: usize = 0;
    proof {
        assert(ds.subrange(0, ds.len() as int) =~= ds);
    }
    while j < opts.dead_ends.len()
        invariant
            j <= opts.dead_ends@.len(),
            ds == strings_view(opts.dead_ends@),
            known == step_iris(cone_report.steps@),
            hs == human_steps(opts.human_omissions@),
            first_unknown(hs, known) is None,
            first_unknown(ds, known) == first_unknown(ds.subrange(j as int, ds.len() as int), known),
        decreases opts.dead_ends.len() - j,
    {
        let ghost rest = ds.subrange(j as int, ds.len() as int);
        proof {
            assert(rest.drop_first() =~= ds.subrange(j + 1, ds.len() as int));
            assert(rest[0] == opts.dead_ends@[j as int]@);
        }
        let step = &opts.dead_ends[j];
        if !names_step(&cone_report.steps, step.as_str()) {
            let mut msg = owned("dead end names a step the cone report does not contain: ");
            push_str(&mut msg, step.as_str());
            return Err(Error::InvalidValue(msg));
        }
        j = j + 1;
    }
    Ok(render(cone_report, opts))
}

/// The Turtle text itself.
fn render(cone_report: &ConeReport, opts: &DraftOptions) -> (t: String)
    ensures
        t@ == draft_text(cone_report, opts),
{
    let ns = opts.base_ns.as_str();
    let mut path_iri = owned(ns);
    push_str(&mut path_iri, opts.name.as_str());
    let traj = cone_report.trajectory.as_str();
    let mut ttl = owned("@prefix aegis: <");
    push_str(&mut ttl, ns);
    push_str(&mut ttl, "> .\n");
    push_str(&mut ttl, "@prefix rdfs:  <http://www.w3.org/2000/01/rdf-schema#> .\n");
    push_str(&mut ttl, "\n");
    push_str(&mut ttl, "# Drafted from ");
    push_str(&mut ttl, traj);
    push_str(&mut ttl, " — review, then load. Nothing was written.\n");
    push_str(&mut ttl, "<");
    push_str(&mut ttl, path_iri.as_str());
    push_str(&mut ttl, "> a aegis:GoldenPath ;\n");
    push_str(&mut ttl, "    rdfs:label ");
    push_turtle_str(&mut ttl, opts.label.as_str());
    push_str(&mut ttl, " ;\n");
    push_str(&mut ttl, "    aegis:sourceKind \"declared\" ;\n");
    push_str(&mut ttl, "    aegis:prunedFrom <");
    push_str(&mut ttl, traj);
    push_str(&mut ttl, "> ;\n");
    let ghost pi = path_iri@;
    proof {
        assert(ttl@ =~= path_head(ns@, pi, traj@, opts.label@));
    }
    let omissions = collect_omissions(cone_report, opts);
    let ghost os = omissions_of(cone_report.steps@, opts.human_omissions@);
    let ghost head = ttl@;
    let mut i: usize = 0;
    while i < omissions.len()
        invariant
            i <= omissions@.len(),
            pi == path_iri@,
            ttl@ == head + omits_lines(pi, i as nat),
        decreases omissions.len() - i,
    {
        push_str(&mut ttl, "    aegis:omitsStep <");
        push_str(&mut ttl, path_iri.as_str());
        push_str(&mut ttl, "/omission-");
        let n = usize_to_string(i);
        push_str(&mut ttl, n.as_str());
        push_str(&mut ttl, "> ;\n");
        proof {
            assert(ttl@ =~= head + omits_lines(pi, (i + 1) as nat));
        }
        i = i + 1;
    }
    let ghost ds = strings_view(opts.dead_ends@);
    let ghost mid = ttl@;
    let mut j: usize = 0;
    while j < opts.dead_ends.len()
        invariant
            j <= opts.dead_ends@.len(),
            ds == strings_view(opts.dead_ends@),
            ttl@ == mid + dead_lines(ds.take(j as int)),
        decreases opts.dead_ends.len() - j,
    {
        push_str(&mut ttl, "    aegis:deadEnd <");
        push_str(&mut ttl, opts.dead_ends[j].as_str());
        push_str(&mut ttl, "> ;\n");
        proof {
            assert(ds.take(j + 1).drop_last() =~= ds.take(j as int));
            assert(ds.take(j + 1).last() == opts.dead_ends@[j as int]@);
            assert(ttl@ =~= mid + dead_lines(ds.take(j + 1)));
        }
        j = j + 1;
    }
    proof {
        assert(ds.take(ds.len() as int) =~= ds);
        assert(ttl@ =~= head + omits_lines(pi, os.len()) + dead_lines(ds));
    }
    let mut out = trim_trailing(ttl.as_str());
    push_str(&mut out, " .\n");
    let ghost top = out@;
    let mut k: usize = 0;
    while k < omissions.len()
        invariant
            k <= omissions@.len(),
            pi == path_iri@,
            omissions@.len() == os.len(),
            forall|m: int|
                0 <= m < omissions@.len() ==> {
                    &&& (#[trigger] omissions@[m]).0@ == os[m].0
                    &&& omissions@[m].1@ == os[m].1
                    &&& match omissions@[m].2 {
                        Some(d) => os[m].2 == Some(d@),
                        None => os[m].2 is None,
                    }
                },
            out@ == top + omission_blocks(pi, opts.label@, os.take(k as int)),
        decreases omissions.len() - k,
    {
        let ghost before = out@;
        let (step, authority, decision) = &omissions[k];
        push_omission_block(&mut out, path_iri.as_str(), opts.label.as_str(), k, step.as_str(), authority.as_str(), decision);
        proof {
            assert(os.take(k + 1).drop_last() =~= os.take(k as int));
            assert(os.take(k + 1).last() == os[k as int]);
            assert(out@ =~= before + omission_block(pi, opts.label@, k as nat, os[k as int]));
        }
        k = k + 1;
    }
    proof {
        assert(os.take(os.len() as int) =~= os);
    }
    out
}

/// Append the `PathOmission` block of the `i`-th omission.
fn push_omission_block(
    out: &mut String,
    path_iri: &str,
    label: &str,
    i: usize,
    step: &str,
    authority: &str,
    decision: &Option<String>,
)
    ensures
        final(out)@ == old(out)@ + omission_block(
            path_iri@,
            label@,
            i as nat,
            (
                step@,
                authority@,
                match decision {
                    Some(d) => Some(d@),
                    None => None,
                },
            ),
        ),
{
    let n = usize_to_string(i);
    push_str(out, "\n");
    push_str(out, "<");
    push_str(out, path_iri);
    push_str(out, "/omission-");
    push_str(out, n.as_str());
    push_str(out, "> a aegis:PathOmission ;\n");
    push_str(out, "    rdfs:label ");
    let mut text = owned("omission ");
    push_str(&mut text, n.as_str());
    push_str(&mut text, " of ");
    push_str(&mut text, label);
    push_turtle_str(out, text.as_str());
    push_str(out, " ;\n");
    push_str(out, "    aegis:sourceKind \"declared\" ;\n");
    push_str(out, "    aegis:omittedStep <");
    push_str(out, step);
    push_str(out, "> ;\n");
    match decision {
        Some(d) => {
            push_str(out, "    aegis:omissionAuthority \"");
            push_str(out, authority);
            push_str(out, "\" ;\n");
            push_str(out, "    aegis:omissionRuling <");
            push_str(out, d.as_str());
            push_str(out, "> .\n");
        },
        None => {
            push_str(out, "    aegis:omissionAuthority \"");
            push_str(out, authority);
            push_str(out, "\" .\n");
        },
    }
    proof {
        assert(out@ =~= old(out)@ + omission_block(
            path_iri@,
            label@,
            i as nat,
            (
                step@,
                authority@,
                match decision {
                    Some(d) => Some(d@),
                    None => None,
                },
            ),
        ));
    }
}

/// `s` without its trailing spaces, newlines and semicolons.
fn trim_trailing(s: &str) -> (out: String)
    ensures
        out@ == trim_end(s@),
{
    let cs = chars_of(s);
    let mut n: usize = cs.len();
    proof {
        assert(cs@.take(cs@.len() as int) =~= cs@);
    }
    while n > 0 && (cs[n - 1] == ' ' || cs[n - 1] == '\n' || cs[n - 1] == ';')
        invariant
            n <= cs@.len(),
            trim_end(cs@) == trim_end(cs@.take(n as int)),
        decreases n,
    {
        proof {
            assert(cs@.take(n as int).drop_last() =~= cs@.take(n - 1));
        }
        n = n - 1;
    }
    let mut keep: Vec<char> = Vec::new();
    let mut i: usize = 0;
    while i < n
        invariant
            i <= n <= cs@.len(),
            keep@ == cs@.take(i as int),
        decreases n - i,
    {
        keep.push(cs[i]);
        proof {
            assert(keep@ =~= cs@.take(i + 1));
        }
        i = i + 1;
    }
    proof {
        assert(cs@.take(cs@.len() as int) =~= cs@);
    }
    string_from_chars(keep.as_slice())
}

} // verus!
