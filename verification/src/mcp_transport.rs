//! The route each MCP tool is served by. Every tool call enters the REST
//! application, so authentication, read-only guards and transaction
//! identity have one authority; a tool name resolves to one route of that
//! application and never to an arbitrary path.

use vstd::prelude::*;

use crate::text::{chars_of, owned, str_eq, string_from_chars};

verus! {

/// The HTTP method a tool call is sent with.
#[derive(Debug, Clone, Copy, PartialEq, Eq, Structural)]
pub enum Method {
    Get,
    Post,
}

/// The tool prefix that the generic route drops.
pub const TOOL_PREFIX: &'static str = "quipu_";

/// The routes that do not follow the tool's own name.
pub open spec fn named_route(name: Seq<char>) -> Option<Seq<char>> {
    if name == "quipu_load_ontology"@ {
        Some("/ontology"@)
    } else if name == "quipu_resolve_entity"@ {
        Some("/resolve"@)
    } else if name == "quipu_propose_schema_change"@ {
        Some("/propose"@)
    } else if name == "quipu_list_proposals"@ {
        Some("/proposals"@)
    } else if name == "quipu_accept_proposal"@ {
        Some("/proposal/accept"@)
    } else if name == "quipu_reject_proposal"@ {
        Some("/proposal/reject"@)
    } else if name == "quipu_retract_episode"@ {
        Some("/episode/retract"@)
    } else if name == "quipu_retract_source"@ {
        Some("/retract/source"@)
    } else if name == "quipu_episodes_complete"@ {
        Some("/episodes/complete"@)
    } else if name == "quipu_path_cone"@ {
        Some("/path/cone"@)
    } else if name == "quipu_path_backtest"@ {
        Some("/path/backtest"@)
    } else if name == "quipu_align_propose"@ {
        Some("/align/propose"@)
    } else if name == "quipu_align_decide"@ {
        Some("/align/decide"@)
    } else if name == "quipu_align_apply"@ {
        Some("/align/apply"@)
    } else if name == "quipu_policy_check"@ {
        Some("/policy/check"@)
    } else if name == "quipu_verdict_verify"@ {
        Some("/verdict/verify"@)
    } else if name == "quipu_verifier_authorized"@ {
        Some("/verifier/authorized"@)
    } else if name == "quipu_overlay_create"@ {
        Some("/overlay/create"@)
    } else if name == "quipu_overlay_write"@ {
        Some("/overlay/write"@)
    } else if name == "quipu_overlay_compose"@ {
        Some("/overlay/compose"@)
    } else if name == "quipu_graph_freeze"@ {
        Some("/graph/freeze"@)
    } else if name == "quipu_graph_thaw"@ {
        Some("/graph/thaw"@)
    } else {
        None
    }
}

/// `s` without every leading repetition of the non-empty `p` (what
/// `str::trim_start_matches` returns for a string pattern).
pub open spec fn trim_leading(s: Seq<char>, p: Seq<char>) -> Seq<char>
    decreases s.len(),
{
    if p.len() > 0 && p.len() <= s.len() && s.subrange(0, p.len() as int) == p {
        trim_leading(s.subrange(p.len() as int, s.len() as int), p)
    } else {
        s
    }
}

/// The method and path a tool is served by: the graph list is read with
/// `GET /graphs`; a tool with a route of its own is posted there; any other
/// tool is posted to its name without the tool prefix.
pub open spec fn endpoint_of(name: Seq<char>) -> (Method, Seq<char>) {
    if name == "quipu_graph_list"@ {
        (Method::Get, "/graphs"@)
    } else {
        match named_route(name) {
            Some(p) => (Method::Post, p),
            None => (Method::Post, "/"@ + trim_leading(name, TOOL_PREFIX@)),
        }
    }
}

/// The tool prefix starts `s` at position `i`.
fn prefix_at(s: &Vec<char>, i: usize, p: &Vec<char>) -> (r: bool)
    requires
        i <= s@.len(),
    ensures
        r == (p@.len() <= s@.len() - i && s@.subrange(i as int, i + p@.len()) == p@),
{
    let n = s.len();
    if p.len() > n - i {
        return false;
    }
    let mut k: usize = 0;
    while k < p.len()
        invariant
            k <= p@.len(),
            i <= s@.len(),
            s@.len() <= usize::MAX,
            p@.len() <= s@.len() - i,
            forall|j: int| 0 <= j < k ==> s@[i + j] == p@[j],
        decreases p.len() - k,
    {
        if s[i + k] != p[k] {
            assert(s@.subrange(i as int, i + p@.len())[k as int] != p@[k as int]);
            return false;
        }
        k = k + 1;
    }
    assert(s@.subrange(i as int, i + p@.len()) =~= p@);
    true
}

/// `name` without every leading tool prefix (see [`trim_leading`]).
fn trim_tool_prefix(name: &str) -> (r: Vec<char>)
    ensures
        r@ == trim_leading(name@, TOOL_PREFIX@),
{
    let cs = chars_of(name);
    let p = chars_of(TOOL_PREFIX);
    proof {
        reveal_strlit("quipu_");
    }
    let mut i: usize = 0;
    proof {
        assert(cs@.subrange(0, cs@.len() as int) =~= cs@);
    }
    let len = cs.len();
    let mut more = prefix_at(&cs, 0, &p);
    while more
        invariant
            i <= cs@.len(),
            len == cs@.len(),
            cs@ == name@,
            p@ == TOOL_PREFIX@,
            p@.len() == 6,
            more == (p@.len() <= cs@.len() - i && cs@.subrange(i as int, i + p@.len()) == p@),
            trim_leading(cs@.subrange(i as int, cs@.len() as int), p@) == trim_leading(name@, p@),
        decreases len - i,
    {
        let ghost rest = cs@.subrange(i as int, cs@.len() as int);
        assert(rest.subrange(0, 6) =~= cs@.subrange(i as int, i + 6));
        assert(rest.subrange(6, rest.len() as int) =~= cs@.subrange(i + 6, cs@.len() as int));
        i = i + 6;
        more = prefix_at(&cs, i, &p);
    }
    let ghost rest = cs@.subrange(i as int, cs@.len() as int);
    proof {
        if 6 <= rest.len() {
            assert(rest.subrange(0, 6) =~= cs@.subrange(i as int, i + 6));
        }
    }
    let mut out: Vec<char> = Vec::new();
    let mut k: usize = i;
    while k < cs.len()
        invariant
            i <= k <= cs@.len(),
            out@ == cs@.subrange(i as int, k as int),
        decreases cs.len() - k,
    {
        out.push(cs[k]);
        proof {
            assert(out@ =~= cs@.subrange(i as int, k + 1));
        }
        k = k + 1;
    }
    out
}

/// The method and path the tool `name` is served by (see
/// [`endpoint_of`]).
pub fn endpoint(name: &str) -> (r: (Method, String))
    ensures
        r.0 == endpoint_of(name@).0,
        r.1@ == endpoint_of(name@).1,
{
    if str_eq(name, "quipu_graph_list") {
        return (Method::Get, owned("/graphs"));
    }
    let path = if str_eq(name, "quipu_load_ontology") {
        "/ontology"
    } else if str_eq(name, "quipu_resolve_entity") {
        "/resolve"
    } else if str_eq(name, "quipu_propose_schema_change") {
        "/propose"
    } else if str_eq(name, "quipu_list_proposals") {
        "/proposals"
    } else if str_eq(name, "quipu_accept_proposal") {
        "/proposal/accept"
    } else if str_eq(name, "quipu_reject_proposal") {
        "/proposal/reject"
    } else if str_eq(name, "quipu_retract_episode") {
        "/episode/retract"
    } else if str_eq(name, "quipu_retract_source") {
        "/retract/source"
    } else if str_eq(name, "quipu_episodes_complete") {
        "/episodes/complete"
    } else if str_eq(name, "quipu_path_cone") {
        "/path/cone"
    } else if str_eq(name, "quipu_path_backtest") {
        "/path/backtest"
    } else if str_eq(name, "quipu_align_propose") {
        "/align/propose"
    } else if str_eq(name, "quipu_align_decide") {
        "/align/decide"
    } else if str_eq(name, "quipu_align_apply") {
        "/align/apply"
    } else if str_eq(name, "quipu_policy_check") {
        "/policy/check"
    } else if str_eq(name, "quipu_verdict_verify") {
        "/verdict/verify"
    } else if str_eq(name, "quipu_verifier_authorized") {
        "/verifier/authorized"
    } else if str_eq(name, "quipu_overlay_create") {
        "/overlay/create"
    } else if str_eq(name, "quipu_overlay_write") {
        "/overlay/write"
    } else if str_eq(name, "quipu_overlay_compose") {
        "/overlay/compose"
    } else if str_eq(name, "quipu_graph_freeze") {
        "/graph/freeze"
    } else if str_eq(name, "quipu_graph_thaw") {
        "/graph/thaw"
    } else {
        let rest = trim_tool_prefix(name);
        let mut v: Vec<char> = vec!['/'];
        let mut k: usize = 0;
        while k < rest.len()
            invariant
                k <= rest@.len(),
                v@ == seq!['/'] + rest@.subrange(0, k as int),
            decreases rest.len() - k,
        {
            v.push(rest[k]);
            proof {
                assert(v@ =~= seq!['/'] + rest@.subrange(0, k + 1));
            }
            k = k + 1;
        }
        proof {
            reveal_strlit("/");
            assert(rest@.subrange(0, rest@.len() as int) =~= rest@);
            assert(v@ =~= "/"@ + rest@);
        }
        return (Method::Post, string_from_chars(v.as_slice()));
    };
    (Method::Post, owned(path))
}

/// Every tool resolves to a path of the application: each starts with `/`.
pub proof fn law_every_tool_resolves_to_a_route(name: Seq<char>)
    ensures
        endpoint_of(name).1.len() > 0,
        endpoint_of(name).1[0] == '/',
{
    reveal_strlit("/graphs");
    reveal_strlit("/");
    reveal_strlit("/ontology");
    reveal_strlit("/resolve");
    reveal_strlit("/propose");
    reveal_strlit("/proposals");
    reveal_strlit("/proposal/accept");
    reveal_strlit("/proposal/reject");
    reveal_strlit("/episode/retract");
    reveal_strlit("/retract/source");
    reveal_strlit("/episodes/complete");
    reveal_strlit("/path/cone");
    reveal_strlit("/path/backtest");
    reveal_strlit("/align/propose");
    reveal_strlit("/align/decide");
    reveal_strlit("/align/apply");
    reveal_strlit("/policy/check");
    reveal_strlit("/verdict/verify");
    reveal_strlit("/verifier/authorized");
    reveal_strlit("/overlay/create");
    reveal_strlit("/overlay/write");
    reveal_strlit("/overlay/compose");
    reveal_strlit("/graph/freeze");
    reveal_strlit("/graph/thaw");
}

} // verus!
