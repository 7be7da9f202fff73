//! Request labelling: the bounded caller and work-item labels that request
//! metrics are keyed by, the budget that folds excess labels into `other`,
//! and the escaping of label values in the exposition text.
//!
//! A label is lower-case, restricted to `[a-z0-9._-]` and truncated; a caller
//! that names nothing, or only characters that filter away, is
//! `unattributed`. Labels come from caller-controlled headers, so the number
//! of distinct ones kept is capped: past the cap, a new one is filed under
//! `other` (folded, never dropped).

use vstd::prelude::*;

pub mod attestation;
pub mod histogram;

use crate::text::{ascii_lower, chars_of, lower_char, owned, str_eq, string_from_chars};

verus! {

/// Longest client label.
pub const MAX_CLIENT_LABEL: usize = 32;

/// Longest task label.
pub const MAX_TASK_LABEL: usize = 64;

/// The Unicode `White_Space` characters (what `char::is_whitespace` tests).
pub open spec fn is_space(c: char) -> bool {
    ||| '\t' <= c <= '\r'
    ||| c == ' '
    ||| c == '\u{85}'
    ||| c == '\u{a0}'
    ||| c == '\u{1680}'
    ||| '\u{2000}' <= c <= '\u{200a}'
    ||| c == '\u{2028}'
    ||| c == '\u{2029}'
    ||| c == '\u{202f}'
    ||| c == '\u{205f}'
    ||| c == '\u{3000}'
}

/// `s` without its leading white space.
pub open spec fn trim_start(s: Seq<char>) -> Seq<char>
    decreases s.len(),
{
    if s.len() > 0 && is_space(s[0]) {
        trim_start(s.drop_first())
    } else {
        s
    }
}

/// `s` without its trailing white space.
pub open spec fn trim_end(s: Seq<char>) -> Seq<char>
    decreases s.len(),
{
    if s.len() > 0 && is_space(s.last()) {
        trim_end(s.drop_last())
    } else {
        s
    }
}

/// `s` without leading and trailing white space (what `str::trim` returns).
pub open spec fn trim(s: Seq<char>) -> Seq<char> {
    trim_end(trim_start(s))
}

/// The characters a client label is cut at.
pub open spec fn is_cut(c: char) -> bool {
    c == '/' || c == ' ' || c == '\t' || c == '\n' || c == '\r'
}

/// The length of the longest prefix of `s` without a cut character.
pub open spec fn first_cut(s: Seq<char>) -> nat
    decreases s.len(),
{
    if s.len() == 0 || is_cut(s[0]) {
        0
    } else {
        1 + first_cut(s.drop_first())
    }
}

/// The part of `s` before its first cut character.
pub open spec fn first_piece(s: Seq<char>) -> Seq<char> {
    s.take(first_cut(s) as int)
}

/// A character a label may hold.
pub open spec fn label_char(c: char) -> bool {
    ('a' <= c <= 'z') || ('0' <= c <= '9') || c == '.' || c == '_' || c == '-'
}

/// The characters of `s`, ASCII-lower-cased, that a label may hold, in order.
pub open spec fn kept(s: Seq<char>) -> Seq<char>
    decreases s.len(),
{
    if s.len() == 0 {
        s
    } else {
        let rest = kept(s.drop_last());
        let c = lower_char(s.last());
        if label_char(c) {
            rest.push(c)
        } else {
            rest
        }
    }
}

/// At most the first `n` elements of `s`.
pub open spec fn truncate(s: Seq<char>, n: nat) -> Seq<char> {
    if s.len() <= n {
        s
    } else {
        s.take(n as int)
    }
}

/// The contents of an optional string slice.
pub open spec fn opt_view(o: Option<&str>) -> Option<Seq<char>> {
    match o {
        Some(s) => Some(s@),
        None => None,
    }
}

/// The trimmed value of `o`, when it has one that is not empty.
pub open spec fn present(o: Option<Seq<char>>) -> Option<Seq<char>> {
    match o {
        Some(s) => if trim(s).len() > 0 {
            Some(trim(s))
        } else {
            None
        },
        None => None,
    }
}

/// `cleaned`, or `unattributed` when it is empty.
pub open spec fn or_unattributed(cleaned: Seq<char>) -> Seq<char> {
    if cleaned.len() == 0 {
        "unattributed"@
    } else {
        cleaned
    }
}

/// The client label: the explicit name, else the user agent, cut at the
/// first `/` or white space, cleaned and truncated to 32 characters.
pub open spec fn client_label(explicit: Option<Seq<char>>, user_agent: Option<Seq<char>>) -> Seq<char> {
    let raw = if present(explicit) is Some {
        present(explicit)
    } else {
        present(user_agent)
    };
    match raw {
        Some(r) => or_unattributed(truncate(kept(trim(first_piece(r))), MAX_CLIENT_LABEL as nat)),
        None => "unattributed"@,
    }
}

proof fn lemma_kept_label_chars(s: Seq<char>)
    ensures
        forall|i: int| 0 <= i < kept(s).len() ==> label_char(#[trigger] kept(s)[i]),
    decreases s.len(),
{
    if s.len() > 0 {
        lemma_kept_label_chars(s.drop_last());
        let rest = kept(s.drop_last());
        assert forall|i: int| 0 <= i < kept(s).len() implies label_char(#[trigger] kept(s)[i]) by {
            if i < rest.len() {
                assert(kept(s)[i] == rest[i]);
            }
        }
    }
}

/// Law: a client label is `unattributed`, or 1 to 32 characters each a
/// lower-case ASCII letter, a digit, `.`, `_` or `-` (so never a quote, a
/// backslash, a `/` or white space); a non-blank explicit name is used in
/// preference to the user agent.
pub proof fn law_client_labels_are_bounded_and_clean(explicit: Option<Seq<char>>, user_agent: Option<Seq<char>>)
    ensures
        client_label(explicit, user_agent) == "unattributed"@ || {
            let l = client_label(explicit, user_agent);
            &&& 1 <= l.len() <= MAX_CLIENT_LABEL
            &&& forall|i: int| 0 <= i < l.len() ==> label_char(#[trigger] l[i])
        },
        present(explicit) is Some ==> client_label(explicit, user_agent) == client_label(explicit, None),
{
    let raw = if present(explicit) is Some {
        present(explicit)
    } else {
        present(user_agent)
    };
    if let Some(r) = raw {
        let k = kept(trim(first_piece(r)));
        lemma_kept_label_chars(trim(first_piece(r)));
        let t = truncate(k, MAX_CLIENT_LABEL as nat);
        assert forall|i: int| 0 <= i < t.len() implies label_char(#[trigger] t[i]) by {
            assert(t[i] == k[i]);
        }
    }
}

/// The task label: the explicit work item, cleaned and truncated to 64
/// characters.
pub open spec fn task_label(explicit: Option<Seq<char>>) -> Seq<char> {
    match present(explicit) {
        Some(r) => or_unattributed(truncate(kept(r), MAX_TASK_LABEL as nat)),
        None => "unattributed"@,
    }
}

fn space(c: char) -> (r: bool)
    ensures
        r == is_space(c),
{
    ('\t' <= c && c <= '\r') || c == ' ' || c == '\u{85}' || c == '\u{a0}' || c == '\u{1680}'
        || ('\u{2000}' <= c && c <= '\u{200a}') || c == '\u{2028}' || c == '\u{2029}'
        || c == '\u{202f}' || c == '\u{205f}' || c == '\u{3000}'
}

proof fn lemma_trim_start_skip(s: Seq<char>, i: int)
    requires
        0 <= i <= s.len(),
        forall|k: int| 0 <= k < i ==> is_space(#[trigger] s[k]),
    ensures
        trim_start(s) == trim_start(s.subrange(i, s.len() as int)),
    decreases i,
{
    if i > 0 {
        assert(s.drop_first().subrange(i - 1, s.drop_first().len() as int) =~= s.subrange(i, s.len() as int));
        lemma_trim_start_skip(s.drop_first(), i - 1);
    } else {
        assert(s.subrange(0, s.len() as int) =~= s);
    }
}

proof fn lemma_trim_end_take(s: Seq<char>, j: int)
    requires
        0 <= j <= s.len(),
        forall|k: int| j <= k < s.len() ==> is_space(#[trigger] s[k]),
    ensures
        trim_end(s) == trim_end(s.take(j)),
    decreases s.len() - j,
{
    if j < s.len() {
        assert(s.drop_last().take(j) =~= s.take(j));
        lemma_trim_end_take(s.drop_last(), j);
    } else {
        assert(s.take(j) =~= s);
    }
}

/// `s` trimmed of white space at both ends.
fn trim_chars(s: &[char]) -> (out: Vec<char>)
    ensures
        out@ == trim(s@),
{
    let n = s.len();
    let mut lo: usize = 0;
    while lo < n && space(s[lo])
        invariant
            n == s@.len(),
            lo <= n,
            forall|k: int| 0 <= k < lo ==> is_space(#[trigger] s@[k]),
        decreases n - lo,
    {
        lo = lo + 1;
    }
    proof {
        lemma_trim_start_skip(s@, lo as int);
    }
    let ghost mid = s@.subrange(lo as int, n as int);
    assert(trim_start(mid) == mid);
    let mut hi: usize = n;
    while hi > lo && space(s[hi - 1])
        invariant
            n == s@.len(),
            lo <= hi <= n,
            forall|k: int| hi <= k < n ==> is_space(#[trigger] s@[k]),
        decreases hi - lo,
    {
        hi = hi - 1;
    }
    proof {
        assert forall|k: int| hi - lo <= k < mid.len() implies is_space(#[trigger] mid[k]) by {
            assert(mid[k] == s@[lo + k]);
        }
        lemma_trim_end_take(mid, hi - lo);
        assert(mid.take(hi - lo) =~= s@.subrange(lo as int, hi as int));
    }
    let mut out: Vec<char> = Vec::new();
    let mut i: usize = lo;
    while i < hi
        invariant
            lo <= i <= hi <= n,
            n == s@.len(),
            out@ == s@.subrange(lo as int, i as int),
        decreases hi - i,
    {
        out.push(s[i]);
        i = i + 1;
        assert(out@ =~= s@.subrange(lo as int, i as int));
    }
    out
}

proof fn lemma_first_cut(s: Seq<char>, i: int)
    requires
        0 <= i <= s.len(),
        forall|k: int| 0 <= k < i ==> !is_cut(#[trigger] s[k]),
    ensures
        first_cut(s) == i + first_cut(s.subrange(i, s.len() as int)),
    decreases i,
{
    if i > 0 {
        assert(s.drop_first().subrange(i - 1, s.drop_first().len() as int) =~= s.subrange(i, s.len() as int));
        lemma_first_cut(s.drop_first(), i - 1);
    } else {
        assert(s.subrange(0, s.len() as int) =~= s);
    }
}

/// The part of `s` before its first cut character.
fn first_piece_chars(s: &[char]) -> (out: Vec<char>)
    ensures
        out@ == first_piece(s@),
{
    let mut out: Vec<char> = Vec::new();
    let mut i: usize = 0;
    while i < s.len() && !(s[i] == '/' || s[i] == ' ' || s[i] == '\t' || s[i] == '\n' || s[i] == '\r')
        invariant
            i <= s@.len(),
            out@ == s@.take(i as int),
            forall|k: int| 0 <= k < i ==> !is_cut(#[trigger] s@[k]),
        decreases s.len() - i,
    {
        out.push(s[i]);
        i = i + 1;
        assert(out@ =~= s@.take(i as int));
    }
    proof {
        lemma_first_cut(s@, i as int);
        assert(first_cut(s@.subrange(i as int, s@.len() as int)) == 0);
    }
    out
}

/// The label characters of `s`, at most `max` of them.
fn label_chars(s: &[char], max: usize) -> (out: Vec<char>)
    ensures
        out@ == truncate(kept(s@), max as nat),
{
    let mut out: Vec<char> = Vec::new();
    let mut i: usize = 0;
    while i < s.len()
        invariant
            i <= s@.len(),
            out@ == truncate(kept(s@.take(i as int)), max as nat),
        decreases s.len() - i,
    {
        let ghost prev = kept(s@.take(i as int));
        proof {
            assert(s@.take(i + 1).drop_last() =~= s@.take(i as int));
        }
        let c = ascii_lower(s[i]);
        let keep = ('a' <= c && c <= 'z') || ('0' <= c && c <= '9') || c == '.' || c == '_' || c == '-';
        if keep {
            proof {
                if prev.len() >= max {
                    assert(prev.push(c).take(max as int) =~= prev.take(max as int));
                }
            }
            if out.len() < max {
                out.push(c);
            }
        }
        i = i + 1;
    }
    proof {
        assert(s@.take(s@.len() as int) =~= s@);
    }
    out
}

/// `cleaned` as a label, or `unattributed` when it is empty.
fn label_or_unattributed(cleaned: Vec<char>) -> (r: String)
    ensures
        r@ == or_unattributed(cleaned@),
{
    if cleaned.len() == 0 {
        owned("unattributed")
    } else {
        string_from_chars(cleaned.as_slice())
    }
}

/// The trimmed characters of `o`, when it holds any but white space.
fn present_chars(o: Option<&str>) -> (r: Option<Vec<char>>)
    ensures
        match r {
            Some(v) => present(opt_view(o)) == Some(v@),
            None => present(opt_view(o)) is None,
        },
{
    match o {
        Some(s) => {
            let cs = chars_of(s);
            let t = trim_chars(cs.as_slice());
            if t.len() > 0 {
                Some(t)
            } else {
                None
            }
        },
        None => None,
    }
}

/// Normalise a caller identity into a bounded metric label.
///
/// The explicit client name wins over the user agent; an absent, empty or
/// white-space-only one falls through. The chosen name is cut at its first
/// `/` or white space (so `curl/8.5.0` is `curl`), lower-cased, restricted
/// to `[a-z0-9._-]` and truncated to 32 characters; `unattributed` stands
/// for no name at all and for one that filters to nothing.
pub fn normalize_client(explicit: Option<&str>, user_agent: Option<&str>) -> (r: String)
    ensures
        r@ == client_label(opt_view(explicit), opt_view(user_agent)),
{
    let raw = match present_chars(explicit) {
        Some(v) => Some(v),
        None => present_chars(user_agent),
    };
    match raw {
        Some(v) => {
            let piece = first_piece_chars(v.as_slice());
            let t = trim_chars(piece.as_slice());
            let cleaned = label_chars(t.as_slice(), MAX_CLIENT_LABEL);
            label_or_unattributed(cleaned)
        },
        None => owned("unattributed"),
    }
}

/// Normalise the optional work-item identity into a bounded metric label.
///
/// No fallback: a missing or white-space-only value is `unattributed`.
/// Otherwise the value is lower-cased, restricted to `[a-z0-9._-]` and
/// truncated to 64 characters; one that filters to nothing is
/// `unattributed` too.
pub fn normalize_task(explicit: Option<&str>) -> (r: String)
    ensures
        r@ == task_label(opt_view(explicit)),
{
    match present_chars(explicit) {
        Some(v) => {
            let cleaned = label_chars(v.as_slice(), MAX_TASK_LABEL);
            label_or_unattributed(cleaned)
        },
        None => owned("unattributed"),
    }
}

/// Most distinct caller labels kept per series family, `other` included.
pub const MAX_CLIENTS: usize = 32;

/// Most distinct task labels kept, `other` included.
pub const MAX_TASKS: usize = 128;

/// The contents of a list of strings.
pub open spec fn strs(v: Seq<String>) -> Seq<Seq<char>> {
    v.map_values(|s: String| s@)
}

/// The distinct labels among `labels`, other than `other`.
pub open spec fn named(labels: Seq<Seq<char>>) -> Set<Seq<char>> {
    labels.to_set().remove("other"@)
}

/// Whether `label` keeps a series of its own among `labels` under a budget
/// of `cap` labels, one of which is reserved for `other`: it already has
/// one, or there is room for one more.
pub open spec fn keeps(labels: Seq<Seq<char>>, label: Seq<char>, cap: int) -> bool {
    named(labels).contains(label) || named(labels).len() < cap - 1
}

/// The label an observation by `label` is filed under.
pub open spec fn bounded(labels: Seq<Seq<char>>, label: Seq<char>, cap: int) -> Seq<char> {
    if keeps(labels, label, cap) {
        label
    } else {
        "other"@
    }
}

/// The callers of `(client, endpoint)` keys.
pub open spec fn pair_clients(keys: Seq<(String, String)>) -> Seq<Seq<char>> {
    keys.map_values(|k: (String, String)| k.0@)
}

/// The callers of `(client, task, endpoint)` keys.
pub open spec fn triple_clients(keys: Seq<(String, String, String)>) -> Seq<Seq<char>> {
    keys.map_values(|k: (String, String, String)| k.0@)
}

/// The tasks of `(client, task, endpoint)` keys.
pub open spec fn triple_tasks(keys: Seq<(String, String, String)>) -> Seq<Seq<char>> {
    keys.map_values(|k: (String, String, String)| k.1@)
}

/// How many distinct labels other than `other` `labels` holds, and whether
/// `label` is one of them.
fn survey(labels: &Vec<String>, label: &str) -> (r: (usize, bool))
    ensures
        r.0 == named(strs(labels@)).len(),
        r.1 == named(strs(labels@)).contains(label@),
{
    let ghost all = strs(labels@);
    let mut seen: Vec<String> = Vec::new();
    let mut found = false;
    let mut i: usize = 0;
    while i < labels.len()
        invariant
            0 <= i <= labels.len(),
            all == strs(labels@),
            strs(seen@).no_duplicates(),
            strs(seen@).to_set() == named(all.take(i as int)),
            found == named(all.take(i as int)).contains(label@),
        decreases labels.len() - i,
    {
        let x = labels[i].as_str();
        let ghost pre = all.take(i as int);
        assert(all.take(i as int + 1) == pre.push(x@));
        proof {
            pre.lemma_push_to_set_commute(x@);
        }
        if !str_eq(x, "other") {
            let mut dup = false;
            let mut j: usize = 0;
            while j < seen.len()
                invariant
                    0 <= j <= seen.len(),
                    dup == exists|k: int| 0 <= k < j && (#[trigger] seen@[k])@ == x@,
                decreases seen.len() - j,
            {
                if str_eq(seen[j].as_str(), x) {
                    dup = true;
                }
                j = j + 1;
            }
            let ghost before = strs(seen@);
            if !dup {
                seen.push(owned(x));
                proof {
                    assert(strs(seen@) == before.push(x@));
                    assert forall|a: int, b: int| 0 <= a < b < strs(seen@).len() implies strs(seen@)[a]
                        != strs(seen@)[b] by {
                        if b == before.len() {
                            assert(seen@[a]@ == before[a]);
                        }
                    }
                    before.lemma_push_to_set_commute(x@);
                }
            } else {
                proof {
                    let k = choose|k: int| 0 <= k < j && (#[trigger] seen@[k])@ == x@;
                    assert(before[k] == x@);
                    assert(before.to_set().contains(x@));
                    assert(before.to_set().insert(x@) == before.to_set());
                }
            }
            assert(strs(seen@).to_set() == named(all.take(i as int + 1)));
            if str_eq(x, label) {
                found = true;
            }
        } else {
            assert(named(all.take(i as int + 1)) == named(pre));
        }
        i = i + 1;
    }
    proof {
        assert(all.take(labels.len() as int) == all);
        strs(seen@).unique_seq_to_set();
    }
    (seen.len(), found)
}

/// The label an observation by `label` is filed under, given the labels
/// already kept (see [`bounded`]).
fn bound_label(labels: &Vec<String>, label: &str, cap: usize) -> (r: String)
    requires
        cap >= 1,
    ensures
        r@ == bounded(strs(labels@), label@, cap as int),
{
    let (count, known) = survey(labels, label);
    if known || count < cap - 1 {
        owned(label)
    } else {
        owned("other")
    }
}

/// The key a store-time observation by `client` on `endpoint` is filed
/// under: the caller keeps its own label while fewer than
/// `MAX_CLIENTS - 1` other callers have one (endpoints do not count against
/// the budget), and is folded into `other` past it.
pub fn client_key(keys: &Vec<(String, String)>, client: &str, endpoint: &str) -> (r: (String, String))
    ensures
        r.0@ == bounded(pair_clients(keys@), client@, MAX_CLIENTS as int),
        r.1@ == endpoint@,
{
    let mut clients: Vec<String> = Vec::new();
    let mut i: usize = 0;
    while i < keys.len()
        invariant
            0 <= i <= keys.len(),
            strs(clients@) == pair_clients(keys@).take(i as int),
        decreases keys.len() - i,
    {
        let ghost prev = clients@;
        assert(pair_clients(keys@).len() == keys@.len());
        assert(pair_clients(keys@).take(i as int).len() == i);
        assert(strs(prev).len() == i);
        assert(prev.len() == i);
        let c = owned(keys[i].0.as_str());
        assert(c@ == keys@[i as int].0@);
        clients.push(c);
        proof {
            assert forall|k: int| 0 <= k < i + 1 implies strs(clients@)[k] == pair_clients(keys@)[k] by {
                if k < i {
                    assert(clients@[k] == prev[k]);
                    assert(strs(prev)[k] == pair_clients(keys@).take(i as int)[k]);
                }
            }
            assert(strs(clients@) =~= pair_clients(keys@).take(i as int + 1));
        }
        i = i + 1;
    }
    proof {
        assert(pair_clients(keys@).take(keys@.len() as int) == pair_clients(keys@));
    }
    (bound_label(&clients, client, MAX_CLIENTS), owned(endpoint))
}

/// The key a request by `client` on work item `task` at `endpoint` is filed
/// under: the caller and the task are each bounded on their own budget
/// (`MAX_CLIENTS` and `MAX_TASKS`, `other` included), so many tasks of one
/// caller never fold the caller, nor many callers a task.
pub fn request_key(keys: &Vec<(String, String, String)>, client: &str, task: &str, endpoint: &str) -> (r: (
    String,
    String,
    String,
))
    ensures
        r.0@ == bounded(triple_clients(keys@), client@, MAX_CLIENTS as int),
        r.1@ == bounded(triple_tasks(keys@), task@, MAX_TASKS as int),
        r.2@ == endpoint@,
{
    let mut clients: Vec<String> = Vec::new();
    let mut tasks: Vec<String> = Vec::new();
    let mut i: usize = 0;
    while i < keys.len()
        invariant
            0 <= i <= keys.len(),
            strs(clients@) == triple_clients(keys@).take(i as int),
            strs(tasks@) == triple_tasks(keys@).take(i as int),
        decreases keys.len() - i,
    {
        let ghost prev_c = clients@;
        let ghost prev_t = tasks@;
        assert(triple_clients(keys@).len() == keys@.len() && triple_tasks(keys@).len() == keys@.len());
        assert(triple_clients(keys@).take(i as int).len() == i && triple_tasks(keys@).take(i as int).len() == i);
        assert(strs(prev_c).len() == i && strs(prev_t).len() == i);
        assert(prev_c.len() == i && prev_t.len() == i);
        let c = owned(keys[i].0.as_str());
        let t = owned(keys[i].1.as_str());
        assert(c@ == keys@[i as int].0@ && t@ == keys@[i as int].1@);
        clients.push(c);
        tasks.push(t);
        proof {
            assert forall|k: int| 0 <= k < i + 1 implies strs(clients@)[k] == triple_clients(keys@)[k] && strs(
                tasks@,
            )[k] == triple_tasks(keys@)[k] by {
                if k < i {
                    assert(clients@[k] == prev_c[k] && tasks@[k] == prev_t[k]);
                    assert(strs(prev_c)[k] == triple_clients(keys@).take(i as int)[k]);
                    assert(strs(prev_t)[k] == triple_tasks(keys@).take(i as int)[k]);
                }
            }
            assert(strs(clients@) =~= triple_clients(keys@).take(i as int + 1));
            assert(strs(tasks@) =~= triple_tasks(keys@).take(i as int + 1));
        }
        i = i + 1;
    }
    proof {
        assert(triple_clients(keys@).take(keys@.len() as int) == triple_clients(keys@));
        assert(triple_tasks(keys@).take(keys@.len() as int) == triple_tasks(keys@));
    }
    (bound_label(&clients, client, MAX_CLIENTS), bound_label(&tasks, task, MAX_TASKS), owned(endpoint))
}

/// The budget holds: filing one more observation keeps at most `cap - 1`
/// distinct labels other than `other`, however many distinct callers
/// arrive, so a caller-controlled header cannot grow the series without
/// bound.
pub proof fn law_label_budget_holds(labels: Seq<Seq<char>>, label: Seq<char>, cap: int)
    requires
        named(labels).len() <= cap - 1,
    ensures
        named(labels.push(bounded(labels, label, cap))).len() <= cap - 1,
{
    let b = bounded(labels, label, cap);
    labels.lemma_push_to_set_commute(b);
    assert(named(labels.push(b)) == named(labels).insert(b).remove("other"@));
    if b == "other"@ {
        assert(named(labels.push(b)) == named(labels));
    } else if named(labels).contains(b) {
        assert(named(labels).insert(b) == named(labels));
        assert(named(labels.push(b)) == named(labels));
    } else {
        assert(named(labels.push(b)) == named(labels).insert(b));
    }
}

/// Folding never drops an observation and never renames it to anything but
/// `other`: a label that already has a series keeps it.
pub proof fn law_known_labels_are_never_folded(labels: Seq<Seq<char>>, label: Seq<char>, cap: int)
    requires
        named(labels).contains(label),
    ensures
        bounded(labels, label, cap) == label,
{
}

/// The exposition form of one character of a label value.
pub open spec fn esc_char(c: char) -> Seq<char> {
    if c == '\\' {
        seq!['\\', '\\']
    } else if c == '"' {
        seq!['\\', '"']
    } else if c == '\n' {
        seq!['\\', 'n']
    } else {
        seq![c]
    }
}

/// A label value escaped for the exposition text: backslash, double quote
/// and line feed written as `\\`, `\"` and `\n`.
pub open spec fn escaped(s: Seq<char>) -> Seq<char>
    decreases s.len(),
{
    if s.len() == 0 {
        Seq::empty()
    } else {
        escaped(s.drop_last()) + esc_char(s.last())
    }
}

/// Escape a label value for the exposition text (see [`escaped`]).
pub fn esc(s: &str) -> (r: String)
    ensures
        r@ == escaped(s@),
{
    let cs = chars_of(s);
    let mut out: Vec<char> = Vec::new();
    let mut i: usize = 0;
    while i < cs.len()
        invariant
            0 <= i <= cs.len(),
            cs@ == s@,
            out@ == escaped(s@.take(i as int)),
        decreases cs.len() - i,
    {
        let c = cs[i];
        proof {
            assert(s@.take(i as int + 1).drop_last() == s@.take(i as int));
        }
        if c == '\\' {
            out.push('\\');
            out.push('\\');
        } else if c == '"' {
            out.push('\\');
            out.push('"');
        } else if c == '\n' {
            out.push('\\');
            out.push('n');
        } else {
            out.push(c);
        }
        proof {
            assert(out@ == escaped(s@.take(i as int)) + esc_char(c));
        }
        i = i + 1;
    }
    proof {
        assert(s@.take(cs.len() as int) == s@);
    }
    string_from_chars(out.as_slice())
}

} // verus!
