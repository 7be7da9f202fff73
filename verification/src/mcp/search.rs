//! Search helpers: recognising a SPARQL query that is nothing but one type
//! constraint, so that it can be pushed down into a filtered vector search.

use vstd::prelude::*;

use crate::metrics::is_space;
use crate::text::{chars_contains, chars_find, chars_of, contains_seq, first_occurrence, occurs_at, owned, push_str, string_from_chars, upper_char};

verus! {

/// The full IRI of `rdf:type`, between spaces, as a type predicate.
pub const RDF_TYPE_PREDICATE: &'static str = " <http://www.w3.org/1999/02/22-rdf-syntax-ns#type> ";

/// `s` with its white space runs collapsed: the state after reading `s` is
/// the text so far and whether a separator is pending.
pub open spec fn collapse_state(s: Seq<char>) -> (Seq<char>, bool)
    decreases s.len(),
{
    if s.len() == 0 {
        (Seq::empty(), false)
    } else {
        let (out, pending) = collapse_state(s.drop_last());
        let c = s.last();
        if is_space(c) {
            (out, out.len() > 0)
        } else if pending {
            (out.push(' ').push(c), false)
        } else {
            (out.push(c), false)
        }
    }
}

/// The words of `s` (its maximal runs without white space) joined by single
/// spaces.
pub open spec fn collapse_ws(s: Seq<char>) -> Seq<char> {
    collapse_state(s).0
}

/// Unicode upper-casing of a text (what `str::to_uppercase` returns).
pub uninterp spec fn upper_text(s: Seq<char>) -> Seq<char>;

/// Every character of `s` is ASCII.
pub open spec fn all_ascii(s: Seq<char>) -> bool {
    forall|i: int| 0 <= i < s.len() ==> (#[trigger] s[i]) <= '\x7f'
}

/// The upper-case form of `s`: on ASCII text, `a`-`z` upper-cased and every
/// other character kept; on other text, what `str::to_uppercase` returns.
pub open spec fn upper_of(s: Seq<char>) -> Seq<char> {
    if all_ascii(s) {
        s.map_values(|c: char| upper_char(c))
    } else {
        upper_text(s)
    }
}

/// The upper-case form of `s` (std's `str::to_uppercase`). A function of
/// `s` alone; on ASCII text it upper-cases `a`-`z` and keeps every other
/// character. Its mapping of other characters is left unsaid.
#[verifier::external_body]
fn to_upper(s: &str) -> (r: String)
    ensures
        r@ == upper_text(s@),
        all_ascii(s@) ==> r@ == s@.map_values(|c: char| upper_char(c)),
{
    s.to_uppercase()
}

/// The IRI between the first `<` and the next `>` after the first
/// occurrence of `pred` in `norm`, if there is one.
pub open spec fn type_iri_after(norm: Seq<char>, pred: Seq<char>) -> Option<Seq<char>> {
    match first_occurrence(norm, pred) {
        None => None,
        Some(pos) => {
            let after = norm.subrange(pos + pred.len(), norm.len() as int);
            match first_occurrence(after, seq!['<']) {
                None => None,
                Some(st) => match first_occurrence(after.subrange(st, after.len() as int), seq!['>']) {
                    None => None,
                    Some(en) => Some(after.subrange(st + 1, st + en)),
                },
            }
        },
    }
}

/// The query names none of UNION, OPTIONAL, FILTER or MINUS (in any case).
pub open spec fn single_pattern(norm: Seq<char>) -> bool {
    let up = upper_of(norm);
    &&& !contains_seq(up, "UNION"@)
    &&& !contains_seq(up, "OPTIONAL"@)
    &&& !contains_seq(up, "FILTER"@)
    &&& !contains_seq(up, "MINUS"@)
}

/// The pushdown filter a SPARQL query reduces to, if it is a single type
/// constraint written with `a` or with the full `rdf:type` IRI.
pub open spec fn type_filter(sparql: Seq<char>) -> Option<Seq<char>> {
    let n = collapse_ws(sparql);
    if !single_pattern(n) {
        None
    } else {
        match type_iri_after(n, " a "@) {
            Some(iri) => Some("entity_type = '"@ + iri + "'"@),
            None => match type_iri_after(n, RDF_TYPE_PREDICATE@) {
                Some(iri) => Some("entity_type = '"@ + iri + "'"@),
                None => None,
            },
        }
    }
}

/// Collapse the white space runs of `s` to single spaces, dropping leading
/// and trailing white space.
fn collapse(s: &[char]) -> (out: Vec<char>)
    ensures
        out@ == collapse_ws(s@),
{
    let mut out: Vec<char> = Vec::new();
    let mut pending = false;
    let mut i: usize = 0;
    while i < s.len()
        invariant
            i <= s@.len(),
            (out@, pending) == collapse_state(s@.take(i as int)),
        decreases s.len() - i,
    {
        proof {
            assert(s@.take(i + 1).drop_last() =~= s@.take(i as int));
        }
        let c = s[i];
        let sp = ('\t' <= c && c <= '\r') || c == ' ' || c == '\u{85}' || c == '\u{a0}' || c == '\u{1680}'
            || ('\u{2000}' <= c && c <= '\u{200a}') || c == '\u{2028}' || c == '\u{2029}' || c == '\u{202f}'
            || c == '\u{205f}' || c == '\u{3000}';
        if sp {
            if out.len() > 0 {
                pending = true;
            }
        } else {
            if pending {
                out.push(' ');
            }
            out.push(c);
            pending = false;
        }
        i = i + 1;
    }
    proof {
        assert(s@.take(s@.len() as int) =~= s@);
    }
    out
}

/// The characters of `v` from `from` up to `to`.
fn slice_of(v: &Vec<char>, from: usize, to: usize) -> (r: Vec<char>)
    requires
        from <= to <= v@.len(),
    ensures
        r@ == v@.subrange(from as int, to as int),
{
    let mut out: Vec<char> = Vec::new();
    let mut k: usize = from;
    while k < to
        invariant
            from <= k <= to <= v@.len(),
            out@ == v@.subrange(from as int, k as int),
        decreases to - k,
    {
        out.push(v[k]);
        k = k + 1;
        proof {
            assert(out@ =~= v@.subrange(from as int, k as int));
        }
    }
    out
}

/// The IRI after the first type predicate `pred` in `norm`, if any.
fn iri_after(norm: &Vec<char>, pred: &str) -> (r: Option<Vec<char>>)
    ensures
        match r {
            Some(v) => type_iri_after(norm@, pred@) == Some(v@),
            None => type_iri_after(norm@, pred@) is None,
        },
{
    let p = chars_of(pred);
    let hay = norm.as_slice();
    let needle = p.as_slice();
    let pos = match chars_find(hay, needle) {
        Some(pos) => pos,
        None => return None,
    };
    let n = norm.len();
    proof {
        assert(crate::text::occurs_at(hay@, needle@, pos as int));
        assert(pos + p@.len() <= n);
    }
    let rest = slice_of(norm, pos + p.len(), n);
    let lt: Vec<char> = vec!['<'];
    let gt: Vec<char> = vec!['>'];
    proof {
        assert(lt@ =~= seq!['<']);
        assert(gt@ =~= seq!['>']);
    }
    let st = match chars_find(rest.as_slice(), lt.as_slice()) {
        Some(st) => st,
        None => return None,
    };
    proof {
        assert(crate::text::occurs_at(rest@, lt@, st as int));
    }
    let tail = slice_of(&rest, st, rest.len());
    let en = match chars_find(tail.as_slice(), gt.as_slice()) {
        Some(en) => en,
        None => return None,
    };
    proof {
        assert(crate::text::occurs_at(tail@, gt@, en as int));
    }
    if en == 0 {
        proof {
            assert(tail@[0] == '<');
            assert(tail@.subrange(0, 1) == seq!['>']);
            assert(tail@.subrange(0, 1)[0] == '>');
        }
        return None;
    }
    let iri = slice_of(&rest, st + 1, st + en);
    Some(iri)
}

/// Reduce a simple SPARQL type query (`SELECT ?s WHERE { ?s a <T> }`, or
/// with the full `rdf:type` IRI) to the pushdown filter `entity_type =
/// '<T>'`; `None` for anything with UNION, OPTIONAL, FILTER or MINUS, or
/// without a type constraint.
pub fn extract_type_filter(sparql: &str) -> (r: Option<String>)
    ensures
        match r {
            Some(f) => type_filter(sparql@) == Some(f@),
            None => type_filter(sparql@) is None,
        },
{
    let cs = chars_of(sparql);
    let norm = collapse(cs.as_slice());
    let norm_text = string_from_chars(norm.as_slice());
    let upper = to_upper(norm_text.as_str());
    let up = chars_of(upper.as_str());
    let simple = !chars_contains(up.as_slice(), chars_of("UNION").as_slice())
        && !chars_contains(up.as_slice(), chars_of("OPTIONAL").as_slice())
        && !chars_contains(up.as_slice(), chars_of("FILTER").as_slice())
        && !chars_contains(up.as_slice(), chars_of("MINUS").as_slice());
    if !simple {
        return None;
    }
    let found = match iri_after(&norm, " a ") {
        Some(iri) => Some(iri),
        None => iri_after(&norm, RDF_TYPE_PREDICATE),
    };
    match found {
        Some(iri) => {
            let mut out = owned("entity_type = '");
            let t = string_from_chars(iri.as_slice());
            push_str(&mut out, t.as_str());
            push_str(&mut out, "'");
            Some(out)
        },
        None => None,
    }
}

/// Law: a query that, upper-cased with its white space collapsed, names
/// UNION, OPTIONAL, FILTER or MINUS anywhere never reduces to a filter: only
/// a single type pattern is pushed down, and dropping any of these would
/// return entities the query excludes or miss ones it includes.
pub proof fn law_compound_queries_are_not_pushed_down(q: Seq<char>, i: int)
    requires
        occurs_at(upper_of(collapse_ws(q)), "UNION"@, i) || occurs_at(upper_of(collapse_ws(q)), "OPTIONAL"@, i)
            || occurs_at(upper_of(collapse_ws(q)), "FILTER"@, i) || occurs_at(upper_of(collapse_ws(q)), "MINUS"@, i),
    ensures
        type_filter(q) is None,
{
}

} // verus!
