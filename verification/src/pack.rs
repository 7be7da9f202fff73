//! Knowledge packs: one graph's current facts, re-interned into a store of
//! their own, with a manifest that names the content by its hash.

use vstd::prelude::*;

use vstd::string::StringSliceAdditionalSpecFns;

use crate::namespace::{XSD_BOOLEAN, XSD_INTEGER, XSD_STRING};
use crate::owl::materialize::obj_ok;
use crate::owl::triple::{graph_triples, read_graph, triples_view, Obj, ObjView, Triple, TripleView};
use crate::owl::materialize::{datum_fact, lemma_extend_refl, lemma_extend_trans, to_datums};
use crate::pack_restore::{debug_quote, debug_text};
use crate::proposal::opt_string;
use crate::owl::triple::triple_of;
use crate::store::{
    datum_known, datums_view, facts_view, index_of_name, put_query, put_shape, select, Datum, Fact, FactView, Op, ParamView, QueryParam, QueryView,
    ShapeView, Store, StoredQuery,
};
use crate::text::{i64_to_string, lemma_seq_lt_irreflexive, lemma_seq_lt_asymmetric, lemma_seq_lt_total, lemma_seq_lt_transitive, owned, push_char, push_str, seq_lt, signed_decimal, str_eq, str_lt};
use crate::value::{Error, Value, ValueView};

verus! {

/// What a pack declares about itself.
#[derive(Debug, Clone, PartialEq, Eq)]
pub struct Manifest {
    /// Format version of the pack itself.
    pub pack_format: String,
    /// Producer-chosen pack name.
    pub name: String,
    /// Producer-chosen version.
    pub version: String,
    /// Term space the pack's ids live in: `0` unless shipped in another one.
    pub term_space: i64,
    /// `sha256:<hex>` over the canonical content.
    pub content_hash: String,
    /// When the pack was produced.
    pub created_at: String,
    /// The graph IRI this pack was cut from.
    pub source_graph: String,
    /// Producer identification, as JSON.
    pub producer: String,
    /// Row counts, as JSON.
    pub counts: String,
}

/// The content of a [`Manifest`].
pub ghost struct ManifestView {
    pub pack_format: Seq<char>,
    pub name: Seq<char>,
    pub version: Seq<char>,
    pub term_space: i64,
    pub content_hash: Seq<char>,
    pub created_at: Seq<char>,
    pub source_graph: Seq<char>,
    pub producer: Seq<char>,
    pub counts: Seq<char>,
}

impl View for Manifest {
    type V = ManifestView;

    open spec fn view(&self) -> ManifestView {
        ManifestView {
            pack_format: self.pack_format@,
            name: self.name@,
            version: self.version@,
            term_space: self.term_space,
            content_hash: self.content_hash@,
            created_at: self.created_at@,
            source_graph: self.source_graph@,
            producer: self.producer@,
            counts: self.counts@,
        }
    }
}

impl Manifest {
    /// A copy with the same content.
    pub fn copy(&self) -> (r: Manifest)
        ensures
            r@ == self@,
    {
        Manifest {
            pack_format: self.pack_format.clone(),
            name: self.name.clone(),
            version: self.version.clone(),
            term_space: self.term_space,
            content_hash: self.content_hash.clone(),
            created_at: self.created_at.clone(),
            source_graph: self.source_graph.clone(),
            producer: self.producer.clone(),
            counts: self.counts.clone(),
        }
    }
}


/// SHA-256 of `bytes`.
pub uninterp spec fn sha256(bytes: Seq<u8>) -> Seq<u8>;

/// Longest input the digest accepts (its bit length must fit 64 bits).
pub open spec fn max_digest_input() -> int {
    0x1fff_ffff_ffff_ffff
}

/// The SHA-256 digest of `bytes` (ring's `digest::digest` with `SHA256`):
/// a function of the bytes alone, 32 bytes long.
#[verifier::external_body]
fn sha256_digest(bytes: &[u8]) -> (r: Vec<u8>)
    requires
        bytes@.len() < max_digest_input(),
    ensures
        r@ == sha256(bytes@),
        r@.len() == 32,
{
    ring::digest::digest(&ring::digest::SHA256, bytes).as_ref().to_vec()
}

/// The lower-case hexadecimal digit of a nibble.
pub open spec fn hex_digit(n: u8) -> char {
    if n == 0 { '0' } else if n == 1 { '1' } else if n == 2 { '2' } else if n == 3 { '3' }
    else if n == 4 { '4' } else if n == 5 { '5' } else if n == 6 { '6' } else if n == 7 { '7' }
    else if n == 8 { '8' } else if n == 9 { '9' } else if n == 10 { 'a' } else if n == 11 { 'b' }
    else if n == 12 { 'c' } else if n == 13 { 'd' } else if n == 14 { 'e' } else { 'f' }
}

/// `bytes` in lower-case hexadecimal, two digits per byte.
pub open spec fn hex_of(bytes: Seq<u8>) -> Seq<char>
    decreases bytes.len(),
{
    if bytes.len() == 0 {
        Seq::empty()
    } else {
        hex_of(bytes.drop_last()) + seq![hex_digit(bytes.last() / 16), hex_digit(bytes.last() % 16)]
    }
}

fn nibble(n: u8) -> (c: char)
    requires
        n < 16,
    ensures
        c == hex_digit(n),
{
    match n {
        0 => '0',
        1 => '1',
        2 => '2',
        3 => '3',
        4 => '4',
        5 => '5',
        6 => '6',
        7 => '7',
        8 => '8',
        9 => '9',
        10 => 'a',
        11 => 'b',
        12 => 'c',
        13 => 'd',
        14 => 'e',
        _ => 'f',
    }
}

/// Lower-case hexadecimal of `bytes`.
pub fn hex_encode(bytes: &[u8]) -> (r: String)
    ensures
        r@ == hex_of(bytes@),
{
    let mut out = String::new();
    let mut i: usize = 0;
    while i < bytes.len()
        invariant
            i <= bytes@.len(),
            out@ == hex_of(bytes@.take(i as int)),
        decreases bytes.len() - i,
    {
        proof {
            assert(bytes@.take(i + 1).drop_last() =~= bytes@.take(i as int));
        }
        let b = bytes[i];
        push_char(&mut out, nibble(b / 16));
        push_char(&mut out, nibble(b % 16));
        i = i + 1;
    }
    proof {
        assert(bytes@.take(bytes@.len() as int) =~= bytes@);
    }
    out
}

/// The content hash of canonical content: `sha256:` and the hexadecimal
/// SHA-256 of its UTF-8 bytes.
pub open spec fn hash_text(canonical: Seq<char>) -> Seq<char> {
    "sha256:"@ + hex_of(sha256(vstd::utf8::encode_utf8(canonical)))
}

/// `sha256:<hex>` over the canonical content.
pub fn content_hash(canonical: &str) -> (r: String)
    requires
        canonical.spec_bytes().len() < max_digest_input(),
    ensures
        r@ == hash_text(canonical@),
{
    let digest = sha256_digest(canonical.as_bytes());
    let mut out = owned("sha256:");
    let hex = hex_encode(digest.as_slice());
    push_str(&mut out, hex.as_str());
    out
}

/// A character that ends a namespace in an IRI.
pub open spec fn is_name_sep(c: char) -> bool {
    c == '#' || c == '/' || c == ':'
}

/// The position just after the last namespace separator of `s` (0 if none).
pub open spec fn after_last_sep(s: Seq<char>) -> int
    decreases s.len(),
{
    if s.len() == 0 {
        0
    } else if is_name_sep(s.last()) {
        s.len() as int
    } else {
        after_last_sep(s.drop_last())
    }
}

/// The local name of an IRI: what follows its last `#`, `/` or `:`, or the
/// whole IRI when that is empty.
pub open spec fn local_name_of(s: Seq<char>) -> Seq<char> {
    let tail = s.subrange(after_last_sep(s), s.len() as int);
    if tail.len() > 0 {
        tail
    } else {
        s
    }
}

proof fn lemma_after_last_sep(s: Seq<char>, i: int)
    requires
        0 <= i <= s.len(),
        forall|k: int| i <= k < s.len() ==> !is_name_sep(#[trigger] s[k]),
    ensures
        after_last_sep(s) == after_last_sep(s.take(i)),
        0 <= after_last_sep(s) <= s.len(),
    decreases s.len() - i,
{
    if i < s.len() {
        assert(s.drop_last().take(i) =~= s.take(i));
        lemma_after_last_sep(s.drop_last(), i);
    } else {
        assert(s.take(i) =~= s);
    }
    lemma_after_last_sep_bound(s);
}

proof fn lemma_after_last_sep_bound(s: Seq<char>)
    ensures
        0 <= after_last_sep(s) <= s.len(),
    decreases s.len(),
{
    if s.len() > 0 {
        lemma_after_last_sep_bound(s.drop_last());
    }
}

/// The local name of an IRI (see [`local_name_of`]).
pub fn local_name(iri: &str) -> (r: String)
    ensures
        r@ == local_name_of(iri@),
{
    let cs = crate::text::chars_of(iri);
    let mut i: usize = cs.len();
    while i > 0 && !(cs[i - 1] == '#' || cs[i - 1] == '/' || cs[i - 1] == ':')
        invariant
            i <= cs@.len(),
            cs@ == iri@,
            forall|k: int| i <= k < cs@.len() ==> !is_name_sep(#[trigger] cs@[k]),
        decreases i,
    {
        i = i - 1;
    }
    proof {
        lemma_after_last_sep(cs@, i as int);
        if i > 0 {
            assert(cs@.take(i as int).last() == cs@[i - 1]);
        } else {
            assert(cs@.take(0) =~= Seq::<char>::empty());
        }
    }
    if i == cs.len() {
        proof {
            assert(iri@.subrange(iri@.len() as int, iri@.len() as int).len() == 0);
        }
        return owned(iri);
    }
    let mut out = String::new();
    let mut k: usize = i;
    while k < cs.len()
        invariant
            i <= k <= cs@.len(),
            out@ == cs@.subrange(i as int, k as int),
        decreases cs.len() - k,
    {
        push_char(&mut out, cs[k]);
        k = k + 1;
        proof {
            assert(out@ =~= cs@.subrange(i as int, k as int));
        }
    }
    out
}

/// The hexadecimal digit of `n` (`0` to `15`), upper case when `upper`.
pub open spec fn hex_char(n: int, upper: bool) -> char {
    if n < 10 {
        ((n + 48) as u32) as char
    } else if upper {
        ((n + 55) as u32) as char
    } else {
        ((n + 87) as u32) as char
    }
}

/// The four hexadecimal digits of `n`, most significant first.
pub open spec fn hex4(n: int, upper: bool) -> Seq<char> {
    seq![hex_char((n / 4096) % 16, upper), hex_char((n / 256) % 16, upper), hex_char((n / 16) % 16, upper), hex_char(n % 16, upper)]
}

/// How an N-Triples string literal writes `c` (oxrdf's `print_quoted_str`):
/// the short escapes, `\uXXXX` (upper-case hex) for the other control
/// characters, DEL and the two non-characters U+FFFE and U+FFFF, and every
/// other character as itself.
pub open spec fn nt_char(c: char) -> Seq<char> {
    if c == '\u{8}' {
        "\\b"@
    } else if c == '\t' {
        "\\t"@
    } else if c == '\n' {
        "\\n"@
    } else if c == '\u{C}' {
        "\\f"@
    } else if c == '\r' {
        "\\r"@
    } else if c == '"' {
        "\\\""@
    } else if c == '\\' {
        "\\\\"@
    } else if (c as u32) <= 0x1F || c == '\u{7F}' || c == '\u{FFFE}' || c == '\u{FFFF}' {
        "\\u"@ + hex4(c as u32 as int, true)
    } else {
        seq![c]
    }
}

/// How a JSON string writes `c` (serde_json's escape table): the short
/// escapes, `\u00xx` (lower-case hex) for the other control characters, and
/// every other character, DEL and non-ASCII included, as itself.
pub open spec fn json_char(c: char) -> Seq<char> {
    if c == '\u{8}' {
        "\\b"@
    } else if c == '\t' {
        "\\t"@
    } else if c == '\n' {
        "\\n"@
    } else if c == '\u{C}' {
        "\\f"@
    } else if c == '\r' {
        "\\r"@
    } else if c == '"' {
        "\\\""@
    } else if c == '\\' {
        "\\\\"@
    } else if (c as u32) <= 0x1F {
        "\\u"@ + hex4(c as u32 as int, false)
    } else {
        seq![c]
    }
}

/// `s` with each character written as N-Triples writes it.
pub open spec fn nt_escaped(s: Seq<char>) -> Seq<char>
    decreases s.len(),
{
    if s.len() == 0 {
        Seq::empty()
    } else {
        nt_escaped(s.drop_last()) + nt_char(s.last())
    }
}

/// `s` with each character written as JSON writes it.
pub open spec fn json_escaped(s: Seq<char>) -> Seq<char>
    decreases s.len(),
{
    if s.len() == 0 {
        Seq::empty()
    } else {
        json_escaped(s.drop_last()) + json_char(s.last())
    }
}

/// The N-Triples form of a simple string literal: quoted and escaped.
pub open spec fn nt_quoted(s: Seq<char>) -> Seq<char> {
    seq!['"'] + nt_escaped(s) + seq!['"']
}

/// Text of characters written as themselves is unchanged by escaping.
pub proof fn lemma_plain_is_unescaped(s: Seq<char>)
    requires
        forall|i: int| 0 <= i < s.len() ==> nt_plain(#[trigger] s[i]),
    ensures
        nt_escaped(s) == s,
        json_escaped(s) == s,
    decreases s.len(),
{
    if s.len() > 0 {
        assert forall|i: int| 0 <= i < s.drop_last().len() implies nt_plain(#[trigger] s.drop_last()[i]) by {
            assert(s.drop_last()[i] == s[i]);
        }
        lemma_plain_is_unescaped(s.drop_last());
        assert(nt_plain(s[s.len() - 1]));
        assert(s.drop_last().push(s.last()) =~= s);
    }
}

/// A character an N-Triples string literal writes as itself.
pub open spec fn nt_plain(c: char) -> bool {
    ' ' <= c <= '~' && c != '"' && c != '\\'
}

/// The N-Triples form of a simple literal with lexical form `s` (oxrdf's
/// `Display` for `LiteralRef::new_simple_literal`, which is
/// `print_quoted_str`): `s` between double quotes, each character escaped
/// as [`nt_char`] says.
#[verifier::external_body]
fn quote_literal(s: &str) -> (r: String)
    ensures
        r@ == nt_quoted(s@),
{
    oxrdf::LiteralRef::new_simple_literal(s).to_string()
}

/// The N-Triples form of an IRI.
pub open spec fn nt_iri(s: Seq<char>) -> Seq<char> {
    "<"@ + s + ">"@
}

/// The N-Triples form of a triple's object.
pub open spec fn nt_object(o: ObjView) -> Seq<char> {
    match o {
        ObjView::Iri(x) => nt_iri(x),
        ObjView::Lit(ValueView::Str(x)) => nt_quoted(x),
        ObjView::Lit(ValueView::Int(n)) => nt_quoted(signed_decimal(n as int)) + "^^<"@ + XSD_INTEGER@ + ">"@,
        ObjView::Lit(ValueView::Bool(b)) => nt_quoted(if b { "true"@ } else { "false"@ }) + "^^<"@ + XSD_BOOLEAN@ + ">"@,
        ObjView::Lit(ValueView::Typed(lex, dt)) => if dt == XSD_STRING@ {
            nt_quoted(lex)
        } else {
            nt_quoted(lex) + "^^<"@ + dt + ">"@
        },
        ObjView::Lit(ValueView::Ref(_)) => Seq::empty(),
    }
}

/// The N-Triples line of a triple.
pub open spec fn nt_line(t: TripleView) -> Seq<char> {
    "<"@ + t.0 + "> <"@ + t.1 + "> "@ + nt_object(t.2) + " ."@
}

/// The N-Triples form of a well-formed object.
fn object_text(o: &Obj) -> (r: String)
    requires
        obj_ok(o@),
    ensures
        r@ == nt_object(o@),
{
    match o {
        Obj::Iri(x) => {
            let mut out = owned("<");
            push_str(&mut out, x.as_str());
            push_str(&mut out, ">");
            out
        },
        Obj::Lit(Value::Str(x)) => quote_literal(x.as_str()),
        Obj::Lit(Value::Int(n)) => {
            let d = i64_to_string(*n);
            let mut out = quote_literal(d.as_str());
            push_str(&mut out, "^^<");
            push_str(&mut out, XSD_INTEGER);
            push_str(&mut out, ">");
            proof {
                assert(out@ =~= nt_quoted(d@) + "^^<"@ + XSD_INTEGER@ + ">"@);
            }
            out
        },
        Obj::Lit(Value::Bool(b)) => {
            let mut out = quote_literal(if *b { "true" } else { "false" });
            push_str(&mut out, "^^<");
            push_str(&mut out, XSD_BOOLEAN);
            push_str(&mut out, ">");
            proof {
                assert(out@ =~= nt_quoted(if *b { "true"@ } else { "false"@ }) + "^^<"@ + XSD_BOOLEAN@ + ">"@);
            }
            out
        },
        Obj::Lit(Value::Typed { lexical, datatype }) => {
            let mut out = quote_literal(lexical.as_str());
            if !str_eq(datatype.as_str(), XSD_STRING) {
                push_str(&mut out, "^^<");
                push_str(&mut out, datatype.as_str());
                push_str(&mut out, ">");
                proof {
                    assert(out@ =~= nt_quoted(lexical@) + "^^<"@ + datatype@ + ">"@);
                }
            }
            out
        },
        Obj::Lit(Value::Ref(_)) => {
            assert(false);
            String::new()
        },
    }
}

/// The N-Triples line of a triple with a well-formed object.
fn triple_line(t: &Triple) -> (r: String)
    requires
        obj_ok(t@.2),
    ensures
        r@ == nt_line(t@),
{
    let o = object_text(&t.object);
    let mut out = owned("<");
    push_str(&mut out, t.subject.as_str());
    push_str(&mut out, "> <");
    push_str(&mut out, t.predicate.as_str());
    push_str(&mut out, "> ");
    push_str(&mut out, o.as_str());
    push_str(&mut out, " .");
    proof {
        assert(out@ =~= "<"@ + t.subject@ + "> <"@ + t.predicate@ + "> "@ + nt_object(t.object@) + " ."@);
    }
    out
}

/// `x` inserted into `s` before the first line it sorts before, unless `s`
/// already holds it at that point.
pub open spec fn insert_line(x: Seq<char>, s: Seq<Seq<char>>) -> Seq<Seq<char>>
    decreases s.len(),
{
    if s.len() == 0 {
        seq![x]
    } else if x == s[0] {
        s
    } else if seq_lt(x, s[0]) {
        seq![x] + s
    } else {
        seq![s[0]] + insert_line(x, s.drop_first())
    }
}

/// The distinct lines of `xs`, in lexical order.
pub open spec fn sorted_distinct(xs: Seq<Seq<char>>) -> Seq<Seq<char>>
    decreases xs.len(),
{
    if xs.len() == 0 {
        Seq::empty()
    } else {
        insert_line(xs.last(), sorted_distinct(xs.drop_last()))
    }
}

/// Each line of `lines` followed by a line break.
pub open spec fn joined(lines: Seq<Seq<char>>) -> Seq<char>
    decreases lines.len(),
{
    if lines.len() == 0 {
        Seq::empty()
    } else {
        joined(lines.drop_last()) + lines.last() + "\n"@
    }
}

/// The canonical content of a pack whose triples have the N-Triples lines
/// `lines`, whose shape graphs read `shapes` and whose stored queries read
/// `queries` (and which carries no labels).
pub open spec fn canonical_text(lines: Seq<Seq<char>>, shapes: Seq<char>, queries: Seq<char>) -> Seq<char> {
    "# quipu-pack-content v1\n## triples\n"@ + joined(sorted_distinct(lines)) + "## shapes\n"@ + shapes
        + "## queries\n"@ + queries + "## labels\n"@
}

/// A shape graph as the canonical content carries it.
pub open spec fn shape_block(name: Seq<char>, turtle: Seq<char>) -> Seq<char> {
    "### "@ + name + "\n"@ + turtle + "\n"@
}

/// A boolean as it is displayed.
pub open spec fn bool_text(b: bool) -> Seq<char> {
    if b {
        "true"@
    } else {
        "false"@
    }
}

/// A query parameter as the canonical content carries it: name, kind,
/// whether it is required, and its default (`-` for none).
pub open spec fn param_line(p: ParamView) -> Seq<char> {
    "param "@ + p.0 + " "@ + p.1 + " "@ + bool_text(p.2) + " "@ + match p.3 {
        Some(d) => d,
        None => "-"@,
    } + "\n"@
}

/// The parameter lines of `ps`, in order.
pub open spec fn params_text(ps: Seq<ParamView>) -> Seq<char>
    decreases ps.len(),
{
    if ps.len() == 0 {
        Seq::empty()
    } else {
        params_text(ps.drop_last()) + param_line(ps.last())
    }
}

/// A stored query as the canonical content carries it, field by field.
pub open spec fn query_block(q: QueryView) -> Seq<char> {
    "### "@ + q.0 + "\n"@ + q.1 + "\n"@ + q.2 + "\n"@ + match q.3 {
        Some(ds) => "dataset="@ + ds + "\n"@,
        None => Seq::empty(),
    } + params_text(q.4)
}

/// The names of a store's shape graphs.
pub open spec fn shape_names(shapes: Seq<ShapeView>) -> Seq<Seq<char>> {
    shapes.map_values(|e: ShapeView| e.0)
}

/// The names of a store's stored queries.
pub open spec fn query_names(queries: Seq<QueryView>) -> Seq<Seq<char>> {
    queries.map_values(|e: QueryView| e.0)
}

/// The shape graphs named `names`, in that order, as the canonical content
/// carries them.
pub open spec fn shapes_section(shapes: Seq<ShapeView>, names: Seq<Seq<char>>) -> Seq<char>
    decreases names.len(),
{
    if names.len() == 0 {
        Seq::empty()
    } else {
        shapes_section(shapes, names.drop_last()) + match index_of_name(shape_names(shapes), names.last()) {
            Some(i) => shape_block(names.last(), shapes[i].1),
            None => Seq::empty(),
        }
    }
}

/// The stored queries named `names`, in that order, as the canonical content
/// carries them.
pub open spec fn queries_section(queries: Seq<QueryView>, names: Seq<Seq<char>>) -> Seq<char>
    decreases names.len(),
{
    if names.len() == 0 {
        Seq::empty()
    } else {
        queries_section(queries, names.drop_last()) + match index_of_name(query_names(queries), names.last()) {
            Some(i) => query_block(queries[i]),
            None => Seq::empty(),
        }
    }
}

/// The first of `names` that is not among `present`.
pub open spec fn missing_name(present: Seq<Seq<char>>, names: Seq<Seq<char>>) -> Option<Seq<char>>
    decreases names.len(),
{
    if names.len() == 0 {
        None
    } else {
        match missing_name(present, names.drop_last()) {
            Some(n) => Some(n),
            None => if index_of_name(present, names.last()) is None {
                Some(names.last())
            } else {
                None
            },
        }
    }
}

/// The canonical content of graph `g` of `s` carrying the shape graphs
/// named `shapes` and the stored queries named `queries`.
pub open spec fn named_canonical(s: &Store, g: i64, shapes: Seq<Seq<char>>, queries: Seq<Seq<char>>) -> Seq<char> {
    canonical_text(graph_lines(s, g), shapes_section(s.catalog().0, shapes), queries_section(s.catalog().1, queries))
}

/// The N-Triples lines of the live facts of graph `g` of `s`.
pub open spec fn graph_lines(s: &Store, g: i64) -> Seq<Seq<char>> {
    graph_triples(s, g).map_values(|t: TripleView| nt_line(t))
}

/// The contents of a list of strings.
pub open spec fn lines_view(v: Seq<String>) -> Seq<Seq<char>> {
    v.map_values(|x: String| x@)
}

proof fn lemma_insert_line_at(x: Seq<char>, s: Seq<Seq<char>>, j: int)
    requires
        0 <= j <= s.len(),
        forall|k: int| 0 <= k < j ==> seq_lt(#[trigger] s[k], x),
        j < s.len() ==> (s[j] == x || seq_lt(x, s[j])),
    ensures
        j < s.len() && s[j] == x ==> insert_line(x, s) == s,
        !(j < s.len() && s[j] == x) ==> insert_line(x, s) == s.insert(j, x),
    decreases j,
{
    if j == 0 {
        if s.len() == 0 {
            assert(s.insert(0, x) =~= seq![x]);
        } else if s[0] != x {
            assert(s.insert(0, x) =~= seq![x] + s);
        }
    } else {
        let t = s.drop_first();
        assert(seq_lt(s[0], x));
        lemma_seq_lt_irreflexive(x);
        lemma_seq_lt_asymmetric(s[0], x);
        assert forall|k: int| 0 <= k < j - 1 implies seq_lt(#[trigger] t[k], x) by {
            assert(t[k] == s[k + 1]);
        }
        if j < s.len() {
            assert(t[j - 1] == s[j]);
        }
        lemma_insert_line_at(x, t, j - 1);
        if !(j < s.len() && s[j] == x) {
            assert(seq![s[0]] + t.insert(j - 1, x) =~= s.insert(j, x));
        } else {
            assert(seq![s[0]] + t =~= s);
        }
    }
}

/// The distinct lines of `lines`, in lexical order.
fn sort_distinct(lines: &Vec<String>) -> (out: Vec<String>)
    ensures
        lines_view(out@) == sorted_distinct(lines_view(lines@)),
{
    let mut out: Vec<String> = Vec::new();
    let mut i: usize = 0;
    while i < lines.len()
        invariant
            i <= lines@.len(),
            lines_view(out@) == sorted_distinct(lines_view(lines@).take(i as int)),
        decreases lines.len() - i,
    {
        let x = &lines[i];
        let ghost cur = lines_view(out@);
        let mut j: usize = 0;
        while j < out.len() && str_lt(out[j].as_str(), x.as_str())
            invariant
                j <= out@.len(),
                cur == lines_view(out@),
                forall|k: int| 0 <= k < j ==> seq_lt(#[trigger] cur[k], x@),
            decreases out.len() - j,
        {
            proof {
                assert(cur[j as int] == out@[j as int]@);
            }
            j = j + 1;
        }
        proof {
            assert(lines_view(lines@).take(i + 1).drop_last() =~= lines_view(lines@).take(i as int));
            assert(lines_view(lines@).take(i + 1).last() == x@);
            if j < cur.len() {
                assert(cur[j as int] == out@[j as int]@);
                if cur[j as int] != x@ {
                    lemma_seq_lt_total(cur[j as int], x@);
                }
            }
        }
        let dup = j < out.len() && str_eq(out[j].as_str(), x.as_str());
        proof {
            lemma_insert_line_at(x@, cur, j as int);
        }
        if !dup {
            out.insert(j, x.clone());
            proof {
                assert(lines_view(out@) =~= cur.insert(j as int, x@));
            }
        }
        i = i + 1;
    }
    proof {
        assert(lines_view(lines@).take(lines@.len() as int) =~= lines_view(lines@));
    }
    out
}

/// The distinct N-Triples lines of the live facts of graph `g`, in lexical
/// order.
fn sorted_graph_lines(store: &Store, g: i64) -> (out: Vec<String>)
    requires
        store.wf(),
    ensures
        lines_view(out@) == sorted_distinct(graph_lines(store, g)),
{
    let triples = read_graph(store, g);
    let ghost tv = triples_view(triples@);
    proof {
        assert forall|i: int| 0 <= i < tv.len() implies obj_ok((#[trigger] tv[i]).2) by {
            assert(tv[i] == crate::owl::triple::triple_of(store, crate::store::select(store.rows(), seq![g], None)[i]));
        }
    }
    let mut lines: Vec<String> = Vec::new();
    let mut i: usize = 0;
    while i < triples.len()
        invariant
            i <= triples@.len(),
            tv == triples_view(triples@),
            forall|k: int| 0 <= k < tv.len() ==> obj_ok((#[trigger] tv[k]).2),
            lines_view(lines@) == tv.take(i as int).map_values(|t: TripleView| nt_line(t)),
        decreases triples.len() - i,
    {
        proof {
            assert(tv[i as int] == triples@[i as int]@);
        }
        let line = triple_line(&triples[i]);
        let ghost before = lines_view(lines@);
        lines.push(line);
        proof {
            assert(lines_view(lines@) =~= before.push(nt_line(tv[i as int])));
            assert(tv.take(i + 1).map_values(|t: TripleView| nt_line(t)) =~= tv.take(i as int).map_values(
                |t: TripleView| nt_line(t),
            ).push(nt_line(tv[i as int])));
        }
        i = i + 1;
    }
    proof {
        assert(tv.take(tv.len() as int) =~= tv);
    }
    sort_distinct(&lines)
}

/// Append each line of `lines` to `out`, each followed by a line break.
fn push_lines(out: &mut String, lines: &Vec<String>)
    ensures
        final(out)@ == old(out)@ + joined(lines_view(lines@)),
{
    let ghost sv = lines_view(lines@);
    let ghost head = out@;
    let mut k: usize = 0;
    while k < lines.len()
        invariant
            k <= lines@.len(),
            sv == lines_view(lines@),
            out@ == head + joined(sv.take(k as int)),
        decreases lines.len() - k,
    {
        proof {
            assert(sv.take(k + 1).drop_last() =~= sv.take(k as int));
            assert(sv[k as int] == lines@[k as int]@);
        }
        push_str(out, lines[k].as_str());
        push_str(out, "\n");
        k = k + 1;
    }
    proof {
        assert(sv.take(sv.len() as int) =~= sv);
    }
}

/// Why naming the shape graphs `shapes` and the stored queries `queries` of
/// `store` is refused, if it is: the first name that `store` does not keep,
/// shapes before queries.
pub open spec fn names_refusal(store: &Store, shapes: Seq<Seq<char>>, queries: Seq<Seq<char>>) -> Option<Seq<char>> {
    match missing_name(shape_names(store.catalog().0), shapes) {
        Some(n) => Some("pack: no such shape graph: "@ + n),
        None => match missing_name(query_names(store.catalog().1), queries) {
            Some(n) => Some("pack: no such stored query: "@ + n),
            None => None,
        },
    }
}

/// A name found missing in a prefix of a list is the first missing in the
/// whole list.
proof fn lemma_missing_prefix(present: Seq<Seq<char>>, names: Seq<Seq<char>>, j: int)
    requires
        0 <= j <= names.len(),
        missing_name(present, names.take(j)) is Some,
    ensures
        missing_name(present, names) == missing_name(present, names.take(j)),
    decreases names.len(),
{
    if j < names.len() {
        assert(names.drop_last().take(j) =~= names.take(j));
        lemma_missing_prefix(present, names.drop_last(), j);
    } else {
        assert(names.take(j) =~= names);
    }
}

/// Append the shape graphs named `names` to `out`, refusing the first name
/// `store` does not keep.
fn push_shapes(store: &Store, names: &[String], out: &mut String) -> (r: Result<(), Error>)
    ensures
        missing_name(shape_names(store.catalog().0), lines_view(names@)) matches Some(n) ==> (r matches Err(e)
            && e is InvalidValue && e.text() == "pack: no such shape graph: "@ + n),
        missing_name(shape_names(store.catalog().0), lines_view(names@)) is None ==> (r is Ok && final(out)@ == old(
            out,
        )@ + shapes_section(store.catalog().0, lines_view(names@))),
{
    let ghost nv = lines_view(names@);
    let ghost present = shape_names(store.catalog().0);
    let ghost head = out@;
    let mut k: usize = 0;
    while k < names.len()
        invariant
            k <= names@.len(),
            nv == lines_view(names@),
            present == shape_names(store.catalog().0),
            missing_name(present, nv.take(k as int)) is None,
            out@ == head + shapes_section(store.catalog().0, nv.take(k as int)),
        decreases names.len() - k,
    {
        proof {
            assert(nv.take(k + 1).drop_last() =~= nv.take(k as int));
            assert(nv[k as int] == names@[k as int]@);
        }
        match store.shape_get(names[k].as_str()) {
            Some(t) => {
                push_str(out, "### ");
                push_str(out, names[k].as_str());
                push_str(out, "\n");
                push_str(out, t.as_str());
                push_str(out, "\n");
            },
            None => {
                proof {
                    lemma_missing_prefix(present, nv, k + 1);
                }
                let mut msg = owned("pack: no such shape graph: ");
                push_str(&mut msg, names[k].as_str());
                return Err(Error::InvalidValue(msg));
            },
        }
        k = k + 1;
    }
    proof {
        assert(nv.take(nv.len() as int) =~= nv);
    }
    Ok(())
}

/// The canonical line of a query parameter.
fn param_text(p: &QueryParam) -> (r: String)
    ensures
        r@ == param_line(p@),
{
    let mut out = owned("param ");
    push_str(&mut out, p.name.as_str());
    push_str(&mut out, " ");
    push_str(&mut out, p.kind.as_str());
    push_str(&mut out, " ");
    if p.required {
        push_str(&mut out, "true");
    } else {
        push_str(&mut out, "false");
    }
    push_str(&mut out, " ");
    match &p.default {
        Some(d) => push_str(&mut out, d.as_str()),
        None => push_str(&mut out, "-"),
    }
    push_str(&mut out, "\n");
    proof {
        assert(out@ =~= param_line(p@));
    }
    out
}

/// The canonical text of a stored query.
fn query_text(q: &StoredQuery) -> (r: String)
    ensures
        r@ == query_block(q@),
{
    let mut out = owned("### ");
    push_str(&mut out, q.name.as_str());
    push_str(&mut out, "\n");
    push_str(&mut out, q.description.as_str());
    push_str(&mut out, "\n");
    push_str(&mut out, q.template.as_str());
    push_str(&mut out, "\n");
    match &q.dataset {
        Some(ds) => {
            push_str(&mut out, "dataset=");
            push_str(&mut out, ds.as_str());
            push_str(&mut out, "\n");
        },
        None => {},
    }
    let ghost head = out@;
    let ghost pv = q.params@.map_values(|p: QueryParam| p@);
    let mut k: usize = 0;
    while k < q.params.len()
        invariant
            k <= q.params@.len(),
            pv == q.params@.map_values(|p: QueryParam| p@),
            out@ == head + params_text(pv.take(k as int)),
        decreases q.params.len() - k,
    {
        proof {
            assert(pv.take(k + 1).drop_last() =~= pv.take(k as int));
        }
        let line = param_text(&q.params[k]);
        push_str(&mut out, line.as_str());
        k = k + 1;
    }
    proof {
        assert(pv.take(pv.len() as int) =~= pv);
        assert(out@ =~= query_block(q@));
    }
    out
}

/// Append the stored queries named `names` to `out`, refusing the first name
/// `store` does not keep.
fn push_queries(store: &Store, names: &[String], out: &mut String) -> (r: Result<(), Error>)
    ensures
        missing_name(query_names(store.catalog().1), lines_view(names@)) matches Some(n) ==> (r matches Err(e)
            && e is InvalidValue && e.text() == "pack: no such stored query: "@ + n),
        missing_name(query_names(store.catalog().1), lines_view(names@)) is None ==> (r is Ok && final(out)@ == old(
            out,
        )@ + queries_section(store.catalog().1, lines_view(names@))),
{
    let ghost nv = lines_view(names@);
    let ghost present = query_names(store.catalog().1);
    let ghost head = out@;
    let mut k: usize = 0;
    while k < names.len()
        invariant
            k <= names@.len(),
            nv == lines_view(names@),
            present == query_names(store.catalog().1),
            missing_name(present, nv.take(k as int)) is None,
            out@ == head + queries_section(store.catalog().1, nv.take(k as int)),
        decreases names.len() - k,
    {
        proof {
            assert(nv.take(k + 1).drop_last() =~= nv.take(k as int));
            assert(nv[k as int] == names@[k as int]@);
        }
        match store.query_get(names[k].as_str()) {
            Some(q) => {
                let t = query_text(&q);
                push_str(out, t.as_str());
            },
            None => {
                proof {
                    lemma_missing_prefix(present, nv, k + 1);
                }
                let mut msg = owned("pack: no such stored query: ");
                push_str(&mut msg, names[k].as_str());
                return Err(Error::InvalidValue(msg));
            },
        }
        k = k + 1;
    }
    proof {
        assert(nv.take(nv.len() as int) =~= nv);
    }
    Ok(())
}

/// The canonical content of graph `graph_iri` of `store`: its live facts as
/// lexically sorted, distinct N-Triples lines, then the shape graphs named
/// `shapes` and the stored queries named `queries`, each section under its
/// marker line, and the graph's labels (none).
pub fn canonical_content(store: &Store, graph_iri: &str, shapes: &[String], queries: &[String]) -> (r: Result<
    String,
    Error,
>)
    requires
        store.wf(),
    ensures
        store.id_of(graph_iri@) is None ==> (r matches Err(e) && e is InvalidValue && e.text() == "unknown graph: "@
            + graph_iri@),
        store.id_of(graph_iri@) is Some ==> match names_refusal(store, lines_view(shapes@), lines_view(queries@)) {
            Some(msg) => r matches Err(e) && e is InvalidValue && e.text() == msg,
            None => r matches Ok(text) && text@ == named_canonical(
                store,
                store.id_of(graph_iri@)->0,
                lines_view(shapes@),
                lines_view(queries@),
            ),
        },
{
    let g = match store.lookup(graph_iri) {
        Some(g) => g,
        None => {
            let mut msg = owned("unknown graph: ");
            push_str(&mut msg, graph_iri);
            return Err(Error::InvalidValue(msg));
        },
    };
    let sorted = sorted_graph_lines(store, g);
    let mut out = owned("# quipu-pack-content v1\n## triples\n");
    push_lines(&mut out, &sorted);
    push_str(&mut out, "## shapes\n");
    push_shapes(store, shapes, &mut out)?;
    push_str(&mut out, "## queries\n");
    push_queries(store, queries, &mut out)?;
    push_str(&mut out, "## labels\n");
    proof {
        assert(out@ =~= named_canonical(store, g, lines_view(shapes@), lines_view(queries@)));
    }
    Ok(out)
}

/// The refusal of a term space for a Turtle bundle.
pub const TURTLE_SPACE_REFUSAL: &'static str = "pack --space does not apply to --format turtle: a bundle carries IRIs, not term ids, so there is no term space to allocate from.";

/// The pack format of a Turtle interop bundle.
pub const TURTLE_PACK_FORMAT: &'static str = "1-turtle";

/// The producer record of a Turtle bundle (keys sorted).
pub open spec fn turtle_producer_json() -> Seq<char> {
    "{\"tool\":\"quipu pack --format turtle\",\"version\":"@ + json_quoted(PRODUCER_VERSION@) + "}"@
}

/// The row counts of a Turtle bundle carrying `facts` facts, `shapes` named
/// shape graphs and `queries` named stored queries (and no embeddings).
pub open spec fn turtle_counts_json(facts: nat, shapes: nat, queries: nat) -> Seq<char> {
    "{\"embedding_dimension\":null,\"embedding_model\":null,\"facts\":"@ + crate::text::decimal(facts)
        + ",\"queries\":"@ + crate::text::decimal(queries) + ",\"shapes\":"@ + crate::text::decimal(shapes) + "}"@
}

/// Why exporting graph `graph` of `store` as a Turtle bundle with `opts` is
/// refused, if it is (checked in this order).
pub open spec fn turtle_refusal(store: &Store, graph: Seq<char>, opts: PackOptions) -> Option<Seq<char>> {
    if store.id_of(graph) is None {
        Some("pack: unknown graph: "@ + graph)
    } else if (match opts.space {
        Some(s) => s != 0,
        None => false,
    }) {
        Some(TURTLE_SPACE_REFUSAL@)
    } else {
        names_refusal(store, lines_view(opts.shapes@), lines_view(opts.queries@))
    }
}

/// The manifest of a Turtle bundle of graph `graph` built with `opts` at
/// `ts`, whose canonical content is `canonical` and which carries `facts`
/// facts: the same content hash as a store pack of the same graph.
pub open spec fn turtle_manifest(
    opts: PackOptions,
    graph: Seq<char>,
    canonical: Seq<char>,
    ts: Seq<char>,
    facts: nat,
) -> ManifestView {
    ManifestView {
        pack_format: TURTLE_PACK_FORMAT@,
        name: match opts.name {
            Some(n) => n@,
            None => local_name_of(graph),
        },
        version: match opts.version {
            Some(v) => v@,
            None => "0.1.0"@,
        },
        term_space: 0,
        content_hash: hash_text(canonical),
        created_at: ts,
        source_graph: graph,
        producer: turtle_producer_json(),
        counts: turtle_counts_json(facts, opts.shapes@.len(), opts.queries@.len()),
    }
}

/// One graph, one identity: a store pack and a Turtle bundle of the same
/// graph content carry the same content hash, because both hash the
/// canonical content rather than the bytes they ship.
pub proof fn law_both_formats_agree_on_the_content_hash(
    opts: PackOptions,
    graph: Seq<char>,
    canonical: Seq<char>,
    ts: Seq<char>,
    facts: nat,
)
    ensures
        expected_manifest(opts, graph, canonical, ts, facts).content_hash == turtle_manifest(
            opts,
            graph,
            canonical,
            ts,
            facts,
        ).content_hash,
        expected_manifest(opts, graph, canonical, ts, facts).source_graph == turtle_manifest(
            opts,
            graph,
            canonical,
            ts,
            facts,
        ).source_graph,
{
}

/// An interop bundle of one graph: the graph as Turtle text (its distinct
/// N-Triples lines, sorted, which Turtle reads as they are) and the
/// manifest. A bundle carries IRIs, never term ids; there is no way back
/// from it into a store.
pub struct TurtleBundle {
    pub graph_ttl: String,
    /// The named shape graphs, each under a `# --- name ---` comment line.
    pub shapes_ttl: String,
    /// The named stored queries, in the order named.
    pub queries: Vec<StoredQuery>,
    pub manifest: Manifest,
}

/// The shape graphs of `shapes` named `names`, as a bundle's `shapes.ttl`
/// carries them.
pub open spec fn shapes_ttl_text(shapes: Seq<ShapeView>, names: Seq<Seq<char>>) -> Seq<char>
    decreases names.len(),
{
    if names.len() == 0 {
        Seq::empty()
    } else {
        shapes_ttl_text(shapes, names.drop_last()) + match index_of_name(shape_names(shapes), names.last()) {
            Some(i) => "# --- "@ + names.last() + " ---\n"@ + shapes[i].1 + "\n\n"@,
            None => Seq::empty(),
        }
    }
}

/// The stored queries of `queries` named `names`, in that order.
pub open spec fn selected_queries(queries: Seq<QueryView>, names: Seq<Seq<char>>) -> Seq<QueryView>
    decreases names.len(),
{
    if names.len() == 0 {
        Seq::empty()
    } else {
        selected_queries(queries, names.drop_last()) + match index_of_name(query_names(queries), names.last()) {
            Some(i) => seq![queries[i]],
            None => Seq::empty(),
        }
    }
}

/// The `shapes.ttl` text of the shape graphs of `store` named `names`.
fn shapes_ttl(store: &Store, names: &Vec<String>) -> (r: String)
    ensures
        r@ == shapes_ttl_text(store.catalog().0, lines_view(names@)),
{
    let ghost nv = lines_view(names@);
    let mut out = String::new();
    let mut k: usize = 0;
    while k < names.len()
        invariant
            k <= names@.len(),
            nv == lines_view(names@),
            out@ == shapes_ttl_text(store.catalog().0, nv.take(k as int)),
        decreases names.len() - k,
    {
        proof {
            assert(nv.take(k + 1).drop_last() =~= nv.take(k as int));
            assert(nv[k as int] == names@[k as int]@);
        }
        match store.shape_get(names[k].as_str()) {
            Some(t) => {
                push_str(&mut out, "# --- ");
                push_str(&mut out, names[k].as_str());
                push_str(&mut out, " ---\n");
                push_str(&mut out, t.as_str());
                push_str(&mut out, "\n\n");
            },
            None => {},
        }
        k = k + 1;
    }
    proof {
        assert(nv.take(nv.len() as int) =~= nv);
    }
    out
}

/// The stored queries of `store` named `names`, in that order.
fn named_queries(store: &Store, names: &Vec<String>) -> (r: Vec<StoredQuery>)
    ensures
        r@.map_values(|q: StoredQuery| q@) == selected_queries(store.catalog().1, lines_view(names@)),
{
    let ghost nv = lines_view(names@);
    let mut out: Vec<StoredQuery> = Vec::new();
    let mut k: usize = 0;
    while k < names.len()
        invariant
            k <= names@.len(),
            nv == lines_view(names@),
            out@.map_values(|q: StoredQuery| q@) == selected_queries(store.catalog().1, nv.take(k as int)),
        decreases names.len() - k,
    {
        proof {
            assert(nv.take(k + 1).drop_last() =~= nv.take(k as int));
            assert(nv[k as int] == names@[k as int]@);
        }
        match store.query_get(names[k].as_str()) {
            Some(q) => {
                let ghost prev = out@;
                out.push(q);
                proof {
                    assert(out@.map_values(|q: StoredQuery| q@) =~= prev.map_values(|q: StoredQuery| q@) + seq![
                        q@,
                    ]);
                }
            },
            None => {},
        }
        k = k + 1;
    }
    proof {
        assert(nv.take(nv.len() as int) =~= nv);
    }
    out
}

/// Build the Turtle interop bundle of graph `graph_iri` of `store`.
pub fn turtle_bundle(store: &Store, graph_iri: &str, opts: &PackOptions, timestamp: &str) -> (r: Result<
    TurtleBundle,
    Error,
>)
    requires
        store.wf(),
    ensures
        turtle_refusal(store, graph_iri@, *opts) matches Some(msg) ==> (r matches Err(e) && e is InvalidValue
            && e.text() == msg),
        turtle_refusal(store, graph_iri@, *opts) is None ==> {
            let g = store.id_of(graph_iri@)->0;
            let canonical = pack_canonical(store, g, *opts);
            &&& hashable(canonical) ==> (r matches Ok(b) && b.graph_ttl@ == joined(
                sorted_distinct(graph_lines(store, g)),
            ) && b.shapes_ttl@ == shapes_ttl_text(store.catalog().0, lines_view(opts.shapes@))
                && b.queries@.map_values(|q: StoredQuery| q@) == selected_queries(
                store.catalog().1,
                lines_view(opts.queries@),
            ) && b.manifest@ == turtle_manifest(
                *opts,
                graph_iri@,
                canonical,
                timestamp@,
                graph_triples(store, g).len(),
            ))
            &&& !hashable(canonical) ==> (r matches Err(e) && e is InvalidValue && e.text() == TOO_LARGE@)
        },
{
    let g = match store.lookup(graph_iri) {
        Some(g) => g,
        None => {
            let mut msg = owned("pack: unknown graph: ");
            push_str(&mut msg, graph_iri);
            return Err(Error::InvalidValue(msg));
        },
    };
    let space_set = match opts.space {
        Some(s) => s != 0,
        None => false,
    };
    if space_set {
        return Err(Error::InvalidValue(owned(TURTLE_SPACE_REFUSAL)));
    }
    let canonical = canonical_content(store, graph_iri, opts.shapes.as_slice(), opts.queries.as_slice())?;
    let hash = hash_of_text(&canonical)?;
    let sorted = sorted_graph_lines(store, g);
    let mut graph_ttl = String::new();
    push_lines(&mut graph_ttl, &sorted);
    proof {
        assert(graph_ttl@ =~= joined(lines_view(sorted@)));
    }
    let shapes_text = shapes_ttl(store, &opts.shapes);
    let queries = named_queries(store, &opts.queries);
    let facts = read_graph(store, g).len();
    let name = match &opts.name {
        Some(n) => n.clone(),
        None => local_name(graph_iri),
    };
    let version = match &opts.version {
        Some(v) => v.clone(),
        None => owned("0.1.0"),
    };
    let mut producer = owned("{\"tool\":\"quipu pack --format turtle\",\"version\":");
    let v = json_string(PRODUCER_VERSION);
    push_str(&mut producer, v.as_str());
    push_str(&mut producer, "}");
    let mut counts = owned("{\"embedding_dimension\":null,\"embedding_model\":null,\"facts\":");
    let f = crate::text::usize_to_string(facts);
    push_str(&mut counts, f.as_str());
    push_str(&mut counts, ",\"queries\":");
    let nq = crate::text::usize_to_string(opts.queries.len());
    push_str(&mut counts, nq.as_str());
    push_str(&mut counts, ",\"shapes\":");
    let ns = crate::text::usize_to_string(opts.shapes.len());
    push_str(&mut counts, ns.as_str());
    push_str(&mut counts, "}");
    let manifest = Manifest {
        pack_format: owned(TURTLE_PACK_FORMAT),
        name,
        version,
        term_space: 0,
        content_hash: hash,
        created_at: owned(timestamp),
        source_graph: owned(graph_iri),
        producer,
        counts,
    };
    Ok(TurtleBundle { graph_ttl, shapes_ttl: shapes_text, queries, manifest })
}


/// Options for building a pack.
#[derive(Debug, Clone, Default)]
pub struct PackOptions {
    /// Pack name; defaults to the graph's local name.
    pub name: Option<String>,
    /// Pack version; defaults to `0.1.0`.
    pub version: Option<String>,
    /// Shape graphs to include.
    pub shapes: Vec<String>,
    /// Stored queries to include.
    pub queries: Vec<String>,
    /// Include embeddings, re-keyed by IRI.
    pub with_vectors: bool,
    /// Ship the pack in this term space; only a file pack can be moved.
    pub space: Option<i64>,
    /// Repository identity for a repository-embedded pack. The four
    /// provenance fields are all-or-none.
    pub repository: Option<String>,
    /// Commit whose repository graph the pack carries.
    pub repository_sha: Option<String>,
    /// Embedding model identifier used to produce repository knowledge.
    pub model_id: Option<String>,
    /// Version of that embedding model.
    pub model_version: Option<String>,
}

/// The version a pack's producer record names.
pub const PRODUCER_VERSION: &'static str = "0.1.0";

/// The source revision a pack's producer record names.
pub const PRODUCER_GIT_SHA: &'static str = "unknown";

/// The pack format of a published pack.
pub const PACK_FORMAT: &'static str = "1";

/// The JSON text serde_json writes for a string: quoted and escaped.
pub open spec fn json_quoted(s: Seq<char>) -> Seq<char> {
    seq!['"'] + json_escaped(s) + seq!['"']
}

/// The JSON text of string `s` (serde_json's `to_string` on a `str`, which
/// never fails): `s` between double quotes, each character escaped as
/// [`json_char`] says (serde_json's escape table).
#[verifier::external_body]
fn json_string(s: &str) -> (r: String)
    ensures
        r@ == json_quoted(s@),
{
    match serde_json::to_string(s) {
        Ok(t) => t,
        Err(_) => String::new(),
    }
}

/// What serde_json reads as the string member `key` of the JSON document
/// `text`: its error text when `text` is not JSON, `Ok(None)` when there is
/// no such member or it is not a string.
pub uninterp spec fn json_string_field(text: Seq<char>, key: Seq<char>) -> Result<Option<Seq<char>>, Seq<char>>;

/// Read the string member `key` of the JSON document `text` (serde_json's
/// `from_str` into a `Value`, then `get` and `as_str`; an error is
/// serde_json's error, displayed). The result is a function of the two
/// arguments.
#[verifier::external_body]
pub(crate) fn read_json_string_field(text: &str, key: &str) -> (r: Result<Option<String>, String>)
    ensures
        json_string_field(text@, key@) == match r {
            Ok(v) => Ok::<Option<Seq<char>>, Seq<char>>(opt_string(v)),
            Err(e) => Err::<Option<Seq<char>>, Seq<char>>(e@),
        },
{
    match serde_json::from_str::<serde_json::Value>(text) {
        Ok(v) => Ok(v.get(key).and_then(|x| x.as_str()).map(String::from)),
        Err(e) => Err(e.to_string()),
    }
}

/// A JSON value for an optional string: the string, or `null`.
pub open spec fn json_opt(o: Option<Seq<char>>) -> Seq<char> {
    match o {
        Some(s) => json_quoted(s),
        None => "null"@,
    }
}

fn json_opt_text(o: &Option<String>) -> (r: String)
    ensures
        r@ == json_opt(opt_string(*o)),
{
    match o {
        Some(s) => json_string(s.as_str()),
        None => owned("null"),
    }
}

/// The producer record of a pack built with `opts` (keys in the order
/// serde_json's map keeps them: sorted).
pub open spec fn producer_json(opts: PackOptions) -> Seq<char> {
    "{\"git_sha\":"@ + json_quoted(PRODUCER_GIT_SHA@) + ",\"model_id\":"@ + json_opt(opt_string(opts.model_id))
        + ",\"model_version\":"@ + json_opt(opt_string(opts.model_version)) + ",\"pack_schema_version\":1,\"repository\":"@
        + json_opt(opt_string(opts.repository)) + ",\"repository_sha\":"@ + json_opt(opt_string(opts.repository_sha))
        + ",\"tool\":\"quipu pack\",\"version\":"@ + json_quoted(PRODUCER_VERSION@) + "}"@
}

/// The row counts of a pack carrying `facts` facts, `shapes` named shape
/// graphs and `queries` named stored queries. The store keeps no embeddings,
/// so a pack carries none, asked for or not.
pub open spec fn counts_json(facts: nat, shapes: nat, queries: nat) -> Seq<char> {
    "{\"embedding_dimension\":null,\"embedding_model\":null,\"facts\":"@ + crate::text::decimal(facts)
        + ",\"queries\":"@ + crate::text::decimal(queries) + ",\"shapes\":"@ + crate::text::decimal(shapes)
        + ",\"vectors\":0}"@
}

/// The manifest of a pack of graph `graph` built with `opts` at `ts`, whose
/// canonical content is `canonical` and which carries `facts` facts.
pub open spec fn expected_manifest(
    opts: PackOptions,
    graph: Seq<char>,
    canonical: Seq<char>,
    ts: Seq<char>,
    facts: nat,
) -> ManifestView {
    ManifestView {
        pack_format: PACK_FORMAT@,
        name: match opts.name {
            Some(n) => n@,
            None => local_name_of(graph),
        },
        version: match opts.version {
            Some(v) => v@,
            None => "0.1.0"@,
        },
        term_space: 0,
        content_hash: hash_text(canonical),
        created_at: ts,
        source_graph: graph,
        producer: producer_json(opts),
        counts: counts_json(facts, opts.shapes@.len(), opts.queries@.len()),
    }
}

/// How many of the four repository provenance fields are given.
pub open spec fn repo_field_count(opts: PackOptions) -> int {
    (if opts.repository is Some { 1int } else { 0 }) + (if opts.repository_sha is Some { 1int } else { 0 })
        + (if opts.model_id is Some { 1int } else { 0 }) + (if opts.model_version is Some { 1int } else { 0 })
}

/// Why building a pack of `graph` from `store` with `opts` is refused, if it
/// is (checked in this order).
pub open spec fn pack_refusal(store: &Store, graph: Seq<char>, opts: PackOptions) -> Option<Seq<char>> {
    if repo_field_count(opts) != 0 && repo_field_count(opts) != 4 {
        Some("pack: --repo, --repo-sha, --model-id, and --model-version must be supplied together"@)
    } else if store.id_of(graph) is None {
        Some("pack: unknown graph: "@ + graph)
    } else if opts.with_vectors && store.catalog().2 {
        Some("pack --with-vectors requires the built-in SQLite vector backend; a delegated or LanceDB backend cannot be enumerated, so embeddings cannot be re-keyed by IRI. Pack without vectors, or export from a SQLite-backed store."@)
    } else {
        names_refusal(store, lines_view(opts.shapes@), lines_view(opts.queries@))
    }
}

/// Write `triples` to graph `g` of `out`, stamped with the `stamps` of the
/// facts they came from, as one transaction labelled `source`.
pub(crate) fn write_triples(out: &mut Store, triples: &Vec<Triple>, stamps: &Vec<Fact>, g: i64, source: &str) -> (r: Result<(), Error>)
    requires
        old(out).wf(),
        stamps@.len() == triples@.len(),
        forall|i: int| 0 <= i < triples@.len() ==> obj_ok((#[trigger] triples_view(triples@)[i]).2),
    ensures
        final(out).wf(),
        final(out).terms_extend(old(out)),
        final(out).ontology_entries() == old(out).ontology_entries(),
        final(out).identity() == old(out).identity(),
        final(out).manifest_of() == old(out).manifest_of(),
        final(out).loaded_packs() == old(out).loaded_packs(),
        final(out).catalog() == old(out).catalog(),
        forall|h: i64| h != g ==> #[trigger] graph_triples(final(out), h) == graph_triples(old(out), h),
        r is Ok ==> graph_triples(final(out), g) == graph_triples(old(out), g) + triples_view(triples@),
        r is Err ==> final(out).rows() == old(out).rows(),
        r is Err ==> final(out).terms().len() >= crate::store::MAX_TERMS || final(out).head() >= crate::store::MAX_TX,
        final(out).terms().len() <= old(out).terms().len() + 3 * triples@.len(),
        old(out).head() < crate::store::MAX_TX && old(out).terms().len() + 3 * triples@.len() < crate::store::MAX_TERMS
            ==> r is Ok,
{
    let ghost s0 = *out;
    let ds = match to_datums(out, triples, "") {
        Ok(ds) => ds,
        Err(e) => {
            proof {
                assert forall|h: i64| #[trigger] graph_triples(out, h) == graph_triples(&s0, h) by {
                    crate::owl_snapshot::lemma_graph_stable(&s0, out, h);
                }
            }
            return Err(e);
        },
    };
    let ghost mid = *out;
    proof {
        assert forall|h: i64| #[trigger] graph_triples(&mid, h) == graph_triples(&s0, h) by {
            crate::owl_snapshot::lemma_graph_stable(&s0, &mid, h);
        }
    }
    let mut stamped: Vec<Datum> = Vec::new();
    let mut i: usize = 0;
    while i < ds.len()
        invariant
            i <= ds@.len(),
            ds@.len() == stamps@.len(),
            stamped@.len() == i,
            forall|j: int|
                0 <= j < i ==> {
                    &&& (#[trigger] stamped@[j])@.op == Op::Assert
                    &&& stamped@[j]@.valid_from == stamps@[j].valid_from@
                    &&& stamped@[j]@.entity == ds@[j]@.entity
                    &&& stamped@[j]@.attribute == ds@[j]@.attribute
                    &&& stamped@[j]@.value == ds@[j]@.value
                },
        decreases ds.len() - i,
    {
        stamped.push(Datum {
            entity: ds[i].entity,
            attribute: ds[i].attribute,
            value: ds[i].value.copy(),
            valid_from: stamps[i].valid_from.clone(),
            valid_to: None,
            op: Op::Assert,
        });
        i = i + 1;
    }
    proof {
        assert forall|j: int| 0 <= j < stamped@.len() implies datum_known(#[trigger] stamped@[j]@, mid.terms().len() as int)
            && forall|t: i64| triple_of(&mid, #[trigger] datum_fact(stamped@[j]@, t)) == triples_view(triples@)[j] by {
            assert(datum_known(ds@[j]@, mid.terms().len() as int));
            assert forall|t: i64| triple_of(&mid, #[trigger] datum_fact(stamped@[j]@, t)) == triples_view(triples@)[j] by {
                assert(triple_of(&mid, datum_fact(ds@[j]@, t)) == triples@[j]@);
            }
        }
    }
    let tx = match out.transact_to_graph(stamped.as_slice(), Some(source), g) {
        Ok(tx) => tx,
        Err(e) => {
            proof {
                assert(mid.terms().subrange(0, mid.terms().len() as int) =~= out.terms());
                lemma_extend_trans(&s0, &mid, out);
                assert forall|h: i64| #[trigger] graph_triples(out, h) == graph_triples(&s0, h) by {
                    crate::owl_snapshot::lemma_graph_stable(&mid, out, h);
                }
            }
            return Err(e);
        },
    };
    proof {
        assert(mid.terms().subrange(0, mid.terms().len() as int) =~= out.terms());
        lemma_extend_trans(&s0, &mid, out);
        crate::owl_snapshot::lemma_graph_write(&mid, out, stamped@, tx, g, triples_view(triples@), g);
        assert forall|h: i64| h != g implies #[trigger] graph_triples(out, h) == graph_triples(&s0, h) by {
            crate::owl_snapshot::lemma_graph_write(&mid, out, stamped@, tx, g, triples_view(triples@), h);
        }
    }
    Ok(())
}


fn producer_text(opts: &PackOptions) -> (r: String)
    ensures
        r@ == producer_json(*opts),
{
    let mut out = owned("{\"git_sha\":");
    let t = json_string(PRODUCER_GIT_SHA);
    push_str(&mut out, t.as_str());
    push_str(&mut out, ",\"model_id\":");
    let t = json_opt_text(&opts.model_id);
    push_str(&mut out, t.as_str());
    push_str(&mut out, ",\"model_version\":");
    let t = json_opt_text(&opts.model_version);
    push_str(&mut out, t.as_str());
    push_str(&mut out, ",\"pack_schema_version\":1,\"repository\":");
    let t = json_opt_text(&opts.repository);
    push_str(&mut out, t.as_str());
    push_str(&mut out, ",\"repository_sha\":");
    let t = json_opt_text(&opts.repository_sha);
    push_str(&mut out, t.as_str());
    push_str(&mut out, ",\"tool\":\"quipu pack\",\"version\":");
    let t = json_string(PRODUCER_VERSION);
    push_str(&mut out, t.as_str());
    push_str(&mut out, "}");
    proof {
        assert(out@ =~= producer_json(*opts));
    }
    out
}

fn counts_text(facts: usize, shapes: usize, queries: usize) -> (r: String)
    ensures
        r@ == counts_json(facts as nat, shapes as nat, queries as nat),
{
    let mut out = owned("{\"embedding_dimension\":null,\"embedding_model\":null,\"facts\":");
    let n = crate::text::usize_to_string(facts);
    push_str(&mut out, n.as_str());
    push_str(&mut out, ",\"queries\":");
    let n = crate::text::usize_to_string(queries);
    push_str(&mut out, n.as_str());
    push_str(&mut out, ",\"shapes\":");
    let n = crate::text::usize_to_string(shapes);
    push_str(&mut out, n.as_str());
    push_str(&mut out, ",\"vectors\":0}");
    proof {
        assert(out@ =~= counts_json(facts as nat, shapes as nat, queries as nat));
    }
    out
}

/// The shape graphs of `base` after loading, in order, the shape graphs of
/// `src` named `names` (those that `src` keeps), each stamped `ts`.
pub open spec fn carried_shapes(base: Seq<ShapeView>, src: Seq<ShapeView>, names: Seq<Seq<char>>, ts: Seq<char>) -> Seq<
    ShapeView,
>
    decreases names.len(),
{
    if names.len() == 0 {
        base
    } else {
        let prev = carried_shapes(base, src, names.drop_last(), ts);
        match index_of_name(shape_names(src), names.last()) {
            Some(i) => put_shape(prev, names.last(), src[i].1, ts),
            None => prev,
        }
    }
}

/// The stored queries of `base` after loading, in order, the stored queries
/// of `src` named `names` (those that `src` keeps).
pub open spec fn carried_queries(base: Seq<QueryView>, src: Seq<QueryView>, names: Seq<Seq<char>>) -> Seq<QueryView>
    decreases names.len(),
{
    if names.len() == 0 {
        base
    } else {
        let prev = carried_queries(base, src, names.drop_last());
        match index_of_name(query_names(src), names.last()) {
            Some(i) => put_query(prev, src[i]),
            None => prev,
        }
    }
}

/// Load into `out` the shape graphs of `store` named `shapes` (stamped `ts`)
/// and then its stored queries named `queries`; names `store` does not keep
/// are passed over. Nothing else of `out` changes.
pub(crate) fn carry_catalog(store: &Store, shapes: &[String], queries: &[String], ts: &str, out: &mut Store)
    requires
        old(out).wf(),
    ensures
        final(out).wf(),
        final(out).terms() == old(out).terms(),
        final(out).rows() == old(out).rows(),
        final(out).sources() == old(out).sources(),
        final(out).ontology_entries() == old(out).ontology_entries(),
        final(out).identity() == old(out).identity(),
        final(out).proposal_log() == old(out).proposal_log(),
        final(out).manifest_of() == old(out).manifest_of(),
        final(out).loaded_packs() == old(out).loaded_packs(),
        final(out).catalog() == (
            carried_shapes(old(out).catalog().0, store.catalog().0, lines_view(shapes@), ts@),
            carried_queries(old(out).catalog().1, store.catalog().1, lines_view(queries@)),
            old(out).catalog().2,
        ),
{
    let ghost o0 = *out;
    let ghost sv = lines_view(shapes@);
    let mut k: usize = 0;
    while k < shapes.len()
        invariant
            k <= shapes@.len(),
            sv == lines_view(shapes@),
            out.wf(),
            out.terms() == o0.terms(),
            out.rows() == o0.rows(),
            out.sources() == o0.sources(),
            out.ontology_entries() == o0.ontology_entries(),
            out.identity() == o0.identity(),
            out.proposal_log() == o0.proposal_log(),
            out.manifest_of() == o0.manifest_of(),
            out.loaded_packs() == o0.loaded_packs(),
            o0 == *old(out),
            out.catalog() == (carried_shapes(o0.catalog().0, store.catalog().0, sv.take(k as int), ts@), o0.catalog().1, o0.catalog().2),
        decreases shapes.len() - k,
    {
        proof {
            assert(sv.take(k + 1).drop_last() =~= sv.take(k as int));
            assert(sv[k as int] == shapes@[k as int]@);
        }
        match store.shape_get(shapes[k].as_str()) {
            Some(t) => {
                out.load_shapes(shapes[k].as_str(), t.as_str(), ts);
            },
            None => {},
        }
        k = k + 1;
    }
    proof {
        assert(sv.take(sv.len() as int) =~= sv);
    }
    let ghost o1 = *out;
    let ghost qv = lines_view(queries@);
    let mut k: usize = 0;
    while k < queries.len()
        invariant
            k <= queries@.len(),
            qv == lines_view(queries@),
            out.wf(),
            out.terms() == o0.terms(),
            out.rows() == o0.rows(),
            out.sources() == o0.sources(),
            out.ontology_entries() == o0.ontology_entries(),
            out.identity() == o0.identity(),
            out.proposal_log() == o0.proposal_log(),
            out.manifest_of() == o0.manifest_of(),
            out.loaded_packs() == o0.loaded_packs(),
            o0 == *old(out),
            out.catalog() == (o1.catalog().0, carried_queries(o0.catalog().1, store.catalog().1, qv.take(k as int)), o0.catalog().2),
        decreases queries.len() - k,
    {
        proof {
            assert(qv.take(k + 1).drop_last() =~= qv.take(k as int));
            assert(qv[k as int] == queries@[k as int]@);
        }
        match store.query_get(queries[k].as_str()) {
            Some(q) => {
                out.query_load(&q);
            },
            None => {},
        }
        k = k + 1;
    }
    proof {
        assert(qv.take(qv.len() as int) =~= qv);
    }
}

/// The content hash of `text`, unless it is too long to hash.
fn hash_of_text(text: &String) -> (r: Result<String, Error>)
    ensures
        text@.len() >= 0 && (vstd::utf8::encode_utf8(text@).len() < max_digest_input() <==> r is Ok),
        r matches Ok(h) ==> h@ == hash_text(text@),
        r matches Err(e) ==> e is InvalidValue && e.text() == "pack: canonical content too large to hash"@,
{
    let bytes = text.as_str().as_bytes();
    let n = bytes.len();
    if (n as u64) >= 0x1fff_ffff_ffff_ffff {
        return Err(Error::InvalidValue(owned("pack: canonical content too large to hash")));
    }
    Ok(content_hash(text.as_str()))
}

/// The canonical content of graph `g` of `s` with every shape graph and
/// stored query `s` keeps: what a pack's own content hash covers.
pub open spec fn graph_canonical(s: &Store, g: i64) -> Seq<char> {
    named_canonical(s, g, shape_names(s.catalog().0), query_names(s.catalog().1))
}

/// The canonical content of a pack of graph `g` of `s` built with `opts`.
pub open spec fn pack_canonical(s: &Store, g: i64, opts: PackOptions) -> Seq<char> {
    named_canonical(s, g, lines_view(opts.shapes@), lines_view(opts.queries@))
}

/// The canonical content is small enough to hash.
pub open spec fn hashable(text: Seq<char>) -> bool {
    vstd::utf8::encode_utf8(text).len() < max_digest_input()
}

/// Build a pack of graph `graph_iri` of `store` into `out`: re-intern the
/// graph's live facts into `out` (into the graph named by the same IRI), and
/// record and return the manifest.
fn pack_into(store: &Store, graph_iri: &str, opts: &PackOptions, timestamp: &str, out: &mut Store) -> (r: Result<
    Manifest,
    Error,
>)
    requires
        store.wf(),
        old(out).wf(),
    ensures
        final(out).wf(),
        final(out).terms_extend(old(out)),
        final(out).identity() == old(out).identity(),
        final(out).ontology_entries() == old(out).ontology_entries(),
        final(out).loaded_packs() == old(out).loaded_packs(),
        pack_refusal(store, graph_iri@, *opts) matches Some(m) ==> (r matches Err(e) && e is InvalidValue && e.text()
            == m && *final(out) == *old(out)),
        pack_refusal(store, graph_iri@, *opts) is None ==> {
            let g = store.id_of(graph_iri@)->0;
            &&& !hashable(pack_canonical(store, g, *opts)) ==> (r matches Err(e) && e is InvalidValue && e.text()
                == TOO_LARGE@)
            &&& hashable(pack_canonical(store, g, *opts)) && old(out).head() < crate::store::MAX_TX && old(out).terms().len()
                + 1 + 3 * graph_triples(store, g).len() < crate::store::MAX_TERMS ==> r is Ok
        },
        r matches Ok(man) ==> {
            let g = store.id_of(graph_iri@)->0;
            &&& pack_refusal(store, graph_iri@, *opts) is None
            &&& man@ == expected_manifest(
                *opts,
                graph_iri@,
                pack_canonical(store, g, *opts),
                timestamp@,
                graph_triples(store, g).len(),
            )
            &&& final(out).manifest_of() == Some(man@)
            &&& final(out).id_of(graph_iri@) is Some
            &&& graph_triples(final(out), final(out).id_of(graph_iri@)->0) == graph_triples(
                old(out),
                final(out).id_of(graph_iri@)->0,
            ) + graph_triples(store, g)
            &&& final(out).catalog() == (
                carried_shapes(old(out).catalog().0, store.catalog().0, lines_view(opts.shapes@), timestamp@),
                carried_queries(old(out).catalog().1, store.catalog().1, lines_view(opts.queries@)),
                old(out).catalog().2,
            )
        },
{
    proof {
        lemma_extend_refl(out);
    }
    let mut n: usize = 0;
    if opts.repository.is_some() {
        n = n + 1;
    }
    if opts.repository_sha.is_some() {
        n = n + 1;
    }
    if opts.model_id.is_some() {
        n = n + 1;
    }
    if opts.model_version.is_some() {
        n = n + 1;
    }
    if n != 0 && n != 4 {
        return Err(Error::InvalidValue(owned(
            "pack: --repo, --repo-sha, --model-id, and --model-version must be supplied together",
        )));
    }
    let g = match store.lookup(graph_iri) {
        Some(g) => g,
        None => {
            let mut msg = owned("pack: unknown graph: ");
            push_str(&mut msg, graph_iri);
            return Err(Error::InvalidValue(msg));
        },
    };
    if opts.with_vectors && !store.has_sqlite_vector_backend() {
        return Err(Error::InvalidValue(owned(
            "pack --with-vectors requires the built-in SQLite vector backend; a delegated or LanceDB backend cannot be enumerated, so embeddings cannot be re-keyed by IRI. Pack without vectors, or export from a SQLite-backed store.",
        )));
    }
    let canonical = canonical_content(store, graph_iri, opts.shapes.as_slice(), opts.queries.as_slice())?;
    let hash = hash_of_text(&canonical)?;
    let triples = read_graph(store, g);
    proof {
        store.lemma_selected_known(seq![g], None);
        assert forall|i: int| 0 <= i < triples@.len() implies obj_ok((#[trigger] triples_view(triples@)[i]).2) by {
            assert(triples_view(triples@)[i] == triple_of(store, select(store.rows(), seq![g], None)[i]));
        }
    }
    let stamps = store.current_facts_in_graph(g);
    proof {
        assert(facts_view(stamps@).len() == stamps@.len());
    }
    let ghost o0 = *out;
    let g_out = out.intern(graph_iri)?;
    let ghost o1 = *out;
    match write_triples(out, &triples, &stamps, g_out, "pack") {
        Ok(()) => {},
        Err(e) => {
            proof {
                lemma_extend_trans(&o0, &o1, out);
            }
            return Err(e);
        },
    }
    let ghost o2 = *out;
    proof {
        assert(o2.terms()[g_out - 1] == o1.terms()[g_out - 1]);
        o2.lemma_id_of(graph_iri@, g_out - 1);
        lemma_extend_trans(&o0, &o1, &o2);
    }
    carry_catalog(store, opts.shapes.as_slice(), opts.queries.as_slice(), timestamp, out);
    let name = match &opts.name {
        Some(x) => x.clone(),
        None => local_name(graph_iri),
    };
    let version = match &opts.version {
        Some(x) => x.clone(),
        None => owned("0.1.0"),
    };
    let m = Manifest {
        pack_format: owned(PACK_FORMAT),
        name,
        version,
        term_space: 0,
        content_hash: hash,
        created_at: owned(timestamp),
        source_graph: owned(graph_iri),
        producer: producer_text(opts),
        counts: counts_text(triples.len(), opts.shapes.len(), opts.queries.len()),
    };
    out.set_manifest(m.copy());
    proof {
        lemma_extend_refl(&o2);
        assert(out.terms_extend(&o2));
        lemma_extend_trans(&o0, &o2, out);
        crate::owl_snapshot::lemma_graph_stable(&o2, out, g_out);
        crate::owl_snapshot::lemma_graph_stable(&o0, &o1, g_out);
    }
    Ok(m)
}

/// Where a pack's bytes must stay in term space 0.
pub const SPACE_REFUSAL: &'static str = "pack --space requires a file destination: the space move is a respace of the built file, and an in-memory pack has no file to respace. Pack to a path, or respace the written bytes with `quipu db respace`.";

/// Build a pack of graph `graph_iri` of `store` in memory. The pack is a
/// store of its own, holding the graph's live facts re-interned and its
/// manifest. A non-zero term space is refused: only a file can be moved.
pub fn pack_to_bytes(store: &Store, graph_iri: &str, opts: &PackOptions, timestamp: &str) -> (r: Result<
    (Manifest, Store),
    Error,
>)
    requires
        store.wf(),
    ensures
        (opts.space matches Some(sp) && sp != 0) ==> (r matches Err(e) && e is InvalidValue && e.text() == SPACE_REFUSAL@),
        !(opts.space matches Some(sp) && sp != 0) && pack_refusal(store, graph_iri@, *opts) is Some ==> (r matches Err(
            e,
        ) && e is InvalidValue && e.text() == pack_refusal(store, graph_iri@, *opts)->0),
        !(opts.space matches Some(sp) && sp != 0) && pack_refusal(store, graph_iri@, *opts) is None ==> {
            let g = store.id_of(graph_iri@)->0;
            &&& !hashable(pack_canonical(store, g, *opts)) ==> (r matches Err(e) && e is InvalidValue && e.text() == TOO_LARGE@)
            &&& hashable(pack_canonical(store, g, *opts)) && 1 + 3 * graph_triples(store, g).len() < crate::store::MAX_TERMS
                ==> r is Ok
        },
        r matches Ok((man, pack)) ==> {
            let g = store.id_of(graph_iri@)->0;
            &&& pack.wf()
            &&& man@ == expected_manifest(
                *opts,
                graph_iri@,
                pack_canonical(store, g, *opts),
                timestamp@,
                graph_triples(store, g).len(),
            )
            &&& pack.manifest_of() == Some(man@)
            &&& pack.id_of(graph_iri@) is Some
            &&& graph_triples(&pack, pack.id_of(graph_iri@)->0) == graph_triples(store, g)
            &&& pack.catalog() == (
                carried_shapes(Seq::empty(), store.catalog().0, lines_view(opts.shapes@), timestamp@),
                carried_queries(Seq::empty(), store.catalog().1, lines_view(opts.queries@)),
                false,
            )
        },
{
    if let Some(sp) = opts.space {
        if sp != 0 {
            return Err(Error::InvalidValue(owned(SPACE_REFUSAL)));
        }
    }
    let mut out = Store::open_in_memory("pack");
    let ghost o0 = out;
    proof {
        assert(select(o0.rows(), seq![0i64], None).len() == 0);
    }
    let m = pack_into(store, graph_iri, opts, timestamp, &mut out)?;
    proof {
        let gid = out.id_of(graph_iri@)->0;
        assert(select(o0.rows(), seq![gid], None) =~= Seq::<FactView>::empty());
        assert(graph_triples(&o0, gid) =~= Seq::<TripleView>::empty());
        assert(graph_triples(&o0, gid) + graph_triples(store, store.id_of(graph_iri@)->0) =~= graph_triples(
            store,
            store.id_of(graph_iri@)->0,
        ));
    }
    Ok((m, out))
}


/// The refusal of a store that is not a pack.
pub const NO_MANIFEST: &'static str = "pack: store has no readable manifest";

/// The refusal of content too long to hash.
pub const TOO_LARGE: &'static str = "pack: canonical content too large to hash";

/// Every name of a list is found in it.
proof fn lemma_index_found(names: Seq<Seq<char>>, i: int)
    requires
        0 <= i < names.len(),
    ensures
        index_of_name(names, names[i]) is Some,
    decreases names.len(),
{
    if i < names.len() - 1 {
        assert(names.drop_last()[i] == names[i]);
        lemma_index_found(names.drop_last(), i);
    }
}

/// No name of a list is missing from it.
proof fn lemma_every_name_kept(names: Seq<Seq<char>>)
    ensures
        missing_name(names, names) is None,
{
    assert forall|i: int| 0 <= i < names.len() implies exists|j: int|
        0 <= j < names.len() && names[j] == #[trigger] names[i] by {
        assert(names[i] == names[i]);
    }
    lemma_none_missing(names, names);
}

proof fn lemma_none_missing(present: Seq<Seq<char>>, names: Seq<Seq<char>>)
    requires
        forall|i: int| 0 <= i < names.len() ==> exists|j: int| 0 <= j < present.len() && present[j] == #[trigger] names[i],
    ensures
        missing_name(present, names) is None,
    decreases names.len(),
{
    if names.len() > 0 {
        assert forall|i: int| 0 <= i < names.drop_last().len() implies exists|j: int|
            0 <= j < present.len() && present[j] == #[trigger] names.drop_last()[i] by {
            assert(names.drop_last()[i] == names[i]);
        }
        lemma_none_missing(present, names.drop_last());
        let j = choose|j: int| 0 <= j < present.len() && present[j] == names[names.len() - 1];
        lemma_index_found(present, j);
    }
}

/// Recompute a pack's content hash and compare it with its manifest's:
/// `(claimed, recomputed, matches)`.
pub fn verify(pack: &Store) -> (r: Result<(String, String, bool), Error>)
    requires
        pack.wf(),
    ensures
        match pack.manifest_of() {
            None => r matches Err(e) && e is InvalidValue && e.text() == NO_MANIFEST@,
            Some(m) => match pack.id_of(m.source_graph) {
                None => r matches Err(e) && e is InvalidValue && e.text() == "unknown graph: "@ + m.source_graph,
                Some(g) => {
                    let c = graph_canonical(pack, g);
                    &&& !hashable(c) ==> (r matches Err(e) && e is InvalidValue && e.text() == TOO_LARGE@)
                    &&& hashable(c) ==> (r matches Ok((claimed, recomputed, matches)) && claimed@ == m.content_hash
                        && recomputed@ == hash_text(c) && matches == (recomputed@ == claimed@))
                },
            },
        },
{
    let m = match pack.read_manifest() {
        Some(m) => m,
        None => return Err(Error::InvalidValue(owned(NO_MANIFEST))),
    };
    let shapes = pack.shape_names();
    let queries = pack.query_names();
    proof {
        assert(lines_view(shapes@) =~= shape_names(pack.catalog().0));
        assert(lines_view(queries@) =~= query_names(pack.catalog().1));
        lemma_every_name_kept(shape_names(pack.catalog().0));
        lemma_every_name_kept(query_names(pack.catalog().1));
    }
    let canonical = canonical_content(pack, m.source_graph.as_str(), shapes.as_slice(), queries.as_slice())?;
    let recomputed = hash_of_text(&canonical)?;
    let matches = str_eq(recomputed.as_str(), m.content_hash.as_str());
    Ok((m.content_hash, recomputed, matches))
}

/// A name that is not in a list is not found in it.
proof fn lemma_index_absent(names: Seq<Seq<char>>, name: Seq<char>)
    requires
        !names.contains(name),
    ensures
        index_of_name(names, name) is None,
    decreases names.len(),
{
    if names.len() > 0 {
        if names.drop_last().contains(name) {
            let j = choose|j: int| 0 <= j < names.drop_last().len() && names.drop_last()[j] == name;
            assert(names[j] == name);
        }
        lemma_index_absent(names.drop_last(), name);
        assert(names[names.len() - 1] == names.last());
    }
}

/// In a list without repeats, each name is found at its own position.
proof fn lemma_index_distinct(names: Seq<Seq<char>>, k: int)
    requires
        names.no_duplicates(),
        0 <= k < names.len(),
    ensures
        index_of_name(names, names[k]) == Some(k),
    decreases names.len(),
{
    if k < names.len() - 1 {
        assert(names.drop_last()[k] == names[k]);
        lemma_index_distinct(names.drop_last(), k);
    } else {
        assert forall|j: int| 0 <= j < names.drop_last().len() implies names.drop_last()[j] != names[k] by {
            assert(names.drop_last()[j] == names[j]);
        }
        lemma_index_absent(names.drop_last(), names[k]);
    }
}

/// The shape graphs a pack built from `src` with the shape names `names`
/// keeps, one per name, in the order named.
pub open spec fn shape_entries(src: Seq<ShapeView>, names: Seq<Seq<char>>, ts: Seq<char>) -> Seq<ShapeView> {
    Seq::new(names.len(), |k: int| (names[k], src[index_of_name(shape_names(src), names[k])->0].1, ts))
}

/// The stored queries a pack built from `src` with the query names `names`
/// keeps, one per name, in the order named.
pub open spec fn query_entries(src: Seq<QueryView>, names: Seq<Seq<char>>) -> Seq<QueryView> {
    Seq::new(names.len(), |k: int| src[index_of_name(query_names(src), names[k])->0])
}

proof fn lemma_missing_none_prefix(present: Seq<Seq<char>>, names: Seq<Seq<char>>)
    requires
        names.len() > 0,
        missing_name(present, names) is None,
    ensures
        missing_name(present, names.drop_last()) is None,
        index_of_name(present, names.last()) is Some,
{
}

proof fn lemma_carried_shapes(src: Seq<ShapeView>, names: Seq<Seq<char>>, ts: Seq<char>)
    requires
        names.no_duplicates(),
        missing_name(shape_names(src), names) is None,
    ensures
        carried_shapes(Seq::empty(), src, names, ts) == shape_entries(src, names, ts),
    decreases names.len(),
{
    if names.len() == 0 {
        assert(shape_entries(src, names, ts) =~= Seq::<ShapeView>::empty());
    } else {
        let front = names.drop_last();
        lemma_missing_none_prefix(shape_names(src), names);
        assert(front.no_duplicates());
        lemma_carried_shapes(src, front, ts);
        let prev = shape_entries(src, front, ts);
        assert(shape_names(prev) =~= front);
        assert forall|j: int| 0 <= j < front.len() implies front[j] != names.last() by {
            assert(front[j] == names[j]);
        }
        lemma_index_absent(front, names.last());
        assert(shape_entries(src, names, ts) =~= prev.push(
            (names.last(), src[index_of_name(shape_names(src), names.last())->0].1, ts),
        ));
    }
}

proof fn lemma_carried_queries(src: Seq<QueryView>, names: Seq<Seq<char>>)
    requires
        names.no_duplicates(),
        missing_name(query_names(src), names) is None,
    ensures
        carried_queries(Seq::empty(), src, names) == query_entries(src, names),
        query_names(query_entries(src, names)) == names,
    decreases names.len(),
{
    if names.len() == 0 {
        assert(query_entries(src, names) =~= Seq::<QueryView>::empty());
        assert(query_names(query_entries(src, names)) =~= names);
    } else {
        let front = names.drop_last();
        lemma_missing_none_prefix(query_names(src), names);
        assert(front.no_duplicates());
        lemma_carried_queries(src, front);
        let prev = query_entries(src, front);
        assert forall|j: int| 0 <= j < front.len() implies front[j] != names.last() by {
            assert(front[j] == names[j]);
        }
        lemma_index_absent(front, names.last());
        let i = index_of_name(query_names(src), names.last())->0;
        crate::store::lemma_index_range(query_names(src), names.last());
        assert(src[i].0 == names.last());
        assert(query_entries(src, names) =~= prev.push(src[i]));
        assert(query_names(query_entries(src, names)) =~= names);
    }
}

proof fn lemma_shapes_section_entries(src: Seq<ShapeView>, names: Seq<Seq<char>>, ts: Seq<char>, j: int)
    requires
        names.no_duplicates(),
        missing_name(shape_names(src), names) is None,
        0 <= j <= names.len(),
    ensures
        shapes_section(shape_entries(src, names, ts), names.take(j)) == shapes_section(src, names.take(j)),
    decreases j,
{
    if j > 0 {
        lemma_shapes_section_entries(src, names, ts, j - 1);
        assert(names.take(j).drop_last() =~= names.take(j - 1));
        assert(names.take(j).last() == names[j - 1]);
        let e = shape_entries(src, names, ts);
        assert(shape_names(e) =~= names);
        lemma_index_distinct(names, j - 1);
        lemma_every_missing_is_listed(shape_names(src), names, j - 1);
    }
}

proof fn lemma_queries_section_entries(src: Seq<QueryView>, names: Seq<Seq<char>>, j: int)
    requires
        names.no_duplicates(),
        missing_name(query_names(src), names) is None,
        query_names(query_entries(src, names)) == names,
        0 <= j <= names.len(),
    ensures
        queries_section(query_entries(src, names), names.take(j)) == queries_section(src, names.take(j)),
    decreases j,
{
    if j > 0 {
        lemma_queries_section_entries(src, names, j - 1);
        assert(names.take(j).drop_last() =~= names.take(j - 1));
        assert(names.take(j).last() == names[j - 1]);
        lemma_index_distinct(names, j - 1);
        lemma_every_missing_is_listed(query_names(src), names, j - 1);
    }
}

/// When no name is missing, each name is found.
proof fn lemma_every_missing_is_listed(present: Seq<Seq<char>>, names: Seq<Seq<char>>, k: int)
    requires
        missing_name(present, names) is None,
        0 <= k < names.len(),
    ensures
        index_of_name(present, names[k]) is Some,
    decreases names.len(),
{
    lemma_missing_none_prefix(present, names);
    if k < names.len() - 1 {
        assert(names.drop_last()[k] == names[k]);
        lemma_every_missing_is_listed(present, names.drop_last(), k);
    }
}

/// A pack verifies as built: when each shape graph and each stored query is
/// named once, the canonical content of the built pack (with every shape
/// graph and stored query it keeps) is the canonical content the pack was
/// built from, so the content hash its manifest records is the hash of its
/// own content.
pub proof fn law_a_built_pack_verifies(
    store: &Store,
    graph: Seq<char>,
    opts: PackOptions,
    ts: Seq<char>,
    man: ManifestView,
    pack: &Store,
)
    requires
        store.id_of(graph) is Some,
        names_refusal(store, lines_view(opts.shapes@), lines_view(opts.queries@)) is None,
        lines_view(opts.shapes@).no_duplicates(),
        lines_view(opts.queries@).no_duplicates(),
        man == expected_manifest(
            opts,
            graph,
            pack_canonical(store, store.id_of(graph)->0, opts),
            ts,
            graph_triples(store, store.id_of(graph)->0).len(),
        ),
        pack.manifest_of() == Some(man),
        pack.id_of(graph) is Some,
        graph_triples(pack, pack.id_of(graph)->0) == graph_triples(store, store.id_of(graph)->0),
        pack.catalog() == (
            carried_shapes(Seq::empty(), store.catalog().0, lines_view(opts.shapes@), ts),
            carried_queries(Seq::empty(), store.catalog().1, lines_view(opts.queries@)),
            false,
        ),
    ensures
        graph_canonical(pack, pack.id_of(graph)->0) == pack_canonical(store, store.id_of(graph)->0, opts),
        hash_text(graph_canonical(pack, pack.id_of(graph)->0)) == pack.manifest_of()->0.content_hash,
{
    let sn = lines_view(opts.shapes@);
    let qn = lines_view(opts.queries@);
    lemma_carried_shapes(store.catalog().0, sn, ts);
    lemma_carried_queries(store.catalog().1, qn);
    let se = shape_entries(store.catalog().0, sn, ts);
    assert(shape_names(se) =~= sn);
    lemma_shapes_section_entries(store.catalog().0, sn, ts, sn.len() as int);
    lemma_queries_section_entries(store.catalog().1, qn, qn.len() as int);
    assert(sn.take(sn.len() as int) =~= sn);
    assert(qn.take(qn.len() as int) =~= qn);
}

/// `s` is in strictly increasing lexical order.
pub open spec fn strictly_sorted(s: Seq<Seq<char>>) -> bool {
    forall|i: int, j: int| 0 <= i < j < s.len() ==> seq_lt(#[trigger] s[i], #[trigger] s[j])
}

proof fn lemma_insert_line_props(x: Seq<char>, s: Seq<Seq<char>>)
    requires
        strictly_sorted(s),
    ensures
        strictly_sorted(insert_line(x, s)),
        forall|y: Seq<char>| #[trigger] insert_line(x, s).contains(y) <==> (y == x || s.contains(y)),
    decreases s.len(),
{
    let r = insert_line(x, s);
    if s.len() == 0 {
        assert forall|y: Seq<char>| #[trigger] r.contains(y) <==> (y == x || s.contains(y)) by {
            if r.contains(y) {
                assert(r[0] == y);
            } else if y == x {
                assert(r[0] == x);
            }
        }
    } else if x == s[0] {
        assert forall|y: Seq<char>| #[trigger] r.contains(y) <==> (y == x || s.contains(y)) by {
            if y == x {
                assert(s[0] == y);
            }
        }
    } else if seq_lt(x, s[0]) {
        assert forall|i: int, j: int| 0 <= i < j < r.len() implies seq_lt(#[trigger] r[i], #[trigger] r[j]) by {
            if i == 0 {
                assert(r[j] == s[j - 1]);
                if j - 1 > 0 {
                    assert(seq_lt(s[0], s[j - 1]));
                    lemma_seq_lt_transitive(x, s[0], s[j - 1]);
                }
            } else {
                assert(r[i] == s[i - 1] && r[j] == s[j - 1]);
            }
        }
        assert forall|y: Seq<char>| #[trigger] r.contains(y) <==> (y == x || s.contains(y)) by {
            if r.contains(y) {
                let k = choose|k: int| 0 <= k < r.len() && r[k] == y;
                if k > 0 {
                    assert(s[k - 1] == y);
                }
            } else if y == x {
                assert(r[0] == y);
            } else if s.contains(y) {
                let k = choose|k: int| 0 <= k < s.len() && s[k] == y;
                assert(r[k + 1] == y);
            }
        }
    } else {
        let t = s.drop_first();
        assert forall|i: int, j: int| 0 <= i < j < t.len() implies seq_lt(#[trigger] t[i], #[trigger] t[j]) by {
            assert(t[i] == s[i + 1] && t[j] == s[j + 1]);
        }
        lemma_insert_line_props(x, t);
        let rt = insert_line(x, t);
        lemma_seq_lt_total(x, s[0]);
        assert(seq_lt(s[0], x));
        assert(r == seq![s[0]] + rt);
        assert forall|i: int, j: int| 0 <= i < j < r.len() implies seq_lt(#[trigger] r[i], #[trigger] r[j]) by {
            if i == 0 {
                assert(r[j] == rt[j - 1]);
                assert(rt.contains(rt[j - 1]));
                if rt[j - 1] != x {
                    assert(t.contains(rt[j - 1]));
                    let k = choose|k: int| 0 <= k < t.len() && t[k] == rt[j - 1];
                    assert(t[k] == s[k + 1]);
                    assert(seq_lt(s[0], s[k + 1]));
                }
            } else {
                assert(r[i] == rt[i - 1] && r[j] == rt[j - 1]);
            }
        }
        assert forall|y: Seq<char>| #[trigger] r.contains(y) <==> (y == x || s.contains(y)) by {
            if r.contains(y) {
                let k = choose|k: int| 0 <= k < r.len() && r[k] == y;
                if k == 0 {
                    assert(s[0] == y);
                } else {
                    assert(rt[k - 1] == y);
                    assert(rt.contains(y));
                    if y != x {
                        let m = choose|m: int| 0 <= m < t.len() && t[m] == y;
                        assert(s[m + 1] == y);
                    }
                }
            } else {
                if y == x {
                    assert(rt.contains(x));
                    let k = choose|k: int| 0 <= k < rt.len() && rt[k] == x;
                    assert(r[k + 1] == x);
                } else if s.contains(y) {
                    let k = choose|k: int| 0 <= k < s.len() && s[k] == y;
                    if k == 0 {
                        assert(r[0] == y);
                    } else {
                        assert(t[k - 1] == y);
                        assert(t.contains(y));
                        assert(rt.contains(y));
                        let m = choose|m: int| 0 <= m < rt.len() && rt[m] == y;
                        assert(r[m + 1] == y);
                    }
                }
            }
        }
    }
}

proof fn lemma_sorted_distinct_props(xs: Seq<Seq<char>>)
    ensures
        strictly_sorted(sorted_distinct(xs)),
        forall|y: Seq<char>| #[trigger] sorted_distinct(xs).contains(y) <==> xs.contains(y),
    decreases xs.len(),
{
    if xs.len() > 0 {
        let p = xs.drop_last();
        lemma_sorted_distinct_props(p);
        lemma_insert_line_props(xs.last(), sorted_distinct(p));
        assert forall|y: Seq<char>| #[trigger] sorted_distinct(xs).contains(y) <==> xs.contains(y) by {
            if xs.contains(y) && y != xs.last() {
                let k = choose|k: int| 0 <= k < xs.len() && xs[k] == y;
                assert(p[k] == y);
                assert(p.contains(y));
            }
            if p.contains(y) {
                let k = choose|k: int| 0 <= k < p.len() && p[k] == y;
                assert(xs[k] == y);
            }
            if y == xs.last() {
                assert(xs[xs.len() - 1] == y);
            }
        }
    }
}

proof fn lemma_sorted_unique(a: Seq<Seq<char>>, b: Seq<Seq<char>>)
    requires
        strictly_sorted(a),
        strictly_sorted(b),
        forall|y: Seq<char>| #[trigger] a.contains(y) <==> b.contains(y),
    ensures
        a == b,
    decreases a.len(),
{
    if a.len() == 0 {
        if b.len() > 0 {
            assert(b.contains(b[0]));
            assert(a.contains(b[0]));
        }
        assert(a =~= b);
    } else {
        assert(a.contains(a[0]));
        assert(b.contains(a[0]));
        assert(b.len() > 0);
        assert(b.contains(b[0]));
        assert(a.contains(b[0]));
        let j = choose|j: int| 0 <= j < b.len() && b[j] == a[0];
        let i = choose|i: int| 0 <= i < a.len() && a[i] == b[0];
        if i > 0 {
            assert(seq_lt(a[0], a[i]));
            if j > 0 {
                assert(seq_lt(b[0], b[j]));
                lemma_seq_lt_asymmetric(a[0], b[0]);
            } else {
                lemma_seq_lt_irreflexive(a[0]);
            }
        } else if j > 0 {
            assert(seq_lt(b[0], b[j]));
            lemma_seq_lt_irreflexive(b[0]);
        }
        assert(a[0] == b[0]);
        let ta = a.drop_first();
        let tb = b.drop_first();
        assert forall|p: int, q: int| 0 <= p < q < ta.len() implies seq_lt(#[trigger] ta[p], #[trigger] ta[q]) by {
            assert(ta[p] == a[p + 1] && ta[q] == a[q + 1]);
        }
        assert forall|p: int, q: int| 0 <= p < q < tb.len() implies seq_lt(#[trigger] tb[p], #[trigger] tb[q]) by {
            assert(tb[p] == b[p + 1] && tb[q] == b[q + 1]);
        }
        assert forall|y: Seq<char>| #[trigger] ta.contains(y) <==> tb.contains(y) by {
            if ta.contains(y) {
                let k = choose|k: int| 0 <= k < ta.len() && ta[k] == y;
                assert(a[k + 1] == y);
                assert(a.contains(y));
                let m = choose|m: int| 0 <= m < b.len() && b[m] == y;
                assert(seq_lt(a[0], a[k + 1]));
                if m == 0 {
                    lemma_seq_lt_irreflexive(y);
                }
                assert(tb[m - 1] == y);
            }
            if tb.contains(y) {
                let k = choose|k: int| 0 <= k < tb.len() && tb[k] == y;
                assert(b[k + 1] == y);
                assert(b.contains(y));
                assert(a.contains(y));
                let m = choose|m: int| 0 <= m < a.len() && a[m] == y;
                assert(seq_lt(b[0], b[k + 1]));
                if m == 0 {
                    lemma_seq_lt_irreflexive(y);
                }
                assert(ta[m - 1] == y);
            }
        }
        lemma_sorted_unique(ta, tb);
        assert(a =~= seq![a[0]] + ta);
        assert(b =~= seq![b[0]] + tb);
    }
}

/// Canonical content describes the content, not the producer: facts that
/// denote the same set of N-Triples lines (in any order, repeated or not,
/// under any numbering of terms) have the same canonical content, and so the
/// same content hash.
pub proof fn law_canonical_content_depends_only_on_the_lines(
    xs: Seq<Seq<char>>,
    ys: Seq<Seq<char>>,
    shapes: Seq<char>,
    queries: Seq<char>,
)
    requires
        xs.to_set() == ys.to_set(),
    ensures
        canonical_text(xs, shapes, queries) == canonical_text(ys, shapes, queries),
        hash_text(canonical_text(xs, shapes, queries)) == hash_text(canonical_text(ys, shapes, queries)),
{
    lemma_sorted_distinct_props(xs);
    lemma_sorted_distinct_props(ys);
    assert forall|y: Seq<char>| #[trigger] sorted_distinct(xs).contains(y) <==> sorted_distinct(ys).contains(y) by {
        assert(xs.contains(y) == xs.to_set().contains(y));
        assert(ys.contains(y) == ys.to_set().contains(y));
    }
    lemma_sorted_unique(sorted_distinct(xs), sorted_distinct(ys));
}

} // verus!
