//! Numeric and boolean readings of literal values, for comparing values by
//! what they denote rather than by how they are written. A derived reading
//! never defines a term's identity: `01` and `1` stay two terms.
//!
//! The exact reading of an integer or decimal goes through `BigDecimal`,
//! parsed only from text that the integer/decimal grammar admits (the
//! parser would also take an exponent). Floating-point readings are left
//! to the caller.

use vstd::prelude::*;

use crate::namespace::{numeric_datatype, is_numeric_datatype, XSD_BOOLEAN, XSD_DECIMAL, XSD_DOUBLE, XSD_FLOAT, XSD_INTEGER, XSD_STRING};
use crate::proposal::opt_string;
use crate::text::{all_digits, chars_of, digits_value, i64_to_string, is_digit, owned, signed_decimal, str_eq, string_from_chars};
use vstd::arithmetic::power::pow;
use crate::value::{Value, ValueView};

verus! {

/// The datatype IRI of a literal value; a reference has none.
pub open spec fn datatype_of(v: ValueView) -> Option<Seq<char>> {
    match v {
        ValueView::Ref(_) => None,
        ValueView::Str(_) => Some(XSD_STRING@),
        ValueView::Int(_) => Some(XSD_INTEGER@),
        ValueView::Bool(_) => Some(XSD_BOOLEAN@),
        ValueView::Typed(_, dt) => Some(dt),
    }
}

/// The datatype IRI of a literal value (see [`datatype_of`]).
pub fn datatype(v: &Value) -> (r: Option<String>)
    ensures
        opt_string(r) == datatype_of(v@),
{
    match v {
        Value::Ref(_) => None,
        Value::Str(_) => Some(owned(XSD_STRING)),
        Value::Int(_) => Some(owned(XSD_INTEGER)),
        Value::Bool(_) => Some(owned(XSD_BOOLEAN)),
        Value::Typed { datatype, .. } => Some(datatype.clone()),
    }
}

/// The written form of a numeric value: an integer's decimal digits, or
/// the lexical form of a literal whose datatype is numeric.
pub open spec fn lexical_of(v: ValueView) -> Option<Seq<char>> {
    match v {
        ValueView::Int(n) => Some(signed_decimal(n as int)),
        ValueView::Typed(lex, dt) => if numeric_datatype(dt) {
            Some(lex)
        } else {
            None
        },
        _ => None,
    }
}

/// The written form of a numeric value (see [`lexical_of`]).
fn lexical(v: &Value) -> (r: Option<String>)
    ensures
        opt_string(r) == lexical_of(v@),
{
    match v {
        Value::Int(n) => Some(i64_to_string(*n)),
        Value::Typed { lexical, datatype } => {
            if is_numeric_datatype(datatype.as_str()) {
                Some(lexical.clone())
            } else {
                None
            }
        },
        _ => None,
    }
}

/// The value is an `xsd:float` or `xsd:double`.
pub open spec fn floating(v: ValueView) -> bool {
    datatype_of(v) == Some(XSD_FLOAT@) || datatype_of(v) == Some(XSD_DOUBLE@)
}

/// The value is an `xsd:float` or `xsd:double` (see [`floating`]).
pub fn is_floating(v: &Value) -> (r: bool)
    ensures
        r == floating(v@),
{
    match datatype(v) {
        Some(dt) => str_eq(dt.as_str(), XSD_FLOAT) || str_eq(dt.as_str(), XSD_DOUBLE),
        None => false,
    }
}

/// `s` without one leading sign.
pub open spec fn unsigned_part(s: Seq<char>) -> Seq<char> {
    if s.len() > 0 && (s[0] == '+' || s[0] == '-') {
        s.drop_first()
    } else {
        s
    }
}

/// `s` is an optionally signed run of digits, or, when `dot` allows it, a
/// decimal: at least one digit, and at most one `.` (anywhere) among them.
pub open spec fn decimal_grammar(s: Seq<char>, dot: bool) -> bool {
    let u = unsigned_part(s);
    &&& forall|i: int| 0 <= i < u.len() ==> is_digit(#[trigger] u[i]) || (dot && u[i] == '.')
    &&& exists|i: int| 0 <= i < u.len() && is_digit(#[trigger] u[i])
    &&& forall|i: int, j: int| 0 <= i < j < u.len() ==> !(#[trigger] u[i] == '.' && #[trigger] u[j] == '.')
}

/// The value has an exact decimal reading: it is not floating, it has a
/// numeric written form, and that form is an integer (or, for
/// `xsd:decimal`, a decimal) without an exponent.
pub open spec fn has_decimal(v: ValueView) -> bool {
    &&& !floating(v)
    &&& lexical_of(v) is Some
    &&& decimal_grammar(lexical_of(v)->0, datatype_of(v) == Some(XSD_DECIMAL@))
    &&& dec_scale(unsigned_part(lexical_of(v)->0)) <= max_scale()
}

/// The largest scale a decimal reading can carry (a signed 64-bit exponent).
pub open spec fn max_scale() -> int {
    0x7fff_ffff_ffff_ffff
}

/// The text has a `.`.
pub open spec fn has_dot(s: Seq<char>) -> bool
    decreases s.len(),
{
    s.len() > 0 && (s.last() == '.' || has_dot(s.drop_last()))
}

/// The digits of `s` with the `.` taken out.
pub open spec fn dec_digits(s: Seq<char>) -> Seq<char>
    decreases s.len(),
{
    if s.len() == 0 {
        Seq::empty()
    } else if s.last() == '.' {
        dec_digits(s.drop_last())
    } else {
        dec_digits(s.drop_last()).push(s.last())
    }
}

/// How many digits follow the `.` of `s` (0 without one).
pub open spec fn dec_scale(s: Seq<char>) -> nat
    decreases s.len(),
{
    if s.len() == 0 || s.last() == '.' {
        0
    } else if has_dot(s.drop_last()) {
        dec_scale(s.drop_last()) + 1
    } else {
        0
    }
}

/// The text is negative: it starts with `-`.
pub open spec fn negative_text(s: Seq<char>) -> bool {
    s.len() > 0 && s[0] == '-'
}

/// The exact reading of decimal text: its unscaled digits, signed (`-` in
/// front when the text is negative), and its scale, so that the number is
/// the unscaled integer divided by ten to the scale. `12.50` reads as
/// `1250` at scale 2, `-.5` as `-5` at scale 1, `7.` as `7` at scale 0.
pub open spec fn reading_of(text: Seq<char>) -> (Seq<char>, nat) {
    let u = unsigned_part(text);
    (
        if negative_text(text) {
            seq!['-'] + dec_digits(u)
        } else {
            dec_digits(u)
        },
        dec_scale(u),
    )
}

/// The exact reading of a numeric value: unscaled digits (signed) and
/// scale, as plain values.
pub struct Decimal {
    pub unscaled: String,
    pub scale: u64,
}

impl View for Decimal {
    type V = (Seq<char>, nat);

    open spec fn view(&self) -> (Seq<char>, nat) {
        (self.unscaled@, self.scale as nat)
    }
}

/// The integer written by an optionally `-`-signed run of digits.
pub open spec fn signed_value(s: Seq<char>) -> int {
    if s.len() > 0 && s[0] == '-' {
        -digits_value(s.drop_first())
    } else {
        digits_value(s)
    }
}

/// `s` is an optionally `-`-signed, non-empty run of digits.
pub open spec fn signed_digits(s: Seq<char>) -> bool {
    let d = if s.len() > 0 && s[0] == '-' {
        s.drop_first()
    } else {
        s
    };
    d.len() > 0 && all_digits(d)
}

/// `-1`, `0` or `1` as `x` is below, equal to or above `y`.
pub open spec fn order_of(x: int, y: int) -> i8 {
    if x < y {
        -1i8
    } else if x == y {
        0i8
    } else {
        1i8
    }
}

/// The order of the numbers two readings denote: `a/10^sa` against
/// `b/10^sb`, compared as `a*10^sb` against `b*10^sa`.
pub open spec fn reading_order(a: (Seq<char>, nat), b: (Seq<char>, nat)) -> i8 {
    order_of(signed_value(a.0) * pow(10, b.1), signed_value(b.0) * pow(10, a.1))
}

/// Order two exact readings by the numbers they denote (bigdecimal's `Ord`
/// on `BigDecimal`s parsed from `<unscaled>e-<scale>`, which compares
/// values, not representations: `10` at scale 1 equals `1` at scale 0).
#[verifier::external_body]
fn decimal_order(a: &Decimal, b: &Decimal) -> (r: i8)
    requires
        signed_digits(a.unscaled@),
        signed_digits(b.unscaled@),
        a.scale <= max_scale(),
        b.scale <= max_scale(),
    ensures
        r == reading_order(a@, b@),
{
    let x: bigdecimal::BigDecimal = format!("{}e-{}", a.unscaled, a.scale).parse().unwrap();
    let y: bigdecimal::BigDecimal = format!("{}e-{}", b.unscaled, b.scale).parse().unwrap();
    match x.cmp(&y) {
        std::cmp::Ordering::Less => -1,
        std::cmp::Ordering::Equal => 0,
        std::cmp::Ordering::Greater => 1,
    }
}

/// Whether `text` is of the decimal grammar (see [`decimal_grammar`]).
fn check_decimal_grammar(text: &str, dot: bool) -> (r: bool)
    ensures
        r == decimal_grammar(text@, dot),
{
    let cs = chars_of(text);
    let start: usize = if cs.len() > 0 && (cs[0] == '+' || cs[0] == '-') {
        1
    } else {
        0
    };
    let ghost u = unsigned_part(text@);
    assert(u =~= text@.subrange(start as int, text@.len() as int));
    let mut dots: usize = 0;
    let mut digits: usize = 0;
    let mut i: usize = start;
    while i < cs.len()
        invariant
            start <= i <= cs.len(),
            cs@ == text@,
            u == unsigned_part(text@),
            u == cs@.subrange(start as int, cs@.len() as int),
            forall|k: int| 0 <= k < i - start ==> is_digit(#[trigger] u[k]) || (dot && u[k] == '.'),
            digits > 0 <==> exists|k: int| 0 <= k < i - start && is_digit(#[trigger] u[k]),
            dots <= 1,
            dots == 0 ==> forall|k: int| 0 <= k < i - start ==> #[trigger] u[k] != '.',
            dots == 1 ==> exists|k: int| 0 <= k < i - start && #[trigger] u[k] == '.',
            forall|a: int, b: int| 0 <= a < b < i - start ==> !(#[trigger] u[a] == '.' && #[trigger] u[b] == '.'),
        decreases cs.len() - i,
    {
        let c = cs[i];
        assert(u[i - start] == c);
        if '0' <= c && c <= '9' {
            digits = 1;
        } else if dot && c == '.' {
            if dots == 1 {
                let ghost k = choose|k: int| 0 <= k < i - start && #[trigger] u[k] == '.';
                assert(u[k] == '.' && u[i - start] == '.' && k < i - start);
                assert(!decimal_grammar(text@, dot));
                return false;
            }
            dots = 1;
        } else {
            assert(!is_digit(u[i - start]) && !(dot && u[i - start] == '.'));
            return false;
        }
        i = i + 1;
    }
    if digits == 0 {
        return false;
    }
    true
}

/// The unscaled digits and scale of the unsigned part of decimal text
/// (see [`dec_digits`], [`dec_scale`]).
fn read_digits(text: &str) -> (r: (Vec<char>, usize))
    ensures
        r.0@ == dec_digits(unsigned_part(text@)),
        r.1 == dec_scale(unsigned_part(text@)),
{
    let cs = chars_of(text);
    let start: usize = if cs.len() > 0 && (cs[0] == '+' || cs[0] == '-') {
        1
    } else {
        0
    };
    let ghost u = unsigned_part(text@);
    assert(u =~= cs@.subrange(start as int, cs@.len() as int));
    let mut out: Vec<char> = Vec::new();
    let mut scale: usize = 0;
    let mut seen = false;
    let mut i: usize = start;
    while i < cs.len()
        invariant
            start <= i <= cs.len(),
            u == cs@.subrange(start as int, cs@.len() as int),
            out@ == dec_digits(u.take(i - start)),
            scale == dec_scale(u.take(i - start)),
            seen == has_dot(u.take(i - start)),
            scale <= i - start,
        decreases cs.len() - i,
    {
        let c = cs[i];
        let ghost pre = u.take(i - start);
        assert(u.take(i - start + 1).drop_last() =~= pre);
        assert(u.take(i - start + 1).last() == c);
        if c == '.' {
            seen = true;
            scale = 0;
        } else {
            out.push(c);
            if seen {
                scale = scale + 1;
            }
        }
        i = i + 1;
    }
    assert(u.take(cs.len() - start) =~= u);
    (out, scale)
}

/// The exact reading of a value, when it has one (see [`has_decimal`] and
/// [`reading_of`]).
pub fn decimal(v: &Value) -> (r: Option<Decimal>)
    ensures
        r is Some <==> has_decimal(v@),
        r matches Some(d) ==> d@ == reading_of(lexical_of(v@)->0),
{
    if is_floating(v) {
        return None;
    }
    let text = match lexical(v) {
        Some(t) => t,
        None => return None,
    };
    let is_decimal = match datatype(v) {
        Some(dt) => str_eq(dt.as_str(), XSD_DECIMAL),
        None => false,
    };
    if !check_decimal_grammar(text.as_str(), is_decimal) {
        return None;
    }
    let (digits, scale) = read_digits(text.as_str());
    let scale = scale as u64;
    if scale > 0x7fff_ffff_ffff_ffff {
        return None;
    }
    let cs = chars_of(text.as_str());
    let mut signed: Vec<char> = Vec::new();
    if cs.len() > 0 && cs[0] == '-' {
        signed.push('-');
    }
    let mut k: usize = 0;
    let ghost head = signed@;
    while k < digits.len()
        invariant
            k <= digits@.len(),
            signed@ == head + digits@.take(k as int),
        decreases digits.len() - k,
    {
        signed.push(digits[k]);
        proof {
            assert(digits@.take(k + 1) =~= digits@.take(k as int).push(digits@[k as int]));
        }
        k = k + 1;
    }
    proof {
        assert(digits@.take(digits@.len() as int) =~= digits@);
        assert(cs@ == text@);
        if negative_text(text@) {
            assert(head =~= seq!['-']);
        } else {
            assert(head =~= Seq::<char>::empty());
        }
    }
    Some(Decimal { unscaled: string_from_chars(signed.as_slice()), scale })
}

/// Compare two values by their exact readings: `None` when either has none
/// (see [`has_decimal`]), else `-1`, `0` or `1` as the first number is below,
/// equal to or above the second.
pub fn compare_exact(a: &Value, b: &Value) -> (r: Option<i8>)
    ensures
        (has_decimal(a@) && has_decimal(b@)) <==> r is Some,
        r matches Some(o) ==> o == reading_order(reading_of(lexical_of(a@)->0), reading_of(lexical_of(b@)->0)),
{
    let x = match decimal(a) {
        Some(x) => x,
        None => return None,
    };
    let y = match decimal(b) {
        Some(y) => y,
        None => return None,
    };
    proof {
        lemma_reading_digits(lexical_of(a@)->0, datatype_of(a@) == Some(XSD_DECIMAL@));
        lemma_reading_digits(lexical_of(b@)->0, datatype_of(b@) == Some(XSD_DECIMAL@));
    }
    Some(decimal_order(&x, &y))
}

/// The reading of grammar-conforming text is a non-empty signed run of
/// digits.
proof fn lemma_reading_digits(text: Seq<char>, dot: bool)
    requires
        decimal_grammar(text, dot),
    ensures
        signed_digits(reading_of(text).0),
{
    let u = unsigned_part(text);
    lemma_dec_digits(u);
    let i = choose|i: int| 0 <= i < u.len() && is_digit(#[trigger] u[i]);
    let d = dec_digits(u);
    let r = reading_of(text).0;
    if negative_text(text) {
        assert(r.drop_first() =~= d);
    }
}

/// Taking the dot out of a run of digits and dots leaves only digits, at
/// least one when the run had one.
proof fn lemma_dec_digits(s: Seq<char>)
    requires
        forall|i: int| 0 <= i < s.len() ==> is_digit(#[trigger] s[i]) || s[i] == '.',
    ensures
        all_digits(dec_digits(s)),
        (exists|i: int| 0 <= i < s.len() && is_digit(#[trigger] s[i])) ==> dec_digits(s).len() > 0,
    decreases s.len(),
{
    if s.len() > 0 {
        let p = s.drop_last();
        assert forall|i: int| 0 <= i < p.len() implies is_digit(#[trigger] p[i]) || p[i] == '.' by {
            assert(p[i] == s[i]);
        }
        lemma_dec_digits(p);
        if exists|i: int| 0 <= i < s.len() && is_digit(#[trigger] s[i]) {
            let i = choose|i: int| 0 <= i < s.len() && is_digit(#[trigger] s[i]);
            if i < s.len() - 1 {
                assert(p[i] == s[i]);
            }
        }
    }
}

/// The boolean a value denotes: a boolean, or an `xsd:boolean` literal
/// written `true`, `1`, `false` or `0`.
pub open spec fn boolean_of(v: ValueView) -> Option<bool> {
    match v {
        ValueView::Bool(b) => Some(b),
        ValueView::Typed(lex, dt) => if dt == XSD_BOOLEAN@ {
            if lex == "true"@ || lex == "1"@ {
                Some(true)
            } else if lex == "false"@ || lex == "0"@ {
                Some(false)
            } else {
                None
            }
        } else {
            None
        },
        _ => None,
    }
}

/// The boolean a value denotes (see [`boolean_of`]).
pub fn boolean(v: &Value) -> (r: Option<bool>)
    ensures
        r == boolean_of(v@),
{
    match v {
        Value::Bool(b) => Some(*b),
        Value::Typed { lexical, datatype } => {
            if !str_eq(datatype.as_str(), XSD_BOOLEAN) {
                return None;
            }
            let l = lexical.as_str();
            if str_eq(l, "true") || str_eq(l, "1") {
                Some(true)
            } else if str_eq(l, "false") || str_eq(l, "0") {
                Some(false)
            } else {
                None
            }
        },
        _ => None,
    }
}

} // verus!
