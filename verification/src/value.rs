//! Fact values and the library's error type.

use vstd::prelude::*;

verus! {

/// The value slot of a fact: a reference to another term, or a literal.
#[derive(Debug, Clone, PartialEq, Eq)]
pub enum Value {
    /// A reference to an interned term (an IRI), by term id.
    Ref(i64),
    /// A plain string literal.
    Str(String),
    /// An integer literal.
    Int(i64),
    /// A boolean literal.
    Bool(bool),
    /// A literal that kept its datatype IRI.
    Typed { lexical: String, datatype: String },
}

/// The mathematical content of a [`Value`].
pub ghost enum ValueView {
    Ref(i64),
    Str(Seq<char>),
    Int(i64),
    Bool(bool),
    Typed(Seq<char>, Seq<char>),
}

impl View for Value {
    type V = ValueView;

    open spec fn view(&self) -> ValueView {
        match self {
            Value::Ref(id) => ValueView::Ref(*id),
            Value::Str(s) => ValueView::Str(s@),
            Value::Int(n) => ValueView::Int(*n),
            Value::Bool(b) => ValueView::Bool(*b),
            Value::Typed { lexical, datatype } => ValueView::Typed(lexical@, datatype@),
        }
    }
}

impl Value {
    /// Whether two values hold the same content.
    pub fn same(&self, other: &Value) -> (r: bool)
        ensures
            r == (self@ == other@),
    {
        match (self, other) {
            (Value::Ref(a), Value::Ref(b)) => *a == *b,
            (Value::Str(a), Value::Str(b)) => *a == *b,
            (Value::Int(a), Value::Int(b)) => *a == *b,
            (Value::Bool(a), Value::Bool(b)) => *a == *b,
            (
                Value::Typed { lexical: la, datatype: da },
                Value::Typed { lexical: lb, datatype: db },
            ) => *la == *lb && *da == *db,
            _ => false,
        }
    }

    /// A copy with the same content.
    pub fn copy(&self) -> (r: Value)
        ensures
            r@ == self@,
    {
        match self {
            Value::Ref(id) => Value::Ref(*id),
            Value::Str(s) => Value::Str(s.clone()),
            Value::Int(n) => Value::Int(*n),
            Value::Bool(b) => Value::Bool(*b),
            Value::Typed { lexical, datatype } => Value::Typed {
                lexical: lexical.clone(),
                datatype: datatype.clone(),
            },
        }
    }

    /// The referenced term id, when this value is a reference.
    pub fn as_ref_id(&self) -> (r: Option<i64>)
        ensures
            r == (match self@ {
                ValueView::Ref(id) => Some(id),
                _ => None::<i64>,
            }),
    {
        match self {
            Value::Ref(id) => Some(*id),
            _ => None,
        }
    }
}

/// Errors reported by the library.
#[derive(Debug, Clone, PartialEq, Eq)]
pub enum Error {
    /// The request named something that does not exist or is malformed.
    InvalidValue(String),
    /// The request is well-formed but refused by policy (e.g. the wrong verb).
    PolicyDenied(String),
}

impl Error {
    /// The human-readable message carried by the error.
    pub open spec fn text(&self) -> Seq<char> {
        match self {
            Error::InvalidValue(m) => m@,
            Error::PolicyDenied(m) => m@,
        }
    }

    /// The error is an `InvalidValue`.
    pub open spec fn is_invalid(&self) -> bool {
        self is InvalidValue
    }

    /// The human-readable message carried by the error.
    pub fn message(&self) -> (m: String)
        ensures
            m@ == self.text(),
    {
        match self {
            Error::InvalidValue(m) => m.clone(),
            Error::PolicyDenied(m) => m.clone(),
        }
    }
}

} // verus!
