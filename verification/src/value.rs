//! Scalar values and their type tags.
//!
//! A scalar is an integer, a real number, or a piece of text.  Real numbers
//! are carried by the text that denotes them (see [`crate::parse`] for the
//! grammar): the engine never computes with them, it only stores, moves and
//! partitions them, so the denotation is the faithful representation.

use vstd::prelude::*;

verus! {

/// The type tag of a column or of a scalar: the three kinds form a chain of
/// generality, `Int` below `Float` below `Str`.
#[derive(Debug, Clone, Copy, PartialEq, Eq, Structural)]
pub enum Kind {
    Int,
    Float,
    Str,
}

/// A scalar tagged with exactly one [`Kind`].  `Float` holds the textual form
/// of the number it stands for.
#[derive(Debug, Clone)]
pub enum Value {
    Int(i64),
    Float(String),
    Str(String),
}

/// The mathematical shape of a [`Value`]: text is a sequence of characters.
#[verifier::ext_equal]
pub enum ValueModel {
    Int(i64),
    Float(Seq<char>),
    Str(Seq<char>),
}

impl View for Value {
    type V = ValueModel;

    open spec fn view(&self) -> ValueModel {
        match self {
            Value::Int(i) => ValueModel::Int(*i),
            Value::Float(s) => ValueModel::Float(s@),
            Value::Str(s) => ValueModel::Str(s@),
        }
    }
}

/// The tag of a scalar.
pub open spec fn kind_of(v: ValueModel) -> Kind {
    match v {
        ValueModel::Int(_) => Kind::Int,
        ValueModel::Float(_) => Kind::Float,
        ValueModel::Str(_) => Kind::Str,
    }
}

/// Position of a kind in the chain Int < Float < Str.
pub open spec fn kind_rank(k: Kind) -> int {
    match k {
        Kind::Int => 0,
        Kind::Float => 1,
        Kind::Str => 2,
    }
}

/// The ordering of generality: `a` is at most as general as `b`.
pub open spec fn kind_le(a: Kind, b: Kind) -> bool {
    kind_rank(a) <= kind_rank(b)
}

/// The more general of two kinds; the join of the chain Int < Float < Str.
pub open spec fn kind_join(a: Kind, b: Kind) -> Kind {
    if kind_le(a, b) {
        b
    } else {
        a
    }
}

impl Value {
    /// The integer behind the tag, or nothing when the tag differs.
    pub fn as_int(self) -> (r: Option<i64>)
        ensures
            r == (match self@ {
                ValueModel::Int(i) => Some(i),
                _ => None::<i64>,
            }),
    {
        match self {
            Value::Int(i) => Some(i),
            Value::Float(_) => None,
            Value::Str(_) => None,
        }
    }

    /// The text of the real number behind the tag, or nothing when the tag
    /// differs.
    pub fn as_float(self) -> (r: Option<String>)
        ensures
            (match self@ {
                ValueModel::Float(s) => r is Some && r.unwrap()@ == s,
                _ => r is None,
            }),
    {
        match self {
            Value::Int(_) => None,
            Value::Float(s) => Some(s),
            Value::Str(_) => None,
        }
    }

    /// The text behind the tag, or nothing when the tag differs.
    pub fn as_str(self) -> (r: Option<String>)
        ensures
            (match self@ {
                ValueModel::Str(s) => r is Some && r.unwrap()@ == s,
                _ => r is None,
            }),
    {
        match self {
            Value::Int(_) => None,
            Value::Float(_) => None,
            Value::Str(s) => Some(s),
        }
    }
}

} // verus!
