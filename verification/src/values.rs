//! Plain argument values carried in event and publish payloads.
//!
//! An argument list is an ordered sequence of values; an argument map keys
//! values by strings. Both are modelled in specifications by their deep
//! views, so contracts speak of `Seq` and `Seq<char>` rather than of heap
//! values.

use vstd::prelude::*;

verus! {

/// One dynamically typed argument value.
#[derive(Debug, Clone, PartialEq, Eq)]
pub enum Value {
    Null,
    Bool(bool),
    Int(u64),
    Text(String),
}

/// The mathematical shape of a [`Value`].
pub enum ValueV {
    Null,
    Bool(bool),
    Int(u64),
    Text(Seq<char>),
}

impl DeepView for Value {
    type V = ValueV;

    open spec fn deep_view(&self) -> ValueV {
        match self {
            Value::Null => ValueV::Null,
            Value::Bool(b) => ValueV::Bool(*b),
            Value::Int(n) => ValueV::Int(*n),
            Value::Text(s) => ValueV::Text(s.deep_view()),
        }
    }
}

/// An ordered list of positional arguments.
pub type List = Vec<Value>;

/// A string-keyed map of keyword arguments, held in insertion order.
pub type Dict = Vec<(String, Value)>;

/// The mathematical shape of an argument list.
pub type ListV = Seq<ValueV>;

/// The mathematical shape of an argument map.
pub type DictV = Seq<(Seq<char>, ValueV)>;

} // verus!
