//! The types that a function's parameter can be declared with.

use crate::text::same;
use vstd::prelude::*;

verus! {

/// A declared type.
#[derive(Clone, Copy, PartialEq, Eq, Debug, Structural)]
pub enum TypeTag {
    Int,
    Float,
    Bool,
    Str,
}

/// The type of that name.
pub open spec fn type_named(name: Seq<char>) -> Option<TypeTag> {
    if name == "int"@ {
        Some(TypeTag::Int)
    } else if name == "float"@ {
        Some(TypeTag::Float)
    } else if name == "bool"@ {
        Some(TypeTag::Bool)
    } else if name == "str"@ {
        Some(TypeTag::Str)
    } else {
        None
    }
}

/// Reads a type's name.
pub fn parse_type_name(name: &str) -> (r: Option<TypeTag>)
    ensures
        r == type_named(name@),
{
    if same(name, "int") {
        Some(TypeTag::Int)
    } else if same(name, "float") {
        Some(TypeTag::Float)
    } else if same(name, "bool") {
        Some(TypeTag::Bool)
    } else if same(name, "str") {
        Some(TypeTag::Str)
    } else {
        None
    }
}

/// The truth value that a text writes.
pub open spec fn truth_of(s: Seq<char>) -> Option<bool> {
    if s == "true"@ || s == "1"@ {
        Some(true)
    } else if s == "false"@ || s == "0"@ {
        Some(false)
    } else {
        None
    }
}

/// Reads a truth value.
pub fn parse_truth(s: &str) -> (r: Option<bool>)
    ensures
        r == truth_of(s@),
{
    if same(s, "true") || same(s, "1") {
        Some(true)
    } else if same(s, "false") || same(s, "0") {
        Some(false)
    } else {
        None
    }
}

} // verus!
