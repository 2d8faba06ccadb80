//! Runtime values and the kinds of array elements.

use vstd::prelude::*;

verus! {

/// A value of the language. Objects, arrays and strings are held by handle,
/// so copying a value never copies what it refers to.
#[derive(Clone, Copy, Debug, PartialEq, Eq, Structural)]
pub enum Value {
    /// A signed 64-bit integer.
    Int(i64),
    /// A binary64 number, held as its bit pattern.
    Float(u64),
    Bool(bool),
    /// A string literal, by its position in the program's literal pool.
    Str(usize),
    /// An instance, by its handle in the heap.
    Object(usize),
    /// An array, by its handle in the heap.
    Array(usize),
    Null,
}

/// What the slots of an array hold.
#[derive(Clone, Copy, Debug, PartialEq, Eq, Structural)]
pub enum ElementKind {
    Int,
    Float,
    Bool,
    Str,
    /// Instances of the class with this identifier, or of a descendant.
    Object(usize),
}

impl ElementKind {
    /// The content of a slot that was never written: zero, false or null.
    pub open spec fn default_value(self) -> Value {
        match self {
            ElementKind::Int => Value::Int(0),
            ElementKind::Float => Value::Float(0),
            ElementKind::Bool => Value::Bool(false),
            ElementKind::Str => Value::Null,
            ElementKind::Object(_) => Value::Null,
        }
    }

    /// The content of a slot that was never written.
    pub fn initial(self) -> (v: Value)
        ensures
            v == self.default_value(),
    {
        match self {
            ElementKind::Int => Value::Int(0),
            ElementKind::Float => Value::Float(0),
            ElementKind::Bool => Value::Bool(false),
            ElementKind::Str => Value::Null,
            ElementKind::Object(_) => Value::Null,
        }
    }
}

} // verus!
