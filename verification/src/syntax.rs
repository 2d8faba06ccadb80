//! The structured form in which a front end hands over method bodies.

use vstd::prelude::*;
use crate::value::Value;

verus! {

/// A type as a declaration names it. At run time only the defaults of
/// fields and the kinds of array elements depend on it.
#[derive(Debug)]
pub enum TypeName {
    Int,
    Float,
    Bool,
    Str,
    /// No value: the return type of a method that returns nothing.
    Void,
    /// A class, by its name.
    Class(String),
}

impl TypeName {
    /// What a variable of this type holds before it is assigned: zero,
    /// false or null.
    pub open spec fn default_value(self) -> Value {
        match self {
            TypeName::Int => Value::Int(0),
            TypeName::Float => Value::Float(0),
            TypeName::Bool => Value::Bool(false),
            _ => Value::Null,
        }
    }

    /// What a variable of this type holds before it is assigned.
    pub fn initial(&self) -> (v: Value)
        ensures
            v == self.default_value(),
    {
        match self {
            TypeName::Int => Value::Int(0),
            TypeName::Float => Value::Float(0),
            TypeName::Bool => Value::Bool(false),
            _ => Value::Null,
        }
    }
}

/// A constant.
#[derive(Clone, Copy, Debug, PartialEq, Eq, Structural)]
pub enum Literal {
    Int(i64),
    /// A binary64 number, as its bit pattern.
    Float(u64),
    Bool(bool),
    /// A string, by its position in the program's literal pool.
    Str(usize),
    Null,
}

impl Literal {
    /// The value that the constant stands for.
    pub open spec fn value_spec(self) -> Value {
        match self {
            Literal::Int(i) => Value::Int(i),
            Literal::Float(b) => Value::Float(b),
            Literal::Bool(b) => Value::Bool(b),
            Literal::Str(s) => Value::Str(s),
            Literal::Null => Value::Null,
        }
    }

    /// The value that the constant stands for.
    pub fn value(self) -> (v: Value)
        ensures
            v == self.value_spec(),
    {
        match self {
            Literal::Int(i) => Value::Int(i),
            Literal::Float(b) => Value::Float(b),
            Literal::Bool(b) => Value::Bool(b),
            Literal::Str(s) => Value::Str(s),
            Literal::Null => Value::Null,
        }
    }
}

/// A binary operator.
#[derive(Clone, Copy, Debug, PartialEq, Eq, Structural)]
pub enum BinOp {
    Add,
    Sub,
    Mul,
    /// Equality of two values.
    Equal,
}

/// An expression.
#[derive(Debug)]
pub enum Expr {
    Literal(Literal),
    /// The receiver of the running method.
    This,
    /// A parameter or local variable, by its slot in the frame.
    Local(usize),
    /// `object.name`
    Field(Box<Expr>, String),
    /// `Class.name`, a static field reached through its class.
    Static(String, String),
    Binary(BinOp, Box<Expr>, Box<Expr>),
    /// `receiver.name(arguments)`
    Call(Box<Expr>, String, Vec<Expr>),
    /// `new Class(arguments)`
    New(String, Vec<Expr>),
    /// `array[i1, i2, ...]`
    Index(Box<Expr>, Vec<Expr>),
    /// `namespace.name(arguments)`, a call of a builtin. The array factory
    /// takes the type of the elements as `element`.
    Builtin { namespace: String, name: String, element: Option<TypeName>, arguments: Vec<Expr> },
}

/// A statement.
#[derive(Debug)]
pub enum Stmt {
    /// Declares or assigns the local variable in the given slot.
    SetLocal(usize, Expr),
    /// `object.name = value`
    SetField(Expr, String, Expr),
    /// `Class.name = value`
    SetStatic(String, String, Expr),
    /// `array[i1, i2, ...] = value`
    SetIndex(Expr, Vec<Expr>, Expr),
    /// `if (condition) { .. } else { .. }`
    If(Expr, Vec<Stmt>, Vec<Stmt>),
    /// `foreach slot in low..high { .. }`: the variable runs from `low` up
    /// to, and without, `high`.
    Foreach(usize, Expr, Expr, Vec<Stmt>),
    /// `return;` or `return value;`
    Return(Option<Expr>),
    /// An expression whose value is dropped.
    Eval(Expr),
    /// `thread(receiver.name)`: spawns a thread that runs the method.
    Spawn(Expr, String),
}

} // verus!
