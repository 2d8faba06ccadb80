//! An object runtime for a small class-based scripting language: class
//! definitions with single inheritance, instances and static fields,
//! virtual dispatch, fixed-shape multi-dimensional arrays, and the
//! bookkeeping for threads that run a bound method.
//!
//! Every function carries a contract that Verus proves against the body.

pub mod error;
pub mod value;
pub mod array;
pub mod syntax;
pub mod class;
pub mod heap;
pub mod thread;
pub mod builtin;
pub mod program;
pub mod machine;
pub mod eval;
pub mod exec;
