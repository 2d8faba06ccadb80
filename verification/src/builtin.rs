//! The builtins: the two services that a program calls by name and that the
//! runtime hands on to its host. The runtime checks the name and the shape
//! of the call; it formats nothing and writes nowhere.

use vstd::prelude::*;
use crate::error::Fault;

verus! {

/// A call target among the builtins.
#[derive(Clone, Copy, Debug, PartialEq, Eq, Structural)]
pub enum Builtin {
    /// `io.printf`: formatted output of a template and its arguments.
    Print,
    /// `array.create`: the array factory.
    ArrayCreate,
}

/// The builtin that `namespace.name` stands for.
pub open spec fn builtin_named(namespace: Seq<char>, name: Seq<char>) -> Option<Builtin> {
    if namespace == "io"@ && name == "printf"@ {
        Some(Builtin::Print)
    } else if namespace == "array"@ && name == "create"@ {
        Some(Builtin::ArrayCreate)
    } else {
        None
    }
}

impl Builtin {
    /// Whether the builtin takes a call with `count` arguments, with or
    /// without an element type. The print service wants a template and any
    /// number of further arguments; the array factory wants the type of the
    /// elements and one dimension at least.
    pub open spec fn accepts_spec(self, typed: bool, count: int) -> bool {
        match self {
            Builtin::Print => !typed && count >= 1,
            Builtin::ArrayCreate => typed && count >= 1,
        }
    }

    /// Whether the builtin takes a call of that shape.
    pub fn accepts(self, typed: bool, count: usize) -> (ok: bool)
        ensures
            ok == self.accepts_spec(typed, count as int),
    {
        match self {
            Builtin::Print => !typed && count >= 1,
            Builtin::ArrayCreate => typed && count >= 1,
        }
    }
}

/// The names under which the builtins are reached.
#[derive(Debug)]
pub struct Bridge {
    io: String,
    printf: String,
    array: String,
    create: String,
}

impl Bridge {
    /// The names are the ones that programs use.
    pub closed spec fn wf(self) -> bool {
        &&& self.io@ == "io"@
        &&& self.printf@ == "printf"@
        &&& self.array@ == "array"@
        &&& self.create@ == "create"@
    }

    /// The bridge with the two builtins.
    pub fn new() -> (bridge: Bridge)
        ensures
            bridge.wf(),
    {
        Bridge {
            io: "io".to_owned(),
            printf: "printf".to_owned(),
            array: "array".to_owned(),
            create: "create".to_owned(),
        }
    }

    /// The builtin that `namespace.name` stands for. A name that stands for
    /// none is an `UnresolvedMethod`.
    pub fn resolve(&self, namespace: &String, name: &String) -> (res: Result<Builtin, Fault>)
        requires
            self.wf(),
        ensures
            res == match builtin_named(namespace@, name@) {
                Some(b) => Ok::<Builtin, Fault>(b),
                None => Err::<Builtin, Fault>(Fault::UnresolvedMethod),
            },
    {
        if *namespace == self.io && *name == self.printf {
            Ok(Builtin::Print)
        } else if *namespace == self.array && *name == self.create {
            Ok(Builtin::ArrayCreate)
        } else {
            Err(Fault::UnresolvedMethod)
        }
    }
}

} // verus!
