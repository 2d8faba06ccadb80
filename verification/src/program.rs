//! A loaded program, and the state that it runs on.

use vstd::prelude::*;
use crate::builtin::Bridge;
use crate::class::{ClassDef, ClassTable, MethodDef};
use crate::error::Fault;
use crate::heap::Heap;
use crate::thread::ThreadTable;

verus! {

/// A program as it is loaded: it does not change while it runs.
#[derive(Debug)]
pub struct Program {
    pub classes: ClassTable,
    /// The method at which the main path starts. It has no receiver.
    pub entry: MethodDef,
    /// The string literals; a string value is a position in this pool.
    pub strings: Vec<String>,
    pub bridge: Bridge,
}

/// Whether `table` holds just the first `n` of `defs`, in their order.
pub open spec fn holds_first(table: ClassTable, defs: Seq<ClassDef>, n: int) -> bool {
    &&& table.wf()
    &&& table@.len() == n
    &&& forall|c: int| 0 <= c < n ==> (#[trigger] table@[c]).def == defs[c]
}

impl Program {
    /// The classes are well linked, and the builtins have their names.
    pub open spec fn wf(self) -> bool {
        &&& self.classes.wf()
        &&& self.bridge.wf()
    }

    /// Registers the classes in the order given, so a parent comes before
    /// its children. The first class that is turned down ends the loading
    /// with its fault; the loading succeeds where each class is taken by
    /// the table of those before it.
    pub fn load(defs: Vec<ClassDef>, entry: MethodDef, strings: Vec<String>) -> (res: Result<Program, Fault>)
        ensures
            match res {
                Ok(p) => {
                    &&& p.wf()
                    &&& holds_first(p.classes, defs@, defs@.len() as int)
                    &&& p.entry == entry
                    &&& p.strings == strings
                    &&& forall|table: ClassTable, n: int|
                        0 <= n < defs@.len() && #[trigger] holds_first(table, defs@, n)
                            ==> table.define_fault(defs@[n]) is None
                },
                Err(f) => exists|table: ClassTable, n: int|
                    0 <= n < defs@.len() && #[trigger] holds_first(table, defs@, n) && table.define_fault(
                        defs@[n],
                    ) == Some(f),
            },
    {
        let ghost all = defs@;
        let mut rest: Vec<ClassDef> = defs;
        let mut queue: Vec<ClassDef> = Vec::new();
        while rest.len() > 0
            invariant
                rest@.len() + queue@.len() == all.len(),
                forall|i: int| 0 <= i < rest@.len() ==> rest@[i] == all[i],
                forall|i: int| 0 <= i < queue@.len() ==> queue@[i] == all[all.len() - 1 - i],
            decreases rest@.len(),
        {
            let def = rest.pop().unwrap();
            queue.push(def);
        }
        let mut classes: ClassTable = ClassTable::new();
        while queue.len() > 0
            invariant
                all == defs@,
                classes@.len() + queue@.len() == all.len(),
                forall|i: int| 0 <= i < queue@.len() ==> queue@[i] == all[all.len() - 1 - i],
                holds_first(classes, all, classes@.len() as int),
                forall|table: ClassTable, m: int|
                    0 <= m < classes@.len() && #[trigger] holds_first(table, all, m) ==> table.define_fault(
                        all[m],
                    ) is None,
            decreases queue@.len(),
        {
            let ghost before = classes;
            let ghost n = classes@.len() as int;
            let def = queue.pop().unwrap();
            assert(def == all[n]);
            match classes.define_class(def) {
                Ok(_) => {
                    proof {
                        assert forall|c: int| 0 <= c < n + 1 implies (#[trigger] classes@[c]).def == all[c] by {
                            if c < n {
                                assert(before@[c].def == all[c]);
                            }
                        }
                        assert forall|table: ClassTable, m: int|
                            0 <= m < n + 1 && #[trigger] holds_first(table, all, m) implies table.define_fault(
                            all[m],
                        ) is None by {
                            if m == n {
                                assert forall|c: int| 0 <= c < n implies (#[trigger] before@[c]).def
                                    == table@[c].def by {
                                    assert(before@[c].def == all[c]);
                                    assert(table@[c].def == all[c]);
                                }
                                before.lemma_defs_settle_answer(table, all[n]);
                            }
                        }
                    }
                },
                Err(f) => {
                    proof {
                        assert(holds_first(before, all, n));
                        assert(before.define_fault(all[n]) == Some(f));
                        assert(all == defs@);
                    }
                    return Err(f);
                },
            }
        }
        Ok(Program { classes, entry, strings, bridge: Bridge::new() })
    }
}

/// The state that the tasks of a running program share.
#[derive(Debug)]
pub struct Runtime {
    pub heap: Heap,
    pub threads: ThreadTable,
}

impl Runtime {
    /// The heap is well formed, and every thread is bound to an instance of
    /// the heap and to a method of a registered class.
    pub open spec fn wf(self, classes: ClassTable) -> bool {
        &&& self.heap.wf(classes)
        &&& forall|t: int|
            0 <= t < self.threads@.len() ==> {
                &&& (#[trigger] self.threads@[t]).bound.receiver < self.heap.objects().len()
                &&& classes.has_method(self.threads@[t].bound.method)
            }
    }

    /// Whether `later` can be this state some steps on: nothing was taken
    /// from the heap, every instance kept its class, every array its kind
    /// and its shape, and no thread was forgotten.
    pub open spec fn precedes(self, later: Runtime) -> bool {
        &&& self.heap.objects().len() <= later.heap.objects().len()
        &&& self.heap.arrays().len() <= later.heap.arrays().len()
        &&& self.threads@.len() <= later.threads@.len()
        &&& forall|r: int|
            0 <= r < self.heap.objects().len() ==> (#[trigger] later.heap.objects()[r]).class
                == self.heap.objects()[r].class
        &&& forall|a: int|
            0 <= a < self.heap.arrays().len() ==> (#[trigger] later.heap.arrays()[a]).shape()
                == self.heap.arrays()[a].shape() && later.heap.arrays()[a].kind()
                == self.heap.arrays()[a].kind()
        &&& forall|t: int|
            0 <= t < self.threads@.len() ==> (#[trigger] later.threads@[t]).bound == self.threads@[t].bound
    }

    /// The state before anything ran: the static fields hold their initial
    /// values, and there is no instance, no array and no thread.
    pub fn new(program: &Program) -> (rt: Runtime)
        ensures
            rt.wf(program.classes),
            rt.heap.objects().len() == 0,
            rt.heap.arrays().len() == 0,
            rt.heap.statics() == Heap::fresh_statics(program.classes),
            rt.threads@.len() == 0,
    {
        Runtime { heap: Heap::new(&program.classes), threads: ThreadTable::new() }
    }
}

} // verus!
