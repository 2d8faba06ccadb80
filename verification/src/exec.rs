//! What a statement comes to once its operands are evaluated.

use vstd::prelude::*;
use crate::array::offset;
use crate::class::{lemma_position, position};
use crate::error::Fault;
use crate::eval::{as_ints, fail, pure, Effect, Reduction};
use crate::heap::Stored;
use crate::machine::{all_held, part_count, Outcome, OutcomeView, Request, Work, WorkView};
use crate::program::{Program, Runtime};
use crate::syntax::Stmt;
use crate::thread::BoundMethod;
use crate::value::{ElementKind, Value};

verus! {

/// The local variables after `v` was assigned to the one in `slot`. The
/// slots between the end and `slot` come into being, holding null.
pub open spec fn stored(locals: Seq<Value>, slot: int, v: Value) -> Seq<Value> {
    Seq::new(
        if slot < locals.len() {
            locals.len()
        } else {
            (slot + 1) as nat
        },
        |i: int|
            if i == slot {
                v
            } else if i < locals.len() {
                locals[i]
            } else {
                Value::Null
            },
    )
}

/// Assigns `v` to the local variable in `slot`.
pub fn store_local(locals: &mut Vec<Value>, slot: usize, v: Value)
    ensures
        final(locals)@ == stored(old(locals)@, slot as int, v),
{
    let ghost before = locals@;
    while locals.len() <= slot
        invariant
            before.len() <= locals@.len(),
            locals@.len() <= slot + 1 || locals@.len() == before.len(),
            forall|i: int| 0 <= i < before.len() ==> locals@[i] == before[i],
            forall|i: int| before.len() <= i < locals@.len() ==> locals@[i] == Value::Null,
        decreases slot + 1 - locals@.len(),
    {
        locals.push(Value::Null);
    }
    locals.set(slot, v);
    proof {
        assert(locals@ =~= stored(before, slot as int, v));
    }
}

/// The local variables after the statement.
pub open spec fn locals_after(locals: Seq<Value>, s: Stmt, values: Seq<Value>) -> Seq<Value> {
    match s {
        Stmt::SetLocal(slot, _) => stored(locals, slot as int, values[0]),
        _ => locals,
    }
}

/// What an assignment to a field through an instance comes to.
pub open spec fn set_field_spec(
    program: Program,
    rt: Runtime,
    name: Seq<char>,
    object: Value,
    v: Value,
) -> Reduction {
    match object {
        Value::Object(r) => {
            let c = rt.heap.objects()[r as int].class as int;
            match program.classes.resolve_field_spec(c, name) {
                None => fail(Fault::UnresolvedField),
                Some(m) => Reduction {
                    outcome: OutcomeView::Done,
                    effect: if program.classes@[m.class as int].def.fields@[m.index as int].is_static {
                        Effect::WriteStatic(m, v)
                    } else {
                        Effect::WriteSlot(r, position(program.classes.layout_spec(c), m).unwrap(), v)
                    },
                },
            }
        },
        _ => fail(Fault::TypeMismatch),
    }
}

/// What an assignment to a static field through its class comes to.
pub open spec fn set_static_spec(program: Program, class: Seq<char>, name: Seq<char>, v: Value) -> Reduction {
    match position(program.classes.names(), class) {
        None => fail(Fault::UnresolvedClass),
        Some(c) => match program.classes.resolve_field_spec(c, name) {
            None => fail(Fault::UnresolvedField),
            Some(m) => if program.classes@[m.class as int].def.fields@[m.index as int].is_static {
                Reduction { outcome: OutcomeView::Done, effect: Effect::WriteStatic(m, v) }
            } else {
                fail(Fault::UnresolvedField)
            },
        },
    }
}

/// What an assignment to a slot of an array comes to. The values are the
/// array, the indices and the value to write, in this order. An integer for
/// an array of floats sends the statement back to wait for the float that
/// the host promotes it to.
pub open spec fn set_index_spec(program: Program, rt: Runtime, s: Stmt, values: Seq<Value>) -> Reduction {
    let v = values.last();
    match values[0] {
        Value::Array(a) => match as_ints(values.subrange(1, values.len() - 1)) {
            None => fail(Fault::TypeMismatch),
            Some(indices) => match rt.heap.arrays()[a as int].locate_fault(indices) {
                Some(f) => fail(f),
                None => if rt.heap.arrays()[a as int].kind() == ElementKind::Float && v is Int {
                    pure(
                        OutcomeView::Retry(
                            WorkView::Exec(s, values.drop_last()),
                            Request::Promote(v->Int_0),
                        ),
                    )
                } else if !rt.heap.admits(program.classes, rt.heap.arrays()[a as int].kind(), v) {
                    fail(Fault::TypeMismatch)
                } else {
                    Reduction {
                        outcome: OutcomeView::Done,
                        effect: Effect::WriteCell(a, offset(rt.heap.arrays()[a as int].shape(), indices), v),
                    }
                },
            },
        },
        _ => fail(Fault::TypeMismatch),
    }
}

/// What spawning a thread for method `name` of `receiver` comes to. The
/// method is bound at once, by the class of the instance, and it has to
/// take no arguments.
pub open spec fn spawn_spec(program: Program, rt: Runtime, name: Seq<char>, receiver: Value) -> Reduction {
    match receiver {
        Value::Object(r) => match program.classes.resolve_method_spec(
            rt.heap.objects()[r as int].class as int,
            name,
        ) {
            None => fail(Fault::UnresolvedMethod),
            Some(m) => if program.classes@[m.class as int].def.methods@[m.index as int].params@.len() != 0 {
                fail(Fault::TypeMismatch)
            } else {
                Reduction {
                    outcome: OutcomeView::Spawned(rt.threads@.len() as usize),
                    effect: Effect::Spawn(BoundMethod { receiver: r, method: m }),
                }
            },
        },
        _ => fail(Fault::TypeMismatch),
    }
}

/// What a statement comes to, given the values of its operands.
pub open spec fn exec_spec(program: Program, rt: Runtime, s: Stmt, values: Seq<Value>) -> Reduction {
    match s {
        Stmt::SetLocal(_, _) => pure(OutcomeView::Done),
        Stmt::SetField(_, name, _) => set_field_spec(program, rt, name@, values[0], values[1]),
        Stmt::SetStatic(class, name, _) => set_static_spec(program, class@, name@, values[0]),
        Stmt::SetIndex(_, _, _) => set_index_spec(program, rt, s, values),
        Stmt::If(_, yes, no) => match values[0] {
            Value::Bool(b) => pure(
                OutcomeView::Push(
                    WorkView::Block(
                        if b {
                            yes
                        } else {
                            no
                        },
                        0,
                    ),
                ),
            ),
            _ => fail(Fault::TypeMismatch),
        },
        Stmt::Foreach(_, _, _, _) => if values[0] is Int && values[1] is Int {
            pure(OutcomeView::Push(WorkView::Loop(s, values[0]->Int_0, values[1]->Int_0)))
        } else {
            fail(Fault::TypeMismatch)
        },
        Stmt::Return(value) => pure(
            OutcomeView::Leave(
                if value is Some {
                    values[0]
                } else {
                    Value::Null
                },
            ),
        ),
        Stmt::Eval(_) => pure(OutcomeView::Done),
        Stmt::Spawn(_, name) => spawn_spec(program, rt, name@, values[0]),
    }
}

/// The integers that the values from `from` up to `to` are, if each of them
/// is one.
fn integers_in(values: &Vec<Value>, from: usize, to: usize) -> (res: Option<Vec<i64>>)
    requires
        from <= to <= values@.len(),
    ensures
        match res {
            Some(v) => as_ints(values@.subrange(from as int, to as int)) == Some(v@),
            None => as_ints(values@.subrange(from as int, to as int)) is None,
        },
{
    let ghost part = values@.subrange(from as int, to as int);
    let mut out: Vec<i64> = Vec::new();
    let mut i: usize = from;
    while i < to
        invariant
            from <= i <= to <= values@.len(),
            part == values@.subrange(from as int, to as int),
            out@.len() == i - from,
            forall|j: int| 0 <= j < i - from ==> (#[trigger] part[j]) is Int && out@[j] == part[j]->Int_0,
        decreases to - i,
    {
        match values[i] {
            Value::Int(x) => {
                out.push(x);
            },
            _ => {
                proof {
                    assert(!(part[i - from] is Int));
                }
                return None;
            },
        }
        i += 1;
    }
    proof {
        assert(out@ =~= Seq::new(part.len(), |i: int| part[i]->Int_0));
    }
    Some(out)
}

/// What an assignment to a field through an instance comes to.
fn exec_set_field<'a>(
    program: &'a Program,
    rt: &mut Runtime,
    name: &String,
    object: Value,
    v: Value,
) -> (out: Outcome<'a>)
    requires
        program.wf(),
        old(rt).wf(program.classes),
        old(rt).heap.holds(object),
        old(rt).heap.holds(v),
    ensures
        final(rt).wf(program.classes),
        old(rt).precedes(*final(rt)),
        out@ == set_field_spec(*program, *old(rt), name@, object, v).outcome,
        old(rt).after(program.classes, set_field_spec(*program, *old(rt), name@, object, v).effect, *final(rt)),
{
    match object {
        Value::Object(r) => match rt.heap.set_field(&program.classes, r, name, v) {
            Ok(_) => Outcome::Done,
            Err(f) => Outcome::Fail(f),
        },
        _ => Outcome::Fail(Fault::TypeMismatch),
    }
}

/// What an assignment to a static field through its class comes to.
fn exec_set_static<'a>(
    program: &'a Program,
    rt: &mut Runtime,
    class: &String,
    name: &String,
    v: Value,
) -> (out: Outcome<'a>)
    requires
        program.wf(),
        old(rt).wf(program.classes),
        old(rt).heap.holds(v),
    ensures
        final(rt).wf(program.classes),
        old(rt).precedes(*final(rt)),
        out@ == set_static_spec(*program, class@, name@, v).outcome,
        old(rt).after(program.classes, set_static_spec(*program, class@, name@, v).effect, *final(rt)),
{
    match program.classes.find(class) {
        None => Outcome::Fail(Fault::UnresolvedClass),
        Some(c) => {
            proof {
                lemma_position(program.classes.names(), class@);
            }
            match rt.heap.set_static(&program.classes, c, name, v) {
                Ok(_) => Outcome::Done,
                Err(f) => Outcome::Fail(f),
            }
        },
    }
}

/// What an assignment to a slot of an array comes to.
fn exec_set_index<'a>(
    program: &'a Program,
    rt: &mut Runtime,
    s: &'a Stmt,
    values: Vec<Value>,
) -> (out: Outcome<'a>)
    requires
        program.wf(),
        old(rt).wf(program.classes),
        *s is SetIndex,
        values@.len() == part_count(*s),
        all_held(old(rt).heap, values@),
    ensures
        final(rt).wf(program.classes),
        old(rt).precedes(*final(rt)),
        out@ == set_index_spec(*program, *old(rt), *s, values@).outcome,
        old(rt).after(program.classes, set_index_spec(*program, *old(rt), *s, values@).effect, *final(rt)),
        out@.ok(final(rt).heap),
{
    let n: usize = values.len();
    let v: Value = values[n - 1];
    let a: usize = match values[0] {
        Value::Array(a) => a,
        _ => {
            return Outcome::Fail(Fault::TypeMismatch);
        },
    };
    let indices: Vec<i64> = match integers_in(&values, 1, n - 1) {
        None => {
            return Outcome::Fail(Fault::TypeMismatch);
        },
        Some(indices) => indices,
    };
    match rt.heap.array_set(&program.classes, a, &indices, v) {
        Err(f) => Outcome::Fail(f),
        Ok(Stored::Done) => Outcome::Done,
        Ok(Stored::Promote(i)) => {
            let mut values = values;
            values.pop();
            Outcome::Retry(Work::Exec(s, values), Request::Promote(i))
        },
    }
}

/// What spawning a thread comes to.
fn exec_spawn<'a>(
    program: &'a Program,
    rt: &mut Runtime,
    name: &String,
    receiver: Value,
) -> (out: Outcome<'a>)
    requires
        program.wf(),
        old(rt).wf(program.classes),
        old(rt).heap.holds(receiver),
    ensures
        final(rt).wf(program.classes),
        old(rt).precedes(*final(rt)),
        out@ == spawn_spec(*program, *old(rt), name@, receiver).outcome,
        old(rt).after(program.classes, spawn_spec(*program, *old(rt), name@, receiver).effect, *final(rt)),
{
    match receiver {
        Value::Object(r) => {
            proof {
                assert(rt.heap.object_ok(program.classes, r as int));
            }
            let c: usize = rt.heap.class_of(r);
            match program.classes.resolve_method(c, name) {
                None => Outcome::Fail(Fault::UnresolvedMethod),
                Some(m) => {
                    if program.classes.method(m).params.len() != 0 {
                        Outcome::Fail(Fault::TypeMismatch)
                    } else {
                        let t: usize = rt.threads.spawn(BoundMethod { receiver: r, method: m });
                        Outcome::Spawned(t)
                    }
                },
            }
        },
        _ => Outcome::Fail(Fault::TypeMismatch),
    }
}

/// What the statement `s` comes to, given the values of its operands, in a
/// frame with the given local variables.
pub fn perform<'a>(
    program: &'a Program,
    rt: &mut Runtime,
    locals: &mut Vec<Value>,
    s: &'a Stmt,
    values: Vec<Value>,
) -> (out: Outcome<'a>)
    requires
        program.wf(),
        old(rt).wf(program.classes),
        values@.len() == part_count(*s),
        all_held(old(rt).heap, old(locals)@),
        all_held(old(rt).heap, values@),
    ensures
        final(rt).wf(program.classes),
        old(rt).precedes(*final(rt)),
        out@ == exec_spec(*program, *old(rt), *s, values@).outcome,
        old(rt).after(program.classes, exec_spec(*program, *old(rt), *s, values@).effect, *final(rt)),
        final(locals)@ == locals_after(old(locals)@, *s, values@),
        all_held(final(rt).heap, final(locals)@),
        out@.ok(final(rt).heap),
{
    match s {
        Stmt::SetLocal(slot, _) => {
            store_local(locals, *slot, values[0]);
            Outcome::Done
        },
        Stmt::SetField(_, name, _) => exec_set_field(program, rt, name, values[0], values[1]),
        Stmt::SetStatic(class, name, _) => exec_set_static(program, rt, class, name, values[0]),
        Stmt::SetIndex(_, _, _) => exec_set_index(program, rt, s, values),
        Stmt::If(_, yes, no) => match values[0] {
            Value::Bool(b) => if b {
                Outcome::Push(Work::Block(yes, 0))
            } else {
                Outcome::Push(Work::Block(no, 0))
            },
            _ => Outcome::Fail(Fault::TypeMismatch),
        },
        Stmt::Foreach(_, _, _, _) => match (values[0], values[1]) {
            (Value::Int(low), Value::Int(high)) => Outcome::Push(Work::Loop(s, low, high)),
            _ => Outcome::Fail(Fault::TypeMismatch),
        },
        Stmt::Return(value) => if value.is_some() {
            Outcome::Leave(values[0])
        } else {
            Outcome::Leave(Value::Null)
        },
        Stmt::Eval(_) => Outcome::Done,
        Stmt::Spawn(_, name) => exec_spawn(program, rt, name, values[0]),
    }
}

} // verus!
