//! What an expression comes to once its operands are evaluated.

use vstd::prelude::*;
use crate::array::ArrayObject;
use crate::builtin::{builtin_named, Builtin};
use crate::class::{lemma_position, position, ClassTable, Member};
use crate::error::Fault;
use crate::heap::Heap;
use crate::machine::{all_held, operand_count, Frame, FrameView, Outcome, OutcomeView, Request, Work, WorkView};
use crate::program::{Program, Runtime};
use crate::syntax::{BinOp, Expr, Stmt, TypeName};
use crate::thread::{BoundMethod, ThreadHandle, ThreadState};
use crate::value::{ElementKind, Value};

verus! {

/// What a piece of work changes in the state that the tasks share.
pub enum Effect {
    Nothing,
    /// A new instance of the class.
    NewInstance(usize),
    /// A new array of the kind and dimensions.
    NewArray(ElementKind, Seq<i64>),
    /// The value is written to the slot of the instance.
    WriteSlot(usize, int, Value),
    /// The value is written to the static field.
    WriteStatic(Member, Value),
    /// The value is written to the position in the array.
    WriteCell(usize, int, Value),
    /// A new thread for the bound method.
    Spawn(BoundMethod),
}

/// What a piece of work comes to, and what it changes.
pub struct Reduction {
    pub outcome: OutcomeView,
    pub effect: Effect,
}

/// A reduction that changes nothing.
pub open spec fn pure(outcome: OutcomeView) -> Reduction {
    Reduction { outcome, effect: Effect::Nothing }
}

/// A failure, which changes nothing.
pub open spec fn fail(f: Fault) -> Reduction {
    Reduction { outcome: OutcomeView::Fail(f), effect: Effect::Nothing }
}

impl Runtime {
    /// Whether two states hold the same.
    pub open spec fn same(self, other: Runtime) -> bool {
        self.heap.same(other.heap) && self.threads@ == other.threads@
    }

    /// Whether `other` is this state after `effect`, and differs in nothing
    /// else.
    pub open spec fn after(self, classes: ClassTable, effect: Effect, other: Runtime) -> bool {
        match effect {
            Effect::Nothing => self.same(other),
            Effect::NewInstance(c) => {
                let r = self.heap.objects().len() as int;
                &&& other.threads@ == self.threads@
                &&& other.heap.arrays() == self.heap.arrays()
                &&& other.heap.statics() == self.heap.statics()
                &&& other.heap.objects().len() == r + 1
                &&& forall|i: int| 0 <= i < r ==> other.heap.objects()[i] == self.heap.objects()[i]
                &&& other.heap.objects()[r].class == c
                &&& other.heap.objects()[r].slots@ == Heap::fresh_slots(classes, c as int)
            },
            Effect::NewArray(kind, dims) => {
                let a = self.heap.arrays().len() as int;
                &&& other.threads@ == self.threads@
                &&& other.heap.objects() == self.heap.objects()
                &&& other.heap.statics() == self.heap.statics()
                &&& other.heap.arrays().len() == a + 1
                &&& forall|i: int| 0 <= i < a ==> other.heap.arrays()[i] == self.heap.arrays()[i]
                &&& other.heap.arrays()[a].wf()
                &&& other.heap.arrays()[a].kind() == kind
                &&& other.heap.arrays()[a].shape() == dims
                &&& forall|i: int|
                    0 <= i < other.heap.arrays()[a]@.len() ==> other.heap.arrays()[a]@[i]
                        == kind.default_value()
            },
            Effect::WriteSlot(r, k, v) => {
                &&& other.threads@ == self.threads@
                &&& self.heap.slot_written(other.heap, r as int, k, v)
            },
            Effect::WriteStatic(m, v) => {
                &&& other.threads@ == self.threads@
                &&& self.heap.static_written(other.heap, m, v)
            },
            Effect::WriteCell(a, p, v) => {
                &&& other.threads@ == self.threads@
                &&& self.heap.cell_written(other.heap, a as int, p, v)
            },
            Effect::Spawn(bound) => {
                &&& self.heap.same(other.heap)
                &&& other.threads@ == self.threads@.push(
                    ThreadHandle { bound, state: ThreadState::Running },
                )
            },
        }
    }
}

/// Whether the value is a number.
pub open spec fn numeric(v: Value) -> bool {
    v is Int || v is Float
}

/// What a binary operator gives for two values. Integers are computed on
/// the spot, and wrap around. Where a float takes part the host is asked.
/// Any two values can be compared for equality; arithmetic on anything but
/// numbers is a `TypeMismatch`.
pub open spec fn binary_spec(op: BinOp, a: Value, b: Value) -> OutcomeView {
    if numeric(a) && numeric(b) && (a is Float || b is Float) {
        OutcomeView::Wait(Request::Arith(op, a, b))
    } else {
        match op {
            BinOp::Equal => OutcomeView::Value(Value::Bool(a == b)),
            _ => if a is Int && b is Int {
                let x = a->Int_0;
                let y = b->Int_0;
                OutcomeView::Value(
                    Value::Int(
                        match op {
                            BinOp::Add => x.wrapping_add(y),
                            BinOp::Sub => x.wrapping_sub(y),
                            _ => x.wrapping_mul(y),
                        },
                    ),
                )
            } else {
                OutcomeView::Fail(Fault::TypeMismatch)
            },
        }
    }
}

/// Whether the value is a number.
fn is_numeric(v: Value) -> (res: bool)
    ensures
        res == numeric(v),
{
    match v {
        Value::Int(_) => true,
        Value::Float(_) => true,
        _ => false,
    }
}

/// Whether the value is a float.
fn is_float(v: Value) -> (res: bool)
    ensures
        res == (v is Float),
{
    match v {
        Value::Float(_) => true,
        _ => false,
    }
}

/// What a binary operator gives for two values.
pub fn binary<'a>(op: BinOp, a: Value, b: Value) -> (out: Outcome<'a>)
    ensures
        out@ == binary_spec(op, a, b),
{
    if is_numeric(a) && is_numeric(b) && (is_float(a) || is_float(b)) {
        return Outcome::Wait(Request::Arith(op, a, b));
    }
    match op {
        BinOp::Equal => Outcome::Value(Value::Bool(a == b)),
        _ => match (a, b) {
            (Value::Int(x), Value::Int(y)) => Outcome::Value(
                Value::Int(
                    match op {
                        BinOp::Add => x.wrapping_add(y),
                        BinOp::Sub => x.wrapping_sub(y),
                        _ => x.wrapping_mul(y),
                    },
                ),
            ),
            _ => Outcome::Fail(Fault::TypeMismatch),
        },
    }
}

/// The integers that the values are, if each of them is one.
pub open spec fn as_ints(values: Seq<Value>) -> Option<Seq<i64>> {
    if forall|i: int| 0 <= i < values.len() ==> (#[trigger] values[i]) is Int {
        Some(Seq::new(values.len(), |i: int| values[i]->Int_0))
    } else {
        None
    }
}

/// The integers that the values are, if each of them is one.
pub fn integers(values: &Vec<Value>) -> (res: Option<Vec<i64>>)
    ensures
        match res {
            Some(v) => as_ints(values@) == Some(v@),
            None => as_ints(values@) is None,
        },
{
    let n: usize = values.len();
    let mut out: Vec<i64> = Vec::new();
    let mut i: usize = 0;
    while i < n
        invariant
            n == values@.len(),
            i <= n,
            out@.len() == i,
            forall|j: int| 0 <= j < i ==> (#[trigger] values@[j]) is Int && out@[j] == values@[j]->Int_0,
        decreases n - i,
    {
        match values[i] {
            Value::Int(x) => {
                out.push(x);
            },
            _ => {
                return None;
            },
        }
        i += 1;
    }
    proof {
        assert(out@ =~= Seq::new(values@.len(), |i: int| values@[i]->Int_0));
    }
    Some(out)
}

/// The kind of element that a declared type stands for. A class has to be
/// registered; there are no arrays of nothing.
pub open spec fn kind_spec(classes: ClassTable, ty: TypeName) -> Result<ElementKind, Fault> {
    match ty {
        TypeName::Int => Ok(ElementKind::Int),
        TypeName::Float => Ok(ElementKind::Float),
        TypeName::Bool => Ok(ElementKind::Bool),
        TypeName::Str => Ok(ElementKind::Str),
        TypeName::Void => Err(Fault::TypeMismatch),
        TypeName::Class(name) => match position(classes.names(), name@) {
            Some(c) => Ok(ElementKind::Object(c as usize)),
            None => Err(Fault::UnresolvedClass),
        },
    }
}

/// The kind of element that a declared type stands for.
pub fn element_kind(classes: &ClassTable, ty: &TypeName) -> (res: Result<ElementKind, Fault>)
    ensures
        res == kind_spec(*classes, *ty),
{
    match ty {
        TypeName::Int => Ok(ElementKind::Int),
        TypeName::Float => Ok(ElementKind::Float),
        TypeName::Bool => Ok(ElementKind::Bool),
        TypeName::Str => Ok(ElementKind::Str),
        TypeName::Void => Err(Fault::TypeMismatch),
        TypeName::Class(name) => match classes.find(name) {
            Some(c) => Ok(ElementKind::Object(c)),
            None => Err(Fault::UnresolvedClass),
        },
    }
}

/// The frame in which a method starts: its arguments take the first slots,
/// and its whole body is the work that is left.
pub open spec fn entry_frame(
    this: Value,
    arguments: Seq<Value>,
    body: Vec<Stmt>,
    constructing: bool,
) -> FrameView {
    FrameView { this, locals: arguments, work: seq![WorkView::Block(body, 0)], constructing }
}

/// What a call of `name` on `receiver` comes to. The method is looked up
/// from the class of the instance: the class that it was made as, not the
/// type of whatever variable led to it.
pub open spec fn call_spec(
    program: Program,
    rt: Runtime,
    name: Seq<char>,
    receiver: Value,
    arguments: Seq<Value>,
) -> OutcomeView {
    match receiver {
        Value::Object(r) => match program.classes.resolve_method_spec(
            rt.heap.objects()[r as int].class as int,
            name,
        ) {
            None => OutcomeView::Fail(Fault::UnresolvedMethod),
            Some(m) => {
                let method = program.classes@[m.class as int].def.methods@[m.index as int];
                if method.params@.len() != arguments.len() {
                    OutcomeView::Fail(Fault::TypeMismatch)
                } else {
                    OutcomeView::Enter(entry_frame(receiver, arguments, method.body, false))
                }
            },
        },
        _ => OutcomeView::Fail(Fault::TypeMismatch),
    }
}

/// What making an instance of class `c` comes to: the instance is
/// allocated, its fields holding their initial values, and the constructor,
/// which is the method with the name of the class, runs on it with the
/// arguments; whatever the constructor returns, the instance is handed
/// back. Constructors are not chained: the one that is found runs, and no
/// other. A class without a constructor takes no arguments. Where the
/// constructor cannot be called, nothing is allocated.
pub open spec fn instantiate_spec(program: Program, rt: Runtime, c: int, arguments: Seq<Value>) -> Reduction {
    let made = Value::Object(rt.heap.objects().len() as usize);
    let effect = Effect::NewInstance(c as usize);
    match program.classes.resolve_method_spec(c, program.classes@[c].def.name@) {
        None => if arguments.len() == 0 {
            Reduction { outcome: OutcomeView::Value(made), effect }
        } else {
            fail(Fault::UnresolvedMethod)
        },
        Some(m) => {
            let method = program.classes@[m.class as int].def.methods@[m.index as int];
            if method.params@.len() != arguments.len() {
                fail(Fault::TypeMismatch)
            } else {
                Reduction {
                    outcome: OutcomeView::Enter(entry_frame(made, arguments, method.body, true)),
                    effect,
                }
            }
        },
    }
}

/// What `new` comes to: the class is looked up by its name, and an instance
/// of it is made.
pub open spec fn new_spec(
    program: Program,
    rt: Runtime,
    class: Seq<char>,
    arguments: Seq<Value>,
) -> Reduction {
    match position(program.classes.names(), class) {
        None => fail(Fault::UnresolvedClass),
        Some(c) => instantiate_spec(program, rt, c, arguments),
    }
}

/// What a call of a builtin comes to.
pub open spec fn builtin_spec(
    program: Program,
    rt: Runtime,
    namespace: Seq<char>,
    name: Seq<char>,
    element: Option<TypeName>,
    arguments: Seq<Value>,
) -> Reduction {
    match builtin_named(namespace, name) {
        None => fail(Fault::UnresolvedMethod),
        Some(b) => if !b.accepts_spec(element is Some, arguments.len() as int) {
            fail(Fault::TypeMismatch)
        } else {
            match b {
                Builtin::Print => if arguments[0] is Str {
                    pure(OutcomeView::Print(arguments))
                } else {
                    fail(Fault::TypeMismatch)
                },
                Builtin::ArrayCreate => match kind_spec(program.classes, element.unwrap()) {
                    Err(f) => fail(f),
                    Ok(kind) => match as_ints(arguments) {
                        None => fail(Fault::TypeMismatch),
                        Some(dims) => match ArrayObject::create_fault(dims) {
                            Some(f) => fail(f),
                            None => Reduction {
                                outcome: OutcomeView::Value(
                                    Value::Array(rt.heap.arrays().len() as usize),
                                ),
                                effect: Effect::NewArray(kind, dims),
                            },
                        },
                    },
                },
            }
        },
    }
}

/// What an expression comes to, given the values of its operands.
pub open spec fn eval_spec(
    program: Program,
    rt: Runtime,
    this: Value,
    locals: Seq<Value>,
    e: Expr,
    values: Seq<Value>,
) -> Reduction {
    match e {
        Expr::Literal(l) => pure(OutcomeView::Value(l.value_spec())),
        Expr::This => pure(OutcomeView::Value(this)),
        Expr::Local(slot) => pure(
            OutcomeView::Value(
                if slot < locals.len() {
                    locals[slot as int]
                } else {
                    Value::Null
                },
            ),
        ),
        Expr::Field(_, name) => match values[0] {
            Value::Object(r) => match rt.heap.get_field_spec(program.classes, r as int, name@) {
                Ok(v) => pure(OutcomeView::Value(v)),
                Err(f) => fail(f),
            },
            _ => fail(Fault::TypeMismatch),
        },
        Expr::Static(class, name) => match position(program.classes.names(), class@) {
            None => fail(Fault::UnresolvedClass),
            Some(c) => match rt.heap.get_static_spec(program.classes, c, name@) {
                Ok(v) => pure(OutcomeView::Value(v)),
                Err(f) => fail(f),
            },
        },
        Expr::Binary(op, _, _) => pure(binary_spec(op, values[0], values[1])),
        Expr::Call(_, name, _) => pure(call_spec(program, rt, name@, values[0], values.remove(0))),
        Expr::New(class, _) => new_spec(program, rt, class@, values),
        Expr::Index(_, _) => match values[0] {
            Value::Array(a) => match as_ints(values.remove(0)) {
                None => fail(Fault::TypeMismatch),
                Some(indices) => match rt.heap.array_get_spec(a as int, indices) {
                    Ok(v) => pure(OutcomeView::Value(v)),
                    Err(f) => fail(f),
                },
            },
            _ => fail(Fault::TypeMismatch),
        },
        Expr::Builtin { namespace, name, element, .. } => builtin_spec(
            program,
            rt,
            namespace@,
            name@,
            element,
            values,
        ),
    }
}

/// The frame in which `method` starts.
fn enter<'a>(
    this: Value,
    arguments: Vec<Value>,
    body: &'a Vec<Stmt>,
    constructing: bool,
) -> (frame: Frame<'a>)
    ensures
        frame@ == entry_frame(this, arguments@, *body, constructing),
{
    let mut work: Vec<Work<'a>> = Vec::new();
    work.push(Work::Block(body, 0));
    let frame = Frame { this, locals: arguments, work, constructing };
    proof {
        assert(frame@.work =~= seq![WorkView::Block(*body, 0)]);
    }
    frame
}

/// A frame that starts a method is in order where its receiver and its
/// arguments are.
pub proof fn lemma_entry_frame_ok(
    heap: Heap,
    this: Value,
    arguments: Seq<Value>,
    body: Vec<Stmt>,
    constructing: bool,
)
    requires
        heap.holds(this),
        all_held(heap, arguments),
    ensures
        entry_frame(this, arguments, body, constructing).ok(heap),
{
    let f = entry_frame(this, arguments, body, constructing);
    assert forall|i: int| 0 <= i < f.work.len() implies (#[trigger] f.work[i]).ok(heap) by {
        assert(f.work[i] == WorkView::Block(body, 0));
    }
}

/// What a call of `name` on `receiver` comes to.
fn eval_call<'a>(
    program: &'a Program,
    rt: &Runtime,
    name: &String,
    receiver: Value,
    arguments: Vec<Value>,
) -> (out: Outcome<'a>)
    requires
        program.wf(),
        rt.wf(program.classes),
        rt.heap.holds(receiver),
        all_held(rt.heap, arguments@),
    ensures
        out@ == call_spec(*program, *rt, name@, receiver, arguments@),
        out@.ok(rt.heap),
{
    match receiver {
        Value::Object(r) => {
            proof {
                assert(rt.heap.object_ok(program.classes, r as int));
            }
            let c: usize = rt.heap.class_of(r);
            match program.classes.resolve_method(c, name) {
                None => Outcome::Fail(Fault::UnresolvedMethod),
                Some(m) => {
                    let method = program.classes.method(m);
                    if method.params.len() != arguments.len() {
                        Outcome::Fail(Fault::TypeMismatch)
                    } else {
                        proof {
                            lemma_entry_frame_ok(rt.heap, receiver, arguments@, method.body, false);
                        }
                        Outcome::Enter(enter(receiver, arguments, &method.body, false))
                    }
                },
            }
        },
        _ => Outcome::Fail(Fault::TypeMismatch),
    }
}

/// Makes an instance of class `c` and gets its constructor going.
pub fn instantiate<'a>(
    program: &'a Program,
    rt: &mut Runtime,
    c: usize,
    arguments: Vec<Value>,
) -> (out: Outcome<'a>)
    requires
        program.wf(),
        old(rt).wf(program.classes),
        c < program.classes@.len(),
        all_held(old(rt).heap, arguments@),
    ensures
        final(rt).wf(program.classes),
        old(rt).precedes(*final(rt)),
        out@ == instantiate_spec(*program, *old(rt), c as int, arguments@).outcome,
        old(rt).after(
            program.classes,
            instantiate_spec(*program, *old(rt), c as int, arguments@).effect,
            *final(rt),
        ),
        out@.ok(final(rt).heap),
{
    match program.classes.resolve_method(c, &program.classes.get(c).def.name) {
        None => {
            if arguments.len() == 0 {
                let r: usize = rt.heap.allocate(&program.classes, c);
                Outcome::Value(Value::Object(r))
            } else {
                Outcome::Fail(Fault::UnresolvedMethod)
            }
        },
        Some(m) => {
            let method = program.classes.method(m);
            if method.params.len() != arguments.len() {
                Outcome::Fail(Fault::TypeMismatch)
            } else {
                let r: usize = rt.heap.allocate(&program.classes, c);
                proof {
                    assert forall|i: int| 0 <= i < arguments@.len() implies rt.heap.holds(
                        #[trigger] arguments@[i],
                    ) by {
                        assert(old(rt).heap.holds(arguments@[i]));
                    }
                    lemma_entry_frame_ok(rt.heap, Value::Object(r), arguments@, method.body, true);
                }
                Outcome::Enter(enter(Value::Object(r), arguments, &method.body, true))
            }
        },
    }
}

/// What `new` comes to.
fn eval_new<'a>(
    program: &'a Program,
    rt: &mut Runtime,
    class: &String,
    arguments: Vec<Value>,
) -> (out: Outcome<'a>)
    requires
        program.wf(),
        old(rt).wf(program.classes),
        all_held(old(rt).heap, arguments@),
    ensures
        final(rt).wf(program.classes),
        old(rt).precedes(*final(rt)),
        out@ == new_spec(*program, *old(rt), class@, arguments@).outcome,
        old(rt).after(
            program.classes,
            new_spec(*program, *old(rt), class@, arguments@).effect,
            *final(rt),
        ),
        out@.ok(final(rt).heap),
{
    match program.classes.find(class) {
        None => Outcome::Fail(Fault::UnresolvedClass),
        Some(c) => {
            proof {
                lemma_position(program.classes.names(), class@);
            }
            instantiate(program, rt, c, arguments)
        },
    }
}

/// What a call of a builtin comes to.
fn eval_builtin<'a>(
    program: &'a Program,
    rt: &mut Runtime,
    namespace: &String,
    name: &String,
    element: &Option<TypeName>,
    arguments: Vec<Value>,
) -> (out: Outcome<'a>)
    requires
        program.wf(),
        old(rt).wf(program.classes),
        all_held(old(rt).heap, arguments@),
    ensures
        final(rt).wf(program.classes),
        old(rt).precedes(*final(rt)),
        out@ == builtin_spec(*program, *old(rt), namespace@, name@, *element, arguments@).outcome,
        old(rt).after(
            program.classes,
            builtin_spec(*program, *old(rt), namespace@, name@, *element, arguments@).effect,
            *final(rt),
        ),
        out@.ok(final(rt).heap),
{
    let b: Builtin = match program.bridge.resolve(namespace, name) {
        Err(f) => {
            return Outcome::Fail(f);
        },
        Ok(b) => b,
    };
    if !b.accepts(element.is_some(), arguments.len()) {
        return Outcome::Fail(Fault::TypeMismatch);
    }
    match b {
        Builtin::Print => match arguments[0] {
            Value::Str(_) => Outcome::Print(arguments),
            _ => Outcome::Fail(Fault::TypeMismatch),
        },
        Builtin::ArrayCreate => {
            let kind: ElementKind = match element {
                Some(ty) => match element_kind(&program.classes, ty) {
                    Err(f) => {
                        return Outcome::Fail(f);
                    },
                    Ok(kind) => kind,
                },
                None => {
                    return Outcome::Fail(Fault::TypeMismatch);
                },
            };
            let dims: Vec<i64> = match integers(&arguments) {
                None => {
                    return Outcome::Fail(Fault::TypeMismatch);
                },
                Some(dims) => dims,
            };
            match rt.heap.create_array(&program.classes, kind, &dims) {
                Err(f) => Outcome::Fail(f),
                Ok(a) => Outcome::Value(Value::Array(a)),
            }
        },
    }
}

/// What reading an array at the given indices comes to.
fn eval_index<'a>(program: &'a Program, rt: &Runtime, array: Value, indices: Vec<Value>) -> (out: Outcome<'a>)
    requires
        program.wf(),
        rt.wf(program.classes),
        rt.heap.holds(array),
    ensures
        out@ == match array {
            Value::Array(a) => match as_ints(indices@) {
                None => OutcomeView::Fail(Fault::TypeMismatch),
                Some(i) => match rt.heap.array_get_spec(a as int, i) {
                    Ok(v) => OutcomeView::Value(v),
                    Err(f) => OutcomeView::Fail(f),
                },
            },
            _ => OutcomeView::Fail(Fault::TypeMismatch),
        },
        out@.ok(rt.heap),
{
    match array {
        Value::Array(a) => match integers(&indices) {
            None => Outcome::Fail(Fault::TypeMismatch),
            Some(i) => match rt.heap.array_get(&program.classes, a, &i) {
                Ok(v) => Outcome::Value(v),
                Err(f) => Outcome::Fail(f),
            },
        },
        _ => Outcome::Fail(Fault::TypeMismatch),
    }
}

/// What the expression `e` comes to, given the values of its operands, in
/// a frame with the given receiver and local variables.
pub fn evaluate<'a>(
    program: &'a Program,
    rt: &mut Runtime,
    this: Value,
    locals: &Vec<Value>,
    e: &'a Expr,
    values: Vec<Value>,
) -> (out: Outcome<'a>)
    requires
        program.wf(),
        old(rt).wf(program.classes),
        values@.len() == operand_count(*e),
        old(rt).heap.holds(this),
        all_held(old(rt).heap, locals@),
        all_held(old(rt).heap, values@),
    ensures
        final(rt).wf(program.classes),
        old(rt).precedes(*final(rt)),
        out@ == eval_spec(*program, *old(rt), this, locals@, *e, values@).outcome,
        old(rt).after(
            program.classes,
            eval_spec(*program, *old(rt), this, locals@, *e, values@).effect,
            *final(rt),
        ),
        out@.ok(final(rt).heap),
{
    match e {
        Expr::Literal(l) => Outcome::Value(l.value()),
        Expr::This => Outcome::Value(this),
        Expr::Local(slot) => {
            if *slot < locals.len() {
                Outcome::Value(locals[*slot])
            } else {
                Outcome::Value(Value::Null)
            }
        },
        Expr::Field(_, name) => match values[0] {
            Value::Object(r) => match rt.heap.get_field(&program.classes, r, name) {
                Ok(v) => Outcome::Value(v),
                Err(f) => Outcome::Fail(f),
            },
            _ => Outcome::Fail(Fault::TypeMismatch),
        },
        Expr::Static(class, name) => match program.classes.find(class) {
            None => Outcome::Fail(Fault::UnresolvedClass),
            Some(c) => {
                proof {
                    lemma_position(program.classes.names(), class@);
                }
                match rt.heap.get_static(&program.classes, c, name) {
                    Ok(v) => Outcome::Value(v),
                    Err(f) => Outcome::Fail(f),
                }
            },
        },
        Expr::Binary(op, _, _) => binary(*op, values[0], values[1]),
        Expr::Call(_, name, _) => {
            let mut arguments = values;
            let receiver: Value = arguments.remove(0);
            proof {
                assert forall|i: int| 0 <= i < arguments@.len() implies rt.heap.holds(
                    #[trigger] arguments@[i],
                ) by {
                    assert(arguments@[i] == values@[i + 1]);
                }
            }
            eval_call(program, rt, name, receiver, arguments)
        },
        Expr::New(class, _) => eval_new(program, rt, class, values),
        Expr::Index(_, _) => {
            let mut indices = values;
            let array: Value = indices.remove(0);
            eval_index(program, rt, array, indices)
        },
        Expr::Builtin { namespace, name, element, .. } => eval_builtin(
            program,
            rt,
            namespace,
            name,
            element,
            values,
        ),
    }
}

/// A call on an instance of a class that declares the method runs the body
/// that this class declares: the class that the instance was made as
/// decides, whatever its ancestors declare under the name.
pub proof fn lemma_call_runs_override(
    program: Program,
    rt: Runtime,
    name: Seq<char>,
    r: usize,
    arguments: Seq<Value>,
    i: int,
)
    requires
        r < rt.heap.objects().len(),
        rt.heap.objects()[r as int].class < program.classes@.len(),
        position(program.classes@[rt.heap.objects()[r as int].class as int].def.method_names(), name)
            == Some(i),
    ensures
        ({
            let s = rt.heap.objects()[r as int].class as int;
            let method = program.classes@[s].def.methods@[i];
            call_spec(program, rt, name, Value::Object(r), arguments) == if method.params@.len()
                == arguments.len() {
                OutcomeView::Enter(entry_frame(Value::Object(r), arguments, method.body, false))
            } else {
                OutcomeView::Fail(Fault::TypeMismatch)
            }
        }),
{
    let s = rt.heap.objects()[r as int].class as int;
    lemma_position(program.classes@[s].def.method_names(), name);
    program.classes.lemma_count_fits();
    assert(program.classes@[s].def.methods.len() == program.classes@[s].def.methods@.len());
}

/// A call on an instance of a class that does not declare the method, but
/// whose parent does, runs the body that the parent declares.
pub proof fn lemma_call_runs_inherited(
    program: Program,
    rt: Runtime,
    name: Seq<char>,
    r: usize,
    arguments: Seq<Value>,
    p: int,
    i: int,
)
    requires
        r < rt.heap.objects().len(),
        rt.heap.objects()[r as int].class < program.classes@.len(),
        program.classes.up(rt.heap.objects()[r as int].class as int) == Some(p),
        position(program.classes@[rt.heap.objects()[r as int].class as int].def.method_names(), name) is None,
        position(program.classes@[p].def.method_names(), name) == Some(i),
    ensures
        ({
            let method = program.classes@[p].def.methods@[i];
            call_spec(program, rt, name, Value::Object(r), arguments) == if method.params@.len()
                == arguments.len() {
                OutcomeView::Enter(entry_frame(Value::Object(r), arguments, method.body, false))
            } else {
                OutcomeView::Fail(Fault::TypeMismatch)
            }
        }),
{
    let c = rt.heap.objects()[r as int].class as int;
    program.classes.lemma_inherited_method(c, p, name, i);
    lemma_position(program.classes@[p].def.method_names(), name);
    program.classes.lemma_count_fits();
    assert(program.classes@[p].def.methods.len() == program.classes@[p].def.methods@.len());
}

} // verus!
