//! The machine that runs method bodies, one small step at a time.
//!
//! A task is one thread of execution: a stack of frames, each with the work
//! that is left in its method. A step takes the topmost piece of work and
//! does it. Whatever the host has to do (print, compute with floats, start
//! a thread) comes back from the step as the action to take.

use vstd::prelude::*;
use crate::error::Fault;
use crate::class::ClassTable;
use crate::eval::{entry_frame, eval_spec, evaluate, lemma_entry_frame_ok, Effect};
use crate::exec::{exec_spec, locals_after, perform, store_local, stored};
use crate::heap::Heap;
use crate::program::{Program, Runtime};
use crate::thread::{ThreadHandle, ThreadState};
use crate::syntax::{BinOp, Expr, Stmt};
use crate::value::Value;

verus! {

/// The number of operands of an expression: the expressions that are
/// evaluated, from left to right, before the expression itself.
pub open spec fn operand_count(e: Expr) -> nat {
    match e {
        Expr::Field(_, _) => 1,
        Expr::Binary(_, _, _) => 2,
        Expr::Call(_, _, arguments) => 1 + arguments@.len(),
        Expr::New(_, arguments) => arguments@.len(),
        Expr::Index(_, indices) => 1 + indices@.len(),
        Expr::Builtin { arguments, .. } => arguments@.len(),
        _ => 0,
    }
}

/// Operand `k` of an expression.
pub open spec fn operand(e: Expr, k: int) -> Expr {
    match e {
        Expr::Field(object, _) => *object,
        Expr::Binary(_, left, right) => if k == 0 {
            *left
        } else {
            *right
        },
        Expr::Call(receiver, _, arguments) => if k == 0 {
            *receiver
        } else {
            arguments@[k - 1]
        },
        Expr::New(_, arguments) => arguments@[k],
        Expr::Index(array, indices) => if k == 0 {
            *array
        } else {
            indices@[k - 1]
        },
        Expr::Builtin { arguments, .. } => arguments@[k],
        _ => e,
    }
}

/// Operand `k` of an expression, if it has that many.
pub fn next_operand<'a>(e: &'a Expr, k: usize) -> (res: Option<&'a Expr>)
    ensures
        match res {
            Some(x) => k < operand_count(*e) && *x == operand(*e, k as int),
            None => k >= operand_count(*e),
        },
{
    match e {
        Expr::Field(object, _) => if k == 0 {
            Some(&**object)
        } else {
            None
        },
        Expr::Binary(_, left, right) => if k == 0 {
            Some(&**left)
        } else if k == 1 {
            Some(&**right)
        } else {
            None
        },
        Expr::Call(receiver, _, arguments) => if k == 0 {
            Some(&**receiver)
        } else if k - 1 < arguments.len() {
            Some(&arguments[k - 1])
        } else {
            None
        },
        Expr::New(_, arguments) => if k < arguments.len() {
            Some(&arguments[k])
        } else {
            None
        },
        Expr::Index(array, indices) => if k == 0 {
            Some(&**array)
        } else if k - 1 < indices.len() {
            Some(&indices[k - 1])
        } else {
            None
        },
        Expr::Builtin { arguments, .. } => if k < arguments.len() {
            Some(&arguments[k])
        } else {
            None
        },
        _ => None,
    }
}

/// The number of operands of a statement.
pub open spec fn part_count(s: Stmt) -> nat {
    match s {
        Stmt::SetLocal(_, _) => 1,
        Stmt::SetField(_, _, _) => 2,
        Stmt::SetStatic(_, _, _) => 1,
        Stmt::SetIndex(_, indices, _) => 2 + indices@.len(),
        Stmt::If(_, _, _) => 1,
        Stmt::Foreach(_, _, _, _) => 2,
        Stmt::Return(value) => if value is Some {
            1
        } else {
            0
        },
        Stmt::Eval(_) => 1,
        Stmt::Spawn(_, _) => 1,
    }
}

/// Operand `k` of a statement. In an assignment the target comes before the
/// value.
pub open spec fn part(s: Stmt, k: int) -> Expr {
    match s {
        Stmt::SetLocal(_, value) => value,
        Stmt::SetField(object, _, value) => if k == 0 {
            object
        } else {
            value
        },
        Stmt::SetStatic(_, _, value) => value,
        Stmt::SetIndex(array, indices, value) => if k == 0 {
            array
        } else if k - 1 < indices@.len() {
            indices@[k - 1]
        } else {
            value
        },
        Stmt::If(condition, _, _) => condition,
        Stmt::Foreach(_, low, high, _) => if k == 0 {
            low
        } else {
            high
        },
        Stmt::Return(value) => value.unwrap(),
        Stmt::Eval(value) => value,
        Stmt::Spawn(receiver, _) => receiver,
    }
}

/// Operand `k` of a statement, if it has that many.
pub fn next_part<'a>(s: &'a Stmt, k: usize) -> (res: Option<&'a Expr>)
    ensures
        match res {
            Some(x) => k < part_count(*s) && *x == part(*s, k as int),
            None => k >= part_count(*s),
        },
{
    match s {
        Stmt::SetLocal(_, value) => if k == 0 {
            Some(value)
        } else {
            None
        },
        Stmt::SetField(object, _, value) => if k == 0 {
            Some(object)
        } else if k == 1 {
            Some(value)
        } else {
            None
        },
        Stmt::SetStatic(_, _, value) => if k == 0 {
            Some(value)
        } else {
            None
        },
        Stmt::SetIndex(array, indices, value) => if k == 0 {
            Some(array)
        } else if k - 1 < indices.len() {
            Some(&indices[k - 1])
        } else if k - 1 == indices.len() {
            Some(value)
        } else {
            None
        },
        Stmt::If(condition, _, _) => if k == 0 {
            Some(condition)
        } else {
            None
        },
        Stmt::Foreach(_, low, high, _) => if k == 0 {
            Some(low)
        } else if k == 1 {
            Some(high)
        } else {
            None
        },
        Stmt::Return(value) => match value {
            Some(v) => if k == 0 {
                Some(v)
            } else {
                None
            },
            None => None,
        },
        Stmt::Eval(value) => if k == 0 {
            Some(value)
        } else {
            None
        },
        Stmt::Spawn(receiver, _) => if k == 0 {
            Some(receiver)
        } else {
            None
        },
    }
}

/// A piece of work that is left in a frame.
#[derive(Debug)]
pub enum Work<'a> {
    /// Evaluate the expression and hand its value to the work below. The
    /// values are those of the operands that are evaluated already.
    Eval(&'a Expr, Vec<Value>),
    /// Execute the statement. The values are those of the operands that are
    /// evaluated already.
    Exec(&'a Stmt, Vec<Value>),
    /// Execute the statements of the block from the given position on.
    Block(&'a Vec<Stmt>, usize),
    /// Go on with the `foreach` loop: the next value of its variable, and
    /// the bound that it stays below.
    Loop(&'a Stmt, i64, i64),
}

/// A piece of work as contracts see it.
pub enum WorkView {
    Eval(Expr, Seq<Value>),
    Exec(Stmt, Seq<Value>),
    Block(Vec<Stmt>, nat),
    Loop(Stmt, i64, i64),
}

impl<'a> View for Work<'a> {
    type V = WorkView;

    open spec fn view(&self) -> WorkView {
        match *self {
            Work::Eval(e, values) => WorkView::Eval(*e, values@),
            Work::Exec(s, values) => WorkView::Exec(*s, values@),
            Work::Block(b, k) => WorkView::Block(*b, k as nat),
            Work::Loop(s, next, high) => WorkView::Loop(*s, next, high),
        }
    }
}

impl WorkView {
    /// Whether the work still waits for the value of an operand.
    pub open spec fn awaiting(self) -> bool {
        match self {
            WorkView::Eval(e, values) => values.len() < operand_count(e),
            WorkView::Exec(s, values) => values.len() < part_count(s),
            _ => false,
        }
    }

    /// The work after `v` was handed to it as the value of its next operand.
    pub open spec fn given(self, v: Value) -> WorkView {
        match self {
            WorkView::Eval(e, values) => WorkView::Eval(e, values.push(v)),
            WorkView::Exec(s, values) => WorkView::Exec(s, values.push(v)),
            _ => self,
        }
    }
}

/// The activation of one method.
#[derive(Debug)]
pub struct Frame<'a> {
    /// The receiver, or null where there is none.
    pub this: Value,
    /// The parameters and local variables, by slot. A slot beyond the end
    /// holds null.
    pub locals: Vec<Value>,
    /// The work that is left, the next piece last.
    pub work: Vec<Work<'a>>,
    /// Whether the frame runs a constructor for `new`, which hands back the
    /// new instance whatever the constructor returns.
    pub constructing: bool,
}

/// A frame as contracts see it.
pub struct FrameView {
    pub this: Value,
    pub locals: Seq<Value>,
    pub work: Seq<WorkView>,
    pub constructing: bool,
}

impl<'a> View for Frame<'a> {
    type V = FrameView;

    open spec fn view(&self) -> FrameView {
        FrameView {
            this: self.this,
            locals: self.locals@,
            work: Seq::new(self.work@.len(), |i: int| self.work@[i]@),
            constructing: self.constructing,
        }
    }
}

/// What a task asks its host to compute, because it takes floating-point
/// arithmetic.
#[derive(Clone, Copy, Debug, PartialEq, Eq, Structural)]
pub enum Request {
    /// The result of the operator on two numbers, of which one at least is
    /// a float; an integer among them is promoted to a float first. For
    /// `Equal` the answer is a boolean, for the others a float.
    Arith(BinOp, Value, Value),
    /// The float that the integer is promoted to.
    Promote(i64),
}

/// Where a task stands.
#[derive(Clone, Copy, Debug, PartialEq, Eq, Structural)]
pub enum Status {
    /// There is work left.
    Running,
    /// The task waits for the answer to a request.
    Waiting(Request),
    /// The method returned this value.
    Finished(Value),
    /// The method failed.
    Failed(Fault),
}

/// What a step asks of the host.
#[derive(Debug)]
pub enum Action {
    /// Nothing; take the next step.
    Continue,
    /// Hand the template and its arguments to the print service. The first
    /// value is the template.
    Print(Vec<Value>),
    /// Compute the answer to the request and hand it to `resume`.
    Compute(Request),
    /// Start a task for the thread with this identifier.
    Spawned(usize),
    /// The task is over: its method returned this value.
    Finished(Value),
    /// The task is over: its method failed.
    Failed(Fault),
}

/// An action as contracts see it.
pub enum ActionView {
    Continue,
    Print(Seq<Value>),
    Compute(Request),
    Spawned(usize),
    Finished(Value),
    Failed(Fault),
}

impl View for Action {
    type V = ActionView;

    open spec fn view(&self) -> ActionView {
        match *self {
            Action::Continue => ActionView::Continue,
            Action::Print(values) => ActionView::Print(values@),
            Action::Compute(r) => ActionView::Compute(r),
            Action::Spawned(t) => ActionView::Spawned(t),
            Action::Finished(v) => ActionView::Finished(v),
            Action::Failed(f) => ActionView::Failed(f),
        }
    }
}

/// One thread of execution.
#[derive(Debug)]
pub struct Task<'a> {
    frames: Vec<Frame<'a>>,
    status: Status,
    thread: Option<usize>,
}

/// A task as contracts see it.
pub struct TaskView {
    /// The frames, the running one last.
    pub frames: Seq<FrameView>,
    pub status: Status,
    /// The identifier of the thread that the task runs for; none for the
    /// main path.
    pub thread: Option<usize>,
}

impl<'a> View for Task<'a> {
    type V = TaskView;

    closed spec fn view(&self) -> TaskView {
        TaskView {
            frames: Seq::new(self.frames@.len(), |i: int| self.frames@[i]@),
            status: self.status,
            thread: self.thread,
        }
    }
}

/// What doing a piece of work comes to.
#[derive(Debug)]
pub enum Outcome<'a> {
    /// A value, for the work below.
    Value(Value),
    /// Nothing more.
    Done,
    /// More work in the same frame.
    Push(Work<'a>),
    /// A call: a new frame on top.
    Enter(Frame<'a>),
    /// The frame returns the value.
    Leave(Value),
    /// The host has to answer the request; the answer goes to the work
    /// below.
    Wait(Request),
    /// The work goes back on the frame, and the host has to answer the
    /// request; the answer goes to that work.
    Retry(Work<'a>, Request),
    /// The host has to print; the work below gets null.
    Print(Vec<Value>),
    /// A thread was spawned.
    Spawned(usize),
    /// The task fails.
    Fail(Fault),
}

/// An outcome as contracts see it.
pub enum OutcomeView {
    Value(Value),
    Done,
    Push(WorkView),
    Enter(FrameView),
    Leave(Value),
    Wait(Request),
    Retry(WorkView, Request),
    Print(Seq<Value>),
    Spawned(usize),
    Fail(Fault),
}

impl<'a> View for Outcome<'a> {
    type V = OutcomeView;

    open spec fn view(&self) -> OutcomeView {
        match *self {
            Outcome::Value(v) => OutcomeView::Value(v),
            Outcome::Done => OutcomeView::Done,
            Outcome::Push(w) => OutcomeView::Push(w@),
            Outcome::Enter(f) => OutcomeView::Enter(f@),
            Outcome::Leave(v) => OutcomeView::Leave(v),
            Outcome::Wait(r) => OutcomeView::Wait(r),
            Outcome::Retry(w, r) => OutcomeView::Retry(w@, r),
            Outcome::Print(values) => OutcomeView::Print(values@),
            Outcome::Spawned(t) => OutcomeView::Spawned(t),
            Outcome::Fail(f) => OutcomeView::Fail(f),
        }
    }
}

/// Whether each of the values is no handle, or a handle of the heap.
pub open spec fn all_held(heap: Heap, values: Seq<Value>) -> bool {
    forall|i: int| 0 <= i < values.len() ==> heap.holds(#[trigger] values[i])
}

impl WorkView {
    /// The work has no more values than its node has operands, and its
    /// handles are handles of the heap.
    pub open spec fn ok(self, heap: Heap) -> bool {
        match self {
            WorkView::Eval(e, values) => values.len() <= operand_count(e) && all_held(heap, values),
            WorkView::Exec(s, values) => values.len() <= part_count(s) && all_held(heap, values),
            WorkView::Block(b, k) => k <= b@.len(),
            WorkView::Loop(s, _, _) => s is Foreach,
        }
    }
}

impl FrameView {
    /// The handles of the frame are handles of the heap, and below each
    /// expression that is being evaluated lies the work that waits for its
    /// value.
    pub open spec fn ok(self, heap: Heap) -> bool {
        &&& heap.holds(self.this)
        &&& all_held(heap, self.locals)
        &&& forall|i: int| 0 <= i < self.work.len() ==> (#[trigger] self.work[i]).ok(heap)
        &&& forall|i: int|
            0 <= i < self.work.len() && (#[trigger] self.work[i]) is Eval ==> i > 0 && self.work[i
                - 1].awaiting()
    }

    /// Whether the frame has handed control to a frame above it, or to the
    /// host, and waits for a value.
    pub open spec fn awaiting(self) -> bool {
        self.work.len() > 0 && self.work.last().awaiting()
    }
}

impl OutcomeView {
    /// The handles of the outcome are handles of the heap.
    pub open spec fn ok(self, heap: Heap) -> bool {
        match self {
            OutcomeView::Value(v) => heap.holds(v),
            OutcomeView::Push(w) => w.ok(heap) && !(w is Eval),
            OutcomeView::Enter(f) => f.ok(heap),
            OutcomeView::Leave(v) => heap.holds(v),
            OutcomeView::Retry(w, _) => w.ok(heap) && w.awaiting() && !(w is Eval),
            OutcomeView::Print(values) => all_held(heap, values),
            _ => true,
        }
    }
}

impl TaskView {
    /// A task that is not over has a frame; every frame is in order; every
    /// frame but the running one waits for a value, and so does the running
    /// one while the task waits for its host; a task that is over has no
    /// frame left.
    pub open spec fn ok(self, rt: Runtime) -> bool {
        &&& forall|i: int| 0 <= i < self.frames.len() ==> (#[trigger] self.frames[i]).ok(rt.heap)
        &&& forall|i: int| 0 <= i < self.frames.len() - 1 ==> (#[trigger] self.frames[i]).awaiting()
        &&& match self.status {
            Status::Running => self.frames.len() >= 1,
            Status::Waiting(_) => self.frames.len() >= 1 && self.frames.last().awaiting(),
            Status::Finished(v) => self.frames.len() == 0 && rt.heap.holds(v),
            Status::Failed(_) => self.frames.len() == 0,
        }
    }
}

impl Runtime {
    /// What is in order for a state stays in order for every later one.
    pub proof fn lemma_later_holds(self, later: Runtime, task: TaskView)
        requires
            self.precedes(later),
            task.ok(self),
        ensures
            task.ok(later),
    {
        assert forall|i: int| 0 <= i < task.frames.len() implies (#[trigger] task.frames[i]).ok(
            later.heap,
        ) by {
            let f = task.frames[i];
            assert(f.ok(self.heap));
            assert forall|j: int| 0 <= j < f.work.len() implies (#[trigger] f.work[j]).ok(later.heap) by {
                assert(f.work[j].ok(self.heap));
            }
        }
    }
}

impl FrameView {
    /// The frame after `v` was handed to its topmost work. A value that no
    /// work waits for is dropped.
    pub open spec fn given(self, v: Value) -> FrameView {
        if self.work.len() == 0 {
            self
        } else {
            FrameView { work: self.work.drop_last().push(self.work.last().given(v)), ..self }
        }
    }

    /// The frame with `w` as its topmost work.
    pub open spec fn with(self, w: WorkView) -> FrameView {
        FrameView { work: self.work.push(w), ..self }
    }

    /// The frame without its topmost work.
    pub open spec fn rest(self) -> FrameView {
        FrameView { work: self.work.drop_last(), ..self }
    }

    /// Handing a value to a frame that waits for one leaves it in order.
    pub proof fn lemma_given_ok(self, heap: Heap, v: Value)
        requires
            self.ok(heap),
            self.awaiting(),
            heap.holds(v),
        ensures
            self.given(v).ok(heap),
    {
        let g = self.given(v);
        let n = self.work.len() - 1;
        assert forall|i: int| 0 <= i < g.work.len() implies (#[trigger] g.work[i]).ok(heap) by {
            assert(self.work[i].ok(heap));
            if i == n {
                match self.work[n] {
                    WorkView::Eval(e, values) => {
                        assert forall|j: int| 0 <= j < values.push(v).len() implies heap.holds(
                            #[trigger] values.push(v)[j],
                        ) by {
                            if j < values.len() {
                                assert(heap.holds(values[j]));
                            }
                        }
                    },
                    WorkView::Exec(s, values) => {
                        assert forall|j: int| 0 <= j < values.push(v).len() implies heap.holds(
                            #[trigger] values.push(v)[j],
                        ) by {
                            if j < values.len() {
                                assert(heap.holds(values[j]));
                            }
                        }
                    },
                    _ => {},
                }
            }
        }
        assert forall|i: int| 0 <= i < g.work.len() && (#[trigger] g.work[i]) is Eval implies i > 0
            && g.work[i - 1].awaiting() by {
            assert(self.work[i] is Eval);
            assert(g.work[i - 1] == self.work[i - 1]);
        }
    }

    /// Taking the topmost work off a frame leaves it in order; and where
    /// that work was an expression, the frame now waits for its value.
    pub proof fn lemma_rest_ok(self, heap: Heap)
        requires
            self.ok(heap),
            self.work.len() > 0,
        ensures
            self.rest().ok(heap),
            self.work.last() is Eval ==> self.rest().awaiting(),
    {
        let r = self.rest();
        assert forall|i: int| 0 <= i < r.work.len() implies (#[trigger] r.work[i]).ok(heap) by {
            assert(self.work[i].ok(heap));
        }
        assert forall|i: int| 0 <= i < r.work.len() && (#[trigger] r.work[i]) is Eval implies i > 0
            && r.work[i - 1].awaiting() by {
            assert(self.work[i] is Eval);
        }
        if self.work.last() is Eval {
            assert(self.work[self.work.len() - 1] is Eval);
        }
    }

    /// Putting work on a frame leaves it in order, where the work is in
    /// order and, if it is an expression, the frame waits for a value.
    pub proof fn lemma_with_ok(self, heap: Heap, w: WorkView)
        requires
            self.ok(heap),
            w.ok(heap),
            w is Eval ==> self.awaiting(),
        ensures
            self.with(w).ok(heap),
    {
        let g = self.with(w);
        assert forall|i: int| 0 <= i < g.work.len() implies (#[trigger] g.work[i]).ok(heap) by {
            if i < self.work.len() {
                assert(self.work[i].ok(heap));
            }
        }
        assert forall|i: int| 0 <= i < g.work.len() && (#[trigger] g.work[i]) is Eval implies i > 0
            && g.work[i - 1].awaiting() by {
            if i < self.work.len() {
                assert(self.work[i] is Eval);
                assert(g.work[i - 1] == self.work[i - 1]);
            }
        }
    }
}

/// A running task with the given frames.
pub open spec fn running(frames: Seq<FrameView>, thread: Option<usize>) -> TaskView {
    TaskView { frames, status: Status::Running, thread }
}

/// The task and the action after the topmost frame returned `v`, where
/// `below` are the frames under it: the frame right below gets the value;
/// without such a frame the task is over.
pub open spec fn leave_spec(
    below: Seq<FrameView>,
    thread: Option<usize>,
    v: Value,
) -> (TaskView, ActionView) {
    if below.len() == 0 {
        (TaskView { frames: below, status: Status::Finished(v), thread }, ActionView::Finished(v))
    } else {
        (running(below.drop_last().push(below.last().given(v)), thread), ActionView::Continue)
    }
}

/// The task and the action after a piece of work of the topmost frame came
/// to `outcome`, where `frame` is that frame without the work and `below`
/// are the frames under it.
pub open spec fn conclude_spec(
    below: Seq<FrameView>,
    frame: FrameView,
    thread: Option<usize>,
    outcome: OutcomeView,
) -> (
    TaskView,
    ActionView,
) {
    match outcome {
        OutcomeView::Value(v) => (running(below.push(frame.given(v)), thread), ActionView::Continue),
        OutcomeView::Done => (running(below.push(frame), thread), ActionView::Continue),
        OutcomeView::Push(w) => (running(below.push(frame.with(w)), thread), ActionView::Continue),
        OutcomeView::Enter(f) => (running(below.push(frame).push(f), thread), ActionView::Continue),
        OutcomeView::Leave(v) => leave_spec(
            below,
            thread,
            if frame.constructing {
                frame.this
            } else {
                v
            },
        ),
        OutcomeView::Wait(r) => (
            TaskView { frames: below.push(frame), status: Status::Waiting(r), thread },
            ActionView::Compute(r),
        ),
        OutcomeView::Retry(w, r) => (
            TaskView { frames: below.push(frame.with(w)), status: Status::Waiting(r), thread },
            ActionView::Compute(r),
        ),
        OutcomeView::Print(values) => (
            running(below.push(frame.given(Value::Null)), thread),
            ActionView::Print(values),
        ),
        OutcomeView::Spawned(t) => (running(below.push(frame), thread), ActionView::Spawned(t)),
        OutcomeView::Fail(f) => (
            TaskView { frames: Seq::empty(), status: Status::Failed(f), thread },
            ActionView::Failed(f),
        ),
    }
}

/// The threads after a task for `thread` got to `status`: where the task is
/// over, its thread has ended in the same way.
pub open spec fn threads_after(threads: Seq<ThreadHandle>, thread: Option<usize>, status: Status) -> Seq<
    ThreadHandle,
> {
    match thread {
        Some(t) => if t < threads.len() && threads[t as int].state is Running {
            match status {
                Status::Finished(_) => threads.update(
                    t as int,
                    ThreadHandle { bound: threads[t as int].bound, state: ThreadState::Completed },
                ),
                Status::Failed(f) => threads.update(
                    t as int,
                    ThreadHandle { bound: threads[t as int].bound, state: ThreadState::Failed(f) },
                ),
                _ => threads,
            }
        } else {
            threads
        },
        None => threads,
    }
}

/// Hands `v` to the topmost work of the frame.
fn give<'a>(frame: &mut Frame<'a>, v: Value)
    ensures
        final(frame)@ == old(frame)@.given(v),
{
    let ghost before = frame@;
    match frame.work.pop() {
        None => {},
        Some(Work::Eval(e, values)) => {
            let mut values = values;
            values.push(v);
            frame.work.push(Work::Eval(e, values));
        },
        Some(Work::Exec(s, values)) => {
            let mut values = values;
            values.push(v);
            frame.work.push(Work::Exec(s, values));
        },
        Some(w) => {
            frame.work.push(w);
        },
    }
    proof {
        assert(frame@.work =~= before.given(v).work);
    }
}

/// Puts `w` on the frame as its topmost work.
fn put<'a>(frame: &mut Frame<'a>, w: Work<'a>)
    ensures
        final(frame)@ == old(frame)@.with(w@),
{
    let ghost before = frame@;
    frame.work.push(w);
    proof {
        assert(frame@.work =~= before.with(w@).work);
    }
}

impl<'a> Task<'a> {
    /// Records the end of the task with the thread that it runs for.
    fn end(&self, rt: &mut Runtime)
        ensures
            final(rt).heap == old(rt).heap,
            final(rt).threads@ == threads_after(old(rt).threads@, self@.thread, self@.status),
    {
        match self.thread {
            Some(t) => match self.status {
                Status::Finished(_) => {
                    rt.threads.finish(t, Ok(()));
                },
                Status::Failed(f) => {
                    rt.threads.finish(t, Err(f));
                },
                _ => {},
            },
            None => {},
        }
    }

    /// Puts `frame` on top of the frames.
    fn push_frame(&mut self, frame: Frame<'a>)
        ensures
            final(self)@ == (TaskView { frames: old(self)@.frames.push(frame@), ..old(self)@ }),
    {
        let ghost before = self@;
        self.frames.push(frame);
        proof {
            assert(self@.frames =~= before.frames.push(frame@));
        }
    }

    /// Takes the topmost frame off.
    fn pop_frame(&mut self) -> (frame: Option<Frame<'a>>)
        ensures
            match frame {
                Some(f) => {
                    &&& old(self)@.frames.len() > 0
                    &&& f@ == old(self)@.frames.last()
                    &&& final(self)@ == (TaskView { frames: old(self)@.frames.drop_last(), ..old(self)@ })
                },
                None => old(self)@.frames.len() == 0 && final(self)@ == old(self)@,
            },
    {
        let ghost before = self@;
        let frame = self.frames.pop();
        proof {
            if frame is Some {
                assert(self@.frames =~= before.frames.drop_last());
            } else {
                assert(self@.frames =~= before.frames);
            }
        }
        frame
    }

    /// The topmost frame returned `v`; the frames that are left are those
    /// under it.
    fn leave(&mut self, rt: &mut Runtime, v: Value) -> (action: Action)
        requires
            old(self)@.status is Running,
        ensures
            (final(self)@, action@) == leave_spec(old(self)@.frames, old(self)@.thread, v),
            final(rt).heap == old(rt).heap,
            final(rt).threads@ == threads_after(old(rt).threads@, final(self)@.thread, final(self)@.status),
    {
        match self.pop_frame() {
            None => {
                self.status = Status::Finished(v);
                self.end(rt);
                Action::Finished(v)
            },
            Some(caller) => {
                let mut caller = caller;
                give(&mut caller, v);
                self.push_frame(caller);
                Action::Continue
            },
        }
    }

    /// The task fails.
    fn fail(&mut self, rt: &mut Runtime, f: Fault) -> (action: Action)
        ensures
            final(self)@ == (TaskView { frames: Seq::empty(), status: Status::Failed(f), thread: old(self)@.thread }),
            action@ == ActionView::Failed(f),
            final(rt).heap == old(rt).heap,
            final(rt).threads@ == threads_after(old(rt).threads@, final(self)@.thread, final(self)@.status),
    {
        self.frames.clear();
        self.status = Status::Failed(f);
        self.end(rt);
        proof {
            assert(self@.frames =~= Seq::empty());
        }
        Action::Failed(f)
    }

    /// A piece of work of the topmost frame came to `out`; `frame` is that
    /// frame without the work, and the frames that are left are those under
    /// it.
    fn conclude(&mut self, rt: &mut Runtime, frame: Frame<'a>, out: Outcome<'a>) -> (action: Action)
        requires
            old(self)@.status is Running,
        ensures
            (final(self)@, action@) == conclude_spec(old(self)@.frames, frame@, old(self)@.thread, out@),
            final(rt).heap == old(rt).heap,
            final(rt).threads@ == threads_after(old(rt).threads@, final(self)@.thread, final(self)@.status),
    {
        let mut frame = frame;
        match out {
            Outcome::Value(v) => {
                give(&mut frame, v);
                self.push_frame(frame);
                Action::Continue
            },
            Outcome::Done => {
                self.push_frame(frame);
                Action::Continue
            },
            Outcome::Push(w) => {
                put(&mut frame, w);
                self.push_frame(frame);
                Action::Continue
            },
            Outcome::Enter(f) => {
                self.push_frame(frame);
                self.push_frame(f);
                Action::Continue
            },
            Outcome::Leave(v) => {
                let v: Value = if frame.constructing {
                    frame.this
                } else {
                    v
                };
                self.leave(rt, v)
            },
            Outcome::Wait(r) => {
                self.push_frame(frame);
                self.status = Status::Waiting(r);
                Action::Compute(r)
            },
            Outcome::Retry(w, r) => {
                put(&mut frame, w);
                self.push_frame(frame);
                self.status = Status::Waiting(r);
                Action::Compute(r)
            },
            Outcome::Print(values) => {
                give(&mut frame, Value::Null);
                self.push_frame(frame);
                Action::Print(values)
            },
            Outcome::Spawned(t) => {
                self.push_frame(frame);
                Action::Spawned(t)
            },
            Outcome::Fail(f) => self.fail(rt, f),
        }
    }
}

/// The frame after one round of a `foreach` loop was set going, where
/// `rest` is the frame without the loop: while the variable stays below its
/// bound, it is assigned, and the body is put on top of the loop, which
/// will go on with the next value. After that the loop is over.
pub open spec fn loop_spec(rest: FrameView, s: Stmt, next: i64, high: i64) -> FrameView {
    match s {
        Stmt::Foreach(slot, _, _, body) => if next < high {
            FrameView { locals: stored(rest.locals, slot as int, Value::Int(next)), ..rest }.with(
                WorkView::Loop(s, (next + 1) as i64, high),
            ).with(WorkView::Block(body, 0))
        } else {
            rest
        },
        _ => rest,
    }
}

/// What one step of a running task comes to: the task and the action after
/// it, and what it changes in the shared state. `frame` is the running
/// frame and `below` are the frames under it.
pub open spec fn step_running(
    program: Program,
    rt: Runtime,
    below: Seq<FrameView>,
    frame: FrameView,
    thread: Option<usize>,
) -> (TaskView, ActionView, Effect) {
    if frame.work.len() == 0 {
        let (task, action) = leave_spec(
            below,
            thread,
            if frame.constructing {
                frame.this
            } else {
                Value::Null
            },
        );
        (task, action, Effect::Nothing)
    } else {
        let rest = frame.rest();
        match frame.work.last() {
            WorkView::Block(b, k) => (
                running(
                    below.push(
                        if k < b@.len() {
                            rest.with(WorkView::Block(b, k + 1)).with(
                                WorkView::Exec(b@[k as int], Seq::empty()),
                            )
                        } else {
                            rest
                        },
                    ),
                    thread,
                ),
                ActionView::Continue,
                Effect::Nothing,
            ),
            WorkView::Loop(s, next, high) => (
                running(below.push(loop_spec(rest, s, next, high)), thread),
                ActionView::Continue,
                Effect::Nothing,
            ),
            WorkView::Eval(e, values) => if values.len() < operand_count(e) {
                (
                    running(
                        below.push(
                            frame.with(WorkView::Eval(operand(e, values.len() as int), Seq::empty())),
                        ),
                        thread,
                    ),
                    ActionView::Continue,
                    Effect::Nothing,
                )
            } else {
                let red = eval_spec(program, rt, frame.this, frame.locals, e, values);
                let (task, action) = conclude_spec(below, rest, thread, red.outcome);
                (task, action, red.effect)
            },
            WorkView::Exec(s, values) => if values.len() < part_count(s) {
                (
                    running(
                        below.push(frame.with(WorkView::Eval(part(s, values.len() as int), Seq::empty()))),
                        thread,
                    ),
                    ActionView::Continue,
                    Effect::Nothing,
                )
            } else {
                let red = exec_spec(program, rt, s, values);
                let (task, action) = conclude_spec(
                    below,
                    FrameView { locals: locals_after(frame.locals, s, values), ..rest },
                    thread,
                    red.outcome,
                );
                (task, action, red.effect)
            },
        }
    }
}

/// What one step of a task comes to. A task that is over, or that waits
/// for its host, stays as it is and says so again.
pub open spec fn step_spec(program: Program, rt: Runtime, task: TaskView) -> (TaskView, ActionView, Effect) {
    match task.status {
        Status::Running => if task.frames.len() == 0 {
            (task, ActionView::Continue, Effect::Nothing)
        } else {
            step_running(program, rt, task.frames.drop_last(), task.frames.last(), task.thread)
        },
        Status::Waiting(r) => (task, ActionView::Compute(r), Effect::Nothing),
        Status::Finished(v) => (task, ActionView::Finished(v), Effect::Nothing),
        Status::Failed(f) => (task, ActionView::Failed(f), Effect::Nothing),
    }
}

impl Runtime {
    /// Whether `other` is this state after a step that took a task from
    /// `before` to `after` with the given effect: where the step ended the
    /// task, the thread of the task has ended with it, and nothing else
    /// changed; any other step changed what its effect says.
    pub open spec fn stepped(
        self,
        classes: ClassTable,
        before: TaskView,
        after: TaskView,
        effect: Effect,
        other: Runtime,
    ) -> bool {
        if before.status is Running && (after.status is Finished || after.status is Failed) {
            &&& self.heap.same(other.heap)
            &&& other.threads@ == threads_after(self.threads@, after.thread, after.status)
        } else {
            self.after(classes, effect, other)
        }
    }
}

/// Whether the frames are in order and each of them waits for a value, as
/// the frames under the running one do.
pub open spec fn stack_ok(heap: Heap, below: Seq<FrameView>) -> bool {
    forall|i: int| 0 <= i < below.len() ==> (#[trigger] below[i]).ok(heap) && below[i].awaiting()
}

/// A frame that is in order, on frames that wait for it, makes a running
/// task that is in order.
pub proof fn lemma_running_ok(rt: Runtime, below: Seq<FrameView>, frame: FrameView, thread: Option<usize>)
    requires
        stack_ok(rt.heap, below),
        frame.ok(rt.heap),
    ensures
        running(below.push(frame), thread).ok(rt),
        frame.awaiting() ==> stack_ok(rt.heap, below.push(frame)),
{
    let t = running(below.push(frame), thread);
    assert forall|i: int| 0 <= i < t.frames.len() implies (#[trigger] t.frames[i]).ok(rt.heap) by {
        if i < below.len() {
            assert(below[i].ok(rt.heap));
        }
    }
    assert forall|i: int| 0 <= i < t.frames.len() - 1 implies (#[trigger] t.frames[i]).awaiting() by {
        assert(below[i].awaiting());
    }
    if frame.awaiting() {
        assert forall|i: int| 0 <= i < below.push(frame).len() implies (#[trigger] below.push(frame)[i]).ok(
            rt.heap,
        ) && below.push(frame)[i].awaiting() by {
            if i < below.len() {
                assert(below[i].ok(rt.heap));
            }
        }
    }
}

/// The frames under the running frame of a task that is in order wait for
/// it, and stay in order in every later state.
pub proof fn lemma_stack_later(rt: Runtime, later: Runtime, task: TaskView)
    requires
        task.ok(rt),
        rt.precedes(later),
        task.frames.len() > 0,
    ensures
        stack_ok(later.heap, task.frames.drop_last()),
        task.frames.last().ok(later.heap),
        forall|v: Value| rt.heap.holds(v) ==> later.heap.holds(v),
{
    rt.lemma_later_holds(later, task);
    let below = task.frames.drop_last();
    assert forall|i: int| 0 <= i < below.len() implies (#[trigger] below[i]).ok(later.heap)
        && below[i].awaiting() by {
        assert(task.frames[i].ok(later.heap));
        assert(task.frames[i].awaiting());
    }
    assert(task.frames[task.frames.len() - 1].ok(later.heap));
}

/// A task that a piece of work leaves behind is in order, where the
/// outcome is in order, the frame without the work is, and the frames under
/// it wait for it. An outcome that hands a value down wants a frame that
/// waits for one.
pub proof fn lemma_conclude_ok(
    rt: Runtime,
    below: Seq<FrameView>,
    frame: FrameView,
    thread: Option<usize>,
    outcome: OutcomeView,
)
    requires
        stack_ok(rt.heap, below),
        frame.ok(rt.heap),
        outcome.ok(rt.heap),
        (outcome is Value || outcome is Print || outcome is Wait || outcome is Enter) ==> frame.awaiting(),
    ensures
        conclude_spec(below, frame, thread, outcome).0.ok(rt),
{
    match outcome {
        OutcomeView::Value(v) => {
            frame.lemma_given_ok(rt.heap, v);
            lemma_running_ok(rt, below, frame.given(v), thread);
        },
        OutcomeView::Done => {
            lemma_running_ok(rt, below, frame, thread);
        },
        OutcomeView::Push(w) => {
            frame.lemma_with_ok(rt.heap, w);
            lemma_running_ok(rt, below, frame.with(w), thread);
        },
        OutcomeView::Enter(f) => {
            lemma_running_ok(rt, below, frame, thread);
            lemma_running_ok(rt, below.push(frame), f, thread);
        },
        OutcomeView::Leave(v) => {
            let r = if frame.constructing {
                frame.this
            } else {
                v
            };
            lemma_leave_ok(rt, below, thread, r);
        },
        OutcomeView::Wait(r) => {
            lemma_running_ok(rt, below, frame, thread);
            let t = TaskView { frames: below.push(frame), status: Status::Waiting(r), thread };
            assert(t.frames.last() == frame);
        },
        OutcomeView::Retry(w, r) => {
            frame.lemma_with_ok(rt.heap, w);
            lemma_running_ok(rt, below, frame.with(w), thread);
            let t = TaskView { frames: below.push(frame.with(w)), status: Status::Waiting(r), thread };
            assert(t.frames.last() == frame.with(w));
            assert(frame.with(w).work.last() == w);
        },
        OutcomeView::Print(values) => {
            frame.lemma_given_ok(rt.heap, Value::Null);
            lemma_running_ok(rt, below, frame.given(Value::Null), thread);
        },
        OutcomeView::Spawned(t) => {
            lemma_running_ok(rt, below, frame, thread);
        },
        OutcomeView::Fail(f) => {},
    }
}

/// A task that a return leaves behind is in order.
pub proof fn lemma_leave_ok(rt: Runtime, below: Seq<FrameView>, thread: Option<usize>, v: Value)
    requires
        stack_ok(rt.heap, below),
        rt.heap.holds(v),
    ensures
        leave_spec(below, thread, v).0.ok(rt),
{
    if below.len() > 0 {
        let caller = below.last();
        assert(below[below.len() - 1].ok(rt.heap));
        caller.lemma_given_ok(rt.heap, v);
        let under = below.drop_last();
        assert forall|i: int| 0 <= i < under.len() implies (#[trigger] under[i]).ok(rt.heap)
            && under[i].awaiting() by {
            assert(below[i].ok(rt.heap));
        }
        lemma_running_ok(rt, under, caller.given(v), thread);
    }
}

/// An expression that fails changes nothing in the shared state, and no
/// expression makes its frame return.
pub proof fn lemma_failed_eval_is_pure(
    program: Program,
    rt: Runtime,
    this: Value,
    locals: Seq<Value>,
    e: Expr,
    values: Seq<Value>,
)
    ensures
        eval_spec(program, rt, this, locals, e, values).outcome is Fail ==> eval_spec(
            program,
            rt,
            this,
            locals,
            e,
            values,
        ).effect is Nothing,
        !(eval_spec(program, rt, this, locals, e, values).outcome is Leave),
{
}

/// A statement that fails, or that makes its frame return, changes nothing
/// in the shared state.
pub proof fn lemma_ending_exec_is_pure(program: Program, rt: Runtime, s: Stmt, values: Seq<Value>)
    ensures
        exec_spec(program, rt, s, values).outcome is Fail || exec_spec(program, rt, s, values).outcome is Leave
            ==> exec_spec(program, rt, s, values).effect is Nothing,
{
}

/// Takes the topmost work off the frame.
fn take<'a>(frame: &mut Frame<'a>) -> (w: Option<Work<'a>>)
    ensures
        match w {
            Some(w) => {
                &&& old(frame)@.work.len() > 0
                &&& w@ == old(frame)@.work.last()
                &&& final(frame)@ == old(frame)@.rest()
            },
            None => old(frame)@.work.len() == 0 && final(frame)@ == old(frame)@,
        },
{
    let ghost before = frame@;
    let w = frame.work.pop();
    proof {
        if w is Some {
            assert(frame@.work =~= before.rest().work);
        } else {
            assert(frame@.work =~= before.work);
        }
    }
    w
}

impl<'a> Task<'a> {
    /// Whether the task, its topmost frame taken off, is ready for the work
    /// `w` of that frame to be done: `frame` is the frame without the work.
    pub open spec fn ready(self, rt: Runtime, frame: FrameView, w: WorkView) -> bool {
        &&& self@.status is Running
        &&& stack_ok(rt.heap, self@.frames)
        &&& frame.with(w).ok(rt.heap)
    }

    /// Goes on with a block of statements.
    fn step_block(
        &mut self,
        program: &'a Program,
        rt: &Runtime,
        frame: Frame<'a>,
        b: &'a Vec<Stmt>,
        k: usize,
    ) -> (action: Action)
        requires
            old(self).ready(*rt, frame@, WorkView::Block(*b, k as nat)),
        ensures
            final(self)@.ok(*rt),
            (final(self)@, action@, Effect::Nothing) == step_running(
                *program,
                *rt,
                old(self)@.frames,
                frame@.with(WorkView::Block(*b, k as nat)),
                old(self)@.thread,
            ),
    {
        let ghost below = self@.frames;
        let ghost whole = frame@.with(WorkView::Block(*b, k as nat));
        let mut frame = frame;
        proof {
            whole.lemma_rest_ok(rt.heap);
            assert(whole.rest() == frame@) by {
                assert(whole.rest().work =~= frame@.work);
            }
        }
        if k < b.len() {
            let ghost w1 = WorkView::Block(*b, (k + 1) as nat);
            let ghost w2 = WorkView::Exec(b@[k as int], Seq::empty());
            proof {
                frame@.lemma_with_ok(rt.heap, w1);
                frame@.with(w1).lemma_with_ok(rt.heap, w2);
            }
            put(&mut frame, Work::Block(b, k + 1));
            put(&mut frame, Work::Exec(&b[k], Vec::new()));
        }
        proof {
            lemma_running_ok(*rt, below, frame@, self@.thread);
        }
        self.push_frame(frame);
        Action::Continue
    }

    /// Goes on with a `foreach` loop.
    fn step_loop(
        &mut self,
        program: &'a Program,
        rt: &Runtime,
        frame: Frame<'a>,
        s: &'a Stmt,
        next: i64,
        high: i64,
    ) -> (action: Action)
        requires
            old(self).ready(*rt, frame@, WorkView::Loop(*s, next, high)),
        ensures
            final(self)@.ok(*rt),
            (final(self)@, action@, Effect::Nothing) == step_running(
                *program,
                *rt,
                old(self)@.frames,
                frame@.with(WorkView::Loop(*s, next, high)),
                old(self)@.thread,
            ),
    {
        let ghost below = self@.frames;
        let ghost whole = frame@.with(WorkView::Loop(*s, next, high));
        let ghost rest = frame@;
        let mut frame = frame;
        proof {
            whole.lemma_rest_ok(rt.heap);
            assert(whole.rest() == frame@) by {
                assert(whole.rest().work =~= frame@.work);
            }
        }
        match s {
            Stmt::Foreach(slot, _, _, body) => {
                if next < high {
                    store_local(&mut frame.locals, *slot, Value::Int(next));
                    let ghost moved = FrameView {
                        locals: stored(rest.locals, *slot as int, Value::Int(next)),
                        ..rest
                    };
                    let ghost w1 = WorkView::Loop(*s, (next + 1) as i64, high);
                    let ghost w2 = WorkView::Block(*body, 0);
                    proof {
                        assert(frame@ == moved) by {
                            assert(frame@.work =~= moved.work);
                        }
                        assert(moved.ok(rt.heap)) by {
                            assert forall|i: int| 0 <= i < moved.locals.len() implies rt.heap.holds(
                                #[trigger] moved.locals[i],
                            ) by {
                                if i != *slot && i < rest.locals.len() {
                                    assert(rt.heap.holds(rest.locals[i]));
                                }
                            }
                            assert forall|i: int| 0 <= i < moved.work.len() implies (
                            #[trigger] moved.work[i]).ok(rt.heap) by {
                                assert(rest.work[i].ok(rt.heap));
                            }
                            assert forall|i: int|
                                0 <= i < moved.work.len() && (#[trigger] moved.work[i]) is Eval implies i
                                > 0 && moved.work[i - 1].awaiting() by {
                                assert(rest.work[i] is Eval);
                            }
                        }
                        moved.lemma_with_ok(rt.heap, w1);
                        moved.with(w1).lemma_with_ok(rt.heap, w2);
                    }
                    put(&mut frame, Work::Loop(s, next + 1, high));
                    put(&mut frame, Work::Block(body, 0));
                }
            },
            _ => {},
        }
        proof {
            lemma_running_ok(*rt, below, frame@, self@.thread);
        }
        self.push_frame(frame);
        Action::Continue
    }
}

/// Frames that wait for the running one stay in order in every later
/// state.
pub proof fn lemma_stack_ok_later(rt: Runtime, later: Runtime, below: Seq<FrameView>)
    requires
        rt.precedes(later),
        stack_ok(rt.heap, below),
    ensures
        stack_ok(later.heap, below),
{
    assert forall|i: int| 0 <= i < below.len() implies (#[trigger] below[i]).ok(later.heap)
        && below[i].awaiting() by {
        assert(below[i].ok(rt.heap));
        lemma_frame_ok_later(rt, later, below[i]);
    }
}

/// A frame that is in order stays in order in every later state.
pub proof fn lemma_frame_ok_later(rt: Runtime, later: Runtime, frame: FrameView)
    requires
        rt.precedes(later),
        frame.ok(rt.heap),
    ensures
        frame.ok(later.heap),
{
    let t = running(seq![frame], None);
    lemma_running_ok(rt, Seq::empty(), frame, None);
    assert(t.frames =~= Seq::<FrameView>::empty().push(frame));
    rt.lemma_later_holds(later, t);
    assert(t.frames[0].ok(later.heap));
}

impl Runtime {
    /// The end of a task leaves the shared state in order.
    pub proof fn lemma_end_ok(
        self,
        classes: ClassTable,
        other: Runtime,
        thread: Option<usize>,
        status: Status,
    )
        requires
            self.wf(classes),
            other.heap == self.heap,
            other.threads@ == threads_after(self.threads@, thread, status),
        ensures
            other.wf(classes),
            self.precedes(other),
    {
        assert forall|t: int| 0 <= t < other.threads@.len() implies {
            &&& (#[trigger] other.threads@[t]).bound.receiver < other.heap.objects().len()
            &&& classes.has_method(other.threads@[t].bound.method)
        } by {
            assert(other.threads@[t].bound == self.threads@[t].bound);
        }
    }
}

impl<'a> Task<'a> {
    /// Winds up a piece of work that came to `out`, after the shared state
    /// went from `start` to what it is now by the effect of the work.
    fn wind_up(
        &mut self,
        program: &'a Program,
        rt: &mut Runtime,
        frame: Frame<'a>,
        out: Outcome<'a>,
        Ghost(start): Ghost<Runtime>,
        Ghost(effect): Ghost<Effect>,
    ) -> (action: Action)
        requires
            old(self)@.status is Running,
            start.wf(program.classes),
            old(rt).wf(program.classes),
            start.precedes(*old(rt)),
            start.after(program.classes, effect, *old(rt)),
            out@ is Fail || out@ is Leave ==> effect is Nothing,
            stack_ok(start.heap, old(self)@.frames),
            frame@.ok(old(rt).heap),
            out@.ok(old(rt).heap),
            (out@ is Value || out@ is Print || out@ is Wait || out@ is Enter) ==> frame@.awaiting(),
        ensures
            final(rt).wf(program.classes),
            final(self)@.ok(*final(rt)),
            start.precedes(*final(rt)),
            (final(self)@, action@) == conclude_spec(old(self)@.frames, frame@, old(self)@.thread, out@),
            start.stepped(program.classes, old(self)@, final(self)@, effect, *final(rt)),
    {
        let ghost below = self@.frames;
        let ghost mid = *rt;
        let ghost thread = self@.thread;
        proof {
            lemma_stack_ok_later(start, mid, below);
            lemma_conclude_ok(mid, below, frame@, thread, out@);
        }
        let action = self.conclude(rt, frame, out);
        proof {
            mid.lemma_end_ok(program.classes, *rt, self@.thread, self@.status);
            mid.lemma_later_holds(*rt, self@);
        }
        action
    }

    /// Goes on with an expression: evaluates its next operand, or the
    /// expression itself once all operands are evaluated.
    fn step_eval(
        &mut self,
        program: &'a Program,
        rt: &mut Runtime,
        frame: Frame<'a>,
        e: &'a Expr,
        values: Vec<Value>,
    ) -> (action: Action)
        requires
            program.wf(),
            old(rt).wf(program.classes),
            old(self).ready(*old(rt), frame@, WorkView::Eval(*e, values@)),
        ensures
            final(rt).wf(program.classes),
            final(self)@.ok(*final(rt)),
            old(rt).precedes(*final(rt)),
            (final(self)@, action@) == (
                step_running(
                    *program,
                    *old(rt),
                    old(self)@.frames,
                    frame@.with(WorkView::Eval(*e, values@)),
                    old(self)@.thread,
                ).0,
                step_running(
                    *program,
                    *old(rt),
                    old(self)@.frames,
                    frame@.with(WorkView::Eval(*e, values@)),
                    old(self)@.thread,
                ).1,
            ),
            old(rt).stepped(
                program.classes,
                old(self)@,
                final(self)@,
                step_running(
                    *program,
                    *old(rt),
                    old(self)@.frames,
                    frame@.with(WorkView::Eval(*e, values@)),
                    old(self)@.thread,
                ).2,
                *final(rt),
            ),
    {
        let ghost below = self@.frames;
        let ghost w = WorkView::Eval(*e, values@);
        let ghost whole = frame@.with(w);
        let ghost rest = frame@;
        let ghost start = *rt;
        let mut frame = frame;
        proof {
            whole.lemma_rest_ok(rt.heap);
            assert(whole.rest() == rest) by {
                assert(whole.rest().work =~= rest.work);
            }
            assert(whole.work.last() == w);
            assert(whole.work[whole.work.len() - 1].ok(rt.heap));
        }
        match next_operand(e, values.len()) {
            Some(sub) => {
                let ghost w2 = WorkView::Eval(*sub, Seq::empty());
                proof {
                    whole.lemma_with_ok(rt.heap, w2);
                    lemma_running_ok(*rt, below, whole.with(w2), self@.thread);
                }
                put(&mut frame, Work::Eval(e, values));
                put(&mut frame, Work::Eval(sub, Vec::new()));
                self.push_frame(frame);
                Action::Continue
            },
            None => {
                let ghost red = eval_spec(*program, start, rest.this, rest.locals, *e, values@);
                let out = evaluate(program, rt, frame.this, &frame.locals, e, values);
                proof {
                    lemma_failed_eval_is_pure(*program, start, rest.this, rest.locals, *e, values@);
                    lemma_frame_ok_later(start, *rt, rest);
                }
                self.wind_up(program, rt, frame, out, Ghost(start), Ghost(red.effect))
            },
        }
    }

    /// Goes on with a statement: evaluates its next operand, or executes
    /// the statement once all operands are evaluated.
    fn step_exec(
        &mut self,
        program: &'a Program,
        rt: &mut Runtime,
        frame: Frame<'a>,
        s: &'a Stmt,
        values: Vec<Value>,
    ) -> (action: Action)
        requires
            program.wf(),
            old(rt).wf(program.classes),
            old(self).ready(*old(rt), frame@, WorkView::Exec(*s, values@)),
        ensures
            final(rt).wf(program.classes),
            final(self)@.ok(*final(rt)),
            old(rt).precedes(*final(rt)),
            (final(self)@, action@) == (
                step_running(
                    *program,
                    *old(rt),
                    old(self)@.frames,
                    frame@.with(WorkView::Exec(*s, values@)),
                    old(self)@.thread,
                ).0,
                step_running(
                    *program,
                    *old(rt),
                    old(self)@.frames,
                    frame@.with(WorkView::Exec(*s, values@)),
                    old(self)@.thread,
                ).1,
            ),
            old(rt).stepped(
                program.classes,
                old(self)@,
                final(self)@,
                step_running(
                    *program,
                    *old(rt),
                    old(self)@.frames,
                    frame@.with(WorkView::Exec(*s, values@)),
                    old(self)@.thread,
                ).2,
                *final(rt),
            ),
    {
        let ghost below = self@.frames;
        let ghost w = WorkView::Exec(*s, values@);
        let ghost whole = frame@.with(w);
        let ghost rest = frame@;
        let ghost start = *rt;
        let mut frame = frame;
        proof {
            whole.lemma_rest_ok(rt.heap);
            assert(whole.rest() == rest) by {
                assert(whole.rest().work =~= rest.work);
            }
            assert(whole.work.last() == w);
            assert(whole.work[whole.work.len() - 1].ok(rt.heap));
        }
        match next_part(s, values.len()) {
            Some(sub) => {
                let ghost w2 = WorkView::Eval(*sub, Seq::empty());
                proof {
                    whole.lemma_with_ok(rt.heap, w2);
                    lemma_running_ok(*rt, below, whole.with(w2), self@.thread);
                }
                put(&mut frame, Work::Exec(s, values));
                put(&mut frame, Work::Eval(sub, Vec::new()));
                self.push_frame(frame);
                Action::Continue
            },
            None => {
                let ghost red = exec_spec(*program, start, *s, values@);
                let out = perform(program, rt, &mut frame.locals, s, values);
                let ghost moved = FrameView { locals: locals_after(rest.locals, *s, values@), ..rest };
                proof {
                    lemma_ending_exec_is_pure(*program, start, *s, values@);
                    lemma_frame_ok_later(start, *rt, rest);
                    assert(frame@ == moved) by {
                        assert(frame@.work =~= moved.work);
                    }
                    assert(moved.ok(rt.heap)) by {
                        assert forall|i: int| 0 <= i < moved.work.len() implies (#[trigger] moved.work[i]).ok(
                            rt.heap,
                        ) by {
                            assert(rest.work[i].ok(rt.heap));
                        }
                        assert forall|i: int|
                            0 <= i < moved.work.len() && (#[trigger] moved.work[i]) is Eval implies i > 0
                            && moved.work[i - 1].awaiting() by {
                            assert(rest.work[i] is Eval);
                        }
                    }
                }
                self.wind_up(program, rt, frame, out, Ghost(start), Ghost(red.effect))
            },
        }
    }

    /// Takes one step: does the topmost piece of work of the running frame,
    /// and says what the host has to do. A frame without work returns; a
    /// task that is over, or that waits for an answer, stays as it is.
    /// Whatever was in the heap stays there, and no thread is forgotten.
    pub fn step(&mut self, program: &'a Program, rt: &mut Runtime) -> (action: Action)
        requires
            program.wf(),
            old(rt).wf(program.classes),
            old(self)@.ok(*old(rt)),
        ensures
            final(rt).wf(program.classes),
            final(self)@.ok(*final(rt)),
            old(rt).precedes(*final(rt)),
            (final(self)@, action@) == (
                step_spec(*program, *old(rt), old(self)@).0,
                step_spec(*program, *old(rt), old(self)@).1,
            ),
            old(rt).stepped(
                program.classes,
                old(self)@,
                final(self)@,
                step_spec(*program, *old(rt), old(self)@).2,
                *final(rt),
            ),
    {
        match self.status {
            Status::Running => {},
            Status::Waiting(r) => {
                return Action::Compute(r);
            },
            Status::Finished(v) => {
                return Action::Finished(v);
            },
            Status::Failed(f) => {
                return Action::Failed(f);
            },
        }
        let ghost before = self@;
        let ghost start = *rt;
        proof {
            lemma_stack_later(start, start, before);
        }
        let mut frame = match self.pop_frame() {
            Some(frame) => frame,
            None => {
                return Action::Continue;
            },
        };
        let ghost top = frame@;
        match take(&mut frame) {
            None => {
                let v: Value = if frame.constructing {
                    frame.this
                } else {
                    Value::Null
                };
                proof {
                    lemma_leave_ok(start, before.frames.drop_last(), before.thread, v);
                }
                let action = self.leave(rt, v);
                proof {
                    start.lemma_end_ok(program.classes, *rt, self@.thread, self@.status);
                    start.lemma_later_holds(*rt, self@);
                }
                action
            },
            Some(w) => {
                proof {
                    assert(top == frame@.with(w@)) by {
                        assert(top.work =~= frame@.with(w@).work);
                    }
                }
                match w {
                    Work::Block(b, k) => self.step_block(program, rt, frame, b, k),
                    Work::Loop(s, next, high) => self.step_loop(program, rt, frame, s, next, high),
                    Work::Eval(e, values) => self.step_eval(program, rt, frame, e, values),
                    Work::Exec(s, values) => self.step_exec(program, rt, frame, s, values),
                }
            },
        }
    }
}

/// Whether `answer` answers `request`: a boolean for a comparison, a float
/// for everything else.
pub open spec fn answers(request: Request, answer: Value) -> bool {
    match request {
        Request::Arith(BinOp::Equal, _, _) => answer is Bool,
        _ => answer is Float,
    }
}

/// The task after its host answered: the answer goes to the work that
/// waits for it, and the task runs on. An answer of the wrong kind, or one
/// that nobody asked for, changes nothing.
pub open spec fn resume_spec(task: TaskView, answer: Value) -> TaskView {
    match task.status {
        Status::Waiting(r) => if answers(r, answer) && task.frames.len() > 0 {
            running(task.frames.drop_last().push(task.frames.last().given(answer)), task.thread)
        } else {
            task
        },
        _ => task,
    }
}

impl<'a> Task<'a> {
    /// Where the task stands.
    pub fn status(&self) -> (status: Status)
        ensures
            status == self@.status,
    {
        self.status
    }

    /// The identifier of the thread that the task runs for; none for the
    /// main path.
    pub fn thread(&self) -> (thread: Option<usize>)
        ensures
            thread == self@.thread,
    {
        self.thread
    }

    /// The number of frames: the depth of the calls that are under way.
    pub fn depth(&self) -> (n: usize)
        ensures
            n == self@.frames.len(),
    {
        self.frames.len()
    }

    /// A task that runs `body` on `this` from its beginning, without
    /// arguments.
    fn begin(this: Value, body: &'a Vec<Stmt>, thread: Option<usize>) -> (task: Task<'a>)
        ensures
            task@ == running(seq![entry_frame(this, Seq::empty(), *body, false)], thread),
    {
        let mut work: Vec<Work<'a>> = Vec::new();
        work.push(Work::Block(body, 0));
        let frame = Frame { this, locals: Vec::new(), work, constructing: false };
        let mut frames: Vec<Frame<'a>> = Vec::new();
        frames.push(frame);
        let task = Task { frames, status: Status::Running, thread };
        proof {
            assert(frame@.work =~= seq![WorkView::Block(*body, 0)]);
            assert(frame@ == entry_frame(this, Seq::empty(), *body, false));
            assert(task@.frames =~= seq![entry_frame(this, Seq::empty(), *body, false)]);
        }
        task
    }

    /// A task of the main path that runs the frame.
    pub fn of_frame(rt: &Runtime, frame: Frame<'a>) -> (task: Task<'a>)
        requires
            frame@.ok(rt.heap),
        ensures
            task@ == running(seq![frame@], None),
            task@.ok(*rt),
    {
        let mut frames: Vec<Frame<'a>> = Vec::new();
        frames.push(frame);
        let task = Task { frames, status: Status::Running, thread: None };
        proof {
            lemma_running_ok(*rt, Seq::empty(), frame@, None);
            assert(task@.frames =~= Seq::<FrameView>::empty().push(frame@));
        }
        task
    }

    /// The task for the thread with identifier `t`: it runs the method that
    /// the thread is bound to, on the receiver that was captured when the
    /// thread was spawned.
    pub fn for_thread(program: &'a Program, rt: &Runtime, t: usize) -> (task: Task<'a>)
        requires
            rt.wf(program.classes),
            t < rt.threads@.len(),
        ensures
            task@ == running(
                seq![
                    entry_frame(
                        Value::Object(rt.threads@[t as int].bound.receiver),
                        Seq::empty(),
                        program.classes.method_at(rt.threads@[t as int].bound.method).body,
                        false,
                    ),
                ],
                Some(t),
            ),
            task@.ok(*rt),
    {
        let handle = rt.threads.get(t);
        let method = program.classes.method(handle.bound.method);
        let this: Value = Value::Object(handle.bound.receiver);
        let task = Self::begin(this, &method.body, Some(t));
        proof {
            lemma_entry_frame_ok(rt.heap, this, Seq::empty(), method.body, false);
            lemma_running_ok(*rt, Seq::empty(), entry_frame(this, Seq::empty(), method.body, false), Some(t));
            assert(task@.frames =~= Seq::<FrameView>::empty().push(
                entry_frame(this, Seq::empty(), method.body, false),
            ));
        }
        task
    }

    /// Hands the answer of the host to the task that waits for it.
    pub fn resume(&mut self, rt: &Runtime, answer: Value) -> (taken: bool)
        requires
            old(self)@.ok(*rt),
        ensures
            final(self)@ == resume_spec(old(self)@, answer),
            taken == (old(self)@.status matches Status::Waiting(r) && answers(r, answer)),
            final(self)@.ok(*rt),
    {
        let fits: bool = match self.status {
            Status::Waiting(Request::Arith(BinOp::Equal, _, _)) => match answer {
                Value::Bool(_) => true,
                _ => false,
            },
            Status::Waiting(_) => match answer {
                Value::Float(_) => true,
                _ => false,
            },
            _ => false,
        };
        if !fits {
            return false;
        }
        let ghost before = self@;
        proof {
            lemma_stack_later(*rt, *rt, before);
            assert(before.frames[before.frames.len() - 1].ok(rt.heap));
        }
        match self.pop_frame() {
            None => {},
            Some(frame) => {
                let mut frame = frame;
                proof {
                    frame@.lemma_given_ok(rt.heap, answer);
                    lemma_running_ok(*rt, before.frames.drop_last(), frame@.given(answer), before.thread);
                }
                give(&mut frame, answer);
                self.push_frame(frame);
                self.status = Status::Running;
            },
        }
        true
    }
}

/// Starts a program: the shared state before anything ran, and the task of
/// the main path, which is about to run the entry method from its
/// beginning, without a receiver.
pub fn start<'a>(program: &'a Program) -> (res: (Runtime, Task<'a>))
    requires
        program.wf(),
    ensures
        res.0.wf(program.classes),
        res.0.heap.objects().len() == 0,
        res.0.heap.arrays().len() == 0,
        res.0.heap.statics() == Heap::fresh_statics(program.classes),
        res.0.threads@.len() == 0,
        res.1@ == running(seq![entry_frame(Value::Null, Seq::empty(), program.entry.body, false)], None),
        res.1@.ok(res.0),
{
    let rt = Runtime::new(program);
    let task = Task::begin(Value::Null, &program.entry.body, None);
    proof {
        let f = entry_frame(Value::Null, Seq::empty(), program.entry.body, false);
        lemma_entry_frame_ok(rt.heap, Value::Null, Seq::empty(), program.entry.body, false);
        lemma_running_ok(rt, Seq::empty(), f, None);
        assert(task@.frames =~= Seq::<FrameView>::empty().push(f));
    }
    (rt, task)
}

} // verus!
