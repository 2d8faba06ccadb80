//! The bookkeeping for threads: each thread runs one method bound to its
//! receiver, and its handle records how far it got.

use vstd::prelude::*;
use crate::class::Member;
use crate::error::{Failure, Fault};
use crate::value::Value;

verus! {

/// A method together with the instance that it is called on: the unit of
/// work that is handed to a thread. It takes no arguments.
#[derive(Clone, Copy, Debug, PartialEq, Eq, Structural)]
pub struct BoundMethod {
    /// The handle of the receiver.
    pub receiver: usize,
    pub method: Member,
}

/// How far a thread got.
#[derive(Clone, Copy, Debug, PartialEq, Eq, Structural)]
pub enum ThreadState {
    Running,
    /// The method returned.
    Completed,
    /// The method failed, for the given reason.
    Failed(Fault),
}

/// What is known of one thread.
#[derive(Clone, Copy, Debug, PartialEq, Eq, Structural)]
pub struct ThreadHandle {
    pub bound: BoundMethod,
    pub state: ThreadState,
}

/// All threads that were ever spawned, in the order of spawning. The
/// identifier of a thread is its position. No thread is ever forgotten.
#[derive(Debug)]
pub struct ThreadTable {
    handles: Vec<ThreadHandle>,
}

impl View for ThreadTable {
    type V = Seq<ThreadHandle>;

    closed spec fn view(&self) -> Seq<ThreadHandle> {
        self.handles@
    }
}

/// Whether no thread is running any more.
pub open spec fn all_done(handles: Seq<ThreadHandle>) -> bool {
    forall|t: int| 0 <= t < handles.len() ==> !((#[trigger] handles[t]).state is Running)
}

/// Whether thread `t` is the first that failed.
pub open spec fn first_failed(handles: Seq<ThreadHandle>, t: int) -> bool {
    &&& 0 <= t < handles.len()
    &&& handles[t].state is Failed
    &&& forall|u: int| 0 <= u < t ==> !((#[trigger] handles[u]).state is Failed)
}

/// What a program reports at its end, where the main path ended as `main`:
/// nothing while a thread is still running; the failure of the main path, if
/// it failed; or else the failure of the first thread that failed; or else
/// the value that the main path returned.
pub open spec fn settle_spec(handles: Seq<ThreadHandle>, main: Result<Value, Fault>) -> Option<
    Result<Value, Failure>,
> {
    if !all_done(handles) {
        None
    } else {
        match main {
            Err(f) => Some(Err(Failure::Raised(f))),
            Ok(v) => if exists|t: int| first_failed(handles, t) {
                let t = choose|t: int| first_failed(handles, t);
                Some(Err(Failure::ThreadPanicked(handles[t].state->Failed_0)))
            } else {
                Some(Ok(v))
            },
        }
    }
}

/// The exit code for what a program reports: one for a failure; for a
/// success the integer that the main path returned, where it fits 32 bits,
/// and zero for any other value.
pub open spec fn exit_code_spec(report: Result<Value, Failure>) -> i32 {
    match report {
        Err(_) => 1,
        Ok(Value::Int(i)) => if i32::MIN <= i <= i32::MAX {
            i as i32
        } else {
            0
        },
        Ok(_) => 0,
    }
}

/// The exit code for what a program reports.
pub fn exit_code(report: Result<Value, Failure>) -> (code: i32)
    ensures
        code == exit_code_spec(report),
{
    match report {
        Err(_) => 1,
        Ok(Value::Int(i)) => if -2147483648 <= i && i <= 2147483647 {
            i as i32
        } else {
            0
        },
        Ok(_) => 0,
    }
}

impl ThreadTable {
    /// A table without threads.
    pub fn new() -> (table: ThreadTable)
        ensures
            table@.len() == 0,
    {
        ThreadTable { handles: Vec::new() }
    }

    /// The number of threads that were spawned so far.
    pub fn len(&self) -> (n: usize)
        ensures
            n == self@.len(),
    {
        self.handles.len()
    }

    /// What is known of thread `t`.
    pub fn get(&self, t: usize) -> (handle: ThreadHandle)
        requires
            t < self@.len(),
        ensures
            handle == self@[t as int],
    {
        self.handles[t]
    }

    /// Records a new thread for `bound` and returns its identifier at once.
    /// The thread counts as running from here on.
    pub fn spawn(&mut self, bound: BoundMethod) -> (t: usize)
        ensures
            t == old(self)@.len(),
            final(self)@ == old(self)@.push(ThreadHandle { bound, state: ThreadState::Running }),
    {
        let t: usize = self.handles.len();
        self.handles.push(ThreadHandle { bound, state: ThreadState::Running });
        t
    }

    /// The state of a thread whose method ended as `outcome`.
    pub open spec fn ended(outcome: Result<(), Fault>) -> ThreadState {
        match outcome {
            Ok(_) => ThreadState::Completed,
            Err(f) => ThreadState::Failed(f),
        }
    }

    /// Records that the method of thread `t` ended as `outcome`. Only a
    /// running thread can end: for one that has ended already, and for an
    /// identifier that names no thread, nothing changes and the answer is
    /// `false`.
    pub fn finish(&mut self, t: usize, outcome: Result<(), Fault>) -> (changed: bool)
        ensures
            changed == (t < old(self)@.len() && old(self)@[t as int].state is Running),
            changed ==> final(self)@ == old(self)@.update(
                t as int,
                ThreadHandle { bound: old(self)@[t as int].bound, state: Self::ended(outcome) },
            ),
            !changed ==> final(self)@ == old(self)@,
    {
        if t >= self.handles.len() {
            return false;
        }
        let handle: ThreadHandle = self.handles[t];
        match handle.state {
            ThreadState::Running => {},
            _ => {
                return false;
            },
        }
        let state: ThreadState = match outcome {
            Ok(_) => ThreadState::Completed,
            Err(f) => ThreadState::Failed(f),
        };
        self.handles.set(t, ThreadHandle { bound: handle.bound, state });
        true
    }

    /// What a join of thread `t` finds.
    pub open spec fn join_spec(self, t: int) -> Option<Result<(), Failure>> {
        match self@[t].state {
            ThreadState::Running => None,
            ThreadState::Completed => Some(Ok(())),
            ThreadState::Failed(f) => Some(Err(Failure::ThreadPanicked(f))),
        }
    }

    /// Looks whether thread `t` can be joined: not while it is running;
    /// after that the join returns normally for a thread that completed, and
    /// fails with `ThreadPanicked` and the reason for one that failed. The
    /// caller waits for as long as the answer is `None`.
    pub fn join(&self, t: usize) -> (res: Option<Result<(), Failure>>)
        requires
            t < self@.len(),
        ensures
            res == self.join_spec(t as int),
    {
        match self.handles[t].state {
            ThreadState::Running => None,
            ThreadState::Completed => Some(Ok(())),
            ThreadState::Failed(f) => Some(Err(Failure::ThreadPanicked(f))),
        }
    }

    /// The first thread that is still running.
    pub fn outstanding(&self) -> (res: Option<usize>)
        ensures
            match res {
                Some(t) => {
                    &&& t < self@.len()
                    &&& self@[t as int].state is Running
                    &&& forall|u: int| 0 <= u < t ==> !((#[trigger] self@[u]).state is Running)
                },
                None => all_done(self@),
            },
    {
        let n: usize = self.handles.len();
        let mut t: usize = 0;
        while t < n
            invariant
                n == self@.len(),
                t <= n,
                forall|u: int| 0 <= u < t ==> !((#[trigger] self@[u]).state is Running),
            decreases n - t,
        {
            match self.handles[t].state {
                ThreadState::Running => {
                    return Some(t);
                },
                _ => {},
            }
            t += 1;
        }
        None
    }

    /// What the program reports at its end, where the main path ended as
    /// `main`. There is no report before every thread has ended: the end of
    /// the program joins them all.
    pub fn settle(&self, main: Result<Value, Fault>) -> (res: Option<Result<Value, Failure>>)
        ensures
            res == settle_spec(self@, main),
            res is Some <==> all_done(self@),
    {
        if self.outstanding().is_some() {
            return None;
        }
        let v: Value = match main {
            Err(f) => {
                return Some(Err(Failure::Raised(f)));
            },
            Ok(v) => v,
        };
        let n: usize = self.handles.len();
        let mut t: usize = 0;
        while t < n
            invariant
                n == self@.len(),
                t <= n,
                all_done(self@),
                main == Ok::<Value, Fault>(v),
                forall|u: int| 0 <= u < t ==> !((#[trigger] self@[u]).state is Failed),
            decreases n - t,
        {
            match self.handles[t].state {
                ThreadState::Failed(f) => {
                    proof {
                        assert(first_failed(self@, t as int));
                        let w = choose|w: int| first_failed(self@, w);
                        if w < t {
                            assert(!(self@[w].state is Failed));
                        }
                        if t < w {
                            assert(!(self@[t as int].state is Failed));
                        }
                    }
                    return Some(Err(Failure::ThreadPanicked(f)));
                },
                _ => {},
            }
            t += 1;
        }
        proof {
            assert forall|w: int| !first_failed(self@, w) by {
                if 0 <= w < self@.len() {
                    assert(!(self@[w].state is Failed));
                }
            }
        }
        Some(Ok(v))
    }

    /// The end of a program drops no thread: there is a report only once
    /// every thread has ended; a report of success means that every thread
    /// completed; and a thread that failed makes the report a failure.
    pub proof fn lemma_report_joins_all(handles: Seq<ThreadHandle>, main: Result<Value, Fault>, t: int)
        requires
            0 <= t < handles.len(),
            settle_spec(handles, main) is Some,
        ensures
            !(handles[t].state is Running),
            settle_spec(handles, main).unwrap() is Ok ==> handles[t].state is Completed,
            handles[t].state is Failed ==> settle_spec(handles, main).unwrap() is Err,
    {
        if main is Ok && handles[t].state is Failed {
            if !exists|w: int| first_failed(handles, w) {
                Self::lemma_some_first_failed(handles, t);
            }
        }
    }

    /// Where a thread failed, there is a first one that failed.
    proof fn lemma_some_first_failed(handles: Seq<ThreadHandle>, t: int)
        requires
            0 <= t < handles.len(),
            handles[t].state is Failed,
        ensures
            exists|w: int| first_failed(handles, w),
        decreases t,
    {
        if exists|u: int| 0 <= u < t && (#[trigger] handles[u]).state is Failed {
            let u = choose|u: int| 0 <= u < t && (#[trigger] handles[u]).state is Failed;
            Self::lemma_some_first_failed(handles, u);
        } else {
            assert(first_failed(handles, t));
        }
    }

    /// A thread that has ended stays as it ended: no later end of any
    /// thread changes what a join of it finds.
    pub proof fn lemma_ended_stays(before: Seq<ThreadHandle>, t: int, u: int, outcome: Result<(), Fault>)
        requires
            0 <= t < before.len(),
            0 <= u < before.len(),
            !(before[t].state is Running),
        ensures
            ({
                let after = if before[u].state is Running {
                    before.update(u, ThreadHandle { bound: before[u].bound, state: Self::ended(outcome) })
                } else {
                    before
                };
                after[t] == before[t]
            }),
    {
    }
}

} // verus!
