use object_runtime::class::Member;
use object_runtime::error::{Failure, Fault};
use object_runtime::thread::{exit_code, BoundMethod, ThreadHandle, ThreadState, ThreadTable};
use object_runtime::value::Value;

fn bound(receiver: usize) -> BoundMethod {
    BoundMethod { receiver, method: Member { class: 0, index: 1 } }
}

#[test]
fn spawn_returns_a_running_handle() {
    let mut table = ThreadTable::new();
    assert_eq!(table.len(), 0);
    assert_eq!(table.spawn(bound(3)), 0);
    assert_eq!(table.spawn(bound(3)), 1);
    assert_eq!(table.spawn(bound(4)), 2);
    assert_eq!(table.len(), 3);
    assert_eq!(table.get(1), ThreadHandle { bound: bound(3), state: ThreadState::Running });
    assert_eq!(table.get(2).bound.receiver, 4);
    assert_eq!(table.join(0), None);
    assert_eq!(table.outstanding(), Some(0));
}

#[test]
fn join_reports_how_the_thread_ended() {
    let mut table = ThreadTable::new();
    let a = table.spawn(bound(0));
    let b = table.spawn(bound(1));
    assert_eq!(table.join(a), None);
    assert!(table.finish(a, Ok(())));
    assert_eq!(table.join(a), Some(Ok(())));
    assert_eq!(table.join(b), None);
    assert!(table.finish(b, Err(Fault::IndexOutOfRange)));
    assert_eq!(table.join(b), Some(Err(Failure::ThreadPanicked(Fault::IndexOutOfRange))));
    assert_eq!(table.get(b).state, ThreadState::Failed(Fault::IndexOutOfRange));
    assert_eq!(table.get(a).state, ThreadState::Completed);
}

#[test]
fn a_thread_ends_once() {
    let mut table = ThreadTable::new();
    let a = table.spawn(bound(0));
    assert!(table.finish(a, Err(Fault::TypeMismatch)));
    assert!(!table.finish(a, Ok(())));
    assert_eq!(table.get(a).state, ThreadState::Failed(Fault::TypeMismatch));
    assert!(!table.finish(7, Ok(())));
    assert_eq!(table.len(), 1);
}

#[test]
fn outstanding_names_the_first_running_thread() {
    let mut table = ThreadTable::new();
    assert_eq!(table.outstanding(), None);
    table.spawn(bound(0));
    table.spawn(bound(0));
    table.spawn(bound(0));
    assert!(table.finish(0, Ok(())));
    assert!(table.finish(2, Ok(())));
    assert_eq!(table.outstanding(), Some(1));
    assert!(table.finish(1, Ok(())));
    assert_eq!(table.outstanding(), None);
}

#[test]
fn no_report_before_every_thread_ended() {
    let mut table = ThreadTable::new();
    assert_eq!(table.settle(Ok(Value::Int(0))), Some(Ok(Value::Int(0))));
    table.spawn(bound(0));
    table.spawn(bound(1));
    assert_eq!(table.settle(Ok(Value::Int(0))), None);
    assert_eq!(table.settle(Err(Fault::TypeMismatch)), None);
    assert!(table.finish(1, Ok(())));
    assert_eq!(table.settle(Ok(Value::Int(0))), None);
    assert!(table.finish(0, Ok(())));
    assert_eq!(table.settle(Ok(Value::Int(5))), Some(Ok(Value::Int(5))));
    assert_eq!(table.settle(Err(Fault::TypeMismatch)), Some(Err(Failure::Raised(Fault::TypeMismatch))));
}

#[test]
fn the_first_failed_thread_is_reported() {
    let mut table = ThreadTable::new();
    table.spawn(bound(0));
    table.spawn(bound(1));
    table.spawn(bound(2));
    assert!(table.finish(2, Err(Fault::UnresolvedField)));
    assert!(table.finish(1, Err(Fault::UnresolvedMethod)));
    assert!(table.finish(0, Ok(())));
    assert_eq!(table.settle(Ok(Value::Null)), Some(Err(Failure::ThreadPanicked(Fault::UnresolvedMethod))));
    assert_eq!(table.settle(Err(Fault::DimensionMismatch)), Some(Err(Failure::Raised(Fault::DimensionMismatch))));
}

#[test]
fn exit_codes() {
    assert_eq!(exit_code(Ok(Value::Int(0))), 0);
    assert_eq!(exit_code(Ok(Value::Int(7))), 7);
    assert_eq!(exit_code(Ok(Value::Int(-3))), -3);
    assert_eq!(exit_code(Ok(Value::Int(2147483647))), 2147483647);
    assert_eq!(exit_code(Ok(Value::Int(-2147483648))), -2147483648);
    assert_eq!(exit_code(Ok(Value::Int(2147483648))), 0);
    assert_eq!(exit_code(Ok(Value::Int(-2147483649))), 0);
    assert_eq!(exit_code(Ok(Value::Null)), 0);
    assert_eq!(exit_code(Ok(Value::Bool(true))), 0);
    assert_eq!(exit_code(Err(Failure::Raised(Fault::TypeMismatch))), 1);
    assert_eq!(exit_code(Err(Failure::ThreadPanicked(Fault::TypeMismatch))), 1);
}
