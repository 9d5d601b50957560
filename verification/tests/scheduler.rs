//! Run-loop behaviour: FIFO draining, deadline promotion, the virtual
//! clock, and termination.

use mini_rt::runtime::MiniRuntime;
use mini_rt::task::Task;
use mini_rt::task::record;
use mini_rt::task::sleep;
use mini_rt::task::yield_now;

fn task(ops: Vec<mini_rt::task::Op>) -> Task {
    Task::new(ops)
}

#[test]
fn empty_scheduler_returns_immediately() {
    let mut rt = MiniRuntime::new();
    rt.block_on(task(vec![]));
    assert_eq!(rt.log().len(), 0);
    assert_eq!(rt.resumption_count(), 1);
    assert_eq!(rt.now(), 0);
}

#[test]
fn single_record_runs_once() {
    let mut rt = MiniRuntime::new();
    rt.block_on(task(vec![record(7)]));
    assert_eq!(rt.log(), &vec![7]);
    assert_eq!(rt.resumption_count(), 1);
}

#[test]
fn ready_tasks_run_in_fifo_order() {
    let mut rt = MiniRuntime::new();
    rt.spawn(task(vec![record(1)]));
    rt.spawn(task(vec![record(2)]));
    rt.block_on(task(vec![record(3)]));
    assert_eq!(rt.log(), &vec![1, 2, 3]);
}

#[test]
fn yielding_tasks_interleave_in_fifo_order() {
    let mut rt = MiniRuntime::new();
    rt.spawn(task(vec![yield_now(), record(1)]));
    rt.spawn(task(vec![yield_now(), record(2)]));
    rt.block_on(task(vec![]));
    assert_eq!(rt.log(), &vec![1, 2]);
    // two resumptions per yielding task, one for the empty root
    assert_eq!(rt.resumption_count(), 5);
}

#[test]
fn clock_advances_to_each_deadline() {
    let mut rt = MiniRuntime::new();
    rt.block_on(task(vec![sleep(2), record(1), sleep(3), record(2)]));
    assert_eq!(rt.log(), &vec![1, 2]);
    // the second sleep starts at instant 2, so it wakes at 2 + 3
    assert_eq!(rt.now(), 5);
}

#[test]
fn expired_deadlines_promote_in_deadline_order() {
    let mut rt = MiniRuntime::new();
    rt.spawn(task(vec![sleep(3), record(1)]));
    rt.spawn(task(vec![sleep(3), record(2)]));
    rt.spawn(task(vec![sleep(1), record(3)]));
    rt.block_on(task(vec![]));
    assert_eq!(rt.log(), &vec![3, 1, 2]);
}

#[test]
fn huge_duration_saturates_and_still_completes() {
    let mut rt = MiniRuntime::new();
    rt.block_on(task(vec![sleep(u64::MAX), record(9)]));
    assert_eq!(rt.log(), &vec![9]);
    assert_eq!(rt.now(), u64::MAX);
}

#[test]
fn join_all_runs_parts_in_order() {
    let parts = vec![
        task(vec![record(1)]),
        task(vec![yield_now(), record(2)]),
        task(vec![sleep(1), record(3)]),
    ];
    let mut rt = MiniRuntime::new();
    rt.block_on(mini_rt::task::join_all(parts));
    assert_eq!(rt.log(), &vec![1, 2, 3]);
}

#[test]
fn joined_task_still_interleaves_with_spawned_tasks() {
    let mut rt = MiniRuntime::new();
    rt.spawn(task(vec![yield_now(), record(10)]));
    let joined = mini_rt::task::join_all(vec![
        task(vec![yield_now(), record(1)]),
        task(vec![record(2)]),
    ]);
    rt.block_on(joined);
    // the spawned task parks first, the joined root parks, then both finish
    assert_eq!(rt.log(), &vec![10, 1, 2]);
}
