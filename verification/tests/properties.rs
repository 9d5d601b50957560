//! The observable scheduling guarantees, exercised on concrete runs.

use mini_rt::runtime::MiniRuntime;
use mini_rt::task::Resumption;
use mini_rt::task::Task;
use mini_rt::task::record;
use mini_rt::task::sleep;
use mini_rt::task::yield_now;

fn task(ops: Vec<mini_rt::task::Op>) -> Task {
    Task::new(ops)
}

#[test]
fn shorter_sleep_completes_first() {
    let mut rt = MiniRuntime::new();
    rt.spawn(task(vec![sleep(5), record(1)]));
    rt.spawn(task(vec![sleep(9), record(2)]));
    rt.block_on(task(vec![]));
    assert_eq!(rt.log(), &vec![1, 2]);
}

#[test]
fn zero_sleep_completes_on_first_resumption() {
    let mut t = task(vec![sleep(0), record(1)]);
    let (emitted, res) = t.poll(0);
    assert!(matches!(res, Resumption::Completed));
    assert_eq!(emitted, vec![1]);
}

#[test]
fn zero_sleep_finishes_before_any_yield_interleaving() {
    let mut rt = MiniRuntime::new();
    rt.spawn(task(vec![sleep(0), record(1)]));
    rt.spawn(task(vec![yield_now(), record(2)]));
    rt.block_on(task(vec![]));
    assert_eq!(rt.log(), &vec![1, 2]);
    // the zero sleep never sat in the deadline queue: the clock never moved
    assert_eq!(rt.now(), 0);
}

#[test]
fn single_yield_is_resumed_exactly_twice() {
    let mut rt = MiniRuntime::new();
    rt.block_on(task(vec![yield_now()]));
    assert_eq!(rt.resumption_count(), 2);
    assert_eq!(rt.log().len(), 0);
}

#[test]
fn yield_suspends_on_first_poll_and_completes_on_second() {
    let mut t = task(vec![yield_now()]);
    let (_, first) = t.poll(0);
    assert!(matches!(first, Resumption::Suspended(_)));
    let (_, second) = t.poll(0);
    assert!(matches!(second, Resumption::Completed));
}

#[test]
fn zero_spawned_tasks_return_from_block_on_immediately() {
    let mut rt = MiniRuntime::new();
    rt.block_on(task(vec![]));
    assert_eq!(rt.resumption_count(), 1);
    assert_eq!(rt.log().len(), 0);
}

#[test]
fn equal_sleep_durations_both_complete() {
    let mut rt = MiniRuntime::new();
    rt.spawn(task(vec![sleep(4), record(1)]));
    rt.spawn(task(vec![sleep(4), record(2)]));
    rt.block_on(task(vec![]));
    let log = rt.log();
    assert_eq!(log.len(), 2);
    assert!(log.contains(&1));
    assert!(log.contains(&2));
}

#[test]
fn end_to_end_two_sleeps_record_in_order() {
    let mut rt = MiniRuntime::new();
    rt.spawn(task(vec![sleep(1), record(10)]));
    rt.spawn(task(vec![sleep(2), record(20)]));
    rt.block_on(task(vec![]));
    assert_eq!(rt.log(), &vec![10, 20]);
}

#[test]
fn stress_many_yielding_tasks_all_complete() {
    let n: u64 = 25;
    let k: usize = 4;
    let mut rt = MiniRuntime::new();
    for label in 1..n {
        let mut ops = Vec::new();
        for _ in 0..k {
            ops.push(yield_now());
        }
        ops.push(record(label));
        rt.spawn(task(ops));
    }
    let mut root_ops = Vec::new();
    for _ in 0..k {
        root_ops.push(yield_now());
    }
    root_ops.push(record(n));
    rt.block_on(task(root_ops));
    // all N tasks completed, each resumed exactly k + 1 times
    assert_eq!(rt.log().len(), n as usize);
    assert_eq!(rt.resumption_count(), n * (k as u64 + 1));
    for label in 1..=n {
        assert!(rt.log().contains(&label));
    }
}
