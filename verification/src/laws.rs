//! The observable scheduling guarantees, stated and proved against the
//! reference interpreter `sched_run`.

use vstd::prelude::*;
use crate::task::Op;
use crate::task::Resumption;
use crate::task::TaskView;
use crate::task::Wake;
use crate::task::task_step;
use crate::runtime::RuntimeView;
use crate::runtime::TimerView;
use crate::runtime::lemma_run_step;
use crate::runtime::lemma_sched_advance;
use crate::runtime::min_timer_idx;
use crate::runtime::min_timer_idx_from;
use crate::runtime::pending_count;
use crate::runtime::run_step;
use crate::runtime::runtime_done;
use crate::runtime::runtime_wf;
use crate::runtime::sched_run;
use crate::runtime::total_work;
use crate::runtime::waiting_flag;

verus! {

/// A task that sleeps for `d` time units and then records `label`.
pub open spec fn sleeper(d: u64, label: u64) -> TaskView {
    TaskView { ops: seq![Op::Sleep(d), Op::Record(label)], pc: 0, asleep: None, parked: false }
}

/// A scheduler with no queued work returns from its run loop at once:
/// the complete run changes nothing, performs no resumption and records
/// nothing.
pub proof fn lemma_idle_run_returns_immediately(s: RuntimeView)
    requires
        runtime_wf(s),
        runtime_done(s),
    ensures
        sched_run(s) == s,
{
}

/// A resumption that meets only zero-duration sleeps and records never
/// asks for the deadline queue and completes the task then and there: a
/// zero sleep finishes on the very resumption that first evaluates it.
pub proof fn lemma_zero_sleep_completes_immediately(t: TaskView, now: u64)
    requires
        t.wf(),
        t.asleep is None,
        !t.parked,
        forall|i: int|
            t.pc <= i < t.ops.len() ==> ((#[trigger] t.ops[i]) matches Op::Sleep(d) ==> d == 0),
        forall|i: int| t.pc <= i < t.ops.len() ==> !((#[trigger] t.ops[i]) is YieldNow),
    ensures
        task_step(t, now).res is Completed,
    decreases t.ops.len() - t.pc,
{
    if 0 <= t.pc < t.ops.len() {
        let t2 = TaskView { pc: t.pc + 1, asleep: None, parked: false, ..t };
        lemma_zero_sleep_completes_immediately(t2, now);
    }
}

/// Time never runs backwards and nothing recorded is ever lost: a
/// complete run only advances the clock and only appends to the log.
pub proof fn lemma_run_is_monotonic(s: RuntimeView)
    requires
        runtime_wf(s),
    ensures
        sched_run(s).now >= s.now,
        exists|suffix: Seq<u64>| sched_run(s).log == s.log + suffix,
    decreases total_work(s), pending_count(s), s.timers.len(),
        waiting_flag(s),
{
    if runtime_done(s) {
        assert(sched_run(s).log == s.log + Seq::<u64>::empty()) by {
            assert(s.log + Seq::<u64>::empty() =~= s.log);
        }
    } else {
        lemma_run_step(s);
        let s2 = run_step(s);
        lemma_run_is_monotonic(s2);
        let head: Seq<u64> = if s.tasks.len() > 0 {
            task_step(s.tasks[0], s.now).emitted
        } else {
            Seq::<u64>::empty()
        };
        assert(s2.log == s.log + head) by {
            if s.tasks.len() == 0 {
                assert(s.log + Seq::<u64>::empty() =~= s.log);
            }
        }
        let tail = choose|suffix: Seq<u64>| sched_run(s2).log == s2.log + suffix;
        assert(sched_run(s).log == s.log + (head + tail)) by {
            assert((s.log + head) + tail =~= s.log + (head + tail));
        }
    }
}

/// Deadline order.  From a scheduler holding exactly two fresh tasks,
/// the first sleeping `d1` units then recording `a`, the second sleeping
/// `d2 >= d1` units then recording `b`, the complete run records `a`
/// before `b`: the earlier deadline completes first, and with equal
/// deadlines both tasks still complete, the one spawned first winning
/// this scheduler's tie-break.
pub proof fn lemma_sleep_order(s: RuntimeView, d1: u64, d2: u64, a: u64, b: u64)
    requires
        s.tasks == seq![sleeper(d1, a), sleeper(d2, b)],
        s.timers.len() == 0,
        d1 <= d2,
        s.now + d2 <= u64::MAX,
    ensures
        sched_run(s).log == s.log + seq![a, b],
        runtime_done(sched_run(s)),
{
    reveal_with_fuel(task_step, 4);
    reveal_with_fuel(min_timer_idx_from, 3);
    let n = s.now;
    let t1 = sleeper(d1, a);
    let t2 = sleeper(d2, b);
    let dl1 = n.saturating_add(d1);
    let dl2 = n.saturating_add(d2);
    assert(dl1 == n + d1 && dl2 == n + d2);
    assert(s.tasks[0] == t1 && s.tasks[1] == t2);
    assert(runtime_wf(s));
    if d1 == 0 {
        // the first sleep expires on its very first evaluation
        let o1 = task_step(t1, n);
        assert(o1.emitted =~= seq![a] && o1.res is Completed);
        let s1 = RuntimeView {
            tasks: seq![t2],
            log: s.log + seq![a],
            resumptions: s.resumptions.saturating_add(1),
            ..s
        };
        assert(run_step(s) =~= s1);
        lemma_sched_advance(s, s1);
        assert(runtime_wf(s1));
        if d2 == 0 {
            let o2 = task_step(t2, n);
            assert(o2.emitted =~= seq![b] && o2.res is Completed);
            let s2 = RuntimeView {
                tasks: Seq::<TaskView>::empty(),
                log: s1.log + seq![b],
                resumptions: s1.resumptions.saturating_add(1),
                ..s1
            };
            assert(run_step(s1) =~= s2);
            lemma_sched_advance(s1, s2);
            assert(runtime_wf(s2) && runtime_done(s2));
            assert(sched_run(s2) == s2);
            assert(sched_run(s).log =~= s.log + seq![a, b]);
        } else {
            let t2s = TaskView { asleep: Some(dl2), ..t2 };
            let e2 = TimerView { when: dl2, task: t2s };
            let s2 = RuntimeView {
                tasks: Seq::<TaskView>::empty(),
                timers: s.timers.push(e2),
                log: s1.log,
                resumptions: s1.resumptions.saturating_add(1),
                ..s1
            };
            assert(run_step(s1) =~= s2);
            lemma_sched_advance(s1, s2);
            assert(s2.timers[0] == e2);
            assert(runtime_wf(s2));
            let s3 = RuntimeView { now: dl2, ..s2 };
            assert(run_step(s2) =~= s3);
            lemma_sched_advance(s2, s3);
            assert(runtime_wf(s3));
            let s4 = RuntimeView {
                tasks: seq![t2s],
                timers: Seq::<TimerView>::empty(),
                ..s3
            };
            assert(s3.timers.remove(0) =~= Seq::<TimerView>::empty());
            assert(run_step(s3) =~= s4);
            lemma_sched_advance(s3, s4);
            assert(runtime_wf(s4));
            let o2 = task_step(t2s, dl2);
            assert(o2.emitted =~= seq![b] && o2.res is Completed);
            let s5 = RuntimeView {
                tasks: Seq::<TaskView>::empty(),
                log: s4.log + seq![b],
                resumptions: s4.resumptions.saturating_add(1),
                ..s4
            };
            assert(run_step(s4) =~= s5);
            lemma_sched_advance(s4, s5);
            assert(runtime_wf(s5) && runtime_done(s5));
            assert(sched_run(s5) == s5);
            assert(sched_run(s).log =~= s.log + seq![a, b]);
        }
    } else {
        // both sleeps suspend into the deadline queue
        let t1s = TaskView { asleep: Some(dl1), ..t1 };
        let t2s = TaskView { asleep: Some(dl2), ..t2 };
        let e1 = TimerView { when: dl1, task: t1s };
        let e2 = TimerView { when: dl2, task: t2s };
        let s1 = RuntimeView {
            tasks: seq![t2],
            timers: s.timers.push(e1),
            log: s.log,
            resumptions: s.resumptions.saturating_add(1),
            ..s
        };
        assert(run_step(s) =~= s1);
        lemma_sched_advance(s, s1);
        assert(s1.timers[0] == e1);
        assert(runtime_wf(s1));
        let s2 = RuntimeView {
            tasks: Seq::<TaskView>::empty(),
            timers: s1.timers.push(e2),
            resumptions: s1.resumptions.saturating_add(1),
            ..s1
        };
        assert(run_step(s1) =~= s2);
        lemma_sched_advance(s1, s2);
        assert(s2.timers[0] == e1 && s2.timers[1] == e2);
        assert(runtime_wf(s2));
        // the minimum deadline is the first entry, `dl1 <= dl2`
        assert(min_timer_idx(s2.timers) == 0);
        let s3 = RuntimeView { now: dl1, ..s2 };
        assert(run_step(s2) =~= s3);
        lemma_sched_advance(s2, s3);
        assert(runtime_wf(s3));
        let s4 = RuntimeView { tasks: seq![t1s], timers: seq![e2], ..s3 };
        assert(s3.timers.remove(0) =~= seq![e2]);
        assert(run_step(s3) =~= s4);
        lemma_sched_advance(s3, s4);
        assert(runtime_wf(s4));
        let o1 = task_step(t1s, dl1);
        assert(o1.emitted =~= seq![a] && o1.res is Completed);
        let s5 = RuntimeView {
            tasks: Seq::<TaskView>::empty(),
            log: s4.log + seq![a],
            resumptions: s4.resumptions.saturating_add(1),
            ..s4
        };
        assert(run_step(s4) =~= s5);
        lemma_sched_advance(s4, s5);
        assert(s5.timers[0] == e2);
        assert(runtime_wf(s5));
        let s6 = if dl2 <= dl1 {
            s5
        } else {
            let s6 = RuntimeView { now: dl2, ..s5 };
            assert(run_step(s5) =~= s6);
            lemma_sched_advance(s5, s6);
            assert(runtime_wf(s6));
            s6
        };
        assert(s6.now == dl2 && s6.timers == seq![e2] && s6.tasks.len() == 0
            && s6.log == s.log + seq![a]);
        let s7 = RuntimeView { tasks: seq![t2s], timers: Seq::<TimerView>::empty(), ..s6 };
        assert(s6.timers.remove(0) =~= Seq::<TimerView>::empty());
        assert(run_step(s6) =~= s7);
        lemma_sched_advance(s6, s7);
        assert(runtime_wf(s7));
        let o2 = task_step(t2s, dl2);
        assert(o2.emitted =~= seq![b] && o2.res is Completed);
        let s8 = RuntimeView {
            tasks: Seq::<TaskView>::empty(),
            log: s7.log + seq![b],
            resumptions: s7.resumptions.saturating_add(1),
            ..s7
        };
        assert(run_step(s7) =~= s8);
        lemma_sched_advance(s7, s8);
        assert(runtime_wf(s8) && runtime_done(s8));
        assert(sched_run(s8) == s8);
        assert(sched_run(s).log =~= s.log + seq![a, b]);
    }
}

/// The strictly earlier deadline is observed to complete first: with
/// `d1 < d2`, the run records `a` before `b`.
pub proof fn lemma_earlier_deadline_completes_first(
    s: RuntimeView,
    d1: u64,
    d2: u64,
    a: u64,
    b: u64,
)
    requires
        s.tasks == seq![sleeper(d1, a), sleeper(d2, b)],
        s.timers.len() == 0,
        d1 < d2,
        s.now + d2 <= u64::MAX,
    ensures
        sched_run(s).log == s.log + seq![a, b],
{
    lemma_sleep_order(s, d1, d2, a, b);
}

/// Equal deadlines starve nothing: two tasks sleeping for the same
/// duration both complete and both labels are recorded, in one order or
/// the other.
pub proof fn lemma_equal_deadlines_both_complete(s: RuntimeView, d: u64, a: u64, b: u64)
    requires
        s.tasks == seq![sleeper(d, a), sleeper(d, b)],
        s.timers.len() == 0,
        s.now + d <= u64::MAX,
    ensures
        sched_run(s).log == s.log + seq![a, b] || sched_run(s).log == s.log + seq![b, a],
        runtime_done(sched_run(s)),
{
    lemma_sleep_order(s, d, d, a, b);
}

/// The program that calls `yield_now` `k` times and then completes.
pub open spec fn repeat_yield(k: nat) -> Seq<Op> {
    Seq::new(k, |i: int| Op::YieldNow)
}

/// The yielding task mid-run: `j` yields already completed, and when
/// `parked`, the yield at `j` has already suspended once.
pub open spec fn yielder_at(k: nat, j: int, parked: bool) -> TaskView {
    TaskView { ops: repeat_yield(k), pc: j, asleep: None, parked }
}

proof fn lemma_yield_count_from(s: RuntimeView, k: nat, j: int)
    requires
        s.tasks == seq![yielder_at(k, j, true)],
        s.timers.len() == 0,
        0 <= j < k,
        s.resumptions + (k - j) <= u64::MAX,
    ensures
        sched_run(s).resumptions == s.resumptions + (k - j),
        sched_run(s).log == s.log,
        runtime_done(sched_run(s)),
    decreases k - j,
{
    reveal_with_fuel(task_step, 3);
    let t = yielder_at(k, j, true);
    assert(s.tasks[0] == t);
    assert(runtime_wf(s));
    let o = task_step(t, s.now);
    if j + 1 == k {
        assert(o.res is Completed && o.emitted =~= Seq::<u64>::empty());
        let s1 = RuntimeView {
            tasks: Seq::<TaskView>::empty(),
            log: s.log + Seq::<u64>::empty(),
            resumptions: s.resumptions.saturating_add(1),
            ..s
        };
        assert(run_step(s) =~= s1);
        lemma_sched_advance(s, s1);
        assert(runtime_wf(s1) && runtime_done(s1));
        assert(sched_run(s1) == s1);
        assert(sched_run(s).log =~= s.log);
    } else {
        assert(o.res is Suspended && o.task == yielder_at(k, j + 1, true));
        assert(o.emitted =~= Seq::<u64>::empty());
        let s1 = RuntimeView {
            tasks: seq![yielder_at(k, j + 1, true)],
            log: s.log + Seq::<u64>::empty(),
            resumptions: s.resumptions.saturating_add(1),
            ..s
        };
        assert(s.tasks.drop_first().push(o.task) =~= s1.tasks);
        assert(run_step(s) =~= s1);
        lemma_sched_advance(s, s1);
        assert(s1.log =~= s.log);
        lemma_yield_count_from(s1, k, j + 1);
    }
}

/// Cooperative yielding is counted exactly.  A single task that calls
/// `yield_now` `k` times and then completes is resumed exactly `k + 1`
/// times by the run loop (each yield suspends exactly once), and records
/// nothing.
pub proof fn lemma_yield_resumption_count(s: RuntimeView, k: nat)
    requires
        s.tasks == seq![yielder_at(k, 0, false)],
        s.timers.len() == 0,
        s.resumptions + k + 1 <= u64::MAX,
    ensures
        sched_run(s).resumptions == s.resumptions + k + 1,
        sched_run(s).log == s.log,
        runtime_done(sched_run(s)),
{
    reveal_with_fuel(task_step, 3);
    let t = yielder_at(k, 0, false);
    assert(s.tasks[0] == t);
    assert(runtime_wf(s));
    let o = task_step(t, s.now);
    if k == 0 {
        assert(o.res is Completed && o.emitted =~= Seq::<u64>::empty());
        let s1 = RuntimeView {
            tasks: Seq::<TaskView>::empty(),
            log: s.log + Seq::<u64>::empty(),
            resumptions: s.resumptions.saturating_add(1),
            ..s
        };
        assert(run_step(s) =~= s1);
        lemma_sched_advance(s, s1);
        assert(runtime_wf(s1) && runtime_done(s1));
        assert(sched_run(s1) == s1);
        assert(sched_run(s).log =~= s.log);
    } else {
        assert(o.res is Suspended && o.task == yielder_at(k, 0, true));
        assert(o.emitted =~= Seq::<u64>::empty());
        let s1 = RuntimeView {
            tasks: seq![yielder_at(k, 0, true)],
            log: s.log + Seq::<u64>::empty(),
            resumptions: s.resumptions.saturating_add(1),
            ..s
        };
        assert(s.tasks.drop_first().push(o.task) =~= s1.tasks);
        assert(run_step(s) =~= s1);
        lemma_sched_advance(s, s1);
        assert(s1.log =~= s.log);
        lemma_yield_count_from(s1, k, 0);
    }
}

/// Whether a program consists of yields alone.
pub open spec fn all_yield_ops(ops: Seq<Op>) -> bool {
    forall|i: int| 0 <= i < ops.len() ==> (#[trigger] ops[i]) is YieldNow
}

/// Exactly how many further resumptions a yield-only task needs before it
/// completes: one per remaining yield, one more to park the yield at the
/// cursor unless it is already parked, and a single final resumption when
/// nothing is left.
pub open spec fn yield_rem(t: TaskView) -> int {
    if t.parked {
        t.ops.len() - t.pc
    } else if t.pc == t.ops.len() {
        1
    } else {
        t.ops.len() - t.pc + 1
    }
}

/// The resumptions still owed to a whole ready queue of yield-only tasks.
pub open spec fn yield_rem_sum(ts: Seq<TaskView>) -> int
    decreases ts.len(),
{
    if ts.len() == 0 {
        0
    } else {
        yield_rem(ts[0]) + yield_rem_sum(ts.drop_first())
    }
}

proof fn lemma_yield_rem_sum_push(ts: Seq<TaskView>, t: TaskView)
    ensures
        yield_rem_sum(ts.push(t)) == yield_rem_sum(ts) + yield_rem(t),
    decreases ts.len(),
{
    if ts.len() == 0 {
        assert(ts.push(t).drop_first() =~= ts);
    } else {
        assert(ts.push(t).drop_first() =~= ts.drop_first().push(t));
        lemma_yield_rem_sum_push(ts.drop_first(), t);
    }
}

proof fn lemma_yield_rem_sum_nonneg(ts: Seq<TaskView>)
    requires
        forall|i: int| 0 <= i < ts.len() ==> (#[trigger] ts[i]).wf(),
    ensures
        yield_rem_sum(ts) >= ts.len(),
    decreases ts.len(),
{
    if ts.len() > 0 {
        assert(forall|i: int| 0 <= i < ts.drop_first().len() ==> (#[trigger] ts.drop_first()[i]).wf());
        lemma_yield_rem_sum_nonneg(ts.drop_first());
    }
}

/// Cooperative yielding is counted exactly across any number of tasks.
/// From a ready queue holding only yield-only tasks, the complete run
/// performs exactly the owed number of resumptions, records nothing, and
/// drains every task.
pub proof fn lemma_yielders_total_resumptions(s: RuntimeView)
    requires
        s.timers.len() == 0,
        forall|i: int| 0 <= i < s.tasks.len() ==> (#[trigger] s.tasks[i]).wf(),
        forall|i: int| 0 <= i < s.tasks.len() ==> all_yield_ops((#[trigger] s.tasks[i]).ops),
        s.resumptions + yield_rem_sum(s.tasks) <= u64::MAX,
    ensures
        sched_run(s).resumptions == s.resumptions + yield_rem_sum(s.tasks),
        sched_run(s).log == s.log,
        runtime_done(sched_run(s)),
    decreases yield_rem_sum(s.tasks),
{
    reveal_with_fuel(task_step, 3);
    lemma_yield_rem_sum_nonneg(s.tasks);
    if s.tasks.len() == 0 {
        assert(runtime_wf(s) && runtime_done(s));
        assert(sched_run(s) == s);
    } else {
        let t = s.tasks[0];
        assert(t.wf() && all_yield_ops(t.ops));
        assert(t.asleep is None);
        assert(runtime_wf(s));
        let o = task_step(t, s.now);
        let rest = s.tasks.drop_first();
        assert(forall|i: int| 0 <= i < rest.len() ==> rest[i] == s.tasks[i + 1]);
        lemma_yield_rem_sum_nonneg(rest);
        assert(yield_rem_sum(s.tasks) == yield_rem(t) + yield_rem_sum(rest));
        if t.pc < t.ops.len() {
            assert(t.ops[t.pc] is YieldNow);
        }
        if o.res is Completed {
            // the task at the cursor's end, or parked on its last yield
            assert(yield_rem(t) == 1);
            assert(o.emitted =~= Seq::<u64>::empty());
            let s1 = RuntimeView {
                tasks: rest,
                log: s.log + Seq::<u64>::empty(),
                resumptions: s.resumptions.saturating_add(1),
                ..s
            };
            assert(run_step(s) =~= s1);
            lemma_sched_advance(s, s1);
            assert(s1.log =~= s.log);
            lemma_yielders_total_resumptions(s1);
        } else {
            // the yield at the cursor parks now, or the next one does
            let parked = if t.parked {
                TaskView { pc: t.pc + 1, asleep: None, parked: true, ..t }
            } else {
                TaskView { parked: true, ..t }
            };
            assert(o.res is Suspended && o.task == parked);
            assert(o.res matches Resumption::Suspended(Wake::Immediate));
            assert(yield_rem(parked) == yield_rem(t) - 1);
            assert(o.emitted =~= Seq::<u64>::empty());
            let s1 = RuntimeView {
                tasks: rest.push(parked),
                log: s.log + Seq::<u64>::empty(),
                resumptions: s.resumptions.saturating_add(1),
                ..s
            };
            assert(run_step(s) =~= s1);
            lemma_sched_advance(s, s1);
            assert(s1.log =~= s.log);
            lemma_yield_rem_sum_push(rest, parked);
            assert(forall|i: int|
                0 <= i < s1.tasks.len() ==> (#[trigger] s1.tasks[i]).wf());
            assert(forall|i: int|
                0 <= i < s1.tasks.len() ==> all_yield_ops((#[trigger] s1.tasks[i]).ops));
            lemma_yielders_total_resumptions(s1);
        }
    }
}

proof fn lemma_yield_rem_sum_constant(ts: Seq<TaskView>, r: int)
    requires
        forall|i: int| 0 <= i < ts.len() ==> yield_rem(#[trigger] ts[i]) == r,
    ensures
        yield_rem_sum(ts) == ts.len() * r,
    decreases ts.len(),
{
    if ts.len() > 0 {
        assert(forall|i: int|
            0 <= i < ts.drop_first().len() ==> yield_rem(#[trigger] ts.drop_first()[i]) == r);
        lemma_yield_rem_sum_constant(ts.drop_first(), r);
        assert(yield_rem_sum(ts) == r + (ts.len() - 1) * r);
        assert(r + (ts.len() - 1) * r == ts.len() * r) by (nonlinear_arith);
    }
}

/// The stress law: `n` fresh tasks that each call `yield_now` `k` times
/// and then complete are all drained, nothing is recorded, and the total
/// resumption count is exactly `n * (k + 1)`.
pub proof fn lemma_stress_yield_total(s: RuntimeView, k: nat)
    requires
        s.timers.len() == 0,
        forall|i: int| 0 <= i < s.tasks.len() ==> (#[trigger] s.tasks[i]) == yielder_at(k, 0, false),
        s.resumptions + s.tasks.len() * (k + 1) <= u64::MAX,
    ensures
        sched_run(s).resumptions == s.resumptions + s.tasks.len() * (k + 1),
        sched_run(s).log == s.log,
        runtime_done(sched_run(s)),
{
    assert(forall|i: int|
        0 <= i < s.tasks.len() ==> yield_rem(#[trigger] s.tasks[i]) == k + 1);
    lemma_yield_rem_sum_constant(s.tasks, k + 1 as int);
    assert(forall|i: int| 0 <= i < s.tasks.len() ==> (#[trigger] s.tasks[i]).wf());
    assert(forall|i: int|
        0 <= i < s.tasks.len() ==> all_yield_ops((#[trigger] s.tasks[i]).ops));
    lemma_yielders_total_resumptions(s);
}

/// A task that calls `yield_now` once and then completes is resumed
/// exactly twice: once reporting "still suspended", once completing.
pub proof fn lemma_yield_suspends_exactly_once(s: RuntimeView)
    requires
        s.tasks == seq![yielder_at(1, 0, false)],
        s.timers.len() == 0,
        s.resumptions + 2 <= u64::MAX,
    ensures
        sched_run(s).resumptions == s.resumptions + 2,
        sched_run(s).log == s.log,
        runtime_done(sched_run(s)),
{
    lemma_yield_resumption_count(s, 1);
}

} // verus!
