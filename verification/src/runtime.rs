//! The scheduler: a FIFO ready queue, a min-ordered deadline queue, a
//! virtual clock, and the run loop that drives every task to completion.

use vstd::prelude::*;
use crate::task::Resumption;
use crate::task::Task;
use crate::task::TaskView;
use crate::task::Wake;
use crate::task::lemma_ops_work_nonneg;
use crate::task::lemma_task_step;
use crate::task::task_step;
use crate::task::task_work;

verus! {

/// A deadline entry: the task to resume once the clock reaches `when`.
pub struct Timer {
    when: u64,
    task: Task,
}

/// The mathematical state of a deadline entry.
#[verifier::ext_equal]
pub ghost struct TimerView {
    pub when: u64,
    pub task: TaskView,
}

impl View for Timer {
    type V = TimerView;

    closed spec fn view(&self) -> TimerView {
        TimerView { when: self.when, task: self.task@ }
    }
}

/// The mathematical state of the scheduler: the ready queue in FIFO
/// order, the deadline queue, the clock, the record log, and how many
/// resumptions the run loop has performed so far.
#[verifier::ext_equal]
pub ghost struct RuntimeView {
    pub tasks: Seq<TaskView>,
    pub timers: Seq<TimerView>,
    pub now: u64,
    pub log: Seq<u64>,
    pub resumptions: u64,
}

/// Well-formedness of a scheduler state: every queued task is well
/// formed; a ready task holding a sleep deadline was promoted, so its
/// deadline has expired; a deadline entry holds exactly the task that
/// suspended on its wake instant.
pub open spec fn runtime_wf(s: RuntimeView) -> bool {
    &&& forall|i: int| 0 <= i < s.tasks.len() ==> (#[trigger] s.tasks[i]).wf()
    &&& forall|i: int|
        0 <= i < s.tasks.len() ==> ((#[trigger] s.tasks[i]).asleep matches Some(w) ==> w
            <= s.now)
    &&& forall|i: int| 0 <= i < s.timers.len() ==> (#[trigger] s.timers[i]).task.wf()
    &&& forall|i: int|
        0 <= i < s.timers.len() ==> (#[trigger] s.timers[i]).task.asleep == Some(
            s.timers[i].when,
        )
}

/// The run loop stops exactly when both queues are empty.
pub open spec fn runtime_done(s: RuntimeView) -> bool {
    s.tasks.len() == 0 && s.timers.len() == 0
}

/// The index of the first deadline entry with the smallest wake instant,
/// scanning from `i` with `best` the best index seen so far.
pub open spec fn min_timer_idx_from(timers: Seq<TimerView>, i: int, best: int) -> int
    decreases timers.len() - i,
{
    if i < 0 || i >= timers.len() {
        best
    } else if timers[i].when < timers[best].when {
        min_timer_idx_from(timers, i + 1, i)
    } else {
        min_timer_idx_from(timers, i + 1, best)
    }
}

/// The index of the minimum deadline entry; ties go to the entry inserted
/// first.
pub open spec fn min_timer_idx(timers: Seq<TimerView>) -> int {
    min_timer_idx_from(timers, 1, 0)
}

pub proof fn lemma_min_timer_idx_from(timers: Seq<TimerView>, i: int, best: int)
    requires
        0 <= best < timers.len(),
        0 <= i,
    ensures
        ({
            let m = min_timer_idx_from(timers, i, best);
            &&& 0 <= m < timers.len()
            &&& timers[m].when <= timers[best].when
            &&& forall|j: int| i <= j < timers.len() ==> timers[m].when <= (#[trigger] timers[j]).when
        }),
    decreases timers.len() - i,
{
    if i < timers.len() {
        if timers[i].when < timers[best].when {
            lemma_min_timer_idx_from(timers, i + 1, i);
        } else {
            lemma_min_timer_idx_from(timers, i + 1, best);
        }
    }
}

/// The deadline queue yields the entry with the smallest wake instant
/// first: the selected index is in range and no entry has an earlier wake
/// instant.
pub proof fn lemma_min_timer_idx(timers: Seq<TimerView>)
    requires
        timers.len() > 0,
    ensures
        0 <= min_timer_idx(timers) < timers.len(),
        forall|j: int|
            0 <= j < timers.len() ==> timers[min_timer_idx(timers)].when <= (#[trigger] timers[j]).when,
{
    lemma_min_timer_idx_from(timers, 1, 0);
}

/// The remaining work of the ready queue.
pub open spec fn tasks_work(ts: Seq<TaskView>) -> int
    decreases ts.len(),
{
    if ts.len() == 0 {
        0
    } else {
        task_work(ts[0]) + tasks_work(ts.drop_first())
    }
}

/// The remaining work of the deadline queue.
pub open spec fn timers_work(ts: Seq<TimerView>) -> int
    decreases ts.len(),
{
    if ts.len() == 0 {
        0
    } else {
        task_work(ts[0].task) + timers_work(ts.drop_first())
    }
}

/// The total remaining work of a scheduler state.
pub open spec fn total_work(s: RuntimeView) -> int {
    tasks_work(s.tasks) + timers_work(s.timers)
}

/// How many tasks are still queued anywhere.
pub open spec fn pending_count(s: RuntimeView) -> int {
    s.tasks.len() + s.timers.len() as int
}

/// Whether the scheduler is waiting on an unexpired deadline with nothing
/// ready to run: the one situation resolved by advancing the clock.
pub open spec fn waiting_flag(s: RuntimeView) -> int {
    if s.tasks.len() == 0 && s.timers.len() > 0 && s.timers[min_timer_idx(s.timers)].when > s.now {
        1
    } else {
        0
    }
}

/// One pass of the run loop.  While a task is ready, the front of the
/// ready queue is resumed once: a completed task is discarded, a yielded
/// task goes to the ready tail, a sleeping task goes to the deadline
/// queue under its wake instant.  Otherwise the minimum deadline entry is
/// promoted to the ready tail once expired, or the clock advances to it.
pub open spec fn run_step(s: RuntimeView) -> RuntimeView {
    if s.tasks.len() > 0 {
        let o = task_step(s.tasks[0], s.now);
        let rest = s.tasks.drop_first();
        let log = s.log + o.emitted;
        let resumptions = s.resumptions.saturating_add(1);
        match o.res {
            Resumption::Completed => RuntimeView { tasks: rest, log, resumptions, ..s },
            Resumption::Suspended(Wake::Immediate) => RuntimeView {
                tasks: rest.push(o.task),
                log,
                resumptions,
                ..s
            },
            Resumption::Suspended(Wake::At(w)) => RuntimeView {
                tasks: rest,
                timers: s.timers.push(TimerView { when: w, task: o.task }),
                log,
                resumptions,
                ..s
            },
        }
    } else if s.timers.len() > 0 {
        let m = min_timer_idx(s.timers);
        if s.timers[m].when <= s.now {
            RuntimeView { tasks: s.tasks.push(s.timers[m].task), timers: s.timers.remove(m), ..s }
        } else {
            RuntimeView { now: s.timers[m].when, ..s }
        }
    } else {
        s
    }
}

pub proof fn lemma_task_work_nonneg(t: TaskView)
    requires
        t.wf(),
    ensures
        task_work(t) >= 0,
{
    lemma_ops_work_nonneg(t.ops, t.pc);
    if t.asleep is Some || t.parked {
        lemma_ops_work_nonneg(t.ops, t.pc + 1);
    }
}

pub proof fn lemma_tasks_work_nonneg(ts: Seq<TaskView>)
    requires
        forall|i: int| 0 <= i < ts.len() ==> (#[trigger] ts[i]).wf(),
    ensures
        tasks_work(ts) >= 0,
    decreases ts.len(),
{
    if ts.len() > 0 {
        lemma_task_work_nonneg(ts[0]);
        assert(forall|i: int| 0 <= i < ts.drop_first().len() ==> (#[trigger] ts.drop_first()[i]).wf());
        lemma_tasks_work_nonneg(ts.drop_first());
    }
}

pub proof fn lemma_timers_work_nonneg(ts: Seq<TimerView>)
    requires
        forall|i: int| 0 <= i < ts.len() ==> (#[trigger] ts[i]).task.wf(),
    ensures
        timers_work(ts) >= 0,
    decreases ts.len(),
{
    if ts.len() > 0 {
        lemma_task_work_nonneg(ts[0].task);
        assert(forall|i: int|
            0 <= i < ts.drop_first().len() ==> (#[trigger] ts.drop_first()[i]).task.wf());
        lemma_timers_work_nonneg(ts.drop_first());
    }
}

pub proof fn lemma_tasks_work_push(ts: Seq<TaskView>, t: TaskView)
    ensures
        tasks_work(ts.push(t)) == tasks_work(ts) + task_work(t),
    decreases ts.len(),
{
    if ts.len() == 0 {
        assert(ts.push(t).drop_first() =~= ts);
    } else {
        assert(ts.push(t).drop_first() =~= ts.drop_first().push(t));
        lemma_tasks_work_push(ts.drop_first(), t);
    }
}

pub proof fn lemma_timers_work_push(ts: Seq<TimerView>, e: TimerView)
    ensures
        timers_work(ts.push(e)) == timers_work(ts) + task_work(e.task),
    decreases ts.len(),
{
    if ts.len() == 0 {
        assert(ts.push(e).drop_first() =~= ts);
    } else {
        assert(ts.push(e).drop_first() =~= ts.drop_first().push(e));
        lemma_timers_work_push(ts.drop_first(), e);
    }
}

pub proof fn lemma_timers_work_remove(ts: Seq<TimerView>, m: int)
    requires
        0 <= m < ts.len(),
    ensures
        timers_work(ts.remove(m)) == timers_work(ts) - task_work(ts[m].task),
    decreases ts.len(),
{
    if m == 0 {
        assert(ts.remove(0) =~= ts.drop_first());
    } else {
        assert(ts.remove(m).drop_first() =~= ts.drop_first().remove(m - 1));
        lemma_timers_work_remove(ts.drop_first(), m - 1);
    }
}

/// One pass of the run loop preserves well-formedness and decreases the
/// termination measure lexicographically.
pub proof fn lemma_run_step(s: RuntimeView)
    requires
        runtime_wf(s),
        !runtime_done(s),
    ensures
        ({
            let s2 = run_step(s);
            &&& runtime_wf(s2)
            &&& total_work(s2) >= 0
            &&& total_work(s2) <= total_work(s)
            &&& (total_work(s2) == total_work(s) ==> pending_count(s2) <= pending_count(s))
            &&& (total_work(s2) == total_work(s) && pending_count(s2) == pending_count(s)
                ==> s2.timers.len() < s.timers.len() || (s2.timers.len() == s.timers.len()
                && waiting_flag(s2) < waiting_flag(s)))
        }),
{
    let s2 = run_step(s);
    if s.tasks.len() > 0 {
        let t = s.tasks[0];
        let o = task_step(t, s.now);
        let rest = s.tasks.drop_first();
        lemma_task_step(t, s.now);
        assert(forall|i: int| 0 <= i < rest.len() ==> rest[i] == s.tasks[i + 1]);
        lemma_tasks_work_nonneg(rest);
        lemma_timers_work_nonneg(s.timers);
        match o.res {
            Resumption::Completed => {
                assert(runtime_wf(s2));
            },
            Resumption::Suspended(Wake::Immediate) => {
                lemma_tasks_work_push(rest, o.task);
                assert(runtime_wf(s2));
            },
            Resumption::Suspended(Wake::At(w)) => {
                lemma_timers_work_push(s.timers, TimerView { when: w, task: o.task });
                assert(runtime_wf(s2));
            },
        }
    } else {
        let m = min_timer_idx(s.timers);
        lemma_min_timer_idx(s.timers);
        lemma_timers_work_nonneg(s.timers);
        if s.timers[m].when <= s.now {
            lemma_timers_work_remove(s.timers, m);
            lemma_tasks_work_push(s.tasks, s.timers[m].task);
            lemma_ops_work_nonneg(s.timers[m].task.ops, s.timers[m].task.pc);
            assert(s.tasks.push(s.timers[m].task)[0] == s.timers[m].task);
            assert(forall|i: int|
                0 <= i < s.timers.remove(m).len() ==> s.timers.remove(m)[i] == (if i < m {
                    s.timers[i]
                } else {
                    s.timers[i + 1]
                }));
            assert(runtime_wf(s2));
            assert(tasks_work(s.tasks) == 0);
        } else {
            assert(runtime_wf(s2));
            assert(waiting_flag(s) == 1);
            assert(waiting_flag(s2) == 0);
        }
    }
}

/// The complete run: passes of the run loop until both queues are empty.
/// This is the reference behaviour of `block_on`.
pub open spec fn sched_run(s: RuntimeView) -> RuntimeView
    decreases total_work(s), pending_count(s), s.timers.len(), waiting_flag(s),
        when runtime_wf(s)
        via sched_run_decreases
{
    if runtime_done(s) {
        s
    } else {
        sched_run(run_step(s))
    }
}

#[via_fn]
proof fn sched_run_decreases(s: RuntimeView) {
    if runtime_wf(s) && !runtime_done(s) {
        lemma_run_step(s);
    }
}

/// One unfolding of the complete run: while work remains, the run is the
/// run from the next state.
pub proof fn lemma_sched_advance(s: RuntimeView, s2: RuntimeView)
    requires
        runtime_wf(s),
        !runtime_done(s),
        run_step(s) == s2,
    ensures
        sched_run(s) == sched_run(s2),
{
    lemma_run_step(s);
}

/// The run loop drains everything and stops: from any well-formed state,
/// the complete run ends with both queues simultaneously empty, and only
/// then.
pub proof fn lemma_sched_run_complete(s: RuntimeView)
    requires
        runtime_wf(s),
    ensures
        runtime_done(sched_run(s)),
        runtime_wf(sched_run(s)),
    decreases total_work(s), pending_count(s), s.timers.len(), waiting_flag(s),
{
    if !runtime_done(s) {
        lemma_run_step(s);
        lemma_sched_run_complete(run_step(s));
    }
}

/// The scheduler.  It owns the ready queue and the deadline queue, and
/// `block_on` is the only entry point that runs the loop; every
/// suspension primitive reports its re-scheduling request back to the
/// loop through its `Resumption` instead of finding the scheduler through
/// ambient state.
pub struct MiniRuntime {
    tasks: Vec<Task>,
    timers: Vec<Timer>,
    now: u64,
    log: Vec<u64>,
    resumptions: u64,
}

impl View for MiniRuntime {
    type V = RuntimeView;

    closed spec fn view(&self) -> RuntimeView {
        RuntimeView {
            tasks: self.tasks@.map_values(|t: Task| t@),
            timers: self.timers@.map_values(|t: Timer| t@),
            now: self.now,
            log: self.log@,
            resumptions: self.resumptions,
        }
    }
}

impl MiniRuntime {
    /// An empty scheduler: both queues empty, the clock at zero, nothing
    /// recorded, no resumption performed yet.
    pub fn new() -> (r: MiniRuntime)
        ensures
            r@ == (RuntimeView {
                tasks: Seq::<TaskView>::empty(),
                timers: Seq::<TimerView>::empty(),
                now: 0,
                log: Seq::<u64>::empty(),
                resumptions: 0,
            }),
            runtime_wf(r@),
    {
        let r = MiniRuntime {
            tasks: Vec::new(),
            timers: Vec::new(),
            now: 0,
            log: Vec::new(),
            resumptions: 0,
        };
        proof {
            assert(r@ =~= (RuntimeView {
                tasks: Seq::<TaskView>::empty(),
                timers: Seq::<TimerView>::empty(),
                now: 0,
                log: Seq::<u64>::empty(),
                resumptions: 0,
            }));
        }
        r
    }

    /// Appends a task to the ready queue tail; nothing runs until
    /// `block_on` is called.
    pub fn spawn(&mut self, task: Task)
        requires
            runtime_wf(old(self)@),
            task@.fresh(),
        ensures
            final(self)@ == (RuntimeView { tasks: old(self)@.tasks.push(task@), ..old(self)@ }),
            runtime_wf(final(self)@),
    {
        self.tasks.push(task);
        proof {
            assert(self@ =~= (RuntimeView { tasks: old(self)@.tasks.push(task@), ..old(self)@ }));
        }
    }

    /// Registers a task in the deadline queue under its wake instant.
    fn schedule_timer(&mut self, when: u64, task: Task)
        ensures
            final(self)@ == (RuntimeView {
                timers: old(self)@.timers.push(TimerView { when, task: task@ }),
                ..old(self)@
            }),
    {
        self.timers.push(Timer { when, task });
        proof {
            assert(self@ =~= (RuntimeView {
                timers: old(self)@.timers.push(TimerView { when, task: task@ }),
                ..old(self)@
            }));
        }
    }

    /// Appends the labels a resumption recorded, in order, to the log.
    fn append_log(&mut self, emitted: &Vec<u64>)
        ensures
            final(self)@ == (RuntimeView { log: old(self)@.log + emitted@, ..old(self)@ }),
    {
        let mut i: usize = 0;
        while i < emitted.len()
            invariant
                i <= emitted.len(),
                self@ == (RuntimeView {
                    log: old(self)@.log + emitted@.take(i as int),
                    ..old(self)@
                }),
            decreases emitted.len() - i,
        {
            let x = emitted[i];
            self.log.push(x);
            i = i + 1;
            proof {
                assert(old(self)@.log + emitted@.take(i as int) =~= (old(self)@.log
                    + emitted@.take(i - 1)).push(emitted@[i - 1]));
                assert(self@ =~= (RuntimeView {
                    log: old(self)@.log + emitted@.take(i as int),
                    ..old(self)@
                }));
            }
        }
        proof {
            assert(emitted@.take(emitted@.len() as int) =~= emitted@);
        }
    }

    /// The index of the deadline entry with the smallest wake instant;
    /// ties go to the entry inserted first.
    fn min_timer_index(&self) -> (r: usize)
        requires
            self@.timers.len() > 0,
        ensures
            r as int == min_timer_idx(self@.timers),
            0 <= r < self@.timers.len(),
    {
        let mut best: usize = 0;
        let mut i: usize = 1;
        while i < self.timers.len()
            invariant
                0 < i <= self.timers.len(),
                best < i,
                min_timer_idx(self@.timers) == min_timer_idx_from(
                    self@.timers,
                    i as int,
                    best as int,
                ),
            decreases self.timers.len() - i,
        {
            if self.timers[i].when < self.timers[best].when {
                best = i;
            }
            i = i + 1;
        }
        proof {
            lemma_min_timer_idx(self@.timers);
        }
        best
    }

    /// Spawns the root computation, then runs the loop to completion:
    /// resume ready tasks in FIFO order, requeue each still-suspended one
    /// where its suspension asks, promote expired deadline entries one
    /// per pass, and advance the clock to the earliest deadline when
    /// nothing is ready.  Returns once every task, including all tasks
    /// spawned before the call, has completed; the whole run equals the
    /// reference interpreter `sched_run`.
    pub fn block_on(&mut self, task: Task)
        requires
            runtime_wf(old(self)@),
            task@.fresh(),
        ensures
            final(self)@ == sched_run(
                RuntimeView { tasks: old(self)@.tasks.push(task@), ..old(self)@ },
            ),
            runtime_done(final(self)@),
            runtime_wf(final(self)@),
    {
        self.spawn(task);
        let ghost s0: RuntimeView = self@;
        while self.tasks.len() > 0 || self.timers.len() > 0
            invariant
                runtime_wf(self@),
                sched_run(self@) == sched_run(s0),
                runtime_wf(s0),
            decreases total_work(self@), pending_count(self@), self@.timers.len(), waiting_flag(
                self@,
            ),
        {
            let ghost s: RuntimeView = self@;
            proof {
                lemma_run_step(s);
            }
            if self.tasks.len() > 0 {
                let mut t = self.tasks.remove(0);
                proof {
                    assert(t@ == s.tasks[0]);
                    assert(self@.tasks =~= s.tasks.drop_first());
                }
                self.resumptions = self.resumptions.saturating_add(1);
                let polled = t.poll(self.now);
                let emitted = polled.0;
                self.append_log(&emitted);
                match polled.1 {
                    Resumption::Completed => {},
                    Resumption::Suspended(Wake::Immediate) => {
                        self.tasks.push(t);
                        proof {
                            assert(self@.tasks =~= s.tasks.drop_first().push(
                                task_step(s.tasks[0], s.now).task,
                            ));
                        }
                    },
                    Resumption::Suspended(Wake::At(w)) => {
                        self.schedule_timer(w, t);
                    },
                }
                proof {
                    assert(self@ =~= run_step(s));
                }
            } else {
                let m = self.min_timer_index();
                if self.timers[m].when <= self.now {
                    let timer = self.timers.remove(m);
                    self.tasks.push(timer.task);
                    proof {
                        assert(self@.tasks =~= s.tasks.push(s.timers[min_timer_idx(s.timers)].task));
                        assert(self@.timers =~= s.timers.remove(min_timer_idx(s.timers)));
                        assert(self@ =~= run_step(s));
                    }
                } else {
                    self.now = self.timers[m].when;
                    proof {
                        assert(self@ =~= run_step(s));
                    }
                }
            }
        }
    }

    /// The labels recorded so far, in the order the tasks recorded them.
    pub fn log(&self) -> (r: &Vec<u64>)
        ensures
            r@ == self@.log,
    {
        &self.log
    }

    /// How many resumptions the run loop has performed so far.
    pub fn resumption_count(&self) -> (r: u64)
        ensures
            r == self@.resumptions,
    {
        self.resumptions
    }

    /// The scheduler's clock.
    pub fn now(&self) -> (r: u64)
        ensures
            r == self@.now,
    {
        self.now
    }
}

} // verus!
