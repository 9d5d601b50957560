//! Resumable tasks: suspendable computations with an internal state cursor.

use vstd::prelude::*;

verus! {

/// One operation of a suspendable computation.  A task is a sequence of
/// operations run in order; `Sleep` and `YieldNow` are the only two
/// suspension points, `Record` is the observable effect a task can have.
#[derive(Clone, Copy)]
pub enum Op {
    /// Suspend until at least the given number of time units have
    /// passed since the resumption that first evaluated this operation
    /// (the deadline is fixed at that moment as `now + duration`,
    /// saturating).
    Sleep(u64),
    /// Suspend exactly once: report "still suspended" on the first
    /// resumption that reaches this operation, complete on the second.
    YieldNow,
    /// Append a label to the scheduler's record log and keep running;
    /// never suspends.
    Record(u64),
}

/// Where a suspended task asks to be resumed.
pub enum Wake {
    /// In the deadline queue, no earlier than the given instant.
    At(u64),
    /// At the tail of the ready queue, within the current scheduler pass.
    Immediate,
}

/// The tagged result of one resumption: every resumption either completes
/// the task or leaves it suspended with a re-scheduling request.
pub enum Resumption {
    Completed,
    Suspended(Wake),
}

/// The mathematical state of a task: its program, the cursor `pc`, and the
/// state of the suspension point the cursor rests on, if any.
#[verifier::ext_equal]
pub ghost struct TaskView {
    pub ops: Seq<Op>,
    pub pc: int,
    /// The fixed deadline of the `Sleep` at `pc`, once first evaluated.
    pub asleep: Option<u64>,
    /// Whether the `YieldNow` at `pc` has already suspended once.
    pub parked: bool,
}

/// What one resumption does: the task state after it, the labels it
/// recorded in order, and what it reported to the scheduler.
#[verifier::ext_equal]
pub ghost struct StepOut {
    pub task: TaskView,
    pub emitted: Seq<u64>,
    pub res: Resumption,
}

impl TaskView {
    /// Well-formedness: the cursor is inside the program (or one past its
    /// end), and mid-operation state only exists for the operation the
    /// cursor rests on.
    pub open spec fn wf(self) -> bool {
        &&& 0 <= self.pc <= self.ops.len()
        &&& (self.asleep is Some ==> self.pc < self.ops.len() && self.ops[self.pc] is Sleep)
        &&& (self.parked ==> self.pc < self.ops.len() && self.ops[self.pc] is YieldNow)
    }

    /// A task that has not yet been resumed at all.
    pub open spec fn fresh(self) -> bool {
        self.pc == 0 && self.asleep is None && !self.parked
    }
}

/// One resumption of a task, run at clock value `now`: operations are
/// executed from the cursor onward until one suspends or the program ends.
pub open spec fn task_step(t: TaskView, now: u64) -> StepOut
    decreases t.ops.len() - t.pc,
{
    if t.pc < 0 || t.pc >= t.ops.len() {
        StepOut { task: t, emitted: seq![], res: Resumption::Completed }
    } else {
        match t.ops[t.pc] {
            Op::Record(x) => {
                let o = task_step(TaskView { pc: t.pc + 1, asleep: None, parked: false, ..t }, now);
                StepOut { emitted: seq![x] + o.emitted, ..o }
            },
            Op::Sleep(d) => {
                let deadline = match t.asleep {
                    Some(dl) => dl,
                    None => now.saturating_add(d),
                };
                if now >= deadline {
                    task_step(TaskView { pc: t.pc + 1, asleep: None, parked: false, ..t }, now)
                } else {
                    StepOut {
                        task: TaskView { asleep: Some(deadline), ..t },
                        emitted: seq![],
                        res: Resumption::Suspended(Wake::At(deadline)),
                    }
                }
            },
            Op::YieldNow => {
                if t.parked {
                    task_step(TaskView { pc: t.pc + 1, asleep: None, parked: false, ..t }, now)
                } else {
                    StepOut {
                        task: TaskView { parked: true, ..t },
                        emitted: seq![],
                        res: Resumption::Suspended(Wake::Immediate),
                    }
                }
            },
        }
    }
}

/// How many resumptions an operation can cost: a suspension point suspends
/// at most once and then completes, an effect costs one visit.
pub open spec fn op_cost(op: Op) -> int {
    match op {
        Op::Sleep(_) => 2,
        Op::YieldNow => 2,
        Op::Record(_) => 1,
    }
}

/// The cost of the operations from `pc` to the end of the program.
pub open spec fn ops_work(ops: Seq<Op>, pc: int) -> int
    decreases ops.len() - pc,
{
    if pc < 0 || pc >= ops.len() {
        0
    } else {
        op_cost(ops[pc]) + ops_work(ops, pc + 1)
    }
}

/// The remaining work of a task: the cost of what is left of its program,
/// less the part of the current suspension point already performed.
pub open spec fn task_work(t: TaskView) -> int {
    ops_work(t.ops, t.pc) - (if t.asleep is Some { 1int } else { 0int }) - (if t.parked { 1int } else { 0int })
}

pub proof fn lemma_ops_work_nonneg(ops: Seq<Op>, pc: int)
    ensures
        ops_work(ops, pc) >= 0,
    decreases ops.len() - pc,
{
    if 0 <= pc < ops.len() {
        lemma_ops_work_nonneg(ops, pc + 1);
    }
}

/// What one resumption guarantees: well-formedness is preserved, the
/// program itself never changes, a completed task has no work left, and a
/// resumption that suspends strictly consumes work, provided any deadline
/// it was already holding has expired.
pub proof fn lemma_task_step(t: TaskView, now: u64)
    requires
        t.wf(),
        t.asleep matches Some(w) ==> w <= now,
    ensures
        ({
            let o = task_step(t, now);
            &&& o.task.wf()
            &&& o.task.ops == t.ops
            &&& task_work(t) >= 0
            &&& task_work(o.task) >= 0
            &&& task_work(o.task) <= task_work(t)
            &&& (o.res is Completed ==> o.task.pc == t.ops.len() && task_work(o.task) == 0)
            &&& (o.res is Suspended ==> task_work(o.task) < task_work(t))
            &&& (o.res matches Resumption::Suspended(Wake::At(w)) ==> o.task.asleep == Some(w) && now < w)
            &&& (o.res matches Resumption::Suspended(Wake::Immediate) ==> o.task.asleep is None)
        }),
    decreases t.ops.len() - t.pc,
{
    lemma_ops_work_nonneg(t.ops, t.pc);
    if 0 <= t.pc < t.ops.len() {
        lemma_ops_work_nonneg(t.ops, t.pc + 1);
        let t2 = TaskView { pc: t.pc + 1, asleep: None, parked: false, ..t };
        match t.ops[t.pc] {
            Op::Record(_) => {
                lemma_task_step(t2, now);
            },
            Op::Sleep(d) => {
                let deadline = match t.asleep {
                    Some(dl) => dl,
                    None => now.saturating_add(d),
                };
                if now >= deadline {
                    lemma_task_step(t2, now);
                }
            },
            Op::YieldNow => {
                if t.parked {
                    lemma_task_step(t2, now);
                }
            },
        }
    }
}

/// A unit of suspendable computation managed by the scheduler.
pub struct Task {
    ops: Vec<Op>,
    pc: usize,
    asleep: Option<u64>,
    parked: bool,
}

impl View for Task {
    type V = TaskView;

    closed spec fn view(&self) -> TaskView {
        TaskView {
            ops: self.ops@,
            pc: self.pc as int,
            asleep: self.asleep,
            parked: self.parked,
        }
    }
}

impl Task {
    /// Wraps a program as a fresh task, its cursor at the first operation.
    pub fn new(ops: Vec<Op>) -> (r: Task)
        ensures
            r@ == (TaskView { ops: ops@, pc: 0, asleep: None, parked: false }),
            r@.wf(),
            r@.fresh(),
    {
        Task { ops, pc: 0, asleep: None, parked: false }
    }

    /// Resume the task once at clock value `now`: run operations from the
    /// cursor until one suspends or the program ends.  Returns the labels
    /// recorded during this resumption and the tagged suspension result.
    pub fn poll(&mut self, now: u64) -> (r: (Vec<u64>, Resumption))
        requires
            old(self)@.wf(),
        ensures
            final(self)@.wf(),
            final(self)@ == task_step(old(self)@, now).task,
            r.0@ == task_step(old(self)@, now).emitted,
            r.1 == task_step(old(self)@, now).res,
    {
        let ghost t0: TaskView = self@;
        let mut emitted: Vec<u64> = Vec::new();
        loop
            invariant
                t0 == old(self)@,
                self@.wf(),
                self@.ops == t0.ops,
                task_step(t0, now).task == task_step(self@, now).task,
                task_step(t0, now).emitted == emitted@ + task_step(self@, now).emitted,
                task_step(t0, now).res == task_step(self@, now).res,
            decreases self@.ops.len() - self@.pc,
        {
            let ghost s: TaskView = self@;
            if self.pc >= self.ops.len() {
                proof {
                    assert(task_step(t0, now).emitted =~= emitted@);
                }
                return (emitted, Resumption::Completed);
            }
            match self.ops[self.pc] {
                Op::Record(x) => {
                    emitted.push(x);
                    self.pc = self.pc + 1;
                    self.asleep = None;
                    self.parked = false;
                    proof {
                        let s2 = self@;
                        assert(s2 == (TaskView { pc: s.pc + 1, asleep: None, parked: false, ..s }));
                        assert(task_step(t0, now).emitted =~= emitted@ + task_step(s2, now).emitted);
                    }
                },
                Op::Sleep(d) => {
                    let deadline: u64 = match self.asleep {
                        Some(dl) => dl,
                        None => now.saturating_add(d),
                    };
                    if now >= deadline {
                        self.pc = self.pc + 1;
                        self.asleep = None;
                        self.parked = false;
                        proof {
                            let s2 = self@;
                            assert(s2 == (TaskView { pc: s.pc + 1, asleep: None, parked: false, ..s }));
                        }
                    } else {
                        self.asleep = Some(deadline);
                        proof {
                            assert(task_step(s, now).task == self@);
                            assert(task_step(t0, now).emitted =~= emitted@);
                        }
                        return (emitted, Resumption::Suspended(Wake::At(deadline)));
                    }
                },
                Op::YieldNow => {
                    if self.parked {
                        self.pc = self.pc + 1;
                        self.asleep = None;
                        self.parked = false;
                        proof {
                            let s2 = self@;
                            assert(s2 == (TaskView { pc: s.pc + 1, asleep: None, parked: false, ..s }));
                        }
                    } else {
                        self.parked = true;
                        proof {
                            assert(task_step(s, now).task == self@);
                            assert(task_step(t0, now).emitted =~= emitted@);
                        }
                        return (emitted, Resumption::Suspended(Wake::Immediate));
                    }
                },
            }
        }
    }
}

/// The timed suspension primitive: a computation step that suspends until
/// at least `duration` time units have elapsed.  A zero duration completes
/// on the very first resumption, without ever touching the deadline queue.
pub fn sleep(duration: u64) -> (r: Op)
    ensures
        r == Op::Sleep(duration),
{
    Op::Sleep(duration)
}

/// The cooperative suspension primitive: a computation step that suspends
/// exactly once and is eligible to run again within the same scheduler
/// pass.
pub fn yield_now() -> (r: Op)
    ensures
        r == Op::YieldNow,
{
    Op::YieldNow
}

/// A computation step that records `label` in the scheduler's log; it
/// never suspends.
pub fn record(label: u64) -> (r: Op)
    ensures
        r == Op::Record(label),
{
    Op::Record(label)
}

/// The programs of `parts` joined in order into one program.
pub open spec fn joined_ops(parts: Seq<TaskView>) -> Seq<Op>
    decreases parts.len(),
{
    if parts.len() == 0 {
        seq![]
    } else {
        joined_ops(parts.drop_last()) + parts.last().ops
    }
}

/// The composition helper: one task that runs the listed sub-computations
/// in order and completes once every one of them has completed.  Under
/// the scheduler the parts still interleave cooperatively with every
/// other spawned task at each of their suspension points.
pub fn join_all(parts: Vec<Task>) -> (r: Task)
    requires
        forall|i: int| 0 <= i < parts@.len() ==> (#[trigger] parts@[i]@).fresh(),
    ensures
        r@.fresh(),
        r@.wf(),
        r@.ops == joined_ops(parts@.map_values(|t: Task| t@)),
{
    let ghost views: Seq<TaskView> = parts@.map_values(|t: Task| t@);
    let mut ops: Vec<Op> = Vec::new();
    let mut i: usize = 0;
    while i < parts.len()
        invariant
            i <= parts.len(),
            views == parts@.map_values(|t: Task| t@),
            ops@ == joined_ops(views.take(i as int)),
        decreases parts.len() - i,
    {
        let mut j: usize = 0;
        while j < parts[i].ops.len()
            invariant
                i < parts.len(),
                j <= views[i as int].ops.len(),
                views == parts@.map_values(|t: Task| t@),
                ops@ == joined_ops(views.take(i as int)) + views[i as int].ops.take(j as int),
            decreases views[i as int].ops.len() - j,
        {
            let op = parts[i].ops[j];
            ops.push(op);
            j = j + 1;
            proof {
                assert(ops@ =~= joined_ops(views.take(i as int)) + views[i as int].ops.take(
                    j as int,
                ));
            }
        }
        i = i + 1;
        proof {
            assert(views.take(i as int).drop_last() =~= views.take(i - 1));
            assert(views.take(i as int).last() == views[i - 1]);
            assert(views[i - 1].ops.take(views[i - 1].ops.len() as int) =~= views[i - 1].ops);
            assert(ops@ =~= joined_ops(views.take(i as int)));
        }
    }
    proof {
        assert(views.take(views.len() as int) =~= views);
    }
    Task::new(ops)
}

} // verus!
