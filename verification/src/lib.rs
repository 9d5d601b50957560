//! A minimal single-threaded cooperative task scheduler.
//!
//! A task is a suspendable computation, represented as a sequence of
//! operations with an internal state cursor.  The scheduler owns a FIFO
//! ready queue and a min-ordered deadline queue, and drives every spawned
//! task to completion: ready tasks are resumed in FIFO order, and a task
//! sleeping on a deadline is promoted back into the ready queue once the
//! clock reaches its wake instant.  Time is a virtual clock owned by the
//! scheduler: when no task is ready and the earliest deadline lies ahead,
//! the clock advances straight to that deadline (in place of a busy wait;
//! the order of resumptions is exactly that of a wall-clock run).

pub mod task;
pub mod runtime;
pub mod laws;
