//! Per-task bookkeeping: lifecycle status, the first-dispatch timestamp, and
//! the fixed-size table of per-syscall invocation counters.
//!
//! Each task owns its record exclusively; the scheduler mutates it on
//! dispatch, the syscall layer on every call. Scheduling is cooperative, so
//! no syscall observes another task mutating the same record.

use vstd::prelude::*;
use crate::bytes::counters_bytes;
use crate::bytes::le_bytes_of;
use crate::bytes::counters_to_bytes;
use crate::bytes::usize_to_u8_array;
use crate::config::MAX_SYSCALL_NUM;

verus! {

/// Lifecycle status of a task. The external scheduler may know further
/// states; the syscall bridge reads these.
#[derive(Clone, Copy, Debug, PartialEq, Eq, Structural)]
pub enum TaskStatus {
    /// Runnable, waiting for the scheduler.
    Ready,
    /// Currently holding the processor.
    Running,
    /// Finished; never scheduled again.
    Exited,
}

/// The status discriminant as it is laid out in a `TaskInfo` snapshot.
pub open spec fn status_code(status: TaskStatus) -> nat {
    match status {
        TaskStatus::Ready => 0,
        TaskStatus::Running => 1,
        TaskStatus::Exited => 2,
    }
}

/// Size in bytes of a serialized `TaskInfo`: two machine words around the
/// counter table.
pub const TASK_INFO_BYTES: usize = 16 + 4 * MAX_SYSCALL_NUM;

/// Snapshot of one task, copied into the caller's address space by the
/// `task_info` syscall. A value, not a live reference: once produced it no
/// longer aliases kernel state.
pub struct TaskInfo {
    /// Task status in its life cycle.
    pub status: TaskStatus,
    /// The number of times the task invoked each syscall, by syscall number.
    pub syscall_times: Vec<u32>,
    /// Milliseconds since the task was first scheduled.
    pub time: usize,
}

/// The user-visible layout of a snapshot: the status discriminant as one
/// little-endian machine word, the counter table entry by entry as four
/// little-endian bytes each, then the elapsed milliseconds as one word.
pub open spec fn task_info_bytes(status: TaskStatus, times: Seq<u32>, time_ms: nat) -> Seq<u8> {
    le_bytes_of(status_code(status), 8) + counters_bytes(times) + le_bytes_of(time_ms, 8)
}

impl TaskInfo {
    pub open spec fn wf(self) -> bool {
        self.syscall_times@.len() == MAX_SYSCALL_NUM
    }

    /// Serializes the snapshot in its user-visible layout.
    pub fn to_bytes(&self) -> (r: Vec<u8>)
        ensures
            r@ == task_info_bytes(self.status, self.syscall_times@, self.time as nat),
            r@.len() == 16 + 4 * self.syscall_times@.len(),
    {
        let code: usize = match self.status {
            TaskStatus::Ready => 0,
            TaskStatus::Running => 1,
            TaskStatus::Exited => 2,
        };
        let mut out = usize_to_u8_array(code);
        let mut table = counters_to_bytes(&self.syscall_times);
        let mut tail = usize_to_u8_array(self.time);
        out.append(&mut table);
        out.append(&mut tail);
        proof {
            assert(out@ == le_bytes_of(status_code(self.status), 8) + counters_bytes(
                self.syscall_times@,
            ) + le_bytes_of(self.time as nat, 8));
        }
        out
    }
}

/// One task's control record, owned solely by that task.
pub struct TaskState {
    /// Lifecycle status, moved by the scheduler and by `exit`.
    pub status: TaskStatus,
    /// When the scheduler first handed the processor over, in milliseconds;
    /// `None` until then.
    pub start_time_ms: Option<usize>,
    /// Invocation count per syscall number; length `MAX_SYSCALL_NUM`.
    pub syscall_times: Vec<u32>,
    /// The code the task exited with, once it has.
    pub exit_code: Option<i32>,
}

impl TaskState {
    pub open spec fn wf(self) -> bool {
        self.syscall_times@.len() == MAX_SYSCALL_NUM
    }

    /// Milliseconds the task has been scheduled for: zero by convention when
    /// it never was.
    pub open spec fn elapsed_ms(self, now_ms: usize) -> int {
        match self.start_time_ms {
            Some(s) => now_ms - s,
            None => 0,
        }
    }

    /// A fresh task: ready, never dispatched, all counters zero.
    pub fn new() -> (r: TaskState)
        ensures
            r.wf(),
            r.status == TaskStatus::Ready,
            r.start_time_ms is None,
            r.exit_code is None,
            forall|i: int| 0 <= i < MAX_SYSCALL_NUM ==> r.syscall_times@[i] == 0,
    {
        let mut counters: Vec<u32> = Vec::new();
        let mut i: usize = 0;
        while i < MAX_SYSCALL_NUM
            invariant
                i <= MAX_SYSCALL_NUM,
                counters@.len() == i,
                forall|j: int| 0 <= j < i ==> counters@[j] == 0,
            decreases MAX_SYSCALL_NUM - i,
        {
            counters.push(0u32);
            i = i + 1;
        }
        TaskState {
            status: TaskStatus::Ready,
            start_time_ms: None,
            syscall_times: counters,
            exit_code: None,
        }
    }

    /// The scheduler hands the processor over: the task runs, and its
    /// start-of-scheduling time is set if it was never set before.
    pub fn record_dispatch(&mut self, now_ms: usize)
        ensures
            final(self).status == TaskStatus::Running,
            final(self).start_time_ms == (if old(self).start_time_ms is Some {
                old(self).start_time_ms
            } else {
                Some(now_ms)
            }),
            final(self).syscall_times == old(self).syscall_times,
            final(self).exit_code == old(self).exit_code,
    {
        self.status = TaskStatus::Running;
        if self.start_time_ms.is_none() {
            self.start_time_ms = Some(now_ms);
        }
    }

    /// Counts one dispatch of syscall number `n`, before anything else of the
    /// call runs.
    pub fn increment_syscall(&mut self, n: usize)
        requires
            old(self).wf(),
            n < MAX_SYSCALL_NUM,
            old(self).syscall_times@[n as int] < u32::MAX,
        ensures
            final(self).wf(),
            final(self).syscall_times@ == old(self).syscall_times@.update(
                n as int,
                (old(self).syscall_times@[n as int] + 1) as u32,
            ),
            final(self).status == old(self).status,
            final(self).start_time_ms == old(self).start_time_ms,
            final(self).exit_code == old(self).exit_code,
    {
        let c = self.syscall_times[n];
        self.syscall_times.set(n, c + 1);
    }

    /// A snapshot as the `task_info` syscall reports it: the status, the
    /// counter table, and `now_ms` minus the first-dispatch time (zero if the
    /// task was never dispatched).
    pub fn snapshot(&self, now_ms: usize) -> (r: TaskInfo)
        requires
            self.wf(),
            self.start_time_ms matches Some(s) ==> s <= now_ms,
        ensures
            r.wf(),
            r.status == self.status,
            r.syscall_times@ == self.syscall_times@,
            r.time == self.elapsed_ms(now_ms),
    {
        let time: usize = match self.start_time_ms {
            Some(s) => now_ms - s,
            None => 0,
        };
        let mut table: Vec<u32> = Vec::new();
        let mut i: usize = 0;
        while i < self.syscall_times.len()
            invariant
                i <= self.syscall_times@.len(),
                table@ == self.syscall_times@.take(i as int),
            decreases self.syscall_times@.len() - i,
        {
            let c = self.syscall_times[i];
            table.push(c);
            proof {
                assert(table@ =~= self.syscall_times@.take(i + 1));
            }
            i = i + 1;
        }
        proof {
            assert(table@ =~= self.syscall_times@);
        }
        TaskInfo { status: self.status, syscall_times: table, time }
    }
}

/// A task that queries its own counters observes each of its calls counted,
/// the in-flight one included: if the counter starts at zero and every query
/// observes one more than the query before it, the `n`-th query observes
/// exactly `n`.
pub proof fn lemma_task_info_counts(counts: Seq<nat>)
    requires
        counts.len() > 0,
        counts[0] == 0,
        forall|i: int| 1 <= i < counts.len() ==> #[trigger] counts[i] == counts[i - 1] + 1,
    ensures
        forall|i: int| 0 <= i < counts.len() ==> #[trigger] counts[i] == i,
    decreases counts.len(),
{
    if counts.len() > 1 {
        lemma_task_info_counts(counts.drop_last());
        assert forall|i: int| 0 <= i < counts.len() implies counts[i] == i by {
            if i < counts.len() - 1 {
                assert(counts.drop_last()[i] == counts[i]);
            } else {
                assert(counts[i] == counts[i - 1] + 1);
                assert(counts.drop_last()[i - 1] == counts[i - 1]);
            }
        }
    }
}

} // verus!
