//! The syscall entry points: validate the arguments, consult the task record
//! and the time source, reach user memory only through the address
//! translator, and collapse every failure to the `-1` sentinel the ABI gives
//! the caller.
//!
//! The scheduler and the trap path are external collaborators: the current
//! task's record and address space arrive by reference, and the current
//! reading of the monotonic time source arrives as an argument. Each entry
//! point first counts its own dispatch in the task's syscall counters.

use vstd::prelude::*;
use crate::config::MAX_SYSCALL_NUM;
use crate::config::SYSCALL_EXIT;
use crate::config::SYSCALL_GET_TIME;
use crate::config::SYSCALL_MMAP;
use crate::config::SYSCALL_MUNMAP;
use crate::config::SYSCALL_SBRK;
use crate::config::SYSCALL_TASK_INFO;
use crate::config::SYSCALL_YIELD;
use crate::space::AddressSpace;
use crate::space::mmap_adds;
use crate::space::mmap_check;
use crate::space::munmap_check;
use crate::space::munmap_removes;
use crate::space::sbrk_ok;
use crate::space::vpn_of;
use crate::space::vpn_range_end;
use crate::task::TASK_INFO_BYTES;
use crate::task::TaskState;
use crate::task::TaskStatus;
use crate::task::task_info_bytes;
use crate::time::TimeVal;
use crate::time::sec_of;
use crate::time::time_val_bytes;
use crate::time::usec_of;
use crate::translate::write_bytes;
use crate::translate::write_fault;
use crate::translate::write_updates;

verus! {

/// Task exits with `exit_code`: the record shows it exited and with which
/// code, and the external scheduler then runs the next task — control never
/// returns to the caller.
pub fn sys_exit(task: &mut TaskState, exit_code: i32)
    requires
        old(task).wf(),
        old(task).syscall_times@[SYSCALL_EXIT as int] < u32::MAX,
    ensures
        final(task).wf(),
        final(task).status == TaskStatus::Exited,
        final(task).exit_code == Some(exit_code),
        final(task).syscall_times@ == old(task).syscall_times@.update(
            SYSCALL_EXIT as int,
            (old(task).syscall_times@[SYSCALL_EXIT as int] + 1) as u32,
        ),
        final(task).start_time_ms == old(task).start_time_ms,
{
    task.increment_syscall(SYSCALL_EXIT);
    task.status = TaskStatus::Exited;
    task.exit_code = Some(exit_code);
}

/// Task gives up the processor: the record shows it ready, and `0` comes
/// back once the scheduler hands the processor to it again.
pub fn sys_yield(task: &mut TaskState) -> (r: isize)
    requires
        old(task).wf(),
        old(task).syscall_times@[SYSCALL_YIELD as int] < u32::MAX,
    ensures
        r == 0,
        final(task).wf(),
        final(task).status == TaskStatus::Ready,
        final(task).exit_code == old(task).exit_code,
        final(task).syscall_times@ == old(task).syscall_times@.update(
            SYSCALL_YIELD as int,
            (old(task).syscall_times@[SYSCALL_YIELD as int] + 1) as u32,
        ),
        final(task).start_time_ms == old(task).start_time_ms,
{
    task.increment_syscall(SYSCALL_YIELD);
    task.status = TaskStatus::Ready;
    0
}

/// Reads the time source (`now_us`, microseconds) and writes a `TimeVal`
/// into the caller's address space at `ts`, through the translator, so a
/// value straddling a page boundary is written correctly. Returns `0`, or
/// `-1` when a covered page is unmapped or not writable; a failed call
/// leaves the address space unchanged. The timezone argument is ignored.
pub fn sys_get_time(
    task: &mut TaskState,
    space: &mut AddressSpace,
    ts: usize,
    _tz: usize,
    now_us: usize,
) -> (r: isize)
    requires
        old(task).wf(),
        old(space).wf(),
        old(task).syscall_times@[SYSCALL_GET_TIME as int] < u32::MAX,
        ts + 16 <= usize::MAX,
    ensures
        final(task).wf(),
        final(space).wf(),
        final(task).status == old(task).status,
        final(task).exit_code == old(task).exit_code,
        final(task).start_time_ms == old(task).start_time_ms,
        final(task).syscall_times@ == old(task).syscall_times@.update(
            SYSCALL_GET_TIME as int,
            (old(task).syscall_times@[SYSCALL_GET_TIME as int] + 1) as u32,
        ),
        write_fault(*old(space), vpn_of(ts as int), vpn_range_end(ts as int, 16)) is None ==> r
            == 0 && write_updates(
            *old(space),
            *final(space),
            ts as int,
            time_val_bytes(sec_of(now_us as nat), usec_of(now_us as nat)),
        ),
        write_fault(*old(space), vpn_of(ts as int), vpn_range_end(ts as int, 16)) is Some ==> r
            == -1 && *final(space) == *old(space),
{
    task.increment_syscall(SYSCALL_GET_TIME);
    let tv = TimeVal::from_us(now_us);
    let buf = tv.to_bytes();
    match write_bytes(space, ts, &buf) {
        Ok(()) => 0,
        Err(_) => -1,
    }
}

/// Counts this call in the task's own counter table first, snapshots the
/// task (status, counter table, elapsed milliseconds since first dispatch),
/// and writes the snapshot into the caller's address space at `ti` through
/// the translator. The snapshot is taken after the increment, so a task
/// querying itself observes its in-flight call counted. Returns `0`, or `-1`
/// when a covered page is unmapped or not writable; a failed call leaves the
/// address space unchanged.
pub fn sys_task_info(
    task: &mut TaskState,
    space: &mut AddressSpace,
    ti: usize,
    now_ms: usize,
) -> (r: isize)
    requires
        old(task).wf(),
        old(space).wf(),
        old(task).syscall_times@[SYSCALL_TASK_INFO as int] < u32::MAX,
        old(task).start_time_ms matches Some(s) ==> s <= now_ms,
        ti + TASK_INFO_BYTES <= usize::MAX,
    ensures
        final(task).wf(),
        final(space).wf(),
        final(task).status == old(task).status,
        final(task).exit_code == old(task).exit_code,
        final(task).start_time_ms == old(task).start_time_ms,
        final(task).syscall_times@ == old(task).syscall_times@.update(
            SYSCALL_TASK_INFO as int,
            (old(task).syscall_times@[SYSCALL_TASK_INFO as int] + 1) as u32,
        ),
        write_fault(
            *old(space),
            vpn_of(ti as int),
            vpn_range_end(ti as int, TASK_INFO_BYTES as int),
        ) is None ==> r == 0 && write_updates(
            *old(space),
            *final(space),
            ti as int,
            task_info_bytes(
                final(task).status,
                final(task).syscall_times@,
                final(task).elapsed_ms(now_ms) as nat,
            ),
        ),
        write_fault(
            *old(space),
            vpn_of(ti as int),
            vpn_range_end(ti as int, TASK_INFO_BYTES as int),
        ) is Some ==> r == -1 && *final(space) == *old(space),
{
    task.increment_syscall(SYSCALL_TASK_INFO);
    let info = task.snapshot(now_ms);
    let buf = info.to_bytes();
    match write_bytes(space, ti, &buf) {
        Ok(()) => 0,
        Err(_) => -1,
    }
}

/// Maps the anonymous region `[start, start + len)` with permission bits
/// `port` in the caller's address space. Returns `0`, or `-1` when `start`
/// is not page-aligned, `port` is zero or has bits outside the low three,
/// the region would pass the memory ceiling, or the region overlaps an
/// existing mapping; a rejected call leaves the address space unchanged.
pub fn sys_mmap(
    task: &mut TaskState,
    space: &mut AddressSpace,
    start: usize,
    len: usize,
    port: usize,
) -> (r: isize)
    requires
        old(task).wf(),
        old(space).wf(),
        old(task).syscall_times@[SYSCALL_MMAP as int] < u32::MAX,
    ensures
        final(task).wf(),
        final(space).wf(),
        final(task).status == old(task).status,
        final(task).exit_code == old(task).exit_code,
        final(task).start_time_ms == old(task).start_time_ms,
        final(task).syscall_times@ == old(task).syscall_times@.update(
            SYSCALL_MMAP as int,
            (old(task).syscall_times@[SYSCALL_MMAP as int] + 1) as u32,
        ),
        mmap_check(*old(space), start, len, port) is None ==> r == 0 && mmap_adds(
            *old(space),
            *final(space),
            start,
            len,
            port,
        ),
        mmap_check(*old(space), start, len, port) is Some ==> r == -1 && *final(space) == *old(
            space,
        ),
{
    task.increment_syscall(SYSCALL_MMAP);
    match space.mmap(start, len, port) {
        Ok(()) => 0,
        Err(_) => -1,
    }
}

/// Unmaps every page of `[start, start + len)` in the caller's address
/// space. Returns `0`, or `-1` when `start` is not page-aligned or a page of
/// the range is not mapped; a rejected call leaves the address space
/// unchanged.
pub fn sys_munmap(
    task: &mut TaskState,
    space: &mut AddressSpace,
    start: usize,
    len: usize,
) -> (r: isize)
    requires
        old(task).wf(),
        old(space).wf(),
        old(task).syscall_times@[SYSCALL_MUNMAP as int] < u32::MAX,
    ensures
        final(task).wf(),
        final(space).wf(),
        final(task).status == old(task).status,
        final(task).exit_code == old(task).exit_code,
        final(task).start_time_ms == old(task).start_time_ms,
        final(task).syscall_times@ == old(task).syscall_times@.update(
            SYSCALL_MUNMAP as int,
            (old(task).syscall_times@[SYSCALL_MUNMAP as int] + 1) as u32,
        ),
        munmap_check(*old(space), start, len) is None ==> r == 0 && munmap_removes(
            *old(space),
            *final(space),
            start,
            len,
        ),
        munmap_check(*old(space), start, len) is Some ==> r == -1 && *final(space) == *old(space),
{
    task.increment_syscall(SYSCALL_MUNMAP);
    match space.munmap(start, len) {
        Ok(()) => 0,
        Err(_) => -1,
    }
}

/// Moves the caller's data-segment break by `size` bytes. Returns the
/// previous break, or `-1` when the new break would fall below the bottom of
/// the data segment, pass the memory ceiling, or grow into a mapped page; a
/// rejected call leaves the address space unchanged.
pub fn sys_sbrk(task: &mut TaskState, space: &mut AddressSpace, size: i32) -> (r: isize)
    requires
        old(task).wf(),
        old(space).wf(),
        old(task).syscall_times@[SYSCALL_SBRK as int] < u32::MAX,
    ensures
        final(task).wf(),
        final(space).wf(),
        final(task).status == old(task).status,
        final(task).exit_code == old(task).exit_code,
        final(task).start_time_ms == old(task).start_time_ms,
        final(task).syscall_times@ == old(task).syscall_times@.update(
            SYSCALL_SBRK as int,
            (old(task).syscall_times@[SYSCALL_SBRK as int] + 1) as u32,
        ),
        sbrk_ok(*old(space), size) ==> r == old(space).brk && *final(space) == (AddressSpace {
            brk: (old(space).brk + size as int) as usize,
            ..*old(space)
        }),
        !sbrk_ok(*old(space), size) ==> r == -1 && *final(space) == *old(space),
{
    task.increment_syscall(SYSCALL_SBRK);
    match space.change_program_brk(size) {
        Some(old_brk) => old_brk as isize,
        None => -1,
    }
}

} // verus!
