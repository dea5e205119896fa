//! Kernel-wide constants: page geometry, the physical memory ceiling, and the
//! syscall numbering used to index the per-task invocation counters.

use vstd::prelude::*;

verus! {

/// Size of one page frame in bytes.
pub const PAGE_SIZE: usize = 4096;

/// First address past usable memory; no mapping may reach beyond it. Kept
/// below `i32::MAX` so that a break value always fits a signed syscall result
/// whatever the pointer width.
pub const MEMORY_END: usize = 0x0880_0000;

/// Number of recognized syscall numbers; length of each task's counter table.
pub const MAX_SYSCALL_NUM: usize = 500;

/// Syscall number of `exit`.
pub const SYSCALL_EXIT: usize = 93;

/// Syscall number of `yield`.
pub const SYSCALL_YIELD: usize = 124;

/// Syscall number of `sbrk`.
pub const SYSCALL_SBRK: usize = 214;

/// Syscall number of `munmap`.
pub const SYSCALL_MUNMAP: usize = 215;

/// Syscall number of `mmap`.
pub const SYSCALL_MMAP: usize = 222;

/// Syscall number of `get_time`.
pub const SYSCALL_GET_TIME: usize = 169;

/// Syscall number of `task_info`.
pub const SYSCALL_TASK_INFO: usize = 410;

} // verus!
