//! Syscall bridge between user-mode tasks and a teaching kernel's scheduler
//! and virtual-memory subsystem.
//!
//! The crate models a task's address space at page granularity, gives a
//! page-walking translator for cross-address-space byte access (correct even
//! when a structure straddles a page boundary), keeps per-task bookkeeping
//! (status, syscall counters, first-dispatch time), and exposes the syscall
//! entry points themselves (`sys_exit`, `sys_yield`, `sys_get_time`,
//! `sys_task_info`, `sys_mmap`, `sys_munmap`, `sys_sbrk`).

pub mod bridge;
pub mod bytes;
pub mod config;
pub mod space;
pub mod task;
pub mod time;
pub mod translate;
