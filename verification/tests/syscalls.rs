use syscall_bridge::bytes::usize_to_u8_array;
use syscall_bridge::bridge::sys_exit;
use syscall_bridge::bridge::sys_get_time;
use syscall_bridge::bridge::sys_mmap;
use syscall_bridge::bridge::sys_munmap;
use syscall_bridge::bridge::sys_sbrk;
use syscall_bridge::bridge::sys_task_info;
use syscall_bridge::bridge::sys_yield;
use syscall_bridge::config::PAGE_SIZE;
use syscall_bridge::config::SYSCALL_EXIT;
use syscall_bridge::config::SYSCALL_GET_TIME;
use syscall_bridge::config::SYSCALL_TASK_INFO;
use syscall_bridge::config::SYSCALL_YIELD;
use syscall_bridge::space::AddressSpace;
use syscall_bridge::task::TASK_INFO_BYTES;
use syscall_bridge::task::TaskInfo;
use syscall_bridge::task::TaskState;
use syscall_bridge::task::TaskStatus;
use syscall_bridge::time::TimeVal;
use syscall_bridge::translate::read_into;

fn word_at(bytes: &[u8], off: usize) -> u64 {
    let mut value: u64 = 0;
    for i in (0..8).rev() {
        value = value * 256 + bytes[off + i] as u64;
    }
    value
}

fn counter_at(bytes: &[u8], syscall: usize) -> u32 {
    let off = 8 + 4 * syscall;
    let mut value: u32 = 0;
    for i in (0..4).rev() {
        value = value * 256 + bytes[off + i] as u32;
    }
    value
}

fn running_task() -> TaskState {
    let mut task = TaskState::new();
    task.record_dispatch(100);
    task
}

fn space_with_user_page() -> AddressSpace {
    let mut space = AddressSpace::new(0x0010_0000);
    space.mmap(2 * PAGE_SIZE, 2 * PAGE_SIZE, 3).unwrap();
    space
}

#[test]
fn new_task_defaults() {
    let task = TaskState::new();
    assert_eq!(task.status, TaskStatus::Ready);
    assert_eq!(task.start_time_ms, None);
    assert_eq!(task.exit_code, None);
    assert_eq!(task.syscall_times.len(), 500);
    assert!(task.syscall_times.iter().all(|&c| c == 0));
}

#[test]
fn record_dispatch_sets_start_time_once() {
    let mut task = TaskState::new();
    task.record_dispatch(100);
    assert_eq!(task.status, TaskStatus::Running);
    assert_eq!(task.start_time_ms, Some(100));
    task.record_dispatch(250);
    assert_eq!(task.start_time_ms, Some(100));
}

#[test]
fn snapshot_elapsed_time() {
    let mut task = TaskState::new();
    let never = task.snapshot(500);
    assert_eq!(never.time, 0);
    task.record_dispatch(100);
    let info = task.snapshot(250);
    assert_eq!(info.time, 150);
    assert_eq!(info.status, TaskStatus::Running);
}

#[test]
fn sys_exit_records_exit() {
    let mut task = running_task();
    sys_exit(&mut task, 42);
    assert_eq!(task.status, TaskStatus::Exited);
    assert_eq!(task.exit_code, Some(42));
    assert_eq!(task.syscall_times[SYSCALL_EXIT], 1);
}

#[test]
fn sys_yield_returns_zero_and_readies_task() {
    let mut task = running_task();
    assert_eq!(sys_yield(&mut task), 0);
    assert_eq!(task.status, TaskStatus::Ready);
    assert_eq!(task.syscall_times[SYSCALL_YIELD], 1);
    assert_eq!(sys_yield(&mut task), 0);
    assert_eq!(task.syscall_times[SYSCALL_YIELD], 2);
}

#[test]
fn usize_to_u8_array_exact() {
    let bytes = usize_to_u8_array(0x0102_0304);
    assert_eq!(bytes, vec![4, 3, 2, 1, 0, 0, 0, 0]);
    assert_eq!(usize_to_u8_array(0), vec![0; 8]);
}

#[test]
fn time_val_from_us_exact() {
    let tv = TimeVal::from_us(3_500_017);
    assert_eq!(tv.sec, 3);
    assert_eq!(tv.usec, 500_017);
    let zero = TimeVal::from_us(0);
    assert_eq!(zero.sec, 0);
    assert_eq!(zero.usec, 0);
}

#[test]
fn time_val_bytes_layout() {
    let tv = TimeVal { sec: 7, usec: 258 };
    let bytes = tv.to_bytes();
    assert_eq!(bytes.len(), 16);
    assert_eq!(word_at(&bytes, 0), 7);
    assert_eq!(word_at(&bytes, 8), 258);
}

#[test]
fn get_time_writes_exact_time_val() {
    let mut task = running_task();
    let mut space = space_with_user_page();
    let ts = 2 * PAGE_SIZE + 16;
    let now_us = 12_345_678;
    assert_eq!(sys_get_time(&mut task, &mut space, ts, 0, now_us), 0);
    let bytes = read_into(&space, ts, 16).unwrap();
    assert_eq!(word_at(&bytes, 0), 12);
    assert_eq!(word_at(&bytes, 8), 345_678);
    assert_eq!(task.syscall_times[SYSCALL_GET_TIME], 1);
}

#[test]
fn get_time_interval_is_exact() {
    let mut task = running_task();
    let mut space = space_with_user_page();
    let ts = 2 * PAGE_SIZE;
    let now1 = 5_700_001;
    let delta = 2_345_678;
    assert_eq!(sys_get_time(&mut task, &mut space, ts, 0, now1), 0);
    let first = read_into(&space, ts, 16).unwrap();
    assert_eq!(sys_get_time(&mut task, &mut space, ts, 0, now1 + delta), 0);
    let second = read_into(&space, ts, 16).unwrap();
    let us1 = word_at(&first, 0) * 1_000_000 + word_at(&first, 8);
    let us2 = word_at(&second, 0) * 1_000_000 + word_at(&second, 8);
    assert_eq!(us2 - us1, delta as u64);
}

#[test]
fn get_time_straddling_a_page_boundary() {
    let mut task = running_task();
    let mut space = space_with_user_page();
    let ts = 3 * PAGE_SIZE - 7;
    let now_us = 9_000_004;
    assert_eq!(sys_get_time(&mut task, &mut space, ts, 0, now_us), 0);
    let bytes = read_into(&space, ts, 16).unwrap();
    assert_eq!(word_at(&bytes, 0), 9);
    assert_eq!(word_at(&bytes, 8), 4);
}

#[test]
fn get_time_with_unmapped_pointer_fails() {
    let mut task = running_task();
    let mut space = AddressSpace::new(0x0010_0000);
    assert_eq!(sys_get_time(&mut task, &mut space, 2 * PAGE_SIZE, 0, 1), -1);
    assert_eq!(task.syscall_times[SYSCALL_GET_TIME], 1);
}

#[test]
fn get_time_without_write_permission_fails() {
    let mut task = running_task();
    let mut space = AddressSpace::new(0x0010_0000);
    space.mmap(2 * PAGE_SIZE, PAGE_SIZE, 1).unwrap();
    assert_eq!(sys_get_time(&mut task, &mut space, 2 * PAGE_SIZE, 0, 1), -1);
}

#[test]
fn task_info_counts_its_own_calls() {
    let mut task = running_task();
    let mut space = space_with_user_page();
    let ti = 2 * PAGE_SIZE;
    for expected in 1..=3u32 {
        assert_eq!(sys_task_info(&mut task, &mut space, ti, 500), 0);
        let bytes = read_into(&space, ti, TASK_INFO_BYTES).unwrap();
        assert_eq!(counter_at(&bytes, SYSCALL_TASK_INFO), expected);
    }
}

#[test]
fn task_info_snapshot_layout() {
    let mut task = running_task();
    let mut space = space_with_user_page();
    assert_eq!(sys_yield(&mut task), 0);
    task.record_dispatch(400);
    let ti = 3 * PAGE_SIZE - 100;
    assert_eq!(sys_task_info(&mut task, &mut space, ti, 600), 0);
    let bytes = read_into(&space, ti, TASK_INFO_BYTES).unwrap();
    assert_eq!(bytes.len(), TASK_INFO_BYTES);
    assert_eq!(word_at(&bytes, 0), 1);
    assert_eq!(counter_at(&bytes, SYSCALL_YIELD), 1);
    assert_eq!(counter_at(&bytes, SYSCALL_TASK_INFO), 1);
    assert_eq!(counter_at(&bytes, SYSCALL_GET_TIME), 0);
    assert_eq!(word_at(&bytes, TASK_INFO_BYTES - 8), 500);
}

#[test]
fn task_info_with_unmapped_pointer_fails() {
    let mut task = running_task();
    let mut space = AddressSpace::new(0x0010_0000);
    assert_eq!(sys_task_info(&mut task, &mut space, 8 * PAGE_SIZE, 500), -1);
    assert_eq!(task.syscall_times[SYSCALL_TASK_INFO], 1);
}

#[test]
fn task_info_bytes_of_snapshot() {
    let info = TaskInfo { status: TaskStatus::Exited, syscall_times: vec![0u32; 500], time: 9 };
    let bytes = info.to_bytes();
    assert_eq!(bytes.len(), TASK_INFO_BYTES);
    assert_eq!(word_at(&bytes, 0), 2);
    assert_eq!(word_at(&bytes, TASK_INFO_BYTES - 8), 9);
}

#[test]
fn sys_mmap_misaligned_leaves_space_unchanged() {
    let mut task = running_task();
    let mut space = AddressSpace::new(0x0010_0000);
    assert_eq!(sys_mmap(&mut task, &mut space, PAGE_SIZE + 3, PAGE_SIZE, 3), -1);
    assert_eq!(space.pages.len(), 0);
    assert!(!space.query_vpn(1));
}

#[test]
fn sys_mmap_and_munmap_round_trip() {
    let mut task = running_task();
    let mut space = AddressSpace::new(0x0010_0000);
    assert_eq!(sys_mmap(&mut task, &mut space, 4 * PAGE_SIZE, 2 * PAGE_SIZE, 3), 0);
    assert!(space.query_vpn(4) && space.query_vpn(5));
    assert_eq!(sys_mmap(&mut task, &mut space, 5 * PAGE_SIZE, PAGE_SIZE, 3), -1);
    assert_eq!(sys_munmap(&mut task, &mut space, 4 * PAGE_SIZE, 2 * PAGE_SIZE), 0);
    assert_eq!(space.pages.len(), 0);
}

#[test]
fn sys_mmap_rejects_bad_permissions() {
    let mut task = running_task();
    let mut space = AddressSpace::new(0x0010_0000);
    assert_eq!(sys_mmap(&mut task, &mut space, PAGE_SIZE, PAGE_SIZE, 0), -1);
    assert_eq!(sys_mmap(&mut task, &mut space, PAGE_SIZE, PAGE_SIZE, 9), -1);
    assert_eq!(space.pages.len(), 0);
}

#[test]
fn sys_munmap_rejects_unmapped_range() {
    let mut task = running_task();
    let mut space = AddressSpace::new(0x0010_0000);
    assert_eq!(sys_munmap(&mut task, &mut space, 4 * PAGE_SIZE, PAGE_SIZE), -1);
}

#[test]
fn sys_sbrk_zero_reports_break_unchanged() {
    let mut task = running_task();
    let mut space = AddressSpace::new(0x0010_0000);
    assert_eq!(sys_sbrk(&mut task, &mut space, 0), 0x0010_0000);
    assert_eq!(space.current_brk(), 0x0010_0000);
    assert_eq!(space.pages.len(), 0);
}

#[test]
fn sys_sbrk_rejects_shrink_below_base() {
    let mut task = running_task();
    let mut space = AddressSpace::new(0x0010_0000);
    assert_eq!(sys_sbrk(&mut task, &mut space, -4096), -1);
    assert_eq!(space.current_brk(), 0x0010_0000);
}

#[test]
fn sys_sbrk_grow_returns_previous_break() {
    let mut task = running_task();
    let mut space = AddressSpace::new(0x0010_0000);
    assert_eq!(sys_sbrk(&mut task, &mut space, 8192), 0x0010_0000);
    assert_eq!(space.current_brk(), 0x0010_0000 + 8192);
    assert_eq!(sys_sbrk(&mut task, &mut space, -8192), 0x0010_0000 + 8192);
    assert_eq!(space.current_brk(), 0x0010_0000);
}
