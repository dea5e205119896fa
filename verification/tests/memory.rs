use syscall_bridge::config::MEMORY_END;
use syscall_bridge::config::PAGE_SIZE;
use syscall_bridge::space::AddressSpace;
use syscall_bridge::space::MapError;
use syscall_bridge::translate::TranslateError;
use syscall_bridge::translate::read_into;
use syscall_bridge::translate::write_bytes;

fn space_with_heap() -> AddressSpace {
    AddressSpace::new(0x0010_0000)
}

#[test]
fn mmap_then_unmap_restores_mapping_set() {
    let mut space = space_with_heap();
    let start = 8 * PAGE_SIZE;
    let len = 3 * PAGE_SIZE;
    assert_eq!(space.mmap(start, len, 3), Ok(()));
    assert!(space.query_vpn(8));
    assert!(space.query_vpn(10));
    assert_eq!(space.munmap(start, len), Ok(()));
    assert!(!space.query_vpn(8));
    assert!(!space.query_vpn(9));
    assert!(!space.query_vpn(10));
    assert_eq!(space.pages.len(), 0);
    assert_eq!(space.current_brk(), 0x0010_0000);
}

#[test]
fn mmap_overlap_rejected_first_mapping_intact() {
    let mut space = space_with_heap();
    assert_eq!(space.mmap(4 * PAGE_SIZE, 2 * PAGE_SIZE, 3), Ok(()));
    assert_eq!(space.mmap(5 * PAGE_SIZE, 2 * PAGE_SIZE, 7), Err(MapError::Overlap));
    assert_eq!(space.vpn_perm(4), Some(3));
    assert_eq!(space.vpn_perm(5), Some(3));
    assert!(!space.query_vpn(6));
    assert_eq!(space.pages.len(), 2);
}

#[test]
fn mmap_misaligned_rejected() {
    let mut space = space_with_heap();
    assert_eq!(space.mmap(PAGE_SIZE + 1, PAGE_SIZE, 3), Err(MapError::Misaligned));
    assert_eq!(space.pages.len(), 0);
}

#[test]
fn mmap_invalid_permission_rejected() {
    let mut space = space_with_heap();
    assert_eq!(space.mmap(PAGE_SIZE, PAGE_SIZE, 0), Err(MapError::InvalidPermission));
    assert_eq!(space.mmap(PAGE_SIZE, PAGE_SIZE, 8), Err(MapError::InvalidPermission));
    assert_eq!(space.pages.len(), 0);
}

#[test]
fn mmap_out_of_range_rejected() {
    let mut space = space_with_heap();
    assert_eq!(space.mmap(MEMORY_END - PAGE_SIZE, 2 * PAGE_SIZE, 3), Err(MapError::OutOfRange));
    assert_eq!(space.pages.len(), 0);
}

#[test]
fn mmap_zero_length_succeeds_without_pages() {
    let mut space = space_with_heap();
    assert_eq!(space.mmap(PAGE_SIZE, 0, 3), Ok(()));
    assert_eq!(space.pages.len(), 0);
}

#[test]
fn mmap_rounds_length_up_to_whole_pages() {
    let mut space = space_with_heap();
    assert_eq!(space.mmap(2 * PAGE_SIZE, PAGE_SIZE + 1, 3), Ok(()));
    assert!(space.query_vpn(2));
    assert!(space.query_vpn(3));
    assert!(!space.query_vpn(4));
}

#[test]
fn mmap_zero_fills_pages() {
    let mut space = space_with_heap();
    assert_eq!(space.mmap(2 * PAGE_SIZE, PAGE_SIZE, 3), Ok(()));
    let bytes = read_into(&space, 2 * PAGE_SIZE, PAGE_SIZE).unwrap();
    assert_eq!(bytes.len(), PAGE_SIZE);
    assert!(bytes.iter().all(|&b| b == 0));
}

#[test]
fn mmap_up_to_the_ceiling_succeeds() {
    let mut space = space_with_heap();
    assert_eq!(space.mmap(MEMORY_END - PAGE_SIZE, PAGE_SIZE, 3), Ok(()));
    assert!(space.query_vpn(MEMORY_END / PAGE_SIZE - 1));
    assert_eq!(space.munmap(MEMORY_END - PAGE_SIZE, PAGE_SIZE), Ok(()));
}

#[test]
fn munmap_with_huge_length_rejected() {
    let mut space = space_with_heap();
    assert_eq!(space.mmap(0, PAGE_SIZE, 3), Ok(()));
    assert_eq!(space.munmap(0, usize::MAX), Err(MapError::NotMapped));
    assert!(space.query_vpn(0));
}

#[test]
fn munmap_not_mapped_rejected() {
    let mut space = space_with_heap();
    assert_eq!(space.mmap(2 * PAGE_SIZE, PAGE_SIZE, 3), Ok(()));
    assert_eq!(space.munmap(2 * PAGE_SIZE, 2 * PAGE_SIZE), Err(MapError::NotMapped));
    assert!(space.query_vpn(2));
}

#[test]
fn munmap_misaligned_rejected() {
    let mut space = space_with_heap();
    assert_eq!(space.munmap(5, PAGE_SIZE), Err(MapError::Misaligned));
}

#[test]
fn munmap_part_of_region() {
    let mut space = space_with_heap();
    assert_eq!(space.mmap(2 * PAGE_SIZE, 3 * PAGE_SIZE, 3), Ok(()));
    assert_eq!(space.munmap(3 * PAGE_SIZE, PAGE_SIZE), Ok(()));
    assert!(space.query_vpn(2));
    assert!(!space.query_vpn(3));
    assert!(space.query_vpn(4));
}

#[test]
fn write_then_read_straddles_page_boundary() {
    let mut space = space_with_heap();
    assert_eq!(space.mmap(2 * PAGE_SIZE, 2 * PAGE_SIZE, 3), Ok(()));
    let data: Vec<u8> = (1..=16u8).collect();
    let ptr = 3 * PAGE_SIZE - 5;
    assert_eq!(write_bytes(&mut space, ptr, &data), Ok(()));
    let back = read_into(&space, ptr, 16).unwrap();
    assert_eq!(back, data);
    let first_page_tail = read_into(&space, 3 * PAGE_SIZE - 5, 5).unwrap();
    assert_eq!(first_page_tail, vec![1, 2, 3, 4, 5]);
    let second_page_head = read_into(&space, 3 * PAGE_SIZE, 11).unwrap();
    assert_eq!(second_page_head, (6..=16u8).collect::<Vec<u8>>());
}

#[test]
fn write_across_three_pages() {
    let mut space = space_with_heap();
    assert_eq!(space.mmap(4 * PAGE_SIZE, 3 * PAGE_SIZE, 3), Ok(()));
    let data: Vec<u8> = (0..(PAGE_SIZE * 2 + 10)).map(|i| (i % 251) as u8).collect();
    let ptr = 4 * PAGE_SIZE + PAGE_SIZE / 2;
    assert_eq!(write_bytes(&mut space, ptr, &data), Ok(()));
    let back = read_into(&space, ptr, data.len()).unwrap();
    assert_eq!(back, data);
}

#[test]
fn write_leaves_neighbouring_bytes_untouched() {
    let mut space = space_with_heap();
    assert_eq!(space.mmap(2 * PAGE_SIZE, PAGE_SIZE, 3), Ok(()));
    let data = vec![0xAAu8; 4];
    assert_eq!(write_bytes(&mut space, 2 * PAGE_SIZE + 100, &data), Ok(()));
    let around = read_into(&space, 2 * PAGE_SIZE + 98, 8).unwrap();
    assert_eq!(around, vec![0, 0, 0xAA, 0xAA, 0xAA, 0xAA, 0, 0]);
}

#[test]
fn write_to_unmapped_page_fails() {
    let mut space = space_with_heap();
    let data = vec![1u8, 2, 3];
    assert_eq!(write_bytes(&mut space, 9 * PAGE_SIZE, &data), Err(TranslateError::Unmapped));
}

#[test]
fn write_without_write_permission_fails() {
    let mut space = space_with_heap();
    assert_eq!(space.mmap(2 * PAGE_SIZE, PAGE_SIZE, 1), Ok(()));
    let data = vec![7u8];
    assert_eq!(
        write_bytes(&mut space, 2 * PAGE_SIZE, &data),
        Err(TranslateError::PermissionDenied)
    );
    let back = read_into(&space, 2 * PAGE_SIZE, 1).unwrap();
    assert_eq!(back, vec![0]);
}

#[test]
fn write_straddling_into_unmapped_page_changes_nothing() {
    let mut space = space_with_heap();
    assert_eq!(space.mmap(2 * PAGE_SIZE, PAGE_SIZE, 3), Ok(()));
    let data = vec![9u8; 8];
    let ptr = 3 * PAGE_SIZE - 4;
    assert_eq!(write_bytes(&mut space, ptr, &data), Err(TranslateError::Unmapped));
    let tail = read_into(&space, 3 * PAGE_SIZE - 4, 4).unwrap();
    assert_eq!(tail, vec![0, 0, 0, 0]);
}

#[test]
fn read_from_unmapped_page_fails() {
    let space = space_with_heap();
    assert_eq!(read_into(&space, 2 * PAGE_SIZE, 1), Err(TranslateError::Unmapped));
}

#[test]
fn empty_write_and_read_succeed_anywhere() {
    let mut space = space_with_heap();
    let data: Vec<u8> = Vec::new();
    assert_eq!(write_bytes(&mut space, 123_456, &data), Ok(()));
    let back = read_into(&space, 123_456, 0).unwrap();
    assert_eq!(back.len(), 0);
}

#[test]
fn sbrk_zero_returns_break_unchanged() {
    let mut space = space_with_heap();
    assert_eq!(space.change_program_brk(0), Some(0x0010_0000));
    assert_eq!(space.current_brk(), 0x0010_0000);
    assert_eq!(space.heap_base(), 0x0010_0000);
    assert_eq!(space.pages.len(), 0);
}

#[test]
fn sbrk_below_heap_bottom_fails() {
    let mut space = space_with_heap();
    assert_eq!(space.change_program_brk(4096), Some(0x0010_0000));
    assert_eq!(space.change_program_brk(-100_000), None);
    assert_eq!(space.current_brk(), 0x0010_0000 + 4096);
}

#[test]
fn sbrk_grow_then_shrink() {
    let mut space = space_with_heap();
    assert_eq!(space.change_program_brk(8192), Some(0x0010_0000));
    assert_eq!(space.current_brk(), 0x0010_0000 + 8192);
    assert_eq!(space.change_program_brk(-4096), Some(0x0010_0000 + 8192));
    assert_eq!(space.current_brk(), 0x0010_0000 + 4096);
}

#[test]
fn sbrk_growing_into_mapping_fails() {
    let mut space = space_with_heap();
    let next_page = 0x0010_0000 + PAGE_SIZE;
    assert_eq!(space.mmap(next_page, PAGE_SIZE, 3), Ok(()));
    assert_eq!(space.change_program_brk((2 * PAGE_SIZE) as i32), None);
    assert_eq!(space.current_brk(), 0x0010_0000);
    assert_eq!(space.change_program_brk(PAGE_SIZE as i32), Some(0x0010_0000));
}
