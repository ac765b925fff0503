use bump_allocator::early::{AllocError, EarlyAllocator};

const PAGE_SIZE: usize = 4096;

#[test]
fn fresh_allocator_is_empty() {
    let a: EarlyAllocator<PAGE_SIZE> = EarlyAllocator::new();
    assert_eq!(a.total_bytes(), 0);
    assert_eq!(a.used_bytes(), 0);
    assert_eq!(a.available_bytes(), 0);
    assert_eq!(a.live_count(), 0);
}

#[test]
fn init_sets_up_the_region() {
    let mut a: EarlyAllocator<PAGE_SIZE> = EarlyAllocator::new();
    a.init(0x100000, 0x10000);
    assert_eq!(a.total_bytes(), 0x10000);
    assert_eq!(a.used_bytes(), 0);
    assert_eq!(a.available_bytes(), 0x10000);
    assert_eq!(a.total_pages(), 16);
    assert_eq!(a.used_pages(), 0);
    assert_eq!(a.available_pages(), 16);
    assert_eq!(a.live_count(), 0);
}

#[test]
fn add_memory_succeeds_without_effect() {
    let mut a: EarlyAllocator<PAGE_SIZE> = EarlyAllocator::new();
    a.init(0x100000, 0x10000);
    assert_eq!(a.add_memory(0x200000, 0x10000), Ok(()));
    assert_eq!(a.total_bytes(), 0x10000);
    assert_eq!(a.available_bytes(), 0x10000);
}

#[test]
fn concrete_dual_region_scenario() {
    let mut a: EarlyAllocator<PAGE_SIZE> = EarlyAllocator::new();
    a.init(0x100000, 0x10000);
    assert_eq!(a.used_bytes(), 0);
    assert_eq!(a.available_bytes(), 0x10000);

    let addr = a.alloc_bytes(32, 8).unwrap();
    assert_eq!(addr, 0x100000);
    assert_eq!(a.used_bytes(), 0x20);
    assert_eq!(a.live_count(), 1);

    let base = a.alloc_pages(2, 4096).unwrap();
    assert_eq!(base, 0x10E000);
    assert_eq!(a.used_pages(), 2);

    let err = a.alloc_pages(14, 4096);
    assert_eq!(err, Err(AllocError::OutOfMemory));
    assert_eq!(a.used_pages(), 2);
    assert_eq!(a.used_bytes(), 0x20);
    assert_eq!(a.live_count(), 1);

    a.dealloc(0x100000, 32, 8);
    assert_eq!(a.live_count(), 0);
    assert_eq!(a.used_bytes(), 0);
}

#[test]
fn byte_allocation_respects_alignment() {
    let mut a: EarlyAllocator<PAGE_SIZE> = EarlyAllocator::new();
    a.init(0x1000, 0x1000);
    assert_eq!(a.alloc_bytes(1, 1).unwrap(), 0x1000);
    assert_eq!(a.alloc_bytes(1, 16).unwrap(), 0x1010);
    assert_eq!(a.used_bytes(), 0x11);
}

#[test]
fn failed_byte_allocation_changes_nothing() {
    let mut a: EarlyAllocator<PAGE_SIZE> = EarlyAllocator::new();
    a.init(0x1000, 0x100);
    assert_eq!(a.alloc_bytes(0x80, 1).unwrap(), 0x1000);
    let before_used = a.used_bytes();
    let before_avail = a.available_bytes();
    let before_live = a.live_count();
    assert_eq!(a.alloc_bytes(0x81, 1), Err(AllocError::OutOfMemory));
    assert_eq!(a.used_bytes(), before_used);
    assert_eq!(a.available_bytes(), before_avail);
    assert_eq!(a.live_count(), before_live);
}

#[test]
fn failed_page_allocation_changes_nothing() {
    let mut a: EarlyAllocator<PAGE_SIZE> = EarlyAllocator::new();
    a.init(0x100000, 2 * PAGE_SIZE);
    let before_avail = a.available_pages();
    assert_eq!(a.alloc_pages(3, 4096), Err(AllocError::OutOfMemory));
    assert_eq!(a.available_pages(), before_avail);
    assert_eq!(a.used_pages(), 0);
}

#[test]
fn bulk_reclamation_resets_the_byte_cursor() {
    let mut a: EarlyAllocator<PAGE_SIZE> = EarlyAllocator::new();
    a.init(0x100000, 0x10000);
    let first = a.alloc_bytes(8, 8).unwrap();
    let second = a.alloc_bytes(8, 8).unwrap();
    let third = a.alloc_bytes(8, 8).unwrap();
    assert_eq!(first, 0x100000);
    assert_eq!(second, 0x100008);
    assert_eq!(third, 0x100010);
    assert_eq!(a.live_count(), 3);

    a.dealloc(second, 8, 8);
    assert_eq!(a.live_count(), 2);
    assert_eq!(a.used_bytes(), 0x18);

    a.dealloc(first, 8, 8);
    a.dealloc(third, 8, 8);
    assert_eq!(a.live_count(), 0);
    assert_eq!(a.used_bytes(), 0);

    assert_eq!(a.alloc_bytes(8, 8).unwrap(), 0x100000);
}

#[test]
fn page_cursor_strictly_decreases_and_pages_are_permanent() {
    let mut a: EarlyAllocator<PAGE_SIZE> = EarlyAllocator::new();
    a.init(0x100000, 0x10000);
    let first = a.alloc_pages(1, 4096).unwrap();
    let second = a.alloc_pages(1, 4096).unwrap();
    assert_eq!(first, 0x10F000);
    assert_eq!(second, 0x10E000);
    assert!(second < first);

    a.dealloc_pages(first, 1);
    a.dealloc_pages(second, 1);
    assert_eq!(a.used_pages(), 2);
    assert_eq!(a.alloc_pages(1, 4096).unwrap(), 0x10D000);
}

#[test]
fn page_allocation_honours_larger_alignment() {
    let mut a: EarlyAllocator<PAGE_SIZE> = EarlyAllocator::new();
    a.init(0x100000, 0x10000 - 0x1000);
    assert_eq!(a.total_bytes(), 0xF000);
    let base = a.alloc_pages(1, 8192).unwrap();
    assert_eq!(base, 0x10D000);
    assert_eq!(a.used_pages(), (0x10F000 - 0x10D000) / PAGE_SIZE);
}

#[test]
fn zero_sized_allocation_still_counts() {
    let mut a: EarlyAllocator<PAGE_SIZE> = EarlyAllocator::new();
    a.init(0x1000, 0x1000);
    assert_eq!(a.alloc_bytes(0, 8).unwrap(), 0x1000);
    assert_eq!(a.used_bytes(), 0);
    assert_eq!(a.live_count(), 1);
    a.dealloc(0x1000, 0, 8);
    assert_eq!(a.live_count(), 0);
}

#[test]
fn large_alignment_rounds_the_cursor_up() {
    let mut a: EarlyAllocator<PAGE_SIZE> = EarlyAllocator::new();
    a.init(0x1000, 0x10000);
    assert_eq!(a.alloc_bytes(4, 1).unwrap(), 0x1000);
    assert_eq!(a.alloc_bytes(8, 0x8000).unwrap(), 0x8000);
    assert_eq!(a.used_bytes(), 0x8008 - 0x1000);
}

#[test]
fn an_exact_fit_succeeds_and_fills_the_region() {
    let mut a: EarlyAllocator<PAGE_SIZE> = EarlyAllocator::new();
    a.init(0x2000, 0x100);
    assert_eq!(a.alloc_bytes(0x100, 1).unwrap(), 0x2000);
    assert_eq!(a.available_bytes(), 0);
    assert_eq!(a.alloc_bytes(1, 1), Err(AllocError::OutOfMemory));
}

#[test]
fn byte_and_page_blocks_never_overlap() {
    let mut a: EarlyAllocator<PAGE_SIZE> = EarlyAllocator::new();
    a.init(0x100000, 0x10000);
    let bytes_at = a.alloc_bytes(0x6000, 8).unwrap();
    let byte_end = bytes_at + 0x6000;
    let pages_at = a.alloc_pages(9, 4096).unwrap();
    let pages_end = pages_at + 9 * PAGE_SIZE;
    assert!(byte_end <= pages_at);
    assert_eq!(pages_end, 0x110000);
    assert_eq!(a.alloc_pages(1, 4096), Ok(0x106000));
    assert_eq!(a.available_bytes(), 0);
    assert_eq!(a.alloc_bytes(1, 1), Err(AllocError::OutOfMemory));
}
