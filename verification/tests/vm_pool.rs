use blog_os::machine::{HEAP_SIZE, HEAP_START, PAGE_SIZE};
use blog_os::memory::{get_frame, get_frame_pool, init_frame_allocator, FramePools, MemoryRegion};
use blog_os::page_table::AddressSpace;
use blog_os::vm_pool::{VMPool, VMPoolError, POOL_ENTRIES};

fn frame_pools() -> FramePools {
    let map = vec![
        MemoryRegion { start_addr: 0x30_0000, end_addr: 0x40_0000, usable: true },
        MemoryRegion { start_addr: 0x50_0000, end_addr: 0x90_0000, usable: true },
    ];
    init_frame_allocator(&map).unwrap()
}

#[test]
fn a_new_pool_reserves_nothing() {
    let pool = VMPool::default();
    assert!(!pool.is_legitimate(HEAP_START));
    assert!(!pool.is_legitimate(HEAP_START + HEAP_SIZE - 1));
    assert!(!pool.is_legitimate(0));
}

#[test]
fn a_request_is_rounded_up_to_pages() {
    let mut pool = VMPool::default();
    assert_eq!(pool.allocate(1), Some(HEAP_START));
    assert_eq!(pool.allocate(4096), Some(HEAP_START + PAGE_SIZE));
    assert_eq!(pool.allocate(4097), Some(HEAP_START + 2 * PAGE_SIZE));
    assert_eq!(pool.allocate(80000), Some(HEAP_START + 4 * PAGE_SIZE));
    assert_eq!(pool.allocate(1), Some(HEAP_START + 24 * PAGE_SIZE));
}

#[test]
fn an_address_is_legitimate_exactly_inside_a_reserved_range() {
    let mut pool = VMPool::default();
    let first = pool.allocate(2 * 4096).unwrap();
    assert!(pool.is_legitimate(first));
    assert!(pool.is_legitimate(first + 2 * PAGE_SIZE - 1));
    assert!(!pool.is_legitimate(first + 2 * PAGE_SIZE));
    assert!(!pool.is_legitimate(first - 1));
    let second = pool.allocate(1).unwrap();
    assert_eq!(second, first + 2 * PAGE_SIZE);
    assert!(pool.is_legitimate(second));
    assert!(!pool.is_legitimate(second + PAGE_SIZE));
}

#[test]
fn the_window_is_rounded_down_to_pages() {
    let mut pool = VMPool::default();
    pool.new(0x1000, 0x2fff);
    assert_eq!(pool.allocate(0x2000), Some(0x1000));
    assert_eq!(pool.allocate(1), None);
}

#[test]
fn a_request_may_end_where_the_window_ends() {
    let mut pool = VMPool::default();
    pool.new(0x1000, 0x3000);
    assert_eq!(pool.allocate(0x3001), None);
    assert_eq!(pool.allocate(0x3000), Some(0x1000));
    assert!(pool.is_legitimate(0x3fff));
    assert!(!pool.is_legitimate(0x4000));
    assert_eq!(pool.allocate(1), None);
    assert_eq!(pool.allocate(0), Some(0x4000));
}

#[test]
fn a_request_that_does_not_fit_changes_nothing() {
    let mut pool = VMPool::default();
    pool.new(0x10_0000, 0x4000);
    assert_eq!(pool.allocate(0x3000), Some(0x10_0000));
    assert_eq!(pool.allocate(0x2000), None);
    assert_eq!(pool.allocate(usize::MAX), None);
    assert_eq!(pool.allocate(0x1000), Some(0x10_3000));
}

#[test]
fn a_request_for_nothing_reserves_no_address() {
    let mut pool = VMPool::default();
    assert_eq!(pool.allocate(0), Some(HEAP_START));
    assert!(!pool.is_legitimate(HEAP_START));
    assert_eq!(pool.allocate(1), Some(HEAP_START));
    assert!(pool.is_legitimate(HEAP_START));
}

#[test]
fn the_table_holds_254_ranges() {
    let mut pool = VMPool::default();
    for i in 0..POOL_ENTRIES {
        assert_eq!(pool.allocate(1), Some(HEAP_START + (i as u64) * PAGE_SIZE));
    }
    assert_eq!(pool.allocate(1), None);
    let mut space = AddressSpace::new();
    let mut frames = frame_pools();
    assert_eq!(pool.release(HEAP_START + 7 * PAGE_SIZE, &mut space, &mut frames), Ok(Vec::new()));
    // the freed slot is used again, the freed addresses are not
    assert_eq!(pool.allocate(1), Some(HEAP_START + 254 * PAGE_SIZE));
    assert_eq!(pool.allocate(1), None);
}

#[test]
fn a_gap_below_the_highest_range_is_not_used_again() {
    let mut pool = VMPool::default();
    let mut space = AddressSpace::new();
    let mut frames = frame_pools();
    let a = pool.allocate(4096).unwrap();
    let b = pool.allocate(4096).unwrap();
    assert_eq!(pool.release(a, &mut space, &mut frames), Ok(Vec::new()));
    assert!(!pool.is_legitimate(a));
    assert!(pool.is_legitimate(b));
    assert_eq!(pool.allocate(4096), Some(b + PAGE_SIZE));
}

#[test]
fn the_highest_range_is_used_again_once_released() {
    let mut pool = VMPool::default();
    let mut space = AddressSpace::new();
    let mut frames = frame_pools();
    let a = pool.allocate(4096).unwrap();
    let b = pool.allocate(3 * 4096).unwrap();
    assert_eq!(pool.release(b, &mut space, &mut frames), Ok(Vec::new()));
    assert_eq!(pool.allocate(4096), Some(a + PAGE_SIZE));
}

#[test]
fn releasing_what_is_not_reserved_is_an_error() {
    let mut pool = VMPool::default();
    let mut space = AddressSpace::new();
    let mut frames = frame_pools();
    let a = pool.allocate(2 * 4096).unwrap();
    assert_eq!(pool.release(a + PAGE_SIZE, &mut space, &mut frames), Err(VMPoolError::NoSuchEntry));
    assert_eq!(pool.release(0, &mut space, &mut frames), Err(VMPoolError::NoSuchEntry));
    assert_eq!(pool.release(a + 1, &mut space, &mut frames), Err(VMPoolError::NoSuchEntry));
    assert!(pool.is_legitimate(a));
    assert_eq!(pool.release(a, &mut space, &mut frames), Ok(Vec::new()));
    assert_eq!(pool.release(a, &mut space, &mut frames), Err(VMPoolError::NoSuchEntry));
}

#[test]
fn release_returns_the_frames_of_the_committed_pages() {
    let mut pool = VMPool::default();
    let mut space = AddressSpace::new();
    let mut frames = frame_pools();
    let a = pool.allocate(4 * 4096).unwrap();
    let other = pool.allocate(4096).unwrap();
    let f0 = get_frame(&mut frames, false, false).unwrap();
    let f1 = get_frame(&mut frames, false, false).unwrap();
    let f2 = get_frame(&mut frames, false, false).unwrap();
    assert!(space.map_to(a + 2 * PAGE_SIZE, f0));
    assert!(space.map_to(a, f1));
    assert!(space.map_to(other, f2));
    assert_eq!(space.len(), 3);
    let released = pool.release(a, &mut space, &mut frames);
    assert_eq!(released, Ok(vec![a, a + 2 * PAGE_SIZE]));
    assert_eq!(space.frame_of(a), None);
    assert_eq!(space.frame_of(a + 2 * PAGE_SIZE), None);
    assert_eq!(space.frame_of(other), Some(f2));
    assert_eq!(space.len(), 1);
    let user = get_frame_pool(&frames, false).unwrap();
    assert!(user.is_free(256));
    assert!(user.is_free(257));
    assert!(!user.is_free(258));
}

#[test]
fn a_pool_may_lie_in_the_upper_half() {
    let mut pool = VMPool::default();
    pool.new(0xffff_8000_0000_0000, 0x2000);
    assert_eq!(pool.allocate(4096), Some(0xffff_8000_0000_0000));
    assert!(pool.is_legitimate(0xffff_8000_0000_0fff));
    assert!(!pool.is_legitimate(0xffff_8000_0000_1000));
    assert!(!pool.is_legitimate(0x7fff_ffff_ffff));
}

#[test]
fn ranges_never_overlap() {
    let mut pool = VMPool::default();
    let mut space = AddressSpace::new();
    let mut frames = frame_pools();
    let mut live: Vec<(u64, u64)> = Vec::new();
    for round in 0..60u64 {
        let size = (round % 5 + 1) * 3000;
        let addr = pool.allocate(size as usize).unwrap();
        let pages = (size + PAGE_SIZE - 1) / PAGE_SIZE;
        for &(start, end) in live.iter() {
            assert!(addr + pages * PAGE_SIZE <= start || end <= addr);
        }
        live.push((addr, addr + pages * PAGE_SIZE));
        if round % 3 == 2 {
            let (start, _) = live.remove((round as usize / 3) % live.len());
            assert!(pool.release(start, &mut space, &mut frames).is_ok());
        }
    }
}
