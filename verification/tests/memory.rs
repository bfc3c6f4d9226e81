use blog_os::machine::{KERNEL_PHY_START, KERNEL_SPACE, KERNEL_VIR_START, PAGE_SIZE};
use blog_os::memory::{
    free_frame, get_frame, get_frame_pool, init_frame_allocator, print_frame_map,
    transform_kernel_to_vir, FramePools, MemoryRegion, SeedError, SimpleFramePool, POOL_FRAMES,
};

fn usable(start_addr: u64, end_addr: u64) -> MemoryRegion {
    MemoryRegion { start_addr, end_addr, usable: true }
}

fn reserved(start_addr: u64, end_addr: u64) -> MemoryRegion {
    MemoryRegion { start_addr, end_addr, usable: false }
}

/// A memory map with 255 free kernel frames and 1024 free user frames.
fn boot_map() -> Vec<MemoryRegion> {
    vec![
        reserved(0, 0x10_0000),
        usable(0x30_0000, 0x40_0000),
        reserved(0x40_0000, 0x50_0000),
        usable(0x50_0000, 0x90_0000),
    ]
}

#[test]
fn mark_free_block_sets_the_bits_of_the_range() {
    assert_eq!(SimpleFramePool::mark_free_block(0b0000_0000, 2, 5), 0b0011_1000);
    assert_eq!(SimpleFramePool::mark_free_block(0b1000_0001, 0, 8), 0b1111_1111);
    assert_eq!(SimpleFramePool::mark_free_block(0b0000_0000, 7, 8), 0b0000_0001);
    assert_eq!(SimpleFramePool::mark_free_block(0b0000_0000, 0, 1), 0b1000_0000);
    assert_eq!(SimpleFramePool::mark_free_block(0b0100_0000, 3, 3), 0b0100_0000);
}

#[test]
fn mark_used_block_clears_the_bits_of_the_range() {
    assert_eq!(SimpleFramePool::mark_used_block(0b1111_1111, 2, 5), 0b1100_0111);
    assert_eq!(SimpleFramePool::mark_used_block(0b1111_1111, 0, 8), 0b0000_0000);
    assert_eq!(SimpleFramePool::mark_used_block(0b1111_1111, 0, 1), 0b0111_1111);
    assert_eq!(SimpleFramePool::mark_used_block(0b1010_1010, 8, 8), 0b1010_1010);
}

#[test]
fn first_free_block_counts_from_the_most_significant_bit() {
    assert_eq!(SimpleFramePool::get_first_free_block(0b1000_0000), 0);
    assert_eq!(SimpleFramePool::get_first_free_block(0b0001_0100), 3);
    assert_eq!(SimpleFramePool::get_first_free_block(0b0000_0001), 7);
    assert_eq!(SimpleFramePool::get_first_free_block(0), 8);
}

#[test]
fn a_block_is_full_when_no_bit_is_set() {
    assert!(SimpleFramePool::is_full_block(0));
    assert!(!SimpleFramePool::is_full_block(0b0000_0100));
    assert!(!SimpleFramePool::is_full_block(0b1111_1111));
}

#[test]
fn a_new_pool_has_no_free_frame() {
    let mut pool = SimpleFramePool::default();
    assert_eq!(pool.start_frame(), 0);
    assert!(pool.is_exhausted());
    pool.init(KERNEL_SPACE);
    assert_eq!(pool.start_frame(), KERNEL_SPACE);
    assert_eq!(pool.get_next(), None);
    assert!(pool.is_exhausted());
    assert_eq!(pool.find_free_frame(), None);
    assert_eq!(pool.print_frame_map(), vec![0u8; 15]);
}

#[test]
fn init_clears_the_bitmap_and_the_link() {
    let mut pool = SimpleFramePool::default();
    pool.mark_free(0, POOL_FRAMES);
    pool.set_next(7);
    assert_eq!(pool.get_next(), Some(7));
    pool.init(0x1000);
    assert_eq!(pool.get_next(), None);
    assert!(pool.is_exhausted());
}

#[test]
fn pool_hands_out_the_lowest_free_frame() {
    let mut pool = SimpleFramePool::default();
    pool.init(KERNEL_SPACE);
    pool.mark_free(3, 20);
    assert_eq!(pool.find_free_frame(), Some(KERNEL_SPACE + 3 * PAGE_SIZE));
    assert_eq!(pool.find_free_frame(), Some(KERNEL_SPACE + 4 * PAGE_SIZE));
    assert!(!pool.is_free(3));
    assert!(!pool.is_free(4));
    assert!(pool.is_free(5));
    assert!(!pool.is_free(20));
    assert!(!pool.is_free(POOL_FRAMES));
}

#[test]
fn a_pool_starts_at_the_address_it_is_given() {
    let mut pool = SimpleFramePool::default();
    pool.mark_free(0, 8);
    pool.set_next(1);
    pool.init(0x123_4000);
    assert_eq!(pool.start_frame(), 0x123_4000);
    assert_eq!(pool.get_next(), None);
    assert_eq!(pool.find_free_frame(), None);
    pool.mark_free(0, 2);
    assert_eq!(pool.find_free_frame(), Some(0x123_4000));
    assert_eq!(pool.find_free_frame(), Some(0x123_5000));
    assert_eq!(pool.find_free_frame(), None);
    pool.init(0);
    assert_eq!(pool.start_frame(), 0);
}

#[test]
fn marking_works_across_bytes() {
    let mut pool = SimpleFramePool::default();
    pool.mark_free(1245, 1262);
    let window = pool.print_frame_map();
    // bytes 155, 156 and 157 hold the frames 1240 to 1263
    assert_eq!(window[0], 0b0000_0111);
    assert_eq!(window[1], 0b1111_1111);
    assert_eq!(window[2], 0b1111_1100);
    assert_eq!(window[3], 0);
    pool.mark_used(1247, 1249);
    let window = pool.print_frame_map();
    assert_eq!(window[0], 0b0000_0110);
    assert_eq!(window[1], 0b0111_1111);
    assert!(pool.is_free(1246));
    assert!(!pool.is_free(1247));
    assert!(!pool.is_free(1248));
    assert!(pool.is_free(1249));
}

#[test]
fn an_empty_range_marks_nothing() {
    let mut pool = SimpleFramePool::default();
    pool.mark_free(9, 9);
    pool.mark_free(12, 4);
    assert!(pool.is_exhausted());
    pool.mark_free(0, POOL_FRAMES);
    pool.mark_used(100, 100);
    pool.mark_used(200, 100);
    assert!(pool.is_free(100));
    assert!(pool.is_free(150));
    assert!(pool.is_free(POOL_FRAMES - 1));
}

#[test]
fn marking_used_then_free_restores_the_bitmap() {
    let mut pool = SimpleFramePool::default();
    pool.mark_free(1240, 1300);
    let before = pool.print_frame_map();
    pool.mark_used(1243, 1271);
    assert_ne!(pool.print_frame_map(), before);
    pool.mark_free(1243, 1271);
    assert_eq!(pool.print_frame_map(), before);
}

#[test]
fn marking_free_then_used_restores_the_bitmap() {
    let mut pool = SimpleFramePool::default();
    pool.mark_free(1240, 1250);
    pool.mark_free(1290, 1300);
    let before = pool.print_frame_map();
    pool.mark_free(1255, 1283);
    assert_ne!(pool.print_frame_map(), before);
    pool.mark_used(1255, 1283);
    assert_eq!(pool.print_frame_map(), before);
}

#[test]
fn live_allocations_never_share_a_frame() {
    let mut pool = SimpleFramePool::default();
    pool.init(KERNEL_SPACE);
    pool.mark_free(0, 6);
    let a = pool.find_free_frame().unwrap();
    let b = pool.find_free_frame().unwrap();
    let c = pool.find_free_frame().unwrap();
    assert!(a != b && b != c && a != c);
    // b is given back and may be handed out again; a and c stay taken
    pool.mark_free(1, 2);
    let d = pool.find_free_frame().unwrap();
    assert_eq!(d, b);
    let e = pool.find_free_frame().unwrap();
    assert!(e != a && e != c && e != d);
}

#[test]
fn the_last_frame_of_a_pool_can_be_taken() {
    let mut pool = SimpleFramePool::default();
    pool.init(KERNEL_SPACE);
    pool.mark_free(POOL_FRAMES - 1, POOL_FRAMES);
    assert!(!pool.is_exhausted());
    assert_eq!(pool.find_free_frame(), Some(KERNEL_SPACE + (POOL_FRAMES - 1) * PAGE_SIZE));
    assert!(pool.is_exhausted());
}

#[test]
fn kernel_addresses_move_to_the_linear_mapping() {
    assert_eq!(transform_kernel_to_vir(KERNEL_PHY_START), KERNEL_VIR_START);
    assert_eq!(transform_kernel_to_vir(0x30_1000), 0x3ff0_1000);
}

#[test]
fn without_pools_no_frame_is_handed_out() {
    let mut pools = FramePools::default();
    assert_eq!(get_frame(&mut pools, true, true), None);
    assert_eq!(get_frame(&mut pools, false, false), None);
    assert!(!free_frame(&mut pools, KERNEL_SPACE));
    assert!(get_frame_pool(&pools, true).is_none());
    assert!(get_frame_pool(&pools, false).is_none());
    assert_eq!(print_frame_map(&pools), Vec::<u8>::new());
}

#[test]
fn the_memory_map_seeds_both_pools() {
    let pools = init_frame_allocator(&boot_map()).unwrap();
    let system = get_frame_pool(&pools, true).unwrap();
    assert_eq!(system.start_frame(), KERNEL_PHY_START);
    // the first frame of the range holds the pool itself
    assert!(!system.is_free(255));
    assert!(!system.is_free(256));
    // one frame went to the bitmap of the user pool
    assert!(!system.is_free(257));
    assert!(system.is_free(258));
    assert!(system.is_free(511));
    assert!(!system.is_free(512));
    assert_eq!(system.get_next(), Some(1));
    let user = get_frame_pool(&pools, false).unwrap();
    assert_eq!(user.start_frame(), KERNEL_SPACE);
    assert_eq!(user.get_next(), None);
    assert!(!user.is_free(255));
    assert!(user.is_free(256));
    assert!(user.is_free(1279));
    assert!(!user.is_free(1280));
}

#[test]
fn further_ranges_are_marked_free_in_the_pools_that_are_there() {
    let map = vec![
        usable(0x30_0000, 0x31_0000),
        usable(0x50_0000, 0x60_0000),
        usable(0x38_0000, 0x40_0000),
        usable(0x80_0000, 0x90_0000),
    ];
    let pools = init_frame_allocator(&map).unwrap();
    let system = get_frame_pool(&pools, true).unwrap();
    // the first kernel range: without its first frame, and one frame for
    // the bitmap of the user pool
    assert!(!system.is_free(256));
    assert!(!system.is_free(257));
    assert!(system.is_free(258));
    assert!(system.is_free(271));
    assert!(!system.is_free(272));
    // the second kernel range: every frame
    assert!(!system.is_free(383));
    assert!(system.is_free(384));
    assert!(system.is_free(511));
    assert!(!system.is_free(512));
    assert_eq!(system.get_next(), Some(1));
    let user = get_frame_pool(&pools, false).unwrap();
    assert_eq!(user.get_next(), None);
    assert!(!user.is_free(255));
    assert!(user.is_free(256));
    assert!(user.is_free(511));
    assert!(!user.is_free(512));
    assert!(!user.is_free(1023));
    assert!(user.is_free(1024));
    assert!(user.is_free(1279));
    assert!(!user.is_free(1280));
}

#[test]
fn a_further_user_range_takes_no_kernel_frame() {
    // the kernel range has room for the pool itself and one frame more
    let map = vec![
        usable(0x30_0000, 0x30_2000),
        usable(0x50_0000, 0x50_1000),
        usable(0x60_0000, 0x60_1000),
    ];
    let mut pools = init_frame_allocator(&map).unwrap();
    assert_eq!(get_frame(&mut pools, true, true), None);
    assert_eq!(get_frame(&mut pools, false, false), Some(0x50_0000));
    assert_eq!(get_frame(&mut pools, false, false), Some(0x60_0000));
    assert_eq!(get_frame(&mut pools, false, false), None);
}

#[test]
fn a_frame_above_the_kernel_is_not_returned_to_the_system_pool() {
    let mut pools = init_frame_allocator(&vec![usable(0x30_0000, 0x40_0000)]).unwrap();
    assert!(!free_frame(&mut pools, KERNEL_SPACE));
    assert!(!free_frame(&mut pools, 0x50_0000));
    assert!(free_frame(&mut pools, KERNEL_SPACE - 1));
    assert!(get_frame_pool(&pools, true).unwrap().is_free(511));
    assert!(free_frame(&mut pools, KERNEL_PHY_START));
    assert_eq!(get_frame(&mut pools, true, true), Some(KERNEL_PHY_START));
}

#[test]
fn ranges_that_are_not_usable_are_passed_over() {
    let pools = init_frame_allocator(&vec![reserved(0x30_0000, 0x40_0000)]).unwrap();
    assert!(get_frame_pool(&pools, true).is_none());
    let pools = init_frame_allocator(&Vec::new()).unwrap();
    assert!(get_frame_pool(&pools, false).is_none());
}

#[test]
fn a_kernel_range_below_the_kernel_is_refused() {
    let map = vec![usable(0x10_0000, 0x30_0000)];
    assert_eq!(init_frame_allocator(&map).err(), Some(SeedError::RegionBelowPool));
    let map = vec![usable(0x10_0000, 0x18_0000)];
    assert_eq!(init_frame_allocator(&map).err(), Some(SeedError::RegionBelowPool));
}

#[test]
fn a_user_range_that_starts_in_the_kernel_is_refused() {
    let map = vec![usable(0x20_0000, 0x40_0000), usable(0x3f_0000, 0x50_0000)];
    assert_eq!(init_frame_allocator(&map).err(), Some(SeedError::RegionBelowPool));
}

#[test]
fn a_user_range_beyond_the_pool_is_refused() {
    let end = KERNEL_SPACE + (POOL_FRAMES + 1) * PAGE_SIZE;
    let map = vec![usable(0x20_0000, 0x40_0000), usable(KERNEL_SPACE, end)];
    assert_eq!(init_frame_allocator(&map).err(), Some(SeedError::RegionBeyondPool));
    let map = vec![usable(0x20_0000, 0x40_0000), usable(KERNEL_SPACE, end - PAGE_SIZE)];
    assert!(init_frame_allocator(&map).is_ok());
}

#[test]
fn a_user_range_needs_a_kernel_frame() {
    let map = vec![usable(0x50_0000, 0x90_0000)];
    assert_eq!(init_frame_allocator(&map).err(), Some(SeedError::NoKernelFrame));
    // a kernel range of one frame has no frame left beside the pool itself
    let map = vec![usable(0x30_0000, 0x30_1000), usable(0x50_0000, 0x90_0000)];
    assert_eq!(init_frame_allocator(&map).err(), Some(SeedError::NoKernelFrame));
}

#[test]
fn an_error_stays_whatever_ranges_follow() {
    let map = vec![usable(0x50_0000, 0x90_0000), usable(0x30_0000, 0x40_0000)];
    assert_eq!(init_frame_allocator(&map).err(), Some(SeedError::NoKernelFrame));
}

#[test]
fn kernel_frames_come_raw_or_in_the_linear_mapping() {
    let mut pools = init_frame_allocator(&boot_map()).unwrap();
    assert_eq!(get_frame(&mut pools, true, true), Some(0x30_2000));
    assert_eq!(get_frame(&mut pools, true, false), Some(0x3ff0_3000));
    assert_eq!(get_frame(&mut pools, false, false), Some(0x50_0000));
    assert_eq!(get_frame(&mut pools, false, true), Some(0x50_1000));
}

#[test]
fn a_pool_that_is_used_up_hands_out_nothing() {
    let map = vec![usable(0x3f_c000, 0x40_0000), usable(0x50_0000, 0x50_2000)];
    let mut pools = init_frame_allocator(&map).unwrap();
    // three kernel frames were free; one holds the bitmap of the user pool
    assert_eq!(get_frame(&mut pools, true, true), Some(0x3f_e000));
    assert_eq!(get_frame(&mut pools, true, true), Some(0x3f_f000));
    assert_eq!(get_frame(&mut pools, true, true), None);
    assert_eq!(get_frame(&mut pools, false, false), Some(0x50_0000));
    assert_eq!(get_frame(&mut pools, false, false), Some(0x50_1000));
    assert_eq!(get_frame(&mut pools, false, false), None);
}

#[test]
fn a_freed_frame_goes_back_to_the_pool_that_holds_it() {
    let mut pools = init_frame_allocator(&boot_map()).unwrap();
    let user = get_frame(&mut pools, false, false).unwrap();
    let kernel = get_frame(&mut pools, true, true).unwrap();
    assert!(!get_frame_pool(&pools, false).unwrap().is_free(256));
    assert!(free_frame(&mut pools, user));
    assert!(get_frame_pool(&pools, false).unwrap().is_free(256));
    assert!(!get_frame_pool(&pools, true).unwrap().is_free(258));
    assert!(free_frame(&mut pools, kernel));
    assert!(get_frame_pool(&pools, true).unwrap().is_free(258));
    assert_eq!(get_frame(&mut pools, false, false), Some(user));
    assert_eq!(get_frame(&mut pools, true, true), Some(kernel));
}

#[test]
fn a_frame_is_found_by_any_address_in_it() {
    let mut pools = init_frame_allocator(&boot_map()).unwrap();
    let user = get_frame(&mut pools, false, false).unwrap();
    assert!(free_frame(&mut pools, user + 0x123));
    assert_eq!(get_frame(&mut pools, false, false), Some(user));
}

#[test]
fn an_address_that_no_pool_holds_is_not_freed() {
    let mut pools = init_frame_allocator(&boot_map()).unwrap();
    assert!(!free_frame(&mut pools, 0x10_0000));
    assert!(!free_frame(&mut pools, KERNEL_SPACE + POOL_FRAMES * PAGE_SIZE));
    assert!(!free_frame(&mut pools, u64::MAX));
    assert!(free_frame(&mut pools, KERNEL_SPACE + POOL_FRAMES * PAGE_SIZE - 1));
}

#[test]
fn frames_of_both_pools_never_coincide() {
    let mut pools = init_frame_allocator(&boot_map()).unwrap();
    let mut seen: Vec<u64> = Vec::new();
    for round in 0..40 {
        let kernel = round % 2 == 0;
        let frame = get_frame(&mut pools, kernel, true).unwrap();
        assert!(!seen.contains(&frame));
        assert_eq!(frame % PAGE_SIZE, 0);
        if kernel {
            assert!(KERNEL_PHY_START <= frame && frame < KERNEL_SPACE);
        } else {
            assert!(frame >= KERNEL_SPACE);
        }
        seen.push(frame);
    }
    // frames that went back may come again, frames that are out may not
    for &frame in seen.iter().take(10) {
        assert!(free_frame(&mut pools, frame));
    }
    for round in 0..20 {
        let frame = get_frame(&mut pools, round % 2 == 0, true).unwrap();
        assert!(!seen[10..].contains(&frame));
        seen.push(frame);
    }
}

#[test]
fn the_frame_map_shows_the_system_pool() {
    let map = vec![usable(0x20_0000, 0x40_0000)];
    let pools = init_frame_allocator(&map).unwrap();
    // frames 1 to 511 are free; the window starts at frame 1240
    assert_eq!(print_frame_map(&pools), vec![0u8; 15]);
    let system = get_frame_pool(&pools, true).unwrap();
    assert!(!system.is_free(0));
    assert!(system.is_free(1));
}
