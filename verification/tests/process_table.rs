use blog_os::machine::{HEAP_START, KERNEL_VIR_START, PAGE_SIZE};
use blog_os::memory::{
    free_frame, get_frame, get_frame_pool, init_frame_allocator, FramePools, MemoryRegion,
};
use blog_os::page_table::{PageEntry, PageTable, PRESENT, WRITABLE};
use blog_os::process_table::{
    get_curr_process_table, process_start, process_switch_to, set_curr_process_table,
    set_next_process, CpuState,
    MapRequest, MyProcess, ProcessTable, Registers, SavedContext, SwitchAction, Trampolines,
    INITIAL_IMAGE_BYTES, KERNEL_CODE_SELECTOR, SAVED_CONTEXT_BYTES, STACK_SIZE,
};
use blog_os::vm_pool::VMPoolError;

const START: u64 = 0x20_1000;
const END: u64 = 0x20_2000;
const ENTRY: u64 = 0x20_3000;

fn frame_pools() -> FramePools {
    let map = vec![
        MemoryRegion { start_addr: 0x30_0000, end_addr: 0x40_0000, usable: true },
        MemoryRegion { start_addr: 0x50_0000, end_addr: 0x90_0000, usable: true },
    ];
    init_frame_allocator(&map).unwrap()
}

fn boot_tables() -> (PageTable, PageTable) {
    let mut directory = PageTable::new();
    directory.set(0, PageEntry { addr: 0x1000, flags: PRESENT | WRITABLE });
    directory.set(3, PageEntry { addr: 0x7000, flags: PRESENT });
    directory.set(510, PageEntry { addr: 0x8000, flags: PRESENT | WRITABLE });
    directory.set(511, PageEntry { addr: 0x2000, flags: PRESENT | WRITABLE });
    let mut lower = PageTable::new();
    lower.set(0, PageEntry { addr: 0x3000, flags: PRESENT | WRITABLE });
    lower.set(1, PageEntry { addr: 0x4000, flags: PRESENT | WRITABLE });
    (directory, lower)
}

fn trampolines() -> Trampolines {
    Trampolines { start: START, end: END, code_segment: KERNEL_CODE_SELECTOR }
}

fn create(table: &mut ProcessTable, frames: &mut FramePools, entry: u64) -> Option<usize> {
    let (directory, lower) = boot_tables();
    MyProcess::new(table, frames, &directory, &lower, entry, &trampolines())
}

fn registers(seed: u64) -> Registers {
    Registers {
        rax: seed + 1,
        rbx: seed + 2,
        rcx: seed + 3,
        rdx: seed + 4,
        rsi: seed + 5,
        rdi: seed + 6,
        rbp: seed + 7,
        r8: seed + 8,
        r9: seed + 9,
        r10: seed + 10,
        r11: seed + 11,
        r12: seed + 12,
        r13: seed + 13,
        r14: seed + 14,
        r15: seed + 15,
    }
}

fn cpu(seed: u64) -> CpuState {
    CpuState {
        registers: registers(seed),
        rip: 0x20_0000 + seed,
        rflags: 0x200,
        rsp: HEAP_START + STACK_SIZE - 0x100 - seed,
    }
}

#[test]
fn a_saved_context_lies_in_memory_from_r15_to_the_stack_segment() {
    let context = SavedContext::suspended(&cpu(100));
    assert_eq!(context.cs, KERNEL_CODE_SELECTOR);
    assert_eq!(context.ss, 0);
    let image = context.image();
    assert_eq!(image.len() as u64 * 8, SAVED_CONTEXT_BYTES);
    assert_eq!(
        image,
        vec![
            115,
            114,
            113,
            112,
            111,
            110,
            109,
            108,
            107,
            106,
            105,
            104,
            103,
            102,
            101,
            0x20_0064,
            8,
            0x200,
            HEAP_START + STACK_SIZE - 0x100 - 100,
            0
        ]
    );
}

#[test]
fn a_saved_context_is_read_back_from_its_words() {
    let context = SavedContext::suspended(&cpu(31));
    assert_eq!(SavedContext::from_image(&context.image()), Some(context));
    assert_eq!(context.cpu(), cpu(31));
    let mut words = context.image();
    words[0] = 0xdead;
    words[16] = 0x10;
    let other = SavedContext::from_image(&words).unwrap();
    assert_eq!(other.registers.r15, 0xdead);
    assert_eq!(other.cs, 0x10);
    assert_eq!(other.registers.r14, context.registers.r14);
    words.push(0);
    assert_eq!(SavedContext::from_image(&words), None);
    assert_eq!(SavedContext::from_image(&Vec::new()), None);
}

#[test]
fn the_first_context_is_one_that_a_switch_could_have_left() {
    let top = HEAP_START + STACK_SIZE;
    let first = SavedContext::initial(top, KERNEL_CODE_SELECTOR, START);
    let left = SavedContext::suspended(&CpuState {
        registers: Registers::zero(),
        rip: START,
        rflags: 0,
        rsp: top - 16,
    });
    assert_eq!(first, left);
    assert_eq!(first.image(), left.image());
}

#[test]
fn a_new_table_has_no_process() {
    let table = ProcessTable::default();
    assert_eq!(table.len(), 0);
    assert_eq!(table.current(), None);
    assert_eq!(table.next_process(), None);
    assert!(get_curr_process_table(&table).is_none());
}

#[test]
fn process_ids_rise_from_one() {
    let mut table = ProcessTable::default();
    let mut frames = frame_pools();
    let mut last = 0;
    for expected in 0..20usize {
        let handle = create(&mut table, &mut frames, ENTRY).unwrap();
        assert_eq!(handle, expected);
        let id = table.get(handle).process_id();
        assert_eq!(id as usize, expected + 1);
        assert!(id > last);
        last = id;
    }
    assert_eq!(table.len(), 20);
}

#[test]
fn a_process_takes_four_kernel_frames() {
    let mut table = ProcessTable::default();
    let mut frames = frame_pools();
    assert!(get_frame_pool(&frames, true).unwrap().is_free(258));
    let handle = create(&mut table, &mut frames, ENTRY).unwrap();
    let system = get_frame_pool(&frames, true).unwrap();
    for k in 258..262 {
        assert!(!system.is_free(k));
    }
    assert!(system.is_free(262));
    let process = table.get(handle);
    assert_eq!(process.paging_root(), 0x30_3000);
    assert_eq!(process.page_directory().1, KERNEL_VIR_START + 0x10_3000);
    assert_eq!(process.lower_table().1, 0x30_4000);
    assert_eq!(get_frame(&mut frames, true, true), Some(0x30_6000));
}

#[test]
fn the_page_tables_of_a_process_share_the_kernel() {
    let mut table = ProcessTable::default();
    let mut frames = frame_pools();
    let handle = create(&mut table, &mut frames, ENTRY).unwrap();
    let process = table.get(handle);
    let (directory, _) = process.page_directory();
    assert_eq!(directory.get(0), PageEntry { addr: 0x30_4000, flags: PRESENT | WRITABLE });
    assert_eq!(directory.get(511), PageEntry { addr: 0x30_3000, flags: PRESENT | WRITABLE });
    assert_eq!(directory.get(3), PageEntry { addr: 0x7000, flags: PRESENT });
    assert_eq!(directory.get(510), PageEntry { addr: 0x8000, flags: PRESENT | WRITABLE });
    for i in 1..511 {
        if i != 3 && i != 510 {
            assert!(directory.get(i).is_unused());
        }
    }
    let (lower, _) = process.lower_table();
    assert_eq!(lower.get(0), PageEntry { addr: 0x3000, flags: PRESENT | WRITABLE });
    for i in 1..512 {
        assert!(lower.get(i).is_unused());
    }
}

#[test]
fn a_new_process_is_ready_to_be_switched_to() {
    let mut table = ProcessTable::default();
    let mut frames = frame_pools();
    let handle = create(&mut table, &mut frames, ENTRY).unwrap();
    let process = table.get(handle);
    let top = HEAP_START + STACK_SIZE;
    assert_eq!(process.saved_stack_pointer(), top - INITIAL_IMAGE_BYTES);
    assert!(!process.is_started());
    assert_eq!(process.get_next(), None);
    assert!(process.is_legitimate(HEAP_START));
    assert!(process.is_legitimate(top - 1));
    assert!(!process.is_legitimate(top));
    let context = process.saved_context();
    assert_eq!(context, SavedContext::initial(top, KERNEL_CODE_SELECTOR, START));
    assert_eq!(context.rsp, top - 16);
    assert_eq!(context.rip, START);
    let image = process.stack_image();
    assert_eq!(image.len() as u64 * 8, INITIAL_IMAGE_BYTES);
    let mut expected = vec![0u64; 15];
    expected.extend_from_slice(&[START, KERNEL_CODE_SELECTOR, 0, top - 16, 0, ENTRY, END]);
    assert_eq!(image, expected);
}

#[test]
fn without_four_kernel_frames_no_process_is_created() {
    let map = vec![
        MemoryRegion { start_addr: 0x3f_a000, end_addr: 0x40_0000, usable: true },
        MemoryRegion { start_addr: 0x50_0000, end_addr: 0x90_0000, usable: true },
    ];
    let mut frames = init_frame_allocator(&map).unwrap();
    let mut table = ProcessTable::default();
    // of the five free kernel frames one holds the bitmap of the user pool
    assert_eq!(create(&mut table, &mut frames, ENTRY), Some(0));
    assert_eq!(create(&mut table, &mut frames, ENTRY), None);
    assert_eq!(table.len(), 1);
    assert!(free_frame(&mut frames, 0x3f_c000));
    assert!(free_frame(&mut frames, 0x3f_d000));
    assert!(free_frame(&mut frames, 0x3f_e000));
    // three frames are taken and kept, the fourth is missing
    assert_eq!(create(&mut table, &mut frames, ENTRY), None);
    assert_eq!(get_frame(&mut frames, true, true), None);
    assert_eq!(table.len(), 1);
    // the next process gets the next id all the same
    for frame in [0x3f_c000, 0x3f_d000, 0x3f_e000, 0x3f_f000] {
        assert!(free_frame(&mut frames, frame));
    }
    assert_eq!(create(&mut table, &mut frames, ENTRY), Some(1));
    assert_eq!(table.get(1).process_id(), 2);
}

#[test]
fn a_fault_without_a_running_process_is_not_handled() {
    let mut table = ProcessTable::default();
    let mut frames = frame_pools();
    create(&mut table, &mut frames, ENTRY).unwrap();
    assert_eq!(MyProcess::handle_fault(&mut table, &mut frames, HEAP_START), None);
    assert_eq!(MyProcess::free_page(&mut table, &mut frames, HEAP_START), None);
    assert_eq!(get_frame(&mut frames, false, false), Some(0x50_0000));
}

#[test]
fn a_fault_in_a_reserved_range_commits_the_page() {
    let mut table = ProcessTable::default();
    let mut frames = frame_pools();
    let handle = create(&mut table, &mut frames, ENTRY).unwrap();
    assert_eq!(MyProcess::load_page_table(&mut table, handle), 0x30_3000);
    assert_eq!(table.current(), Some(handle));
    assert_eq!(table.paging_root(), 0x30_3000);
    let addr = HEAP_START + PAGE_SIZE + 0x123;
    let mapping = MyProcess::handle_fault(&mut table, &mut frames, addr);
    assert_eq!(
        mapping,
        Some(MapRequest { page: HEAP_START + PAGE_SIZE, frame: 0x50_0000, flags: 3 })
    );
    assert_eq!(table.get(handle).frame_of(HEAP_START + PAGE_SIZE), Some(0x50_0000));
    assert_eq!(table.get(handle).frame_of(HEAP_START), None);
    assert!(!get_frame_pool(&frames, false).unwrap().is_free(256));
}

#[test]
fn a_fault_outside_every_reserved_range_is_not_handled() {
    let mut table = ProcessTable::default();
    let mut frames = frame_pools();
    let handle = create(&mut table, &mut frames, ENTRY).unwrap();
    MyProcess::load_page_table(&mut table, handle);
    assert_eq!(MyProcess::handle_fault(&mut table, &mut frames, HEAP_START + STACK_SIZE), None);
    assert_eq!(MyProcess::handle_fault(&mut table, &mut frames, HEAP_START - 1), None);
    assert_eq!(MyProcess::handle_fault(&mut table, &mut frames, 0), None);
    assert_eq!(MyProcess::handle_fault(&mut table, &mut frames, 0xffff_ffff_ffff_f000), None);
    // no frame was taken
    assert_eq!(get_frame(&mut frames, false, false), Some(0x50_0000));
}

#[test]
fn a_fault_without_a_free_frame_is_not_handled() {
    let map = vec![
        MemoryRegion { start_addr: 0x30_0000, end_addr: 0x40_0000, usable: true },
        MemoryRegion { start_addr: 0x50_0000, end_addr: 0x50_1000, usable: true },
    ];
    let mut frames = init_frame_allocator(&map).unwrap();
    let mut table = ProcessTable::default();
    let handle = create(&mut table, &mut frames, ENTRY).unwrap();
    MyProcess::load_page_table(&mut table, handle);
    assert!(MyProcess::handle_fault(&mut table, &mut frames, HEAP_START).is_some());
    assert_eq!(MyProcess::handle_fault(&mut table, &mut frames, HEAP_START + PAGE_SIZE), None);
    assert_eq!(table.get(handle).frame_of(HEAP_START + PAGE_SIZE), None);
}

#[test]
fn a_fault_on_a_committed_page_is_not_handled_and_takes_no_frame() {
    let mut table = ProcessTable::default();
    let mut frames = frame_pools();
    let handle = create(&mut table, &mut frames, ENTRY).unwrap();
    MyProcess::load_page_table(&mut table, handle);
    assert!(MyProcess::handle_fault(&mut table, &mut frames, HEAP_START).is_some());
    assert_eq!(MyProcess::handle_fault(&mut table, &mut frames, HEAP_START + 8), None);
    assert_eq!(table.get(handle).frame_of(HEAP_START), Some(0x50_0000));
    assert!(get_frame_pool(&frames, false).unwrap().is_free(257));
    assert_eq!(get_frame(&mut frames, false, false), Some(0x50_1000));
}

#[test]
fn a_fault_is_handled_in_the_process_that_runs() {
    let mut table = ProcessTable::default();
    let mut frames = frame_pools();
    let first = create(&mut table, &mut frames, ENTRY).unwrap();
    let second = create(&mut table, &mut frames, ENTRY).unwrap();
    MyProcess::load_page_table(&mut table, second);
    assert!(MyProcess::handle_fault(&mut table, &mut frames, HEAP_START).is_some());
    assert_eq!(table.get(first).frame_of(HEAP_START), None);
    assert_eq!(table.get(second).frame_of(HEAP_START), Some(0x50_0000));
    assert!(get_curr_process_table(&table).unwrap().process_id() == 2);
}

#[test]
fn freeing_a_page_returns_the_frame_behind_it() {
    let mut table = ProcessTable::default();
    let mut frames = frame_pools();
    let handle = create(&mut table, &mut frames, ENTRY).unwrap();
    MyProcess::load_page_table(&mut table, handle);
    assert!(MyProcess::handle_fault(&mut table, &mut frames, HEAP_START + 0x10).is_some());
    assert_eq!(MyProcess::free_page(&mut table, &mut frames, HEAP_START + 0xff8), Some(HEAP_START));
    assert_eq!(table.get(handle).frame_of(HEAP_START), None);
    assert!(get_frame_pool(&frames, false).unwrap().is_free(256));
    assert_eq!(MyProcess::free_page(&mut table, &mut frames, HEAP_START), None);
    // an address that is not canonical lies in no page
    assert_eq!(MyProcess::free_page(&mut table, &mut frames, 0x8000_0000_0000), None);
    assert_eq!(MyProcess::free_page(&mut table, &mut frames, 0xffff_7fff_ffff_ffff), None);
}

#[test]
fn a_released_range_faults_again() {
    let mut table = ProcessTable::default();
    let mut frames = frame_pools();
    let handle = create(&mut table, &mut frames, ENTRY).unwrap();
    MyProcess::load_page_table(&mut table, handle);
    // room for 10000 elements of 8 bytes
    let addr = table.allocate(handle, 10000 * 8).unwrap();
    assert_eq!(addr, HEAP_START + STACK_SIZE);
    // every thousandth element is written; each write faults one page in
    let mut pages: Vec<u64> = Vec::new();
    for i in 0..10u64 {
        let element = addr + i * 1000 * 8;
        let page = element - element % PAGE_SIZE;
        assert_eq!(table.get(handle).frame_of(page), None);
        let mapping = MyProcess::handle_fault(&mut table, &mut frames, element).unwrap();
        assert_eq!(mapping.page, page);
        assert_eq!(mapping.frame, 0x50_0000 + i * PAGE_SIZE);
        pages.push(page);
    }
    for (i, page) in pages.iter().enumerate() {
        assert_eq!(table.get(handle).frame_of(*page), Some(0x50_0000 + i as u64 * PAGE_SIZE));
    }
    assert_eq!(table.release(handle, addr, &mut frames), Ok(pages.clone()));
    // the mappings are revoked, the frames are free, and a write to the
    // base address faults without remedy
    for page in pages.iter() {
        assert_eq!(table.get(handle).frame_of(*page), None);
    }
    for k in 256..266 {
        assert!(get_frame_pool(&frames, false).unwrap().is_free(k));
    }
    assert!(!table.get(handle).is_legitimate(addr));
    assert_eq!(MyProcess::handle_fault(&mut table, &mut frames, addr), None);
    assert_eq!(table.get(handle).frame_of(addr), None);
    // the stack is still there
    assert!(table.get(handle).is_legitimate(HEAP_START));
    assert_eq!(table.release(handle, addr, &mut frames), Err(VMPoolError::NoSuchEntry));
}

#[test]
fn ranges_are_reserved_through_the_table() {
    let mut table = ProcessTable::default();
    let mut frames = frame_pools();
    let handle = create(&mut table, &mut frames, ENTRY).unwrap();
    assert_eq!(table.allocate(handle, 1), Some(HEAP_START + STACK_SIZE));
    assert_eq!(table.allocate(handle, usize::MAX), None);
    assert!(table.get(handle).is_legitimate(HEAP_START + STACK_SIZE));
    assert!(!table.get(handle).is_legitimate(HEAP_START + STACK_SIZE + PAGE_SIZE));
}

#[test]
fn the_pool_of_a_process_can_be_borrowed() {
    let mut table = ProcessTable::default();
    let mut frames = frame_pools();
    let first = create(&mut table, &mut frames, ENTRY).unwrap();
    let second = create(&mut table, &mut frames, ENTRY).unwrap();
    let pool = table.get_mut(second).get_vm_ref();
    assert!(pool.is_legitimate(HEAP_START));
    assert_eq!(pool.allocate(3 * 4096), Some(HEAP_START + STACK_SIZE));
    assert!(table.get(second).is_legitimate(HEAP_START + STACK_SIZE + 2 * PAGE_SIZE));
    assert!(!table.get(first).is_legitimate(HEAP_START + STACK_SIZE));
    assert_eq!(table.get_mut(second).allocate(1), Some(HEAP_START + STACK_SIZE + 3 * PAGE_SIZE));
    table.get_mut(first).set_next(Some(second));
    assert_eq!(table.get(first).get_next(), Some(second));
}

#[test]
fn a_switch_without_a_target_does_nothing() {
    let mut table = ProcessTable::default();
    let mut frames = frame_pools();
    let handle = create(&mut table, &mut frames, ENTRY).unwrap();
    assert_eq!(process_switch_to(&mut table, &cpu(0)), None);
    assert_eq!(table.current(), None);
    MyProcess::load_page_table(&mut table, handle);
    let before = table.get(handle).saved_context();
    assert_eq!(process_switch_to(&mut table, &cpu(0)), None);
    assert_eq!(table.current(), Some(handle));
    assert_eq!(table.get(handle).saved_context(), before);
}

#[test]
fn the_running_process_can_be_set_and_cleared() {
    let mut table = ProcessTable::default();
    let mut frames = frame_pools();
    let first = create(&mut table, &mut frames, ENTRY).unwrap();
    let second = create(&mut table, &mut frames, ENTRY).unwrap();
    MyProcess::load_page_table(&mut table, first);
    set_next_process(&mut table, second);
    let root = table.paging_root();
    set_curr_process_table(&mut table, Some(second));
    assert_eq!(table.current(), Some(second));
    assert_eq!(table.paging_root(), root);
    assert_eq!(table.next_process(), Some(second));
    set_curr_process_table(&mut table, None);
    assert_eq!(table.current(), None);
    assert!(get_curr_process_table(&table).is_none());
    assert_eq!(table.paging_root(), root);
    assert_eq!(table.next_process(), Some(second));
}

#[test]
fn a_stack_written_before_any_process_ran_leaves_the_first_context() {
    let mut table = ProcessTable::default();
    let mut frames = frame_pools();
    let handle = create(&mut table, &mut frames, ENTRY).unwrap();
    let first = table.get(handle).saved_context();
    // the process runs while its stack is written, then none does again
    let before = table.current();
    set_curr_process_table(&mut table, Some(handle));
    assert!(MyProcess::handle_fault(&mut table, &mut frames, HEAP_START + STACK_SIZE - 8).is_some());
    set_curr_process_table(&mut table, before);
    assert_eq!(table.current(), None);
    // the first switch saves nothing over the first context
    set_next_process(&mut table, handle);
    let action = process_switch_to(&mut table, &cpu(3)).unwrap();
    assert_eq!(action.context, first);
    assert_eq!(table.get(handle).saved_context(), first);
}

#[test]
fn the_first_switch_starts_a_process() {
    let mut table = ProcessTable::default();
    let mut frames = frame_pools();
    let handle = create(&mut table, &mut frames, ENTRY).unwrap();
    set_next_process(&mut table, handle);
    assert_eq!(table.next_process(), Some(handle));
    let action = process_switch_to(&mut table, &cpu(0)).unwrap();
    let top = HEAP_START + STACK_SIZE;
    assert_eq!(
        action,
        SwitchAction {
            esp: top - INITIAL_IMAGE_BYTES,
            paging_root: 0x30_3000,
            context: SavedContext::initial(top, KERNEL_CODE_SELECTOR, START),
        }
    );
    assert_eq!(table.current(), Some(handle));
    assert_eq!(table.paging_root(), 0x30_3000);
    assert!(!table.get(handle).is_started());
    process_start(&mut table);
    assert!(table.get(handle).is_started());
    assert!(get_curr_process_table(&table).unwrap().is_started());
}

#[test]
fn two_processes_switch_to_each_other() {
    let mut table = ProcessTable::default();
    let mut frames = frame_pools();
    let first = create(&mut table, &mut frames, ENTRY).unwrap();
    let second = create(&mut table, &mut frames, ENTRY + 0x100).unwrap();
    let mut runs: Vec<usize> = Vec::new();
    // the kernel starts the first process
    set_next_process(&mut table, first);
    let action = process_switch_to(&mut table, &cpu(0)).unwrap();
    assert_eq!(action.paging_root, table.get(first).paging_root());
    runs.push(table.current().unwrap());
    // the first process hands over to the second
    let left_by_first = cpu(1);
    set_next_process(&mut table, second);
    let action = process_switch_to(&mut table, &left_by_first).unwrap();
    assert_eq!(action.context, SavedContext::initial(HEAP_START + STACK_SIZE, 8, START));
    assert_eq!(action.paging_root, table.get(second).paging_root());
    runs.push(table.current().unwrap());
    // the second process hands back, and the first goes on where it left
    let left_by_second = cpu(2);
    set_next_process(&mut table, first);
    let action = process_switch_to(&mut table, &left_by_second).unwrap();
    runs.push(table.current().unwrap());
    assert_eq!(runs, vec![first, second, first]);
    assert_eq!(action.context, SavedContext::suspended(&left_by_first));
    assert_eq!(action.esp, left_by_first.rsp - SAVED_CONTEXT_BYTES);
    assert_eq!(action.paging_root, table.get(first).paging_root());
    assert_eq!(table.get(second).saved_context(), SavedContext::suspended(&left_by_second));
    assert_eq!(table.get(second).saved_stack_pointer(), left_by_second.rsp - SAVED_CONTEXT_BYTES);
    assert_eq!(table.paging_root(), table.get(first).paging_root());
}

#[test]
fn a_process_may_switch_to_itself() {
    let mut table = ProcessTable::default();
    let mut frames = frame_pools();
    let handle = create(&mut table, &mut frames, ENTRY).unwrap();
    MyProcess::load_page_table(&mut table, handle);
    set_next_process(&mut table, handle);
    let state = cpu(7);
    let action = process_switch_to(&mut table, &state).unwrap();
    assert_eq!(action.context, SavedContext::suspended(&state));
    assert_eq!(action.esp, state.rsp - SAVED_CONTEXT_BYTES);
    assert_eq!(table.current(), Some(handle));
}

#[test]
fn links_are_kept_by_the_table() {
    let mut table = ProcessTable::default();
    let mut frames = frame_pools();
    let first = create(&mut table, &mut frames, ENTRY).unwrap();
    let second = create(&mut table, &mut frames, ENTRY).unwrap();
    table.set_link(first, Some(second));
    assert_eq!(table.get(first).get_next(), Some(second));
    assert_eq!(table.get(second).get_next(), None);
    table.set_link(first, None);
    assert_eq!(table.get(first).get_next(), None);
}
