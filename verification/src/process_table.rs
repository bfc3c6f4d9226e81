use vstd::prelude::*;
use crate::addr::{is_canonical, page_base, page_containing};
use crate::machine::{
    HEAP_SIZE, HEAP_START, KERNEL_PHY_START, KERNEL_VIR_START, PAGE_OFFSET_BITS, PAGE_SIZE,
};
use crate::memory::{lemma_take_frame, transform_kernel_to_vir, FramePools, FramePoolsView};
use crate::page_table::{
    AddressSpace, PageEntry, PageTable, PRESENT, RECURSIVE_SLOT, TABLE_ENTRIES, WRITABLE,
};
use crate::vm_pool::{
    committed_span, free_span, unmap_span, VMPool, VMPoolError, VMPoolView, POOL_ENTRIES,
};

verus! {

/// Size in bytes of the stack that a new process gets.
pub const STACK_SIZE: u64 = 8192;

/// Selector of the kernel's code segment, which a suspended process
/// resumes in.
pub const KERNEL_CODE_SELECTOR: u64 = 0x8;

/// Number of bytes that a saved context takes on a stack: fifteen general
/// registers and the five words of an interrupt return frame.
pub const SAVED_CONTEXT_BYTES: u64 = 160;

/// Number of bytes that the first stack image of a process takes: a saved
/// context, the address of the entry function and the address of the final
/// trampoline.
pub const INITIAL_IMAGE_BYTES: u64 = 176;

/// The general registers, but for the stack pointer.
#[derive(Clone, Copy, Debug, PartialEq, Eq, Structural)]
pub struct Registers {
    pub rax: u64,
    pub rbx: u64,
    pub rcx: u64,
    pub rdx: u64,
    pub rsi: u64,
    pub rdi: u64,
    pub rbp: u64,
    pub r8: u64,
    pub r9: u64,
    pub r10: u64,
    pub r11: u64,
    pub r12: u64,
    pub r13: u64,
    pub r14: u64,
    pub r15: u64,
}

impl Registers {
    /// Registers that all hold zero.
    pub open spec fn zeroed() -> Registers {
        Registers {
            rax: 0,
            rbx: 0,
            rcx: 0,
            rdx: 0,
            rsi: 0,
            rdi: 0,
            rbp: 0,
            r8: 0,
            r9: 0,
            r10: 0,
            r11: 0,
            r12: 0,
            r13: 0,
            r14: 0,
            r15: 0,
        }
    }

    /// Registers that all hold zero.
    pub fn zero() -> (registers: Registers)
        ensures
            registers == Registers::zeroed(),
    {
        Registers {
            rax: 0,
            rbx: 0,
            rcx: 0,
            rdx: 0,
            rsi: 0,
            rdi: 0,
            rbp: 0,
            r8: 0,
            r9: 0,
            r10: 0,
            r11: 0,
            r12: 0,
            r13: 0,
            r14: 0,
            r15: 0,
        }
    }
}

/// What the processor holds at the moment a process gives it up: the
/// general registers, the address at which the process goes on, the flags,
/// and the stack pointer that the process goes on with.
#[derive(Clone, Copy, Debug, PartialEq, Eq, Structural)]
pub struct CpuState {
    pub registers: Registers,
    pub rip: u64,
    pub rflags: u64,
    pub rsp: u64,
}

/// The record from which a process is resumed: the general registers and an
/// interrupt return frame. A process that never ran and a process that gave
/// up the processor are resumed from records of this one type.
#[derive(Clone, Copy, Debug, PartialEq, Eq, Structural)]
pub struct SavedContext {
    pub registers: Registers,
    pub rip: u64,
    pub cs: u64,
    pub rflags: u64,
    pub rsp: u64,
    pub ss: u64,
}

impl SavedContext {
    /// The record for a process that has not run yet: it starts at `start`
    /// in the code segment `code_segment`, with cleared registers and
    /// flags, on a stack whose two top words, at `stack_top - 16` and
    /// above, are still to be returned through.
    pub open spec fn first(stack_top: u64, code_segment: u64, start: u64) -> SavedContext {
        SavedContext {
            registers: Registers::zeroed(),
            rip: start,
            cs: code_segment,
            rflags: 0,
            rsp: (stack_top - 16) as u64,
            ss: 0,
        }
    }

    /// The record for a process that gives up the processor in the state
    /// `cpu`.
    pub open spec fn of_cpu(cpu: CpuState) -> SavedContext {
        SavedContext {
            registers: cpu.registers,
            rip: cpu.rip,
            cs: KERNEL_CODE_SELECTOR,
            rflags: cpu.rflags,
            rsp: cpu.rsp,
            ss: 0,
        }
    }

    /// The record as it lies in memory, lowest address first: the general
    /// registers from `r15` to `rax`, then the instruction pointer, the
    /// code segment, the flags, the stack pointer and the stack segment.
    pub open spec fn words(self) -> Seq<u64> {
        seq![
            self.registers.r15,
            self.registers.r14,
            self.registers.r13,
            self.registers.r12,
            self.registers.r11,
            self.registers.r10,
            self.registers.r9,
            self.registers.r8,
            self.registers.rbp,
            self.registers.rdi,
            self.registers.rsi,
            self.registers.rdx,
            self.registers.rcx,
            self.registers.rbx,
            self.registers.rax,
            self.rip,
            self.cs,
            self.rflags,
            self.rsp,
            self.ss,
        ]
    }

    /// The record for a process that has not run yet.
    pub fn initial(stack_top: u64, code_segment: u64, start: u64) -> (context: SavedContext)
        requires
            stack_top >= 16,
        ensures
            context == SavedContext::first(stack_top, code_segment, start),
    {
        SavedContext {
            registers: Registers::zero(),
            rip: start,
            cs: code_segment,
            rflags: 0,
            rsp: stack_top - 16,
            ss: 0,
        }
    }

    /// The record for a process that gives up the processor in the state
    /// `cpu`.
    pub fn suspended(cpu: &CpuState) -> (context: SavedContext)
        ensures
            context == SavedContext::of_cpu(*cpu),
    {
        SavedContext {
            registers: cpu.registers,
            rip: cpu.rip,
            cs: KERNEL_CODE_SELECTOR,
            rflags: cpu.rflags,
            rsp: cpu.rsp,
            ss: 0,
        }
    }

    /// The processor state that a process resumed from the record goes on
    /// in.
    pub open spec fn resumed(self) -> CpuState {
        CpuState { registers: self.registers, rip: self.rip, rflags: self.rflags, rsp: self.rsp }
    }

    /// The processor state that a process resumed from the record goes on
    /// in.
    pub fn cpu(&self) -> (cpu: CpuState)
        ensures
            cpu == self.resumed(),
    {
        CpuState { registers: self.registers, rip: self.rip, rflags: self.rflags, rsp: self.rsp }
    }

    /// The record that lies in memory as the twenty words `image`, lowest
    /// address first; `None` for any other number of words.
    pub fn from_image(image: &Vec<u64>) -> (context: Option<SavedContext>)
        ensures
            context is Some == (image@.len() == 20),
            context matches Some(c) ==> c.words() == image@,
    {
        if image.len() != 20 {
            return None;
        }
        let context = SavedContext {
            registers: Registers {
                r15: image[0],
                r14: image[1],
                r13: image[2],
                r12: image[3],
                r11: image[4],
                r10: image[5],
                r9: image[6],
                r8: image[7],
                rbp: image[8],
                rdi: image[9],
                rsi: image[10],
                rdx: image[11],
                rcx: image[12],
                rbx: image[13],
                rax: image[14],
            },
            rip: image[15],
            cs: image[16],
            rflags: image[17],
            rsp: image[18],
            ss: image[19],
        };
        assert(context.words() =~= image@);
        Some(context)
    }

    /// The record as it lies in memory, lowest address first.
    pub fn image(&self) -> (image: Vec<u64>)
        ensures
            image@ == self.words(),
    {
        let mut image: Vec<u64> = Vec::new();
        image.push(self.registers.r15);
        image.push(self.registers.r14);
        image.push(self.registers.r13);
        image.push(self.registers.r12);
        image.push(self.registers.r11);
        image.push(self.registers.r10);
        image.push(self.registers.r9);
        image.push(self.registers.r8);
        image.push(self.registers.rbp);
        image.push(self.registers.rdi);
        image.push(self.registers.rsi);
        image.push(self.registers.rdx);
        image.push(self.registers.rcx);
        image.push(self.registers.rbx);
        image.push(self.registers.rax);
        image.push(self.rip);
        image.push(self.cs);
        image.push(self.rflags);
        image.push(self.rsp);
        image.push(self.ss);
        assert(image@ =~= self.words());
        image
    }
}

/// The record that a new process is first resumed from is the record that
/// a process leaves which gives up the processor with cleared registers and
/// flags, at its start routine, in the kernel's code segment.
pub proof fn lemma_first_context_is_a_suspended_one(stack_top: u64, start: u64)
    requires
        stack_top >= 16,
    ensures
        SavedContext::first(stack_top, KERNEL_CODE_SELECTOR, start) == SavedContext::of_cpu(
            CpuState {
                registers: Registers::zeroed(),
                rip: start,
                rflags: 0,
                rsp: (stack_top - 16) as u64,
            },
        ),
{
}

/// A record is found again in the words that it lies in memory as.
pub proof fn lemma_words_determine_context(a: SavedContext, b: SavedContext)
    requires
        a.words() == b.words(),
    ensures
        a == b,
{
    assert(a.words()[0] == b.words()[0]);
    assert(a.words()[1] == b.words()[1]);
    assert(a.words()[2] == b.words()[2]);
    assert(a.words()[3] == b.words()[3]);
    assert(a.words()[4] == b.words()[4]);
    assert(a.words()[5] == b.words()[5]);
    assert(a.words()[6] == b.words()[6]);
    assert(a.words()[7] == b.words()[7]);
    assert(a.words()[8] == b.words()[8]);
    assert(a.words()[9] == b.words()[9]);
    assert(a.words()[10] == b.words()[10]);
    assert(a.words()[11] == b.words()[11]);
    assert(a.words()[12] == b.words()[12]);
    assert(a.words()[13] == b.words()[13]);
    assert(a.words()[14] == b.words()[14]);
    assert(a.words()[15] == b.words()[15]);
    assert(a.words()[16] == b.words()[16]);
    assert(a.words()[17] == b.words()[17]);
    assert(a.words()[18] == b.words()[18]);
    assert(a.words()[19] == b.words()[19]);
}

/// The addresses that every process starts and ends through, and the code
/// segment that it starts in.
#[derive(Clone, Copy, Debug, PartialEq, Eq, Structural)]
pub struct Trampolines {
    /// Address of the routine that a process starts in; it returns into
    /// the entry function.
    pub start: u64,
    /// Address of the routine that the entry function returns into; it
    /// halts for ever.
    pub end: u64,
    /// Selector of the code segment.
    pub code_segment: u64,
}

/// What the processor is to be loaded with to go on in another process.
#[derive(Clone, Copy, Debug, PartialEq, Eq, Structural)]
pub struct SwitchAction {
    /// The stack pointer, which points at the saved context.
    pub esp: u64,
    /// Physical address of the top-level page table.
    pub paging_root: u64,
    /// The saved context that lies at `esp`.
    pub context: SavedContext,
}

/// A page to be entered into the page tables: the page, the frame behind it
/// and the flags of the entry.
#[derive(Clone, Copy, Debug, PartialEq, Eq, Structural)]
pub struct MapRequest {
    pub page: u64,
    pub frame: u64,
    pub flags: u64,
}

/// The top-level page table of a process: slot 0 leads to the process's own
/// lower table, slot 511 to the table itself, and every slot between holds
/// what the kernel's table holds there.
pub open spec fn process_directory(
    boot: Seq<PageEntry>,
    lower_phy: u64,
    pg_dir_phy: u64,
) -> Seq<PageEntry> {
    Seq::new(
        TABLE_ENTRIES as nat,
        |i: int|
            if i == 0 {
                PageEntry { addr: lower_phy, flags: PRESENT | WRITABLE }
            } else if i == RECURSIVE_SLOT {
                PageEntry { addr: pg_dir_phy, flags: PRESENT | WRITABLE }
            } else {
                boot[i]
            },
    )
}

/// The lower table of a process: slot 0 holds what the kernel's lower table
/// holds there, which maps the kernel, and every other slot is unused.
pub open spec fn process_lower(boot: Seq<PageEntry>) -> Seq<PageEntry> {
    Seq::new(
        TABLE_ENTRIES as nat,
        |i: int|
            if i == 0 {
                boot[0]
            } else {
                PageEntry::unused()
            },
    )
}

/// What a process control block holds, as plain values.
pub struct ProcessView {
    /// The stack pointer to resume with; it points at the saved context.
    pub esp: u64,
    /// Physical address of the top-level page table.
    pub pg_dir_phy: u64,
    /// Address of the top-level page table in the kernel's linear mapping.
    pub page_directory: u64,
    /// Physical address of the lower page table.
    pub lower_phy: u64,
    /// The process id.
    pub process_id: u16,
    /// Size in bytes of the stack.
    pub stack_size: u64,
    /// Whether the process has run.
    pub started: bool,
    /// Whether the process has ended.
    pub terminated: bool,
    /// The reserved ranges of the process.
    pub vm_pool: VMPoolView,
    /// Handle of the process that follows in a list.
    pub next: Option<usize>,
    /// The committed pages of the process.
    pub space: Map<u64, u64>,
    /// The record that the process is resumed from.
    pub context: SavedContext,
    /// Address of the function that the process runs.
    pub entry: u64,
    /// Address that the function returns to.
    pub exit: u64,
    /// The top-level page table.
    pub directory: Seq<PageEntry>,
    /// The lower page table.
    pub lower: Seq<PageEntry>,
}

impl ProcessView {
    /// The first stack image of the process, lowest address first: the
    /// saved context, the address of the entry function and the address
    /// that the function returns to.
    pub open spec fn stack_image(self) -> Seq<u64> {
        self.context.words().push(self.entry).push(self.exit)
    }

    /// The process with id `process_id` as it is created: its tables lie
    /// in the frames at `pg_dir_phy` and `lower_phy`, its stack is the
    /// first range of its pool, and it is resumed at the start trampoline.
    pub open spec fn created(
        process_id: u16,
        pg_dir_phy: u64,
        lower_phy: u64,
        boot_directory: Seq<PageEntry>,
        boot_lower: Seq<PageEntry>,
        entry: u64,
        trampolines: Trampolines,
    ) -> ProcessView {
        let stack_top = (HEAP_START + STACK_SIZE) as u64;
        ProcessView {
            esp: (stack_top - INITIAL_IMAGE_BYTES) as u64,
            pg_dir_phy,
            page_directory: (pg_dir_phy - KERNEL_PHY_START + KERNEL_VIR_START) as u64,
            lower_phy,
            process_id,
            stack_size: STACK_SIZE,
            started: false,
            terminated: false,
            vm_pool: VMPoolView::empty(HEAP_START, HEAP_SIZE >> PAGE_OFFSET_BITS).allocate(
                STACK_SIZE as int,
            ),
            next: None,
            space: Map::empty(),
            context: SavedContext::first(stack_top, trampolines.code_segment, trampolines.start),
            entry,
            exit: trampolines.end,
            directory: process_directory(boot_directory, lower_phy, pg_dir_phy),
            lower: process_lower(boot_lower),
        }
    }
}

/// A process control block: the saved stack pointer and context, the page
/// tables, the reserved ranges and committed pages, the process id and the
/// link to the process that follows in a list.
pub struct MyProcess {
    esp: u64,
    pg_dir_phy: u64,
    page_directory: u64,
    lower_phy: u64,
    process_id: u16,
    stack_size: u64,
    started: bool,
    terminated: bool,
    vm_pool: VMPool,
    next: Option<usize>,
    space: AddressSpace,
    context: SavedContext,
    entry: u64,
    exit: u64,
    directory: PageTable,
    lower: PageTable,
}

impl View for MyProcess {
    type V = ProcessView;

    closed spec fn view(&self) -> ProcessView {
        ProcessView {
            esp: self.esp,
            pg_dir_phy: self.pg_dir_phy,
            page_directory: self.page_directory,
            lower_phy: self.lower_phy,
            process_id: self.process_id,
            stack_size: self.stack_size,
            started: self.started,
            terminated: self.terminated,
            vm_pool: self.vm_pool@,
            next: self.next,
            space: self.space@,
            context: self.context,
            entry: self.entry,
            exit: self.exit,
            directory: self.directory@,
            lower: self.lower@,
        }
    }
}

impl MyProcess {
    /// No page of the process has two frames, and its pool is valid.
    pub closed spec fn wf(&self) -> bool {
        self.space.wf() && self.vm_pool@.wf()
    }

    /// Fills the two page tables of a process whose top-level table lies
    /// at `pg_dir_phy` and whose lower table lies at `lower_phy`.
    fn construct_page_table(
        boot_directory: &PageTable,
        boot_lower: &PageTable,
        pg_dir_phy: u64,
        lower_phy: u64,
    ) -> (tables: (PageTable, PageTable))
        ensures
            tables.0@ == process_directory(boot_directory@, lower_phy, pg_dir_phy),
            tables.1@ == process_lower(boot_lower@),
    {
        proof {
            boot_directory.lemma_len();
            boot_lower.lemma_len();
        }
        let mut dest_table = PageTable::new();
        dest_table.zero();
        dest_table.set(0, PageEntry { addr: lower_phy, flags: PRESENT | WRITABLE });
        dest_table.set(511, PageEntry { addr: pg_dir_phy, flags: PRESENT | WRITABLE });
        let mut i: usize = 1;
        while i < 511
            invariant
                1 <= i <= 511,
                boot_directory@.len() == TABLE_ENTRIES,
                dest_table@.len() == TABLE_ENTRIES,
                dest_table@[0] == (PageEntry { addr: lower_phy, flags: PRESENT | WRITABLE }),
                dest_table@[511] == (PageEntry { addr: pg_dir_phy, flags: PRESENT | WRITABLE }),
                forall|j: int| 1 <= j < i ==> dest_table@[j] == boot_directory@[j],
                forall|j: int| i <= j < 511 ==> dest_table@[j] == PageEntry::unused(),
            decreases 511 - i,
        {
            let source: PageEntry = boot_directory.get(i);
            if !source.is_unused() {
                dest_table.set(i, source);
            }
            i += 1;
        }
        let mut dest_table1 = PageTable::new();
        dest_table1.zero();
        dest_table1.set(0, boot_lower.get(0));
        proof {
            assert(dest_table@ =~= process_directory(boot_directory@, lower_phy, pg_dir_phy));
            assert(dest_table1@ =~= process_lower(boot_lower@));
        }
        (dest_table, dest_table1)
    }

    /// Reserves the stack of a new process in `vm_pool` and returns the
    /// stack pointer and the saved context that the process is first
    /// resumed with; `None` where the stack cannot be reserved.
    fn construct_stack(vm_pool: &mut VMPool, trampolines: &Trampolines, _stack_size: u64) -> (stack:
        Option<(u64, SavedContext)>)
        requires
            INITIAL_IMAGE_BYTES <= _stack_size <= usize::MAX,
        ensures
            final(vm_pool)@.wf(),
            stack is Some == old(vm_pool)@.can_allocate(_stack_size as int),
            final(vm_pool)@ == if old(vm_pool)@.can_allocate(_stack_size as int) {
                old(vm_pool)@.allocate(_stack_size as int)
            } else {
                old(vm_pool)@
            },
            stack matches Some((esp, context)) ==> {
                let stack_top = (old(vm_pool)@.candidate() + _stack_size) as u64;
                &&& old(vm_pool)@.candidate() + _stack_size <= u64::MAX
                &&& esp == stack_top - INITIAL_IMAGE_BYTES
                &&& context == SavedContext::first(
                    stack_top,
                    trampolines.code_segment,
                    trampolines.start,
                )
            },
    {
        let stack_frame: Option<u64> = vm_pool.allocate(_stack_size as usize);
        match stack_frame {
            None => None,
            Some(base) => {
                proof {
                    let pool = old(vm_pool)@;
                    assert(_stack_size <= crate::vm_pool::pages_for(_stack_size as int)
                        * PAGE_SIZE);
                    assert(pool.end_addr() <= u64::MAX);
                    crate::vm_pool::lemma_high_water(
                        pool.base as int,
                        pool.entries,
                        pool.entries.len() as int,
                    );
                }
                let stack_top: u64 = base + _stack_size;
                let context = SavedContext::initial(
                    stack_top,
                    trampolines.code_segment,
                    trampolines.start,
                );
                Some((stack_top - INITIAL_IMAGE_BYTES, context))
            },
        }
    }

    /// The process id.
    pub fn process_id(&self) -> (id: u16)
        ensures
            id == self@.process_id,
    {
        self.process_id
    }

    /// The stack pointer that the process is resumed with.
    pub fn saved_stack_pointer(&self) -> (esp: u64)
        ensures
            esp == self@.esp,
    {
        self.esp
    }

    /// The record that the process is resumed from.
    pub fn saved_context(&self) -> (context: SavedContext)
        ensures
            context == self@.context,
    {
        self.context
    }

    /// Physical address of the top-level page table.
    pub fn paging_root(&self) -> (root: u64)
        ensures
            root == self@.pg_dir_phy,
    {
        self.pg_dir_phy
    }

    /// Whether the process has run.
    pub fn is_started(&self) -> (started: bool)
        ensures
            started == self@.started,
    {
        self.started
    }

    /// The top-level page table and its address in the kernel's linear
    /// mapping.
    pub fn page_directory(&self) -> (table: (&PageTable, u64))
        ensures
            table.0@ == self@.directory,
            table.1 == self@.page_directory,
    {
        (&self.directory, self.page_directory)
    }

    /// The lower page table and its physical address.
    pub fn lower_table(&self) -> (table: (&PageTable, u64))
        ensures
            table.0@ == self@.lower,
            table.1 == self@.lower_phy,
    {
        (&self.lower, self.lower_phy)
    }

    /// The first stack image of the process, lowest address first; it lies
    /// at the saved stack pointer of a process that has not run yet.
    pub fn stack_image(&self) -> (image: Vec<u64>)
        ensures
            image@ == self@.stack_image(),
    {
        let mut image: Vec<u64> = self.context.image();
        image.push(self.entry);
        image.push(self.exit);
        image
    }

    /// The reserved ranges of the process.
    pub fn get_vm_ref(&mut self) -> (pool: &mut VMPool)
        ensures
            pool@ == old(self)@.vm_pool,
            final(self)@ == (ProcessView { vm_pool: final(pool)@, ..old(self)@ }),
            final(pool)@.wf() && old(self).wf() ==> final(self).wf(),
    {
        &mut self.vm_pool
    }

    /// Handle of the process that follows this one in a list.
    pub fn get_next(&self) -> (next: Option<usize>)
        ensures
            next == self@.next,
    {
        self.next
    }

    /// Makes the process with handle `next` follow this one in a list, or
    /// none.
    pub fn set_next(&mut self, next: Option<usize>)
        ensures
            final(self)@ == (ProcessView { next, ..old(self)@ }),
            old(self).wf() ==> final(self).wf(),
    {
        match next {
            Some(val) => self.next = Some(val),
            None => self.next = None,
        }
    }

    /// The frame behind the page `page`, if the page is committed.
    pub fn frame_of(&self, page: u64) -> (frame: Option<u64>)
        requires
            self.wf(),
        ensures
            frame == if self@.space.dom().contains(page) {
                Some(self@.space[page])
            } else {
                None
            },
    {
        self.space.frame_of(page)
    }

    /// Whether `addr` lies in a reserved range of the process.
    pub fn is_legitimate(&self, addr: u64) -> (legitimate: bool)
        ensures
            legitimate == self@.vm_pool.legitimate(addr as int),
    {
        self.vm_pool.is_legitimate(addr)
    }

    /// Reserves a range of `size` bytes in the pool of the process; see
    /// `VMPool::allocate`.
    pub fn allocate(&mut self, size: usize) -> (addr: Option<u64>)
        requires
            old(self).wf(),
        ensures
            final(self).wf(),
            addr == if old(self)@.vm_pool.can_allocate(size as int) {
                Some(old(self)@.vm_pool.candidate() as u64)
            } else {
                None
            },
            final(self)@ == if old(self)@.vm_pool.can_allocate(size as int) {
                ProcessView { vm_pool: old(self)@.vm_pool.allocate(size as int), ..old(self)@ }
            } else {
                old(self)@
            },
    {
        self.vm_pool.allocate(size)
    }

    /// Releases the reserved range of the process that starts at `addr`,
    /// with the frames behind its committed pages; see `VMPool::release`.
    pub fn release(&mut self, addr: u64, frames: &mut FramePools) -> (released: Result<
        Vec<u64>,
        VMPoolError,
    >)
        requires
            old(self).wf(),
            old(frames)@.wf(),
        ensures
            final(self).wf(),
            final(frames)@.wf(),
            old(self)@.vm_pool.slot_of(addr) >= POOL_ENTRIES ==> {
                &&& released == Err::<Vec<u64>, VMPoolError>(VMPoolError::NoSuchEntry)
                &&& final(self)@ == old(self)@
                &&& final(frames)@ == old(frames)@
            },
            old(self)@.vm_pool.slot_of(addr) < POOL_ENTRIES ==> {
                let slot = old(self)@.vm_pool.slot_of(addr);
                let n = old(self)@.vm_pool.entries[slot].size as int;
                &&& released matches Ok(pages) && pages@ == committed_span(old(self)@.space, addr, n)
                &&& final(self)@ == (ProcessView {
                    vm_pool: old(self)@.vm_pool.release(slot),
                    space: unmap_span(old(self)@.space, addr, n),
                    ..old(self)@
                })
                &&& final(frames)@ == free_span(old(frames)@, old(self)@.space, addr, n)
            },
    {
        self.vm_pool.release(addr, &mut self.space, frames)
    }

    /// Commits the page that holds `addr`, where `addr` lies in a reserved
    /// range: takes a frame of the user pool and puts it behind the page.
    /// Returns the new mapping, present and writable, for the caller to
    /// enter into the page tables. Returns `None`, and changes nothing,
    /// where `addr` is not legitimate, where the page is committed
    /// already, or where no user frame is free.
    pub fn commit_page(&mut self, frames: &mut FramePools, _addr: u64) -> (mapping: Option<
        MapRequest,
    >)
        requires
            old(self).wf(),
            old(frames)@.wf(),
        ensures
            final(self).wf(),
            final(frames)@.wf(),
            ({
                let legitimate = old(self)@.vm_pool.legitimate(_addr as int);
                let page = page_base(_addr) as u64;
                let frame = old(frames)@.next_frame(false) as u64;
                let fresh = !old(self)@.space.dom().contains(page);
                &&& mapping == if legitimate && old(frames)@.can_get(false) && fresh {
                    Some(MapRequest { page, frame, flags: PRESENT | WRITABLE })
                } else {
                    None
                }
                &&& final(frames)@ == if mapping is Some {
                    old(frames)@.take_frame(false)
                } else {
                    old(frames)@
                }
                &&& final(self)@ == if mapping is Some {
                    ProcessView { space: old(self)@.space.insert(page, frame), ..old(self)@ }
                } else {
                    old(self)@
                }
            }),
    {
        if !self.vm_pool.is_legitimate(_addr) {
            return None;
        }
        proof {
            crate::vm_pool::lemma_window_canonical(self.vm_pool@, _addr as int);
        }
        let page: u64 = page_containing(_addr);
        if self.space.frame_of(page).is_some() {
            return None;
        }
        let option: Option<u64> = frames.get_frame(false, false);
        let frame: u64 = match option {
            None => {
                return None;
            },
            Some(frame) => frame,
        };
        self.space.map_to(page, frame);
        Some(MapRequest { page, frame, flags: PRESENT | WRITABLE })
    }

    /// Takes the page that holds `addr` out of the committed pages of the
    /// process and returns its frame to the frame pools; see
    /// `AddressSpace::free_page`. An address that is not canonical lies in
    /// no page.
    pub fn release_page(&mut self, frames: &mut FramePools, _addr: u64) -> (page: Option<u64>)
        requires
            old(self).wf(),
            old(frames)@.wf(),
        ensures
            final(self).wf(),
            final(frames)@.wf(),
            ({
                let key = page_base(_addr) as u64;
                let committed = crate::addr::canonical(_addr) && old(self)@.space.dom().contains(
                    key,
                );
                &&& page == if committed {
                    Some(key)
                } else {
                    None
                }
                &&& final(self)@ == if committed {
                    ProcessView { space: old(self)@.space.remove(key), ..old(self)@ }
                } else {
                    old(self)@
                }
                &&& final(frames)@ == if committed {
                    old(frames)@.free_frame(old(self)@.space[key])
                } else {
                    old(frames)@
                }
            }),
    {
        if !is_canonical(_addr) {
            return None;
        }
        let ghost before = self.space@;
        let page = self.space.free_page(frames, _addr);
        proof {
            if !before.dom().contains(page_base(_addr) as u64) {
                assert(self.space@ =~= before);
            }
        }
        page
    }

    /// Records the stack pointer and the context that the process is
    /// resumed with.
    fn save(&mut self, esp: u64, context: SavedContext)
        ensures
            final(self)@ == (ProcessView { esp, context, ..old(self)@ }),
            old(self).wf() ==> final(self).wf(),
    {
        self.esp = esp;
        self.context = context;
    }

    /// Records that the process has run.
    fn mark_started(&mut self)
        ensures
            final(self)@ == (ProcessView { started: true, ..old(self)@ }),
            old(self).wf() ==> final(self).wf(),
    {
        self.started = true;
    }
}

/// What the process table holds, as plain values.
pub struct ProcessTableView {
    /// Every process, by its handle.
    pub processes: Seq<ProcessView>,
    /// Handle of the process that runs.
    pub current: Option<usize>,
    /// Handle of the process that the next switch goes to.
    pub next: Option<usize>,
    /// The process id that was given out last.
    pub next_process_id: u16,
    /// Physical address of the top-level page table that is loaded.
    pub paging_root: u64,
}

impl ProcessTableView {
    /// No process at all.
    pub open spec fn empty() -> ProcessTableView {
        ProcessTableView {
            processes: Seq::empty(),
            current: None,
            next: None,
            next_process_id: 0,
            paging_root: 0,
        }
    }

    /// Whether `handle` names a process.
    pub open spec fn valid(self, handle: usize) -> bool {
        handle < self.processes.len()
    }

    /// Every handle in the table names a process, the process ids rise
    /// from each process to the next one created, and none is above the
    /// id that was given out last.
    pub open spec fn wf(self) -> bool {
        &&& self.current matches Some(c) ==> self.valid(c)
        &&& self.next matches Some(n) ==> self.valid(n)
        &&& forall|i: int|
            0 <= i < self.processes.len() ==> ((#[trigger] self.processes[i]).next matches Some(j)
                ==> self.valid(j))
        &&& forall|i: int, j: int|
            0 <= i < j < self.processes.len() ==> (#[trigger] self.processes[i]).process_id < (
            #[trigger] self.processes[j]).process_id
        &&& forall|i: int|
            0 <= i < self.processes.len() ==> 0 < (#[trigger] self.processes[i]).process_id
                <= self.next_process_id
    }

    /// The table with the process `handle` changed to `process`.
    pub open spec fn with_process(self, handle: usize, process: ProcessView) -> ProcessTableView {
        ProcessTableView { processes: self.processes.update(handle as int, process), ..self }
    }

    /// The table after the process that runs, if there is one, left its
    /// context in the processor state `cpu`.
    pub open spec fn suspend(self, cpu: CpuState) -> ProcessTableView {
        match self.current {
            Some(c) => self.with_process(
                c,
                ProcessView {
                    esp: (cpu.rsp - SAVED_CONTEXT_BYTES) as u64,
                    context: SavedContext::of_cpu(cpu),
                    ..self.processes[c as int]
                },
            ),
            None => self,
        }
    }

    /// The table after the switch to the process in the handoff slot, made
    /// in the processor state `cpu`.
    pub open spec fn switch(self, cpu: CpuState) -> ProcessTableView {
        let saved = self.suspend(cpu);
        ProcessTableView {
            current: self.next,
            paging_root: saved.processes[self.next->0 as int].pg_dir_phy,
            ..saved
        }
    }

    /// What the processor is loaded with at the switch to the process in
    /// the handoff slot, made in the processor state `cpu`.
    pub open spec fn switch_action(self, cpu: CpuState) -> SwitchAction {
        let incoming = self.suspend(cpu).processes[self.next->0 as int];
        SwitchAction {
            esp: incoming.esp,
            paging_root: incoming.pg_dir_phy,
            context: incoming.context,
        }
    }
}

/// The processes of the kernel, the process that runs, the process that
/// the next switch goes to, and the last process id given out.
pub struct ProcessTable {
    processes: Vec<MyProcess>,
    current: Option<usize>,
    next: Option<usize>,
    next_process_id: u16,
    paging_root: u64,
}

impl View for ProcessTable {
    type V = ProcessTableView;

    closed spec fn view(&self) -> ProcessTableView {
        ProcessTableView {
            processes: Seq::new(self.processes@.len(), |i: int| self.processes@[i]@),
            current: self.current,
            next: self.next,
            next_process_id: self.next_process_id,
            paging_root: self.paging_root,
        }
    }
}

impl Default for ProcessTable {
    /// No process at all.
    fn default() -> (table: ProcessTable)
        ensures
            table.wf(),
            table@ == ProcessTableView::empty(),
    {
        let table = ProcessTable {
            processes: Vec::new(),
            current: None,
            next: None,
            next_process_id: 0,
            paging_root: 0,
        };
        assert(table@.processes =~= ProcessTableView::empty().processes);
        table
    }
}

impl ProcessTable {
    /// The table and every process in it are valid.
    pub closed spec fn wf(&self) -> bool {
        &&& self@.wf()
        &&& forall|i: int| 0 <= i < self.processes@.len() ==> (#[trigger] self.processes@[i]).wf()
    }

    /// A valid table has a valid view.
    pub proof fn lemma_wf(&self)
        requires
            self.wf(),
        ensures
            self@.wf(),
    {
    }

    /// Number of processes.
    pub fn len(&self) -> (count: usize)
        ensures
            count == self@.processes.len(),
    {
        self.processes.len()
    }

    /// The process with that handle.
    pub fn get(&self, handle: usize) -> (process: &MyProcess)
        requires
            self@.valid(handle),
        ensures
            process@ == self@.processes[handle as int],
            self.wf() ==> process.wf(),
    {
        &self.processes[handle]
    }

    /// The process with the handle `handle`.
    pub closed spec fn process_at(&self, handle: int) -> MyProcess {
        self.processes@[handle]
    }

    /// A table in which one process, and nothing else, differs from a
    /// valid table is valid where that process is valid and has the link
    /// and the id that it had.
    pub proof fn lemma_process_changed(&self, after: &ProcessTable, handle: usize)
        requires
            self.wf(),
            self@.valid(handle),
            after@.processes.len() == self@.processes.len(),
            forall|i: int|
                0 <= i < self@.processes.len() && i != handle ==> after.process_at(i)
                    == self.process_at(i),
            after@.current == self@.current,
            after@.next == self@.next,
            after@.next_process_id == self@.next_process_id,
            after@.paging_root == self@.paging_root,
            after.process_at(handle as int).wf(),
            after.process_at(handle as int)@.next == self.process_at(handle as int)@.next,
            after.process_at(handle as int)@.process_id == self.process_at(
                handle as int,
            )@.process_id,
        ensures
            after.wf(),
            after@ == self@.with_process(handle, after.process_at(handle as int)@),
    {
        let target = self@.with_process(handle, after.process_at(handle as int)@);
        assert(after@.processes =~= target.processes) by {
            assert forall|i: int| 0 <= i < after@.processes.len() implies after@.processes[i]
                == target.processes[i] by {
                if i != handle {
                    assert(after.process_at(i) == self.process_at(i));
                }
            }
        }
        self@.lemma_with_process(handle, after.process_at(handle as int)@);
        assert forall|i: int| 0 <= i < after.processes@.len() implies (
        #[trigger] after.processes@[i]).wf() by {
            if i != handle {
                assert(after.process_at(i) == self.process_at(i));
                assert(self.processes@[i].wf());
            }
        }
    }

    /// The process with that handle, to be changed; every other process
    /// and the rest of the table stay as they are.
    pub fn get_mut(&mut self, handle: usize) -> (process: &mut MyProcess)
        requires
            old(self)@.valid(handle),
        ensures
            *process == old(self).process_at(handle as int),
            old(self).wf() ==> process.wf(),
            final(self).process_at(handle as int) == *final(process),
            final(self)@.processes.len() == old(self)@.processes.len(),
            forall|i: int|
                0 <= i < old(self)@.processes.len() && i != handle ==> final(self).process_at(i)
                    == old(self).process_at(i),
            final(self)@.current == old(self)@.current,
            final(self)@.next == old(self)@.next,
            final(self)@.next_process_id == old(self)@.next_process_id,
            final(self)@.paging_root == old(self)@.paging_root,
    {
        &mut self.processes[handle]
    }

    /// Handle of the process that runs.
    pub fn current(&self) -> (current: Option<usize>)
        ensures
            current == self@.current,
    {
        self.current
    }

    /// Handle of the process that the next switch goes to.
    pub fn next_process(&self) -> (next: Option<usize>)
        ensures
            next == self@.next,
    {
        self.next
    }

    /// Physical address of the top-level page table that is loaded.
    pub fn paging_root(&self) -> (root: u64)
        ensures
            root == self@.paging_root,
    {
        self.paging_root
    }

    /// Makes `next` follow the process `handle` in a list, or none.
    pub fn set_link(&mut self, handle: usize, next: Option<usize>)
        requires
            old(self).wf(),
            old(self)@.valid(handle),
            next matches Some(n) ==> old(self)@.valid(n),
        ensures
            final(self).wf(),
            final(self)@ == old(self)@.with_process(
                handle,
                ProcessView { next, ..old(self)@.processes[handle as int] },
            ),
    {
        self.processes[handle].set_next(next);
        proof {
            assert(self@.processes =~= old(self)@.with_process(
                handle,
                ProcessView { next, ..old(self)@.processes[handle as int] },
            ).processes);
        }
    }

    /// Reserves a range of `size` bytes in the pool of the process
    /// `handle`; see `VMPool::allocate`.
    pub fn allocate(&mut self, handle: usize, size: usize) -> (addr: Option<u64>)
        requires
            old(self).wf(),
            old(self)@.valid(handle),
        ensures
            final(self).wf(),
            ({
                let process = old(self)@.processes[handle as int];
                &&& addr == if process.vm_pool.can_allocate(size as int) {
                    Some(process.vm_pool.candidate() as u64)
                } else {
                    None
                }
                &&& final(self)@ == if process.vm_pool.can_allocate(size as int) {
                    old(self)@.with_process(
                        handle,
                        ProcessView { vm_pool: process.vm_pool.allocate(size as int), ..process },
                    )
                } else {
                    old(self)@
                }
            }),
    {
        let addr = self.processes[handle].allocate(size);
        proof {
            let process = old(self)@.processes[handle as int];
            assert(self@.processes =~= if process.vm_pool.can_allocate(size as int) {
                old(self)@.with_process(
                    handle,
                    ProcessView { vm_pool: process.vm_pool.allocate(size as int), ..process },
                ).processes
            } else {
                old(self)@.processes
            });
        }
        addr
    }

    /// Releases the reserved range of the process `handle` that starts at
    /// `addr`; see `VMPool::release`.
    pub fn release(&mut self, handle: usize, addr: u64, frames: &mut FramePools) -> (released:
        Result<Vec<u64>, VMPoolError>)
        requires
            old(self).wf(),
            old(self)@.valid(handle),
            old(frames)@.wf(),
        ensures
            final(self).wf(),
            final(frames)@.wf(),
            ({
                let process = old(self)@.processes[handle as int];
                let slot = process.vm_pool.slot_of(addr);
                let n = process.vm_pool.entries[slot].size as int;
                &&& slot >= POOL_ENTRIES ==> {
                    &&& released == Err::<Vec<u64>, VMPoolError>(VMPoolError::NoSuchEntry)
                    &&& final(self)@ == old(self)@
                    &&& final(frames)@ == old(frames)@
                }
                &&& slot < POOL_ENTRIES ==> {
                    &&& released matches Ok(pages) && pages@ == committed_span(
                        process.space,
                        addr,
                        n,
                    )
                    &&& final(self)@ == old(self)@.with_process(
                        handle,
                        ProcessView {
                            vm_pool: process.vm_pool.release(slot),
                            space: unmap_span(process.space, addr, n),
                            ..process
                        },
                    )
                    &&& final(frames)@ == free_span(old(frames)@, process.space, addr, n)
                }
            }),
    {
        let released = self.processes[handle].release(addr, frames);
        proof {
            let process = old(self)@.processes[handle as int];
            let slot = process.vm_pool.slot_of(addr);
            let n = process.vm_pool.entries[slot].size as int;
            assert(self@.processes =~= if slot < POOL_ENTRIES {
                old(self)@.with_process(
                    handle,
                    ProcessView {
                        vm_pool: process.vm_pool.release(slot),
                        space: unmap_span(process.space, addr, n),
                        ..process
                    },
                ).processes
            } else {
                old(self)@.processes
            });
        }
        released
    }

    /// Gives out the next process id.
    fn faa_next_proc_id(&mut self) -> (id: u16)
        requires
            old(self).next_process_id < u16::MAX,
        ensures
            id == old(self).next_process_id + 1,
            *final(self) == (ProcessTable { next_process_id: id, ..*old(self) }),
    {
        self.next_process_id += 1;
        self.next_process_id
    }
}

impl ProcessTableView {
    /// Whether a new process can be created: a process id is left, and the
    /// four kernel frames that a process takes are free.
    pub open spec fn can_create(self, frames: FramePoolsView) -> bool {
        self.next_process_id < u16::MAX && frames.can_take(4)
    }

    /// The table after a process was created for the function at `entry`.
    pub open spec fn create(
        self,
        frames: FramePoolsView,
        boot_directory: Seq<PageEntry>,
        boot_lower: Seq<PageEntry>,
        entry: u64,
        trampolines: Trampolines,
    ) -> ProcessTableView {
        ProcessTableView {
            processes: self.processes.push(
                ProcessView::created(
                    (self.next_process_id + 1) as u16,
                    frames.nth_frame(1) as u64,
                    frames.nth_frame(2) as u64,
                    boot_directory,
                    boot_lower,
                    entry,
                    trampolines,
                ),
            ),
            next_process_id: (self.next_process_id + 1) as u16,
            ..self
        }
    }
}

/// The first stack image of a process that is created, lowest address
/// first: fifteen cleared registers, the start trampoline, the code
/// segment, cleared flags, the stack pointer at the two words above the
/// saved context, a cleared stack segment, the entry function and the end
/// trampoline. It ends where the stack ends, and the saved stack pointer
/// points at its first word.
pub proof fn lemma_first_stack_image(
    process_id: u16,
    pg_dir_phy: u64,
    lower_phy: u64,
    boot_directory: Seq<PageEntry>,
    boot_lower: Seq<PageEntry>,
    entry: u64,
    trampolines: Trampolines,
)
    ensures
        ({
            let process = ProcessView::created(
                process_id,
                pg_dir_phy,
                lower_phy,
                boot_directory,
                boot_lower,
                entry,
                trampolines,
            );
            let top = (HEAP_START + STACK_SIZE) as u64;
            &&& process.stack_image() == seq![
                0u64,
                0u64,
                0u64,
                0u64,
                0u64,
                0u64,
                0u64,
                0u64,
                0u64,
                0u64,
                0u64,
                0u64,
                0u64,
                0u64,
                0u64,
                trampolines.start,
                trampolines.code_segment,
                0u64,
                (top - 16) as u64,
                0u64,
                entry,
                trampolines.end,
            ]
            &&& process.esp + 8 * process.stack_image().len() == top
            &&& process.next is None
            &&& !process.started
        }),
{
    let process = ProcessView::created(
        process_id,
        pg_dir_phy,
        lower_phy,
        boot_directory,
        boot_lower,
        entry,
        trampolines,
    );
    let top = (HEAP_START + STACK_SIZE) as u64;
    assert(process.stack_image() =~= seq![
        0u64,
        0u64,
        0u64,
        0u64,
        0u64,
        0u64,
        0u64,
        0u64,
        0u64,
        0u64,
        0u64,
        0u64,
        0u64,
        0u64,
        0u64,
        trampolines.start,
        trampolines.code_segment,
        0u64,
        (top - 16) as u64,
        0u64,
        entry,
        trampolines.end,
    ]);
}

/// In a valid table a process that was created later has a higher id, so
/// no two processes have the same id.
pub proof fn lemma_process_ids_rise(table: ProcessTableView, earlier: int, later: int)
    requires
        table.wf(),
        0 <= earlier < later < table.processes.len(),
    ensures
        table.processes[earlier].process_id < table.processes[later].process_id,
{
}

/// A process that is created gets an id above the id of every process
/// that there was, and the table stays valid.
pub proof fn lemma_created_id_is_new(
    table: ProcessTableView,
    frames: FramePoolsView,
    boot_directory: Seq<PageEntry>,
    boot_lower: Seq<PageEntry>,
    entry: u64,
    trampolines: Trampolines,
)
    requires
        table.wf(),
        table.can_create(frames),
    ensures
        table.create(frames, boot_directory, boot_lower, entry, trampolines).wf(),
        forall|i: int|
            0 <= i < table.processes.len() ==> (#[trigger] table.processes[i]).process_id
                < table.create(
                frames,
                boot_directory,
                boot_lower,
                entry,
                trampolines,
            ).processes.last().process_id,
{
    let after = table.create(frames, boot_directory, boot_lower, entry, trampolines);
    let n = table.processes.len() as int;
    assert forall|i: int| 0 <= i < n implies (#[trigger] table.processes[i]).process_id
        < after.processes.last().process_id by {
        assert(table.processes[i].process_id <= table.next_process_id);
    }
    assert forall|i: int, j: int| 0 <= i < j < after.processes.len() implies (
    #[trigger] after.processes[i]).process_id < (#[trigger] after.processes[j]).process_id by {
        if j < n {
            assert(table.processes[i].process_id < table.processes[j].process_id);
        } else {
            assert(table.processes[i].process_id <= table.next_process_id);
        }
    }
    assert forall|i: int| 0 <= i < after.processes.len() implies ((
    #[trigger] after.processes[i]).next matches Some(j) ==> after.valid(j)) by {
        if i < n {
            assert(table.processes[i].next matches Some(j) ==> table.valid(j));
        }
    }
    assert forall|i: int| 0 <= i < after.processes.len() implies 0 < (
    #[trigger] after.processes[i]).process_id <= after.next_process_id by {
        if i < n {
            assert(0 < table.processes[i].process_id <= table.next_process_id);
        }
    }
}

impl ProcessTableView {
    /// Changing a process of a valid table in anything but its id leaves
    /// the table valid, where the link of the process is none or names a
    /// process of the table.
    pub proof fn lemma_with_process(self, handle: usize, process: ProcessView)
        requires
            self.wf(),
            self.valid(handle),
            process.process_id == self.processes[handle as int].process_id,
            process.next == self.processes[handle as int].next || (process.next matches Some(n)
                ==> self.valid(n)),
        ensures
            self.with_process(handle, process).wf(),
    {
        let after = self.with_process(handle, process);
        assert forall|i: int, j: int| 0 <= i < j < after.processes.len() implies (
        #[trigger] after.processes[i]).process_id < (#[trigger] after.processes[j]).process_id by {
            assert(self.processes[i].process_id < self.processes[j].process_id);
        }
        assert forall|i: int| 0 <= i < after.processes.len() implies ((
        #[trigger] after.processes[i]).next matches Some(j) ==> after.valid(j)) by {
            assert(self.processes[i].next matches Some(j) ==> self.valid(j));
        }
        assert forall|i: int| 0 <= i < after.processes.len() implies 0 < (
        #[trigger] after.processes[i]).process_id <= after.next_process_id by {
            assert(0 < self.processes[i].process_id <= self.next_process_id);
        }
    }
}

/// Takes the four kernel frames of a new process, and returns the physical
/// addresses of the second and the third, which hold its page tables, with
/// the address of the second in the kernel's linear mapping. Returns `None`
/// where a frame is missing; the frames taken until then stay taken.
fn take_process_frames(frames: &mut FramePools) -> (taken: Option<(u64, u64, u64)>)
    requires
        old(frames)@.wf(),
    ensures
        final(frames)@.wf(),
        final(frames)@ == old(frames)@.take_frames(4),
        taken is Some == old(frames)@.can_take(4),
        taken matches Some((pg_dir_phy, page_directory, lower_phy)) ==> {
            &&& pg_dir_phy == old(frames)@.nth_frame(1)
            &&& lower_phy == old(frames)@.nth_frame(2)
            &&& page_directory == pg_dir_phy - KERNEL_PHY_START + KERNEL_VIR_START
        },
{
    proof {
        reveal_with_fuel(FramePoolsView::take_frames, 5);
        reveal_with_fuel(FramePoolsView::can_take, 5);
        if frames@.can_get(true) {
            lemma_take_frame(frames@, true);
        }
    }
    // the frame that holds the control block
    if frames.get_frame(true, false).is_none() {
        return None;
    }
    proof {
        if frames@.can_get(true) {
            lemma_take_frame(frames@, true);
        }
    }
    let pg_dir_phy: u64 = match frames.get_frame(true, true) {
        Some(frame) => frame,
        None => {
            return None;
        },
    };
    let page_directory: u64 = transform_kernel_to_vir(pg_dir_phy);
    proof {
        if frames@.can_get(true) {
            lemma_take_frame(frames@, true);
        }
    }
    let lower_phy: u64 = match frames.get_frame(true, true) {
        Some(frame) => frame,
        None => {
            return None;
        },
    };
    proof {
        if frames@.can_get(true) {
            lemma_take_frame(frames@, true);
        }
    }
    // the frame that holds the pool
    if frames.get_frame(true, false).is_none() {
        return None;
    }
    Some((pg_dir_phy, page_directory, lower_phy))
}

/// The pool of a new process, with the stack reserved, the stack pointer
/// and the saved context that the process is first resumed with.
fn fresh_pool(trampolines: &Trampolines) -> (fresh: (VMPool, u64, SavedContext))
    ensures
        fresh.0@ == VMPoolView::empty(HEAP_START, HEAP_SIZE >> PAGE_OFFSET_BITS).allocate(
            STACK_SIZE as int,
        ),
        fresh.0@.wf(),
        fresh.1 == HEAP_START + STACK_SIZE - INITIAL_IMAGE_BYTES,
        fresh.2 == SavedContext::first(
            (HEAP_START + STACK_SIZE) as u64,
            trampolines.code_segment,
            trampolines.start,
        ),
{
    let mut vm_pool = VMPool::default();
    proof {
        assert(HEAP_SIZE >> PAGE_OFFSET_BITS == 0x4_0000) by (bit_vector);
    }
    vm_pool.new(HEAP_START, HEAP_SIZE);
    proof {
        let pool = vm_pool@;
        assert(crate::vm_pool::free_slot_from(pool.entries, 0) == 0);
        crate::vm_pool::lemma_high_water(pool.base as int, pool.entries, 254);
        if pool.candidate() != pool.base {
            let i = choose|i: int|
                0 <= i < 254 && (#[trigger] pool.entries[i]).live() && pool.entries[i].end_addr()
                    == pool.candidate();
            assert(!pool.entries[i].live());
        }
        assert(crate::vm_pool::pages_for(STACK_SIZE as int) == 2);
        assert(pool.can_allocate(STACK_SIZE as int));
    }
    match MyProcess::construct_stack(&mut vm_pool, trampolines, STACK_SIZE) {
        Some((esp, context)) => (vm_pool, esp, context),
        None => vstd::pervasive::unreached(),
    }
}

impl MyProcess {
    /// Creates a process that runs the function at `p_func_ptr`, and
    /// returns its handle. The process takes four kernel frames, for its
    /// control block, its top-level page table, its lower page table and
    /// its pool, in this order, and the next process id. Its page tables
    /// are filled from the kernel's, its pool covers the window that every
    /// process has, and its stack is reserved and laid out so that the
    /// process can be switched to. Returns `None` where no process id is
    /// left, without any change, or where a frame is missing; the frames
    /// taken until then stay taken.
    pub fn new(
        table: &mut ProcessTable,
        frames: &mut FramePools,
        boot_directory: &PageTable,
        boot_lower: &PageTable,
        p_func_ptr: u64,
        trampolines: &Trampolines,
    ) -> (handle: Option<usize>)
        requires
            old(table).wf(),
            old(frames)@.wf(),
        ensures
            final(table).wf(),
            final(frames)@.wf(),
            handle == if old(table)@.can_create(old(frames)@) {
                Some(old(table)@.processes.len() as usize)
            } else {
                None
            },
            final(table)@ == if old(table)@.can_create(old(frames)@) {
                old(table)@.create(
                    old(frames)@,
                    boot_directory@,
                    boot_lower@,
                    p_func_ptr,
                    *trampolines,
                )
            } else {
                old(table)@
            },
            final(frames)@ == if old(table)@.next_process_id < u16::MAX {
                old(frames)@.take_frames(4)
            } else {
                old(frames)@
            },
    {
        if table.next_process_id == u16::MAX {
            return None;
        }
        let (pg_dir_phy, page_directory, lower_phy) = match take_process_frames(frames) {
            Some(taken) => taken,
            None => {
                return None;
            },
        };
        let tables = MyProcess::construct_page_table(
            boot_directory,
            boot_lower,
            pg_dir_phy,
            lower_phy,
        );
        let (vm_pool, esp, context) = fresh_pool(trampolines);
        let process_id: u16 = table.faa_next_proc_id();
        let process = MyProcess {
            esp,
            pg_dir_phy,
            page_directory,
            lower_phy,
            process_id,
            stack_size: STACK_SIZE,
            started: false,
            terminated: false,
            vm_pool,
            next: None,
            space: AddressSpace::new(),
            context,
            entry: p_func_ptr,
            exit: trampolines.end,
            directory: tables.0,
            lower: tables.1,
        };
        let handle: usize = table.processes.len();
        let ghost created = process@;
        table.processes.push(process);
        proof {
            let target = old(table)@.create(
                old(frames)@,
                boot_directory@,
                boot_lower@,
                p_func_ptr,
                *trampolines,
            );
            assert(created == target.processes[handle as int]);
            assert(table@.processes =~= target.processes);
            lemma_created_id_is_new(
                old(table)@,
                old(frames)@,
                boot_directory@,
                boot_lower@,
                p_func_ptr,
                *trampolines,
            );
            assert forall|i: int| 0 <= i < table.processes@.len() implies (
            #[trigger] table.processes@[i]).wf() by {
                if i < handle {
                    assert(old(table).processes@[i].wf());
                }
            }
        }
        Some(handle)
    }

    /// Makes the process `handle` the one that runs and returns the
    /// physical address of its top-level page table, for the caller to
    /// load.
    pub fn load_page_table(table: &mut ProcessTable, handle: usize) -> (root: u64)
        requires
            old(table).wf(),
            old(table)@.valid(handle),
        ensures
            final(table).wf(),
            root == old(table)@.processes[handle as int].pg_dir_phy,
            final(table)@ == (ProcessTableView {
                current: Some(handle),
                paging_root: root,
                ..old(table)@
            }),
    {
        table.current = Some(handle);
        table.paging_root = table.processes[handle].pg_dir_phy;
        table.paging_root
    }

    /// Handles a fault at `_addr` in the process that runs: commits the
    /// page that holds the address, where the address lies in a reserved
    /// range of that process; see `commit_page`. Returns `None`, and
    /// changes nothing, where no process runs.
    pub fn handle_fault(table: &mut ProcessTable, frames: &mut FramePools, _addr: u64) -> (mapping:
        Option<MapRequest>)
        requires
            old(table).wf(),
            old(frames)@.wf(),
        ensures
            final(table).wf(),
            final(frames)@.wf(),
            old(table)@.current is None ==> mapping is None && final(table)@ == old(table)@
                && final(frames)@ == old(frames)@,
            old(table)@.current matches Some(c) ==> {
                let process = old(table)@.processes[c as int];
                let legitimate = process.vm_pool.legitimate(_addr as int);
                let page = page_base(_addr) as u64;
                let frame = old(frames)@.next_frame(false) as u64;
                let fresh = !process.space.dom().contains(page);
                &&& mapping == if legitimate && old(frames)@.can_get(false) && fresh {
                    Some(MapRequest { page, frame, flags: PRESENT | WRITABLE })
                } else {
                    None
                }
                &&& final(frames)@ == if mapping is Some {
                    old(frames)@.take_frame(false)
                } else {
                    old(frames)@
                }
                &&& final(table)@ == if mapping is Some {
                    old(table)@.with_process(
                        c,
                        ProcessView { space: process.space.insert(page, frame), ..process },
                    )
                } else {
                    old(table)@
                }
            },
    {
        let c: usize = match table.current {
            Some(c) => c,
            None => {
                return None;
            },
        };
        let mapping = table.processes[c].commit_page(frames, _addr);
        proof {
            let process = old(table)@.processes[c as int];
            old(table)@.lemma_with_process(
                c,
                ProcessView {
                    space: process.space.insert(
                        page_base(_addr) as u64,
                        old(frames)@.next_frame(false) as u64,
                    ),
                    ..process
                },
            );
            assert(table@.processes =~= if mapping is Some {
                old(table)@.with_process(
                    c,
                    ProcessView {
                        space: process.space.insert(
                            page_base(_addr) as u64,
                            old(frames)@.next_frame(false) as u64,
                        ),
                        ..process
                    },
                ).processes
            } else {
                old(table)@.processes
            });
        }
        mapping
    }

    /// Takes the page that holds `_addr` out of the committed pages of the
    /// process that runs and returns its frame to the frame pools; see
    /// `release_page`. Returns `None`, and changes nothing, where no
    /// process runs.
    pub fn free_page(table: &mut ProcessTable, frames: &mut FramePools, _addr: u64) -> (page:
        Option<u64>)
        requires
            old(table).wf(),
            old(frames)@.wf(),
        ensures
            final(table).wf(),
            final(frames)@.wf(),
            old(table)@.current is None ==> page is None && final(table)@ == old(table)@
                && final(frames)@ == old(frames)@,
            old(table)@.current matches Some(c) ==> {
                let process = old(table)@.processes[c as int];
                let key = page_base(_addr) as u64;
                let committed = crate::addr::canonical(_addr) && process.space.dom().contains(key);
                &&& page == if committed {
                    Some(key)
                } else {
                    None
                }
                &&& final(table)@ == if committed {
                    old(table)@.with_process(
                        c,
                        ProcessView { space: process.space.remove(key), ..process },
                    )
                } else {
                    old(table)@
                }
                &&& final(frames)@ == if committed {
                    old(frames)@.free_frame(process.space[key])
                } else {
                    old(frames)@
                }
            },
    {
        let c: usize = match table.current {
            Some(c) => c,
            None => {
                return None;
            },
        };
        let page = table.processes[c].release_page(frames, _addr);
        proof {
            let process = old(table)@.processes[c as int];
            old(table)@.lemma_with_process(
                c,
                ProcessView { space: process.space.remove(page_base(_addr) as u64), ..process },
            );
            assert(table@.processes =~= if page is Some {
                old(table)@.with_process(
                    c,
                    ProcessView {
                        space: process.space.remove(page_base(_addr) as u64),
                        ..process
                    },
                ).processes
            } else {
                old(table)@.processes
            });
        }
        page
    }
}

/// The process that runs, if one does.
pub fn get_curr_process_table(table: &ProcessTable) -> (process: Option<&MyProcess>)
    requires
        table.wf(),
    ensures
        process is Some == table@.current is Some,
        process matches Some(p) ==> p@ == table@.processes[table@.current->0 as int] && p.wf(),
{
    match table.current {
        Some(c) => Some(&table.processes[c]),
        None => None,
    }
}

/// Makes the process `current` the one that runs, or none; the page table
/// that is loaded stays as it is.
pub fn set_curr_process_table(table: &mut ProcessTable, current: Option<usize>)
    requires
        old(table).wf(),
        current matches Some(c) ==> old(table)@.valid(c),
    ensures
        final(table).wf(),
        final(table)@ == (ProcessTableView { current, ..old(table)@ }),
{
    table.current = current;
}

/// Makes the process `handle` the one that the next switch goes to.
pub fn set_next_process(table: &mut ProcessTable, handle: usize)
    requires
        old(table).wf(),
        old(table)@.valid(handle),
    ensures
        final(table).wf(),
        final(table)@ == (ProcessTableView { next: Some(handle), ..old(table)@ }),
{
    table.next = Some(handle);
}

/// Switches to the process in the handoff slot. The process that runs, if
/// one does, leaves its context: the record made of the processor state
/// `cpu`, which lies below the stack pointer of that state. The process in
/// the handoff slot becomes the one that runs, and its stack pointer, its
/// top-level page table and its saved context are returned for the caller
/// to load. Returns `None`, and changes nothing, where the handoff slot is
/// empty.
pub fn process_switch_to(table: &mut ProcessTable, cpu: &CpuState) -> (action: Option<
    SwitchAction,
>)
    requires
        old(table).wf(),
        old(table)@.current is Some && old(table)@.next is Some ==> cpu.rsp >= SAVED_CONTEXT_BYTES,
    ensures
        final(table).wf(),
        old(table)@.next is None ==> action is None && final(table)@ == old(table)@,
        old(table)@.next is Some ==> {
            &&& action == Some(old(table)@.switch_action(*cpu))
            &&& final(table)@ == old(table)@.switch(*cpu)
        },
{
    let next: usize = match table.next {
        Some(next) => next,
        None => {
            return None;
        },
    };
    match table.current {
        Some(c) => {
            table.processes[c].save(cpu.rsp - SAVED_CONTEXT_BYTES, SavedContext::suspended(cpu));
        },
        None => {},
    }
    proof {
        assert(table@.processes =~= old(table)@.suspend(*cpu).processes);
    }
    table.current = Some(next);
    let incoming: &MyProcess = &table.processes[next];
    let action = SwitchAction {
        esp: incoming.esp,
        paging_root: incoming.pg_dir_phy,
        context: incoming.context,
    };
    table.paging_root = action.paging_root;
    Some(action)
}

/// Records that the process that runs has started. The start trampoline
/// calls this before it returns into the entry function.
pub fn process_start(table: &mut ProcessTable)
    requires
        old(table).wf(),
    ensures
        final(table).wf(),
        final(table)@ == match old(table)@.current {
            Some(c) => old(table)@.with_process(
                c,
                ProcessView { started: true, ..old(table)@.processes[c as int] },
            ),
            None => old(table)@,
        },
{
    match table.current {
        Some(c) => {
            table.processes[c].mark_started();
            proof {
                assert(table@.processes =~= old(table)@.with_process(
                    c,
                    ProcessView { started: true, ..old(table)@.processes[c as int] },
                ).processes);
            }
        },
        None => {},
    }
}

} // verus!
