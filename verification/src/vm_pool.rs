use vstd::prelude::*;
use crate::addr::{canonical, page_base, LOWER_HALF_END};
use crate::machine::{HEAP_SIZE, HEAP_START, PAGE_OFFSET_BITS, PAGE_SIZE};
use crate::memory::{FramePools, FramePoolsView};
use crate::page_table::AddressSpace;

verus! {

/// Number of ranges that one pool can hold reserved at a time.
pub const POOL_ENTRIES: usize = 254;

/// One slot of a pool's table: a reserved range of `size` pages that starts
/// at `start`, or a free slot where `start` is zero.
#[derive(Clone, Copy, Debug, PartialEq, Eq, Structural)]
pub struct VMPoolEntry {
    pub start: u64,
    pub size: u64,
}

impl VMPoolEntry {
    /// Whether the slot holds a reserved range.
    pub open spec fn live(self) -> bool {
        self.start != 0
    }

    /// Address of the first byte after the range.
    pub open spec fn end_addr(self) -> int {
        self.start + self.size * PAGE_SIZE
    }

    /// Whether the range holds `addr`.
    pub open spec fn covers(self, addr: int) -> bool {
        self.start <= addr < self.end_addr()
    }

    /// Whether the two ranges have a byte in common.
    pub open spec fn overlaps(self, other: VMPoolEntry) -> bool {
        self.start < other.end_addr() && other.start < self.end_addr() && self.size > 0
            && other.size > 0
    }

    /// Address of the first byte after the range.
    fn end(&self) -> (end: u64)
        requires
            self.end_addr() <= u64::MAX,
        ensures
            end == self.end_addr(),
    {
        self.start + self.size * PAGE_SIZE
    }

    /// Whether the range holds `addr`.
    fn contained(&self, addr: u64) -> (inside: bool)
        requires
            self.end_addr() <= u64::MAX,
        ensures
            inside == self.covers(addr as int),
    {
        addr >= self.start && addr < self.end()
    }

    /// Makes the slot hold the range of `size` pages at `start`.
    fn update_val(&mut self, start: u64, size: u64)
        ensures
            *final(self) == (VMPoolEntry { start, size }),
    {
        self.start = start;
        self.size = size;
    }

    /// Makes the slot free.
    fn free_entry(&mut self)
        ensures
            *final(self) == (VMPoolEntry { start: 0, size: 0 }),
    {
        self.update_val(0, 0);
    }
}

/// Whether the window of `pages` pages at `base` can be a pool: it does not
/// start at zero, which marks a free slot, and all of it, its end included,
/// lies in one half of the canonical addresses.
pub open spec fn window_ok(base: u64, pages: u64) -> bool {
    &&& 0 < base
    &&& base + pages * PAGE_SIZE <= u64::MAX
    &&& canonical(base)
    &&& canonical((base + pages * PAGE_SIZE) as u64)
    &&& (base < LOWER_HALF_END) == (base + pages * PAGE_SIZE < LOWER_HALF_END)
}

/// Number of pages that `size` bytes take.
pub open spec fn pages_for(size: int) -> int {
    (size + PAGE_SIZE - 1) / (PAGE_SIZE as int)
}

/// The lowest index from `from` on of a free slot of the table, or the
/// table's length where there is none.
pub open spec fn free_slot_from(entries: Seq<VMPoolEntry>, from: int) -> int
    decreases entries.len() - from,
{
    if from < 0 || from >= entries.len() {
        entries.len() as int
    } else if !entries[from].live() {
        from
    } else {
        free_slot_from(entries, from + 1)
    }
}

/// The highest end address among the reserved ranges in the first `n` slots
/// of the table, or `base` where none ends above it.
pub open spec fn high_water(base: int, entries: Seq<VMPoolEntry>, n: int) -> int
    decreases n,
{
    if n <= 0 {
        base
    } else {
        let below = high_water(base, entries, n - 1);
        let entry = entries[n - 1];
        if entry.live() && below < entry.end_addr() {
            entry.end_addr()
        } else {
            below
        }
    }
}

/// What a pool holds, as plain values.
pub struct VMPoolView {
    /// Address of the first byte of the window.
    pub base: u64,
    /// Number of pages of the window.
    pub pages: u64,
    /// The table of reserved ranges, slot by slot.
    pub entries: Seq<VMPoolEntry>,
}

impl VMPoolView {
    /// Address of the first byte after the window.
    pub open spec fn end_addr(self) -> int {
        self.base + self.pages * PAGE_SIZE
    }

    /// Whether the window holds `addr`.
    pub open spec fn contains(self, addr: int) -> bool {
        self.base <= addr < self.end_addr()
    }

    /// The pool over a window with no range reserved.
    pub open spec fn empty(base: u64, pages: u64) -> VMPoolView {
        VMPoolView {
            base,
            pages,
            entries: Seq::new(POOL_ENTRIES as nat, |i: int| VMPoolEntry { start: 0, size: 0 }),
        }
    }

    /// The window is valid, the table has its 254 slots, every reserved
    /// range lies in the window, and no two reserved ranges overlap.
    pub open spec fn wf(self) -> bool {
        &&& window_ok(self.base, self.pages)
        &&& self.entries.len() == POOL_ENTRIES
        &&& forall|i: int|
            0 <= i < self.entries.len() && (#[trigger] self.entries[i]).live() ==> self.base
                <= self.entries[i].start && self.entries[i].end_addr() <= self.end_addr()
        &&& forall|i: int, j: int|
            0 <= i < self.entries.len() && 0 <= j < self.entries.len() && i != j && (
            #[trigger] self.entries[i]).live() && (#[trigger] self.entries[j]).live()
                ==> !self.entries[i].overlaps(self.entries[j])
    }

    /// Whether some reserved range holds `addr`.
    pub open spec fn legitimate(self, addr: int) -> bool {
        exists|i: int|
            0 <= i < self.entries.len() && (#[trigger] self.entries[i]).live()
                && self.entries[i].covers(addr)
    }

    /// The address at which the next range is reserved: the highest end of
    /// a reserved range, or the base of the window.
    pub open spec fn candidate(self) -> int {
        high_water(self.base as int, self.entries, self.entries.len() as int)
    }

    /// The slot that the next range is written to.
    pub open spec fn free_slot(self) -> int {
        free_slot_from(self.entries, 0)
    }

    /// Whether a request for `size` bytes can be met: the range fits
    /// between the candidate address and the end of the window, and the
    /// table has a free slot.
    pub open spec fn can_allocate(self, size: int) -> bool {
        &&& self.candidate() + pages_for(size) * PAGE_SIZE <= self.end_addr()
        &&& self.free_slot() < self.entries.len()
    }

    /// The pool after a request for `size` bytes was met.
    pub open spec fn allocate(self, size: int) -> VMPoolView {
        VMPoolView {
            entries: self.entries.update(
                self.free_slot(),
                VMPoolEntry { start: self.candidate() as u64, size: pages_for(size) as u64 },
            ),
            ..self
        }
    }

    /// The lowest slot from `from` on that holds a range starting at
    /// `addr`, or the table's length where there is none.
    pub open spec fn slot_of_from(self, addr: u64, from: int) -> int
        decreases self.entries.len() - from,
    {
        if from < 0 || from >= self.entries.len() {
            self.entries.len() as int
        } else if self.entries[from].live() && self.entries[from].start == addr {
            from
        } else {
            self.slot_of_from(addr, from + 1)
        }
    }

    /// The lowest slot that holds a range starting at `addr`, or the
    /// table's length where there is none.
    pub open spec fn slot_of(self, addr: u64) -> int {
        self.slot_of_from(addr, 0)
    }

    /// The pool after the range in `slot` was released.
    pub open spec fn release(self, slot: int) -> VMPoolView {
        VMPoolView { entries: self.entries.update(slot, VMPoolEntry { start: 0, size: 0 }), ..self }
    }
}

/// The candidate address is not below the base nor below the end of any
/// reserved range in the slots it was taken over, and it is the base or one
/// of those ends.
pub proof fn lemma_high_water(base: int, entries: Seq<VMPoolEntry>, n: int)
    requires
        0 <= n <= entries.len(),
    ensures
        base <= high_water(base, entries, n),
        forall|i: int|
            0 <= i < n && (#[trigger] entries[i]).live() ==> entries[i].end_addr() <= high_water(
                base,
                entries,
                n,
            ),
        high_water(base, entries, n) == base || exists|i: int|
            0 <= i < n && (#[trigger] entries[i]).live() && entries[i].end_addr() == high_water(
                base,
                entries,
                n,
            ),
    decreases n,
{
    if n > 0 {
        lemma_high_water(base, entries, n - 1);
        let below = high_water(base, entries, n - 1);
        let entry = entries[n - 1];
        if entry.live() && below < entry.end_addr() {
        } else if below != base {
            let i = choose|i: int|
                0 <= i < n - 1 && (#[trigger] entries[i]).live() && entries[i].end_addr() == below;
            assert(entries[i].live() && entries[i].end_addr() == high_water(base, entries, n));
        }
    }
}

/// The slot found from `from` on is free, and no slot between `from` and it
/// is.
pub proof fn lemma_free_slot(entries: Seq<VMPoolEntry>, from: int)
    requires
        0 <= from <= entries.len(),
    ensures
        from <= free_slot_from(entries, from) <= entries.len(),
        free_slot_from(entries, from) < entries.len() ==> !entries[free_slot_from(
            entries,
            from,
        )].live(),
        forall|i: int| from <= i < free_slot_from(entries, from) ==> (#[trigger] entries[i]).live(),
    decreases entries.len() - from,
{
    if from < entries.len() && entries[from].live() {
        lemma_free_slot(entries, from + 1);
    }
}

/// The slot found for `addr` from `from` on holds a range that starts at
/// `addr`, and no slot between `from` and it does.
pub proof fn lemma_slot_of(pool: VMPoolView, addr: u64, from: int)
    requires
        0 <= from <= pool.entries.len(),
    ensures
        from <= pool.slot_of_from(addr, from) <= pool.entries.len(),
        pool.slot_of_from(addr, from) < pool.entries.len() ==> {
            let e = pool.entries[pool.slot_of_from(addr, from)];
            e.live() && e.start == addr
        },
        forall|i: int|
            from <= i < pool.slot_of_from(addr, from) ==> !((#[trigger] pool.entries[i]).live()
                && pool.entries[i].start == addr),
    decreases pool.entries.len() - from,
{
    if from < pool.entries.len() && !(pool.entries[from].live() && pool.entries[from].start
        == addr) {
        lemma_slot_of(pool, addr, from + 1);
    }
}

/// The page that holds the address `i` pages after `start`.
pub open spec fn span_page(start: u64, i: int) -> u64 {
    page_base((start + i * PAGE_SIZE) as u64) as u64
}

/// The committed pages that are left when the `n` pages from `start` on are
/// taken out.
pub open spec fn unmap_span(space: Map<u64, u64>, start: u64, n: int) -> Map<u64, u64>
    decreases n,
{
    if n <= 0 {
        space
    } else {
        unmap_span(space, start, n - 1).remove(span_page(start, n - 1))
    }
}

/// The frame pools after the frames behind the committed ones of the `n`
/// pages from `start` on were returned, page by page.
pub open spec fn free_span(
    frames: FramePoolsView,
    space: Map<u64, u64>,
    start: u64,
    n: int,
) -> FramePoolsView
    decreases n,
{
    if n <= 0 {
        frames
    } else {
        let before = free_span(frames, space, start, n - 1);
        let page = span_page(start, n - 1);
        if unmap_span(space, start, n - 1).dom().contains(page) {
            before.free_frame(space[page])
        } else {
            before
        }
    }
}

/// The committed ones of the `n` pages from `start` on, in rising order.
pub open spec fn committed_span(space: Map<u64, u64>, start: u64, n: int) -> Seq<u64>
    decreases n,
{
    if n <= 0 {
        Seq::empty()
    } else {
        let before = committed_span(space, start, n - 1);
        let page = span_page(start, n - 1);
        if unmap_span(space, start, n - 1).dom().contains(page) {
            before.push(page)
        } else {
            before
        }
    }
}

/// Taking pages out leaves every other page as it was, and none of those
/// taken out.
pub proof fn lemma_unmap_span(space: Map<u64, u64>, start: u64, n: int)
    requires
        0 <= n,
    ensures
        forall|p: u64| #[trigger]
            unmap_span(space, start, n).dom().contains(p) ==> space.dom().contains(p)
                && unmap_span(space, start, n)[p] == space[p],
        forall|i: int|
            0 <= i < n ==> !unmap_span(space, start, n).dom().contains(
                #[trigger] span_page(start, i),
            ),
        forall|p: u64|
            space.dom().contains(p) && (forall|i: int|
                0 <= i < n ==> p != #[trigger] span_page(start, i)) ==> #[trigger] unmap_span(
                space,
                start,
                n,
            ).dom().contains(p),
    decreases n,
{
    if n > 0 {
        lemma_unmap_span(space, start, n - 1);
        let before = unmap_span(space, start, n - 1);
        let after = unmap_span(space, start, n);
        assert(after == before.remove(span_page(start, n - 1)));
        assert forall|p: u64| #[trigger] after.dom().contains(p) implies space.dom().contains(p)
            && after[p] == space[p] by {
            assert(before.dom().contains(p));
        }
        assert forall|i: int| 0 <= i < n implies !after.dom().contains(
            #[trigger] span_page(start, i),
        ) by {
            if i < n - 1 {
                assert(!before.dom().contains(span_page(start, i)));
            }
        }
        assert forall|p: u64|
            space.dom().contains(p) && (forall|i: int|
                0 <= i < n ==> p != #[trigger] span_page(start, i)) implies #[trigger] after.dom().contains(
            p,
        ) by {
            assert(p != span_page(start, n - 1));
            assert(before.dom().contains(p));
        }
    }
}

/// Why a range of a pool could not be released.
#[derive(Clone, Copy, Debug, PartialEq, Eq, Structural)]
pub enum VMPoolError {
    /// No reserved range of the pool starts at the address.
    NoSuchEntry,
}

/// The reserved ranges of one window of virtual addresses. A range is
/// reserved without a frame behind any of its pages; frames come when the
/// pages are first touched.
pub struct VMPool {
    start_addr: u64,
    pool_size: u64,
    entries: [VMPoolEntry; 254],
}

impl View for VMPool {
    type V = VMPoolView;

    closed spec fn view(&self) -> VMPoolView {
        VMPoolView { base: self.start_addr, pages: self.pool_size, entries: self.entries@ }
    }
}

impl Default for VMPool {
    /// The pool over the window that every process has, with no range
    /// reserved.
    fn default() -> (pool: VMPool)
        ensures
            pool@ == VMPoolView::empty(HEAP_START, HEAP_SIZE >> PAGE_OFFSET_BITS),
    {
        assert(HEAP_SIZE >> PAGE_OFFSET_BITS == 0x4_0000) by (bit_vector);
        let pool = VMPool {
            start_addr: HEAP_START,
            pool_size: HEAP_SIZE >> PAGE_OFFSET_BITS,
            entries: [VMPoolEntry { start: 0, size: 0 };254],
        };
        assert(pool@.entries =~= VMPoolView::empty(
            HEAP_START,
            HEAP_SIZE >> PAGE_OFFSET_BITS,
        ).entries);
        pool
    }
}

impl VMPool {
    #[verifier::type_invariant]
    spec fn inv(self) -> bool {
        self@.wf()
    }

    /// Makes the pool cover the window of `_size` bytes, rounded down to
    /// whole pages, at `_base_addr`, with no range reserved.
    pub fn new(&mut self, _base_addr: u64, _size: u64)
        requires
            window_ok(_base_addr, _size >> PAGE_OFFSET_BITS),
        ensures
            final(self)@ == VMPoolView::empty(_base_addr, _size >> PAGE_OFFSET_BITS),
            final(self)@.wf(),
    {
        let fresh = VMPool {
            start_addr: _base_addr,
            pool_size: _size >> PAGE_OFFSET_BITS,
            entries: [VMPoolEntry { start: 0, size: 0 };254],
        };
        assert(fresh@.entries =~= VMPoolView::empty(
            _base_addr,
            _size >> PAGE_OFFSET_BITS,
        ).entries);
        *self = fresh;
    }

    /// Address of the first byte after the window.
    fn end_addr(&self) -> (end: u64)
        ensures
            end == self@.end_addr(),
            self@.wf(),
    {
        proof {
            use_type_invariant(self);
        }
        self.start_addr + self.pool_size * PAGE_SIZE
    }

    /// Whether the window holds `addr`.
    fn contained(&self, addr: u64) -> (inside: bool)
        ensures
            inside == self@.contains(addr as int),
    {
        addr >= self.start_addr && addr < self.end_addr()
    }

    /// The lowest free slot of the table, or 254 where there is none.
    fn find_free_slot(&self) -> (slot: usize)
        ensures
            slot == self@.free_slot(),
    {
        proof {
            use_type_invariant(self);
        }
        let mut slot: usize = 0;
        while slot < 254
            invariant
                slot <= 254,
                self@.entries.len() == POOL_ENTRIES,
                free_slot_from(self@.entries, slot as int) == self@.free_slot(),
            decreases 254 - slot,
        {
            if self.entries[slot].start == 0 {
                return slot;
            }
            slot += 1;
        }
        slot
    }

    /// The lowest slot with a range that starts at `addr`, or 254 where
    /// there is none.
    fn find_slot(&self, addr: u64) -> (slot: usize)
        ensures
            slot == self@.slot_of(addr),
    {
        proof {
            use_type_invariant(self);
        }
        let mut slot: usize = 0;
        while slot < 254
            invariant
                slot <= 254,
                self@.entries.len() == POOL_ENTRIES,
                self@.slot_of_from(addr, slot as int) == self@.slot_of(addr),
            decreases 254 - slot,
        {
            if self.entries[slot].start != 0 && self.entries[slot].start == addr {
                return slot;
            }
            slot += 1;
        }
        slot
    }

    /// Whether `addr` lies in the window and in a reserved range.
    pub fn is_legitimate(&self, addr: u64) -> (legitimate: bool)
        ensures
            legitimate == self@.legitimate(addr as int),
            legitimate ==> self@.contains(addr as int),
    {
        proof {
            use_type_invariant(self);
        }
        if !self.contained(addr) {
            assert(!self@.legitimate(addr as int));
            return false;
        }
        let mut i: usize = 0;
        while i < 254
            invariant
                i <= 254,
                self@.wf(),
                forall|j: int|
                    0 <= j < i ==> !((#[trigger] self@.entries[j]).live()
                        && self@.entries[j].covers(addr as int)),
            decreases 254 - i,
        {
            let entry: VMPoolEntry = self.entries[i];
            if entry.start != 0 {
                assert(self@.entries[i as int].live());
                if entry.contained(addr) {
                    return true;
                }
            }
            i += 1;
        }
        false
    }

    /// Reserves a range of `size` bytes, rounded up to whole pages, and
    /// returns its first address. The range starts where the highest
    /// reserved range ends, or at the base of the window. Returns `None`,
    /// and changes nothing, where the range would end after the window or
    /// the table is full.
    pub fn allocate(&mut self, size: usize) -> (addr: Option<u64>)
        ensures
            addr == if old(self)@.can_allocate(size as int) {
                Some(old(self)@.candidate() as u64)
            } else {
                None
            },
            final(self)@ == if old(self)@.can_allocate(size as int) {
                old(self)@.allocate(size as int)
            } else {
                old(self)@
            },
            old(self)@.wf(),
            final(self)@.wf(),
    {
        proof {
            use_type_invariant(&*self);
        }
        let bytes: u64 = size as u64;
        let pages: u64 = if bytes % PAGE_SIZE == 0 {
            bytes / PAGE_SIZE
        } else {
            bytes / PAGE_SIZE + 1
        };
        assert(pages == pages_for(size as int));
        let end: u64 = self.end_addr();
        let mut min_free: u64 = self.start_addr;
        let mut i: usize = 0;
        while i < 254
            invariant
                i <= 254,
                *self == *old(self),
                self@.wf(),
                min_free == high_water(self@.base as int, self@.entries, i as int),
                self@.base <= min_free <= self@.end_addr(),
            decreases 254 - i,
        {
            let entry: VMPoolEntry = self.entries[i];
            if entry.start != 0 {
                assert(self@.entries[i as int].live());
                let entry_end: u64 = entry.end();
                if min_free < entry_end {
                    min_free = entry_end;
                }
            }
            i += 1;
        }
        if pages > (end - min_free) / PAGE_SIZE {
            assert(min_free + pages * PAGE_SIZE > end);
            return None;
        }
        assert(min_free + pages * PAGE_SIZE <= end);
        let slot: usize = self.find_free_slot();
        if slot >= 254 {
            return None;
        }
        proof {
            lemma_high_water(self@.base as int, self@.entries, 254);
            lemma_free_slot(self@.entries, 0);
        }
        let mut entry: VMPoolEntry = self.entries[slot];
        entry.update_val(min_free, pages);
        self.entries[slot] = entry;
        proof {
            use_type_invariant(&*self);
        }
        Some(min_free)
    }

    /// Releases the reserved range that starts at `addr`: takes every
    /// committed page of the range out of `space`, returns the frames
    /// behind them to `frames`, and frees the slot. Returns the pages that
    /// were committed, for the caller to take out of the page tables and
    /// to flush. Where no reserved range starts at `addr`,
    /// says so and changes nothing.
    pub fn release(
        &mut self,
        addr: u64,
        space: &mut AddressSpace,
        frames: &mut FramePools,
    ) -> (released: Result<Vec<u64>, VMPoolError>)
        requires
            old(space).wf(),
            old(frames)@.wf(),
        ensures
            final(space).wf(),
            final(frames)@.wf(),
            old(self)@.wf(),
            final(self)@.wf(),
            old(self)@.slot_of(addr) >= POOL_ENTRIES ==> {
                &&& released == Err::<Vec<u64>, VMPoolError>(VMPoolError::NoSuchEntry)
                &&& final(self)@ == old(self)@
                &&& final(space)@ == old(space)@
                &&& final(frames)@ == old(frames)@
            },
            old(self)@.slot_of(addr) < POOL_ENTRIES ==> {
                let slot = old(self)@.slot_of(addr);
                let n = old(self)@.entries[slot].size as int;
                &&& released matches Ok(pages) && pages@ == committed_span(old(space)@, addr, n)
                &&& final(self)@ == old(self)@.release(slot)
                &&& final(space)@ == unmap_span(old(space)@, addr, n)
                &&& final(frames)@ == free_span(old(frames)@, old(space)@, addr, n)
            },
    {
        proof {
            use_type_invariant(&*self);
            lemma_slot_of(self@, addr, 0);
        }
        let slot: usize = self.find_slot(addr);
        if slot >= 254 {
            return Err(VMPoolError::NoSuchEntry);
        }
        let entry: VMPoolEntry = self.entries[slot];
        assert(self@.entries[slot as int].live());
        assert(self@.end_addr() <= u64::MAX);
        assert forall|a: u64| entry.start <= a <= entry.end_addr() implies canonical(a) by {
            assert(self@.base <= a <= self@.end_addr());
        }
        let mut pages: Vec<u64> = Vec::new();
        let mut i: u64 = 0;
        while i < entry.size
            invariant
                i <= entry.size,
                entry.start == addr,
                entry.end_addr() <= u64::MAX,
                forall|a: u64| entry.start <= a <= entry.end_addr() ==> canonical(a),
                space.wf(),
                frames@.wf(),
                pages@ == committed_span(old(space)@, addr, i as int),
                space@ == unmap_span(old(space)@, addr, i as int),
                frames@ == free_span(old(frames)@, old(space)@, addr, i as int),
            decreases entry.size - i,
        {
            let mut free_addr: u64 = entry.start;
            free_addr += i * PAGE_SIZE;
            proof {
                lemma_unmap_span(old(space)@, addr, i as int);
            }
            match space.free_page(frames, free_addr) {
                Some(page) => {
                    pages.push(page);
                },
                None => {},
            }
            i += 1;
        }
        let mut freed: VMPoolEntry = entry;
        freed.free_entry();
        self.entries[slot] = freed;
        proof {
            use_type_invariant(&*self);
        }
        Ok(pages)
    }
}

/// One call on a pool: a request for `size` bytes, or the release of the
/// range that starts at `addr`.
pub enum PoolOp {
    Allocate { size: nat },
    Release { addr: u64 },
}

/// The pool after the call `op`.
pub open spec fn step_pool_op(pool: VMPoolView, op: PoolOp) -> VMPoolView {
    match op {
        PoolOp::Allocate { size } => if pool.can_allocate(size as int) {
            pool.allocate(size as int)
        } else {
            pool
        },
        PoolOp::Release { addr } => if pool.slot_of(addr) < pool.entries.len() {
            pool.release(pool.slot_of(addr))
        } else {
            pool
        },
    }
}

/// The pool after the calls `ops` in their order.
pub open spec fn run_pool_ops(pool: VMPoolView, ops: Seq<PoolOp>) -> VMPoolView
    decreases ops.len(),
{
    if ops.len() == 0 {
        pool
    } else {
        step_pool_op(run_pool_ops(pool, ops.drop_last()), ops.last())
    }
}

/// A request that is met leaves the pool valid: the new range lies in the
/// window and overlaps no range that was reserved before.
pub proof fn lemma_allocate_keeps_ranges_apart(pool: VMPoolView, size: nat)
    requires
        pool.wf(),
        pool.can_allocate(size as int),
    ensures
        pool.allocate(size as int).wf(),
{
    lemma_high_water(pool.base as int, pool.entries, pool.entries.len() as int);
    lemma_free_slot(pool.entries, 0);
}

/// Whatever requests and releases were made on a pool, every reserved range
/// lies in the window and no two reserved ranges overlap.
pub proof fn lemma_ranges_never_overlap(pool: VMPoolView, ops: Seq<PoolOp>)
    requires
        pool.wf(),
    ensures
        run_pool_ops(pool, ops).wf(),
    decreases ops.len(),
{
    if ops.len() > 0 {
        lemma_ranges_never_overlap(pool, ops.drop_last());
        let before = run_pool_ops(pool, ops.drop_last());
        match ops.last() {
            PoolOp::Allocate { size } => {
                if before.can_allocate(size as int) {
                    lemma_allocate_keeps_ranges_apart(before, size);
                }
            },
            PoolOp::Release { addr } => {
                lemma_slot_of(before, addr, 0);
            },
        }
    }
}

/// Every address of a pool's window, its end included, is canonical.
pub proof fn lemma_window_canonical(pool: VMPoolView, addr: int)
    requires
        pool.wf(),
        pool.base <= addr <= pool.end_addr(),
    ensures
        0 < addr <= u64::MAX,
        canonical(addr as u64),
{
}

/// Every reserved range lies in the window, so an address that a reserved
/// range holds is an address of the window.
pub proof fn lemma_legitimate_in_window(pool: VMPoolView, addr: int)
    requires
        pool.wf(),
        pool.legitimate(addr),
    ensures
        pool.contains(addr),
{
}

/// Right after a request was met, every address of the new range is
/// legitimate.
pub proof fn lemma_allocated_is_legitimate(pool: VMPoolView, size: nat, addr: int)
    requires
        pool.wf(),
        pool.can_allocate(size as int),
        pool.candidate() <= addr < pool.candidate() + pages_for(size as int) * PAGE_SIZE,
    ensures
        pool.allocate(size as int).legitimate(addr),
{
    lemma_high_water(pool.base as int, pool.entries, pool.entries.len() as int);
    lemma_free_slot(pool.entries, 0);
    let after = pool.allocate(size as int);
    assert(after.entries[pool.free_slot()].live());
    assert(after.entries[pool.free_slot()].covers(addr));
}

/// Right after a range was released, no address that it held is
/// legitimate.
pub proof fn lemma_released_not_legitimate(pool: VMPoolView, slot: int, addr: int)
    requires
        pool.wf(),
        0 <= slot < pool.entries.len(),
        pool.entries[slot].live(),
        pool.entries[slot].covers(addr),
    ensures
        !pool.release(slot).legitimate(addr),
{
    let after = pool.release(slot);
    assert forall|i: int| 0 <= i < after.entries.len() && (#[trigger] after.entries[i]).live()
        implies !after.entries[i].covers(addr) by {
        assert(i != slot);
        assert(pool.entries[i].live());
        assert(!pool.entries[i].overlaps(pool.entries[slot]));
    }
}

/// Right after a range that starts on a page boundary was released, no
/// page of the range is committed: an access to an address that the range
/// held faults, and the fault finds the address not legitimate.
pub proof fn lemma_release_revokes(pool: VMPoolView, space: Map<u64, u64>, slot: int, addr: u64)
    requires
        pool.wf(),
        0 <= slot < pool.entries.len(),
        pool.entries[slot].live(),
        pool.entries[slot].start % PAGE_SIZE == 0,
        pool.entries[slot].covers(addr as int),
    ensures
        !pool.release(slot).legitimate(addr as int),
        !unmap_span(
            space,
            pool.entries[slot].start,
            pool.entries[slot].size as int,
        ).dom().contains(page_base(addr) as u64),
{
    lemma_released_not_legitimate(pool, slot, addr as int);
    let entry = pool.entries[slot];
    lemma_unmap_span(space, entry.start, entry.size as int);
    let i = (addr - entry.start) / (PAGE_SIZE as int);
    assert(0 <= i < entry.size);
    assert(entry.start + i * PAGE_SIZE <= u64::MAX);
    assert(span_page(entry.start, i) == page_base(addr) as u64);
}

} // verus!
