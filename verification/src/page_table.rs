use vstd::prelude::*;
use crate::addr::{canonical, page_base, page_containing};
use crate::machine::{KERNEL_PHY_START, PAGE_SIZE};
use crate::memory::FramePools;

verus! {

/// Flag of a page table entry: the mapped frame or table is in memory.
pub const PRESENT: u64 = 1;

/// Flag of a page table entry: writes through the mapping are allowed.
pub const WRITABLE: u64 = 2;

/// Flag of a page table entry: the entry maps a huge frame, not a table.
pub const HUGE_PAGE: u64 = 0x80;

/// Number of entries of a page table.
pub const TABLE_ENTRIES: usize = 512;

/// Slot of a level 4 table that maps the table itself.
pub const RECURSIVE_SLOT: usize = 511;

/// One page table entry: the physical address it maps and its flags. An
/// entry with neither is unused.
#[derive(Clone, Copy, Debug, PartialEq, Eq, Structural)]
pub struct PageEntry {
    pub addr: u64,
    pub flags: u64,
}

impl PageEntry {
    /// The entry that maps nothing.
    pub open spec fn unused() -> PageEntry {
        PageEntry { addr: 0, flags: 0 }
    }

    /// Whether the entry maps nothing.
    pub fn is_unused(&self) -> (unused: bool)
        ensures
            unused == (*self == PageEntry::unused()),
    {
        self.addr == 0 && self.flags == 0
    }
}

/// One page table, as the 512 entries it holds.
pub struct PageTable {
    entries: [PageEntry; 512],
}

impl View for PageTable {
    type V = Seq<PageEntry>;

    closed spec fn view(&self) -> Seq<PageEntry> {
        self.entries@
    }
}

impl PageTable {
    /// A table of unused entries.
    pub fn new() -> (table: PageTable)
        ensures
            table@ == Seq::new(TABLE_ENTRIES as nat, |i: int| PageEntry::unused()),
    {
        let table = PageTable { entries: [PageEntry { addr: 0, flags: 0 };512] };
        assert(table@ =~= Seq::new(TABLE_ENTRIES as nat, |i: int| PageEntry::unused()));
        table
    }

    /// A table has 512 entries.
    pub proof fn lemma_len(&self)
        ensures
            self@.len() == TABLE_ENTRIES,
    {
    }

    /// Makes every entry unused.
    pub fn zero(&mut self)
        ensures
            final(self)@ == Seq::new(TABLE_ENTRIES as nat, |i: int| PageEntry::unused()),
    {
        self.entries = [PageEntry { addr: 0, flags: 0 };512];
        assert(self@ =~= Seq::new(TABLE_ENTRIES as nat, |i: int| PageEntry::unused()));
    }

    /// The entry in slot `index`.
    pub fn get(&self, index: usize) -> (entry: PageEntry)
        requires
            index < TABLE_ENTRIES,
        ensures
            entry == self@[index as int],
    {
        self.entries[index]
    }

    /// Writes `entry` to slot `index`.
    pub fn set(&mut self, index: usize, entry: PageEntry)
        requires
            index < TABLE_ENTRIES,
        ensures
            final(self)@ == old(self)@.update(index as int, entry),
    {
        self.entries[index] = entry;
    }
}

/// The level 1 table that maps the first 2 MiB of virtual memory to the
/// physical addresses of the same value: entry `i` maps page `i` to frame
/// `i`, present and writable.
pub fn low_memory_table() -> (table: PageTable)
    ensures
        table@ == Seq::new(
            TABLE_ENTRIES as nat,
            |i: int| PageEntry { addr: (i * PAGE_SIZE) as u64, flags: PRESENT | WRITABLE },
        ),
{
    let mut table = PageTable::new();
    let mut i: usize = 0;
    while i < 512
        invariant
            i <= 512,
            table@.len() == TABLE_ENTRIES,
            forall|j: int|
                0 <= j < i ==> table@[j] == (PageEntry {
                    addr: (j * PAGE_SIZE) as u64,
                    flags: PRESENT | WRITABLE,
                }),
        decreases 512 - i,
    {
        table.set(i, PageEntry { addr: i as u64 * PAGE_SIZE, flags: PRESENT | WRITABLE });
        i += 1;
    }
    assert(table@ =~= Seq::new(
        TABLE_ENTRIES as nat,
        |i: int| PageEntry { addr: (i * PAGE_SIZE) as u64, flags: PRESENT | WRITABLE },
    ));
    table
}

/// The level 2 entry that maps the 2 MiB below the first GiB of virtual
/// memory to the kernel's own physical memory, as one huge page.
pub fn kernel_window_entry() -> (entry: PageEntry)
    ensures
        entry == (PageEntry { addr: KERNEL_PHY_START, flags: PRESENT | WRITABLE | HUGE_PAGE }),
{
    PageEntry { addr: KERNEL_PHY_START, flags: PRESENT | WRITABLE | HUGE_PAGE }
}

/// One committed page: the page's virtual address and the physical address
/// of the frame behind it.
#[derive(Clone, Copy, Debug, PartialEq, Eq, Structural)]
pub struct PageMapping {
    pub page: u64,
    pub frame: u64,
}

/// The map from pages to frames that a list of mappings stands for; of two
/// mappings of one page the later one counts.
pub open spec fn mappings_to_map(list: Seq<PageMapping>) -> Map<u64, u64>
    decreases list.len(),
{
    if list.len() == 0 {
        Map::empty()
    } else {
        mappings_to_map(list.drop_last()).insert(list.last().page, list.last().frame)
    }
}

/// Whether no two mappings of the list are of the same page.
pub open spec fn distinct_pages(list: Seq<PageMapping>) -> bool {
    forall|i: int, j: int|
        0 <= i < list.len() && 0 <= j < list.len() && i != j ==> (#[trigger] list[i]).page != (
        #[trigger] list[j]).page
}

/// A page is in the map exactly if the list holds a mapping of it, and the
/// map gives the frame of that mapping where the list holds one only.
pub proof fn lemma_mappings(list: Seq<PageMapping>)
    ensures
        mappings_to_map(list).dom().finite(),
        forall|p: u64| #[trigger]
            mappings_to_map(list).dom().contains(p) <==> exists|i: int|
                0 <= i < list.len() && (#[trigger] list[i]).page == p,
        distinct_pages(list) ==> forall|i: int|
            0 <= i < list.len() ==> mappings_to_map(list)[(#[trigger] list[i]).page]
                == list[i].frame,
    decreases list.len(),
{
    if list.len() > 0 {
        let front = list.drop_last();
        lemma_mappings(front);
        assert forall|p: u64| #[trigger]
            mappings_to_map(list).dom().contains(p) <==> exists|i: int|
                0 <= i < list.len() && (#[trigger] list[i]).page == p by {
            if mappings_to_map(list).dom().contains(p) {
                if p == list.last().page {
                    assert(list[list.len() - 1].page == p);
                } else {
                    assert(mappings_to_map(front).dom().contains(p));
                    let i = choose|i: int| 0 <= i < front.len() && (#[trigger] front[i]).page == p;
                    assert(list[i].page == p);
                }
            }
            if exists|i: int| 0 <= i < list.len() && (#[trigger] list[i]).page == p {
                let i = choose|i: int| 0 <= i < list.len() && (#[trigger] list[i]).page == p;
                if i < list.len() - 1 {
                    assert(front[i].page == p);
                }
            }
        }
        if distinct_pages(list) {
            assert(distinct_pages(front)) by {
                assert forall|i: int, j: int|
                    0 <= i < front.len() && 0 <= j < front.len() && i != j implies (
                #[trigger] front[i]).page != (#[trigger] front[j]).page by {
                    assert(list[i].page != list[j].page);
                }
            }
            assert forall|i: int| 0 <= i < list.len() implies mappings_to_map(list)[(
            #[trigger] list[i]).page] == list[i].frame by {
                if i < list.len() - 1 {
                    assert(front[i].page == list[i].page);
                    assert(list[i].page != list[list.len() - 1].page);
                }
            }
        }
    }
}

/// Taking one mapping out of a list of distinct pages takes its page out of
/// the map.
pub proof fn lemma_mappings_remove(list: Seq<PageMapping>, at: int)
    requires
        0 <= at < list.len(),
        distinct_pages(list),
    ensures
        distinct_pages(list.remove(at)),
        mappings_to_map(list.remove(at)) == mappings_to_map(list).remove(list[at].page),
{
    let rest = list.remove(at);
    assert forall|i: int, j: int| 0 <= i < rest.len() && 0 <= j < rest.len() && i != j implies (
    #[trigger] rest[i]).page != (#[trigger] rest[j]).page by {
        let a = if i < at {
            i
        } else {
            i + 1
        };
        let b = if j < at {
            j
        } else {
            j + 1
        };
        assert(list[a].page != list[b].page);
    }
    lemma_mappings(list);
    lemma_mappings(rest);
    let left = mappings_to_map(rest);
    let right = mappings_to_map(list).remove(list[at].page);
    assert forall|p: u64| left.dom().contains(p) <==> right.dom().contains(p) by {
        if left.dom().contains(p) {
            let i = choose|i: int| 0 <= i < rest.len() && (#[trigger] rest[i]).page == p;
            let a = if i < at {
                i
            } else {
                i + 1
            };
            assert(list[a].page == p);
            assert(list[a].page != list[at].page);
        }
        if right.dom().contains(p) {
            let a = choose|a: int| 0 <= a < list.len() && (#[trigger] list[a]).page == p;
            let i = if a < at {
                a
            } else {
                a - 1
            };
            assert(rest[i].page == p);
        }
    }
    assert forall|p: u64| left.dom().contains(p) implies left[p] == right[p] by {
        let i = choose|i: int| 0 <= i < rest.len() && (#[trigger] rest[i]).page == p;
        let a = if i < at {
            i
        } else {
            i + 1
        };
        assert(list[a].page == p);
        assert(left[rest[i].page] == rest[i].frame);
        assert(mappings_to_map(list)[list[a].page] == list[a].frame);
    }
    assert(left =~= right);
}

/// The committed pages of one address space: which page has which frame
/// behind it.
pub struct AddressSpace {
    mappings: Vec<PageMapping>,
}

impl View for AddressSpace {
    type V = Map<u64, u64>;

    closed spec fn view(&self) -> Map<u64, u64> {
        mappings_to_map(self.mappings@)
    }
}

impl AddressSpace {
    /// No page has two frames.
    pub closed spec fn wf(&self) -> bool {
        distinct_pages(self.mappings@)
    }

    /// An address space with no committed page.
    pub fn new() -> (space: AddressSpace)
        ensures
            space.wf(),
            space@ == Map::<u64, u64>::empty(),
    {
        AddressSpace { mappings: Vec::new() }
    }

    /// The slot of the mapping of `page`, if the space holds one.
    fn find(&self, page: u64) -> (slot: Option<usize>)
        requires
            self.wf(),
        ensures
            slot is Some == self@.dom().contains(page),
            slot matches Some(i) ==> i < self.mappings@.len() && self.mappings@[i as int].page
                == page && self@[page] == self.mappings@[i as int].frame,
    {
        let mut i: usize = 0;
        while i < self.mappings.len()
            invariant
                self.wf(),
                i <= self.mappings.len(),
                forall|j: int| 0 <= j < i ==> (#[trigger] self.mappings@[j]).page != page,
            decreases self.mappings.len() - i,
        {
            if self.mappings[i].page == page {
                proof {
                    lemma_mappings(self.mappings@);
                }
                return Some(i);
            }
            i += 1;
        }
        proof {
            lemma_mappings(self.mappings@);
        }
        None
    }

    /// The frame behind `page`, if the page is committed.
    pub fn frame_of(&self, page: u64) -> (frame: Option<u64>)
        requires
            self.wf(),
        ensures
            frame == if self@.dom().contains(page) {
                Some(self@[page])
            } else {
                None
            },
    {
        match self.find(page) {
            Some(i) => Some(self.mappings[i].frame),
            None => None,
        }
    }

    /// Commits `page` with `frame` behind it. Refuses, and changes nothing,
    /// where the page is committed already.
    pub fn map_to(&mut self, page: u64, frame: u64) -> (mapped: bool)
        requires
            old(self).wf(),
        ensures
            final(self).wf(),
            mapped == !old(self)@.dom().contains(page),
            final(self)@ == if mapped {
                old(self)@.insert(page, frame)
            } else {
                old(self)@
            },
    {
        match self.find(page) {
            Some(_) => false,
            None => {
                proof {
                    lemma_mappings(self.mappings@);
                }
                self.mappings.push(PageMapping { page, frame });
                proof {
                    assert(self.mappings@.drop_last() =~= old(self).mappings@);
                }
                true
            },
        }
    }

    /// Takes the mapping of `page` out of the space and returns the frame
    /// that was behind it; `None`, and no change, where the page is not
    /// committed.
    pub fn unmap(&mut self, page: u64) -> (frame: Option<u64>)
        requires
            old(self).wf(),
        ensures
            final(self).wf(),
            frame == if old(self)@.dom().contains(page) {
                Some(old(self)@[page])
            } else {
                None
            },
            final(self)@ == old(self)@.remove(page),
    {
        match self.find(page) {
            Some(i) => {
                proof {
                    lemma_mappings_remove(self.mappings@, i as int);
                }
                let mapping: PageMapping = self.mappings.remove(i);
                Some(mapping.frame)
            },
            None => {
                assert(self@ =~= self@.remove(page));
                None
            },
        }
    }

    /// Takes the page that holds `addr` out of the space and returns its
    /// frame to the frame pools. Returns the page, for the caller to take
    /// out of the page tables and to flush; `None`, and no change, where
    /// the page is not committed.
    pub fn free_page(&mut self, frames: &mut FramePools, addr: u64) -> (page: Option<u64>)
        requires
            old(self).wf(),
            old(frames)@.wf(),
            canonical(addr),
        ensures
            final(self).wf(),
            final(frames)@.wf(),
            final(self)@ == old(self)@.remove(page_base(addr) as u64),
            page == if old(self)@.dom().contains(page_base(addr) as u64) {
                Some(page_base(addr) as u64)
            } else {
                None
            },
            final(frames)@ == if old(self)@.dom().contains(page_base(addr) as u64) {
                old(frames)@.free_frame(old(self)@[page_base(addr) as u64])
            } else {
                old(frames)@
            },
    {
        let page: u64 = page_containing(addr);
        match self.unmap(page) {
            Some(frame) => {
                let _ = frames.free_frame(frame);
                Some(page)
            },
            None => None,
        }
    }

    /// Number of committed pages.
    pub fn len(&self) -> (count: usize)
        requires
            self.wf(),
        ensures
            count == self@.dom().len(),
    {
        proof {
            lemma_mappings_count(self.mappings@);
        }
        self.mappings.len()
    }
}

/// A list of distinct pages stands for a map of as many pages.
pub proof fn lemma_mappings_count(list: Seq<PageMapping>)
    requires
        distinct_pages(list),
    ensures
        mappings_to_map(list).dom().finite(),
        mappings_to_map(list).dom().len() == list.len(),
    decreases list.len(),
{
    lemma_mappings(list);
    if list.len() > 0 {
        let front = list.drop_last();
        assert(distinct_pages(front)) by {
            assert forall|i: int, j: int|
                0 <= i < front.len() && 0 <= j < front.len() && i != j implies (
            #[trigger] front[i]).page != (#[trigger] front[j]).page by {
                assert(list[i].page != list[j].page);
            }
        }
        lemma_mappings_count(front);
        lemma_mappings(front);
        if mappings_to_map(front).dom().contains(list.last().page) {
            let i = choose|i: int|
                0 <= i < front.len() && (#[trigger] front[i]).page == list.last().page;
            assert(list[i].page == list[list.len() - 1].page);
        }
    }
}

} // verus!
