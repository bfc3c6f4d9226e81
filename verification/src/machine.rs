use vstd::prelude::*;

verus! {

/// First physical address above the memory that belongs to the kernel.
pub const KERNEL_SPACE: u64 = 0x40_0000;

/// Virtual address at which the kernel's physical memory is linearly mapped.
pub const KERNEL_VIR_START: u64 = 0x3fe0_0000;

/// First physical address of the kernel's own memory.
pub const KERNEL_PHY_START: u64 = 0x20_0000;

/// Size in bytes of a page and of a physical frame.
pub const PAGE_SIZE: u64 = 0x1000;

/// Number of address bits that select a byte within a page.
pub const PAGE_OFFSET_BITS: u8 = 12;

/// First virtual address of the window that a process may reserve.
pub const HEAP_START: u64 = 0x4000_0000;

/// Size in bytes of the window that a process may reserve.
pub const HEAP_SIZE: u64 = 0x4000_0000;

/// Virtual address of the active level 4 page table, through the recursive slot.
pub const L4_PAGE_TABLE_VADDR: u64 = 0xffff_ffff_ffff_f000;

/// Virtual address of the first level 3 page table, through the recursive slot.
pub const L3_PAGE_TABLE_VADDR: u64 = 0xffff_ffff_ffe0_0000;

/// Virtual address of the first level 2 page table, through the recursive slot.
pub const L2_PAGE_TABLE_VADDR: u64 = 0xffff_ffff_c000_0000;

} // verus!
