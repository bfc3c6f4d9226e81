use vstd::prelude::*;
use crate::machine::PAGE_SIZE;
use x86_64::structures::paging::{Page, PhysFrame, Size4KiB};
use x86_64::{PhysAddr, VirtAddr};

verus! {

/// Physical addresses are below this bound: they have 52 bits.
pub const PHYS_ADDR_LIMIT: u64 = 0x10_0000_0000_0000;

/// First address above the lower half of the canonical virtual addresses.
pub const LOWER_HALF_END: u64 = 0x8000_0000_0000;

/// First address of the upper half of the canonical virtual addresses.
pub const UPPER_HALF_START: u64 = 0xffff_8000_0000_0000;

/// Whether `addr` is a canonical virtual address: bits 48 to 63 repeat bit 47.
pub open spec fn canonical(addr: u64) -> bool {
    addr < LOWER_HALF_END || addr >= UPPER_HALF_START
}

/// The address of the first byte of the page or frame that holds `addr`.
pub open spec fn page_base(addr: u64) -> int {
    addr - addr % PAGE_SIZE
}

/// Start address of the 4 KiB frame that holds the physical address `addr`.
///
/// Trusted: calls `PhysFrame::containing_address` of the crate `x86_64` on
/// `PhysAddr::new(addr)`. The claim is that the frame starts at `addr`
/// rounded down to a multiple of the page size. `PhysAddr::new` panics on
/// an address of 52 bits or more, which the precondition excludes.
#[verifier::external_body]
pub(crate) fn frame_containing(addr: u64) -> (base: u64)
    requires
        addr < PHYS_ADDR_LIMIT,
    ensures
        base == page_base(addr),
{
    PhysFrame::<Size4KiB>::containing_address(PhysAddr::new(addr)).start_address().as_u64()
}

/// Start address of the 4 KiB page that holds the virtual address `addr`.
///
/// Trusted: calls `Page::containing_address` of the crate `x86_64` on
/// `VirtAddr::new(addr)`. The claim is that the page starts at `addr`
/// rounded down to a multiple of the page size. `VirtAddr::new` panics on
/// an address that is not canonical, which the precondition excludes.
#[verifier::external_body]
pub(crate) fn page_containing(addr: u64) -> (base: u64)
    requires
        canonical(addr),
    ensures
        base == page_base(addr),
{
    Page::<Size4KiB>::containing_address(VirtAddr::new(addr)).start_address().as_u64()
}

/// Whether `addr` is a canonical virtual address.
pub fn is_canonical(addr: u64) -> (ok: bool)
    ensures
        ok == canonical(addr),
{
    addr < LOWER_HALF_END || addr >= UPPER_HALF_START
}

} // verus!
