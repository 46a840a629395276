//! Memory management: addresses, frames, page tables and address spaces.

pub mod address;
pub mod elf;
pub mod frame_allocator;
pub mod memory_set;
pub mod page_table;
pub mod user_access;

use vstd::prelude::*;
use crate::config::{MEMORY_END, MMIO_BASE, MMIO_SIZE};
use self::address::{pages_up, PhysAddr, PA_LIMIT};
use self::frame_allocator::StackFrameAllocator;
use self::memory_set::{map_cost_of, section_cost, KernelLayout, MapType, MemorySet};

verus! {

/// Number of frames between the end of the kernel image and the end of
/// memory.
pub open spec fn frames_behind(layout: &KernelLayout) -> int {
    MEMORY_END as int / 4096 - pages_up(layout.ekernel as int)
}

/// Most frames that the tables of the identity-mapped section
/// `start .. end` can take.
fn section_cost_of(start: u64, end: u64) -> (r: u64)
    requires
        start <= end <= MEMORY_END,
    ensures
        r == section_cost(start, end),
        r <= 0x1000_0000,
{
    reveal(section_cost);
    map_cost_of(PhysAddr(start).floor().0, PhysAddr(end).ceil().0, MapType::Identical)
}

/// Whether the kernel's address space can be built for this layout: the
/// layout is well formed and the memory behind the kernel image holds the
/// frames that the tables can take.
pub fn layout_fits(layout: &KernelLayout) -> (r: bool)
    ensures
        r == (layout.wf() && frames_behind(layout) >= layout.cost()),
{
    let mmio_end: u64 = MMIO_BASE + MMIO_SIZE;
    let ordered = PhysAddr(mmio_end).ceil().0 <= layout.stext / 4096 && layout.stext <= layout.etext && PhysAddr(
        layout.etext,
    ).ceil().0 <= layout.srodata / 4096 && layout.srodata <= layout.erodata && PhysAddr(layout.erodata).ceil().0
        <= layout.sdata / 4096 && layout.sdata <= layout.edata && PhysAddr(layout.edata).ceil().0
        <= layout.sbss_with_stack / 4096 && layout.sbss_with_stack <= layout.ebss && PhysAddr(layout.ebss).ceil().0
        <= layout.ekernel / 4096 && layout.ekernel <= MEMORY_END && layout.strampoline % 4096 == 0
        && layout.strampoline < PA_LIMIT;
    if !ordered {
        return false;
    }
    let cost: u64 = 3 + section_cost_of(layout.stext, layout.etext) + section_cost_of(layout.srodata, layout.erodata)
        + section_cost_of(layout.sdata, layout.edata) + section_cost_of(layout.sbss_with_stack, layout.ebss)
        + section_cost_of(layout.ekernel, MEMORY_END) + section_cost_of(MMIO_BASE, mmio_end);
    let frames: u64 = MEMORY_END / 4096 - PhysAddr(layout.ekernel).ceil().0;
    frames >= cost
}

/// Sets up memory management: a frame allocator over the frames between the
/// end of the kernel image and the end of memory, and the kernel's address
/// space on frames from it.
pub fn init(layout: &KernelLayout) -> (r: (StackFrameAllocator, MemorySet))
    requires
        layout.wf(),
        frames_behind(layout) >= layout.cost(),
    ensures
        r.0.wf(),
        r.1.wf(),
        r.0@.start == pages_up(layout.ekernel as int),
        r.0@.end == MEMORY_END / 4096,
        r.1.ppns() == r.0.allocated(),
        r.1.only_areas_mapped(),
        r.0.available() >= frames_behind(layout) - layout.cost(),
        r.1.spec_trampoline() == Some(PhysAddr(layout.strampoline).floor()),
        r.1.spec_areas().len() == 6,
        forall|i: int|
            0 <= i < 6 ==> (#[trigger] r.1.spec_areas()[i]).spec_start() == layout.sections()[i].0 / 4096
                && r.1.spec_areas()[i].spec_end() == pages_up(layout.sections()[i].1 as int),
        r.1.free_outside((MMIO_BASE / 4096) as u64, pages_up(MEMORY_END as int) as u64),
{
    let mut allocator = StackFrameAllocator::new();
    allocator.init(PhysAddr(layout.ekernel).ceil(), PhysAddr(MEMORY_END).floor());
    let ghost a0 = allocator@;
    let kernel_space = MemorySet::new_kernel(&mut allocator, layout);
    proof {
        assert forall|q: u64| allocator.allocated().contains(q) implies kernel_space.ppns().contains(q) by {
            if !kernel_space.ppns().contains(q) {
                assert(allocator.allocated().difference(kernel_space.ppns()).contains(q));
                assert(a0.allocated().difference(Set::<u64>::empty()).contains(q));
            }
        }
        assert(kernel_space.ppns() =~= allocator.allocated());
    }
    (allocator, kernel_space)
}

} // verus!
