//! Constants of the memory layout and the platform.

use vstd::prelude::*;

verus! {

/// Size in bytes of the initial user stack.
pub const USER_STACK_SIZE: usize = 4096;

/// Size in bytes of each task's kernel stack.
pub const KERNEL_STACK_SIZE: usize = 8192;

/// Ticks of the platform counter per second.
pub const CLOCK_FREQ: usize = 12500000;

/// End of usable physical memory.
pub const MEMORY_END: u64 = 0x80800000;

/// Size in bytes of the kernel heap.
pub const KERNEL_HEAP_SIZE: usize = 0x30_0000;

pub const PAGE_SIZE: usize = 0x1000;

pub const PAGE_SIZE_BITS: usize = 12;

pub const PA_WIDTH_SV39: usize = 56;

pub const VA_WIDTH_SV39: usize = 39;

pub const PPN_WIDTH_SV39: usize = 44;

pub const VPN_WIDTH_SV39: usize = 27;

/// Virtual address of the trampoline page: the top page of every address space.
pub const TRAMPOLINE: u64 = 0xffff_ffff_ffff_f000;

/// Virtual address of the trap-context page, just below the trampoline.
pub const TRAP_CONTEXT: u64 = 0xffff_ffff_ffff_e000;

/// Start of the memory-mapped device region that the kernel maps onto itself.
pub const MMIO_BASE: u64 = 0x0010_0000;

/// Length in bytes of the memory-mapped device region.
pub const MMIO_SIZE: u64 = 0x2000;

/// Largest task number whose kernel stack still lies in the upper half of the
/// 39-bit virtual space.
pub const MAX_APP_ID: usize = 0x155_5554;

/// Top of the kernel stack of task `app_id`: stacks are laid out downward from
/// the trampoline, one unmapped guard page between neighbours.
pub open spec fn kernel_stack_top(app_id: int) -> int {
    TRAMPOLINE as int - app_id * (KERNEL_STACK_SIZE as int + PAGE_SIZE as int)
}

/// Bottom of the kernel stack of task `app_id`.
pub open spec fn kernel_stack_bottom(app_id: int) -> int {
    kernel_stack_top(app_id) - KERNEL_STACK_SIZE as int
}

/// The half-open virtual range `(bottom, top)` of the kernel stack of `app_id`.
pub fn kernel_stack_position(app_id: usize) -> (r: (u64, u64))
    requires
        app_id <= MAX_APP_ID,
    ensures
        r.0 == kernel_stack_bottom(app_id as int),
        r.1 == kernel_stack_top(app_id as int),
        r.1 - r.0 == KERNEL_STACK_SIZE,
{
    let top: u64 = TRAMPOLINE - (app_id as u64) * 12288;
    let bottom: u64 = top - KERNEL_STACK_SIZE as u64;
    (bottom, top)
}

/// Stacks of different tasks never touch: between the top of one and the bottom
/// of the next lower-numbered one lies exactly one guard page.
pub proof fn lemma_kernel_stacks_disjoint(a: int, b: int)
    requires
        0 <= a < b,
    ensures
        kernel_stack_top(b) + PAGE_SIZE as int <= kernel_stack_bottom(a),
        kernel_stack_top(a + 1) + PAGE_SIZE as int == kernel_stack_bottom(a),
{
    assert(b * 12288 >= (a + 1) * 12288) by (nonlinear_arith)
        requires
            a < b,
    ;
}

} // verus!
