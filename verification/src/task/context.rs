//! The registers that a task switch saves and restores.

use vstd::prelude::*;
use vstd::array::array_fill_for_copy_types;

verus! {

/// The callee-saved state of a task that is not running: return address,
/// stack pointer and the registers `s0` to `s11`.
#[derive(Copy, Clone, Debug)]
pub struct TaskContext {
    ra: u64,
    sp: u64,
    s: [u64; 12],
}

impl TaskContext {
    pub closed spec fn spec_ra(&self) -> u64 {
        self.ra
    }

    pub closed spec fn spec_sp(&self) -> u64 {
        self.sp
    }

    pub closed spec fn spec_s(&self) -> Seq<u64> {
        self.s@
    }

    /// Every saved register is zero.
    pub open spec fn saved_zero(&self) -> bool {
        self.spec_s().len() == 12 && forall|i: int| 0 <= i < 12 ==> self.spec_s()[i] == 0
    }

    /// The context with every register zero.
    pub fn zero_init() -> (r: Self)
        ensures
            r.spec_ra() == 0,
            r.spec_sp() == 0,
            r.saved_zero(),
    {
        TaskContext { ra: 0, sp: 0, s: array_fill_for_copy_types(0) }
    }

    /// The context of a task that has not run yet: a switch to it continues
    /// at `trap_return`, on the kernel stack that ends at `kstack_ptr`.
    pub fn goto_trap_return(kstack_ptr: u64, trap_return: u64) -> (r: Self)
        ensures
            r.spec_ra() == trap_return,
            r.spec_sp() == kstack_ptr,
            r.saved_zero(),
    {
        TaskContext { ra: trap_return, sp: kstack_ptr, s: array_fill_for_copy_types(0) }
    }

    pub fn ra(&self) -> (r: u64)
        ensures
            r == self.spec_ra(),
    {
        self.ra
    }

    pub fn sp(&self) -> (r: u64)
        ensures
            r == self.spec_sp(),
    {
        self.sp
    }
}

} // verus!
