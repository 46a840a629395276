//! The state of a task that a trap saves and the return to user mode
//! restores.

use vstd::prelude::*;
use vstd::array::array_fill_for_copy_types;

verus! {

/// The bit of `sstatus` that holds the privilege mode a trap came from: set
/// for supervisor mode, clear for user mode.
pub const SSTATUS_SPP: u64 = 0x100;

/// Number of words of a trap context.
pub const TRAP_CONTEXT_WORDS: usize = 37;

/// `sstatus` with the previous privilege mode set to user.
pub open spec fn user_sstatus(sstatus: u64) -> u64 {
    sstatus & !SSTATUS_SPP
}

/// The words of the context of a program that has not run yet.
pub open spec fn init_words(
    entry: u64,
    user_sp: u64,
    kernel_satp: u64,
    kernel_sp: u64,
    trap_handler: u64,
    sstatus: u64,
) -> Seq<u64> {
    Seq::new(32, |i: int| 0u64).update(2, user_sp) + seq![
        user_sstatus(sstatus),
        entry,
        kernel_satp,
        kernel_sp,
        trap_handler,
    ]
}

/// The 32 general registers, `sstatus` and `sepc` of a task, and the three
/// words that the trap entry needs to get into the kernel: the kernel's
/// address-space token, the top of the task's kernel stack and the address
/// of the trap handler.
#[derive(Copy, Clone, Debug)]
pub struct TrapContext {
    pub x: [u64; 32],
    pub sstatus: u64,
    pub sepc: u64,
    pub kernel_satp: u64,
    pub kernel_sp: u64,
    pub trap_handler: u64,
}

impl TrapContext {
    /// The context as the words that it occupies in memory, in order.
    pub open spec fn words(&self) -> Seq<u64> {
        self.x@ + seq![self.sstatus, self.sepc, self.kernel_satp, self.kernel_sp, self.trap_handler]
    }

    /// Sets the stack pointer, register 2.
    pub fn set_sp(&mut self, sp: u64)
        ensures
            final(self).x@ == old(self).x@.update(2, sp),
            final(self).sstatus == old(self).sstatus,
            final(self).sepc == old(self).sepc,
            final(self).kernel_satp == old(self).kernel_satp,
            final(self).kernel_sp == old(self).kernel_sp,
            final(self).trap_handler == old(self).trap_handler,
    {
        self.x[2] = sp;
    }

    /// The context of a program that has not run yet: it starts at `entry` in
    /// user mode with stack pointer `user_sp` and every other register zero.
    /// `sstatus` is the current value of that register.
    pub fn app_init_context(
        entry: u64,
        user_sp: u64,
        kernel_satp: u64,
        kernel_sp: u64,
        trap_handler: u64,
        sstatus: u64,
    ) -> (r: Self)
        ensures
            r.x@ == Seq::new(32, |i: int| 0u64).update(2, user_sp),
            r.sstatus == user_sstatus(sstatus),
            r.sepc == entry,
            r.kernel_satp == kernel_satp,
            r.kernel_sp == kernel_sp,
            r.trap_handler == trap_handler,
            r.words() == init_words(entry, user_sp, kernel_satp, kernel_sp, trap_handler, sstatus),
    {
        let mut trap_context = TrapContext {
            x: array_fill_for_copy_types(0),
            sstatus: sstatus & !SSTATUS_SPP,
            sepc: entry,
            kernel_satp,
            kernel_sp,
            trap_handler,
        };
        trap_context.set_sp(user_sp);
        assert(trap_context.x@ =~= Seq::new(32, |i: int| 0u64).update(2, user_sp));
        trap_context
    }

    /// Word `i` of the context as it lies in memory.
    pub fn word(&self, i: usize) -> (r: u64)
        requires
            i < TRAP_CONTEXT_WORDS,
        ensures
            r == self.words()[i as int],
    {
        if i < 32 {
            self.x[i]
        } else if i == 32 {
            self.sstatus
        } else if i == 33 {
            self.sepc
        } else if i == 34 {
            self.kernel_satp
        } else if i == 35 {
            self.kernel_sp
        } else {
            self.trap_handler
        }
    }

    /// The context whose words in memory are given by `word`.
    pub fn from_words(word: &Vec<u64>) -> (r: Self)
        requires
            word@.len() == TRAP_CONTEXT_WORDS,
        ensures
            r.words() == word@,
    {
        let mut x: [u64; 32] = array_fill_for_copy_types(0);
        let mut i: usize = 0;
        while i < 32
            invariant
                i <= 32,
                word@.len() == TRAP_CONTEXT_WORDS,
                x@.len() == 32,
                forall|j: int| 0 <= j < i ==> x@[j] == word@[j],
            decreases 32 - i,
        {
            x[i] = word[i];
            i = i + 1;
        }
        let r = TrapContext {
            x,
            sstatus: word[32],
            sepc: word[33],
            kernel_satp: word[34],
            kernel_sp: word[35],
            trap_handler: word[36],
        };
        assert(r.words() =~= word@);
        r
    }
}

/// A context made by `app_init_context` returns to user mode.
pub proof fn lemma_user_sstatus(sstatus: u64)
    ensures
        user_sstatus(sstatus) & SSTATUS_SPP == 0,
{
    assert((sstatus & !0x100u64) & 0x100u64 == 0) by (bit_vector);
}

} // verus!
