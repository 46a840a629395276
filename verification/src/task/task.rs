//! The task control block: what the kernel keeps of one task.

use vstd::prelude::*;
use crate::config::{kernel_stack_top, MAX_APP_ID};
use crate::mm::address::{PhysAddr, PhysPageNum, VirtAddr, VirtPageNum, PA_LIMIT, PPN_LIMIT, VPN_LIMIT};
use crate::mm::elf::{all_fresh, elf_entry, elf_loads, elf_refusal, loaded_user, ElfError};
use crate::mm::frame_allocator::{handover, lemma_handover_others, lemma_handover_two, StackFrameAllocator};
use crate::mm::memory_set::{map_cost_of, MapType, MemorySet, TRAP_CONTEXT_VPN};
use crate::trap::context::{init_words, TrapContext, TRAP_CONTEXT_WORDS};
use super::context::TaskContext;
use super::pid::{kernel_stack_position_of, kstack_bottom_vpn, kstack_cost, kstack_top_vpn, pid_alloc};
use super::pid::{KernelStack, PidAllocator, PidHandle};

verus! {

/// Where a task stands in its life.
#[derive(Copy, Clone, Debug, PartialEq, Eq, Structural)]
pub enum TaskStatus {
    /// The task waits in the ready queue.
    Ready,
    /// The task is on the processor.
    Running,
    /// The task has exited and waits for its parent to collect its exit code.
    Zombie,
}

/// What the platform gives every task: the physical address of the
/// trampoline code, the addresses of the kernel's trap handler and of its
/// return path to user mode, and the value of `sstatus`.
#[derive(Copy, Clone, Debug)]
pub struct KernelEnv {
    pub strampoline: u64,
    pub trap_return: u64,
    pub trap_handler: u64,
    pub sstatus: u64,
}

impl KernelEnv {
    /// The trampoline code starts a page of physical memory.
    pub open spec fn wf(&self) -> bool {
        self.strampoline % 4096 == 0 && self.strampoline < PA_LIMIT
    }
}

/// The address space `ms` has a frame for the trap context.
pub open spec fn has_trap_cx(ms: MemorySet) -> bool {
    ms.frame_of(TRAP_CONTEXT_VPN) is Some
}

/// The words of the trap context that lies in the address space `ms`.
pub open spec fn trap_cx_words(ms: MemorySet) -> Seq<u64> {
    ms.frame_of(TRAP_CONTEXT_VPN).unwrap().words().subrange(0, TRAP_CONTEXT_WORDS as int)
}

/// The number of the frame that holds the trap context of `ms`.
pub open spec fn trap_cx_frame(ms: MemorySet) -> PhysPageNum {
    ms.frame_of(TRAP_CONTEXT_VPN).unwrap().ppn()
}

/// `new` is `old` but for what the page of the trap context holds.
pub open spec fn same_but_trap_cx(new: MemorySet, old: MemorySet) -> bool {
    &&& new.spec_page_table() == old.spec_page_table()
    &&& new.spec_trampoline() == old.spec_trampoline()
    &&& new.ppns() == old.ppns()
    &&& new.spec_areas().len() == old.spec_areas().len()
    &&& forall|i: int|
        0 <= i < old.spec_areas().len() ==> (#[trigger] new.spec_areas()[i]).same_frames(&old.spec_areas()[i])
    &&& forall|i: int|
        0 <= i < old.spec_areas().len() && !old.spec_areas()[i].contains(TRAP_CONTEXT_VPN)
            ==> #[trigger] new.spec_areas()[i] == old.spec_areas()[i]
    &&& forall|v: u64| v != TRAP_CONTEXT_VPN ==> #[trigger] new.frame_of(v) == old.frame_of(v)
    &&& has_trap_cx(new) == has_trap_cx(old)
    &&& has_trap_cx(old) ==> trap_cx_frame(new) == trap_cx_frame(old)
}

/// `same_but_trap_cx` holds of three address spaces in a row.
pub proof fn lemma_same_but_trap_cx_trans(a: MemorySet, b: MemorySet, c: MemorySet)
    requires
        same_but_trap_cx(b, a),
        same_but_trap_cx(c, b),
    ensures
        same_but_trap_cx(c, a),
{
    assert forall|i: int| 0 <= i < a.spec_areas().len() implies (#[trigger] c.spec_areas()[i]).same_frames(
        &a.spec_areas()[i],
    ) by {
        let x = c.spec_areas()[i];
        let y = b.spec_areas()[i];
        let z = a.spec_areas()[i];
        assert(x.same_frames(&y) && y.same_frames(&z));
        assert forall|v: u64| (#[trigger] x.frame_at(v)) is Some <==> z.frame_at(v) is Some by {
            assert(y.frame_at(v) is Some <==> z.frame_at(v) is Some);
        }
        assert forall|v: u64| (#[trigger] x.frame_at(v)) is Some implies x.frame_at(v).unwrap().ppn() == z.frame_at(
            v,
        ).unwrap().ppn() by {
            assert(y.frame_at(v) is Some);
        }
    }
    assert forall|i: int| 0 <= i < a.spec_areas().len() && !a.spec_areas()[i].contains(TRAP_CONTEXT_VPN) implies (
    #[trigger] c.spec_areas()[i]) == a.spec_areas()[i] by {
        assert(b.spec_areas()[i] == a.spec_areas()[i]);
    }
    assert forall|v: u64| v != TRAP_CONTEXT_VPN implies #[trigger] c.frame_of(v) == a.frame_of(v) by {
        assert(b.frame_of(v) == a.frame_of(v));
    }
}

/// Stores `val` as word `idx` of the trap context in `ms`.
pub fn store_trap_cx_word(ms: &mut MemorySet, idx: usize, val: u64)
    requires
        old(ms).wf(),
        has_trap_cx(*old(ms)),
        idx < TRAP_CONTEXT_WORDS,
    ensures
        final(ms).wf(),
        same_but_trap_cx(*final(ms), *old(ms)),
        has_trap_cx(*final(ms)),
        final(ms).frame_of(TRAP_CONTEXT_VPN).unwrap().words() == old(ms).frame_of(TRAP_CONTEXT_VPN).unwrap().words().update(
            idx as int,
            val,
        ),
{
    let _ = ms.write_word(VirtPageNum(TRAP_CONTEXT_VPN), idx, val);
}

/// Stores `cx` as the trap context in `ms`.
pub fn store_trap_cx(ms: &mut MemorySet, cx: &TrapContext)
    requires
        old(ms).wf(),
        has_trap_cx(*old(ms)),
    ensures
        final(ms).wf(),
        same_but_trap_cx(*final(ms), *old(ms)),
        has_trap_cx(*final(ms)),
        trap_cx_words(*final(ms)) == cx.words(),
{
    let mut i: usize = 0;
    proof {
        ms.lemma_frame_wf(TRAP_CONTEXT_VPN);
    }
    while i < TRAP_CONTEXT_WORDS
        invariant
            i <= TRAP_CONTEXT_WORDS,
            ms.wf(),
            has_trap_cx(*ms),
            same_but_trap_cx(*ms, *old(ms)),
            ms.frame_of(TRAP_CONTEXT_VPN).unwrap().wf(),
            forall|j: int| 0 <= j < i ==> ms.frame_of(TRAP_CONTEXT_VPN).unwrap().words()[j] == cx.words()[j],
        decreases TRAP_CONTEXT_WORDS - i,
    {
        let ghost mid = *ms;
        store_trap_cx_word(ms, i, cx.word(i));
        proof {
            lemma_same_but_trap_cx_trans(*old(ms), mid, *ms);
            ms.lemma_frame_wf(TRAP_CONTEXT_VPN);
        }
        i = i + 1;
    }
    assert(trap_cx_words(*ms) =~= cx.words());
}

/// The trap context that lies in `ms`.
pub fn load_trap_cx(ms: &MemorySet) -> (r: TrapContext)
    requires
        ms.wf(),
        has_trap_cx(*ms),
    ensures
        r.words() == trap_cx_words(*ms),
{
    let mut words: Vec<u64> = Vec::new();
    let mut i: usize = 0;
    while i < TRAP_CONTEXT_WORDS
        invariant
            i <= TRAP_CONTEXT_WORDS,
            ms.wf(),
            has_trap_cx(*ms),
            words@.len() == i,
            forall|j: int| 0 <= j < i ==> words@[j] == ms.frame_of(TRAP_CONTEXT_VPN).unwrap().words()[j],
        decreases TRAP_CONTEXT_WORDS - i,
    {
        let w = ms.read_word(VirtPageNum(TRAP_CONTEXT_VPN), i).unwrap();
        words.push(w);
        i = i + 1;
    }
    proof {
        ms.lemma_frame_wf(TRAP_CONTEXT_VPN);
        assert(words@ =~= trap_cx_words(*ms));
    }
    TrapContext::from_words(&words)
}

/// The changing part of a task control block.
pub struct TaskControlBlockInner {
    /// The frame that holds the task's trap context.
    pub trap_cx_ppn: PhysPageNum,
    /// The top of the task's initial user stack.
    pub base_size: u64,
    pub task_cx: TaskContext,
    pub task_status: TaskStatus,
    pub memory_set: MemorySet,
    /// The pid of the task's parent.
    pub parent: Option<usize>,
    /// The pids of the task's children, eldest first.
    pub children: Vec<usize>,
    pub exit_code: i32,
}

/// What the kernel keeps of one task: its pid, its kernel stack, and the
/// changing part.
pub struct TaskControlBlock {
    pub pid: PidHandle,
    pub kernel_stack: KernelStack,
    pub inner: TaskControlBlockInner,
}

impl TaskControlBlockInner {
    /// The task's trap context.
    pub fn get_trap_cx(&self) -> (r: TrapContext)
        requires
            self.memory_set.wf(),
            has_trap_cx(self.memory_set),
        ensures
            r.words() == trap_cx_words(self.memory_set),
    {
        load_trap_cx(&self.memory_set)
    }

    /// The token of the task's address space.
    pub fn get_user_token(&self) -> (r: u64)
        requires
            self.memory_set.wf(),
        ensures
            r == self.memory_set.spec_token(),
    {
        self.memory_set.token()
    }

    pub fn get_status(&self) -> (r: TaskStatus)
        ensures
            r == self.task_status,
    {
        self.task_status
    }

    pub fn is_zombie(&self) -> (r: bool)
        ensures
            r == (self.task_status == TaskStatus::Zombie),
    {
        self.task_status == TaskStatus::Zombie
    }
}

/// The kernel stack of task `pid` is not mapped in `kernel_space`.
pub open spec fn kstack_free(kernel_space: MemorySet, pid: usize) -> bool {
    forall|v: u64| kstack_bottom_vpn(pid) <= v < kstack_top_vpn(pid) ==> (#[trigger] kernel_space.spec_translate(v)) is None
}

/// `after` is `before` with the kernel stack of task `pid` mapped in
/// addition, on fresh frames.
pub open spec fn kstack_added(after: MemorySet, before: MemorySet, pid: usize) -> bool {
    &&& after.spec_areas().len() == before.spec_areas().len() + 1
    &&& forall|i: int|
        0 <= i < before.spec_areas().len() ==> #[trigger] after.spec_areas()[i] == before.spec_areas()[i]
    &&& after.spec_areas().last().spec_start() == kstack_bottom_vpn(pid)
    &&& after.spec_areas().last().spec_end() == kstack_top_vpn(pid)
    &&& after.spec_areas().last().spec_type() == MapType::Framed
    &&& after.spec_areas().last().spec_perm().bits == 0x06
    &&& after.spec_trampoline() == before.spec_trampoline()
    &&& after.spec_token() == before.spec_token()
    &&& forall|v: u64|
        v < VPN_LIMIT && !(kstack_bottom_vpn(pid) <= v < kstack_top_vpn(pid)) ==> #[trigger] after.spec_translate(v)
            == before.spec_translate(v)
}

impl TaskControlBlock {
    /// The task has a pid whose kernel stack lies in the upper half of the
    /// virtual space and an address space with the trampoline; while it is
    /// no zombie its trap context lies in the frame that its control block
    /// names, and as a zombie it has neither children nor areas.
    pub open spec fn wf(&self) -> bool {
        &&& self.pid.0 <= MAX_APP_ID
        &&& self.kernel_stack.spec_pid() == self.pid.0
        &&& self.inner.memory_set.wf()
        &&& self.inner.memory_set.spec_trampoline() is Some
        &&& self.inner.memory_set.spec_trampoline().unwrap().0 < PPN_LIMIT
        &&& self.inner.task_status != TaskStatus::Zombie ==> has_trap_cx(self.inner.memory_set) && trap_cx_frame(
            self.inner.memory_set,
        ) == self.inner.trap_cx_ppn
        &&& self.inner.task_status == TaskStatus::Zombie ==> self.inner.children@.len() == 0
            && self.inner.memory_set.spec_areas().len() == 0
    }

    /// The changing part of the control block, for its one holder to change.
    pub fn inner_exclusive_access(&mut self) -> (r: &mut TaskControlBlockInner)
        ensures
            *r == old(self).inner,
            final(self).inner == *final(r),
            final(self).pid == old(self).pid,
            final(self).kernel_stack == old(self).kernel_stack,
    {
        &mut self.inner
    }

    pub fn getpid(&self) -> (r: usize)
        ensures
            r == self.pid.0,
    {
        self.pid.0
    }

    /// The task of the program in the ELF image `elf_data`: its address space
    /// loaded, a fresh pid, its kernel stack mapped in `kernel_space`, and
    /// its trap context set so that it starts at the image's entry point in
    /// user mode on its user stack. The task is ready and has no parent.
    ///
    /// The image is refused as by `from_elf` with the frames of the kernel
    /// stack in reserve; nothing has changed then.
    pub fn new(
        elf_data: &[u8],
        allocator: &mut StackFrameAllocator,
        pid_allocator: &mut PidAllocator,
        kernel_space: &mut MemorySet,
        env: &KernelEnv,
    ) -> (r: Result<TaskControlBlock, ElfError>)
        requires
            old(allocator).wf(),
            old(pid_allocator).wf(),
            old(kernel_space).wf(),
            old(kernel_space).ppns().subset_of(old(allocator).allocated()),
            env.wf(),
            old(pid_allocator)@.next() <= MAX_APP_ID,
            kstack_free(*old(kernel_space), old(pid_allocator)@.next()),
        ensures
            final(allocator).wf(),
            final(pid_allocator).wf(),
            final(kernel_space).wf(),
            match r {
                Ok(t) => {
                    &&& elf_refusal(
                        elf_data@,
                        old(allocator).available() - kstack_cost(old(pid_allocator)@.next()),
                    ) is None
                    &&& t.wf()
                    &&& t.pid.0 == old(pid_allocator)@.next()
                    &&& final(pid_allocator)@ == old(pid_allocator)@.after_alloc()
                    &&& t.inner.task_status == TaskStatus::Ready
                    &&& t.inner.parent is None
                    &&& t.inner.children@.len() == 0
                    &&& t.inner.exit_code == 0
                    &&& t.inner.task_cx.spec_ra() == env.trap_return
                    &&& t.inner.task_cx.spec_sp() == kernel_stack_top(t.pid.0 as int)
                    &&& t.inner.task_cx.saved_zero()
                    &&& t.inner.memory_set.spec_trampoline() == Some(PhysAddr(env.strampoline).floor())
                    &&& loaded_user(t.inner.memory_set, t.inner.base_size, elf_loads(elf_data@), elf_data@)
                    &&& trap_cx_words(t.inner.memory_set) == init_words(
                        elf_entry(elf_data@),
                        t.inner.base_size,
                        old(kernel_space).spec_token(),
                        kernel_stack_top(t.pid.0 as int) as u64,
                        env.trap_handler,
                        env.sstatus,
                    )
                    &&& all_fresh(t.inner.memory_set, old(allocator)@)
                    &&& t.inner.memory_set.only_areas_mapped()
                    &&& kstack_added(*final(kernel_space), *old(kernel_space), t.pid.0)
                    &&& t.inner.memory_set.ppns().disjoint(final(kernel_space).ppns())
                    &&& handover(
                        old(allocator)@,
                        final(allocator)@,
                        old(kernel_space).ppns(),
                        t.inner.memory_set.ppns().union(final(kernel_space).ppns()),
                    )
                },
                Err(e) => {
                    &&& elf_refusal(
                        elf_data@,
                        old(allocator).available() - kstack_cost(old(pid_allocator)@.next()),
                    ) == Some(e)
                    &&& final(allocator)@ == old(allocator)@
                    &&& final(pid_allocator)@ == old(pid_allocator)@
                    &&& *final(kernel_space) == *old(kernel_space)
                },
            },
    {
        let next_pid = pid_allocator.peek();
        let reserve = kstack_cost_of(next_pid);
        let ghost a0 = allocator@;
        let ghost ks0 = *kernel_space;
        let loaded = MemorySet::from_elf_reserving(allocator, elf_data, PhysAddr(env.strampoline), reserve);
        let (mut memory_set, user_sp, entry_point) = match loaded {
            Ok(l) => l,
            Err(e) => {
                return Err(e);
            },
        };
        let ghost ms0 = memory_set;
        let ghost a1 = allocator@;
        proof {
            lemma_handover_others(a0, a1, Set::<u64>::empty(), ms0.ppns(), ks0.ppns());
            lemma_trap_cx_of_loaded(ms0, user_sp, elf_loads(elf_data@), elf_data@);
        }
        let trap_cx_ppn = memory_set.translate(VirtPageNum(TRAP_CONTEXT_VPN)).unwrap().ppn();
        let pid_handle = pid_alloc(pid_allocator);
        let kernel_stack = KernelStack::new(&pid_handle, kernel_space, allocator);
        let kernel_stack_top = kernel_stack.get_top();
        let trap_cx = TrapContext::app_init_context(
            entry_point,
            user_sp,
            kernel_space.token(),
            kernel_stack_top,
            env.trap_handler,
            env.sstatus,
        );
        store_trap_cx(&mut memory_set, &trap_cx);
        proof {
            lemma_handover_two(a0, a1, allocator@, Set::<u64>::empty(), ms0.ppns(), ks0.ppns(), kernel_space.ppns());
            assert(Set::<u64>::empty().union(ks0.ppns()) =~= ks0.ppns());
            lemma_loaded_user_kept(memory_set, ms0, user_sp, elf_loads(elf_data@), elf_data@);
            lemma_fresh_kept(memory_set, ms0, a0);
            lemma_only_areas_kept(memory_set, ms0);
        }
        Ok(
            TaskControlBlock {
                pid: pid_handle,
                kernel_stack,
                inner: TaskControlBlockInner {
                    trap_cx_ppn,
                    base_size: user_sp,
                    task_cx: TaskContext::goto_trap_return(kernel_stack_top, env.trap_return),
                    task_status: TaskStatus::Ready,
                    memory_set,
                    parent: None,
                    children: Vec::new(),
                    exit_code: 0,
                },
            },
        )
    }

    /// A child of the parent `self`: a copy of its address space on fresh frames, a
    /// fresh pid and a kernel stack of its own. The child is ready, has the
    /// parent as its parent and the parent's trap context but for the top of
    /// its own kernel stack; the parent has one child more.
    ///
    /// Returns `None`, with nothing changed, where the allocator cannot
    /// afford the copy and the kernel stack.
    pub fn fork(
        &mut self,
        allocator: &mut StackFrameAllocator,
        pid_allocator: &mut PidAllocator,
        kernel_space: &mut MemorySet,
        env: &KernelEnv,
    ) -> (r: Option<TaskControlBlock>)
        requires
            old(self).wf(),
            old(self).inner.task_status != TaskStatus::Zombie,
            old(allocator).wf(),
            old(pid_allocator).wf(),
            old(kernel_space).wf(),
            old(kernel_space).ppns().subset_of(old(allocator).allocated()),
            old(self).inner.memory_set.ppns().subset_of(old(allocator).allocated()),
            old(pid_allocator)@.next() <= MAX_APP_ID,
            kstack_free(*old(kernel_space), old(pid_allocator)@.next()),
        ensures
            final(allocator).wf(),
            final(pid_allocator).wf(),
            final(kernel_space).wf(),
            final(self).wf(),
            final(self).pid == old(self).pid,
            final(self).kernel_stack == old(self).kernel_stack,
            final(self).inner.memory_set == old(self).inner.memory_set,
            final(self).inner.trap_cx_ppn == old(self).inner.trap_cx_ppn,
            final(self).inner.base_size == old(self).inner.base_size,
            final(self).inner.task_cx == old(self).inner.task_cx,
            final(self).inner.task_status == old(self).inner.task_status,
            final(self).inner.parent == old(self).inner.parent,
            final(self).inner.exit_code == old(self).inner.exit_code,
            r is Some <==> can_afford(
                old(allocator).available() - kstack_cost(old(pid_allocator)@.next()),
                old(self).inner.memory_set.spec_copy_cost(),
            ),
            match r {
                Some(child) => {
                    &&& child.wf()
                    &&& child.pid.0 == old(pid_allocator)@.next()
                    &&& final(pid_allocator)@ == old(pid_allocator)@.after_alloc()
                    &&& final(self).inner.children@ == old(self).inner.children@.push(child.pid.0)
                    &&& child.inner.task_status == TaskStatus::Ready
                    &&& child.inner.parent == Some(old(self).pid.0)
                    &&& child.inner.children@.len() == 0
                    &&& child.inner.exit_code == 0
                    &&& child.inner.base_size == old(self).inner.base_size
                    &&& child.inner.task_cx.spec_ra() == env.trap_return
                    &&& child.inner.task_cx.spec_sp() == kernel_stack_top(child.pid.0 as int)
                    &&& child.inner.task_cx.saved_zero()
                    &&& forked(child.inner.memory_set, old(self).inner.memory_set)
                    &&& trap_cx_words(child.inner.memory_set) == trap_cx_words(old(self).inner.memory_set).update(
                        35,
                        kernel_stack_top(child.pid.0 as int) as u64,
                    )
                    &&& all_fresh(child.inner.memory_set, old(allocator)@)
                    &&& child.inner.memory_set.ppns().disjoint(old(allocator).allocated())
                    &&& child.inner.memory_set.only_areas_mapped()
                    &&& kstack_added(*final(kernel_space), *old(kernel_space), child.pid.0)
                    &&& child.inner.memory_set.ppns().disjoint(final(kernel_space).ppns())
                    &&& handover(
                        old(allocator)@,
                        final(allocator)@,
                        old(kernel_space).ppns(),
                        child.inner.memory_set.ppns().union(final(kernel_space).ppns()),
                    )
                },
                None => {
                    &&& *final(self) == *old(self)
                    &&& final(allocator)@ == old(allocator)@
                    &&& final(pid_allocator)@ == old(pid_allocator)@
                    &&& *final(kernel_space) == *old(kernel_space)
                },
            },
    {
        let next_pid = pid_allocator.peek();
        let reserve = kstack_cost_of(next_pid);
        let cost = match self.inner.memory_set.copy_cost() {
            Some(c) => c,
            None => {
                return None;
            },
        };
        if !allocator.has_available_sum(cost, reserve) {
            return None;
        }
        let ghost a0 = allocator@;
        let ghost ks0 = *kernel_space;
        let mut memory_set = MemorySet::from_existed_user_space(allocator, &self.inner.memory_set);
        let ghost ms0 = memory_set;
        let ghost a1 = allocator@;
        proof {
            lemma_handover_others(a0, a1, Set::<u64>::empty(), ms0.ppns(), ks0.ppns());
            crate::mm::elf::lemma_fresh_owner(a0, a1, ms0.ppns());
            lemma_trap_cx_of_copy(ms0, self.inner.memory_set);
        }
        let trap_cx_ppn = memory_set.translate(VirtPageNum(TRAP_CONTEXT_VPN)).unwrap().ppn();
        let pid_handle = pid_alloc(pid_allocator);
        let kernel_stack = KernelStack::new(&pid_handle, kernel_space, allocator);
        let kernel_stack_top = kernel_stack.get_top();
        store_trap_cx_word(&mut memory_set, 35, kernel_stack_top);
        proof {
            lemma_handover_two(a0, a1, allocator@, Set::<u64>::empty(), ms0.ppns(), ks0.ppns(), kernel_space.ppns());
            assert(Set::<u64>::empty().union(ks0.ppns()) =~= ks0.ppns());
            lemma_forked_kept(memory_set, ms0, self.inner.memory_set, a0);
            lemma_only_areas_kept(memory_set, ms0);
            memory_set.lemma_frame_wf(TRAP_CONTEXT_VPN);
            ms0.lemma_frame_wf(TRAP_CONTEXT_VPN);
            self.inner.memory_set.lemma_frame_wf(TRAP_CONTEXT_VPN);
            assert(trap_cx_words(memory_set) =~= trap_cx_words(self.inner.memory_set).update(
                35,
                kernel_stack_top,
            ));
        }
        let child = TaskControlBlock {
            pid: pid_handle,
            kernel_stack,
            inner: TaskControlBlockInner {
                trap_cx_ppn,
                base_size: self.inner.base_size,
                task_cx: TaskContext::goto_trap_return(kernel_stack_top, env.trap_return),
                task_status: TaskStatus::Ready,
                memory_set,
                parent: Some(self.pid.0),
                children: Vec::new(),
                exit_code: 0,
            },
        };
        self.inner.children.push(child.pid.0);
        Some(child)
    }

    /// Replaces the program of `self` by the one in the ELF image
    /// `elf_data`: a new address space on fresh frames, the frames of the old
    /// one given back, and a trap context that starts the new program at its
    /// entry point. Pid, kernel stack, parent and children stay.
    ///
    /// The image is refused as by `from_elf`; nothing has changed then.
    pub fn exec(
        &mut self,
        elf_data: &[u8],
        allocator: &mut StackFrameAllocator,
        kernel_space: &MemorySet,
        env: &KernelEnv,
    ) -> (r: Result<(), ElfError>)
        requires
            old(self).wf(),
            old(self).inner.task_status != TaskStatus::Zombie,
            old(allocator).wf(),
            old(self).inner.memory_set.ppns().subset_of(old(allocator).allocated()),
            kernel_space.wf(),
            env.wf(),
        ensures
            final(allocator).wf(),
            final(self).wf(),
            final(self).pid == old(self).pid,
            final(self).kernel_stack == old(self).kernel_stack,
            final(self).inner.task_cx == old(self).inner.task_cx,
            final(self).inner.task_status == old(self).inner.task_status,
            final(self).inner.parent == old(self).inner.parent,
            final(self).inner.children == old(self).inner.children,
            final(self).inner.exit_code == old(self).inner.exit_code,
            match r {
                Ok(()) => {
                    &&& elf_refusal(elf_data@, old(allocator).available()) is None
                    &&& final(self).inner.memory_set.spec_trampoline() == Some(PhysAddr(env.strampoline).floor())
                    &&& loaded_user(
                        final(self).inner.memory_set,
                        final(self).inner.base_size,
                        elf_loads(elf_data@),
                        elf_data@,
                    )
                    &&& has_trap_cx(final(self).inner.memory_set)
                    &&& trap_cx_frame(final(self).inner.memory_set) == final(self).inner.trap_cx_ppn
                    &&& trap_cx_words(final(self).inner.memory_set) == init_words(
                        elf_entry(elf_data@),
                        final(self).inner.base_size,
                        kernel_space.spec_token(),
                        kernel_stack_top(old(self).pid.0 as int) as u64,
                        env.trap_handler,
                        env.sstatus,
                    )
                    &&& all_fresh(final(self).inner.memory_set, old(allocator)@)
                    &&& final(self).inner.memory_set.only_areas_mapped()
                    &&& final(self).inner.memory_set.ppns().disjoint(old(allocator).allocated())
                    &&& final(self).inner.memory_set.ppns().disjoint(old(self).inner.memory_set.ppns())
                    &&& forall|p: u64|
                        old(self).inner.memory_set.ppns().contains(p) ==> !(#[trigger] final(allocator).is_allocated(
                            p,
                        ))
                    &&& handover(
                        old(allocator)@,
                        final(allocator)@,
                        old(self).inner.memory_set.ppns(),
                        final(self).inner.memory_set.ppns(),
                    )
                },
                Err(e) => {
                    &&& elf_refusal(elf_data@, old(allocator).available()) == Some(e)
                    &&& final(allocator)@ == old(allocator)@
                    &&& final(self).inner.memory_set == old(self).inner.memory_set
                    &&& final(self).inner.trap_cx_ppn == old(self).inner.trap_cx_ppn
                    &&& final(self).inner.base_size == old(self).inner.base_size
                },
            },
    {
        let ghost a0 = allocator@;
        let ghost old_ms = self.inner.memory_set;
        let loaded = MemorySet::from_elf(allocator, elf_data, PhysAddr(env.strampoline));
        let (mut memory_set, user_sp, entry_point) = match loaded {
            Ok(l) => l,
            Err(e) => {
                return Err(e);
            },
        };
        let ghost ms0 = memory_set;
        let ghost a1 = allocator@;
        proof {
            lemma_handover_others(a0, a1, Set::<u64>::empty(), ms0.ppns(), old_ms.ppns());
            lemma_trap_cx_of_loaded(ms0, user_sp, elf_loads(elf_data@), elf_data@);
        }
        let trap_cx_ppn = memory_set.translate(VirtPageNum(TRAP_CONTEXT_VPN)).unwrap().ppn();
        let trap_cx = TrapContext::app_init_context(
            entry_point,
            user_sp,
            kernel_space.token(),
            self.kernel_stack.get_top(),
            env.trap_handler,
            env.sstatus,
        );
        store_trap_cx(&mut memory_set, &trap_cx);
        proof {
            lemma_loaded_user_kept(memory_set, ms0, user_sp, elf_loads(elf_data@), elf_data@);
            lemma_fresh_kept(memory_set, ms0, a0);
            lemma_only_areas_kept(memory_set, ms0);
        }
        core::mem::swap(&mut self.inner.memory_set, &mut memory_set);
        memory_set.release(allocator);
        self.inner.trap_cx_ppn = trap_cx_ppn;
        self.inner.base_size = user_sp;
        proof {
            let new_ms = self.inner.memory_set;
            assert forall|q: u64|
                allocator.allocated().difference(new_ms.ppns()).contains(q) == a0.allocated().difference(
                    old_ms.ppns(),
                ).contains(q) by {
                assert(a1.allocated().difference(ms0.ppns()).contains(q) == a0.allocated().difference(
                    Set::<u64>::empty(),
                ).contains(q));
            }
            assert(allocator.allocated().difference(new_ms.ppns()) =~= a0.allocated().difference(old_ms.ppns()));
            assert forall|p: u64| old_ms.ppns().contains(p) implies !(#[trigger] allocator.is_allocated(p)) by {
                assert(!new_ms.ppns().contains(p));
                assert(!a0.allocated().difference(old_ms.ppns()).contains(p));
                assert(!allocator.allocated().difference(new_ms.ppns()).contains(p));
            }
        }
        Ok(())
    }
}

/// Frames that mapping the kernel stack of task `pid` can take at most.
pub fn kstack_cost_of(pid: usize) -> (r: u64)
    requires
        pid <= MAX_APP_ID,
    ensures
        r == kstack_cost(pid),
{
    let (bottom, top) = kernel_stack_position_of(pid);
    map_cost_of(VirtAddr::from(bottom).floor().0, VirtAddr::from(top).ceil().0, MapType::Framed)
}

/// A loaded address space has a frame for the trap context, and the page
/// table leads to that frame.
pub proof fn lemma_trap_cx_of_loaded(ms: MemorySet, sp: u64, loads: Seq<crate::mm::elf::ProgramSegment>, file: Seq<u8>)
    requires
        ms.wf(),
        loaded_user(ms, sp, loads, file),
    ensures
        has_trap_cx(ms),
        ms.spec_translate(TRAP_CONTEXT_VPN) is Some,
        ms.spec_translate(TRAP_CONTEXT_VPN).unwrap().ppn() == trap_cx_frame(ms),
{
    let i = loads.len() as int + 1;
    let a = ms.spec_areas()[i];
    assert(a.contains(TRAP_CONTEXT_VPN));
    ms.lemma_area_of(TRAP_CONTEXT_VPN, i);
    assert(ms.area_ok(i));
    assert(a.page_mapped(&ms.spec_page_table(), TRAP_CONTEXT_VPN));
    ms.lemma_frame_wf(TRAP_CONTEXT_VPN);
    crate::mm::page_table::lemma_pte_round_trip(
        a.target(TRAP_CONTEXT_VPN),
        a.spec_perm().pte_flags().union(crate::mm::page_table::flags_v()),
    );
}

/// Writing the trap context leaves the user's part of a loaded address space
/// as it was.
pub proof fn lemma_loaded_user_kept(
    new: MemorySet,
    old: MemorySet,
    sp: u64,
    loads: Seq<crate::mm::elf::ProgramSegment>,
    file: Seq<u8>,
)
    requires
        same_but_trap_cx(new, old),
        loaded_user(old, sp, loads, file),
        forall|i: int| 0 <= i < loads.len() ==> (#[trigger] loads[i]).vaddr + loads[i].mem_size <= crate::mm::elf::USER_LIMIT,
        (crate::mm::elf::loads_end(loads) + 2) * 4096 <= crate::mm::elf::USER_LIMIT,
    ensures
        loaded_user(new, sp, loads, file),
{
    let n = loads.len() as int;
    assert forall|i: int| 0 <= i < n implies crate::mm::elf::area_holds(#[trigger] new.spec_areas()[i], loads[i], file) by {
        assert(crate::mm::elf::area_holds(old.spec_areas()[i], loads[i], file));
        assert(!old.spec_areas()[i].contains(TRAP_CONTEXT_VPN));
        assert(new.spec_areas()[i] == old.spec_areas()[i]);
    }
    assert(!old.spec_areas()[n].contains(TRAP_CONTEXT_VPN));
    assert(new.spec_areas()[n] == old.spec_areas()[n]);
    assert(new.spec_areas()[n + 1].same_frames(&old.spec_areas()[n + 1]));
}

/// Writing the trap context leaves every frame with its owner.
pub proof fn lemma_fresh_kept(new: MemorySet, old: MemorySet, before: crate::mm::frame_allocator::FrameAllocState)
    requires
        same_but_trap_cx(new, old),
        all_fresh(old, before),
    ensures
        all_fresh(new, before),
{
    assert forall|i: int| 0 <= i < new.spec_areas().len() implies crate::mm::elf::area_fresh(
        #[trigger] new.spec_areas()[i],
        before,
    ) by {
        let x = new.spec_areas()[i];
        let y = old.spec_areas()[i];
        assert(x.same_frames(&y));
        assert(crate::mm::elf::area_fresh(y, before));
        assert forall|v: u64| (#[trigger] x.frame_at(v)) is Some implies !before.is_allocated(
            x.frame_at(v).unwrap().ppn().0,
        ) by {
            assert(y.frame_at(v) is Some);
        }
    }
}

/// `cost` frames fit a word and are at hand.
pub open spec fn can_afford(available: int, cost: int) -> bool {
    cost <= u64::MAX && available >= cost
}

/// `child` is a copy of `parent` made by a fork: the same trampoline frame,
/// the same areas in the same order, and in every page but that of the trap
/// context the same words.
pub open spec fn forked(child: MemorySet, parent: MemorySet) -> bool {
    &&& child.spec_trampoline() == parent.spec_trampoline()
    &&& child.spec_areas().len() == parent.spec_areas().len()
    &&& forall|i: int|
        0 <= i < child.spec_areas().len() ==> (#[trigger] child.spec_areas()[i]).same_shape(&parent.spec_areas()[i])
    &&& forall|i: int, v: u64|
        #![trigger child.spec_areas()[i].frame_at(v)]
        0 <= i < child.spec_areas().len() && child.spec_areas()[i].frame_at(v) is Some ==> {
            &&& parent.spec_areas()[i].frame_at(v) is Some
            &&& v != TRAP_CONTEXT_VPN ==> child.spec_areas()[i].frame_at(v).unwrap().words()
                == parent.spec_areas()[i].frame_at(v).unwrap().words()
        }
}

/// A copy of an address space with a trap context has a trap context with
/// the same words, and its page table leads to the frame of that context.
pub proof fn lemma_trap_cx_of_copy(copy: MemorySet, src: MemorySet)
    requires
        copy.wf(),
        src.wf(),
        has_trap_cx(src),
        copy.spec_areas().len() == src.spec_areas().len(),
        forall|i: int|
            0 <= i < copy.spec_areas().len() ==> (#[trigger] copy.spec_areas()[i]).same_shape(&src.spec_areas()[i]),
        forall|i: int, v: u64|
            #![trigger copy.spec_areas()[i].frame_at(v)]
            0 <= i < copy.spec_areas().len() && copy.spec_areas()[i].frame_at(v) is Some ==> {
                &&& src.spec_areas()[i].frame_at(v) is Some
                &&& copy.spec_areas()[i].frame_at(v).unwrap().words() == src.spec_areas()[i].frame_at(v).unwrap().words()
            },
    ensures
        has_trap_cx(copy),
        copy.frame_of(TRAP_CONTEXT_VPN).unwrap().words() == src.frame_of(TRAP_CONTEXT_VPN).unwrap().words(),
        copy.spec_translate(TRAP_CONTEXT_VPN) is Some,
        copy.spec_translate(TRAP_CONTEXT_VPN).unwrap().ppn() == trap_cx_frame(copy),
{
    let i = src.area_of(TRAP_CONTEXT_VPN).unwrap();
    let a = copy.spec_areas()[i];
    let b = src.spec_areas()[i];
    assert(a.same_shape(&b));
    assert(a.contains(TRAP_CONTEXT_VPN));
    copy.lemma_area_of(TRAP_CONTEXT_VPN, i);
    src.lemma_area_of(TRAP_CONTEXT_VPN, i);
    assert(copy.area_ok(i));
    assert(src.area_ok(i));
    assert(a.page_mapped(&copy.spec_page_table(), TRAP_CONTEXT_VPN));
    assert(b.page_mapped(&src.spec_page_table(), TRAP_CONTEXT_VPN));
    src.lemma_frame_in_area(i, TRAP_CONTEXT_VPN);
    assert(a.spec_type() == MapType::Framed);
    assert(a.frame_at(TRAP_CONTEXT_VPN) is Some);
    copy.lemma_frame_wf(TRAP_CONTEXT_VPN);
    crate::mm::page_table::lemma_pte_round_trip(
        a.target(TRAP_CONTEXT_VPN),
        a.spec_perm().pte_flags().union(crate::mm::page_table::flags_v()),
    );
}

/// Writing into the trap context of a fresh copy leaves it a copy in every
/// other page, on the same fresh frames.
pub proof fn lemma_forked_kept(
    new: MemorySet,
    copy: MemorySet,
    parent: MemorySet,
    before: crate::mm::frame_allocator::FrameAllocState,
)
    requires
        same_but_trap_cx(new, copy),
        copy.wf(),
        new.wf(),
        copy.spec_trampoline() == parent.spec_trampoline(),
        copy.spec_areas().len() == parent.spec_areas().len(),
        forall|i: int|
            0 <= i < copy.spec_areas().len() ==> (#[trigger] copy.spec_areas()[i]).same_shape(&parent.spec_areas()[i]),
        forall|i: int, v: u64|
            #![trigger copy.spec_areas()[i].frame_at(v)]
            0 <= i < copy.spec_areas().len() && copy.spec_areas()[i].frame_at(v) is Some ==> {
                &&& parent.spec_areas()[i].frame_at(v) is Some
                &&& copy.spec_areas()[i].frame_at(v).unwrap().words() == parent.spec_areas()[i].frame_at(
                    v,
                ).unwrap().words()
                &&& !before.is_allocated(copy.spec_areas()[i].frame_at(v).unwrap().ppn().0)
            },
    ensures
        forked(new, parent),
        all_fresh(new, before),
{
    assert forall|i: int| 0 <= i < new.spec_areas().len() implies (#[trigger] new.spec_areas()[i]).same_shape(
        &parent.spec_areas()[i],
    ) by {
        assert(new.spec_areas()[i].same_frames(&copy.spec_areas()[i]));
        assert(copy.spec_areas()[i].same_shape(&parent.spec_areas()[i]));
    }
    assert forall|i: int, v: u64|
        #![trigger new.spec_areas()[i].frame_at(v)]
        0 <= i < new.spec_areas().len() && new.spec_areas()[i].frame_at(v) is Some implies {
        &&& parent.spec_areas()[i].frame_at(v) is Some
        &&& v != TRAP_CONTEXT_VPN ==> new.spec_areas()[i].frame_at(v).unwrap().words() == parent.spec_areas()[i].frame_at(
            v,
        ).unwrap().words()
        &&& !before.is_allocated(new.spec_areas()[i].frame_at(v).unwrap().ppn().0)
    } by {
        let x = new.spec_areas()[i];
        let y = copy.spec_areas()[i];
        assert(x.same_frames(&y));
        assert(y.frame_at(v) is Some);
        if v != TRAP_CONTEXT_VPN {
            assert(x.contains(v)) by {
                new.lemma_frame_in_area(i, v);
            }
            new.lemma_area_of(v, i);
            copy.lemma_area_of(v, i);
            assert(new.frame_of(v) == copy.frame_of(v));
        }
    }
    assert forall|i: int| 0 <= i < new.spec_areas().len() implies crate::mm::elf::area_fresh(
        #[trigger] new.spec_areas()[i],
        before,
    ) by {
        let x = new.spec_areas()[i];
        assert forall|v: u64| (#[trigger] x.frame_at(v)) is Some implies !before.is_allocated(
            x.frame_at(v).unwrap().ppn().0,
        ) by {}
    }
}

/// Writing into the trap context of a forked address space leaves it a fork
/// in every other page.
pub proof fn lemma_forked_trans(new: MemorySet, mid: MemorySet, parent: MemorySet)
    requires
        same_but_trap_cx(new, mid),
        forked(mid, parent),
        mid.wf(),
        new.wf(),
    ensures
        forked(new, parent),
{
    assert forall|i: int| 0 <= i < new.spec_areas().len() implies (#[trigger] new.spec_areas()[i]).same_shape(
        &parent.spec_areas()[i],
    ) by {
        assert(new.spec_areas()[i].same_frames(&mid.spec_areas()[i]));
        assert(mid.spec_areas()[i].same_shape(&parent.spec_areas()[i]));
    }
    assert forall|i: int, v: u64|
        #![trigger new.spec_areas()[i].frame_at(v)]
        0 <= i < new.spec_areas().len() && new.spec_areas()[i].frame_at(v) is Some implies {
        &&& parent.spec_areas()[i].frame_at(v) is Some
        &&& v != TRAP_CONTEXT_VPN ==> new.spec_areas()[i].frame_at(v).unwrap().words() == parent.spec_areas()[i].frame_at(
            v,
        ).unwrap().words()
    } by {
        let x = new.spec_areas()[i];
        let y = mid.spec_areas()[i];
        assert(x.same_frames(&y));
        assert(y.frame_at(v) is Some);
        if v != TRAP_CONTEXT_VPN {
            new.lemma_frame_in_area(i, v);
            new.lemma_area_of(v, i);
            mid.lemma_area_of(v, i);
            assert(new.frame_of(v) == mid.frame_of(v));
        }
    }
}

/// An address space that differs from another at most in what its frames
/// hold has its trap context in the same frame.
pub proof fn lemma_touched_trap_cx(new: MemorySet, old: MemorySet)
    requires
        new.wf(),
        old.wf(),
        new.touched(&old),
    ensures
        has_trap_cx(new) == has_trap_cx(old),
        has_trap_cx(old) ==> trap_cx_frame(new) == trap_cx_frame(old),
{
    if has_trap_cx(old) {
        let i = old.area_of(TRAP_CONTEXT_VPN).unwrap();
        assert(new.spec_areas()[i].same_frames(&old.spec_areas()[i]));
        new.lemma_area_of(TRAP_CONTEXT_VPN, i);
        old.lemma_area_of(TRAP_CONTEXT_VPN, i);
        assert(old.spec_areas()[i].frame_at(TRAP_CONTEXT_VPN) is Some);
        assert(new.spec_areas()[i].frame_at(TRAP_CONTEXT_VPN) is Some);
    }
    if has_trap_cx(new) {
        let i = new.area_of(TRAP_CONTEXT_VPN).unwrap();
        assert(new.spec_areas()[i].same_frames(&old.spec_areas()[i]));
        new.lemma_area_of(TRAP_CONTEXT_VPN, i);
        old.lemma_area_of(TRAP_CONTEXT_VPN, i);
        assert(new.spec_areas()[i].frame_at(TRAP_CONTEXT_VPN) is Some);
        assert(old.spec_areas()[i].frame_at(TRAP_CONTEXT_VPN) is Some);
    }
}

/// Writing the trap context maps and unmaps nothing.
pub proof fn lemma_only_areas_kept(new: MemorySet, old: MemorySet)
    requires
        same_but_trap_cx(new, old),
        old.only_areas_mapped(),
    ensures
        new.only_areas_mapped(),
{
    assert forall|v: u64| v < VPN_LIMIT && (#[trigger] new.spec_translate(v)) is Some implies v
        == crate::mm::memory_set::TRAMPOLINE_VPN || new.area_of(v) is Some by {
        assert(old.spec_translate(v) is Some);
        if v != crate::mm::memory_set::TRAMPOLINE_VPN {
            let i = old.area_of(v).unwrap();
            assert(new.spec_areas()[i].same_frames(&old.spec_areas()[i]));
            assert(new.spec_areas()[i].contains(v));
        }
    }
}

} // verus!
