//! Tasks: identifiers, contexts, control blocks, the scheduler, and the
//! kernel state that holds them together.

pub mod context;
pub mod manager;
pub mod pid;
pub mod processor;
pub mod task;

use vstd::prelude::*;
use crate::config::MAX_APP_ID;
use crate::mm::address::PhysPageNum;
use crate::mm::frame_allocator::{handover, lemma_handover_others, StackFrameAllocator};
use crate::mm::memory_set::{KernelLayout, MemorySet};
use crate::mm::page_table::PageTable;
use crate::mm::elf::ElfError;
use crate::mm::{frames_behind, init};

use self::task::{kstack_added, lemma_touched_trap_cx, same_but_trap_cx};
use self::task::{store_trap_cx_word, trap_cx_words};
use crate::trap::context::TrapContext;
use self::manager::{SchedState, TaskManager};
use self::pid::{kstack_bottom_vpn, kstack_top_vpn, PidAllocator};
use self::processor::Processor;
use self::task::{kstack_free, KernelEnv, TaskControlBlock, TaskStatus};

verus! {

/// The pid of the first task, which adopts the children of every task that
/// exits.
pub const INIT_PID: usize = 0;

/// The page from which on kernel stacks lie: the middle of the 27-bit page
/// numbers.
pub const KSTACK_FLOOR: u64 = 0x400_0000;

/// A program that the kernel can start: its name and its ELF image.
pub struct App {
    pub name: Vec<u8>,
    pub data: Vec<u8>,
}

/// The state of the kernel: the allocators, the kernel's own address space,
/// the tasks by pid, the ready queue and the processor.
pub struct Kernel {
    pub frame_allocator: StackFrameAllocator,
    pub pid_allocator: PidAllocator,
    pub kernel_space: MemorySet,
    pub tasks: Vec<Option<TaskControlBlock>>,
    pub manager: TaskManager,
    pub processor: Processor,
    pub apps: Vec<App>,
    pub env: KernelEnv,
}

impl Kernel {
    /// Task `pid` exists: it has been created and not been reaped.
    pub open spec fn live(&self, pid: usize) -> bool {
        pid < self.tasks@.len() && self.tasks@[pid as int] is Some
    }

    /// The control block of task `pid`.
    pub open spec fn task(&self, pid: usize) -> TaskControlBlock {
        self.tasks@[pid as int].unwrap()
    }

    /// The frames of the address space of task `pid`.
    pub open spec fn task_ppns(&self, pid: usize) -> Set<u64> {
        self.task(pid).inner.memory_set.ppns()
    }

    /// A live task is well formed, sits at the index of its pid, and owns
    /// live frames that the kernel's address space does not own.
    pub open spec fn task_ok(&self, pid: usize) -> bool {
        self.live(pid) ==> {
            &&& self.task(pid).wf()
            &&& self.task(pid).pid.0 == pid
            &&& self.task_ppns(pid).subset_of(self.frame_allocator.allocated())
            &&& self.task_ppns(pid).disjoint(self.kernel_space.ppns())
            &&& self.task(pid).inner.memory_set.spec_trampoline() == Some(self.trampoline_frame())
        }
    }

    /// The frame of the trampoline code.
    pub open spec fn trampoline_frame(&self) -> PhysPageNum {
        crate::mm::address::PhysAddr(self.env.strampoline).floor()
    }

    /// Two live tasks own no frame in common.
    pub open spec fn tasks_apart(&self, p: usize, q: usize) -> bool {
        self.live(p) && self.live(q) && p != q ==> self.task_ppns(p).disjoint(self.task_ppns(q))
    }

    /// The kernel stack of a live task is an area of the kernel's address
    /// space; the pages of the kernel stack of any other task are unmapped.
    pub open spec fn kstack_ok(&self, pid: usize) -> bool {
        if self.live(pid) {
            exists|a: int|
                0 <= a < self.kernel_space.spec_areas().len() && self.kstack_at(a, pid)
        } else {
            kstack_free(self.kernel_space, pid)
        }
    }

    /// Area `a` of the kernel's address space is the kernel stack of `pid`.
    pub open spec fn kstack_at(&self, a: int, pid: usize) -> bool {
        &&& (#[trigger] self.kernel_space.spec_areas()[a]).spec_start() == kstack_bottom_vpn(pid)
        &&& self.kernel_space.spec_areas()[a].spec_end() == kstack_top_vpn(pid)
    }

    /// What the scheduler knows.
    pub open spec fn sched(&self) -> SchedState {
        SchedState { current: self.processor.spec_current(), ready: self.manager@ }
    }

    /// The ready queue holds the ready tasks, each once; the processor holds
    /// the running task, if any.
    pub open spec fn sched_ok(&self) -> bool {
        &&& self.manager@.no_duplicates()
        &&& forall|i: int|
            0 <= i < self.manager@.len() ==> self.live(#[trigger] self.manager@[i]) && self.task(
                self.manager@[i],
            ).inner.task_status == TaskStatus::Ready
        &&& match self.processor.spec_current() {
            Some(c) => self.live(c) && self.task(c).inner.task_status == TaskStatus::Running,
            None => true,
        }
        &&& forall|pid: usize|
            #![trigger self.live(pid)]
            self.live(pid) ==> {
                &&& self.task(pid).inner.task_status == TaskStatus::Ready ==> self.manager@.contains(pid)
                &&& self.task(pid).inner.task_status == TaskStatus::Running ==> self.processor.spec_current()
                    == Some(pid)
            }
    }

    /// Children are live and name their parent; a task with a parent is among
    /// that parent's children; the first task is live while any task is.
    pub open spec fn family_ok(&self) -> bool {
        &&& forall|p: usize, i: int|
            #![trigger self.task(p).inner.children@[i]]
            self.live(p) && 0 <= i < self.task(p).inner.children@.len() ==> self.live(
                self.task(p).inner.children@[i],
            ) && self.task(self.task(p).inner.children@[i]).inner.parent == Some(p)
        &&& forall|p: usize|
            #![trigger self.live(p)]
            self.live(p) ==> self.task(p).inner.children@.no_duplicates()
        &&& forall|c: usize|
            #![trigger self.live(c)]
            self.live(c) && self.task(c).inner.parent is Some ==> self.live(self.task(c).inner.parent.unwrap())
                && self.task(self.task(c).inner.parent.unwrap()).inner.children@.contains(c)
        &&& forall|p: usize| #![trigger self.live(p)] self.live(p) ==> self.live(INIT_PID)
        &&& forall|p: usize| #![trigger self.live(p)] self.live(p) ==> self.task(p).inner.parent != Some(p)
        &&& self.live(INIT_PID) ==> self.task(INIT_PID).inner.parent is None && self.task(
            INIT_PID,
        ).inner.task_status != TaskStatus::Zombie
    }

    /// Area `a` of the kernel's address space lies in the lower part of the
    /// virtual space or is the kernel stack of a live task.
    pub open spec fn karea_ok(&self, a: int) -> bool {
        ||| self.kernel_space.spec_areas()[a].spec_start() < KSTACK_FLOOR
        ||| exists|pid: usize| self.live(pid) && pid <= MAX_APP_ID && #[trigger] self.kstack_at(a, pid)
    }

    /// The allocators, the kernel's address space and the table of tasks are
    /// consistent: every live task has its pid in use, frames of its own and
    /// its kernel stack mapped.
    pub open spec fn res_ok(&self) -> bool {
        &&& self.frame_allocator.wf()
        &&& self.pid_allocator.wf()
        &&& self.env.wf()
        &&& self.kernel_space.wf()
        &&& self.kernel_space.ppns().subset_of(self.frame_allocator.allocated())
        &&& self.kernel_space.spec_trampoline() == Some(self.trampoline_frame())
        &&& self.tasks@.len() == self.pid_allocator@.current
        &&& self.tasks@.len() <= MAX_APP_ID + 1
        &&& forall|pid: usize| self.pid_allocator.in_use(pid) == #[trigger] self.live(pid)
        &&& forall|pid: usize| #[trigger] self.task_ok(pid)
        &&& forall|p: usize, q: usize| #[trigger] self.tasks_apart(p, q)
        &&& forall|pid: usize| pid <= MAX_APP_ID ==> #[trigger] self.kstack_ok(pid)
        &&& forall|a: int| 0 <= a < self.kernel_space.spec_areas().len() ==> #[trigger] self.karea_ok(a)
    }

    /// The invariant of the kernel state.
    pub open spec fn wf(&self) -> bool {
        &&& self.res_ok()
        &&& self.sched_ok()
        &&& self.family_ok()
    }

    /// The running task.
    pub fn current_task(&self) -> (r: Option<usize>)
        ensures
            r == self.processor.spec_current(),
    {
        self.processor.current()
    }

    /// Takes the running task off the processor.
    pub fn take_current_task(&mut self) -> (r: Option<usize>)
        ensures
            r == old(self).processor.spec_current(),
            final(self).processor.spec_current() is None,
            final(self).processor.spec_idle_task_cx() == old(self).processor.spec_idle_task_cx(),
            final(self).frame_allocator == old(self).frame_allocator,
            final(self).pid_allocator == old(self).pid_allocator,
            final(self).kernel_space == old(self).kernel_space,
            final(self).tasks == old(self).tasks,
            final(self).manager == old(self).manager,
            final(self).apps == old(self).apps,
            final(self).env == old(self).env,
    {
        self.processor.take_current()
    }

    /// The token of the address space of the running task.
    pub fn current_user_token(&self) -> (r: u64)
        requires
            self.wf(),
            self.processor.spec_current() is Some,
        ensures
            r == self.task(self.processor.spec_current().unwrap()).inner.memory_set.spec_token(),
    {
        let c = self.processor.current().unwrap();
        proof {
            assert(self.task_ok(c));
        }
        match &self.tasks[c] {
            Some(t) => t.inner.get_user_token(),
            None => 0,
        }
    }

    /// Sets the status of the live task `pid`.
    pub(crate) fn set_status(&mut self, pid: usize, status: TaskStatus)
        requires
            old(self).live(pid),
        ensures
            final(self).frame_allocator == old(self).frame_allocator,
            final(self).pid_allocator == old(self).pid_allocator,
            final(self).kernel_space == old(self).kernel_space,
            final(self).manager == old(self).manager,
            final(self).processor == old(self).processor,
            final(self).apps == old(self).apps,
            final(self).env == old(self).env,
            final(self).tasks@.len() == old(self).tasks@.len(),
            forall|q: usize|
                q < old(self).tasks@.len() && q != pid ==> #[trigger] final(self).tasks@[q as int] == old(self).tasks@[q as int],
            final(self).live(pid),
            final(self).task(pid).pid == old(self).task(pid).pid,
            final(self).task(pid).kernel_stack == old(self).task(pid).kernel_stack,
            final(self).task(pid).inner.task_status == status,
            final(self).task(pid).inner.memory_set == old(self).task(pid).inner.memory_set,
            final(self).task(pid).inner.trap_cx_ppn == old(self).task(pid).inner.trap_cx_ppn,
            final(self).task(pid).inner.base_size == old(self).task(pid).inner.base_size,
            final(self).task(pid).inner.task_cx == old(self).task(pid).inner.task_cx,
            final(self).task(pid).inner.parent == old(self).task(pid).inner.parent,
            final(self).task(pid).inner.children == old(self).task(pid).inner.children,
            final(self).task(pid).inner.exit_code == old(self).task(pid).inner.exit_code,
    {
        match &mut self.tasks[pid] {
            Some(t) => {
                t.inner.task_status = status;
            },
            None => {},
        }
    }

    /// Between `old` and `self` nothing changed but the status of task `pid`,
    /// which is no zombie before or after.
    pub open spec fn status_changed(&self, old: &Kernel, pid: usize) -> bool {
        &&& self.frame_allocator == old.frame_allocator
        &&& self.pid_allocator == old.pid_allocator
        &&& self.kernel_space == old.kernel_space
        &&& self.apps == old.apps
        &&& self.env == old.env
        &&& self.tasks@.len() == old.tasks@.len()
        &&& forall|q: usize|
            q < old.tasks@.len() && q != pid ==> #[trigger] self.tasks@[q as int] == old.tasks@[q as int]
        &&& old.live(pid)
        &&& self.live(pid)
        &&& self.task(pid).pid == old.task(pid).pid
        &&& self.task(pid).kernel_stack == old.task(pid).kernel_stack
        &&& self.task(pid).inner.memory_set == old.task(pid).inner.memory_set
        &&& self.task(pid).inner.trap_cx_ppn == old.task(pid).inner.trap_cx_ppn
        &&& self.task(pid).inner.base_size == old.task(pid).inner.base_size
        &&& self.task(pid).inner.task_cx == old.task(pid).inner.task_cx
        &&& self.task(pid).inner.parent == old.task(pid).inner.parent
        &&& self.task(pid).inner.children == old.task(pid).inner.children
        &&& self.task(pid).inner.exit_code == old.task(pid).inner.exit_code
        &&& old.task(pid).inner.task_status != TaskStatus::Zombie
        &&& self.task(pid).inner.task_status != TaskStatus::Zombie
    }

    /// A change of status that the scheduler's books follow keeps the kernel
    /// well formed.
    pub proof fn lemma_status_changed(&self, old: &Kernel, pid: usize)
        requires
            old.wf(),
            self.status_changed(old, pid),
            self.sched_ok(),
        ensures
            self.wf(),
    {
        assert forall|q: usize| self.live(q) == old.live(q) by {
            if q != pid && q < self.tasks@.len() {
                assert(self.tasks@[q as int] == old.tasks@[q as int]);
            }
        }
        assert forall|q: usize| self.pid_allocator.in_use(q) == #[trigger] self.live(q) by {
            assert(old.pid_allocator.in_use(q) == old.live(q));
        }
        assert forall|q: usize| #[trigger] self.task_ok(q) by {
            assert(old.task_ok(q));
            if q != pid && q < self.tasks@.len() {
                assert(self.tasks@[q as int] == old.tasks@[q as int]);
            }
        }
        assert forall|p: usize, q: usize| #[trigger] self.tasks_apart(p, q) by {
            assert(old.tasks_apart(p, q));
            if p != pid && p < self.tasks@.len() {
                assert(self.tasks@[p as int] == old.tasks@[p as int]);
            }
            if q != pid && q < self.tasks@.len() {
                assert(self.tasks@[q as int] == old.tasks@[q as int]);
            }
        }
        assert forall|q: usize| q <= MAX_APP_ID implies #[trigger] self.kstack_ok(q) by {
            assert(old.kstack_ok(q));
            if old.live(q) {
                let a = choose|a: int| 0 <= a < old.kernel_space.spec_areas().len() && old.kstack_at(a, q);
                assert(self.kstack_at(a, q));
            }
        }
        assert forall|a: int| 0 <= a < self.kernel_space.spec_areas().len() implies #[trigger] self.karea_ok(a) by {
            assert(old.karea_ok(a));
            if !(self.kernel_space.spec_areas()[a].spec_start() < KSTACK_FLOOR) {
                let q = choose|q: usize| old.live(q) && q <= MAX_APP_ID && #[trigger] old.kstack_at(a, q);
                assert(self.live(q) && self.kstack_at(a, q));
            }
        }
        assert(self.family_ok()) by {
            assert forall|p: usize| #![trigger self.live(p)] self.live(p) implies self.task(p).inner.parent != Some(
                p,
            ) by {
                assert(old.live(p));
                if p != pid && p < self.tasks@.len() {
                    assert(self.tasks@[p as int] == old.tasks@[p as int]);
                }
            }
            if INIT_PID != pid && INIT_PID < self.tasks@.len() {
                assert(self.tasks@[INIT_PID as int] == old.tasks@[INIT_PID as int]);
            }
            assert forall|p: usize, i: int|
                #![trigger self.task(p).inner.children@[i]]
                self.live(p) && 0 <= i < self.task(p).inner.children@.len() implies self.live(
                self.task(p).inner.children@[i],
            ) && self.task(self.task(p).inner.children@[i]).inner.parent == Some(p) by {
                if p != pid && p < self.tasks@.len() {
                    assert(self.tasks@[p as int] == old.tasks@[p as int]);
                }
                let c = old.task(p).inner.children@[i];
                assert(old.live(c) && old.task(c).inner.parent == Some(p));
                if c != pid && c < self.tasks@.len() {
                    assert(self.tasks@[c as int] == old.tasks@[c as int]);
                }
            }
            assert forall|p: usize| #![trigger self.live(p)] self.live(p) implies self.task(
                p,
            ).inner.children@.no_duplicates() by {
                assert(old.live(p));
                if p != pid && p < self.tasks@.len() {
                    assert(self.tasks@[p as int] == old.tasks@[p as int]);
                }
            }
            assert forall|c: usize|
                #![trigger self.live(c)]
                self.live(c) && self.task(c).inner.parent is Some implies self.live(
                self.task(c).inner.parent.unwrap(),
            ) && self.task(self.task(c).inner.parent.unwrap()).inner.children@.contains(c) by {
                assert(old.live(c));
                if c != pid && c < self.tasks@.len() {
                    assert(self.tasks@[c as int] == old.tasks@[c as int]);
                }
                let p = old.task(c).inner.parent.unwrap();
                assert(old.live(p));
                if p != pid && p < self.tasks@.len() {
                    assert(self.tasks@[p as int] == old.tasks@[p as int]);
                }
            }
            assert forall|p: usize| #![trigger self.live(p)] self.live(p) implies self.live(INIT_PID) by {
                assert(old.live(p));
                assert(old.live(INIT_PID));
            }
        }
    }

    /// A kernel state with the allocators, the address spaces and the tasks
    /// of `old` has them as consistent as `old`.
    pub proof fn lemma_res_same(&self, old: &Kernel)
        requires
            old.res_ok(),
            self.frame_allocator@ == old.frame_allocator@,
            self.pid_allocator@ == old.pid_allocator@,
            self.kernel_space == old.kernel_space,
            self.tasks@ == old.tasks@,
            self.env == old.env,
        ensures
            self.res_ok(),
    {
        assert forall|q: usize| self.live(q) == old.live(q) by {}
        assert forall|q: usize| self.pid_allocator.in_use(q) == #[trigger] self.live(q) by {
            assert(old.pid_allocator.in_use(q) == old.live(q));
        }
        assert forall|q: usize| #[trigger] self.task_ok(q) by {
            assert(old.task_ok(q));
        }
        assert forall|p: usize, q: usize| #[trigger] self.tasks_apart(p, q) by {
            assert(old.tasks_apart(p, q));
        }
        assert forall|q: usize| q <= MAX_APP_ID implies #[trigger] self.kstack_ok(q) by {
            assert(old.kstack_ok(q));
            if old.live(q) {
                let a = choose|a: int| 0 <= a < old.kernel_space.spec_areas().len() && old.kstack_at(a, q);
                assert(self.kstack_at(a, q));
            }
        }
        assert forall|a: int| 0 <= a < self.kernel_space.spec_areas().len() implies #[trigger] self.karea_ok(a) by {
            assert(old.karea_ok(a));
            if !(self.kernel_space.spec_areas()[a].spec_start() < KSTACK_FLOOR) {
                let q = choose|q: usize| old.live(q) && q <= MAX_APP_ID && #[trigger] old.kstack_at(a, q);
                assert(self.live(q) && self.kstack_at(a, q));
            }
        }
    }

    /// A kernel state with the views of `old` is as well formed as `old`.
    pub proof fn lemma_same_views(&self, old: &Kernel)
        requires
            old.wf(),
            self.frame_allocator@ == old.frame_allocator@,
            self.pid_allocator@ == old.pid_allocator@,
            self.kernel_space == old.kernel_space,
            self.tasks@ == old.tasks@,
            self.manager@ == old.manager@,
            self.processor.spec_current() == old.processor.spec_current(),
            self.env == old.env,
        ensures
            self.wf(),
    {
        assert forall|q: usize| self.live(q) == old.live(q) by {}
        assert forall|q: usize| self.pid_allocator.in_use(q) == #[trigger] self.live(q) by {
            assert(old.pid_allocator.in_use(q) == old.live(q));
        }
        assert forall|q: usize| #[trigger] self.task_ok(q) by {
            assert(old.task_ok(q));
        }
        assert forall|p: usize, q: usize| #[trigger] self.tasks_apart(p, q) by {
            assert(old.tasks_apart(p, q));
        }
        assert forall|q: usize| q <= MAX_APP_ID implies #[trigger] self.kstack_ok(q) by {
            assert(old.kstack_ok(q));
            if old.live(q) {
                let a = choose|a: int| 0 <= a < old.kernel_space.spec_areas().len() && old.kstack_at(a, q);
                assert(self.kstack_at(a, q));
            }
        }
        assert forall|a: int| 0 <= a < self.kernel_space.spec_areas().len() implies #[trigger] self.karea_ok(a) by {
            assert(old.karea_ok(a));
            if !(self.kernel_space.spec_areas()[a].spec_start() < KSTACK_FLOOR) {
                let q = choose|q: usize| old.live(q) && q <= MAX_APP_ID && #[trigger] old.kstack_at(a, q);
                assert(self.live(q) && self.kstack_at(a, q));
            }
        }
        assert(self.sched_ok()) by {
            assert forall|i: int| 0 <= i < self.manager@.len() implies self.live(#[trigger] self.manager@[i])
                && self.task(self.manager@[i]).inner.task_status == TaskStatus::Ready by {
                assert(old.live(old.manager@[i]));
            }
            assert forall|pid: usize| #![trigger self.live(pid)] self.live(pid) implies {
                &&& self.task(pid).inner.task_status == TaskStatus::Ready ==> self.manager@.contains(pid)
                &&& self.task(pid).inner.task_status == TaskStatus::Running ==> self.processor.spec_current() == Some(
                    pid,
                )
            } by {
                assert(old.live(pid));
            }
        }
        assert(self.family_ok()) by {
            assert forall|p: usize, i: int|
                #![trigger self.task(p).inner.children@[i]]
                self.live(p) && 0 <= i < self.task(p).inner.children@.len() implies self.live(
                self.task(p).inner.children@[i],
            ) && self.task(self.task(p).inner.children@[i]).inner.parent == Some(p) by {
                let c = old.task(p).inner.children@[i];
                assert(old.live(c));
            }
            assert forall|p: usize| #![trigger self.live(p)] self.live(p) implies self.task(
                p,
            ).inner.children@.no_duplicates() && self.live(INIT_PID) && self.task(p).inner.parent != Some(p) by {
                assert(old.live(p));
            }
            assert forall|c: usize|
                #![trigger self.live(c)]
                self.live(c) && self.task(c).inner.parent is Some implies self.live(
                self.task(c).inner.parent.unwrap(),
            ) && self.task(self.task(c).inner.parent.unwrap()).inner.children@.contains(c) by {
                assert(old.live(c));
            }
        }
    }

    /// Takes the running task off the processor and puts it at the end of
    /// the ready queue.
    pub fn suspend_current_and_run_next(&mut self)
        requires
            old(self).wf(),
            old(self).processor.spec_current() is Some,
        ensures
            final(self).wf(),
            final(self).sched() == old(self).sched().suspended(),
            final(self).status_changed(old(self), old(self).processor.spec_current().unwrap()),
            final(self).task(old(self).processor.spec_current().unwrap()).inner.task_status == TaskStatus::Ready,
    {
        let c = self.processor.take_current().unwrap();
        self.set_status(c, TaskStatus::Ready);
        self.manager.add(c);
        proof {
            let q0 = old(self).manager@;
            assert forall|q: usize| self.live(q) == old(self).live(q) by {
                if q != c && q < self.tasks@.len() {
                    assert(self.tasks@[q as int] == old(self).tasks@[q as int]);
                }
            }
            assert(!q0.contains(c)) by {
                if q0.contains(c) {
                    let i = choose|i: int| 0 <= i < q0.len() && q0[i] == c;
                    assert(old(self).task(q0[i]).inner.task_status == TaskStatus::Ready);
                }
            }
            assert(self.manager@.no_duplicates()) by {
                assert forall|i: int, j: int|
                    0 <= i < self.manager@.len() && 0 <= j < self.manager@.len() && i != j implies self.manager@[i]
                    != self.manager@[j] by {
                    if i < q0.len() && j < q0.len() {
                    } else if i < q0.len() {
                        assert(q0.contains(q0[i]));
                    } else if j < q0.len() {
                        assert(q0.contains(q0[j]));
                    }
                }
            }
            assert forall|i: int| 0 <= i < self.manager@.len() implies self.live(#[trigger] self.manager@[i])
                && self.task(self.manager@[i]).inner.task_status == TaskStatus::Ready by {
                if i < q0.len() {
                    let q = q0[i];
                    assert(old(self).live(q) && old(self).task(q).inner.task_status == TaskStatus::Ready);
                    assert(q0.contains(q));
                    assert(self.tasks@[q as int] == old(self).tasks@[q as int]);
                }
            }
            assert forall|pid: usize| #![trigger self.live(pid)] self.live(pid) implies {
                &&& self.task(pid).inner.task_status == TaskStatus::Ready ==> self.manager@.contains(pid)
                &&& self.task(pid).inner.task_status == TaskStatus::Running ==> self.processor.spec_current() == Some(
                    pid,
                )
            } by {
                assert(old(self).live(pid));
                if pid == c {
                    assert(self.manager@[q0.len() as int] == c);
                } else {
                    assert(self.tasks@[pid as int] == old(self).tasks@[pid as int]);
                    if old(self).task(pid).inner.task_status == TaskStatus::Ready {
                        let i = choose|i: int| 0 <= i < q0.len() && q0[i] == pid;
                        assert(self.manager@[i] == pid);
                    }
                }
            }
            self.lemma_status_changed(old(self), c);
        }
    }

    /// Puts the task at the head of the ready queue on the processor, if no
    /// task runs and one waits, and returns its pid: one turn of the idle
    /// loop.
    pub fn run_next(&mut self) -> (r: Option<usize>)
        requires
            old(self).wf(),
            old(self).processor.spec_current() is None,
        ensures
            final(self).wf(),
            final(self).sched() == old(self).sched().dispatched(),
            r == final(self).processor.spec_current(),
            match r {
                Some(pid) => final(self).status_changed(old(self), pid) && final(self).task(pid).inner.task_status
                    == TaskStatus::Running,
                None => *final(self) == *old(self),
            },
    {
        let ghost q0 = self.manager@;
        if self.manager.len() == 0 {
            return None;
        }
        match self.manager.fetch() {
            Some(pid) => {
                proof {
                    assert(old(self).live(q0[0]));
                }
                self.set_status(pid, TaskStatus::Running);
                self.processor.set_current(pid);
                proof {
                    assert forall|q: usize| self.live(q) == old(self).live(q) by {
                        if q != pid && q < self.tasks@.len() {
                            assert(self.tasks@[q as int] == old(self).tasks@[q as int]);
                        }
                    }
                    assert(self.manager@.no_duplicates());
                    assert(!self.manager@.contains(pid)) by {
                        if self.manager@.contains(pid) {
                            let i = choose|i: int| 0 <= i < self.manager@.len() && self.manager@[i] == pid;
                            assert(q0[i + 1] == pid);
                        }
                    }
                    assert forall|i: int| 0 <= i < self.manager@.len() implies self.live(#[trigger] self.manager@[i])
                        && self.task(self.manager@[i]).inner.task_status == TaskStatus::Ready by {
                        let q = q0[i + 1];
                        assert(old(self).live(q) && old(self).task(q).inner.task_status == TaskStatus::Ready);
                        assert(self.manager@.contains(q));
                        assert(self.tasks@[q as int] == old(self).tasks@[q as int]);
                    }
                    assert forall|p: usize| #![trigger self.live(p)] self.live(p) implies {
                        &&& self.task(p).inner.task_status == TaskStatus::Ready ==> self.manager@.contains(p)
                        &&& self.task(p).inner.task_status == TaskStatus::Running ==> self.processor.spec_current()
                            == Some(p)
                    } by {
                        assert(old(self).live(p));
                        if p != pid && p < self.tasks@.len() {
                            assert(self.tasks@[p as int] == old(self).tasks@[p as int]);
                            if old(self).task(p).inner.task_status == TaskStatus::Ready {
                                let i = choose|i: int| 0 <= i < q0.len() && q0[i] == p;
                                assert(self.manager@[i - 1] == p);
                            }
                        }
                    }
                    self.lemma_status_changed(old(self), pid);
                }
                Some(pid)
            },
            None => None,
        }
    }

    /// `self` is `old` with the task `pid` added: its pid taken, its address
    /// space and its kernel stack on fresh frames. Every other task has kept
    /// its pid and its address space.
    pub open spec fn task_added(&self, old: &Kernel, pid: usize) -> bool {
        &&& old.res_ok()
        &&& self.env == old.env
        &&& self.frame_allocator.wf()
        &&& self.pid_allocator.wf()
        &&& self.kernel_space.wf()
        &&& pid <= MAX_APP_ID
        &&& pid == old.pid_allocator@.next()
        &&& self.pid_allocator@ == old.pid_allocator@.after_alloc()
        &&& forall|p: usize| self.pid_allocator.in_use(p) == (old.pid_allocator.in_use(p) || p == pid)
        &&& self.tasks@.len() == (if pid < old.tasks@.len() {
            old.tasks@.len()
        } else {
            old.tasks@.len() + 1
        })
        &&& forall|q: usize|
            #![trigger self.tasks@[q as int]]
            q < old.tasks@.len() && q != pid ==> (self.tasks@[q as int] is Some) == (old.tasks@[q as int] is Some)
        &&& forall|q: usize|
            #![trigger old.live(q)]
            old.live(q) && q != pid ==> {
                &&& self.task(q).wf()
                &&& self.task(q).pid == old.task(q).pid
                &&& self.task(q).inner.memory_set == old.task(q).inner.memory_set
            }
        &&& self.live(pid)
        &&& self.task(pid).wf()
        &&& self.task(pid).pid.0 == pid
        &&& self.task(pid).inner.memory_set.spec_trampoline() == Some(old.trampoline_frame())
        &&& kstack_added(self.kernel_space, old.kernel_space, pid)
        &&& self.task_ppns(pid).disjoint(self.kernel_space.ppns())
        &&& handover(
            old.frame_allocator@,
            self.frame_allocator@,
            old.kernel_space.ppns(),
            self.task_ppns(pid).union(self.kernel_space.ppns()),
        )
    }

    /// Adding a task keeps allocators, address spaces and the table of tasks
    /// consistent.
    pub proof fn lemma_task_added(&self, old: &Kernel, pid: usize)
        requires
            self.task_added(old, pid),
        ensures
            self.res_ok(),
            !old.live(pid),
            forall|q: usize| #![trigger self.live(q)] self.live(q) == (old.live(q) || q == pid),
    {
        let a0 = old.frame_allocator@;
        let a1 = self.frame_allocator@;
        let ks0 = old.kernel_space;
        let ks = self.kernel_space;
        let own = self.task_ppns(pid).union(ks.ppns());
        lemma_pid_alloc_next(old.pid_allocator@);
        assert(!old.live(pid)) by {
            assert(old.pid_allocator.in_use(pid) == old.live(pid));
        }
        assert forall|q: usize| #![trigger self.live(q)] self.live(q) == (old.live(q) || q == pid) by {
            if q != pid && q < old.tasks@.len() {
                assert((self.tasks@[q as int] is Some) == (old.tasks@[q as int] is Some));
            }
        }
        assert forall|q: usize| self.pid_allocator.in_use(q) == #[trigger] self.live(q) by {
            assert(old.pid_allocator.in_use(q) == old.live(q));
        }
        assert(ks.ppns().subset_of(a1.allocated())) by {
            assert forall|x: u64| ks.ppns().contains(x) implies a1.allocated().contains(x) by {
                assert(own.contains(x));
            }
        }
        assert forall|q: usize| #[trigger] self.task_ok(q) by {
            if self.live(q) {
                if q == pid {
                    assert forall|x: u64| self.task_ppns(pid).contains(x) implies a1.allocated().contains(x) by {
                        assert(own.contains(x));
                    }
                } else {
                    assert(old.task_ok(q));
                    lemma_handover_others(a0, a1, ks0.ppns(), own, old.task_ppns(q));
                    assert forall|x: u64| self.task_ppns(q).contains(x) implies !ks.ppns().contains(x) by {
                        assert(!own.contains(x));
                    }
                }
            }
        }
        assert forall|p: usize, q: usize| #[trigger] self.tasks_apart(p, q) by {
            if self.live(p) && self.live(q) && p != q {
                if p != pid && q != pid {
                    assert(old.tasks_apart(p, q));
                } else {
                    let o = if p == pid {
                        q
                    } else {
                        p
                    };
                    assert(old.task_ok(o));
                    lemma_handover_others(a0, a1, ks0.ppns(), own, old.task_ppns(o));
                    assert forall|x: u64| self.task_ppns(o).contains(x) implies !self.task_ppns(pid).contains(x) by {
                        assert(!own.contains(x));
                    }
                }
            }
        }
        assert forall|q: usize| q <= MAX_APP_ID implies #[trigger] self.kstack_ok(q) by {
            assert(old.kstack_ok(q));
            if q == pid {
                let a = ks.spec_areas().len() - 1;
                assert(self.kstack_at(a, pid));
            } else if old.live(q) {
                let a = choose|a: int| 0 <= a < ks0.spec_areas().len() && old.kstack_at(a, q);
                assert(ks.spec_areas()[a] == ks0.spec_areas()[a]);
                assert(self.kstack_at(a, q));
            } else {
                assert forall|v: u64| kstack_bottom_vpn(q) <= v < kstack_top_vpn(q) implies (
                #[trigger] ks.spec_translate(v)) is None by {
                    assert(ks0.spec_translate(v) is None);
                    assert(ks.spec_translate(v) == ks0.spec_translate(v));
                }
            }
        }
        assert forall|a: int| 0 <= a < ks.spec_areas().len() implies #[trigger] self.karea_ok(a) by {
            if a < ks0.spec_areas().len() {
                assert(old.karea_ok(a));
                assert(ks.spec_areas()[a] == ks0.spec_areas()[a]);
                if !(ks.spec_areas()[a].spec_start() < KSTACK_FLOOR) {
                    let q = choose|q: usize| old.live(q) && q <= MAX_APP_ID && #[trigger] old.kstack_at(a, q);
                    assert(self.live(q) && self.kstack_at(a, q));
                }
            } else {
                assert(self.kstack_at(a, pid));
            }
        }
    }

    /// Puts the control block `t` of a task that was just made into the table
    /// of tasks, at the index of its pid.
    pub(crate) fn install(&mut self, t: TaskControlBlock)
        requires
            t.pid.0 <= old(self).tasks@.len(),
            t.pid.0 < old(self).tasks@.len() ==> old(self).tasks@[t.pid.0 as int] is None,
        ensures
            final(self).frame_allocator == old(self).frame_allocator,
            final(self).pid_allocator == old(self).pid_allocator,
            final(self).kernel_space == old(self).kernel_space,
            final(self).manager == old(self).manager,
            final(self).processor == old(self).processor,
            final(self).apps == old(self).apps,
            final(self).env == old(self).env,
            final(self).tasks@.len() == (if t.pid.0 < old(self).tasks@.len() {
                old(self).tasks@.len()
            } else {
                old(self).tasks@.len() + 1
            }),
            forall|q: usize|
                q < old(self).tasks@.len() && q != t.pid.0 ==> #[trigger] final(self).tasks@[q as int] == old(
                    self,
                ).tasks@[q as int],
            final(self).tasks@[t.pid.0 as int] == Some(t),
    {
        let pid = t.pid.0;
        if pid < self.tasks.len() {
            self.tasks[pid] = Some(t);
        } else {
            self.tasks.push(Some(t));
        }
    }

    /// The kernel after boot: memory management set up, no task yet.
    pub fn new(layout: &KernelLayout, apps: Vec<App>, env: KernelEnv) -> (r: Self)
        requires
            layout.wf(),
            env.wf(),
            env.strampoline == layout.strampoline,
            frames_behind(layout) >= layout.cost(),
        ensures
            r.wf(),
            r.tasks@.len() == 0,
            r.manager@.len() == 0,
            r.processor.spec_current() is None,
            r.apps == apps,
            r.env == env,
            r.frame_allocator.available() >= frames_behind(layout) - layout.cost(),
            r.frame_allocator@.start == crate::mm::address::pages_up(layout.ekernel as int),
            r.frame_allocator@.end == crate::config::MEMORY_END / 4096,
            r.kernel_space.spec_areas().len() == 6,
            r.kernel_space.only_areas_mapped(),
    {
        let (frame_allocator, kernel_space) = init(layout);
        let r = Kernel {
            frame_allocator,
            pid_allocator: PidAllocator::new(),
            kernel_space,
            tasks: Vec::new(),
            manager: TaskManager::new(),
            processor: Processor::new(),
            apps,
            env,
        };
        proof {
            reveal(MemorySet::free_outside);
            assert forall|pid: usize| pid <= MAX_APP_ID implies #[trigger] r.kstack_ok(pid) by {
                assert forall|v: u64| kstack_bottom_vpn(pid) <= v < kstack_top_vpn(pid) implies (
                #[trigger] r.kernel_space.spec_translate(v)) is None by {}
            }
            assert forall|a: int| 0 <= a < r.kernel_space.spec_areas().len() implies #[trigger] r.karea_ok(a) by {
                assert(r.kernel_space.spec_areas()[a].spec_start() == layout.sections()[a].0 / 4096);
            }
        }
        r
    }

    /// The index of the first program named `name`.
    pub open spec fn app_index(&self, name: Seq<u8>) -> Option<int> {
        if exists|i: int| self.named_first(i, name) {
            Some(choose|i: int| self.named_first(i, name))
        } else {
            None
        }
    }

    /// Program `i` is named `name` and no program before it is.
    pub open spec fn named_first(&self, i: int, name: Seq<u8>) -> bool {
        &&& 0 <= i < self.apps@.len()
        &&& self.apps@[i].name@ == name
        &&& forall|j: int| 0 <= j < i ==> (#[trigger] self.apps@[j]).name@ != name
    }

    /// The index of the first program named `name`.
    pub fn find_app(&self, name: &Vec<u8>) -> (r: Option<usize>)
        ensures
            match r {
                Some(i) => self.app_index(name@) == Some(i as int) && i < self.apps@.len(),
                None => self.app_index(name@) is None,
            },
    {
        let mut i: usize = 0;
        while i < self.apps.len()
            invariant
                i <= self.apps@.len(),
                forall|j: int| 0 <= j < i ==> (#[trigger] self.apps@[j]).name@ != name@,
            decreases self.apps.len() - i,
        {
            if bytes_equal(&self.apps[i].name, name) {
                proof {
                    assert(self.named_first(i as int, name@));
                    let c = choose|c: int| self.named_first(c, name@);
                    if c < i {
                        assert(self.apps@[c].name@ != name@);
                    }
                    if i < c {
                        assert(self.apps@[i as int].name@ != name@);
                    }
                }
                return Some(i);
            }
            i = i + 1;
        }
        proof {
            if exists|c: int| self.named_first(c, name@) {
                let c = choose|c: int| self.named_first(c, name@);
                assert(self.apps@[c].name@ != name@);
            }
        }
        None
    }

    /// The image of the program named `initproc`.
    pub open spec fn initproc_image(&self) -> Seq<u8> {
        self.apps@[self.app_index(initproc_name()).unwrap()].data@
    }

    /// Makes the first task from the program named `initproc` and puts it in
    /// the ready queue. The kernel must not have made a task yet, so that
    /// it gets pid 0.
    pub fn add_initproc(&mut self) -> (r: Result<(), SpawnError>)
        requires
            old(self).wf(),
            old(self).tasks@.len() == 0,
        ensures
            final(self).wf(),
            match r {
                Ok(()) => {
                    &&& old(self).app_index(initproc_name()) is Some
                    &&& final(self).live(INIT_PID)
                    &&& final(self).tasks@.len() == 1
                    &&& final(self).manager@ == seq![INIT_PID]
                    &&& final(self).processor == old(self).processor
                    &&& final(self).task(INIT_PID).inner.task_status == TaskStatus::Ready
                    &&& final(self).task(INIT_PID).inner.children@.len() == 0
                    &&& final(self).task(INIT_PID).inner.parent is None
                    &&& final(self).task(INIT_PID).inner.exit_code == 0
                    &&& final(self).task(INIT_PID).inner.task_cx.spec_ra() == old(self).env.trap_return
                    &&& final(self).task(INIT_PID).inner.task_cx.spec_sp() == crate::config::kernel_stack_top(0)
                    &&& final(self).task(INIT_PID).inner.task_cx.saved_zero()
                    &&& crate::mm::elf::loaded_user(
                        final(self).task(INIT_PID).inner.memory_set,
                        final(self).task(INIT_PID).inner.base_size,
                        crate::mm::elf::elf_loads(old(self).initproc_image()),
                        old(self).initproc_image(),
                    )
                    &&& final(self).task(INIT_PID).inner.memory_set.only_areas_mapped()
                    &&& trap_cx_words(final(self).task(INIT_PID).inner.memory_set) == crate::trap::context::init_words(
                        crate::mm::elf::elf_entry(old(self).initproc_image()),
                        final(self).task(INIT_PID).inner.base_size,
                        old(self).kernel_space.spec_token(),
                        crate::config::kernel_stack_top(0) as u64,
                        old(self).env.trap_handler,
                        old(self).env.sstatus,
                    )
                },
                Err(SpawnError::NoSuchApp) => old(self).app_index(initproc_name()) is None && *final(self) == *old(self),
                Err(SpawnError::Refused(e)) => {
                    &&& old(self).app_index(initproc_name()) is Some
                    &&& crate::mm::elf::elf_refusal(
                        old(self).apps@[old(self).app_index(initproc_name()).unwrap()].data@,
                        old(self).frame_allocator.available() - self::pid::kstack_cost(INIT_PID),
                    ) == Some(e)
                    &&& final(self).tasks@ == old(self).tasks@
                    &&& final(self).manager == old(self).manager
                    &&& final(self).processor == old(self).processor
                },
            },
    {
        let name = make_initproc_name();
        let i = match self.find_app(&name) {
            Some(i) => i,
            None => {
                return Err(SpawnError::NoSuchApp);
            },
        };
        proof {
            assert(old(self).pid_allocator@.recycled.len() == 0) by {
                if old(self).pid_allocator@.recycled.len() > 0 {
                    assert(old(self).pid_allocator@.recycled[0] < 0);
                }
            }
            assert(old(self).kstack_ok(INIT_PID));
        }
        let made = TaskControlBlock::new(
            self.apps[i].data.as_slice(),
            &mut self.frame_allocator,
            &mut self.pid_allocator,
            &mut self.kernel_space,
            &self.env,
        );
        let t = match made {
            Ok(t) => t,
            Err(e) => {
                proof {
                    self.lemma_same_views(old(self));
                }
                return Err(SpawnError::Refused(e));
            },
        };
        let pid = t.pid.0;
        self.install(t);
        self.manager.add(pid);
        proof {
            assert(pid == INIT_PID);
            assert(old(self).manager@.len() == 0) by {
                if old(self).manager@.len() > 0 {
                    assert(old(self).live(old(self).manager@[0]));
                }
            }
            assert(self.task_added(old(self), pid));
            self.lemma_task_added(old(self), pid);
            assert(self.manager@ =~= seq![INIT_PID]);
            assert forall|q: usize| #![trigger self.live(q)] self.live(q) implies q == pid by {}
            assert(self.manager@[0] == pid);
            assert(self.manager@.contains(pid));
            assert(self.sched_ok());
            assert(self.family_ok());
        }
        Ok(())
    }

    /// `self` is `old` but for task `pid`, whose address space took or
    /// returned frames; every other task is as it was.
    pub open spec fn task_reframed(&self, old: &Kernel, pid: usize) -> bool {
        &&& old.res_ok()
        &&& self.env == old.env
        &&& self.frame_allocator.wf()
        &&& self.pid_allocator@ == old.pid_allocator@
        &&& self.kernel_space == old.kernel_space
        &&& self.tasks@.len() == old.tasks@.len()
        &&& forall|q: usize|
            q < old.tasks@.len() && q != pid ==> #[trigger] self.tasks@[q as int] == old.tasks@[q as int]
        &&& old.live(pid)
        &&& self.live(pid)
        &&& self.task(pid).wf()
        &&& self.task(pid).pid == old.task(pid).pid
        &&& self.task(pid).inner.memory_set.spec_trampoline() == old.task(pid).inner.memory_set.spec_trampoline()
        &&& handover(old.frame_allocator@, self.frame_allocator@, old.task_ppns(pid), self.task_ppns(pid))
    }

    /// A task that took or returned frames leaves allocators, address spaces
    /// and the table of tasks consistent.
    pub proof fn lemma_task_reframed(&self, old: &Kernel, pid: usize)
        requires
            self.task_reframed(old, pid),
        ensures
            self.res_ok(),
            forall|q: usize| #![trigger self.live(q)] self.live(q) == old.live(q),
    {
        let a0 = old.frame_allocator@;
        let a1 = self.frame_allocator@;
        assert forall|q: usize| #![trigger self.live(q)] self.live(q) == old.live(q) by {
            if q != pid && q < old.tasks@.len() {
                assert(self.tasks@[q as int] == old.tasks@[q as int]);
            }
        }
        assert forall|q: usize| self.pid_allocator.in_use(q) == #[trigger] self.live(q) by {
            assert(old.pid_allocator.in_use(q) == old.live(q));
        }
        assert(old.task_ok(pid));
        lemma_handover_others(a0, a1, old.task_ppns(pid), self.task_ppns(pid), old.kernel_space.ppns());
        assert forall|q: usize| #[trigger] self.task_ok(q) by {
            if self.live(q) && q != pid {
                assert(old.task_ok(q));
                assert(old.tasks_apart(q, pid));
                assert(self.tasks@[q as int] == old.tasks@[q as int]);
                lemma_handover_others(a0, a1, old.task_ppns(pid), self.task_ppns(pid), old.task_ppns(q));
            }
        }
        assert forall|p: usize, q: usize| #[trigger] self.tasks_apart(p, q) by {
            if self.live(p) && self.live(q) && p != q {
                if p != pid && q != pid {
                    assert(old.tasks_apart(p, q));
                    assert(self.tasks@[p as int] == old.tasks@[p as int]);
                    assert(self.tasks@[q as int] == old.tasks@[q as int]);
                } else {
                    let o = if p == pid {
                        q
                    } else {
                        p
                    };
                    assert(old.task_ok(o));
                    assert(old.tasks_apart(o, pid));
                    assert(self.tasks@[o as int] == old.tasks@[o as int]);
                    lemma_handover_others(a0, a1, old.task_ppns(pid), self.task_ppns(pid), old.task_ppns(o));
                }
            }
        }
        assert forall|q: usize| q <= MAX_APP_ID implies #[trigger] self.kstack_ok(q) by {
            assert(old.kstack_ok(q));
            if old.live(q) {
                let a = choose|a: int| 0 <= a < old.kernel_space.spec_areas().len() && old.kstack_at(a, q);
                assert(self.kstack_at(a, q));
            }
        }
        assert forall|a: int| 0 <= a < self.kernel_space.spec_areas().len() implies #[trigger] self.karea_ok(a) by {
            assert(old.karea_ok(a));
            if !(self.kernel_space.spec_areas()[a].spec_start() < KSTACK_FLOOR) {
                let q = choose|q: usize| old.live(q) && q <= MAX_APP_ID && #[trigger] old.kstack_at(a, q);
                assert(self.live(q) && self.kstack_at(a, q));
            }
        }
    }

    /// Makes the live task `pid`, which is no zombie, a zombie with exit code
    /// `exit_code`: its areas unmapped and their frames given back, its list
    /// of children emptied and returned.
    fn make_zombie(&mut self, pid: usize, exit_code: i32) -> (kids: Vec<usize>)
        requires
            old(self).res_ok(),
            old(self).live(pid),
            old(self).task(pid).inner.task_status != TaskStatus::Zombie,
        ensures
            final(self).res_ok(),
            final(self).task_reframed(old(self), pid),
            final(self).pid_allocator == old(self).pid_allocator,
            final(self).manager == old(self).manager,
            final(self).processor == old(self).processor,
            final(self).apps == old(self).apps,
            kids@ == old(self).task(pid).inner.children@,
            final(self).task(pid).inner.children@.len() == 0,
            final(self).task(pid).inner.task_status == TaskStatus::Zombie,
            final(self).task(pid).inner.exit_code == exit_code,
            final(self).task(pid).inner.parent == old(self).task(pid).inner.parent,
            final(self).task(pid).kernel_stack == old(self).task(pid).kernel_stack,
            final(self).task(pid).inner.task_cx == old(self).task(pid).inner.task_cx,
            final(self).task(pid).inner.memory_set.spec_areas().len() == 0,
            final(self).task(pid).inner.memory_set.spec_token() == old(self).task(pid).inner.memory_set.spec_token(),
            final(self).frame_allocator.available() >= old(self).frame_allocator.available(),
    {
        let mut kids: Vec<usize> = Vec::new();
        proof {
            assert(old(self).task_ok(pid));
        }
        match &mut self.tasks[pid] {
            Some(t) => {
                t.inner.task_status = TaskStatus::Zombie;
                t.inner.exit_code = exit_code;
                core::mem::swap(&mut t.inner.children, &mut kids);
                t.inner.memory_set.recycle_data_pages(&mut self.frame_allocator);
            },
            None => {},
        }
        proof {
            assert(self.task_reframed(old(self), pid));
            self.lemma_task_reframed(old(self), pid);
        }
        kids
    }

    /// Task `q` of `self` uses what task `q` of `old` uses: pid, kernel
    /// stack, address space and trap context.
    pub open spec fn same_resources(&self, old: &Kernel, q: usize) -> bool {
        &&& self.live(q) == old.live(q)
        &&& old.live(q) ==> {
            &&& self.task(q).pid == old.task(q).pid
            &&& self.task(q).kernel_stack == old.task(q).kernel_stack
            &&& self.task(q).inner.memory_set == old.task(q).inner.memory_set
            &&& self.task(q).inner.trap_cx_ppn == old.task(q).inner.trap_cx_ppn
            &&& self.task(q).inner.base_size == old.task(q).inner.base_size
            &&& self.task(q).inner.task_cx == old.task(q).inner.task_cx
            &&& self.task(q).inner.task_status == old.task(q).inner.task_status
            &&& self.task(q).inner.exit_code == old.task(q).inner.exit_code
        }
    }

    /// `self` is `old` but for who is whose parent and child.
    pub open spec fn only_family_changed(&self, old: &Kernel) -> bool {
        &&& self.frame_allocator == old.frame_allocator
        &&& self.pid_allocator == old.pid_allocator
        &&& self.kernel_space == old.kernel_space
        &&& self.manager == old.manager
        &&& self.processor == old.processor
        &&& self.apps == old.apps
        &&& self.env == old.env
        &&& self.tasks@.len() == old.tasks@.len()
        &&& forall|q: usize| #[trigger] self.same_resources(old, q)
        &&& forall|q: usize|
            #![trigger old.live(q)]
            old.live(q) && old.task(q).inner.task_status == TaskStatus::Zombie ==> self.task(q).inner.children@.len()
                == 0
    }

    /// A change of parents and children leaves allocators, address spaces,
    /// the table of tasks and the scheduler's books consistent.
    pub proof fn lemma_only_family_changed(&self, old: &Kernel)
        requires
            old.res_ok(),
            old.sched_ok(),
            self.only_family_changed(old),
        ensures
            self.res_ok(),
            self.sched_ok(),
    {
        assert forall|q: usize| #![trigger self.live(q)] self.live(q) == old.live(q) by {
            assert(self.same_resources(old, q));
        }
        assert forall|q: usize| self.pid_allocator.in_use(q) == #[trigger] self.live(q) by {
            assert(old.pid_allocator.in_use(q) == old.live(q));
        }
        assert forall|q: usize| #[trigger] self.task_ok(q) by {
            assert(old.task_ok(q));
            assert(self.same_resources(old, q));
        }
        assert forall|p: usize, q: usize| #[trigger] self.tasks_apart(p, q) by {
            assert(old.tasks_apart(p, q));
            assert(self.same_resources(old, p));
            assert(self.same_resources(old, q));
        }
        assert forall|q: usize| q <= MAX_APP_ID implies #[trigger] self.kstack_ok(q) by {
            assert(old.kstack_ok(q));
            if old.live(q) {
                let a = choose|a: int| 0 <= a < old.kernel_space.spec_areas().len() && old.kstack_at(a, q);
                assert(self.kstack_at(a, q));
            }
        }
        assert forall|a: int| 0 <= a < self.kernel_space.spec_areas().len() implies #[trigger] self.karea_ok(a) by {
            assert(old.karea_ok(a));
            if !(self.kernel_space.spec_areas()[a].spec_start() < KSTACK_FLOOR) {
                let q = choose|q: usize| old.live(q) && q <= MAX_APP_ID && #[trigger] old.kstack_at(a, q);
                assert(self.live(q) && self.kstack_at(a, q));
            }
        }
        assert forall|i: int| 0 <= i < self.manager@.len() implies self.live(#[trigger] self.manager@[i])
            && self.task(self.manager@[i]).inner.task_status == TaskStatus::Ready by {
            assert(old.live(old.manager@[i]));
            assert(self.same_resources(old, old.manager@[i]));
        }
        if let Some(c) = self.processor.spec_current() {
            assert(self.same_resources(old, c));
        }
        assert forall|pid: usize| #![trigger self.live(pid)] self.live(pid) implies {
            &&& self.task(pid).inner.task_status == TaskStatus::Ready ==> self.manager@.contains(pid)
            &&& self.task(pid).inner.task_status == TaskStatus::Running ==> self.processor.spec_current() == Some(pid)
        } by {
            assert(self.same_resources(old, pid));
            assert(old.live(pid));
        }
    }

    /// Gives the tasks `kids` to the first task: each gets the first task as
    /// its parent, and the first task gets them as its youngest children, in
    /// their order.
    fn rehome(&mut self, kids: &Vec<usize>)
        requires
            old(self).live(INIT_PID),
            forall|j: int| 0 <= j < kids@.len() ==> old(self).live(#[trigger] kids@[j]) && kids@[j] != INIT_PID,
            kids@.no_duplicates(),
        ensures
            final(self).frame_allocator == old(self).frame_allocator,
            final(self).pid_allocator == old(self).pid_allocator,
            final(self).kernel_space == old(self).kernel_space,
            final(self).manager == old(self).manager,
            final(self).processor == old(self).processor,
            final(self).apps == old(self).apps,
            final(self).env == old(self).env,
            final(self).tasks@.len() == old(self).tasks@.len(),
            forall|q: usize| #[trigger] final(self).same_resources(old(self), q),
            forall|q: usize|
                #![trigger final(self).tasks@[q as int]]
                q < old(self).tasks@.len() && q != INIT_PID && !kids@.contains(q) ==> final(self).tasks@[q as int]
                    == old(self).tasks@[q as int],
            forall|j: int|
                #![trigger kids@[j]]
                0 <= j < kids@.len() ==> final(self).task(kids@[j]).inner.parent == Some(INIT_PID) && final(self).task(kids@[j]).inner.children == old(self).task(kids@[j]).inner.children,
            final(self).task(INIT_PID).inner.parent == old(self).task(INIT_PID).inner.parent,
            final(self).task(INIT_PID).inner.children@ == old(self).task(INIT_PID).inner.children@ + kids@,
    {
        let n: usize = kids.len();
        let mut i: usize = 0;
        proof {
            assert(self.task(INIT_PID).inner.children@ =~= old(self).task(INIT_PID).inner.children@ + kids@.subrange(
                0,
                0,
            ));
        }
        while i < n
            invariant
                i <= n,
                n == kids@.len(),
                old(self).live(INIT_PID),
                forall|j: int| 0 <= j < kids@.len() ==> old(self).live(#[trigger] kids@[j]) && kids@[j] != INIT_PID,
                kids@.no_duplicates(),
                self.frame_allocator == old(self).frame_allocator,
                self.pid_allocator == old(self).pid_allocator,
                self.kernel_space == old(self).kernel_space,
                self.manager == old(self).manager,
                self.processor == old(self).processor,
                self.apps == old(self).apps,
                self.env == old(self).env,
                self.tasks@.len() == old(self).tasks@.len(),
                forall|q: usize| #[trigger] self.same_resources(old(self), q),
                forall|q: usize|
                    #![trigger self.tasks@[q as int]]
                    q < old(self).tasks@.len() && q != INIT_PID && !kids@.subrange(0, i as int).contains(q)
                        ==> self.tasks@[q as int] == old(self).tasks@[q as int],
                forall|j: int|
                    #![trigger kids@[j]]
                    0 <= j < i ==> self.task(kids@[j]).inner.parent == Some(INIT_PID) && self.task(
                        kids@[j],
                    ).inner.children == old(self).task(kids@[j]).inner.children,
                self.task(INIT_PID).inner.parent == old(self).task(INIT_PID).inner.parent,
                self.task(INIT_PID).inner.children@ == old(self).task(INIT_PID).inner.children@ + kids@.subrange(
                    0,
                    i as int,
                ),
            decreases n - i,
        {
            let kid = kids[i];
            let ghost before = *self;
            proof {
                assert(old(self).live(kids@[i as int]));
                assert(self.same_resources(old(self), kid));
                assert(self.same_resources(old(self), INIT_PID));
            }
            match &mut self.tasks[kid] {
                Some(t) => {
                    t.inner.parent = Some(INIT_PID);
                },
                None => {},
            }
            let ghost middle = *self;
            match &mut self.tasks[INIT_PID] {
                Some(t) => {
                    t.inner.children.push(kid);
                },
                None => {},
            }
            proof {
                assert(kids@.subrange(0, i + 1) =~= kids@.subrange(0, i as int).push(kid));
                assert(self.task(INIT_PID).inner.children@ =~= old(self).task(INIT_PID).inner.children@
                    + kids@.subrange(0, i + 1));
                assert forall|q: usize| #[trigger] self.same_resources(old(self), q) by {
                    assert(before.same_resources(old(self), q));
                    if q != kid && q != INIT_PID && q < self.tasks@.len() {
                        assert(self.tasks@[q as int] == before.tasks@[q as int]);
                    }
                }
                assert forall|q: usize|
                    #![trigger self.tasks@[q as int]]
                    q < old(self).tasks@.len() && q != INIT_PID && !kids@.subrange(0, i + 1).contains(q) implies self.tasks@[q as int]
                    == old(self).tasks@[q as int] by {
                    assert(q != kid) by {
                        assert(kids@.subrange(0, i + 1)[i as int] == kid);
                    }
                    if kids@.subrange(0, i as int).contains(q) {
                        let j = choose|j: int| 0 <= j < i && kids@.subrange(0, i as int)[j] == q;
                        assert(kids@.subrange(0, i + 1)[j] == q);
                    }
                    assert(before.tasks@[q as int] == old(self).tasks@[q as int]);
                }
                assert forall|j: int| #![trigger kids@[j]] 0 <= j < i + 1 implies self.task(kids@[j]).inner.parent
                    == Some(INIT_PID) && self.task(kids@[j]).inner.children == old(self).task(
                    kids@[j],
                ).inner.children by {
                    if j < i {
                        assert(kids@[j] != kid);
                        assert(old(self).live(kids@[j]));
                        assert(self.tasks@[kids@[j] as int] == before.tasks@[kids@[j] as int]);
                    } else {
                        assert(!kids@.subrange(0, i as int).contains(kid)) by {
                            if kids@.subrange(0, i as int).contains(kid) {
                                let k = choose|k: int| 0 <= k < i && kids@.subrange(0, i as int)[k] == kid;
                                assert(kids@[k] == kids@[i as int]);
                            }
                        }
                        assert(before.tasks@[kid as int] == old(self).tasks@[kid as int]);
                    }
                }
            }
            i = i + 1;
        }
        proof {
            assert(kids@.subrange(0, n as int) =~= kids@);
        }
    }

    /// `self` is `old` after the running task `c`, which is not the first
    /// task, has exited with `exit_code`: `c` is a zombie without areas, its
    /// children are children of the first task, and no task runs.
    pub open spec fn exited(&self, old: &Kernel, c: usize, exit_code: i32) -> bool {
        let kids = old.task(c).inner.children@;
        &&& self.pid_allocator == old.pid_allocator
        &&& self.kernel_space == old.kernel_space
        &&& self.manager == old.manager
        &&& self.apps == old.apps
        &&& self.env == old.env
        &&& self.processor.spec_current() is None
        &&& self.processor.spec_idle_task_cx() == old.processor.spec_idle_task_cx()
        &&& self.tasks@.len() == old.tasks@.len()
        &&& forall|q: usize| #![trigger self.live(q)] self.live(q) == old.live(q)
        &&& forall|q: usize|
            #![trigger self.tasks@[q as int]]
            q < old.tasks@.len() && q != c && q != INIT_PID && !kids.contains(q) ==> self.tasks@[q as int]
                == old.tasks@[q as int]
        &&& self.task(c).inner.task_status == TaskStatus::Zombie
        &&& self.task(c).inner.exit_code == exit_code
        &&& self.task(c).inner.children@.len() == 0
        &&& self.task(c).inner.parent == old.task(c).inner.parent
        &&& self.task(c).inner.memory_set.spec_areas().len() == 0
        &&& self.task(c).inner.memory_set.spec_token() == old.task(c).inner.memory_set.spec_token()
        &&& self.task(c).pid == old.task(c).pid
        &&& self.task(c).kernel_stack == old.task(c).kernel_stack
        &&& forall|j: int|
            #![trigger kids[j]]
            0 <= j < kids.len() ==> self.task(kids[j]).inner.parent == Some(INIT_PID) && self.task(
                kids[j],
            ).inner.task_status == old.task(kids[j]).inner.task_status && self.task(kids[j]).inner.memory_set
                == old.task(kids[j]).inner.memory_set && self.task(kids[j]).inner.children == old.task(
                kids[j],
            ).inner.children
        &&& self.task(INIT_PID).inner.children@ == old.task(INIT_PID).inner.children@ + kids
        &&& self.task(INIT_PID).inner.memory_set == old.task(INIT_PID).inner.memory_set
        &&& self.frame_allocator.available() >= old.frame_allocator.available()
        &&& self.frame_allocator@.same_range(old.frame_allocator@)
    }

    /// `self` is `old` with the running task `c` taken off the processor and
    /// made a zombie.
    pub open spec fn zombied(&self, old: &Kernel, c: usize, exit_code: i32) -> bool {
        &&& old.wf()
        &&& old.processor.spec_current() == Some(c)
        &&& c != INIT_PID
        &&& self.res_ok()
        &&& self.pid_allocator == old.pid_allocator
        &&& self.kernel_space == old.kernel_space
        &&& self.manager == old.manager
        &&& self.apps == old.apps
        &&& self.env == old.env
        &&& self.processor.spec_current() is None
        &&& self.processor.spec_idle_task_cx() == old.processor.spec_idle_task_cx()
        &&& self.tasks@.len() == old.tasks@.len()
        &&& forall|q: usize|
            q < old.tasks@.len() && q != c ==> #[trigger] self.tasks@[q as int] == old.tasks@[q as int]
        &&& self.live(c)
        &&& self.task(c).inner.children@.len() == 0
        &&& self.task(c).inner.task_status == TaskStatus::Zombie
        &&& self.task(c).inner.exit_code == exit_code
        &&& self.task(c).inner.parent == old.task(c).inner.parent
        &&& self.task(c).inner.memory_set.spec_areas().len() == 0
        &&& self.task(c).inner.memory_set.spec_token() == old.task(c).inner.memory_set.spec_token()
        &&& self.task(c).pid == old.task(c).pid
        &&& self.task(c).kernel_stack == old.task(c).kernel_stack
        &&& self.frame_allocator.available() >= old.frame_allocator.available()
        &&& self.frame_allocator@.same_range(old.frame_allocator@)
    }

    /// `self` is `mid` with the tasks `kids` given to the first task.
    pub open spec fn rehomed(&self, mid: &Kernel, kids: Seq<usize>) -> bool {
        &&& self.frame_allocator == mid.frame_allocator
        &&& self.pid_allocator == mid.pid_allocator
        &&& self.kernel_space == mid.kernel_space
        &&& self.manager == mid.manager
        &&& self.processor == mid.processor
        &&& self.apps == mid.apps
        &&& self.env == mid.env
        &&& self.tasks@.len() == mid.tasks@.len()
        &&& forall|q: usize| #[trigger] self.same_resources(mid, q)
        &&& forall|q: usize|
            #![trigger self.tasks@[q as int]]
            q < mid.tasks@.len() && q != INIT_PID && !kids.contains(q) ==> self.tasks@[q as int] == mid.tasks@[q as int]
        &&& forall|j: int|
            #![trigger kids[j]]
            0 <= j < kids.len() ==> self.task(kids[j]).inner.parent == Some(INIT_PID) && self.task(
                kids[j],
            ).inner.children == mid.task(kids[j]).inner.children
        &&& self.task(INIT_PID).inner.parent == mid.task(INIT_PID).inner.parent
        &&& self.task(INIT_PID).inner.children@ == mid.task(INIT_PID).inner.children@ + kids
    }

    /// What is known of the children of the task that exits.
    proof fn lemma_kids(&self, c: usize)
        requires
            self.wf(),
            self.live(c),
            c != INIT_PID,
        ensures
            self.live(INIT_PID),
            self.task(INIT_PID).inner.task_status != TaskStatus::Zombie,
            self.task(INIT_PID).inner.parent is None,
            self.task(c).inner.children@.no_duplicates(),
            !self.task(c).inner.children@.contains(c),
            !self.task(c).inner.children@.contains(INIT_PID),
            forall|j: int|
                #![trigger self.task(c).inner.children@[j]]
                0 <= j < self.task(c).inner.children@.len() ==> self.live(self.task(c).inner.children@[j]) && self.task(
                    self.task(c).inner.children@[j],
                ).inner.parent == Some(c),
            forall|k: usize|
                #![trigger self.task(c).inner.children@.contains(k)]
                self.task(c).inner.children@.contains(k) ==> self.live(k) && self.task(k).inner.parent == Some(c),
    {
        let ks = self.task(c).inner.children@;
        assert forall|k: usize| #![trigger ks.contains(k)] ks.contains(k) implies self.live(k) && self.task(
            k,
        ).inner.parent == Some(c) by {
            let j = choose|j: int| 0 <= j < ks.len() && ks[j] == k;
            assert(self.live(self.task(c).inner.children@[j]));
        }
        if ks.contains(c) {
            assert(self.task(c).inner.parent != Some(c));
        }
    }

    /// After an exit the scheduler's books are in order.
    proof fn lemma_exited_sched(&self, mid: &Kernel, old: &Kernel, c: usize, exit_code: i32)
        requires
            mid.zombied(old, c, exit_code),
            self.rehomed(mid, old.task(c).inner.children@),
        ensures
            self.res_ok(),
            self.sched_ok(),
            forall|q: usize| #![trigger self.live(q)] self.live(q) == old.live(q),
    {
        let ks = old.task(c).inner.children@;
        old.lemma_kids(c);
        assert forall|q: usize| #![trigger mid.live(q)] mid.live(q) == old.live(q) by {
            if q != c && q < mid.tasks@.len() {
                assert(mid.tasks@[q as int] == old.tasks@[q as int]);
            }
        }
        assert forall|q: usize| #![trigger self.live(q)] self.live(q) == old.live(q) by {
            assert(self.same_resources(mid, q));
        }
        assert(mid.sched_ok()) by {
            assert forall|i: int| 0 <= i < mid.manager@.len() implies mid.live(#[trigger] mid.manager@[i])
                && mid.task(mid.manager@[i]).inner.task_status == TaskStatus::Ready by {
                let q = old.manager@[i];
                assert(old.live(q) && old.task(q).inner.task_status == TaskStatus::Ready);
                assert(mid.tasks@[q as int] == old.tasks@[q as int]);
            }
            assert forall|pid: usize| #![trigger mid.live(pid)] mid.live(pid) implies {
                &&& mid.task(pid).inner.task_status == TaskStatus::Ready ==> mid.manager@.contains(pid)
                &&& mid.task(pid).inner.task_status == TaskStatus::Running ==> mid.processor.spec_current() == Some(
                    pid,
                )
            } by {
                assert(old.live(pid));
                if pid != c {
                    assert(mid.tasks@[pid as int] == old.tasks@[pid as int]);
                }
            }
        }
        assert forall|q: usize|
            #![trigger mid.live(q)]
            mid.live(q) && mid.task(q).inner.task_status == TaskStatus::Zombie implies self.task(q).inner.children@.len()
            == 0 by {
            assert(old.live(q));
            if q == c {
                assert(self.tasks@[c as int] == mid.tasks@[c as int]);
            } else {
                assert(mid.tasks@[q as int] == old.tasks@[q as int]);
                assert(old.task_ok(q));
                if ks.contains(q) {
                    let j = choose|j: int| 0 <= j < ks.len() && ks[j] == q;
                    assert(self.task(ks[j]).inner.children == mid.task(ks[j]).inner.children);
                } else {
                    assert(self.tasks@[q as int] == mid.tasks@[q as int]);
                }
            }
        }
        assert(self.only_family_changed(mid));
        self.lemma_only_family_changed(mid);
    }

    /// The control block of task `q` after an exit, where `q` is neither the
    /// task that exited nor the first task nor a child of the task that
    /// exited.
    proof fn lemma_exited_other(&self, mid: &Kernel, old: &Kernel, c: usize, exit_code: i32, q: usize)
        requires
            mid.zombied(old, c, exit_code),
            self.rehomed(mid, old.task(c).inner.children@),
            old.live(q),
            q != INIT_PID,
            !old.task(c).inner.children@.contains(q),
        ensures
            q != c ==> self.tasks@[q as int] == old.tasks@[q as int],
            q == c ==> self.tasks@[q as int] == mid.tasks@[q as int],
    {
        old.lemma_kids(c);
        assert(self.tasks@[q as int] == mid.tasks@[q as int]);
        if q != c {
            assert(mid.tasks@[q as int] == old.tasks@[q as int]);
        }
    }

    /// The children of task `p` after an exit.
    proof fn lemma_exited_children(&self, mid: &Kernel, old: &Kernel, c: usize, exit_code: i32, p: usize)
        requires
            mid.zombied(old, c, exit_code),
            self.rehomed(mid, old.task(c).inner.children@),
            old.live(p),
        ensures
            p == c ==> self.task(p).inner.children@.len() == 0,
            p == INIT_PID ==> self.task(p).inner.children@ == old.task(p).inner.children@ + old.task(c).inner.children@,
            p != c && p != INIT_PID ==> self.task(p).inner.children@ == old.task(p).inner.children@,
    {
        let ks = old.task(c).inner.children@;
        old.lemma_kids(c);
        assert(mid.tasks@[INIT_PID as int] == old.tasks@[INIT_PID as int]);
        if p == c {
            self.lemma_exited_other(mid, old, c, exit_code, c);
        } else if p != INIT_PID {
            assert(mid.tasks@[p as int] == old.tasks@[p as int]);
            if ks.contains(p) {
                let j = choose|j: int| 0 <= j < ks.len() && ks[j] == p;
                assert(self.task(ks[j]).inner.children == mid.task(ks[j]).inner.children);
            } else {
                self.lemma_exited_other(mid, old, c, exit_code, p);
            }
        }
    }

    /// The parent of task `k` after an exit.
    proof fn lemma_exited_parent(&self, mid: &Kernel, old: &Kernel, c: usize, exit_code: i32, k: usize)
        requires
            mid.zombied(old, c, exit_code),
            self.rehomed(mid, old.task(c).inner.children@),
            old.live(k),
        ensures
            old.task(c).inner.children@.contains(k) ==> self.task(k).inner.parent == Some(INIT_PID),
            !old.task(c).inner.children@.contains(k) ==> self.task(k).inner.parent == old.task(k).inner.parent,
            old.task(k).inner.parent == Some(c) <==> old.task(c).inner.children@.contains(k),
    {
        let ks = old.task(c).inner.children@;
        old.lemma_kids(c);
        assert(mid.tasks@[INIT_PID as int] == old.tasks@[INIT_PID as int]);
        if ks.contains(k) {
            let j = choose|j: int| 0 <= j < ks.len() && ks[j] == k;
            assert(self.task(ks[j]).inner.parent == Some(INIT_PID));
        } else {
            if k != INIT_PID {
                self.lemma_exited_other(mid, old, c, exit_code, k);
            }
            if old.task(k).inner.parent == Some(c) {
                assert(old.task(old.task(k).inner.parent.unwrap()).inner.children@.contains(k));
            }
        }
    }

    /// After an exit parents and children are in order.
    proof fn lemma_exited_family(&self, mid: &Kernel, old: &Kernel, c: usize, exit_code: i32)
        requires
            mid.zombied(old, c, exit_code),
            self.rehomed(mid, old.task(c).inner.children@),
            forall|q: usize| #![trigger self.live(q)] self.live(q) == old.live(q),
        ensures
            self.family_ok(),
    {
        let ks = old.task(c).inner.children@;
        let init_old = old.task(INIT_PID).inner.children@;
        old.lemma_kids(c);
        assert forall|p: usize, i: int|
            #![trigger self.task(p).inner.children@[i]]
            self.live(p) && 0 <= i < self.task(p).inner.children@.len() implies self.live(
            self.task(p).inner.children@[i],
        ) && self.task(self.task(p).inner.children@[i]).inner.parent == Some(p) by {
            self.lemma_exited_children(mid, old, c, exit_code, p);
            let k = self.task(p).inner.children@[i];
            if p == INIT_PID && i >= init_old.len() {
                assert(k == ks[i - init_old.len()]);
                assert(ks.contains(k));
                self.lemma_exited_parent(mid, old, c, exit_code, k);
            } else {
                assert(k == old.task(p).inner.children@[i]);
                assert(old.live(k) && old.task(k).inner.parent == Some(p));
                self.lemma_exited_parent(mid, old, c, exit_code, k);
            }
        }
        assert forall|p: usize| #![trigger self.live(p)] self.live(p) implies self.task(
            p,
        ).inner.children@.no_duplicates() by {
            self.lemma_exited_children(mid, old, c, exit_code, p);
            if p == INIT_PID {
                let all = self.task(INIT_PID).inner.children@;
                assert forall|i: int, j: int| 0 <= i < all.len() && 0 <= j < all.len() && i != j implies all[i]
                    != all[j] by {
                    if i < init_old.len() && j >= init_old.len() {
                        let k = init_old[i];
                        assert(old.task(old.task(INIT_PID).inner.children@[i]).inner.parent == Some(INIT_PID));
                        assert(ks.contains(ks[j - init_old.len()]));
                    } else if j < init_old.len() && i >= init_old.len() {
                        let k = init_old[j];
                        assert(old.task(old.task(INIT_PID).inner.children@[j]).inner.parent == Some(INIT_PID));
                        assert(ks.contains(ks[i - init_old.len()]));
                    }
                }
            }
        }
        assert forall|k: usize|
            #![trigger self.live(k)]
            self.live(k) && self.task(k).inner.parent is Some implies self.live(self.task(k).inner.parent.unwrap())
            && self.task(self.task(k).inner.parent.unwrap()).inner.children@.contains(k) by {
            self.lemma_exited_parent(mid, old, c, exit_code, k);
            if ks.contains(k) {
                let j = choose|j: int| 0 <= j < ks.len() && ks[j] == k;
                self.lemma_exited_children(mid, old, c, exit_code, INIT_PID);
                assert(self.task(INIT_PID).inner.children@[init_old.len() + j] == k);
            } else {
                let p = old.task(k).inner.parent.unwrap();
                assert(old.live(p) && old.task(p).inner.children@.contains(k));
                let i = choose|i: int| 0 <= i < old.task(p).inner.children@.len() && old.task(p).inner.children@[i] == k;
                self.lemma_exited_children(mid, old, c, exit_code, p);
                assert(self.task(p).inner.children@[i] == k);
            }
        }
        assert forall|p: usize| #![trigger self.live(p)] self.live(p) implies self.live(INIT_PID) && self.task(
            p,
        ).inner.parent != Some(p) by {
            self.lemma_exited_parent(mid, old, c, exit_code, p);
        }
        self.lemma_exited_parent(mid, old, c, exit_code, INIT_PID);
        assert(self.same_resources(mid, INIT_PID));
        assert(mid.tasks@[INIT_PID as int] == old.tasks@[INIT_PID as int]);
    }

    /// After an exit the kernel is as `exited` says.
    proof fn lemma_exited(&self, mid: &Kernel, old: &Kernel, c: usize, exit_code: i32)
        requires
            mid.zombied(old, c, exit_code),
            self.rehomed(mid, old.task(c).inner.children@),
            forall|q: usize| #![trigger self.live(q)] self.live(q) == old.live(q),
        ensures
            self.exited(old, c, exit_code),
    {
        let ks = old.task(c).inner.children@;
        old.lemma_kids(c);
        self.lemma_exited_other(mid, old, c, exit_code, c);
        self.lemma_exited_children(mid, old, c, exit_code, INIT_PID);
        assert(self.same_resources(mid, INIT_PID));
        assert(mid.tasks@[INIT_PID as int] == old.tasks@[INIT_PID as int]);
        assert forall|q: usize|
            #![trigger self.tasks@[q as int]]
            q < old.tasks@.len() && q != c && q != INIT_PID && !ks.contains(q) implies self.tasks@[q as int]
            == old.tasks@[q as int] by {
            assert(self.tasks@[q as int] == mid.tasks@[q as int]);
            assert(mid.tasks@[q as int] == old.tasks@[q as int]);
        }
        assert forall|j: int| #![trigger ks[j]] 0 <= j < ks.len() implies self.task(ks[j]).inner.parent == Some(
            INIT_PID,
        ) && self.task(ks[j]).inner.task_status == old.task(ks[j]).inner.task_status && self.task(
            ks[j],
        ).inner.memory_set == old.task(ks[j]).inner.memory_set && self.task(ks[j]).inner.children == old.task(
            ks[j],
        ).inner.children by {
            assert(ks.contains(ks[j]));
            assert(self.same_resources(mid, ks[j]));
            assert(mid.tasks@[ks[j] as int] == old.tasks@[ks[j] as int]);
            assert(self.task(ks[j]).inner.children == mid.task(ks[j]).inner.children);
        }
    }

    /// Ends the running task with `exit_code`. Where it is the first task,
    /// the machine is to be shut down, as a failure unless the code is 0, and
    /// nothing changes. Otherwise the task becomes a zombie, its children
    /// become children of the first task, the frames of its areas go back to
    /// the allocator, and the processor is free for the next task.
    pub fn exit_current_and_run_next(&mut self, exit_code: i32) -> (r: ExitAction)
        requires
            old(self).wf(),
            old(self).processor.spec_current() is Some,
        ensures
            final(self).wf(),
            old(self).processor.spec_current() == Some(INIT_PID) ==> r == (ExitAction::Shutdown {
                failure: exit_code != 0,
            }) && *final(self) == *old(self),
            old(self).processor.spec_current() != Some(INIT_PID) ==> r == ExitAction::Schedule && final(self).exited(old(self), old(self).processor.spec_current().unwrap(), exit_code),
    {
        let c = self.processor.current().unwrap();
        if c == INIT_PID {
            return ExitAction::Shutdown { failure: exit_code != 0 };
        }
        let _ = self.processor.take_current();
        let ghost taken = *self;
        proof {
            taken.lemma_res_same(old(self));
        }
        let kids = self.make_zombie(c, exit_code);
        let ghost mid = *self;
        proof {
            old(self).lemma_kids(c);
            assert forall|q: usize| q < old(self).tasks@.len() && q != c implies #[trigger] mid.tasks@[q as int] == old(
                self,
            ).tasks@[q as int] by {
                assert(taken.tasks@[q as int] == old(self).tasks@[q as int]);
            }
            assert(mid.zombied(old(self), c, exit_code));
            assert forall|j: int| 0 <= j < kids@.len() implies mid.live(#[trigger] kids@[j]) && kids@[j] != INIT_PID by {
                let k = old(self).task(c).inner.children@[j];
                assert(old(self).live(k));
                assert(kids@.contains(k));
                assert(mid.tasks@[k as int] == old(self).tasks@[k as int]);
            }
        }
        self.rehome(&kids);
        proof {
            assert(self.rehomed(&mid, kids@));
            self.lemma_exited_sched(&mid, old(self), c, exit_code);
            self.lemma_exited_family(&mid, old(self), c, exit_code);
            self.lemma_exited(&mid, old(self), c, exit_code);
        }
        ExitAction::Schedule
    }

    /// `self` is `old` but for the address space of task `pid`, the frame of
    /// its trap context and the top of its user stack.
    pub open spec fn memory_changed(&self, old: &Kernel, pid: usize) -> bool {
        &&& self.task_reframed(old, pid)
        &&& self.manager == old.manager
        &&& self.processor == old.processor
        &&& self.apps == old.apps
        &&& self.task(pid).kernel_stack == old.task(pid).kernel_stack
        &&& self.task(pid).inner.task_cx == old.task(pid).inner.task_cx
        &&& self.task(pid).inner.task_status == old.task(pid).inner.task_status
        &&& self.task(pid).inner.parent == old.task(pid).inner.parent
        &&& self.task(pid).inner.children == old.task(pid).inner.children
        &&& self.task(pid).inner.exit_code == old.task(pid).inner.exit_code
    }

    /// A change of the memory of one task keeps the kernel well formed.
    pub proof fn lemma_memory_changed(&self, old: &Kernel, pid: usize)
        requires
            old.wf(),
            self.memory_changed(old, pid),
        ensures
            self.wf(),
    {
        self.lemma_task_reframed(old, pid);
        assert(self.sched_ok()) by {
            assert forall|i: int| 0 <= i < self.manager@.len() implies self.live(#[trigger] self.manager@[i])
                && self.task(self.manager@[i]).inner.task_status == TaskStatus::Ready by {
                let q = old.manager@[i];
                assert(old.live(q));
                if q != pid {
                    assert(self.tasks@[q as int] == old.tasks@[q as int]);
                }
            }
            if let Some(c) = self.processor.spec_current() {
                assert(old.live(c));
                if c != pid {
                    assert(self.tasks@[c as int] == old.tasks@[c as int]);
                }
            }
            assert forall|p: usize| #![trigger self.live(p)] self.live(p) implies {
                &&& self.task(p).inner.task_status == TaskStatus::Ready ==> self.manager@.contains(p)
                &&& self.task(p).inner.task_status == TaskStatus::Running ==> self.processor.spec_current() == Some(p)
            } by {
                assert(old.live(p));
                if p != pid {
                    assert(self.tasks@[p as int] == old.tasks@[p as int]);
                }
            }
        }
        assert(self.family_ok()) by {
            assert forall|p: usize, i: int|
                #![trigger self.task(p).inner.children@[i]]
                self.live(p) && 0 <= i < self.task(p).inner.children@.len() implies self.live(
                self.task(p).inner.children@[i],
            ) && self.task(self.task(p).inner.children@[i]).inner.parent == Some(p) by {
                assert(old.live(p));
                if p != pid {
                    assert(self.tasks@[p as int] == old.tasks@[p as int]);
                }
                let c = old.task(p).inner.children@[i];
                assert(old.live(c) && old.task(c).inner.parent == Some(p));
                if c != pid {
                    assert(self.tasks@[c as int] == old.tasks@[c as int]);
                }
            }
            assert forall|p: usize| #![trigger self.live(p)] self.live(p) implies self.task(
                p,
            ).inner.children@.no_duplicates() && self.live(INIT_PID) && self.task(p).inner.parent != Some(p) by {
                assert(old.live(p));
                assert(old.live(INIT_PID));
                if p != pid {
                    assert(self.tasks@[p as int] == old.tasks@[p as int]);
                }
            }
            assert forall|c: usize|
                #![trigger self.live(c)]
                self.live(c) && self.task(c).inner.parent is Some implies self.live(
                self.task(c).inner.parent.unwrap(),
            ) && self.task(self.task(c).inner.parent.unwrap()).inner.children@.contains(c) by {
                assert(old.live(c));
                if c != pid {
                    assert(self.tasks@[c as int] == old.tasks@[c as int]);
                }
                let p = old.task(c).inner.parent.unwrap();
                assert(old.live(p));
                if p != pid {
                    assert(self.tasks@[p as int] == old.tasks@[p as int]);
                }
            }
            if INIT_PID != pid && old.live(INIT_PID) {
                assert(self.tasks@[INIT_PID as int] == old.tasks@[INIT_PID as int]);
            }
        }
    }

    /// In every address space, that of the kernel and that of every live
    /// task, the trampoline page leads to the one frame of the trampoline
    /// code, with flags exactly valid, readable and executable.
    pub proof fn lemma_trampoline_shared(&self, pid: usize)
        requires
            self.wf(),
            self.live(pid),
        ensures
            self.task(pid).inner.memory_set.spec_translate(crate::mm::memory_set::TRAMPOLINE_VPN)
                == self.kernel_space.spec_translate(crate::mm::memory_set::TRAMPOLINE_VPN),
            self.kernel_space.spec_translate(crate::mm::memory_set::TRAMPOLINE_VPN) is Some,
            self.kernel_space.spec_translate(crate::mm::memory_set::TRAMPOLINE_VPN).unwrap().ppn()
                == self.trampoline_frame(),
            self.kernel_space.spec_translate(crate::mm::memory_set::TRAMPOLINE_VPN).unwrap().flags().bits == 0x0b,
    {
        assert(self.task_ok(pid));
        self.kernel_space.lemma_trampoline_mapped();
        self.task(pid).inner.memory_set.lemma_trampoline_mapped();
    }

    /// `space` is the address space of the kernel or of a live task.
    pub open spec fn is_space(&self, space: MemorySet) -> bool {
        space == self.kernel_space || exists|pid: usize| self.live(pid) && space == #[trigger] self.task(
            pid,
        ).inner.memory_set
    }

    /// No address space has the token `satp`.
    pub open spec fn no_space_has(&self, satp: u64) -> bool {
        self.kernel_space.spec_token() != satp && forall|pid: usize|
            self.live(pid) ==> (#[trigger] self.task(pid)).inner.memory_set.spec_token() != satp
    }

    /// Two live tasks have address spaces with different tokens, and none has
    /// the token of the kernel's address space.
    pub proof fn lemma_tokens_differ(&self, p: usize, q: usize)
        requires
            self.wf(),
            self.live(p),
            self.live(q),
            p != q,
        ensures
            self.task(p).inner.memory_set.spec_token() != self.task(q).inner.memory_set.spec_token(),
            self.task(p).inner.memory_set.spec_token() != self.kernel_space.spec_token(),
    {
        assert(self.task_ok(p));
        assert(self.task_ok(q));
        assert(self.tasks_apart(p, q));
        let a = self.task(p).inner.memory_set;
        let b = self.task(q).inner.memory_set;
        a.spec_page_table().lemma_root_owned();
        b.spec_page_table().lemma_root_owned();
        self.kernel_space.spec_page_table().lemma_root_owned();
        assert(a.ppns().contains(a.spec_page_table().spec_root().0));
        assert(b.ppns().contains(b.spec_page_table().spec_root().0));
        assert(self.kernel_space.ppns().contains(self.kernel_space.spec_page_table().spec_root().0));
    }

    /// The address space with token `satp`, to read from: that of the kernel
    /// or that of a live task.
    pub fn space_by_token(&self, satp: u64) -> (r: Option<&MemorySet>)
        requires
            self.wf(),
        ensures
            match r {
                Some(space) => space.spec_token() == satp && space.wf() && self.is_space(*space),
                None => self.no_space_has(satp),
            },
    {
        if self.kernel_space.token() == satp {
            return Some(&self.kernel_space);
        }
        let mut pid: usize = 0;
        while pid < self.tasks.len()
            invariant
                self.wf(),
                pid <= self.tasks@.len(),
                self.kernel_space.spec_token() != satp,
                forall|q: usize| q < pid && self.live(q) ==> (#[trigger] self.task(q)).inner.memory_set.spec_token() != satp,
            decreases self.tasks.len() - pid,
        {
            proof {
                assert(self.task_ok(pid));
            }
            match &self.tasks[pid] {
                Some(t) => {
                    if t.inner.memory_set.token() == satp {
                        proof {
                            assert(self.live(pid) && t.inner.memory_set == self.task(pid).inner.memory_set);
                        }
                        return Some(&t.inner.memory_set);
                    }
                },
                None => {},
            }
            pid = pid + 1;
        }
        None
    }

    /// The page table with token `satp`, to look translations up in. The
    /// table is lent for reading only: nothing can be mapped or unmapped
    /// through it.
    pub fn from_token(&self, satp: u64) -> (r: Option<&PageTable>)
        requires
            self.wf(),
        ensures
            match r {
                Some(table) => table.spec_token() == satp && table.wf() && exists|space: MemorySet|
                    #![trigger self.is_space(space)]
                    self.is_space(space) && space.spec_page_table() == *table,
                None => self.no_space_has(satp),
            },
    {
        match self.space_by_token(satp) {
            Some(space) => {
                proof {
                    assert(self.is_space(*space));
                }
                Some(space.page_table())
            },
            None => None,
        }
    }

    /// The `len` bytes from address `ptr` on in the address space with token
    /// `token`, or `None` where there is no such address space or one of the
    /// bytes lies in no framed area of it.
    pub fn translated_byte_buffer(&self, token: u64, ptr: u64, len: usize) -> (r: Option<Vec<u8>>)
        requires
            self.wf(),
        ensures
            match r {
                Some(v) => exists|space: MemorySet|
                    #![trigger self.is_space(space)]
                    self.is_space(space) && space.spec_token() == token && space.accessible(ptr, len as int) && v@
                        == space.spec_bytes(ptr, len as int),
                None => self.no_space_has(token) || exists|space: MemorySet|
                    #![trigger self.is_space(space)]
                    self.is_space(space) && space.spec_token() == token && !space.accessible(ptr, len as int),
            },
    {
        match self.space_by_token(token) {
            Some(space) => {
                let r = space.read_bytes(ptr, len);
                proof {
                    assert(self.is_space(*space));
                }
                r
            },
            None => None,
        }
    }

    /// The address space of the running task.
    pub open spec fn current_space(&self) -> MemorySet {
        self.task(self.processor.spec_current().unwrap()).inner.memory_set
    }

    /// The trap context of the running task.
    pub fn current_trap_cx(&self) -> (r: TrapContext)
        requires
            self.wf(),
            self.processor.spec_current() is Some,
        ensures
            r.words() == trap_cx_words(self.current_space()),
    {
        let c = self.processor.current().unwrap();
        proof {
            assert(self.live(c));
            assert(self.task_ok(c));
        }
        match &self.tasks[c] {
            Some(t) => t.inner.get_trap_cx(),
            None => TrapContext::app_init_context(0, 0, 0, 0, 0, 0),
        }
    }

    /// Stores `val` as word `idx` of the trap context of the live task `pid`,
    /// which is no zombie.
    pub fn set_trap_cx_word(&mut self, pid: usize, idx: usize, val: u64)
        requires
            old(self).wf(),
            old(self).live(pid),
            old(self).task(pid).inner.task_status != TaskStatus::Zombie,
            idx < 37,
        ensures
            final(self).wf(),
            final(self).memory_changed(old(self), pid),
            final(self).frame_allocator == old(self).frame_allocator,
            final(self).task(pid).inner.trap_cx_ppn == old(self).task(pid).inner.trap_cx_ppn,
            final(self).task(pid).inner.base_size == old(self).task(pid).inner.base_size,
            same_but_trap_cx(final(self).task(pid).inner.memory_set, old(self).task(pid).inner.memory_set),
            trap_cx_words(final(self).task(pid).inner.memory_set) == trap_cx_words(
                old(self).task(pid).inner.memory_set,
            ).update(idx as int, val),
    {
        proof {
            assert(self.task_ok(pid));
            self.task(pid).inner.memory_set.lemma_frame_wf(crate::mm::memory_set::TRAP_CONTEXT_VPN);
        }
        match &mut self.tasks[pid] {
            Some(t) => {
                store_trap_cx_word(&mut t.inner.memory_set, idx, val);
            },
            None => {},
        }
        proof {
            self.task(pid).inner.memory_set.lemma_frame_wf(crate::mm::memory_set::TRAP_CONTEXT_VPN);
            assert(trap_cx_words(self.task(pid).inner.memory_set) =~= trap_cx_words(
                old(self).task(pid).inner.memory_set,
            ).update(idx as int, val));
            assert(self.frame_allocator.allocated().difference(self.task_ppns(pid)) =~= old(
                self,
            ).frame_allocator.allocated().difference(old(self).task_ppns(pid)));
            assert(self.memory_changed(old(self), pid));
            self.lemma_memory_changed(old(self), pid);
        }
    }

    /// Stores `data` from address `ptr` on in the memory of the running task
    /// and returns `true`, or changes nothing and returns `false` where one
    /// of the addresses lies in no framed area of that task.
    pub fn write_current(&mut self, ptr: u64, data: &Vec<u8>) -> (r: bool)
        requires
            old(self).wf(),
            old(self).processor.spec_current() is Some,
        ensures
            final(self).wf(),
            r == old(self).current_space().accessible(ptr, data@.len() as int),
            !r ==> *final(self) == *old(self),
            r ==> {
                &&& final(self).memory_changed(old(self), old(self).processor.spec_current().unwrap())
                &&& final(self).frame_allocator == old(self).frame_allocator
                &&& final(self).task(old(self).processor.spec_current().unwrap()).inner.trap_cx_ppn == old(self).task(
                    old(self).processor.spec_current().unwrap(),
                ).inner.trap_cx_ppn
                &&& final(self).task(old(self).processor.spec_current().unwrap()).inner.base_size == old(self).task(
                    old(self).processor.spec_current().unwrap(),
                ).inner.base_size
                &&& final(self).current_space().touched(&old(self).current_space())
                &&& final(self).current_space().spec_bytes(ptr, data@.len() as int) == data@
                &&& forall|a: u64|
                    !(ptr <= a < ptr + data@.len()) ==> #[trigger] final(self).current_space().spec_byte(a) == old(
                        self,
                    ).current_space().spec_byte(a)
            },
    {
        let c = self.processor.current().unwrap();
        proof {
            assert(self.live(c));
            assert(self.task_ok(c));
        }
        if self.read_current(ptr, data.len()).is_none() {
            return false;
        }
        let ok = match &mut self.tasks[c] {
            Some(t) => t.inner.memory_set.write_bytes(ptr, data),
            None => false,
        };
        proof {
            lemma_touched_trap_cx(self.task(c).inner.memory_set, old(self).task(c).inner.memory_set);
            assert(self.frame_allocator.allocated().difference(self.task_ppns(c)) =~= old(
                self,
            ).frame_allocator.allocated().difference(old(self).task_ppns(c)));
            assert(self.memory_changed(old(self), c));
            self.lemma_memory_changed(old(self), c);
        }
        ok
    }

    /// The `len` bytes from address `ptr` on of the memory of the running
    /// task, or `None` where one of them lies in no framed area.
    pub fn read_current(&self, ptr: u64, len: usize) -> (r: Option<Vec<u8>>)
        requires
            self.wf(),
            self.processor.spec_current() is Some,
        ensures
            match r {
                Some(v) => self.current_space().accessible(ptr, len as int) && v@ == self.current_space().spec_bytes(
                    ptr,
                    len as int,
                ),
                None => !self.current_space().accessible(ptr, len as int),
            },
    {
        let c = self.processor.current().unwrap();
        proof {
            assert(self.live(c));
            assert(self.task_ok(c));
        }
        match &self.tasks[c] {
            Some(t) => t.inner.memory_set.read_bytes(ptr, len),
            None => None,
        }
    }

    /// Task `pid` is live and no zombie.
    pub open spec fn active(&self, pid: usize) -> bool {
        self.live(pid) && self.task(pid).inner.task_status != TaskStatus::Zombie
    }

    /// Whether task `pid` is live and no zombie.
    pub fn is_active(&self, pid: usize) -> (r: bool)
        ensures
            r == self.active(pid),
    {
        if pid >= self.tasks.len() {
            return false;
        }
        match &self.tasks[pid] {
            Some(t) => !t.inner.is_zombie(),
            None => false,
        }
    }
}

/// The pid that the next allocation returns is not in use.
pub proof fn lemma_pid_alloc_next(s: self::pid::PidAllocState)
    requires
        s.wf(),
    ensures
        !s.in_use(s.next()),
{
    if s.recycled.len() > 0 {
        assert(s.recycled[s.recycled.len() - 1] == s.recycled.last());
    }
}

/// Why the first task cannot be made.
#[derive(Copy, Clone, Debug, PartialEq, Eq, Structural)]
pub enum SpawnError {
    /// No program has the name asked for.
    NoSuchApp,
    /// The program's image cannot be loaded.
    Refused(ElfError),
}

/// The name of the program of the first task.
pub open spec fn initproc_name() -> Seq<u8> {
    seq![0x69u8, 0x6e, 0x69, 0x74, 0x70, 0x72, 0x6f, 0x63]
}

/// The name of the program of the first task: `initproc`.
pub fn make_initproc_name() -> (r: Vec<u8>)
    ensures
        r@ == initproc_name(),
{
    let mut name: Vec<u8> = Vec::new();
    name.push(0x69);
    name.push(0x6e);
    name.push(0x69);
    name.push(0x74);
    name.push(0x70);
    name.push(0x72);
    name.push(0x6f);
    name.push(0x63);
    assert(name@ =~= initproc_name());
    name
}

/// Whether two byte strings are equal.
pub fn bytes_equal(a: &Vec<u8>, b: &Vec<u8>) -> (r: bool)
    ensures
        r == (a@ == b@),
{
    if a.len() != b.len() {
        return false;
    }
    let mut i: usize = 0;
    while i < a.len()
        invariant
            i <= a@.len(),
            a@.len() == b@.len(),
            forall|j: int| 0 <= j < i ==> a@[j] == b@[j],
        decreases a.len() - i,
    {
        if a[i] != b[i] {
            return false;
        }
        i = i + 1;
    }
    assert(a@ =~= b@);
    true
}

/// What the hart does after a task has exited.
#[derive(Copy, Clone, Debug, PartialEq, Eq, Structural)]
pub enum ExitAction {
    /// The first task has exited: the machine shuts down, reporting a
    /// failure or not.
    Shutdown { failure: bool },
    /// Another task has exited: the idle loop takes the next task.
    Schedule,
}

} // verus!
