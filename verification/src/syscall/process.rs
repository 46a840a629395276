//! System calls that manage tasks.

use vstd::prelude::*;
use crate::config::MAX_APP_ID;
use crate::mm::elf::{all_fresh, elf_entry, elf_loads, elf_refusal, loaded_user, ElfError};

use crate::trap::context::init_words;

use crate::task::pid::kstack_cost;
use crate::config::kernel_stack_top;
use crate::task::task::{can_afford, forked, kstack_added, lemma_forked_trans, lemma_fresh_kept};
use crate::task::task::{store_trap_cx_word, trap_cx_words, TaskStatus};
use crate::task::{ExitAction, Kernel, INIT_PID};
use crate::timer::{get_time_ms, spec_time_ms};

verus! {

/// Why the kernel cannot go on.
#[derive(Copy, Clone, Debug, PartialEq, Eq, Structural)]
pub enum KernelFault {
    /// The frame allocator holds too few frames.
    OutOfFrames,
    /// Every pid whose kernel stack finds room is in use.
    OutOfPids,
    /// The image of a program that was to be run cannot be loaded.
    BadImage(crate::mm::elf::ElfError),
    /// A task has made a system call that the kernel does not serve.
    UnsupportedSyscall,
    /// A trap was taken that the kernel does not handle.
    UnsupportedTrap,
}

/// Ends the running task with `exit_code`.
pub fn sys_exit(kernel: &mut Kernel, exit_code: i32) -> (r: ExitAction)
    requires
        old(kernel).wf(),
        old(kernel).processor.spec_current() is Some,
    ensures
        final(kernel).wf(),
        old(kernel).processor.spec_current() == Some(INIT_PID) ==> r == (ExitAction::Shutdown {
            failure: exit_code != 0,
        }) && *final(kernel) == *old(kernel),
        old(kernel).processor.spec_current() != Some(INIT_PID) ==> r == ExitAction::Schedule && final(kernel).exited(
            old(kernel),
            old(kernel).processor.spec_current().unwrap(),
            exit_code,
        ),
{
    kernel.exit_current_and_run_next(exit_code)
}

/// The running task gives up the processor and goes to the end of the ready
/// queue. Returns 0, the value that the task sees when it runs again.
pub fn sys_yield(kernel: &mut Kernel) -> (r: i64)
    requires
        old(kernel).wf(),
        old(kernel).processor.spec_current() is Some,
    ensures
        r == 0,
        final(kernel).wf(),
        final(kernel).sched() == old(kernel).sched().suspended(),
        final(kernel).status_changed(old(kernel), old(kernel).processor.spec_current().unwrap()),
{
    kernel.suspend_current_and_run_next();
    0
}

/// Milliseconds since boot at counter value `mtime`.
pub fn sys_get_time(mtime: u64) -> (r: i64)
    ensures
        r == spec_time_ms(mtime),
{
    get_time_ms(mtime) as i64
}

/// The pid of the running task.
pub fn sys_getpid(kernel: &Kernel) -> (r: i64)
    requires
        kernel.wf(),
        kernel.processor.spec_current() is Some,
    ensures
        r == kernel.processor.spec_current().unwrap(),
{
    let c = kernel.current_task().unwrap();
    proof {
        assert(kernel.live(c));
    }
    c as i64
}

/// `new` is `old` after its running task `c` has forked the task `child`.
pub open spec fn forked_state(new: &Kernel, old: &Kernel, c: usize, child: usize) -> bool {
    &&& child == old.pid_allocator@.next()
    &&& child != INIT_PID
    &&& child != c
    &&& !old.live(child)
    &&& new.live(child)
    &&& forall|q: usize| #![trigger new.live(q)] q != child ==> new.live(q) == old.live(q)
    &&& forall|q: usize|
        #![trigger new.tasks@[q as int]]
        q < old.tasks@.len() && q != c && q != child ==> new.tasks@[q as int] == old.tasks@[q as int]
    &&& new.processor == old.processor
    &&& new.manager@ == old.manager@.push(child)
    &&& new.apps == old.apps
    &&& new.env == old.env
    &&& new.task(c).pid == old.task(c).pid
    &&& new.task(c).kernel_stack == old.task(c).kernel_stack
    &&& new.task(c).inner.memory_set == old.task(c).inner.memory_set
    &&& new.task(c).inner.trap_cx_ppn == old.task(c).inner.trap_cx_ppn
    &&& new.task(c).inner.base_size == old.task(c).inner.base_size
    &&& new.task(c).inner.task_cx == old.task(c).inner.task_cx
    &&& new.task(c).inner.task_status == old.task(c).inner.task_status
    &&& new.task(c).inner.parent == old.task(c).inner.parent
    &&& new.task(c).inner.exit_code == old.task(c).inner.exit_code
    &&& new.task(c).inner.children@ == old.task(c).inner.children@.push(child)
    &&& new.task(child).pid.0 == child
    &&& new.task(child).inner.task_status == TaskStatus::Ready
    &&& new.task(child).inner.parent == Some(c)
    &&& new.task(child).inner.children@.len() == 0
    &&& new.task(child).inner.exit_code == 0
    &&& new.task(child).inner.base_size == old.task(c).inner.base_size
    &&& new.task(child).inner.task_cx.spec_ra() == old.env.trap_return
    &&& new.task(child).inner.task_cx.spec_sp() == kernel_stack_top(child as int)
    &&& forked(new.task(child).inner.memory_set, old.task(c).inner.memory_set)
    &&& all_fresh(new.task(child).inner.memory_set, old.frame_allocator@)
    &&& new.task(child).inner.memory_set.ppns().disjoint(old.frame_allocator.allocated())
    &&& new.task(child).inner.memory_set.only_areas_mapped()
    &&& trap_cx_words(new.task(child).inner.memory_set) == trap_cx_words(old.task(c).inner.memory_set).update(
        35,
        kernel_stack_top(child as int) as u64,
    ).update(10, 0)
    &&& kstack_added(new.kernel_space, old.kernel_space, child)
    &&& new.frame_allocator@.same_range(old.frame_allocator@)
}

/// Right after a fork, every page of the child but that of the trap context
/// holds what the same page of the parent holds, no frame of the child, of
/// data or of tables, is a frame of the parent, and the parent's address
/// space is as it was.
pub proof fn lemma_fork_copies(new: &Kernel, old: &Kernel, c: usize, child: usize, i: int, v: u64, j: int, w: u64)
    requires
        old.wf(),
        old.live(c),
        forked_state(new, old, c, child),
        0 <= i < new.task(child).inner.memory_set.spec_areas().len(),
        new.task(child).inner.memory_set.spec_areas()[i].frame_at(v) is Some,
        0 <= j < new.task(c).inner.memory_set.spec_areas().len(),
        new.task(c).inner.memory_set.spec_areas()[j].frame_at(w) is Some,
    ensures
        new.task(c).inner.memory_set.spec_areas()[i].frame_at(v) is Some,
        v != crate::mm::memory_set::TRAP_CONTEXT_VPN ==> new.task(child).inner.memory_set.spec_areas()[i].frame_at(
            v,
        ).unwrap().words() == new.task(c).inner.memory_set.spec_areas()[i].frame_at(v).unwrap().words(),
        new.task(child).inner.memory_set.spec_areas()[i].frame_at(v).unwrap().ppn() != new.task(
            c,
        ).inner.memory_set.spec_areas()[j].frame_at(w).unwrap().ppn(),
        new.task(child).inner.memory_set.ppns().disjoint(new.task(c).inner.memory_set.ppns()),
        new.task(c).inner.memory_set == old.task(c).inner.memory_set,
{
    let parent = old.task(c).inner.memory_set;
    let kid = new.task(child).inner.memory_set;
    assert(old.task_ok(c));
    assert(crate::mm::elf::area_fresh(kid.spec_areas()[i], old.frame_allocator@));
    let f = parent.spec_areas()[j].frame_at(w).unwrap();
    parent.lemma_frame_owned(j, w);
    assert(parent.ppns().contains(f.ppn().0));
    assert(old.frame_allocator.allocated().contains(f.ppn().0));
}

/// After a fork the kernel is well formed.
pub proof fn lemma_fork_wf(new: &Kernel, old: &Kernel, c: usize, child: usize)
    requires
        old.wf(),
        old.processor.spec_current() == Some(c),
        new.task_added(old, child),
        forked_state(new, old, c, child),
    ensures
        new.wf(),
{
    new.lemma_task_added(old, child);
    assert(old.live(c));
    let q0 = old.manager@;
    assert(!q0.contains(child)) by {
        if q0.contains(child) {
            let i = choose|i: int| 0 <= i < q0.len() && q0[i] == child;
            assert(old.live(q0[i]));
        }
    }
    assert(new.sched_ok()) by {
        assert forall|i: int, j: int|
            0 <= i < new.manager@.len() && 0 <= j < new.manager@.len() && i != j implies new.manager@[i] != new.manager@[j] by {
            if i < q0.len() && j < q0.len() {
            } else if i < q0.len() {
                assert(q0.contains(q0[i]));
            } else if j < q0.len() {
                assert(q0.contains(q0[j]));
            }
        }
        assert forall|i: int| 0 <= i < new.manager@.len() implies new.live(#[trigger] new.manager@[i]) && new.task(
            new.manager@[i],
        ).inner.task_status == TaskStatus::Ready by {
            if i < q0.len() {
                let q = q0[i];
                assert(old.live(q) && old.task(q).inner.task_status == TaskStatus::Ready);
                assert(q0.contains(q));
                assert(q != c);
                assert(new.tasks@[q as int] == old.tasks@[q as int]);
            }
        }
        assert forall|pid: usize| #![trigger new.live(pid)] new.live(pid) implies {
            &&& new.task(pid).inner.task_status == TaskStatus::Ready ==> new.manager@.contains(pid)
            &&& new.task(pid).inner.task_status == TaskStatus::Running ==> new.processor.spec_current() == Some(pid)
        } by {
            if pid == child {
                assert(new.manager@[q0.len() as int] == child);
            } else {
                assert(old.live(pid));
                if pid != c {
                    assert(new.tasks@[pid as int] == old.tasks@[pid as int]);
                }
                if old.task(pid).inner.task_status == TaskStatus::Ready {
                    let i = choose|i: int| 0 <= i < q0.len() && q0[i] == pid;
                    assert(new.manager@[i] == pid);
                }
            }
        }
    }
    assert(new.family_ok()) by {
        let kids0 = old.task(c).inner.children@;
        assert forall|p: usize, i: int|
            #![trigger new.task(p).inner.children@[i]]
            new.live(p) && 0 <= i < new.task(p).inner.children@.len() implies new.live(new.task(p).inner.children@[i])
            && new.task(new.task(p).inner.children@[i]).inner.parent == Some(p) by {
            if p == c {
                if i < kids0.len() {
                    let k = old.task(c).inner.children@[i];
                    assert(old.live(k) && old.task(k).inner.parent == Some(c));
                    assert(old.task(c).inner.parent != Some(c));
                    assert(new.tasks@[k as int] == old.tasks@[k as int]);
                }
            } else if p != child {
                assert(old.live(p));
                assert(new.tasks@[p as int] == old.tasks@[p as int]);
                let k = old.task(p).inner.children@[i];
                assert(old.live(k) && old.task(k).inner.parent == Some(p));
                if k != c {
                    assert(new.tasks@[k as int] == old.tasks@[k as int]);
                }
            }
        }
        assert forall|p: usize| #![trigger new.live(p)] new.live(p) implies new.task(p).inner.children@.no_duplicates()
            && new.live(INIT_PID) && new.task(p).inner.parent != Some(p) by {
            if p == c {
                assert(kids0.no_duplicates());
                assert(!kids0.contains(child)) by {
                    if kids0.contains(child) {
                        let i = choose|i: int| 0 <= i < kids0.len() && kids0[i] == child;
                        assert(old.live(old.task(c).inner.children@[i]));
                    }
                }
                let all = new.task(c).inner.children@;
                assert forall|i: int, j: int| 0 <= i < all.len() && 0 <= j < all.len() && i != j implies all[i]
                    != all[j] by {
                    if i < kids0.len() && j < kids0.len() {
                    } else if i < kids0.len() {
                        assert(kids0.contains(kids0[i]));
                    } else if j < kids0.len() {
                        assert(kids0.contains(kids0[j]));
                    }
                }
                assert(old.live(INIT_PID));
            } else if p != child {
                assert(old.live(p));
                assert(new.tasks@[p as int] == old.tasks@[p as int]);
                assert(old.live(INIT_PID));
            } else {
                assert(old.live(INIT_PID));
            }
        }
        assert forall|k: usize|
            #![trigger new.live(k)]
            new.live(k) && new.task(k).inner.parent is Some implies new.live(new.task(k).inner.parent.unwrap())
            && new.task(new.task(k).inner.parent.unwrap()).inner.children@.contains(k) by {
            if k == child {
                assert(new.task(c).inner.children@[kids0.len() as int] == child);
            } else {
                assert(old.live(k));
                if k != c {
                    assert(new.tasks@[k as int] == old.tasks@[k as int]);
                }
                let p = old.task(k).inner.parent.unwrap();
                assert(old.live(p) && old.task(p).inner.children@.contains(k));
                let i = choose|i: int| 0 <= i < old.task(p).inner.children@.len() && old.task(p).inner.children@[i] == k;
                if p == c {
                    assert(new.task(c).inner.children@[i] == k);
                } else {
                    assert(new.tasks@[p as int] == old.tasks@[p as int]);
                    assert(new.task(p).inner.children@[i] == k);
                }
            }
        }
        if INIT_PID != c {
            assert(old.live(INIT_PID));
            assert(new.tasks@[INIT_PID as int] == old.tasks@[INIT_PID as int]);
        }
    }
}

/// The running task forks: the child is a copy of it on fresh frames, with
/// return value 0 in its trap context, and waits at the end of the ready
/// queue. Returns the child's pid, the value that the parent sees.
///
/// The call fails, and nothing changes, where no pid is left whose kernel
/// stack finds room or where the allocator cannot afford the copy and the
/// kernel stack.
pub fn sys_fork(kernel: &mut Kernel) -> (r: Result<i64, KernelFault>)
    requires
        old(kernel).wf(),
        old(kernel).processor.spec_current() is Some,
    ensures
        final(kernel).wf(),
        match r {
            Ok(pid) => pid > 0 && pid <= MAX_APP_ID && forked_state(
                final(kernel),
                old(kernel),
                old(kernel).processor.spec_current().unwrap(),
                pid as usize,
            ),
            Err(e) => {
                &&& e == fork_fault(old(kernel)).unwrap()
                &&& fork_fault(old(kernel)) is Some
                &&& final(kernel).tasks@ == old(kernel).tasks@
                &&& final(kernel).manager == old(kernel).manager
                &&& final(kernel).processor == old(kernel).processor
                &&& final(kernel).kernel_space == old(kernel).kernel_space
                &&& final(kernel).frame_allocator@ == old(kernel).frame_allocator@
                &&& final(kernel).pid_allocator@ == old(kernel).pid_allocator@
            },
        },
        r is Ok <==> fork_fault(old(kernel)) is None,
{
    let c = kernel.current_task().unwrap();
    let next = kernel.pid_allocator.peek();
    if next > MAX_APP_ID {
        return Err(KernelFault::OutOfPids);
    }
    proof {
        assert(kernel.live(c));
        assert(kernel.task_ok(c));
        crate::task::lemma_pid_alloc_next(kernel.pid_allocator@);
        assert(kernel.pid_allocator.in_use(next) == kernel.live(next));
        assert(kernel.kstack_ok(next));
    }
    let made = match &mut kernel.tasks[c] {
        Some(t) => t.fork(&mut kernel.frame_allocator, &mut kernel.pid_allocator, &mut kernel.kernel_space, &kernel.env),
        None => None,
    };
    let mut child = match made {
        Some(child) => child,
        None => {
            proof {
                assert(kernel.tasks@ =~= old(kernel).tasks@);
                kernel.lemma_same_views(old(kernel));
            }
            return Err(KernelFault::OutOfFrames);
        },
    };
    let ghost made_ms = child.inner.memory_set;
    let ghost forked_kernel = *kernel;
    store_trap_cx_word(&mut child.inner.memory_set, 10, 0);
    proof {
        lemma_forked_trans(child.inner.memory_set, made_ms, old(kernel).task(c).inner.memory_set);
        lemma_fresh_kept(child.inner.memory_set, made_ms, old(kernel).frame_allocator@);
        crate::task::task::lemma_only_areas_kept(child.inner.memory_set, made_ms);
        child.inner.memory_set.lemma_frame_wf(crate::mm::memory_set::TRAP_CONTEXT_VPN);
        made_ms.lemma_frame_wf(crate::mm::memory_set::TRAP_CONTEXT_VPN);
        assert(trap_cx_words(child.inner.memory_set) =~= trap_cx_words(made_ms).update(10, 0));
    }
    let pid = child.pid.0;
    proof {
        assert(!old(kernel).live(pid));
        assert(old(kernel).live(INIT_PID));
    }
    kernel.install(child);
    kernel.manager.add(pid);
    proof {
        crate::task::pid::lemma_pid_alloc(old(kernel).pid_allocator@);
        assert(kernel.task_added(old(kernel), pid)) by {
            assert forall|q: usize|
                #![trigger old(kernel).live(q)]
                old(kernel).live(q) && q != pid implies {
                &&& kernel.task(q).wf()
                &&& kernel.task(q).pid == old(kernel).task(q).pid
                &&& kernel.task(q).inner.memory_set == old(kernel).task(q).inner.memory_set
            } by {
                assert(old(kernel).task_ok(q));
                assert(kernel.tasks@[q as int] == forked_kernel.tasks@[q as int]);
                if q != c {
                    assert(forked_kernel.tasks@[q as int] == old(kernel).tasks@[q as int]);
                }
            }
        }
        assert(forked_state(kernel, old(kernel), c, pid));
        lemma_fork_wf(kernel, old(kernel), c, pid);
    }
    Ok(pid as i64)
}

/// Why the running task cannot fork, or `None` where it can.
pub open spec fn fork_fault(kernel: &Kernel) -> Option<KernelFault> {
    let c = kernel.processor.spec_current().unwrap();
    let next = kernel.pid_allocator@.next();
    if next > MAX_APP_ID {
        Some(KernelFault::OutOfPids)
    } else if !can_afford(
        kernel.frame_allocator.available() - kstack_cost(next),
        kernel.task(c).inner.memory_set.spec_copy_cost(),
    ) {
        Some(KernelFault::OutOfFrames)
    } else {
        None
    }
}

/// What a system call gives: a value for the task that made it, or the
/// end of that task, or the end of the kernel.
#[derive(Copy, Clone, Debug, PartialEq, Eq, Structural)]
pub enum SysResult {
    /// The call returns this value, and the task goes on.
    Value(i64),
    /// The call returns this value when the task runs again: the task has
    /// given up the processor and waits at the end of the ready queue.
    Yielded(i64),
    /// The call could not be served yet: the task waits at the end of the
    /// ready queue and makes the call again when it runs.
    Again,
    /// The task has ended itself.
    Exited(ExitAction),
    /// The task handed the kernel an address that it cannot use and was
    /// ended with exit code -2.
    Killed(ExitAction),
    /// The kernel cannot go on.
    Fault(KernelFault),
}

/// The exit code of a task that is ended for a fault in memory.
pub const EXIT_MEMORY_FAULT: i32 = -2;

/// The exit code of a task that is ended for an illegal instruction.
pub const EXIT_ILLEGAL_INSTRUCTION: i32 = -3;

/// `new` is `old` after its running task `c` was ended for a fault in
/// memory.
pub open spec fn killed(new: &Kernel, old: &Kernel, action: ExitAction) -> bool {
    let c = old.processor.spec_current().unwrap();
    if c == INIT_PID {
        action == (ExitAction::Shutdown { failure: true }) && *new == *old
    } else {
        action == ExitAction::Schedule && new.exited(old, c, EXIT_MEMORY_FAULT)
    }
}

/// `new` is `old` after its running task `c` has replaced its program by
/// the image `image`.
pub open spec fn execed(new: &Kernel, old: &Kernel, c: usize, image: Seq<u8>) -> bool {
    &&& new.memory_changed(old, c)
    &&& loaded_user(
        new.task(c).inner.memory_set,
        new.task(c).inner.base_size,
        elf_loads(image),
        image,
    )
    &&& trap_cx_words(new.task(c).inner.memory_set) == init_words(
        elf_entry(image),
        new.task(c).inner.base_size,
        old.kernel_space.spec_token(),
        kernel_stack_top(c as int) as u64,
        old.env.trap_handler,
        old.env.sstatus,
    )
    &&& all_fresh(new.task(c).inner.memory_set, old.frame_allocator@)
    &&& new.task(c).inner.memory_set.only_areas_mapped()
    &&& new.task(c).inner.memory_set.ppns().disjoint(old.task(c).inner.memory_set.ppns())
    &&& forall|p: u64|
        old.task(c).inner.memory_set.ppns().contains(p) ==> !(#[trigger] new.frame_allocator.is_allocated(p))
}

/// The running task replaces its program by the one whose name, a string
/// that ends with a zero byte, lies at address `path` of its memory.
///
/// Returns 0 where the program was started and -1, with nothing changed,
/// where no program has that name. The task is ended where the name cannot be
/// read. The kernel cannot go on where the program's image is refused.
pub fn sys_exec(kernel: &mut Kernel, path: u64) -> (r: SysResult)
    requires
        old(kernel).wf(),
        old(kernel).processor.spec_current() is Some,
    ensures
        final(kernel).wf(),
        exec_result(final(kernel), old(kernel), path, r),
{
    let c = kernel.current_task().unwrap();
    proof {
        assert(kernel.live(c));
        assert(kernel.task_ok(c));
    }
    let name = match &kernel.tasks[c] {
        Some(t) => t.inner.memory_set.read_c_string(path),
        None => None,
    };
    let name = match name {
        Some(name) => name,
        None => {
            let action = kernel.exit_current_and_run_next(EXIT_MEMORY_FAULT);
            return SysResult::Killed(action);
        },
    };
    let i = match kernel.find_app(&name) {
        Some(i) => i,
        None => {
            return SysResult::Value(-1);
        },
    };
    let done = match &mut kernel.tasks[c] {
        Some(t) => t.exec(kernel.apps[i].data.as_slice(), &mut kernel.frame_allocator, &kernel.kernel_space, &kernel.env),
        None => Ok(()),
    };
    match done {
        Ok(()) => {
            proof {
                assert(kernel.memory_changed(old(kernel), c));
                kernel.lemma_memory_changed(old(kernel), c);
            }
            SysResult::Value(0)
        },
        Err(e) => {
            proof {
                assert(kernel.tasks@ =~= old(kernel).tasks@);
                kernel.lemma_same_views(old(kernel));
            }
            match e {
                ElfError::OutOfFrames => SysResult::Fault(KernelFault::OutOfFrames),
                _ => SysResult::Fault(KernelFault::BadImage(e)),
            }
        },
    }
}

/// What `sys_exec` does to the kernel `old` and returns, by what lies at
/// `path` in the memory of the running task.
pub open spec fn exec_result(new: &Kernel, old: &Kernel, path: u64, r: SysResult) -> bool {
    let c = old.processor.spec_current().unwrap();
    let ms = old.task(c).inner.memory_set;
    if exists|n: int| ms.terminated_at(path, n) {
        let n = choose|n: int| ms.terminated_at(path, n);
        let name = ms.spec_bytes(path, n);
        match old.app_index(name) {
            None => r == SysResult::Value(-1i64) && *new == *old,
            Some(i) => match elf_refusal(old.apps@[i].data@, old.frame_allocator.available()) {
                None => r == SysResult::Value(0i64) && execed(new, old, c, old.apps@[i].data@),
                Some(e) => r == SysResult::Fault(exec_fault(e)) && new.tasks@ == old.tasks@ && new.manager
                    == old.manager && new.processor == old.processor,
            },
        }
    } else {
        match r {
            SysResult::Killed(action) => killed(new, old, action),
            _ => false,
        }
    }
}

/// The fault of the kernel where an image is refused for `e`.
pub open spec fn exec_fault(e: ElfError) -> KernelFault {
    match e {
        ElfError::OutOfFrames => KernelFault::OutOfFrames,
        _ => KernelFault::BadImage(e),
    }
}

} // verus!
