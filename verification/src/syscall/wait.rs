//! Waiting for a child: the system call that collects a zombie.

use vstd::prelude::*;
use crate::config::MAX_APP_ID;
use crate::mm::address::VPN_LIMIT;
use crate::mm::frame_allocator::{handover, lemma_handover_others, FrameAllocState};

use crate::mm::user_access::{le_bytes, to_le_bytes};
use crate::task::pid::{kstack_bottom_vpn, kstack_top_vpn, lemma_pid_dealloc};
use crate::task::task::{lemma_touched_trap_cx, TaskControlBlock, TaskStatus};
use crate::task::{Kernel, INIT_PID, KSTACK_FLOOR};
use super::process::{killed, SysResult, EXIT_MEMORY_FAULT};

verus! {

/// A call of `waitpid` with argument `pid` waits for the child `p`: for any
/// child where `pid` is -1, else for the child with that pid.
pub open spec fn waits_for(pid: i64, p: usize) -> bool {
    pid == -1 || pid == p as int
}

/// Whether a call of `waitpid` with argument `pid` waits for the child `p`.
pub fn is_waited_for(pid: i64, p: usize) -> (r: bool)
    ensures
        r == waits_for(pid, p),
{
    pid == -1 || (pid >= 0 && pid as u64 == p as u64)
}

impl Kernel {
    /// Child number `i` of task `c` is a zombie that a call with argument
    /// `pid` waits for.
    pub open spec fn zombie_child(&self, c: usize, pid: i64, i: int) -> bool {
        &&& 0 <= i < self.task(c).inner.children@.len()
        &&& waits_for(pid, self.task(c).inner.children@[i])
        &&& self.task(self.task(c).inner.children@[i]).inner.task_status == TaskStatus::Zombie
    }

    /// Child number `i` of task `c` is the eldest such zombie.
    pub open spec fn first_zombie_child(&self, c: usize, pid: i64, i: int) -> bool {
        &&& self.zombie_child(c, pid, i)
        &&& forall|j: int| 0 <= j < i ==> !self.zombie_child(c, pid, j)
    }

    /// A call with argument `pid` waits for one of the children of task `c`.
    pub open spec fn has_waited_child(&self, c: usize, pid: i64) -> bool {
        exists|i: int| 0 <= i < self.task(c).inner.children@.len() && waits_for(
            pid,
            #[trigger] self.task(c).inner.children@[i],
        )
    }

    /// The index of the eldest zombie among the children of the running task
    /// that a call with argument `pid` waits for, and whether the call waits
    /// for any child at all.
    pub fn find_zombie_child(&self, pid: i64) -> (r: (bool, Option<usize>))
        requires
            self.wf(),
            self.processor.spec_current() is Some,
        ensures
            r.0 == self.has_waited_child(self.processor.spec_current().unwrap(), pid),
            match r.1 {
                Some(i) => self.first_zombie_child(self.processor.spec_current().unwrap(), pid, i as int),
                None => forall|i: int| !self.zombie_child(self.processor.spec_current().unwrap(), pid, i),
            },
    {
        let c = self.processor.current().unwrap();
        proof {
            assert(self.live(c));
        }
        let mut any: bool = false;
        let mut i: usize = 0;
        let n: usize = match &self.tasks[c] {
            Some(t) => t.inner.children.len(),
            None => 0,
        };
        while i < n
            invariant
                i <= n,
                self.wf(),
                self.live(c),
                self.processor.spec_current() == Some(c),
                n == self.task(c).inner.children@.len(),
                any == (exists|j: int| 0 <= j < i && waits_for(pid, #[trigger] self.task(c).inner.children@[j])),
                forall|j: int| 0 <= j < i ==> !self.zombie_child(c, pid, j),
            decreases n - i,
        {
            let k: usize = match &self.tasks[c] {
                Some(t) => t.inner.children[i],
                None => 0,
            };
            proof {
                assert(k == self.task(c).inner.children@[i as int]);
                assert(self.live(self.task(c).inner.children@[i as int]));
            }
            if is_waited_for(pid, k) {
                any = true;
                let zombie = match &self.tasks[k] {
                    Some(t) => t.inner.is_zombie(),
                    None => false,
                };
                if zombie {
                    proof {
                        assert(waits_for(pid, self.task(c).inner.children@[i as int]));
                    }
                    return (true, Some(i));
                }
            }
            proof {
                if any {
                    if waits_for(pid, k) {
                        assert(waits_for(pid, self.task(c).inner.children@[i as int]));
                    } else {
                        let j = choose|j: int| 0 <= j < i && waits_for(pid, #[trigger] self.task(c).inner.children@[j]);
                        assert(waits_for(pid, self.task(c).inner.children@[j]));
                    }
                } else {
                    assert forall|j: int| 0 <= j < i + 1 implies !waits_for(
                        pid,
                        #[trigger] self.task(c).inner.children@[j],
                    ) by {
                        if j < i {
                        }
                    }
                }
            }
            i = i + 1;
        }
        (any, None)
    }

    /// `self` is `old` after the zombie `k`, child number `i` of task `c`,
    /// has been collected: `k` is gone, its pid is free, its frames and its
    /// kernel stack are given back, and `c` has one child less.
    pub open spec fn reaped(&self, old: &Kernel, c: usize, k: usize, i: int) -> bool {
        &&& 0 <= i < old.task(c).inner.children@.len()
        &&& k == old.task(c).inner.children@[i]
        &&& k != c
        &&& k != INIT_PID
        &&& old.live(k)
        &&& !self.live(k)
        &&& forall|q: usize| #![trigger self.live(q)] q != k ==> self.live(q) == old.live(q)
        &&& self.tasks@.len() == old.tasks@.len()
        &&& forall|q: usize|
            #![trigger self.tasks@[q as int]]
            q < old.tasks@.len() && q != c && q != k ==> self.tasks@[q as int] == old.tasks@[q as int]
        &&& self.task(c).pid == old.task(c).pid
        &&& self.task(c).kernel_stack == old.task(c).kernel_stack
        &&& self.task(c).inner.memory_set.touched(&old.task(c).inner.memory_set)
        &&& self.task(c).inner.memory_set.wf()
        &&& self.task(c).inner.trap_cx_ppn == old.task(c).inner.trap_cx_ppn
        &&& self.task(c).inner.base_size == old.task(c).inner.base_size
        &&& self.task(c).inner.task_cx == old.task(c).inner.task_cx
        &&& self.task(c).inner.task_status == old.task(c).inner.task_status
        &&& self.task(c).inner.parent == old.task(c).inner.parent
        &&& self.task(c).inner.exit_code == old.task(c).inner.exit_code
        &&& self.task(c).inner.children@ == old.task(c).inner.children@.remove(i)
        &&& self.pid_allocator@ == old.pid_allocator@.after_dealloc(k)
        &&& self.manager == old.manager
        &&& self.processor == old.processor
        &&& self.apps == old.apps
        &&& self.env == old.env
        &&& self.frame_allocator.available() >= old.frame_allocator.available()
        &&& self.frame_allocator@.same_range(old.frame_allocator@)
    }

    /// What the steps of collecting a zombie leave behind, `mid` being the
    /// frame allocator between the return of the zombie's frames and the
    /// return of its kernel stack.
    pub open spec fn reap_steps(&self, old: &Kernel, c: usize, k: usize, i: int, mid: FrameAllocState) -> bool {
        &&& old.wf()
        &&& old.live(c)
        &&& self.reaped(old, c, k, i)
        &&& old.task(k).inner.task_status == TaskStatus::Zombie
        &&& self.frame_allocator.wf()
        &&& self.kernel_space.wf()
        &&& self.kernel_space.spec_trampoline() == old.kernel_space.spec_trampoline()
        &&& handover(old.frame_allocator@, mid, old.task_ppns(k), Set::<u64>::empty())
        &&& handover(mid, self.frame_allocator@, old.kernel_space.ppns(), self.kernel_space.ppns())
        &&& match old.kernel_space.area_starting_at(kstack_bottom_vpn(k)) {
            Some(f) => {
                &&& self.kernel_space.spec_areas() == old.kernel_space.spec_areas().remove(f)
                &&& forall|v: u64|
                    v < VPN_LIMIT ==> #[trigger] self.kernel_space.spec_translate(v) == (if old.kernel_space.spec_areas()[f].contains(
                        v,
                    ) {
                        None
                    } else {
                        old.kernel_space.spec_translate(v)
                    })
            },
            None => self.kernel_space.spec_areas() == old.kernel_space.spec_areas() && self.kernel_space.spec_page_table()
                == old.kernel_space.spec_page_table(),
        }
    }

    /// The first area of the kernel's address space that starts where the
    /// kernel stack of the live task `k` starts is that kernel stack.
    proof fn lemma_kstack_first(&self, k: usize)
        requires
            self.res_ok(),
            self.live(k),
        ensures
            self.kernel_space.area_starting_at(kstack_bottom_vpn(k)) is Some,
            self.kstack_at(self.kernel_space.area_starting_at(kstack_bottom_vpn(k)).unwrap(), k),
            0 <= self.kernel_space.area_starting_at(kstack_bottom_vpn(k)).unwrap() < self.kernel_space.spec_areas().len(),
            forall|a: int|
                0 <= a < self.kernel_space.spec_areas().len() && self.kstack_at(a, k) ==> a
                    == self.kernel_space.area_starting_at(kstack_bottom_vpn(k)).unwrap(),
    {
        let ks = self.kernel_space;
        let b = kstack_bottom_vpn(k);
        assert(self.task_ok(k));
        assert(self.kstack_ok(k));
        let a0 = choose|a: int| 0 <= a < ks.spec_areas().len() && self.kstack_at(a, k);
        // Any area that starts there is the stack of `k`, and there is one such area only.
        assert forall|a: int|
            #![trigger ks.spec_areas()[a]]
            0 <= a < ks.spec_areas().len() && ks.spec_areas()[a].spec_start() == b implies self.kstack_at(a, k) && a
            == a0 by {
            assert(self.karea_ok(a));
            let p = choose|p: usize| self.live(p) && p <= MAX_APP_ID && #[trigger] self.kstack_at(a, p);
            assert(p == k);
            if a != a0 {
                if a < a0 {
                    assert(ks.areas_apart(a, a0));
                } else {
                    assert(ks.areas_apart(a0, a));
                }
                assert(ks.spec_areas()[a].contains(b) && ks.spec_areas()[a0].contains(b));
            }
        }
        assert(ks.starts_first(a0, b));
        let f = choose|f: int| ks.starts_first(f, b);
        assert(ks.starts_first(f, b));
    }

    /// Collecting a zombie keeps allocators, address spaces and the table of
    /// tasks consistent.
    proof fn lemma_reaped_res(&self, old: &Kernel, c: usize, k: usize, i: int, mid: FrameAllocState)
        requires
            self.reap_steps(old, c, k, i, mid),
        ensures
            self.res_ok(),
    {
        let a0 = old.frame_allocator@;
        let a2 = self.frame_allocator@;
        let ks0 = old.kernel_space;
        let ks = self.kernel_space;
        let none = Set::<u64>::empty();
        old.lemma_kstack_first(k);
        let f = ks0.area_starting_at(kstack_bottom_vpn(k)).unwrap();
        assert(old.task_ok(k));
        assert(old.task_ok(c));
        lemma_pid_dealloc(old.pid_allocator@, k);
        assert forall|q: usize| self.pid_allocator.in_use(q) == #[trigger] self.live(q) by {
            assert(old.pid_allocator.in_use(q) == old.live(q));
        }
        lemma_handover_others(a0, mid, old.task_ppns(k), none, ks0.ppns());
        lemma_touched_trap_cx(self.task(c).inner.memory_set, old.task(c).inner.memory_set);
        assert forall|q: usize| #[trigger] self.task_ok(q) by {
            if self.live(q) {
                assert(old.live(q) && q != k);
                assert(old.task_ok(q));
                assert(old.tasks_apart(q, k));
                if q != c {
                    assert(self.tasks@[q as int] == old.tasks@[q as int]);
                }
                lemma_handover_others(a0, mid, old.task_ppns(k), none, old.task_ppns(q));
                lemma_handover_others(mid, a2, ks0.ppns(), ks.ppns(), old.task_ppns(q));
            }
        }
        assert forall|p: usize, q: usize| #[trigger] self.tasks_apart(p, q) by {
            if self.live(p) && self.live(q) && p != q {
                assert(old.tasks_apart(p, q));
                if p != c {
                    assert(self.tasks@[p as int] == old.tasks@[p as int]);
                }
                if q != c {
                    assert(self.tasks@[q as int] == old.tasks@[q as int]);
                }
            }
        }
        let src = |a: int| if a < f { a } else { a + 1 };
        assert forall|q: usize| q <= MAX_APP_ID implies #[trigger] self.kstack_ok(q) by {
            assert(old.kstack_ok(q));
            if q == k {
                assert forall|v: u64| kstack_bottom_vpn(k) <= v < kstack_top_vpn(k) implies (
                #[trigger] ks.spec_translate(v)) is None by {
                    assert(ks0.spec_areas()[f].contains(v));
                }
            } else if old.live(q) {
                let a = choose|a: int| 0 <= a < ks0.spec_areas().len() && old.kstack_at(a, q);
                assert(a != f);
                let b = if a < f { a } else { a - 1 };
                assert(ks.spec_areas()[b] == ks0.spec_areas()[a]);
                assert(self.kstack_at(b, q));
            } else {
                assert forall|v: u64| kstack_bottom_vpn(q) <= v < kstack_top_vpn(q) implies (
                #[trigger] ks.spec_translate(v)) is None by {
                    assert(ks0.spec_translate(v) is None);
                }
            }
        }
        assert forall|a: int| 0 <= a < ks.spec_areas().len() implies #[trigger] self.karea_ok(a) by {
            let o = src(a);
            assert(ks.spec_areas()[a] == ks0.spec_areas()[o]);
            assert(old.karea_ok(o));
            if !(ks0.spec_areas()[o].spec_start() < KSTACK_FLOOR) {
                let p = choose|p: usize| old.live(p) && p <= MAX_APP_ID && #[trigger] old.kstack_at(o, p);
                assert(p != k);
                assert(self.live(p) && self.kstack_at(a, p));
            }
        }
    }

    /// Collecting a zombie keeps the scheduler's books in order.
    proof fn lemma_reaped_sched(&self, old: &Kernel, c: usize, k: usize, i: int)
        requires
            old.wf(),
            old.live(c),
            self.reaped(old, c, k, i),
            old.task(k).inner.task_status == TaskStatus::Zombie,
        ensures
            self.sched_ok(),
    {
        assert forall|j: int| 0 <= j < self.manager@.len() implies self.live(#[trigger] self.manager@[j]) && self.task(
            self.manager@[j],
        ).inner.task_status == TaskStatus::Ready by {
            let q = old.manager@[j];
            assert(old.live(q) && old.task(q).inner.task_status == TaskStatus::Ready);
            if q != c {
                assert(self.tasks@[q as int] == old.tasks@[q as int]);
            }
        }
        if let Some(r) = self.processor.spec_current() {
            assert(old.live(r));
            if r != c {
                assert(self.tasks@[r as int] == old.tasks@[r as int]);
            }
        }
        assert forall|p: usize| #![trigger self.live(p)] self.live(p) implies {
            &&& self.task(p).inner.task_status == TaskStatus::Ready ==> self.manager@.contains(p)
            &&& self.task(p).inner.task_status == TaskStatus::Running ==> self.processor.spec_current() == Some(p)
        } by {
            assert(old.live(p));
            if p != c {
                assert(self.tasks@[p as int] == old.tasks@[p as int]);
            }
        }
    }

    /// Collecting a zombie keeps parents and children in order.
    proof fn lemma_reaped_family(&self, old: &Kernel, c: usize, k: usize, i: int)
        requires
            old.wf(),
            old.live(c),
            self.reaped(old, c, k, i),
            old.task(k).inner.task_status == TaskStatus::Zombie,
        ensures
            self.family_ok(),
    {
        let kids0 = old.task(c).inner.children@;
        let kids = self.task(c).inner.children@;
        assert(old.task_ok(k));
        assert(old.task(k).inner.children@.len() == 0);
        assert(kids0.no_duplicates());
        assert(old.task(kids0[i]).inner.parent == Some(c));
        assert forall|j: int| 0 <= j < kids.len() implies kids[j] != k && kids0.contains(#[trigger] kids[j]) by {
            let o = if j < i { j } else { j + 1 };
            assert(kids[j] == kids0[o]);
        }
        assert forall|p: usize, j: int|
            #![trigger self.task(p).inner.children@[j]]
            self.live(p) && 0 <= j < self.task(p).inner.children@.len() implies self.live(
            self.task(p).inner.children@[j],
        ) && self.task(self.task(p).inner.children@[j]).inner.parent == Some(p) by {
            assert(old.live(p));
            let x = self.task(p).inner.children@[j];
            if p == c {
                let o = if j < i { j } else { j + 1 };
                assert(x == old.task(c).inner.children@[o]);
                assert(old.live(x) && old.task(x).inner.parent == Some(c));
                assert(kids[j] != k);
            } else {
                assert(self.tasks@[p as int] == old.tasks@[p as int]);
                assert(x == old.task(p).inner.children@[j]);
                assert(old.live(x) && old.task(x).inner.parent == Some(p));
            }
            if x != c {
                assert(self.tasks@[x as int] == old.tasks@[x as int]);
            }
        }
        assert forall|p: usize| #![trigger self.live(p)] self.live(p) implies self.task(p).inner.children@.no_duplicates()
            && self.live(INIT_PID) && self.task(p).inner.parent != Some(p) by {
            assert(old.live(p));
            assert(old.live(INIT_PID));
            if p != c {
                assert(self.tasks@[p as int] == old.tasks@[p as int]);
            } else {
                assert forall|x: int, y: int| 0 <= x < kids.len() && 0 <= y < kids.len() && x != y implies kids[x]
                    != kids[y] by {
                    let ox = if x < i { x } else { x + 1 };
                    let oy = if y < i { y } else { y + 1 };
                    assert(kids[x] == kids0[ox] && kids[y] == kids0[oy]);
                }
            }
        }
        assert forall|x: usize|
            #![trigger self.live(x)]
            self.live(x) && self.task(x).inner.parent is Some implies self.live(self.task(x).inner.parent.unwrap())
            && self.task(self.task(x).inner.parent.unwrap()).inner.children@.contains(x) by {
            assert(old.live(x));
            if x != c {
                assert(self.tasks@[x as int] == old.tasks@[x as int]);
            }
            let p = old.task(x).inner.parent.unwrap();
            assert(old.live(p) && old.task(p).inner.children@.contains(x));
            assert(p != k);
            let j = choose|j: int| 0 <= j < old.task(p).inner.children@.len() && old.task(p).inner.children@[j] == x;
            if p == c {
                assert(j != i);
                let n = if j < i { j } else { j - 1 };
                assert(kids[n] == x);
            } else {
                assert(self.tasks@[p as int] == old.tasks@[p as int]);
                assert(self.task(p).inner.children@[j] == x);
            }
        }
        if INIT_PID != c {
            assert(old.live(INIT_PID));
            assert(self.tasks@[INIT_PID as int] == old.tasks@[INIT_PID as int]);
        }
    }

    /// Collects the zombie that is child number `i` of task `c`: takes it
    /// off the list of children, gives its frames, its kernel stack and its
    /// pid back, and returns its pid and its exit code.
    pub fn reap(&mut self, c: usize, i: usize) -> (r: (usize, i32))
        requires
            old(self).wf(),
            old(self).live(c),
            i < old(self).task(c).inner.children@.len(),
            old(self).task(old(self).task(c).inner.children@[i as int]).inner.task_status == TaskStatus::Zombie,
        ensures
            final(self).wf(),
            r.0 == old(self).task(c).inner.children@[i as int],
            r.1 == old(self).task(r.0).inner.exit_code,
            final(self).reaped(old(self), c, r.0, i as int),
            final(self).task(c).inner.memory_set == old(self).task(c).inner.memory_set,
    {
        let k: usize = match &self.tasks[c] {
            Some(t) => t.inner.children[i],
            None => 0,
        };
        proof {
            assert(old(self).live(old(self).task(c).inner.children@[i as int]));
            assert(old(self).task(old(self).task(c).inner.children@[i as int]).inner.parent == Some(c));
            assert(old(self).task(c).inner.parent != Some(c));
            assert(old(self).live(INIT_PID));
            assert(old(self).task_ok(k));
            assert(old(self).task_ok(c));
        }
        match &mut self.tasks[c] {
            Some(t) => {
                let _ = t.inner.children.remove(i);
            },
            None => {},
        }
        let child = self.tasks[k].take().unwrap();
        let TaskControlBlock { pid, kernel_stack, inner } = child;
        let exit_code = inner.exit_code;
        let ghost a0 = self.frame_allocator@;
        inner.memory_set.release(&mut self.frame_allocator);
        let ghost a1 = self.frame_allocator@;
        proof {
            assert(a1.allocated().difference(Set::<u64>::empty()) =~= a0.allocated().difference(old(self).task_ppns(k)));
            lemma_handover_others(a0, a1, old(self).task_ppns(k), Set::<u64>::empty(), old(self).kernel_space.ppns());
        }
        kernel_stack.release(&mut self.kernel_space, &mut self.frame_allocator);
        self.pid_allocator.dealloc(pid.0);
        proof {
            assert(self.reap_steps(old(self), c, k, i as int, a1));
            self.lemma_reaped_res(old(self), c, k, i as int, a1);
            self.lemma_reaped_sched(old(self), c, k, i as int);
            self.lemma_reaped_family(old(self), c, k, i as int);
        }
        (k, exit_code)
    }
}

/// What `sys_waitpid` does to the kernel `old` and returns.
pub open spec fn waitpid_result(new: &Kernel, old: &Kernel, pid: i64, exit_code_ptr: u64, r: SysResult) -> bool {
    let c = old.processor.spec_current().unwrap();
    if !old.has_waited_child(c, pid) {
        r == SysResult::Value(-1i64) && *new == *old
    } else if forall|i: int| !old.zombie_child(c, pid, i) {
        r == SysResult::Value(-2i64) && *new == *old
    } else {
        let i = choose|i: int| old.first_zombie_child(c, pid, i);
        let k = old.task(c).inner.children@[i];
        if !old.current_space().accessible(exit_code_ptr, 4) {
            match r {
                SysResult::Killed(action) => killed(new, old, action),
                _ => false,
            }
        } else {
            &&& r == SysResult::Value(k as i64)
            &&& new.reaped(old, c, k, i)
            &&& new.current_space().spec_bytes(exit_code_ptr, 4) == le_bytes(old.task(k).inner.exit_code as u32)
            &&& forall|a: u64|
                !(exit_code_ptr <= a < exit_code_ptr + 4) ==> #[trigger] new.current_space().spec_byte(a)
                    == old.current_space().spec_byte(a)
        }
    }
}

/// The running task collects a child that has exited: any child where `pid`
/// is -1, else the child with that pid.
///
/// Returns -1 where the task has no such child, and -2 where it has one but
/// none that has exited; nothing changes then. Otherwise the eldest such
/// child that has exited is collected: its exit code is stored as four bytes
/// at address `exit_code_ptr` of the task's memory, its pid, its frames and
/// its kernel stack are free again, and its pid is returned. The task is
/// ended instead where the exit code cannot be stored there.
pub fn sys_waitpid(kernel: &mut Kernel, pid: i64, exit_code_ptr: u64) -> (r: SysResult)
    requires
        old(kernel).wf(),
        old(kernel).processor.spec_current() is Some,
    ensures
        final(kernel).wf(),
        waitpid_result(final(kernel), old(kernel), pid, exit_code_ptr, r),
{
    let c = kernel.current_task().unwrap();
    let (any, found) = kernel.find_zombie_child(pid);
    if !any {
        return SysResult::Value(-1);
    }
    let i = match found {
        Some(i) => i,
        None => {
            return SysResult::Value(-2);
        },
    };
    proof {
        assert(kernel.live(c));
        let ch = choose|j: int| old(kernel).first_zombie_child(c, pid, j);
        assert(old(kernel).first_zombie_child(c, pid, i as int));
        assert(old(kernel).first_zombie_child(c, pid, ch));
        if ch < i {
            assert(!old(kernel).zombie_child(c, pid, ch));
        }
        if i < ch {
            assert(!old(kernel).zombie_child(c, pid, i as int));
        }
        assert(old(kernel).zombie_child(c, pid, i as int));
    }
    if kernel.read_current(exit_code_ptr, 4).is_none() {
        let action = kernel.exit_current_and_run_next(EXIT_MEMORY_FAULT);
        return SysResult::Killed(action);
    }
    let (k, exit_code) = kernel.reap(c, i);
    let ghost mid = *kernel;
    let code = to_le_bytes(#[verifier::truncate] (exit_code as u32));
    let ok = kernel.write_current(exit_code_ptr, &code);
    proof {
        assert(mid.current_space() == old(kernel).current_space());
        assert(ok);
        assert(kernel.reaped(old(kernel), c, k, i as int)) by {
            assert forall|q: usize| #![trigger kernel.live(q)] q != k implies kernel.live(q) == old(kernel).live(
                q,
            ) by {
                if q != c && q < mid.tasks@.len() {
                    assert(kernel.tasks@[q as int] == mid.tasks@[q as int]);
                }
                assert(mid.live(q) == old(kernel).live(q));
            }
            assert forall|q: usize|
                #![trigger kernel.tasks@[q as int]]
                q < old(kernel).tasks@.len() && q != c && q != k implies kernel.tasks@[q as int] == old(
                kernel,
            ).tasks@[q as int] by {
                assert(kernel.tasks@[q as int] == mid.tasks@[q as int]);
            }
            assert(kernel.tasks@[k as int] == mid.tasks@[k as int]);
        }
    }
    SysResult::Value(k as i64)
}

} // verus!
