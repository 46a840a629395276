//! Task identifiers and the kernel stacks that go with them.

use vstd::prelude::*;
use vstd::arithmetic::div_mod::lemma_fundamental_div_mod_converse;
use crate::config::{kernel_stack_bottom, kernel_stack_position, kernel_stack_top, MAX_APP_ID};
use crate::mm::address::{VirtAddr, VA_LIMIT, VPN_LIMIT};
use crate::mm::frame_allocator::{handover, StackFrameAllocator};
use crate::mm::memory_set::{map_cost, MapPermission, MapType, MemorySet, MAP_R, MAP_W, TRAMPOLINE_VPN};

verus! {

/// What a pid allocator knows: how far the bump pointer has moved, and the
/// pids handed back, most recent last.
pub struct PidAllocState {
    pub current: nat,
    pub recycled: Seq<usize>,
}

impl PidAllocState {
    pub open spec fn wf(self) -> bool {
        &&& self.current <= usize::MAX
        &&& self.recycled.no_duplicates()
        &&& forall|i: int| 0 <= i < self.recycled.len() ==> (#[trigger] self.recycled[i]) < self.current
    }

    /// Pid `pid` has been handed out and not handed back.
    pub open spec fn in_use(self, pid: usize) -> bool {
        pid < self.current && !self.recycled.contains(pid)
    }

    /// The pid that the next allocation returns: the one handed back last,
    /// else the one under the bump pointer.
    pub open spec fn next(self) -> usize {
        if self.recycled.len() > 0 {
            self.recycled.last()
        } else {
            self.current as usize
        }
    }

    /// The state after one allocation.
    pub open spec fn after_alloc(self) -> Self {
        if self.recycled.len() > 0 {
            PidAllocState { recycled: self.recycled.drop_last(), ..self }
        } else {
            PidAllocState { current: self.current + 1, ..self }
        }
    }

    /// The state after `n` allocations.
    pub open spec fn after_allocs(self, n: nat) -> Self
        decreases n,
    {
        if n == 0 {
            self
        } else {
            self.after_allocs((n - 1) as nat).after_alloc()
        }
    }

    /// The state after pid `pid` is handed back.
    pub open spec fn after_dealloc(self, pid: usize) -> Self {
        PidAllocState { recycled: self.recycled.push(pid), ..self }
    }

    /// The state after the pids of `drops` are handed back, first to last.
    pub open spec fn after_drops(self, drops: Seq<usize>) -> Self {
        PidAllocState { recycled: self.recycled + drops, ..self }
    }

    /// The state of an allocator that has handed out nothing.
    pub open spec fn fresh() -> Self {
        PidAllocState { current: 0, recycled: Seq::empty() }
    }
}

/// An allocation hands out a pid that was not in use and puts exactly that
/// pid in use.
pub proof fn lemma_pid_alloc(s: PidAllocState)
    requires
        s.wf(),
        s.recycled.len() > 0 || s.current < usize::MAX,
    ensures
        s.after_alloc().wf(),
        !s.in_use(s.next()),
        forall|p: usize| s.after_alloc().in_use(p) == (s.in_use(p) || p == s.next()),
{
    let t = s.after_alloc();
    if s.recycled.len() > 0 {
        let q = s.recycled.last();
        assert(s.recycled[s.recycled.len() - 1] == q);
        assert forall|p: usize| t.in_use(p) == (s.in_use(p) || p == q) by {
            if p == q {
                if t.recycled.contains(p) {
                    let i = choose|i: int| 0 <= i < t.recycled.len() && t.recycled[i] == p;
                    assert(s.recycled[i] == p);
                }
            } else {
                if s.recycled.contains(p) {
                    let i = choose|i: int| 0 <= i < s.recycled.len() && s.recycled[i] == p;
                    assert(t.recycled[i] == p);
                }
                if t.recycled.contains(p) {
                    let i = choose|i: int| 0 <= i < t.recycled.len() && t.recycled[i] == p;
                    assert(s.recycled[i] == p);
                }
            }
        }
        assert forall|i: int| 0 <= i < t.recycled.len() implies (#[trigger] t.recycled[i]) < t.current by {
            assert(t.recycled[i] == s.recycled[i]);
        }
    }
}

/// Handing back a pid in use puts exactly that pid out of use, and the next
/// allocation returns it.
pub proof fn lemma_pid_dealloc(s: PidAllocState, pid: usize)
    requires
        s.wf(),
        s.in_use(pid),
    ensures
        s.after_dealloc(pid).wf(),
        s.after_dealloc(pid).next() == pid,
        forall|p: usize| s.after_dealloc(pid).in_use(p) == (s.in_use(p) && p != pid),
{
    let t = s.after_dealloc(pid);
    assert forall|p: usize| t.in_use(p) == (s.in_use(p) && p != pid) by {
        if p == pid {
            assert(t.recycled[s.recycled.len() as int] == pid);
        } else {
            if s.recycled.contains(p) {
                let i = choose|i: int| 0 <= i < s.recycled.len() && s.recycled[i] == p;
                assert(t.recycled[i] == p);
            }
            if t.recycled.contains(p) {
                let i = choose|i: int| 0 <= i < t.recycled.len() && t.recycled[i] == p;
                assert(s.recycled[i] == p);
            }
        }
    }
    assert forall|i: int, j: int| 0 <= i < t.recycled.len() && 0 <= j < t.recycled.len() && i != j implies t.recycled[i]
        != t.recycled[j] by {
        if i < s.recycled.len() {
            assert(s.recycled.contains(s.recycled[i]));
        }
        if j < s.recycled.len() {
            assert(s.recycled.contains(s.recycled[j]));
        }
    }
}

/// After `n` allocations and no pid handed back, a fresh allocator has
/// exactly the pids `0 .. n` in use, and the `n`-th allocation returned
/// `n - 1`.
pub proof fn lemma_first_pids(n: nat)
    requires
        n <= usize::MAX,
    ensures
        PidAllocState::fresh().after_allocs(n) == (PidAllocState { current: n, recycled: Seq::empty() }),
        forall|p: usize| PidAllocState::fresh().after_allocs(n).in_use(p) == (p < n),
        n > 0 ==> PidAllocState::fresh().after_allocs((n - 1) as nat).next() == n - 1,
    decreases n,
{
    if n > 0 {
        lemma_first_pids((n - 1) as nat);
    }
}

/// Pids handed back come out again before any new pid, the one handed back
/// last first: after the pids of `drops` are handed back, allocation number
/// `j` returns `drops[drops.len() - 1 - j]`.
pub proof fn lemma_pids_come_back_lifo(s: PidAllocState, drops: Seq<usize>, j: nat)
    requires
        j < drops.len(),
    ensures
        s.after_drops(drops).after_allocs(j).recycled == s.recycled + drops.subrange(0, drops.len() - j),
        s.after_drops(drops).after_allocs(j).current == s.current,
        s.after_drops(drops).after_allocs(j).next() == drops[drops.len() - 1 - j],
    decreases j,
{
    let d = s.after_drops(drops);
    if j == 0 {
        assert(drops.subrange(0, drops.len() as int) =~= drops);
    } else {
        lemma_pids_come_back_lifo(s, drops, (j - 1) as nat);
        let prev = d.after_allocs((j - 1) as nat);
        assert(prev.recycled.drop_last() =~= s.recycled + drops.subrange(0, drops.len() - j));
    }
}

/// Allocator of task identifiers: pids handed back are reused first, most
/// recent first; otherwise the next unused number is taken.
pub struct PidAllocator {
    current: usize,
    recycled: Vec<usize>,
}

impl View for PidAllocator {
    type V = PidAllocState;

    closed spec fn view(&self) -> PidAllocState {
        PidAllocState { current: self.current as nat, recycled: self.recycled@ }
    }
}

/// A task identifier that its holder owns.
#[derive(Debug)]
pub struct PidHandle(pub usize);

impl PidAllocator {
    pub open spec fn wf(&self) -> bool {
        self@.wf()
    }

    pub open spec fn in_use(&self, pid: usize) -> bool {
        self@.in_use(pid)
    }

    /// An allocator that has handed out nothing.
    pub fn new() -> (r: Self)
        ensures
            r.wf(),
            r@ == PidAllocState::fresh(),
    {
        PidAllocator { current: 0, recycled: Vec::new() }
    }

    /// Hands out a pid that is not in use.
    pub fn allocate(&mut self) -> (r: PidHandle)
        requires
            old(self).wf(),
            old(self)@.recycled.len() > 0 || old(self)@.current < usize::MAX,
        ensures
            final(self).wf(),
            final(self)@ == old(self)@.after_alloc(),
            r.0 == old(self)@.next(),
            !old(self).in_use(r.0),
            forall|p: usize| final(self).in_use(p) == (old(self).in_use(p) || p == r.0),
    {
        proof {
            lemma_pid_alloc(self@);
        }
        if let Some(pid) = self.recycled.pop() {
            PidHandle(pid)
        } else {
            self.current = self.current + 1;
            PidHandle(self.current - 1)
        }
    }

    /// Takes back `pid`, which was in use.
    pub fn dealloc(&mut self, pid: usize)
        requires
            old(self).wf(),
            old(self).in_use(pid),
        ensures
            final(self).wf(),
            final(self)@ == old(self)@.after_dealloc(pid),
            forall|p: usize| final(self).in_use(p) == (old(self).in_use(p) && p != pid),
    {
        proof {
            lemma_pid_dealloc(self@, pid);
        }
        self.recycled.push(pid);
    }

    /// The pid that the next allocation returns.
    pub fn peek(&self) -> (r: usize)
        requires
            self.wf(),
        ensures
            r == self@.next(),
    {
        let n: usize = self.recycled.len();
        if n > 0 {
            self.recycled[n - 1]
        } else {
            self.current
        }
    }
}

/// Hands out a pid that is not in use.
pub fn pid_alloc(allocator: &mut PidAllocator) -> (r: PidHandle)
    requires
        old(allocator).wf(),
        old(allocator)@.recycled.len() > 0 || old(allocator)@.current < usize::MAX,
    ensures
        final(allocator).wf(),
        final(allocator)@ == old(allocator)@.after_alloc(),
        r.0 == old(allocator)@.next(),
        !old(allocator).in_use(r.0),
        forall|p: usize| final(allocator).in_use(p) == (old(allocator).in_use(p) || p == r.0),
{
    allocator.allocate()
}

/// The first page of the kernel stack of task `pid`.
pub open spec fn kstack_bottom_vpn(pid: usize) -> u64 {
    (TRAMPOLINE_VPN - 3 * pid - 2) as u64
}

/// The page behind the kernel stack of task `pid`: the guard page of the
/// next lower-numbered task, or the trampoline.
pub open spec fn kstack_top_vpn(pid: usize) -> u64 {
    (TRAMPOLINE_VPN - 3 * pid) as u64
}

/// Frames that mapping one kernel stack can take at most.
pub open spec fn kstack_cost(pid: usize) -> int {
    map_cost(kstack_bottom_vpn(pid) as int, kstack_top_vpn(pid) as int, MapType::Framed)
}

/// The kernel stack of one task: two framed pages in the kernel's address
/// space, below the stack of the next lower-numbered task and one unmapped
/// guard page.
#[derive(Debug)]
pub struct KernelStack {
    pid: usize,
}

/// The half-open virtual range `(bottom, top)` of the kernel stack of `pid`.
pub fn kernel_stack_position_of(pid: usize) -> (r: (u64, u64))
    requires
        pid <= MAX_APP_ID,
    ensures
        r.0 == kernel_stack_bottom(pid as int),
        r.1 == kernel_stack_top(pid as int),
        VirtAddr((r.0 % VA_LIMIT) as u64).floor().0 == kstack_bottom_vpn(pid),
        VirtAddr((r.1 % VA_LIMIT) as u64).ceil().0 == kstack_top_vpn(pid),
{
    let r = kernel_stack_position(pid);
    proof {
        let top39 = 0x7f_ffff_f000 - 12288 * pid;
        let bottom39 = top39 - 8192;
        lemma_fundamental_div_mod_converse(r.1 as int, VA_LIMIT as int, 0x1ff_ffff, top39);
        lemma_fundamental_div_mod_converse(r.0 as int, VA_LIMIT as int, 0x1ff_ffff, bottom39);
        lemma_fundamental_div_mod_converse(top39, 4096, 0x7ff_ffff - 3 * pid, 0);
        lemma_fundamental_div_mod_converse(bottom39, 4096, 0x7ff_ffff - 3 * pid - 2, 0);
    }
    r
}

impl KernelStack {
    pub closed spec fn spec_pid(&self) -> usize {
        self.pid
    }

    /// Maps the kernel stack of the task that holds `pid_handle` into the
    /// kernel's address space, readable and writable, on fresh frames.
    pub fn new(pid_handle: &PidHandle, kernel_space: &mut MemorySet, allocator: &mut StackFrameAllocator) -> (r:
        Self)
        requires
            pid_handle.0 <= MAX_APP_ID,
            old(kernel_space).wf(),
            old(allocator).wf(),
            old(kernel_space).ppns().subset_of(old(allocator).allocated()),
            forall|v: u64|
                kstack_bottom_vpn(pid_handle.0) <= v < kstack_top_vpn(pid_handle.0) ==> (#[trigger] old(
                    kernel_space,
                ).spec_translate(v)) is None,
            old(allocator).available() >= kstack_cost(pid_handle.0),
        ensures
            r.spec_pid() == pid_handle.0,
            final(kernel_space).wf(),
            final(allocator).wf(),
            final(kernel_space).spec_areas().len() == old(kernel_space).spec_areas().len() + 1,
            forall|i: int|
                0 <= i < old(kernel_space).spec_areas().len() ==> #[trigger] final(kernel_space).spec_areas()[i]
                    == old(kernel_space).spec_areas()[i],
            final(kernel_space).spec_areas().last().spec_start() == kstack_bottom_vpn(pid_handle.0),
            final(kernel_space).spec_areas().last().spec_end() == kstack_top_vpn(pid_handle.0),
            final(kernel_space).spec_areas().last().spec_type() == MapType::Framed,
            final(kernel_space).spec_areas().last().spec_perm().bits == 0x06,
            final(kernel_space).spec_trampoline() == old(kernel_space).spec_trampoline(),
            final(kernel_space).spec_token() == old(kernel_space).spec_token(),
            forall|v: u64|
                v < VPN_LIMIT && !(kstack_bottom_vpn(pid_handle.0) <= v < kstack_top_vpn(pid_handle.0))
                    ==> #[trigger] final(kernel_space).spec_translate(v) == old(kernel_space).spec_translate(v),
            final(allocator).available() >= old(allocator).available() - kstack_cost(pid_handle.0),
            handover(old(allocator)@, final(allocator)@, old(kernel_space).ppns(), final(kernel_space).ppns()),
    {
        let pid = pid_handle.0;
        let (kernel_stack_bottom, kernel_stack_top) = kernel_stack_position_of(pid);
        proof {
            assert(MAP_R | MAP_W == 0x06) by (bit_vector);
        }
        kernel_space.insert_framed_area(
            allocator,
            VirtAddr::from(kernel_stack_bottom),
            VirtAddr::from(kernel_stack_top),
            MapPermission { bits: MAP_R | MAP_W },
        );
        KernelStack { pid }
    }

    /// The address just above the stack: the initial stack pointer.
    pub fn get_top(&self) -> (r: u64)
        requires
            self.spec_pid() <= MAX_APP_ID,
        ensures
            r == kernel_stack_top(self.spec_pid() as int),
    {
        let (_, kernel_stack_top) = kernel_stack_position(self.pid);
        kernel_stack_top
    }

    /// Unmaps the kernel stack and gives its frames back.
    pub fn release(self, kernel_space: &mut MemorySet, allocator: &mut StackFrameAllocator)
        requires
            self.spec_pid() <= MAX_APP_ID,
            old(kernel_space).wf(),
            old(allocator).wf(),
            old(kernel_space).ppns().subset_of(old(allocator).allocated()),
        ensures
            final(kernel_space).wf(),
            final(allocator).wf(),
            final(kernel_space).spec_trampoline() == old(kernel_space).spec_trampoline(),
            final(kernel_space).spec_page_table().spec_root() == old(kernel_space).spec_page_table().spec_root(),
            match old(kernel_space).area_starting_at(kstack_bottom_vpn(self.spec_pid())) {
                Some(k) => {
                    &&& final(kernel_space).spec_areas() == old(kernel_space).spec_areas().remove(k)
                    &&& forall|v: u64|
                        v < VPN_LIMIT ==> #[trigger] final(kernel_space).spec_translate(v) == (if old(
                            kernel_space,
                        ).spec_areas()[k].contains(v) {
                            None
                        } else {
                            old(kernel_space).spec_translate(v)
                        })
                },
                None => final(kernel_space).spec_areas() == old(kernel_space).spec_areas() && final(kernel_space).spec_page_table() == old(kernel_space).spec_page_table(),
            },
            final(allocator).available() >= old(allocator).available(),
            handover(old(allocator)@, final(allocator)@, old(kernel_space).ppns(), final(kernel_space).ppns()),
    {
        let (kernel_stack_bottom, _) = kernel_stack_position_of(self.pid);
        let kernel_stack_bottom_va = VirtAddr::from(kernel_stack_bottom);
        kernel_space.remove_area_with_start_vpn(allocator, kernel_stack_bottom_va.floor());
    }
}

} // verus!
