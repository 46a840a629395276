//! The queue of tasks that are ready to run.

use vstd::prelude::*;
use std::collections::VecDeque;

verus! {

/// The ready tasks, by pid, in the order in which they will run.
pub struct TaskManager {
    ready_queue: VecDeque<usize>,
}

impl View for TaskManager {
    type V = Seq<usize>;

    closed spec fn view(&self) -> Seq<usize> {
        self.ready_queue@
    }
}

impl TaskManager {
    /// The manager with no ready task.
    pub fn new() -> (r: Self)
        ensures
            r@ == Seq::<usize>::empty(),
    {
        TaskManager { ready_queue: VecDeque::new() }
    }

    /// Puts task `pid` at the end of the queue.
    pub fn add(&mut self, pid: usize)
        ensures
            final(self)@ == old(self)@.push(pid),
    {
        self.ready_queue.push_back(pid);
    }

    /// Takes the task at the head of the queue.
    pub fn fetch(&mut self) -> (r: Option<usize>)
        ensures
            old(self)@.len() == 0 ==> r is None && final(self)@ == old(self)@,
            old(self)@.len() > 0 ==> r == Some(old(self)@[0]) && final(self)@ == old(self)@.subrange(
                1,
                old(self)@.len() as int,
            ),
    {
        self.ready_queue.pop_front()
    }

    /// Number of ready tasks.
    pub fn len(&self) -> (r: usize)
        ensures
            r == self@.len(),
    {
        self.ready_queue.len()
    }
}

/// Puts task `pid` at the end of the ready queue.
pub fn add_task(manager: &mut TaskManager, pid: usize)
    ensures
        final(manager)@ == old(manager)@.push(pid),
{
    manager.add(pid);
}

/// Takes the task at the head of the ready queue.
pub fn fetch_task(manager: &mut TaskManager) -> (r: Option<usize>)
    ensures
        old(manager)@.len() == 0 ==> r is None && final(manager)@ == old(manager)@,
        old(manager)@.len() > 0 ==> r == Some(old(manager)@[0]) && final(manager)@ == old(manager)@.subrange(
            1,
            old(manager)@.len() as int,
        ),
{
    manager.fetch()
}

/// What the scheduler knows: the task that runs and the tasks that wait, in
/// the order in which they will run.
pub struct SchedState {
    pub current: Option<usize>,
    pub ready: Seq<usize>,
}

impl SchedState {
    /// The state after the running task is put at the end of the queue.
    pub open spec fn suspended(self) -> SchedState {
        match self.current {
            Some(c) => SchedState { current: None, ready: self.ready.push(c) },
            None => self,
        }
    }

    /// The state after the idle loop takes the task at the head of the queue,
    /// if no task runs and one waits.
    pub open spec fn dispatched(self) -> SchedState {
        if self.current is None && self.ready.len() > 0 {
            SchedState { current: Some(self.ready[0]), ready: self.ready.subrange(1, self.ready.len() as int) }
        } else {
            self
        }
    }

    /// The state after the running task yields and the next task is taken.
    pub open spec fn yielded(self) -> SchedState {
        self.suspended().dispatched()
    }

    /// The state after `n` yields.
    pub open spec fn yielded_times(self, n: nat) -> SchedState
        decreases n,
    {
        if n == 0 {
            self
        } else {
            self.yielded_times((n - 1) as nat).yielded()
        }
    }

    /// The running task followed by the waiting tasks.
    pub open spec fn order(self) -> Seq<usize> {
        seq![self.current.unwrap()] + self.ready
    }
}

/// With `K` tasks, one of them running, yield number `j` (for `j` up to `K`)
/// hands the processor to task `j` of the order in which the tasks stood,
/// counted cyclically: every task runs exactly once in `K` yields, in queue
/// order, and after `K` yields the scheduler is where it was.
pub proof fn lemma_round_robin(s: SchedState, j: nat)
    requires
        s.current is Some,
        j <= s.order().len(),
    ensures
        j < s.order().len() ==> s.yielded_times(j).current == Some(s.order()[j as int]),
        j < s.order().len() ==> s.yielded_times(j).ready == s.order().subrange(j as int + 1, s.order().len() as int)
            + s.order().subrange(0, j as int),
        j == s.order().len() ==> s.yielded_times(j) == s,
    decreases j,
{
    let order = s.order();
    let k = order.len() as int;
    if j == 0 {
        assert(order.subrange(1, k) + order.subrange(0, 0) =~= s.ready);
    } else {
        lemma_round_robin(s, (j - 1) as nat);
        let prev = s.yielded_times((j - 1) as nat);
        let c = order[j - 1];
        assert(prev.current == Some(c));
        let q = prev.ready.push(c);
        assert(q =~= order.subrange(j as int, k) + order.subrange(0, j as int));
        if j < k {
            assert(q[0] == order[j as int]);
            assert(q.subrange(1, q.len() as int) =~= order.subrange(j as int + 1, k) + order.subrange(0, j as int));
        } else {
            assert(q =~= order);
            assert(q.subrange(1, q.len() as int) =~= s.ready);
        }
    }
}

} // verus!
