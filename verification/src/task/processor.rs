//! The processor: which task runs on it, and the context of its idle loop.

use vstd::prelude::*;
use super::context::TaskContext;

verus! {

/// The state of the one hart: the task that runs on it, by pid, and the
/// saved context of the idle loop.
pub struct Processor {
    current: Option<usize>,
    idle_task_cx: TaskContext,
}

impl Processor {
    pub closed spec fn spec_current(&self) -> Option<usize> {
        self.current
    }

    pub closed spec fn spec_idle_task_cx(&self) -> TaskContext {
        self.idle_task_cx
    }

    /// A processor on which no task runs.
    pub fn new() -> (r: Self)
        ensures
            r.spec_current() is None,
            r.spec_idle_task_cx().spec_ra() == 0,
            r.spec_idle_task_cx().spec_sp() == 0,
            r.spec_idle_task_cx().saved_zero(),
    {
        Processor { current: None, idle_task_cx: TaskContext::zero_init() }
    }

    /// Takes the running task off the processor.
    pub fn take_current(&mut self) -> (r: Option<usize>)
        ensures
            r == old(self).spec_current(),
            final(self).spec_current() is None,
            final(self).spec_idle_task_cx() == old(self).spec_idle_task_cx(),
    {
        self.current.take()
    }

    /// The running task.
    pub fn current(&self) -> (r: Option<usize>)
        ensures
            r == self.spec_current(),
    {
        self.current
    }

    /// Puts task `pid` on the processor.
    pub fn set_current(&mut self, pid: usize)
        ensures
            final(self).spec_current() == Some(pid),
            final(self).spec_idle_task_cx() == old(self).spec_idle_task_cx(),
    {
        self.current = Some(pid);
    }

    /// The saved context of the idle loop.
    pub fn idle_task_cx(&self) -> (r: TaskContext)
        ensures
            r == self.spec_idle_task_cx(),
    {
        self.idle_task_cx
    }

    /// Saves the context of the idle loop.
    pub fn set_idle_task_cx(&mut self, cx: TaskContext)
        ensures
            final(self).spec_current() == old(self).spec_current(),
            final(self).spec_idle_task_cx() == cx,
    {
        self.idle_task_cx = cx;
    }
}

} // verus!
