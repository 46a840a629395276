//! Traps from user mode: the saved context, and what the kernel does about
//! each cause.

pub mod context;

use vstd::prelude::*;
use crate::config::{TRAMPOLINE, TRAP_CONTEXT};
use crate::syscall::process::{KernelFault, SysResult, EXIT_ILLEGAL_INSTRUCTION, EXIT_MEMORY_FAULT};
use crate::syscall::{is_served, served, syscall, syscall_result, Machine};
use crate::task::task::trap_cx_words;
use crate::task::{ExitAction, Kernel, INIT_PID};
use crate::timer::set_next_trigger;

verus! {

/// An interrupt, as `scause` names it.
#[derive(Copy, Clone, Debug, PartialEq, Eq, Structural)]
pub enum Interrupt {
    UserSoft,
    SupervisorSoft,
    UserTimer,
    SupervisorTimer,
    UserExternal,
    SupervisorExternal,
    Unknown,
}

/// An exception, as `scause` names it.
#[derive(Copy, Clone, Debug, PartialEq, Eq, Structural)]
pub enum Exception {
    InstructionMisaligned,
    InstructionFault,
    IllegalInstruction,
    Breakpoint,
    LoadFault,
    StoreMisaligned,
    StoreFault,
    UserEnvCall,
    InstructionPageFault,
    LoadPageFault,
    StorePageFault,
    Unknown,
}

/// The cause of a trap.
#[derive(Copy, Clone, Debug, PartialEq, Eq, Structural)]
pub enum Trap {
    Interrupt(Interrupt),
    Exception(Exception),
}

/// What the hart does when the trap handler is done.
#[derive(Copy, Clone, Debug, PartialEq, Eq, Structural)]
pub enum TrapAction {
    /// It returns to the task that trapped.
    Return,
    /// It switches to the idle loop, which takes the next task.
    Schedule,
    /// It shuts the machine down, reporting a failure or not.
    Shutdown { failure: bool },
    /// It stops: the kernel cannot go on.
    Panic(KernelFault),
}

/// What the trap handler asks of the machine: what to do next, the bytes to
/// print, and the counter value for the next timer interrupt, if one is to
/// be set.
pub struct TrapOutcome {
    pub action: TrapAction,
    pub console: Vec<u8>,
    pub next_trigger: Option<u64>,
}

/// The trap is a fault of the task in memory.
pub open spec fn is_memory_fault(cause: Trap) -> bool {
    ||| cause == Trap::Exception(Exception::StoreFault)
    ||| cause == Trap::Exception(Exception::StorePageFault)
    ||| cause == Trap::Exception(Exception::LoadFault)
    ||| cause == Trap::Exception(Exception::LoadPageFault)
    ||| cause == Trap::Exception(Exception::InstructionFault)
    ||| cause == Trap::Exception(Exception::InstructionPageFault)
}

/// The hart's action after a task has ended.
pub open spec fn action_of(exit: ExitAction) -> TrapAction {
    match exit {
        ExitAction::Shutdown { failure } => TrapAction::Shutdown { failure },
        ExitAction::Schedule => TrapAction::Schedule,
    }
}

/// The hart's action after a task has ended.
pub fn exit_to_action(exit: ExitAction) -> (r: TrapAction)
    ensures
        r == action_of(exit),
{
    match exit {
        ExitAction::Shutdown { failure } => TrapAction::Shutdown { failure },
        ExitAction::Schedule => TrapAction::Schedule,
    }
}

/// `new` is `old` after the running task `c` was ended with `exit_code`.
pub open spec fn ended(new: &Kernel, old: &Kernel, exit_code: i32, action: TrapAction) -> bool {
    let c = old.processor.spec_current().unwrap();
    if c == INIT_PID {
        action == (TrapAction::Shutdown { failure: exit_code != 0 }) && *new == *old
    } else {
        action == TrapAction::Schedule && new.exited(old, c, exit_code)
    }
}

/// The address of the instruction behind the `ecall` at `sepc`.
pub open spec fn after_ecall(sepc: u64) -> u64 {
    if sepc <= u64::MAX - 4 {
        (sepc + 4) as u64
    } else {
        (sepc - (u64::MAX - 3)) as u64
    }
}

/// The system call that the trap context with these words asks for: its
/// number from register 17 and its arguments from registers 10 to 12.
pub open spec fn call_of(words: Seq<u64>) -> (u64, Seq<u64>) {
    (words[17], seq![words[10], words[11], words[12]])
}

/// What the trap handler does about a system call of the running task `c`:
/// `a` is the kernel with the program counter of `c` moved behind the
/// `ecall`, `b` the kernel after the call was served, `new` the kernel with
/// the result delivered.
pub open spec fn ecall_steps(
    new: &Kernel,
    b: &Kernel,
    a: &Kernel,
    old: &Kernel,
    machine: Machine,
    args: [u64; 3],
    r: (SysResult, Vec<u8>),
    action: TrapAction,
) -> bool {
    let c = old.processor.spec_current().unwrap();
    let words = trap_cx_words(old.current_space());
    &&& args@ == call_of(words).1
    &&& a.memory_changed(old, c)
    &&& trap_cx_words(a.current_space()) == words.update(33, after_ecall(words[33]))
    &&& syscall_result(b, a, words[17], args, machine, r)
    &&& match r.0 {
        SysResult::Value(v) => action == TrapAction::Return && (b.processor.spec_current() == Some(c) && b.active(c)
            ==> new.memory_changed(b, c) && trap_cx_words(new.task(c).inner.memory_set) == trap_cx_words(
            b.task(c).inner.memory_set,
        ).update(10, v as u64)),
        SysResult::Yielded(v) => action == TrapAction::Schedule && (b.active(c) ==> new.memory_changed(b, c)
            && trap_cx_words(new.task(c).inner.memory_set) == trap_cx_words(b.task(c).inner.memory_set).update(
            10,
            v as u64,
        )),
        SysResult::Again => action == TrapAction::Schedule && (b.active(c) ==> new.memory_changed(b, c)
            && trap_cx_words(new.task(c).inner.memory_set) == trap_cx_words(b.task(c).inner.memory_set).update(
            33,
            words[33],
        )),
        SysResult::Exited(exit) => action == action_of(exit) && *new == *b,
        SysResult::Killed(exit) => action == action_of(exit) && *new == *b,
        SysResult::Fault(f) => action == TrapAction::Panic(f) && *new == *b,
    }
}

/// What the trap handler does to the kernel `old` and asks of the machine.
pub open spec fn trap_result(new: &Kernel, old: &Kernel, cause: Trap, machine: Machine, out: TrapOutcome) -> bool {
    let c = old.processor.spec_current().unwrap();
    let words = trap_cx_words(old.current_space());
    if cause == Trap::Exception(Exception::UserEnvCall) {
        &&& out.next_trigger is None
        &&& if exists|args: [u64; 3]| args@ == call_of(words).1 && served(words[17], args) {
            exists|a: Kernel, b: Kernel, args: [u64; 3], r: SysResult|
                #![trigger ecall_steps(new, &b, &a, old, machine, args, (r, out.console), out.action)]
                ecall_steps(new, &b, &a, old, machine, args, (r, out.console), out.action)
        } else {
            out.action == TrapAction::Panic(KernelFault::UnsupportedSyscall) && *new == *old && out.console@.len() == 0
        }
    } else if is_memory_fault(cause) {
        out.next_trigger is None && out.console@.len() == 0 && ended(new, old, EXIT_MEMORY_FAULT, out.action)
    } else if cause == Trap::Exception(Exception::IllegalInstruction) {
        out.next_trigger is None && out.console@.len() == 0 && ended(new, old, EXIT_ILLEGAL_INSTRUCTION, out.action)
    } else if cause == Trap::Interrupt(Interrupt::SupervisorTimer) {
        &&& out.next_trigger == Some((machine.mtime + 125000) as u64)
        &&& out.console@.len() == 0
        &&& out.action == TrapAction::Schedule
        &&& new.sched() == old.sched().suspended()
        &&& new.status_changed(old, c)
    } else {
        &&& out.action == TrapAction::Panic(KernelFault::UnsupportedTrap)
        &&& out.next_trigger is None
        &&& out.console@.len() == 0
        &&& *new == *old
    }
}

/// Handles a trap that the running task has taken for `cause`.
///
/// A system call is served and its result put into the task's trap context;
/// a task that faults in memory is ended with exit code -2, one that runs
/// an illegal instruction with -3; at a timer interrupt the next one is
/// asked for and the task goes to the end of the ready queue. Any other trap
/// from user mode, and a system call that the kernel does not serve, stop
/// the kernel.
pub fn trap_handler(kernel: &mut Kernel, cause: Trap, machine: Machine) -> (out: TrapOutcome)
    requires
        old(kernel).wf(),
        old(kernel).processor.spec_current() is Some,
        machine.mtime + 125000 <= u64::MAX,
    ensures
        final(kernel).wf(),
        trap_result(final(kernel), old(kernel), cause, machine, out),
{
    let c = kernel.current_task().unwrap();
    proof {
        assert(kernel.live(c));
    }
    match cause {
        Trap::Exception(Exception::UserEnvCall) => {
            let cx = kernel.current_trap_cx();
            let id = cx.x[17];
            let args: [u64; 3] = [cx.x[10], cx.x[11], cx.x[12]];
            proof {
                assert(cx.words()[17] == cx.x@[17]);
                assert(cx.words()[10] == cx.x@[10] && cx.words()[11] == cx.x@[11] && cx.words()[12] == cx.x@[12]);
                assert(cx.words()[33] == cx.sepc);
                assert(args@ =~= call_of(cx.words()).1);
            }
            if !is_served(id, args) {
                proof {
                    assert forall|other: [u64; 3]| other@ == call_of(cx.words()).1 implies !served(id, other) by {
                        assert(other@[0] == args@[0] && other@[1] == args@[1] && other@[2] == args@[2]);
                    }
                }
                return TrapOutcome {
                    action: TrapAction::Panic(KernelFault::UnsupportedSyscall),
                    console: Vec::new(),
                    next_trigger: None,
                };
            }
            let sepc = cx.sepc;
            let next: u64 = if sepc <= u64::MAX - 4 {
                sepc + 4
            } else {
                sepc - (u64::MAX - 3)
            };
            kernel.set_trap_cx_word(c, 33, next);
            let ghost a = *kernel;
            let (res, console) = syscall(kernel, id, args, machine);
            let ghost b = *kernel;
            let action = match res {
                SysResult::Value(v) => {
                    if kernel.current_task() == Some(c) && kernel.is_active(c) {
                        kernel.set_trap_cx_word(c, 10, v as u64);
                    }
                    TrapAction::Return
                },
                SysResult::Yielded(v) => {
                    if kernel.is_active(c) {
                        kernel.set_trap_cx_word(c, 10, v as u64);
                    }
                    TrapAction::Schedule
                },
                SysResult::Again => {
                    if kernel.is_active(c) {
                        kernel.set_trap_cx_word(c, 33, sepc);
                    }
                    TrapAction::Schedule
                },
                SysResult::Exited(exit) => exit_to_action(exit),
                SysResult::Killed(exit) => exit_to_action(exit),
                SysResult::Fault(f) => TrapAction::Panic(f),
            };
            let out = TrapOutcome { action, console, next_trigger: None };
            proof {
                assert(ecall_steps(kernel, &b, &a, old(kernel), machine, args, (res, out.console), out.action));
                assert(served(trap_cx_words(old(kernel).current_space())[17], args));
            }
            out
        },
        Trap::Exception(Exception::StoreFault) | Trap::Exception(Exception::StorePageFault) | Trap::Exception(
            Exception::LoadFault,
        ) | Trap::Exception(Exception::LoadPageFault) | Trap::Exception(Exception::InstructionFault) | Trap::Exception(
            Exception::InstructionPageFault,
        ) => {
            let exit = kernel.exit_current_and_run_next(EXIT_MEMORY_FAULT);
            TrapOutcome { action: exit_to_action(exit), console: Vec::new(), next_trigger: None }
        },
        Trap::Exception(Exception::IllegalInstruction) => {
            let exit = kernel.exit_current_and_run_next(EXIT_ILLEGAL_INSTRUCTION);
            TrapOutcome { action: exit_to_action(exit), console: Vec::new(), next_trigger: None }
        },
        Trap::Interrupt(Interrupt::SupervisorTimer) => {
            let next = set_next_trigger(machine.mtime);
            kernel.suspend_current_and_run_next();
            TrapOutcome { action: TrapAction::Schedule, console: Vec::new(), next_trigger: Some(next) }
        },
        _ => TrapOutcome {
            action: TrapAction::Panic(KernelFault::UnsupportedTrap),
            console: Vec::new(),
            next_trigger: None,
        },
    }
}

/// What the return to user mode needs: the address to put into `stvec`, the
/// address to jump to, and the two arguments of the code there.
#[derive(Copy, Clone, Debug, PartialEq, Eq, Structural)]
pub struct ReturnToUser {
    /// The trap vector while the task runs: the trampoline.
    pub stvec: u64,
    /// The address of the restore code within the trampoline page.
    pub restore_va: u64,
    /// The virtual address of the trap context.
    pub trap_cx_ptr: u64,
    /// The token of the address space of the task.
    pub user_satp: u64,
}

/// Prepares the return to the running task: `alltraps` and `restore` are the
/// addresses at which the kernel image holds the start of the trampoline
/// code and the restore code within it.
pub fn trap_return(kernel: &Kernel, alltraps: u64, restore: u64) -> (r: ReturnToUser)
    requires
        kernel.wf(),
        kernel.processor.spec_current() is Some,
        alltraps <= restore < alltraps + 4096,
    ensures
        r.stvec == TRAMPOLINE,
        r.restore_va == TRAMPOLINE + (restore - alltraps),
        r.trap_cx_ptr == TRAP_CONTEXT,
        r.user_satp == kernel.current_space().spec_token(),
{
    ReturnToUser {
        stvec: TRAMPOLINE,
        restore_va: restore - alltraps + TRAMPOLINE,
        trap_cx_ptr: TRAP_CONTEXT,
        user_satp: kernel.current_user_token(),
    }
}

/// The trap vector while the kernel runs: traps from supervisor mode go to
/// the handler at `trap_from_kernel`, which stops the kernel. Returns the
/// address to put into `stvec`, in direct mode.
pub fn init(trap_from_kernel: u64) -> (r: u64)
    ensures
        r == trap_from_kernel,
{
    trap_from_kernel
}

} // verus!
