//! System calls: what each does to the kernel state and what it returns.

pub mod fs;
pub mod process;
pub mod wait;

use vstd::prelude::*;
use crate::task::Kernel;
use self::fs::{read_result, sys_read, sys_write, write_result, FD_STDIN, FD_STDOUT};
use self::process::{exec_result, fork_fault, forked_state, sys_exec, sys_exit, sys_fork, sys_get_time};
use self::process::{sys_getpid, sys_yield, SysResult};
use self::wait::{sys_waitpid, waitpid_result};
use crate::task::{ExitAction, INIT_PID};
use crate::timer::spec_time_ms;

verus! {

pub const SYSCALL_READ: u64 = 63;

pub const SYSCALL_WRITE: u64 = 64;

pub const SYSCALL_EXIT: u64 = 93;

pub const SYSCALL_YIELD: u64 = 124;

pub const SYSCALL_GET_TIME: u64 = 169;

pub const SYSCALL_GETPID: u64 = 172;

pub const SYSCALL_FORK: u64 = 220;

pub const SYSCALL_EXEC: u64 = 221;

pub const SYSCALL_WAITPID: u64 = 260;

/// What the machine holds when a system call is made: the counter of the
/// timer and the byte that the console holds, 0 for none.
#[derive(Copy, Clone, Debug)]
pub struct Machine {
    pub mtime: u64,
    pub console_char: u8,
}

/// The kernel serves the system call `syscall_id` with these arguments: it
/// knows the call, and a call that reads or writes names the console.
pub open spec fn served(syscall_id: u64, args: [u64; 3]) -> bool {
    ||| syscall_id == SYSCALL_READ && args[0] == FD_STDIN && args[2] == 1
    ||| syscall_id == SYSCALL_WRITE && args[0] == FD_STDOUT
    ||| syscall_id == SYSCALL_EXIT
    ||| syscall_id == SYSCALL_YIELD
    ||| syscall_id == SYSCALL_GET_TIME
    ||| syscall_id == SYSCALL_GETPID
    ||| syscall_id == SYSCALL_FORK
    ||| syscall_id == SYSCALL_EXEC
    ||| syscall_id == SYSCALL_WAITPID
}

/// Whether the kernel serves the system call `syscall_id` with these
/// arguments.
pub fn is_served(syscall_id: u64, args: [u64; 3]) -> (r: bool)
    ensures
        r == served(syscall_id, args),
{
    (syscall_id == SYSCALL_READ && args[0] == FD_STDIN && args[2] == 1) || (syscall_id == SYSCALL_WRITE && args[0]
        == FD_STDOUT) || syscall_id == SYSCALL_EXIT || syscall_id == SYSCALL_YIELD || syscall_id == SYSCALL_GET_TIME
        || syscall_id == SYSCALL_GETPID || syscall_id == SYSCALL_FORK || syscall_id == SYSCALL_EXEC || syscall_id
        == SYSCALL_WAITPID
}

/// What the system call `syscall_id` with these arguments does to the kernel
/// `old` and gives: its result and the bytes to print on the console.
pub open spec fn syscall_result(
    new: &Kernel,
    old: &Kernel,
    syscall_id: u64,
    args: [u64; 3],
    machine: Machine,
    r: (SysResult, Vec<u8>),
) -> bool {
    let c = old.processor.spec_current().unwrap();
    if syscall_id == SYSCALL_WRITE {
        write_result(new, old, args[1], args[2] as usize, r)
    } else {
        &&& r.1@.len() == 0
        &&& if syscall_id == SYSCALL_READ {
            read_result(new, old, args[1], machine.console_char, r.0)
        } else if syscall_id == SYSCALL_EXIT {
            match r.0 {
                SysResult::Exited(action) => if c == INIT_PID {
                    action == (ExitAction::Shutdown { failure: args[0] as i32 != 0 }) && *new == *old
                } else {
                    action == ExitAction::Schedule && new.exited(old, c, args[0] as i32)
                },
                _ => false,
            }
        } else if syscall_id == SYSCALL_YIELD {
            r.0 == SysResult::Yielded(0i64) && new.sched() == old.sched().suspended() && new.status_changed(old, c)
        } else if syscall_id == SYSCALL_GET_TIME {
            r.0 == SysResult::Value(spec_time_ms(machine.mtime) as i64) && *new == *old
        } else if syscall_id == SYSCALL_GETPID {
            r.0 == SysResult::Value(c as i64) && *new == *old
        } else if syscall_id == SYSCALL_FORK {
            match r.0 {
                SysResult::Value(pid) => fork_fault(old) is None && pid > 0 && forked_state(new, old, c, pid as usize),
                SysResult::Fault(e) => fork_fault(old) == Some(e) && new.tasks@ == old.tasks@ && new.manager
                    == old.manager && new.processor == old.processor,
                _ => false,
            }
        } else if syscall_id == SYSCALL_EXEC {
            exec_result(new, old, args[0], r.0)
        } else {
            waitpid_result(new, old, args[0] as i64, args[1], r.0)
        }
    }
}

/// Serves the system call `syscall_id` that the running task has made with
/// these arguments.
pub fn syscall(kernel: &mut Kernel, syscall_id: u64, args: [u64; 3], machine: Machine) -> (r: (SysResult, Vec<u8>))
    requires
        old(kernel).wf(),
        old(kernel).processor.spec_current() is Some,
        served(syscall_id, args),
    ensures
        final(kernel).wf(),
        syscall_result(final(kernel), old(kernel), syscall_id, args, machine, r),
{
    if syscall_id == SYSCALL_WRITE {
        sys_write(kernel, args[0], args[1], #[verifier::truncate] (args[2] as usize))
    } else if syscall_id == SYSCALL_READ {
        (sys_read(kernel, args[0], args[1], 1, machine.console_char), Vec::new())
    } else if syscall_id == SYSCALL_EXIT {
        (SysResult::Exited(sys_exit(kernel, #[verifier::truncate] (args[0] as i32))), Vec::new())
    } else if syscall_id == SYSCALL_YIELD {
        (SysResult::Yielded(sys_yield(kernel)), Vec::new())
    } else if syscall_id == SYSCALL_GET_TIME {
        (SysResult::Value(sys_get_time(machine.mtime)), Vec::new())
    } else if syscall_id == SYSCALL_GETPID {
        (SysResult::Value(sys_getpid(kernel)), Vec::new())
    } else if syscall_id == SYSCALL_FORK {
        match sys_fork(kernel) {
            Ok(pid) => (SysResult::Value(pid), Vec::new()),
            Err(e) => (SysResult::Fault(e), Vec::new()),
        }
    } else if syscall_id == SYSCALL_EXEC {
        (sys_exec(kernel, args[0]), Vec::new())
    } else {
        (sys_waitpid(kernel, #[verifier::truncate] (args[0] as i64), args[1]), Vec::new())
    }
}

} // verus!
