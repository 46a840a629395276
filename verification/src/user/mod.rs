//! The library that user programs link against: how each of its calls asks
//! the kernel.

pub mod syscall;

use vstd::prelude::*;
use self::syscall::{sys_exit, sys_get_time, sys_request, sys_write, sys_yield, SyscallRequest};
use self::syscall::{SYSCALL_EXEC, SYSCALL_FORK, SYSCALL_GETPID, SYSCALL_READ, SYSCALL_WAITPID};

verus! {

/// The request to read `len` bytes from file `fd` into the buffer at `buf`.
pub fn read(fd: u64, buf: u64, len: u64) -> (r: SyscallRequest)
    ensures
        r == (SyscallRequest { id: SYSCALL_READ, args: [fd, buf, len] }),
{
    sys_request(SYSCALL_READ, [fd, buf, len])
}

/// The request to write the `len` bytes of the buffer at `buf` to file `fd`.
pub fn write(fd: u64, buf: u64, len: u64) -> (r: SyscallRequest)
    ensures
        r == (SyscallRequest { id: self::syscall::SYSCALL_WRITE, args: [fd, buf, len] }),
{
    sys_write(fd, buf, len)
}

/// The request to end the program with `exit_code`.
pub fn exit(exit_code: i32) -> (r: SyscallRequest)
    ensures
        r == (SyscallRequest { id: self::syscall::SYSCALL_EXIT, args: [exit_code as u64, 0, 0] }),
{
    sys_exit(exit_code)
}

/// The request to give up the processor.
pub fn yield_() -> (r: SyscallRequest)
    ensures
        r == (SyscallRequest { id: self::syscall::SYSCALL_YIELD, args: [0, 0, 0] }),
{
    sys_yield()
}

/// The request for the time since boot in milliseconds.
pub fn get_time() -> (r: SyscallRequest)
    ensures
        r == (SyscallRequest { id: self::syscall::SYSCALL_GET_TIME, args: [0, 0, 0] }),
{
    sys_get_time()
}

/// The request for the pid of the program.
pub fn getpid() -> (r: SyscallRequest)
    ensures
        r == (SyscallRequest { id: SYSCALL_GETPID, args: [0, 0, 0] }),
{
    sys_request(SYSCALL_GETPID, [0, 0, 0])
}

/// The request to fork.
pub fn fork() -> (r: SyscallRequest)
    ensures
        r == (SyscallRequest { id: SYSCALL_FORK, args: [0, 0, 0] }),
{
    sys_request(SYSCALL_FORK, [0, 0, 0])
}

/// The request to run the program whose name, ended by a zero byte, lies at
/// `path`.
pub fn exec(path: u64) -> (r: SyscallRequest)
    ensures
        r == (SyscallRequest { id: SYSCALL_EXEC, args: [path, 0, 0] }),
{
    sys_request(SYSCALL_EXEC, [path, 0, 0])
}

/// Where a program stands that waits for a child.
#[derive(Copy, Clone, Debug, PartialEq, Eq, Structural)]
pub enum WaitState {
    /// It has not asked yet.
    Start,
    /// It has asked the kernel for a child and got this answer.
    Waited(i64),
    /// It has given up the processor and runs again.
    Yielded,
}

/// What a program that waits for a child does next.
#[derive(Copy, Clone, Debug, PartialEq, Eq)]
pub enum WaitStep {
    /// It makes this system call.
    Call(SyscallRequest),
    /// It is done waiting, with this result: the pid of the child that was
    /// collected, or -1 where there is no child to wait for.
    Done(i64),
}

/// The next step of a program that waits for the child `pid`, or for any
/// child where `pid` is -1, and wants the exit code at `exit_code`: it asks
/// the kernel; where the answer is -2, no such child having exited yet, it
/// gives up the processor and asks again; any other answer is the result.
pub open spec fn wait_step(pid: i64, exit_code: u64, state: WaitState) -> WaitStep {
    match state {
        WaitState::Start | WaitState::Yielded => WaitStep::Call(
            SyscallRequest { id: SYSCALL_WAITPID, args: [pid as u64, exit_code, 0] },
        ),
        WaitState::Waited(answer) => if answer == -2 {
            WaitStep::Call(SyscallRequest { id: self::syscall::SYSCALL_YIELD, args: [0, 0, 0] })
        } else {
            WaitStep::Done(answer)
        },
    }
}

/// The next step of a program that waits for any child.
pub fn wait(exit_code: u64, state: WaitState) -> (r: WaitStep)
    ensures
        r == wait_step(-1i64, exit_code, state),
{
    waitpid(-1, exit_code, state)
}

/// The next step of a program that waits for the child `pid`.
pub fn waitpid(pid: i64, exit_code: u64, state: WaitState) -> (r: WaitStep)
    ensures
        r == wait_step(pid, exit_code, state),
{
    match state {
        WaitState::Start | WaitState::Yielded => WaitStep::Call(
            sys_request(SYSCALL_WAITPID, [#[verifier::truncate] (pid as u64), exit_code, 0]),
        ),
        WaitState::Waited(answer) => if answer == -2 {
            WaitStep::Call(yield_())
        } else {
            WaitStep::Done(answer)
        },
    }
}

} // verus!
