//! The system calls as user programs make them: number and arguments, for
//! the `ecall` instruction to hand to the kernel.

use vstd::prelude::*;

verus! {

pub const SYSCALL_READ: u64 = 63;

pub const SYSCALL_WRITE: u64 = 64;

pub const SYSCALL_EXIT: u64 = 93;

pub const SYSCALL_YIELD: u64 = 124;

pub const SYSCALL_GET_TIME: u64 = 169;

pub const SYSCALL_GETPID: u64 = 172;

pub const SYSCALL_FORK: u64 = 220;

pub const SYSCALL_EXEC: u64 = 221;

pub const SYSCALL_WAITPID: u64 = 260;

/// A system call as the registers hold it at the `ecall`: its number in
/// `a7`, its arguments in `a0` to `a2`.
#[derive(Copy, Clone, Debug, PartialEq, Eq)]
pub struct SyscallRequest {
    pub id: u64,
    pub args: [u64; 3],
}

/// The request for system call `id` with these arguments.
pub fn sys_request(id: u64, args: [u64; 3]) -> (r: SyscallRequest)
    ensures
        r == (SyscallRequest { id, args }),
{
    SyscallRequest { id, args }
}

/// The request to write the `len` bytes at `buf` to file `fd`.
pub fn sys_write(fd: u64, buf: u64, len: u64) -> (r: SyscallRequest)
    ensures
        r == (SyscallRequest { id: SYSCALL_WRITE, args: [fd, buf, len] }),
{
    sys_request(SYSCALL_WRITE, [fd, buf, len])
}

/// The request to end the program with `exit_code`.
pub fn sys_exit(exit_code: i32) -> (r: SyscallRequest)
    ensures
        r == (SyscallRequest { id: SYSCALL_EXIT, args: [exit_code as u64, 0, 0] }),
{
    sys_request(SYSCALL_EXIT, [#[verifier::truncate] (exit_code as u64), 0, 0])
}

/// The request to give up the processor.
pub fn sys_yield() -> (r: SyscallRequest)
    ensures
        r == (SyscallRequest { id: SYSCALL_YIELD, args: [0, 0, 0] }),
{
    sys_request(SYSCALL_YIELD, [0, 0, 0])
}

/// The request for the time since boot in milliseconds.
pub fn sys_get_time() -> (r: SyscallRequest)
    ensures
        r == (SyscallRequest { id: SYSCALL_GET_TIME, args: [0, 0, 0] }),
{
    sys_request(SYSCALL_GET_TIME, [0, 0, 0])
}

} // verus!
