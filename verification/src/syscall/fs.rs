//! System calls that read from and write to the console.

use vstd::prelude::*;
use crate::task::Kernel;
use super::process::{killed, SysResult, EXIT_MEMORY_FAULT};

verus! {

/// The file descriptor of the console's input.
pub const FD_STDIN: u64 = 0;

/// The file descriptor of the console's output.
pub const FD_STDOUT: u64 = 1;

/// What `sys_write` does to the kernel `old` and returns: the length and the
/// bytes to print, or the end of the task where the bytes cannot be read.
pub open spec fn write_result(new: &Kernel, old: &Kernel, buf: u64, len: usize, r: (SysResult, Vec<u8>)) -> bool {
    if old.current_space().accessible(buf, len as int) {
        &&& r.0 == SysResult::Value(len as i64)
        &&& r.1@ == old.current_space().spec_bytes(buf, len as int)
        &&& *new == *old
    } else {
        match r.0 {
            SysResult::Killed(action) => killed(new, old, action) && r.1@.len() == 0,
            _ => false,
        }
    }
}

/// The running task writes the `len` bytes at address `buf` of its memory to
/// the console, whose file descriptor `fd` must be. Returns `len` and the
/// bytes, which are for the caller to print. The task is ended where the
/// bytes cannot be read.
pub fn sys_write(kernel: &mut Kernel, fd: u64, buf: u64, len: usize) -> (r: (SysResult, Vec<u8>))
    requires
        old(kernel).wf(),
        old(kernel).processor.spec_current() is Some,
        fd == FD_STDOUT,
    ensures
        final(kernel).wf(),
        write_result(final(kernel), old(kernel), buf, len, r),
{
    match kernel.read_current(buf, len) {
        Some(bytes) => {
            proof {
                if len > 0 {
                    let c = kernel.processor.spec_current().unwrap();
                    assert(kernel.live(c));
                    assert(kernel.task_ok(c));
                    assert(kernel.current_space().spec_byte((buf + (len - 1)) as u64) is Some);
                    kernel.current_space().lemma_byte_in_range((buf + (len - 1)) as u64);
                }
            }
            (SysResult::Value(len as i64), bytes)
        },
        None => {
            let action = kernel.exit_current_and_run_next(EXIT_MEMORY_FAULT);
            (SysResult::Killed(action), Vec::new())
        },
    }
}

/// What `sys_read` does to the kernel `old` and returns, `ch` being what the
/// console holds.
pub open spec fn read_result(new: &Kernel, old: &Kernel, buf: u64, ch: u8, r: SysResult) -> bool {
    let c = old.processor.spec_current().unwrap();
    if ch == 0 {
        &&& r == SysResult::Again
        &&& new.sched() == old.sched().suspended()
        &&& new.status_changed(old, c)
    } else if old.current_space().accessible(buf, 1) {
        &&& r == SysResult::Value(1i64)
        &&& new.memory_changed(old, c)
        &&& new.current_space().spec_byte(buf) == Some(ch)
        &&& forall|a: u64| a != buf ==> #[trigger] new.current_space().spec_byte(a) == old.current_space().spec_byte(a)
    } else {
        match r {
            SysResult::Killed(action) => killed(new, old, action),
            _ => false,
        }
    }
}

/// The running task reads one byte from the console, whose file descriptor
/// `fd` must be, into address `buf` of its memory; `ch` is the byte that the
/// console holds, 0 for none.
///
/// Without a byte the task gives up the processor and makes the call again
/// when it runs. With one the byte is stored and 1 is returned. The task is
/// ended where the byte cannot be stored.
pub fn sys_read(kernel: &mut Kernel, fd: u64, buf: u64, len: usize, ch: u8) -> (r: SysResult)
    requires
        old(kernel).wf(),
        old(kernel).processor.spec_current() is Some,
        fd == FD_STDIN,
        len == 1,
    ensures
        final(kernel).wf(),
        read_result(final(kernel), old(kernel), buf, ch, r),
{
    if ch == 0 {
        kernel.suspend_current_and_run_next();
        return SysResult::Again;
    }
    let mut data: Vec<u8> = Vec::new();
    data.push(ch);
    if kernel.write_current(buf, &data) {
        proof {
            assert(kernel.current_space().spec_bytes(buf, 1)[0] == ch);
            assert forall|a: u64| a != buf implies #[trigger] kernel.current_space().spec_byte(a) == old(
                kernel,
            ).current_space().spec_byte(a) by {}
        }
        SysResult::Value(1)
    } else {
        let action = kernel.exit_current_and_run_next(EXIT_MEMORY_FAULT);
        SysResult::Killed(action)
    }
}

} // verus!
