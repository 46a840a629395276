//! Core of a small supervisor-mode kernel for 64-bit RISC-V with SV39 paging:
//! address spaces, page tables, frame and pid allocation, task lifecycle and
//! round-robin scheduling, each with a machine-checked contract.

pub mod config;
pub mod mm;
pub mod task;
pub mod trap;
pub mod syscall;
pub mod timer;
pub mod batch;
pub mod sync;
pub mod user;
