//! Exclusive access to kernel-wide state.

pub mod up;
