//! The syscalls.

pub mod process;
