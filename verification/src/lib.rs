//! Process-management core of a small single-core teaching kernel.

pub mod config;
pub mod mm;
pub mod syscall;
pub mod task;
