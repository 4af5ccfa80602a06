//! Kernel-wide constants.

use vstd::prelude::*;

verus! {

/// Number of bits of an address that select a byte inside a page.
pub const PAGE_SIZE_BITS: usize = 12;

/// Size of one page and of one physical frame, in bytes.
pub const PAGE_SIZE: usize = 4096;

/// Number of distinct syscall ids for which invocations are counted.
pub const MAX_SYSCALL_NUM: usize = 500;

/// The stride added to a task of priority 1 each time it is dispatched.
pub const BIG_STRIDE: usize = 1048576;

/// Priority given to a freshly created task.
pub const DEFAULT_PRIORITY: usize = 16;

/// Microseconds in one second.
pub const MICRO_PER_SEC: usize = 1000000;

} // verus!
