//! Machine and kernel constants.
use vstd::prelude::*;

verus! {

/// Size of one virtual-memory page in bytes.
pub const PAGE_SIZE: usize = 4096;

/// First virtual page number above user space; no area reaches past it.
pub const USER_END_VPN: usize = 0x4_0000;

/// First virtual address above user space.
pub const USER_END: usize = 0x4000_0000;

/// Number of distinct system-call numbers that are counted per task.
pub const MAX_SYSCALL_NUM: usize = 500;

/// Base of a program image in a fresh address space.
pub const APP_BASE: usize = 0x10000;

/// Size of a user stack in bytes.
pub const USER_STACK_SIZE: usize = 8192;

/// Largest program image that the loader accepts, in bytes.
pub const MAX_APP_SIZE: usize = 0x100_0000;

/// Stride scheduler constant: a task's stride grows by `BIG_STRIDE / priority`.
pub const BIG_STRIDE: u64 = 0x10_0000;

/// Largest number of tasks that the process table holds.
pub const MAX_TASKS: usize = 0x1_0000;

} // verus!
