//! Kernel-wide constants: page geometry, the stride-scheduler base, and the
//! syscall identifier table.
use vstd::prelude::*;

verus! {

/// Size of one virtual page in bytes.
pub const PAGE_SIZE: usize = 4096;

/// Number of syscall identifiers tracked per task in its invocation table.
pub const MAX_SYSCALL_NUM: usize = 500;

/// Base constant of the stride scheduler: a dispatched task's stride grows by
/// `BIG_STRIDE / priority`.  With priority at least 2 every pass stays at or
/// below `BIG_STRIDE / 2`.
pub const BIG_STRIDE: u64 = 65536;

/// Lowest priority a task may be given; `set_priority` rejects anything below.
pub const MIN_PRIORITY: u64 = 2;

/// Default priority of a freshly created task.
pub const DEFAULT_PRIORITY: u64 = 16;

pub const SYSCALL_EXIT: usize = 93;
pub const SYSCALL_YIELD: usize = 124;
pub const SYSCALL_SET_PRIORITY: usize = 140;
pub const SYSCALL_GET_TIME: usize = 169;
pub const SYSCALL_GETPID: usize = 172;
pub const SYSCALL_SBRK: usize = 214;
pub const SYSCALL_MUNMAP: usize = 215;
pub const SYSCALL_FORK: usize = 220;
pub const SYSCALL_EXEC: usize = 221;
pub const SYSCALL_MMAP: usize = 222;
pub const SYSCALL_WAITPID: usize = 260;
pub const SYSCALL_SPAWN: usize = 400;
pub const SYSCALL_TASK_INFO: usize = 410;

} // verus!
