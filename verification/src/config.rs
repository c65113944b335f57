//! Platform constants: page geometry and the syscall identifiers of the
//! platform ABI.

use vstd::prelude::*;

verus! {

/// Bytes per virtual-memory page.
pub const PAGE_SIZE: usize = 4096;

/// Upper bound (exclusive) on syscall identifiers; the per-task counter
/// table has one dense slot per identifier.
pub const MAX_SYSCALL_NUM: usize = 500;

/// Syscall identifier of `exit`.
pub const SYSCALL_EXIT: usize = 93;

/// Syscall identifier of `yield`.
pub const SYSCALL_YIELD: usize = 124;

/// Syscall identifier of `get_time`.
pub const SYSCALL_GET_TIME: usize = 169;

/// Syscall identifier of `sbrk`.
pub const SYSCALL_SBRK: usize = 214;

/// Syscall identifier of `munmap`.
pub const SYSCALL_MUNMAP: usize = 215;

/// Syscall identifier of `mmap`.
pub const SYSCALL_MMAP: usize = 222;

/// Syscall identifier of `task_info`.
pub const SYSCALL_TASK_INFO: usize = 410;

} // verus!
