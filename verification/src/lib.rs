//! Verified core of a small preemptive-multitasking kernel: the per-core
//! scheduler handoff, the per-task virtual-memory region manager behind
//! `mmap`/`munmap`, user-memory writes through per-page address translation,
//! and the per-task accounting that the process syscalls report.

pub mod config;
pub mod mem;
pub mod processor;
pub mod syscall;
pub mod task;
