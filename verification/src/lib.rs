//! Verified core of a small teaching kernel: the banker's-algorithm deadlock
//! detector used by its synchronisation primitives, and the decisions made by
//! its process and synchronisation system calls.
pub mod sync;
pub mod syscall;
