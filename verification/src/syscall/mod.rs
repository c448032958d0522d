//! Decisions taken by the system calls.
pub mod process;
pub mod sync;
