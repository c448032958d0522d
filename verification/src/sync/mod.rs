//! Synchronisation support.
pub mod banker_effects;
pub mod banker_state;
pub mod deadlock_detection;
