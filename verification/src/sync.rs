//! Synchronisation.
pub mod spinlock;
