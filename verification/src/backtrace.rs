//! Naming the addresses of a stack trace.
pub mod ksyms;
