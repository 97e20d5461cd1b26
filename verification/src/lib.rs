//! Verified core of the p1c0 kernel: checksums, collections, binary format
//! parsers, memory bookkeeping and page-table management.

pub mod crc;
pub mod elf;
pub mod arch;
pub mod memory;
pub mod hash;
pub mod collections;
pub mod strings;
pub mod filesystem;
pub mod stripper;
pub mod backtrace;
pub mod drivers;
pub mod log;
pub mod process;
pub mod thread;
pub mod sync;
pub mod print;

