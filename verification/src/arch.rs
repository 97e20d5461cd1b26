//! Architecture support: exception levels, stacks and the page tables.
use vstd::prelude::*;

pub mod mmu;

verus! {

#[derive(Debug, Clone)]
pub enum ExceptionLevel {
    Application,
    OS,
    Hypervisor,
    SecureMonitor,
}

pub enum StackType {
    KernelStack,
    ProcessStack,
}

} // verus!
