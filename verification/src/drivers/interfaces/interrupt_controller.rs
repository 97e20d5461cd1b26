//! What an interrupt controller reports about the interrupt being taken.
use vstd::prelude::*;

verus! {

/// The kind of a pending interrupt.
#[derive(Debug, Clone, Copy, PartialEq, Eq, Structural)]
pub enum IrqType {
    FIQ,
    HW,
    IPI,
}

} // verus!
