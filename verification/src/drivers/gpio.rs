//! Which pins of a GPIO bank are in use.
use vstd::prelude::*;

verus! {

#[derive(Debug)]
pub enum Error {
    NodeNotCompatible,
    MissingAdtProperty(&'static str),
    InvalidPin,
    PinNotAvailable,
}

/// Most pins a bank can have.
pub const MAX_PINS: usize = 256;

#[derive(Debug, Clone, Copy, PartialEq, Eq, Structural)]
pub enum PinState {
    Low,
    High,
}

/// The value of the data bit for `state`.
pub fn pin_state_value(state: PinState) -> (v: u32)
    ensures
        v == (if state == PinState::High { 1u32 } else { 0u32 }),
{
    match state {
        PinState::Low => 0,
        PinState::High => 1,
    }
}

/// The pins of a bank and which of them are handed out.
pub struct PinTable {
    num_pins: usize,
    taken: Vec<bool>,
}

impl PinTable {
    pub closed spec fn pins(&self) -> nat {
        self.num_pins as nat
    }

    /// Which of the `MAX_PINS` slots are taken.
    pub closed spec fn taken(&self) -> Seq<bool> {
        self.taken@
    }

    pub open spec fn wf(&self) -> bool {
        self.taken().len() == MAX_PINS
    }

    /// A bank of `num_pins` pins, none taken.
    pub fn new(num_pins: usize) -> (table: Self)
        ensures
            table.wf(),
            table.pins() == num_pins,
            forall|i: int| 0 <= i < MAX_PINS ==> !#[trigger] table.taken()[i],
    {
        let mut taken: Vec<bool> = Vec::new();
        let mut i: usize = 0;
        while i < MAX_PINS
            invariant
                i <= MAX_PINS,
                taken@.len() == i,
                forall|j: int| 0 <= j < i ==> !#[trigger] taken@[j],
            decreases MAX_PINS - i,
        {
            taken.push(false);
            i = i + 1;
        }
        Self { num_pins, taken }
    }

    /// Hands out pin `index`: fails on a pin the bank does not have and on
    /// one that is already taken.
    pub fn try_take_pin(&mut self, index: usize) -> (result: Result<(), Error>)
        requires
            old(self).wf(),
            old(self).pins() <= MAX_PINS,
        ensures
            final(self).wf(),
            final(self).pins() == old(self).pins(),
            index >= old(self).pins() ==> (result matches Err(Error::InvalidPin)) && final(self).taken() == old(self).taken(),
            index < old(self).pins() && old(self).taken()[index as int] ==> (result matches Err(Error::PinNotAvailable)) && final(self).taken() == old(self).taken(),
            index < old(self).pins() && !old(self).taken()[index as int] ==> result is Ok && final(self).taken() == old(self).taken().update(index as int, true),
    {
        if index >= self.num_pins {
            return Err(Error::InvalidPin);
        }
        if self.taken[index] {
            return Err(Error::PinNotAvailable);
        }
        self.taken.set(index, true);
        Ok(())
    }

    /// Gives pin `index` back.
    pub fn release_pin(&mut self, index: usize)
        requires
            old(self).wf(),
            index < MAX_PINS,
            old(self).taken()[index as int],
        ensures
            final(self).wf(),
            final(self).pins() == old(self).pins(),
            final(self).taken() == old(self).taken().update(index as int, false),
    {
        self.taken.set(index, false);
    }
}

/// Taking a free pin and giving it back leaves the table as it was.
pub proof fn law_take_release(taken: Seq<bool>, index: int)
    requires
        0 <= index < taken.len(),
        !taken[index],
    ensures
        taken.update(index, true).update(index, false) == taken,
{
    assert(taken.update(index, true).update(index, false) =~= taken);
}

} // verus!
