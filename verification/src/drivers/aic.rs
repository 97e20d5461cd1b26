//! The decisions of the Apple interrupt controller driver: where an
//! interrupt's bit lives in the banked registers, and how the event register
//! reads.
use vstd::prelude::*;

use crate::drivers::interfaces::interrupt_controller::IrqType;

verus! {

#[derive(Debug)]
pub enum Error {
    NotCompatible,
    InvalidIrqNumber,
    InvalidAdtNode,
}

/// Value of the event register's type field for a fast interrupt.
pub const EVENT_TYPE_FIQ: u32 = 0;

/// Value of the event register's type field for a hardware interrupt.
pub const EVENT_TYPE_HW: u32 = 1;

/// Value of the event register's type field for an inter-processor interrupt.
pub const EVENT_TYPE_IPI: u32 = 4;

/// The interrupt number field: bits 0 to 15.
pub open spec fn event_irq_number(reg: u32) -> u32 {
    reg & 0xffff
}

/// The type field: bits 16 to 23.
pub open spec fn event_type(reg: u32) -> u32 {
    (reg >> 16u32) & 0xff
}

/// The die field: bits 24 to 31.
pub open spec fn event_die(reg: u32) -> u32 {
    reg >> 24u32
}

/// Whether the type field holds one of the three known kinds.
pub open spec fn known_event_type(reg: u32) -> bool {
    event_type(reg) == EVENT_TYPE_FIQ || event_type(reg) == EVENT_TYPE_HW
        || event_type(reg) == EVENT_TYPE_IPI
}

pub open spec fn irq_type_of(field: u32) -> IrqType {
    if field == EVENT_TYPE_FIQ {
        IrqType::FIQ
    } else if field == EVENT_TYPE_HW {
        IrqType::HW
    } else {
        IrqType::IPI
    }
}

/// The register bank and the bit within it of interrupt `irq_number`, on a
/// controller with `num_interrupts` interrupts: interrupt `32 * r + b` is
/// bit `b` of register `r`.
pub fn offset_for_irq_number(irq_number: u32, num_interrupts: u32) -> (result: Result<
    (u32, u32),
    Error,
>)
    ensures
        irq_number >= num_interrupts <==> result matches Err(Error::InvalidIrqNumber),
        result is Ok ==> {
            let (reg, bit) = result->Ok_0;
            &&& reg == irq_number / 32
            &&& bit == irq_number % 32
            &&& bit < 32
            &&& 32 * reg + bit == irq_number
        },
{
    if irq_number >= num_interrupts {
        return Err(Error::InvalidIrqNumber);
    }
    let reg_offset = irq_number / 32;
    let bit_offset = irq_number % 32;
    Ok((reg_offset, bit_offset))
}

/// The value written to a banked register to touch only bit `bit`.
pub fn irq_bit(bit: u32) -> (value: u32)
    requires
        bit < 32,
    ensures
        value == 1u32 << bit,
        value & (1u32 << bit) != 0,
        forall|other: u32| other < 32 && other != bit ==> value & (1u32 << other) == 0,
{
    let value = 1u32 << bit;
    assert(value & (1u32 << bit) != 0) by (bit_vector)
        requires
            value == 1u32 << bit,
            bit < 32,
    ;
    assert forall|other: u32| other < 32 && other != bit implies value & (1u32 << other) == 0 by {
        assert(value & (1u32 << other) == 0) by (bit_vector)
            requires
                value == 1u32 << bit,
                bit < 32,
                other < 32,
                other != bit,
        ;
    }
    value
}

/// Reads the event register: `None` when no interrupt is pending (the
/// register reads zero), else the die, the interrupt number and its kind.
/// The controller only reports the three known kinds.
pub fn get_current_irq(reg: u32) -> (event: Option<(u32, u32, IrqType)>)
    requires
        reg != 0 ==> known_event_type(reg),
    ensures
        reg == 0 <==> event is None,
        reg != 0 ==> event == Some(
            (event_die(reg), event_irq_number(reg), irq_type_of(event_type(reg))),
        ),
{
    if reg == 0 {
        return None;
    }
    let field = (reg >> 16u32) & 0xff;
    let kind = if field == EVENT_TYPE_FIQ {
        IrqType::FIQ
    } else if field == EVENT_TYPE_IPI {
        IrqType::IPI
    } else {
        IrqType::HW
    };
    let number = reg & 0xffff;
    let die = reg >> 24u32;
    Some((die, number, kind))
}

/// The event register a controller would show for an interrupt: the fields
/// packed as `get_current_irq` reads them.
pub open spec fn encode_event(die: u32, number: u32, field: u32) -> u32 {
    (die << 24u32) | (field << 16u32) | number
}

/// Reading an event register written from a die, a number and a kind gives
/// them back, for any die below 256 and number below 65536.
pub proof fn law_event_round_trip(die: u32, number: u32, kind: IrqType)
    requires
        die < 256,
        number < 0x10000,
    ensures
        ({
            let field: u32 = match kind {
                IrqType::FIQ => EVENT_TYPE_FIQ,
                IrqType::HW => EVENT_TYPE_HW,
                IrqType::IPI => EVENT_TYPE_IPI,
            };
            let reg = encode_event(die, number, field);
            &&& event_die(reg) == die
            &&& event_irq_number(reg) == number
            &&& event_type(reg) == field
            &&& known_event_type(reg)
            &&& irq_type_of(event_type(reg)) == kind
        }),
{
    let field: u32 = match kind {
        IrqType::FIQ => 0u32,
        IrqType::HW => 1u32,
        IrqType::IPI => 4u32,
    };
    let reg = encode_event(die, number, field);
    assert(event_die(reg) == die && event_irq_number(reg) == number && event_type(reg) == field)
        by (bit_vector)
        requires
            die < 256,
            number < 0x10000,
            field < 8,
            reg == (die << 24u32) | (field << 16u32) | number,
    ;
}

} // verus!
