//! The decisions behind driving the two cascaded 8259 interrupt controllers:
//! which controller and line serve an IRQ, how its mask changes, when an IRQ
//! may be spurious, and which controllers get an end-of-interrupt. The port
//! reads and writes themselves belong to whoever owns the hardware.

use vstd::prelude::*;

verus! {

/// The CPU interrupt vector of IRQ 0.
pub const IRQ_INTERRUPT_OFFSET: u8 = 32;

/// The number of IRQs each controller serves.
pub const IRQS_PER_PIC: u8 = 8;

/// The command that makes a controller's data port read back its in-service
/// register.
pub const PIC_COMMAND_READ_ISR: u8 = 0x0b;

/// The end-of-interrupt command.
pub const PIC_COMMAND_ACKNOWLEDGE_IRQ: u8 = 0x20;

/// The controller serving `irq_num` (0 for the primary, 1 for the secondary)
/// and the line it arrives on there.
pub fn irq_chip_and_line(irq_num: u8) -> (r: (u8, u8))
    requires
        irq_num < 16,
    ensures
        r.0 == (if irq_num < 8 {
            0u8
        } else {
            1u8
        }),
        r.1 == irq_num - 8 * r.0,
        r.1 < 8,
{
    let chip: u8 = if irq_num < 8 {
        0
    } else {
        1
    };
    (chip, irq_num - 8 * chip)
}

/// A controller's IRQ mask after masking (`set`) or unmasking line
/// `irq_line`: that one bit set or cleared, the others as in `old_mask`.
pub fn updated_mask(old_mask: u8, irq_line: u8, set: bool) -> (r: u8)
    requires
        irq_line < 8,
    ensures
        r == (if set {
            old_mask | (1u8 << irq_line)
        } else {
            old_mask & !(1u8 << irq_line)
        }),
{
    if set {
        old_mask | (1u8 << irq_line)
    } else {
        old_mask & !(1u8 << irq_line)
    }
}

/// Only IRQ 7 and IRQ 15 can be spurious. For those, the controller whose
/// in-service register must be read to tell (0 for IRQ 7, 1 for IRQ 15);
/// any other IRQ is genuine without asking.
pub fn spurious_check_chip(irq_num: u8) -> (r: Option<u8>)
    ensures
        r == (if irq_num == 7 {
            Some(0u8)
        } else if irq_num == 15 {
            Some(1u8)
        } else {
            None::<u8>
        }),
{
    if irq_num == 7 {
        Some(0)
    } else if irq_num == 15 {
        Some(1)
    } else {
        None
    }
}

/// Whether the in-service register `isr`, read for IRQ 7 or 15, marks the
/// IRQ spurious: its top bit is set.
pub fn isr_marks_spurious(isr: u8) -> (r: bool)
    ensures
        r == (isr & 0x80 != 0),
{
    isr & 0x80 != 0
}

/// Which controllers get an end-of-interrupt for `irq_num`: (secondary,
/// primary). A genuine IRQ is acknowledged at the secondary first when it
/// came from there, then always at the primary. A spurious IRQ is not
/// acknowledged at the controller that raised it, but one from the secondary
/// (IRQ 15) still is at the primary, through which the secondary cascades.
pub fn eoi_chips(irq_num: u8, spurious: bool) -> (r: (bool, bool))
    ensures
        r == (if spurious {
            (false, irq_num == 15)
        } else {
            (irq_num >= 8, true)
        }),
{
    if spurious {
        (false, irq_num == 15)
    } else {
        (irq_num >= 8, true)
    }
}

} // verus!
