//! The PL011 UART of the LM3S811: its registers and what its flag
//! register says.

use vstd::prelude::*;
use crate::util::bit;

verus! {

/// Base address of UART0 on the LM3S811 evaluation board.
pub const UART0_BASE: u32 = 0x4000_c000;

/// Data register.
pub const UARTDR: u32 = UART0_BASE + 0x0;

/// Flag register.
pub const UARTFR: u32 = UART0_BASE + 0x18;

/// Flag: the transmit FIFO is full.
pub const UARTFR_TXFF: u32 = 1 << 5;

/// Flag: the receive FIFO is empty.
pub const UARTFR_RXFE: u32 = 1 << 4;

/// A byte can be written: the transmit FIFO is not full (bit 5 clear).
pub fn is_writeable(flags: u32) -> (r: bool)
    ensures
        r == !bit(flags, 5),
{
    assert((flags & (1u32 << 5u32) == 0) == !((flags >> 5u32) & 1 == 1)) by (bit_vector);
    flags & UARTFR_TXFF == 0
}

/// A byte can be read: the receive FIFO is not empty (bit 4 clear).
pub fn is_readable(flags: u32) -> (r: bool)
    ensures
        r == !bit(flags, 4),
{
    assert((flags & (1u32 << 4u32) == 0) == !((flags >> 4u32) & 1 == 1)) by (bit_vector);
    flags & UARTFR_RXFE == 0
}

} // verus!
