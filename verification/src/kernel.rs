//! The kernel task's busy loop, which yields the processor now and then.

use vstd::prelude::*;

verus! {

/// The kernel task's counter before it adds its two boxed values.
pub const KERNEL_COUNTER_START: u32 = 0xffff_ff00;

/// The kernel task yields when its counter is a multiple of this.
pub const KERNEL_YIELD_PERIOD: u32 = 1000;

/// One round of the kernel task's loop on counter `x`: whether to yield
/// the processor, and the next counter (wrapping around).
pub fn kernel_step(x: u32) -> (r: (bool, u32))
    ensures
        r.0 == (x % KERNEL_YIELD_PERIOD == 0),
        r.1 == (x + 1) % 0x1_0000_0000,
{
    let switch = x % KERNEL_YIELD_PERIOD == 0;
    (switch, x.wrapping_add(1))
}

/// The kernel task's counter once it has added its two boxed values `a`
/// and `b`.
pub fn kernel_counter(a: u32, b: u32) -> (x: u32)
    requires
        KERNEL_COUNTER_START + a + b <= u32::MAX,
    ensures
        x == KERNEL_COUNTER_START + a + b,
{
    let mut x: u32 = KERNEL_COUNTER_START;
    x = x + a;
    x = x + b;
    x
}

} // verus!
