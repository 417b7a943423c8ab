//! A small kernel for an ARM Cortex-M3: a first-fit heap allocator over a
//! free list of chunk headers, a round-robin scheduler for two tasks, and a
//! UART console with a tiny command interpreter.

use vstd::prelude::*;

pub mod builtin;
pub mod chunk;
pub mod console;
pub mod heap_allocator;
pub mod kernel;
pub mod sched;
pub mod text;
pub mod uart;
pub mod util;

verus! {

} // verus!
