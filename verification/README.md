# Laurel kernel library

The logic of a small hobby kernel for an ARM Cortex-M3 (LM3S811), verified
with Verus.

- `src/chunk.rs`: the heap allocator: a first-fit free list of chunk
  headers, kept in address order, split on allocation and joined with its
  free neighbours on release. The heap's headers are modelled as a map from
  address to header; contracts speak of the free chunks as (address, size)
  in list order and of the used chunks as a map from address to (size,
  slack).
- `src/heap_allocator.rs`: the kernel allocator over a heap region.
- `src/sched.rs`: tick counting, the two-task round-robin switch and the
  tasks' first exception frames.
- `src/console.rs`, `src/builtin/`: the UART console loop as a step
  function, and its commands (`:` and `ps`).
- `src/text.rs`: building console text.
- `src/uart.rs`, `src/util.rs`, `src/kernel.rs`: UART flags, alignment,
  register bit updates, byte comparison, the kernel task's loop step.
- `app/main.rs`: runs the kernel on a host with simulated registers and
  UART.
