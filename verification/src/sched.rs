//! Round-robin scheduling of two tasks on the Cortex-M3: a tick counter
//! that asks for a switch every tenth SysTick, the context switch that
//! saves one task's stack pointer and picks the other's, and the initial
//! exception frames of the two tasks.

use vstd::prelude::*;
use crate::util::{align_down, power_of_two};

verus! {

/// Number of tasks.
pub const TASK_COUNT: usize = 2;

/// The tick counter's first value, close to wrapping around.
pub const INITIAL_JIFFIES: u32 = 0xffff_ff00;

/// A switch is asked for when the tick counter is a multiple of this.
pub const TICKS_PER_SLICE: u32 = 10;

/// xPSR of a fresh task: only the Thumb bit set.
pub const INITIAL_XPSR: u32 = 0x0100_0000;

/// Bytes popped by the switch for registers r4-r11.
pub const SAVED_REGISTERS_SIZE: u32 = 0x20;

/// A task control block: the task's saved process stack pointer.
pub struct Tcb {
    sp: u32,
}

impl Tcb {
    /// The task's saved stack pointer.
    pub closed spec fn stack_pointer(&self) -> u32 {
        self.sp
    }

    /// A control block whose task resumes with stack pointer `p`.
    pub fn new(p: u32) -> (t: Tcb)
        ensures
            t.stack_pointer() == p,
    {
        Tcb { sp: p }
    }
}

/// The scheduler's state: tick count, the tasks' control blocks and the
/// index of the running task.
pub struct Scheduler {
    jiffies: u32,
    tcbs: Vec<Tcb>,
    current: usize,
}

/// The scheduler's state as plain values: ticks, saved stack pointers by
/// task, running task.
pub struct SchedState {
    pub jiffies: u32,
    pub sps: Seq<u32>,
    pub current: int,
}

/// The state after a SysTick: the counter advances by one, wrapping around.
pub open spec fn state_after_tick(s: SchedState) -> SchedState {
    SchedState {
        jiffies: ((s.jiffies + 1) % 0x1_0000_0000) as u32,
        sps: s.sps,
        current: s.current,
    }
}

/// The state after a switch: the running task's stack pointer is saved and
/// the next task in turn runs.
pub open spec fn state_after_switch(s: SchedState, saved_sp: u32) -> SchedState {
    SchedState {
        jiffies: s.jiffies,
        sps: s.sps.update(s.current, saved_sp),
        current: (s.current + 1) % TASK_COUNT as int,
    }
}

/// Law: a switch makes the other task current, so the running index stays
/// below two and alternates; it saves the given stack pointer for the task
/// that was running and leaves the other task's saved pointer and the tick
/// count as they were.
pub proof fn lemma_switch_alternates(s: SchedState, saved_sp: u32)
    requires
        s.sps.len() == TASK_COUNT,
        0 <= s.current < TASK_COUNT,
    ensures
        ({
            let s1 = state_after_switch(s, saved_sp);
            &&& s1.current == 1 - s.current
            &&& s1.sps.len() == TASK_COUNT
            &&& s1.sps[s.current] == saved_sp
            &&& s1.sps[1 - s.current] == s.sps[1 - s.current]
            &&& s1.jiffies == s.jiffies
        }),
{
}

/// `sp + 0x20` as the switch computes it, in 32-bit signed arithmetic.
pub open spec fn signed_add_fits(sp: u32) -> bool {
    sp < 0x7fff_ffe0 || sp > 0x7fff_ffff
}

impl Scheduler {
    /// The scheduler's state.
    pub closed spec fn view(&self) -> SchedState {
        SchedState {
            jiffies: self.jiffies,
            sps: Seq::new(self.tcbs@.len(), |i: int| self.tcbs@[i].sp),
            current: self.current as int,
        }
    }

    /// Exactly two tasks, one of them running.
    pub open spec fn wf(&self) -> bool {
        self@.sps.len() == TASK_COUNT && 0 <= self@.current < TASK_COUNT
    }

    /// The state at reset: the counter near wrap-around, placeholder stack
    /// pointers, the first task running.
    pub fn new() -> (s: Scheduler)
        ensures
            s.wf(),
            s@.jiffies == INITIAL_JIFFIES,
            s@.sps == seq![0xaaaa_aaaau32, 0xbbbb_bbbbu32],
            s@.current == 0,
    {
        let mut tcbs: Vec<Tcb> = Vec::new();
        tcbs.push(Tcb::new(0xaaaa_aaaa));
        tcbs.push(Tcb::new(0xbbbb_bbbb));
        let s = Scheduler { jiffies: INITIAL_JIFFIES, tcbs, current: 0 };
        assert(s@.sps =~= seq![0xaaaa_aaaau32, 0xbbbb_bbbbu32]);
        s
    }

    /// The index of the running task.
    pub fn current_task(&self) -> (r: usize)
        requires
            self.wf(),
        ensures
            r == self@.current,
            r < TASK_COUNT,
    {
        self.current
    }

    /// The stack pointer saved for `task`.
    pub fn saved_stack_pointer(&self, task: usize) -> (r: u32)
        requires
            self.wf(),
            task < TASK_COUNT,
        ensures
            r == self@.sps[task as int],
    {
        self.tcbs[task].sp
    }

    /// Counts a SysTick and tells whether the running task's slice is over.
    pub fn systick_exception(&mut self) -> (switch: bool)
        requires
            old(self).wf(),
        ensures
            final(self).wf(),
            final(self)@ == state_after_tick(old(self)@),
            switch == (final(self)@.jiffies % TICKS_PER_SLICE == 0),
    {
        self.jiffies = self.jiffies.wrapping_add(1);
        assert(self@.sps =~= old(self)@.sps);
        self.jiffies % TICKS_PER_SLICE == 0
    }

    /// Switches tasks: saves `saved_sp`, the running task's stack pointer
    /// after r4-r11 were pushed, makes the next task current, and returns
    /// where to pop its r4-r11 from and its process stack pointer after
    /// that pop.
    pub fn pendsv_exception(&mut self, saved_sp: u32) -> (r: (u32, u32))
        requires
            old(self).wf(),
            signed_add_fits(
                state_after_switch(old(self)@, saved_sp).sps[state_after_switch(
                    old(self)@,
                    saved_sp,
                ).current],
            ),
        ensures
            final(self).wf(),
            final(self)@ == state_after_switch(old(self)@, saved_sp),
            r.0 == final(self)@.sps[final(self)@.current],
            r.1 == (r.0 + SAVED_REGISTERS_SIZE) % 0x1_0000_0000,
    {
        let cur = self.current;
        self.tcbs.set(cur, Tcb { sp: saved_sp });
        self.current = (self.current + 1) % TASK_COUNT;
        let sp = self.tcbs[self.current].sp;
        let r_sp = Self::restore_offset(sp);
        assert(self@.sps =~= state_after_switch(old(self)@, saved_sp).sps);
        (sp, r_sp)
    }

    /// `sp + 0x20` modulo `2^32`, computed as the switch does on the stack pointer read
    /// as a signed 32-bit value.
    fn restore_offset(sp: u32) -> (r: u32)
        requires
            signed_add_fits(sp),
        ensures
            r == (sp + SAVED_REGISTERS_SIZE) % 0x1_0000_0000,
    {
        let signed = sp as i32;
        assert(signed as int <= i32::MAX - 0x20) by (bit_vector)
            requires
                sp < 0x7fff_ffe0u32 || sp > 0x7fff_ffffu32,
                signed == sp as i32,
        ;
        assert(((signed + 0x20) as u32) as int == (sp as int + 0x20) % 0x1_0000_0000) by (bit_vector)
            requires
                sp < 0x7fff_ffe0u32 || sp > 0x7fff_ffffu32,
                signed == sp as i32,
        ;
        (signed + 0x20) as u32
    }

    /// Prepares both tasks' first exception frames and returns the kernel
    /// task's initial process stack pointer. Each stack's top words get the
    /// xPSR, the entry point and the return address (both with the Thumb bit
    /// cleared); the console task's saved stack pointer leaves room below its
    /// frame for the r4-r11 that the first switch pops.
    pub fn task_init(
        &mut self,
        kernel_stack: &mut Vec<u32>,
        kernel_stack_base: u32,
        console_stack: &mut Vec<u32>,
        console_stack_base: u32,
        kernel_entry: usize,
        console_entry: usize,
        finished: usize,
    ) -> (psp: u32)
        requires
            old(self).wf(),
            old(kernel_stack).len() >= 8,
            old(console_stack).len() >= 16,
            kernel_stack_base + 4 * old(kernel_stack).len() <= u32::MAX,
            console_stack_base + 4 * old(console_stack).len() <= u32::MAX,
        ensures
            final(self).wf(),
            final(kernel_stack)@ == initial_frame(old(kernel_stack)@, kernel_entry, finished),
            final(console_stack)@ == initial_frame(old(console_stack)@, console_entry, finished),
            psp == kernel_stack_base + 4 * (old(kernel_stack).len() - 8),
            final(self)@ == (SchedState {
                sps: old(self)@.sps.update(
                    1,
                    (console_stack_base + 4 * (old(console_stack).len() - 16)) as u32,
                ),
                ..old(self)@
            }),
    {
        let kernel_len = kernel_stack.len();
        write_initial_frame(kernel_stack, kernel_entry, finished);
        let psp = kernel_stack_base + 4 * (kernel_len - 8) as u32;

        let console_len = console_stack.len();
        write_initial_frame(console_stack, console_entry, finished);
        self.tcbs.set(1, Tcb { sp: console_stack_base + 4 * (console_len - 16) as u32 });
        assert(self@.sps =~= old(self)@.sps.update(
            1,
            (console_stack_base + 4 * (console_len - 16)) as u32,
        ));
        psp
    }
}

/// A stack whose top three words hold a fresh task's xPSR, entry point and
/// return address, the two addresses with the Thumb bit cleared.
pub open spec fn initial_frame(stack: Seq<u32>, entry: usize, finished: usize) -> Seq<u32> {
    stack.update(stack.len() - 1, INITIAL_XPSR).update(
        stack.len() - 2,
        (entry - entry % 2) as u32,
    ).update(stack.len() - 3, (finished - finished % 2) as u32)
}

/// Writes a fresh task's exception frame at the top of `stack`.
fn write_initial_frame(stack: &mut Vec<u32>, entry: usize, finished: usize)
    requires
        old(stack).len() >= 3,
    ensures
        final(stack)@ == initial_frame(old(stack)@, entry, finished),
{
    proof {
        vstd::arithmetic::power2::lemma2_to64();
        assert(vstd::arithmetic::power2::pow2(1) == 2);
        assert(power_of_two(2));
    }
    let len = stack.len();
    stack.set(len - 1, INITIAL_XPSR);
    stack.set(len - 2, align_down(entry, 2) as u32);
    stack.set(len - 3, align_down(finished, 2) as u32);
}

/// Law: two switches in a row bring the first task back, with the stack
/// pointer that it saved; the other task's saved pointer is the one handed
/// to the second switch.
pub proof fn lemma_two_switches_return(s: SchedState, first_sp: u32, second_sp: u32)
    requires
        s.sps.len() == TASK_COUNT,
        0 <= s.current < TASK_COUNT,
    ensures
        ({
            let s2 = state_after_switch(state_after_switch(s, first_sp), second_sp);
            &&& s2.current == s.current
            &&& s2.sps[s.current] == first_sp
            &&& s2.sps[(s.current + 1) % 2] == second_sp
            &&& s2.jiffies == s.jiffies
        }),
{
}

/// The tick counter after `k` more SysTicks, starting from `jiffies`.
pub open spec fn jiffies_after(jiffies: u32, k: int) -> int {
    (jiffies + k) % 0x1_0000_0000
}

/// Law: whatever the count, within the next ten SysTicks one asks for a
/// switch, so no task runs longer than one slice (the counter wraps at
/// `2^32`, which is not a multiple of ten, so a slice can be shorter there).
pub proof fn lemma_switch_within_slice(jiffies: u32)
    ensures
        exists|k: int|
            1 <= k <= TICKS_PER_SLICE && #[trigger] jiffies_after(jiffies, k) % TICKS_PER_SLICE as int
                == 0,
{
    let j1 = jiffies_after(jiffies, 1);
    let k = 1 + (TICKS_PER_SLICE - j1 % TICKS_PER_SLICE as int) % TICKS_PER_SLICE as int;
    if j1 == 0 {
        assert(jiffies_after(jiffies, 1) % TICKS_PER_SLICE as int == 0);
    } else {
        assert(jiffies + 1 <= u32::MAX);
        if j1 % 10 == 0 {
            assert(jiffies_after(jiffies, 1) % TICKS_PER_SLICE as int == 0);
        } else if jiffies + k <= u32::MAX {
            assert(jiffies_after(jiffies, k) % TICKS_PER_SLICE as int == 0);
        } else {
            assert(jiffies_after(jiffies, 0x1_0000_0000 - jiffies) == 0);
            assert(jiffies_after(jiffies, 0x1_0000_0000 - jiffies) % TICKS_PER_SLICE as int == 0);
        }
    }
}

/// The state after `k` SysTicks.
pub open spec fn state_after_ticks(s: SchedState, k: nat) -> SchedState
    decreases k,
{
    if k == 0 {
        s
    } else {
        state_after_tick(state_after_ticks(s, (k - 1) as nat))
    }
}

/// Law: after any number `k` of SysTicks the counter has advanced by
/// exactly `k`, wrapping around at `2^32`, and nothing else has changed; so a
/// switch is asked for on tick `k` exactly when `jiffies + k` is, modulo
/// `2^32`, a multiple of ten.
pub proof fn lemma_ticks_count(s: SchedState, k: nat)
    ensures
        state_after_ticks(s, k).jiffies == jiffies_after(s.jiffies, k as int),
        state_after_ticks(s, k).sps == s.sps,
        state_after_ticks(s, k).current == s.current,
    decreases k,
{
    if k > 0 {
        lemma_ticks_count(s, (k - 1) as nat);
        let j = jiffies_after(s.jiffies, k - 1);
        vstd::arithmetic::div_mod::lemma_add_mod_noop(s.jiffies + k - 1, 1, 0x1_0000_0000);
        assert((j + 1) % 0x1_0000_0000 == jiffies_after(s.jiffies, k as int));
    } else {
        assert(jiffies_after(s.jiffies, 0) == s.jiffies);
    }
}

/// Law: a fresh task's frame leaves the stack below its top three words as
/// it was, puts the xPSR on top, and below it the entry and return
/// addresses (truncated to 32 bits) with only the Thumb bit, bit 0, cleared:
/// each word is even and lies at most one below its address.
pub proof fn lemma_initial_frame(stack: Seq<u32>, entry: usize, finished: usize)
    requires
        stack.len() >= 3,
    ensures
        ({
            let f = initial_frame(stack, entry, finished);
            let n = stack.len() as int;
            &&& f.len() == n
            &&& forall|i: int| 0 <= i < n - 3 ==> #[trigger] f[i] == stack[i]
            &&& f[n - 1] == INITIAL_XPSR
            &&& f[n - 2] % 2 == 0 && f[n - 2] <= entry as u32 && entry as u32 - f[n - 2] <= 1
            &&& f[n - 3] % 2 == 0 && f[n - 3] <= finished as u32 && finished as u32 - f[n - 3] <= 1
        }),
{
    lemma_clear_thumb_bit(entry);
    lemma_clear_thumb_bit(finished);
}

/// Clearing bit 0 of an address and truncating it to 32 bits is truncating
/// it and then clearing bit 0.
proof fn lemma_clear_thumb_bit(e: usize)
    ensures
        ((e - e % 2) as u32) as int == (e as u32) - (e as u32) % 2,
{
    assert(((e - e % 2) as u32) as int == (e as u32) - (e as u32) % 2) by (bit_vector);
}

} // verus!
