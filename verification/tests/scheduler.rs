use lib::sched::{Scheduler, Tcb, INITIAL_XPSR};

#[test]
fn reset_state() {
    let _t = Tcb::new(0x2000_0100);
    let s = Scheduler::new();
    assert_eq!(s.current_task(), 0);
    assert_eq!(s.saved_stack_pointer(0), 0xaaaa_aaaa);
    assert_eq!(s.saved_stack_pointer(1), 0xbbbb_bbbb);
}

#[test]
fn systick_asks_for_a_switch_every_tenth_tick() {
    let mut s = Scheduler::new();
    let mut switches: Vec<u32> = Vec::new();
    for tick in 1..=30u32 {
        if s.systick_exception() {
            switches.push(tick);
        }
    }
    // The counter starts at 0xffff_ff00, which is 4294967040.
    assert_eq!(switches, vec![10, 20, 30]);
}

#[test]
fn systick_wraps_around() {
    let mut s = Scheduler::new();
    let mut switches: Vec<u32> = Vec::new();
    for tick in 1..=256u32 {
        if s.systick_exception() {
            switches.push(tick);
        }
    }
    // 0xffff_ff00 + 250 = 4294967290 is a multiple of ten; 256 ticks wrap to 0.
    assert_eq!(switches.last(), Some(&256));
    assert!(switches.contains(&250));
}

#[test]
fn two_switches_return_to_the_first_task() {
    let mut s = Scheduler::new();
    assert_eq!(s.pendsv_exception(0x2000_0100), (0xbbbb_bbbb, 0xbbbb_bbdb));
    assert_eq!(s.current_task(), 1);
    assert_eq!(s.saved_stack_pointer(0), 0x2000_0100);
    assert_eq!(s.pendsv_exception(0x2000_0200), (0x2000_0100, 0x2000_0120));
    assert_eq!(s.current_task(), 0);
    assert_eq!(s.saved_stack_pointer(1), 0x2000_0200);
    assert_eq!(s.pendsv_exception(0x2000_0300), (0x2000_0200, 0x2000_0220));
}

#[test]
fn switch_wraps_the_restore_address() {
    let mut s = Scheduler::new();
    s.pendsv_exception(0xffff_fff0);
    assert_eq!(s.pendsv_exception(0x2000_0000), (0xffff_fff0, 0x10));
}

#[test]
fn task_init_writes_the_first_frames() {
    let mut s = Scheduler::new();
    let mut kernel_stack = vec![0xdead_beefu32; 512];
    let mut console_stack = vec![0xeeee_eeeeu32; 1024];
    let psp = s.task_init(
        &mut kernel_stack,
        0x2000_0000,
        &mut console_stack,
        0x2000_1000,
        0x0000_0101,
        0x0000_0201,
        0x0000_0301,
    );
    assert_eq!(psp, 0x2000_0000 + 4 * 504);
    assert_eq!(&kernel_stack[509..], &[0x300, 0x100, INITIAL_XPSR]);
    assert_eq!(kernel_stack[508], 0xdead_beef);
    assert_eq!(&console_stack[1021..], &[0x300, 0x200, INITIAL_XPSR]);
    // The first switch to the console task pops r4-r11 from 16 words below
    // its stack's top.
    assert_eq!(s.pendsv_exception(psp), (0x2000_1000 + 4 * 1008, 0x2000_1000 + 4 * 1016));
}
