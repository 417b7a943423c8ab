use lib::util::{align_down, align_up, memcmp, modify_bits, set_bits};
use lib::uart::{is_readable, is_writeable, UARTFR_RXFE, UARTFR_TXFF};
use lib::kernel::{kernel_counter, kernel_step};

#[test]
fn align_down_rounds_to_multiple() {
    assert_eq!(align_down(0x1234, 0x10), 0x1230);
    assert_eq!(align_down(0x1230, 0x10), 0x1230);
    assert_eq!(align_down(0x0801, 2), 0x0800);
    assert_eq!(align_down(7, 1), 7);
    assert_eq!(align_down(7, 0), 7);
}

#[test]
fn align_up_rounds_to_multiple() {
    assert_eq!(align_up(0x1231, 0x10), 0x1240);
    assert_eq!(align_up(0x1240, 0x10), 0x1240);
    assert_eq!(align_up(1, 4096), 4096);
    assert_eq!(align_up(5, 0), 4);
}

#[test]
fn register_bits() {
    assert_eq!(set_bits(0b0101, 0b0010), 0b0111);
    assert_eq!(set_bits(0xe000, 1 << 28), 0x1000_e000);
    assert_eq!(modify_bits(0xff, 0b01_0000, 0b11_0000), 0xdf);
    assert_eq!(modify_bits(0, 0xffff_ffff, 0x0f0), 0x0f0);
}

#[test]
fn byte_comparison() {
    assert_eq!(memcmp(b"abc", b"abc", 3), 0);
    assert_eq!(memcmp(b"abc", b"abd", 3), -1);
    assert_eq!(memcmp(b"b", b"a", 1), 1);
    assert_eq!(memcmp(b"abx", b"aby", 2), 0);
    assert_eq!(memcmp(&[0u8, 255], &[0u8, 0], 2), 255);
    assert_eq!(memcmp(b"", b"", 0), 0);
}

#[test]
fn uart_flags() {
    assert!(is_writeable(0));
    assert!(!is_writeable(UARTFR_TXFF));
    assert!(is_readable(UARTFR_TXFF));
    assert!(!is_readable(UARTFR_RXFE));
    assert!(is_writeable(UARTFR_RXFE));
}

#[test]
fn kernel_loop() {
    assert_eq!(kernel_counter(10, 11), 0xffff_ff15);
    assert_eq!(kernel_step(2000), (true, 2001));
    assert_eq!(kernel_step(1999), (false, 2000));
    assert_eq!(kernel_step(u32::MAX), (false, 0));
}

#[test]
fn rounding_laws() {
    for &align in [1usize, 2, 8, 0x10, 4096].iter() {
        for addr in [0usize, 1, 7, 8, 0x1230, 0x1231, 4095, 4096, 4097].iter().copied() {
            let d = align_down(addr, align);
            let u = align_up(addr, align);
            assert!(d <= addr && addr <= u);
            assert_eq!(u == addr, addr % align == 0);
            assert_eq!(d == addr, addr % align == 0);
            assert_eq!(align_up(u, align), u);
            assert_eq!(align_down(d, align), d);
        }
    }
}
