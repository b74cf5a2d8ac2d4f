use yamaos::console::{cons_getc, Cons};
use yamaos::drivers::uart::{Register, Uart};

#[test]
fn register_offsets() {
    assert_eq!(Register::Rbr.value(), 0);
    assert_eq!(Register::Thr.value(), 0);
    assert_eq!(Register::Dll.value(), 0);
    assert_eq!(Register::Dlm.value(), 1);
    assert_eq!(Register::Ier.value(), 1);
    assert_eq!(Register::Iir.value(), 2);
    assert_eq!(Register::Fcr.value(), 2);
    assert_eq!(Register::Lcr.value(), 3);
    assert_eq!(Register::Mcr.value(), 4);
    assert_eq!(Register::Lsr.value(), 5);
}

#[test]
fn divisor_latch_values() {
    assert_eq!(Register::dlab_on(None), 0x80);
    assert_eq!(Register::dlab_on(Some(0x03)), 0x00);
    assert_eq!(Register::dlab_off(Some(0x03)), 0x03);
    assert_eq!(Register::dlab_off(Some(0x83)), 0x03);
    assert_eq!(Register::dlab_off(None), 0x7F);
}

#[test]
fn init_detects_the_port() {
    let mut u = Uart { serial_exists: false };
    u.init(0x60);
    assert!(u.serial_exists);
    u.init(0xFF);
    assert!(!u.serial_exists);
}

#[test]
fn received_data() {
    let mut u = Uart { serial_exists: true };
    assert_eq!(u.serial_proc_data(None), -1);
    assert_eq!(u.serial_proc_data(Some(13)), 10);
    assert_eq!(u.serial_proc_data(Some(10)), 10);
    assert_eq!(u.serial_proc_data(Some(b'k')), b'k' as i32);
    assert_eq!(u.serial_proc_data(Some(0)), 0);
}

#[test]
fn interrupt_fills_the_console() {
    let mut u = Uart { serial_exists: true };
    let mut c = Cons::new();
    u.handle_interrupt(&mut c, &vec![b'o', 0, b'k', 13]);
    assert_eq!(c.wpos, 3);
    assert_eq!(cons_getc(&mut c, None), Some('o'));
    assert_eq!(cons_getc(&mut c, None), Some('k'));
    assert_eq!(cons_getc(&mut c, None), Some('\n'));
    assert_eq!(cons_getc(&mut c, None), None);
}

#[test]
fn bytes_to_send() {
    let mut u = Uart { serial_exists: true };
    assert_eq!(u.putc('A'), b'A');
    assert_eq!(u.putc('\x08'), 8);
    assert_eq!(u.putc('\x7F'), 8);
    assert_eq!(u.print("a\x7fb\x08"), vec![b'a', 8, b'b', 8]);
    assert_eq!(u.print(""), Vec::<u8>::new());
}
