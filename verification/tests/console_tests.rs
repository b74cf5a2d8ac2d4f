use yamaos::console::{cons_getc, Cons, CONSBUFSIZE};
use yamaos::drivers::kbc::{get_keycode, kbc_intr, KEYMAP};
use yamaos::kbc::getc;
use yamaos::monitor::{monitor_prompt, monitor_step};

#[test]
fn new_ring_is_empty() {
    let mut c = Cons::new();
    assert_eq!(c.buf.len(), CONSBUFSIZE);
    assert!(c.buf.iter().all(|&b| b == b'0'));
    assert_eq!(cons_getc(&mut c, None), None);
}

#[test]
fn keycodes() {
    assert_eq!(get_keycode(None), None);
    assert_eq!(get_keycode(Some(0x1E)), Some(0x1E));
    assert_eq!(get_keycode(Some(0x9E)), None);
    assert_eq!(get_keycode(Some(0x80)), None);
    assert_eq!(get_keycode(Some(0x7F)), Some(0x7F));
}

#[test]
fn keymap_lookup() {
    assert_eq!(getc(0x1E), 'a');
    assert_eq!(getc(0x02), '1');
    assert_eq!(getc(0x1C), '\n');
    assert_eq!(getc(0x39), ' ');
    assert_eq!(getc(0x0E), '\x08');
    assert_eq!(getc(0x7D), '\\');
    assert_eq!(getc(0x00), '\0');
    assert_eq!(KEYMAP[0x10], 'q');
}

#[test]
fn keys_come_back_in_order() {
    let mut c = Cons::new();
    kbc_intr(&mut c, Some(0x23));
    kbc_intr(&mut c, Some(0x9E));
    kbc_intr(&mut c, None);
    kbc_intr(&mut c, Some(0x17));
    assert_eq!(c.wpos, 2);
    assert_eq!(cons_getc(&mut c, None), Some('h'));
    assert_eq!(cons_getc(&mut c, Some(0x1E)), Some('i'));
    assert_eq!(cons_getc(&mut c, None), Some('a'));
    assert_eq!(cons_getc(&mut c, None), None);
    assert_eq!(c.rpos, c.wpos);
}

#[test]
fn ring_wraps() {
    let mut c = Cons::new();
    c.rpos = 511;
    c.wpos = 511;
    c.put(b'x');
    assert_eq!(c.wpos, 0);
    assert_eq!(c.buf[511], b'x');
    assert_eq!(cons_getc(&mut c, None), Some('x'));
    assert_eq!(c.rpos, 0);
}

#[test]
fn monitor_backspace_and_newline() {
    let mut c = Cons::new();
    monitor_prompt(&mut c);
    assert_eq!((c.rpos, c.wpos), (2, 2));
    let out = monitor_step(&mut c, 'a');
    assert_eq!(out.echo, Some('a'));
    assert!(!out.prompt);
    c.rpos = 5;
    c.wpos = 5;
    let out = monitor_step(&mut c, '\x08');
    assert_eq!(out.echo, Some('\x08'));
    assert_eq!((c.rpos, c.wpos), (3, 3));
    let out = monitor_step(&mut c, '\x08');
    assert_eq!(out.echo, None);
    assert_eq!((c.rpos, c.wpos), (2, 2));
    c.rpos = 7;
    c.wpos = 7;
    let out = monitor_step(&mut c, '\n');
    assert_eq!(out.echo, Some('\n'));
    assert!(out.prompt);
    assert_eq!((c.rpos, c.wpos), (2, 2));
}

#[test]
fn monitor_session_echoes_keys() {
    // Keys typed one by one: each goes through the ring, then to the monitor.
    let keys: Vec<(u8, char)> = vec![
        (0x1E, 'a'), (0x0E, '\x08'), (0x0E, '\x08'), (0x30, 'b'), (0x1C, '\n'), (0x0E, '\x08'), (0x2E, 'c'),
    ];
    let mut c = Cons::new();
    let mut shown: Vec<char> = vec!['K', '>'];
    monitor_prompt(&mut c);
    for (code, ch) in keys.iter() {
        let got = cons_getc(&mut c, Some(*code));
        assert_eq!(got, Some(*ch));
        let out = monitor_step(&mut c, *ch);
        if let Some(e) = out.echo {
            shown.push(e);
        }
        if out.prompt {
            shown.push('K');
            shown.push('>');
        }
    }
    let without_bs: Vec<char> = shown.iter().copied().filter(|&x| x != '\x08').collect();
    assert_eq!(without_bs, vec!['K', '>', 'a', 'b', '\n', 'K', '>', 'c']);
    assert_eq!(shown, vec!['K', '>', 'a', '\x08', 'b', '\n', 'K', '>', 'c']);
}
