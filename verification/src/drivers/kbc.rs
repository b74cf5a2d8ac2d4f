use vstd::prelude::*;
use crate::console::Cons;

verus! {

pub const KBC_DATA_ADDR: u16 = 0x0060;
pub const KBC_DATA_BIT_IS_BRAKE: u8 = 0x80;
pub const KBC_STATUS_ADDR: u16 = 0x0064;
pub const KBC_STATUS_BIT_OBF: u8 = 0x01;

pub const ASCII_ESC: char = '\x1B';
pub const ASCII_BS: char = '\x08';
pub const ASCII_HT: char = '\x09';

/// The character of each make code of the keyboard (a Japanese layout).
pub const KEYMAP: [char; 128] = [
    '\0', '\x1B', '1', '2', '3', '4', '5', '6',
    '7', '8', '9', '0', '-', '^', '\x08', '\x09',
    'q', 'w', 'e', 'r', 't', 'y', 'u', 'i',
    'o', 'p', '@', '[', '\n', '\0', 'a', 's',
    'd', 'f', 'g', 'h', 'j', 'k', 'l', ';',
    ':', '\0', '\0', ']', 'z', 'x', 'c', 'v',
    'b', 'n', 'm', ',', '.', '/', '\0', '*',
    '\0', ' ', '\0', '\0', '\0', '\0', '\0', '\0',
    '\0', '\0', '\0', '\0', '\0', '\0', '\0', '7',
    '8', '9', '-', '4', '5', '6', '+', '1',
    '2', '3', '0', '.', '\0', '\0', '\0', '\0',
    '\0', '\0', '\0', '\0', '\0', '\0', '\0', '\0',
    '\0', '\0', '\0', '\0', '\0', '\0', '\0', '\0',
    '\0', '\0', '\0', '\0', '\0', '\0', '\0', '\0',
    '\0', '\0', '\0', '_', '\0', '\0', '\0', '\0',
    '\0', '\0', '\0', '\0', '\0', '\\', '\0', '\0',
];

/// The key code in the data the controller delivered, if it is a make
/// code: break codes (high bit set) and no data give none.
pub open spec fn keycode_of(data: Option<u8>) -> Option<u8> {
    match data {
        Some(d) => if d >= 0x80 { None } else { Some(d) },
        None => None,
    }
}

/// The byte the console stores for make code `k`.
pub open spec fn keymap_byte(k: u8) -> u8 {
    KEYMAP@[k as int] as u8
}

/// The make code in `data`, read from the controller when its output
/// buffer was full.
pub fn get_keycode(data: Option<u8>) -> (r: Option<u8>)
    ensures
        r == keycode_of(data),
{
    let keycode;
    if data == None::<u8> {
        return None;
    } else {
        keycode = data.unwrap();
    }
    assert(keycode & 0x80 != 0 <==> keycode >= 0x80) by (bit_vector);
    if keycode & KBC_DATA_BIT_IS_BRAKE != 0 {
        None
    } else {
        Some(keycode)
    }
}

/// Stores the character of the make code in `data`, if any, in the
/// console ring.
pub fn kbc_intr(cons: &mut Cons, data: Option<u8>)
    requires
        old(cons)@.wf(),
    ensures
        final(cons)@.wf(),
        final(cons)@ == old(cons)@.keyed(data),
        forall|k: u8| data == Some(k) && k < 0x80 ==> {
            &&& final(cons)@.buf == old(cons)@.buf.update(old(cons)@.wpos as int, KEYMAP@[k as int] as u8)
            &&& final(cons)@.wpos == (old(cons)@.wpos + 1) % 512
            &&& final(cons)@.rpos == old(cons)@.rpos
        },
        (data is None || data->0 >= 0x80) ==> final(cons)@ == old(cons)@,
{
    match get_keycode(data) {
        Some(c) => {
            let ch = KEYMAP[c as usize];
            cons.put(ch as u8);
        },
        None => {},
    }
}

} // verus!
