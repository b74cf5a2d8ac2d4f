use vstd::prelude::*;
use crate::drivers::kbc::KEYMAP;

verus! {

/// The character of the make code `keycode` the keyboard delivered.
pub fn getc(keycode: u8) -> (r: char)
    requires
        keycode < 128,
    ensures
        r == KEYMAP@[keycode as int],
{
    KEYMAP[keycode as usize]
}

} // verus!
