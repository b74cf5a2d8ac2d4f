pub mod kbc;
pub mod uart;
pub mod vga;
