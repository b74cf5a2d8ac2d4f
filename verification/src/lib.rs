//! A small i386 kernel core: address arithmetic, the physical page
//! allocator with its page tables, and the console state machines,
//! all specified and proved with Verus.
pub mod console;
pub mod drivers;
pub mod kbc;
pub mod memlayout;
pub mod mmu;
pub mod monitor;
pub mod pmap;
pub mod util;
