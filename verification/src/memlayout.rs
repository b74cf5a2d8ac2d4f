use vstd::prelude::*;
use crate::mmu::{PGSIZE, PTSIZE};

verus! {

pub type PageTableEntry = u32;
pub type PageDirEntry = u32;
pub type PteT = u32;
pub type PdeT = u32;

/// All physical memory is mapped at this virtual address.
pub const KERNBASE: usize = 0xF0000000;

/// Start of the IO hole in physical memory.
pub const IOPHYSMEM: usize = 0x0A0000;
/// End of the IO hole, start of extended memory.
pub const EXTPHYSMEM: usize = 0x100000;

/// Top of the kernel stack.
pub const KSTACKTOP: usize = KERNBASE;
/// Size of a kernel stack.
pub const KSTKSIZE: usize = 8 * PGSIZE;
/// Size of a kernel stack guard.
pub const KSTKGAP: usize = 8 * PGSIZE;

/// Limit of the memory-mapped IO region.
pub const MMIOLIM: usize = KSTACKTOP - PTSIZE;
/// Base of the memory-mapped IO region.
pub const MMIOBASE: usize = MMIOLIM - PTSIZE;
/// Highest user-accessible address.
pub const ULIM: usize = MMIOBASE;
/// User read-only virtual page table.
pub const UVPT: usize = ULIM - PTSIZE;
/// User read-only copies of the page descriptors.
pub const UPAGES: usize = UVPT - PTSIZE;
/// User read-only copies of the global environment structures.
pub const UENVS: usize = UPAGES - PTSIZE;

/// The descriptor of one physical page: the next page on the free list (by
/// its index in the page array) and the number of references to the page.
#[derive(Clone, Copy, Debug)]
pub struct PageInfo {
    pub pp_link: Option<usize>,
    pub pp_ref: u16,
}

} // verus!
