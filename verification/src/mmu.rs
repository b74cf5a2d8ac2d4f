use vstd::prelude::*;

verus! {

/// Page directory entries per page directory.
pub const NPDENTRIES: usize = 1024;
/// Page table entries per page table.
pub const NPTENTRIES: usize = 1024;
/// Offset of PTX in a linear address.
pub const PTXSHIFT: usize = 12;
/// Offset of PDX in a linear address.
pub const PDXSHIFT: usize = 22;

/// Present.
pub const PTE_P: u32 = 0x001;
/// Writeable.
pub const PTE_W: u32 = 0x002;
/// User.
pub const PTE_U: u32 = 0x004;
/// Page size.
pub const PTE_PS: u32 = 0x080;

pub const CR0_PE: u32 = 0x00000001;
pub const CR0_MP: u32 = 0x00000002;
pub const CR0_EM: u32 = 0x00000004;
pub const CR0_TS: u32 = 0x00000008;
pub const CR0_ET: u32 = 0x00000010;
pub const CR0_NE: u32 = 0x00000020;
pub const CR0_WP: u32 = 0x00010000;
pub const CR0_AM: u32 = 0x00040000;
pub const CR0_NW: u32 = 0x20000000;
pub const CR0_CD: u32 = 0x40000000;
pub const CR0_PG: u32 = 0x80000000;

/// Bytes mapped by a page.
pub const PGSIZE: usize = 4096;
/// log2(PGSIZE).
pub const PGSHIFT: usize = 12;
/// Bytes mapped by a page directory entry.
pub const PTSIZE: usize = PGSIZE * NPTENTRIES;
/// log2(PTSIZE).
pub const PTSHIFT: usize = PTXSHIFT + PGSHIFT;

/// The page directory index of a linear address: bits 22..32.
pub open spec fn pdx_of(la: int) -> int {
    (la / 4194304) % 1024
}

/// The page table index of a linear address: bits 12..22.
pub open spec fn ptx_of(la: int) -> int {
    (la / 4096) % 1024
}

/// The page number of a linear address.
pub open spec fn pgnum_of(la: int) -> int {
    la / 4096
}

/// An entry with its low twelve flag bits cleared.
pub open spec fn pte_addr_of(pte: int) -> int {
    pte - pte % 4096
}

pub fn pdx(la: usize) -> (r: usize)
    ensures
        r == pdx_of(la as int),
{
    let r = (la >> 22usize) & 0x3FF;
    assert(((la >> 22usize) & 0x3FF) == (la / 4194304) % 1024) by (bit_vector);
    r
}

pub fn ptx(la: usize) -> (r: usize)
    ensures
        r == ptx_of(la as int),
{
    let r = (la >> 12usize) & 0x3FF;
    assert(((la >> 12usize) & 0x3FF) == (la / 4096) % 1024) by (bit_vector);
    r
}

pub fn pgnum(la: usize) -> (r: usize)
    ensures
        r == pgnum_of(la as int),
{
    let r = la >> 12usize;
    assert((la >> 12usize) == la / 4096) by (bit_vector);
    r
}

pub fn pte_addr(pte: u32) -> (r: u32)
    ensures
        r == pte_addr_of(pte as int),
{
    let r = pte & !0xFFFu32;
    assert((pte & !0xFFFu32) == pte - pte % 4096) by (bit_vector);
    r
}

/// A 32-bit linear address is its directory index, its table index and its
/// page offset put back together.
pub proof fn lemma_linear_address_decomposition(la: u32)
    ensures
        la as int == pdx_of(la as int) * 4194304 + ptx_of(la as int) * 4096 + la as int % 4096,
        pgnum_of(la as int) == pdx_of(la as int) * 1024 + ptx_of(la as int),
        0 <= pdx_of(la as int) < 1024,
        0 <= ptx_of(la as int) < 1024,
{
    assert(la == (la / 4194304) % 1024 * 4194304 + (la / 4096) % 1024 * 4096 + la % 4096)
        by (bit_vector);
    assert(la / 4096 == (la / 4194304) % 1024 * 1024 + (la / 4096) % 1024) by (bit_vector);
}

/// Clearing the flag bits of an entry gives a page-aligned address no larger
/// than the entry, which keeps all the entry's upper bits.
pub proof fn lemma_pte_addr_aligned(pte: u32)
    ensures
        pte_addr_of(pte as int) % 4096 == 0,
        0 <= pte_addr_of(pte as int) <= pte,
        pte - pte_addr_of(pte as int) < 4096,
        pgnum_of(pte_addr_of(pte as int)) == pgnum_of(pte as int),
{
    assert((pte - pte % 4096) % 4096 == 0) by (bit_vector);
    assert((pte - pte % 4096) / 4096 == pte / 4096) by (bit_vector);
}

} // verus!
