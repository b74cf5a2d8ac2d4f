use yamaos::mmu::{pdx, pgnum, pte_addr, ptx, PGSIZE, PTSIZE};
use yamaos::util::types::{rounddown, roundup};

#[test]
fn pdx_of_kernbase() {
    assert_eq!(pdx(0xF000_0000), 960);
    assert_eq!(pdx(0xEF40_0000), 957);
    assert_eq!(pdx(0xFFFF_FFFF), 1023);
    assert_eq!(pdx(0), 0);
}

#[test]
fn ptx_and_pgnum() {
    assert_eq!(ptx(0xF012_3456), 0x123);
    assert_eq!(ptx(0xEFFF_8000), 1016);
    assert_eq!(pgnum(0x0000_5000), 5);
    assert_eq!(pgnum(0x0000_5FFF), 5);
    assert_eq!(pgnum(0xF000_0000), 0xF0000);
}

#[test]
fn pte_addr_clears_flags() {
    assert_eq!(pte_addr(0x1234_5FFF), 0x1234_5000);
    assert_eq!(pte_addr(0x0011_8005), 0x0011_8000);
    assert_eq!(pte_addr(0xFFF), 0);
}

#[test]
fn linear_address_reassembles() {
    let la: usize = 0xDEAD_BEEF;
    assert_eq!(pdx(la) * PTSIZE + ptx(la) * PGSIZE + la % PGSIZE, la);
    assert_eq!(pgnum(la), pdx(la) * 1024 + ptx(la));
}

#[test]
fn rounding() {
    assert_eq!(roundup(0xF011_7950, 4096), 0xF011_8000);
    assert_eq!(roundup(0xF011_8000, 4096), 0xF011_8000);
    assert_eq!(roundup(1, 4096), 4096);
    assert_eq!(roundup(0, 4096), 0);
    assert_eq!(roundup(10, 3), 12);
    assert_eq!(rounddown(0xF010_8123, 4096), 0xF010_8000);
    assert_eq!(rounddown(10, 3), 9);
    assert_eq!(rounddown(9, 3), 9);
}
