use yamaos::memlayout::{KERNBASE, UPAGES, UVPT};
use yamaos::mmu::{pdx, PTE_P, PTE_U, PTE_W};
use yamaos::pmap::{nvram_read, paddr, Pmap, ALLOC_ZERO};

const END: u32 = 0xF011_7950;
const STACKTOP: u32 = 0xF011_0000;

/// Zero-filled physical memory of `kib` KiB, as 32-bit words.
fn ram(kib: usize) -> Vec<u32> {
    vec![0u32; kib / 4 * 1024]
}

/// A manager after `mem_init` on a machine with 4 MiB (1024 pages).
fn small() -> Pmap {
    let mut p = Pmap::new(END);
    let total = p.mem_init(639, 3072, 0, ram(4096), STACKTOP);
    assert_eq!(total, 4096);
    p
}

fn lookup(p: &mut Pmap, va: u32) -> Option<u32> {
    let pgdir = p.kern_pgdir();
    p.pgdir_walk(pgdir, va, false).map(|kva| p.read_phys(kva - KERNBASE as u32))
}

#[test]
fn paddr_strips_kernbase() {
    assert_eq!(paddr(0xF000_1000), 0x1000);
    assert_eq!(paddr(0xF000_0000), 0);
    assert_eq!(paddr(0xFFFF_FFFF), 0x0FFF_FFFF);
}

#[test]
fn nvram_read_combines_bytes() {
    assert_eq!(nvram_read(0x7F, 0x02), 0x27F);
    assert_eq!(nvram_read(0, 0), 0);
    assert_eq!(nvram_read(0xFF, 0xFF), 0xFFFF);
}

#[test]
fn detect_memory_branches() {
    let mut p = Pmap::new(END);
    assert_eq!(p.i386_detect_memory(639, 15360, 0, ram(16384)), 16384);
    assert_eq!(p.npages(), 4096);
    assert_eq!(p.npages_basemem(), 159);
    assert_eq!(p.mem_words(), 4096 * 1024);
    let mut q = Pmap::new(END);
    assert_eq!(q.i386_detect_memory(640, 0, 0, ram(640)), 640);
    assert_eq!(q.npages(), 160);
    assert_eq!(q.npages_basemem(), 160);
    let mut r = Pmap::new(END);
    assert_eq!(r.i386_detect_memory(639, 15360, 1, ram(16448)), 16448);
    assert_eq!(r.npages(), 4112);
}

#[test]
fn boot_alloc_rounds_to_pages() {
    let mut p = Pmap::new(END);
    assert_eq!(p.next_free(), 0);
    assert_eq!(p.boot_alloc(0), 0xF011_8000);
    assert_eq!(p.next_free(), 0xF011_8000);
    assert_eq!(p.boot_alloc(100), 0xF011_8000);
    assert_eq!(p.next_free(), 0xF011_9000);
    assert_eq!(p.boot_alloc(4096), 0xF011_9000);
    assert_eq!(p.next_free(), 0xF011_A000);
}

#[test]
fn mem_init_lays_out_memory() {
    let p = small();
    assert_eq!(p.npages(), 1024);
    assert_eq!(p.kern_pgdir(), 0xF011_8000);
    assert_eq!(p.pages_kva(), 0xF011_9000);
    assert_eq!(p.next_free(), 0xF011_B000);
    assert_eq!(p.pages_len(), 1024);
    // The directory maps itself at UVPT, user-readable.
    let slot = 0x0011_8000 + 4 * pdx(UVPT) as u32;
    assert_eq!(p.read_phys(slot), 0x0011_8000 | PTE_U | PTE_P);
}

#[test]
fn mem_init_free_list() {
    let p = small();
    let free = p.free_list();
    // Pages 283..1024 and 2..159, highest first, less the 66 page tables.
    assert_eq!(free.len(), 741 + 157 - 66);
    assert_eq!(free[0], 957);
    assert_eq!(*free.last().unwrap(), 2);
    assert!(!free.contains(&1));
    assert!(!free.contains(&0));
    assert!(!free.contains(&200));
    let used = p.page_info(0);
    assert_eq!(used.pp_ref, 1);
    assert_eq!(used.pp_link, None);
    let io = p.page_info(170);
    assert_eq!(io.pp_ref, 1);
    let table = p.page_info(1023);
    assert_eq!(table.pp_ref, 1);
    let f = p.page_info(957);
    assert_eq!(f.pp_ref, 0);
    assert_eq!(f.pp_link, Some(956));
    p.check_page_free_list();
}

#[test]
fn mem_init_maps_kernbase() {
    let mut p = small();
    assert_eq!(lookup(&mut p, 0xF000_5000), Some(0x5000 | PTE_W | PTE_P));
    assert_eq!(lookup(&mut p, 0xF000_0000), Some(PTE_W | PTE_P));
    assert_eq!(lookup(&mut p, 0xFFFF_F000), Some(0x0FFF_F000 | PTE_W | PTE_P));
    let pgdir = p.kern_pgdir();
    assert_eq!(p.pgdir_walk(pgdir, 0xF000_5000, false), Some(0xF03F_D014));
}

#[test]
fn mem_init_maps_pages_and_stack() {
    let mut p = small();
    assert_eq!(lookup(&mut p, UPAGES as u32), Some(0x0011_9000 | PTE_U | PTE_P));
    assert_eq!(lookup(&mut p, UPAGES as u32 + 0x1000), Some(0x0011_A000 | PTE_U | PTE_P));
    assert_eq!(lookup(&mut p, 0xEFFF_8000), Some(0x0010_8000 | PTE_W | PTE_P));
    assert_eq!(lookup(&mut p, 0xEFFF_F000), Some(0x0010_F000 | PTE_W | PTE_P));
    assert_eq!(lookup(&mut p, 0x0040_0000), None);
}

#[test]
fn walk_creates_a_table_once() {
    let mut p = small();
    let pgdir = p.kern_pgdir();
    assert_eq!(p.pgdir_walk(pgdir, 0x0040_3000, false), None);
    let e = p.pgdir_walk(pgdir, 0x0040_3000, true);
    // Page 957 becomes the table, zeroed and referenced once.
    assert_eq!(e, Some(0xF03B_D00C));
    assert_eq!(p.page_info(957).pp_ref, 1);
    assert_eq!(p.free_list()[0], 956);
    assert_eq!(p.read_phys(0x0011_8000 + 4), 0x003B_D000 | PTE_P | PTE_W | PTE_U);
    assert_eq!(p.pgdir_walk(pgdir, 0x0040_3000, true), e);
    assert_eq!(p.free_list()[0], 956);
    assert_eq!(p.read_phys(0x003B_D00C), 0);
}

#[test]
fn boot_map_region_maps_each_page() {
    let mut p = small();
    let pgdir = p.kern_pgdir();
    p.boot_map_region(pgdir, 0x0080_0000, 3 * 4096, 0x0020_0000, PTE_W | PTE_U);
    assert_eq!(lookup(&mut p, 0x0080_0000), Some(0x0020_0000 | PTE_W | PTE_U | PTE_P));
    assert_eq!(lookup(&mut p, 0x0080_1000), Some(0x0020_1000 | PTE_W | PTE_U | PTE_P));
    assert_eq!(lookup(&mut p, 0x0080_2000), Some(0x0020_2000 | PTE_W | PTE_U | PTE_P));
    assert_eq!(lookup(&mut p, 0x0080_3000), Some(0));
    assert_eq!(p.free_list()[0], 956);
}

#[test]
fn alloc_then_free_restores_the_list() {
    let mut p = small();
    let before = p.free_list();
    let pp = p.page_alloc(0);
    assert_eq!(pp, Some(957));
    assert_eq!(p.free_list()[0], 956);
    assert_eq!(p.page_info(957).pp_link, None);
    p.page_free(957);
    assert_eq!(p.free_list(), before);
}

#[test]
fn alloc_zero_clears_the_page() {
    let mut p = small();
    // Page 0x3BD = 957; its words start at 0x3BD000.
    let pp = p.page_alloc(ALLOC_ZERO).unwrap();
    assert_eq!(pp, 957);
    assert_eq!(p.read_phys(0x003B_D000), 0);
    assert_eq!(p.read_phys(0x003B_DFFC), 0);
}

#[test]
fn decref_frees_at_zero() {
    let mut p = small();
    let pgdir = p.kern_pgdir();
    p.pgdir_walk(pgdir, 0x0040_0000, true).unwrap();
    assert_eq!(p.page_info(957).pp_ref, 1);
    p.page_decref(957);
    assert_eq!(p.page_info(957).pp_ref, 0);
    assert_eq!(p.free_list()[0], 957);
    assert_eq!(p.page_info(957).pp_link, Some(956));
}

#[test]
fn decref_keeps_referenced_pages() {
    let mut p = small();
    let pgdir = p.kern_pgdir();
    p.pgdir_walk(pgdir, 0x0040_0000, true).unwrap();
    p.pgdir_walk(pgdir, 0x0080_0000, true).unwrap();
    assert_eq!(p.page_info(956).pp_ref, 1);
    p.page_decref(956);
    assert_eq!(p.page_info(956).pp_ref, 0);
    assert_eq!(p.free_list()[0], 956);
    assert_eq!(p.page_info(957).pp_ref, 1);
}

#[test]
fn check_page_alloc_takes_three_pages() {
    let mut p = small();
    let before = p.free_list();
    p.check_page_alloc();
    let after = p.free_list();
    assert_eq!(after, before[3..].to_vec());
    assert_eq!(p.page_info(957).pp_link, None);
    assert_eq!(p.page_info(956).pp_link, Some(957));
    assert_eq!(p.page_info(955).pp_link, Some(956));
    assert_eq!(p.read_phys(0x003B_D000), 0);
}

#[test]
fn relocate_puts_low_pages_first_and_drops_the_last() {
    let mut p = Pmap::new(END);
    p.mem_init(639, 15360, 0, ram(16384), STACKTOP);
    assert_eq!(p.npages(), 4096);
    let free = p.free_list();
    assert_eq!(free[0], 957);
    let first_high = free.iter().position(|&pp| pp >= 1024).unwrap();
    assert!(free[..first_high].iter().all(|&pp| pp < 1024));
    assert!(free[first_high..].iter().all(|&pp| pp >= 1024));
    assert_eq!(free[first_high], 4095);
    assert_eq!(*free.last().unwrap(), 1024);
    p.relocate_page_free_list(false);
    assert_eq!(p.free_list(), free);
    p.relocate_page_free_list(true);
    let again = p.free_list();
    assert_eq!(again.len(), free.len() - 1);
    assert_eq!(again[..], free[..free.len() - 1]);
    assert_eq!(*again.last().unwrap(), 1025);
    assert_eq!(p.page_info(1024).pp_link, None);
}

#[test]
fn page_addresses() {
    let p = small();
    assert_eq!(p.page2pa(5), 0x5000);
    assert_eq!(p.pa2page(0x5123), 5);
    assert_eq!(p.page2kva(5), 0xF000_5000);
    assert_eq!(p.kaddr(0x5000), 0xF000_5000);
    assert_eq!(paddr(p.kaddr(0x3FF000)), 0x3FF000);
    assert_eq!(p.pa2page(p.page2pa(1023)), 1023);
}

#[test]
fn detect_memory_keeps_what_ram_holds() {
    let mut p = Pmap::new(END);
    let words: Vec<u32> = (0..640u32 / 4 * 1024).map(|i| i ^ 0xA5A5_0000).collect();
    assert_eq!(p.i386_detect_memory(640, 0, 0, words.clone()), 640);
    assert_eq!(p.mem_words(), words.len());
    assert_eq!(p.read_phys(0), 0xA5A5_0000);
    assert_eq!(p.read_phys(4 * 1000), 1000 ^ 0xA5A5_0000);
}

#[test]
fn mem_init_leaves_other_memory_alone() {
    let mut p = Pmap::new(END);
    let words = vec![0xDEAD_BEEFu32; 4096 / 4 * 1024];
    p.mem_init(639, 3072, 0, words, STACKTOP);
    // The directory is zeroed but for its own entries.
    assert_eq!(p.read_phys(0x0011_8000), 0);
    assert_eq!(p.read_phys(0x0011_8000 + 4 * pdx(UVPT) as u32), 0x0011_8000 | PTE_U | PTE_P);
    // The page tables it created are zeroed but for the entries it wrote.
    assert_eq!(lookup(&mut p, 0xF000_5000), Some(0x5000 | PTE_W | PTE_P));
    assert_eq!(p.read_phys(0x003F_F000 + 4), 0x0011_A000 | PTE_U | PTE_P);
    assert_eq!(p.read_phys(0x003F_F000 + 8), 0);
    assert_eq!(lookup(&mut p, 0x0040_0000), None);
    // Memory the manager never wrote keeps what it held.
    assert_eq!(p.read_phys(0x0000_1000), 0xDEAD_BEEF);
    assert_eq!(p.read_phys(0x0020_0000), 0xDEAD_BEEF);
}
