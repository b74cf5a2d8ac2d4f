use vstd::prelude::*;
use crate::memlayout::{PageInfo, KERNBASE, IOPHYSMEM, EXTPHYSMEM, UVPT, UPAGES, KSTACKTOP, KSTKSIZE};
use crate::mmu::{pdx_of, ptx_of, pgnum_of, pte_addr_of, PGSIZE, PTE_P, PTE_W, PTE_U};
use crate::mmu::{pdx, ptx, pgnum, pte_addr};
use crate::util::types::{rounddown, rounddown_of, roundup, roundup_of};

pub mod kernel_maps;

verus! {

/// `page_alloc` flag: fill the returned page with zero bytes.
pub const ALLOC_ZERO: u32 = 0x1;

/// Bytes one page descriptor takes in the boot-allocated page array: a
/// link pointer and a reference count, on the kernel's 32-bit target.
pub const PAGEINFO_SIZE: usize = 8;

/// Bytes of the kernel's linear map of physical memory from `KERNBASE` to
/// the top of the address space.
pub const KERNBASE_MAP_SIZE: usize = 0x1000_0000;

/// The state of the physical memory manager.
///
/// Pages are named by their index in the page descriptor array; the free
/// list links descriptors by index. `mem` models physical memory as 32-bit
/// words, `mem[pa / 4]` holding the word at physical address `pa`; the page
/// directory and page tables live there.  `mem` holds whatever the machine
/// had in memory when it was detected (the `ram` handed to
/// `i386_detect_memory`), changed only by what the manager writes.  The page
/// descriptors are held as plain values in `pages`, not as their encoding in
/// `mem`: the words of `mem` under the page array (at `pages_kva`, mapped at
/// `UPAGES`) keep what the machine had there.  Kernel virtual addresses are
/// physical addresses plus `KERNBASE`; a null pointer is `0`.
pub struct Pmap {
    npages: usize,
    npages_basemem: usize,
    end: u32,
    next_free: u32,
    kern_pgdir: u32,
    pages_kva: u32,
    page_free_list: Option<usize>,
    pages: Vec<PageInfo>,
    free: Ghost<Seq<usize>>,
    mem: Vec<u32>,
}

/// The abstract state of a `Pmap`.
pub struct PmapView {
    pub npages: usize,
    pub npages_basemem: usize,
    pub end: u32,
    pub next_free: u32,
    pub kern_pgdir: u32,
    pub pages_kva: u32,
    pub head: Option<usize>,
    pub pages: Seq<PageInfo>,
    /// The free list, from its head to its last page.
    pub free: Seq<usize>,
    pub mem: Seq<u32>,
}

impl View for Pmap {
    type V = PmapView;

    closed spec fn view(&self) -> PmapView {
        PmapView {
            npages: self.npages,
            npages_basemem: self.npages_basemem,
            end: self.end,
            next_free: self.next_free,
            kern_pgdir: self.kern_pgdir,
            pages_kva: self.pages_kva,
            head: self.page_free_list,
            pages: self.pages@,
            free: self.free@,
            mem: self.mem@,
        }
    }
}

/// The physical address of page number `pp`, as a 32-bit value: the page
/// number shifted by the page size, wrapping at 2^32.
pub open spec fn page2pa_of(pp: int) -> u32 {
    ((pp * 4096) % 0x1_0000_0000) as u32
}

/// The successor of position `k` on a list of pages.
#[verifier::opaque]
pub open spec fn next_of(s: Seq<usize>, k: int) -> Option<usize> {
    if k + 1 < s.len() {
        Some(s[k + 1])
    } else {
        None
    }
}

/// `mem` with the page at physical address `pa` filled with the word `w`.
pub open spec fn fill_page(mem: Seq<u32>, pa: int, w: u32) -> Seq<u32> {
    Seq::new(mem.len(), |i: int| if pa / 4 <= i < pa / 4 + 1024 { w } else { mem[i] })
}

/// The word made of four copies of the byte `c`.
pub open spec fn byte_word(c: u8) -> u32 {
    ((c as int) * 0x01010101) as u32
}

impl PmapView {
    /// The free list is a list of distinct free pages linked through their
    /// descriptors.
    #[verifier::opaque]
    pub open spec fn free_list_wf(self) -> bool {
        &&& self.free.no_duplicates()
        &&& forall|k: int|
            #![trigger self.free[k]]
            0 <= k < self.free.len() ==> {
                &&& (self.free[k] as int) < self.pages.len()
                &&& self.pages[self.free[k] as int].pp_link == next_of(self.free, k)
                &&& self.pages[self.free[k] as int].pp_ref == 0
            }
    }

    pub open spec fn wf(self) -> bool {
        &&& self.mem.len() == self.npages * 1024
        &&& self.next_free % 4096 == 0
        &&& self.head == (if self.free.len() == 0 { None } else { Some(self.free[0]) })
        &&& self.free_list_wf()
    }

    /// `pa` lies in a page of detected memory whose kernel virtual address
    /// is representable.
    pub open spec fn kva_ok(self, pa: int) -> bool {
        &&& 0 <= pa
        &&& pa / 4096 < self.npages
        &&& pa + KERNBASE <= u32::MAX
    }

    /// The view with `pp` taken off the head of the free list, as
    /// `page_alloc` leaves it.
    pub open spec fn after_alloc(self, alloc_flags: u32) -> PmapView {
        let pp = self.free[0];
        PmapView {
            head: self.pages[pp as int].pp_link,
            pages: self.pages.update(pp as int, PageInfo { pp_link: None, pp_ref: 0 }),
            free: self.free.drop_first(),
            mem: if alloc_flags & ALLOC_ZERO != 0 {
                fill_page(self.mem, page2pa_of(pp as int) as int, 0)
            } else {
                self.mem
            },
            ..self
        }
    }
}

impl PmapView {
    /// Where the boot allocator hands out its next memory.
    pub open spec fn boot_next(self) -> int {
        if self.next_free == 0 {
            roundup_of(self.end as int, 4096)
        } else {
            self.next_free as int
        }
    }

    /// The view with `pp` pushed on the head of the free list, as
    /// `page_free` leaves it.
    pub open spec fn after_free(self, pp: usize) -> PmapView {
        PmapView {
            head: Some(pp),
            pages: self.pages.update(pp as int, PageInfo { pp_link: self.head, pp_ref: 0 }),
            free: seq![pp] + self.free,
            ..self
        }
    }

    /// The memory word at kernel virtual address `kva`.
    pub open spec fn word(self, kva: int) -> u32 {
        self.mem[(kva - KERNBASE) / 4]
    }

    /// `kva` is a word-aligned kernel virtual address inside modelled memory.
    pub open spec fn word_ok(self, kva: int) -> bool {
        &&& kva >= KERNBASE
        &&& (kva - KERNBASE) % 4 == 0
        &&& (kva - KERNBASE) / 4 < self.mem.len()
    }
}

/// The kernel virtual address of physical address `pa`.
pub fn paddr(kva: u32) -> (r: u32)
    requires
        kva >= KERNBASE,
    ensures
        r == kva - KERNBASE,
{
    kva - KERNBASE as u32
}

/// The 16-bit value held in two consecutive NVRAM registers, low byte first.
pub fn nvram_read(lo: u8, hi: u8) -> (r: u32)
    ensures
        r == lo + 256 * hi,
{
    let r = (lo as u32) | ((hi as u32) << 8u32);
    assert(((lo as u32) | ((hi as u32) << 8u32)) == lo + 256 * hi) by (bit_vector);
    r
}

/// Total memory in KiB, from the base, extended and above-16MiB NVRAM
/// counts (the last in 64 KiB units).
pub open spec fn totalmem_of(basemem: int, extmem: int, ext16mem: int) -> int {
    if ext16mem * 64 > 0 {
        16 * 1024 + ext16mem * 64
    } else if extmem > 0 {
        1024 + extmem
    } else {
        basemem
    }
}

/// Memory above 16 MiB, when NVRAM reports any, is counted on top of the
/// first 16 MiB whatever the extended count says; otherwise the extended
/// memory is counted on top of the first MiB; with neither, base memory is
/// all there is.
pub proof fn lemma_totalmem(basemem: u16, extmem: u16, ext16mem: u16, other_extmem: u16)
    ensures
        ext16mem > 0 ==> totalmem_of(basemem as int, extmem as int, ext16mem as int) == 16384 + 64 * ext16mem,
        ext16mem > 0 ==> totalmem_of(basemem as int, extmem as int, ext16mem as int) == totalmem_of(
            basemem as int,
            other_extmem as int,
            ext16mem as int,
        ),
        ext16mem == 0 && extmem > 0 ==> totalmem_of(basemem as int, extmem as int, ext16mem as int) == 1024 + extmem,
        ext16mem == 0 && extmem == 0 ==> totalmem_of(basemem as int, extmem as int, ext16mem as int) == basemem,
{
}

/// The index in `mem` of the directory entry for `va` in the page
/// directory at kernel virtual address `pgdir`.
pub open spec fn pde_index(pgdir: int, va: int) -> int {
    (pgdir - KERNBASE) / 4 + pdx_of(va)
}

/// The kernel virtual address of the entry for `va` in the page table at
/// physical address `table`.
pub open spec fn pte_kva(table: int, va: int) -> int {
    table + KERNBASE + 4 * ptx_of(va)
}

/// A directory or table entry with its present bit set.
pub open spec fn present(e: u32) -> bool {
    e & PTE_P != 0
}

impl PmapView {
    /// `pgdir` is the kernel virtual address of a page directory that lies
    /// in modelled memory.
    pub open spec fn dir_ok(self, pgdir: int) -> bool {
        &&& pgdir >= KERNBASE
        &&& (pgdir - KERNBASE) % 4 == 0
        &&& (pgdir - KERNBASE) / 4 + 1024 <= self.mem.len()
        &&& pgdir + 4096 <= 0x1_0000_0000
    }

    /// The directory entry for `va`.
    pub open spec fn pde(self, pgdir: int, va: int) -> u32 {
        self.mem[pde_index(pgdir, va)]
    }

    /// `pgdir_walk` does not fail on these arguments: the table an entry
    /// names, or the page that would become the new table, has a kernel
    /// virtual address.
    pub open spec fn walk_ok(self, pgdir: int, va: int, create: bool) -> bool {
        let e = self.pde(pgdir, va);
        &&& self.dir_ok(pgdir)
        &&& present(e) ==> self.kva_ok(pte_addr_of(e as int))
        &&& !present(e) && create && self.free.len() > 0 ==> self.kva_ok(
            page2pa_of(self.free[0] as int) as int,
        )
    }

    /// What `pgdir_walk` does: the state it leaves and the kernel virtual
    /// address of the page table entry for `va`, if there is one.  A missing
    /// table is created from the head of the free list when `create` holds:
    /// the page is zeroed, referenced once and entered in the directory as
    /// present, writable and user-accessible.
    pub open spec fn walk(self, pgdir: int, va: int, create: bool) -> (PmapView, Option<u32>) {
        let e = self.pde(pgdir, va);
        if present(e) {
            (self, Some(pte_kva(pte_addr_of(e as int), va) as u32))
        } else if create && self.free.len() > 0 {
            let pp = self.free[0];
            let pa = page2pa_of(pp as int);
            let a = self.after_alloc(ALLOC_ZERO);
            (
                PmapView {
                    pages: a.pages.update(pp as int, PageInfo { pp_link: None, pp_ref: 1 }),
                    mem: a.mem.update(pde_index(pgdir, va), pa | PTE_P | PTE_W | PTE_U),
                    ..a
                },
                Some(pte_kva(pa as int, va) as u32),
            )
        } else {
            (self, None)
        }
    }
}

impl PmapView {
    /// The state with the word at kernel virtual address `kva` set to `val`.
    pub open spec fn store(self, kva: int, val: u32) -> PmapView {
        PmapView { mem: self.mem.update((kva - KERNBASE) / 4, val), ..self }
    }

    /// `boot_map_region` does not fail while mapping the `n` pages from `va`
    /// to the `n` pages from `pa`: every walk succeeds.
    pub open spec fn map_ok(self, pgdir: int, va: int, pa: int, perm: u32, n: nat) -> bool
        decreases n,
    {
        if n == 0 {
            true
        } else {
            let (w, r) = self.walk(pgdir, va, true);
            &&& self.walk_ok(pgdir, va, true)
            &&& r is Some
            &&& w.store(r->0 as int, (pa as u32) | perm | PTE_P).map_ok(
                pgdir,
                va + 4096,
                pa + 4096,
                perm,
                (n - 1) as nat,
            )
        }
    }

    /// What `boot_map_region` does to map the `n` pages from `va` to the `n`
    /// pages from `pa`: page by page, walk to the entry (creating its table
    /// if missing) and store the physical page with `perm` and the present
    /// bit.
    pub open spec fn map(self, pgdir: int, va: int, pa: int, perm: u32, n: nat) -> PmapView
        decreases n,
    {
        if n == 0 {
            self
        } else {
            let (w, r) = self.walk(pgdir, va, true);
            w.store(r->0 as int, (pa as u32) | perm | PTE_P).map(
                pgdir,
                va + 4096,
                pa + 4096,
                perm,
                (n - 1) as nat,
            )
        }
    }
}

/// The entry address a successful walk returns is a word of modelled
/// memory.
#[verifier::spinoff_prover]
proof fn lemma_walk_slot_ok(v: PmapView, pgdir: int, va: int, create: bool)
    requires
        v.wf(),
        v.walk_ok(pgdir, va, create),
        v.walk(pgdir, va, create).1 is Some,
    ensures
        v.walk(pgdir, va, create).0.word_ok(v.walk(pgdir, va, create).1->0 as int),
{
    let e = v.pde(pgdir, va);
    let w = v.walk(pgdir, va, create).0;
    let table = if present(e) { pte_addr_of(e as int) } else { page2pa_of(v.free[0] as int) as int };
    if present(e) {
        crate::mmu::lemma_pte_addr_aligned(e);
    } else {
        lemma_page2pa_aligned(v.free[0] as int);
    }
    lemma_page_kva_room(table);
    assert(0 <= ptx_of(va) < 1024);
    assert(table / 4 + ptx_of(va) < w.mem.len()) by (nonlinear_arith)
        requires
            table % 4096 == 0,
            0 <= table,
            table / 4096 < v.npages,
            w.mem.len() == v.npages * 1024,
            0 <= ptx_of(va) < 1024,
    ;
}

/// Page `pp` starts out free: it is not page 0, it lies in base memory or
/// at or above `first_free` (the first page the boot allocator left
/// unused), and its physical address is outside the IO hole.
pub open spec fn init_free(basemem: int, first_free: int, pp: int) -> bool {
    &&& pp != 0
    &&& (pp < basemem || first_free <= pp)
    &&& !(IOPHYSMEM <= page2pa_of(pp) < EXTPHYSMEM)
}

/// The free list `page_init` builds from the first `n` pages: the free
/// ones, highest first.
pub open spec fn init_free_seq(basemem: int, first_free: int, n: nat) -> Seq<usize>
    decreases n,
{
    if n == 0 {
        seq![]
    } else if init_free(basemem, first_free, n - 1) {
        seq![(n - 1) as usize] + init_free_seq(basemem, first_free, (n - 1) as nat)
    } else {
        init_free_seq(basemem, first_free, (n - 1) as nat)
    }
}

/// The initial free list holds exactly the free pages below `n`, each once.
pub proof fn lemma_init_free_seq(basemem: int, first_free: int, n: nat)
    requires
        n <= usize::MAX,
    ensures
        init_free_seq(basemem, first_free, n).no_duplicates(),
        forall|k: int| 0 <= k < init_free_seq(basemem, first_free, n).len() ==> {
            &&& (#[trigger] init_free_seq(basemem, first_free, n)[k] as int) < n
            &&& init_free(basemem, first_free, init_free_seq(basemem, first_free, n)[k] as int)
        },
        forall|pp: int| 0 <= pp < n && init_free(basemem, first_free, pp)
            ==> #[trigger] init_free_seq(basemem, first_free, n).contains(pp as usize),
    decreases n,
{
    if n > 0 {
        lemma_init_free_seq(basemem, first_free, (n - 1) as nat);
        let s = init_free_seq(basemem, first_free, (n - 1) as nat);
        if init_free(basemem, first_free, n - 1) {
            let t = seq![(n - 1) as usize] + s;
            assert(t[0] as int == n - 1);
            assert forall|k: int| 0 <= k < t.len() implies {
                &&& (#[trigger] t[k] as int) < n
                &&& init_free(basemem, first_free, t[k] as int)
            } by {
                if k > 0 {
                    assert(t[k] == s[k - 1]);
                }
            }
            assert forall|pp: int| 0 <= pp < n && init_free(basemem, first_free, pp)
                implies #[trigger] t.contains(pp as usize) by {
                if pp < n - 1 {
                    assert(s.contains(pp as usize));
                    let j = choose|j: int| 0 <= j < s.len() && s[j] == pp as usize;
                    assert(t[j + 1] == pp as usize);
                } else {
                    assert(t[0] == pp as usize);
                }
            }
            assert forall|i: int, j: int| 0 <= i < t.len() && 0 <= j < t.len() && i != j
                implies t[i] != t[j] by {
                if i > 0 && j > 0 {
                    assert(t[i] == s[i - 1]);
                    assert(t[j] == s[j - 1]);
                } else if i == 0 {
                    assert(t[j] == s[j - 1]);
                    assert((s[j - 1] as int) < n - 1);
                } else {
                    assert(t[i] == s[i - 1]);
                    assert((s[i - 1] as int) < n - 1);
                }
            }
        }
    }
}

/// Page `pp` lies at or above the first 4 MiB of physical memory: its
/// physical address has a nonzero page directory index.
pub open spec fn high_page(pp: usize) -> bool {
    pdx_of(page2pa_of(pp as int) as int) >= 1
}

pub open spec fn is_high() -> spec_fn(usize) -> bool {
    |pp: usize| high_page(pp)
}

pub open spec fn is_low() -> spec_fn(usize) -> bool {
    |pp: usize| !high_page(pp)
}

/// The free list `relocate_page_free_list` leaves: the list without its
/// last page, the pages below 4 MiB first, each part in its old order.
pub open spec fn relocated(s: Seq<usize>) -> Seq<usize> {
    s.drop_last().filter(is_low()) + s.drop_last().filter(is_high())
}

/// Filtering a list of distinct pages keeps them distinct.
proof fn lemma_filter_no_dup(s: Seq<usize>, pred: spec_fn(usize) -> bool)
    requires
        s.no_duplicates(),
    ensures
        s.filter(pred).no_duplicates(),
        forall|x: usize| #[trigger] s.filter(pred).contains(x) ==> s.contains(x) && pred(x),
    decreases s.len(),
{
    reveal(Seq::filter);
    if s.len() > 0 {
        let t = s.drop_last();
        assert forall|i: int, j: int| 0 <= i < t.len() && 0 <= j < t.len() && i != j
            implies t[i] != t[j] by {
            assert(t[i] == s[i] && t[j] == s[j]);
        }
        lemma_filter_no_dup(t, pred);
        let ft = t.filter(pred);
        assert forall|x: usize| #[trigger] s.filter(pred).contains(x) implies s.contains(x) && pred(x) by {
            if ft.contains(x) {
                let j = choose|j: int| 0 <= j < t.len() && t[j] == x;
                assert(s[j] == x);
            } else {
                assert(x == s.last());
            }
        }
        if pred(s.last()) {
            assert(!ft.contains(s.last())) by {
                if ft.contains(s.last()) {
                    let j = choose|j: int| 0 <= j < t.len() && t[j] == s.last();
                    assert(s[j] == s[s.len() - 1]);
                }
            }
            let fs = ft.push(s.last());
            assert forall|i: int, j: int| 0 <= i < fs.len() && 0 <= j < fs.len() && i != j
                implies fs[i] != fs[j] by {
                if i == fs.len() - 1 {
                    assert(ft.contains(fs[j]));
                } else if j == fs.len() - 1 {
                    assert(ft.contains(fs[i]));
                }
            }
        }
    }
}

/// Splitting a list by a predicate keeps its length.
proof fn lemma_filter_split_len(s: Seq<usize>)
    ensures
        s.filter(is_low()).len() + s.filter(is_high()).len() == s.len(),
    decreases s.len(),
{
    reveal(Seq::filter);
    if s.len() > 0 {
        lemma_filter_split_len(s.drop_last());
    }
}

/// The relocated free list holds distinct pages of the old list.
proof fn lemma_relocated_no_dup(s: Seq<usize>)
    requires
        s.no_duplicates(),
        s.len() > 0,
    ensures
        relocated(s).no_duplicates(),
        forall|x: usize| #[trigger] relocated(s).contains(x) ==> s.drop_last().contains(x),
{
    let t = s.drop_last();
    assert forall|i: int, j: int| 0 <= i < t.len() && 0 <= j < t.len() && i != j
        implies t[i] != t[j] by {
        assert(t[i] == s[i] && t[j] == s[j]);
    }
    lemma_filter_no_dup(t, is_low());
    lemma_filter_no_dup(t, is_high());
    let a = t.filter(is_low());
    let b = t.filter(is_high());
    let r = a + b;
    assert forall|x: usize| #[trigger] r.contains(x) implies t.contains(x) by {
        let j = choose|j: int| 0 <= j < r.len() && r[j] == x;
        if j < a.len() {
            assert(a.contains(x));
        } else {
            assert(b[j - a.len()] == x);
            assert(b.contains(x));
        }
    }
    assert forall|i: int, j: int| 0 <= i < r.len() && 0 <= j < r.len() && i != j
        implies r[i] != r[j] by {
        if i < a.len() && j >= a.len() {
            assert(a.contains(r[i]));
            assert(b.contains(r[j]));
        } else if j < a.len() && i >= a.len() {
            assert(a.contains(r[j]));
            assert(b.contains(r[i]));
        } else if i >= a.len() {
            assert(r[i] == b[i - a.len()]);
            assert(r[j] == b[j - a.len()]);
        }
    }
}

/// The index in `mem` of the first word of the page directory at kernel
/// virtual address `pgdir`.
pub open spec fn dir_base(pgdir: int) -> int {
    (pgdir - KERNBASE) / 4
}

impl PmapView {
    /// Directory entry number `d`.
    pub open spec fn dir_entry(self, pgdir: int, d: int) -> u32 {
        self.mem[dir_base(pgdir) + d]
    }

    /// The physical address of the page table directory entry `d` names.
    pub open spec fn table_at(self, pgdir: int, d: int) -> int {
        pte_addr_of(self.dir_entry(pgdir, d) as int)
    }

    /// The physical address of the `i`-th page on the free list.
    pub open spec fn new_table(self, i: int) -> int {
        page2pa_of(self.free[i] as int) as int
    }

    /// The index in `mem` of the page table entry for `va`.
    pub open spec fn slot_word(self, pgdir: int, va: int) -> int {
        self.table_at(pgdir, pdx_of(va)) / 4 + ptx_of(va)
    }

    /// What the page table entry for `va` holds, when its directory entry
    /// is present.
    pub open spec fn lookup(self, pgdir: int, va: int) -> Option<u32> {
        if present(self.pde(pgdir, va)) {
            Some(self.mem[self.slot_word(pgdir, va)])
        } else {
            None
        }
    }

    /// A page at physical address `t` can serve as a page table: it has a
    /// kernel virtual address, is page aligned and is not the page directory.
    pub open spec fn good_table(self, pgdir: int, t: int) -> bool {
        &&& self.kva_ok(t)
        &&& t % 4096 == 0
        &&& (t / 4 + 1024 <= dir_base(pgdir) || dir_base(pgdir) + 1024 <= t / 4)
    }

    /// The number of directory entries in `[lo, hi)` that are not present.
    pub open spec fn missing(self, pgdir: int, lo: int, hi: int) -> nat
        decreases hi - lo,
    {
        if lo >= hi {
            0
        } else {
            (if present(self.dir_entry(pgdir, lo)) { 0nat } else { 1nat }) + self.missing(pgdir, lo + 1, hi)
        }
    }

    /// The directory entries in `[lo, hi)` can be given page tables: the
    /// present ones name good tables, the free list holds a good page for
    /// each missing one, and all these tables are distinct.
    pub open spec fn tables_ok(self, pgdir: int, lo: int, hi: int) -> bool {
        let m = self.missing(pgdir, lo, hi) as int;
        &&& m <= self.free.len()
        &&& forall|d: int|
            lo <= d < hi && present(self.dir_entry(pgdir, d)) ==> self.good_table(pgdir, #[trigger] self.table_at(pgdir, d))
        &&& forall|i: int| 0 <= i < m ==> self.good_table(pgdir, #[trigger] self.new_table(i))
        &&& forall|d1: int, d2: int|
            lo <= d1 < hi && lo <= d2 < hi && d1 != d2 && present(self.dir_entry(pgdir, d1)) && present(
                self.dir_entry(pgdir, d2),
            ) ==> #[trigger] self.table_at(pgdir, d1) != #[trigger] self.table_at(pgdir, d2)
        &&& forall|i1: int, i2: int|
            0 <= i1 < m && 0 <= i2 < m && i1 != i2 ==> #[trigger] self.new_table(i1) != #[trigger] self.new_table(i2)
        &&& forall|d: int, i: int|
            lo <= d < hi && present(self.dir_entry(pgdir, d)) && 0 <= i < m ==> #[trigger] self.table_at(pgdir, d)
                != #[trigger] self.new_table(i)
    }

    /// The `n` pages from `va` can be mapped under the directory at `pgdir`
    /// without any table overlapping the directory or another table.
    pub open spec fn map_pre(self, pgdir: int, va: int, n: nat) -> bool {
        &&& self.wf()
        &&& self.dir_ok(pgdir)
        &&& va % 4096 == 0
        &&& 0 <= va
        &&& va + n * 4096 <= 0x1_0000_0000
        &&& n > 0 ==> self.tables_ok(pgdir, pdx_of(va), pdx_of(va + (n - 1) * 4096) + 1)
    }
}

/// Directory and table indices of consecutive pages.
proof fn lemma_pdx_order(va: int, j: int)
    requires
        va % 4096 == 0,
        0 <= va,
        0 <= j,
        va + j * 4096 < 0x1_0000_0000,
    ensures
        0 <= pdx_of(va) <= pdx_of(va + j * 4096) < 1024,
        0 <= ptx_of(va + j * 4096) < 1024,
        j > 0 && pdx_of(va + j * 4096) == pdx_of(va) ==> ptx_of(va + j * 4096) != ptx_of(va),
        pdx_of(va + j * 4096) <= pdx_of(va) + j,
{
    let a = va as u32;
    let b = (va + j * 4096) as u32;
    crate::mmu::lemma_linear_address_decomposition(a);
    crate::mmu::lemma_linear_address_decomposition(b);
    assert(b as int / 4096 == a as int / 4096 + j);
}

/// Distinct page-aligned addresses are a page apart.
proof fn lemma_pages_apart(t1: int, t2: int)
    requires
        t1 % 4096 == 0,
        t2 % 4096 == 0,
        t1 != t2,
    ensures
        t1 / 4 + 1024 <= t2 / 4 || t2 / 4 + 1024 <= t1 / 4,
{
    vstd::arithmetic::div_mod::lemma_fundamental_div_mod(t1, 4096);
    vstd::arithmetic::div_mod::lemma_fundamental_div_mod(t2, 4096);
    let k1 = t1 / 4096;
    let k2 = t2 / 4096;
    assert(t1 / 4 == 1024 * k1);
    assert(t2 / 4 == 1024 * k2);
}

/// A directory entry made from a page-aligned table address is present and
/// names that table.
proof fn lemma_new_pde(t: u32)
    requires
        t % 4096 == 0,
    ensures
        present(t | PTE_P | PTE_W | PTE_U),
        pte_addr_of((t | PTE_P | PTE_W | PTE_U) as int) == t,
{
    assert((t | 1u32 | 2u32 | 4u32) & 1u32 != 0) by (bit_vector);
    let e = t | 1u32 | 2u32 | 4u32;
    assert(e - e % 4096 == t) by (bit_vector)
        requires e == t | 1u32 | 2u32 | 4u32, t % 4096 == 0;
}

/// Entries of a good table lie in memory and have the expected address.
proof fn lemma_slot(v: PmapView, pgdir: int, t: int, va: int)
    requires
        v.wf(),
        v.good_table(pgdir, t),
    ensures
        ((pte_kva(t, va) as u32) as int - KERNBASE) / 4 == t / 4 + ptx_of(va),
        t / 4 <= t / 4 + ptx_of(va) < t / 4 + 1024,
        t / 4 + 1024 <= v.mem.len(),
        (pte_kva(t, va) as u32) as int == pte_kva(t, va),
{
    lemma_page_kva_room(t);
    assert(0 <= ptx_of(va) < 1024);
    assert(t / 4 + 1024 <= v.mem.len()) by (nonlinear_arith)
        requires
            t % 4096 == 0,
            0 <= t,
            t / 4096 < v.npages,
            v.mem.len() == v.npages * 1024,
    ;
}

/// Entries that keep their present bit keep the count of missing ones.
proof fn lemma_missing_frame(v: PmapView, w: PmapView, pgdir: int, lo: int, hi: int)
    requires
        forall|d: int| lo <= d < hi ==> present(#[trigger] w.dir_entry(pgdir, d)) == present(v.dir_entry(pgdir, d)),
    ensures
        w.missing(pgdir, lo, hi) == v.missing(pgdir, lo, hi),
    decreases hi - lo,
{
    if lo < hi {
        assert(present(w.dir_entry(pgdir, lo)) == present(v.dir_entry(pgdir, lo)));
        lemma_missing_frame(v, w, pgdir, lo + 1, hi);
    }
}

/// One step of mapping a region: the walk succeeds, the entry is stored,
/// and the rest of the region can still be mapped.  Memory changes only at
/// the entry and, when the table was created, in the new table and the
/// directory entry.
#[verifier::spinoff_prover]
proof fn lemma_map_step(v: PmapView, pgdir: int, va: int, pa: int, perm: u32, n: nat)
    requires
        v.map_pre(pgdir, va, n),
        n >= 1,
    ensures
        v.walk_ok(pgdir, va, true),
        v.walk(pgdir, va, true).1 is Some,
        ({
            let w = v.walk(pgdir, va, true).0;
            let r = v.walk(pgdir, va, true).1;
            let lo = pdx_of(va);
            let p0 = present(v.dir_entry(pgdir, lo));
            let t0 = if p0 { v.table_at(pgdir, lo) } else { v.new_table(0) };
            let val = (pa as u32) | perm | PTE_P;
            let v1 = w.store(r->0 as int, val);
            &&& v1.map_pre(pgdir, va + 4096, (n - 1) as nat)
            &&& v1.mem.len() == v.mem.len()
            &&& v1.npages == v.npages
            &&& present(v1.dir_entry(pgdir, lo))
            &&& v1.table_at(pgdir, lo) == t0
            &&& v.good_table(pgdir, t0)
            &&& v1.mem[t0 / 4 + ptx_of(va)] == val
            &&& (p0 ==> v1.free == v.free)
            &&& (!p0 ==> v1.free == v.free.drop_first())
            &&& (n >= 2 ==> v1.missing(pgdir, pdx_of(va + 4096), pdx_of(va + (n - 1) * 4096) + 1)
                == if p0 { v.missing(pgdir, lo, pdx_of(va + (n - 1) * 4096) + 1) } else {
                    (v.missing(pgdir, lo, pdx_of(va + (n - 1) * 4096) + 1) - 1) as nat })
            &&& forall|d: int| 0 <= d < 1024 && d != lo ==> #[trigger] v1.dir_entry(pgdir, d) == v.dir_entry(pgdir, d)
            &&& forall|x: int|
                0 <= x < v.mem.len() && x != t0 / 4 + ptx_of(va) && (!p0 ==> !(t0 / 4 <= x < t0 / 4 + 1024) && x
                    != dir_base(pgdir) + lo) ==> #[trigger] v1.mem[x] == v.mem[x]
        }),
{
    let lo = pdx_of(va);
    let hi = pdx_of(va + (n - 1) * 4096) + 1;
    let m = v.missing(pgdir, lo, hi) as int;
    lemma_pdx_order(va, (n - 1) as int);
    let p0 = present(v.dir_entry(pgdir, lo));
    assert(v.dir_entry(pgdir, lo) == v.pde(pgdir, va));
    if !p0 {
        assert(m >= 1);
        assert(v.good_table(pgdir, v.new_table(0)));
    } else {
        assert(v.good_table(pgdir, v.table_at(pgdir, lo)));
    }
    let t0 = if p0 { v.table_at(pgdir, lo) } else { v.new_table(0) };
    assert(v.walk_ok(pgdir, va, true));
    lemma_walk_wf(v, pgdir, va, true);
    let w = v.walk(pgdir, va, true).0;
    let r = v.walk(pgdir, va, true).1;
    let val = (pa as u32) | perm | PTE_P;
    let v1 = w.store(r->0 as int, val);
    lemma_slot(v, pgdir, t0, va);
    let sw = t0 / 4 + ptx_of(va);
    assert(r->0 as int == pte_kva(t0, va));
    assert((r->0 as int - KERNBASE) / 4 == sw);
    lemma_wf_frame(w, v1);
    if !p0 {
        lemma_page2pa_aligned(v.free[0] as int);
        lemma_new_pde(t0 as u32);
        assert(v1.mem[dir_base(pgdir) + lo] == w.mem[dir_base(pgdir) + lo]);
        assert(w.mem[dir_base(pgdir) + lo] == (t0 as u32) | PTE_P | PTE_W | PTE_U);
    }
    // Words off the entry, the new table and its directory entry keep.
    assert forall|x: int|
        0 <= x < v.mem.len() && x != sw && (!p0 ==> !(t0 / 4 <= x < t0 / 4 + 1024) && x != dir_base(pgdir)
            + lo) implies #[trigger] v1.mem[x] == v.mem[x] by {
        if !p0 {
            assert(w.mem[x] == fill_page(v.mem, t0, 0)[x]);
        }
    }
    if p0 {
        assert(v1.mem[dir_base(pgdir) + lo] == v.mem[dir_base(pgdir) + lo]);
    }
    assert(v1.table_at(pgdir, lo) == t0);
    assert(present(v1.dir_entry(pgdir, lo)));
    // Directory entries other than `lo` keep.
    assert forall|d: int| 0 <= d < 1024 && d != lo implies #[trigger] v1.dir_entry(pgdir, d) == v.dir_entry(pgdir, d) by {
        let x = dir_base(pgdir) + d;
        assert(!(t0 / 4 <= x < t0 / 4 + 1024));
    }
    if n >= 2 {
        lemma_pdx_order(va, 1);
        let lo1 = pdx_of(va + 4096);
        assert(va + 4096 + ((n - 1) as nat - 1) * 4096 == va + (n - 1) * 4096);
        assert(lo <= lo1 <= lo + 1);
        assert(lo1 < hi);
        let m1 = v1.missing(pgdir, lo1, hi) as int;
        // The count of missing entries drops by the one just created.
        if lo1 == lo {
            lemma_missing_frame(v, v1, pgdir, lo + 1, hi);
            assert(v1.missing(pgdir, lo, hi) == v1.missing(pgdir, lo + 1, hi));
            assert(v.missing(pgdir, lo, hi) == (if p0 { 0nat } else { 1nat }) + v.missing(pgdir, lo + 1, hi));
        } else {
            lemma_missing_frame(v, v1, pgdir, lo1, hi);
            assert(v.missing(pgdir, lo, hi) == (if p0 { 0nat } else { 1nat }) + v.missing(pgdir, lo + 1, hi));
        }
        assert(m1 == if p0 { m } else { m - 1 });
        assert forall|i: int| 0 <= i < m1 implies #[trigger] v1.new_table(i) == v.new_table(if p0 { i } else { i + 1 }) by {
        }
        let t1 = v1.tables_ok(pgdir, lo1, hi);
        assert forall|d: int|
            lo1 <= d < hi && present(v1.dir_entry(pgdir, d)) implies v1.good_table(pgdir, #[trigger] v1.table_at(pgdir, d))
            && (v1.table_at(pgdir, d) == t0 || (d != lo && present(v.dir_entry(pgdir, d)) && v1.table_at(pgdir, d) == v.table_at(pgdir, d))) by {
            if d != lo {
                assert(v1.dir_entry(pgdir, d) == v.dir_entry(pgdir, d));
                assert(v.good_table(pgdir, v.table_at(pgdir, d)));
            }
        }
        assert forall|i: int| 0 <= i < m1 implies v1.good_table(pgdir, #[trigger] v1.new_table(i)) by {
            assert(v.good_table(pgdir, v.new_table(if p0 { i } else { i + 1 })));
        }
        assert forall|d1: int, d2: int|
            lo1 <= d1 < hi && lo1 <= d2 < hi && d1 != d2 && present(v1.dir_entry(pgdir, d1)) && present(
                v1.dir_entry(pgdir, d2),
            ) implies #[trigger] v1.table_at(pgdir, d1) != #[trigger] v1.table_at(pgdir, d2) by {
            if d1 != lo && d2 != lo {
                assert(v1.dir_entry(pgdir, d1) == v.dir_entry(pgdir, d1));
                assert(v1.dir_entry(pgdir, d2) == v.dir_entry(pgdir, d2));
                assert(v.table_at(pgdir, d1) != v.table_at(pgdir, d2));
            } else if d1 == lo {
                assert(v1.dir_entry(pgdir, d2) == v.dir_entry(pgdir, d2));
                assert(v1.table_at(pgdir, d2) == v.table_at(pgdir, d2));
                assert(present(v.dir_entry(pgdir, d2)));
                if !p0 {
                    assert(v.table_at(pgdir, d2) != v.new_table(0));
                } else {
                    assert(v.table_at(pgdir, lo) != v.table_at(pgdir, d2));
                }
                assert(v1.table_at(pgdir, d1) == t0);
            } else {
                assert(v1.dir_entry(pgdir, d1) == v.dir_entry(pgdir, d1));
                assert(v1.table_at(pgdir, d1) == v.table_at(pgdir, d1));
                assert(present(v.dir_entry(pgdir, d1)));
                if !p0 {
                    assert(v.table_at(pgdir, d1) != v.new_table(0));
                } else {
                    assert(v.table_at(pgdir, d1) != v.table_at(pgdir, lo));
                }
                assert(v1.table_at(pgdir, d2) == t0);
            }
        }
        assert forall|i1: int, i2: int|
            0 <= i1 < m1 && 0 <= i2 < m1 && i1 != i2 implies #[trigger] v1.new_table(i1) != #[trigger] v1.new_table(i2) by {
            assert(v.new_table(if p0 { i1 } else { i1 + 1 }) != v.new_table(if p0 { i2 } else { i2 + 1 }));
        }
        assert forall|d: int, i: int|
            lo1 <= d < hi && present(v1.dir_entry(pgdir, d)) && 0 <= i < m1 implies #[trigger] v1.table_at(pgdir, d)
                != #[trigger] v1.new_table(i) by {
            let j = if p0 { i } else { i + 1 };
            assert(v1.new_table(i) == v.new_table(j));
            if d != lo {
                assert(v1.dir_entry(pgdir, d) == v.dir_entry(pgdir, d));
                assert(v.table_at(pgdir, d) != v.new_table(j));
            } else if p0 {
                assert(v.table_at(pgdir, lo) != v.new_table(j));
            } else {
                assert(v.new_table(0) != v.new_table(j));
            }
        }
        assert(v1.tables_ok(pgdir, lo1, hi));
    }
}

/// Mapping a region leaves alone every word that is not in a table it
/// creates, not a directory entry it creates, and not the entry of one of
/// its pages under a present directory entry.
#[verifier::spinoff_prover]
proof fn lemma_map_frame(v: PmapView, pgdir: int, va: int, pa: int, perm: u32, n: nat, x: int)
    requires
        v.map_pre(pgdir, va, n),
        0 <= x < v.mem.len(),
        n > 0 ==> forall|i: int|
            0 <= i < v.missing(pgdir, pdx_of(va), pdx_of(va + (n - 1) * 4096) + 1) ==> !(#[trigger] v.new_table(i) / 4
                <= x < v.new_table(i) / 4 + 1024),
        n > 0 ==> forall|d: int|
            pdx_of(va) <= d < pdx_of(va + (n - 1) * 4096) + 1 && !present(#[trigger] v.dir_entry(pgdir, d)) ==> x
                != dir_base(pgdir) + d,
        forall|j: int|
            0 <= j < n && present(v.pde(pgdir, va + j * 4096)) ==> x != #[trigger] v.slot_word(pgdir, va + j * 4096),
    ensures
        v.map(pgdir, va, pa, perm, n).mem[x] == v.mem[x],
    decreases n,
{
    if n > 0 {
        lemma_map_step(v, pgdir, va, pa, perm, n);
        let lo = pdx_of(va);
        let hi = pdx_of(va + (n - 1) * 4096) + 1;
        let m = v.missing(pgdir, lo, hi) as int;
        let p0 = present(v.dir_entry(pgdir, lo));
        let t0 = if p0 { v.table_at(pgdir, lo) } else { v.new_table(0) };
        let w = v.walk(pgdir, va, true).0;
        let r = v.walk(pgdir, va, true).1;
        let val = (pa as u32) | perm | PTE_P;
        let v1 = w.store(r->0 as int, val);
        lemma_pdx_order(va, (n - 1) as int);
        assert(v.pde(pgdir, va + 0 * 4096) == v.dir_entry(pgdir, lo));
        if p0 {
            assert(x != v.slot_word(pgdir, va + 0 * 4096));
        } else {
            assert(m >= 1);
            assert(!(v.new_table(0) / 4 <= x < v.new_table(0) / 4 + 1024));
        }
        assert(v1.mem[x] == v.mem[x]);
        if n >= 2 {
            lemma_pdx_order(va, 1);
            let va1 = va + 4096;
            let lo1 = pdx_of(va1);
            assert(va1 + ((n - 1) as nat - 1) * 4096 == va + (n - 1) * 4096);
            let m1 = v1.missing(pgdir, lo1, hi) as int;
            assert forall|i: int| 0 <= i < m1 implies !(#[trigger] v1.new_table(i) / 4 <= x < v1.new_table(i) / 4 + 1024) by {
                let k = if p0 { i } else { i + 1 };
                assert(v1.new_table(i) == v.new_table(k));
                assert(!(v.new_table(k) / 4 <= x < v.new_table(k) / 4 + 1024));
            }
            assert forall|d: int|
                lo1 <= d < hi && !present(#[trigger] v1.dir_entry(pgdir, d)) implies x != dir_base(pgdir) + d by {
                assert(d != lo);
                assert(v1.dir_entry(pgdir, d) == v.dir_entry(pgdir, d));
            }
            assert forall|j: int|
                0 <= j < (n - 1) as nat && present(v1.pde(pgdir, va1 + j * 4096)) implies x != #[trigger] v1.slot_word(
                pgdir,
                va1 + j * 4096,
            ) by {
                let a = va1 + j * 4096;
                assert(a == va + (j + 1) * 4096);
                lemma_pdx_order(va, j + 1);
                let d = pdx_of(a);
                assert(v1.pde(pgdir, a) == v1.dir_entry(pgdir, d));
                if d != lo {
                    assert(v1.dir_entry(pgdir, d) == v.dir_entry(pgdir, d));
                    assert(v.pde(pgdir, va + (j + 1) * 4096) == v.dir_entry(pgdir, d));
                    assert(x != v.slot_word(pgdir, va + (j + 1) * 4096));
                } else if p0 {
                    assert(v.pde(pgdir, va + (j + 1) * 4096) == v.dir_entry(pgdir, d));
                    assert(x != v.slot_word(pgdir, va + (j + 1) * 4096));
                } else {
                    assert(v1.slot_word(pgdir, a) == t0 / 4 + ptx_of(a));
                    assert(0 <= ptx_of(a) < 1024);
                }
            }
            lemma_map_frame(v1, pgdir, va1, pa + 4096, perm, (n - 1) as nat, x);
        }
        assert(v.map(pgdir, va, pa, perm, n) == v1.map(pgdir, va + 4096, pa + 4096, perm, (n - 1) as nat));
        assert(v1.map(pgdir, va + 4096, pa + 4096, perm, (n - 1) as nat).mem[x] == v.mem[x]);
    }
}

/// Mapping a region makes each of its pages map to its physical page.
///
/// When the region's existing page tables and the free pages that will
/// become its missing ones are distinct pages off the page directory,
/// `boot_map_region` succeeds, and afterwards the page table entry of the
/// `j`-th page from `va` holds the `j`-th page from `pa` with the given
/// permissions and the present bit.
pub proof fn lemma_boot_map_region(v: PmapView, pgdir: int, va: int, pa: int, perm: u32, n: nat)
    requires
        v.map_pre(pgdir, va, n),
        0 <= pa,
        pa + n * 4096 <= 0x1_0000_0000,
    ensures
        v.map_ok(pgdir, va, pa, perm, n),
        forall|j: int|
            0 <= j < n ==> #[trigger] v.map(pgdir, va, pa, perm, n).lookup(pgdir, va + j * 4096) == Some(
                ((pa + j * 4096) as u32) | perm | PTE_P,
            ),
    decreases n,
{
    if n > 0 {
        lemma_map_step(v, pgdir, va, pa, perm, n);
        let lo = pdx_of(va);
        let hi = pdx_of(va + (n - 1) * 4096) + 1;
        let p0 = present(v.dir_entry(pgdir, lo));
        let t0 = if p0 { v.table_at(pgdir, lo) } else { v.new_table(0) };
        let w = v.walk(pgdir, va, true).0;
        let r = v.walk(pgdir, va, true).1;
        let val = (pa as u32) | perm | PTE_P;
        let v1 = w.store(r->0 as int, val);
        let va1 = va + 4096;
        let pa1 = pa + 4096;
        lemma_pdx_order(va, (n - 1) as int);
        lemma_boot_map_region(v1, pgdir, va1, pa1, perm, (n - 1) as nat);
        let fin = v1.map(pgdir, va1, pa1, perm, (n - 1) as nat);
        assert(fin == v.map(pgdir, va, pa, perm, n));
        if n >= 2 {
            lemma_map_keeps_first(v, pgdir, va, pa, perm, n);
        }
        assert(fin.pde(pgdir, va + 0 * 4096) == v1.dir_entry(pgdir, lo));
        assert(fin.lookup(pgdir, va + 0 * 4096) == Some(val));
        assert forall|j: int| 0 <= j < n implies #[trigger] fin.lookup(pgdir, va + j * 4096) == Some(
            ((pa + j * 4096) as u32) | perm | PTE_P,
        ) by {
            if j > 0 {
                assert(va + j * 4096 == va1 + (j - 1) * 4096);
                assert(pa + j * 4096 == pa1 + (j - 1) * 4096);
                assert(fin.lookup(pgdir, va1 + (j - 1) * 4096) == Some(((pa1 + (j - 1) * 4096) as u32) | perm | PTE_P));
            }
        }
    }
}

/// The rest of a region's map, after its first page, keeps the first
/// page's directory entry and page table entry.
proof fn lemma_map_keeps_first(v: PmapView, pgdir: int, va: int, pa: int, perm: u32, n: nat)
    requires
        v.map_pre(pgdir, va, n),
        n >= 2,
    ensures
        ({
            let lo = pdx_of(va);
            let t0 = if present(v.dir_entry(pgdir, lo)) { v.table_at(pgdir, lo) } else { v.new_table(0) };
            let v1 = v.walk(pgdir, va, true).0.store(v.walk(pgdir, va, true).1->0 as int, (pa as u32) | perm | PTE_P);
            let fin = v1.map(pgdir, va + 4096, pa + 4096, perm, (n - 1) as nat);
            &&& fin.mem[dir_base(pgdir) + lo] == v1.mem[dir_base(pgdir) + lo]
            &&& fin.mem[t0 / 4 + ptx_of(va)] == v1.mem[t0 / 4 + ptx_of(va)]
        }),
{
    lemma_map_step(v, pgdir, va, pa, perm, n);
    let lo = pdx_of(va);
    let hi = pdx_of(va + (n - 1) * 4096) + 1;
    let m = v.missing(pgdir, lo, hi) as int;
    let p0 = present(v.dir_entry(pgdir, lo));
    let t0 = if p0 { v.table_at(pgdir, lo) } else { v.new_table(0) };
    let w = v.walk(pgdir, va, true).0;
    let r = v.walk(pgdir, va, true).1;
    let val = (pa as u32) | perm | PTE_P;
    let v1 = w.store(r->0 as int, val);
    let va1 = va + 4096;
    let pa1 = pa + 4096;
    let sw = t0 / 4 + ptx_of(va);
    let dw = dir_base(pgdir) + lo;
    lemma_pdx_order(va, (n - 1) as int);
    let fin = v1.map(pgdir, va1, pa1, perm, (n - 1) as nat);
        lemma_pdx_order(va, 1);
        let lo1 = pdx_of(va1);
        assert(va1 + ((n - 1) as nat - 1) * 4096 == va + (n - 1) * 4096);
        let m1 = v1.missing(pgdir, lo1, hi) as int;
        assert(v.good_table(pgdir, t0));
        // The directory entry of the first page keeps.
        assert forall|i: int| 0 <= i < m1 implies !(#[trigger] v1.new_table(i) / 4 <= dw < v1.new_table(i) / 4 + 1024) by {
            assert(v1.good_table(pgdir, v1.new_table(i)));
        }
        assert forall|d: int|
            lo1 <= d < hi && !present(#[trigger] v1.dir_entry(pgdir, d)) implies dw != dir_base(pgdir) + d by {
        }
        assert forall|j: int|
            0 <= j < (n - 1) as nat && present(v1.pde(pgdir, va1 + j * 4096)) implies dw != #[trigger] v1.slot_word(
            pgdir,
            va1 + j * 4096,
        ) by {
            let a = va1 + j * 4096;
            assert(a == va + (j + 1) * 4096);
            lemma_pdx_order(va, j + 1);
            let d = pdx_of(a);
            assert(v1.pde(pgdir, a) == v1.dir_entry(pgdir, d));
            assert(v1.good_table(pgdir, v1.table_at(pgdir, d)));
            assert(0 <= ptx_of(a) < 1024);
        }
        lemma_map_frame(v1, pgdir, va1, pa1, perm, (n - 1) as nat, dw);
        // The entry of the first page keeps.
        assert forall|i: int| 0 <= i < m1 implies !(#[trigger] v1.new_table(i) / 4 <= sw < v1.new_table(i) / 4 + 1024) by {
            let k = if p0 { i } else { i + 1 };
            assert(v1.new_table(i) == v.new_table(k));
            assert(v.good_table(pgdir, v.new_table(k)));
            if p0 {
                assert(v.table_at(pgdir, lo) != v.new_table(k));
            } else {
                assert(v.new_table(0) != v.new_table(k));
            }
            lemma_pages_apart(t0, v.new_table(k));
        }
        assert forall|d: int|
            lo1 <= d < hi && !present(#[trigger] v1.dir_entry(pgdir, d)) implies sw != dir_base(pgdir) + d by {
            assert(0 <= ptx_of(va) < 1024);
        }
        assert forall|j: int|
            0 <= j < (n - 1) as nat && present(v1.pde(pgdir, va1 + j * 4096)) implies sw != #[trigger] v1.slot_word(
            pgdir,
            va1 + j * 4096,
        ) by {
            let a = va1 + j * 4096;
            assert(a == va + (j + 1) * 4096);
            lemma_pdx_order(va, j + 1);
            let d = pdx_of(a);
            assert(v1.pde(pgdir, a) == v1.dir_entry(pgdir, d));
            assert(0 <= ptx_of(a) < 1024);
            if d != lo {
                assert(v1.dir_entry(pgdir, d) == v.dir_entry(pgdir, d));
                assert(v.good_table(pgdir, v.table_at(pgdir, d)));
                if p0 {
                    assert(v.table_at(pgdir, d) != v.table_at(pgdir, lo));
                } else {
                    assert(v.table_at(pgdir, d) != v.new_table(0));
                }
                lemma_pages_apart(t0, v.table_at(pgdir, d));
            }
        }
        lemma_map_frame(v1, pgdir, va1, pa1, perm, (n - 1) as nat, sw);
        assert(fin.mem[dw] == v1.mem[dw]);
        assert(fin.mem[sw] == v1.mem[sw]);
}

/// `pages` with the pages of `t` made a free list in that order: each
/// linked to its successor, with no references.
pub open spec fn link_list(pages: Seq<PageInfo>, t: Seq<usize>) -> Seq<PageInfo> {
    Seq::new(
        pages.len(),
        |x: int|
            if t.contains(x as usize) {
                PageInfo { pp_link: next_of(t, t.index_of(x as usize)), pp_ref: 0 }
            } else {
                pages[x]
            },
    )
}

/// The descriptors of a well-formed manager are its free list linked over
/// the others.
#[verifier::spinoff_prover]
#[verifier::rlimit(40)]
proof fn lemma_pages_linked(v: PmapView, base: Seq<PageInfo>)
    requires
        v.wf(),
        base.len() == v.pages.len(),
        v.pages.len() <= usize::MAX,
        forall|x: int| 0 <= x < base.len() && !v.free.contains(x as usize) ==> #[trigger] v.pages[x] == base[x],
    ensures
        v.pages == link_list(base, v.free),
{
    lemma_free_pages(v);
    assert forall|x: int| 0 <= x < v.pages.len() implies #[trigger] v.pages[x] == link_list(base, v.free)[x] by {
        let l = link_list(base, v.free);
        if v.free.contains(x as usize) {
            let k = v.free.index_of(x as usize);
            assert(0 <= k < v.free.len() && v.free[k] == x as usize);
            assert(v.pages[v.free[k] as int].pp_link == next_of(v.free, k));
            assert(v.pages[v.free[k] as int].pp_ref == 0);
            assert(l[x] == PageInfo { pp_link: next_of(v.free, k), pp_ref: 0 });
        } else {
            assert(l[x] == base[x]);
        }
    }
    assert(v.pages =~= link_list(base, v.free));
}

impl PmapView {
    /// The state `page_init` leaves.
    pub open spec fn after_page_init(self) -> PmapView {
        let f = (self.boot_next() - KERNBASE) / 4096;
        let t = init_free_seq(self.npages_basemem as int, f, self.npages as nat);
        PmapView {
            next_free: self.boot_next() as u32,
            head: if t.len() == 0 { None } else { Some(t[0]) },
            pages: link_list(Seq::new(self.npages as nat, |i: int| PageInfo { pp_link: None, pp_ref: 1 }), t),
            free: t,
            ..self
        }
    }

    /// The state `relocate_page_free_list(true)` leaves.
    pub open spec fn after_relocate(self) -> PmapView {
        let t = relocated(self.free);
        PmapView {
            head: if t.len() == 0 { None } else { Some(t[0]) },
            pages: link_list(self.pages, t),
            free: t,
            ..self
        }
    }
}

impl PmapView {
    /// The state `i386_detect_memory` leaves, `ram` being the words of
    /// physical memory as the machine holds them.
    pub open spec fn detected(self, basemem: u16, extmem: u16, ext16mem: u16, ram: Seq<u32>) -> PmapView {
        let total = totalmem_of(basemem as int, extmem as int, ext16mem as int);
        PmapView {
            npages: (total / 4) as usize,
            npages_basemem: (basemem / 4) as usize,
            mem: ram,
            ..self
        }
    }

    /// The state after `boot_alloc(n)`.
    pub open spec fn boot_alloced(self, n: int) -> PmapView {
        PmapView { next_free: roundup_of(self.boot_next() + n, 4096) as u32, ..self }
    }

    /// `mem_init` up to the page directory: detected memory, the directory
    /// allocated and zeroed, and its entry for `UVPT` mapping the directory
    /// itself, user-readable.
    #[verifier::opaque]
    pub open spec fn mi_dir(self, basemem: u16, extmem: u16, ext16mem: u16, ram: Seq<u32>) -> PmapView {
        let s1 = self.detected(basemem, extmem, ext16mem, ram);
        let pgdir = s1.boot_next();
        let s2 = s1.boot_alloced(4096);
        let s3 = PmapView { mem: fill_page(s2.mem, pgdir - KERNBASE, 0), ..s2 };
        PmapView {
            kern_pgdir: pgdir as u32,
            ..s3.store(pgdir + 4 * pdx_of(UVPT as int), ((pgdir - KERNBASE) as u32) | PTE_U | PTE_P)
        }
    }

    /// `mem_init` up to the page array: allocated from boot memory, every
    /// descriptor zero, the free list empty.
    #[verifier::opaque]
    pub open spec fn mi_pages(self, basemem: u16, extmem: u16, ext16mem: u16, ram: Seq<u32>) -> PmapView {
        let s4 = self.mi_dir(basemem, extmem, ext16mem, ram);
        PmapView {
            pages_kva: s4.boot_next() as u32,
            pages: Seq::new(s4.npages as nat, |i: int| PageInfo { pp_link: None, pp_ref: 0 }),
            head: None,
            free: Seq::empty(),
            ..s4.boot_alloced(s4.npages * PAGEINFO_SIZE)
        }
    }

    /// `mem_init` up to the free list: the pages initialised and the free
    /// list relocated.
    #[verifier::opaque]
    pub open spec fn mi_free(self, basemem: u16, extmem: u16, ext16mem: u16, ram: Seq<u32>) -> PmapView {
        self.mi_pages(basemem, extmem, ext16mem, ram).after_page_init().after_relocate()
    }

    /// The physical address of the bottom of the kernel stack.
    pub open spec fn stack_pa(bootstacktop: u32) -> int {
        rounddown_of(bootstacktop - KSTKSIZE, 4096) - KERNBASE
    }

    /// The number of pages the page array takes, mapped at `UPAGES`.
    pub open spec fn upages_pages(self) -> nat {
        (roundup_of(self.npages * PAGEINFO_SIZE, 4096) / 4096) as nat
    }

    /// `mem_init` up to the map of the page array at `UPAGES`.
    #[verifier::opaque]
    pub open spec fn mi_upages(self, basemem: u16, extmem: u16, ext16mem: u16, ram: Seq<u32>) -> PmapView {
        let s7 = self.mi_free(basemem, extmem, ext16mem, ram);
        s7.map(s7.kern_pgdir as int, UPAGES as int, s7.pages_kva - KERNBASE, PTE_U, s7.upages_pages())
    }

    /// `mem_init` up to the map of the kernel stack.
    #[verifier::opaque]
    pub open spec fn mi_stack(self, basemem: u16, extmem: u16, ext16mem: u16, ram: Seq<u32>, bootstacktop: u32) -> PmapView {
        let s8 = self.mi_upages(basemem, extmem, ext16mem, ram);
        s8.map(
            s8.kern_pgdir as int,
            KSTACKTOP - KSTKSIZE,
            PmapView::stack_pa(bootstacktop),
            PTE_W,
            (KSTKSIZE / 4096) as nat,
        )
    }

    /// The state `mem_init` leaves: also all physical memory mapped at
    /// `KERNBASE`, writable.
    #[verifier::opaque]
    pub open spec fn after_mem_init(self, basemem: u16, extmem: u16, ext16mem: u16, ram: Seq<u32>, bootstacktop: u32) -> PmapView {
        let s9 = self.mi_stack(basemem, extmem, ext16mem, ram, bootstacktop);
        s9.map(s9.kern_pgdir as int, KERNBASE as int, 0, PTE_W, (KERNBASE_MAP_SIZE / 4096) as nat)
    }

    /// `mem_init` does not fail from this state with these NVRAM sizes and
    /// this top of the boot stack: the boot allocations fit, the page
    /// directory lies in detected memory, base memory ends below the IO
    /// hole, the page array ends in detected memory past the IO hole, the
    /// free list has at least two pages, and the three maps succeed.
    #[verifier::opaque]
    pub open spec fn mem_init_ok(self, basemem: u16, extmem: u16, ext16mem: u16, ram: Seq<u32>, bootstacktop: u32) -> bool {
        let s1 = self.detected(basemem, extmem, ext16mem, ram);
        let pgdir = s1.boot_next();
        let s4 = self.mi_dir(basemem, extmem, ext16mem, ram);
        let n = s1.npages as int;
        let s5 = self.mi_pages(basemem, extmem, ext16mem, ram);
        let s7 = self.mi_free(basemem, extmem, ext16mem, ram);
        let s8 = self.mi_upages(basemem, extmem, ext16mem, ram);
        let s9 = self.mi_stack(basemem, extmem, ext16mem, ram, bootstacktop);
        &&& ram.len() == (totalmem_of(basemem as int, extmem as int, ext16mem as int) / 4) * 1024
        &&& s1.next_free == 0 ==> s1.end + 4096 <= u32::MAX
        &&& pgdir + 4096 + 4096 <= u32::MAX
        &&& pgdir >= KERNBASE
        &&& (pgdir - KERNBASE) / 4 + 1024 <= s1.mem.len()
        &&& s4.boot_next() + n * PAGEINFO_SIZE + 4096 <= u32::MAX
        &&& n >= 1
        &&& s1.npages_basemem <= IOPHYSMEM / PGSIZE
        &&& s5.boot_next() + 4096 <= u32::MAX
        &&& s5.boot_next() >= KERNBASE + IOPHYSMEM
        &&& (s5.boot_next() - KERNBASE) / 4096 < n
        &&& s5.after_page_init().free.len() >= 2
        &&& s7.map_ok(pgdir, UPAGES as int, s4.boot_next() - KERNBASE, PTE_U, s7.upages_pages())
        &&& bootstacktop >= KSTKSIZE
        &&& rounddown_of(bootstacktop - KSTKSIZE, 4096) >= KERNBASE
        &&& s8.map_ok(pgdir, KSTACKTOP - KSTKSIZE, PmapView::stack_pa(bootstacktop), PTE_W, (KSTKSIZE / 4096) as nat)
        &&& s9.map_ok(pgdir, KERNBASE as int, 0, PTE_W, (KERNBASE_MAP_SIZE / 4096) as nat)
    }
}

/// Mapping a region changes only memory, descriptors and the free list,
/// and no sizes.
proof fn lemma_map_keeps(v: PmapView, pgdir: int, va: int, pa: int, perm: u32, n: nat)
    ensures
        ({
            let w = v.map(pgdir, va, pa, perm, n);
            &&& w.npages == v.npages
            &&& w.npages_basemem == v.npages_basemem
            &&& w.end == v.end
            &&& w.next_free == v.next_free
            &&& w.kern_pgdir == v.kern_pgdir
            &&& w.pages_kva == v.pages_kva
        }),
    decreases n,
{
    if n > 0 {
        let w = v.walk(pgdir, va, true).0;
        let r = v.walk(pgdir, va, true).1;
        let v1 = w.store(r->0 as int, (pa as u32) | perm | PTE_P);
        lemma_map_keeps(v1, pgdir, va + 4096, pa + 4096, perm, (n - 1) as nat);
    }
}

/// The page directory `mem_init` allocates first fits in boot memory and
/// in detected memory.
proof fn lemma_mem_init_dir_room(v0: PmapView, basemem: u16, extmem: u16, ext16mem: u16, ram: Seq<u32>, bootstacktop: u32)
    requires
        v0.mem_init_ok(basemem, extmem, ext16mem, ram, bootstacktop),
    ensures
        ({
            let s1 = v0.detected(basemem, extmem, ext16mem, ram);
            let pgdir = s1.boot_next();
            &&& ram.len() == (totalmem_of(basemem as int, extmem as int, ext16mem as int) / 4) * 1024
            &&& s1.mem.len() == s1.npages * 1024
            &&& s1.next_free == 0 ==> s1.end + 4096 <= u32::MAX
            &&& pgdir + 4096 + 4096 <= u32::MAX
            &&& pgdir >= KERNBASE
            &&& (pgdir - KERNBASE) / 4 + 1024 <= s1.mem.len()
        }),
{
    reveal(PmapView::mem_init_ok);
}

/// The steps of `mem_init`, one after the other, and what each needs.
#[verifier::spinoff_prover]
proof fn lemma_mem_init_chain(v0: PmapView, basemem: u16, extmem: u16, ext16mem: u16, ram: Seq<u32>, bootstacktop: u32)
    requires
        v0.wf(),
        v0.mem_init_ok(basemem, extmem, ext16mem, ram, bootstacktop),
    ensures
        ({
            let s1 = v0.detected(basemem, extmem, ext16mem, ram);
            let pgdir = s1.boot_next();
            let s4 = v0.mi_dir(basemem, extmem, ext16mem, ram);
            let s5 = v0.mi_pages(basemem, extmem, ext16mem, ram);
            let s7 = v0.mi_free(basemem, extmem, ext16mem, ram);
            let s8 = v0.mi_upages(basemem, extmem, ext16mem, ram);
            let s9 = v0.mi_stack(basemem, extmem, ext16mem, ram, bootstacktop);
            let n = s1.npages as int;
            &&& s1.next_free == 0 ==> s1.end + 4096 <= u32::MAX
            &&& pgdir + 4096 + 4096 <= u32::MAX
            &&& pgdir >= KERNBASE
            &&& (pgdir - KERNBASE) / 4 + 1024 <= s1.mem.len()
            &&& s4.kern_pgdir == pgdir
            &&& s4.npages == n
            &&& s4.next_free != 0
            &&& s4.boot_next() >= pgdir + 4096
            &&& s4.boot_next() % 4096 == 0
            &&& s4.boot_next() + n * PAGEINFO_SIZE + 4096 <= u32::MAX
            &&& s5 == (PmapView {
                pages_kva: s4.boot_next() as u32,
                pages: Seq::new(s4.npages as nat, |i: int| PageInfo { pp_link: None, pp_ref: 0 }),
                head: None,
                free: Seq::empty(),
                ..s4.boot_alloced(s4.npages * PAGEINFO_SIZE)
            })
            &&& n >= 1
            &&& s5.npages_basemem <= IOPHYSMEM / PGSIZE
            &&& s5.boot_next() + 4096 <= u32::MAX
            &&& s5.boot_next() >= KERNBASE + IOPHYSMEM
            &&& (s5.boot_next() - KERNBASE) / 4096 < n
            &&& s5.after_page_init().free.len() >= 2
            &&& s7 == s5.after_page_init().after_relocate()
            &&& s7.kern_pgdir == pgdir
            &&& s7.pages_kva == s4.boot_next()
            &&& s7.npages == n
            &&& s7.map_ok(pgdir, UPAGES as int, s7.pages_kva - KERNBASE, PTE_U, s7.upages_pages())
            &&& s8 == s7.map(pgdir, UPAGES as int, s7.pages_kva - KERNBASE, PTE_U, s7.upages_pages())
            &&& s8.kern_pgdir == pgdir
            &&& bootstacktop >= KSTKSIZE
            &&& rounddown_of(bootstacktop - KSTKSIZE, 4096) >= KERNBASE
            &&& s8.map_ok(pgdir, KSTACKTOP - KSTKSIZE, PmapView::stack_pa(bootstacktop), PTE_W, (KSTKSIZE / 4096) as nat)
            &&& s9 == s8.map(pgdir, KSTACKTOP - KSTKSIZE, PmapView::stack_pa(bootstacktop), PTE_W, (KSTKSIZE / 4096) as nat)
            &&& s9.kern_pgdir == pgdir
            &&& s9.map_ok(pgdir, KERNBASE as int, 0, PTE_W, (KERNBASE_MAP_SIZE / 4096) as nat)
            &&& v0.after_mem_init(basemem, extmem, ext16mem, ram, bootstacktop) == s9.map(
                pgdir,
                KERNBASE as int,
                0,
                PTE_W,
                (KERNBASE_MAP_SIZE / 4096) as nat,
            )
        }),
{
    reveal(PmapView::mem_init_ok);
    reveal(PmapView::mi_dir);
    reveal(PmapView::mi_pages);
    reveal(PmapView::mi_free);
    reveal(PmapView::mi_upages);
    reveal(PmapView::mi_stack);
    reveal(PmapView::after_mem_init);
    let s1 = v0.detected(basemem, extmem, ext16mem, ram);
    let pgdir = s1.boot_next();
    crate::util::types::lemma_roundup(s1.end as int, 4096);
    crate::util::types::lemma_roundup(pgdir + 4096, 4096);
    let s7 = v0.mi_free(basemem, extmem, ext16mem, ram);
    let s8 = v0.mi_upages(basemem, extmem, ext16mem, ram);
    lemma_map_keeps(s7, pgdir, UPAGES as int, s7.pages_kva - KERNBASE, PTE_U, s7.upages_pages());
    lemma_map_keeps(s8, pgdir, KSTACKTOP - KSTKSIZE, PmapView::stack_pa(bootstacktop), PTE_W, (KSTKSIZE / 4096) as nat);
}

/// Taking the head of the free list keeps the manager well formed.
proof fn lemma_after_alloc_wf(v: PmapView, alloc_flags: u32)
    requires
        v.wf(),
        v.free.len() > 0,
    ensures
        v.after_alloc(alloc_flags).wf(),
{
    reveal(PmapView::free_list_wf);
    let w = v.after_alloc(alloc_flags);
    let pp = v.free[0];
    assert(v.pages[pp as int].pp_link == next_of(v.free, 0));
    lemma_next_of(v.free, 0);
    assert forall|k: int| 0 <= k < w.free.len() implies {
        &&& (w.free[k] as int) < w.pages.len()
        &&& w.pages[w.free[k] as int].pp_link == next_of(w.free, k)
        &&& w.pages[w.free[k] as int].pp_ref == 0
    } by {
        assert(w.free[k] == v.free[k + 1]);
        lemma_next_of(w.free, k);
        lemma_next_of(v.free, k + 1);
        assert(v.free[k + 1] != v.free[0]);
        assert(v.free[k + 1] == #[trigger] v.free[k + 1]);
    }
    assert(w.free.no_duplicates());
}

/// Well-formedness depends on memory only through its size.
proof fn lemma_wf_frame(v: PmapView, w: PmapView)
    requires
        v.wf(),
        w.free == v.free,
        w.head == v.head,
        w.pages == v.pages,
        w.mem.len() == w.npages * 1024,
        w.next_free % 4096 == 0,
    ensures
        w.wf(),
{
    reveal(PmapView::free_list_wf);
}

/// Well-formedness depends on the descriptors of free pages only.
proof fn lemma_wf_pages_frame(v: PmapView, w: PmapView)
    requires
        v.wf(),
        w.free == v.free,
        w.head == v.head,
        w.pages.len() == v.pages.len(),
        forall|k: int| 0 <= k < v.free.len() ==> w.pages[#[trigger] v.free[k] as int] == v.pages[v.free[k] as int],
        w.mem.len() == w.npages * 1024,
        w.next_free % 4096 == 0,
    ensures
        w.wf(),
{
    reveal(PmapView::free_list_wf);
}

/// An empty free list is well formed.
proof fn lemma_empty_free_wf(w: PmapView)
    requires
        w.free.len() == 0,
        w.head is None,
        w.mem.len() == w.npages * 1024,
        w.next_free % 4096 == 0,
    ensures
        w.wf(),
{
    reveal(PmapView::free_list_wf);
}

/// The pages on a well-formed free list are descriptors with no
/// references, each linked to the next.
proof fn lemma_free_pages(v: PmapView)
    requires
        v.wf(),
    ensures
        v.free.no_duplicates(),
        forall|k: int|
            #![trigger v.free[k]]
            0 <= k < v.free.len() ==> {
                &&& (v.free[k] as int) < v.pages.len()
                &&& v.pages[v.free[k] as int].pp_link == next_of(v.free, k)
                &&& v.pages[v.free[k] as int].pp_ref == 0
            },
{
    reveal(PmapView::free_list_wf);
}

/// The successor of position `k`.
proof fn lemma_next_of(s: Seq<usize>, k: int)
    ensures
        next_of(s, k) == (if k + 1 < s.len() { Some(s[k + 1]) } else { None }),
{
    reveal(next_of);
}

/// Successors on a list with a page pushed in front.
proof fn lemma_next_of_push(pp: usize, s: Seq<usize>, k: int)
    requires
        0 <= k <= s.len(),
    ensures
        next_of(seq![pp] + s, k) == (if k == 0 {
            if s.len() == 0 { None } else { Some(s[0]) }
        } else {
            next_of(s, k - 1)
        }),
{
    reveal(next_of);
}

/// Pushing a page that is not on the free list keeps the manager well
/// formed.
#[verifier::spinoff_prover]
#[verifier::rlimit(50)]
proof fn lemma_after_free_wf(v: PmapView, pp: usize)
    requires
        v.wf(),
        (pp as int) < v.pages.len(),
        !v.free.contains(pp),
    ensures
        v.after_free(pp).wf(),
{
    reveal(PmapView::free_list_wf);
    let w = v.after_free(pp);
    assert forall|k: int| 0 <= k < w.free.len() implies {
        &&& (w.free[k] as int) < w.pages.len()
        &&& w.pages[w.free[k] as int].pp_link == next_of(w.free, k)
        &&& w.pages[w.free[k] as int].pp_ref == 0
    } by {
        lemma_next_of_push(pp, v.free, k);
        if k > 0 {
            assert(w.free[k] == v.free[k - 1]);
            assert(v.free[k - 1] == #[trigger] v.free[k - 1]);
            assert(v.free[k - 1] != pp);
        }
    }
    assert forall|i: int, j: int| 0 <= i < w.free.len() && 0 <= j < w.free.len() && i != j
        implies w.free[i] != w.free[j] by {
        if i > 0 && j > 0 {
            assert(w.free[i] == v.free[i - 1]);
            assert(w.free[j] == v.free[j - 1]);
        } else if i == 0 {
            assert(w.free[j] == v.free[j - 1]);
        } else {
            assert(w.free[i] == v.free[i - 1]);
        }
    }
}

/// Changing the descriptor or memory of pages off the free list keeps the
/// manager well formed.
proof fn lemma_update_non_free_wf(v: PmapView, w: PmapView, pp: usize)
    requires
        v.wf(),
        !v.free.contains(pp),
        w.pages.len() == v.pages.len(),
        forall|i: int| 0 <= i < v.pages.len() && i != pp ==> w.pages[i] == v.pages[i],
        w.free == v.free,
        w.head == v.head,
        w.mem.len() == v.mem.len(),
        w.npages == v.npages,
        w.next_free == v.next_free,
    ensures
        w.wf(),
{
    reveal(PmapView::free_list_wf);
    assert forall|k: int| 0 <= k < w.free.len() implies {
        &&& (w.free[k] as int) < w.pages.len()
        &&& w.pages[w.free[k] as int].pp_link == next_of(w.free, k)
        &&& w.pages[w.free[k] as int].pp_ref == 0
    } by {
        assert(v.free[k] == #[trigger] v.free[k]);
        assert(v.free[k] != pp);
        assert(w.pages[v.free[k] as int] == v.pages[v.free[k] as int]);
    }
}

/// A page-aligned physical address with a kernel virtual address leaves
/// room for a whole page above that virtual address.
proof fn lemma_page_kva_room(pa: int)
    requires
        0 <= pa,
        pa % 4096 == 0,
        pa + KERNBASE <= u32::MAX,
    ensures
        pa + KERNBASE + 4096 <= 0x1_0000_0000,
{
}

/// Page physical addresses are page aligned.
proof fn lemma_page2pa_aligned(pp: int)
    requires
        0 <= pp,
    ensures
        page2pa_of(pp) % 4096 == 0,
{
    assert(((pp * 4096) % 0x1_0000_0000) % 4096 == 0) by (nonlinear_arith)
        requires pp >= 0;
}

/// Walking keeps the manager well formed.
proof fn lemma_walk_wf(v: PmapView, pgdir: int, va: int, create: bool)
    requires
        v.wf(),
        v.walk_ok(pgdir, va, create),
    ensures
        v.walk(pgdir, va, create).0.wf(),
{
    let e = v.pde(pgdir, va);
    if !present(e) && create && v.free.len() > 0 {
        let pp = v.free[0];
        lemma_free_pages(v);
        lemma_after_alloc_wf(v, ALLOC_ZERO);
        let a = v.after_alloc(ALLOC_ZERO);
        assert(!a.free.contains(pp)) by {
            assert forall|k: int| 0 <= k < a.free.len() implies a.free[k] != pp by {
                assert(a.free[k] == v.free[k + 1]);
            }
        }
        let w = v.walk(pgdir, va, create).0;
        lemma_update_non_free_wf(a, w, pp);
    }
}

impl Pmap {
    /// The manager's view is well formed: see `PmapView::wf`.
    pub open spec fn wf(&self) -> bool {
        self@.wf()
    }

    /// A memory manager before memory detection: no pages, nothing
    /// allocated. `end` is the first kernel virtual address past the
    /// kernel image.
    pub fn new(end: u32) -> (r: Pmap)
        ensures
            r.wf(),
            r@.wf(),
            r@.head is None,
            r@.npages == 0,
            r@.npages_basemem == 0,
            r@.end == end,
            r@.next_free == 0,
            r@.kern_pgdir == 0,
            r@.pages_kva == 0,
            r@.pages.len() == 0,
            r@.free.len() == 0,
            r@.mem.len() == 0,
    {
        proof {
            lemma_empty_free_wf(PmapView {
                npages: 0,
                npages_basemem: 0,
                end,
                next_free: 0,
                kern_pgdir: 0,
                pages_kva: 0,
                head: None,
                pages: Seq::empty(),
                free: Seq::empty(),
                mem: Seq::empty(),
            });
        }
        Pmap {
            npages: 0,
            npages_basemem: 0,
            end,
            next_free: 0,
            kern_pgdir: 0,
            pages_kva: 0,
            page_free_list: None,
            pages: Vec::new(),
            free: Ghost(Seq::empty()),
            mem: Vec::new(),
        }
    }

    /// The physical address of page `pp`: its number in the page array
    /// times the page size, so that `pa2page` and `kaddr` invert it and the
    /// pages of detected memory lie below `npages * PGSIZE`.  Descriptors
    /// are counted, not measured in bytes: a descriptor's byte offset in the
    /// array (`PAGEINFO_SIZE` times its number) is not its page number.
    pub fn page2pa(&self, pp: usize) -> (r: u32)
        requires
            pp < self@.pages.len(),
        ensures
            r == page2pa_of(pp as int),
    {
        let r = (pp as u32) << 12u32;
        assert(((pp as u32) << 12u32) == ((pp * 4096) % 0x1_0000_0000) as u32) by (bit_vector);
        r
    }

    pub fn pa2page(&self, pa: u32) -> (r: usize)
        requires
            pgnum_of(pa as int) < self@.npages,
        ensures
            r == pgnum_of(pa as int),
    {
        pgnum(pa as usize)
    }

    pub fn kaddr(&self, pa: u32) -> (r: u32)
        requires
            self@.kva_ok(pa as int),
        ensures
            r == pa + KERNBASE,
    {
        pa + KERNBASE as u32
    }

    pub fn page2kva(&self, pp: usize) -> (r: u32)
        requires
            pp < self@.pages.len(),
            self@.kva_ok(page2pa_of(pp as int) as int),
        ensures
            r == page2pa_of(pp as int) + KERNBASE,
    {
        let pa = self.page2pa(pp);
        self.kaddr(pa)
    }

    /// Records the memory sizes read from NVRAM and returns the total
    /// memory in KiB.  `ram` is physical memory as the machine holds it, one
    /// 32-bit word per four bytes of the detected size; it is kept as it
    /// is.
    pub fn i386_detect_memory(&mut self, basemem: u16, extmem: u16, ext16mem: u16, ram: Vec<u32>) -> (totalmem: usize)
        requires
            old(self).wf(),
            ram@.len() == (totalmem_of(basemem as int, extmem as int, ext16mem as int) / 4) * 1024,
        ensures
            final(self).wf(),
            totalmem == totalmem_of(basemem as int, extmem as int, ext16mem as int),
            ext16mem > 0 ==> totalmem == 16384 + 64 * ext16mem,
            ext16mem == 0 && extmem > 0 ==> totalmem == 1024 + extmem,
            ext16mem == 0 && extmem == 0 ==> totalmem == basemem,
            final(self)@.npages == totalmem / 4,
            final(self)@.npages_basemem == basemem / 4,
            final(self)@.mem == ram@,
            final(self)@ == old(self)@.detected(basemem, extmem, ext16mem, ram@),
    {
        let basemem: usize = basemem as usize;
        let extmem: usize = extmem as usize;
        let ext16mem: usize = ext16mem as usize * 64;
        let totalmem: usize;
        if ext16mem > 0 {
            totalmem = 16 * 1024 + ext16mem;
        } else if extmem > 0 {
            totalmem = 1 * 1024 + extmem;
        } else {
            totalmem = basemem;
        }
        assert(totalmem <= 16 * 1024 + 65535 * 64);
        self.npages = totalmem / (PGSIZE / 1024);
        self.npages_basemem = basemem / (PGSIZE / 1024);
        self.mem = ram;
        proof {
            lemma_wf_frame(old(self)@, self@);
        }
        totalmem
    }

    fn memset_page(&mut self, kva: u32, c: u8)
        requires
            kva >= KERNBASE,
            (kva - KERNBASE) % 4096 == 0,
            (kva - KERNBASE) / 4 + 1024 <= old(self)@.mem.len(),
        ensures
            final(self)@ == (PmapView { mem: fill_page(old(self)@.mem, kva - KERNBASE, byte_word(c)), ..old(self)@ }),
    {
        let w: u32 = (c as u32) * 0x01010101;
        let base: usize = ((kva - KERNBASE as u32) / 4) as usize;
        let mut i: usize = 0;
        while i < 1024
            invariant
                0 <= i <= 1024,
                base == (kva - KERNBASE) / 4,
                base + 1024 <= self.mem@.len(),
                w == byte_word(c),
                self@ == (PmapView { mem: self@.mem, ..old(self)@ }),
                self.mem@.len() == old(self).mem@.len(),
                forall|j: int| 0 <= j < self.mem@.len() ==> #[trigger] self.mem@[j] == (
                    if base <= j < base + i { w } else { old(self).mem@[j] }),
            decreases 1024 - i,
        {
            self.mem.set(base + i, w);
            i = i + 1;
        }
        proof {
            assert(self.mem@ =~= fill_page(old(self)@.mem, kva - KERNBASE, byte_word(c)));
        }
    }

    fn read_word(&self, kva: u32) -> (r: u32)
        requires
            self@.word_ok(kva as int),
        ensures
            r == self@.word(kva as int),
    {
        self.mem[((kva - KERNBASE as u32) / 4) as usize]
    }

    fn write_word(&mut self, kva: u32, v: u32)
        requires
            old(self)@.word_ok(kva as int),
        ensures
            final(self)@ == (PmapView { mem: old(self)@.mem.update((kva - KERNBASE) / 4, v), ..old(self)@ }),
    {
        self.mem.set(((kva - KERNBASE as u32) / 4) as usize, v);
    }

    /// The first part of `mem_init`: detects memory and sets up the page
    /// directory.
    #[verifier::spinoff_prover]
    #[verifier::rlimit(40)]
    fn mem_init_dir(&mut self, basemem: u16, extmem: u16, ext16mem: u16, ram: Vec<u32>, bootstacktop: u32) -> (totalmem: usize)
        requires
            old(self).wf(),
            old(self)@.mem_init_ok(basemem, extmem, ext16mem, ram@, bootstacktop),
        ensures
            final(self).wf(),
            totalmem == totalmem_of(basemem as int, extmem as int, ext16mem as int),
            final(self)@ == old(self)@.mi_dir(basemem, extmem, ext16mem, ram@),
    {
        let ghost v0 = self@;
        let ghost rs = ram@;
        proof {
            lemma_mem_init_dir_room(v0, basemem, extmem, ext16mem, rs, bootstacktop);
        }
        let totalmem = self.i386_detect_memory(basemem, extmem, ext16mem, ram);
        assert(self@ == v0.detected(basemem, extmem, ext16mem, rs));
        let pgdir = self.boot_alloc(PGSIZE);
        self.kern_pgdir = pgdir;
        proof {
            crate::util::types::lemma_roundup(self@.end as int, 4096);
            lemma_wf_frame(v0.detected(basemem, extmem, ext16mem, rs).boot_alloced(4096), self@);
        }
        self.memset_page(pgdir, 0);
        let uvpt_slot: u32 = pgdir + (pdx(UVPT) as u32) * 4;
        self.write_word(uvpt_slot, paddr(pgdir) | PTE_U | PTE_P);
        proof {
            lemma_wf_frame(v0.detected(basemem, extmem, ext16mem, rs), self@);
            reveal(PmapView::mi_dir);
            assert(self@ == v0.mi_dir(basemem, extmem, ext16mem, rs));
        }
        totalmem
    }

    /// The second part of `mem_init`: allocates the page array and builds,
    /// relocates and checks the free list.
    #[verifier::spinoff_prover]
    #[verifier::rlimit(40)]
    fn mem_init_pages(
        &mut self,
        Ghost(v0): Ghost<PmapView>,
        basemem: u16,
        extmem: u16,
        ext16mem: u16,
        Ghost(ram): Ghost<Seq<u32>>,
        bootstacktop: u32,
    )
        requires
            old(self).wf(),
            v0.wf(),
            v0.mem_init_ok(basemem, extmem, ext16mem, ram, bootstacktop),
            old(self)@ == v0.mi_dir(basemem, extmem, ext16mem, ram),
        ensures
            final(self).wf(),
            final(self)@ == v0.mi_free(basemem, extmem, ext16mem, ram),
    {
        proof {
            lemma_mem_init_chain(v0, basemem, extmem, ext16mem, ram, bootstacktop);
        }
        let pages_kva = self.boot_alloc(self.npages * PAGEINFO_SIZE);
        self.pages_kva = pages_kva;
        self.pages = vec![PageInfo { pp_link: None, pp_ref: 0 }; self.npages];
        self.page_free_list = None;
        proof {
            self.free@ = Seq::empty();
            assert(self@.pages =~= Seq::new(self@.npages as nat, |i: int| PageInfo { pp_link: None, pp_ref: 0 }));
            lemma_empty_free_wf(self@);
            assert(self@ == v0.mi_pages(basemem, extmem, ext16mem, ram));
        }
        self.page_init();
        self.relocate_page_free_list(true);
        proof {
            lemma_free_pages(self@);
            lemma_filter_split_len(v0.mi_pages(basemem, extmem, ext16mem, ram).after_page_init().free.drop_last());
        }
        self.check_page_free_list();
    }

    /// Sets up physical memory management: detects memory from the NVRAM
    /// sizes, allocates and zeroes the page directory (mapping itself at
    /// `UVPT`), allocates the page array, builds and relocates the free
    /// list, checks it, and maps the page array at `UPAGES`, the kernel
    /// stack below `KSTACKTOP` and all physical memory at `KERNBASE`.
    /// Returns the total memory in KiB.
    #[verifier::spinoff_prover]
    #[verifier::rlimit(80)]
    pub fn mem_init(&mut self, basemem: u16, extmem: u16, ext16mem: u16, ram: Vec<u32>, bootstacktop: u32) -> (totalmem: usize)
        requires
            old(self).wf(),
            old(self)@.mem_init_ok(basemem, extmem, ext16mem, ram@, bootstacktop),
        ensures
            final(self).wf(),
            totalmem == totalmem_of(basemem as int, extmem as int, ext16mem as int),
            final(self)@ == old(self)@.after_mem_init(basemem, extmem, ext16mem, ram@, bootstacktop),
    {
        let ghost v0 = self@;
        let ghost rs = ram@;
        proof {
            lemma_mem_init_chain(v0, basemem, extmem, ext16mem, rs, bootstacktop);
        }
        let totalmem = self.mem_init_dir(basemem, extmem, ext16mem, ram, bootstacktop);
        self.mem_init_pages(Ghost(v0), basemem, extmem, ext16mem, Ghost(rs), bootstacktop);
        proof {
            crate::util::types::lemma_roundup(self@.npages * PAGEINFO_SIZE, 4096);
        }
        let upages_size = roundup((self.npages * PAGEINFO_SIZE) as u32, PGSIZE as u32) as usize;
        let pages_pa = paddr(self.pages_kva);
        self.boot_map_region(self.kern_pgdir, UPAGES as u32, upages_size, pages_pa, PTE_U);
        proof {
            crate::util::types::lemma_rounddown(bootstacktop - KSTKSIZE, 4096);
        }
        let stack_paddr = paddr(rounddown(bootstacktop - (KSTKSIZE as u32), PGSIZE as u32));
        self.boot_map_region(self.kern_pgdir, (KSTACKTOP - KSTKSIZE) as u32, KSTKSIZE, stack_paddr, PTE_W);
        self.boot_map_region(self.kern_pgdir, KERNBASE as u32, KERNBASE_MAP_SIZE, 0, PTE_W);
        totalmem
    }

    /// The number of pages of detected memory.
    pub fn npages(&self) -> (r: usize)
        ensures
            r == self@.npages,
    {
        self.npages
    }

    /// The number of pages of base memory.
    pub fn npages_basemem(&self) -> (r: usize)
        ensures
            r == self@.npages_basemem,
    {
        self.npages_basemem
    }

    /// The kernel virtual address of the kernel's page directory (`0`
    /// before `mem_init`).
    pub fn kern_pgdir(&self) -> (r: u32)
        ensures
            r == self@.kern_pgdir,
    {
        self.kern_pgdir
    }

    /// The kernel virtual address of the page array (`0` before
    /// `mem_init`).
    pub fn pages_kva(&self) -> (r: u32)
        ensures
            r == self@.pages_kva,
    {
        self.pages_kva
    }

    /// Where the boot allocator hands out memory next (`0` before its
    /// first use).
    pub fn next_free(&self) -> (r: u32)
        ensures
            r == self@.next_free,
    {
        self.next_free
    }

    /// The number of page descriptors.
    pub fn pages_len(&self) -> (r: usize)
        ensures
            r == self@.pages.len(),
    {
        self.pages.len()
    }

    /// The descriptor of page `pp`.
    pub fn page_info(&self, pp: usize) -> (r: PageInfo)
        requires
            pp < self@.pages.len(),
        ensures
            r == self@.pages[pp as int],
    {
        self.pages[pp]
    }

    /// The word of physical memory at physical address `pa`.
    pub fn read_phys(&self, pa: u32) -> (r: u32)
        requires
            pa % 4 == 0,
            pa / 4 < self@.mem.len(),
        ensures
            r == self@.mem[(pa / 4) as int],
    {
        self.mem[(pa / 4) as usize]
    }

    /// The number of words of modelled physical memory.
    pub fn mem_words(&self) -> (r: usize)
        ensures
            r == self@.mem.len(),
    {
        self.mem.len()
    }

    /// Sets the boot allocator to the first page boundary past the kernel.
    fn nextfree_init(&mut self)
        requires
            old(self).wf(),
            old(self)@.end + PGSIZE <= u32::MAX,
        ensures
            final(self).wf(),
            final(self)@ == (PmapView { next_free: roundup_of(old(self)@.end as int, 4096) as u32, ..old(self)@ }),
    {
        proof {
            crate::util::types::lemma_roundup(self.end as int, 4096);
        }
        self.next_free = roundup(self.end, PGSIZE as u32);
        proof {
            lemma_wf_frame(old(self)@, self@);
        }
    }

    /// Allocates `n` bytes of boot memory: returns the kernel virtual
    /// address of the next free byte, then moves it past `n` bytes to a page
    /// boundary.  The first call starts at the first page boundary past the
    /// kernel.
    pub fn boot_alloc(&mut self, n: usize) -> (r: u32)
        requires
            old(self).wf(),
            old(self)@.next_free == 0 ==> old(self)@.end + PGSIZE <= u32::MAX,
            (if old(self)@.next_free == 0 {
                roundup_of(old(self)@.end as int, 4096)
            } else {
                old(self)@.next_free as int
            }) + n + PGSIZE <= u32::MAX,
        ensures
            final(self).wf(),
            r == (if old(self)@.next_free == 0 {
                roundup_of(old(self)@.end as int, 4096)
            } else {
                old(self)@.next_free as int
            }),
            final(self)@ == (PmapView { next_free: roundup_of(r + n, 4096) as u32, ..old(self)@ }),
    {
        if self.next_free == 0 {
            self.nextfree_init();
        }
        let result = self.next_free;
        proof {
            crate::util::types::lemma_roundup(result + n, 4096);
        }
        self.next_free = roundup((result as usize + n) as u32, PGSIZE as u32);
        proof {
            lemma_wf_frame(old(self)@, self@);
        }
        result
    }

    /// Puts page `pp` back on the head of the free list.  The page must
    /// have no references and no successor.  Unless it was on the list
    /// already, the manager stays well formed.
    pub fn page_free(&mut self, pp: usize)
        requires
            old(self).wf(),
            pp < old(self)@.pages.len(),
            old(self)@.pages[pp as int].pp_ref == 0,
            old(self)@.pages[pp as int].pp_link is None,
        ensures
            final(self)@ == old(self)@.after_free(pp),
            !old(self)@.free.contains(pp) ==> final(self).wf(),
    {
        let head = self.page_free_list;
        self.pages.set(pp, PageInfo { pp_link: head, pp_ref: 0 });
        self.page_free_list = Some(pp);
        proof {
            self.free@ = seq![pp] + self.free@;
            assert(self@ == old(self)@.after_free(pp));
            if !old(self)@.free.contains(pp) {
                lemma_after_free_wf(old(self)@, pp);
            }
        }
    }

    /// Drops one reference to page `pp`, freeing it when none is left.
    pub fn page_decref(&mut self, pp: usize)
        requires
            old(self).wf(),
            pp < old(self)@.pages.len(),
            old(self)@.pages[pp as int].pp_ref != 0,
            old(self)@.pages[pp as int].pp_ref == 1 ==> old(self)@.pages[pp as int].pp_link is None,
        ensures
            final(self).wf(),
            old(self)@.pages[pp as int].pp_ref > 1 ==> final(self)@ == (PmapView {
                pages: old(self)@.pages.update(
                    pp as int,
                    PageInfo {
                        pp_ref: (old(self)@.pages[pp as int].pp_ref - 1) as u16,
                        ..old(self)@.pages[pp as int]
                    },
                ),
                ..old(self)@
            }),
            old(self)@.pages[pp as int].pp_ref == 1 ==> final(self)@ == old(self)@.after_free(pp),
    {
        proof {
            reveal(PmapView::free_list_wf);
            if old(self)@.free.contains(pp) {
                let k = choose|k: int| 0 <= k < old(self)@.free.len() && old(self)@.free[k] == pp;
                assert(old(self)@.pages[old(self)@.free[k] as int].pp_ref == 0);
            }
        }
        let info = self.pages[pp];
        self.pages.set(pp, PageInfo { pp_link: info.pp_link, pp_ref: info.pp_ref - 1 });
        proof {
            lemma_update_non_free_wf(old(self)@, self@, pp);
        }
        if info.pp_ref - 1 == 0 {
            self.page_free(pp);
            proof {
                assert(self@.pages =~= old(self)@.after_free(pp).pages);
            }
        }
    }

    /// Finds the page table entry for `va` under the page directory at
    /// kernel virtual address `pgdir`, creating its page table when it is
    /// missing and `create` holds; returns the entry's kernel virtual
    /// address, or `None`.
    #[verifier::spinoff_prover]
    #[verifier::rlimit(60)]
    pub fn pgdir_walk(&mut self, pgdir: u32, va: u32, create: bool) -> (r: Option<u32>)
        requires
            old(self).wf(),
            old(self)@.walk_ok(pgdir as int, va as int, create),
        ensures
            final(self).wf(),
            (final(self)@, r) == old(self)@.walk(pgdir as int, va as int, create),
    {
        proof {
            lemma_walk_wf(self@, pgdir as int, va as int, create);
            lemma_free_pages(self@);
        }
        let d = pdx(va as usize);
        let slot: u32 = pgdir + (d as u32) * 4;
        proof {
            assert(self@.word_ok(slot as int));
            assert((slot - KERNBASE) / 4 == pde_index(pgdir as int, va as int));
        }
        let e = self.read_word(slot);
        if e & PTE_P != 0 {
            let table = pte_addr(e);
            proof {
                crate::mmu::lemma_pte_addr_aligned(e);
                lemma_page_kva_room(table as int);
            }
            let pgtable = self.kaddr(table);
            Some(pgtable + (ptx(va as usize) as u32) * 4)
        } else if create {
            match self.page_alloc(ALLOC_ZERO) {
                None => None,
                Some(pp) => {
                    let info = self.pages[pp];
                    self.pages.set(pp, PageInfo { pp_link: info.pp_link, pp_ref: info.pp_ref + 1 });
                    let pa = self.page2pa(pp);
                    proof {
                        lemma_page2pa_aligned(pp as int);
                        lemma_page_kva_room(pa as int);
                    }
                    self.write_word(slot, pa | PTE_P | PTE_W | PTE_U);
                    let t = self.kaddr(pa);
                    proof {
                        assert(self@.pages =~= old(self)@.walk(pgdir as int, va as int, create).0.pages);
                    }
                    Some(t + (ptx(va as usize) as u32) * 4)
                },
            }
        } else {
            None
        }
    }

    /// Maps the `size` bytes of virtual memory from `va` to physical memory
    /// from `pa` with permissions `perm`, under the page directory at kernel
    /// virtual address `pgdir`, creating page tables as needed.
    #[verifier::spinoff_prover]
    #[verifier::rlimit(60)]
    pub fn boot_map_region(&mut self, pgdir: u32, va: u32, size: usize, pa: u32, perm: u32)
        requires
            old(self).wf(),
            va % 4096 == 0,
            pa % 4096 == 0,
            size % 4096 == 0,
            va + size <= 0x1_0000_0000,
            pa + size <= 0x1_0000_0000,
            old(self)@.map_ok(pgdir as int, va as int, pa as int, perm, (size / 4096) as nat),
        ensures
            final(self).wf(),
            final(self)@ == old(self)@.map(pgdir as int, va as int, pa as int, perm, (size / 4096) as nat),
    {
        let mut i: usize = 0;
        while i < size
            invariant
                i <= size,
                i % 4096 == 0,
                size % 4096 == 0,
                va + size <= 0x1_0000_0000,
                pa + size <= 0x1_0000_0000,
                self.wf(),
                self@.map_ok(pgdir as int, va + i, pa + i, perm, ((size - i) / 4096) as nat),
                self@.map(pgdir as int, va + i, pa + i, perm, ((size - i) / 4096) as nat)
                    == old(self)@.map(pgdir as int, va as int, pa as int, perm, (size / 4096) as nat),
            decreases size - i,
        {
            proof {
                assert(((size - i) / 4096) as nat - 1 == ((size - (i + 4096)) / 4096) as nat);
                lemma_walk_slot_ok(self@, pgdir as int, va + i, true);
            }
            let te = self.pgdir_walk(pgdir, va + i as u32, true);
            let te = te.unwrap();
            let ghost before = self@;
            self.write_word(te, (pa + i as u32) | perm | PTE_P);
            proof {
                lemma_wf_frame(before, self@);
            }
            i = i + PGSIZE;
        }
    }

    /// Builds the page descriptors and the free list: page 0, the IO hole
    /// and the pages from the end of base memory up to the boot allocator's
    /// next free page are in use (one reference, no link); the other pages
    /// are free, pushed in increasing order so that the list runs from the
    /// highest.
    #[verifier::spinoff_prover]
    #[verifier::rlimit(60)]
    pub fn page_init(&mut self)
        requires
            old(self).wf(),
            old(self)@.pages.len() == old(self)@.npages,
            old(self)@.npages >= 1,
            old(self)@.npages_basemem <= IOPHYSMEM / PGSIZE,
            old(self)@.next_free == 0 ==> old(self)@.end + PGSIZE <= u32::MAX,
            old(self)@.boot_next() + PGSIZE <= u32::MAX,
            old(self)@.boot_next() >= KERNBASE + IOPHYSMEM,
            (old(self)@.boot_next() - KERNBASE) / 4096 < old(self)@.npages,
        ensures
            final(self).wf(),
            final(self)@.free == init_free_seq(
                old(self)@.npages_basemem as int,
                (old(self)@.boot_next() - KERNBASE) / 4096,
                old(self)@.npages as nat,
            ),
            forall|pp: int| 0 <= pp < old(self)@.npages && !init_free(
                old(self)@.npages_basemem as int,
                (old(self)@.boot_next() - KERNBASE) / 4096,
                pp,
            ) ==> #[trigger] final(self)@.pages[pp] == (PageInfo { pp_link: None, pp_ref: 1 }),
            final(self)@ == (PmapView {
                next_free: old(self)@.boot_next() as u32,
                head: final(self)@.head,
                pages: final(self)@.pages,
                free: final(self)@.free,
                ..old(self)@
            }),
            final(self)@.pages.len() == old(self)@.npages,
            final(self)@ == old(self)@.after_page_init(),
    {
        let ghost b = self.npages_basemem as int;
        self.page_free_list = None;
        proof {
            self.free@ = Seq::empty();
        }
        self.pages.set(0, PageInfo { pp_link: None, pp_ref: 1 });
        proof {
            lemma_empty_free_wf(self@);
        }
        let first = self.boot_alloc(0);
        proof {
            crate::util::types::lemma_roundup(first as int, 4096);
        }
        let first_free_page_pa = paddr(first);
        let first_free_page_index = self.pa2page(first_free_page_pa);
        let ghost f = first_free_page_index as int;
        let ghost s0 = self@;
        proof {
            assert(init_free_seq(b, f, 1) == init_free_seq(b, f, 0));
        }
        let hole_start: usize = if self.npages_basemem < IOPHYSMEM / PGSIZE {
            self.npages_basemem
        } else {
            IOPHYSMEM / PGSIZE
        };
        let mut i: usize = 1;
        while i < self.npages_basemem
            invariant
                1 <= i,
                i <= self.npages_basemem || i == 1,
                self.npages_basemem == b,
                b <= 160,
                f >= 160,
                f < self@.npages,
                self.wf(),
                self@.pages.len() == self@.npages,
                self@.free == init_free_seq(b, f, i as nat),
                forall|j: int| 0 <= j < i && !init_free(b, f, j) ==> #[trigger] self@.pages[j] == (PageInfo { pp_link: None, pp_ref: 1 }),
                self@ == (PmapView { head: self@.head, pages: self@.pages, free: self@.free, ..s0 }),
            decreases b - i,
        {
            let addr = self.page2pa(i);
            if addr >= IOPHYSMEM as u32 && addr < EXTPHYSMEM as u32 {
                proof {
                    lemma_init_free_seq(b, f, i as nat);
                }
                let ghost before = self@;
                self.pages.set(i, PageInfo { pp_link: None, pp_ref: 1 });
                proof {
                    lemma_update_non_free_wf(before, self@, i);
                }
            } else {
                proof {
                    lemma_init_free_seq(b, f, i as nat);
                    lemma_after_free_wf(self@, i);
                }
                let head = self.page_free_list;
                self.pages.set(i, PageInfo { pp_link: head, pp_ref: 0 });
                self.page_free_list = Some(i);
                proof {
                    self.free@ = seq![i] + self.free@;
                }
            }
            i = i + 1;
        }
        let mut i: usize = hole_start;
        while i < first_free_page_index
            invariant
                hole_start == b,
                first_free_page_index == f,
                b <= i <= f,
                b <= 160,
                f >= 160,
                f < self@.npages,
                self.wf(),
                self@.pages.len() == self@.npages,
                self@.free == init_free_seq(b, f, i as nat),
                forall|j: int| 0 <= j < i && !init_free(b, f, j) ==> #[trigger] self@.pages[j] == (PageInfo { pp_link: None, pp_ref: 1 }),
                self@ == (PmapView { head: self@.head, pages: self@.pages, free: self@.free, ..s0 }),
            decreases f - i,
        {
            proof {
                lemma_init_free_seq(b, f, i as nat);
                assert(!init_free(b, f, i as int));
                assert(init_free_seq(b, f, (i + 1) as nat) == init_free_seq(b, f, i as nat));
            }
            let ghost before = self@;
            self.pages.set(i, PageInfo { pp_link: None, pp_ref: 1 });
            proof {
                lemma_update_non_free_wf(before, self@, i);
            }
            i = i + 1;
        }
        let mut i: usize = first_free_page_index;
        while i < self.npages
            invariant
                b <= 160,
                f >= 160,
                f <= i <= self@.npages,
                self.wf(),
                self@.pages.len() == self@.npages,
                self@.free == init_free_seq(b, f, i as nat),
                forall|j: int| 0 <= j < i && !init_free(b, f, j) ==> #[trigger] self@.pages[j] == (PageInfo { pp_link: None, pp_ref: 1 }),
                self@ == (PmapView { head: self@.head, pages: self@.pages, free: self@.free, ..s0 }),
            decreases self@.npages - i,
        {
            let addr = self.page2pa(i);
            if addr >= IOPHYSMEM as u32 && addr < EXTPHYSMEM as u32 {
                proof {
                    lemma_init_free_seq(b, f, i as nat);
                }
                let ghost before = self@;
                self.pages.set(i, PageInfo { pp_link: None, pp_ref: 1 });
                proof {
                    lemma_update_non_free_wf(before, self@, i);
                }
            } else {
                proof {
                    lemma_init_free_seq(b, f, i as nat);
                    lemma_after_free_wf(self@, i);
                }
                let head = self.page_free_list;
                self.pages.set(i, PageInfo { pp_link: head, pp_ref: 0 });
                self.page_free_list = Some(i);
                proof {
                    self.free@ = seq![i] + self.free@;
                }
            }
            i = i + 1;
        }
        proof {
            let t = init_free_seq(b, f, self@.npages as nat);
            lemma_init_free_seq(b, f, self@.npages as nat);
            let base = Seq::new(self@.npages as nat, |i: int| PageInfo { pp_link: None, pp_ref: 1 });
            assert forall|x: int| 0 <= x < base.len() && !self@.free.contains(x as usize) implies #[trigger] self@.pages[x] == base[x] by {
                assert(!init_free(b, f, x));
            }
            lemma_pages_linked(self@, base);
            assert(self@ == old(self)@.after_page_init());
        }
    }

    /// Reorders the free list so that the pages below 4 MiB come first,
    /// when `only_lowmem` holds; the last page of the old list is left off
    /// the new one.  Otherwise the list stays as it is.
    #[verifier::spinoff_prover]
    #[verifier::rlimit(60)]
    pub fn relocate_page_free_list(&mut self, only_lowmem: bool)
        requires
            old(self).wf(),
            old(self)@.free.len() > 0,
            only_lowmem ==> old(self)@.free.len() >= 2,
        ensures
            final(self).wf(),
            !only_lowmem ==> final(self)@ == old(self)@,
            only_lowmem ==> final(self)@.free == relocated(old(self)@.free),
            only_lowmem ==> final(self)@ == old(self)@.after_relocate(),
            only_lowmem ==> final(self)@.pages.len() == old(self)@.pages.len(),
            only_lowmem ==> forall|pp: int| 0 <= pp < old(self)@.pages.len()
                && !relocated(old(self)@.free).contains(pp as usize)
                ==> #[trigger] final(self)@.pages[pp] == old(self)@.pages[pp],
            only_lowmem ==> final(self)@ == (PmapView {
                head: final(self)@.head,
                pages: final(self)@.pages,
                free: final(self)@.free,
                ..old(self)@
            }),
    {
        if !only_lowmem {
            return;
        }
        let ghost s = self@.free;
        proof {
            lemma_free_pages(self@);
        }
        // The free list in order.
        let order = self.free_list();
        // Split all but the last page by where they lie.
        let n = order.len() - 1;
        let mut lows: Vec<usize> = Vec::new();
        let mut highs: Vec<usize> = Vec::new();
        let mut j: usize = 0;
        while j < n
            invariant
                n == s.len() - 1,
                order@ == s,
                j <= n,
                lows@ == s.take(j as int).filter(is_low()),
                highs@ == s.take(j as int).filter(is_high()),
                forall|k: int| #![trigger s[k]] 0 <= k < s.len() ==> (s[k] as int) < self@.pages.len(),
                self@ == old(self)@,
            decreases n - j,
        {
            let p = order[j];
            proof {
                reveal(Seq::filter);
                assert(s.take(j + 1).drop_last() =~= s.take(j as int));
                assert(s.take(j + 1).last() == p);
            }
            let pa = self.page2pa(p);
            if pdx(pa as usize) >= 1 {
                highs.push(p);
            } else {
                lows.push(p);
            }
        j = j + 1;
        }
        proof {
            assert(s.take(n as int) =~= s.drop_last());
        }
        let mut k: usize = 0;
        while k < highs.len()
            invariant
                k <= highs@.len(),
                lows@ == s.drop_last().filter(is_low()) + highs@.take(k as int),
            decreases highs@.len() - k,
        {
            lows.push(highs[k]);
            proof {
                assert(lows@ =~= s.drop_last().filter(is_low()) + highs@.take(k + 1));
            }
            k = k + 1;
        }
        proof {
            assert(highs@.take(highs@.len() as int) =~= highs@);
            assert(lows@ == relocated(s));
            lemma_relocated_no_dup(s);
        }
        // Link the new list.
        let ghost t = lows@;
        let m = lows.len();
        let mut j: usize = 0;
        while j < m
            invariant
                t == lows@,
                m == t.len(),
                t == relocated(s),
                t.no_duplicates(),
                s.len() >= 2,
                forall|x: usize| #[trigger] t.contains(x) ==> s.drop_last().contains(x),
                forall|k: int| #![trigger s[k]] 0 <= k < s.len() ==> (s[k] as int) < old(self)@.pages.len(),
                j <= m,
                self@ == (PmapView { pages: self@.pages, ..old(self)@ }),
                self@.pages.len() == old(self)@.pages.len(),
                forall|i: int| 0 <= i < j ==> #[trigger] self@.pages[t[i] as int] == (PageInfo {
                    pp_link: next_of(t, i),
                    pp_ref: old(self)@.pages[t[i] as int].pp_ref,
                }),
                forall|x: int| 0 <= x < self@.pages.len() && !t.take(j as int).contains(x as usize)
                    ==> #[trigger] self@.pages[x] == old(self)@.pages[x],
            decreases m - j,
        {
            let p = lows[j];
            proof {
                assert(t.contains(p));
                let i0 = choose|i0: int| 0 <= i0 < s.drop_last().len() && s.drop_last()[i0] == p;
                assert(s[i0] == p);
            }
            let link = if j + 1 < m { Some(lows[j + 1]) } else { None };
            let r = self.pages[p].pp_ref;
            proof {
                assert(!t.take(j as int).contains(p)) by {
                    if t.take(j as int).contains(p) {
                        let i1 = choose|i1: int| 0 <= i1 < j && t.take(j as int)[i1] == p;
                        assert(t[i1] == t[j as int]);
                    }
                }
            }
            proof {
                lemma_next_of(t, j as int);
                assert(r == old(self)@.pages[p as int].pp_ref);
                assert(link == next_of(t, j as int));
            }
            let ghost before = self@;
            self.pages.set(p, PageInfo { pp_link: link, pp_ref: r });
            proof {
                assert forall|i: int| 0 <= i < j + 1 implies #[trigger] self@.pages[t[i] as int] == (PageInfo {
                    pp_link: next_of(t, i),
                    pp_ref: old(self)@.pages[t[i] as int].pp_ref,
                }) by {
                    assert(t.contains(t[i]));
                    let i3 = choose|i3: int| 0 <= i3 < s.drop_last().len() && s.drop_last()[i3] == t[i];
                    assert(s[i3] == t[i]);
                    assert((t[i] as int) < before.pages.len());
                    if i < j {
                        assert(t[i] != t[j as int]);
                        assert(before.pages[t[i] as int] == (PageInfo {
                            pp_link: next_of(t, i),
                            pp_ref: old(self)@.pages[t[i] as int].pp_ref,
                        }));
                    }
                }
                assert forall|x: int| 0 <= x < self@.pages.len() && !t.take(j + 1).contains(x as usize)
                    implies #[trigger] self@.pages[x] == old(self)@.pages[x] by {
                    assert(t.take(j + 1)[j as int] == p);
                    if x != p {
                        assert(!t.take(j as int).contains(x as usize)) by {
                            if t.take(j as int).contains(x as usize) {
                                let i2 = choose|i2: int| 0 <= i2 < j && t.take(j as int)[i2] == x as usize;
                                assert(t.take(j + 1)[i2] == x as usize);
                            }
                        }
                    }
                }
            }
            j = j + 1;
        }
        self.page_free_list = if m > 0 { Some(lows[0]) } else { None };
        // The descriptor array's length is a `usize`, as relinking needs.
        let n_pages = self.pages.len();
        proof {
            assert(self@.pages.len() == n_pages);
            self.free@ = t;
            assert(t.take(m as int) =~= t);
            reveal(PmapView::free_list_wf);
            assert forall|k: int| #![trigger t[k]] 0 <= k < t.len() implies {
                &&& (t[k] as int) < self@.pages.len()
                &&& self@.pages[t[k] as int].pp_link == next_of(t, k)
                &&& self@.pages[t[k] as int].pp_ref == 0
            } by {
                assert(t.contains(t[k]));
                let i0 = choose|i0: int| 0 <= i0 < s.drop_last().len() && s.drop_last()[i0] == t[k];
                assert(s[i0] == t[k]);
            }
            assert forall|x: int| 0 <= x < old(self)@.pages.len() && !self@.free.contains(x as usize) implies #[trigger] self@.pages[x] == old(self)@.pages[x] by {
            }
            lemma_pages_linked(self@, old(self)@.pages);
            assert(self@ == old(self)@.after_relocate());
        }
    }

    /// The pages on the free list, from its head.
    pub fn free_list(&self) -> (r: Vec<usize>)
        requires
            self.wf(),
        ensures
            r@ == self@.free,
    {
        let ghost s = self@.free;
        proof {
            lemma_free_pages(self@);
        }
        let mut order: Vec<usize> = Vec::new();
        let mut cur = self.page_free_list;
        while cur.is_some()
            invariant
                s == self@.free,
                self.wf(),
                order@.len() <= s.len(),
                order@ == s.take(order@.len() as int),
                cur == (if order@.len() < s.len() { Some(s[order@.len() as int]) } else { None::<usize> }),
                forall|k: int|
                    #![trigger s[k]]
                    0 <= k < s.len() ==> {
                        &&& (s[k] as int) < self@.pages.len()
                        &&& self@.pages[s[k] as int].pp_link == next_of(s, k)
                    },
            decreases s.len() - order@.len(),
        {
            let p = cur.unwrap();
            proof {
                assert(s[order@.len() as int] == p);
            }
            order.push(p);
            proof {
                assert(order@ =~= s.take(order@.len() as int));
            }
            cur = self.pages[p].pp_link;
            proof {
                lemma_next_of(s, order@.len() - 1);
            }
        }
        proof {
            assert(order@ =~= s);
        }
        order
    }

    /// Checks that every page on the free list is a page of the page
    /// array; the list must not be empty.
    pub fn check_page_free_list(&self)
        requires
            self.wf(),
            self@.free.len() > 0,
            forall|k: int| 0 <= k < self@.free.len() ==> (#[trigger] self@.free[k] as int) < self@.npages,
    {
        let order = self.free_list();
        let mut k: usize = 0;
        while k < order.len()
            invariant
                order@ == self@.free,
                forall|i: int| 0 <= i < self@.free.len() ==> (#[trigger] self@.free[i] as int) < self@.npages,
            decreases order@.len() - k,
        {
            let pp = order[k];
            proof {
                assert(self@.free[k as int] == pp);
            }
            assert(pp < self.npages);
            k = k + 1;
        }
    }

    /// Exercises the allocator: takes three pages, checks that an empty
    /// free list yields nothing, gives the three back to a list that is then
    /// dropped for the rest of the old list, fills the first with ones,
    /// frees it again and allocates it zeroed.  The first three pages leave
    /// the free list: the first zeroed, the other two linked to their
    /// predecessors.
    #[verifier::spinoff_prover]
    #[verifier::rlimit(80)]
    pub fn check_page_alloc(&mut self)
        requires
            old(self).wf(),
            old(self)@.pages_kva != 0,
            old(self)@.free.len() >= 3,
            old(self)@.free.len() <= u32::MAX,
            old(self)@.npages * PGSIZE <= u32::MAX,
            old(self)@.kva_ok(page2pa_of(old(self)@.free[0] as int) as int),
            old(self)@.kva_ok(page2pa_of(old(self)@.free[1] as int) as int),
            old(self)@.kva_ok(page2pa_of(old(self)@.free[2] as int) as int),
        ensures
            final(self).wf(),
            final(self)@ == (PmapView {
                head: final(self)@.head,
                free: old(self)@.free.skip(3),
                pages: old(self)@.pages
                    .update(old(self)@.free[0] as int, PageInfo { pp_link: None, pp_ref: 0 })
                    .update(old(self)@.free[1] as int, PageInfo { pp_link: Some(old(self)@.free[0]), pp_ref: 0 })
                    .update(old(self)@.free[2] as int, PageInfo { pp_link: Some(old(self)@.free[1]), pp_ref: 0 }),
                mem: fill_page(old(self)@.mem, page2pa_of(old(self)@.free[0] as int) as int, 0),
                ..old(self)@
            }),
    {
        let ghost s = self@.free;
        proof {
            lemma_free_pages(self@);
            assert(0u32 & ALLOC_ZERO == 0) by (bit_vector);
            assert(ALLOC_ZERO & ALLOC_ZERO != 0) by (bit_vector);
        }
        let nfree: u32 = self.free_list().len() as u32;
        let pp1 = self.page_alloc(0).unwrap();
        let pp2 = self.page_alloc(0).unwrap();
        let pp3 = self.page_alloc(0).unwrap();
        assert(pp1 != pp2 && pp1 != pp3 && pp2 != pp3);
        let pa1 = self.page2pa(pp1);
        let pa2 = self.page2pa(pp2);
        let pa3 = self.page2pa(pp3);
        let bound: u32 = self.npages as u32 * PGSIZE as u32;
        assert(pa1 < bound && pa2 < bound && pa3 < bound);
        let ghost after3 = self@;
        assert(after3.free =~= s.skip(3));
        let fl = self.page_free_list;
        self.page_free_list = None;
        proof {
            self.free@ = Seq::empty();
            lemma_empty_free_wf(self@);
        }
        let none = self.page_alloc(0);
        assert(none is None);
        self.page_free(pp1);
        self.page_free(pp2);
        proof {
            assert(!self@.free.contains(pp3));
        }
        self.page_free(pp3);
        let ghost freed3 = self@;
        self.page_free_list = fl;
        proof {
            self.free@ = after3.free;
            lemma_wf_pages_frame(after3, self@);
        }
        let kva1 = self.page2kva(pp1);
        proof {
            lemma_page2pa_aligned(pp1 as int);
        }
        let ghost before_fill = self@;
        assert(before_fill.mem == old(self)@.mem);
        self.memset_page(kva1, 1);
        proof {
            lemma_wf_frame(before_fill, self@);
        }
        proof {
            assert(!self@.free.contains(pp1));
        }
        self.page_free(pp1);
        let ghost before_alloc = self@;
        let pp = self.page_alloc(ALLOC_ZERO);
        assert(pp is Some);
        proof {
            let m0 = old(self)@.mem;
            let pa = page2pa_of(pp1 as int) as int;
            assert(before_alloc.mem == fill_page(m0, pa, byte_word(1)));
            assert(self@.mem == fill_page(before_alloc.mem, pa, 0));
            assert(self@.mem =~= fill_page(m0, pa, 0));
            assert(self@.pages =~= old(self)@.pages
                .update(s[0] as int, PageInfo { pp_link: None, pp_ref: 0 })
                .update(s[1] as int, PageInfo { pp_link: Some(s[0]), pp_ref: 0 })
                .update(s[2] as int, PageInfo { pp_link: Some(s[1]), pp_ref: 0 }));
            assert(self@.free =~= s.skip(3));
            assert(self@.npages == old(self)@.npages);
            assert(self@.next_free == old(self)@.next_free);
            assert(self@.kern_pgdir == old(self)@.kern_pgdir);
            assert(self@.pages_kva == old(self)@.pages_kva);
        }
    }

    /// Takes the page at the head of the free list, or returns `None` when
    /// the list is empty.
    #[verifier::spinoff_prover]
    #[verifier::rlimit(50)]
    pub fn page_alloc(&mut self, alloc_flags: u32) -> (r: Option<usize>)
        requires
            old(self).wf(),
            old(self)@.free.len() > 0 ==> old(self)@.kva_ok(page2pa_of(old(self)@.free[0] as int) as int),
        ensures
            final(self).wf(),
            old(self)@.free.len() == 0 ==> r is None && final(self)@ == old(self)@,
            old(self)@.free.len() > 0 ==> r == Some(old(self)@.free[0]) && final(self)@ == old(self)@.after_alloc(alloc_flags),
            r matches Some(pp) ==> pp < final(self)@.pages.len() && final(self)@.pages[pp as int] == (PageInfo {
                pp_link: None,
                pp_ref: 0,
            }),
    {
        match self.page_free_list {
            None => None,
            Some(ret) => {
                proof {
                    assert(self@.free[0] == ret);
                    lemma_free_pages(self@);
                }
                let addr = self.page2kva(ret);
                if alloc_flags & ALLOC_ZERO != 0 {
                    proof {
                        assert((page2pa_of(ret as int) as int) % 4096 == 0);
                    }
                    self.memset_page(addr, 0);
                }
                self.page_free_list = self.pages[ret].pp_link;
                self.pages.set(ret, PageInfo { pp_link: None, pp_ref: 0 });
                proof {
                    self.free@ = self.free@.drop_first();
                    assert(self@ == old(self)@.after_alloc(alloc_flags));
                    lemma_after_alloc_wf(old(self)@, alloc_flags);
                }
                Some(ret)
            },
        }
    }
}

/// Freeing the page just allocated (without zeroing) gives back the
/// manager it was allocated from.
pub proof fn lemma_alloc_free_roundtrip(v: PmapView)
    requires
        v.wf(),
        v.free.len() > 0,
    ensures
        v.after_alloc(0).after_free(v.free[0]) == v,
{
    lemma_free_pages(v);
    assert(0u32 & ALLOC_ZERO == 0) by (bit_vector);
    let w = v.after_alloc(0).after_free(v.free[0]);
    assert(w.free =~= v.free);
    assert(w.pages =~= v.pages);
}

/// Allocating after freeing a page that was off the free list hands that
/// same page back and restores the list.
pub proof fn lemma_free_alloc_roundtrip(v: PmapView, pp: usize)
    requires
        v.wf(),
        (pp as int) < v.pages.len(),
        !v.free.contains(pp),
    ensures
        v.after_free(pp).free[0] == pp,
        v.after_free(pp).after_alloc(0).free == v.free,
        v.after_free(pp).after_alloc(0).head == v.head,
{
    assert(0u32 & ALLOC_ZERO == 0) by (bit_vector);
    assert(v.after_free(pp).after_alloc(0).free =~= v.free);
}

/// A walk that does not create changes nothing.
pub proof fn lemma_walk_no_create(v: PmapView, pgdir: int, va: int)
    ensures
        v.walk(pgdir, va, false).0 == v,
{
}

/// After a walk that found or created the table, walking again finds the
/// same entry and changes nothing.
pub proof fn lemma_walk_twice(v: PmapView, pgdir: int, va: int, create: bool)
    requires
        v.wf(),
        v.walk_ok(pgdir, va, create),
        v.walk(pgdir, va, create).1 is Some,
    ensures
        v.walk(pgdir, va, create).0.walk(pgdir, va, create) == v.walk(pgdir, va, create),
        v.walk(pgdir, va, create).0.walk(pgdir, va, false) == v.walk(pgdir, va, create),
{
    let e = v.pde(pgdir, va);
    if !present(e) {
        let pa = page2pa_of(v.free[0] as int);
        lemma_page2pa_aligned(v.free[0] as int);
        let w = v.walk(pgdir, va, create).0;
        assert(w.pde(pgdir, va) == pa | PTE_P | PTE_W | PTE_U);
        assert(present(pa | PTE_P | PTE_W | PTE_U)) by (bit_vector);
        assert(((pa | PTE_P | PTE_W | PTE_U) & !0xFFFu32) == pa) by (bit_vector)
            requires pa % 4096 == 0;
        assert(((pa | PTE_P | PTE_W | PTE_U) & !0xFFFu32) == (pa | PTE_P | PTE_W | PTE_U) - (pa | PTE_P | PTE_W | PTE_U) % 4096) by (bit_vector);
    }
}

/// The kernel virtual address of a physical address translates back to it,
/// and a page's physical address names the page again.
pub proof fn lemma_address_roundtrip(pa: u32, pp: int)
    requires
        pa + KERNBASE <= u32::MAX,
        0 <= pp < 0x100000,
    ensures
        (pa + KERNBASE) - KERNBASE == pa,
        pgnum_of(page2pa_of(pp) as int) == pp,
        page2pa_of(pp) == pp * 4096,
{
    assert(pp * 4096 < 0x1_0000_0000);
}

/// The relocated free list keeps the pages of the old list but its last,
/// each once, puts every page below 4 MiB before every page above, and
/// keeps the old order within each part.
pub proof fn lemma_relocated(s: Seq<usize>)
    requires
        s.no_duplicates(),
        s.len() > 0,
    ensures
        relocated(s).no_duplicates(),
        forall|x: usize| relocated(s).contains(x) <==> s.drop_last().contains(x),
        forall|i: int, j: int| 0 <= i < relocated(s).len() && 0 <= j < relocated(s).len()
            && high_page(#[trigger] relocated(s)[i]) && !high_page(#[trigger] relocated(s)[j]) ==> j < i,
        relocated(s) == s.drop_last().filter(is_low()) + s.drop_last().filter(is_high()),
{
    lemma_relocated_no_dup(s);
    let t = s.drop_last();
    let a = t.filter(is_low());
    let b = t.filter(is_high());
    broadcast use Seq::lemma_filter_pred, Seq::lemma_filter_contains;
    assert forall|x: usize| s.drop_last().contains(x) implies relocated(s).contains(x) by {
        let k = choose|k: int| 0 <= k < t.len() && t[k] == x;
        if high_page(x) {
            assert(b.contains(t[k]));
            let i = choose|i: int| 0 <= i < b.len() && b[i] == x;
            assert(relocated(s)[a.len() + i] == x);
        } else {
            assert(a.contains(t[k]));
            let i = choose|i: int| 0 <= i < a.len() && a[i] == x;
            assert(relocated(s)[i] == x);
        }
    }
    assert forall|i: int, j: int| 0 <= i < relocated(s).len() && 0 <= j < relocated(s).len()
        && high_page(#[trigger] relocated(s)[i]) && !high_page(#[trigger] relocated(s)[j]) implies j < i by {
        if i < a.len() {
            assert(is_low()(a[i]));
        }
        if j >= a.len() {
            assert(is_high()(b[j - a.len()]));
        }
    }
}

} // verus!
