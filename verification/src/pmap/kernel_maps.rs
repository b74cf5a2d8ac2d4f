use vstd::prelude::*;
use crate::memlayout::{PageInfo, KERNBASE, UVPT, UPAGES, KSTACKTOP, KSTKSIZE};
use crate::mmu::{pdx_of, ptx_of, PTE_P, PTE_U, PTE_W};
use crate::util::types::lemma_roundup;
use super::{PmapView, KERNBASE_MAP_SIZE, dir_base, fill_page, init_free, init_free_seq, link_list, next_of};
use super::{present, totalmem_of};
use super::{lemma_boot_map_region, lemma_free_pages, lemma_init_free_seq, lemma_map_frame, lemma_map_keeps};
use super::{lemma_map_step, lemma_mem_init_chain, lemma_missing_frame, lemma_pages_apart, lemma_pdx_order};
use super::{lemma_mem_init_dir_room, lemma_relocated, lemma_slot};

verus! {

/// Mapping a region leaves alone the directory entries outside its range.
#[verifier::spinoff_prover]
proof fn lemma_map_keeps_dir_entry(v: PmapView, pgdir: int, va: int, pa: int, perm: u32, n: nat, d: int)
    requires
        v.map_pre(pgdir, va, n),
        n > 0,
        0 <= d < 1024,
        !(pdx_of(va) <= d <= pdx_of(va + (n - 1) * 4096)),
    ensures
        v.map(pgdir, va, pa, perm, n).dir_entry(pgdir, d) == v.dir_entry(pgdir, d),
{
    let lo = pdx_of(va);
    let hi = pdx_of(va + (n - 1) * 4096) + 1;
    let m = v.missing(pgdir, lo, hi) as int;
    let x = dir_base(pgdir) + d;
    lemma_pdx_order(va, (n - 1) as int);
    assert forall|i: int| 0 <= i < m implies !(#[trigger] v.new_table(i) / 4 <= x < v.new_table(i) / 4 + 1024) by {
        assert(v.good_table(pgdir, v.new_table(i)));
    }
    assert forall|j: int|
        0 <= j < n && present(v.pde(pgdir, va + j * 4096)) implies x != #[trigger] v.slot_word(pgdir, va + j * 4096) by {
        lemma_pdx_order(va, j);
        let dj = pdx_of(va + j * 4096);
        assert(v.pde(pgdir, va + j * 4096) == v.dir_entry(pgdir, dj));
        assert(v.good_table(pgdir, v.table_at(pgdir, dj)));
        assert(0 <= ptx_of(va + j * 4096) < 1024);
    }
    lemma_map_frame(v, pgdir, va, pa, perm, n, x);
}

/// Mapping a region leaves alone the words of a page table that is neither
/// one it creates nor one it writes entries into.
#[verifier::spinoff_prover]
proof fn lemma_map_keeps_table(v: PmapView, pgdir: int, va: int, pa: int, perm: u32, n: nat, t: int, k: int)
    requires
        v.map_pre(pgdir, va, n),
        n > 0,
        v.good_table(pgdir, t),
        forall|i: int|
            0 <= i < v.missing(pgdir, pdx_of(va), pdx_of(va + (n - 1) * 4096) + 1) ==> t != #[trigger] v.new_table(i),
        forall|d: int|
            pdx_of(va) <= d <= pdx_of(va + (n - 1) * 4096) && present(#[trigger] v.dir_entry(pgdir, d)) ==> t
                != v.table_at(pgdir, d),
        0 <= k < 1024,
    ensures
        v.map(pgdir, va, pa, perm, n).mem[t / 4 + k] == v.mem[t / 4 + k],
{
    let lo = pdx_of(va);
    let hi = pdx_of(va + (n - 1) * 4096) + 1;
    let m = v.missing(pgdir, lo, hi) as int;
    let x = t / 4 + k;
    lemma_pdx_order(va, (n - 1) as int);
    lemma_slot(v, pgdir, t, va);
    assert forall|i: int| 0 <= i < m implies !(#[trigger] v.new_table(i) / 4 <= x < v.new_table(i) / 4 + 1024) by {
        assert(v.good_table(pgdir, v.new_table(i)));
        lemma_pages_apart(t, v.new_table(i));
    }
    assert forall|d: int| lo <= d < hi && !present(#[trigger] v.dir_entry(pgdir, d)) implies x != dir_base(pgdir) + d by {
    }
    assert forall|j: int|
        0 <= j < n && present(v.pde(pgdir, va + j * 4096)) implies x != #[trigger] v.slot_word(pgdir, va + j * 4096) by {
        lemma_pdx_order(va, j);
        let dj = pdx_of(va + j * 4096);
        assert(v.pde(pgdir, va + j * 4096) == v.dir_entry(pgdir, dj));
        assert(v.good_table(pgdir, v.table_at(pgdir, dj)));
        assert(0 <= ptx_of(va + j * 4096) < 1024);
        lemma_pages_apart(t, v.table_at(pgdir, dj));
    }
    lemma_map_frame(v, pgdir, va, pa, perm, n, x);
}

/// Mapping a region keeps what the page tables give for an address under a
/// directory entry outside the region, whose table the map neither creates
/// nor writes.
#[verifier::spinoff_prover]
proof fn lemma_map_keeps_lookup(v: PmapView, pgdir: int, va: int, pa: int, perm: u32, n: nat, a: int)
    requires
        v.map_pre(pgdir, va, n),
        n > 0,
        0 <= a,
        !(pdx_of(va) <= pdx_of(a) <= pdx_of(va + (n - 1) * 4096)),
        present(v.pde(pgdir, a)),
        v.good_table(pgdir, v.table_at(pgdir, pdx_of(a))),
        forall|i: int|
            0 <= i < v.missing(pgdir, pdx_of(va), pdx_of(va + (n - 1) * 4096) + 1) ==> v.table_at(pgdir, pdx_of(a))
                != #[trigger] v.new_table(i),
        forall|d: int|
            pdx_of(va) <= d <= pdx_of(va + (n - 1) * 4096) && present(#[trigger] v.dir_entry(pgdir, d)) ==> v.table_at(
                pgdir,
                pdx_of(a),
            ) != v.table_at(pgdir, d),
    ensures
        v.map(pgdir, va, pa, perm, n).lookup(pgdir, a) == v.lookup(pgdir, a),
{
    let d = pdx_of(a);
    let t = v.table_at(pgdir, d);
    assert(0 <= d < 1024);
    assert(0 <= ptx_of(a) < 1024);
    lemma_map_keeps_dir_entry(v, pgdir, va, pa, perm, n, d);
    lemma_map_keeps_table(v, pgdir, va, pa, perm, n, t, ptx_of(a));
    let w = v.map(pgdir, va, pa, perm, n);
    assert(w.pde(pgdir, a) == w.dir_entry(pgdir, d));
    assert(v.pde(pgdir, a) == v.dir_entry(pgdir, d));
}

/// The free pages can serve as page tables under the directory at
/// `pgdir`: the manager is well formed with one descriptor per page and at
/// most 2^20 pages, and the directory is a page of memory that is not free.
spec fn free_pages_apart(v: PmapView, pgdir: int) -> bool {
    &&& v.wf()
    &&& v.dir_ok(pgdir)
    &&& (pgdir - KERNBASE) % 4096 == 0
    &&& v.pages.len() == v.npages
    &&& v.npages <= 0x100000
    &&& !v.free.contains(((pgdir - KERNBASE) / 4096) as usize)
}

/// The free pages are distinct page-aligned pages off the directory.
#[verifier::spinoff_prover]
proof fn lemma_free_tables(v: PmapView, pgdir: int)
    requires
        free_pages_apart(v, pgdir),
    ensures
        forall|i: int|
            0 <= i < v.free.len() ==> {
                &&& #[trigger] v.new_table(i) == v.free[i] * 4096
                &&& v.new_table(i) % 4096 == 0
                &&& v.kva_ok(v.new_table(i)) ==> v.good_table(pgdir, v.new_table(i))
            },
        forall|i: int, j: int|
            0 <= i < v.free.len() && 0 <= j < v.free.len() && i != j ==> #[trigger] v.new_table(i)
                != #[trigger] v.new_table(j),
{
    lemma_free_pages(v);
    let p = (pgdir - KERNBASE) / 4096;
    assert forall|i: int| 0 <= i < v.free.len() implies {
        &&& #[trigger] v.new_table(i) == v.free[i] * 4096
        &&& v.new_table(i) % 4096 == 0
        &&& v.kva_ok(v.new_table(i)) ==> v.good_table(pgdir, v.new_table(i))
    } by {
        let pp = v.free[i];
        assert((pp as int) < v.pages.len());
        assert(pp * 4096 < 0x1_0000_0000);
        assert(pp != p as usize);
        lemma_pages_apart(pp * 4096, pgdir - KERNBASE);
    }
    assert forall|i: int, j: int|
        0 <= i < v.free.len() && 0 <= j < v.free.len() && i != j implies #[trigger] v.new_table(i)
            != #[trigger] v.new_table(j) by {
        assert(v.free[i] != v.free[j]);
        assert((v.free[i] as int) < v.pages.len());
        assert((v.free[j] as int) < v.pages.len());
    }
}

/// A map that succeeds from a state whose free pages can serve as tables,
/// into a region whose directory entries are missing but perhaps the
/// first, whose table is then off the free list, meets the needs of
/// `lemma_boot_map_region`.
#[verifier::spinoff_prover]
proof fn lemma_map_ok_pre(v: PmapView, pgdir: int, va: int, pa: int, perm: u32, n: nat)
    requires
        free_pages_apart(v, pgdir),
        va % 4096 == 0,
        0 <= va,
        va + n * 4096 <= 0x1_0000_0000,
        n > 0,
        forall|d: int| pdx_of(va) < d <= pdx_of(va + (n - 1) * 4096) ==> !present(#[trigger] v.dir_entry(pgdir, d)),
        present(v.dir_entry(pgdir, pdx_of(va))) ==> v.good_table(pgdir, v.table_at(pgdir, pdx_of(va))),
        present(v.dir_entry(pgdir, pdx_of(va))) ==> forall|i: int|
            0 <= i < v.free.len() ==> v.table_at(pgdir, pdx_of(va)) != #[trigger] v.new_table(i),
        v.map_ok(pgdir, va, pa, perm, n),
    ensures
        v.map_pre(pgdir, va, n),
    decreases n,
{
    let lo = pdx_of(va);
    let hi = pdx_of(va + (n - 1) * 4096) + 1;
    lemma_pdx_order(va, (n - 1) as int);
    lemma_free_tables(v, pgdir);
    let p0 = present(v.dir_entry(pgdir, lo));
    assert(v.pde(pgdir, va) == v.dir_entry(pgdir, lo));
    assert(v.missing(pgdir, lo + 1, lo + 1) == 0);
    assert(v.missing(pgdir, lo, lo + 1) == if p0 { 0nat } else { 1nat });
    if !p0 {
        assert(v.free.len() > 0);
        assert(v.kva_ok(v.new_table(0)));
        assert(v.good_table(pgdir, v.new_table(0)));
    }
    assert(v.tables_ok(pgdir, lo, lo + 1));
    assert(va + (1 - 1) * 4096 == va);
    assert(v.map_pre(pgdir, va, 1));
    lemma_map_step(v, pgdir, va, pa, perm, 1);
    let w = v.walk(pgdir, va, true).0;
    let r = v.walk(pgdir, va, true).1;
    let val = (pa as u32) | perm | PTE_P;
    let v1 = w.store(r->0 as int, val);
    let t0 = if p0 { v.table_at(pgdir, lo) } else { v.new_table(0) };
    if n >= 2 {
        let va1 = va + 4096;
        let pa1 = pa + 4096;
        lemma_pdx_order(va, 1);
        let lo1 = pdx_of(va1);
        assert(va1 + ((n - 1) as nat - 1) * 4096 == va + (n - 1) * 4096);
        assert(v1.pages.len() == v.pages.len());
        assert(free_pages_apart(v1, pgdir));
        lemma_free_tables(v1, pgdir);
        assert forall|d: int| lo1 < d <= pdx_of(va1 + ((n - 1) as nat - 1) * 4096) implies !present(
            #[trigger] v1.dir_entry(pgdir, d),
        ) by {
            assert(v1.dir_entry(pgdir, d) == v.dir_entry(pgdir, d));
        }
        if lo1 == lo {
            assert forall|i: int| 0 <= i < v1.free.len() implies v1.table_at(pgdir, lo1) != #[trigger] v1.new_table(i) by {
                assert(v1.table_at(pgdir, lo) == t0);
                if !p0 {
                    assert(v1.new_table(i) == v.new_table(i + 1));
                    assert(v.new_table(0) != v.new_table(i + 1));
                } else {
                    assert(v1.new_table(i) == v.new_table(i));
                    assert(v.table_at(pgdir, lo) != v.new_table(i));
                }
            }
        } else {
            assert(v1.dir_entry(pgdir, lo1) == v.dir_entry(pgdir, lo1));
        }
        lemma_map_ok_pre(v1, pgdir, va1, pa1, perm, (n - 1) as nat);
        let m = v.missing(pgdir, lo, hi) as int;
        let m1 = v1.missing(pgdir, lo1, hi) as int;
        assert forall|d: int| lo + 1 <= d < hi implies present(#[trigger] v1.dir_entry(pgdir, d)) == present(
            v.dir_entry(pgdir, d),
        ) by {
            assert(v1.dir_entry(pgdir, d) == v.dir_entry(pgdir, d));
        }
        lemma_missing_frame(v, v1, pgdir, lo + 1, hi);
        assert(m == (if p0 { 0nat } else { 1nat }) + v.missing(pgdir, lo + 1, hi));
        if lo1 == lo {
            assert(m1 == 0nat + v1.missing(pgdir, lo + 1, hi));
        }
        assert(m1 == v.missing(pgdir, lo + 1, hi));
        assert(v1.tables_ok(pgdir, lo1, hi));
        assert forall|i: int| 0 <= i < m implies v.good_table(pgdir, #[trigger] v.new_table(i)) by {
            if p0 {
                assert(v1.new_table(i) == v.new_table(i));
                assert(v1.good_table(pgdir, v1.new_table(i)));
            } else if i > 0 {
                assert(v1.new_table(i - 1) == v.new_table(i));
                assert(v1.good_table(pgdir, v1.new_table(i - 1)));
            }
        }
        assert forall|d: int|
            lo <= d < hi && present(v.dir_entry(pgdir, d)) implies v.good_table(pgdir, #[trigger] v.table_at(pgdir, d)) by {
            assert(d == lo);
        }
        assert(v.tables_ok(pgdir, lo, hi));
    }
}

/// A range of directory entries that are all missing counts each of them.
#[verifier::spinoff_prover]
proof fn lemma_missing_all(v: PmapView, pgdir: int, lo: int, hi: int)
    requires
        lo <= hi,
        forall|d: int| lo <= d < hi ==> !present(#[trigger] v.dir_entry(pgdir, d)),
    ensures
        v.missing(pgdir, lo, hi) == hi - lo,
    decreases hi - lo,
{
    if lo < hi {
        assert(!present(v.dir_entry(pgdir, lo)));
        lemma_missing_all(v, pgdir, lo + 1, hi);
    }
}

/// Mapping a region whose directory entries are missing but perhaps the
/// first gives the missing entries, in order, the pages at the head of the
/// free list as their tables, and takes those pages off the list.
#[verifier::spinoff_prover]
proof fn lemma_map_tables(v: PmapView, pgdir: int, va: int, pa: int, perm: u32, n: nat)
    requires
        v.map_pre(pgdir, va, n),
        n > 0,
        forall|d: int| pdx_of(va) < d <= pdx_of(va + (n - 1) * 4096) ==> !present(#[trigger] v.dir_entry(pgdir, d)),
    ensures
        ({
            let w = v.map(pgdir, va, pa, perm, n);
            let lo = pdx_of(va);
            let hi = pdx_of(va + (n - 1) * 4096) + 1;
            let k0 = if present(v.dir_entry(pgdir, lo)) { 1int } else { 0int };
            &&& v.missing(pgdir, lo, hi) == hi - lo - k0
            &&& hi - lo - k0 <= v.free.len()
            &&& w.wf()
            &&& w.npages == v.npages
            &&& w.pages.len() == v.pages.len()
            &&& w.mem.len() == v.mem.len()
            &&& w.free == v.free.skip(hi - lo - k0)
            &&& present(w.dir_entry(pgdir, lo))
            &&& w.table_at(pgdir, lo) == (if k0 == 1 { v.table_at(pgdir, lo) } else { v.new_table(0) })
            &&& forall|d: int|
                lo < d < hi ==> present(#[trigger] w.dir_entry(pgdir, d)) && w.table_at(pgdir, d) == v.new_table(
                    d - lo - k0,
                )
        }),
    decreases n,
{
    let lo = pdx_of(va);
    let hi = pdx_of(va + (n - 1) * 4096) + 1;
    lemma_pdx_order(va, (n - 1) as int);
    let p0 = present(v.dir_entry(pgdir, lo));
    let k0 = if p0 { 1int } else { 0int };
    lemma_missing_all(v, pgdir, lo + 1, hi);
    assert(v.missing(pgdir, lo, hi) == hi - lo - k0);
    lemma_map_step(v, pgdir, va, pa, perm, n);
    let w1 = v.walk(pgdir, va, true).0;
    let r = v.walk(pgdir, va, true).1;
    let val = (pa as u32) | perm | PTE_P;
    let v1 = w1.store(r->0 as int, val);
    let t0 = if p0 { v.table_at(pgdir, lo) } else { v.new_table(0) };
    lemma_free_pages(v);
    assert(v1.pages.len() == v.pages.len());
    let va1 = va + 4096;
    let pa1 = pa + 4096;
    let w = v1.map(pgdir, va1, pa1, perm, (n - 1) as nat);
    assert(w == v.map(pgdir, va, pa, perm, n));
    if n == 1 {
        assert(hi == lo + 1);
        if p0 {
            assert(v.free.skip(0) =~= v.free);
        } else {
            assert(v.free.skip(1) =~= v.free.drop_first());
        }
    } else {
        lemma_pdx_order(va, 1);
        let lo1 = pdx_of(va1);
        assert(va1 + ((n - 1) as nat - 1) * 4096 == va + (n - 1) * 4096);
        assert forall|d: int| lo1 < d <= pdx_of(va1 + ((n - 1) as nat - 1) * 4096) implies !present(
            #[trigger] v1.dir_entry(pgdir, d),
        ) by {
            assert(v1.dir_entry(pgdir, d) == v.dir_entry(pgdir, d));
        }
        lemma_map_tables(v1, pgdir, va1, pa1, perm, (n - 1) as nat);
        let k1 = if present(v1.dir_entry(pgdir, lo1)) { 1int } else { 0int };
        if lo1 != lo {
            assert(v1.dir_entry(pgdir, lo1) == v.dir_entry(pgdir, lo1));
            lemma_map_keeps_dir_entry(v1, pgdir, va1, pa1, perm, (n - 1) as nat, lo);
        }
        assert(hi - lo1 - k1 == hi - lo - 1);
        assert(v1.free.len() == v.free.len() - (1 - k0));
        assert forall|j: int| 0 <= j < v1.free.len() implies #[trigger] v1.new_table(j) == v.new_table(j + 1 - k0) by {
        }
        assert(w.free =~= v.free.skip(hi - lo - k0));
        assert forall|d: int| lo < d < hi implies present(#[trigger] w.dir_entry(pgdir, d)) && w.table_at(pgdir, d)
            == v.new_table(d - lo - k0) by {
            assert(d - lo1 - k1 == d - lo - 1);
            assert(v1.new_table(d - lo - 1) == v.new_table(d - lo - k0));
        }
    }
}

/// Pages linked into a free list over descriptors that cover them make a
/// well-formed manager.
#[verifier::spinoff_prover]
proof fn lemma_link_list_wf(w: PmapView, base: Seq<PageInfo>)
    requires
        w.free.no_duplicates(),
        forall|k: int| 0 <= k < w.free.len() ==> (#[trigger] w.free[k] as int) < base.len(),
        w.pages == link_list(base, w.free),
        w.head == (if w.free.len() == 0 { None } else { Some(w.free[0]) }),
        w.mem.len() == w.npages * 1024,
        w.next_free % 4096 == 0,
    ensures
        w.wf(),
{
    reveal(PmapView::free_list_wf);
    assert forall|k: int| #![trigger w.free[k]] 0 <= k < w.free.len() implies {
        &&& (w.free[k] as int) < w.pages.len()
        &&& w.pages[w.free[k] as int].pp_link == next_of(w.free, k)
        &&& w.pages[w.free[k] as int].pp_ref == 0
    } by {
        let x = w.free[k];
        assert(w.free.contains(x));
        let i = w.free.index_of(x);
        assert(0 <= i < w.free.len() && w.free[i] == x);
        assert(i == k);
    }
}

/// The page directory `mem_init` sets up is a zeroed page of memory but
/// for its entry for `UVPT`, which maps the directory itself.
#[verifier::spinoff_prover]
proof fn lemma_mi_dir_facts(v0: PmapView, basemem: u16, extmem: u16, ext16mem: u16, ram: Seq<u32>)
    requires
        v0.wf(),
        KERNBASE <= v0.boot_next() <= u32::MAX,
        (v0.boot_next() - KERNBASE) / 4 + 1024 <= v0.detected(basemem, extmem, ext16mem, ram).mem.len(),
    ensures
        ({
            let s1 = v0.detected(basemem, extmem, ext16mem, ram);
            let pgdir = s1.boot_next();
            let s4 = v0.mi_dir(basemem, extmem, ext16mem, ram);
            &&& pgdir == v0.boot_next()
            &&& (pgdir - KERNBASE) % 4096 == 0
            &&& s4.kern_pgdir == pgdir
            &&& s4.npages == s1.npages
            &&& s4.npages_basemem == s1.npages_basemem
            &&& s4.mem.len() == s1.mem.len()
            &&& forall|d: int|
                0 <= d < 1024 && d != pdx_of(UVPT as int) ==> #[trigger] s4.mem[dir_base(pgdir) + d] == 0u32
            &&& s4.mem[dir_base(pgdir) + pdx_of(UVPT as int)] == ((pgdir - KERNBASE) as u32) | PTE_U | PTE_P
        }),
{
    reveal(PmapView::mi_dir);
    let s1 = v0.detected(basemem, extmem, ext16mem, ram);
    let pgdir = s1.boot_next();
    lemma_roundup(v0.end as int, 4096);
    let s2 = s1.boot_alloced(4096);
    let s3 = PmapView { mem: fill_page(s2.mem, pgdir - KERNBASE, 0), ..s2 };
    let db = dir_base(pgdir);
    let uv = db + pdx_of(UVPT as int);
    assert(pdx_of(UVPT as int) == 957);
    assert((pgdir + 4 * pdx_of(UVPT as int) - KERNBASE) / 4 == uv);
    let s4 = v0.mi_dir(basemem, extmem, ext16mem, ram);
    assert(s4.mem == s3.mem.update(uv, ((pgdir - KERNBASE) as u32) | PTE_U | PTE_P));
    assert forall|d: int| 0 <= d < 1024 && d != pdx_of(UVPT as int) implies #[trigger] s4.mem[db + d] == 0u32 by {
        assert(s4.mem[db + d] == s3.mem[db + d]);
    }
}

/// The page array `mem_init` allocates lies past the page directory, in
/// aligned boot memory.
#[verifier::spinoff_prover]
proof fn lemma_mi_pages_facts(v0: PmapView, basemem: u16, extmem: u16, ext16mem: u16, ram: Seq<u32>, bootstacktop: u32)
    requires
        v0.wf(),
        v0.mem_init_ok(basemem, extmem, ext16mem, ram, bootstacktop),
    ensures
        ({
            let s1 = v0.detected(basemem, extmem, ext16mem, ram);
            let pgdir = s1.boot_next();
            let s4 = v0.mi_dir(basemem, extmem, ext16mem, ram);
            let s5 = v0.mi_pages(basemem, extmem, ext16mem, ram);
            &&& KERNBASE <= pgdir
            &&& pgdir + 4096 <= u32::MAX
            &&& (pgdir - KERNBASE) / 4 + 1024 <= s1.mem.len()
            &&& s5.mem == s4.mem
            &&& s5.kern_pgdir == s4.kern_pgdir
            &&& s5.npages == s4.npages
            &&& s5.npages_basemem == s4.npages_basemem
            &&& s5.pages == Seq::new(s4.npages as nat, |i: int| PageInfo { pp_link: None, pp_ref: 0 })
            &&& s5.boot_next() % 4096 == 0
            &&& pgdir + 4096 <= s5.boot_next() <= u32::MAX
            &&& s5.after_page_init().free.len() >= 2
        }),
{
    lemma_mem_init_chain(v0, basemem, extmem, ext16mem, ram, bootstacktop);
    let s4 = v0.mi_dir(basemem, extmem, ext16mem, ram);
    let n = s4.npages as int;
    lemma_roundup(s4.boot_next() + n * 8, 4096);
}

/// Before its maps, `mem_init` leaves free pages that can serve as page
/// tables and a directory whose only present entry maps the directory
/// itself at `UVPT`.
#[verifier::spinoff_prover]
proof fn lemma_mi_free_facts(v0: PmapView, basemem: u16, extmem: u16, ext16mem: u16, ram: Seq<u32>, bootstacktop: u32)
    requires
        v0.wf(),
        v0.mem_init_ok(basemem, extmem, ext16mem, ram, bootstacktop),
        totalmem_of(basemem as int, extmem as int, ext16mem as int) <= 0x200000,
        (v0.boot_next() - KERNBASE) / 4096 >= basemem / 4,
    ensures
        ({
            let s7 = v0.mi_free(basemem, extmem, ext16mem, ram);
            let pgdir = v0.detected(basemem, extmem, ext16mem, ram).boot_next();
            &&& free_pages_apart(s7, pgdir)
            &&& s7.kern_pgdir == pgdir
            &&& s7.npages <= 0x80000
            &&& forall|d: int| 0 <= d < 1024 && d != pdx_of(UVPT as int) ==> !present(#[trigger] s7.dir_entry(pgdir, d))
            &&& s7.dir_entry(pgdir, pdx_of(UVPT as int)) == ((pgdir - KERNBASE) as u32) | PTE_U | PTE_P
        }),
{
    lemma_mi_pages_facts(v0, basemem, extmem, ext16mem, ram, bootstacktop);
    lemma_mi_dir_facts(v0, basemem, extmem, ext16mem, ram);
    lemma_mem_init_dir_room(v0, basemem, extmem, ext16mem, ram, bootstacktop);
    reveal(PmapView::mi_free);
    let s1 = v0.detected(basemem, extmem, ext16mem, ram);
    let pgdir = s1.boot_next();
    let s4 = v0.mi_dir(basemem, extmem, ext16mem, ram);
    let s5 = v0.mi_pages(basemem, extmem, ext16mem, ram);
    let s6 = s5.after_page_init();
    let s7 = v0.mi_free(basemem, extmem, ext16mem, ram);
    let n = s1.npages as int;
    let db = dir_base(pgdir);
    assert(s7 == s6.after_relocate());
    assert(s7.mem == s4.mem);
    assert(0u32 & PTE_P == 0) by (bit_vector);
    assert forall|d: int| 0 <= d < 1024 && d != pdx_of(UVPT as int) implies !present(#[trigger] s7.dir_entry(pgdir, d)) by {
        assert(s4.mem[db + d] == 0u32);
    }
    let f = (s5.boot_next() - KERNBASE) / 4096;
    let b = s5.npages_basemem as int;
    let t = init_free_seq(b, f, n as nat);
    assert(s6.free == t);
    lemma_init_free_seq(b, f, n as nat);
    lemma_link_list_wf(s6, Seq::new(n as nat, |i: int| PageInfo { pp_link: None, pp_ref: 1 }));
    lemma_relocated(t);
    assert forall|k: int| 0 <= k < s7.free.len() implies (#[trigger] s7.free[k] as int) < s6.pages.len() by {
        assert(s7.free.contains(s7.free[k]));
        assert(t.drop_last().contains(s7.free[k]));
        let j = choose|j: int| 0 <= j < t.drop_last().len() && t.drop_last()[j] == s7.free[k];
        assert(t[j] == s7.free[k]);
    }
    lemma_link_list_wf(s7, s6.pages);
    let p = (pgdir - KERNBASE) / 4096;
    assert(p < f);
    assert(!init_free(b, f, p));
    assert(!s7.free.contains(p as usize)) by {
        if s7.free.contains(p as usize) {
            assert(t.drop_last().contains(p as usize));
            let k = choose|k: int| 0 <= k < t.drop_last().len() && t.drop_last()[k] == p as usize;
            assert(t[k] == p as usize);
            assert(init_free(b, f, t[k] as int));
        }
    }
}

/// Mapping a region none of whose directory entries is present, from a
/// state whose free pages can serve as tables, when the map succeeds: the
/// entries get the first free pages as their tables, in order, every page
/// of the region maps to its physical page, and the other directory
/// entries keep.
#[verifier::spinoff_prover]
proof fn lemma_map_fresh(v: PmapView, pgdir: int, va: int, pa: int, perm: u32, n: nat)
    requires
        free_pages_apart(v, pgdir),
        va % 4096 == 0,
        0 <= va,
        va + n * 4096 <= 0x1_0000_0000,
        0 <= pa,
        pa + n * 4096 <= 0x1_0000_0000,
        n > 0,
        forall|d: int| pdx_of(va) <= d <= pdx_of(va + (n - 1) * 4096) ==> !present(#[trigger] v.dir_entry(pgdir, d)),
        v.map_ok(pgdir, va, pa, perm, n),
    ensures
        ({
            let w = v.map(pgdir, va, pa, perm, n);
            let lo = pdx_of(va);
            let hi = pdx_of(va + (n - 1) * 4096) + 1;
            &&& v.map_pre(pgdir, va, n)
            &&& v.missing(pgdir, lo, hi) == hi - lo
            &&& hi - lo <= v.free.len()
            &&& free_pages_apart(w, pgdir)
            &&& w.npages == v.npages
            &&& w.free == v.free.skip(hi - lo)
            &&& forall|d: int|
                lo <= d < hi ==> {
                    &&& present(#[trigger] w.dir_entry(pgdir, d))
                    &&& w.table_at(pgdir, d) == v.new_table(d - lo)
                    &&& w.good_table(pgdir, v.new_table(d - lo))
                }
            &&& forall|d: int| 0 <= d < 1024 && !(lo <= d < hi) ==> #[trigger] w.dir_entry(pgdir, d) == v.dir_entry(pgdir, d)
            &&& forall|j: int| 0 <= j < n ==> #[trigger] w.lookup(pgdir, va + j * 4096) == Some(
                ((pa + j * 4096) as u32) | perm | PTE_P,
            )
        }),
{
    let lo = pdx_of(va);
    let hi = pdx_of(va + (n - 1) * 4096) + 1;
    lemma_map_ok_pre(v, pgdir, va, pa, perm, n);
    lemma_map_tables(v, pgdir, va, pa, perm, n);
    lemma_boot_map_region(v, pgdir, va, pa, perm, n);
    let w = v.map(pgdir, va, pa, perm, n);
    assert forall|d: int| 0 <= d < 1024 && !(lo <= d < hi) implies #[trigger] w.dir_entry(pgdir, d) == v.dir_entry(pgdir, d) by {
        lemma_map_keeps_dir_entry(v, pgdir, va, pa, perm, n, d);
    }
    assert forall|d: int| lo <= d < hi implies {
        &&& present(#[trigger] w.dir_entry(pgdir, d))
        &&& w.table_at(pgdir, d) == v.new_table(d - lo)
        &&& w.good_table(pgdir, v.new_table(d - lo))
    } by {
        assert(v.good_table(pgdir, v.new_table(d - lo)));
    }
    let p = ((pgdir - KERNBASE) / 4096) as usize;
    assert(!w.free.contains(p)) by {
        if w.free.contains(p) {
            let k = choose|k: int| 0 <= k < w.free.len() && w.free[k] == p;
            assert(v.free[k + hi - lo] == p);
        }
    }
}

/// After `mem_init`, the kernel page directory maps the page array at
/// `UPAGES` for users to read, the kernel stack below `KSTACKTOP` and the
/// first 256 MiB of physical memory at `KERNBASE` for the kernel to write,
/// and still maps itself at `UVPT`.
///
/// This holds when the page directory lies past base memory, so that it is
/// never a free page, and detected memory is at most 2 GiB, so that the
/// page array fits the one page table below `UVPT`.
#[verifier::spinoff_prover]
pub proof fn lemma_mem_init_maps(v0: PmapView, basemem: u16, extmem: u16, ext16mem: u16, ram: Seq<u32>, bootstacktop: u32)
    requires
        v0.wf(),
        v0.mem_init_ok(basemem, extmem, ext16mem, ram, bootstacktop),
        totalmem_of(basemem as int, extmem as int, ext16mem as int) <= 0x200000,
        (v0.boot_next() - KERNBASE) / 4096 >= basemem / 4,
    ensures
        ({
            let w = v0.after_mem_init(basemem, extmem, ext16mem, ram, bootstacktop);
            let pgdir = w.kern_pgdir as int;
            &&& w.dir_entry(pgdir, pdx_of(UVPT as int)) == ((pgdir - KERNBASE) as u32) | PTE_U | PTE_P
            &&& forall|j: int|
                0 <= j < w.upages_pages() ==> #[trigger] w.lookup(pgdir, UPAGES + j * 4096) == Some(
                    ((w.pages_kva - KERNBASE + j * 4096) as u32) | PTE_U | PTE_P,
                )
            &&& forall|j: int|
                0 <= j < KSTKSIZE / 4096 ==> #[trigger] w.lookup(pgdir, KSTACKTOP - KSTKSIZE + j * 4096) == Some(
                    ((PmapView::stack_pa(bootstacktop) + j * 4096) as u32) | PTE_W | PTE_P,
                )
            &&& forall|j: int|
                0 <= j < KERNBASE_MAP_SIZE / 4096 ==> #[trigger] w.lookup(pgdir, KERNBASE + j * 4096) == Some(
                    ((j * 4096) as u32) | PTE_W | PTE_P,
                )
        }),
{
    lemma_mi_free_facts(v0, basemem, extmem, ext16mem, ram, bootstacktop);
    lemma_mem_init_chain(v0, basemem, extmem, ext16mem, ram, bootstacktop);
    let s1 = v0.detected(basemem, extmem, ext16mem, ram);
    let pgdir = s1.boot_next();
    let s4 = v0.mi_dir(basemem, extmem, ext16mem, ram);
    let s7 = v0.mi_free(basemem, extmem, ext16mem, ram);
    let s8 = v0.mi_upages(basemem, extmem, ext16mem, ram);
    let s9 = v0.mi_stack(basemem, extmem, ext16mem, ram, bootstacktop);
    let w = v0.after_mem_init(basemem, extmem, ext16mem, ram, bootstacktop);
    let n = s7.npages as int;
    let u = s7.upages_pages();
    let ppa = s7.pages_kva - KERNBASE;
    let sva = KSTACKTOP - KSTKSIZE;
    let spa = PmapView::stack_pa(bootstacktop);
    let nk = (KERNBASE_MAP_SIZE / 4096) as nat;
    lemma_free_tables(s7, pgdir);
    // The page array takes one page table's worth of pages at most.
    lemma_roundup(n * 8, 4096);
    assert(1 <= u <= 1024);
    assert(pdx_of(UPAGES as int) == 956);
    assert(pdx_of(UPAGES + (u - 1) * 4096) == 956);
    lemma_map_fresh(s7, pgdir, UPAGES as int, ppa, PTE_U, u);
    lemma_map_keeps(s7, pgdir, UPAGES as int, ppa, PTE_U, u);
    // The kernel stack.
    crate::util::types::lemma_rounddown(bootstacktop - KSTKSIZE, 4096);
    assert(pdx_of(sva) == 959);
    assert(pdx_of(sva + (8 - 1) * 4096) == 959);
    assert(s8.dir_entry(pgdir, 959) == s7.dir_entry(pgdir, 959));
    lemma_map_fresh(s8, pgdir, sva, spa, PTE_W, 8);
    lemma_map_keeps(s8, pgdir, sva, spa, PTE_W, 8);
    // All of low physical memory.
    assert(pdx_of(KERNBASE as int) == 960);
    assert(pdx_of(KERNBASE + (nk - 1) * 4096) == 1023);
    assert forall|d: int| 960 <= d <= 1023 implies !present(#[trigger] s9.dir_entry(pgdir, d)) by {
        assert(s9.dir_entry(pgdir, d) == s8.dir_entry(pgdir, d));
        assert(s8.dir_entry(pgdir, d) == s7.dir_entry(pgdir, d));
    }
    lemma_map_fresh(s9, pgdir, KERNBASE as int, 0, PTE_W, nk);
    lemma_map_keeps(s9, pgdir, KERNBASE as int, 0, PTE_W, nk);
    assert(w == s9.map(pgdir, KERNBASE as int, 0, PTE_W, nk));
    assert(w.kern_pgdir == pgdir);
    // The directory keeps its own entry.
    assert(w.dir_entry(pgdir, 957) == s7.dir_entry(pgdir, 957));
    // The tables of the first two maps are neither written nor reused later.
    let t1 = s7.new_table(0);
    let t2 = s7.new_table(1);
    assert(s8.new_table(0) == t2);
    assert forall|i: int| 0 <= i < 64 implies #[trigger] s9.new_table(i) == s7.new_table(i + 2) by {
    }
    assert forall|j: int| 0 <= j < u implies #[trigger] w.lookup(pgdir, UPAGES + j * 4096) == Some(
        ((ppa + j * 4096) as u32) | PTE_U | PTE_P,
    ) by {
        let a = UPAGES + j * 4096;
        assert(pdx_of(a) == 956);
        assert(s8.lookup(pgdir, a) == Some(((ppa + j * 4096) as u32) | PTE_U | PTE_P));
        assert(s8.pde(pgdir, a) == s8.dir_entry(pgdir, 956));
        assert(s8.table_at(pgdir, 956) == t1);
        assert forall|i: int| 0 <= i < 1 implies t1 != #[trigger] s8.new_table(i) by {
            assert(s7.new_table(0) != s7.new_table(1));
        }
        lemma_map_keeps_lookup(s8, pgdir, sva, spa, PTE_W, 8, a);
        assert(s9.pde(pgdir, a) == s9.dir_entry(pgdir, 956));
        assert(s9.table_at(pgdir, 956) == t1);
        assert forall|i: int| 0 <= i < 64 implies t1 != #[trigger] s9.new_table(i) by {
            assert(s7.new_table(0) != s7.new_table(i + 2));
        }
        lemma_map_keeps_lookup(s9, pgdir, KERNBASE as int, 0, PTE_W, nk, a);
    }
    assert forall|j: int| 0 <= j < 8 implies #[trigger] w.lookup(pgdir, sva + j * 4096) == Some(
        ((spa + j * 4096) as u32) | PTE_W | PTE_P,
    ) by {
        let a = sva + j * 4096;
        assert(pdx_of(a) == 959);
        assert(s9.pde(pgdir, a) == s9.dir_entry(pgdir, 959));
        assert(s9.table_at(pgdir, 959) == t2);
        assert forall|i: int| 0 <= i < 64 implies t2 != #[trigger] s9.new_table(i) by {
            assert(s7.new_table(1) != s7.new_table(i + 2));
        }
        lemma_map_keeps_lookup(s9, pgdir, KERNBASE as int, 0, PTE_W, nk, a);
    }
}

} // verus!
