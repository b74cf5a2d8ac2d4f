# yamaos

The logic of a small i386 teaching kernel, verified with Verus.

- `src/pmap.rs`: the physical memory manager. Memory detection from the
  NVRAM sizes, the boot allocator, the page descriptors and their free list,
  page allocation and freeing, page directory walks, region mapping and
  `mem_init`. Physical memory is modelled as a vector of 32-bit words, handed
  in as the machine holds it, so the page directory and the page tables that
  the manager builds can be read back; the page descriptors are held as plain
  values beside it. `src/pmap/kernel_maps.rs` proves what the page directory
  maps after `mem_init`, for at most 2 GiB of memory and a page directory
  that lies past base memory.
- `src/mmu.rs`, `src/memlayout.rs`: address arithmetic and the memory layout.
- `src/drivers/vga.rs`: the text-mode screen buffer (cursor, scrolling,
  deletion) and the bytes it flushes to video memory.
- `src/console.rs`: the console input ring buffer.
- `src/drivers/uart.rs`, `src/drivers/kbc.rs`, `src/kbc.rs`: what the serial
  port and keyboard drivers decide from the bytes their ports give.
- `src/monitor.rs`: one step of the kernel monitor.
- `app/`: the kernel entry point and everything that touches hardware (port
  I/O, control registers, video memory), which feeds the library plain values.
- `tests/`: tests of the library on concrete values.
