# testos

The memory-management core of a small x86-64 kernel, written in Verus and
proved against its contracts, with the kernel glue around it.

- `src/` is the verified library:
  - `memory/addr.rs`, `memory/page.rs`: addresses, lengths, extents, frames,
    pages and their ranges.
  - `memory.rs`: the machine's memory map, marking the kernel's areas in it,
    and cutting reserved holes out of extents.
  - `memory/allocators/phys.rs`: the bitmap frame allocator and the bump
    allocator; `memory/allocators/heap.rs`: the heap's size classes.
  - `memory/paging.rs` and `memory/paging/`: page-table entries, the
    four-level translation tree as a mathematical object, the mapper that
    fills it (4 KiB, 2 MiB and 1 GiB pages, whole ranges), and the laws of
    successive mappings.
  - `mm.rs`, `mm/template.rs`, `mm/paging.rs`: the kernel's virtual address
    layout, boot-time frame bookkeeping, and the page table every address
    space starts from.
  - `physmem.rs`: the older physical-memory types, with hole cutting and a
    bump allocator over the memory map.
  - `sched.rs`, `pic.rs`, `vga.rs`, `terminal.rs`, `log.rs`, `multiboot.rs`,
    `elf.rs`, `paging.rs`, `qemu.rs`: the scheduler's ready list, interrupt
    controller decisions, the text screens, logging labels, the boot
    information reader and small kernel types.
- `tests/` runs the library on concrete values.
- `app/` is the kernel around it: boot entry, port and memory-mapped I/O,
  global state, context switches and the heap's raw memory.
