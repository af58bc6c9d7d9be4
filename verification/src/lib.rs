pub mod elf;
pub mod log;
pub mod memory;
pub mod mm;
pub mod multiboot;
pub mod paging;
pub mod pic;
pub mod physmem;
pub mod qemu;
pub mod sched;
pub mod terminal;
pub mod vga;
