//! The kernel's own page-table entries: an aligned physical address in bits
//! 12 to 51 and flag bits around it. Walking and filling whole tables is left to `crate::memory::paging`, whose
//! flags, errors and mapper this module shares.

pub use crate::memory::paging::mapper::Mapper;
pub use crate::memory::paging::{MapError, PageTableFlags, PAGE_TABLE_FLAG_BITS};
use crate::memory::addr::PhysAddress;
use vstd::prelude::*;

verus! {

pub const MAX_PHYS_ADDR_BITS: u32 = 52;

/// Physical addresses handed to `set_addr` must lie below this (2^52).
pub const MAX_PHYS_ADDR: u64 = 0x10_0000_0000_0000;

/// The bits of an entry that hold the physical address: bits 12 to 51.
pub const PAGE_TABLE_ENTRY_ADDR_BITS: u64 = 0x000f_ffff_ffff_f000;

/// One entry of a kernel page table.
#[derive(Clone, Copy, Debug)]
pub struct PageTableEntry {
    raw: u64,
}

impl View for PageTableEntry {
    type V = u64;

    closed spec fn view(&self) -> u64 {
        self.raw
    }
}

impl PageTableEntry {
    /// An entry with all bits zero.
    pub fn zero() -> (r: PageTableEntry)
        ensures
            r@ == 0,
    {
        PageTableEntry { raw: 0 }
    }

    /// Set the entry's physical address: bits 12 to 51 become `addr`, the
    /// other bits stay. For L1 entries this is the frame being mapped to; for
    /// L2 and up, the address of a lower-level table. `addr` must be 4 KiB
    /// aligned and below 2^52.
    pub fn set_addr(&mut self, addr: PhysAddress)
        requires
            addr@ % 4096 == 0,
            addr@ < MAX_PHYS_ADDR,
        ensures
            final(self)@ == (old(self)@ & !PAGE_TABLE_ENTRY_ADDR_BITS) | addr@,
    {
        self.raw = (self.raw & !PAGE_TABLE_ENTRY_ADDR_BITS) | addr.as_raw();
    }

    /// The physical address in bits 12 to 51 of the entry.
    pub fn get_addr(&self) -> (r: PhysAddress)
        ensures
            r@ == self@ & PAGE_TABLE_ENTRY_ADDR_BITS,
    {
        PhysAddress::from_raw(self.raw & PAGE_TABLE_ENTRY_ADDR_BITS)
    }

    /// Set the entry's flags: the flag bits become `flags`, those not in it
    /// are cleared, and the address bits stay. A parent entry's flags can so
    /// be narrowed by masking them and setting the result.
    pub fn set_flags(&mut self, flags: PageTableFlags)
        ensures
            final(self)@ == (old(self)@ & !PAGE_TABLE_FLAG_BITS) | flags@,
    {
        self.raw = (self.raw & !PAGE_TABLE_FLAG_BITS) | flags.bits();
    }

    /// The flag bits set in the entry.
    pub fn get_flags(&mut self) -> (r: PageTableFlags)
        ensures
            *final(self) == *old(self),
            r@ == old(self)@ & PAGE_TABLE_FLAG_BITS,
    {
        PageTableFlags::from_bits_truncate(self.raw)
    }
}

/// A kernel page table: 512 entries, all zero when fresh.
#[derive(Clone, Debug)]
pub struct PageTable {
    entries: [PageTableEntry; 512],
}

impl PageTable {
    /// A table whose every entry is zero.
    pub fn zero() -> (r: PageTable)
        ensures
            forall|i: int| 0 <= i < 512 ==> (#[trigger] r.entry(i))@ == 0,
    {
        let z = PageTableEntry::zero();
        PageTable { entries: [z; 512] }
    }

    /// The entry at index `i`.
    pub closed spec fn entry(&self, i: int) -> PageTableEntry {
        self.entries@[i]
    }

    /// The entry at index `i`, which must be below 512.
    pub fn entry_at(&self, i: usize) -> (r: PageTableEntry)
        requires
            i < 512,
        ensures
            r == self.entry(i as int),
    {
        self.entries[i]
    }
}

/// Setting an address and then flags round trips: `get_addr` gives back
/// the address and `get_flags` the flags; setting an address keeps the flags
/// already there, and setting flags keeps the address.
pub proof fn lemma_set_addr_round_trips(e: u64, addr: u64, flags: u64)
    requires
        addr % 4096 == 0,
        addr < MAX_PHYS_ADDR,
        flags & !PAGE_TABLE_FLAG_BITS == 0,
    ensures
        ((e & !PAGE_TABLE_ENTRY_ADDR_BITS) | addr) & PAGE_TABLE_ENTRY_ADDR_BITS == addr,
        ((e & !PAGE_TABLE_ENTRY_ADDR_BITS) | addr) & PAGE_TABLE_FLAG_BITS == e & PAGE_TABLE_FLAG_BITS,
        ((((e & !PAGE_TABLE_ENTRY_ADDR_BITS) | addr) & !PAGE_TABLE_FLAG_BITS) | flags)
            & PAGE_TABLE_ENTRY_ADDR_BITS == addr,
        ((((e & !PAGE_TABLE_ENTRY_ADDR_BITS) | addr) & !PAGE_TABLE_FLAG_BITS) | flags)
            & PAGE_TABLE_FLAG_BITS == flags,
{
    assert(((e & !0x000f_ffff_ffff_f000u64) | addr) & 0x000f_ffff_ffff_f000u64 == addr
        && ((e & !0x000f_ffff_ffff_f000u64) | addr) & 0xc000_0000_0000_01ffu64 == e
        & 0xc000_0000_0000_01ffu64 && ((((e & !0x000f_ffff_ffff_f000u64) | addr)
        & !0xc000_0000_0000_01ffu64) | flags) & 0x000f_ffff_ffff_f000u64 == addr && ((((e
        & !0x000f_ffff_ffff_f000u64) | addr) & !0xc000_0000_0000_01ffu64) | flags)
        & 0xc000_0000_0000_01ffu64 == flags) by (bit_vector)
        requires
            addr % 4096 == 0,
            addr < 0x10_0000_0000_0000u64,
            flags & !0xc000_0000_0000_01ffu64 == 0,
    ;
}

} // verus!
