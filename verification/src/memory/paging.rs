//! x86-64 page tables: entries, flags, and a mapper that builds the
//! four-level translation tree.

use super::addr::{
    lemma_common_alignments, lemma_low_mask_is_mod,
    lemma_address_ext, u64_max, Length, PhysAddress, PhysExtent, VirtAddress,
};
use super::page::{lemma_frame_ext, lemma_page_ext, table_index, Frame, Page, PAGE_SIZE};
use tree::{lemma_index_bound, translate, walk};
use vstd::prelude::*;

pub mod laws;
pub mod mapper;
pub mod range;
pub mod tree;

verus! {

pub const MAX_PHYS_ADDR_BITS: u32 = 52;

/// Physical addresses must lie below this (2^52).
pub const MAX_PHYS_ADDR: u64 = 0x10_0000_0000_0000;

/// The frame address occupies bits 12..=51 of an entry (up to the 52-bit
/// physical address maximum). Bits 0..=11 are zero by 4 KiB alignment; bits
/// 52..=63 are reserved or hold flags.
pub const PAGE_TABLE_ENTRY_ADDR_BITS: u64 = 0x000f_ffff_ffff_f000;

/// Every bit that some `PageTableFlags` flag names.
pub const PAGE_TABLE_FLAG_BITS: u64 = 0xc000_0000_0000_01ff;

/// Control bits for a page table entry. Documented in architecture manual.
/// Note that some bits may not be valid for some table levels, and not every
/// combination of bits may be valid.
///
/// Flags prefixed with `APP_` are from "available" bits, so any meaning is
/// attributed by us.
#[derive(Clone, Copy, Debug, PartialEq, Eq, Structural)]
pub struct PageTableFlags {
    bits: u64,
}

impl View for PageTableFlags {
    type V = u64;

    closed spec fn view(&self) -> u64 {
        self.bits
    }
}

/// No flags, and all of them, hold only flag bits.
proof fn lemma_flag_mask_bounds()
    by (bit_vector)
    ensures
        0u64 & !0xc000_0000_0000_01ffu64 == 0,
        0xc000_0000_0000_01ffu64 & !0xc000_0000_0000_01ffu64 == 0,
{
}

impl PageTableFlags {
    pub const PRESENT: u64 = 0x1;

    pub const WRITABLE: u64 = 0x2;

    pub const USER: u64 = 0x4;

    pub const WRITE_THROUGH: u64 = 0x8;

    pub const NO_CACHE: u64 = 0x10;

    pub const ACCESSED: u64 = 0x20;

    pub const DIRTY: u64 = 0x40;

    pub const PAGE_SIZE: u64 = 0x80;

    pub const GLOBAL: u64 = 0x100;

    pub const EXECUTE_DISABLE: u64 = 0x8000_0000_0000_0000;

    /// A non-leaf entry with this bit is "frozen", meaning all descendent
    /// tables cannot be modified. This allows for mappings shared by multiple
    /// address spaces; remapping one should not change any others.
    ///
    /// Kernel mappings shared between all processes have this and the
    /// `GLOBAL` bit set.
    pub const APP_PARENT_FROZEN: u64 = 0x4000_0000_0000_0000;

    pub const DEFAULT_PARENT_TABLE_FLAGS: u64 = 0x3;

    #[verifier::type_invariant]
    spec fn only_known_bits(self) -> bool {
        self.bits & !PAGE_TABLE_FLAG_BITS == 0
    }

    /// The flags named in `bits`; other bits are dropped.
    pub fn from_bits_truncate(bits: u64) -> (r: PageTableFlags)
        ensures
            r@ == bits & PAGE_TABLE_FLAG_BITS,
    {
        proof {
            lemma_mask_is_subset(bits, PAGE_TABLE_FLAG_BITS);
        }
        PageTableFlags { bits: bits & PAGE_TABLE_FLAG_BITS }
    }

    /// The flags in `bits`, or `None` if `bits` holds a bit no flag names.
    pub fn from_bits(bits: u64) -> (r: Option<PageTableFlags>)
        ensures
            r is Some <==> bits & !PAGE_TABLE_FLAG_BITS == 0,
            r matches Some(f) ==> f@ == bits,
    {
        if bits & !PAGE_TABLE_FLAG_BITS == 0 {
            Some(PageTableFlags { bits })
        } else {
            None
        }
    }

    pub fn empty() -> (r: PageTableFlags)
        ensures
            r@ == 0,
    {
        proof {
            lemma_flag_mask_bounds();
        }
        PageTableFlags { bits: 0 }
    }

    pub fn all() -> (r: PageTableFlags)
        ensures
            r@ == PAGE_TABLE_FLAG_BITS,
    {
        proof {
            lemma_flag_mask_bounds();
        }
        PageTableFlags { bits: PAGE_TABLE_FLAG_BITS }
    }

    pub fn bits(&self) -> (r: u64)
        ensures
            r == self@,
            r & !PAGE_TABLE_FLAG_BITS == 0,
    {
        proof {
            use_type_invariant(self);
        }
        self.bits
    }

    /// Whether every flag of `other` is set in `self`.
    pub fn contains(&self, other: PageTableFlags) -> (r: bool)
        ensures
            r == (self@ & other@ == other@),
    {
        self.bits & other.bits == other.bits
    }

    pub fn union(self, other: PageTableFlags) -> (r: PageTableFlags)
        ensures
            r@ == self@ | other@,
    {
        proof {
            use_type_invariant(&self);
            use_type_invariant(&other);
            lemma_union_is_subset(self.bits, other.bits, PAGE_TABLE_FLAG_BITS);
        }
        PageTableFlags { bits: self.bits | other.bits }
    }

    pub fn intersection(self, other: PageTableFlags) -> (r: PageTableFlags)
        ensures
            r@ == self@ & other@,
    {
        proof {
            use_type_invariant(&self);
            lemma_and_is_subset(self.bits, other.bits, PAGE_TABLE_FLAG_BITS);
        }
        PageTableFlags { bits: self.bits & other.bits }
    }

    pub fn difference(self, other: PageTableFlags) -> (r: PageTableFlags)
        ensures
            r@ == self@ & !other@,
    {
        proof {
            use_type_invariant(&self);
            lemma_and_is_subset(self.bits, !other.bits, PAGE_TABLE_FLAG_BITS);
        }
        PageTableFlags { bits: self.bits & !other.bits }
    }
}

proof fn lemma_mask_is_subset(x: u64, m: u64)
    by (bit_vector)
    ensures
        (x & m) & !m == 0,
{
}

proof fn lemma_union_is_subset(x: u64, y: u64, m: u64)
    by (bit_vector)
    requires
        x & !m == 0,
        y & !m == 0,
    ensures
        (x | y) & !m == 0,
{
}

proof fn lemma_and_is_subset(x: u64, y: u64, m: u64)
    by (bit_vector)
    requires
        x & !m == 0,
    ensures
        (x & y) & !m == 0,
{
}

/// The physical address an entry holds.
pub open spec fn entry_addr(raw: u64) -> u64 {
    raw & PAGE_TABLE_ENTRY_ADDR_BITS
}

/// The flag bits of an entry.
pub open spec fn entry_flags(raw: u64) -> u64 {
    raw & PAGE_TABLE_FLAG_BITS
}

/// `raw` with its address field replaced by `addr`.
pub open spec fn with_addr(raw: u64, addr: u64) -> u64 {
    (raw & !PAGE_TABLE_ENTRY_ADDR_BITS) | addr
}

/// `raw` with its flag bits replaced by `flags`.
pub open spec fn with_flags(raw: u64, flags: u64) -> u64 {
    (raw & !PAGE_TABLE_FLAG_BITS) | flags
}

pub open spec fn is_present(raw: u64) -> bool {
    raw & 0x1 == 0x1
}

pub open spec fn is_huge(raw: u64) -> bool {
    raw & 0x80 == 0x80
}

/// An address `set_addr` accepts: 4 KiB-aligned and below 2^52.
pub open spec fn mappable(addr: u64) -> bool {
    addr % 4096 == 0 && addr < MAX_PHYS_ADDR
}

proof fn lemma_mappable_bits(addr: u64)
    by (bit_vector)
    requires
        addr % 4096 == 0,
        addr < 0x10_0000_0000_0000,
    ensures
        addr & !0x000f_ffff_ffff_f000u64 == 0,
        addr & 0x000f_ffff_ffff_f000u64 == addr,
        ((addr >> 12u64) << 12u64) & 0x000f_ffff_ffff_f000u64 == addr,
{
}

/// Replacing the address field writes exactly that field.
pub proof fn lemma_with_addr(raw: u64, addr: u64)
    requires
        mappable(addr),
    ensures
        entry_addr(with_addr(raw, addr)) == addr,
        with_addr(raw, addr) & !PAGE_TABLE_ENTRY_ADDR_BITS == raw & !PAGE_TABLE_ENTRY_ADDR_BITS,
        entry_flags(with_addr(raw, addr)) == entry_flags(raw),
{
    lemma_mappable_bits(addr);
    lemma_with_addr_bits(raw, addr);
}

proof fn lemma_with_addr_bits(raw: u64, addr: u64)
    by (bit_vector)
    requires
        addr & !0x000f_ffff_ffff_f000u64 == 0,
    ensures
        ((raw & !0x000f_ffff_ffff_f000u64) | addr) & 0x000f_ffff_ffff_f000u64 == addr,
        ((raw & !0x000f_ffff_ffff_f000u64) | addr) & !0x000f_ffff_ffff_f000u64 == raw
            & !0x000f_ffff_ffff_f000u64,
        ((raw & !0x000f_ffff_ffff_f000u64) | addr) & 0xc000_0000_0000_01ffu64 == raw
            & 0xc000_0000_0000_01ffu64,
{
}

/// The address field and the flag bits of an entry never overlap, so setting
/// one cannot clobber the other.
pub proof fn lemma_addr_and_flag_bits_disjoint()
    ensures
        PAGE_TABLE_ENTRY_ADDR_BITS & PAGE_TABLE_FLAG_BITS == 0,
{
    assert(0x000f_ffff_ffff_f000u64 & 0xc000_0000_0000_01ffu64 == 0) by (bit_vector);
}

/// Setting the address then the flags gives the same entry as the reverse
/// order.
pub proof fn lemma_set_addr_and_flags_commute(raw: u64, addr: u64, flags: u64)
    requires
        mappable(addr),
        flags & !PAGE_TABLE_FLAG_BITS == 0,
    ensures
        with_flags(with_addr(raw, addr), flags) == with_addr(with_flags(raw, flags), addr),
{
    lemma_mappable_bits(addr);
    assert(((((raw & !0x000f_ffff_ffff_f000u64) | addr) & !0xc000_0000_0000_01ffu64) | flags) == (((
    raw & !0xc000_0000_0000_01ffu64) | flags) & !0x000f_ffff_ffff_f000u64) | addr) by (bit_vector)
        requires
            addr & !0x000f_ffff_ffff_f000u64 == 0,
            flags & !0xc000_0000_0000_01ffu64 == 0,
    ;
}

/// Replacing the flag bits writes exactly those bits.
pub proof fn lemma_with_flags(raw: u64, flags: u64)
    requires
        flags & !PAGE_TABLE_FLAG_BITS == 0,
    ensures
        entry_flags(with_flags(raw, flags)) == flags,
        with_flags(raw, flags) & !PAGE_TABLE_FLAG_BITS == raw & !PAGE_TABLE_FLAG_BITS,
        entry_addr(with_flags(raw, flags)) == entry_addr(raw),
        is_present(with_flags(raw, flags)) == (flags & 0x1 == 0x1),
        is_huge(with_flags(raw, flags)) == (flags & 0x80 == 0x80),
{
    lemma_with_flags_bits(raw, flags);
}

proof fn lemma_with_flags_bits(raw: u64, flags: u64)
    by (bit_vector)
    requires
        flags & !0xc000_0000_0000_01ffu64 == 0,
    ensures
        ((raw & !0xc000_0000_0000_01ffu64) | flags) & 0xc000_0000_0000_01ffu64 == flags,
        ((raw & !0xc000_0000_0000_01ffu64) | flags) & !0xc000_0000_0000_01ffu64 == raw
            & !0xc000_0000_0000_01ffu64,
        ((raw & !0xc000_0000_0000_01ffu64) | flags) & 0x000f_ffff_ffff_f000u64 == raw
            & 0x000f_ffff_ffff_f000u64,
        (((raw & !0xc000_0000_0000_01ffu64) | flags) & 0x1 == 0x1) == (flags & 0x1 == 0x1),
        (((raw & !0xc000_0000_0000_01ffu64) | flags) & 0x80 == 0x80) == (flags & 0x80 == 0x80),
{
}

/// One entry of a page table.
#[derive(Clone, Copy, Debug, PartialEq, Eq, Structural)]
pub struct PageTableEntry {
    raw: u64,
}

impl View for PageTableEntry {
    type V = u64;

    closed spec fn view(&self) -> u64 {
        self.raw
    }
}

impl PageTableEntry {
    /// Create an entry with all bits set to zero.
    pub fn zero() -> (r: PageTableEntry)
        ensures
            r@ == 0,
    {
        PageTableEntry { raw: 0 }
    }

    /// An entry holding exactly `raw`.
    pub fn from_raw(raw: u64) -> (r: PageTableEntry)
        ensures
            r@ == raw,
    {
        PageTableEntry { raw }
    }

    /// Set the entry's physical address, leaving every other bit as it was.
    /// For L1 entries this is the memory frame being mapped to; for L2+, the
    /// address of a lower-level table. `addr` must be 4 KiB-aligned and below
    /// 2^52. A 2 MiB or 1 GiB leaf additionally needs the matching alignment,
    /// which `Mapper::map_large` checks.
    pub fn set_addr(&mut self, addr: PhysAddress)
        requires
            mappable(addr@),
        ensures
            final(self)@ == with_addr(old(self)@, addr@),
    {
        proof {
            lemma_mappable_bits(addr@);
        }
        let pfn = addr.as_raw() >> 12;
        self.raw = (self.raw & !PAGE_TABLE_ENTRY_ADDR_BITS) | ((pfn << 12)
            & PAGE_TABLE_ENTRY_ADDR_BITS);
    }

    pub fn get_addr(&self) -> (r: PhysAddress)
        ensures
            r@ == entry_addr(self@),
            r@ % 4096 == 0,
            r@ < MAX_PHYS_ADDR,
    {
        proof {
            lemma_entry_addr_is_mappable(self.raw);
        }
        PhysAddress::from_raw(((self.raw >> 12) & 0xff_ffff_ffff) << 12)
    }

    /// Set flags: flag bits not in `flags` are cleared; the address and the
    /// bits no flag names are left untouched.
    pub fn set_flags(&mut self, flags: PageTableFlags)
        ensures
            final(self)@ == with_flags(old(self)@, flags@),
            flags@ & !PAGE_TABLE_FLAG_BITS == 0,
    {
        self.raw = (self.raw & !PageTableFlags::all().bits()) | flags.bits();
    }

    /// Get flags (as documented in `PageTableFlags`).
    pub fn get_flags(&self) -> (r: PageTableFlags)
        ensures
            r@ == entry_flags(self@),
    {
        proof {
            lemma_entry_addr_is_mappable(self.raw);
        }
        PageTableFlags::from_bits_truncate(self.raw & PageTableFlags::all().bits())
    }

    pub fn as_raw(&self) -> (r: u64)
        ensures
            r == self@,
    {
        self.raw
    }

    fn present(&self) -> (r: bool)
        ensures
            r == is_present(self@),
    {
        self.raw & PageTableFlags::PRESENT == PageTableFlags::PRESENT
    }

    fn huge(&self) -> (r: bool)
        ensures
            r == is_huge(self@),
    {
        self.raw & PageTableFlags::PAGE_SIZE == PageTableFlags::PAGE_SIZE
    }
}

proof fn lemma_entry_addr_is_mappable(raw: u64)
    by (bit_vector)
    ensures
        ((raw >> 12u64) & 0xff_ffff_ffffu64) << 12u64 == raw & 0x000f_ffff_ffff_f000u64,
        (raw & 0x000f_ffff_ffff_f000u64) % 4096 == 0,
        (raw & 0x000f_ffff_ffff_f000u64) < 0x10_0000_0000_0000u64,
        ((raw & 0xc000_0000_0000_01ffu64) & 0xc000_0000_0000_01ffu64) == raw
            & 0xc000_0000_0000_01ffu64,
{
}


/// The raw entries of an all-zero table.
pub open spec fn zero_table() -> Seq<u64> {
    Seq::new(512, |i: int| 0u64)
}

/// A page table: 512 entries, 4 KiB in all.
#[derive(Debug)]
pub struct PageTable {
    entries: Vec<PageTableEntry>,
}

impl View for PageTable {
    type V = Seq<u64>;

    closed spec fn view(&self) -> Seq<u64> {
        self.entries@.map_values(|e: PageTableEntry| e@)
    }
}

impl Clone for PageTable {
    fn clone(&self) -> (r: Self)
        ensures
            r@ == self@,
    {
        proof {
            use_type_invariant(self);
        }
        let mut entries: Vec<PageTableEntry> = Vec::new();
        let mut i: usize = 0;
        while i < self.entries.len()
            invariant
                i <= self.entries.len(),
                entries.len() == i,
                forall|j: int| 0 <= j < i ==> #[trigger] entries@[j] == self.entries@[j],
            decreases self.entries.len() - i,
        {
            entries.push(self.entries[i]);
            i = i + 1;
        }
        assert(entries@ =~= self.entries@);
        PageTable { entries }
    }
}

impl PageTable {
    #[verifier::type_invariant]
    spec fn has_512_entries(self) -> bool {
        self.entries.len() == 512
    }

    /// Every table has 512 entries.
    pub fn len(&self) -> (r: usize)
        ensures
            r == self@.len(),
            r == 512,
    {
        proof {
            use_type_invariant(self);
        }
        self.entries.len()
    }

    /// Create a table where all entries are zero.
    pub fn zero() -> (r: PageTable)
        ensures
            r@ == zero_table(),
    {
        let mut entries: Vec<PageTableEntry> = Vec::new();
        let mut i: usize = 0;
        while i < 512
            invariant
                i <= 512,
                entries.len() == i,
                forall|j: int| 0 <= j < i ==> #[trigger] entries@[j]@ == 0,
            decreases 512 - i,
        {
            entries.push(PageTableEntry::zero());
            i = i + 1;
        }
        let r = PageTable { entries };
        assert(r@ =~= zero_table());
        r
    }

    pub fn entries(&self) -> (r: &[PageTableEntry])
        ensures
            r@.len() == 512,
            forall|i: int| 0 <= i < 512 ==> #[trigger] r@[i]@ == self@[i],
    {
        proof {
            use_type_invariant(self);
        }
        self.entries.as_slice()
    }

    /// Entry `index`, which must be below 512.
    pub fn entry(&self, index: usize) -> (r: PageTableEntry)
        requires
            index < 512,
        ensures
            r@ == self@[index as int],
    {
        proof {
            use_type_invariant(self);
        }
        self.entries[index]
    }

    pub(crate) fn set_entry(&mut self, index: usize, entry: PageTableEntry)
        requires
            index < 512,
        ensures
            final(self)@ == old(self)@.update(index as int, entry@),
    {
        proof {
            use_type_invariant(&*self);
        }
        let mut entries = self.entries.clone();
        assert(entries@ =~= self.entries@);
        entries.set(index, entry);
        self.entries = entries;
        assert(self@ =~= old(self)@.update(index as int, entry@));
    }
}

#[derive(Clone, Copy, Debug, PartialEq, Eq, Structural)]
pub enum MapError {
    FrameAllocationFailed,
    TranslationFailed,
}

/// Every table in the map has 512 entries.
pub open spec fn tables_wf(tables: Map<u64, Seq<u64>>) -> bool {
    forall|k: u64| tables.contains_key(k) ==> (#[trigger] tables[k]).len() == 512
}

/// Access to the page tables `Mapper` traverses, keyed by a table's physical
/// frame plus an index within it. This is the only thing that differs between
/// real hardware and an in-memory model: the traversal logic in `Mapper` is
/// written once, against this trait.
///
/// `tables` is the store's content: each known table's frame start, mapped to
/// its 512 raw entries.
pub trait TableStore {
    spec fn tables(&self) -> Map<u64, Seq<u64>>;

    /// How many more tables `alloc_zeroed_table` can hand out.
    spec fn capacity(&self) -> nat;

    /// Read entry `index` (`< 512`) from the table at frame `table`. Every
    /// table the store holds can be read.
    fn read_entry(&mut self, table: Frame, index: usize) -> (r: Result<PageTableEntry, MapError>)
        requires
            tables_wf(old(self).tables()),
            old(self).tables().contains_key(table@),
            index < 512,
        ensures
            final(self).tables() == old(self).tables(),
            final(self).capacity() == old(self).capacity(),
            r is Ok,
            r matches Ok(e) ==> e@ == old(self).tables()[table@][index as int],
    ;

    /// Write `entry` into slot `index` (`< 512`) of the table at frame
    /// `table`. Every table the store holds can be written.
    fn write_entry(&mut self, table: Frame, index: usize, entry: PageTableEntry) -> (r: Result<
        (),
        MapError,
    >)
        requires
            tables_wf(old(self).tables()),
            old(self).tables().contains_key(table@),
            index < 512,
        ensures
            final(self).capacity() == old(self).capacity(),
            r is Ok,
            r is Ok ==> final(self).tables() == old(self).tables().insert(
                table@,
                old(self).tables()[table@].update(index as int, entry@),
            ),
    ;

    /// Allocate a fresh, zeroed table and return its frame. This succeeds
    /// exactly when the store has room for another table.
    fn alloc_zeroed_table(&mut self) -> (r: Result<Frame, MapError>)
        requires
            tables_wf(old(self).tables()),
        ensures
            r is Ok <==> old(self).capacity() > 0,
            r matches Ok(f) ==> {
                &&& !old(self).tables().contains_key(f@)
                &&& mappable(f@)
                &&& final(self).tables() == old(self).tables().insert(f@, zero_table())
                &&& final(self).capacity() == old(self).capacity() - 1
            },
            r is Err ==> {
                &&& r == Err::<Frame, MapError>(MapError::FrameAllocationFailed)
                &&& final(self).tables() == old(self).tables()
                &&& final(self).capacity() == old(self).capacity()
            },
    ;
}

/// Page tables kept in memory, with no raw pointers: table `i` lives at frame
/// `base + i * 4096`.
pub struct ArenaStore {
    base: u64,
    tables: Vec<PageTable>,
}

impl ArenaStore {
    spec fn frames_mappable(self) -> bool {
        &&& self.base % 4096 == 0
        &&& self.base + 4096 * self.tables.len() <= MAX_PHYS_ADDR
    }

    spec fn holds(self, k: u64) -> bool {
        &&& self.base <= k
        &&& k < self.base + 4096 * self.tables.len()
        &&& (k - self.base) % 4096 == 0
    }

    /// The frame the first table lives at; table `i` lives at
    /// `first_frame() + 4096 * i`.
    pub closed spec fn first_frame(&self) -> u64 {
        self.base
    }

    /// An empty store whose tables will live at frames from `base` upwards,
    /// with room for every table below 2^52. `base` must lie below 2^52.
    pub fn new(base: Frame) -> (r: ArenaStore)
        requires
            base@ < MAX_PHYS_ADDR,
        ensures
            r.tables() == Map::<u64, Seq<u64>>::empty(),
            r.first_frame() == base@,
            r.count() == 0,
            r.capacity() == (MAX_PHYS_ADDR - base@) / 4096,
    {
        let start = base.start();
        let r = ArenaStore { base: start.as_raw(), tables: Vec::new() };
        assert(r.frames_mappable());
        assert(r.tables() =~= Map::<u64, Seq<u64>>::empty());
        r
    }

    /// How many tables the store holds.
    pub closed spec fn count(&self) -> nat {
        self.tables@.len()
    }

    /// How many tables have been allocated.
    pub fn allocated(&self) -> (r: usize)
        ensures
            r == self.count(),
    {
        self.tables.len()
    }

    /// The table at frame `addr`, if the store holds one there.
    fn table_at(&self, addr: u64) -> (r: Option<&PageTable>)
        ensures
            self.tables().contains_key(addr) ==> (r matches Some(t) && t@ == self.tables()[addr]),
            !self.tables().contains_key(addr) ==> r is None,
    {
        let n = self.tables.len() as u64;
        if self.base % 4096 != 0 || self.base >= MAX_PHYS_ADDR || n > (MAX_PHYS_ADDR - self.base)
            / 4096 {
            proof {
                if self.frames_mappable() {
                    assert(n <= (MAX_PHYS_ADDR - self.base) / 4096) by (nonlinear_arith)
                        requires
                            self.base + 4096 * n <= MAX_PHYS_ADDR,
                    ;
                }
            }
            return None;
        }
        assert(self.frames_mappable()) by (nonlinear_arith)
            requires
                n <= (MAX_PHYS_ADDR - self.base) / 4096,
                self.base % 4096 == 0,
                self.base < MAX_PHYS_ADDR,
                n == self.tables.len(),
        ;
        if addr < self.base || (addr - self.base) % 4096 != 0 {
            return None;
        }
        let i = (addr - self.base) / 4096;
        if i >= n {
            proof {
                assert(!self.holds(addr)) by (nonlinear_arith)
                    requires
                        i == (addr - self.base) / 4096,
                        i >= n,
                        n == self.tables.len(),
                ;
            }
            return None;
        }
        proof {
            assert(self.holds(addr)) by (nonlinear_arith)
                requires
                    i == (addr - self.base) / 4096,
                    i < n,
                    n == self.tables.len(),
                    self.base <= addr,
                    (addr - self.base) % 4096 == 0,
            ;
        }
        Some(&self.tables[i as usize])
    }

    fn walk_sized(&self, root: &PageTable, page: Page) -> (r: Option<(PageTableEntry, u64)>)
        ensures
            match walk(root@, self.tables(), page@) {
                Some((e, size)) => r matches Some((x, sz)) && x@ == e && sz == size,
                None => r is None,
            },
    {
        proof {
            lemma_index_bound(page@);
        }
        let e4 = root.entry(page.l4_index());
        if !e4.present() {
            return None;
        }
        let t3 = match self.table_at(e4.get_addr().as_raw()) {
            Some(t) => t,
            None => return None,
        };
        let e3 = t3.entry(page.l3_index());
        if !e3.present() {
            return None;
        }
        if e3.huge() {
            return Some((e3, 0x4000_0000));
        }
        let t2 = match self.table_at(e3.get_addr().as_raw()) {
            Some(t) => t,
            None => return None,
        };
        let e2 = t2.entry(page.l2_index());
        if !e2.present() {
            return None;
        }
        if e2.huge() {
            return Some((e2, 0x20_0000));
        }
        let t1 = match self.table_at(e2.get_addr().as_raw()) {
            Some(t) => t,
            None => return None,
        };
        let e1 = t1.entry(page.l1_index());
        if e1.present() {
            Some((e1, 0x1000))
        } else {
            None
        }
    }

    /// The leaf entry a hardware walk from `root` reaches for `page`, if any,
    /// stopping early at a huge-page leaf in L3 or L2.
    pub fn walk(&self, root: &PageTable, page: Page) -> (r: Option<PageTableEntry>)
        ensures
            match walk(root@, self.tables(), page@) {
                Some((e, _)) => r matches Some(x) && x@ == e,
                None => r is None,
            },
    {
        match self.walk_sized(root, page) {
            Some((e, _)) => Some(e),
            None => None,
        }
    }

    /// The physical address the hardware translates `virt` to, if it is
    /// mapped from `root`: the leaf's frame plus `virt`'s offset in its page.
    pub fn translate(&self, root: &PageTable, virt: VirtAddress) -> (r: Option<PhysAddress>)
        ensures
            match translate(root@, self.tables(), virt@) {
                Some(p) => r matches Some(x) && x@ == p,
                None => r is None,
            },
    {
        let page = Page::containing(virt);
        proof {
            lemma_common_alignments();
            lemma_page_start_indices(virt@, page@);
        }
        match self.walk_sized(root, page) {
            Some((e, size)) => {
                proof {
                    lemma_low_mask_is_mod(virt@, size);
                }
                Some(PhysAddress::from_raw(e.get_addr().as_raw() + (virt.as_raw() & (size - 1))))
            },
            None => None,
        }
    }

    /// Hand the tables out for copying into real memory: the frame the
    /// first table lives at, and the tables in order, table `i` living at
    /// frame `first + 4096 * i`.
    pub fn into_tables(self) -> (r: (u64, Vec<PageTable>))
        ensures
            r.0 == self.first_frame(),
            r.1@.len() == self.count(),
            forall|k: u64| #[trigger]
                self.tables().contains_key(k) ==> {
                    &&& r.0 <= k
                    &&& (k - r.0) % 4096 == 0
                    &&& (k - r.0) / 4096 < r.1@.len()
                    &&& r.1@[(k - r.0) / 4096]@ == self.tables()[k]
                },
            self.tables() != Map::<u64, Seq<u64>>::empty() ==> forall|i: int|
                0 <= i < r.1@.len() ==> #[trigger] self.tables().contains_key((r.0 + 4096 * i) as u64),
    {
        proof {
            if self.tables() != Map::<u64, Seq<u64>>::empty() {
                assert(self.frames_mappable());
                assert forall|i: int| 0 <= i < self.tables@.len() implies #[trigger] self.tables().contains_key(
                    (self.base + 4096 * i) as u64,
                ) by {
                    let k = (self.base + 4096 * i) as u64;
                    assert(k - self.base == 4096 * i);
                    assert((4096 * i) % 4096 == 0) by (nonlinear_arith);
                    assert(self.holds(k));
                }
            }
        }
        (self.base, self.tables)
    }

    fn slot(&self, table: Frame) -> (r: usize)
        requires
            self.holds(table@),
        ensures
            r < self.tables@.len(),
            r == (table@ - self.base) / 4096,
    {
        ((table.start().as_raw() - self.base) / 4096) as usize
    }
}

impl TableStore for ArenaStore {
    closed spec fn tables(&self) -> Map<u64, Seq<u64>> {
        if self.frames_mappable() {
            Map::new(|k: u64| self.holds(k), |k: u64| self.tables@[(k - self.base) / 4096]@)
        } else {
            Map::empty()
        }
    }

    /// The frames left below 2^52 after the tables held, when the base is
    /// page aligned and below 2^52.
    closed spec fn capacity(&self) -> nat {
        if self.base % 4096 == 0 && self.base < MAX_PHYS_ADDR && self.tables@.len() < (MAX_PHYS_ADDR
            - self.base) / 4096 {
            ((MAX_PHYS_ADDR - self.base) / 4096 - self.tables@.len()) as nat
        } else {
            0
        }
    }

    fn read_entry(&mut self, table: Frame, index: usize) -> (r: Result<PageTableEntry, MapError>) {
        let i = self.slot(table);
        Ok(self.tables[i].entry(index))
    }

    fn write_entry(&mut self, table: Frame, index: usize, entry: PageTableEntry) -> (r: Result<
        (),
        MapError,
    >) {
        let i = self.slot(table);
        let mut t = self.tables[i].clone();
        t.set_entry(index, entry);
        self.tables.set(i, t);
        proof {
            assert forall|k: u64| self.holds(k) implies self.tables@[(k - self.base) / 4096]@ == (
            if k == table@ {
                old(self).tables()[table@].update(index as int, entry@)
            } else {
                old(self).tables()[k]
            }) by {
                if k != table@ {
                    lemma_distinct_slots(k, table@, self.base);
                }
            }
            assert(self.tables() =~= old(self).tables().insert(
                table@,
                old(self).tables()[table@].update(index as int, entry@),
            ));
        }
        Ok(())
    }

    /// The new table lives right after those held.
    fn alloc_zeroed_table(&mut self) -> (r: Result<Frame, MapError>)
        ensures
            r matches Ok(f) ==> f@ == old(self).first_frame() + 4096 * old(self).count()
                && final(self).count() == old(self).count() + 1,
            final(self).first_frame() == old(self).first_frame(),
    {
        let n = self.tables.len();
        if self.base % 4096 != 0 || self.base >= MAX_PHYS_ADDR || n as u64 >= (MAX_PHYS_ADDR
            - self.base) / 4096 {
            return Err(MapError::FrameAllocationFailed);
        }
        let frame_start = self.base + 4096 * (n as u64);
        assert(frame_start % 4096 == 0) by (nonlinear_arith)
            requires
                frame_start == self.base + 4096 * n,
                self.base % 4096 == 0,
        ;
        self.tables.push(PageTable::zero());
        let f = Frame::new(PhysAddress::from_raw(frame_start));
        proof {
            assert((f@ - self.base) / 4096 == n);
            assert forall|k: u64| #[trigger] self.holds(k) implies self.tables@[(k - self.base) / 4096]@ == (
            if k == f@ {
                zero_table()
            } else {
                old(self).tables()[k]
            }) by {
                if k != f@ {
                    lemma_distinct_slots(k, f@, self.base);
                }
            }
            assert forall|k: u64| #[trigger] self.holds(k) <==> (old(self).holds(k) || k == f@) by {
                if self.holds(k) && k != f@ {
                    lemma_distinct_slots(k, f@, self.base);
                }
            }
            assert(self.tables() =~= old(self).tables().insert(f@, zero_table()));
        }
        Ok(f)
    }
}

/// An address and the start of its page have the same table indices.
proof fn lemma_page_start_indices(v: u64, p: u64)
    by (bit_vector)
    requires
        p == v - v % 4096,
    ensures
        (p >> 39u64) & 0x1ff == (v >> 39u64) & 0x1ff,
        (p >> 30u64) & 0x1ff == (v >> 30u64) & 0x1ff,
        (p >> 21u64) & 0x1ff == (v >> 21u64) & 0x1ff,
        (p >> 12u64) & 0x1ff == (v >> 12u64) & 0x1ff,
{
}

proof fn lemma_distinct_slots(k: u64, t: u64, base: u64)
    requires
        base <= k,
        base <= t,
        (k - base) % 4096 == 0,
        (t - base) % 4096 == 0,
        k != t,
    ensures
        (k - base) / 4096 != (t - base) / 4096,
{
    vstd::arithmetic::div_mod::lemma_fundamental_div_mod(k - base, 4096);
    vstd::arithmetic::div_mod::lemma_fundamental_div_mod(t - base, 4096);
}

} // verus!
