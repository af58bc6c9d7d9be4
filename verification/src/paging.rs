//! The first, minimal page-table types: raw frame and page numbers, raw
//! entries split into address and flag bits, and tables tagged with their
//! level in the hierarchy.

use core::marker::PhantomData;
use vstd::prelude::*;

verus! {

const ENTRY_COUNT: usize = 512;

/// A physical frame, by number.
pub struct Frame(pub u64);

/// A virtual page, by number.
pub struct Page(pub u64);

proof fn lemma_index_bits(x: u64)
    by (bit_vector)
    ensures
        (x >> 27u64) & 0o777u64 == (x / 0x800_0000u64) % 512,
        (x >> 18u64) & 0o777u64 == (x / 0x4_0000u64) % 512,
        (x >> 9u64) & 0o777u64 == (x / 0x200u64) % 512,
        (x >> 0u64) & 0o777u64 == x % 512,
{
}

impl Page {
    /// The page's slot in its level-4 table: bits 27..36 of the page number.
    pub fn p4_ndx(&self) -> (r: usize)
        ensures
            r == (self.0 / 0x800_0000) % 512,
    {
        proof {
            lemma_index_bits(self.0);
        }
        ((self.0 >> 27) & 0o777) as usize
    }

    /// The page's slot in its level-3 table: bits 18..27 of the page number.
    pub fn p3_ndx(&self) -> (r: usize)
        ensures
            r == (self.0 / 0x4_0000) % 512,
    {
        proof {
            lemma_index_bits(self.0);
        }
        ((self.0 >> 18) & 0o777) as usize
    }

    /// The page's slot in its level-2 table: bits 9..18 of the page number.
    pub fn p2_ndx(&self) -> (r: usize)
        ensures
            r == (self.0 / 0x200) % 512,
    {
        proof {
            lemma_index_bits(self.0);
        }
        ((self.0 >> 9) & 0o777) as usize
    }

    /// The page's slot in its level-1 table: the low 9 bits of the page
    /// number.
    pub fn p1_ndx(&self) -> (r: usize)
        ensures
            r == self.0 % 512,
    {
        proof {
            lemma_index_bits(self.0);
        }
        ((self.0 >> 0) & 0o777) as usize
    }
}

/// The bits of an entry that hold flags: the low 12 and the high 12.
pub const ENTRY_FLAG_MASK: u64 = 0xfff0_0000_0000_0fff;

/// The bits of an entry that hold the address: bits 12 to 51.
pub const ENTRY_ADDR_MASK: u64 = 0x000f_ffff_ffff_f000;

#[derive(Clone, Copy)]
pub struct Entry(pub u64);

impl Entry {
    pub fn flags(&self) -> (r: u64)
        ensures
            r == self.0 & ENTRY_FLAG_MASK,
    {
        self.0 & 0xfff00000_00000fff
    }

    /// The address the entry holds: 4 KiB aligned and below 2^52.
    pub fn addr(&self) -> (r: u64)
        ensures
            r == self.0 & ENTRY_ADDR_MASK,
            r % 4096 == 0,
            r < 0x10_0000_0000_0000,
    {
        proof {
            lemma_addr_bits(self.0);
        }
        self.0 & 0x000fffff_fffff000
    }
}

proof fn lemma_addr_bits(x: u64)
    by (bit_vector)
    ensures
        (x & 0x000f_ffff_ffff_f000u64) % 4096 == 0,
        (x & 0x000f_ffff_ffff_f000u64) < 0x10_0000_0000_0000u64,
{
}

/// An entry is exactly its flag bits and its address bits: the two do not
/// share a bit, and together they make up the whole entry.
pub proof fn lemma_entry_is_flags_and_addr(e: Entry)
    ensures
        (e.0 & ENTRY_FLAG_MASK) & (e.0 & ENTRY_ADDR_MASK) == 0,
        (e.0 & ENTRY_FLAG_MASK) | (e.0 & ENTRY_ADDR_MASK) == e.0,
        (e.0 & ENTRY_FLAG_MASK) + (e.0 & ENTRY_ADDR_MASK) == e.0,
{
    let x = e.0;
    assert((x & 0xfff0_0000_0000_0fffu64) & (x & 0x000f_ffff_ffff_f000u64) == 0u64
        && (x & 0xfff0_0000_0000_0fffu64) | (x & 0x000f_ffff_ffff_f000u64) == x
        && (x & 0xfff0_0000_0000_0fffu64) + (x & 0x000f_ffff_ffff_f000u64) == x) by (bit_vector);
}

/// A level in the table hierarchy. The levels are marker types: no value of
/// them is ever used.
pub trait TableLevel {}

pub struct Level4;

pub struct Level3;

pub struct Level2;

pub struct Level1;

impl TableLevel for Level4 {}

impl TableLevel for Level3 {}

impl TableLevel for Level2 {}

impl TableLevel for Level1 {}

/// A level whose tables point to tables of the next level down.
pub trait HierarchicalLevel: TableLevel {
    type NextLevel: TableLevel;
}

impl HierarchicalLevel for Level4 {
    type NextLevel = Level3;
}

impl HierarchicalLevel for Level3 {
    type NextLevel = Level2;
}

impl HierarchicalLevel for Level2 {
    type NextLevel = Level1;
}

/// A table of 512 entries at level `L`.
pub struct Table<L: TableLevel> {
    pub entries: [Entry; ENTRY_COUNT],
    pub level: PhantomData<L>,
}

impl<L: TableLevel> Table<L> {
    /// Clear every entry.
    pub fn zero(&mut self)
        ensures
            forall|i: int| 0 <= i < 512 ==> (#[trigger] final(self).entries@[i]).0 == 0,
    {
        let mut i: usize = 0;
        while i < ENTRY_COUNT
            invariant
                i <= 512,
                self.entries@.len() == 512,
                forall|k: int| 0 <= k < i ==> (#[trigger] self.entries@[k]).0 == 0,
            decreases 512 - i,
        {
            self.entries[i] = Entry(0);
            i = i + 1;
        }
    }
}

} // verus!
