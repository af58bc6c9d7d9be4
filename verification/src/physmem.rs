//! Physical memory: addresses, lengths, extents, the machine's memory map and
//! a bump allocator over it.

use crate::memory::addr::{
    align_down_spec, align_up_spec, is_power_of_two, lemma_align_down_bounds,
    lemma_low_mask_is_mod, max_int, min_int, u64_max,
};
use arrayvec::ArrayVec;
use vstd::prelude::*;

verus! {

/// A physical address.
#[derive(Clone, Copy, PartialEq, Eq, Structural, PartialOrd, Ord, Debug, Hash)]
pub struct Address(u64);

impl View for Address {
    type V = u64;

    closed spec fn view(&self) -> u64 {
        self.0
    }
}

impl Address {
    pub fn from_raw(val: u64) -> (r: Address)
        ensures
            r@ == val,
    {
        Address(val)
    }

    pub fn as_raw(&self) -> (r: u64)
        ensures
            r == self@,
    {
        self.0
    }

    /// The distance from `left` up to `self`, which must not lie below it.
    pub fn distance_from(&self, left: &Address) -> (r: Length)
        requires
            left@ <= self@,
        ensures
            r@ == self@ - left@,
    {
        Length::from_raw(self.as_raw() - left.as_raw())
    }

    /// The distance from `self` up to `right`, which must not lie below it.
    pub fn distance_to(&self, right: &Address) -> (r: Length)
        requires
            self@ <= right@,
        ensures
            r@ == right@ - self@,
    {
        Length::from_raw(right.as_raw() - self.as_raw())
    }

    /// `self` moved up by `length`; the result must be representable.
    pub fn offset_by(&self, length: &Length) -> (r: Address)
        requires
            self@ + length@ <= u64_max(),
        ensures
            r@ == self@ + length@,
    {
        Self::from_raw(self.as_raw() + length.as_raw())
    }

    /// Returns the first address below `self` that is aligned to `alignment`,
    /// which must be a power of two.
    pub fn align_down(&self, alignment: u64) -> (r: Address)
        requires
            is_power_of_two(alignment),
        ensures
            r@ == align_down_spec(self@ as int, alignment as int),
    {
        Self::from_raw(align_u64_down(self.as_raw(), alignment))
    }

    /// Returns the first address above `self` that is aligned to `alignment`,
    /// which must be a power of two. That address must be representable.
    pub fn align_up(&self, alignment: u64) -> (r: Address)
        requires
            is_power_of_two(alignment),
            self@ + alignment - 1 <= u64_max(),
        ensures
            r@ == align_up_spec(self@ as int, alignment as int),
    {
        Self::from_raw(align_u64_up(self.as_raw(), alignment))
    }
}

/// A length of physical memory in bytes.
#[derive(Clone, Copy, PartialEq, Eq, Structural, PartialOrd, Ord, Debug, Hash)]
pub struct Length(u64);

impl View for Length {
    type V = u64;

    closed spec fn view(&self) -> u64 {
        self.0
    }
}

impl Length {
    pub fn from_raw(val: u64) -> (r: Length)
        ensures
            r@ == val,
    {
        Length(val)
    }

    pub fn as_raw(&self) -> (r: u64)
        ensures
            r == self@,
    {
        self.0
    }

    /// The sum, which must be representable.
    pub fn add(&self, rhs: &Length) -> (r: Length)
        requires
            self@ + rhs@ <= u64_max(),
        ensures
            r@ == self@ + rhs@,
    {
        Length::from_raw(self.as_raw() + rhs.as_raw())
    }

    /// The difference; `rhs` must not exceed `self`.
    pub fn subtract(&self, rhs: &Length) -> (r: Length)
        requires
            rhs@ <= self@,
        ensures
            r@ == self@ - rhs@,
    {
        Length::from_raw(self.as_raw() - rhs.as_raw())
    }

    /// Returns the first length lesser than `self` that is aligned to
    /// `alignment`, which must be a power of two.
    pub fn align_down(&self, alignment: u64) -> (r: Length)
        requires
            is_power_of_two(alignment),
        ensures
            r@ == align_down_spec(self@ as int, alignment as int),
    {
        Length::from_raw(align_u64_down(self.as_raw(), alignment))
    }

    /// Returns the first length greater than `self` that is aligned to
    /// `alignment`, which must be a power of two. It must be representable.
    pub fn align_up(&self, alignment: u64) -> (r: Length)
        requires
            is_power_of_two(alignment),
            self@ + alignment - 1 <= u64_max(),
        ensures
            r@ == align_up_spec(self@ as int, alignment as int),
    {
        Length::from_raw(align_u64_up(self.as_raw(), alignment))
    }
}

/// A contiguous range of physical memory.
#[derive(Clone, Copy, PartialEq, Eq, Structural, Debug, Hash)]
pub struct Extent {
    pub address: Address,
    pub length: Length,
}

impl Extent {
    /// The first address, as an integer.
    pub open spec fn start(self) -> int {
        self.address@ as int
    }

    /// One past the last address, as an integer; `2^64` for an extent that
    /// reaches the top of the address space.
    pub open spec fn end(self) -> int {
        self.address@ + self.length@
    }

    /// Non-empty, with a representable end address: what `new_checked`
    /// accepts.
    pub open spec fn wf(self) -> bool {
        self.length@ != 0 && self.end() <= u64_max()
    }

    /// Non-empty, with a representable last address.
    pub open spec fn has_last(self) -> bool {
        self.length@ != 0 && self.end() <= u64_max() + 1
    }

    /// An extent of `length` bytes at `address`; it must be well formed.
    pub fn new(address: Address, length: Length) -> (r: Extent)
        requires
            length@ != 0,
            address@ + length@ <= u64_max(),
        ensures
            r.address == address,
            r.length == length,
    {
        Extent { address, length }
    }

    /// An extent of `length` bytes at `address`, or `None` if it would be
    /// empty or pass `u64::MAX`.
    pub fn new_checked(address: Address, length: Length) -> (r: Option<Extent>)
        ensures
            r is Some <==> (length@ != 0 && address@ + length@ <= u64_max()),
            r matches Some(e) ==> e.address == address && e.length == length,
    {
        if length.as_raw() == 0 || length.as_raw() > u64::MAX - address.as_raw() {
            None
        } else {
            Some(Extent { address: address, length: length })
        }
    }

    pub fn from_raw(address: u64, length: u64) -> (r: Extent)
        requires
            length != 0,
            address + length <= u64_max(),
        ensures
            r.address@ == address,
            r.length@ == length,
    {
        Self::new(Address::from_raw(address), Length::from_raw(length))
    }

    pub fn address(&self) -> (r: Address)
        ensures
            r == self.address,
    {
        self.address
    }

    pub fn length(&self) -> (r: Length)
        ensures
            r == self.length,
    {
        self.length
    }

    /// The first address just outside us, to the right. It must be
    /// representable.
    pub fn end_address(&self) -> (r: Address)
        requires
            self.end() <= u64_max(),
        ensures
            r@ == self.end(),
    {
        self.address.offset_by(&self.length)
    }

    /// The last address in the extent, which must be non-empty.
    pub fn last_address(&self) -> (r: Address)
        requires
            self.has_last(),
        ensures
            r@ == self.end() - 1,
    {
        self.address.offset_by(&self.length.subtract(&Length::from_raw(1)))
    }

    /// The intersection of the two extents, when they meet.
    pub fn overlap(&self, other: &Extent) -> (r: Option<Extent>)
        ensures
            interval_of(r) == overlap_interval(*self, *other),
        decreases
                (if self.address@ > other.address@ {
                    1int
                } else {
                    0int
                }),
    {
        if self.address.as_raw() > other.address.as_raw() {
            return other.overlap(self);
        }
        let overlap_start = other.address;
        if self.address.distance_to(&overlap_start).as_raw() >= self.length.as_raw() {
            return None;
        }
        let rest = self.length.subtract(&self.address.distance_to(&overlap_start));
        let overlap_length = if rest.as_raw() <= other.length.as_raw() {
            rest
        } else {
            other.length
        };
        Some(Extent { address: overlap_start, length: overlap_length })
    }

    pub fn has_overlap(&self, other: &Extent) -> (r: bool)
        ensures
            r == overlap_exists(*self, *other),
    {
        self.overlap(other).is_some()
    }

    /// The part of `self` below the start of `other`, if any.
    pub fn left_difference(&self, other: &Extent) -> (r: Option<Extent>)
        ensures
            interval_of(r) == left_difference_interval(*self, *other),
    {
        if self.address.as_raw() >= other.address.as_raw() {
            return None;
        }
        let gap = self.address.distance_to(&other.address);
        let diff_length = if self.length.as_raw() <= gap.as_raw() {
            self.length
        } else {
            gap
        };
        Some(Extent { address: self.address, length: diff_length })
    }

    /// The part of `self` above the end of `other`, if any. Both must be
    /// non-empty.
    pub fn right_difference(&self, other: &Extent) -> (r: Option<Extent>)
        requires
            self.has_last(),
            other.has_last(),
        ensures
            interval_of(r) == right_difference_interval(*self, *other),
    {
        if self.last_address().as_raw() <= other.last_address().as_raw() {
            return None;
        }
        let other_end = other.end_address();
        let diff_address = if self.address.as_raw() >= other_end.as_raw() {
            self.address
        } else {
            other_end
        };
        let diff_length = self.length.subtract(&diff_address.distance_from(&self.address));
        Some(Extent { address: diff_address, length: diff_length })
    }

    /// Returns the largest extent completely contained in `self` whose start
    /// and end addresses are aligned to `alignment`, a power of two, or `None`
    /// if there is none.
    pub fn shrink_to_alignment(&self, alignment: u64) -> (r: Option<Extent>)
        requires
            is_power_of_two(alignment),
            self.start() + alignment - 1 <= u64_max(),
            self.end() <= u64_max(),
        ensures
            r is Some <==> align_up_spec(self.start(), alignment as int) < align_down_spec(
                self.end(),
                alignment as int,
            ),
            r matches Some(s) ==> s.start() == align_up_spec(self.start(), alignment as int)
                && s.end() == align_down_spec(self.end(), alignment as int),
    {
        let start_address = self.address.align_up(alignment);
        let end_address = self.end_address().align_down(alignment);
        if end_address.as_raw() <= start_address.as_raw() {
            None
        } else {
            Some(Extent { address: start_address, length: start_address.distance_to(&end_address) })
        }
    }
}

/// Two extents with the same endpoints are the same extent.
pub proof fn lemma_extent_ext(a: Extent, b: Extent)
    requires
        a.start() == b.start(),
        a.end() == b.end(),
    ensures
        a == b,
{
    assert(a.address@ == b.address@);
    assert(a.length@ == b.length@);
    lemma_address_view_injective(a.address, b.address);
    lemma_length_view_injective(a.length, b.length);
}

proof fn lemma_address_view_injective(a: Address, b: Address)
    requires
        a@ == b@,
    ensures
        a == b,
{
}

proof fn lemma_length_view_injective(a: Length, b: Length)
    requires
        a@ == b@,
    ensures
        a == b,
{
}

/// The interval `[start, end)` an optional extent covers.
pub open spec fn interval_of(r: Option<Extent>) -> Option<(int, int)> {
    match r {
        Some(e) => Some((e.start(), e.end())),
        None => None,
    }
}

/// Whether the two extents meet, as `Extent::overlap` decides it: the one that
/// starts later (or `b`, on a tie) must start before the other one ends.
pub open spec fn overlap_exists(a: Extent, b: Extent) -> bool {
    if a.start() <= b.start() {
        b.start() < a.end()
    } else {
        a.start() < b.end()
    }
}

/// What `Extent::overlap` yields: from the later start to the earlier end.
pub open spec fn overlap_interval(a: Extent, b: Extent) -> Option<(int, int)> {
    if overlap_exists(a, b) {
        Some((max_int(a.start(), b.start()), min_int(a.end(), b.end())))
    } else {
        None
    }
}

/// What `Extent::left_difference` yields: the part of `a` below `b`'s start.
pub open spec fn left_difference_interval(a: Extent, b: Extent) -> Option<(int, int)> {
    if a.start() < b.start() {
        Some((a.start(), min_int(a.end(), b.start())))
    } else {
        None
    }
}

/// What `Extent::right_difference` yields: the part of `a` above `b`'s end.
pub open spec fn right_difference_interval(a: Extent, b: Extent) -> Option<(int, int)> {
    if a.end() > b.end() {
        Some((max_int(a.start(), b.end()), a.end()))
    } else {
        None
    }
}

/// An `ArrayVec` of at most 128 map entries.
#[verifier::external_body]
pub struct EntryVec {
    items: ArrayVec<[MapEntry; 128]>,
}

/// An `ArrayVec` of at most 128 extents.
#[verifier::external_body]
pub struct ExtentVec {
    items: ArrayVec<[Extent; 128]>,
}

/// What an `EntryVec` holds, in order.
pub uninterp spec fn entry_vec_items(v: EntryVec) -> Seq<MapEntry>;

/// What an `ExtentVec` holds, in order.
pub uninterp spec fn extent_vec_items(v: ExtentVec) -> Seq<Extent>;

/// `ArrayVec::new` for map entries: an empty vector.
#[verifier::external_body]
fn new_entry_vec() -> (r: EntryVec)
    ensures
        entry_vec_items(r) == Seq::<MapEntry>::empty(),
{
    EntryVec { items: ArrayVec::new() }
}

/// `ArrayVec::push` for map entries: appends `e`; the vector must not be
/// full.
#[verifier::external_body]
fn push_entry(v: &mut EntryVec, e: MapEntry)
    requires
        entry_vec_items(*old(v)).len() < 128,
    ensures
        entry_vec_items(*final(v)) == entry_vec_items(*old(v)).push(e),
{
    v.items.push(e)
}

/// `ArrayVec::as_slice` for map entries: the items, at most 128 of them.
#[verifier::external_body]
fn entry_slice(v: &EntryVec) -> (r: &[MapEntry])
    ensures
        r@ == entry_vec_items(*v),
        r@.len() <= 128,
{
    v.items.as_slice()
}

/// `ArrayVec::new` for extents: an empty vector.
#[verifier::external_body]
fn new_extent_vec() -> (r: ExtentVec)
    ensures
        extent_vec_items(r) == Seq::<Extent>::empty(),
{
    ExtentVec { items: ArrayVec::new() }
}

/// `ArrayVec::push` for extents: appends `e`; the vector must not be full.
#[verifier::external_body]
fn push_extent(v: &mut ExtentVec, e: Extent)
    requires
        extent_vec_items(*old(v)).len() < 128,
    ensures
        extent_vec_items(*final(v)) == extent_vec_items(*old(v)).push(e),
{
    v.items.push(e)
}

/// `ArrayVec::pop` for extents: removes and returns the last item, or
/// `None` when there is none.
#[verifier::external_body]
fn pop_extent(v: &mut ExtentVec) -> (r: Option<Extent>)
    ensures
        extent_vec_items(*old(v)).len() == 0 ==> r is None && extent_vec_items(*final(v))
            == extent_vec_items(*old(v)),
        extent_vec_items(*old(v)).len() > 0 ==> r == Some(extent_vec_items(*old(v)).last())
            && extent_vec_items(*final(v)) == extent_vec_items(*old(v)).drop_last(),
{
    v.items.pop()
}

/// A map of the machine's physical memory: at most 128 entries.
pub struct MemoryMap {
    entries: EntryVec,
}

impl View for MemoryMap {
    type V = Seq<MapEntry>;

    closed spec fn view(&self) -> Seq<MapEntry> {
        entry_vec_items(self.entries)
    }
}

/// The most entries a `MemoryMap` holds.
pub const MAP_CAPACITY: usize = 128;

impl MemoryMap {
    /// A map of the entries in `src`, which must be sorted by start address
    /// with extents that do not overlap, and number at most 128.
    pub fn from_entries(src: &[MapEntry]) -> (r: MemoryMap)
        requires
            src@.len() <= MAP_CAPACITY,
        ensures
            r@ == src@,
    {
        let mut entries = new_entry_vec();
        let mut i: usize = 0;
        while i < src.len()
            invariant
                i <= src@.len(),
                src@.len() <= 128,
                entry_vec_items(entries) == src@.subrange(0, i as int),
            decreases src@.len() - i,
        {
            push_entry(&mut entries, src[i]);
            assert(src@.subrange(0, i + 1) =~= src@.subrange(0, i as int).push(src@[i as int]));
            i = i + 1;
        }
        assert(src@.subrange(0, src@.len() as int) =~= src@);
        MemoryMap { entries }
    }

    pub fn entries(&self) -> (r: &[MapEntry])
        ensures
            r@ == self@,
    {
        entry_slice(&self.entries)
    }

    /// The extents of the entries of type `mem_type`, in map order.
    pub fn iter_type(&self, mem_type: MemoryType) -> (r: Vec<Extent>)
        ensures
            r@ == extents_of_type(self@, mem_type),
    {
        let entries = entry_slice(&self.entries);
        let mut r: Vec<Extent> = Vec::new();
        let mut i: usize = 0;
        while i < entries.len()
            invariant
                i <= self@.len(),
                entries@ == self@,
                r@ == extents_of_type(self@.subrange(0, i as int), mem_type),
            decreases self@.len() - i,
        {
            proof {
                lemma_extents_of_type_push(self@.subrange(0, i as int), self@[i as int], mem_type);
                assert(self@.subrange(0, i + 1) =~= self@.subrange(0, i as int).push(self@[i as int]));
            }
            if entries[i].mem_type == mem_type {
                r.push(entries[i].extent);
            }
            i = i + 1;
        }
        assert(self@.subrange(0, self@.len() as int) =~= self@);
        r
    }
}

/// The extents of the entries of type `t`, in order.
pub open spec fn extents_of_type(entries: Seq<MapEntry>, t: MemoryType) -> Seq<Extent>
    decreases entries.len(),
{
    if entries.len() == 0 {
        seq![]
    } else {
        let rest = extents_of_type(entries.drop_last(), t);
        if entries.last().mem_type == t {
            rest.push(entries.last().extent)
        } else {
            rest
        }
    }
}

proof fn lemma_extents_of_type_push(entries: Seq<MapEntry>, e: MapEntry, t: MemoryType)
    ensures
        extents_of_type(entries.push(e), t) == if e.mem_type == t {
            extents_of_type(entries, t).push(e.extent)
        } else {
            extents_of_type(entries, t)
        },
{
    assert(entries.push(e).drop_last() =~= entries);
}

#[derive(Clone, Copy, Debug, PartialEq, Eq, Structural)]
pub struct MapEntry {
    pub extent: Extent,
    pub mem_type: MemoryType,
}

#[derive(Clone, Copy, Debug, PartialEq, Eq, Structural)]
pub enum MemoryType {
    /// Available for use
    Available,
    /// Contains ACPI information, but otherwise usable
    Acpi,
    /// Reserved and must be preserved on hibernation
    ReservedPreserveOnHibernation,
    /// Corrupt and unusable
    Defective,
    /// Cannot be used
    Reserved,
}

/// The intervals `[start, end)` of a sequence of extents.
pub open spec fn intervals(s: Seq<Extent>) -> Seq<(int, int)> {
    s.map_values(|e: Extent| (e.start(), e.end()))
}

/// What is left of the interval `[lo, hi)` once `holes` are cut out of it, in
/// order: the holes are consulted from the first on, and the first hole that
/// starts at or past `hi` ends the search (the holes are sorted).
pub open spec fn pieces(lo: int, hi: int, holes: Seq<(int, int)>) -> Seq<(int, int)>
    decreases holes.len(),
{
    if lo >= hi {
        seq![]
    } else if holes.len() == 0 {
        seq![(lo, hi)]
    } else if holes[0].1 <= lo {
        pieces(lo, hi, holes.drop_first())
    } else if hi <= holes[0].0 {
        seq![(lo, hi)]
    } else {
        let left: Seq<(int, int)> = if lo < holes[0].0 {
            seq![(lo, holes[0].0)]
        } else {
            seq![]
        };
        left + pieces(holes[0].1, hi, holes.drop_first())
    }
}

/// The pieces of every block, block by block, once `holes` are cut out.
pub open spec fn reserved(blocks: Seq<(int, int)>, holes: Seq<(int, int)>) -> Seq<(int, int)>
    decreases blocks.len(),
{
    if blocks.len() == 0 {
        seq![]
    } else {
        pieces(blocks[0].0, blocks[0].1, holes) + reserved(blocks.drop_first(), holes)
    }
}

/// The blocks follow each other without overlapping.
pub open spec fn sorted_blocks(blocks: Seq<(int, int)>) -> bool {
    forall|i: int, j: int| 0 <= i < j < blocks.len() ==> blocks[i].1 <= blocks[j].0
}

/// A hole that ends at or before every block's start cuts nothing out of
/// them.
proof fn lemma_reserved_skip_hole(blocks: Seq<(int, int)>, holes: Seq<(int, int)>)
    requires
        holes.len() > 0,
        forall|i: int| 0 <= i < blocks.len() ==> holes[0].1 <= #[trigger] blocks[i].0,
    ensures
        reserved(blocks, holes) == reserved(blocks, holes.drop_first()),
    decreases blocks.len(),
{
    if blocks.len() > 0 {
        assert(holes[0].1 <= blocks[0].0);
        lemma_reserved_skip_hole(blocks.drop_first(), holes);
    }
}

/// Some interval of `s` holds `x`.
pub open spec fn covered(s: Seq<(int, int)>, x: int) -> bool {
    exists|i: int| 0 <= i < s.len() && (#[trigger] s[i]).0 <= x < s[i].1
}

/// Every interval of `s` is non-empty.
pub open spec fn nonempty(s: Seq<(int, int)>) -> bool {
    forall|i: int| 0 <= i < s.len() ==> (#[trigger] s[i]).0 < s[i].1
}

pub(crate) proof fn lemma_covered_concat(a: Seq<(int, int)>, b: Seq<(int, int)>, x: int)
    ensures
        covered(a + b, x) <==> covered(a, x) || covered(b, x),
{
    if covered(a + b, x) {
        let i = choose|i: int| 0 <= i < (a + b).len() && (#[trigger] (a + b)[i]).0 <= x < (a + b)[i].1;
        if i >= a.len() {
            assert(b[i - a.len()] == (a + b)[i]);
        }
    }
    if covered(b, x) {
        let i = choose|i: int| 0 <= i < b.len() && (#[trigger] b[i]).0 <= x < b[i].1;
        assert((a + b)[a.len() + i] == b[i]);
    }
    if covered(a, x) {
        let i = choose|i: int| 0 <= i < a.len() && (#[trigger] a[i]).0 <= x < a[i].1;
        assert((a + b)[i] == a[i]);
    }
}

pub(crate) proof fn lemma_covered_drop_first(s: Seq<(int, int)>, x: int)
    requires
        s.len() > 0,
    ensures
        covered(s, x) <==> (s[0].0 <= x < s[0].1 || covered(s.drop_first(), x)),
{
    assert(s =~= seq![s[0]] + s.drop_first());
    lemma_covered_concat(seq![s[0]], s.drop_first(), x);
}

/// Cutting sorted holes out of `[lo, hi)` leaves exactly the addresses of
/// `[lo, hi)` that no hole holds.
proof fn lemma_pieces_cover(lo: int, hi: int, holes: Seq<(int, int)>, x: int)
    requires
        sorted_blocks(holes),
        nonempty(holes),
    ensures
        covered(pieces(lo, hi, holes), x) <==> (lo <= x < hi && !covered(holes, x)),
    decreases holes.len(),
{
    if lo >= hi {
    } else if holes.len() == 0 {
        assert(covered(seq![(lo, hi)], x) <==> lo <= x < hi) by {
            if lo <= x < hi {
                assert(seq![(lo, hi)][0] == (lo, hi));
            }
        }
    } else {
        let rest = holes.drop_first();
        assert(sorted_blocks(rest)) by {
            assert forall|i: int, j: int| 0 <= i < j < rest.len() implies rest[i].1 <= rest[j].0 by {
                assert(rest[i] == holes[i + 1] && rest[j] == holes[j + 1]);
            }
        }
        assert(nonempty(rest)) by {
            assert forall|i: int| 0 <= i < rest.len() implies (#[trigger] rest[i]).0 < rest[i].1 by {
                assert(rest[i] == holes[i + 1]);
            }
        }
        lemma_covered_drop_first(holes, x);
        assert(holes[0].0 < holes[0].1);
        // Every later hole starts at or after the first one's end.
        assert(x < holes[0].1 ==> !covered(rest, x)) by {
            if x < holes[0].1 && covered(rest, x) {
                let i = choose|i: int| 0 <= i < rest.len() && (#[trigger] rest[i]).0 <= x < rest[i].1;
                assert(holes[0].1 <= holes[i + 1].0);
            }
        }
        if holes[0].1 <= lo {
            lemma_pieces_cover(lo, hi, rest, x);
        } else if hi <= holes[0].0 {
            assert(covered(seq![(lo, hi)], x) <==> lo <= x < hi) by {
                if lo <= x < hi {
                    assert(seq![(lo, hi)][0] == (lo, hi));
                }
            }
        } else {
            let left: Seq<(int, int)> = if lo < holes[0].0 {
                seq![(lo, holes[0].0)]
            } else {
                seq![]
            };
            lemma_pieces_cover(holes[0].1, hi, rest, x);
            lemma_covered_concat(left, pieces(holes[0].1, hi, rest), x);
            assert(covered(left, x) <==> (lo <= x < holes[0].0)) by {
                if lo <= x < holes[0].0 {
                    assert(left[0] == (lo, holes[0].0));
                }
            }
        }
    }
}

/// `reserve`'s promise: cutting sorted, non-overlapping holes out of sorted,
/// non-overlapping blocks leaves exactly the addresses that lie in some block
/// and in no hole.
pub proof fn lemma_reserved_cover(blocks: Seq<(int, int)>, holes: Seq<(int, int)>, x: int)
    requires
        sorted_blocks(holes),
        nonempty(holes),
    ensures
        covered(reserved(blocks, holes), x) <==> (covered(blocks, x) && !covered(holes, x)),
    decreases blocks.len(),
{
    if blocks.len() > 0 {
        lemma_reserved_cover(blocks.drop_first(), holes, x);
        lemma_pieces_cover(blocks[0].0, blocks[0].1, holes, x);
        lemma_covered_concat(
            pieces(blocks[0].0, blocks[0].1, holes),
            reserved(blocks.drop_first(), holes),
            x,
        );
        lemma_covered_drop_first(blocks, x);
    }
}

/// Removes specified regions from a list of blocks of memory.
///
/// Given `blocks`, a list of available memory, removes the regions specified
/// in `holes` and returns the remaining free memory. This may involve
/// splitting extents in `blocks`. The resulting list may be larger than
/// `blocks`. Both lists must be sorted by start address and non-overlapping,
/// and every extent non-empty.
#[verifier::rlimit(80)]
pub fn reserve(blocks: &[Extent], holes: &[Extent]) -> (r: Vec<Extent>)
    requires
        sorted_blocks(intervals(blocks@)),
        forall|i: int| 0 <= i < blocks@.len() ==> (#[trigger] blocks@[i]).has_last(),
        forall|i: int| 0 <= i < holes@.len() ==> (#[trigger] holes@[i]).has_last(),
    ensures
        intervals(r@) == reserved(intervals(blocks@), intervals(holes@)),
{
    let ghost b0 = intervals(blocks@);
    let ghost h0 = intervals(holes@);
    let mut out: Vec<Extent> = Vec::new();
    let mut bi: usize = 0;
    let mut put_back_block: Option<Extent> = None;
    let mut hi: usize = 0;
    let mut put_back_hole: Option<Extent> = None;
    assert(blocks@.subrange(0, blocks@.len() as int) =~= blocks@);
    assert(holes@.subrange(0, holes@.len() as int) =~= holes@);
    loop
        invariant
            bi <= blocks@.len(),
            hi <= holes@.len(),
            b0 == intervals(blocks@),
            h0 == intervals(holes@),
            forall|i: int| 0 <= i < blocks@.len() ==> (#[trigger] blocks@[i]).has_last(),
            forall|i: int| 0 <= i < holes@.len() ==> (#[trigger] holes@[i]).has_last(),
            put_back_block matches Some(b) ==> b.has_last(),
            put_back_hole matches Some(h) ==> h.has_last(),
            sorted_blocks(remaining(put_back_block, blocks@, bi as int)),
            intervals(out@) + reserved(
                remaining(put_back_block, blocks@, bi as int),
                remaining(put_back_hole, holes@, hi as int),
            ) == reserved(b0, h0),
        ensures
            intervals(out@) == reserved(b0, h0),
        decreases 2 * (blocks@.len() - bi + if put_back_block is Some {
            1int
        } else {
            0int
        }) + holes@.len() - hi + if put_back_hole is Some {
            1int
        } else {
            0int
        },
    {
        let ghost rb = remaining(put_back_block, blocks@, bi as int);
        let ghost rh = remaining(put_back_hole, holes@, hi as int);
        let block = match put_back_block {
            Some(b) => {
                put_back_block = None;
                b
            },
            None => {
                if bi == blocks.len() {
                    assert(rb.len() == 0);
                    assert(intervals(out@) + reserved(rb, rh) == intervals(out@));
                    break ;
                }
                let b = blocks[bi];
                bi = bi + 1;
                b
            },
        };
        assert(rb[0] == (block.start(), block.end()));
        assert(remaining(put_back_block, blocks@, bi as int) =~= rb.drop_first());
        // Remove holes completely before `block`; they can be ignored.
        let ghost holes_left = holes@.len() - hi + if put_back_hole is Some {
            1int
        } else {
            0int
        };
        loop
            invariant
                holes@.len() - hi + (if put_back_hole is Some {
                    1int
                } else {
                    0int
                }) <= holes_left,
                hi <= holes@.len(),
                forall|i: int| 0 <= i < holes@.len() ==> (#[trigger] holes@[i]).has_last(),
                put_back_hole matches Some(h) ==> h.has_last(),
                block.has_last(),
                rb[0] == (block.start(), block.end()),
                sorted_blocks(rb),
                rb.len() > 0,
                reserved(rb, remaining(put_back_hole, holes@, hi as int)) == reserved(rb, rh),
            ensures
                hi <= holes@.len(),
                holes@.len() - hi + (if put_back_hole is Some {
                    1int
                } else {
                    0int
                }) <= holes_left,
                put_back_hole matches Some(h) ==> h.has_last(),
                reserved(rb, remaining(put_back_hole, holes@, hi as int)) == reserved(rb, rh),
                remaining(put_back_hole, holes@, hi as int).len() > 0 ==> remaining(
                    put_back_hole,
                    holes@,
                    hi as int,
                )[0].1 > block.start(),
            decreases holes@.len() - hi + if put_back_hole is Some {
                1int
            } else {
                0int
            },
        {
            let ghost rh1 = remaining(put_back_hole, holes@, hi as int);
            let hole = match put_back_hole {
                Some(h) => {
                    put_back_hole = None;
                    h
                },
                None => {
                    if hi == holes.len() {
                        assert(rh1.len() == 0);
                        break ;
                    }
                    let h = holes[hi];
                    hi = hi + 1;
                    h
                },
            };
            assert(rh1[0] == (hole.start(), hole.end()));
            assert(remaining(put_back_hole, holes@, hi as int) =~= rh1.drop_first());
            if hole.last_address().as_raw() >= block.address().as_raw() {
                put_back_hole = Some(hole);
                assert(remaining(put_back_hole, holes@, hi as int) =~= rh1);
                break ;
            }
            proof {
                assert forall|i: int| 0 <= i < rb.len() implies rh1[0].1 <= #[trigger] rb[i].0 by {
                    if i > 0 {
                        assert(rb[0].1 <= rb[i].0);
                    }
                }
                lemma_reserved_skip_hole(rb, rh1);
            }
        }
        let ghost rh2 = remaining(put_back_hole, holes@, hi as int);
        let ghost rb1 = rb.drop_first();
        proof {
            assert forall|i: int, j: int| 0 <= i < j < rb1.len() implies rb1[i].1 <= rb1[j].0 by {
                assert(rb1[i] == rb[i + 1] && rb1[j] == rb[j + 1]);
            }
            assert(reserved(rb, rh2) == pieces(rb[0].0, rb[0].1, rh2) + reserved(rb1, rh2));
        }
        // Get the next hole. If there are none left, `block` is kept whole.
        let ghost out0 = intervals(out@);
        let hole = match put_back_hole {
            Some(h) => {
                put_back_hole = None;
                h
            },
            None => {
                if hi == holes.len() {
                    assert(rh2.len() == 0);
                    out.push(block);
                    assert(intervals(out@) =~= out0.push((block.start(), block.end())));
                    assert(pieces(rb[0].0, rb[0].1, rh2) =~= seq![(block.start(), block.end())]);
                    assert(intervals(out@) + reserved(rb1, rh2) =~= out0 + reserved(rb, rh2));
                    continue ;
                }
                let h = holes[hi];
                hi = hi + 1;
                h
            },
        };
        assert(rh2[0] == (hole.start(), hole.end()));
        let ghost rh3 = rh2.drop_first();
        assert(remaining(put_back_hole, holes@, hi as int) =~= rh3);
        // If `hole` is completely after `block`, `block` is kept whole; `hole`
        // may still meet a later block.
        if block.last_address().as_raw() < hole.address().as_raw() {
            put_back_hole = Some(hole);
            assert(remaining(put_back_hole, holes@, hi as int) =~= rh2);
            out.push(block);
            assert(intervals(out@) =~= out0.push((block.start(), block.end())));
            assert(pieces(rb[0].0, rb[0].1, rh2) =~= seq![(block.start(), block.end())]);
            assert(intervals(out@) + reserved(rb1, rh2) =~= out0 + reserved(rb, rh2));
            continue ;
        }
        // `hole` meets `block`: keep both sides of it.
        let maybe_left = block.left_difference(&hole);
        let maybe_right = block.right_difference(&hole);
        let ghost left: Seq<(int, int)> = if block.start() < hole.start() {
            seq![(block.start(), hole.start())]
        } else {
            seq![]
        };
        assert(pieces(rb[0].0, rb[0].1, rh2) == left + pieces(hole.end(), block.end(), rh3));
        match maybe_right {
            Some(right) => {
                // Another hole may meet `right`; `hole` is done with.
                put_back_block = Some(right);
                proof {
                    assert(remaining(put_back_block, blocks@, bi as int) =~= seq![
                        (right.start(), right.end()),
                    ] + rb1);
                    assert forall|i: int| 0 <= i < rb1.len() implies rh2[0].1 <= #[trigger] rb1[i].0 by {
                        assert(rb[0].1 <= rb[i + 1].0);
                        assert(rb1[i] == rb[i + 1]);
                    }
                    lemma_reserved_skip_hole(rb1, rh2);
                    let nb = seq![(right.start(), right.end())] + rb1;
                    assert forall|i: int, j: int| 0 <= i < j < nb.len() implies nb[i].1 <= nb[j].0 by {
                        if i == 0 {
                            assert(rb[0].1 <= rb[j].0);
                            assert(nb[j] == rb[j]);
                        } else {
                            assert(nb[i] == rb[i] && nb[j] == rb[j]);
                        }
                    }
                    assert(nb.drop_first() =~= rb1);
                    assert(reserved(nb, rh3) == pieces(hole.end(), block.end(), rh3) + reserved(
                        rb1,
                        rh3,
                    ));
                }
            },
            None => {
                // `hole` may reach past `block`; keep it for the next one.
                put_back_hole = Some(hole);
                assert(remaining(put_back_hole, holes@, hi as int) =~= rh2);
                assert(remaining(put_back_block, blocks@, bi as int) =~= rb1);
                assert(pieces(hole.end(), block.end(), rh3) =~= seq![]);
            },
        }
        match maybe_left {
            Some(l) => {
                out.push(l);
                assert(intervals(out@) =~= out0 + left);
            },
            None => {
                assert(intervals(out@) =~= out0 + left);
            },
        }
        assert(intervals(out@) + reserved(
            remaining(put_back_block, blocks@, bi as int),
            remaining(put_back_hole, holes@, hi as int),
        ) =~= out0 + reserved(rb, rh2));
    }
    out
}

/// The intervals of `put_back` (if any) followed by those of `s` from `i` on.
pub open spec fn remaining(put_back: Option<Extent>, s: Seq<Extent>, i: int) -> Seq<(int, int)> {
    match put_back {
        Some(e) => seq![(e.start(), e.end())] + intervals(s.subrange(i, s.len() as int)),
        None => intervals(s.subrange(i, s.len() as int)),
    }
}

/// Each piece shrunk to `alignment`, dropping those with no aligned part
/// left: what `BumpAllocator::new` keeps of the free memory.
pub open spec fn aligned_pieces(s: Seq<(int, int)>, alignment: int) -> Seq<(int, int)>
    decreases s.len(),
{
    if s.len() == 0 {
        seq![]
    } else {
        let rest = aligned_pieces(s.drop_last(), alignment);
        let lo = align_up_spec(s.last().0, alignment);
        let hi = align_down_spec(s.last().1, alignment);
        if lo < hi {
            rest.push((lo, hi))
        } else {
            rest
        }
    }
}

/// The index of the first block of at least `len` bytes.
pub open spec fn first_fit(blocks: Seq<(int, int)>, len: int) -> int
    decreases blocks.len(),
{
    if blocks.len() == 0 || blocks[0].1 - blocks[0].0 >= len {
        0
    } else {
        1 + first_fit(blocks.drop_first(), len)
    }
}

proof fn lemma_first_fit(blocks: Seq<(int, int)>, len: int, k: int)
    requires
        0 <= k < blocks.len(),
        blocks[k].1 - blocks[k].0 >= len,
    ensures
        0 <= first_fit(blocks, len) <= k,
        blocks[first_fit(blocks, len)].1 - blocks[first_fit(blocks, len)].0 >= len,
        forall|j: int| 0 <= j < first_fit(blocks, len) ==> blocks[j].1 - blocks[j].0 < len,
    decreases blocks.len(),
{
    if blocks[0].1 - blocks[0].0 >= len {
    } else {
        lemma_first_fit(blocks.drop_first(), len, k - 1);
        let f = first_fit(blocks.drop_first(), len);
        assert forall|j: int| 0 <= j < first_fit(blocks, len) implies blocks[j].1 - blocks[j].0
            < len by {
            if j > 0 {
                assert(blocks[j] == blocks.drop_first()[j - 1]);
            }
        }
    }
}

/// Allocates physical pages of a given size from the lowest to highest
/// address. Does not support freeing.
pub struct BumpAllocator {
    // In reverse order: the last one is the lowest.
    free: ExtentVec,
    page_size: u64,
}

impl BumpAllocator {
    /// The free blocks, as `[start, end)` intervals in address order.
    pub closed spec fn blocks(&self) -> Seq<(int, int)> {
        intervals(extent_vec_items(self.free)).reverse()
    }

    /// The page size every allocation is a multiple of.
    pub closed spec fn page_size(&self) -> u64 {
        self.page_size
    }

    /// The page size is a power of two and every free block a non-empty run
    /// of whole pages with a representable end.
    pub closed spec fn wf(&self) -> bool {
        &&& is_power_of_two(self.page_size)
        &&& extent_vec_items(self.free).len() <= 128
        &&& forall|i: int|
            0 <= i < extent_vec_items(self.free).len() ==> {
                let e = #[trigger] extent_vec_items(self.free)[i];
                &&& e.length@ != 0
                &&& e.end() <= u64_max()
                &&& e.start() % self.page_size as int == 0
                &&& e.length@ % self.page_size == 0
            }
    }

    /// Allocates from the available memory in `map` after removing the regions
    /// in `holes`. Allocations are multiples of `page_size`, which must be a
    /// power of two. `holes` must be sorted. Addresses in `map` and `holes`
    /// need not be aligned; every allocation will be aligned to `page_size`.
    pub fn new(page_size: u64, map: &MemoryMap, holes: &[Extent]) -> (r: BumpAllocator)
        requires
            is_power_of_two(page_size),
            sorted_blocks(intervals(extents_of_type(map@, MemoryType::Available))),
            forall|i: int|
                0 <= i < extents_of_type(map@, MemoryType::Available).len() ==> (#[trigger] extents_of_type(
                    map@,
                    MemoryType::Available,
                )[i]).has_last(),
            forall|i: int| 0 <= i < holes@.len() ==> (#[trigger] holes@[i]).has_last(),
            forall|i: int|
                0 <= i < reserved(
                    intervals(extents_of_type(map@, MemoryType::Available)),
                    intervals(holes@),
                ).len() ==> {
                    let p = #[trigger] reserved(
                        intervals(extents_of_type(map@, MemoryType::Available)),
                        intervals(holes@),
                    )[i];
                    p.0 + page_size - 1 <= u64_max() && p.1 <= u64_max()
                },
            aligned_pieces(
                reserved(intervals(extents_of_type(map@, MemoryType::Available)), intervals(holes@)),
                page_size as int,
            ).len() <= MAP_CAPACITY,
        ensures
            r.wf(),
            r.page_size() == page_size,
            r.blocks() == aligned_pieces(
                reserved(intervals(extents_of_type(map@, MemoryType::Available)), intervals(holes@)),
                page_size as int,
            ),
    {
        let map_iter = map.iter_type(MemoryType::Available);
        let pieces = reserve(map_iter.as_slice(), holes);
        let ghost all = intervals(pieces@);
        let mut ascending: Vec<Extent> = Vec::new();
        let mut i: usize = 0;
        while i < pieces.len()
            invariant
                i <= pieces@.len(),
                all == intervals(pieces@),
                is_power_of_two(page_size),
                forall|j: int|
                    0 <= j < all.len() ==> (#[trigger] all[j]).0 + page_size - 1 <= u64_max()
                        && all[j].1 <= u64_max(),
                intervals(ascending@) == aligned_pieces(all.subrange(0, i as int), page_size as int),
                forall|j: int|
                    0 <= j < ascending@.len() ==> {
                        let e = #[trigger] ascending@[j];
                        &&& e.length@ != 0
                        &&& e.end() <= u64_max()
                        &&& e.start() % page_size as int == 0
                        &&& e.length@ % page_size == 0
                    },
            decreases pieces@.len() - i,
        {
            let ghost before = all.subrange(0, i as int);
            assert(all.subrange(0, i + 1).drop_last() =~= before);
            assert(all[i as int] == (pieces@[i as int].start(), pieces@[i as int].end()));
            let shrunk = pieces[i].shrink_to_alignment(page_size);
            match shrunk {
                Some(e) => {
                    proof {
                        lemma_low_mask_is_mod(0, page_size);
                        lemma_align_down_bounds(pieces@[i as int].end(), page_size as int);
                        lemma_align_down_bounds(pieces@[i as int].start() + page_size - 1, page_size as int);
                        lemma_mod_difference(e.end(), e.start(), page_size as int);
                    }
                    ascending.push(e);
                    assert(intervals(ascending@) =~= intervals(ascending@.drop_last()).push((e.start(), e.end())));
                },
                None => {},
            }
            i = i + 1;
        }
        assert(all.subrange(0, pieces@.len() as int) =~= all);
        let mut free = new_extent_vec();
        let mut j: usize = ascending.len();
        while j > 0
            invariant
                j <= ascending@.len(),
                ascending@.len() <= 128,
                extent_vec_items(free).len() == ascending@.len() - j,
                forall|k: int|
                    0 <= k < extent_vec_items(free).len() ==> #[trigger] extent_vec_items(free)[k]
                        == ascending@[ascending@.len() - 1 - k],
            decreases j,
        {
            j = j - 1;
            push_extent(&mut free, ascending[j]);
        }
        let r = BumpAllocator { free, page_size };
        assert(r.blocks() =~= intervals(ascending@));
        r
    }

    /// Allocate `pages` pages, which must be representable in bytes. There
    /// must be a free block that large.
    pub fn allocate_pages(&mut self, pages: u64) -> (r: Address)
        requires
            old(self).wf(),
            pages * old(self).page_size() <= u64_max(),
            exists|i: int|
                0 <= i < old(self).blocks().len() && #[trigger] old(self).blocks()[i].1 - old(self).blocks()[i].0 >= pages * old(self).page_size(),
        ensures
            final(self).wf(),
            final(self).page_size() == old(self).page_size(),
            allocated_from(
                old(self).blocks(),
                final(self).blocks(),
                pages * old(self).page_size(),
                r@ as int,
            ),
    {
        proof {
            lemma_low_mask_is_mod(0, self.page_size);
            lemma_mul_alignment(pages as int, self.page_size as int);
        }
        self.allocate_impl(Length::from_raw(pages * self.page_size))
    }

    /// Allocate `length` bytes, rounded up to whole pages; the rounded length
    /// must be representable and a free block that large must exist.
    pub fn allocate(&mut self, length: Length) -> (r: Address)
        requires
            old(self).wf(),
            length@ + old(self).page_size() - 1 <= u64_max(),
            exists|i: int|
                0 <= i < old(self).blocks().len() && #[trigger] old(self).blocks()[i].1 - old(self).blocks()[i].0 >= align_up_spec(length@ as int, old(self).page_size() as int),
        ensures
            final(self).wf(),
            final(self).page_size() == old(self).page_size(),
            allocated_from(
                old(self).blocks(),
                final(self).blocks(),
                align_up_spec(length@ as int, old(self).page_size() as int),
                r@ as int,
            ),
    {
        proof {
            lemma_low_mask_is_mod(0, self.page_size);
            lemma_align_down_bounds(length@ + self.page_size - 1, self.page_size as int);
        }
        self.allocate_impl(length.align_up(self.page_size))
    }

    // `alloc_length` must be a multiple of the page size.
    fn allocate_impl(&mut self, alloc_length: Length) -> (r: Address)
        requires
            old(self).wf(),
            alloc_length@ % old(self).page_size() == 0,
            exists|i: int|
                0 <= i < old(self).blocks().len() && #[trigger] old(self).blocks()[i].1 - old(self).blocks()[i].0 >= alloc_length@,
        ensures
            final(self).wf(),
            final(self).page_size() == old(self).page_size(),
            allocated_from(old(self).blocks(), final(self).blocks(), alloc_length@ as int, r@ as int),
    {
        let ghost blocks0 = self.blocks();
        let ghost k0 = choose|i: int|
            0 <= i < blocks0.len() && #[trigger] blocks0[i].1 - blocks0[i].0 >= alloc_length@;
        proof {
            lemma_first_fit(blocks0, alloc_length@ as int, k0);
        }
        let ghost f = first_fit(blocks0, alloc_length@ as int);
        let ghost n0 = extent_vec_items(self.free).len();
        // The last element of `self.free` is the lowest free block.
        let mut block = Extent { address: Address(0), length: Length(0) };
        loop
            invariant_except_break
                n0 - f <= extent_vec_items(self.free).len(),
            invariant
                self.wf(),
                self.page_size == old(self).page_size,
                blocks0 == old(self).blocks(),
                n0 == blocks0.len(),
                0 <= f < blocks0.len(),
                blocks0[f].1 - blocks0[f].0 >= alloc_length@,
                forall|j: int| 0 <= j < f ==> blocks0[j].1 - blocks0[j].0 < alloc_length@,
                extent_vec_items(self.free).len() <= n0,
                self.blocks() == blocks0.subrange(n0 - extent_vec_items(self.free).len(), n0 as int),
            ensures
                self.wf(),
                self.page_size == old(self).page_size,
                n0 - extent_vec_items(self.free).len() - 1 == f,
                self.blocks() == blocks0.subrange(f + 1, n0 as int),
                (block.start(), block.end()) == blocks0[f],
                block.length@ != 0,
                block.end() <= u64_max(),
                block.start() % self.page_size as int == 0,
                block.length@ % self.page_size == 0,
            decreases extent_vec_items(self.free).len(),
        {
            let ghost before = extent_vec_items(self.free);
            let ghost idx = n0 - before.len();
            assert(blocks0[idx] == self.blocks()[0]);
            assert(self.blocks()[0] == intervals(before)[before.len() - 1]);
            block = match pop_extent(&mut self.free) {
                Some(b) => b,
                None => {
                    assert(false);
                    block
                },
            };
            assert(extent_vec_items(self.free) =~= before.drop_last());
            assert(intervals(before.drop_last()).reverse() =~= intervals(before).reverse().drop_first());
            assert(self.blocks() =~= blocks0.subrange(idx + 1, n0 as int));
            assert(before[before.len() - 1] == block);
            // Use this block if it's big enough.
            if alloc_length.as_raw() <= block.length().as_raw() {
                break ;
            }
            // Otherwise discard the block: this is just a bump allocator.
        }
        let alloc_address = block.address();
        let maybe_remainder = Extent::new_checked(
            block.address().offset_by(&alloc_length),
            block.length().subtract(&alloc_length),
        );
        let ghost rest = self.blocks();
        match maybe_remainder {
            Some(remainder) => {
                proof {
                    lemma_low_mask_is_mod(0, self.page_size);
                    lemma_mod_difference(block.length@ as int, alloc_length@ as int, self.page_size as int);
                    lemma_mod_difference2(block.start(), alloc_length@ as int, self.page_size as int);
                }
                push_extent(&mut self.free, remainder);
                assert(self.blocks() =~= seq![(remainder.start(), remainder.end())] + rest);
            },
            None => {},
        }
        alloc_address
    }
}

/// `blocks2` is `blocks` after `len` bytes were taken from the front of its
/// first block of at least `len` bytes, at `addr`; the blocks before that one
/// are dropped.
pub open spec fn allocated_from(
    blocks: Seq<(int, int)>,
    blocks2: Seq<(int, int)>,
    len: int,
    addr: int,
) -> bool {
    let k = first_fit(blocks, len);
    let b = blocks[k];
    &&& 0 <= k < blocks.len()
    &&& addr == b.0
    &&& blocks2 == (if b.1 - b.0 > len {
        seq![(b.0 + len, b.1)]
    } else {
        seq![]
    }) + blocks.subrange(k + 1, blocks.len() as int)
}

proof fn lemma_mul_alignment(pages: int, size: int)
    requires
        pages >= 0,
        size > 0,
    ensures
        (pages * size) % size == 0,
{
    vstd::arithmetic::div_mod::lemma_mod_multiples_basic(pages, size);
}

proof fn lemma_mod_difference(a: int, b: int, m: int)
    requires
        m > 0,
        a % m == 0,
        b % m == 0,
        b <= a,
    ensures
        (a - b) % m == 0,
{
    vstd::arithmetic::div_mod::lemma_fundamental_div_mod(a, m);
    vstd::arithmetic::div_mod::lemma_fundamental_div_mod(b, m);
    vstd::arithmetic::div_mod::lemma_mod_multiples_basic(a / m - b / m, m);
    assert(m * (a / m) - m * (b / m) == (a / m - b / m) * m) by (nonlinear_arith);
}

proof fn lemma_mod_difference2(a: int, b: int, m: int)
    requires
        m > 0,
        a % m == 0,
        b % m == 0,
    ensures
        (a + b) % m == 0,
{
    vstd::arithmetic::div_mod::lemma_fundamental_div_mod(a, m);
    vstd::arithmetic::div_mod::lemma_fundamental_div_mod(b, m);
    vstd::arithmetic::div_mod::lemma_mod_multiples_basic(a / m + b / m, m);
    assert(m * (a / m) + m * (b / m) == (a / m + b / m) * m) by (nonlinear_arith);
}

/// Given power-of-two `alignment`, returns the largest value below `x` aligned
/// to `alignment`.
pub fn align_u64_down(x: u64, alignment: u64) -> (r: u64)
    requires
        is_power_of_two(alignment),
    ensures
        r == align_down_spec(x as int, alignment as int),
{
    proof {
        lemma_low_mask_is_mod(x, alignment);
    }
    let mask = !(alignment - 1);
    x & mask
}

/// Given power-of-two `alignment`, returns the smallest value above `x`
/// aligned to `alignment`. It must be representable.
pub fn align_u64_up(x: u64, alignment: u64) -> (r: u64)
    requires
        is_power_of_two(alignment),
        x + alignment - 1 <= u64_max(),
    ensures
        r == align_up_spec(x as int, alignment as int),
{
    proof {
        lemma_low_mask_is_mod(x, alignment);
    }
    align_u64_down(x + (alignment - 1), alignment)
}

} // verus!
