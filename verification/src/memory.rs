//! Physical memory: addresses, frames and pages, the machine's memory map,
//! allocators and page tables.

pub mod addr;
pub mod allocators;
pub mod page;
pub mod paging;

use crate::physmem::{
    covered, intervals, lemma_covered_drop_first, nonempty, reserve, reserved, sorted_blocks,
};
use addr::{
    Address, AddressType, Extent, Length,
    align_down_spec, align_up_spec, lemma_common_alignments, lemma_overlap_is_commutative,
    max_int, min_int, overlap_exists, u64_max, PhysExtent,
};
use page::{FrameRange, PAGE_SIZE};
use vstd::prelude::*;

verus! {

/// A map of the machine's physical memory: at most 128 entries, sorted by
/// start address, whose extents do not overlap.
pub struct MemoryMap {
    entries: Vec<MapEntry>,
}

impl View for MemoryMap {
    type V = Seq<MapEntry>;

    closed spec fn view(&self) -> Seq<MapEntry> {
        self.entries@
    }
}

/// The most entries a `MemoryMap` holds.
pub const MAP_CAPACITY: usize = 128;

impl MemoryMap {
    #[verifier::type_invariant]
    spec fn within_capacity(self) -> bool {
        self.entries.len() <= MAP_CAPACITY
    }

    /// The map of the entries of `src`, at most 128 of them. `src` must be
    /// sorted by start address, and the extents must not overlap.
    pub fn from_entries(src: &[MapEntry]) -> (r: MemoryMap)
        requires
            src@.len() <= MAP_CAPACITY,
        ensures
            r@ == src@,
    {
        let mut entries: Vec<MapEntry> = Vec::new();
        let mut i: usize = 0;
        while i < src.len()
            invariant
                i <= src@.len(),
                entries@ == src@.subrange(0, i as int),
            decreases src@.len() - i,
        {
            entries.push(src[i]);
            i = i + 1;
        }
        MemoryMap { entries }
    }

    pub fn entries(&self) -> (r: &[MapEntry])
        ensures
            r@ == self@,
            r@.len() <= MAP_CAPACITY,
    {
        proof {
            use_type_invariant(self);
        }
        self.entries.as_slice()
    }

    /// Replace entry `index`, which must exist.
    pub fn set_entry(&mut self, index: usize, entry: MapEntry)
        requires
            index < old(self)@.len(),
        ensures
            final(self)@ == old(self)@.update(index as int, entry),
    {
        proof {
            use_type_invariant(&*self);
        }
        let mut updated: Vec<MapEntry> = Vec::new();
        let mut i: usize = 0;
        while i < self.entries.len()
            invariant
                i <= self.entries@.len(),
                index < self.entries@.len(),
                self.entries@ == old(self).entries@,
                updated@ == old(self)@.update(index as int, entry).subrange(0, i as int),
            decreases self.entries@.len() - i,
        {
            let ghost target = old(self)@.update(index as int, entry);
            assert(target.subrange(0, i + 1) =~= target.subrange(0, i as int).push(target[i as int]));
            if i == index {
                updated.push(entry);
            } else {
                updated.push(self.entries[i]);
            }
            i = i + 1;
        }
        assert(updated@ =~= old(self)@.update(index as int, entry));
        self.entries = updated;
    }

    /// The entries of the given type, in map order.
    pub fn iter_type(&self, mem_type: MemoryType) -> (r: Vec<MapEntry>)
        ensures
            r@ == entries_of_type(self@, mem_type),
    {
        let mut r: Vec<MapEntry> = Vec::new();
        let mut i: usize = 0;
        while i < self.entries.len()
            invariant
                i <= self@.len(),
                r@ == entries_of_type(self@.subrange(0, i as int), mem_type),
            decreases self@.len() - i,
        {
            assert(self@.subrange(0, i + 1).drop_last() =~= self@.subrange(0, i as int));
            if self.entries[i].mem_type == mem_type {
                r.push(self.entries[i]);
            }
            i = i + 1;
        }
        assert(self@.subrange(0, self@.len() as int) =~= self@);
        r
    }
}

impl Clone for MemoryMap {
    fn clone(&self) -> (r: Self)
        ensures
            r@ == self@,
    {
        MemoryMap::from_entries(self.entries())
    }
}

/// The entries of type `t`, in order.
pub open spec fn entries_of_type(entries: Seq<MapEntry>, t: MemoryType) -> Seq<MapEntry>
    decreases entries.len(),
{
    if entries.len() == 0 {
        seq![]
    } else {
        let rest = entries_of_type(entries.drop_last(), t);
        if entries.last().mem_type == t {
            rest.push(entries.last())
        } else {
            rest
        }
    }
}

#[derive(Clone, Copy, Debug)]
pub struct MapEntry {
    pub extent: PhysExtent,
    pub mem_type: MemoryType,
}

impl PartialEq for MapEntry {
    fn eq(&self, other: &Self) -> (r: bool) {
        self.extent == other.extent && self.mem_type == other.mem_type
    }
}

impl Eq for MapEntry {}

impl vstd::std_specs::cmp::PartialEqSpecImpl for MapEntry {
    open spec fn obeys_eq_spec() -> bool {
        true
    }

    open spec fn eq_spec(&self, other: &Self) -> bool {
        self.extent.start() == other.extent.start() && self.extent.end() == other.extent.end()
            && self.mem_type == other.mem_type
    }
}

#[derive(Clone, Copy, Debug, PartialEq, Eq, Structural)]
pub enum MemoryType {
    /// Available for use
    Available,
    /// Contains ACPI information, but otherwise usable
    Acpi,
    /// Reserved and must be preserved on hibernation
    ReservedPreserveOnHibernation,
    /// Corrupt and unusable
    Defective,
    /// Cannot be used
    Reserved,
    /// Available, but where the bootloader loaded us. Can't be used unless
    /// relocated.
    KernelLoad,
}

impl MemoryType {
    /// Whether this region is real RAM that the kernel should include in its
    /// identity map and physical-memory window. Excludes address-space holes
    /// (MMIO and other `Reserved` ranges) and unusable RAM.
    pub fn is_ram_backed(self) -> (r: bool)
        ensures
            r == !(self == MemoryType::Reserved || self == MemoryType::Defective),
    {
        match self {
            MemoryType::Available
            | MemoryType::Acpi
            | MemoryType::ReservedPreserveOnHibernation
            | MemoryType::KernelLoad => true,
            MemoryType::Reserved | MemoryType::Defective => false,
        }
    }
}

/// The whole frames inside each entry, in order: every entry shrunk to frame
/// alignment, those with no whole frame left dropped. Entries must end at a
/// representable address.
#[verifier::spinoff_prover]
pub fn iter_map_frames(entries: &[MapEntry]) -> (r: Vec<FrameRange>)
    requires
        forall|i: int| 0 <= i < entries@.len() ==> (#[trigger] entries@[i]).extent.end() <= u64_max(),
    ensures
        frame_runs(r@) == map_frames(entries@),
{
    let mut r: Vec<FrameRange> = Vec::new();
    let mut i: usize = 0;
    while i < entries.len()
        invariant
            i <= entries@.len(),
            forall|i: int| 0 <= i < entries@.len() ==> (#[trigger] entries@[i]).extent.end() <= u64_max(),
            frame_runs(r@) == map_frames(entries@.subrange(0, i as int)),
        decreases entries@.len() - i,
    {
        let ghost before = r@;
        assert(entries@.subrange(0, i + 1).drop_last() =~= entries@.subrange(0, i as int));
        proof {
            lemma_common_alignments();
        }
        match entries[i].extent.shrink_to_alignment(PAGE_SIZE) {
            Some(shrunk) => {
                proof {
                    crate::memory::addr::lemma_align_down_bounds(entries@[i as int].extent.end(), 4096);
                    crate::memory::addr::lemma_align_down_bounds(entries@[i as int].extent.start() + 4095, 4096);
                }
                let range = FrameRange::containing_extent(shrunk);
                r.push(range);
                assert(frame_runs(r@) =~= frame_runs(before).push((range.first_start(), range.last_start() + 4096)));
            },
            None => {},
        }
        i = i + 1;
    }
    assert(entries@.subrange(0, entries@.len() as int) =~= entries@);
    r
}

/// The `[first frame start, end)` byte interval of each frame range.
pub open spec fn frame_runs(s: Seq<FrameRange>) -> Seq<(int, int)> {
    s.map_values(|r: FrameRange| (r.first_start(), r.last_start() + 4096))
}

/// The aligned interior of each entry, those with no whole frame left
/// dropped.
pub open spec fn map_frames(entries: Seq<MapEntry>) -> Seq<(int, int)>
    decreases entries.len(),
{
    if entries.len() == 0 {
        seq![]
    } else {
        let rest = map_frames(entries.drop_last());
        let e = entries.last().extent;
        let lo = align_up_spec(e.start(), 4096);
        let hi = align_down_spec(e.end(), 4096);
        if lo < hi {
            rest.push((lo, hi))
        } else {
            rest
        }
    }
}

} // verus!

verus! {

/// The `(start, end, type)` of each entry.
pub open spec fn entry_triples(s: Seq<MapEntry>) -> Seq<(int, int, MemoryType)> {
    s.map_values(|e: MapEntry| (e.extent.start(), e.extent.end(), e.mem_type))
}

/// The `[start, end)` of each extent.
pub open spec fn extent_intervals(s: Seq<PhysExtent>) -> Seq<(int, int)> {
    s.map_values(|e: PhysExtent| (e.start(), e.end()))
}

/// Each region ends at or before the start of every later one.
pub open spec fn sorted_regions(s: Seq<(int, int, MemoryType)>) -> bool {
    forall|i: int, j: int| 0 <= i < j < s.len() ==> s[i].1 <= s[j].0
}

/// The region types in which kernel data is looked for: kernel extents
/// should not overlap anything else.
pub open spec fn takes_kernel_marks(t: MemoryType) -> bool {
    t == MemoryType::Available || t == MemoryType::Acpi
}

/// The pieces of the region `[lo, hi)` of type `t` once the kernel areas
/// are marked in it: the areas before it are passed over, and each area
/// that meets it splits off the part before it (type `t`) and the part
/// shared with it (`KernelLoad`); what lies past the area is marked against
/// the following areas.
#[verifier::opaque]
pub open spec fn marked_pieces(lo: int, hi: int, t: MemoryType, areas: Seq<(int, int)>) -> Seq<
    (int, int, MemoryType),
>
    decreases areas.len(),
{
    if areas.len() == 0 {
        seq![(lo, hi, t)]
    } else {
        let a = areas[0];
        let meets = if a.0 <= lo {
            lo < a.1
        } else {
            a.0 < hi
        };
        if !meets && a.0 < lo {
            marked_pieces(lo, hi, t, areas.drop_first())
        } else if !meets && a.0 > lo {
            seq![(lo, hi, t)]
        } else {
            let left: Seq<(int, int, MemoryType)> = if lo < a.0 {
                seq![(lo, min_int(hi, a.0), t)]
            } else {
                seq![]
            };
            let mid = seq![(max_int(lo, a.0), min_int(hi, a.1), MemoryType::KernelLoad)];
            if hi > a.1 {
                left + mid + marked_pieces(max_int(lo, a.1), hi, t, areas.drop_first())
            } else {
                left + mid
            }
        }
    }
}

/// What one region becomes: split around kernel areas if it can hold them,
/// kept as it is otherwise.
pub open spec fn marked_region(r: (int, int, MemoryType), areas: Seq<(int, int)>) -> Seq<
    (int, int, MemoryType),
> {
    if takes_kernel_marks(r.2) {
        marked_pieces(r.0, r.1, r.2, areas)
    } else {
        seq![r]
    }
}

/// Every region with the kernel areas marked in it, region by region.
#[verifier::opaque]
pub open spec fn marked(regions: Seq<(int, int, MemoryType)>, areas: Seq<(int, int)>) -> Seq<
    (int, int, MemoryType),
>
    decreases regions.len(),
{
    if regions.len() == 0 {
        seq![]
    } else {
        marked_region(regions[0], areas) + marked(regions.drop_first(), areas)
    }
}

/// The regions still to be marked: the one put back (if any), then those of
/// `s` from `i` on.
pub open spec fn regions_left(put_back: Option<MapEntry>, s: Seq<MapEntry>, i: int) -> Seq<
    (int, int, MemoryType),
> {
    match put_back {
        Some(e) => seq![(e.extent.start(), e.extent.end(), e.mem_type)] + entry_triples(
            s.subrange(i, s.len() as int),
        ),
        None => entry_triples(s.subrange(i, s.len() as int)),
    }
}

/// The kernel areas still to be considered: the one put back (if any), then
/// those of `s` from `i` on.
pub open spec fn areas_left(put_back: Option<PhysExtent>, s: Seq<PhysExtent>, i: int) -> Seq<
    (int, int),
> {
    match put_back {
        Some(e) => seq![(e.start(), e.end())] + extent_intervals(s.subrange(i, s.len() as int)),
        None => extent_intervals(s.subrange(i, s.len() as int)),
    }
}

/// Whether the area `a` meets `[lo, hi)`, as `Extent::overlap` decides it
/// with the area first.
pub open spec fn area_meets(a: (int, int), lo: int, hi: int) -> bool {
    if a.0 <= lo {
        lo < a.1
    } else {
        a.0 < hi
    }
}

proof fn lemma_marked_empty(areas: Seq<(int, int)>)
    ensures
        marked(seq![], areas) == Seq::<(int, int, MemoryType)>::empty(),
{
    reveal(marked);
}

proof fn lemma_marked_cons(regions: Seq<(int, int, MemoryType)>, areas: Seq<(int, int)>)
    requires
        regions.len() > 0,
    ensures
        marked(regions, areas) == marked_region(regions[0], areas) + marked(
            regions.drop_first(),
            areas,
        ),
{
    reveal(marked);
}

/// A region that no area is left for, or whose next area lies wholly after
/// it, is kept whole.
proof fn lemma_pieces_whole(lo: int, hi: int, t: MemoryType, areas: Seq<(int, int)>)
    requires
        areas.len() > 0 ==> !area_meets(areas[0], lo, hi) && areas[0].0 > lo,
    ensures
        marked_pieces(lo, hi, t, areas) == seq![(lo, hi, t)],
{
    reveal(marked_pieces);
}

/// A region is split around the first area when that area meets it.
proof fn lemma_pieces_split(lo: int, hi: int, t: MemoryType, areas: Seq<(int, int)>)
    requires
        areas.len() > 0,
        !(!area_meets(areas[0], lo, hi) && areas[0].0 < lo),
        !(!area_meets(areas[0], lo, hi) && areas[0].0 > lo),
    ensures
        marked_pieces(lo, hi, t, areas) == (if lo < areas[0].0 {
            seq![(lo, min_int(hi, areas[0].0), t)]
        } else {
            Seq::<(int, int, MemoryType)>::empty()
        }) + seq![(max_int(lo, areas[0].0), min_int(hi, areas[0].1), MemoryType::KernelLoad)] + (
        if hi > areas[0].1 {
            marked_pieces(max_int(lo, areas[0].1), hi, t, areas.drop_first())
        } else {
            Seq::<(int, int, MemoryType)>::empty()
        }),
{
    reveal(marked_pieces);
    let a = areas[0];
    let left: Seq<(int, int, MemoryType)> = if lo < a.0 {
        seq![(lo, min_int(hi, a.0), t)]
    } else {
        seq![]
    };
    let mid = seq![(max_int(lo, a.0), min_int(hi, a.1), MemoryType::KernelLoad)];
    if hi <= a.1 {
        assert(left + mid + Seq::<(int, int, MemoryType)>::empty() =~= left + mid);
    }
}

/// A non-empty area that ends at or before every region's start marks
/// nothing in them.
proof fn lemma_marked_skip_area(regions: Seq<(int, int, MemoryType)>, areas: Seq<(int, int)>)
    requires
        areas.len() > 0,
        areas[0].0 < areas[0].1,
        forall|i: int| 0 <= i < regions.len() ==> areas[0].1 <= #[trigger] regions[i].0,
    ensures
        marked(regions, areas) == marked(regions, areas.drop_first()),
    decreases regions.len(),
{
    reveal(marked);
    if regions.len() > 0 {
        assert(areas[0].1 <= regions[0].0);
        lemma_marked_skip_area(regions.drop_first(), areas);
        reveal(marked_pieces);
    }
}

/// A region of the map that `mark_kernel_areas` may split: its end is
/// representable, and if it can hold kernel data it is not empty.
pub open spec fn markable(e: MapEntry) -> bool {
    &&& e.extent.end() <= u64_max()
    &&& takes_kernel_marks(e.mem_type) ==> e.extent.start() < e.extent.end()
}

/// Given a sequence of memory regions, mark which areas contain kernel data
/// from another sequence of extents. Both sequences must be sorted and
/// non-overlapping.
///
/// Returns a sorted sequence of corrected regions: each `Available` or `Acpi`
/// region is split into the parts outside the kernel areas, which keep its
/// type, and the parts inside them, which become `KernelLoad`; other regions
/// are kept as they are.
#[verifier::rlimit(100)]
pub fn mark_kernel_areas(regions: &[MapEntry], kernel_areas: &[PhysExtent]) -> (r: Vec<MapEntry>)
    requires
        sorted_regions(entry_triples(regions@)),
        forall|i: int| 0 <= i < regions@.len() ==> markable(#[trigger] regions@[i]),
        forall|i: int| 0 <= i < kernel_areas@.len() ==> (#[trigger] kernel_areas@[i]).wf(),
    ensures
        entry_triples(r@) == marked(entry_triples(regions@), extent_intervals(kernel_areas@)),
{
    let ghost r0 = entry_triples(regions@);
    let ghost a0 = extent_intervals(kernel_areas@);
    let mut out: Vec<MapEntry> = Vec::new();
    let mut ri: usize = 0;
    let mut put_back_region: Option<MapEntry> = None;
    let mut ai: usize = 0;
    let mut put_back_area: Option<PhysExtent> = None;
    assert(regions@.subrange(0, regions@.len() as int) =~= regions@);
    assert(kernel_areas@.subrange(0, kernel_areas@.len() as int) =~= kernel_areas@);
    loop
        invariant
            ri <= regions@.len(),
            ai <= kernel_areas@.len(),
            r0 == entry_triples(regions@),
            a0 == extent_intervals(kernel_areas@),
            forall|i: int| 0 <= i < regions@.len() ==> markable(#[trigger] regions@[i]),
            forall|i: int| 0 <= i < kernel_areas@.len() ==> (#[trigger] kernel_areas@[i]).wf(),
            put_back_region matches Some(e) ==> markable(e) && takes_kernel_marks(e.mem_type),
            put_back_area matches Some(k) ==> k.wf(),
            sorted_regions(regions_left(put_back_region, regions@, ri as int)),
            entry_triples(out@) + marked(
                regions_left(put_back_region, regions@, ri as int),
                areas_left(put_back_area, kernel_areas@, ai as int),
            ) == marked(r0, a0),
        ensures
            entry_triples(out@) == marked(r0, a0),
        decreases 2 * (regions@.len() - ri + if put_back_region is Some {
            1int
        } else {
            0int
        }) + kernel_areas@.len() - ai + if put_back_area is Some {
            1int
        } else {
            0int
        },
    {
        let ghost rr = regions_left(put_back_region, regions@, ri as int);
        let ghost ra = areas_left(put_back_area, kernel_areas@, ai as int);
        let cur = match put_back_region {
            Some(e) => {
                put_back_region = None;
                e
            },
            None => {
                if ri == regions.len() {
                    assert(rr =~= seq![]);
                    proof {
                        lemma_marked_empty(ra);
                    }
                    assert(entry_triples(out@) + marked(rr, ra) =~= entry_triples(out@));
                    break ;
                }
                let e = regions[ri];
                ri = ri + 1;
                e
            },
        };
        assert(rr[0] == (cur.extent.start(), cur.extent.end(), cur.mem_type));
        assert(regions_left(put_back_region, regions@, ri as int) =~= rr.drop_first());
        let ghost rr1 = rr.drop_first();
        let ghost lo = cur.extent.start();
        let ghost hi = cur.extent.end();
        let ghost out0 = entry_triples(out@);
        proof {
            assert forall|i: int, j: int| 0 <= i < j < rr1.len() implies rr1[i].1 <= rr1[j].0 by {
                assert(rr1[i] == rr[i + 1] && rr1[j] == rr[j + 1]);
            }
            assert forall|i: int| 0 <= i < rr1.len() implies hi <= #[trigger] rr1[i].0 by {
                assert(rr1[i] == rr[i + 1]);
            }
            lemma_marked_cons(rr, ra);
        }
        // Kernel extents should not overlap anything other than `Available`
        // and `Acpi`, and if they do there is nothing to be done.
        match cur.mem_type {
            MemoryType::Available => {},
            MemoryType::Acpi => {},
            _ => {
                out.push(cur);
                assert(entry_triples(out@) =~= out0.push(rr[0]));
                assert(marked_region(rr[0], ra) =~= seq![rr[0]]);
                assert(entry_triples(out@) + marked(rr1, ra) =~= out0 + marked(rr, ra));
                continue ;
            },
        }
        assert(takes_kernel_marks(cur.mem_type));
        // Pass over the kernel areas that lie wholly before `cur`.
        let ghost areas_budget = kernel_areas@.len() - ai + if put_back_area is Some {
            1int
        } else {
            0int
        };
        loop
            invariant
                kernel_areas@.len() - ai + (if put_back_area is Some {
                    1int
                } else {
                    0int
                }) <= areas_budget,
                ai <= kernel_areas@.len(),
                forall|i: int| 0 <= i < kernel_areas@.len() ==> (#[trigger] kernel_areas@[i]).wf(),
                put_back_area matches Some(k) ==> k.wf(),
                lo == cur.extent.start(),
                hi == cur.extent.end(),
                lo < hi,
                rr[0] == (lo, hi, cur.mem_type),
                rr.len() > 0,
                forall|i: int| 0 <= i < rr1.len() ==> hi <= #[trigger] rr1[i].0,
                rr1 == rr.drop_first(),
                marked(rr, areas_left(put_back_area, kernel_areas@, ai as int)) == marked(rr, ra),
            ensures
                ai <= kernel_areas@.len(),
                kernel_areas@.len() - ai + (if put_back_area is Some {
                    1int
                } else {
                    0int
                }) <= areas_budget,
                put_back_area matches Some(k) ==> k.wf(),
                marked(rr, areas_left(put_back_area, kernel_areas@, ai as int)) == marked(rr, ra),
                ({
                    let ra2 = areas_left(put_back_area, kernel_areas@, ai as int);
                    ra2.len() > 0 ==> !(!area_meets(ra2[0], lo, hi) && ra2[0].0 < lo)
                }),
            decreases kernel_areas@.len() - ai + if put_back_area is Some {
                1int
            } else {
                0int
            },
        {
            let ghost ra1 = areas_left(put_back_area, kernel_areas@, ai as int);
            let kernel = match put_back_area {
                Some(k) => {
                    put_back_area = None;
                    k
                },
                None => {
                    if ai == kernel_areas.len() {
                        assert(ra1.len() == 0);
                        break ;
                    }
                    let k = kernel_areas[ai];
                    ai = ai + 1;
                    k
                },
            };
            assert(ra1[0] == (kernel.start(), kernel.end()));
            assert(areas_left(put_back_area, kernel_areas@, ai as int) =~= ra1.drop_first());
            if kernel.overlap(cur.extent).is_none() && kernel.address().as_raw()
                < cur.extent.address().as_raw() {
                proof {
                    assert forall|i: int| 0 <= i < rr.len() implies ra1[0].1 <= #[trigger] rr[i].0 by {
                        if i > 0 {
                            assert(rr[i] == rr1[i - 1]);
                        }
                    }
                    lemma_marked_skip_area(rr, ra1);
                }
            } else {
                put_back_area = Some(kernel);
                assert(areas_left(put_back_area, kernel_areas@, ai as int) =~= ra1);
                break ;
            }
        }
        let ghost ra2 = areas_left(put_back_area, kernel_areas@, ai as int);
        proof {
            lemma_marked_cons(rr, ra2);
        }
        // If no kernel areas are left, `cur` is kept whole.
        let kernel = match put_back_area {
            Some(k) => {
                put_back_area = None;
                k
            },
            None => {
                if ai == kernel_areas.len() {
                    assert(ra2.len() == 0);
                    out.push(cur);
                    assert(entry_triples(out@) =~= out0.push(rr[0]));
                    proof {
                        lemma_pieces_whole(lo, hi, cur.mem_type, ra2);
                    }
                    assert(entry_triples(out@) + marked(rr1, ra2) =~= out0 + marked(rr, ra2));
                    continue ;
                }
                let k = kernel_areas[ai];
                ai = ai + 1;
                k
            },
        };
        assert(ra2[0] == (kernel.start(), kernel.end()));
        let ghost ra3 = ra2.drop_first();
        assert(areas_left(put_back_area, kernel_areas@, ai as int) =~= ra3);
        // If `kernel` lies wholly after `cur`, `cur` is kept whole; `kernel`
        // is considered again for the next region.
        if kernel.overlap(cur.extent).is_none() && kernel.address().as_raw()
            > cur.extent.address().as_raw() {
            put_back_area = Some(kernel);
            assert(areas_left(put_back_area, kernel_areas@, ai as int) =~= ra2);
            out.push(cur);
            assert(entry_triples(out@) =~= out0.push(rr[0]));
            proof {
                lemma_pieces_whole(lo, hi, cur.mem_type, ra2);
            }
            assert(entry_triples(out@) + marked(rr1, ra2) =~= out0 + marked(rr, ra2));
            continue ;
        }
        // Otherwise they meet: keep the part before `kernel`, mark the part
        // shared with it, and go on with the part after it.
        proof {
            lemma_overlap_is_commutative(cur.extent, kernel);
            lemma_pieces_split(lo, hi, cur.mem_type, ra2);
        }
        let maybe_left = cur.extent.left_difference(kernel);
        let maybe_right = cur.extent.right_difference(kernel);
        let mid = match cur.extent.overlap(kernel) {
            Some(m) => m,
            None => {
                assert(false);
                kernel
            },
        };
        let ghost left: Seq<(int, int, MemoryType)> = if lo < kernel.start() {
            seq![(lo, min_int(hi, kernel.start()), cur.mem_type)]
        } else {
            seq![]
        };
        let ghost mid_t = seq![
            (max_int(lo, kernel.start()), min_int(hi, kernel.end()), MemoryType::KernelLoad),
        ];
        match maybe_left {
            Some(l) => {
                out.push(MapEntry { extent: l, mem_type: cur.mem_type });
            },
            None => {},
        }
        assert(entry_triples(out@) =~= out0 + left);
        let ghost out1 = entry_triples(out@);
        out.push(MapEntry { extent: mid, mem_type: MemoryType::KernelLoad });
        assert(entry_triples(out@) =~= out1 + mid_t);
        match maybe_right {
            Some(right) => {
                // `kernel` ends inside `cur`, so no later region meets it.
                put_back_region = Some(MapEntry { extent: right, mem_type: cur.mem_type });
                proof {
                    let nr = regions_left(put_back_region, regions@, ri as int);
                    assert(nr =~= seq![(right.start(), right.end(), cur.mem_type)] + rr1);
                    assert forall|i: int| 0 <= i < rr1.len() implies ra2[0].1 <= #[trigger] rr1[i].0 by {
                    }
                    lemma_marked_skip_area(rr1, ra2);
                    assert forall|i: int, j: int| 0 <= i < j < nr.len() implies nr[i].1 <= nr[j].0 by {
                        if i == 0 {
                            assert(nr[j] == rr1[j - 1]);
                        } else {
                            assert(nr[i] == rr1[i - 1] && nr[j] == rr1[j - 1]);
                        }
                    }
                    assert(nr.drop_first() =~= rr1);
                    lemma_marked_cons(nr, ra3);
                    assert(entry_triples(out@) + marked(nr, ra3) =~= out0 + marked(rr, ra2));
                }
            },
            None => {
                // `kernel` may reach into the next region; keep it.
                put_back_area = Some(kernel);
                assert(areas_left(put_back_area, kernel_areas@, ai as int) =~= ra2);
                assert(regions_left(put_back_region, regions@, ri as int) =~= rr1);
                assert(marked_pieces(lo, hi, cur.mem_type, ra2) =~= left + mid_t);
                assert(entry_triples(out@) + marked(rr1, ra2) =~= out0 + marked(rr, ra2));
            },
        }
    }
    out
}

} // verus!

verus! {

/// Some piece of `s` of type `t` holds `x`.
pub open spec fn covered_as(s: Seq<(int, int, MemoryType)>, x: int, t: MemoryType) -> bool {
    exists|i: int| 0 <= i < s.len() && (#[trigger] s[i]).0 <= x < s[i].1 && s[i].2 == t
}

proof fn lemma_covered_as_concat(
    a: Seq<(int, int, MemoryType)>,
    b: Seq<(int, int, MemoryType)>,
    x: int,
    t: MemoryType,
)
    ensures
        covered_as(a + b, x, t) <==> covered_as(a, x, t) || covered_as(b, x, t),
{
    if covered_as(a + b, x, t) {
        let i = choose|i: int|
            0 <= i < (a + b).len() && (#[trigger] (a + b)[i]).0 <= x < (a + b)[i].1 && (a
                + b)[i].2 == t;
        if i >= a.len() {
            assert(b[i - a.len()] == (a + b)[i]);
        }
    }
    if covered_as(b, x, t) {
        let i = choose|i: int| 0 <= i < b.len() && (#[trigger] b[i]).0 <= x < b[i].1 && b[i].2 == t;
        assert((a + b)[a.len() + i] == b[i]);
    }
    if covered_as(a, x, t) {
        let i = choose|i: int| 0 <= i < a.len() && (#[trigger] a[i]).0 <= x < a[i].1 && a[i].2 == t;
        assert((a + b)[i] == a[i]);
    }
}

proof fn lemma_covered_as_single(p: (int, int, MemoryType), x: int, t: MemoryType)
    ensures
        covered_as(seq![p], x, t) <==> (p.0 <= x < p.1 && p.2 == t),
{
    if p.0 <= x < p.1 && p.2 == t {
        assert(seq![p][0] == p);
    }
}

/// Splitting off the first of sorted, non-empty areas.
proof fn lemma_areas_drop_first(areas: Seq<(int, int)>, x: int)
    requires
        areas.len() > 0,
        sorted_blocks(areas),
        nonempty(areas),
    ensures
        sorted_blocks(areas.drop_first()),
        nonempty(areas.drop_first()),
        areas[0].0 < areas[0].1,
        covered(areas, x) <==> (areas[0].0 <= x < areas[0].1 || covered(areas.drop_first(), x)),
        x < areas[0].1 ==> !covered(areas.drop_first(), x),
{
    let rest = areas.drop_first();
    assert forall|i: int, j: int| 0 <= i < j < rest.len() implies rest[i].1 <= rest[j].0 by {
        assert(rest[i] == areas[i + 1] && rest[j] == areas[j + 1]);
    }
    assert forall|i: int| 0 <= i < rest.len() implies (#[trigger] rest[i]).0 < rest[i].1 by {
        assert(rest[i] == areas[i + 1]);
    }
    lemma_covered_drop_first(areas, x);
    if x < areas[0].1 && covered(rest, x) {
        let i = choose|i: int| 0 <= i < rest.len() && (#[trigger] rest[i]).0 <= x < rest[i].1;
        assert(areas[0].1 <= areas[i + 1].0);
    }
}

/// Inside one region that can hold kernel data, an address ends up in a
/// `KernelLoad` piece if some kernel area holds it, and in a piece of the
/// region's own type otherwise.
proof fn lemma_pieces_types(
    lo: int,
    hi: int,
    t: MemoryType,
    areas: Seq<(int, int)>,
    x: int,
    u: MemoryType,
)
    requires
        takes_kernel_marks(t),
        sorted_blocks(areas),
        nonempty(areas),
    ensures
        covered_as(marked_pieces(lo, hi, t, areas), x, u) <==> (lo <= x < hi && (if covered(
            areas,
            x,
        ) {
            u == MemoryType::KernelLoad
        } else {
            u == t
        })),
    decreases areas.len(),
{
    reveal(marked_pieces);
    if areas.len() == 0 {
        lemma_covered_as_single((lo, hi, t), x, u);
    } else {
        let a = areas[0];
        let rest = areas.drop_first();
        lemma_areas_drop_first(areas, x);
        if !area_meets(a, lo, hi) && a.0 < lo {
            lemma_pieces_types(lo, hi, t, rest, x, u);
        } else if !area_meets(a, lo, hi) && a.0 > lo {
            lemma_covered_as_single((lo, hi, t), x, u);
        } else {
            let left: Seq<(int, int, MemoryType)> = if lo < a.0 {
                seq![(lo, min_int(hi, a.0), t)]
            } else {
                seq![]
            };
            let mid = seq![(max_int(lo, a.0), min_int(hi, a.1), MemoryType::KernelLoad)];
            let right: Seq<(int, int, MemoryType)> = if hi > a.1 {
                marked_pieces(max_int(lo, a.1), hi, t, rest)
            } else {
                seq![]
            };
            lemma_pieces_split(lo, hi, t, areas);
            lemma_covered_as_concat(left + mid, right, x, u);
            lemma_covered_as_concat(left, mid, x, u);
            lemma_covered_as_single((max_int(lo, a.0), min_int(hi, a.1), MemoryType::KernelLoad), x, u);
            if lo < a.0 {
                lemma_covered_as_single((lo, min_int(hi, a.0), t), x, u);
            }
            if hi > a.1 {
                lemma_pieces_types(max_int(lo, a.1), hi, t, rest, x, u);
            }
        }
    }
}

/// The pieces `[lo, hi)` is cut into lie inside it, in order.
proof fn lemma_pieces_sorted_within(lo: int, hi: int, t: MemoryType, areas: Seq<(int, int)>)
    requires
        lo <= hi,
        nonempty(areas),
    ensures
        sorted_regions(marked_pieces(lo, hi, t, areas)),
        forall|k: int|
            0 <= k < marked_pieces(lo, hi, t, areas).len() ==> lo <= (#[trigger] marked_pieces(
                lo,
                hi,
                t,
                areas,
            )[k]).0 && marked_pieces(lo, hi, t, areas)[k].1 <= hi,
    decreases areas.len(),
{
    reveal(marked_pieces);
    if areas.len() > 0 {
        let a = areas[0];
        let rest = areas.drop_first();
        assert(nonempty(rest)) by {
            assert forall|i: int| 0 <= i < rest.len() implies (#[trigger] rest[i]).0 < rest[i].1 by {
                assert(rest[i] == areas[i + 1]);
            }
        }
        assert(a.0 < a.1);
        if !area_meets(a, lo, hi) && a.0 < lo {
            lemma_pieces_sorted_within(lo, hi, t, rest);
        } else if !area_meets(a, lo, hi) && a.0 > lo {
        } else {
            let left: Seq<(int, int, MemoryType)> = if lo < a.0 {
                seq![(lo, min_int(hi, a.0), t)]
            } else {
                seq![]
            };
            let mid = seq![(max_int(lo, a.0), min_int(hi, a.1), MemoryType::KernelLoad)];
            if hi > a.1 {
                let nlo = max_int(lo, a.1);
                lemma_pieces_sorted_within(nlo, hi, t, rest);
                let tail = marked_pieces(nlo, hi, t, rest);
                let all = left + mid + tail;
                assert(marked_pieces(lo, hi, t, areas) == all);
                assert forall|i: int, j: int| 0 <= i < j < all.len() implies all[i].1 <= all[j].0 by {
                    if j >= left.len() + 1 {
                        assert(all[j] == tail[j - left.len() - 1]);
                        if i >= left.len() + 1 {
                            assert(all[i] == tail[i - left.len() - 1]);
                        }
                    }
                }
                assert forall|k: int| 0 <= k < all.len() implies lo <= (#[trigger] all[k]).0
                    && all[k].1 <= hi by {
                    if k >= left.len() + 1 {
                        assert(all[k] == tail[k - left.len() - 1]);
                    }
                }
            } else {
                let all = left + mid;
                assert(marked_pieces(lo, hi, t, areas) == all);
            }
        }
    }
}

/// `mark_kernel_areas` hands back a sorted map: when the regions are sorted
/// and none ends before it starts, and the kernel areas are non-empty, the
/// regions with the areas marked in them are sorted too, and every piece
/// lies inside the region it came from, from the first region's start on.
pub proof fn lemma_marked_sorted(regions: Seq<(int, int, MemoryType)>, areas: Seq<(int, int)>)
    requires
        sorted_regions(regions),
        forall|i: int| 0 <= i < regions.len() ==> (#[trigger] regions[i]).0 <= regions[i].1,
        nonempty(areas),
    ensures
        sorted_regions(marked(regions, areas)),
        regions.len() > 0 ==> forall|k: int|
            0 <= k < marked(regions, areas).len() ==> regions[0].0 <= (#[trigger] marked(
                regions,
                areas,
            )[k]).0,
    decreases regions.len(),
{
    reveal(marked);
    if regions.len() > 0 {
        let r = regions[0];
        let rest = regions.drop_first();
        assert(sorted_regions(rest)) by {
            assert forall|i: int, j: int| 0 <= i < j < rest.len() implies rest[i].1 <= rest[j].0 by {
                assert(rest[i] == regions[i + 1] && rest[j] == regions[j + 1]);
            }
        }
        assert forall|i: int| 0 <= i < rest.len() implies (#[trigger] rest[i]).0 <= rest[i].1 by {
            assert(rest[i] == regions[i + 1]);
        }
        lemma_marked_sorted(rest, areas);
        let head = marked_region(r, areas);
        let tail = marked(rest, areas);
        if takes_kernel_marks(r.2) {
            lemma_pieces_sorted_within(r.0, r.1, r.2, areas);
        }
        assert forall|k: int| 0 <= k < head.len() implies r.0 <= (#[trigger] head[k]).0 && head[k].1
            <= r.1 by {
            if !takes_kernel_marks(r.2) {
                assert(head[k] == r);
            }
        }
        assert(sorted_regions(head)) by {
            if !takes_kernel_marks(r.2) {
                assert(head.len() == 1);
            }
        }
        if rest.len() > 0 {
            assert(r.1 <= rest[0].0) by {
                assert(rest[0] == regions[1]);
            }
        }
        let all = head + tail;
        assert(marked(regions, areas) == all);
        assert forall|i: int, j: int| 0 <= i < j < all.len() implies all[i].1 <= all[j].0 by {
            if i >= head.len() {
                assert(all[i] == tail[i - head.len()] && all[j] == tail[j - head.len()]);
            } else if j >= head.len() {
                assert(all[j] == tail[j - head.len()]);
                assert(all[i] == head[i]);
            } else {
                assert(all[i] == head[i] && all[j] == head[j]);
            }
        }
        assert forall|k: int| 0 <= k < all.len() implies r.0 <= (#[trigger] all[k]).0 by {
            if k >= head.len() {
                assert(all[k] == tail[k - head.len()]);
                assert(rest[0] == regions[1]);
            }
        }
    }
}

/// What `mark_kernel_areas` does to the map, address by address: given
/// sorted, non-empty kernel areas, an address lies in an output piece of
/// type `KernelLoad` exactly when it lay in a `KernelLoad` region, or in an
/// `Available` or `Acpi` region and some kernel area; in one of type
/// `Available` or `Acpi` exactly when it lay in a region of that type and in
/// no kernel area; and in one of any other type exactly when it lay in a
/// region of that type. No address is gained or lost.
pub proof fn lemma_marked_types(
    regions: Seq<(int, int, MemoryType)>,
    areas: Seq<(int, int)>,
    x: int,
    u: MemoryType,
)
    requires
        sorted_blocks(areas),
        nonempty(areas),
    ensures
        covered_as(marked(regions, areas), x, u) <==> (if u == MemoryType::KernelLoad {
            covered_as(regions, x, MemoryType::KernelLoad) || (covered(areas, x) && (covered_as(
                regions,
                x,
                MemoryType::Available,
            ) || covered_as(regions, x, MemoryType::Acpi)))
        } else if takes_kernel_marks(u) {
            covered_as(regions, x, u) && !covered(areas, x)
        } else {
            covered_as(regions, x, u)
        }),
    decreases regions.len(),
{
    if regions.len() == 0 {
        lemma_marked_empty(areas);
        assert(regions =~= seq![]);
    } else {
        let r = regions[0];
        let rest = regions.drop_first();
        lemma_marked_cons(regions, areas);
        lemma_marked_types(rest, areas, x, u);
        lemma_covered_as_concat(marked_region(r, areas), marked(rest, areas), x, u);
        assert(regions =~= seq![r] + rest);
        lemma_covered_as_concat(seq![r], rest, x, MemoryType::KernelLoad);
        lemma_covered_as_concat(seq![r], rest, x, MemoryType::Available);
        lemma_covered_as_concat(seq![r], rest, x, MemoryType::Acpi);
        lemma_covered_as_concat(seq![r], rest, x, u);
        lemma_covered_as_single(r, x, MemoryType::KernelLoad);
        lemma_covered_as_single(r, x, MemoryType::Available);
        lemma_covered_as_single(r, x, MemoryType::Acpi);
        lemma_covered_as_single(r, x, u);
        if takes_kernel_marks(r.2) {
            lemma_pieces_types(r.0, r.1, r.2, areas, x, u);
        } else {
            lemma_covered_as_single(r, x, u);
        }
    }
}

} // verus!

verus! {

/// Frame `i`, the 4096 bytes from `4096 * i`, lies wholly inside `e`.
pub open spec fn entry_holds_frame(e: MapEntry, i: int) -> bool {
    e.extent.start() <= 4096 * i && 4096 * i + 4096 <= e.extent.end()
}

/// Frame `i` lies wholly inside some `Available` entry.
pub open spec fn frame_available(entries: Seq<MapEntry>, i: int) -> bool {
    exists|k: int|
        0 <= k < entries.len() && (#[trigger] entries[k]).mem_type == MemoryType::Available
            && entry_holds_frame(entries[k], i)
}

/// The end of the highest `Available` entry, or 0 if there is none.
pub open spec fn highest_available_end(entries: Seq<MapEntry>) -> int
    decreases entries.len(),
{
    if entries.len() == 0 {
        0
    } else {
        let rest = highest_available_end(entries.drop_last());
        let e = entries.last();
        if e.mem_type == MemoryType::Available && e.extent.end() > rest {
            e.extent.end()
        } else {
            rest
        }
    }
}

/// No `Available` entry ends above `highest_available_end`.
pub proof fn lemma_highest_available_end(entries: Seq<MapEntry>)
    ensures
        highest_available_end(entries) >= 0,
        forall|k: int|
            0 <= k < entries.len() && (#[trigger] entries[k]).mem_type == MemoryType::Available
                ==> entries[k].extent.end() <= highest_available_end(entries),
    decreases entries.len(),
{
    if entries.len() > 0 {
        let rest = entries.drop_last();
        lemma_highest_available_end(rest);
        assert forall|k: int|
            0 <= k < entries.len() && (#[trigger] entries[k]).mem_type == MemoryType::Available
                implies entries[k].extent.end() <= highest_available_end(entries) by {
            if k < rest.len() {
                assert(rest[k] == entries[k]);
            }
        }
    }
}

/// The entries of type `t` are exactly those of `entries` that have type
/// `t`.
pub proof fn lemma_entries_of_type_contains(entries: Seq<MapEntry>, t: MemoryType, x: MapEntry)
    ensures
        entries_of_type(entries, t).contains(x) <==> (entries.contains(x) && x.mem_type == t),
    decreases entries.len(),
{
    if entries.len() > 0 {
        let rest = entries.drop_last();
        let e = entries.last();
        let sub = entries_of_type(rest, t);
        lemma_entries_of_type_contains(rest, t, x);
        if entries.contains(x) {
            let k = choose|k: int| 0 <= k < entries.len() && entries[k] == x;
            if k < rest.len() {
                assert(rest[k] == x);
            }
        }
        if rest.contains(x) {
            let k = choose|k: int| 0 <= k < rest.len() && rest[k] == x;
            assert(entries[k] == x);
        }
        if e.mem_type == t {
            let s = sub.push(e);
            if s.contains(x) {
                let k = choose|k: int| 0 <= k < s.len() && s[k] == x;
                if k < sub.len() {
                    assert(sub[k] == x);
                }
            }
            if sub.contains(x) {
                let k = choose|k: int| 0 <= k < sub.len() && sub[k] == x;
                assert(s[k] == x);
            }
            assert(s[sub.len() as int] == e);
            assert(entries[entries.len() - 1] == e);
        } else {
            assert(entries[entries.len() - 1] == e);
        }
    }
}

/// The aligned interiors that `map_frames` keeps are non-empty and end no
/// higher than the entries do.
pub proof fn lemma_map_frames_bound(entries: Seq<MapEntry>, h: int)
    requires
        forall|k: int| 0 <= k < entries.len() ==> (#[trigger] entries[k]).extent.end() <= h,
    ensures
        forall|k: int|
            0 <= k < map_frames(entries).len() ==> 0 <= (#[trigger] map_frames(entries)[k]).0 < map_frames(
                entries,
            )[k].1 <= h,
    decreases entries.len(),
{
    if entries.len() > 0 {
        let rest = entries.drop_last();
        assert forall|k: int| 0 <= k < rest.len() implies (#[trigger] rest[k]).extent.end() <= h by {
            assert(rest[k] == entries[k]);
        }
        lemma_map_frames_bound(rest, h);
        let e = entries.last().extent;
        assert(entries[entries.len() - 1].extent == e);
        crate::memory::addr::lemma_align_down_bounds(e.end(), 4096);
        crate::memory::addr::lemma_align_down_bounds(e.start() + 4095, 4096);
        let m = map_frames(entries);
        let mr = map_frames(rest);
        assert forall|k: int| 0 <= k < m.len() implies 0 <= (#[trigger] m[k]).0 < m[k].1 <= h by {
            if k < mr.len() {
                assert(m[k] == mr[k]);
            }
        }
    }
}

/// A frame lies in one of the aligned interiors that `map_frames` keeps
/// exactly when it lies wholly inside one of the entries.
pub proof fn lemma_map_frames_hold(entries: Seq<MapEntry>, i: int)
    requires
        i >= 0,
    ensures
        (exists|k: int|
            0 <= k < map_frames(entries).len() && (#[trigger] map_frames(entries)[k]).0 <= 4096 * i
                < map_frames(entries)[k].1) <==> (exists|k: int|
            0 <= k < entries.len() && entry_holds_frame(#[trigger] entries[k], i)),
    decreases entries.len(),
{
    if entries.len() > 0 {
        let rest = entries.drop_last();
        let e = entries.last();
        let m = map_frames(entries);
        let mr = map_frames(rest);
        lemma_map_frames_hold(rest, i);
        let p = 4096 * i;
        vstd::arithmetic::div_mod::lemma_mod_multiples_basic(i, 4096);
        assert(p % 4096 == 0);
        let lo = align_up_spec(e.extent.start(), 4096);
        let hi = align_down_spec(e.extent.end(), 4096);
        crate::memory::addr::lemma_align_down_bounds(e.extent.end(), 4096);
        crate::memory::addr::lemma_align_down_bounds(e.extent.start() + 4095, 4096);
        // The last entry holds the frame exactly when its aligned interior
        // does.
        assert(entry_holds_frame(e, i) <==> (lo < hi && lo <= p < hi)) by {
            if entry_holds_frame(e, i) {
                crate::memory::addr::lemma_align_up_is_least(e.extent.start(), 4096, p);
                crate::memory::addr::lemma_align_down_is_greatest(e.extent.end(), 4096, p + 4096);
            }
            if lo < hi && lo <= p < hi {
                crate::memory::addr::lemma_multiples_gap(p, hi, 4096);
            }
        }
        if exists|k: int| 0 <= k < m.len() && (#[trigger] m[k]).0 <= p < m[k].1 {
            let k = choose|k: int| 0 <= k < m.len() && (#[trigger] m[k]).0 <= p < m[k].1;
            if k < mr.len() {
                assert(mr[k] == m[k]);
                let j = choose|j: int| 0 <= j < rest.len() && entry_holds_frame(#[trigger] rest[j], i);
                assert(entries[j] == rest[j]);
            } else {
                assert(entries[entries.len() - 1] == e);
            }
        }
        if exists|k: int| 0 <= k < entries.len() && entry_holds_frame(#[trigger] entries[k], i) {
            let k = choose|k: int| 0 <= k < entries.len() && entry_holds_frame(#[trigger] entries[k], i);
            if k < rest.len() {
                assert(rest[k] == entries[k]);
                let j = choose|j: int| 0 <= j < mr.len() && (#[trigger] mr[j]).0 <= p < mr[j].1;
                assert(m[j] == mr[j]);
            } else {
                assert(m[mr.len() as int] == (lo, hi));
            }
        }
    }
}

} // verus!

verus! {

/// Each extent starts before the next one and does not meet it.
pub open spec fn sorted_and_nonoverlapping<Type: AddressType>(blocks: Seq<Extent<Type>>) -> bool {
    forall|i: int|
        0 <= i < blocks.len() - 1 ==> (#[trigger] blocks[i]).start() < blocks[i + 1].start()
            && !overlap_exists(blocks[i], blocks[i + 1])
}

/// Whether each extent of `blocks` starts before the next one and does not
/// meet it.
pub fn is_sorted_and_nonoverlapping<Type: AddressType>(blocks: &[Extent<Type>]) -> (r: bool)
    ensures
        r == sorted_and_nonoverlapping(blocks@),
{
    let n = blocks.len();
    let mut i: usize = 0;
    while n - i >= 2
        invariant
            n == blocks@.len(),
            i <= n,
            forall|k: int|
                0 <= k < i ==> (#[trigger] blocks@[k]).start() < blocks@[k + 1].start()
                    && !overlap_exists(blocks@[k], blocks@[k + 1]),
        decreases blocks@.len() - i,
    {
        let cur = blocks[i];
        let next = blocks[i + 1];
        if cur.address().as_raw() >= next.address().as_raw() {
            return false;
        }
        if cur.has_overlap(next) {
            return false;
        }
        i = i + 1;
    }
    true
}


/// Given `blocks`, sorted and non-overlapping extents of available memory,
/// cut out the `holes` (sorted and non-overlapping too) and return what is
/// left, block by block and in order. A block may split into several
/// pieces. Every extent must be non-empty with a representable last
/// address.
pub fn remove_reserved(blocks: &[PhysExtent], holes: &[PhysExtent]) -> (r: Vec<PhysExtent>)
    requires
        sorted_blocks(extent_intervals(blocks@)),
        forall|i: int|
            0 <= i < blocks@.len() ==> (#[trigger] blocks@[i]).length@ != 0 && blocks@[i].end()
                <= u64_max() + 1,
        forall|i: int|
            0 <= i < holes@.len() ==> (#[trigger] holes@[i]).length@ != 0 && holes@[i].end()
                <= u64_max() + 1,
    ensures
        extent_intervals(r@) == reserved(extent_intervals(blocks@), extent_intervals(holes@)),
{
    let b = to_physmem_extents(blocks);
    let h = to_physmem_extents(holes);
    let pieces = reserve(&b, &h);
    let mut out: Vec<PhysExtent> = Vec::new();
    let mut i: usize = 0;
    while i < pieces.len()
        invariant
            i <= pieces@.len(),
            out@.len() == i,
            forall|k: int| 0 <= k < i ==> (#[trigger] out@[k]).start() == pieces@[k].start()
                && out@[k].end() == pieces@[k].end(),
        decreases pieces@.len() - i,
    {
        let p = pieces[i];
        out.push(
            Extent {
                address: Address::from_raw(p.address.as_raw()),
                length: Length::from_raw(p.length.as_raw()),
            },
        );
        i = i + 1;
    }
    assert(extent_intervals(out@) =~= intervals(pieces@));
    out
}

/// The same extents as `physmem` extents.
fn to_physmem_extents(s: &[PhysExtent]) -> (r: Vec<crate::physmem::Extent>)
    requires
        forall|i: int|
            0 <= i < s@.len() ==> (#[trigger] s@[i]).length@ != 0 && s@[i].end() <= u64_max() + 1,
    ensures
        intervals(r@) == extent_intervals(s@),
        forall|i: int| 0 <= i < r@.len() ==> (#[trigger] r@[i]).has_last(),
{
    let mut out: Vec<crate::physmem::Extent> = Vec::new();
    let mut i: usize = 0;
    while i < s.len()
        invariant
            i <= s@.len(),
            out@.len() == i,
            forall|k: int|
                0 <= k < s@.len() ==> (#[trigger] s@[k]).length@ != 0 && s@[k].end() <= u64_max() + 1,
            forall|k: int| 0 <= k < i ==> (#[trigger] out@[k]).start() == s@[k].start()
                && out@[k].end() == s@[k].end() && out@[k].has_last(),
        decreases s@.len() - i,
    {
        let e = s[i];
        out.push(
            crate::physmem::Extent {
                address: crate::physmem::Address::from_raw(e.address.as_raw()),
                length: crate::physmem::Length::from_raw(e.length.as_raw()),
            },
        );
        i = i + 1;
    }
    assert(intervals(out@) =~= extent_intervals(s@));
    out
}

} // verus!
