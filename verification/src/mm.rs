//! Kernel memory management: the layout of the kernel's virtual address
//! space, translation between physical memory and its kernel mapping, frame
//! allocation, and the steps that set up the frame allocator at boot.

pub mod paging;
pub mod template;

use crate::memory::addr::{
    align_down_spec, align_up_spec, lemma_align_down_bounds, lemma_common_alignments, u64_max,
    Length, PhysAddress, PhysExtent, VirtAddress, VirtExtent,
};
use crate::memory::allocators::phys::{
    aligned_start, frame_index, BitmapFrameAllocator, FrameAllocator,
};
use crate::memory::page::{Frame, FrameRange};
use crate::memory::{MapEntry, MemoryMap, MemoryType};
use vstd::arithmetic::power2::pow2;
use vstd::prelude::*;

verus! {

/// The map of virtual address space. Assigns different ranges to various
/// purposes.
pub struct VirtualMap;

/// Where the mapping of all physical memory starts.
pub const PHYS_MAP_BASE: u64 = 0xffff_8000_0000_0000;

/// The most physical memory the kernel supports: exactly 128 GiB.
pub const MAX_MEMORY: u64 = 0x20_0000_0000;

impl VirtualMap {
    /// The first MiB is identity mapped and not available for other mappings.
    pub fn first_mib() -> (r: VirtExtent)
        ensures
            r.start() == 0,
            r.end() == 0x10_0000,
    {
        VirtExtent::from_raw(0, 1024 * 1024)
    }

    /// Range of all user virtual address space: almost all of the lower
    /// half, from the end of the first MiB, which other mappings must leave
    /// alone, up to `2^47`.
    pub fn user() -> (r: VirtExtent)
        ensures
            r.start() == 0x10_0000,
            r.end() == 0x0000_8000_0000_0000,
    {
        VirtExtent::from_raw_range_exclusive(
            Self::first_mib().end_address().as_raw(),
            0x0000_8000_0000_0000,
        )
    }

    /// Mapping of all physical memory in kernel space: `2^40` bytes from the
    /// start of the higher half.
    pub fn phys_map() -> (r: VirtExtent)
        ensures
            r.start() == PHYS_MAP_BASE,
            r.end() == PHYS_MAP_BASE + 0x100_0000_0000,
    {
        VirtExtent::from_raw_range_exclusive(0xffff_8000_0000_0000, 0xffff_8100_0000_0000)
    }

    /// Kernel image's address: the last 2 GiB of memory.
    pub fn kernel_image() -> (r: VirtExtent)
        ensures
            r.start() == 0xffff_ffff_8000_0000,
            r.end() == 0x1_0000_0000_0000_0000,
    {
        VirtExtent::from_range_inclusive(
            VirtAddress::from_raw(0xffff_ffff_8000_0000),
            VirtAddress::from_raw(0xffff_ffff_ffff_ffff),
        )
    }
}

/// Get a kernel space virtual address corresponding to a physical memory
/// address, which must lie in the memory the kernel supports.
///
/// The address is suitable but not necessarily safe for dereferencing: the
/// memory behind it may back another mapping, or be memory-mapped I/O.
pub fn phys_to_virt(phys: PhysAddress) -> (r: VirtAddress)
    requires
        phys@ < MAX_MEMORY,
    ensures
        r@ == PHYS_MAP_BASE + phys@,
{
    let base = VirtualMap::phys_map().address();
    base.add_length(phys.sub_address(PhysAddress::zero()))
}

/// Get a kernel space virtual extent corresponding to a non-empty physical
/// memory extent. The same cautions as for `phys_to_virt` apply.
pub fn phys_extent_to_virt(phys: PhysExtent) -> (r: VirtExtent)
    requires
        phys.start() < MAX_MEMORY,
        phys.length@ != 0,
        PHYS_MAP_BASE + phys.end() <= u64_max(),
    ensures
        r.start() == PHYS_MAP_BASE + phys.start(),
        r.end() == PHYS_MAP_BASE + phys.end(),
{
    VirtExtent::new(phys_to_virt(phys.address()), phys.length())
}

/// Given an address `virt_addr` in the kernel image, at or above the base
/// `kernel_virt_base` it was loaded at, the physical address it refers to.
pub fn kernel_ptr_to_phys_addr(virt_addr: VirtAddress, kernel_virt_base: VirtAddress) -> (r:
    PhysAddress)
    requires
        virt_addr@ >= kernel_virt_base@,
    ensures
        r@ == virt_addr@ - kernel_virt_base@,
{
    PhysAddress::from_zero(virt_addr.sub_address(kernel_virt_base))
}

/// Allocate `2^order` frames, aligned to their size, from `allocator`.
pub fn allocate_frames(allocator: &mut BitmapFrameAllocator, order: usize) -> (r: Option<FrameRange>)
    requires
        old(allocator).wf(),
        order <= 24,
    ensures
        final(allocator).wf(),
        final(allocator).frame_count() == old(allocator).frame_count(),
        r matches Some(range) ==> {
            &&& range@.1 == pow2(order as nat)
            &&& (range@.0 as int / 4096) % pow2(order as nat) as int == 0
            &&& forall|i: int|
                #[trigger] crate::memory::allocators::phys::in_range(range, i) ==> old(allocator).frame_free(i) && !final(allocator).frame_free(i)
            &&& forall|i: int|
                !crate::memory::allocators::phys::in_range(range, i) ==> #[trigger] final(allocator).frame_free(i) == old(allocator).frame_free(i)
        },
        r is None ==> forall|i: int| #[trigger]
            final(allocator).frame_free(i) == old(allocator).frame_free(i),
        r is None ==> forall|g: int|
            #[trigger] aligned_start(g, pow2(order as nat) as int) ==> exists|k: int|
                0 <= k < pow2(order as nat) && !#[trigger] old(allocator).frame_free(g + k),
        r matches Some(range) ==> forall|g: int|
            #[trigger] aligned_start(g, pow2(order as nat) as int) && g < range@.0 as int / 4096
                ==> exists|k: int|
                0 <= k < pow2(order as nat) && !#[trigger] old(allocator).frame_free(g + k),
{
    allocator.allocate_range(order)
}

/// Allocate one frame from `allocator`.
pub fn allocate_frame(allocator: &mut BitmapFrameAllocator) -> (r: Option<Frame>)
    requires
        old(allocator).wf(),
    ensures
        final(allocator).wf(),
        final(allocator).frame_count() == old(allocator).frame_count(),
        r matches Some(f) ==> {
            &&& old(allocator).frame_free(frame_index(f))
            &&& !final(allocator).frame_free(frame_index(f))
            &&& forall|i: int|
                i != frame_index(f) ==> #[trigger] final(allocator).frame_free(i) == old(allocator).frame_free(i)
        },
        r is None ==> forall|i: int| #[trigger]
            final(allocator).frame_free(i) == old(allocator).frame_free(i),
        r is None ==> forall|i: int| 0 <= i ==> !#[trigger] old(allocator).frame_free(i),
        r matches Some(f) ==> forall|i: int|
            0 <= i < frame_index(f) ==> !#[trigger] old(allocator).frame_free(i),
{
    match allocate_frames(allocator, 0) {
        Some(range) => {
            let f = range.first();
            proof {
                vstd::arithmetic::power2::lemma2_to64();
                assert(crate::memory::allocators::phys::in_range(range, frame_index(f)));
                assert forall|i: int| i != frame_index(f) implies !crate::memory::allocators::phys::in_range(range, i) by {}
                assert forall|i: int| 0 <= i < frame_index(f) implies !#[trigger] old(
                    allocator,
                ).frame_free(i) by {
                    assert(aligned_start(i, 1));
                    let k = choose|k: int| 0 <= k < 1 && !#[trigger] old(allocator).frame_free(i + k);
                    assert(k == 0);
                }
            }
            Some(f)
        },
        None => {
            proof {
                vstd::arithmetic::power2::lemma2_to64();
                assert forall|i: int| 0 <= i implies !#[trigger] old(allocator).frame_free(i) by {
                    assert(aligned_start(i, 1));
                    let k = choose|k: int| 0 <= k < 1 && !#[trigger] old(allocator).frame_free(i + k);
                    assert(k == 0);
                }
            }
            None
        },
    }
}

/// An exclusively owned frame range; its owner gives the frames back to the
/// allocator when done with them.
pub struct OwnedFrameRange {
    frames: FrameRange,
}

impl OwnedFrameRange {
    pub fn frames(&self) -> (r: FrameRange)
        ensures
            r == self.spec_frames(),
    {
        self.frames
    }

    /// The frames owned.
    pub closed spec fn spec_frames(&self) -> FrameRange {
        self.frames
    }
}

/// Allocate `2^order` frames from `allocator` and take ownership of them.
pub fn allocate_owned_frames(allocator: &mut BitmapFrameAllocator, order: usize) -> (r: Option<
    OwnedFrameRange,
>)
    requires
        old(allocator).wf(),
        order <= 24,
    ensures
        final(allocator).wf(),
        final(allocator).frame_count() == old(allocator).frame_count(),
        r matches Some(owned) ==> {
            &&& owned.spec_frames()@.1 == pow2(order as nat)
            &&& forall|i: int|
                #[trigger] crate::memory::allocators::phys::in_range(owned.spec_frames(), i) ==> old(allocator).frame_free(i) && !final(allocator).frame_free(i)
            &&& forall|i: int|
                !crate::memory::allocators::phys::in_range(owned.spec_frames(), i) ==> #[trigger] final(allocator).frame_free(i) == old(allocator).frame_free(i)
        },
        r is None ==> forall|i: int| #[trigger]
            final(allocator).frame_free(i) == old(allocator).frame_free(i),
        r is None ==> forall|g: int|
            #[trigger] aligned_start(g, pow2(order as nat) as int) ==> exists|k: int|
                0 <= k < pow2(order as nat) && !#[trigger] old(allocator).frame_free(g + k),
        r matches Some(owned) ==> forall|g: int|
            #[trigger] aligned_start(g, pow2(order as nat) as int) && g < owned.spec_frames()@.0 as int
                / 4096 ==> exists|k: int|
                0 <= k < pow2(order as nat) && !#[trigger] old(allocator).frame_free(g + k),
{
    match allocate_frames(allocator, order) {
        Some(frames) => Some(OwnedFrameRange { frames }),
        None => None,
    }
}

/// Mark every frame that `extent` touches as used in `allocator`, whether or
/// not it was free: what `init` does with each reserved extent. The extent
/// must not be empty, and the allocator must track every frame it touches.
pub fn reserve_extent(allocator: &mut BitmapFrameAllocator, extent: PhysExtent)
    requires
        old(allocator).wf(),
        extent.length@ != 0,
        extent.end() <= 4096 * old(allocator).frame_count(),
        extent.end() <= u64_max(),
    ensures
        final(allocator).wf(),
        final(allocator).frame_count() == old(allocator).frame_count(),
        forall|i: int|
            extent.start() / 4096 <= i <= (extent.end() - 1) / 4096 ==> !#[trigger] final(allocator).frame_free(i),
        forall|i: int|
            !(extent.start() / 4096 <= i <= (extent.end() - 1) / 4096) ==> #[trigger] final(allocator).frame_free(i) == old(allocator).frame_free(i),
{
    proof {
        lemma_align_down_bounds(extent.start(), 4096);
        lemma_align_down_bounds(extent.end() - 1, 4096);
        crate::memory::addr::lemma_align_down_is_greatest(
            extent.end() - 1,
            4096,
            align_down_spec(extent.start(), 4096),
        );
    }
    let range = FrameRange::containing_extent(extent);
    let first = range.first().index();
    let count = range.count();
    let ghost lo = extent.start() / 4096;
    let ghost hi = (extent.end() - 1) / 4096;
    assert(first == lo && first + count == hi + 1) by {
        vstd::arithmetic::div_mod::lemma_fundamental_div_mod(extent.start(), 4096);
        vstd::arithmetic::div_mod::lemma_fundamental_div_mod(extent.end() - 1, 4096);
    }
    let mut k: u64 = 0;
    while k < count
        invariant
            allocator.wf(),
            allocator.frame_count() == old(allocator).frame_count(),
            first == lo,
            first + count == hi + 1,
            hi < allocator.frame_count(),
            k <= count,
            forall|i: int| lo <= i < lo + k ==> !#[trigger] allocator.frame_free(i),
            forall|i: int|
                !(lo <= i < lo + k) ==> #[trigger] allocator.frame_free(i) == old(allocator).frame_free(i),
        decreases count - k,
    {
        let index = first + k;
        assert(index * 4096 <= u64_max()) by (nonlinear_arith)
            requires
                index < allocator.frame_count(),
                allocator.frame_count() <= 8 * crate::memory::allocators::phys::MAX_BITMAP_BYTES,
        ;
        let frame = Frame::new(PhysAddress::from_raw(index * 4096));
        assert(frame_index(frame) == index) by (nonlinear_arith)
            requires
                frame@ == index * 4096,
        ;
        let _ = allocator.reserve(frame);
        k = k + 1;
    }
}

/// The frames that the map's entries touch, entry by entry.
pub open spec fn touched_frames(entries: Seq<MapEntry>) -> int
    decreases entries.len(),
{
    if entries.len() == 0 {
        0
    } else {
        let e = entries.last().extent;
        touched_frames(entries.drop_last()) + ((e.end() - 1) / 4096 - e.start() / 4096 + 1)
    }
}

/// How many frames `init` sets aside for the bootstrap allocator, which
/// holds the kernel's first page tables: one for every 256 frames of memory,
/// a generous overestimate since each leaf table maps 512 pages. Every entry
/// must be non-empty and end at a representable address.
pub fn init_alloc_frame_count(memory_map: &MemoryMap) -> (r: u64)
    requires
        forall|k: int|
            0 <= k < memory_map@.len() ==> (#[trigger] memory_map@[k]).extent.length@ != 0
                && memory_map@[k].extent.end() <= u64_max(),
    ensures
        r == touched_frames(memory_map@) / 256,
{
    let entries = memory_map.entries();
    let mut total: u64 = 0;
    let mut i: usize = 0;
    while i < entries.len()
        invariant
            i <= entries@.len(),
            entries@.len() <= 128,
            entries@ == memory_map@,
            forall|k: int|
                0 <= k < entries@.len() ==> (#[trigger] entries@[k]).extent.length@ != 0
                    && entries@[k].extent.end() <= u64_max(),
            total == touched_frames(entries@.subrange(0, i as int)),
            total <= i * 0x10_0000_0000_0000,
        decreases entries@.len() - i,
    {
        assert(entries@.subrange(0, i + 1).drop_last() =~= entries@.subrange(0, i as int));
        let e = entries[i].extent;
        proof {
            lemma_align_down_bounds(e.start(), 4096);
            lemma_align_down_bounds(e.end() - 1, 4096);
            crate::memory::addr::lemma_align_down_is_greatest(
                e.end() - 1,
                4096,
                align_down_spec(e.start(), 4096),
            );
        }
        let range = FrameRange::containing_extent(e);
        let count = range.count();
        assert(count == (e.end() - 1) / 4096 - e.start() / 4096 + 1) by {
            vstd::arithmetic::div_mod::lemma_fundamental_div_mod(e.start(), 4096);
            vstd::arithmetic::div_mod::lemma_fundamental_div_mod(e.end() - 1, 4096);
        }
        assert(count <= 0x10_0000_0000_0000);
        total = total + count;
        i = i + 1;
    }
    assert(entries@.subrange(0, entries@.len() as int) =~= entries@);
    total / 256
}

/// The index of the first entry, from `from` on, that starts at or above
/// 1 MiB; the number of entries if there is none.
pub open spec fn first_high_entry(entries: Seq<MapEntry>, from: int) -> int
    decreases entries.len() - from,
{
    if from < 0 || from >= entries.len() {
        entries.len() as int
    } else if entries[from].extent.start() >= 0x10_0000 {
        from
    } else {
        first_high_entry(entries, from + 1)
    }
}

/// The number of whole frames inside `e`.
pub open spec fn whole_frames(e: MapEntry) -> int {
    let lo = align_up_spec(e.extent.start(), 4096);
    let hi = align_down_spec(e.extent.end(), 4096);
    if lo < hi {
        (hi - lo) / 4096
    } else {
        0
    }
}

/// The entry `init` takes its bootstrap frames from: the first `Available`
/// one, from `from` on, with at least `count` whole frames. The search
/// fails at an `Available` entry with no whole frame at all.
pub open spec fn init_entry(entries: Seq<MapEntry>, from: int, count: int) -> Option<int>
    decreases entries.len() - from,
{
    if from < 0 || from >= entries.len() {
        None
    } else if entries[from].mem_type == MemoryType::Available {
        if whole_frames(entries[from]) == 0 {
            None
        } else if whole_frames(entries[from]) >= count {
            Some(from)
        } else {
            init_entry(entries, from + 1, count)
        }
    } else {
        init_entry(entries, from + 1, count)
    }
}

/// The first entry at or above 1 MiB: every entry before it starts below
/// 1 MiB, and it starts at or above 1 MiB unless the map has no such entry.
pub proof fn lemma_first_high_entry(entries: Seq<MapEntry>, from: int)
    requires
        0 <= from <= entries.len(),
    ensures
        from <= first_high_entry(entries, from) <= entries.len(),
        forall|j: int|
            from <= j < first_high_entry(entries, from) ==> (#[trigger] entries[j]).extent.start()
                < 0x10_0000,
        first_high_entry(entries, from) < entries.len() ==> entries[first_high_entry(
            entries,
            from,
        )].extent.start() >= 0x10_0000,
    decreases entries.len() - from,
{
    if from < entries.len() && entries[from].extent.start() < 0x10_0000 {
        lemma_first_high_entry(entries, from + 1);
    }
}

/// The bootstrap frames come from an `Available` entry with enough whole
/// frames, the first such one from `from` on: every `Available` entry
/// before it has some whole frames, but too few.
pub proof fn lemma_init_entry_is_first_fit(entries: Seq<MapEntry>, from: int, count: int, k: int)
    requires
        0 <= from,
        init_entry(entries, from, count) == Some(k),
    ensures
        from <= k < entries.len(),
        entries[k].mem_type == MemoryType::Available,
        whole_frames(entries[k]) >= count,
        forall|j: int|
            from <= j < k && (#[trigger] entries[j]).mem_type == MemoryType::Available ==> 0
                < whole_frames(entries[j]) < count,
    decreases entries.len() - from,
{
    if !(entries[from].mem_type == MemoryType::Available && whole_frames(entries[from]) >= count) {
        lemma_init_entry_is_first_fit(entries, from + 1, count, k);
    }
}

/// When the search for the bootstrap entry finds none, every `Available`
/// entry from `from` on with enough whole frames lies past an `Available`
/// one with no whole frame at all.
pub proof fn lemma_init_entry_none(entries: Seq<MapEntry>, from: int, count: int, j: int) -> (i: int)
    requires
        0 <= from <= j < entries.len(),
        init_entry(entries, from, count) is None,
        entries[j].mem_type == MemoryType::Available,
        whole_frames(entries[j]) >= count,
        count >= 1,
    ensures
        from <= i < j,
        entries[i].mem_type == MemoryType::Available,
        whole_frames(entries[i]) == 0,
    decreases j - from,
{
    if entries[from].mem_type == MemoryType::Available && whole_frames(entries[from]) == 0 {
        from
    } else {
        lemma_init_entry_none(entries, from + 1, count, j)
    }
}

/// Set aside `count` frames for the bootstrap allocator, as `init` does: in
/// the first `Available` entry past the first MiB (counted from the first
/// entry that starts at or above 1 MiB) with enough whole frames, take its
/// first `count` whole frames, and shrink the entry to start just past them.
/// Returns the entry's index and the frames, or `None`, leaving the map
/// unchanged, when there is no such entry (`init` cannot go on then).
pub fn take_init_frames(memory_map: &mut MemoryMap, count: u64) -> (r: Option<(usize, FrameRange)>)
    requires
        count >= 1,
        forall|k: int|
            0 <= k < old(memory_map)@.len() ==> (#[trigger] old(memory_map)@[k]).extent.end()
                <= u64_max(),
    ensures
        final(memory_map)@.len() == old(memory_map)@.len(),
        match r {
            Some((k, range)) => {
                let e = old(memory_map)@[k as int];
                let high = first_high_entry(old(memory_map)@, 0);
                &&& init_entry(old(memory_map)@, first_high_entry(old(memory_map)@, 0), count as int)
                    == Some(k as int)
                &&& e.mem_type == MemoryType::Available
                &&& whole_frames(e) >= count
                &&& high <= k
                &&& forall|j: int| 0 <= j < high ==> (#[trigger] old(memory_map)@[j]).extent.start() < 0x10_0000
                &&& old(memory_map)@[high].extent.start() >= 0x10_0000
                &&& forall|j: int|
                    high <= j < k && (#[trigger] old(memory_map)@[j]).mem_type
                        == MemoryType::Available ==> 0 < whole_frames(old(memory_map)@[j]) < count
                &&& range@ == (align_up_spec(e.extent.start(), 4096) as u64, count)
                &&& final(memory_map)@[k as int].mem_type == e.mem_type
                &&& final(memory_map)@[k as int].extent.start() == range.last_start() + 4096
                &&& final(memory_map)@[k as int].extent.end() == e.extent.end()
                &&& forall|j: int|
                    0 <= j < old(memory_map)@.len() && j != k ==> #[trigger] final(memory_map)@[j]
                        == old(memory_map)@[j]
            },
            None => {
                let high = first_high_entry(old(memory_map)@, 0);
                &&& init_entry(old(memory_map)@, first_high_entry(old(memory_map)@, 0), count as int)
                    is None
                &&& forall|j: int| 0 <= j < high ==> (#[trigger] old(memory_map)@[j]).extent.start() < 0x10_0000
                &&& high < old(memory_map)@.len() ==> old(memory_map)@[high].extent.start() >= 0x10_0000
                &&& forall|j: int|
                    high <= j < old(memory_map)@.len() && (#[trigger] old(memory_map)@[j]).mem_type
                        == MemoryType::Available && whole_frames(old(memory_map)@[j]) >= count
                        ==> exists|i: int|
                        high <= i < j && (#[trigger] old(memory_map)@[i]).mem_type
                            == MemoryType::Available && whole_frames(old(memory_map)@[i]) == 0
                &&& final(memory_map)@ == old(memory_map)@
            },
        },
{
    let entries = memory_map.entries();
    let ghost es = entries@;
    let n = entries.len();
    let mut i: usize = 0;
    while i < n && entries[i].extent.address().as_raw() < 1024 * 1024
        invariant
            n == es.len(),
            entries@ == es,
            es == old(memory_map)@,
            *memory_map == *old(memory_map),
            i <= n,
            first_high_entry(es, i as int) == first_high_entry(es, 0),
        decreases n - i,
    {
        i = i + 1;
    }
    assert(first_high_entry(es, i as int) == i);
    loop
        invariant
            n == es.len(),
            entries@ == es,
            es == old(memory_map)@,
            *memory_map == *old(memory_map),
            i <= n,
            count >= 1,
            forall|k: int| 0 <= k < es.len() ==> (#[trigger] es[k]).extent.end() <= u64_max(),
            init_entry(es, i as int, count as int) == init_entry(
                es,
                first_high_entry(es, 0),
                count as int,
            ),
        decreases n - i,
    {
        proof {
            let high = first_high_entry(es, 0);
            lemma_first_high_entry(es, 0);
            if init_entry(es, high, count as int) is Some {
                lemma_init_entry_is_first_fit(es, high, count as int, init_entry(es, high, count as int)->0);
            } else {
                assert forall|j: int|
                    high <= j < es.len() && (#[trigger] es[j]).mem_type == MemoryType::Available
                        && whole_frames(es[j]) >= count implies exists|i: int|
                    high <= i < j && (#[trigger] es[i]).mem_type == MemoryType::Available
                        && whole_frames(es[i]) == 0 by {
                    let i = lemma_init_entry_none(es, high, count as int, j);
                    assert(es[i].mem_type == MemoryType::Available);
                }
            }
        }
        if i == n {
            return None;
        }
        let e = entries[i];
        if e.mem_type == MemoryType::Available {
            match FrameRange::contained_by_extent(e.extent) {
                None => {
                    proof {
                        lemma_align_down_bounds(e.extent.end(), 4096);
                        lemma_align_down_bounds(e.extent.start() + 4095, 4096);
                        assert(whole_frames(e) == 0);
                    }
                    return None;
                },
                Some(contained) => {
                    let have = contained.count();
                    assert(have == whole_frames(e)) by {
                        lemma_align_down_bounds(e.extent.end(), 4096);
                        lemma_align_down_bounds(e.extent.start() + 4095, 4096);
                    }
                    if have >= count {
                        let first = contained.first();
                        let taken = match FrameRange::new(first, count) {
                            Some(t) => t,
                            None => {
                                assert(false);
                                return None;
                            },
                        };
                        let rest_start = match taken.end() {
                            Some(f) => f.start(),
                            None => {
                                assert(false);
                                return None;
                            },
                        };
                        let new_entry = MapEntry {
                            extent: PhysExtent::from_range_exclusive(
                                rest_start,
                                e.extent.end_address(),
                            ),
                            mem_type: e.mem_type,
                        };
                        memory_map.set_entry(i, new_entry);
                        return Some((i, taken));
                    }
                },
            }
        }
        i = i + 1;
    }
}

/// Give the frames that the bootstrap allocator did not use back to entry
/// `index` of the map: the entry then starts at the first of them.
pub fn give_back_init_frames(memory_map: &mut MemoryMap, index: usize, remain: FrameRange)
    requires
        index < old(memory_map)@.len(),
        remain.first_start() <= old(memory_map)@[index as int].extent.end() <= u64_max(),
    ensures
        final(memory_map)@.len() == old(memory_map)@.len(),
        final(memory_map)@[index as int].extent.start() == remain.first_start(),
        final(memory_map)@[index as int].extent.end() == old(memory_map)@[index as int].extent.end(),
        final(memory_map)@[index as int].mem_type == old(memory_map)@[index as int].mem_type,
        forall|j: int|
            0 <= j < old(memory_map)@.len() && j != index ==> #[trigger] final(memory_map)@[j]
                == old(memory_map)@[j],
{
    let e = memory_map.entries()[index];
    let extent = PhysExtent::from_range_exclusive(remain.first().start(), e.extent.end_address());
    memory_map.set_entry(index, MapEntry { extent, mem_type: e.mem_type });
}

} // verus!
