//! Physical frame allocators: a bump allocator over a range of frames, and a
//! bitmap allocator with one bit per frame.

use crate::memory::addr::{u64_max, PhysAddress};
use vstd::arithmetic::power2::pow2;
use crate::memory::page::{Frame, FrameRange, PAGE_SIZE};
use crate::memory::{
    entries_of_type, entry_holds_frame, frame_available, frame_runs, highest_available_end,
    iter_map_frames, lemma_entries_of_type_contains, lemma_highest_available_end,
    lemma_map_frames_bound, lemma_map_frames_hold, map_frames, MemoryMap, MemoryType,
};
use vstd::prelude::*;

verus! {

/// Bit `b` (0 for the least significant) of `byte` is set.
pub open spec fn bit_set(byte: u8, b: u8) -> bool {
    (byte >> b) & 1u8 == 1u8
}

proof fn lemma_lsb_bit(n: u8, b: u8)
    by (bit_vector)
    requires
        0 < n < 8,
        b < 8,
    ensures
        ((0xffu8 >> ((8u8 - n) as u8)) >> b) & 1u8 == 1u8 <==> b < n,
{
}

proof fn lemma_all_bits(b: u8)
    by (bit_vector)
    requires
        b < 8,
    ensures
        (0xffu8 >> b) & 1u8 == 1u8,
        !((0u8 >> b) & 1u8 == 1u8),
{
}

/// A byte with its `num_bits` lowest bits set and all others clear (all of
/// them for 8 or more).
pub fn set_least_significant_bits(num_bits: u8) -> (r: u8)
    ensures
        forall|b: u8| b < 8 ==> (bit_set(r, b) <==> b < num_bits),
{
    if num_bits == 0 {
        proof {
            assert forall|b: u8| b < 8 implies (bit_set(0u8, b) <==> b < num_bits) by {
                lemma_all_bits(b);
            }
        }
        0
    } else if num_bits < 8 {
        let r = u8::MAX >> (8 - num_bits);
        proof {
            assert forall|b: u8| b < 8 implies (bit_set(r, b) <==> b < num_bits) by {
                lemma_lsb_bit(num_bits, b);
            }
        }
        r
    } else {
        proof {
            assert forall|b: u8| b < 8 implies (bit_set(0xffu8, b) <==> b < num_bits) by {
                lemma_all_bits(b);
            }
        }
        u8::MAX
    }
}

proof fn lemma_and_not_bit(x: u8, y: u8, b: u8)
    by (bit_vector)
    requires
        b < 8,
    ensures
        ((x & !y) >> b) & 1u8 == 1u8 <==> ((x >> b) & 1u8 == 1u8 && !((y >> b) & 1u8 == 1u8)),
        ((x | y) >> b) & 1u8 == 1u8 <==> ((x >> b) & 1u8 == 1u8 || (y >> b) & 1u8 == 1u8),
        ((x & y) >> b) & 1u8 == 1u8 <==> ((x >> b) & 1u8 == 1u8 && (y >> b) & 1u8 == 1u8),
{
}

/// A byte with bits `lo..hi` set and all others clear. `lo <= hi <= 8`; an
/// empty range yields `0`.
pub fn set_bit_range(lo: u8, hi: u8) -> (r: u8)
    requires
        lo <= hi <= 8,
    ensures
        forall|b: u8| b < 8 ==> (bit_set(r, b) <==> lo <= b < hi),
{
    let high = set_least_significant_bits(hi);
    let low = set_least_significant_bits(lo);
    let r = high & !low;
    proof {
        assert forall|b: u8| b < 8 implies (bit_set(r, b) <==> lo <= b < hi) by {
            lemma_and_not_bit(high, low, b);
            assert(bit_set(high, b) <==> b < hi);
            assert(bit_set(low, b) <==> b < lo);
        }
    }
    r
}

proof fn lemma_group_mask_nonzero(len8: u8)
    by (bit_vector)
    requires
        len8 == 1 || len8 == 2 || len8 == 4,
    ensures
        (1u8 << len8) >= 1u8,
{
}

/// The `len` bits of `byte` from bit `off` on are all set.
pub open spec fn run_set(byte: u8, off: u8, len: u8) -> bool {
    forall|k: u8| k < len ==> #[trigger] bit_set(byte, (off + k) as u8)
}

proof fn lemma_group_bits(byte: u8, s: u8, len: u8)
    by (bit_vector)
    requires
        len == 1 || len == 2 || len == 4,
        s + len <= 8,
    ensures
        ((byte & ((((1u8 << len) - 1u8) as u8) << s)) >> s == (((1u8 << len) - 1u8) as u8)) <==> (
        (byte >> s) & 1u8 == 1u8 && (len >= 2 ==> (byte >> ((s + 1u8) as u8)) & 1u8 == 1u8) && (len
            >= 4 ==> (byte >> ((s + 2u8) as u8)) & 1u8 == 1u8 && (byte >> ((s + 3u8) as u8)) & 1u8
            == 1u8)),
{
}

/// The group test `find_bit_group` makes at offset `s` is exactly "the `len`
/// bits from `s` on are set".
proof fn lemma_group_test(byte: u8, s: u8, len: u8)
    requires
        len == 1 || len == 2 || len == 4,
        s + len <= 8,
    ensures
        ((byte & ((((1u8 << len) - 1u8) as u8) << s)) >> s == (((1u8 << len) - 1u8) as u8))
            <==> run_set(byte, s, len),
{
    lemma_group_bits(byte, s, len);
    if run_set(byte, s, len) {
        assert(bit_set(byte, (s + 0u8) as u8));
        if len >= 2 {
            assert(bit_set(byte, (s + 1u8) as u8));
        }
        if len >= 4 {
            assert(bit_set(byte, (s + 2u8) as u8));
            assert(bit_set(byte, (s + 3u8) as u8));
        }
    }
    if (byte & ((((1u8 << len) - 1u8) as u8) << s)) >> s == (((1u8 << len) - 1u8) as u8) {
        assert forall|k: u8| k < len implies #[trigger] bit_set(byte, (s + k) as u8) by {
            if k == 0 {
                assert((s + 0u8) as u8 == s);
            }
        }
    }
}

/// Finds `len` set bits in `byte`, aligned to `len`, and returns the offset
/// of the lowest such run from the least significant bit. `len` must be 1, 2
/// or 4.
///
/// Example: `len` is 2, will match the following bytes (where x any bit):
/// - 0bxxxxxx11 -> Some(0)
/// - 0bxxxx1100 -> Some(2)
/// - 0bxx110000 -> Some(4)
/// - 0b11000000 -> Some(6)
pub fn find_bit_group(byte: u8, len: usize) -> (r: Option<u8>)
    requires
        len == 1 || len == 2 || len == 4,
    ensures
        r matches Some(off) ==> {
            &&& off % len as u8 == 0
            &&& off + len <= 8
            &&& run_set(byte, off, len as u8)
            &&& forall|s: u8| s < off && s % len as u8 == 0 ==> !#[trigger] run_set(byte, s, len as u8)
        },
        r is None ==> forall|s: u8|
            s + len <= 8 && s % len as u8 == 0 ==> !#[trigger] run_set(byte, s, len as u8),
{
    let len8 = len as u8;
    proof {
        lemma_group_mask_nonzero(len8);
    }
    let mask: u8 = (1u8 << len8) - 1;
    let mut shift: u8 = 0;
    while shift < 8
        invariant
            len8 == len,
            len == 1 || len == 2 || len == 4,
            mask == (((1u8 << len8) - 1u8) as u8),
            shift <= 8,
            shift % len8 == 0,
            forall|s: u8| s < shift && s % len8 == 0 ==> !#[trigger] run_set(byte, s, len8),
        decreases 8 - shift,
    {
        assert(shift + len8 <= 8) by (bit_vector)
            requires
                shift < 8,
                shift % len8 == 0,
                len8 == 1 || len8 == 2 || len8 == 4,
        ;
        proof {
            lemma_group_test(byte, shift, len8);
        }
        if (byte & (mask << shift)) >> shift == mask {
            return Some(shift);
        }
        proof {
            assert forall|s: u8| s < shift + len8 && s % len8 == 0 implies !#[trigger] run_set(byte, s, len8) by {
                if s >= shift {
                    assert(s == shift) by (bit_vector)
                        requires
                            s >= shift,
                            s < shift + len8,
                            s % len8 == 0,
                            shift % len8 == 0,
                            len8 == 1 || len8 == 2 || len8 == 4,
                    ;
                }
            }
        }
        shift = shift + len8;
    }
    None
}

/// `x` divided by `divisor`, rounded up.
pub fn ceil_divide(x: u64, divisor: u64) -> (r: u64)
    requires
        divisor > 0,
    ensures
        r == (x + divisor - 1) / divisor as int,
{
    let q = x / divisor;
    let rem = x % divisor;
    proof {
        vstd::arithmetic::div_mod::lemma_fundamental_div_mod(x as int, divisor as int);
        lemma_ceil_div(x as int, divisor as int);
        if rem != 0 {
            assert(q < u64::MAX) by (nonlinear_arith)
                requires
                    x == divisor * q + rem,
                    rem > 0,
                    divisor >= 2,
                    x <= u64::MAX,
            ;
        }
    }
    if rem != 0 {
        q + 1
    } else {
        q
    }
}

proof fn lemma_ceil_div(x: int, d: int)
    requires
        x >= 0,
        d > 0,
    ensures
        (x + d - 1) / d == x / d + (if x % d != 0 {
            1int
        } else {
            0int
        }),
{
    vstd::arithmetic::div_mod::lemma_fundamental_div_mod(x, d);
    vstd::arithmetic::div_mod::lemma_fundamental_div_mod(x + d - 1, d);
    let q = x / d;
    let r = x % d;
    let extra: int = if r != 0 {
        1
    } else {
        0
    };
    assert((x + d - 1) == d * (q + extra) + (r - 1 + d - d * extra)) by (nonlinear_arith)
        requires
            x == d * q + r,
    ;
    assert(0 <= r - 1 + d - d * extra < d);
    vstd::arithmetic::div_mod::lemma_fundamental_div_mod_converse(x + d - 1, d, q + extra, r - 1 + d - d * extra);
}

/// `FrameAllocator` clients may attempt to reserve a specific frame of
/// memory. This can fail for one of the reasons listed below.
#[derive(Clone, Copy, Debug, PartialEq, Eq, Structural, PartialOrd, Ord)]
pub enum FrameReserveError {
    /// The requested frame was either returned by an `allocate` call or
    /// previously reserved
    FrameInUse,
}

/// The index of `frame`: its start address divided by the page size.
pub open spec fn frame_index(frame: Frame) -> int {
    frame@ as int / 4096
}

/// Frame `i` lies in `range`.
pub open spec fn in_range(range: FrameRange, i: int) -> bool {
    range@.0 as int / 4096 <= i < range@.0 as int / 4096 + range@.1
}

/// Frame `g` is a non-negative multiple of `size`: where a run of `size`
/// aligned frames may start.
pub open spec fn aligned_start(g: int, size: int) -> bool {
    0 <= g && g % size == 0
}

/// A physical frame allocator. Its state is which of its frames, numbered
/// from address zero, are free. Allocations return only free frames and mark
/// them used; `reserve` succeeds only on a free frame.
pub trait FrameAllocator {
    /// Frame `index` is free.
    spec fn frame_free(&self, index: int) -> bool;

    /// The allocator tracks frames `0..frame_count()`.
    spec fn frame_count(&self) -> nat;

    spec fn wf(&self) -> bool;

    /// Allocate one frame of physical address space, if available.
    fn allocate(&mut self) -> (r: Option<Frame>)
        requires
            old(self).wf(),
        ensures
            final(self).wf(),
            final(self).frame_count() == old(self).frame_count(),
            r matches Some(f) ==> {
                &&& old(self).frame_free(frame_index(f))
                &&& !final(self).frame_free(frame_index(f))
                &&& forall|i: int|
                    i != frame_index(f) ==> #[trigger] final(self).frame_free(i) == old(self).frame_free(i)
            },
            r is None ==> forall|i: int| #[trigger]
                final(self).frame_free(i) == old(self).frame_free(i),
            r is None ==> forall|i: int| 0 <= i ==> !#[trigger] old(self).frame_free(i),
            r matches Some(f) ==> forall|i: int|
                0 <= i < frame_index(f) ==> !#[trigger] old(self).frame_free(i),
    {
        match self.allocate_range(0) {
            Some(range) => {
                let f = range.first();
                proof {
                    vstd::arithmetic::power2::lemma2_to64();
                    assert(in_range(range, frame_index(f)));
                    assert forall|i: int| i != frame_index(f) implies !in_range(range, i) by {}
                    assert forall|i: int| 0 <= i < frame_index(f) implies !#[trigger] old(
                        self,
                    ).frame_free(i) by {
                        assert(aligned_start(i, 1));
                        let k = choose|k: int| 0 <= k < 1 && !#[trigger] old(self).frame_free(i + k);
                        assert(k == 0);
                    }
                }
                Some(f)
            },
            None => {
                proof {
                    vstd::arithmetic::power2::lemma2_to64();
                    assert forall|i: int| 0 <= i implies !#[trigger] old(self).frame_free(i) by {
                        assert(aligned_start(i, 1));
                        let k = choose|k: int| 0 <= k < 1 && !#[trigger] old(self).frame_free(i + k);
                        assert(k == 0);
                    }
                }
                None
            },
        }
    }

    /// Allocate 2^order frames aligned to 2^order, if available. `order` must
    /// be at most 24 (8 MiB).
    fn allocate_range(&mut self, order: usize) -> (r: Option<FrameRange>)
        requires
            old(self).wf(),
            order <= 24,
        ensures
            final(self).wf(),
            final(self).frame_count() == old(self).frame_count(),
            r matches Some(range) ==> {
                &&& range@.1 == pow2(order as nat)
                &&& (range@.0 as int / 4096) % pow2(order as nat) as int == 0
                &&& range@.0 % 4096 == 0
                &&& forall|i: int|
                    #[trigger] in_range(range, i) ==> old(self).frame_free(i) && !final(self).frame_free(i)
                &&& forall|i: int|
                    !in_range(range, i) ==> #[trigger] final(self).frame_free(i) == old(self).frame_free(i)
            },
            r is None ==> forall|i: int| #[trigger]
                final(self).frame_free(i) == old(self).frame_free(i),
            r matches Some(range) ==> forall|g: int|
                #[trigger] aligned_start(g, pow2(order as nat) as int) && g < range@.0 as int / 4096
                    ==> exists|k: int|
                    0 <= k < pow2(order as nat) && !#[trigger] old(self).frame_free(g + k),
            r is None ==> forall|g: int|
                #[trigger] aligned_start(g, pow2(order as nat) as int) ==> exists|k: int|
                    0 <= k < pow2(order as nat) && !#[trigger] old(self).frame_free(g + k),
    ;

    /// Return one allocated frame of physical address space, which must be in
    /// use.
    fn deallocate(&mut self, frame: Frame)
        requires
            old(self).wf(),
            frame_index(frame) < old(self).frame_count(),
            !old(self).frame_free(frame_index(frame)),
        ensures
            final(self).wf(),
            final(self).frame_count() == old(self).frame_count(),
            final(self).frame_free(frame_index(frame)),
            forall|i: int|
                i != frame_index(frame) ==> #[trigger] final(self).frame_free(i) == old(self).frame_free(i),
    {
        let range = FrameRange::one(frame);
        proof {
            assert forall|i: int| #[trigger] in_range(range, i) implies i < old(self).frame_count()
                && !old(self).frame_free(i) by {
                assert(i == frame_index(frame));
            }
        }
        self.deallocate_range(range);
        proof {
            assert(in_range(range, frame_index(frame)));
            assert forall|i: int| i != frame_index(frame) implies !in_range(range, i) by {}
        }
    }

    /// Return several allocated frames of physical address space, which must
    /// all be in use.
    fn deallocate_range(&mut self, range: FrameRange)
        requires
            old(self).wf(),
            forall|i: int| #[trigger]
                in_range(range, i) ==> i < old(self).frame_count() && !old(self).frame_free(i),
        ensures
            final(self).wf(),
            final(self).frame_count() == old(self).frame_count(),
            forall|i: int| #[trigger] in_range(range, i) ==> final(self).frame_free(i),
            forall|i: int|
                !in_range(range, i) ==> #[trigger] final(self).frame_free(i) == old(self).frame_free(i),
    ;

    /// Reserve a specific frame, which the allocator must track. This
    /// succeeds exactly when the frame is free.
    fn reserve(&mut self, frame: Frame) -> (r: Result<(), FrameReserveError>)
        requires
            old(self).wf(),
            frame_index(frame) < old(self).frame_count(),
        ensures
            final(self).wf(),
            final(self).frame_count() == old(self).frame_count(),
            r is Ok <==> old(self).frame_free(frame_index(frame)),
            r is Ok ==> !final(self).frame_free(frame_index(frame)),
            r matches Err(e) ==> e == FrameReserveError::FrameInUse,
            forall|i: int|
                i != frame_index(frame) ==> #[trigger] final(self).frame_free(i) == old(self).frame_free(i),
            r is Err ==> final(self).frame_free(frame_index(frame)) == old(self).frame_free(
                frame_index(frame),
            ),
    ;

    /// Return a frame reserved by `reserve`; it must be in use.
    fn unreserve(&mut self, frame: Frame)
        requires
            old(self).wf(),
            frame_index(frame) < old(self).frame_count(),
            !old(self).frame_free(frame_index(frame)),
        ensures
            final(self).wf(),
            final(self).frame_count() == old(self).frame_count(),
            final(self).frame_free(frame_index(frame)),
            forall|i: int|
                i != frame_index(frame) ==> #[trigger] final(self).frame_free(i) == old(self).frame_free(i),
    ;
}

/// Allocates successive frames from a given set. This can be "unwrapped" to
/// get back the unallocated frames.
///
/// Useful for allocating initial memory before using a better allocator, or
/// various other allocation patterns. Importantly, it's not possible to
/// return frames allocated by this. It's best for allocations that will last
/// until shutdown.
///
/// It does not implement `FrameAllocator` because of these restrictions.
#[derive(Debug)]
pub struct BumpFrameAllocator {
    remain: Option<FrameRange>,
}

impl View for BumpFrameAllocator {
    /// The remaining frames: first frame's start and count, if any.
    type V = Option<(u64, u64)>;

    closed spec fn view(&self) -> Option<(u64, u64)> {
        match self.remain {
            Some(r) => Some(r@),
            None => None,
        }
    }
}

impl BumpFrameAllocator {
    pub fn new(frames: FrameRange) -> (r: Self)
        ensures
            r@ == Some(frames@),
    {
        BumpFrameAllocator { remain: Some(frames) }
    }

    /// The first remaining frame, if any; the rest remain.
    pub fn allocate(&mut self) -> (r: Option<Frame>)
        ensures
            match old(self)@ {
                None => r is None && final(self)@ is None,
                Some((first, count)) => {
                    &&& r matches Some(f) && f@ == first
                    &&& final(self)@ == if count > 1 {
                        Some(((first + 4096) as u64, (count - 1) as u64))
                    } else {
                        None
                    }
                },
            },
    {
        let remain = match self.remain {
            Some(r) => r,
            None => return None,
        };
        let frame = remain.first();
        let count = remain.count();
        let next = match frame.next(1) {
            Some(n) => n,
            None => {
                self.remain = None;
                return Some(frame);
            },
        };
        self.remain = FrameRange::new(next, count - 1);
        Some(frame)
    }

    /// Get the remaining frames.
    pub fn unwrap(self) -> (r: Option<FrameRange>)
        ensures
            match r {
                Some(range) => self@ == Some(range@),
                None => self@ is None,
            },
    {
        self.remain
    }
}

/// Frame `i` is marked free in `bitmap`: bit `i % 8` of byte `i / 8` is set.
pub open spec fn bitmap_free(bitmap: Seq<u8>, i: int) -> bool {
    &&& 0 <= i < 8 * bitmap.len()
    &&& bit_set(bitmap[i / 8], (i % 8) as u8)
}

/// The `size` frames from `g` on are all free in `bitmap`.
pub open spec fn run_free(bitmap: Seq<u8>, g: int, size: int) -> bool {
    forall|k: int| 0 <= k < size ==> #[trigger] bitmap_free(bitmap, g + k)
}

/// The most bytes a bitmap may have: every frame it tracks must have a
/// representable address.
pub const MAX_BITMAP_BYTES: u64 = 0x1_ffff_ffff_ffff;

proof fn lemma_bit_update(byte: u8, b: u8, c: u8)
    by (bit_vector)
    requires
        b < 8,
        c < 8,
    ensures
        ((byte | (1u8 << b)) >> c) & 1u8 == 1u8 <==> ((byte >> c) & 1u8 == 1u8 || c == b),
        ((byte & !(1u8 << b)) >> c) & 1u8 == 1u8 <==> ((byte >> c) & 1u8 == 1u8 && c != b),
        (byte & (1u8 << b) == 0) <==> !((byte >> b) & 1u8 == 1u8),
        (byte & (1u8 << b) > 0) <==> ((byte >> b) & 1u8 == 1u8),
{
}

proof fn lemma_group_clear(byte: u8, off: u8, len: u8, c: u8)
    by (bit_vector)
    requires
        len == 1 || len == 2 || len == 4,
        off + len <= 8,
        c < 8,
    ensures
        ((byte & !((((1u8 << len) - 1u8) as u8) << off)) >> c) & 1u8 == 1u8 <==> ((byte >> c) & 1u8
            == 1u8 && !(off <= c && c < off + len)),
{
}

proof fn lemma_full_byte(x: u8)
    by (bit_vector)
    ensures
        x == 0xffu8 <==> ((x >> 0u8) & 1u8 == 1u8 && (x >> 1u8) & 1u8 == 1u8 && (x >> 2u8) & 1u8
            == 1u8 && (x >> 3u8) & 1u8 == 1u8 && (x >> 4u8) & 1u8 == 1u8 && (x >> 5u8) & 1u8 == 1u8
            && (x >> 6u8) & 1u8 == 1u8 && (x >> 7u8) & 1u8 == 1u8),
{
}

proof fn lemma_zero_byte(c: u8)
    by (bit_vector)
    requires
        c < 8,
    ensures
        !((0u8 >> c) & 1u8 == 1u8),
{
}

/// A bitmap frame free exactly when a bit is set in its byte.
proof fn lemma_frame_bit(i: int)
    requires
        i >= 0,
    ensures
        i == 8 * (i / 8) + i % 8,
        0 <= i % 8 < 8,
{
}

/// A very rudimentary allocator. Simply stores 1 bit per frame representing
/// whether it's available. Allocations search this bitmap for a free frame.
#[derive(Debug)]
pub struct BitmapFrameAllocator {
    bitmap: Vec<u8>,
}

impl View for BitmapFrameAllocator {
    type V = Seq<u8>;

    closed spec fn view(&self) -> Seq<u8> {
        self.bitmap@
    }
}

impl FrameAllocator for BitmapFrameAllocator {
    open spec fn frame_free(&self, index: int) -> bool {
        bitmap_free(self@, index)
    }

    open spec fn frame_count(&self) -> nat {
        8 * self@.len()
    }

    open spec fn wf(&self) -> bool {
        self@.len() <= MAX_BITMAP_BYTES
    }

    fn allocate_range(&mut self, order: usize) -> (r: Option<FrameRange>)
        ensures
            r matches Some(range) ==> forall|g: int|
                0 <= g < range@.0 as int / 4096 && g % pow2(order as nat) as int == 0
                    ==> !#[trigger] run_free(old(self)@, g, pow2(order as nat) as int),
            r is None ==> forall|g: int|
                0 <= g && g % pow2(order as nat) as int == 0 ==> !#[trigger] run_free(
                    old(self)@,
                    g,
                    pow2(order as nat) as int,
                ),
    {
        // An order of 24 gives a size of 8 MiB, the largest allowed.
        let size: u64 = 1u64 << (order as u64);
        proof {
            vstd::bits::lemma_u64_pow2_no_overflow(order as nat);
            vstd::bits::lemma_u64_shl_is_mul(1, order as u64);
            vstd::arithmetic::power2::lemma2_to64();
            if order >= 3 {
                vstd::arithmetic::power2::lemma_pow2_adds(3, (order - 3) as nat);
                vstd::arithmetic::power2::lemma_pow2_pos((order - 3) as nat);
                assert(pow2((order - 3) as nat) <= pow2(21)) by {
                    if order < 24 {
                        vstd::arithmetic::power2::lemma_pow2_strictly_increases(
                            (order - 3) as nat,
                            21,
                        );
                    }
                }
            }
        }
        // Must find `size` contiguous free frames, aligned to `size`. For
        // `size` <= 4, a correctly aligned range lies within one bitmap byte;
        // for `size` >= 8, a range is several whole bytes of `u8::MAX`.
        let r = if size < 8 {
            self.allocate_small(size)
        } else {
            self.allocate_large(size)
        };
        proof {
            if r is None {
                assert forall|g: int| #[trigger]
                    aligned_start(g, pow2(order as nat) as int) implies exists|k: int|
                    0 <= k < pow2(order as nat) && !#[trigger] old(self).frame_free(g + k) by {
                    assert(!run_free(old(self)@, g, size as int));
                    let k = choose|k: int| 0 <= k < size && !#[trigger] bitmap_free(old(self)@, g + k);
                    assert(!old(self).frame_free(g + k));
                }
            }
            if let Some(range) = r {
                assert forall|g: int| #[trigger]
                    aligned_start(g, pow2(order as nat) as int) && g < range@.0 as int / 4096
                    implies exists|k: int|
                    0 <= k < pow2(order as nat) && !#[trigger] old(self).frame_free(g + k) by {
                    assert(!run_free(old(self)@, g, size as int));
                    let k = choose|k: int| 0 <= k < size && !#[trigger] bitmap_free(old(self)@, g + k);
                    assert(!old(self).frame_free(g + k));
                }
            }
        }
        r
    }

    fn deallocate(&mut self, frame: Frame) {
        self.deallocate_impl(frame)
    }

    fn deallocate_range(&mut self, range: FrameRange) {
        let first_frame = range.first();
        let first = first_frame.index();
        let count = range.count();
        proof {
            assert(in_range(range, first + count - 1));
        }
        let mut k: u64 = 0;
        while k < count
            invariant
                self.wf(),
                self@.len() == old(self)@.len(),
                first_frame@ == range@.0,
                first == range@.0 / 4096,
                first * 4096 == range@.0,
                count == range@.1,
                range@.0 + 4096 * (count - 1) <= u64_max(),
                forall|i: int| #[trigger]
                    in_range(range, i) ==> i < 8 * old(self)@.len() && !bitmap_free(old(self)@, i),
                k <= count,
                forall|i: int| #[trigger]
                    in_range(range, i) ==> bitmap_free(self@, i) == (i < first + k),
                forall|i: int|
                    !in_range(range, i) ==> #[trigger] bitmap_free(self@, i) == bitmap_free(
                        old(self)@,
                        i,
                    ),
            decreases count - k,
        {
            let frame = match first_frame.next(k) {
                Some(f) => f,
                None => first_frame,
            };
            proof {
                assert(frame@ == range@.0 + 4096 * k);
                assert(frame_index(frame) == first + k);
                assert(in_range(range, first + k));
            }
            self.deallocate_impl(frame);
            k = k + 1;
        }
    }

    fn reserve(&mut self, frame: Frame) -> (r: Result<(), FrameReserveError>) {
        let len = self.bitmap.len();
        let (byte_offset, bit_offset) = Self::frame_to_offsets(frame);
        let mask: u8 = 1u8 << (bit_offset as u8);
        let byte = self.bitmap[byte_offset];
        proof {
            lemma_bit_update(byte, bit_offset as u8, bit_offset as u8);
        }
        let frame_is_available = byte & mask > 0;
        if !frame_is_available {
            return Err(FrameReserveError::FrameInUse);
        }
        self.bitmap.set(byte_offset, byte & !mask);
        proof {
            assert forall|i: int| i != frame_index(frame) implies #[trigger] bitmap_free(self@, i)
                == bitmap_free(old(self)@, i) by {
                if 0 <= i < 8 * self@.len() && i / 8 == byte_offset {
                    lemma_bit_update(byte, bit_offset as u8, (i % 8) as u8);
                }
            }
        }
        Ok(())
    }

    fn unreserve(&mut self, frame: Frame) {
        self.unreserve_impl(frame)
    }
}

impl BitmapFrameAllocator {
    /// Creates an allocator that allocates from `bitmap`. The first bit of
    /// `bitmap` represents the frame starting at address 0. Each subsequent
    /// bit represents the next frame. 1 means it's free, and 0 means it's used.
    ///
    /// `bitmap` must accurately reflect the state of memory: all frames that
    /// must be preserved or which refer to invalid memory must be marked
    /// used. Every frame it tracks must have a representable address.
    pub fn new(bitmap: Vec<u8>) -> (r: BitmapFrameAllocator)
        requires
            bitmap@.len() <= MAX_BITMAP_BYTES,
        ensures
            r@ == bitmap@,
            r.wf(),
    {
        BitmapFrameAllocator { bitmap }
    }

    /// The bitmap, one bit per frame.
    pub fn bitmap(&self) -> (r: &[u8])
        ensures
            r@ == self@,
    {
        self.bitmap.as_slice()
    }

    /// Give back the bitmap.
    pub fn into_bitmap(self) -> (r: Vec<u8>)
        ensures
            r@ == self@,
    {
        self.bitmap
    }

    /// Add a new frame that wasn't present in the initial bitmap. Intended for
    /// yielding frames used during bootstrapping so they can be used later.
    /// The frame must be tracked and marked used.
    pub fn add_new_frame(&mut self, frame: Frame)
        requires
            old(self).wf(),
            frame_index(frame) < 8 * old(self)@.len(),
            !bitmap_free(old(self)@, frame_index(frame)),
        ensures
            final(self).wf(),
            final(self)@.len() == old(self)@.len(),
            bitmap_free(final(self)@, frame_index(frame)),
            forall|i: int|
                i != frame_index(frame) ==> #[trigger] bitmap_free(final(self)@, i) == bitmap_free(
                    old(self)@,
                    i,
                ),
    {
        self.unreserve_impl(frame)
    }

    /// Finds the first byte of the bitmap at or after `offset` with an
    /// available frame.
    pub fn search_from_offset(&self, offset: usize) -> (r: Option<usize>)
        ensures
            r matches Some(i) ==> offset <= i < self@.len() && self@[i as int] > 0 && forall|j: int|
                offset <= j < i ==> self@[j] == 0,
            r is None ==> forall|j: int| offset <= j < self@.len() ==> self@[j] == 0,
    {
        let mut i = offset;
        while i < self.bitmap.len()
            invariant
                offset <= i,
                forall|j: int| offset <= j < i && j < self@.len() ==> self@[j] == 0,
            decreases self.bitmap.len() - i,
        {
            if self.bitmap[i] > 0 {
                return Some(i);
            }
            i = i + 1;
        }
        None
    }

    /// The frame whose bit is bit `bit_offset` of byte `byte_offset`.
    fn offsets_to_frame(byte_offset: usize, bit_offset: u32) -> (r: Frame)
        requires
            bit_offset < 8,
            byte_offset <= MAX_BITMAP_BYTES,
        ensures
            frame_index(r) == 8 * byte_offset + bit_offset,
            r@ == (8 * byte_offset + bit_offset) * 4096,
    {
        let raw = (byte_offset as u64) * PAGE_SIZE * 8 + (bit_offset as u64) * PAGE_SIZE;
        Frame::new(PhysAddress::from_raw(raw))
    }

    /// The byte of the bitmap holding `frame`'s bit, and the bit within it.
    fn frame_to_offsets(frame: Frame) -> (r: (usize, u32))
        requires
            frame_index(frame) / 8 <= usize::MAX,
        ensures
            r.0 == frame_index(frame) / 8,
            r.1 == frame_index(frame) % 8,
    {
        let addr_raw = frame.start().as_raw();
        ((addr_raw / PAGE_SIZE / 8) as usize, ((addr_raw / PAGE_SIZE) % 8) as u32)
    }

    fn deallocate_impl(&mut self, frame: Frame)
        requires
            old(self).wf(),
            frame_index(frame) < 8 * old(self)@.len(),
            !bitmap_free(old(self)@, frame_index(frame)),
        ensures
            final(self).wf(),
            final(self)@.len() == old(self)@.len(),
            bitmap_free(final(self)@, frame_index(frame)),
            forall|i: int|
                i != frame_index(frame) ==> #[trigger] bitmap_free(final(self)@, i) == bitmap_free(
                    old(self)@,
                    i,
                ),
    {
        self.set_frame_free(frame)
    }

    fn unreserve_impl(&mut self, frame: Frame)
        requires
            old(self).wf(),
            frame_index(frame) < 8 * old(self)@.len(),
            !bitmap_free(old(self)@, frame_index(frame)),
        ensures
            final(self).wf(),
            final(self)@.len() == old(self)@.len(),
            bitmap_free(final(self)@, frame_index(frame)),
            forall|i: int|
                i != frame_index(frame) ==> #[trigger] bitmap_free(final(self)@, i) == bitmap_free(
                    old(self)@,
                    i,
                ),
    {
        self.set_frame_free(frame)
    }

    /// Marks the used frame `frame` free.
    fn set_frame_free(&mut self, frame: Frame)
        requires
            old(self).wf(),
            frame_index(frame) < 8 * old(self)@.len(),
            !bitmap_free(old(self)@, frame_index(frame)),
        ensures
            final(self).wf(),
            final(self)@.len() == old(self)@.len(),
            bitmap_free(final(self)@, frame_index(frame)),
            forall|i: int|
                i != frame_index(frame) ==> #[trigger] bitmap_free(final(self)@, i) == bitmap_free(
                    old(self)@,
                    i,
                ),
    {
        let len = self.bitmap.len();
        let (byte_offset, bit_offset) = Self::frame_to_offsets(frame);
        let mask: u8 = 1u8 << (bit_offset as u8);
        let old_byte = self.bitmap[byte_offset];
        proof {
            lemma_bit_update(old_byte, bit_offset as u8, bit_offset as u8);
        }
        self.bitmap.set(byte_offset, old_byte | mask);
        proof {
            assert forall|i: int| i != frame_index(frame) implies #[trigger] bitmap_free(self@, i)
                == bitmap_free(old(self)@, i) by {
                if 0 <= i < 8 * self@.len() && i / 8 == byte_offset {
                    lemma_bit_update(old_byte, bit_offset as u8, (i % 8) as u8);
                }
            }
        }
    }
}

/// Within one byte: the aligned run of `size` (1, 2 or 4) frames from `g` is
/// free exactly when its bits in byte `g / 8` are all set.
proof fn lemma_run_in_byte(bm: Seq<u8>, g: int, size: int)
    requires
        size == 1 || size == 2 || size == 4,
        g >= 0,
        g % size == 0,
    ensures
        (g % 8) + size <= 8,
        (g % 8) % size == 0,
        run_free(bm, g, size) <==> (g / 8 < bm.len() && run_set(
            bm[g / 8],
            (g % 8) as u8,
            size as u8,
        )),
{
    let q = g / 8;
    let r = g % 8;
    assert(g == 8 * q + r);
    assert(r % size == 0 && r + size <= 8) by {
        if size == 2 {
            assert(g % 2 == 0);
        } else if size == 4 {
            assert(g % 4 == 0);
        }
    }
    if run_free(bm, g, size) {
        assert(bitmap_free(bm, g + 0));
        assert forall|k: u8| k < size as u8 implies #[trigger] bit_set(bm[q], (r as u8 + k) as u8) by {
            assert(bitmap_free(bm, g + k as int));
            assert(g + k as int == 8 * q + (r + k as int));
            assert((g + k as int) / 8 == q && (g + k as int) % 8 == r + k);
        }
    }
    if q < bm.len() && run_set(bm[q], r as u8, size as u8) {
        assert forall|k: int| 0 <= k < size implies #[trigger] bitmap_free(bm, g + k) by {
            assert(bit_set(bm[q], (r as u8 + k as u8) as u8));
            assert(g + k == 8 * q + (r + k));
            assert((g + k) / 8 == q && (g + k) % 8 == r + k);
        }
    }
}

/// Whole bytes: the run of `8 * bl` frames from byte `i` on is free exactly
/// when those `bl` bytes are all `0xff`.
proof fn lemma_run_in_bytes(bm: Seq<u8>, i: int, bl: int)
    requires
        i >= 0,
        bl >= 1,
    ensures
        run_free(bm, 8 * i, 8 * bl) <==> (i + bl <= bm.len() && forall|j: int|
            i <= j < i + bl ==> #[trigger] bm[j] == 0xffu8),
{
    if run_free(bm, 8 * i, 8 * bl) {
        assert(bitmap_free(bm, 8 * i + (8 * bl - 1)));
        assert forall|j: int| i <= j < i + bl implies #[trigger] bm[j] == 0xffu8 by {
            lemma_full_byte(bm[j]);
            assert forall|b: u8| b < 8 implies #[trigger] bit_set(bm[j], b) by {
                let k = 8 * (j - i) + b as int;
                assert(bitmap_free(bm, 8 * i + k));
                assert((8 * i + k) / 8 == j && (8 * i + k) % 8 == b);
            }
            assert(bit_set(bm[j], 0u8));
            assert(bit_set(bm[j], 1u8));
            assert(bit_set(bm[j], 2u8));
            assert(bit_set(bm[j], 3u8));
            assert(bit_set(bm[j], 4u8));
            assert(bit_set(bm[j], 5u8));
            assert(bit_set(bm[j], 6u8));
            assert(bit_set(bm[j], 7u8));
        }
    }
    if i + bl <= bm.len() && forall|j: int| i <= j < i + bl ==> #[trigger] bm[j] == 0xffu8 {
        assert forall|k: int| 0 <= k < 8 * bl implies #[trigger] bitmap_free(bm, 8 * i + k) by {
            let j = i + k / 8;
            assert((8 * i + k) / 8 == j && (8 * i + k) % 8 == k % 8);
            assert(bm[j] == 0xffu8);
            lemma_full_byte(bm[j]);
            let b = (k % 8) as u8;
            assert(b < 8);
            if b == 0 {
            } else if b == 1 {
            } else if b == 2 {
            } else if b == 3 {
            } else if b == 4 {
            } else if b == 5 {
            } else if b == 6 {
            } else {
                assert(b == 7);
            }
        }
    }
}

impl BitmapFrameAllocator {
    /// The lowest free, aligned run of `size` (1, 2 or 4) frames, searched
    /// byte by byte; the run is marked used.
    #[verifier::spinoff_prover]
    fn allocate_small(&mut self, size: u64) -> (r: Option<FrameRange>)
        requires
            old(self).wf(),
            size == 1 || size == 2 || size == 4,
        ensures
            final(self).wf(),
            final(self)@.len() == old(self)@.len(),
            r matches Some(range) ==> {
                &&& range@.1 == size
                &&& (range@.0 as int / 4096) % size as int == 0
                &&& range@.0 % 4096 == 0
                &&& forall|i: int|
                    #[trigger] in_range(range, i) ==> bitmap_free(old(self)@, i) && !bitmap_free(
                        final(self)@,
                        i,
                    )
                &&& forall|i: int|
                    !in_range(range, i) ==> #[trigger] bitmap_free(final(self)@, i) == bitmap_free(
                        old(self)@,
                        i,
                    )
                &&& forall|g: int|
                    0 <= g < range@.0 as int / 4096 && g % size as int == 0 ==> !#[trigger] run_free(
                        old(self)@,
                        g,
                        size as int,
                    )
            },
            r is None ==> final(self)@ == old(self)@ && forall|g: int|
                0 <= g && g % size as int == 0 ==> !#[trigger] run_free(old(self)@, g, size as int),
    {
        let mut i: usize = 0;
        while i < self.bitmap.len()
            invariant
                self.wf(),
                self@ == old(self)@,
                size == 1 || size == 2 || size == 4,
                i <= self@.len(),
                forall|g: int|
                    0 <= g < 8 * i && g % size as int == 0 ==> !#[trigger] run_free(self@, g, size as int),
            decreases self.bitmap.len() - i,
        {
            let byte = self.bitmap[i];
            let found = if byte == 0 {
                None
            } else {
                find_bit_group(byte, size as usize)
            };
            proof {
                if byte == 0 {
                    assert forall|s: u8| s + size <= 8 && s % size as u8 == 0 implies !#[trigger] run_set(byte, s, size as u8) by {
                        lemma_zero_byte(s);
                        assert(bit_set(byte, (s + 0u8) as u8) == bit_set(0u8, s));
                    }
                }
            }
            match found {
                Some(boff) => {
                    let len8 = size as u8;
                    proof {
                        lemma_group_mask_nonzero(len8);
                    }
                    let mask: u8 = (1u8 << len8) - 1;
                    let new_byte = byte & !(mask << boff);
                    let ghost before = self@;
                    self.bitmap.set(i, new_byte);
                    let first = Self::offsets_to_frame(i, boff as u32);
                    let ghost g0: int = 8 * i as int + boff as int;
                    proof {
                        assert(g0 % size as int == 0) by {
                            if size == 2 {
                                assert(boff % 2 == 0);
                            } else if size == 4 {
                                assert(boff % 4 == 0);
                            }
                        }
                        lemma_run_in_byte(before, g0, size as int);
                        assert(g0 / 8 == i && g0 % 8 == boff);
                        assert forall|f: int|
                            g0 <= f < g0 + size implies bitmap_free(before, f) && !bitmap_free(
                                self@,
                                f,
                            ) by {
                            assert(bitmap_free(before, g0 + (f - g0)));
                            assert(f / 8 == i);
                            lemma_group_clear(byte, boff, len8, (f % 8) as u8);
                        }
                        assert forall|f: int|
                            !(g0 <= f < g0 + size) implies #[trigger] bitmap_free(self@, f)
                                == bitmap_free(before, f) by {
                            if 0 <= f < 8 * self@.len() && f / 8 == i {
                                lemma_group_clear(byte, boff, len8, (f % 8) as u8);
                            }
                        }
                        assert forall|g: int|
                            0 <= g < g0 && g % size as int == 0 implies !#[trigger] run_free(
                                before,
                                g,
                                size as int,
                            ) by {
                            if g >= 8 * i {
                                lemma_run_in_byte(before, g, size as int);
                                assert(g / 8 == i);
                                assert(((g % 8) as u8) < boff);
                                assert(((g % 8) as u8) % len8 == 0);
                            }
                        }
                    }
                    proof {
                        assert(first@ + 4096 * (size - 1) <= u64_max()) by (nonlinear_arith)
                            requires
                                first@ == (8 * i + boff) * 4096,
                                i < MAX_BITMAP_BYTES,
                                boff + size <= 8,
                        ;
                    }
                    let r = FrameRange::new(first, size);
                    proof {
                        let range = r->0;
                        assert(range@ == (first@, size));
                        assert(range@.0 as int / 4096 == g0);
                        assert forall|f: int| #[trigger] in_range(range, f) implies bitmap_free(
                            before,
                            f,
                        ) && !bitmap_free(self@, f) by {
                            assert(g0 <= f < g0 + size);
                            assert(bitmap_free(before, g0 + (f - g0)));
                            assert(f / 8 == i);
                            lemma_group_clear(byte, boff, len8, (f % 8) as u8);
                        }
                        assert forall|f: int| !in_range(range, f) implies #[trigger] bitmap_free(
                            self@,
                            f,
                        ) == bitmap_free(before, f) by {
                            assert(!(g0 <= f < g0 + size));
                        }
                    }
                    return r;
                },
                None => {},
            }
            proof {
                assert forall|g: int| 0 <= g < 8 * (i + 1) && g % size as int == 0 implies !#[trigger] run_free(self@, g, size as int) by {
                    if g >= 8 * i {
                        lemma_run_in_byte(self@, g, size as int);
                        assert(g / 8 == i);
                    }
                }
            }
            i = i + 1;
        }
        proof {
            assert forall|g: int| 0 <= g && g % size as int == 0 implies !#[trigger] run_free(self@, g, size as int) by {
                if g >= 8 * i {
                    lemma_run_in_byte(self@, g, size as int);
                }
            }
        }
        None
    }
}

impl BitmapFrameAllocator {
    /// The lowest free, aligned run of `size` (a multiple of 8) frames: whole
    /// bytes of the bitmap, which are then marked used.
    fn allocate_large(&mut self, size: u64) -> (r: Option<FrameRange>)
        requires
            old(self).wf(),
            size % 8 == 0,
            8 <= size <= 0x100_0000,
        ensures
            final(self).wf(),
            final(self)@.len() == old(self)@.len(),
            r matches Some(range) ==> {
                &&& range@.1 == size
                &&& (range@.0 as int / 4096) % size as int == 0
                &&& range@.0 % 4096 == 0
                &&& forall|i: int|
                    #[trigger] in_range(range, i) ==> bitmap_free(old(self)@, i) && !bitmap_free(
                        final(self)@,
                        i,
                    )
                &&& forall|i: int|
                    !in_range(range, i) ==> #[trigger] bitmap_free(final(self)@, i) == bitmap_free(
                        old(self)@,
                        i,
                    )
                &&& forall|g: int|
                    0 <= g < range@.0 as int / 4096 && g % size as int == 0 ==> !#[trigger] run_free(
                        old(self)@,
                        g,
                        size as int,
                    )
            },
            r is None ==> final(self)@ == old(self)@ && forall|g: int|
                0 <= g && g % size as int == 0 ==> !#[trigger] run_free(old(self)@, g, size as int),
    {
        let byte_len: usize = (size / 8) as usize;
        let ghost bl = byte_len as int;
        assert(size == 8 * bl);
        let mut i: usize = 0;
        while i < self.bitmap.len()
            invariant
                self.wf(),
                self@ == old(self)@,
                size == 8 * bl,
                byte_len == bl,
                1 <= bl <= 0x20_0000,
                i as int % bl == 0,
                forall|g: int|
                    0 <= g < 8 * i && g % size as int == 0 ==> !#[trigger] run_free(self@, g, size as int),
            decreases self.bitmap.len() - i,
        {
            if byte_len > self.bitmap.len() - i {
                proof {
                    assert forall|g: int| 0 <= g && g % size as int == 0 implies !#[trigger] run_free(self@, g, size as int) by {
                        if g >= 8 * i {
                            lemma_aligned_bytes(g, bl);
                            lemma_run_in_bytes(self@, g / 8, bl);
                        }
                    }
                }
                return None;
            }
            let end = i + byte_len;
            let mut j = i;
            while j < end && self.bitmap[j] == u8::MAX
                invariant
                    end == i + byte_len,
                    i <= j <= i + byte_len,
                    i + byte_len <= self@.len(),
                    forall|x: int| i <= x < j ==> #[trigger] self@[x] == 0xffu8,
                decreases i + byte_len - j,
            {
                j = j + 1;
            }
            proof {
                lemma_run_in_bytes(self@, i as int, bl);
            }
            if j == end {
                // Every frame in this range is available. Allocate it.
                let ghost before = self@;
                let mut x = i;
                while x < end
                    invariant
                        end == i + byte_len,
                        i <= x <= i + byte_len,
                        i + byte_len <= self@.len(),
                        self@.len() == before.len(),
                        forall|y: int| i <= y < x ==> #[trigger] self@[y] == 0u8,
                        forall|y: int|
                            0 <= y < self@.len() && !(i <= y < x) ==> #[trigger] self@[y] == before[y],
                    decreases i + byte_len - x,
                {
                    self.bitmap.set(x, 0);
                    x = x + 1;
                }
                let first = Self::offsets_to_frame(i, 0);
                proof {
                    assert((8 * i) % size as int == 0) by (nonlinear_arith)
                        requires
                            i as int % bl == 0,
                            size == 8 * bl,
                            bl >= 1,
                    {
                        vstd::arithmetic::div_mod::lemma_fundamental_div_mod(i as int, bl);
                        vstd::arithmetic::div_mod::lemma_mod_multiples_basic(i as int / bl, size as int);
                    }
                    assert forall|f: int|
                        8 * i <= f < 8 * i + size implies bitmap_free(before, f) && !bitmap_free(
                            self@,
                            f,
                        ) by {
                        assert(bitmap_free(before, 8 * i + (f - 8 * i)));
                        assert(i <= f / 8 < i + bl);
                        lemma_zero_byte((f % 8) as u8);
                    }
                    assert forall|f: int|
                        !(8 * i <= f < 8 * i + size) implies #[trigger] bitmap_free(self@, f)
                            == bitmap_free(before, f) by {
                        if 0 <= f < 8 * self@.len() {
                            assert(!(i <= f / 8 < i + bl));
                        }
                    }
                }
                proof {
                    assert(first@ + 4096 * (size - 1) <= u64_max()) by (nonlinear_arith)
                        requires
                            first@ == (8 * i) * 4096,
                            i + bl <= MAX_BITMAP_BYTES,
                            size == 8 * bl,
                    ;
                }
                let r = FrameRange::new(first, size);
                proof {
                    let range = r->0;
                    assert(range@ == (first@, size));
                    assert(range@.0 as int / 4096 == 8 * i);
                    assert forall|f: int| #[trigger] in_range(range, f) implies bitmap_free(
                        before,
                        f,
                    ) && !bitmap_free(self@, f) by {
                        assert(8 * i <= f < 8 * i + size);
                    }
                    assert forall|f: int| !in_range(range, f) implies #[trigger] bitmap_free(
                        self@,
                        f,
                    ) == bitmap_free(before, f) by {
                        assert(!(8 * i <= f < 8 * i + size));
                    }
                }
                return r;
            }
            proof {
                assert(self@[j as int] != 0xffu8);
                assert forall|g: int| 0 <= g < 8 * (i + bl) && g % size as int == 0 implies !#[trigger] run_free(self@, g, size as int) by {
                    if g >= 8 * i {
                        lemma_aligned_bytes(g, bl);
                        assert(g / 8 % bl == 0);
                        assert(g / 8 == i) by (nonlinear_arith)
                            requires
                                g / 8 >= i,
                                g / 8 < i + bl,
                                (g / 8) % bl == 0,
                                i as int % bl == 0,
                                bl >= 1,
                        {
                            vstd::arithmetic::div_mod::lemma_fundamental_div_mod(g / 8, bl);
                            vstd::arithmetic::div_mod::lemma_fundamental_div_mod(i as int, bl);
                        }
                    }
                }
                vstd::arithmetic::div_mod::lemma_mod_add_multiples_vanish(i as int, bl);
            }
            i = i + byte_len;
        }
        proof {
            assert forall|g: int| 0 <= g && g % size as int == 0 implies !#[trigger] run_free(self@, g, size as int) by {
                if g >= 8 * i {
                    lemma_aligned_bytes(g, bl);
                    lemma_run_in_bytes(self@, g / 8, bl);
                }
            }
        }
        None
    }
}

/// An address aligned to `8 * bl` frames is a whole number of bytes into the
/// bitmap, aligned to `bl` bytes.
proof fn lemma_aligned_bytes(g: int, bl: int)
    requires
        g >= 0,
        bl >= 1,
        g % (8 * bl) == 0,
    ensures
        g == 8 * (g / 8),
        (g / 8) % bl == 0,
{
    vstd::arithmetic::div_mod::lemma_fundamental_div_mod(g, 8 * bl);
    let m = g / (8 * bl);
    assert(g == 8 * (bl * m)) by (nonlinear_arith)
        requires
            g == (8 * bl) * m,
    ;
    assert(g / 8 == bl * m);
    vstd::arithmetic::div_mod::lemma_mod_multiples_basic(m, bl);
    assert(bl * m == m * bl) by (nonlinear_arith);
}

} // verus!

verus! {

/// The number of memory frames tracked by one byte of a bitmap.
const FRAMES_PER_ENTRY: u64 = 8;

/// Marks exactly the frames in `frames` as free in `bitmap`, leaving every
/// other bit untouched. The bitmap must reach the range's last frame.
///
/// The touched bytes are walked uniformly: each byte's bits are the range
/// clipped to the eight frames that byte covers.
pub fn mark_frames_free(bitmap: &mut [u8], frames: FrameRange)
    requires
        (frames@.0 / 4096 + frames@.1 - 1) / 8 < old(bitmap)@.len(),
    ensures
        final(bitmap)@.len() == old(bitmap)@.len(),
        forall|i: int|
            #[trigger] bitmap_free(final(bitmap)@, i) <==> (bitmap_free(old(bitmap)@, i)
                || in_range(frames, i)),
{
    let first = frames.first().index();
    let count = frames.count();
    let blen = bitmap.len();
    let ghost len = bitmap@.len();
    let ghost before = bitmap@;
    assert(first + count <= 0x10_0000_0000_0001) by (nonlinear_arith)
        requires
            first * 4096 + 4096 * (count - 1) <= 0xffff_ffff_ffff_ffff,
            count >= 1,
    ;
    let end = first + count;
    assert((end - 1) / 8 < blen);
    assert(first / 8 <= (end - 1) / 8) by (nonlinear_arith)
        requires
            first <= end - 1,
    ;
    let first_byte = (first / FRAMES_PER_ENTRY) as usize;
    let last_byte = ((end - 1) / FRAMES_PER_ENTRY) as usize;
    let mut j: usize = first_byte;
    while j <= last_byte
        invariant
            bitmap@.len() == len,
            len == before.len(),
            first_byte == first / 8,
            last_byte == (end - 1) / 8,
            last_byte < len,
            first == frames@.0 / 4096,
            end == first + frames@.1,
            first < end,
            end <= 0x10_0000_0000_0001,
            first_byte <= j <= last_byte + 1,
            forall|i: int|
                #[trigger] bitmap_free(bitmap@, i) <==> (bitmap_free(before, i) || (in_range(
                    frames,
                    i,
                ) && i < 8 * j)),
        decreases last_byte + 1 - j,
    {
        let byte_first_frame = j as u64 * FRAMES_PER_ENTRY;
        let byte_end_frame = byte_first_frame + FRAMES_PER_ENTRY;
        let clip_lo = if first > byte_first_frame {
            first
        } else {
            byte_first_frame
        };
        let clip_hi = if end < byte_end_frame {
            end
        } else {
            byte_end_frame
        };
        assert(first < 8 * j + 8 && 8 * j < end) by (nonlinear_arith)
            requires
                first / 8 <= j <= (end - 1) / 8,
                first < end,
        ;
        let lo = clip_lo - byte_first_frame;
        let hi = clip_hi - byte_first_frame;
        let bits = set_bit_range(lo as u8, hi as u8);
        let ghost old_bitmap = bitmap@;
        let old_byte = bitmap[j];
        bitmap[j] = old_byte | bits;
        proof {
            assert forall|i: int|
                #[trigger] bitmap_free(bitmap@, i) <==> (bitmap_free(before, i) || (in_range(frames, i)
                    && i < 8 * (j + 1))) by {
                assert(in_range(frames, i) <==> first <= i < end);
                if 0 <= i < 8 * len {
                    lemma_frame_bit(i);
                    let b = (i % 8) as u8;
                    assert(bitmap_free(old_bitmap, i) <==> (bitmap_free(before, i) || (in_range(frames, i)
                        && i < 8 * j)));
                    if i / 8 == j {
                        lemma_and_not_bit(old_byte, bits, b);
                        assert(bitmap@[j as int] == old_byte | bits);
                        assert(bitmap_free(old_bitmap, i) <==> bit_set(old_byte, b));
                        assert(bitmap_free(bitmap@, i) <==> bit_set(old_byte | bits, b));
                        assert(bit_set(bits, b) <==> lo <= b < hi);
                        assert(i == 8 * j + b);
                    } else {
                        assert(bitmap@[i / 8] == old_bitmap[i / 8]);
                        assert(bitmap_free(bitmap@, i) == bitmap_free(old_bitmap, i));
                        if i >= 8 * j {
                            assert(i >= 8 * (j + 1));
                        }
                    }
                }
            }
        }
        j = j + 1;
    }
    proof {
        assert forall|i: int| #[trigger] in_range(frames, i) implies i < 8 * j by {
            assert(i <= end - 1);
            assert(end - 1 < 8 * ((end - 1) / 8 + 1)) by (nonlinear_arith)
                requires
                    end >= 1,
            ;
        }
    }
}

/// The number of memory bytes tracked by one byte of a bitmap.
const BYTES_PER_ENTRY: u64 = 32768;

/// The bytes a bitmap needs to track every `Available` frame of
/// `memory_map`: the end of the highest `Available` entry divided by 32768
/// (the frame size, 4096, times the bits in a byte), rounded up. Regions
/// above the last usable RAM need not be covered.
pub fn bitmap_bytes_needed(memory_map: &MemoryMap) -> (r: u64)
    requires
        forall|k: int|
            0 <= k < memory_map@.len() && (#[trigger] memory_map@[k]).mem_type
                == MemoryType::Available ==> memory_map@[k].extent.end() <= u64_max(),
    ensures
        r == (highest_available_end(memory_map@) + 32767) / 32768,
{
    let entries = memory_map.entries();
    let mut highest: u64 = 0;
    let mut i: usize = 0;
    while i < entries.len()
        invariant
            i <= entries@.len(),
            entries@ == memory_map@,
            forall|k: int|
                0 <= k < entries@.len() && (#[trigger] entries@[k]).mem_type
                    == MemoryType::Available ==> entries@[k].extent.end() <= u64_max(),
            highest == highest_available_end(entries@.subrange(0, i as int)),
        decreases entries@.len() - i,
    {
        assert(entries@.subrange(0, i + 1).drop_last() =~= entries@.subrange(0, i as int));
        let e = entries[i];
        if e.mem_type == MemoryType::Available {
            let end = e.extent.end_address().as_raw();
            if end > highest {
                highest = end;
            }
        }
        i = i + 1;
    }
    assert(entries@.subrange(0, entries@.len() as int) =~= entries@);
    ceil_divide(highest, BYTES_PER_ENTRY)
}

/// Initializes `bitmap` from `memory_map` in the format that
/// `BitmapFrameAllocator` expects: a frame is marked free exactly when it
/// lies wholly inside an `Available` entry. `bitmap` must be large enough:
/// at least `bitmap_bytes_needed(memory_map)` bytes. Only `Available` frames
/// are recorded, so non-RAM regions above the last usable RAM (e.g. high
/// MMIO or reserved holes) need not be covered.
pub fn fill_bitmap_from_map(bitmap: &mut [u8], memory_map: &MemoryMap)
    requires
        forall|k: int|
            0 <= k < memory_map@.len() && (#[trigger] memory_map@[k]).mem_type
                == MemoryType::Available ==> memory_map@[k].extent.end() <= u64_max(),
        old(bitmap)@.len() >= (highest_available_end(memory_map@) + 32767) / 32768,
    ensures
        final(bitmap)@.len() == old(bitmap)@.len(),
        forall|i: int| #[trigger]
            bitmap_free(final(bitmap)@, i) <==> frame_available(memory_map@, i),
{
    let ghost entries = memory_map@;
    let ghost h = highest_available_end(entries);
    let ghost len = bitmap@.len();
    proof {
        lemma_highest_available_end(entries);
        vstd::arithmetic::div_mod::lemma_fundamental_div_mod(h + 32767, 32768);
        vstd::arithmetic::div_mod::lemma_mod_bound(h + 32767, 32768);
        assert(32768 * len >= h) by (nonlinear_arith)
            requires
                len >= (h + 32767) / 32768,
                h + 32767 == 32768 * ((h + 32767) / 32768) + (h + 32767) % 32768,
                (h + 32767) % 32768 < 32768,
        ;
    }
    let mut k: usize = 0;
    while k < bitmap.len()
        invariant
            bitmap@.len() == len,
            k <= len,
            forall|j: int| 0 <= j < k ==> bitmap@[j] == 0u8,
        decreases len - k,
    {
        bitmap[k] = 0;
        k = k + 1;
    }
    proof {
        assert forall|i: int| !#[trigger] bitmap_free(bitmap@, i) by {
            if 0 <= i < 8 * len {
                lemma_frame_bit(i);
                lemma_zero_byte((i % 8) as u8);
            }
        }
    }
    let avail = memory_map.iter_type(MemoryType::Available);
    proof {
        assert forall|j: int| 0 <= j < avail@.len() implies (#[trigger] avail@[j]).extent.end() <= h
            && avail@[j].extent.end() <= u64_max() by {
            lemma_entries_of_type_contains(entries, MemoryType::Available, avail@[j]);
            assert(avail@.contains(avail@[j]));
            let m = choose|m: int| 0 <= m < entries.len() && entries[m] == avail@[j];
            assert(entries[m].mem_type == MemoryType::Available);
        }
        lemma_map_frames_bound(avail@, h);
    }
    let ranges = iter_map_frames(avail.as_slice());
    let mut j: usize = 0;
    while j < ranges.len()
        invariant
            j <= ranges@.len(),
            bitmap@.len() == len,
            32768 * len >= h,
            frame_runs(ranges@) == map_frames(avail@),
            forall|k: int|
                0 <= k < map_frames(avail@).len() ==> 0 <= (#[trigger] map_frames(avail@)[k]).0
                    < map_frames(avail@)[k].1 <= h,
            forall|k: int| 0 <= k < j ==> (#[trigger] ranges@[k])@.0 % 4096 == 0,
            forall|i: int|
                #[trigger] bitmap_free(bitmap@, i) <==> exists|k: int|
                    0 <= k < j && #[trigger] in_range(ranges@[k], i),
        decreases ranges@.len() - j,
    {
        let frames = ranges[j];
        let count = frames.count();
        proof {
            assert(frame_runs(ranges@)[j as int] == (frames.first_start(), frames.last_start() + 4096));
            assert(map_frames(avail@)[j as int].1 <= h);
            let f = frames@.0 / 4096;
            assert(f + count - 1 < 8 * len) by (nonlinear_arith)
                requires
                    frames@.0 == 4096 * f,
                    frames@.0 + 4096 * (count - 1) + 4096 <= h,
                    32768 * len >= h,
            ;
        }
        let ghost before = bitmap@;
        mark_frames_free(bitmap, frames);
        proof {
            assert forall|i: int|
                #[trigger] bitmap_free(bitmap@, i) <==> exists|k: int|
                    0 <= k < j + 1 && #[trigger] in_range(ranges@[k], i) by {
                if in_range(frames, i) {
                    assert(in_range(ranges@[j as int], i));
                }
                if exists|k: int| 0 <= k < j + 1 && #[trigger] in_range(ranges@[k], i) {
                    let k = choose|k: int| 0 <= k < j + 1 && #[trigger] in_range(ranges@[k], i);
                    if k < j {
                        assert(bitmap_free(before, i));
                    }
                }
            }
        }
        j = j + 1;
    }
    proof {
        assert forall|i: int| #[trigger]
            bitmap_free(bitmap@, i) <==> frame_available(entries, i) by {
            let m = map_frames(avail@);
            // A frame lies in a range exactly when it lies in that range's
            // interval of `map_frames`.
            assert forall|k: int| 0 <= k < ranges@.len() implies (#[trigger] in_range(ranges@[k], i)
                <==> m[k].0 <= 4096 * i < m[k].1) by {
                assert(frame_runs(ranges@)[k] == (ranges@[k].first_start(), ranges@[k].last_start()
                    + 4096));
                let f = ranges@[k]@.0 / 4096;
                assert(ranges@[k]@.0 == 4096 * f);
            }
            if bitmap_free(bitmap@, i) {
                let k = choose|k: int| 0 <= k < ranges@.len() && #[trigger] in_range(ranges@[k], i);
                assert(i >= 0);
                lemma_map_frames_hold(avail@, i);
                assert(m[k].0 <= 4096 * i < m[k].1);
                let a = choose|a: int| 0 <= a < avail@.len() && entry_holds_frame(#[trigger] avail@[a], i);
                lemma_entries_of_type_contains(entries, MemoryType::Available, avail@[a]);
                assert(avail@.contains(avail@[a]));
                let n = choose|n: int| 0 <= n < entries.len() && entries[n] == avail@[a];
                assert(entries[n].mem_type == MemoryType::Available && entry_holds_frame(entries[n], i));
            }
            if frame_available(entries, i) {
                let n = choose|n: int|
                    0 <= n < entries.len() && (#[trigger] entries[n]).mem_type == MemoryType::Available
                        && entry_holds_frame(entries[n], i);
                assert(i >= 0);
                lemma_entries_of_type_contains(entries, MemoryType::Available, entries[n]);
                assert(entries.contains(entries[n]));
                let a = choose|a: int| 0 <= a < avail@.len() && avail@[a] == entries[n];
                assert(entry_holds_frame(avail@[a], i));
                lemma_map_frames_hold(avail@, i);
                let k = choose|k: int| 0 <= k < m.len() && (#[trigger] m[k]).0 <= 4096 * i < m[k].1;
                assert(in_range(ranges@[k], i));
                assert(entries[n].extent.end() <= h);
                assert(i < 8 * len);
            }
        }
    }
}

proof fn lemma_bytes_equal_by_bits(x: u8, y: u8)
    by (bit_vector)
    requires
        bit_set(x, 0u8) == bit_set(y, 0u8),
        bit_set(x, 1u8) == bit_set(y, 1u8),
        bit_set(x, 2u8) == bit_set(y, 2u8),
        bit_set(x, 3u8) == bit_set(y, 3u8),
        bit_set(x, 4u8) == bit_set(y, 4u8),
        bit_set(x, 5u8) == bit_set(y, 5u8),
        bit_set(x, 6u8) == bit_set(y, 6u8),
        bit_set(x, 7u8) == bit_set(y, 7u8),
    ensures
        x == y,
{
}

/// Two bitmaps of one length that agree on every frame are the same bitmap.
pub proof fn lemma_bitmap_ext(a: Seq<u8>, b: Seq<u8>)
    requires
        a.len() == b.len(),
        forall|i: int| #[trigger] bitmap_free(a, i) == bitmap_free(b, i),
    ensures
        a == b,
{
    assert forall|j: int| 0 <= j < a.len() implies a[j] == b[j] by {
        assert forall|k: u8| k < 8 implies bit_set(a[j], k) == bit_set(b[j], k) by {
            let i = 8 * j + k;
            lemma_frame_bit(i);
            assert(i / 8 == j && i % 8 == k);
            assert(bitmap_free(a, i) == bitmap_free(b, i));
        }
        lemma_bytes_equal_by_bits(a[j], b[j]);
    }
    assert(a =~= b);
}

/// Allocating a run of frames and then giving the same run back restores
/// the bitmap exactly: `before` is the bitmap `allocate_range` started from,
/// `allocated` what it left when it returned `range`, and `after` what
/// `deallocate_range(range)` then left.
pub proof fn lemma_allocate_then_deallocate_restores(
    before: BitmapFrameAllocator,
    allocated: BitmapFrameAllocator,
    after: BitmapFrameAllocator,
    range: FrameRange,
)
    requires
        allocated@.len() == before@.len(),
        after@.len() == allocated@.len(),
        forall|i: int|
            #[trigger] in_range(range, i) ==> before.frame_free(i) && !allocated.frame_free(i),
        forall|i: int|
            !in_range(range, i) ==> #[trigger] allocated.frame_free(i) == before.frame_free(i),
        forall|i: int| #[trigger] in_range(range, i) ==> after.frame_free(i),
        forall|i: int|
            !in_range(range, i) ==> #[trigger] after.frame_free(i) == allocated.frame_free(i),
    ensures
        after@ == before@,
{
    assert forall|i: int| #[trigger] bitmap_free(after@, i) == bitmap_free(before@, i) by {
        assert(after.frame_free(i) == bitmap_free(after@, i));
        assert(before.frame_free(i) == bitmap_free(before@, i));
        if in_range(range, i) {
        } else {
            assert(allocated.frame_free(i) == before.frame_free(i));
        }
    }
    lemma_bitmap_ext(after@, before@);
}

/// A frame that `reserve` took is not handed out by a later allocation:
/// `reserved` is the allocator once `reserve(frame)` succeeded, and `range`
/// a run that `allocate_range` then returned from it.
pub proof fn lemma_reserved_frame_is_never_allocated<A: FrameAllocator>(
    reserved: A,
    frame: Frame,
    range: FrameRange,
)
    requires
        !reserved.frame_free(frame_index(frame)),
        forall|i: int| #[trigger] in_range(range, i) ==> reserved.frame_free(i),
    ensures
        !in_range(range, frame_index(frame)),
{
}

/// The frame a bump allocator holds next, `x`, lies among those it still
/// hands out.
pub open spec fn bump_holds(state: Option<(u64, u64)>, x: int) -> bool {
    match state {
        Some((first, count)) => first <= x < first + 4096 * count && (x - first) % 4096 == 0,
        None => false,
    }
}

/// A bump allocator hands out each frame once: the frame that one
/// `allocate` returns is no longer among those it holds, and it holds no
/// frame it did not hold before.
pub proof fn lemma_bump_hands_out_each_frame_once(
    before: BumpFrameAllocator,
    after: BumpFrameAllocator,
    frame: Frame,
)
    requires
        before@ matches Some((first, count)) && frame@ == first && after@ == (if count > 1 {
            Some(((first + 4096) as u64, (count - 1) as u64))
        } else {
            None
        }),
        before@ matches Some((first, count)) ==> first + 4096 * count <= u64_max() + 1,
    ensures
        !bump_holds(after@, frame@ as int),
        forall|x: int| bump_holds(after@, x) ==> bump_holds(before@, x),
{
}

} // verus!
