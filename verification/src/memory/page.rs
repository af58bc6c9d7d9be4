//! Data structures representing pages and frames

use super::addr::{
    align_down_spec, align_up_spec, lemma_address_ext, lemma_align_down_bounds, lemma_common_alignments,
    lemma_length_ext, u64_max, Extent, PhysAddressType, VirtAddressType, Length, PhysAddress, PhysExtent, VirtAddress, VirtExtent,
};
use vstd::prelude::*;

verus! {

broadcast use lemma_address_ext, lemma_length_ext;

/// The size of a page or frame: 4 KiB.
pub const PAGE_SIZE: u64 = 4096;

/// A 4 KiB physical memory frame
#[derive(Debug, Eq, PartialOrd, Ord)]
pub struct Frame {
    start: PhysAddress,
}

impl View for Frame {
    type V = u64;

    /// The frame's start address.
    closed spec fn view(&self) -> u64 {
        self.start@
    }
}

impl Clone for Frame {
    fn clone(&self) -> (r: Self)
        ensures
            r == *self,
    {
        *self
    }
}

impl Copy for Frame {}

impl PartialEq for Frame {
    fn eq(&self, other: &Self) -> (r: bool) {
        self.start == other.start
    }
}

impl vstd::std_specs::cmp::PartialEqSpecImpl for Frame {
    open spec fn obeys_eq_spec() -> bool {
        true
    }

    open spec fn eq_spec(&self, other: &Self) -> bool {
        self@ == other@
    }
}

/// Two frames with the same start are the same frame.
pub broadcast proof fn lemma_frame_ext(a: Frame, b: Frame)
    requires
        #[trigger] a@ == #[trigger] b@,
    ensures
        a == b,
{
}

impl Frame {
    #[verifier::type_invariant]
    spec fn aligned(self) -> bool {
        self.start@ % 4096 == 0
    }

    /// Creates a `Frame` representing the frame beginning at `start`, which
    /// must be aligned to `PAGE_SIZE`.
    pub fn new(start: PhysAddress) -> (r: Frame)
        requires
            start@ % 4096 == 0,
        ensures
            r@ == start@,
    {
        Frame { start }
    }

    /// Which number frame this is: the start address divided by the page size.
    pub fn index(self) -> (r: u64)
        ensures
            r == self@ / 4096,
            r * 4096 == self@,
    {
        proof {
            use_type_invariant(&self);
        }
        self.start.as_raw() / PAGE_SIZE
    }

    /// Gets the `Frame` that contains `addr`.
    pub fn containing(addr: PhysAddress) -> (r: Frame)
        ensures
            r@ == align_down_spec(addr@ as int, 4096),
    {
        proof {
            lemma_common_alignments();
            lemma_align_down_bounds(addr@ as int, 4096);
        }
        Self::new(addr.align_down(PAGE_SIZE))
    }

    /// Start address of the frame
    pub fn start(self) -> (r: PhysAddress)
        ensures
            r@ == self@,
            r@ % 4096 == 0,
    {
        proof {
            use_type_invariant(&self);
        }
        self.start
    }

    /// Extent of memory contained in the frame. The frame must not be the
    /// last one of the address space, whose end is not representable.
    pub fn extent(self) -> (r: PhysExtent)
        requires
            self@ + 4096 <= u64_max(),
        ensures
            r.start() == self@,
            r.length@ == 4096,
    {
        PhysExtent::new(self.start, Length::from_raw(PAGE_SIZE))
    }

    /// The nth frame after `self`, or `None` if it's not addressable
    pub fn next(self, n: u64) -> (r: Option<Frame>)
        ensures
            r is Some <==> self@ + 4096 * n <= u64_max(),
            r matches Some(f) ==> f@ == self@ + 4096 * n,
    {
        proof {
            use_type_invariant(&self);
        }
        let offset = match PAGE_SIZE.checked_mul(n) {
            Some(o) => o,
            None => return None,
        };
        let next_start = match self.start.offset_by_checked(Length::from_raw(offset)) {
            Some(a) => a,
            None => return None,
        };
        assert((self@ + 4096 * n) % 4096 == 0) by (nonlinear_arith)
            requires
                self@ % 4096 == 0,
        ;
        Some(Self::new(next_start))
    }
}

/// A 4 KiB virtual memory page
#[derive(Debug, Eq, PartialOrd, Ord)]
pub struct Page {
    start: VirtAddress,
}

impl View for Page {
    type V = u64;

    /// The page's start address.
    closed spec fn view(&self) -> u64 {
        self.start@
    }
}

impl Clone for Page {
    fn clone(&self) -> (r: Self)
        ensures
            r == *self,
    {
        *self
    }
}

impl Copy for Page {}

impl PartialEq for Page {
    fn eq(&self, other: &Self) -> (r: bool) {
        self.start == other.start
    }
}

impl vstd::std_specs::cmp::PartialEqSpecImpl for Page {
    open spec fn obeys_eq_spec() -> bool {
        true
    }

    open spec fn eq_spec(&self, other: &Self) -> bool {
        self@ == other@
    }
}

/// Two pages with the same start are the same page.
pub broadcast proof fn lemma_page_ext(a: Page, b: Page)
    requires
        #[trigger] a@ == #[trigger] b@,
    ensures
        a == b,
{
}

/// The 9-bit page-table index that bits `shift..shift + 9` of `addr` select.
pub open spec fn table_index(addr: u64, shift: u64) -> u64 {
    ((addr >> shift) & 0x1ff) as u64
}

proof fn lemma_index_bits(x: u64, first_bit: u64)
    by (bit_vector)
    requires
        first_bit < 64,
    ensures
        (x & (0x1ffu64 << first_bit)) >> first_bit == (x >> first_bit) & 0x1ff,
        (x >> first_bit) & 0x1ff < 512,
{
}

impl Page {
    #[verifier::type_invariant]
    spec fn aligned(self) -> bool {
        self.start@ % 4096 == 0
    }

    /// Creates a `Page` representing the page beginning at `start`, which must
    /// be aligned to `PAGE_SIZE`.
    pub fn new(start: VirtAddress) -> (r: Page)
        requires
            start@ % 4096 == 0,
        ensures
            r@ == start@,
    {
        Page { start }
    }

    /// Gets the `Page` that contains `addr`.
    pub fn containing(addr: VirtAddress) -> (r: Page)
        ensures
            r@ == align_down_spec(addr@ as int, 4096),
    {
        proof {
            lemma_common_alignments();
            lemma_align_down_bounds(addr@ as int, 4096);
        }
        Self::new(addr.align_down(PAGE_SIZE))
    }

    /// Start address of the page
    pub fn start(&self) -> (r: VirtAddress)
        ensures
            r@ == self@,
            r@ % 4096 == 0,
    {
        proof {
            use_type_invariant(self);
        }
        self.start
    }

    /// Extent of virtual address space contained in the page. The page must
    /// not be the last one of the address space.
    pub fn extent(&self) -> (r: VirtExtent)
        requires
            self@ + 4096 <= u64_max(),
        ensures
            r.start() == self@,
            r.length@ == 4096,
    {
        VirtExtent::new(self.start, Length::from_raw(PAGE_SIZE))
    }

    /// The nth page after `self`, or `None` if it's not addressable
    pub fn next(self, n: u64) -> (r: Option<Page>)
        ensures
            r is Some <==> self@ + 4096 * n <= u64_max(),
            r matches Some(p) ==> p@ == self@ + 4096 * n,
    {
        proof {
            use_type_invariant(&self);
        }
        let offset = match PAGE_SIZE.checked_mul(n) {
            Some(o) => o,
            None => return None,
        };
        let next_start = match self.start.offset_by_checked(Length::from_raw(offset)) {
            Some(a) => a,
            None => return None,
        };
        assert((self@ + 4096 * n) % 4096 == 0) by (nonlinear_arith)
            requires
                self@ % 4096 == 0,
        ;
        Some(Self::new(next_start))
    }

    pub fn l4_index(self) -> (r: usize)
        ensures
            r == table_index(self@, 39),
            r < 512,
    {
        let first_bit: u64 = 39;
        proof {
            lemma_index_bits(self@, first_bit);
        }
        ((self.start.as_raw() & (0x1ffu64 << first_bit)) >> first_bit) as usize
    }

    pub fn l3_index(self) -> (r: usize)
        ensures
            r == table_index(self@, 30),
            r < 512,
    {
        let first_bit: u64 = 30;
        proof {
            lemma_index_bits(self@, first_bit);
        }
        ((self.start.as_raw() & (0x1ffu64 << first_bit)) >> first_bit) as usize
    }

    pub fn l2_index(self) -> (r: usize)
        ensures
            r == table_index(self@, 21),
            r < 512,
    {
        let first_bit: u64 = 21;
        proof {
            lemma_index_bits(self@, first_bit);
        }
        ((self.start.as_raw() & (0x1ffu64 << first_bit)) >> first_bit) as usize
    }

    pub fn l1_index(self) -> (r: usize)
        ensures
            r == table_index(self@, 12),
            r < 512,
    {
        let first_bit: u64 = 12;
        proof {
            lemma_index_bits(self@, first_bit);
        }
        ((self.start.as_raw() & (0x1ffu64 << first_bit)) >> first_bit) as usize
    }
}

/// The four table indices of a page-aligned address are its bits 12..48, nine
/// at a time, with no gap and no overlap.
pub proof fn lemma_page_indices_decompose(x: u64)
    requires
        x % 4096 == 0,
    ensures
        table_index(x, 39) < 512,
        table_index(x, 30) < 512,
        table_index(x, 21) < 512,
        table_index(x, 12) < 512,
        (table_index(x, 39) << 39u64) | (table_index(x, 30) << 30u64) | (table_index(x, 21)
            << 21u64) | (table_index(x, 12) << 12u64) == x & 0x0000_ffff_ffff_f000,
{
    assert(x & 0xfff == 0) by (bit_vector)
        requires
            x % 4096 == 0,
    ;
    assert((((x >> 39u64) & 0x1ff) << 39u64) | (((x >> 30u64) & 0x1ff) << 30u64) | (((x
        >> 21u64) & 0x1ff) << 21u64) | (((x >> 12u64) & 0x1ff) << 12u64) == x
        & 0x0000_ffff_ffff_f000) by (bit_vector);
    lemma_index_bits(x, 39);
    lemma_index_bits(x, 30);
    lemma_index_bits(x, 21);
    lemma_index_bits(x, 12);
}

/// Two page-aligned addresses in the lower half of the address space share
/// all four table indices only if they are equal.
pub proof fn lemma_distinct_pages_have_distinct_indices(x: u64, y: u64)
    requires
        x % 4096 == 0,
        y % 4096 == 0,
        x < 0x0001_0000_0000_0000,
        y < 0x0001_0000_0000_0000,
        table_index(x, 39) == table_index(y, 39),
        table_index(x, 30) == table_index(y, 30),
        table_index(x, 21) == table_index(y, 21),
        table_index(x, 12) == table_index(y, 12),
    ensures
        x == y,
{
    lemma_page_indices_decompose(x);
    lemma_page_indices_decompose(y);
    assert(x & 0x0000_ffff_ffff_f000 == x && y & 0x0000_ffff_ffff_f000 == y) by (bit_vector)
        requires
            x % 4096 == 0,
            x < 0x0001_0000_0000_0000,
            y % 4096 == 0,
            y < 0x0001_0000_0000_0000,
    ;
}


/// A contiguous range of frames. Always non-empty.
#[derive(Debug, Eq)]
pub struct FrameRange {
    first: Frame,
    count: u64,
}

impl View for FrameRange {
    type V = (u64, u64);

    /// The first frame's start address and the number of frames.
    closed spec fn view(&self) -> (u64, u64) {
        (self.first@, self.count)
    }
}

impl Clone for FrameRange {
    fn clone(&self) -> (r: Self)
        ensures
            r == *self,
    {
        *self
    }
}

impl Copy for FrameRange {}

impl PartialEq for FrameRange {
    fn eq(&self, other: &Self) -> (r: bool) {
        self.first == other.first && self.count == other.count
    }
}

impl vstd::std_specs::cmp::PartialEqSpecImpl for FrameRange {
    open spec fn obeys_eq_spec() -> bool {
        true
    }

    open spec fn eq_spec(&self, other: &Self) -> bool {
        self@ == other@
    }
}

impl FrameRange {
    #[verifier::type_invariant]
    spec fn well_formed(self) -> bool {
        &&& self.count != 0
        &&& self.first@ + 4096 * (self.count - 1) <= u64_max()
    }

    /// Start address of the first frame.
    pub open spec fn first_start(self) -> int {
        self@.0 as int
    }

    /// Start address of the last frame.
    pub open spec fn last_start(self) -> int {
        self@.0 + 4096 * (self@.1 - 1)
    }

    /// `count` frames starting at `first`, or `None` if `count` is zero or the
    /// last of them would not be addressable.
    pub fn new(first: Frame, count: u64) -> (r: Option<FrameRange>)
        ensures
            r is Some <==> (count != 0 && first@ + 4096 * (count - 1) <= u64_max()),
            r matches Some(range) ==> range@ == (first@, count),
    {
        if count == 0 {
            return None;
        }
        match first.next(count - 1) {
            Some(_) => Some(FrameRange { first, count }),
            None => None,
        }
    }

    /// A single frame.
    pub fn one(frame: Frame) -> (r: FrameRange)
        ensures
            r@ == (frame@, 1u64),
    {
        FrameRange { first: frame, count: 1 }
    }

    /// All frames from `first` through `last`, both included.
    pub fn between_inclusive(first: Frame, last: Frame) -> (r: FrameRange)
        requires
            first@ <= last@,
        ensures
            r@ == (first@, ((last@ - first@) / 4096 + 1) as u64),
            r.last_start() == last@,
    {
        let first_start = first.start();
        let last_start = last.start();
        let len = last_start.sub_address(first_start);
        let count = len.as_raw() / PAGE_SIZE + 1;
        assert(4096 * (count - 1) == last@ - first@) by (nonlinear_arith)
            requires
                count == (last@ - first@) / 4096 + 1,
                first@ % 4096 == 0,
                last@ % 4096 == 0,
                first@ <= last@,
        ;
        FrameRange { first, count }
    }

    /// All frames from `first` up to but not including `last`; `last` must lie
    /// above `first`.
    pub fn between_exclusive(first: Frame, last: Frame) -> (r: FrameRange)
        requires
            first@ < last@,
        ensures
            r@ == (first@, ((last@ - first@) / 4096) as u64),
            r.last_start() + 4096 == last@,
    {
        let first_start = first.start();
        let last_start = last.start();
        let len = last_start.sub_address(first_start);
        let count = len.as_raw() / PAGE_SIZE;
        assert(4096 * count == last@ - first@ && count >= 1) by (nonlinear_arith)
            requires
                count == (last@ - first@) / 4096,
                first@ % 4096 == 0,
                last@ % 4096 == 0,
                first@ < last@,
        ;
        FrameRange { first, count }
    }

    /// The maximal range fully contained in `extent`, which must end at a
    /// representable address. `None` if no whole frame fits, including when
    /// `extent` starts inside the final partial page of the address space.
    pub fn contained_by_extent(extent: PhysExtent) -> (r: Option<FrameRange>)
        requires
            extent.end() <= u64_max(),
        ensures
            r is Some <==> (extent.start() + 4095 <= u64_max() && align_up_spec(extent.start(), 4096)
                < align_down_spec(extent.end(), 4096)),
            r matches Some(range) ==> range.first_start() == align_up_spec(extent.start(), 4096)
                && range.last_start() + 4096 == align_down_spec(extent.end(), 4096),
    {
        proof {
            lemma_common_alignments();
            lemma_align_down_bounds(extent.start() + 4095, 4096);
            lemma_align_down_bounds(extent.end(), 4096);
        }
        let first = match extent.address().align_up_checked(PAGE_SIZE) {
            Some(a) => a,
            None => return None,
        };
        let last = extent.end_address().align_down(PAGE_SIZE);
        if first.as_raw() >= last.as_raw() {
            return None;
        }
        Some(Self::between_exclusive(Frame::new(first), Frame::new(last)))
    }

    /// The minimal range fully containing `extent`, which must end at a
    /// representable address.
    pub fn containing_extent(extent: Extent<PhysAddressType>) -> (r: FrameRange)
        requires
            1 <= extent.end() <= u64_max(),
            align_down_spec(extent.start(), 4096) <= align_down_spec(extent.end() - 1, 4096),
        ensures
            r.first_start() == align_down_spec(extent.start(), 4096),
            r.last_start() == align_down_spec(extent.end() - 1, 4096),
    {
        let first = Frame::containing(extent.address());
        let last = Frame::containing(extent.last_address());
        Self::between_inclusive(first, last)
    }

    pub fn first(&self) -> (r: Frame)
        ensures
            r@ == self@.0,
    {
        self.first
    }

    pub fn count(&self) -> (r: u64)
        ensures
            r == self@.1,
            r != 0,
            self.first_start() + 4096 * (r - 1) <= u64_max(),
            self.first_start() % 4096 == 0,
    {
        proof {
            use_type_invariant(self);
            use_type_invariant(&self.first);
        }
        self.count
    }

    /// The last frame within the range.
    pub fn last(&self) -> (r: Frame)
        ensures
            r@ == self.last_start(),
    {
        proof {
            use_type_invariant(self);
        }
        match self.first.next(self.count - 1) {
            Some(f) => f,
            None => self.first,
        }
    }

    /// The first frame after the range, or `None` if it ends at the last one.
    pub fn end(&self) -> (r: Option<Frame>)
        ensures
            r is Some <==> self.last_start() + 4096 <= u64_max(),
            r matches Some(f) ==> f@ == self.last_start() + 4096,
    {
        proof {
            use_type_invariant(self);
        }
        self.first.next(self.count)
    }

    /// The frames of the range, in order. The count must fit in a `usize`.
    pub fn iter(&self) -> (r: Vec<Frame>)
        requires
            self@.1 <= usize::MAX,
        ensures
            r.len() == self@.1,
            forall|i: int| 0 <= i < r.len() ==> #[trigger] r[i]@ == self@.0 + 4096 * i,
    {
        proof {
            use_type_invariant(self);
        }
        let mut out: Vec<Frame> = Vec::new();
        let mut i: u64 = 0;
        while i < self.count
            invariant
                i <= self.count,
                self.count == self@.1,
                self.first@ == self@.0,
                self@.1 <= usize::MAX,
                self.first@ + 4096 * (self.count - 1) <= u64_max(),
                out.len() == i,
                forall|j: int| 0 <= j < out.len() ==> #[trigger] out[j]@ == self@.0 + 4096 * j,
            decreases self.count - i,
        {
            match self.first.next(i) {
                Some(f) => out.push(f),
                None => {},
            }
            i = i + 1;
        }
        out
    }
}

/// A contiguous range of pages. Always non-empty.
#[derive(Debug, Eq)]
pub struct PageRange {
    first: Page,
    count: u64,
}

impl View for PageRange {
    type V = (u64, u64);

    /// The first page's start address and the number of pages.
    closed spec fn view(&self) -> (u64, u64) {
        (self.first@, self.count)
    }
}

impl Clone for PageRange {
    fn clone(&self) -> (r: Self)
        ensures
            r == *self,
    {
        *self
    }
}

impl Copy for PageRange {}

impl PartialEq for PageRange {
    fn eq(&self, other: &Self) -> (r: bool) {
        self.first == other.first && self.count == other.count
    }
}

impl vstd::std_specs::cmp::PartialEqSpecImpl for PageRange {
    open spec fn obeys_eq_spec() -> bool {
        true
    }

    open spec fn eq_spec(&self, other: &Self) -> bool {
        self@ == other@
    }
}

impl PageRange {
    #[verifier::type_invariant]
    spec fn well_formed(self) -> bool {
        &&& self.count != 0
        &&& self.first@ + 4096 * (self.count - 1) <= u64_max()
    }

    /// Start address of the first page.
    pub open spec fn first_start(self) -> int {
        self@.0 as int
    }

    /// Start address of the last page.
    pub open spec fn last_start(self) -> int {
        self@.0 + 4096 * (self@.1 - 1)
    }

    /// `count` pages starting at `first`, or `None` if `count` is zero or the
    /// last of them would not be addressable.
    pub fn new(first: Page, count: u64) -> (r: Option<PageRange>)
        ensures
            r is Some <==> (count != 0 && first@ + 4096 * (count - 1) <= u64_max()),
            r matches Some(range) ==> range@ == (first@, count),
    {
        if count == 0 {
            return None;
        }
        match first.next(count - 1) {
            Some(_) => Some(PageRange { first, count }),
            None => None,
        }
    }

    /// A single page.
    pub fn one(page: Page) -> (r: PageRange)
        ensures
            r@ == (page@, 1u64),
    {
        PageRange { first: page, count: 1 }
    }

    /// All pages from `first` through `last`, both included.
    pub fn between_inclusive(first: Page, last: Page) -> (r: PageRange)
        requires
            first@ <= last@,
        ensures
            r@ == (first@, ((last@ - first@) / 4096 + 1) as u64),
            r.last_start() == last@,
    {
        let first_start = first.start();
        let last_start = last.start();
        let len = last_start.sub_address(first_start);
        let count = len.as_raw() / PAGE_SIZE + 1;
        assert(4096 * (count - 1) == last@ - first@) by (nonlinear_arith)
            requires
                count == (last@ - first@) / 4096 + 1,
                first@ % 4096 == 0,
                last@ % 4096 == 0,
                first@ <= last@,
        ;
        PageRange { first, count }
    }

    /// All pages from `first` up to but not including `last`, or `None` when
    /// there are none. `last` must not lie below `first`.
    pub fn between_exclusive(first: Page, last: Page) -> (r: Option<PageRange>)
        requires
            first@ <= last@,
        ensures
            r is Some <==> first@ < last@,
            r matches Some(range) ==> range@ == (first@, ((last@ - first@) / 4096) as u64)
                && range.last_start() + 4096 == last@,
    {
        let first_start = first.start();
        let last_start = last.start();
        let len = last_start.sub_address(first_start);
        let count = len.as_raw() / PAGE_SIZE;
        if count == 0 {
            proof {
                if first@ < last@ {
                    lemma_gap(first@ as int, last@ as int, 4096);
                }
            }
            return None;
        }
        assert(4096 * count == last@ - first@) by (nonlinear_arith)
            requires
                count == (last@ - first@) / 4096,
                first@ % 4096 == 0,
                last@ % 4096 == 0,
                first@ <= last@,
        ;
        Some(PageRange { first, count })
    }

    /// The minimal range fully containing `extent`, which must end at a
    /// representable address.
    pub fn containing_extent(extent: Extent<VirtAddressType>) -> (r: PageRange)
        requires
            1 <= extent.end() <= u64_max(),
            align_down_spec(extent.start(), 4096) <= align_down_spec(extent.end() - 1, 4096),
        ensures
            r.first_start() == align_down_spec(extent.start(), 4096),
            r.last_start() == align_down_spec(extent.end() - 1, 4096),
    {
        let first = Page::containing(extent.address());
        let last = Page::containing(extent.last_address());
        Self::between_inclusive(first, last)
    }

    pub fn first(&self) -> (r: Page)
        ensures
            r@ == self@.0,
    {
        self.first
    }

    pub fn count(&self) -> (r: u64)
        ensures
            r == self@.1,
            r != 0,
            self.first_start() + 4096 * (r - 1) <= u64_max(),
            self.first_start() % 4096 == 0,
    {
        proof {
            use_type_invariant(self);
            use_type_invariant(&self.first);
        }
        self.count
    }

    /// The last page within the range.
    pub fn last(&self) -> (r: Page)
        ensures
            r@ == self.last_start(),
    {
        proof {
            use_type_invariant(self);
        }
        match self.first.next(self.count - 1) {
            Some(f) => f,
            None => self.first,
        }
    }

    /// The first page after the range, or `None` if it ends at the last one.
    pub fn end(&self) -> (r: Option<Page>)
        ensures
            r is Some <==> self.last_start() + 4096 <= u64_max(),
            r matches Some(f) ==> f@ == self.last_start() + 4096,
    {
        proof {
            use_type_invariant(self);
        }
        self.first.next(self.count)
    }

    /// The pages of the range, in order. The count must fit in a `usize`.
    pub fn iter(&self) -> (r: Vec<Page>)
        requires
            self@.1 <= usize::MAX,
        ensures
            r.len() == self@.1,
            forall|i: int| 0 <= i < r.len() ==> #[trigger] r[i]@ == self@.0 + 4096 * i,
    {
        proof {
            use_type_invariant(self);
        }
        let mut out: Vec<Page> = Vec::new();
        let mut i: u64 = 0;
        while i < self.count
            invariant
                i <= self.count,
                self.count == self@.1,
                self.first@ == self@.0,
                self@.1 <= usize::MAX,
                self.first@ + 4096 * (self.count - 1) <= u64_max(),
                out.len() == i,
                forall|j: int| 0 <= j < out.len() ==> #[trigger] out[j]@ == self@.0 + 4096 * j,
            decreases self.count - i,
        {
            match self.first.next(i) {
                Some(f) => out.push(f),
                None => {},
            }
            i = i + 1;
        }
        out
    }
}

proof fn lemma_gap(s: int, u: int, a: int)
    requires
        a > 0,
        s >= 0,
        u >= 0,
        s % a == 0,
        u % a == 0,
        s < u,
    ensures
        s + a <= u,
{
    vstd::arithmetic::div_mod::lemma_fundamental_div_mod(s, a);
    vstd::arithmetic::div_mod::lemma_fundamental_div_mod(u, a);
    let qs = s / a;
    let qu = u / a;
    assert(s + a <= u) by (nonlinear_arith)
        requires
            s == a * qs,
            u == a * qu,
            s < u,
            a > 0,
    ;
}

} // verus!
