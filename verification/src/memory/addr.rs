//! Physical and virtual addresses, lengths, and extents of address space.

mod order;

pub use order::{lemma_address_order, lemma_length_order};
use vstd::arithmetic::power2::pow2;
use vstd::prelude::*;

verus! {

/// Tags an `Address` as physical or virtual.
pub trait AddressType {}

#[derive(Clone, Copy, Debug, PartialEq, Eq, PartialOrd, Ord, Hash)]
pub struct PhysAddressType;

#[derive(Clone, Copy, Debug, PartialEq, Eq, PartialOrd, Ord, Hash)]
pub struct VirtAddressType;

impl AddressType for PhysAddressType {}

impl AddressType for VirtAddressType {}

/// The largest value a `u64` holds, as a mathematical integer.
pub open spec fn u64_max() -> int {
    0xffff_ffff_ffff_ffff
}

/// `a` is a power of two.
pub open spec fn is_power_of_two(a: u64) -> bool {
    exists|k: nat| k < 64 && a == pow2(k)
}

/// The greatest multiple of `alignment` not above `x`.
pub open spec fn align_down_spec(x: int, alignment: int) -> int {
    x - x % alignment
}

/// The least multiple of `alignment` not below `x`.
pub open spec fn align_up_spec(x: int, alignment: int) -> int {
    align_down_spec(x + alignment - 1, alignment)
}

proof fn lemma_clear_low_bits(x: u64, m: u64)
    by (bit_vector)
    ensures
        x & !m == x - (x & m),
        x & m <= x,
{
}

/// Masking with `alignment - 1` takes the remainder modulo a power of two.
pub proof fn lemma_low_mask_is_mod(x: u64, a: u64)
    requires
        is_power_of_two(a),
    ensures
        a > 0,
        x & ((a - 1) as u64) == x % a,
        x & !((a - 1) as u64) == x - x % a,
{
    let k = choose|k: nat| k < 64 && a == pow2(k);
    vstd::bits::lemma_u64_pow2_no_overflow(k);
    vstd::arithmetic::power2::lemma_pow2_pos(k);
    vstd::bits::lemma_u64_low_bits_mask_is_mod(x, k);
    lemma_clear_low_bits(x, (a - 1) as u64);
}

/// Facts about aligning down to a power of two, used by the address types.
pub proof fn lemma_align_down_bounds(x: int, a: int)
    requires
        a > 0,
        x >= 0,
    ensures
        0 <= align_down_spec(x, a) <= x,
        x - align_down_spec(x, a) < a,
        align_down_spec(x, a) % a == 0,
{
    vstd::arithmetic::div_mod::lemma_mod_bound(x, a);
    vstd::arithmetic::div_mod::lemma_fundamental_div_mod(x, a);
    vstd::arithmetic::div_mod::lemma_mod_multiples_basic(x / a, a);
    assert(a * (x / a) == (x / a) * a) by (nonlinear_arith);
}

/// Given power-of-two `alignment`, returns the largest value below `x` aligned
/// to `alignment`.
pub fn align_u64_down(x: u64, alignment: u64) -> (r: u64)
    requires
        is_power_of_two(alignment),
    ensures
        r == align_down_spec(x as int, alignment as int),
{
    proof {
        lemma_low_mask_is_mod(x, alignment);
    }
    let mask = !(alignment - 1);
    x & mask
}

/// Given power-of-two `alignment`, returns the smallest value above `x`
/// aligned to `alignment`, or `None` if that value is not representable.
pub fn align_u64_up_checked(x: u64, alignment: u64) -> (r: Option<u64>)
    requires
        is_power_of_two(alignment),
    ensures
        r is Some <==> x + alignment - 1 <= u64_max(),
        r matches Some(v) ==> v == align_up_spec(x as int, alignment as int),
{
    proof {
        lemma_low_mask_is_mod(x, alignment);
    }
    match x.checked_add(alignment - 1) {
        Some(sum) => Some(align_u64_down(sum, alignment)),
        None => None,
    }
}

/// Given power-of-two `alignment`, returns the smallest value above `x`
/// aligned to `alignment`. That value must be representable.
pub fn align_u64_up(x: u64, alignment: u64) -> (r: u64)
    requires
        is_power_of_two(alignment),
        x + alignment - 1 <= u64_max(),
    ensures
        r == align_up_spec(x as int, alignment as int),
{
    match align_u64_up_checked(x, alignment) {
        Some(aligned) => aligned,
        None => 0,
    }
}


/// The alignments this crate uses are powers of two.
pub proof fn lemma_common_alignments()
    ensures
        is_power_of_two(1),
        is_power_of_two(2),
        is_power_of_two(1024),
        is_power_of_two(4096),
        is_power_of_two(0x20_0000),
        is_power_of_two(0x4000_0000),
{
    vstd::arithmetic::power2::lemma2_to64();
    assert(pow2(0) == 1);
    assert(pow2(1) == 2);
    assert(pow2(10) == 1024);
    assert(pow2(12) == 4096);
    assert(pow2(21) == 0x20_0000);
    assert(pow2(30) == 0x4000_0000);
}

/// An address in either physical or virtual address space.
#[derive(Debug, Eq, Ord, Hash)]
pub struct Address<Type: AddressType>(u64, core::marker::PhantomData<Type>);

pub type PhysAddress = Address<PhysAddressType>;

pub type VirtAddress = Address<VirtAddressType>;

impl<Type: AddressType> View for Address<Type> {
    type V = u64;

    closed spec fn view(&self) -> u64 {
        self.0
    }
}

impl<Type: AddressType> Clone for Address<Type> {
    fn clone(&self) -> (r: Self)
        ensures
            r == *self,
    {
        *self
    }
}

impl<Type: AddressType> Copy for Address<Type> {}

impl<Type: AddressType> PartialEq for Address<Type> {
    fn eq(&self, other: &Self) -> (r: bool) {
        self.0 == other.0
    }
}

impl<Type: AddressType> vstd::std_specs::cmp::PartialEqSpecImpl for Address<Type> {
    open spec fn obeys_eq_spec() -> bool {
        true
    }

    open spec fn eq_spec(&self, other: &Self) -> bool {
        self@ == other@
    }
}

/// Two addresses with the same value are the same address.
pub broadcast proof fn lemma_address_ext<Type: AddressType>(a: Address<Type>, b: Address<Type>)
    requires
        #[trigger] a@ == #[trigger] b@,
    ensures
        a == b,
{
}

impl<Type: AddressType> Address<Type> {
    pub fn from_raw(val: u64) -> (r: Self)
        ensures
            r@ == val,
    {
        Address(val, core::marker::PhantomData)
    }

    pub fn zero() -> (r: Self)
        ensures
            r@ == 0,
    {
        Self::from_raw(0)
    }

    pub fn is_zero(self) -> (r: bool)
        ensures
            r == (self@ == 0),
    {
        self.0 == 0
    }

    pub fn as_raw(self) -> (r: u64)
        ensures
            r == self@,
    {
        self.0
    }

    pub fn from_zero(offset: Length) -> (r: Self)
        ensures
            r@ == offset@,
    {
        Self::from_raw(offset.as_raw())
    }

    /// `self` moved up by `length`, or `None` if that passes `u64::MAX`.
    pub fn offset_by_checked(self, length: Length) -> (r: Option<Self>)
        ensures
            r is Some <==> self@ + length@ <= u64_max(),
            r matches Some(a) ==> a@ == self@ + length@,
    {
        match self.0.checked_add(length.0) {
            Some(v) => Some(Self::from_raw(v)),
            None => None,
        }
    }

    /// `self` moved up by `length`, which must stay representable.
    pub fn add_length(self, length: Length) -> (r: Self)
        requires
            self@ + length@ <= u64_max(),
        ensures
            r@ == self@ + length@,
    {
        Self::from_raw(self.0 + length.0)
    }

    /// `self` moved down by `length`, which must not pass zero.
    pub fn sub_length(self, length: Length) -> (r: Self)
        requires
            length@ <= self@,
        ensures
            r@ == self@ - length@,
    {
        Self::from_raw(self.0 - length.0)
    }

    /// The distance from `base` up to `self`; `base` must not lie above `self`.
    pub fn sub_address(self, base: Self) -> (r: Length)
        requires
            base@ <= self@,
        ensures
            r@ == self@ - base@,
    {
        Length(self.0 - base.0)
    }

    pub fn is_aligned_to(self, alignment: u64) -> (r: bool)
        requires
            is_power_of_two(alignment),
        ensures
            r == (self@ % alignment == 0),
    {
        proof {
            lemma_low_mask_is_mod(self.0, alignment);
        }
        self.0 == self.align_down(alignment).0
    }

    pub fn is_aligned_to_length(self, alignment: Length) -> (r: bool)
        requires
            is_power_of_two(alignment@),
        ensures
            r == (self@ % alignment@ == 0),
    {
        self.is_aligned_to(alignment.0)
    }

    /// Returns the last address below `self` that is aligned to `alignment`,
    /// which must be a power of two.
    pub fn align_down(self, alignment: u64) -> (r: Self)
        requires
            is_power_of_two(alignment),
        ensures
            r@ == align_down_spec(self@ as int, alignment as int),
    {
        Self::from_raw(align_u64_down(self.as_raw(), alignment))
    }

    /// Returns the first address above `self` that is aligned to `alignment`,
    /// which must be a power of two. That address must be representable.
    pub fn align_up(self, alignment: u64) -> (r: Self)
        requires
            is_power_of_two(alignment),
            self@ + alignment - 1 <= u64_max(),
        ensures
            r@ == align_up_spec(self@ as int, alignment as int),
    {
        Self::from_raw(align_u64_up(self.as_raw(), alignment))
    }

    /// Like `align_up`, but `None` when the aligned address is not
    /// representable.
    pub fn align_up_checked(self, alignment: u64) -> (r: Option<Self>)
        requires
            is_power_of_two(alignment),
        ensures
            r is Some <==> self@ + alignment - 1 <= u64_max(),
            r matches Some(a) ==> a@ == align_up_spec(self@ as int, alignment as int),
    {
        match align_u64_up_checked(self.as_raw(), alignment) {
            Some(aligned) => Some(Self::from_raw(aligned)),
            None => None,
        }
    }
}

/// A length of address space, in bytes.
#[derive(Clone, Copy, Debug, PartialEq, Eq, Structural, Ord, Hash)]
pub struct Length(u64);

impl View for Length {
    type V = u64;

    closed spec fn view(&self) -> u64 {
        self.0
    }
}

/// Two lengths with the same value are the same length.
pub broadcast proof fn lemma_length_ext(a: Length, b: Length)
    requires
        #[trigger] a@ == #[trigger] b@,
    ensures
        a == b,
{
}

impl Length {
    pub fn from_raw(val: u64) -> (r: Length)
        ensures
            r@ == val,
    {
        Length(val)
    }

    pub fn as_raw(self) -> (r: u64)
        ensures
            r == self@,
    {
        self.0
    }

    pub fn is_aligned_to(self, alignment: u64) -> (r: bool)
        requires
            is_power_of_two(alignment),
        ensures
            r == (self@ % alignment == 0),
    {
        proof {
            lemma_low_mask_is_mod(self.0, alignment);
        }
        self.0 == self.align_down(alignment).0
    }

    /// Returns the last length not greater than `self` that is aligned to
    /// `alignment`, which must be a power of two.
    pub fn align_down(self, alignment: u64) -> (r: Length)
        requires
            is_power_of_two(alignment),
        ensures
            r@ == align_down_spec(self@ as int, alignment as int),
    {
        Length::from_raw(align_u64_down(self.as_raw(), alignment))
    }

    /// Returns the first length not less than `self` that is aligned to
    /// `alignment`, which must be a power of two.
    pub fn align_up(self, alignment: u64) -> (r: Length)
        requires
            is_power_of_two(alignment),
            self@ + alignment - 1 <= u64_max(),
        ensures
            r@ == align_up_spec(self@ as int, alignment as int),
    {
        Length::from_raw(align_u64_up(self.as_raw(), alignment))
    }

    /// The minimum number of pages of length at least `self`: zero for a
    /// zero length.
    pub fn num_pages(self) -> (r: u64)
        requires
            self@ + 4095 <= u64_max(),
        ensures
            r == (self@ + 4095) / 4096,
            r as int * 4096 >= self@,
            r == 0 || (r as int - 1) * 4096 < self@,
    {
        let r = (self.0 + 4095) / 4096;
        assert(r as int * 4096 >= self@ && (r == 0 || (r as int - 1) * 4096 < self@)) by (nonlinear_arith)
            requires
                r == (self@ + 4095) / 4096,
                self@ >= 0,
        ;
        r
    }

    pub fn add(self, rhs: Length) -> (r: Length)
        requires
            self@ + rhs@ <= u64_max(),
        ensures
            r@ == self@ + rhs@,
    {
        Length(self.0 + rhs.0)
    }

    pub fn sub(self, rhs: Length) -> (r: Length)
        requires
            rhs@ <= self@,
        ensures
            r@ == self@ - rhs@,
    {
        Length(self.0 - rhs.0)
    }

    pub fn mul(self, rhs: u64) -> (r: Length)
        requires
            self@ * rhs <= u64_max(),
        ensures
            r@ == self@ * rhs,
    {
        Length(self.0 * rhs)
    }
}


/// A range of addresses: `length` bytes starting at `address`.
#[derive(Debug, Eq, Hash)]
pub struct Extent<Type: AddressType> {
    pub address: Address<Type>,
    pub length: Length,
}

pub type PhysExtent = Extent<PhysAddressType>;

pub type VirtExtent = Extent<VirtAddressType>;

impl<Type: AddressType> Clone for Extent<Type> {
    fn clone(&self) -> (r: Self)
        ensures
            r == *self,
    {
        *self
    }
}

impl<Type: AddressType> Copy for Extent<Type> {}

impl<Type: AddressType> PartialEq for Extent<Type> {
    fn eq(&self, other: &Self) -> (r: bool) {
        self.address == other.address && self.length == other.length
    }
}

impl<Type: AddressType> vstd::std_specs::cmp::PartialEqSpecImpl for Extent<Type> {
    open spec fn obeys_eq_spec() -> bool {
        true
    }

    open spec fn eq_spec(&self, other: &Self) -> bool {
        self.address@ == other.address@ && self.length@ == other.length@
    }
}

/// Two extents with the same endpoints are the same extent.
pub proof fn lemma_extent_ext<Type: AddressType>(a: Extent<Type>, b: Extent<Type>)
    requires
        a.start() == b.start(),
        a.end() == b.end(),
    ensures
        a == b,
{
    lemma_address_ext(a.address, b.address);
    lemma_length_ext(a.length, b.length);
}

/// Whether the two extents meet, as `Extent::overlap` decides it: the one that
/// starts later (or `b`, on a tie) must start before the other one ends.
pub open spec fn overlap_exists<Type: AddressType>(a: Extent<Type>, b: Extent<Type>) -> bool {
    if a.start() <= b.start() {
        b.start() < a.end()
    } else {
        a.start() < b.end()
    }
}

pub open spec fn max_int(a: int, b: int) -> int {
    if a >= b {
        a
    } else {
        b
    }
}

pub open spec fn min_int(a: int, b: int) -> int {
    if a <= b {
        a
    } else {
        b
    }
}

/// The interval `[start, end)` an optional extent covers.
pub open spec fn interval_of<Type: AddressType>(r: Option<Extent<Type>>) -> Option<(int, int)> {
    match r {
        Some(e) => Some((e.start(), e.end())),
        None => None,
    }
}

/// Length of an optional interval; zero when absent.
pub open spec fn interval_len(i: Option<(int, int)>) -> int {
    match i {
        Some((lo, hi)) => hi - lo,
        None => 0,
    }
}

/// What `Extent::overlap` yields: from the later start to the earlier end.
pub open spec fn overlap_interval<Type: AddressType>(a: Extent<Type>, b: Extent<Type>) -> Option<
    (int, int),
> {
    if overlap_exists(a, b) {
        Some((max_int(a.start(), b.start()), min_int(a.end(), b.end())))
    } else {
        None
    }
}

/// What `Extent::left_difference` yields: the part of `a` below `b`'s start.
pub open spec fn left_difference_interval<Type: AddressType>(
    a: Extent<Type>,
    b: Extent<Type>,
) -> Option<(int, int)> {
    if a.start() < b.start() {
        Some((a.start(), min_int(a.end(), b.start())))
    } else {
        None
    }
}

/// What `Extent::right_difference` yields: the part of `a` above `b`'s end.
pub open spec fn right_difference_interval<Type: AddressType>(
    a: Extent<Type>,
    b: Extent<Type>,
) -> Option<(int, int)> {
    if a.end() > b.end() {
        Some((max_int(a.start(), b.end()), a.end()))
    } else {
        None
    }
}

impl<Type: AddressType> Extent<Type> {
    /// The first address in the extent, as an integer.
    pub open spec fn start(self) -> int {
        self.address@ as int
    }

    /// One past the last address in the extent, as an integer. It may be
    /// `2^64` or beyond, which no `Address` can hold.
    pub open spec fn end(self) -> int {
        self.address@ + self.length@
    }

    /// Non-empty, and its end is representable.
    pub open spec fn wf(self) -> bool {
        self.length@ != 0 && self.end() <= u64_max()
    }

    /// Whether `p` lies in the extent.
    pub open spec fn contains_addr(self, p: int) -> bool {
        self.start() <= p < self.end()
    }

    /// Builds an extent; it must be well formed.
    pub fn new(address: Address<Type>, length: Length) -> (r: Self)
        requires
            length@ != 0,
            address@ + length@ <= u64_max(),
        ensures
            r.address == address,
            r.length == length,
    {
        Extent { address, length }
    }

    /// Builds an extent, or `None` if it would be empty or wrap past
    /// `u64::MAX`.
    pub fn new_checked(address: Address<Type>, length: Length) -> (r: Option<Self>)
        ensures
            r is Some <==> (length@ != 0 && address@ + length@ <= u64_max()),
            r matches Some(e) ==> e.address == address && e.length == length,
    {
        if length.as_raw() == 0 || length.as_raw() > u64::MAX - address.as_raw() {
            None
        } else {
            Some(Extent { address, length })
        }
    }

    pub fn from_raw(address: u64, length: u64) -> (r: Self)
        requires
            length != 0,
            address + length <= u64_max(),
        ensures
            r.start() == address,
            r.length@ == length,
    {
        Self::new(Address::<Type>::from_raw(address), Length::from_raw(length))
    }

    pub fn from_raw_range_exclusive(begin_address: u64, end_address: u64) -> (r: Self)
        requires
            begin_address <= end_address,
        ensures
            r.start() == begin_address,
            r.end() == end_address,
    {
        Self::from_range_exclusive(
            Address::<Type>::from_raw(begin_address),
            Address::<Type>::from_raw(end_address),
        )
    }

    /// The extent from `begin` up to but not including `end`. It is empty when
    /// they are equal.
    pub fn from_range_exclusive(begin: Address<Type>, end: Address<Type>) -> (r: Self)
        requires
            begin@ <= end@,
        ensures
            r.address == begin,
            r.end() == end@,
    {
        Extent { address: begin, length: Length::from_raw(end.as_raw() - begin.as_raw()) }
    }

    /// The extent from `start` through `last`, both included.
    pub fn from_range_inclusive(start: Address<Type>, last: Address<Type>) -> (r: Self)
        requires
            start@ <= last@,
            last@ - start@ + 1 <= u64_max(),
        ensures
            r.address == start,
            r.end() == last@ + 1,
    {
        Extent { address: start, length: last.sub_address(start).add(Length::from_raw(1)) }
    }

    pub fn address(self) -> (r: Address<Type>)
        ensures
            r == self.address,
    {
        self.address
    }

    pub fn length(self) -> (r: Length)
        ensures
            r == self.length,
    {
        self.length
    }

    /// The first address just outside us, to the right.
    pub fn end_address(self) -> (r: Address<Type>)
        requires
            self.end() <= u64_max(),
        ensures
            r@ == self.end(),
    {
        self.address.add_length(self.length)
    }

    /// The last address in the extent.
    pub fn last_address(self) -> (r: Address<Type>)
        requires
            1 <= self.end() <= u64_max(),
        ensures
            r@ == self.end() - 1,
    {
        self.address.add_length(self.length).sub_length(Length::from_raw(1))
    }

    /// The intersection of the two extents, when they meet.
    pub fn overlap(self, other: Self) -> (r: Option<Self>)
        ensures
            interval_of(r) == overlap_interval(self, other),
    {
        let (first, second) = if self.address.as_raw() > other.address.as_raw() {
            (other, self)
        } else {
            (self, other)
        };
        let overlap_start = second.address;
        if overlap_start.sub_address(first.address).as_raw() >= first.length.as_raw() {
            return None;
        }
        let rest = first.length.sub(overlap_start.sub_address(first.address));
        let overlap_length = if rest.as_raw() <= second.length.as_raw() {
            rest
        } else {
            second.length
        };
        Some(Extent { address: overlap_start, length: overlap_length })
    }

    /// The smallest extent that contains `self` and `other`.
    pub fn join(self, other: Self) -> (r: Self)
        requires
            1 <= self.end() <= u64_max(),
            1 <= other.end() <= u64_max(),
            max_int(self.end(), other.end()) > min_int(self.start(), other.start()),
            max_int(self.end(), other.end()) - min_int(self.start(), other.start()) <= u64_max(),
        ensures
            r.start() == min_int(self.start(), other.start()),
            r.end() == max_int(self.end(), other.end()),
    {
        let min_start = if self.address.as_raw() <= other.address.as_raw() {
            self.address
        } else {
            other.address
        };
        let a_last = self.last_address();
        let b_last = other.last_address();
        let max_last = if a_last.as_raw() >= b_last.as_raw() {
            a_last
        } else {
            b_last
        };
        Self::from_range_inclusive(min_start, max_last)
    }

    pub fn has_overlap(self, other: Self) -> (r: bool)
        ensures
            r == overlap_exists(self, other),
    {
        self.overlap(other).is_some()
    }

    /// Whether `other` lies wholly inside `self`.
    pub fn contains(self, other: Self) -> (r: bool)
        ensures
            r == (overlap_exists(self, other) && self.start() <= other.start() && other.end()
                <= self.end()),
    {
        match self.overlap(other) {
            Some(overlap) => overlap.address.as_raw() == other.address.as_raw()
                && overlap.length.as_raw() == other.length.as_raw(),
            None => false,
        }
    }

    /// The part of `self` below the start of `other`, if any.
    pub fn left_difference(self, other: Self) -> (r: Option<Self>)
        ensures
            interval_of(r) == left_difference_interval(self, other),
    {
        if self.address.as_raw() >= other.address.as_raw() {
            return None;
        }
        let gap = other.address.sub_address(self.address);
        let diff_length = if self.length.as_raw() <= gap.as_raw() {
            self.length
        } else {
            gap
        };
        Some(Extent { address: self.address, length: diff_length })
    }

    /// The part of `self` above the end of `other`, if any.
    pub fn right_difference(self, other: Self) -> (r: Option<Self>)
        requires
            1 <= self.end() <= u64_max(),
            1 <= other.end() <= u64_max(),
        ensures
            interval_of(r) == right_difference_interval(self, other),
    {
        if self.last_address().as_raw() <= other.last_address().as_raw() {
            return None;
        }
        let other_end = other.end_address();
        let diff_address = if self.address.as_raw() >= other_end.as_raw() {
            self.address
        } else {
            other_end
        };
        let diff_length = self.length.sub(diff_address.sub_address(self.address));
        Some(Extent { address: diff_address, length: diff_length })
    }

    pub fn is_aligned_to(self, alignment: u64) -> (r: bool)
        requires
            is_power_of_two(alignment),
        ensures
            r == (self.start() % alignment as int == 0 && self.length@ % alignment == 0),
    {
        self.address.is_aligned_to(alignment) && self.length.is_aligned_to(alignment)
    }

    /// Returns the largest extent completely contained in `self` whose start
    /// and end addresses are aligned to `alignment`, a power of two. `None` if
    /// no such extent exists, including when `self` starts inside the last
    /// partial aligned block of the address space.
    pub fn shrink_to_alignment(self, alignment: u64) -> (r: Option<Self>)
        requires
            is_power_of_two(alignment),
            self.end() <= u64_max(),
        ensures
            r is Some <==> (self.start() + alignment - 1 <= u64_max() && align_up_spec(
                self.start(),
                alignment as int,
            ) < align_down_spec(self.end(), alignment as int)),
            r matches Some(s) ==> s.start() == align_up_spec(self.start(), alignment as int)
                && s.end() == align_down_spec(self.end(), alignment as int),
    {
        let start_address = match self.address.align_up_checked(alignment) {
            Some(a) => a,
            None => return None,
        };
        let end_address = self.end_address().align_down(alignment);
        if end_address.as_raw() <= start_address.as_raw() {
            None
        } else {
            Some(Extent { address: start_address, length: end_address.sub_address(start_address) })
        }
    }

    /// Returns the smallest extent that contains `self` whose start and end
    /// addresses are aligned to `alignment`, a power of two.
    pub fn expand_to_alignment(&self, alignment: u64) -> (r: Self)
        requires
            is_power_of_two(alignment),
            self.end() + alignment - 1 <= u64_max(),
        ensures
            r.start() == align_down_spec(self.start(), alignment as int),
            r.end() == align_up_spec(self.end(), alignment as int),
    {
        proof {
            lemma_low_mask_is_mod(0, alignment);
        }
        let start_address = self.address.align_down(alignment);
        let end_address = self.end_address().align_up(alignment);
        proof {
            lemma_align_down_bounds(self.start(), alignment as int);
            lemma_align_down_bounds(self.end() + alignment - 1, alignment as int);
        }
        Extent { address: start_address, length: end_address.sub_address(start_address) }
    }
}


/// Whether the optional interval `i` holds `p`.
pub open spec fn interval_contains(i: Option<(int, int)>, p: int) -> bool {
    match i {
        Some((lo, hi)) => lo <= p < hi,
        None => false,
    }
}

pub proof fn lemma_multiples_gap(s: int, u: int, a: int)
    requires
        a > 0,
        s >= 0,
        u >= 0,
        s % a == 0,
        u % a == 0,
        s < u,
    ensures
        s + a <= u,
{
    vstd::arithmetic::div_mod::lemma_fundamental_div_mod(s, a);
    vstd::arithmetic::div_mod::lemma_fundamental_div_mod(u, a);
    let qs = s / a;
    let qu = u / a;
    assert(s + a <= u) by (nonlinear_arith)
        requires
            s == a * qs,
            u == a * qu,
            s < u,
            a > 0,
    ;
}

/// Aligning up gives the least multiple of `a` not below `x`.
pub proof fn lemma_align_up_is_least(x: int, a: int, s: int)
    requires
        a > 0,
        x >= 0,
        s >= x,
        s % a == 0,
    ensures
        x <= align_up_spec(x, a) < x + a,
        align_up_spec(x, a) % a == 0,
        align_up_spec(x, a) <= s,
{
    lemma_align_down_bounds(x + a - 1, a);
    if s < align_up_spec(x, a) {
        lemma_multiples_gap(s, align_up_spec(x, a), a);
    }
}

/// Aligning down gives the greatest multiple of `a` not above `x`.
pub proof fn lemma_align_down_is_greatest(x: int, a: int, s: int)
    requires
        a > 0,
        0 <= s <= x,
        s % a == 0,
    ensures
        align_down_spec(x, a) <= x < align_down_spec(x, a) + a,
        align_down_spec(x, a) % a == 0,
        s <= align_down_spec(x, a),
{
    lemma_align_down_bounds(x, a);
    if s > align_down_spec(x, a) {
        lemma_multiples_gap(align_down_spec(x, a), s, a);
    }
}

/// For non-empty extents, `overlap` yields exactly the addresses in both.
pub proof fn lemma_overlap_is_intersection<Type: AddressType>(a: Extent<Type>, b: Extent<Type>)
    requires
        a.length@ != 0,
        b.length@ != 0,
    ensures
        overlap_interval(a, b) is Some <==> max_int(a.start(), b.start()) < min_int(
            a.end(),
            b.end(),
        ),
        forall|p: int|
            interval_contains(overlap_interval(a, b), p) <==> (a.contains_addr(p)
                && b.contains_addr(p)),
{
}

/// For non-empty extents, `overlap` does not depend on the order of its
/// arguments.
pub proof fn lemma_overlap_is_commutative<Type: AddressType>(a: Extent<Type>, b: Extent<Type>)
    requires
        a.length@ != 0,
        b.length@ != 0,
    ensures
        overlap_interval(a, b) == overlap_interval(b, a),
{
}

/// For a non-empty `b`, `a.contains(b)` is interval inclusion.
pub proof fn lemma_contains_is_inclusion<Type: AddressType>(a: Extent<Type>, b: Extent<Type>)
    requires
        b.length@ != 0,
    ensures
        (overlap_exists(a, b) && a.start() <= b.start() && b.end() <= a.end()) <==> (a.start()
            <= b.start() && b.end() <= a.end()),
{
}

/// The part of `a` left of `b`, the part shared with `b`, and the part right
/// of `b` partition `a`: every address of `a` is in exactly one of them, they
/// follow one another without a gap, and their lengths add up to `a`'s.
pub proof fn lemma_difference_and_overlap_partition<Type: AddressType>(
    a: Extent<Type>,
    b: Extent<Type>,
)
    requires
        a.wf(),
        b.wf(),
    ensures
        interval_len(left_difference_interval(a, b)) + interval_len(overlap_interval(a, b))
            + interval_len(right_difference_interval(a, b)) == a.length@,
        forall|p: int|
            a.contains_addr(p) <==> (interval_contains(left_difference_interval(a, b), p)
                || interval_contains(overlap_interval(a, b), p) || interval_contains(
                right_difference_interval(a, b),
                p,
            )),
        forall|p: int|
            !(interval_contains(left_difference_interval(a, b), p) && interval_contains(
                overlap_interval(a, b),
                p,
            )),
        forall|p: int|
            !(interval_contains(overlap_interval(a, b), p) && interval_contains(
                right_difference_interval(a, b),
                p,
            )),
        forall|p: int|
            !(interval_contains(left_difference_interval(a, b), p) && interval_contains(
                right_difference_interval(a, b),
                p,
            )),
{
}

/// What `shrink_to_alignment` yields is aligned and inside the extent, and it
/// holds every aligned sub-extent `[s, t)`: it is the largest one.
pub proof fn lemma_shrink_to_alignment_is_maximal<Type: AddressType>(
    e: Extent<Type>,
    alignment: u64,
    s: int,
    t: int,
)
    requires
        is_power_of_two(alignment),
        e.end() <= u64_max(),
        s % alignment as int == 0,
        t % alignment as int == 0,
        e.start() <= s < t <= e.end(),
    ensures
        e.start() + alignment - 1 <= u64_max(),
        align_up_spec(e.start(), alignment as int) <= s,
        t <= align_down_spec(e.end(), alignment as int),
        align_up_spec(e.start(), alignment as int) < align_down_spec(e.end(), alignment as int),
        e.start() <= align_up_spec(e.start(), alignment as int),
        align_down_spec(e.end(), alignment as int) <= e.end(),
        align_up_spec(e.start(), alignment as int) % alignment as int == 0,
        align_down_spec(e.end(), alignment as int) % alignment as int == 0,
{
    let a = alignment as int;
    lemma_low_mask_is_mod(0, alignment);
    lemma_multiples_gap(s, t, a);
    lemma_align_up_is_least(e.start(), a, s);
    lemma_align_down_is_greatest(e.end(), a, t);
}

/// What `expand_to_alignment` yields is aligned and covers the extent.
pub proof fn lemma_expand_to_alignment_covers<Type: AddressType>(e: Extent<Type>, alignment: u64)
    requires
        is_power_of_two(alignment),
    ensures
        align_down_spec(e.start(), alignment as int) <= e.start(),
        e.end() <= align_up_spec(e.end(), alignment as int),
        align_down_spec(e.start(), alignment as int) % alignment as int == 0,
        align_up_spec(e.end(), alignment as int) % alignment as int == 0,
{
    lemma_low_mask_is_mod(0, alignment);
    lemma_align_down_bounds(e.start(), alignment as int);
    lemma_align_down_bounds(e.end() + alignment - 1, alignment as int);
}

} // verus!
