//! `Mapper::map_range`: mapping a physical extent with the largest pages
//! that fit.

use crate::memory::addr::{
    align_u64_up, align_up_spec, is_power_of_two, lemma_common_alignments, u64_max, PhysAddress,
    PhysExtent, VirtAddress,
};
use crate::memory::page::{table_index, Frame, Page};
use super::mapper::{huge_leaf_entry, Mapper, Size1G, Size2M};
use super::tree::{
    descends, leaf_entry, level_size, lemma_index_bound, lemma_parent_flags_idempotent,
    lemma_same_path_entry, link_ok, parent_flags_after, path_entry, path_has_no_leaf,
    same_indices, same_path_entry, same_prefix, tables_needed, translate, tree_links, tree_ok,
    walk,
};
use super::{
    entry_addr, entry_flags, is_huge, is_present, MapError, PageTableFlags, TableStore,
    MAX_PHYS_ADDR,
};
use vstd::prelude::*;

verus! {

/// Steps of `size` from `c` while `c` is below `limit` and a whole chunk
/// still fits before `e`: where one of `map_range`'s huge-page phases stops.
pub open spec fn run_chunks(c: int, limit: int, e: int, size: int) -> int
    decreases e - c,
{
    if size > 0 && c < limit && e - c >= size {
        run_chunks(c + size, limit, e, size)
    } else {
        c
    }
}

/// Where the phases of `map_range` over `[s, e)` end: 4 KiB pages up to the
/// first 2 MiB boundary (`p1`), 2 MiB pages up to the first 1 GiB boundary
/// (`c2`), 1 GiB pages while a whole one fits (`c3`), 2 MiB pages while a
/// whole one fits (`c4`), then 4 KiB pages for the rest.
pub open spec fn phase_ends(s: int, e: int) -> (int, int, int, int) {
    let a2 = align_up_spec(s, 0x20_0000);
    let p1 = if a2 < e {
        a2
    } else {
        e
    };
    let g = align_up_spec(p1, 0x4000_0000);
    let c2 = run_chunks(p1, if g < e {
        g
    } else {
        e
    }, e, 0x20_0000);
    let c3 = run_chunks(c2, e, e, 0x4000_0000);
    let c4 = run_chunks(c3, e, e, 0x20_0000);
    (p1, c2, c3, c4)
}

/// The page size `map_range` over `[s, e)` uses for physical address `x`.
pub open spec fn chunk_size(s: int, e: int, x: int) -> u64 {
    let (p1, c2, c3, c4) = phase_ends(s, e);
    if c2 <= x < c3 {
        0x4000_0000
    } else if (p1 <= x < c2) || (c3 <= x < c4) {
        0x20_0000
    } else {
        0x1000
    }
}

/// No address of the virtual window `[w, w + len)` has the table indices of
/// `v`.
pub open spec fn outside_window(v: u64, w: int, len: int) -> bool {
    forall|x: u64| w <= x < w + len ==> !#[trigger] same_indices(v, x)
}

/// `v`'s walk finds nothing, and its root entry, if present, is no leaf.
pub open spec fn unmapped(root: Seq<u64>, tables: Map<u64, Seq<u64>>, v: u64) -> bool {
    &&& walk(root, tables, v) is None
    &&& is_present(root[table_index(v, 39) as int]) ==> !is_huge(root[table_index(v, 39) as int])
}

proof fn lemma_run_chunks_bounds(c: int, limit: int, e: int, size: int)
    requires
        c <= e,
    ensures
        c <= run_chunks(c, limit, e, size) <= e,
        size > 0 && c < limit && e - c >= size ==> run_chunks(c, limit, e, size) >= c + size,
    decreases e - c,
{
    if size > 0 && c < limit && e - c >= size {
        lemma_run_chunks_bounds(c + size, limit, e, size);
    }
}

/// Where a chunk run stops: the limit is reached or no whole chunk fits.
proof fn lemma_run_chunks_stops(c: int, limit: int, e: int, size: int)
    requires
        c <= e,
        size > 0,
    ensures
        run_chunks(c, limit, e, size) >= limit || e - run_chunks(c, limit, e, size) < size,
    decreases e - c,
{
    if c < limit && e - c >= size {
        lemma_run_chunks_stops(c + size, limit, e, size);
    }
}

/// Where chunks are aligned, a run stops at the aligned limit at the latest.
proof fn lemma_run_chunks_within(c: int, limit: int, e: int, size: int)
    requires
        c <= e,
        c <= limit,
        size > 0,
        c % size == 0,
        limit % size == 0,
    ensures
        run_chunks(c, limit, e, size) <= limit,
        run_chunks(c, limit, e, size) % size == 0,
    decreases e - c,
{
    if c < limit && e - c >= size {
        lemma_aligned_step(c, limit, size);
        lemma_run_chunks_within(c + size, limit, e, size);
    }
}

proof fn lemma_aligned_step(a: int, b: int, m: int)
    requires
        m > 0,
        a % m == 0,
        b % m == 0,
        a < b,
    ensures
        a + m <= b,
        (a + m) % m == 0,
{
    vstd::arithmetic::div_mod::lemma_fundamental_div_mod(a, m);
    vstd::arithmetic::div_mod::lemma_fundamental_div_mod(b, m);
    assert(a + m <= b) by (nonlinear_arith)
        requires
            a == m * (a / m),
            b == m * (b / m),
            a < b,
            m > 0,
    {
        assert(a / m < b / m);
    }
    vstd::arithmetic::div_mod::lemma_mod_add_multiples_vanish(a, m);
}

/// Sums and differences of multiples of `m` are multiples of `m`.
proof fn lemma_mod_sum(a: int, b: int, m: int)
    requires
        m > 0,
        a % m == 0,
        b % m == 0,
    ensures
        (a + b) % m == 0,
        (a - b) % m == 0,
{
    vstd::arithmetic::div_mod::lemma_fundamental_div_mod(a, m);
    vstd::arithmetic::div_mod::lemma_fundamental_div_mod(b, m);
    vstd::arithmetic::div_mod::lemma_mod_multiples_basic(a / m + b / m, m);
    vstd::arithmetic::div_mod::lemma_mod_multiples_basic(a / m - b / m, m);
    assert(m * (a / m) + m * (b / m) == (a / m + b / m) * m) by (nonlinear_arith);
    assert(m * (a / m) - m * (b / m) == (a / m - b / m) * m) by (nonlinear_arith);
}

/// An address aligned to a page size has the bits below that size clear.
pub(crate) proof fn lemma_low_bits_of_aligned(p: u64)
    by (bit_vector)
    ensures
        p % 0x1000 == 0 ==> p & 0xfff == 0,
        p % 0x20_0000 == 0 ==> p & 0x1f_ffff == 0,
        p % 0x4000_0000 == 0 ==> p & 0x3fff_ffff == 0,
{
}

/// Every address of a 4 KiB page has the page's indices, and lies at its
/// offset from the page start.
proof fn lemma_in_page(p: u64, v: u64)
    by (bit_vector)
    requires
        p & 0xfff == 0,
        p <= v,
        v - p < 0x1000,
    ensures
        (v >> 39u64) & 0x1ff == (p >> 39u64) & 0x1ff,
        (v >> 30u64) & 0x1ff == (p >> 30u64) & 0x1ff,
        (v >> 21u64) & 0x1ff == (p >> 21u64) & 0x1ff,
        (v >> 12u64) & 0x1ff == (p >> 12u64) & 0x1ff,
        v % 0x1000 == v - p,
{
}

/// Within a 2 MiB chunk, every address shares the chunk's upper three
/// indices; within a 1 GiB chunk, its upper two.
proof fn lemma_in_huge(p: u64, v: u64)
    by (bit_vector)
    ensures
        p & 0x1f_ffff == 0 && p <= v && v - p < 0x20_0000 ==> {
            &&& (v >> 39u64) & 0x1ff == (p >> 39u64) & 0x1ff
            &&& (v >> 30u64) & 0x1ff == (p >> 30u64) & 0x1ff
            &&& (v >> 21u64) & 0x1ff == (p >> 21u64) & 0x1ff
            &&& v % 0x20_0000 == v - p
        },
        p & 0x3fff_ffff == 0 && p <= v && v - p < 0x4000_0000 ==> {
            &&& (v >> 39u64) & 0x1ff == (p >> 39u64) & 0x1ff
            &&& (v >> 30u64) & 0x1ff == (p >> 30u64) & 0x1ff
            &&& v % 0x4000_0000 == v - p
        },
{
}

/// Addresses less than 2^48 apart but in different pages have different
/// indices.
pub(crate) proof fn lemma_page_no_alias(p: u64, v: u64)
    by (bit_vector)
    requires
        p & 0xfff == 0,
        (p <= v && v - p >= 0x1000 && v - p < 0x1_0000_0000_0000) || (v < p && p - v
            <= 0xffff_ffff_f000),
    ensures
        !((v >> 39u64) & 0x1ff == (p >> 39u64) & 0x1ff && (v >> 30u64) & 0x1ff == (p >> 30u64)
            & 0x1ff && (v >> 21u64) & 0x1ff == (p >> 21u64) & 0x1ff && (v >> 12u64) & 0x1ff == (p
            >> 12u64) & 0x1ff),
{
}

/// Addresses less than 2^48 apart but in different 2 MiB chunks differ in an
/// upper three index.
proof fn lemma_2m_no_alias(p: u64, v: u64)
    by (bit_vector)
    requires
        p & 0x1f_ffff == 0,
        (p <= v && v - p >= 0x20_0000 && v - p < 0x1_0000_0000_0000) || (v < p && p - v
            <= 0xffff_ffe0_0000),
    ensures
        !((v >> 39u64) & 0x1ff == (p >> 39u64) & 0x1ff && (v >> 30u64) & 0x1ff == (p >> 30u64)
            & 0x1ff && (v >> 21u64) & 0x1ff == (p >> 21u64) & 0x1ff),
{
}

/// Addresses less than 2^48 apart but in different 1 GiB chunks differ in an
/// upper two index.
proof fn lemma_1g_no_alias(p: u64, v: u64)
    by (bit_vector)
    requires
        p & 0x3fff_ffff == 0,
        (p <= v && v - p >= 0x4000_0000 && v - p < 0x1_0000_0000_0000) || (v < p && p - v
            <= 0xffff_c000_0000),
    ensures
        !((v >> 39u64) & 0x1ff == (p >> 39u64) & 0x1ff && (v >> 30u64) & 0x1ff == (p >> 30u64)
            & 0x1ff),
{
}

/// An address sharing a 2 MiB chunk's upper indices shares all indices with
/// some address of the chunk.
proof fn lemma_2m_witness(p: u64, v: u64) -> (w: u64)
    requires
        p % 0x20_0000 == 0,
        same_prefix(v, p, 2),
    ensures
        p <= w < p + 0x20_0000,
        same_indices(v, w),
{
    lemma_low_bits_of_aligned(p);
    let w = p | (v & 0x1f_f000);
    assert(p <= w && w - p < 0x20_0000 && (w >> 39u64) & 0x1ff == (p >> 39u64) & 0x1ff && (w
        >> 30u64) & 0x1ff == (p >> 30u64) & 0x1ff && (w >> 21u64) & 0x1ff == (p >> 21u64) & 0x1ff
        && (w >> 12u64) & 0x1ff == (v >> 12u64) & 0x1ff) by (bit_vector)
        requires
            p & 0x1f_ffff == 0,
            w == p | (v & 0x1f_f000),
    ;
    w
}

/// An address sharing a 1 GiB chunk's upper indices shares all indices with
/// some address of the chunk.
proof fn lemma_1g_witness(p: u64, v: u64) -> (w: u64)
    requires
        p % 0x4000_0000 == 0,
        same_prefix(v, p, 3),
    ensures
        p <= w < p + 0x4000_0000,
        same_indices(v, w),
{
    lemma_low_bits_of_aligned(p);
    let w = p | (v & 0x3fff_f000);
    assert(p <= w && w - p < 0x4000_0000 && (w >> 39u64) & 0x1ff == (p >> 39u64) & 0x1ff && (w
        >> 30u64) & 0x1ff == (p >> 30u64) & 0x1ff && (w >> 21u64) & 0x1ff == (v >> 21u64) & 0x1ff
        && (w >> 12u64) & 0x1ff == (v >> 12u64) & 0x1ff) by (bit_vector)
        requires
            p & 0x3fff_ffff == 0,
            w == p | (v & 0x3fff_f000),
    ;
    w
}

/// An address whose walk finds nothing, and whose root entry is no leaf,
/// passes no huge-page leaf on its way down.
proof fn lemma_unmapped_no_leaf(
    root: Seq<u64>,
    tables: Map<u64, Seq<u64>>,
    parents: Map<u64, (int, u64, int)>,
    v: u64,
)
    requires
        tree_links(root, tables, parents),
        unmapped(root, tables, v),
    ensures
        path_has_no_leaf(root, tables, v, 3),
{
    lemma_index_bound(v);
    let e4 = root[table_index(v, 39) as int];
    if is_present(e4) {
        let t3 = entry_addr(e4);
        assert(parents.contains_key(t3));
        assert(link_ok(root, tables, parents, t3));
        let e3 = tables[t3][table_index(v, 30) as int];
        if is_present(e3) && !is_huge(e3) {
            let t2 = entry_addr(e3);
            assert(parents.contains_key(t2));
            assert(link_ok(root, tables, parents, t2));
        }
    }
}

/// The leaf entry `map_range` writes for a page of `size` bytes at `frame`
/// with `flags`: a plain 4 KiB leaf, or a `PAGE_SIZE` leaf for 2 MiB and
/// 1 GiB pages.
pub open spec fn range_leaf(frame: int, size: u64, flags: u64) -> u64 {
    if size == 0x1000 {
        leaf_entry(frame as u64, flags)
    } else {
        huge_leaf_entry(frame as u64, flags)
    }
}

/// `v`, in the window at `vb` onto the physical extent from `s` to `e`, is
/// mapped to its physical counterpart through a page of the size
/// `map_range` picks for it, whose leaf entry holds the page's frame and
/// `flags`.
pub open spec fn maps_to(
    root: Seq<u64>,
    tables: Map<u64, Seq<u64>>,
    v: u64,
    s: int,
    e: int,
    vb: int,
    flags: u64,
) -> bool {
    let x = v - vb + s;
    let size = chunk_size(s, e, x);
    &&& translate(root, tables, v) == Some(x)
    &&& walk(root, tables, v) == Some((range_leaf(x - v % size, size, flags), size))
}

/// `q` shares the table indices above a page of level `d` with `p`: all four
/// for a 4 KiB page (`d == 1`).
pub open spec fn same_region(q: u64, p: u64, d: int) -> bool {
    if d == 1 {
        same_indices(q, p)
    } else {
        same_prefix(q, p, d)
    }
}

/// The state of `map_range` over `[s, e)` into the window of `w` bytes at
/// `vb`, once the physical cursor has reached `cursor`.
pub open spec fn range_progress(
    root: Seq<u64>,
    tables: Map<u64, Seq<u64>>,
    root0: Seq<u64>,
    tables0: Map<u64, Seq<u64>>,
    s: int,
    e: int,
    vb: int,
    w: int,
    cursor: int,
    present: bool,
    flags: u64,
) -> bool {
    &&& tree_ok(root, tables)
    &&& s <= cursor <= s + w
    &&& cursor % 0x1000 == 0
    &&& present ==> forall|v: u64|
        vb <= v < vb + (cursor - s) ==> #[trigger] maps_to(root, tables, v, s, e, vb, flags)
    &&& forall|v: u64| vb + (cursor - s) <= v < vb + w ==> #[trigger] unmapped(root, tables, v)
    &&& forall|v: u64|
        outside_window(v, vb, w) ==> #[trigger] walk(root, tables, v) == walk(root0, tables0, v)
}

/// One chunk of `map_range`: mapping the page of level `d` at the cursor
/// extends the mapped part of the window by that page.
proof fn lemma_range_step(
    root: Seq<u64>,
    tables: Map<u64, Seq<u64>>,
    root2: Seq<u64>,
    tables2: Map<u64, Seq<u64>>,
    root0: Seq<u64>,
    tables0: Map<u64, Seq<u64>>,
    s: int,
    e: int,
    vb: int,
    w: int,
    cursor: int,
    d: int,
    present: bool,
    flags: u64,
)
    requires
        range_progress(root, tables, root0, tables0, s, e, vb, w, cursor, present, flags),
        1 <= d <= 3,
        0 <= vb,
        vb + w <= u64_max() + 1,
        w <= 0x1_0000_0000_0000,
        cursor % (level_size(d) as int) == 0,
        (vb + cursor - s) % (level_size(d) as int) == 0,
        cursor + level_size(d) <= s + w,
        forall|x: int| cursor <= x < cursor + level_size(d) ==> chunk_size(s, e, x) == level_size(d),
        tree_ok(root2, tables2),
        forall|q: u64|
            #![trigger same_region(q, (vb + cursor - s) as u64, d)]
            same_region(q, (vb + cursor - s) as u64, d) && present ==> {
                &&& translate(root2, tables2, q) == Some(cursor + q % level_size(d))
                &&& walk(root2, tables2, q) == Some((range_leaf(cursor, level_size(d), flags), level_size(d)))
            },
        forall|q: u64|
            #![trigger same_region(q, (vb + cursor - s) as u64, d)]
            !same_region(q, (vb + cursor - s) as u64, d) ==> walk(root2, tables2, q) == walk(
                root,
                tables,
                q,
            ),
        forall|i: int|
            0 <= i < 512 && i != table_index((vb + cursor - s) as u64, 39) ==> #[trigger] root2[i]
                == root[i],
        ({
            let l4 = table_index((vb + cursor - s) as u64, 39) as int;
            root2[l4] == root[l4] || (is_present(root2[l4]) && !is_huge(root2[l4]))
        }),
    ensures
        range_progress(root2, tables2, root0, tables0, s, e, vb, w, cursor + level_size(d), present, flags),
{
    let size = level_size(d);
    let p = (vb + cursor - s) as u64;
    assert(p == vb + cursor - s);
    if present {
        assert forall|v: u64| vb <= v < vb + (cursor + size - s) implies #[trigger] maps_to(
            root2,
            tables2,
            v,
            s,
            e,
            vb,
            flags,
        ) by {
            if v < p {
                assert(maps_to(root, tables, v, s, e, vb, flags));
                lemma_not_same_region(p, v, d);
            } else {
                lemma_same_region(p, v, d);
                assert(chunk_size(s, e, v - vb + s) == size);
            }
        }
    }
    assert forall|v: u64| vb + (cursor + size - s) <= v < vb + w implies #[trigger] unmapped(
        root2,
        tables2,
        v,
    ) by {
        assert(unmapped(root, tables, v));
        lemma_not_same_region(p, v, d);
        lemma_index_bound(v);
    }
    assert forall|v: u64| outside_window(v, vb, w) implies #[trigger] walk(root2, tables2, v)
        == walk(root0, tables0, v) by {
        if same_region(v, p, d) {
            let x = lemma_region_witness(p, v, d);
            assert(same_indices(v, x));
        }
    }
}

/// Every address within the aligned page of level `d` (4 KiB, 2 MiB or
/// 1 GiB) at `p` shares `p`'s table indices down to that level, and lies at
/// its offset from `p`: so a leaf for `p` translates the whole page.
pub proof fn lemma_same_region(p: u64, v: u64, d: int)
    requires
        1 <= d <= 3,
        p % level_size(d) == 0,
        p <= v < p + level_size(d),
    ensures
        same_region(v, p, d),
        v % level_size(d) == v - p,
{
    if d == 1 {
        lemma_low_bits_of_aligned(p);
        lemma_in_page(p, v);
    } else if d == 2 {
        lemma_low_bits_of_aligned(p);
        lemma_in_huge(p, v);
    } else {
        lemma_low_bits_of_aligned(p);
        lemma_in_huge(p, v);
    }
}

/// Addresses in the same window but outside the level `d` page at `p` do not
/// share its indices down to that level.
proof fn lemma_not_same_region(p: u64, v: u64, d: int)
    requires
        1 <= d <= 3,
        p % level_size(d) == 0,
        (p + level_size(d) <= v && v - p < 0x1_0000_0000_0000) || (v < p && p - v
            <= 0x1_0000_0000_0000 - level_size(d)),
    ensures
        !same_region(v, p, d),
{
    if d == 1 {
        lemma_low_bits_of_aligned(p);
        lemma_page_no_alias(p, v);
    } else if d == 2 {
        lemma_low_bits_of_aligned(p);
        lemma_2m_no_alias(p, v);
    } else {
        lemma_low_bits_of_aligned(p);
        lemma_1g_no_alias(p, v);
    }
}

/// An address sharing the indices of the level `d` page at `p` down to that
/// level shares all indices with some address of the page.
proof fn lemma_region_witness(p: u64, v: u64, d: int) -> (x: u64)
    requires
        1 <= d <= 3,
        p % level_size(d) == 0,
        same_region(v, p, d),
    ensures
        p <= x < p + level_size(d),
        same_indices(v, x),
{
    if d == 1 {
        p
    } else if d == 2 {
        lemma_2m_witness(p, v)
    } else {
        lemma_1g_witness(p, v)
    }
}

/// The bytes of virtual address space `map_range` maps for `phys`: its
/// length rounded up to whole 4 KiB pages.
pub open spec fn window_len(phys: PhysExtent) -> int {
    align_up_spec(phys.end(), 0x1000) - phys.start()
}

/// The most tables `map_range` over `[s, e)` can allocate: at most three for
/// each 4 KiB page it maps, two for each 2 MiB page and one for each 1 GiB
/// page.
pub open spec fn range_table_budget(s: int, e: int) -> int {
    let (p1, c2, c3, c4) = phase_ends(s, e);
    3 * ((p1 - s) / 0x1000) + 2 * ((c2 - p1) / 0x20_0000) + (c3 - c2) / 0x4000_0000 + 2 * ((c4
        - c3) / 0x20_0000) + 3 * ((align_up_spec(e, 0x1000) - c4) / 0x1000)
}

/// `map_range` over `[s, e)` uses 2 MiB pages.
pub open spec fn uses_2m(s: int, e: int) -> bool {
    let (p1, c2, c3, c4) = phase_ends(s, e);
    c2 > p1 || c4 > c3
}

/// `map_range` over `[s, e)` uses 1 GiB pages.
pub open spec fn uses_1g(s: int, e: int) -> bool {
    let (p1, c2, c3, c4) = phase_ends(s, e);
    c3 > c2
}

/// What `map_range` needs of the extent `[s, e)` and the window at `vb`:
/// page alignment, frames below 2^52, an end that the first phase does not
/// overshoot, a window that fits in the address space and in the 2^48 bytes
/// the four table levels tell apart, and page-size alignment of the offset
/// between the two wherever huge pages are used.
pub open spec fn range_inputs(s: int, e: int, vb: int) -> bool {
    let w = align_up_spec(e, 0x1000) - s;
    &&& 0 <= s <= e
    &&& 0 <= vb
    &&& s % 0x1000 == 0
    &&& vb % 0x1000 == 0
    &&& e <= MAX_PHYS_ADDR
    &&& e % 0x1000 == 0 || e >= align_up_spec(s, 0x20_0000)
    &&& w <= 0x1_0000_0000_0000
    &&& vb + w <= u64_max() + 1
    &&& uses_2m(s, e) ==> (vb - s) % 0x20_0000 == 0
    &&& uses_1g(s, e) ==> (vb - s) % 0x4000_0000 == 0
}

proof fn lemma_phase_order(s: int, e: int)
    requires
        0 <= s <= e,
        s % 0x1000 == 0,
    ensures
        ({
            let (p1, c2, c3, c4) = phase_ends(s, e);
            &&& s <= p1 <= c2 <= c3 <= c4 <= e
            &&& p1 < e ==> p1 % 0x20_0000 == 0
            &&& c2 < e ==> c2 % 0x20_0000 == 0
            &&& e - c2 >= 0x4000_0000 ==> c2 % 0x4000_0000 == 0
        }),
{
    lemma_common_alignments();
    let a2 = align_up_spec(s, 0x20_0000);
    crate::memory::addr::lemma_align_down_bounds(s + 0x20_0000 - 1, 0x20_0000);
    let (p1, c2, c3, c4) = phase_ends(s, e);
    let g = align_up_spec(p1, 0x4000_0000);
    crate::memory::addr::lemma_align_down_bounds(p1 + 0x4000_0000 - 1, 0x4000_0000);
    let limit = if g < e {
        g
    } else {
        e
    };
    lemma_run_chunks_bounds(p1, limit, e, 0x20_0000);
    lemma_run_chunks_bounds(c2, e, e, 0x4000_0000);
    lemma_run_chunks_bounds(c3, e, e, 0x20_0000);
    lemma_run_chunks_stops(p1, limit, e, 0x20_0000);
    if p1 < e {
        assert(g % 0x20_0000 == 0) by {
            vstd::arithmetic::div_mod::lemma_fundamental_div_mod(g, 0x4000_0000);
            vstd::arithmetic::div_mod::lemma_mod_multiples_basic(2 * 512 * (g / 0x4000_0000), 0x20_0000);
            assert(g == 0x4000_0000 * (g / 0x4000_0000));
            assert(0x4000_0000 * (g / 0x4000_0000) == (512 * (g / 0x4000_0000)) * 0x20_0000);
            vstd::arithmetic::div_mod::lemma_mod_multiples_basic(512 * (g / 0x4000_0000), 0x20_0000);
        }
        if g < e {
            lemma_run_chunks_within(p1, g, e, 0x20_0000);
        } else {
            lemma_run_chunks_mod(p1, limit, e, 0x20_0000);
        }
    }
}

/// A run of aligned chunks stays aligned.
proof fn lemma_run_chunks_mod(c: int, limit: int, e: int, size: int)
    requires
        c <= e,
        size > 0,
        c % size == 0,
    ensures
        run_chunks(c, limit, e, size) % size == 0,
    decreases e - c,
{
    if c < limit && e - c >= size {
        vstd::arithmetic::div_mod::lemma_mod_add_multiples_vanish(c, size);
        lemma_run_chunks_mod(c + size, limit, e, size);
    }
}


/// The level of the table holding the leaf of a page of `size` bytes: 1 for
/// 4 KiB, 2 for 2 MiB, 3 for 1 GiB.
pub open spec fn leaf_level(size: u64) -> int {
    if size == 0x1000 {
        1
    } else if size == 0x20_0000 {
        2
    } else {
        3
    }
}

/// Some address of the window from `vb` up to, not including, `p` reaches
/// the same entry at level `lv` as `q`.
pub open spec fn shared_below(vb: int, p: int, q: u64, lv: int) -> bool {
    exists|v: u64| vb <= v < p && #[trigger] same_path_entry(q, v, lv)
}

/// The entry at level `lv` on the path of `p` is there once `map_range` has
/// mapped the window below `p`: it was present before, or an address below
/// `p` that reaches it had it made.
pub open spec fn present_at(root0: Seq<u64>, tables0: Map<u64, Seq<u64>>, vb: int, p: int, lv: int) -> bool {
    is_present(path_entry(root0, tables0, p as u64, lv)) || shared_below(vb, p, p as u64, lv)
}

/// How many tables `map_range` takes to map the page of `size` bytes at
/// `p`, given the tree `(root0, tables0)` it started from and that it has
/// mapped the window from `vb` up to `p`: one for each level above the
/// leaf's, from the first one missing down.
pub open spec fn page_tables_needed(
    root0: Seq<u64>,
    tables0: Map<u64, Seq<u64>>,
    vb: int,
    p: int,
    size: u64,
) -> nat {
    let depth = 4 - leaf_level(size);
    if !present_at(root0, tables0, vb, p, 4) {
        depth as nat
    } else if depth <= 1 {
        0
    } else if !present_at(root0, tables0, vb, p, 3) {
        (depth - 1) as nat
    } else if depth <= 2 {
        0
    } else if !present_at(root0, tables0, vb, p, 2) {
        1
    } else {
        0
    }
}

/// How many tables `map_range` over `[s, e)` into the window at `vb` takes
/// for its pages from physical address `x` on.
pub open spec fn range_tables_from(
    root0: Seq<u64>,
    tables0: Map<u64, Seq<u64>>,
    s: int,
    e: int,
    vb: int,
    x: int,
) -> nat
    decreases (if x < align_up_spec(e, 0x1000) {
        align_up_spec(e, 0x1000) - x
    } else {
        0
    }),
{
    if x < align_up_spec(e, 0x1000) {
        let size = chunk_size(s, e, x);
        page_tables_needed(root0, tables0, vb, vb + x - s, size) + range_tables_from(
            root0,
            tables0,
            s,
            e,
            vb,
            x + size,
        )
    } else {
        0
    }
}

/// How many tables `map_range` over `[s, e)` into the window at `vb` takes
/// from the store, starting from the tree `(root0, tables0)`: one for every
/// parent entry on the paths of the pages it maps that is missing, each
/// counted once.
pub open spec fn range_tables_needed(
    root0: Seq<u64>,
    tables0: Map<u64, Seq<u64>>,
    s: int,
    e: int,
    vb: int,
) -> nat {
    range_tables_from(root0, tables0, s, e, vb, s)
}

/// The tree `map_range` is building, once it has mapped the window up to
/// physical `cursor`, against the tree `(root0, tables0)` it started from:
/// ahead of the cursor, an entry no mapped address reaches is as it was, and
/// one that some mapped address reaches is a parent entry given `set` and
/// `mask`; behind it, every parent entry on a mapped page's path is.
#[verifier::opaque]
pub open spec fn range_tree_ok(
    root: Seq<u64>,
    tables: Map<u64, Seq<u64>>,
    root0: Seq<u64>,
    tables0: Map<u64, Seq<u64>>,
    s: int,
    e: int,
    vb: int,
    w: int,
    cursor: int,
    set: u64,
    mask: u64,
) -> bool {
    let c = vb + (cursor - s);
    &&& forall|q: u64, lv: int|
        #![trigger path_entry(root, tables, q, lv)]
        2 <= lv <= 4 && c <= q < vb + w ==> {
            &&& !shared_below(vb, c, q, lv) ==> path_entry(root, tables, q, lv) == path_entry(
                root0,
                tables0,
                q,
                lv,
            )
            &&& shared_below(vb, c, q, lv) ==> descends(path_entry(root, tables, q, lv))
                && entry_flags(path_entry(root, tables, q, lv)) == parent_flags_after(
                path_entry(root0, tables0, q, lv),
                set,
                mask,
            )
        }
    &&& forall|v: u64, lv: int|
        #![trigger path_entry(root, tables, v, lv)]
        vb <= v < c && leaf_level(chunk_size(s, e, v - vb + s)) < lv <= 4 ==> {
            &&& descends(path_entry(root, tables, v, lv))
            &&& entry_flags(path_entry(root, tables, v, lv)) == parent_flags_after(
                path_entry(root0, tables0, v, lv),
                set,
                mask,
            )
        }
}

/// Before any page is mapped, the tree is the one `map_range` started from.
proof fn lemma_range_tree_start(
    root0: Seq<u64>,
    tables0: Map<u64, Seq<u64>>,
    s: int,
    e: int,
    vb: int,
    w: int,
    set: u64,
    mask: u64,
)
    ensures
        range_tree_ok(root0, tables0, root0, tables0, s, e, vb, w, s, set, mask),
{
    reveal(range_tree_ok);
}

/// Once the whole window is mapped, every parent entry on a mapped page's
/// path has been given `set` and `mask`.
proof fn lemma_range_tree_done(
    root: Seq<u64>,
    tables: Map<u64, Seq<u64>>,
    root0: Seq<u64>,
    tables0: Map<u64, Seq<u64>>,
    s: int,
    e: int,
    vb: int,
    w: int,
    set: u64,
    mask: u64,
)
    requires
        range_tree_ok(root, tables, root0, tables0, s, e, vb, w, s + w, set, mask),
    ensures
        forall|v: u64, lv: int|
            vb <= v < vb + w && leaf_level(chunk_size(s, e, v - vb + s)) < lv <= 4 ==> {
                &&& descends(#[trigger] path_entry(root, tables, v, lv))
                &&& entry_flags(path_entry(root, tables, v, lv)) == parent_flags_after(
                    path_entry(root0, tables0, v, lv),
                    set,
                    mask,
                )
            },
{
    reveal(range_tree_ok);
}

/// The chunks' page sizes: `level_size(d)` has leaf level `d`.
proof fn lemma_leaf_level(d: int)
    requires
        1 <= d <= 3,
    ensures
        leaf_level(level_size(d)) == d,
{
}

/// Mapping the page of level `d` at the cursor, with `map` or `map_large`,
/// keeps `range_tree_ok` one page further on.
proof fn lemma_range_tree_step(
    root: Seq<u64>,
    tables: Map<u64, Seq<u64>>,
    root2: Seq<u64>,
    tables2: Map<u64, Seq<u64>>,
    root0: Seq<u64>,
    tables0: Map<u64, Seq<u64>>,
    s: int,
    e: int,
    vb: int,
    w: int,
    cursor: int,
    d: int,
    set: u64,
    mask: u64,
)
    requires
        range_tree_ok(root, tables, root0, tables0, s, e, vb, w, cursor, set, mask),
        1 <= d <= 3,
        0 <= vb,
        vb + w <= u64_max() + 1,
        w <= 0x1_0000_0000_0000,
        s <= cursor,
        cursor % (level_size(d) as int) == 0,
        (vb + cursor - s) % (level_size(d) as int) == 0,
        cursor + level_size(d) <= s + w,
        forall|x: int| cursor <= x < cursor + level_size(d) ==> chunk_size(s, e, x) == level_size(d),
        forall|lv: int|
            d < lv <= 4 ==> {
                &&& descends(#[trigger] path_entry(root2, tables2, (vb + cursor - s) as u64, lv))
                &&& entry_flags(path_entry(root2, tables2, (vb + cursor - s) as u64, lv))
                    == parent_flags_after(
                    path_entry(root, tables, (vb + cursor - s) as u64, lv),
                    set,
                    mask,
                )
            },
        forall|q: u64, lv: int|
            2 <= lv <= 4 && !same_path_entry(q, (vb + cursor - s) as u64, lv) && !same_path_entry(
                q,
                (vb + cursor - s) as u64,
                d,
            ) ==> #[trigger] path_entry(root2, tables2, q, lv) == path_entry(root, tables, q, lv),
    ensures
        range_tree_ok(root2, tables2, root0, tables0, s, e, vb, w, cursor + level_size(d), set, mask),
{
    reveal(range_tree_ok);
    let size = level_size(d);
    let c = vb + cursor - s;
    let cu = c as u64;
    let c2 = c + size;
    lemma_leaf_level(d);
    assert forall|q: u64, lv: int| 2 <= lv <= 4 && c2 <= q < vb + w implies {
        &&& !shared_below(vb, c2, q, lv) ==> #[trigger] path_entry(root2, tables2, q, lv)
            == path_entry(root0, tables0, q, lv)
        &&& shared_below(vb, c2, q, lv) ==> descends(path_entry(root2, tables2, q, lv))
            && entry_flags(path_entry(root2, tables2, q, lv)) == parent_flags_after(
            path_entry(root0, tables0, q, lv),
            set,
            mask,
        )
    } by {
        lemma_not_same_region(cu, q, d);
        assert(path_entry(root, tables, cu, lv) == path_entry(root, tables, cu, lv));
        if same_path_entry(q, cu, lv) {
            assert(lv > d);
            lemma_same_path_entry(root2, tables2, q, cu, lv);
            lemma_same_path_entry(root0, tables0, q, cu, lv);
            let pc = path_entry(root, tables, cu, lv);
            if shared_below(vb, c, cu, lv) {
                lemma_parent_flags_idempotent(pc, path_entry(root0, tables0, cu, lv), set, mask);
            }
            assert(vb <= cu < c2 && same_path_entry(q, cu, lv));
        } else {
            assert(path_entry(root2, tables2, q, lv) == path_entry(root, tables, q, lv));
            if shared_below(vb, c2, q, lv) {
                let v = choose|v: u64| vb <= v < c2 && #[trigger] same_path_entry(q, v, lv);
                if v >= c {
                    lemma_same_region(cu, v, d);
                    assert(false);
                }
                assert(shared_below(vb, c, q, lv));
            }
        }
    }
    assert forall|v: u64, lv: int|
        vb <= v < c2 && leaf_level(chunk_size(s, e, v - vb + s)) < lv <= 4 implies {
        &&& descends(#[trigger] path_entry(root2, tables2, v, lv))
        &&& entry_flags(path_entry(root2, tables2, v, lv)) == parent_flags_after(
            path_entry(root0, tables0, v, lv),
            set,
            mask,
        )
    } by {
        assert(path_entry(root, tables, cu, lv) == path_entry(root, tables, cu, lv));
        if v >= c {
            assert(chunk_size(s, e, v - vb + s) == size);
            lemma_same_region(cu, v, d);
            lemma_same_path_entry(root2, tables2, v, cu, lv);
            lemma_same_path_entry(root0, tables0, v, cu, lv);
            let pc = path_entry(root, tables, cu, lv);
            if shared_below(vb, c, cu, lv) {
                lemma_parent_flags_idempotent(pc, path_entry(root0, tables0, cu, lv), set, mask);
            }
        } else {
            lemma_not_same_region(cu, v, d);
            assert(path_entry(root, tables, v, lv) == path_entry(root, tables, v, lv));
            if same_path_entry(v, cu, lv) {
                lemma_same_path_entry(root2, tables2, v, cu, lv);
                lemma_same_path_entry(root, tables, v, cu, lv);
                lemma_parent_flags_idempotent(
                    path_entry(root, tables, v, lv),
                    path_entry(root0, tables0, v, lv),
                    set,
                    mask,
                );
            }
        }
    }
}

/// What the page of level `d` at the cursor takes from the store is the
/// first term of what the rest of `map_range` takes.
proof fn lemma_range_count_step(
    root: Seq<u64>,
    tables: Map<u64, Seq<u64>>,
    root0: Seq<u64>,
    tables0: Map<u64, Seq<u64>>,
    s: int,
    e: int,
    vb: int,
    w: int,
    cursor: int,
    d: int,
    set: u64,
    mask: u64,
)
    requires
        range_tree_ok(root, tables, root0, tables0, s, e, vb, w, cursor, set, mask),
        1 <= d <= 3,
        0 <= vb,
        vb + w <= u64_max() + 1,
        s <= cursor,
        cursor + level_size(d) <= s + w,
        s + w == align_up_spec(e, 0x1000),
        chunk_size(s, e, cursor) == level_size(d),
        path_has_no_leaf(root, tables, (vb + cursor - s) as u64, 3),
    ensures
        tables_needed(root, tables, (vb + cursor - s) as u64, 4 - d) == page_tables_needed(
            root0,
            tables0,
            vb,
            vb + cursor - s,
            level_size(d),
        ),
        range_tables_from(root0, tables0, s, e, vb, cursor) == page_tables_needed(
            root0,
            tables0,
            vb,
            vb + cursor - s,
            level_size(d),
        ) + range_tables_from(root0, tables0, s, e, vb, cursor + level_size(d)),
{
    reveal(range_tree_ok);
    let c = vb + cursor - s;
    let cu = c as u64;
    lemma_leaf_level(d);
    lemma_index_bound(cu);
    assert(cu == c);
    assert forall|lv: int| 2 <= lv <= 4 implies is_present(#[trigger] path_entry(root, tables, cu, lv))
        == present_at(root0, tables0, vb, c, lv) by {
        assert(c <= cu < vb + w);
    }
    assert(is_present(path_entry(root, tables, cu, 4)) == present_at(root0, tables0, vb, c, 4));
    assert(is_present(path_entry(root, tables, cu, 3)) == present_at(root0, tables0, vb, c, 3));
    assert(is_present(path_entry(root, tables, cu, 2)) == present_at(root0, tables0, vb, c, 2));
}

impl<Store: TableStore> Mapper<Store> {
    /// Map the physical extent `phys` to the virtual window starting at
    /// `virt_base`, greedily choosing the largest legal page size at each
    /// point instead of mapping one 4 KiB frame at a time: 4 KiB pages up to
    /// the first 2 MiB boundary, 2 MiB pages up to the first 1 GiB boundary,
    /// 1 GiB pages while a whole one fits, 2 MiB pages while a whole one fits,
    /// and 4 KiB pages for the tail.
    ///
    /// `virt_base`'s offset from `phys`'s start must be aligned to every page
    /// size used, and the window must be unmapped: call this once per
    /// disjoint region. Every leaf gets `leaf_flags` (and `PAGE_SIZE` for
    /// 2 MiB and 1 GiB pages), and every parent entry on a mapped page's path
    /// has its flags masked with `parent_mask_flags` and then given
    /// `parent_set_flags`, as `map` does. It takes from the store exactly the
    /// tables missing on the mapped pages' paths (`range_tables_needed`), at
    /// most `range_table_budget`, and fails, with `FrameAllocationFailed`,
    /// exactly when the store has fewer.
    #[verifier::rlimit(100)]
    #[verifier::spinoff_prover]
    pub fn map_range(
        &mut self,
        phys: PhysExtent,
        virt_base: VirtAddress,
        leaf_flags: PageTableFlags,
        parent_set_flags: PageTableFlags,
        parent_mask_flags: PageTableFlags,
    ) -> (r: Result<(), MapError>)
        requires
            old(self).tree_ok(),
            parent_set_flags@ & 0x80 == 0,
            range_inputs(phys.start(), phys.end(), virt_base@ as int),
            forall|v: u64|
                virt_base@ <= v < virt_base@ + window_len(phys) ==> #[trigger] unmapped(
                    old(self).root(),
                    old(self).tables(),
                    v,
                ),
        ensures
            final(self).tree_ok(),
            r is Err ==> r == Err::<(), MapError>(MapError::FrameAllocationFailed)
                && final(self).store_capacity() == 0,
            old(self).store_capacity() >= range_table_budget(phys.start(), phys.end()) ==> r is Ok,
            r is Ok <==> old(self).store_capacity() >= range_tables_needed(
                old(self).root(),
                old(self).tables(),
                phys.start(),
                phys.end(),
                virt_base@ as int,
            ),
            r is Ok ==> old(self).store_capacity() - final(self).store_capacity() == range_tables_needed(
                old(self).root(),
                old(self).tables(),
                phys.start(),
                phys.end(),
                virt_base@ as int,
            ),
            r is Ok ==> forall|v: u64, lv: int|
                virt_base@ <= v < virt_base@ + window_len(phys) && leaf_level(
                    chunk_size(phys.start(), phys.end(), v - virt_base@ + phys.start()),
                ) < lv <= 4 ==> {
                    &&& descends(#[trigger] path_entry(final(self).root(), final(self).tables(), v, lv))
                    &&& entry_flags(path_entry(final(self).root(), final(self).tables(), v, lv))
                        == parent_flags_after(
                        path_entry(old(self).root(), old(self).tables(), v, lv),
                        parent_set_flags@,
                        parent_mask_flags@,
                    )
                },
            final(self).store_capacity() <= old(self).store_capacity(),
            r is Ok ==> old(self).store_capacity() - final(self).store_capacity() <= range_table_budget(
                phys.start(),
                phys.end(),
            ),
            forall|v: u64|
                outside_window(v, virt_base@ as int, window_len(phys)) ==> #[trigger] walk(
                    final(self).root(),
                    final(self).tables(),
                    v,
                ) == walk(old(self).root(), old(self).tables(), v),
            r is Ok && leaf_flags@ & 0x1 == 0x1 ==> forall|v: u64|
                virt_base@ <= v < virt_base@ + window_len(phys) ==> #[trigger] maps_to(
                    final(self).root(),
                    final(self).tables(),
                    v,
                    phys.start(),
                    phys.end(),
                    virt_base@ as int,
                    leaf_flags@,
                ),
    {
        let ghost root0 = self.root();
        let ghost tables0 = self.tables();
        let ghost s = phys.start();
        let ghost e = phys.end();
        let ghost w = window_len(phys);
        let ghost vb = virt_base@ as int;
        let ghost present = leaf_flags@ & 0x1 == 0x1;
        let ghost (p1, c2, c3, c4) = phase_ends(s, e);
        let ghost cap0 = self.store_capacity();
        let ghost budget = range_table_budget(s, e);
        let ghost total = range_tables_needed(root0, tables0, s, e, vb);
        let ghost t4 = 3 * ((s + w - c4) / 0x1000);
        let ghost t3 = 2 * ((c4 - c3) / 0x20_0000) + t4;
        let ghost t2 = (c3 - c2) / 0x4000_0000 + t3;
        let ghost t1 = 2 * ((c2 - p1) / 0x20_0000) + t2;
        proof {
            lemma_common_alignments();
            lemma_phase_order(s, e);
            crate::memory::addr::lemma_align_down_bounds(e + 0x1000 - 1, 0x1000);
            assert(budget == 3 * ((p1 - s) / 0x1000) + t1);
            lemma_range_tree_start(root0, tables0, s, e, vb, w, parent_set_flags@, parent_mask_flags@);
        }
        let start = phys.address().as_raw();
        let end = phys.end_address().as_raw();
        let vbase = virt_base.as_raw();
        let mut cursor: u64 = start;
        assert(range_progress(self.root(), self.tables(), root0, tables0, s, e, vb, w, s, present, leaf_flags@));

        // Phase 1: 4 KiB up to the next 2 MiB boundary, or to `end`.
        let a2 = align_u64_up(start, 0x20_0000);
        let phase1_end = if a2 < end {
            a2
        } else {
            end
        };
        while cursor < phase1_end
            invariant
                range_inputs(s, e, vb),
                s == phys.start(),
                e == phys.end(),
                vb == virt_base@,
                root0 == old(self).root(),
                tables0 == old(self).tables(),
                start == s,
                end == e,
                vbase == vb,
                w == align_up_spec(e, 0x1000) - s,
                present == (leaf_flags@ & 0x1 == 0x1),
                parent_set_flags@ & 0x80 == 0,
                phase_ends(s, e) == (p1, c2, c3, c4),
                cap0 == old(self).store_capacity(),
                budget == range_table_budget(s, e),
                total == range_tables_needed(root0, tables0, s, e, vb),
                range_tree_ok(
                    self.root(),
                    self.tables(),
                    root0,
                    tables0,
                    s,
                    e,
                    vb,
                    w,
                    cursor as int,
                    parent_set_flags@,
                    parent_mask_flags@,
                ),
                cap0 - self.store_capacity() == total - range_tables_from(root0, tables0, s, e, vb, cursor as int),
                budget == 3 * ((p1 - s) / 0x1000) + t1,
                t1 == 2 * ((c2 - p1) / 0x20_0000) + t2,
                t2 == (c3 - c2) / 0x4000_0000 + t3,
                t3 == 2 * ((c4 - c3) / 0x20_0000) + t4,
                t4 == 3 * ((s + w - c4) / 0x1000),
                0 <= t4 <= t3 <= t2 <= t1,
                self.store_capacity() <= cap0,
                cap0 + 3 * ((p1 - cursor) / 0x1000) + t1 <= self.store_capacity() + budget,
                s <= p1 <= c2 <= c3 <= c4 <= e,
                phase1_end == p1,
                p1 % 0x1000 == 0,
                cursor <= phase1_end,
                range_progress(self.root(), self.tables(), root0, tables0, s, e, vb, w, cursor as int, present, leaf_flags@),
            decreases phase1_end - cursor,
        {
            proof {
                lemma_aligned_step(cursor as int, p1, 0x1000);
            }
            let ghost root_b = self.root();
            let ghost tables_b = self.tables();
            let frame = Frame::new(PhysAddress::from_raw(cursor));
            let page = Page::new(VirtAddress::from_raw(vbase + (cursor - start)));
            proof {
                let parents = choose|p: Map<u64, (int, u64, int)>| tree_links(root_b, tables_b, p);
                assert(unmapped(root_b, tables_b, page@));
                lemma_unmapped_no_leaf(root_b, tables_b, parents, page@);
                lemma_mod_sum(vb, cursor - s, 0x1000);
                lemma_mod_sum(cursor as int, s, 0x1000);
            }
            proof {
                lemma_range_count_step(root_b, tables_b, root0, tables0, s, e, vb, w, cursor as int, 1, parent_set_flags@, parent_mask_flags@);
            }
            match self.map(page, frame, leaf_flags, parent_set_flags, parent_mask_flags) {
                Ok(()) => {},
                Err(err) => {
                    proof {
                        assert forall|v: u64| outside_window(v, vb, w) implies #[trigger] walk(
                            self.root(),
                            self.tables(),
                            v,
                        ) == walk(root0, tables0, v) by {
                            assert(walk(root_b, tables_b, v) == walk(root0, tables0, v));
                        }
                    }
                    return Err(err);
                },
            }
            proof {
                lemma_range_step(root_b, tables_b, self.root(), self.tables(), root0, tables0, s, e, vb, w, cursor as int, 1, present, leaf_flags@);
                lemma_range_tree_step(root_b, tables_b, self.root(), self.tables(), root0, tables0, s, e, vb, w, cursor as int, 1, parent_set_flags@, parent_mask_flags@);
            }
            cursor = cursor + 0x1000;
        }
        assert(cursor == p1);

        // Phase 2: 2 MiB until 1 GiB-aligned, while a whole 2 MiB chunk fits.
        let g = align_u64_up(cursor, 0x4000_0000);
        let phase2_end = if g < end {
            g
        } else {
            end
        };
        proof {
            lemma_run_chunks_bounds(p1, phase2_end as int, e, 0x20_0000);
        }
        while cursor < phase2_end && end - cursor >= 0x20_0000
            invariant
                range_inputs(s, e, vb),
                s == phys.start(),
                e == phys.end(),
                vb == virt_base@,
                root0 == old(self).root(),
                tables0 == old(self).tables(),
                start == s,
                end == e,
                vbase == vb,
                w == align_up_spec(e, 0x1000) - s,
                present == (leaf_flags@ & 0x1 == 0x1),
                parent_set_flags@ & 0x80 == 0,
                phase_ends(s, e) == (p1, c2, c3, c4),
                cap0 == old(self).store_capacity(),
                budget == range_table_budget(s, e),
                total == range_tables_needed(root0, tables0, s, e, vb),
                range_tree_ok(
                    self.root(),
                    self.tables(),
                    root0,
                    tables0,
                    s,
                    e,
                    vb,
                    w,
                    cursor as int,
                    parent_set_flags@,
                    parent_mask_flags@,
                ),
                cap0 - self.store_capacity() == total - range_tables_from(root0, tables0, s, e, vb, cursor as int),
                budget == 3 * ((p1 - s) / 0x1000) + t1,
                t1 == 2 * ((c2 - p1) / 0x20_0000) + t2,
                t2 == (c3 - c2) / 0x4000_0000 + t3,
                t3 == 2 * ((c4 - c3) / 0x20_0000) + t4,
                t4 == 3 * ((s + w - c4) / 0x1000),
                0 <= t4 <= t3 <= t2 <= t1,
                self.store_capacity() <= cap0,
                cap0 + 2 * ((c2 - cursor) / 0x20_0000) + t2 <= self.store_capacity() + budget,
                s <= p1 <= c2 <= c3 <= c4 <= e,
                p1 <= cursor <= e,
                cursor < e ==> cursor % 0x20_0000 == 0,
                run_chunks(cursor as int, phase2_end as int, e, 0x20_0000) == c2,
                range_progress(self.root(), self.tables(), root0, tables0, s, e, vb, w, cursor as int, present, leaf_flags@),
            decreases e - cursor,
        {
            proof {
                lemma_run_chunks_bounds(cursor as int, phase2_end as int, e, 0x20_0000);
                assert(uses_2m(s, e));
                lemma_mod_sum(vb - s, cursor as int, 0x20_0000);
            }
            let ghost root_b = self.root();
            let ghost tables_b = self.tables();
            let frame = Frame::new(PhysAddress::from_raw(cursor));
            let page = Page::new(VirtAddress::from_raw(vbase + (cursor - start)));
            proof {
                let parents = choose|p: Map<u64, (int, u64, int)>| tree_links(root_b, tables_b, p);
                assert(unmapped(root_b, tables_b, page@));
                lemma_unmapped_no_leaf(root_b, tables_b, parents, page@);
            }
            proof {
                lemma_range_count_step(root_b, tables_b, root0, tables0, s, e, vb, w, cursor as int, 2, parent_set_flags@, parent_mask_flags@);
            }
            match self.map_large::<Size2M>(
                page,
                frame,
                leaf_flags,
                parent_set_flags,
                parent_mask_flags,
            ) {
                Ok(()) => {},
                Err(err) => {
                    proof {
                        assert forall|v: u64| outside_window(v, vb, w) implies #[trigger] walk(
                            self.root(),
                            self.tables(),
                            v,
                        ) == walk(root0, tables0, v) by {
                            assert(walk(root_b, tables_b, v) == walk(root0, tables0, v));
                        }
                    }
                    return Err(err);
                },
            }
            proof {
                lemma_range_step(root_b, tables_b, self.root(), self.tables(), root0, tables0, s, e, vb, w, cursor as int, 2, present, leaf_flags@);
                lemma_range_tree_step(root_b, tables_b, self.root(), self.tables(), root0, tables0, s, e, vb, w, cursor as int, 2, parent_set_flags@, parent_mask_flags@);
            }
            cursor = cursor + 0x20_0000;
        }
        assert(cursor == c2);

        // Phase 3: 1 GiB while at least one whole 1 GiB chunk remains.
        while end - cursor >= 0x4000_0000
            invariant
                range_inputs(s, e, vb),
                s == phys.start(),
                e == phys.end(),
                vb == virt_base@,
                root0 == old(self).root(),
                tables0 == old(self).tables(),
                start == s,
                end == e,
                vbase == vb,
                w == align_up_spec(e, 0x1000) - s,
                present == (leaf_flags@ & 0x1 == 0x1),
                parent_set_flags@ & 0x80 == 0,
                phase_ends(s, e) == (p1, c2, c3, c4),
                cap0 == old(self).store_capacity(),
                budget == range_table_budget(s, e),
                total == range_tables_needed(root0, tables0, s, e, vb),
                range_tree_ok(
                    self.root(),
                    self.tables(),
                    root0,
                    tables0,
                    s,
                    e,
                    vb,
                    w,
                    cursor as int,
                    parent_set_flags@,
                    parent_mask_flags@,
                ),
                cap0 - self.store_capacity() == total - range_tables_from(root0, tables0, s, e, vb, cursor as int),
                budget == 3 * ((p1 - s) / 0x1000) + t1,
                t1 == 2 * ((c2 - p1) / 0x20_0000) + t2,
                t2 == (c3 - c2) / 0x4000_0000 + t3,
                t3 == 2 * ((c4 - c3) / 0x20_0000) + t4,
                t4 == 3 * ((s + w - c4) / 0x1000),
                0 <= t4 <= t3 <= t2 <= t1,
                self.store_capacity() <= cap0,
                cap0 + (c3 - cursor) / 0x4000_0000 + t3 <= self.store_capacity() + budget,
                s <= p1 <= c2 <= c3 <= c4 <= e,
                c2 <= cursor <= e,
                cursor < e ==> cursor % 0x20_0000 == 0,
                e - cursor >= 0x4000_0000 ==> cursor % 0x4000_0000 == 0,
                run_chunks(cursor as int, e, e, 0x4000_0000) == c3,
                range_progress(self.root(), self.tables(), root0, tables0, s, e, vb, w, cursor as int, present, leaf_flags@),
            decreases e - cursor,
        {
            proof {
                lemma_run_chunks_bounds(cursor as int, e, e, 0x4000_0000);
                assert(uses_1g(s, e));
                lemma_mod_sum(vb - s, cursor as int, 0x4000_0000);
                lemma_mod_sum(cursor as int, 0x4000_0000, 0x4000_0000);
                lemma_mod_sum(cursor as int, 0x4000_0000, 0x20_0000);
            }
            let ghost root_b = self.root();
            let ghost tables_b = self.tables();
            let frame = Frame::new(PhysAddress::from_raw(cursor));
            let page = Page::new(VirtAddress::from_raw(vbase + (cursor - start)));
            proof {
                let parents = choose|p: Map<u64, (int, u64, int)>| tree_links(root_b, tables_b, p);
                assert(unmapped(root_b, tables_b, page@));
                lemma_unmapped_no_leaf(root_b, tables_b, parents, page@);
            }
            proof {
                lemma_range_count_step(root_b, tables_b, root0, tables0, s, e, vb, w, cursor as int, 3, parent_set_flags@, parent_mask_flags@);
            }
            match self.map_large::<Size1G>(
                page,
                frame,
                leaf_flags,
                parent_set_flags,
                parent_mask_flags,
            ) {
                Ok(()) => {},
                Err(err) => {
                    proof {
                        assert forall|v: u64| outside_window(v, vb, w) implies #[trigger] walk(
                            self.root(),
                            self.tables(),
                            v,
                        ) == walk(root0, tables0, v) by {
                            assert(walk(root_b, tables_b, v) == walk(root0, tables0, v));
                        }
                    }
                    return Err(err);
                },
            }
            proof {
                lemma_range_step(root_b, tables_b, self.root(), self.tables(), root0, tables0, s, e, vb, w, cursor as int, 3, present, leaf_flags@);
                lemma_range_tree_step(root_b, tables_b, self.root(), self.tables(), root0, tables0, s, e, vb, w, cursor as int, 3, parent_set_flags@, parent_mask_flags@);
            }
            cursor = cursor + 0x4000_0000;
        }
        assert(cursor == c3);

        // Phase 4: 2 MiB while at least one whole 2 MiB chunk remains.
        while end - cursor >= 0x20_0000
            invariant
                range_inputs(s, e, vb),
                s == phys.start(),
                e == phys.end(),
                vb == virt_base@,
                root0 == old(self).root(),
                tables0 == old(self).tables(),
                start == s,
                end == e,
                vbase == vb,
                w == align_up_spec(e, 0x1000) - s,
                present == (leaf_flags@ & 0x1 == 0x1),
                parent_set_flags@ & 0x80 == 0,
                phase_ends(s, e) == (p1, c2, c3, c4),
                cap0 == old(self).store_capacity(),
                budget == range_table_budget(s, e),
                total == range_tables_needed(root0, tables0, s, e, vb),
                range_tree_ok(
                    self.root(),
                    self.tables(),
                    root0,
                    tables0,
                    s,
                    e,
                    vb,
                    w,
                    cursor as int,
                    parent_set_flags@,
                    parent_mask_flags@,
                ),
                cap0 - self.store_capacity() == total - range_tables_from(root0, tables0, s, e, vb, cursor as int),
                budget == 3 * ((p1 - s) / 0x1000) + t1,
                t1 == 2 * ((c2 - p1) / 0x20_0000) + t2,
                t2 == (c3 - c2) / 0x4000_0000 + t3,
                t3 == 2 * ((c4 - c3) / 0x20_0000) + t4,
                t4 == 3 * ((s + w - c4) / 0x1000),
                0 <= t4 <= t3 <= t2 <= t1,
                self.store_capacity() <= cap0,
                cap0 + 2 * ((c4 - cursor) / 0x20_0000) + t4 <= self.store_capacity() + budget,
                s <= p1 <= c2 <= c3 <= c4 <= e,
                c3 <= cursor <= e,
                cursor < e ==> cursor % 0x20_0000 == 0,
                run_chunks(cursor as int, e, e, 0x20_0000) == c4,
                range_progress(self.root(), self.tables(), root0, tables0, s, e, vb, w, cursor as int, present, leaf_flags@),
            decreases e - cursor,
        {
            proof {
                lemma_run_chunks_bounds(cursor as int, e, e, 0x20_0000);
                assert(uses_2m(s, e));
                lemma_mod_sum(vb - s, cursor as int, 0x20_0000);
                lemma_mod_sum(cursor as int, 0x20_0000, 0x20_0000);
            }
            let ghost root_b = self.root();
            let ghost tables_b = self.tables();
            let frame = Frame::new(PhysAddress::from_raw(cursor));
            let page = Page::new(VirtAddress::from_raw(vbase + (cursor - start)));
            proof {
                let parents = choose|p: Map<u64, (int, u64, int)>| tree_links(root_b, tables_b, p);
                assert(unmapped(root_b, tables_b, page@));
                lemma_unmapped_no_leaf(root_b, tables_b, parents, page@);
            }
            proof {
                lemma_range_count_step(root_b, tables_b, root0, tables0, s, e, vb, w, cursor as int, 2, parent_set_flags@, parent_mask_flags@);
            }
            match self.map_large::<Size2M>(
                page,
                frame,
                leaf_flags,
                parent_set_flags,
                parent_mask_flags,
            ) {
                Ok(()) => {},
                Err(err) => {
                    proof {
                        assert forall|v: u64| outside_window(v, vb, w) implies #[trigger] walk(
                            self.root(),
                            self.tables(),
                            v,
                        ) == walk(root0, tables0, v) by {
                            assert(walk(root_b, tables_b, v) == walk(root0, tables0, v));
                        }
                    }
                    return Err(err);
                },
            }
            proof {
                lemma_range_step(root_b, tables_b, self.root(), self.tables(), root0, tables0, s, e, vb, w, cursor as int, 2, present, leaf_flags@);
                lemma_range_tree_step(root_b, tables_b, self.root(), self.tables(), root0, tables0, s, e, vb, w, cursor as int, 2, parent_set_flags@, parent_mask_flags@);
            }
            cursor = cursor + 0x20_0000;
        }
        assert(cursor == c4);

        // Phase 5: 4 KiB for the final tail (< 2 MiB).
        while cursor < end
            invariant
                range_inputs(s, e, vb),
                s == phys.start(),
                e == phys.end(),
                vb == virt_base@,
                root0 == old(self).root(),
                tables0 == old(self).tables(),
                start == s,
                end == e,
                vbase == vb,
                w == align_up_spec(e, 0x1000) - s,
                present == (leaf_flags@ & 0x1 == 0x1),
                parent_set_flags@ & 0x80 == 0,
                phase_ends(s, e) == (p1, c2, c3, c4),
                cap0 == old(self).store_capacity(),
                budget == range_table_budget(s, e),
                total == range_tables_needed(root0, tables0, s, e, vb),
                range_tree_ok(
                    self.root(),
                    self.tables(),
                    root0,
                    tables0,
                    s,
                    e,
                    vb,
                    w,
                    cursor as int,
                    parent_set_flags@,
                    parent_mask_flags@,
                ),
                cap0 - self.store_capacity() == total - range_tables_from(root0, tables0, s, e, vb, cursor as int),
                budget == 3 * ((p1 - s) / 0x1000) + t1,
                t1 == 2 * ((c2 - p1) / 0x20_0000) + t2,
                t2 == (c3 - c2) / 0x4000_0000 + t3,
                t3 == 2 * ((c4 - c3) / 0x20_0000) + t4,
                t4 == 3 * ((s + w - c4) / 0x1000),
                0 <= t4 <= t3 <= t2 <= t1,
                self.store_capacity() <= cap0,
                cap0 + 3 * ((s + w - cursor) / 0x1000) <= self.store_capacity() + budget,
                s <= p1 <= c2 <= c3 <= c4 <= e,
                c4 <= cursor,
                range_progress(self.root(), self.tables(), root0, tables0, s, e, vb, w, cursor as int, present, leaf_flags@),
            decreases s + w - cursor,
        {
            proof {
                lemma_aligned_step(cursor as int, s + w, 0x1000);
            }
            let ghost root_b = self.root();
            let ghost tables_b = self.tables();
            let frame = Frame::new(PhysAddress::from_raw(cursor));
            let page = Page::new(VirtAddress::from_raw(vbase + (cursor - start)));
            proof {
                let parents = choose|p: Map<u64, (int, u64, int)>| tree_links(root_b, tables_b, p);
                assert(unmapped(root_b, tables_b, page@));
                lemma_unmapped_no_leaf(root_b, tables_b, parents, page@);
                lemma_mod_sum(vb, cursor - s, 0x1000);
                lemma_mod_sum(cursor as int, s, 0x1000);
            }
            proof {
                lemma_range_count_step(root_b, tables_b, root0, tables0, s, e, vb, w, cursor as int, 1, parent_set_flags@, parent_mask_flags@);
            }
            match self.map(page, frame, leaf_flags, parent_set_flags, parent_mask_flags) {
                Ok(()) => {},
                Err(err) => {
                    proof {
                        assert forall|v: u64| outside_window(v, vb, w) implies #[trigger] walk(
                            self.root(),
                            self.tables(),
                            v,
                        ) == walk(root0, tables0, v) by {
                            assert(walk(root_b, tables_b, v) == walk(root0, tables0, v));
                        }
                    }
                    return Err(err);
                },
            }
            proof {
                lemma_range_step(root_b, tables_b, self.root(), self.tables(), root0, tables0, s, e, vb, w, cursor as int, 1, present, leaf_flags@);
                lemma_range_tree_step(root_b, tables_b, self.root(), self.tables(), root0, tables0, s, e, vb, w, cursor as int, 1, parent_set_flags@, parent_mask_flags@);
            }
            cursor = cursor + 0x1000;
        }
        proof {
            crate::memory::addr::lemma_align_up_is_least(e, 0x1000, cursor as int);
        }
        assert(cursor == s + w);
        proof {
            lemma_range_tree_done(
                self.root(),
                self.tables(),
                root0,
                tables0,
                s,
                e,
                vb,
                w,
                parent_set_flags@,
                parent_mask_flags@,
            );
        }
        Ok(())
    }
}

} // verus!
