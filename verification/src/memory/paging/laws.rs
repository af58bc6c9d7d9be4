//! What successive calls of `Mapper::map` add up to, stated over the trees
//! before and after each call. A call that returned `Ok` with present leaf
//! flags and parent flags without the huge-page bit guarantees `mapped_one`
//! between the tree it started from and the one it left.

use super::tree::{
    lemma_index_bound, lemma_leaf_entry, leaf_entry, mapped_one, same_indices, tables_needed,
    translate, walk,
};
use super::{entry_addr, is_present, mappable, PAGE_TABLE_FLAG_BITS};
use vstd::prelude::*;

verus! {

/// Mapping a page and then translating any address in it gives back the
/// frame plus the address's offset in the page.
pub proof fn lemma_map_then_translate_round_trips(
    r0: Seq<u64>,
    t0: Map<u64, Seq<u64>>,
    r1: Seq<u64>,
    t1: Map<u64, Seq<u64>>,
    page: u64,
    frame: u64,
    flags: u64,
)
    requires
        mapped_one(r0, t0, r1, t1, page, frame, flags),
        mappable(frame),
        flags & !PAGE_TABLE_FLAG_BITS == 0,
    ensures
        translate(r1, t1, page) == Some(frame + page % 0x1000),
        entry_addr(leaf_entry(frame, flags)) == frame,
{
    lemma_leaf_entry(frame, flags);
}

/// Mapping one page into an empty tree maps nothing else: every page with
/// other indices stays unmapped.
pub proof fn lemma_map_leaves_every_other_page_unmapped(
    r0: Seq<u64>,
    t0: Map<u64, Seq<u64>>,
    r1: Seq<u64>,
    t1: Map<u64, Seq<u64>>,
    page: u64,
    frame: u64,
    flags: u64,
)
    requires
        mapped_one(r0, t0, r1, t1, page, frame, flags),
        forall|q: u64| #[trigger] walk(r0, t0, q) is None,
    ensures
        forall|q: u64| !same_indices(q, page) ==> #[trigger] walk(r1, t1, q) is None,
{
}

/// Two mappings of pages with different indices do not interfere: after
/// both, each page walks to its own leaf.
pub proof fn lemma_two_mappings_do_not_interfere(
    r0: Seq<u64>,
    t0: Map<u64, Seq<u64>>,
    r1: Seq<u64>,
    t1: Map<u64, Seq<u64>>,
    r2: Seq<u64>,
    t2: Map<u64, Seq<u64>>,
    p1: u64,
    f1: u64,
    fl1: u64,
    p2: u64,
    f2: u64,
    fl2: u64,
)
    requires
        mapped_one(r0, t0, r1, t1, p1, f1, fl1),
        mapped_one(r1, t1, r2, t2, p2, f2, fl2),
        !same_indices(p1, p2),
    ensures
        walk(r2, t2, p1) == Some((leaf_entry(f1, fl1), 0x1000u64)),
        walk(r2, t2, p2) == Some((leaf_entry(f2, fl2), 0x1000u64)),
{
    assert(walk(r2, t2, p1) == walk(r1, t1, p1));
}

/// Mapping a page again replaces its leaf entirely: nothing of the first
/// frame or flags is left, and every other page walks as before both calls.
pub proof fn lemma_remap_replaces_the_leaf(
    r0: Seq<u64>,
    t0: Map<u64, Seq<u64>>,
    r1: Seq<u64>,
    t1: Map<u64, Seq<u64>>,
    r2: Seq<u64>,
    t2: Map<u64, Seq<u64>>,
    page: u64,
    f1: u64,
    fl1: u64,
    f2: u64,
    fl2: u64,
)
    requires
        mapped_one(r0, t0, r1, t1, page, f1, fl1),
        mapped_one(r1, t1, r2, t2, page, f2, fl2),
    ensures
        walk(r2, t2, page) == Some((leaf_entry(f2, fl2), 0x1000u64)),
        forall|q: u64| !same_indices(q, page) ==> #[trigger] walk(r2, t2, q) == walk(r0, t0, q),
{
    assert forall|q: u64| !same_indices(q, page) implies #[trigger] walk(r2, t2, q) == walk(
        r0,
        t0,
        q,
    ) by {
        assert(walk(r2, t2, q) == walk(r1, t1, q));
        assert(walk(r1, t1, q) == walk(r0, t0, q));
    }
}

/// Into a root with no present entry, a mapping needs a fresh table for
/// every level below the root that it reaches: three for a 4 KiB page, two
/// for a 2 MiB page, one for a 1 GiB page.
pub proof fn lemma_empty_root_needs_a_table_per_level(
    root: Seq<u64>,
    tables: Map<u64, Seq<u64>>,
    v: u64,
    depth: int,
)
    requires
        root.len() == 512,
        forall|i: int| 0 <= i < 512 ==> !is_present(#[trigger] root[i]),
        1 <= depth <= 3,
    ensures
        tables_needed(root, tables, v, depth) == depth,
{
    lemma_index_bound(v);
}

} // verus!
