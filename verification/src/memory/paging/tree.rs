//! The translation tree a page-table walk follows, and how single-slot
//! updates change it.

use crate::memory::page::table_index;
use super::{
    entry_addr, entry_flags, is_huge, is_present, tables_wf, with_addr, with_flags, mappable,
    zero_table, PAGE_TABLE_FLAG_BITS, lemma_with_addr, lemma_with_flags,
};
use vstd::prelude::*;

verus! {

/// A present entry that is not a huge-page leaf: a walk continues through it.
pub open spec fn descends(raw: u64) -> bool {
    is_present(raw) && !is_huge(raw)
}

/// The leaf entry a hardware walk of `root` and `tables` reaches for the
/// page holding `v`, if any, with the size of that page: a 1 GiB leaf at L3,
/// a 2 MiB leaf at L2, or a 4 KiB leaf at L1.
pub open spec fn walk(root: Seq<u64>, tables: Map<u64, Seq<u64>>, v: u64) -> Option<(u64, u64)> {
    let e4 = root[table_index(v, 39) as int];
    if !is_present(e4) || !tables.contains_key(entry_addr(e4)) {
        None
    } else {
        let e3 = tables[entry_addr(e4)][table_index(v, 30) as int];
        if !is_present(e3) {
            None
        } else if is_huge(e3) {
            Some((e3, 0x4000_0000u64))
        } else if !tables.contains_key(entry_addr(e3)) {
            None
        } else {
            let e2 = tables[entry_addr(e3)][table_index(v, 21) as int];
            if !is_present(e2) {
                None
            } else if is_huge(e2) {
                Some((e2, 0x20_0000u64))
            } else if !tables.contains_key(entry_addr(e2)) {
                None
            } else {
                let e1 = tables[entry_addr(e2)][table_index(v, 12) as int];
                if is_present(e1) {
                    Some((e1, 0x1000u64))
                } else {
                    None
                }
            }
        }
    }
}

/// The physical address the hardware translates `v` to, if `v` is mapped:
/// the leaf's frame plus `v`'s offset within the page.
/// An all-zero entry is not present.
pub proof fn lemma_zero_entry_absent()
    by (bit_vector)
    ensures
        !is_present(0u64),
{
}

pub open spec fn translate(root: Seq<u64>, tables: Map<u64, Seq<u64>>, v: u64) -> Option<int> {
    match walk(root, tables, v) {
        Some((e, size)) => Some(entry_addr(e) + v % size),
        None => None,
    }
}

/// Where the table `c` hangs in the tree: `(level, parent table, index)`,
/// where level 3 tables hang from the root (whose parent field is unused),
/// level 2 from a level 3 table, and level 1 from a level 2 table.
pub open spec fn link_ok(
    root: Seq<u64>,
    tables: Map<u64, Seq<u64>>,
    parents: Map<u64, (int, u64, int)>,
    c: u64,
) -> bool {
    let lvl = parents[c].0;
    let p = parents[c].1;
    let i = parents[c].2;
    &&& tables.contains_key(c)
    &&& 1 <= lvl <= 3
    &&& 0 <= i < 512
    &&& lvl == 3 ==> is_present(root[i]) && entry_addr(root[i]) == c
    &&& lvl < 3 ==> {
        &&& parents.contains_key(p)
        &&& parents[p].0 == lvl + 1
        &&& descends(tables[p][i])
        &&& entry_addr(tables[p][i]) == c
    }
}

/// `parents` records, for every table reachable from `root`, the one entry
/// that points at it. Each table thus has exactly one parent and one level:
/// no two entries of the tree lead to the same table.
pub open spec fn tree_links(
    root: Seq<u64>,
    tables: Map<u64, Seq<u64>>,
    parents: Map<u64, (int, u64, int)>,
) -> bool {
    &&& root.len() == 512
    &&& tables_wf(tables)
    &&& forall|c: u64| #[trigger] parents.contains_key(c) ==> link_ok(root, tables, parents, c)
    &&& forall|i: int|
        0 <= i < 512 && is_present(#[trigger] root[i]) ==> {
            &&& parents.contains_key(entry_addr(root[i]))
            &&& parents[entry_addr(root[i])] == (3int, 0u64, i)
        }
    &&& forall|t: u64, j: int|
        #![trigger parents[t], tables[t][j]]
        parents.contains_key(t) && parents[t].0 >= 2 && 0 <= j < 512 && descends(tables[t][j])
            ==> {
            &&& parents.contains_key(entry_addr(tables[t][j]))
            &&& parents[entry_addr(tables[t][j])] == (parents[t].0 - 1, t, j)
        }
}

/// `root` and `tables` form a proper tree: every table reachable from the root
/// is in `tables` and hangs from exactly one entry.
pub open spec fn tree_ok(root: Seq<u64>, tables: Map<u64, Seq<u64>>) -> bool {
    exists|parents: Map<u64, (int, u64, int)>| tree_links(root, tables, parents)
}

/// The four table indices of `a` and `b` agree.
pub open spec fn same_indices(a: u64, b: u64) -> bool {
    &&& table_index(a, 39) == table_index(b, 39)
    &&& table_index(a, 30) == table_index(b, 30)
    &&& table_index(a, 21) == table_index(b, 21)
    &&& table_index(a, 12) == table_index(b, 12)
}

/// The flags a parent entry ends up with in `Mapper::next_level`: masked with
/// `mask` then given `set` if it was present, just `set` if not, and `PRESENT`
/// either way.
pub open spec fn parent_flags_after(old_entry: u64, set: u64, mask: u64) -> u64 {
    if is_present(old_entry) {
        (entry_flags(old_entry) & mask) | set | 1
    } else {
        set | 1
    }
}

/// The entries along `v`'s path that `depth` levels of descent pass through
/// are not huge-page leaves.
pub open spec fn path_has_no_leaf(
    root: Seq<u64>,
    tables: Map<u64, Seq<u64>>,
    v: u64,
    depth: int,
) -> bool {
    let e4 = root[table_index(v, 39) as int];
    is_present(e4) ==> {
        &&& !is_huge(e4)
        &&& depth >= 2 ==> {
            let e3 = tables[entry_addr(e4)][table_index(v, 30) as int];
            is_present(e3) ==> {
                &&& !is_huge(e3)
                &&& depth >= 3 ==> {
                    let e2 = tables[entry_addr(e3)][table_index(v, 21) as int];
                    is_present(e2) ==> !is_huge(e2)
                }
            }
        }
    }
}

/// An empty tree is a proper tree.
pub proof fn lemma_empty_tree_ok(root: Seq<u64>)
    requires
        root == zero_table(),
    ensures
        tree_ok(root, Map::empty()),
{
    lemma_zero_entry_absent();
    assert forall|i: int| 0 <= i < 512 implies !is_present(#[trigger] root[i]) by {
        assert(root[i] == 0u64);
    }
    assert(tree_links(root, Map::empty(), Map::empty()));
}

/// Nothing is mapped in an empty tree.
pub proof fn lemma_empty_tree_unmapped(v: u64)
    ensures
        walk(zero_table(), Map::empty(), v) is None,
{
    lemma_index_bound(v);
    lemma_zero_entry_absent();
    assert(zero_table()[table_index(v, 39) as int] == 0u64);
}

/// Updating the root slot `i` with an entry that keeps presence and address
/// (or points a previously absent slot at a fresh, zeroed table) keeps the
/// tree proper and changes no walk.
pub(crate) proof fn lemma_root_step(
    root: Seq<u64>,
    tables: Map<u64, Seq<u64>>,
    parents: Map<u64, (int, u64, int)>,
    i: int,
    new_entry: u64,
    tables2: Map<u64, Seq<u64>>,
    c: u64,
) -> (parents2: Map<u64, (int, u64, int)>)
    requires
        tree_links(root, tables, parents),
        0 <= i < 512,
        is_present(new_entry),
        entry_addr(new_entry) == c,
        is_present(root[i]) ==> tables2 == tables && c == entry_addr(root[i]),
        !is_present(root[i]) ==> !tables.contains_key(c) && tables2 == tables.insert(
            c,
            zero_table(),
        ),
    ensures
        tree_links(root.update(i, new_entry), tables2, parents2),
        parents2 == parents.insert(c, (3int, 0u64, i)),
        forall|v: u64| walk(root.update(i, new_entry), tables2, v) == walk(root, tables, v),
{
    let root2 = root.update(i, new_entry);
    let parents2 = if is_present(root[i]) {
        parents
    } else {
        parents.insert(c, (3int, 0u64, i))
    };
    if !is_present(root[i]) {
        assert(!parents.contains_key(c));
        assert forall|k: u64| #[trigger] parents.contains_key(k) implies parents[k] != (
        3int,
        0u64,
        i,
        ) by {
            assert(link_ok(root, tables, parents, k));
        }
    }
    assert forall|k: u64| #[trigger] parents2.contains_key(k) implies link_ok(
        root2,
        tables2,
        parents2,
        k,
    ) by {
        if k != c {
            assert(link_ok(root, tables, parents, k));
        }
    }
    assert forall|t: u64, j: int|
        #![trigger parents2[t], tables2[t][j]]
        parents2.contains_key(t) && parents2[t].0 >= 2 && 0 <= j < 512 && descends(
            tables2[t][j],
        ) implies {
        &&& parents2.contains_key(entry_addr(tables2[t][j]))
        &&& parents2[entry_addr(tables2[t][j])] == (parents2[t].0 - 1, t, j)
    } by {
        if t == c && !is_present(root[i]) {
            assert(tables2[t][j] == 0);
            lemma_zero_entry_absent();
        } else {
            assert(parents.contains_key(t));
            assert(tables2[t] == tables[t]);
            assert(parents.contains_key(entry_addr(tables[t][j])));
            assert(entry_addr(tables[t][j]) != c || is_present(root[i])) by {
                if !is_present(root[i]) {
                    assert(!parents.contains_key(c));
                }
            }
        }
    }
    assert(tables_wf(tables2));
    assert forall|v: u64| walk(root2, tables2, v) == walk(root, tables, v) by {
        lemma_root_step_walk(root, tables, parents, i, new_entry, tables2, c, v);
    }
    if is_present(root[i]) {
        assert(parents.contains_key(c));
        assert(parents2 =~= parents.insert(c, (3int, 0u64, i)));
    }
    parents2
}

proof fn lemma_root_step_walk(
    root: Seq<u64>,
    tables: Map<u64, Seq<u64>>,
    parents: Map<u64, (int, u64, int)>,
    i: int,
    new_entry: u64,
    tables2: Map<u64, Seq<u64>>,
    c: u64,
    v: u64,
)
    requires
        tree_links(root, tables, parents),
        0 <= i < 512,
        is_present(new_entry),
        entry_addr(new_entry) == c,
        is_present(root[i]) ==> tables2 == tables && c == entry_addr(root[i]),
        !is_present(root[i]) ==> !tables.contains_key(c) && tables2 == tables.insert(
            c,
            zero_table(),
        ),
    ensures
        walk(root.update(i, new_entry), tables2, v) == walk(root, tables, v),
{
    let root2 = root.update(i, new_entry);
    let l4 = table_index(v, 39) as int;
    lemma_index_bound(v);
    if l4 == i && !is_present(root[i]) {
        let e3 = tables2[c][table_index(v, 30) as int];
        assert(e3 == 0u64);
        lemma_zero_entry_absent();
    } else {
        assert(root2[l4] == root[l4] || (is_present(root[i]) && l4 == i));
        lemma_walk_extend(root, tables, parents, tables2, v);
    }
}

/// Adding tables, or changing none that the tree reaches, changes no walk.
pub(crate) proof fn lemma_walk_extend(
    root: Seq<u64>,
    tables: Map<u64, Seq<u64>>,
    parents: Map<u64, (int, u64, int)>,
    tables2: Map<u64, Seq<u64>>,
    v: u64,
)
    requires
        tree_links(root, tables, parents),
        forall|k: u64| #[trigger] parents.contains_key(k) ==> tables2.contains_key(k) && tables2[k]
            == tables[k],
    ensures
        walk(root, tables2, v) == walk(root, tables, v),
{
    lemma_index_bound(v);
    let e4 = root[table_index(v, 39) as int];
    if is_present(e4) {
        let t3 = entry_addr(e4);
        assert(parents.contains_key(t3));
        assert(link_ok(root, tables, parents, t3));
        let e3 = tables[t3][table_index(v, 30) as int];
        if descends(e3) {
            let t2 = entry_addr(e3);
            assert(parents.contains_key(t2));
            assert(link_ok(root, tables, parents, t2));
            let e2 = tables[t2][table_index(v, 21) as int];
            if descends(e2) {
                let t1 = entry_addr(e2);
                assert(parents.contains_key(t1));
            }
        }
    }
}

pub(crate) proof fn lemma_index_bound(v: u64)
    ensures
        table_index(v, 39) < 512,
        table_index(v, 30) < 512,
        table_index(v, 21) < 512,
        table_index(v, 12) < 512,
{
    assert(((v >> 39u64) & 0x1ff) < 512 && ((v >> 30u64) & 0x1ff) < 512 && ((v >> 21u64) & 0x1ff)
        < 512 && ((v >> 12u64) & 0x1ff) < 512) by (bit_vector);
}


/// `tables2` holds every table of `tables`, unchanged, and possibly more.
pub open spec fn extends(tables: Map<u64, Seq<u64>>, tables2: Map<u64, Seq<u64>>) -> bool {
    forall|k: u64| #[trigger]
        tables.contains_key(k) ==> tables2.contains_key(k) && tables2[k] == tables[k]
}

/// Adding tables that nothing points at keeps a proper tree and changes no
/// walk.
pub(crate) proof fn lemma_extend_tree(
    root: Seq<u64>,
    tables: Map<u64, Seq<u64>>,
    parents: Map<u64, (int, u64, int)>,
    tables2: Map<u64, Seq<u64>>,
)
    requires
        tree_links(root, tables, parents),
        tables_wf(tables2),
        extends(tables, tables2),
    ensures
        tree_links(root, tables2, parents),
        forall|v: u64| walk(root, tables2, v) == walk(root, tables, v),
{
    assert forall|k: u64| #[trigger] parents.contains_key(k) implies link_ok(
        root,
        tables2,
        parents,
        k,
    ) by {
        assert(link_ok(root, tables, parents, k));
        if parents[k].0 < 3 {
            assert(link_ok(root, tables, parents, parents[k].1));
        }
    }
    assert forall|t: u64, j: int|
        #![trigger parents[t], tables2[t][j]]
        parents.contains_key(t) && parents[t].0 >= 2 && 0 <= j < 512 && descends(tables2[t][j])
            implies {
        &&& parents.contains_key(entry_addr(tables2[t][j]))
        &&& parents[entry_addr(tables2[t][j])] == (parents[t].0 - 1, t, j)
    } by {
        assert(link_ok(root, tables, parents, t));
        assert(tables2[t] == tables[t]);
    }
    assert forall|v: u64| walk(root, tables2, v) == walk(root, tables, v) by {
        assert forall|k: u64| #[trigger] parents.contains_key(k) implies tables2.contains_key(k)
            && tables2[k] == tables[k] by {
            assert(link_ok(root, tables, parents, k));
        }
        lemma_walk_extend(root, tables, parents, tables2, v);
    }
}

/// The tables after `Mapper::next_level` has run on slot `i` of table `t`
/// (possibly allocating `c`) and the new entry has been written back.
pub open spec fn slot_written(
    tables2: Map<u64, Seq<u64>>,
    t: u64,
    i: int,
    new_entry: u64,
) -> Map<u64, Seq<u64>> {
    tables2.insert(t, tables2[t].update(i, new_entry))
}

/// Rewriting slot `i` of table `t` (at level 3 or 2) with an entry that keeps
/// the old child, or points a previously absent slot at a fresh, zeroed table
/// `c`, keeps the tree proper and changes no walk.
pub(crate) proof fn lemma_table_step(
    root: Seq<u64>,
    tables: Map<u64, Seq<u64>>,
    parents: Map<u64, (int, u64, int)>,
    t: u64,
    i: int,
    new_entry: u64,
    tables2: Map<u64, Seq<u64>>,
    c: u64,
) -> (parents2: Map<u64, (int, u64, int)>)
    requires
        tree_links(root, tables, parents),
        parents.contains_key(t),
        parents[t].0 >= 2,
        0 <= i < 512,
        descends(new_entry),
        entry_addr(new_entry) == c,
        is_present(tables[t][i]) ==> !is_huge(tables[t][i]) && tables2 == tables && c
            == entry_addr(tables[t][i]),
        !is_present(tables[t][i]) ==> !tables.contains_key(c) && tables2 == tables.insert(
            c,
            zero_table(),
        ),
    ensures
        tree_links(root, slot_written(tables2, t, i, new_entry), parents2),
        parents2 == parents.insert(c, (parents[t].0 - 1, t, i)),
        forall|v: u64|
            walk(root, slot_written(tables2, t, i, new_entry), v) == walk(root, tables, v),
{
    let lvl = parents[t].0;
    let tables3 = slot_written(tables2, t, i, new_entry);
    let fresh = !is_present(tables[t][i]);
    let parents2 = if fresh {
        parents.insert(c, (lvl - 1, t, i))
    } else {
        parents
    };
    assert(link_ok(root, tables, parents, t));
    lemma_zero_entry_absent();
    if fresh {
        assert(!parents.contains_key(c));
        assert forall|k: u64| #[trigger] parents.contains_key(k) implies !(parents[k].1 == t
            && parents[k].2 == i && parents[k].0 < 3) by {
            assert(link_ok(root, tables, parents, k));
        }
    } else {
        assert(parents.contains_key(c));
        assert(parents[c] == (lvl - 1, t, i));
    }
    assert(tables_wf(tables3));
    assert forall|k: u64| #[trigger] parents2.contains_key(k) implies link_ok(
        root,
        tables3,
        parents2,
        k,
    ) by {
        if k != c {
            assert(link_ok(root, tables, parents, k));
            let p = parents[k].1;
            let j = parents[k].2;
            if parents[k].0 < 3 {
                assert(tables3[p][j] == tables[p][j]) by {
                    if p == t && j == i {
                        assert(entry_addr(tables[t][i]) == k);
                    }
                }
            }
        } else {
            if !fresh {
                assert(link_ok(root, tables, parents, k));
            }
        }
    }
    assert forall|t2: u64, j: int|
        #![trigger parents2[t2], tables3[t2][j]]
        parents2.contains_key(t2) && parents2[t2].0 >= 2 && 0 <= j < 512 && descends(
            tables3[t2][j],
        ) implies {
        &&& parents2.contains_key(entry_addr(tables3[t2][j]))
        &&& parents2[entry_addr(tables3[t2][j])] == (parents2[t2].0 - 1, t2, j)
    } by {
        if t2 == t && j == i {
        } else if t2 == c && fresh {
            assert(tables3[t2][j] == 0);
        } else {
            assert(parents.contains_key(t2));
            assert(tables3[t2][j] == tables[t2][j]);
            assert(parents.contains_key(entry_addr(tables[t2][j])));
        }
    }
    assert forall|v: u64| walk(root, tables3, v) == walk(root, tables, v) by {
        lemma_table_step_walk(root, tables, parents, t, i, new_entry, tables2, c, v);
    }
    if !fresh {
        assert(parents2 =~= parents.insert(c, (lvl - 1, t, i)));
    }
    parents2
}

proof fn lemma_table_step_walk(
    root: Seq<u64>,
    tables: Map<u64, Seq<u64>>,
    parents: Map<u64, (int, u64, int)>,
    t: u64,
    i: int,
    new_entry: u64,
    tables2: Map<u64, Seq<u64>>,
    c: u64,
    v: u64,
)
    requires
        tree_links(root, tables, parents),
        parents.contains_key(t),
        parents[t].0 >= 2,
        0 <= i < 512,
        descends(new_entry),
        entry_addr(new_entry) == c,
        is_present(tables[t][i]) ==> !is_huge(tables[t][i]) && tables2 == tables && c
            == entry_addr(tables[t][i]),
        !is_present(tables[t][i]) ==> !tables.contains_key(c) && tables2 == tables.insert(
            c,
            zero_table(),
        ),
    ensures
        walk(root, slot_written(tables2, t, i, new_entry), v) == walk(root, tables, v),
{
    let tables3 = slot_written(tables2, t, i, new_entry);
    let fresh = !is_present(tables[t][i]);
    lemma_zero_entry_absent();
    lemma_index_bound(v);
    assert(link_ok(root, tables, parents, t));
    if !fresh {
        assert(parents[c] == (parents[t].0 - 1, t, i));
        assert(link_ok(root, tables, parents, c));
    }
    let e4 = root[table_index(v, 39) as int];
    if !is_present(e4) {
        return;
    }
    let t3 = entry_addr(e4);
    assert(parents.contains_key(t3));
    assert(link_ok(root, tables, parents, t3));
    let l3 = table_index(v, 30) as int;
    if t3 == t && l3 == i {
        if fresh {
            assert(tables3[c][table_index(v, 21) as int] == 0);
        } else {
            let t2 = c;
            let e2 = tables[t2][table_index(v, 21) as int];
            assert(tables3[t2] == tables[t2]);
            if descends(e2) {
                let t1 = entry_addr(e2);
                assert(parents.contains_key(t1));
                assert(link_ok(root, tables, parents, t1));
                assert(tables3[t1] == tables[t1]);
            }
        }
        return;
    }
    assert(tables3[t3][l3] == tables[t3][l3]);
    let e3 = tables[t3][l3];
    if !descends(e3) {
        return;
    }
    let t2 = entry_addr(e3);
    assert(parents.contains_key(t2));
    assert(link_ok(root, tables, parents, t2));
    let l2 = table_index(v, 21) as int;
    if t2 == t && l2 == i {
        if fresh {
            assert(tables3[c][table_index(v, 12) as int] == 0);
        } else {
            assert(tables3[c] == tables[c]);
        }
        return;
    }
    assert(tables3[t2][l2] == tables[t2][l2]);
    let e2 = tables[t2][l2];
    if !descends(e2) {
        return;
    }
    let t1 = entry_addr(e2);
    assert(parents.contains_key(t1));
    assert(link_ok(root, tables, parents, t1));
    assert(tables3[t1] == tables[t1]);
}


/// `c3`, `c2`, `c1` are the level 3, 2 and 1 tables on the path of `v`.
pub open spec fn on_path(
    parents: Map<u64, (int, u64, int)>,
    v: u64,
    c3: u64,
    c2: u64,
    c1: u64,
) -> bool {
    &&& parents.contains_key(c3)
    &&& parents.contains_key(c2)
    &&& parents.contains_key(c1)
    &&& parents[c3] == (3int, 0u64, table_index(v, 39) as int)
    &&& parents[c2] == (2int, c3, table_index(v, 30) as int)
    &&& parents[c1] == (1int, c2, table_index(v, 21) as int)
}

/// Writing a 4 KiB leaf into the level 1 table on `v`'s path maps `v`'s page
/// to it and changes the walk of no page with other indices.
pub(crate) proof fn lemma_leaf_step(
    root: Seq<u64>,
    tables: Map<u64, Seq<u64>>,
    parents: Map<u64, (int, u64, int)>,
    v: u64,
    c3: u64,
    c2: u64,
    c1: u64,
    leaf: u64,
)
    requires
        tree_links(root, tables, parents),
        on_path(parents, v, c3, c2, c1),
    ensures
        tree_links(root, slot_written(tables, c1, table_index(v, 12) as int, leaf), parents),
        walk(root, slot_written(tables, c1, table_index(v, 12) as int, leaf), v) == if is_present(
            leaf,
        ) {
            Some((leaf, 0x1000u64))
        } else {
            None
        },
        forall|q: u64|
            !same_indices(q, v) ==> walk(
                root,
                slot_written(tables, c1, table_index(v, 12) as int, leaf),
                q,
            ) == walk(root, tables, q),
{
    lemma_index_bound(v);
    let l1 = table_index(v, 12) as int;
    let tables2 = slot_written(tables, c1, l1, leaf);
    assert(link_ok(root, tables, parents, c1));
    assert(link_ok(root, tables, parents, c2));
    assert(link_ok(root, tables, parents, c3));
    assert(tables_wf(tables2));
    assert forall|k: u64| #[trigger] parents.contains_key(k) implies link_ok(
        root,
        tables2,
        parents,
        k,
    ) by {
        assert(link_ok(root, tables, parents, k));
        if parents[k].0 < 3 {
            let p = parents[k].1;
            assert(parents[p].0 >= 2);
            assert(p != c1);
        }
    }
    assert forall|t: u64, j: int|
        #![trigger parents[t], tables2[t][j]]
        parents.contains_key(t) && parents[t].0 >= 2 && 0 <= j < 512 && descends(tables2[t][j])
            implies {
        &&& parents.contains_key(entry_addr(tables2[t][j]))
        &&& parents[entry_addr(tables2[t][j])] == (parents[t].0 - 1, t, j)
    } by {
        assert(t != c1);
        assert(tables2[t][j] == tables[t][j]);
    }
    assert(tables2[c3] == tables[c3]);
    assert(tables2[c2] == tables[c2]);
    assert forall|q: u64| !same_indices(q, v) implies walk(root, tables2, q) == walk(
        root,
        tables,
        q,
    ) by {
        lemma_index_bound(q);
        let e4 = root[table_index(q, 39) as int];
        if is_present(e4) {
            let t3 = entry_addr(e4);
            assert(parents.contains_key(t3));
            assert(link_ok(root, tables, parents, t3));
            assert(t3 != c1);
            let e3 = tables[t3][table_index(q, 30) as int];
            if descends(e3) {
                let t2 = entry_addr(e3);
                assert(parents.contains_key(t2));
                assert(link_ok(root, tables, parents, t2));
                assert(t2 != c1);
                let e2 = tables[t2][table_index(q, 21) as int];
                if descends(e2) {
                    let t1 = entry_addr(e2);
                    assert(parents.contains_key(t1));
                    if t1 == c1 {
                        assert(t2 == c2);
                        assert(t3 == c3);
                        assert(table_index(q, 12) != table_index(v, 12));
                    }
                }
            }
        }
    }
}


/// `a` and `b` agree on the table indices above a leaf in a table of level
/// `d`: L4 and L3 for a 1 GiB leaf (`d == 3`), also L2 for a 2 MiB leaf
/// (`d == 2`).
pub open spec fn same_prefix(a: u64, b: u64, d: int) -> bool {
    &&& table_index(a, 39) == table_index(b, 39)
    &&& table_index(a, 30) == table_index(b, 30)
    &&& d <= 2 ==> table_index(a, 21) == table_index(b, 21)
}

/// The page size of a leaf in a table of level `d`.
pub open spec fn level_size(d: int) -> u64 {
    if d == 3 {
        0x4000_0000
    } else if d == 2 {
        0x20_0000
    } else {
        0x1000
    }
}

/// `t` is the table of level `d` (3 or 2) on `v`'s path, and `c3` the level 3
/// table above it (`t` itself when `d == 3`).
pub open spec fn slot_on_path(
    parents: Map<u64, (int, u64, int)>,
    v: u64,
    t: u64,
    c3: u64,
    d: int,
) -> bool {
    &&& parents.contains_key(c3)
    &&& parents[c3] == (3int, 0u64, table_index(v, 39) as int)
    &&& d == 3 ==> t == c3
    &&& d == 2 ==> parents.contains_key(t) && parents[t] == (2int, c3, table_index(v, 30) as int)
}

/// The slot index a leaf of a table of level `d` takes for `v`.
pub open spec fn slot_index(v: u64, d: int) -> int {
    if d == 3 {
        table_index(v, 30) as int
    } else {
        table_index(v, 21) as int
    }
}

/// The tables hanging below slot `i` of table `t`, which a huge leaf written
/// there cuts off.
pub open spec fn cut_off(
    tables: Map<u64, Seq<u64>>,
    parents: Map<u64, (int, u64, int)>,
    t: u64,
    i: int,
    k: u64,
) -> bool {
    let o = tables[t][i];
    &&& descends(o)
    &&& (k == entry_addr(o) || (parents[k].0 < 3 && parents[k].1 == entry_addr(o)))
}

/// Writing a huge-page leaf into the level `d` table on `v`'s path keeps a
/// proper tree (the tables it cuts off drop out of it), maps every address
/// sharing `v`'s upper indices to the leaf, and changes no other walk.
pub(crate) proof fn lemma_huge_leaf_step(
    root: Seq<u64>,
    tables: Map<u64, Seq<u64>>,
    parents: Map<u64, (int, u64, int)>,
    v: u64,
    t: u64,
    c3: u64,
    d: int,
    leaf: u64,
)
    requires
        tree_links(root, tables, parents),
        d == 2 || d == 3,
        slot_on_path(parents, v, t, c3, d),
        is_huge(leaf),
    ensures
        tree_ok(root, slot_written(tables, t, slot_index(v, d), leaf)),
        forall|q: u64|
            same_prefix(q, v, d) ==> walk(root, slot_written(tables, t, slot_index(v, d), leaf), q)
                == (if is_present(leaf) {
                Some((leaf, level_size(d)))
            } else {
                None
            }),
        forall|q: u64|
            !same_prefix(q, v, d) ==> walk(root, slot_written(tables, t, slot_index(v, d), leaf), q)
                == walk(root, tables, q),
{
    lemma_index_bound(v);
    let i = slot_index(v, d);
    let tables2 = slot_written(tables, t, i, leaf);
    let parents2 = parents.restrict(
        Set::new(|k: u64| parents.contains_key(k) && !cut_off(tables, parents, t, i, k)),
    );
    assert(link_ok(root, tables, parents, t));
    assert(link_ok(root, tables, parents, c3));
    let o = tables[t][i];
    if descends(o) {
        let c = entry_addr(o);
        assert(parents.contains_key(c));
        assert(parents[c] == (parents[t].0 - 1, t, i));
        assert(link_ok(root, tables, parents, c));
    }
    assert(tables_wf(tables2));
    assert forall|k: u64| #[trigger] parents2.contains_key(k) implies link_ok(
        root,
        tables2,
        parents2,
        k,
    ) by {
        assert(link_ok(root, tables, parents, k));
        if parents[k].0 < 3 {
            let p = parents[k].1;
            assert(link_ok(root, tables, parents, p));
            if descends(o) {
                let c = entry_addr(o);
                assert(link_ok(root, tables, parents, c));
                if p == c {
                    assert(cut_off(tables, parents, t, i, k));
                }
                if parents[p].0 < 3 && parents[p].1 == c {
                    assert(parents[c].0 == parents[p].0 + 1);
                }
            }
            assert(parents2.contains_key(p));
            if p == t && parents[k].2 == i {
                assert(cut_off(tables, parents, t, i, k));
            }
        }
    }
    assert forall|i4: int|
        0 <= i4 < 512 && is_present(#[trigger] root[i4]) implies {
        &&& parents2.contains_key(entry_addr(root[i4]))
        &&& parents2[entry_addr(root[i4])] == (3int, 0u64, i4)
    } by {
        let k = entry_addr(root[i4]);
        assert(parents.contains_key(k));
        if descends(o) {
            let c = entry_addr(o);
            assert(link_ok(root, tables, parents, c));
        }
    }
    assert forall|t2: u64, j: int|
        #![trigger parents2[t2], tables2[t2][j]]
        parents2.contains_key(t2) && parents2[t2].0 >= 2 && 0 <= j < 512 && descends(
            tables2[t2][j],
        ) implies {
        &&& parents2.contains_key(entry_addr(tables2[t2][j]))
        &&& parents2[entry_addr(tables2[t2][j])] == (parents2[t2].0 - 1, t2, j)
    } by {
        if t2 == t && j == i {
        } else {
            assert(tables2[t2][j] == tables[t2][j]);
            let k = entry_addr(tables[t2][j]);
            assert(parents.contains_key(k));
            assert(parents[k] == (parents[t2].0 - 1, t2, j));
            if descends(o) {
                let c = entry_addr(o);
                assert(link_ok(root, tables, parents, c));
                if k == c {
                    assert(parents[c] == (parents[t].0 - 1, t, i));
                }
            }
        }
    }
    assert(tree_links(root, tables2, parents2));
    assert forall|q: u64| same_prefix(q, v, d) implies walk(root, tables2, q) == (if is_present(
        leaf,
    ) {
        Some((leaf, level_size(d)))
    } else {
        None
    }) by {
        lemma_index_bound(q);
        if d == 2 {
            assert(link_ok(root, tables, parents, t));
            assert(tables2[c3] == tables[c3]);
        }
    }
    assert forall|q: u64| !same_prefix(q, v, d) implies walk(root, tables2, q) == walk(
        root,
        tables,
        q,
    ) by {
        lemma_index_bound(q);
        let e4 = root[table_index(q, 39) as int];
        if is_present(e4) {
            let t3 = entry_addr(e4);
            assert(parents.contains_key(t3));
            assert(link_ok(root, tables, parents, t3));
            let e3 = tables[t3][table_index(q, 30) as int];
            if t3 == t && d == 3 {
                assert(table_index(q, 30) != table_index(v, 30));
            }
            if descends(e3) {
                let t2 = entry_addr(e3);
                assert(parents.contains_key(t2));
                assert(link_ok(root, tables, parents, t2));
                if t2 == t && d == 2 {
                    assert(t3 == c3);
                    assert(table_index(q, 21) != table_index(v, 21));
                }
                let e2 = tables[t2][table_index(q, 21) as int];
                if descends(e2) {
                    let t1 = entry_addr(e2);
                    assert(parents.contains_key(t1));
                    assert(link_ok(root, tables, parents, t1));
                }
            }
        }
    }
}

/// The leaf entry `Mapper::map` writes: `frame`'s address with `flags`.
pub open spec fn leaf_entry(frame: u64, flags: u64) -> u64 {
    with_flags(with_addr(0, frame), flags)
}

/// Going from the tree `(r0, t0)` to `(r1, t1)` mapped the 4 KiB page
/// `page` to `frame` with `flags`: its walk reaches exactly that leaf, and
/// no page with other indices walks differently than before.
pub open spec fn mapped_one(
    r0: Seq<u64>,
    t0: Map<u64, Seq<u64>>,
    r1: Seq<u64>,
    t1: Map<u64, Seq<u64>>,
    page: u64,
    frame: u64,
    flags: u64,
) -> bool {
    &&& walk(r1, t1, page) == Some((leaf_entry(frame, flags), 0x1000u64))
    &&& forall|q: u64| !same_indices(q, page) ==> #[trigger] walk(r1, t1, q) == walk(r0, t0, q)
}

/// The leaf `Mapper::map` writes holds exactly the frame and the flags.
pub proof fn lemma_leaf_entry(frame: u64, flags: u64)
    requires
        mappable(frame),
        flags & !PAGE_TABLE_FLAG_BITS == 0,
    ensures
        entry_addr(leaf_entry(frame, flags)) == frame,
        entry_flags(leaf_entry(frame, flags)) == flags,
        is_present(leaf_entry(frame, flags)) == (flags & 0x1 == 0x1),
        is_huge(leaf_entry(frame, flags)) == (flags & 0x80 == 0x80),
{
    lemma_with_addr(0, frame);
    lemma_with_flags(with_addr(0, frame), flags);
}

/// The entries on `v`'s path that `depth` levels of descent pass through are
/// all present already, so mapping `v` allocates no table.
pub open spec fn path_present(
    root: Seq<u64>,
    tables: Map<u64, Seq<u64>>,
    v: u64,
    depth: int,
) -> bool {
    let e4 = root[table_index(v, 39) as int];
    &&& is_present(e4)
    &&& depth >= 2 ==> is_present(tables[entry_addr(e4)][table_index(v, 30) as int])
    &&& depth >= 3 ==> is_present(
        tables[entry_addr(tables[entry_addr(e4)][table_index(v, 30) as int])][table_index(v, 21) as int],
    )
}

/// The entry on `v`'s path at `level`: the root's entry for level 4, the
/// level 3 table's for level 3, the level 2 table's for level 2. Above it an
/// absent entry, or a huge-page leaf, leaves it absent (zero).
pub open spec fn path_entry(root: Seq<u64>, tables: Map<u64, Seq<u64>>, v: u64, level: int) -> u64 {
    let e4 = root[table_index(v, 39) as int];
    let e3 = tables[entry_addr(e4)][table_index(v, 30) as int];
    if level >= 4 {
        e4
    } else if !is_present(e4) {
        0
    } else if level == 3 {
        e3
    } else if !descends(e3) {
        0
    } else {
        tables[entry_addr(e3)][table_index(v, 21) as int]
    }
}

/// `a` and `b` reach the same entry at `level` (4, 3 or 2): they agree on
/// the table indices from L4 down to that level.
pub open spec fn same_path_entry(a: u64, b: u64, level: int) -> bool {
    &&& table_index(a, 39) == table_index(b, 39)
    &&& level <= 3 ==> table_index(a, 30) == table_index(b, 30)
    &&& level <= 2 ==> table_index(a, 21) == table_index(b, 21)
}

/// How many tables a mapping of `v` whose leaf sits `depth` levels below the
/// root (3 for a 4 KiB page, 2 for 2 MiB, 1 for 1 GiB) has to allocate: none
/// while the entries on `v`'s path are present, and from the first absent one
/// on, one for that level and one for every level below it.
pub open spec fn tables_needed(root: Seq<u64>, tables: Map<u64, Seq<u64>>, v: u64, depth: int) -> nat {
    let e4 = root[table_index(v, 39) as int];
    let e3 = tables[entry_addr(e4)][table_index(v, 30) as int];
    let e2 = tables[entry_addr(e3)][table_index(v, 21) as int];
    if !is_present(e4) {
        depth as nat
    } else if depth <= 1 {
        0
    } else if !is_present(e3) {
        (depth - 1) as nat
    } else if depth <= 2 {
        0
    } else if !is_present(e2) {
        1
    } else {
        0
    }
}

/// Giving the same parent flags twice leaves what giving them once did.
proof fn lemma_parent_flag_bits_again(f: u64, set: u64, mask: u64)
    by (bit_vector)
    ensures
        ((((f & mask) | set | 1) & mask) | set | 1) == (f & mask) | set | 1,
        (((set | 1) & mask) | set | 1) == set | 1,
{
}

/// A present entry whose flags are what `parent_flags_after` made of `e0`
/// keeps them when the same flags are given again.
pub proof fn lemma_parent_flags_idempotent(x: u64, e0: u64, set: u64, mask: u64)
    requires
        is_present(x),
        entry_flags(x) == parent_flags_after(e0, set, mask),
    ensures
        parent_flags_after(x, set, mask) == parent_flags_after(e0, set, mask),
{
    lemma_parent_flag_bits_again(entry_flags(e0), set, mask);
}

/// Two addresses that reach the same entry at `lv` see the same entry there.
pub proof fn lemma_same_path_entry(root: Seq<u64>, tables: Map<u64, Seq<u64>>, a: u64, b: u64, lv: int)
    requires
        2 <= lv <= 4,
        same_path_entry(a, b, lv),
    ensures
        path_entry(root, tables, a, lv) == path_entry(root, tables, b, lv),
{
}

} // verus!
