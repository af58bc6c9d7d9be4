//! `Mapper`: builds mappings in a page-table tree.

use crate::memory::addr::{Length, PhysAddress};
use crate::memory::page::{table_index, Frame, Page};
use super::tree::{
    extends, lemma_extend_tree, lemma_zero_entry_absent, lemma_huge_leaf_step, level_size, same_prefix,
    slot_index, slot_on_path, lemma_index_bound, lemma_leaf_entry, lemma_leaf_step,
    lemma_root_step, lemma_table_step, leaf_entry, link_ok, mapped_one, on_path, parent_flags_after,
    descends, path_has_no_leaf, path_present, same_indices, slot_written, tables_needed, translate, path_entry, same_path_entry,
    tree_links, tree_ok, walk,
};
use super::{
    entry_addr, entry_flags, is_huge, is_present, tables_wf, with_addr, with_flags, mappable,
    zero_table, MapError, PageTable, PageTableEntry, PageTableFlags, TableStore,
    lemma_with_addr, lemma_with_flags, MAX_PHYS_ADDR, PAGE_TABLE_FLAG_BITS,
};
use vstd::prelude::*;

verus! {

/// A large ("huge") page size, and the level of the table its leaf entries
/// live in: `Size2M` places a `PAGE_SIZE`-flagged leaf at L2, `Size1G` at L3.
pub trait LargePageSize {
    /// The page size in bytes.
    spec fn spec_size() -> u64;

    /// The level of the table holding such a leaf.
    spec fn spec_level() -> int;

    fn size() -> (r: Length)
        ensures
            r@ == Self::spec_size(),
            Self::spec_level() == 2 || Self::spec_level() == 3,
            Self::spec_size() == level_size(Self::spec_level()),
    ;
}

/// A 2 MiB page, mapped via a `PAGE_SIZE`-flagged L2 (PD) entry.
pub struct Size2M;

impl LargePageSize for Size2M {
    open spec fn spec_size() -> u64 {
        0x20_0000
    }

    open spec fn spec_level() -> int {
        2
    }

    fn size() -> (r: Length) {
        Length::from_raw(2 * 1024 * 1024)
    }
}

/// A 1 GiB page, mapped via a `PAGE_SIZE`-flagged L3 (PDPT) entry.
pub struct Size1G;

impl LargePageSize for Size1G {
    open spec fn spec_size() -> u64 {
        0x4000_0000
    }

    open spec fn spec_level() -> int {
        3
    }

    fn size() -> (r: Length) {
        Length::from_raw(1024 * 1024 * 1024)
    }
}

/// The leaf entry `Mapper::map_large` writes: `frame`'s address with `flags`
/// and `PAGE_SIZE`.
pub open spec fn huge_leaf_entry(frame: u64, flags: u64) -> u64 {
    leaf_entry(frame, flags | 0x80)
}

/// Builds page-table mappings in the tree rooted at `level_4`, reading,
/// writing and allocating lower-level tables through `store`.
pub struct Mapper<Store: TableStore> {
    level_4: PageTable,
    store: Store,
}

impl<Store: TableStore> Mapper<Store> {
    /// The raw entries of the root (level 4) table.
    pub closed spec fn root(&self) -> Seq<u64> {
        self.level_4@
    }

    /// The lower-level tables, by frame.
    pub closed spec fn tables(&self) -> Map<u64, Seq<u64>> {
        self.store.tables()
    }

    /// How many more tables the store can hand out.
    pub closed spec fn store_capacity(&self) -> nat {
        self.store.capacity()
    }

    /// The root and the tables form a proper tree.
    pub open spec fn tree_ok(&self) -> bool {
        tree_ok(self.root(), self.tables())
    }

    /// Create a `Mapper` for the given `level_4` page table and `store`.
    pub fn new_with_store(level_4: PageTable, store: Store) -> (r: Self)
        ensures
            r.root() == level_4@,
            r.tables() == store.tables(),
            r.store_capacity() == store.capacity(),
    {
        Mapper { level_4, store }
    }

    pub fn level_4(&self) -> (r: &PageTable)
        ensures
            r@ == self.root(),
    {
        &self.level_4
    }

    pub fn store(&self) -> (r: &Store)
        ensures
            r.tables() == self.tables(),
    {
        &self.store
    }

    /// Give back the root table and the store.
    pub fn into_parts(self) -> (r: (PageTable, Store))
        ensures
            r.0@ == self.root(),
            r.1.tables() == self.tables(),
    {
        (self.level_4, self.store)
    }

    /// Map `page` to `frame` in the table. The leaf table entry will have
    /// `leaf_flags`. All parent table entries, if already present, will have
    /// their flags masked with `parent_mask_flags`, then those in
    /// `parent_set_flags` set; absent parents are allocated with
    /// `parent_set_flags`. `PRESENT` is exempt from the mask and always ends
    /// up set on every parent entry along the path.
    ///
    /// An existing leaf entry for `page` is overwritten. The parent entries on
    /// `page`'s path must not be huge-page leaves, and `frame` must lie below
    /// 2^52. It takes one table from the store for each level below the root
    /// that `page`'s path lacks (`tables_needed`), and fails, with
    /// `FrameAllocationFailed`, exactly when the store has fewer than that.
    pub fn map(
        &mut self,
        page: Page,
        frame: Frame,
        leaf_flags: PageTableFlags,
        parent_set_flags: PageTableFlags,
        parent_mask_flags: PageTableFlags,
    ) -> (r: Result<(), MapError>)
        requires
            old(self).tree_ok(),
            path_has_no_leaf(old(self).root(), old(self).tables(), page@, 3),
            frame@ < MAX_PHYS_ADDR,
        ensures
            final(self).root().len() == 512,
            r is Err ==> r == Err::<(), MapError>(MapError::FrameAllocationFailed)
                && final(self).store_capacity() == 0,
            r is Ok <==> old(self).store_capacity() >= tables_needed(
                old(self).root(),
                old(self).tables(),
                page@,
                3,
            ),
            r is Ok ==> final(self).store_capacity() == old(self).store_capacity() - tables_needed(
                old(self).root(),
                old(self).tables(),
                page@,
                3,
            ),
            old(self).store_capacity() >= 3 ==> r is Ok,
            final(self).store_capacity() <= old(self).store_capacity(),
            tables_wf(final(self).tables()),
            old(self).tables().dom().subset_of(final(self).tables().dom()),
            forall|i: int|
                0 <= i < 512 && i != table_index(page@, 39) ==> #[trigger] final(self).root()[i]
                    == old(self).root()[i],
            parent_set_flags@ & 0x80 == 0 ==> {
                ||| final(self).root()[table_index(page@, 39) as int] == old(self).root()[table_index(page@, 39) as int]
                ||| is_present(final(self).root()[table_index(page@, 39) as int]) && !is_huge(
                    final(self).root()[table_index(page@, 39) as int],
                )
            },
            r is Ok ==> entry_flags(final(self).root()[table_index(page@, 39) as int])
                == parent_flags_after(
                old(self).root()[table_index(page@, 39) as int],
                parent_set_flags@,
                parent_mask_flags@,
            ),
            r is Ok && path_present(old(self).root(), old(self).tables(), page@, 3)
                ==> final(self).tables().dom() == old(self).tables().dom(),
            parent_set_flags@ & 0x80 == 0 ==> {
                &&& final(self).tree_ok()
                &&& r is Ok ==> entry_flags(path_entry(final(self).root(), final(self).tables(), page@, 3))
                    == parent_flags_after(
                    path_entry(old(self).root(), old(self).tables(), page@, 3),
                    parent_set_flags@,
                    parent_mask_flags@,
                )
                &&& r is Ok ==> entry_flags(path_entry(final(self).root(), final(self).tables(), page@, 2))
                    == parent_flags_after(
                    path_entry(old(self).root(), old(self).tables(), page@, 2),
                    parent_set_flags@,
                    parent_mask_flags@,
                )
                &&& r is Ok ==> forall|lv: int|
                    2 <= lv <= 4 ==> descends(#[trigger] path_entry(final(self).root(), final(self).tables(), page@, lv))
                &&& r is Ok ==> forall|q: u64, lv: int|
                    2 <= lv <= 4 && !same_path_entry(q, page@, lv) ==> #[trigger] path_entry(
                        final(self).root(),
                        final(self).tables(),
                        q,
                        lv,
                    ) == path_entry(old(self).root(), old(self).tables(), q, lv)
                &&& r is Ok ==> walk(final(self).root(), final(self).tables(), page@) == (if leaf_flags@
                    & 0x1 == 0x1 {
                    Some((leaf_entry(frame@, leaf_flags@), 0x1000u64))
                } else {
                    None
                })
                &&& r is Ok && leaf_flags@ & 0x1 == 0x1 ==> forall|q: u64|
                    same_indices(q, page@) ==> translate(final(self).root(), final(self).tables(), q)
                        == Some(frame@ + q % 0x1000)
                &&& r is Ok ==> forall|q: u64|
                    !same_indices(q, page@) ==> walk(final(self).root(), final(self).tables(), q)
                        == walk(old(self).root(), old(self).tables(), q)
                &&& r is Ok && leaf_flags@ & 0x1 == 0x1 ==> mapped_one(
                    old(self).root(),
                    old(self).tables(),
                    final(self).root(),
                    final(self).tables(),
                    page@,
                    frame@,
                    leaf_flags@,
                )
                &&& r is Err ==> forall|q: u64|
                    walk(final(self).root(), final(self).tables(), q) == walk(
                        old(self).root(),
                        old(self).tables(),
                        q,
                    )
            },
    {
        let ghost root0 = self.root();
        let ghost tables0 = self.tables();
        let ghost parents0 = choose|p: Map<u64, (int, u64, int)>| tree_links(root0, tables0, p);
        let ghost cap0 = self.store.capacity();
        let ghost v = page@;
        proof {
            lemma_index_bound(v);
        }
        let l4_index = page.l4_index();
        let l3_index = page.l3_index();
        let l2_index = page.l2_index();
        let l1_index = page.l1_index();
        let mut l4e = self.level_4.entry(l4_index);
        let l3_frame = match Self::next_level(
            &mut l4e,
            &mut self.store,
            parent_set_flags,
            parent_mask_flags,
        ) {
            Ok(f) => f,
            Err(e) => return Err(e),
        };
        self.level_4.set_entry(l4_index, l4e);
        let ghost root1 = self.root();
        let ghost tables1 = self.tables();
        assert(tables0.dom().subset_of(tables1.dom()));
        let ghost parents1 = parents0.insert(l3_frame@, (3int, 0u64, l4_index as int));
        proof {
            lemma_root_step(root0, tables0, parents0, l4_index as int, l4e@, tables1, l3_frame@);
            assert(link_ok(root1, tables1, parents1, l3_frame@));
        }
        let ghost e3 = tables1[l3_frame@][l3_index as int];
        let ghost cap1 = self.store.capacity();
        proof {
            lemma_zero_entry_absent();
            if !is_present(root0[l4_index as int]) {
                assert(e3 == zero_table()[l3_index as int]);
            } else {
                assert(e3 == tables0[entry_addr(root0[l4_index as int])][l3_index as int]);
            }
        }
        let l2_frame = match Self::descend(
            &mut self.store,
            l3_frame,
            l3_index,
            parent_set_flags,
            parent_mask_flags,
        ) {
            Ok(f) => f,
            Err(e) => {
                proof {
                    lemma_extend_tree(root1, tables1, parents1, self.tables());
                    assert forall|k: u64| tables0.contains_key(k) implies #[trigger] self.tables().contains_key(k) by {
                        assert(tables1.contains_key(k));
                    }
                }
                return Err(e);
            },
        };
        let ghost tables2 = self.tables();
        proof {
            assert(tables1.dom().subset_of(tables2.dom()));
            if is_present(e3) {
                assert(parents1.contains_key(l2_frame@));
                assert(parents1[l2_frame@] == (2int, l3_frame@, l3_index as int));
                assert(link_ok(root1, tables1, parents1, l2_frame@));
                assert(tables2[l2_frame@] == tables1[l2_frame@]);
            }
        }
        let ghost parents2 = parents1.insert(l2_frame@, (2int, l3_frame@, l3_index as int));
        proof {
            if parent_set_flags@ & 0x80 == 0 {
                let t = if is_present(e3) {
                    tables1
                } else {
                    tables1.insert(l2_frame@, zero_table())
                };
                lemma_table_step(
                    root1,
                    tables1,
                    parents1,
                    l3_frame@,
                    l3_index as int,
                    tables2[l3_frame@][l3_index as int],
                    t,
                    l2_frame@,
                );
            }
        }
        let ghost e2 = tables2[l2_frame@][l2_index as int];
        let ghost cap2 = self.store.capacity();
        proof {
            if is_present(e3) {
                assert(l2_frame@ == entry_addr(e3));
                assert(tables2[l2_frame@] == tables1[l2_frame@]);
            } else {
                assert(tables1.contains_key(l3_frame@));
                assert(!tables1.contains_key(l2_frame@));
                assert(tables2[l2_frame@] == zero_table());
                assert(!is_present(e2));
            }
            if is_present(root0[l4_index as int]) && is_present(e3) {
                assert(e2 == tables0[entry_addr(e3)][l2_index as int]);
            }
        }
        let l1_frame = match Self::descend(
            &mut self.store,
            l2_frame,
            l2_index,
            parent_set_flags,
            parent_mask_flags,
        ) {
            Ok(f) => f,
            Err(e) => {
                proof {
                    if parent_set_flags@ & 0x80 == 0 {
                        lemma_extend_tree(root1, tables2, parents2, self.tables());
                    }
                }
                return Err(e);
            },
        };
        let ghost tables3 = self.tables();
        proof {
            assert(tables2.dom().subset_of(tables3.dom()));
            assert(tables0.dom().subset_of(tables3.dom()));
            if is_present(e2) {
                assert(parents1.contains_key(l1_frame@));
                assert(link_ok(root1, tables1, parents1, l1_frame@));
            }
        }
        let ghost parents3 = parents2.insert(l1_frame@, (1int, l2_frame@, l2_index as int));
        proof {
            if parent_set_flags@ & 0x80 == 0 {
                let t = if is_present(e2) {
                    tables2
                } else {
                    tables2.insert(l1_frame@, zero_table())
                };
                lemma_table_step(
                    root1,
                    tables2,
                    parents2,
                    l2_frame@,
                    l2_index as int,
                    tables3[l2_frame@][l2_index as int],
                    t,
                    l1_frame@,
                );
            }
        }
        let mut leaf = PageTableEntry::zero();
        leaf.set_addr(frame.start());
        leaf.set_flags(leaf_flags);
        proof {
            lemma_leaf_entry(frame@, leaf_flags@);
        }
        match self.store.write_entry(l1_frame, l1_index, leaf) {
            Ok(()) => {},
            Err(e) => return Err(e),
        }
        proof {
            if parent_set_flags@ & 0x80 == 0 {
                assert(on_path(parents3, v, l3_frame@, l2_frame@, l1_frame@));
                lemma_leaf_step(root1, tables3, parents3, v, l3_frame@, l2_frame@, l1_frame@, leaf@);
                assert(e3 == path_entry(root0, tables0, v, 3));
                assert(e2 == path_entry(root0, tables0, v, 2));
                assert(self.tables()[l3_frame@] == tables2[l3_frame@]);
                assert(self.tables()[l2_frame@] == tables3[l2_frame@]);
                assert(self.root()[l4_index as int] == root1[l4_index as int]);
                assert(path_entry(self.root(), self.tables(), v, 3) == tables2[l3_frame@][l3_index as int]);
                assert(path_entry(self.root(), self.tables(), v, 2) == tables3[l2_frame@][l2_index as int]);
                let fin = self.tables();
                assert(descends(path_entry(self.root(), fin, v, 4)));
                assert(descends(path_entry(self.root(), fin, v, 3)));
                assert(descends(path_entry(self.root(), fin, v, 2)));
                assert forall|t: u64|
                    tables0.contains_key(t) && t != l3_frame@ && t != l2_frame@ && t != l1_frame@
                        implies #[trigger] fin[t] == tables0[t] by {
                    assert(tables1[t] == tables0[t]);
                    assert(tables2[t] == tables1[t]);
                    assert(tables3[t] == tables2[t]);
                }
                assert forall|q: u64, lv: int|
                    2 <= lv <= 4 && !same_path_entry(q, v, lv) implies #[trigger] path_entry(
                        self.root(),
                        fin,
                        q,
                        lv,
                    ) == path_entry(root0, tables0, q, lv) by {
                    lemma_index_bound(q);
                    let q4 = table_index(q, 39) as int;
                    let q3 = table_index(q, 30) as int;
                    let q2 = table_index(q, 21) as int;
                    let a4 = root0[q4];
                    if q4 != l4_index as int {
                        assert(self.root()[q4] == a4);
                        if is_present(a4) {
                            let t3 = entry_addr(a4);
                            assert(parents0[t3] == (3int, 0u64, q4));
                            assert(tables0.contains_key(t3));
                            assert(fin[t3] == tables0[t3]);
                            let a3 = tables0[t3][q3];
                            if descends(a3) && lv <= 2 {
                                let t2 = entry_addr(a3);
                                assert(parents0[t2] == (2int, t3, q3));
                                assert(tables0.contains_key(t2));
                                assert(fin[t2] == tables0[t2]);
                            }
                        }
                    } else {
                        assert(entry_addr(self.root()[q4]) == l3_frame@);
                        if q3 != l3_index as int {
                            assert(fin[l3_frame@][q3] == tables1[l3_frame@][q3]);
                            if is_present(a4) {
                                assert(tables1[l3_frame@] == tables0[l3_frame@]);
                                let a3 = tables0[l3_frame@][q3];
                                if descends(a3) && lv <= 2 {
                                    let t2 = entry_addr(a3);
                                    assert(parents0[t2] == (2int, l3_frame@, q3));
                                    assert(tables0.contains_key(t2));
                                    assert(fin[t2] == tables0[t2]);
                                }
                            } else {
                                assert(tables1[l3_frame@] == zero_table());
                            }
                        } else {
                            assert(lv <= 2 && q2 != l2_index as int);
                            assert(entry_addr(fin[l3_frame@][q3]) == l2_frame@);
                            assert(fin[l2_frame@][q2] == tables2[l2_frame@][q2]);
                            if is_present(e3) {
                                assert(e3 == path_entry(root0, tables0, q, 3));
                            } else {
                                assert(tables2[l2_frame@] == zero_table());
                            }
                        }
                    }
                }
            }
        }
        Ok(())
    }

    /// Map `page` to `frame` using a large (`S`) page instead of a 4 KiB one:
    /// `Size2M` places a `PAGE_SIZE`-flagged leaf at L2, `Size1G` at L3. This
    /// works like `map` but stops descending one or two levels earlier. The
    /// leaf gets `leaf_flags` and `PAGE_SIZE`.
    ///
    /// `frame` and `page` must be aligned to `S`'s size, which is also what
    /// keeps the low bits of the leaf's frame number, reserved in a huge-page
    /// entry, zero. Whatever hung below the leaf's slot is cut off. Like
    /// `map`, it takes one table for each missing level above the leaf's and
    /// fails exactly when the store has fewer than that.
    pub fn map_large<S: LargePageSize>(
        &mut self,
        page: Page,
        frame: Frame,
        leaf_flags: PageTableFlags,
        parent_set_flags: PageTableFlags,
        parent_mask_flags: PageTableFlags,
    ) -> (r: Result<(), MapError>)
        requires
            old(self).tree_ok(),
            path_has_no_leaf(old(self).root(), old(self).tables(), page@, 4 - S::spec_level()),
            frame@ < MAX_PHYS_ADDR,
            frame@ % S::spec_size() == 0,
            page@ % S::spec_size() == 0,
        ensures
            final(self).root().len() == 512,
            r is Err ==> r == Err::<(), MapError>(MapError::FrameAllocationFailed)
                && final(self).store_capacity() == 0,
            r is Ok <==> old(self).store_capacity() >= tables_needed(
                old(self).root(),
                old(self).tables(),
                page@,
                4 - S::spec_level(),
            ),
            r is Ok ==> final(self).store_capacity() == old(self).store_capacity() - tables_needed(
                old(self).root(),
                old(self).tables(),
                page@,
                4 - S::spec_level(),
            ),
            old(self).store_capacity() >= 2 ==> r is Ok,
            final(self).store_capacity() <= old(self).store_capacity(),
            tables_wf(final(self).tables()),
            old(self).tables().dom().subset_of(final(self).tables().dom()),
            forall|i: int|
                0 <= i < 512 && i != table_index(page@, 39) ==> #[trigger] final(self).root()[i]
                    == old(self).root()[i],
            parent_set_flags@ & 0x80 == 0 ==> {
                ||| final(self).root()[table_index(page@, 39) as int] == old(self).root()[table_index(page@, 39) as int]
                ||| is_present(final(self).root()[table_index(page@, 39) as int]) && !is_huge(
                    final(self).root()[table_index(page@, 39) as int],
                )
            },
            r is Ok ==> entry_flags(final(self).root()[table_index(page@, 39) as int])
                == parent_flags_after(
                old(self).root()[table_index(page@, 39) as int],
                parent_set_flags@,
                parent_mask_flags@,
            ),
            parent_set_flags@ & 0x80 == 0 ==> {
                &&& final(self).tree_ok()
                &&& r is Ok ==> forall|lv: int|
                    S::spec_level() < lv <= 4 ==> descends(
                        #[trigger] path_entry(final(self).root(), final(self).tables(), page@, lv),
                    )
                &&& r is Ok ==> forall|q: u64, lv: int|
                    2 <= lv <= 4 && !same_path_entry(q, page@, lv) && !same_path_entry(
                        q,
                        page@,
                        S::spec_level(),
                    ) ==> #[trigger] path_entry(final(self).root(), final(self).tables(), q, lv)
                        == path_entry(old(self).root(), old(self).tables(), q, lv)
                &&& r is Ok && S::spec_level() == 2 ==> entry_flags(
                    path_entry(final(self).root(), final(self).tables(), page@, 3),
                ) == parent_flags_after(
                    path_entry(old(self).root(), old(self).tables(), page@, 3),
                    parent_set_flags@,
                    parent_mask_flags@,
                )
                &&& r is Ok ==> forall|q: u64|
                    same_prefix(q, page@, S::spec_level()) ==> walk(
                        final(self).root(),
                        final(self).tables(),
                        q,
                    ) == (if leaf_flags@ & 0x1 == 0x1 {
                        Some((huge_leaf_entry(frame@, leaf_flags@), S::spec_size()))
                    } else {
                        None
                    })
                &&& r is Ok && leaf_flags@ & 0x1 == 0x1 ==> forall|q: u64|
                    same_prefix(q, page@, S::spec_level()) ==> translate(
                        final(self).root(),
                        final(self).tables(),
                        q,
                    ) == Some(frame@ + q % S::spec_size())
                &&& r is Ok ==> forall|q: u64|
                    !same_prefix(q, page@, S::spec_level()) ==> walk(
                        final(self).root(),
                        final(self).tables(),
                        q,
                    ) == walk(old(self).root(), old(self).tables(), q)
                &&& r is Err ==> forall|q: u64|
                    walk(final(self).root(), final(self).tables(), q) == walk(
                        old(self).root(),
                        old(self).tables(),
                        q,
                    )
            },
    {
        let size = S::size();
        let ghost d = S::spec_level();
        let ghost root0 = self.root();
        let ghost tables0 = self.tables();
        let ghost parents0 = choose|p: Map<u64, (int, u64, int)>| tree_links(root0, tables0, p);
        let ghost cap0 = self.store.capacity();
        let ghost v = page@;
        proof {
            lemma_index_bound(v);
        }
        let l4_index = page.l4_index();
        let l3_index = page.l3_index();
        let mut l4e = self.level_4.entry(l4_index);
        let l3_frame = match Self::next_level(
            &mut l4e,
            &mut self.store,
            parent_set_flags,
            parent_mask_flags,
        ) {
            Ok(f) => f,
            Err(e) => return Err(e),
        };
        self.level_4.set_entry(l4_index, l4e);
        let ghost root1 = self.root();
        let ghost tables1 = self.tables();
        assert(tables0.dom().subset_of(tables1.dom()));
        let ghost parents1 = parents0.insert(l3_frame@, (3int, 0u64, l4_index as int));
        proof {
            lemma_root_step(root0, tables0, parents0, l4_index as int, l4e@, tables1, l3_frame@);
            assert(link_ok(root1, tables1, parents1, l3_frame@));
            lemma_zero_entry_absent();
        }
        let ghost e3 = tables1[l3_frame@][l3_index as int];
        let ghost cap1 = self.store.capacity();
        proof {
            if is_present(root0[l4_index as int]) {
                assert(e3 == tables0[entry_addr(root0[l4_index as int])][l3_index as int]);
            }
        }
        let ghost mut parents2 = parents1;
        let ghost mut l2g: u64 = 0;
        let ghost mut tables2g = tables1;
        let (leaf_table, leaf_index) = if size.as_raw() == 0x4000_0000 {
            (l3_frame, l3_index)
        } else {
            proof {
                if !is_present(root0[l4_index as int]) {
                    assert(e3 == zero_table()[l3_index as int]);
                }
            }
            let l2_frame = match Self::descend(
                &mut self.store,
                l3_frame,
                l3_index,
                parent_set_flags,
                parent_mask_flags,
            ) {
                Ok(f) => f,
                Err(e) => {
                    proof {
                        lemma_extend_tree(root1, tables1, parents1, self.tables());
                        assert forall|k: u64| tables0.contains_key(k) implies #[trigger] self.tables().contains_key(k) by {
                            assert(tables1.contains_key(k));
                        }
                    }
                    return Err(e);
                },
            };
            let ghost tables2 = self.tables();
            proof {
                assert(tables1.dom().subset_of(tables2.dom()));
                if is_present(e3) {
                    assert(parents1.contains_key(l2_frame@));
                    assert(parents1[l2_frame@] == (2int, l3_frame@, l3_index as int));
                    assert(link_ok(root1, tables1, parents1, l2_frame@));
                    assert(tables2[l2_frame@] == tables1[l2_frame@]);
                }
                parents2 = parents1.insert(l2_frame@, (2int, l3_frame@, l3_index as int));
                l2g = l2_frame@;
                tables2g = tables2;
                if parent_set_flags@ & 0x80 == 0 {
                    let t = if is_present(e3) {
                        tables1
                    } else {
                        tables1.insert(l2_frame@, zero_table())
                    };
                    lemma_table_step(
                        root1,
                        tables1,
                        parents1,
                        l3_frame@,
                        l3_index as int,
                        tables2[l3_frame@][l3_index as int],
                        t,
                        l2_frame@,
                    );
                }
            }
            (l2_frame, page.l2_index())
        };
        let ghost tables3 = self.tables();
        let ghost lf: u64 = leaf_flags@;
        let ghost leaf_flags2 = lf | 0x80;
        let mut leaf = PageTableEntry::zero();
        leaf.set_addr(frame.start());
        leaf.set_flags(leaf_flags.union(PageTableFlags::from_bits_truncate(PageTableFlags::PAGE_SIZE)));
        proof {
            assert(0x80u64 & 0xc000_0000_0000_01ffu64 == 0x80u64 && leaf_flags2 & 0x80 == 0x80 && (
            leaf_flags2 & 0x1 == 0x1) == (lf & 0x1 == 0x1)) by (bit_vector)
                requires
                    leaf_flags2 == lf | 0x80,
            ;
            lemma_leaf_entry(frame@, leaf_flags2);
        }
        match self.store.write_entry(leaf_table, leaf_index, leaf) {
            Ok(()) => {},
            Err(e) => return Err(e),
        }
        proof {
            if parent_set_flags@ & 0x80 == 0 {
                assert(slot_on_path(parents2, v, leaf_table@, l3_frame@, d));
                assert(leaf_index == slot_index(v, d));
                lemma_huge_leaf_step(root1, tables3, parents2, v, leaf_table@, l3_frame@, d, leaf@);
                if d == 2 {
                    assert(e3 == path_entry(root0, tables0, v, 3));
                    assert(self.tables()[l3_frame@] == tables3[l3_frame@]);
                    assert(self.root()[l4_index as int] == root1[l4_index as int]);
                    assert(path_entry(self.root(), self.tables(), v, 3) == tables3[l3_frame@][l3_index as int]);
                    assert(descends(path_entry(self.root(), self.tables(), v, 3)));
                }
                assert(descends(path_entry(self.root(), self.tables(), v, 4)));
                let fin = self.tables();
                let l2f = if d == 2 {
                    l2g
                } else {
                    l3_frame@
                };
                assert forall|t: u64|
                    tables0.contains_key(t) && t != l3_frame@ && t != l2f implies #[trigger] fin[t]
                    == tables0[t] by {
                    assert(tables1[t] == tables0[t]);
                    assert(tables3[t] == tables1[t]);
                }
                assert forall|q: u64, lv: int|
                    2 <= lv <= 4 && !same_path_entry(q, v, lv) && !same_path_entry(q, v, d)
                        implies #[trigger] path_entry(self.root(), fin, q, lv) == path_entry(
                        root0,
                        tables0,
                        q,
                        lv,
                    ) by {
                    lemma_index_bound(q);
                    let q4 = table_index(q, 39) as int;
                    let q3 = table_index(q, 30) as int;
                    let q2 = table_index(q, 21) as int;
                    let a4 = root0[q4];
                    if q4 != l4_index as int {
                        assert(self.root()[q4] == a4);
                        if is_present(a4) {
                            let t3 = entry_addr(a4);
                            assert(parents0[t3] == (3int, 0u64, q4));
                            assert(tables0.contains_key(t3));
                            assert(fin[t3] == tables0[t3]);
                            let a3 = tables0[t3][q3];
                            if descends(a3) && lv <= 2 {
                                let t2 = entry_addr(a3);
                                assert(parents0[t2] == (2int, t3, q3));
                                assert(tables0.contains_key(t2));
                                assert(fin[t2] == tables0[t2]);
                            }
                        }
                    } else {
                        assert(entry_addr(self.root()[q4]) == l3_frame@);
                        if q3 != l3_index as int {
                            assert(fin[l3_frame@][q3] == tables1[l3_frame@][q3]);
                            if is_present(a4) {
                                assert(tables1[l3_frame@] == tables0[l3_frame@]);
                                let a3 = tables0[l3_frame@][q3];
                                if descends(a3) && lv <= 2 {
                                    let t2 = entry_addr(a3);
                                    assert(parents0[t2] == (2int, l3_frame@, q3));
                                    assert(tables0.contains_key(t2));
                                    assert(fin[t2] == tables0[t2]);
                                }
                            } else {
                                assert(tables1[l3_frame@] == zero_table());
                            }
                        } else {
                            assert(d == 2 && lv <= 2 && q2 != table_index(v, 21) as int);
                            assert(entry_addr(fin[l3_frame@][q3]) == l2g);
                            assert(fin[l2g][q2] == tables2g[l2g][q2]);
                            if is_present(e3) {
                                assert(e3 == path_entry(root0, tables0, q, 3));
                            } else {
                                assert(tables2g[l2g] == zero_table());
                            }
                        }
                    }
                }
            }
        }
        Ok(())
    }

    /// Follow slot `index` of the lower-level table `table` one level down,
    /// as `next_level` does, and write the updated entry back.
    fn descend(
        store: &mut Store,
        table: Frame,
        index: usize,
        set_flags: PageTableFlags,
        mask_flags: PageTableFlags,
    ) -> (r: Result<Frame, MapError>)
        requires
            tables_wf(old(store).tables()),
            old(store).tables().contains_key(table@),
            index < 512,
            is_present(old(store).tables()[table@][index as int]) ==> !is_huge(
                old(store).tables()[table@][index as int],
            ),
        ensures
            tables_wf(final(store).tables()),
            r matches Ok(c) ==> {
                let e = old(store).tables()[table@][index as int];
                let e2 = final(store).tables()[table@][index as int];
                &&& is_present(e2)
                &&& entry_addr(e2) == c@
                &&& entry_flags(e2) == parent_flags_after(e, set_flags@, mask_flags@)
                &&& set_flags@ & 0x80 == 0 ==> !is_huge(e2)
                &&& is_present(e) ==> {
                    &&& c@ == entry_addr(e)
                    &&& final(store).tables() == slot_written(
                        old(store).tables(),
                        table@,
                        index as int,
                        e2,
                    )
                }
                &&& !is_present(e) ==> {
                    &&& !old(store).tables().contains_key(c@)
                    &&& final(store).tables() == slot_written(
                        old(store).tables().insert(c@, zero_table()),
                        table@,
                        index as int,
                        e2,
                    )
                }
            },
            r is Err ==> extends(old(store).tables(), final(store).tables()),
            r is Ok <==> (is_present(old(store).tables()[table@][index as int]) || old(
                store,
            ).capacity() > 0),
            r is Ok ==> final(store).capacity() == old(store).capacity() - (if is_present(
                old(store).tables()[table@][index as int],
            ) {
                0int
            } else {
                1int
            }),
            r is Err ==> r == Err::<Frame, MapError>(MapError::FrameAllocationFailed)
                && final(store).capacity() == 0 && old(store).capacity() == 0,
    {
        let mut e = match store.read_entry(table, index) {
            Ok(e) => e,
            Err(err) => return Err(err),
        };
        let ghost tables1 = store.tables();
        let c = match Self::next_level(&mut e, store, set_flags, mask_flags) {
            Ok(c) => c,
            Err(err) => return Err(err),
        };
        let ghost tables2 = store.tables();
        match store.write_entry(table, index, e) {
            Ok(()) => {},
            Err(err) => return Err(err),
        }
        assert(store.tables()[table@][index as int] == e@);
        Ok(c)
    }

    /// Given the entry in a parent table that should point at the next-level
    /// table, return that table's frame, allocating and zeroing a fresh one if
    /// `entry` isn't `PRESENT`. If it is, its flags are masked with
    /// `mask_flags`, then those in `set_flags` are set. Either way the entry
    /// ends up `PRESENT`. A present entry must not be a huge-page leaf.
    fn next_level(
        entry: &mut PageTableEntry,
        store: &mut Store,
        set_flags: PageTableFlags,
        mask_flags: PageTableFlags,
    ) -> (r: Result<Frame, MapError>)
        requires
            tables_wf(old(store).tables()),
            is_present(old(entry)@) ==> !is_huge(old(entry)@),
        ensures
            tables_wf(final(store).tables()),
            r matches Ok(f) ==> {
                &&& f@ == entry_addr(final(entry)@)
                &&& is_present(final(entry)@)
                &&& entry_flags(final(entry)@) == parent_flags_after(
                    old(entry)@,
                    set_flags@,
                    mask_flags@,
                )
                &&& is_present(old(entry)@) ==> {
                    &&& final(store).tables() == old(store).tables()
                    &&& f@ == entry_addr(old(entry)@)
                }
                &&& !is_present(old(entry)@) ==> {
                    &&& !old(store).tables().contains_key(f@)
                    &&& final(store).tables() == old(store).tables().insert(f@, zero_table())
                }
                &&& set_flags@ & 0x80 == 0 ==> !is_huge(final(entry)@)
            },
            r is Err ==> final(store).tables() == old(store).tables() && final(entry)@ == old(entry)@,
            r is Ok <==> (is_present(old(entry)@) || old(store).capacity() > 0),
            r is Ok ==> final(store).capacity() == old(store).capacity() - (if is_present(
                old(entry)@,
            ) {
                0int
            } else {
                1int
            }),
            r is Err ==> r == Err::<Frame, MapError>(MapError::FrameAllocationFailed)
                && final(store).capacity() == 0 && old(store).capacity() == 0,
    {
        let present = PageTableFlags::from_bits_truncate(PageTableFlags::PRESENT);
        let flags = entry.get_flags();
        let set_bits = set_flags.bits();
        let mask_bits = mask_flags.bits();
        proof {
            lemma_flag_bits_general(entry@, set_bits, mask_bits);
            assert(0x1u64 & 0xc000_0000_0000_01ffu64 == 0x1u64) by (bit_vector);
        }
        if flags.contains(present) {
            let new_flags = flags.intersection(mask_flags).union(set_flags).union(present);
            proof {
                lemma_with_flags(entry@, new_flags@);
            }
            entry.set_flags(new_flags);
            Ok(Frame::new(entry.get_addr()))
        } else {
            let new_frame = match store.alloc_zeroed_table() {
                Ok(f) => f,
                Err(e) => return Err(e),
            };
            let new_flags = set_flags.union(present);
            proof {
                lemma_with_addr(entry@, new_frame@);
                lemma_with_flags(with_addr(entry@, new_frame@), new_flags@);
            }
            entry.set_addr(new_frame.start());
            entry.set_flags(new_flags);
            Ok(new_frame)
        }
    }
}

proof fn lemma_flag_bits_general(e: u64, set: u64, mask: u64)
    by (bit_vector)
    requires
        set & !0xc000_0000_0000_01ffu64 == 0,
        mask & !0xc000_0000_0000_01ffu64 == 0,
    ensures
        ((e & 0xc000_0000_0000_01ffu64) & 0x1 == 0x1) == (e & 0x1 == 0x1),
        (((e & 0xc000_0000_0000_01ffu64) & mask) | set | 1) & !0xc000_0000_0000_01ffu64 == 0,
        ((set | 1) & !0xc000_0000_0000_01ffu64) == 0,
        ((((e & 0xc000_0000_0000_01ffu64) & mask) | set | 1) & 0x1) == 0x1,
        ((set | 1) & 0x1) == 0x1,
        (e & 0x80 != 0x80 && set & 0x80 == 0) ==> (((e & 0xc000_0000_0000_01ffu64) & mask) | set
            | 1) & 0x80 != 0x80,
        set & 0x80 == 0 ==> (set | 1) & 0x80 != 0x80,
{
}

} // verus!
