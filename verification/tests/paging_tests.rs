use testos::memory::addr::{PhysAddress, PhysExtent, VirtAddress};
use testos::memory::page::{Frame, Page};
use testos::memory::paging::mapper::{Mapper, Size1G, Size2M};
use testos::memory::paging::{
    ArenaStore, MapError, PageTable, PageTableEntry, PageTableFlags, PAGE_TABLE_ENTRY_ADDR_BITS,
};

fn flags(bits: u64) -> PageTableFlags {
    PageTableFlags::from_bits_truncate(bits)
}

fn present() -> PageTableFlags {
    flags(PageTableFlags::PRESENT)
}

fn virt(l4: usize, l3: usize, l2: usize, l1: usize) -> VirtAddress {
    let raw = ((l4 as u64) << 39) | ((l3 as u64) << 30) | ((l2 as u64) << 21) | ((l1 as u64) << 12);
    VirtAddress::from_raw(raw)
}

fn page(l4: usize, l3: usize, l2: usize, l1: usize) -> Page {
    Page::new(virt(l4, l3, l2, l1))
}

fn new_mapper() -> Mapper<ArenaStore> {
    let store = ArenaStore::new(Frame::new(PhysAddress::from_raw(1 << 30)));
    Mapper::new_with_store(PageTable::zero(), store)
}

#[test]
fn flag_bits_and_addr_bits_are_disjoint() {
    assert_eq!(PAGE_TABLE_ENTRY_ADDR_BITS & PageTableFlags::all().bits(), 0);
}

#[test]
fn set_flags_replaces_rather_than_accumulates() {
    let mut e = PageTableEntry::zero();
    e.set_flags(flags(PageTableFlags::PRESENT | PageTableFlags::WRITABLE));
    assert_eq!(e.get_flags().bits(), PageTableFlags::PRESENT | PageTableFlags::WRITABLE);

    e.set_flags(present());
    assert_eq!(e.get_flags().bits(), PageTableFlags::PRESENT);
}

#[test]
fn set_addr_replaces_rather_than_accumulates() {
    let a = PhysAddress::from_raw(0x1_4000_5000);
    let b = PhysAddress::from_raw(0x2_8000_a000);
    let mut e = PageTableEntry::zero();

    e.set_addr(a);
    assert_eq!(e.get_addr(), a);

    e.set_addr(b);
    assert_eq!(e.get_addr(), b);
}

#[test]
fn set_addr_preserves_flags() {
    let mut e = PageTableEntry::zero();
    e.set_flags(flags(PageTableFlags::PRESENT | PageTableFlags::WRITABLE));
    e.set_addr(PhysAddress::from_raw(0x1_4000_5000));
    assert_eq!(e.get_flags().bits(), PageTableFlags::PRESENT | PageTableFlags::WRITABLE);
}

#[test]
fn set_flags_preserves_addr() {
    let addr = PhysAddress::from_raw(0x1234_5000);
    let mut e = PageTableEntry::zero();
    e.set_addr(addr);
    e.set_flags(flags(PageTableFlags::PRESENT | PageTableFlags::WRITABLE));
    assert_eq!(e.get_addr(), addr);

    e.set_flags(present());
    assert_eq!(e.get_addr(), addr);
    assert_eq!(e.get_flags().bits(), PageTableFlags::PRESENT);
}

#[test]
fn set_addr_round_trips_above_2_pow_48() {
    let addr = PhysAddress::from_raw(1 << 48);
    let mut e = PageTableEntry::zero();
    e.set_addr(addr);
    assert_eq!(e.get_addr(), addr);
}

#[test]
fn paging_single_map_round_trips() {
    let mut mapper = new_mapper();

    let p = page(1, 2, 3, 4);
    let f = Frame::new(PhysAddress::from_raw(0x8000_0000));
    let leaf_flags = flags(
        PageTableFlags::PRESENT | PageTableFlags::WRITABLE | PageTableFlags::EXECUTE_DISABLE,
    );
    let parent_flags = flags(PageTableFlags::PRESENT | PageTableFlags::WRITABLE);

    mapper.map(p, f, leaf_flags, parent_flags, PageTableFlags::all()).unwrap();
    let (root, store) = mapper.into_parts();

    assert_eq!(store.allocated(), 3);

    let leaf = store.walk(&root, p).expect("page should be mapped");
    assert_eq!(leaf.get_addr(), f.start());
    assert_eq!(leaf.get_flags().bits(), leaf_flags.bits());

    let l4e = root.entries()[p.l4_index()];
    assert!(l4e.get_flags().contains(present()));
    assert!(l4e.get_flags().contains(flags(PageTableFlags::WRITABLE)));
}

#[test]
fn paging_unmapped_page_translates_to_none() {
    let mut mapper = new_mapper();

    let mapped = page(1, 2, 3, 4);
    let f = Frame::new(PhysAddress::from_raw(0x8000_0000));
    mapper.map(mapped, f, present(), present(), PageTableFlags::all()).unwrap();
    let (root, store) = mapper.into_parts();

    assert!(store.walk(&root, page(9, 2, 3, 4)).is_none());
    assert!(store.walk(&root, page(1, 2, 3, 5)).is_none());
}

#[test]
fn paging_shared_parent_tables_are_reused() {
    let mut mapper = new_mapper();

    let a = page(1, 2, 3, 4);
    let b = page(1, 2, 3, 5);
    let fa = Frame::new(PhysAddress::from_raw(0x8000_0000));
    let fb = Frame::new(PhysAddress::from_raw(0x8000_1000));
    let fl = flags(PageTableFlags::PRESENT | PageTableFlags::WRITABLE);

    mapper.map(a, fa, fl, fl, PageTableFlags::all()).unwrap();
    mapper.map(b, fb, fl, fl, PageTableFlags::all()).unwrap();
    let (root, store) = mapper.into_parts();

    assert_eq!(store.allocated(), 3, "parent tables should be reused");
    assert_eq!(store.walk(&root, a).unwrap().get_addr(), fa.start());
    assert_eq!(store.walk(&root, b).unwrap().get_addr(), fb.start());
}

#[test]
fn distinct_l4_slots_allocate_separate_subtrees() {
    let mut mapper = new_mapper();

    let a = page(1, 0, 0, 0);
    let b = page(2, 0, 0, 0);
    let fa = Frame::new(PhysAddress::from_raw(0x8000_0000));
    let fb = Frame::new(PhysAddress::from_raw(0x8000_1000));
    let fl = flags(PageTableFlags::PRESENT | PageTableFlags::WRITABLE);

    mapper.map(a, fa, fl, fl, PageTableFlags::all()).unwrap();
    mapper.map(b, fb, fl, fl, PageTableFlags::all()).unwrap();
    let (root, store) = mapper.into_parts();

    assert_eq!(store.allocated(), 6);
    assert_eq!(store.walk(&root, a).unwrap().get_addr(), fa.start());
    assert_eq!(store.walk(&root, b).unwrap().get_addr(), fb.start());
}

#[test]
fn paging_parent_flags_are_masked_then_set_on_reuse() {
    let mut mapper = new_mapper();

    let a = page(1, 2, 3, 4);
    let b = page(1, 2, 3, 5);
    let f = Frame::new(PhysAddress::from_raw(0x8000_0000));
    let leaf = present();

    let set_first = flags(PageTableFlags::PRESENT | PageTableFlags::WRITABLE);
    let mask_clear_writable = PageTableFlags::all().difference(flags(PageTableFlags::WRITABLE));

    mapper.map(a, f, leaf, set_first, PageTableFlags::all()).unwrap();
    mapper.map(b, f, leaf, present(), mask_clear_writable).unwrap();
    let (root, _store) = mapper.into_parts();

    let l4e = root.entries()[a.l4_index()];
    assert!(l4e.get_flags().contains(present()));
    assert!(
        !l4e.get_flags().contains(flags(PageTableFlags::WRITABLE)),
        "WRITABLE should have been masked out on reuse"
    );
}

#[test]
fn high_physical_frame_round_trips_through_full_map() {
    let mut mapper = new_mapper();

    let p = page(5, 6, 7, 8);
    let f = Frame::new(PhysAddress::from_raw(1 << 48));
    let fl = flags(PageTableFlags::PRESENT | PageTableFlags::WRITABLE);

    mapper.map(p, f, fl, fl, PageTableFlags::all()).unwrap();
    let (root, store) = mapper.into_parts();

    assert_eq!(store.walk(&root, p).unwrap().get_addr(), f.start());
}

#[test]
fn paging_remap_replaces_leaf() {
    let mut mapper = new_mapper();

    let p = page(1, 2, 3, 4);
    let fa = Frame::new(PhysAddress::from_raw(0x8000_0000));
    let fb = Frame::new(PhysAddress::from_raw(0x9000_0000));
    let flags_a = flags(PageTableFlags::PRESENT | PageTableFlags::WRITABLE);
    let flags_b = flags(PageTableFlags::PRESENT | PageTableFlags::EXECUTE_DISABLE);

    mapper.map(p, fa, flags_a, flags_a, PageTableFlags::all()).unwrap();
    mapper.map(p, fb, flags_b, flags_b, PageTableFlags::all()).unwrap();
    let (root, store) = mapper.into_parts();

    assert_eq!(store.allocated(), 3);
    let leaf = store.walk(&root, p).unwrap();
    assert_eq!(leaf.get_addr(), fb.start());
    assert_eq!(leaf.get_flags().bits(), flags_b.bits());
}

#[test]
fn paging_map_2m_sets_ps_bit_and_allocates_two_parent_tables() {
    let mut mapper = new_mapper();

    let p = page(1, 2, 3, 0);
    let f = Frame::new(PhysAddress::from_raw(0x40_0000));
    let fl = flags(PageTableFlags::PRESENT | PageTableFlags::WRITABLE);

    mapper.map_large::<Size2M>(p, f, fl, fl, PageTableFlags::all()).unwrap();
    let (root, store) = mapper.into_parts();

    assert_eq!(store.allocated(), 2);

    let leaf = store.walk(&root, p).expect("page should be mapped");
    assert_eq!(leaf.get_addr(), f.start());
    assert!(leaf.get_flags().contains(flags(PageTableFlags::PAGE_SIZE)));
}

#[test]
fn paging_map_1g_sets_ps_bit_and_allocates_one_parent_table() {
    let mut mapper = new_mapper();

    let p = page(1, 2, 0, 0);
    let f = Frame::new(PhysAddress::from_raw(0x4000_0000));
    let fl = flags(PageTableFlags::PRESENT | PageTableFlags::WRITABLE);

    mapper.map_large::<Size1G>(p, f, fl, fl, PageTableFlags::all()).unwrap();
    let (root, store) = mapper.into_parts();

    assert_eq!(store.allocated(), 1);

    let leaf = store.walk(&root, p).expect("page should be mapped");
    assert_eq!(leaf.get_addr(), f.start());
    assert!(leaf.get_flags().contains(flags(PageTableFlags::PAGE_SIZE)));
}

#[test]
fn paging_map_range_uses_largest_legal_pages() {
    let mut mapper = new_mapper();

    let phys = PhysExtent::from_raw(0, 0x8030_0000);
    let virt_base = VirtAddress::from_raw(0);
    let fl = flags(PageTableFlags::PRESENT | PageTableFlags::WRITABLE);

    mapper.map_range(phys, virt_base, fl, fl, PageTableFlags::all()).unwrap();
    let (root, store) = mapper.into_parts();

    assert_eq!(store.allocated(), 3);

    let huge = flags(PageTableFlags::PAGE_SIZE);
    let one_gib = store
        .walk(&root, Page::new(VirtAddress::from_raw(0)))
        .expect("first 1 GiB chunk should be mapped");
    assert!(one_gib.get_flags().contains(huge));
    assert_eq!(one_gib.get_addr(), PhysAddress::from_raw(0));

    let second_gib = store
        .walk(&root, Page::new(VirtAddress::from_raw(0x4000_0000)))
        .expect("second 1 GiB chunk should be mapped");
    assert!(second_gib.get_flags().contains(huge));
    assert_eq!(second_gib.get_addr(), PhysAddress::from_raw(0x4000_0000));

    let two_mib_chunk = store
        .walk(&root, Page::new(VirtAddress::from_raw(0x8000_0000)))
        .expect("2 MiB chunk should be mapped");
    assert!(two_mib_chunk.get_flags().contains(huge));
    assert_eq!(two_mib_chunk.get_addr(), PhysAddress::from_raw(0x8000_0000));

    let tail_frame = store
        .walk(&root, Page::new(VirtAddress::from_raw(0x8020_0000)))
        .expect("4 KiB tail should be mapped");
    assert!(!tail_frame.get_flags().contains(huge));
    assert_eq!(tail_frame.get_addr(), PhysAddress::from_raw(0x8020_0000));

    assert!(store.walk(&root, Page::new(VirtAddress::from_raw(0x8030_0000))).is_none());
}

#[test]
fn translate_adds_the_offset_within_a_huge_page() {
    let mut mapper = new_mapper();
    let p = page(0, 1, 0, 0);
    let f = Frame::new(PhysAddress::from_raw(0x4000_0000));
    let fl = flags(PageTableFlags::PRESENT | PageTableFlags::WRITABLE);
    mapper.map_large::<Size2M>(p, f, fl, fl, PageTableFlags::all()).unwrap();
    let (root, store) = mapper.into_parts();
    let inside = VirtAddress::from_raw(p.start().as_raw() + 0x1_2345);
    assert_eq!(store.translate(&root, inside), Some(PhysAddress::from_raw(0x4001_2345)));
    assert_eq!(store.translate(&root, VirtAddress::from_raw(p.start().as_raw() + 0x20_0000)), None);
}

#[test]
fn empty_tables_map_nothing() {
    let mapper = new_mapper();
    let (root, store) = mapper.into_parts();
    assert!(store.walk(&root, page(0, 0, 0, 0)).is_none());
    assert_eq!(store.translate(&root, VirtAddress::from_raw(0x1234_5678)), None);
}

#[test]
fn map_fails_only_when_the_store_runs_out_of_room() {
    // Room for exactly two tables below 2^52: a fresh path needs three.
    let top = (1u64 << 52) - 2 * 4096;
    let store = ArenaStore::new(Frame::new(PhysAddress::from_raw(top)));
    let mut mapper = Mapper::new_with_store(PageTable::zero(), store);
    let frame = Frame::new(PhysAddress::from_raw(0x5000));
    assert_eq!(
        mapper.map(page(1, 2, 3, 4), frame, present(), present(), PageTableFlags::all()),
        Err(MapError::FrameAllocationFailed)
    );

    // With room to spare, mapping succeeds and tables come one after another
    // from the store's first frame.
    let store = ArenaStore::new(Frame::new(PhysAddress::from_raw(1 << 30)));
    let mut mapper = Mapper::new_with_store(PageTable::zero(), store);
    assert_eq!(
        mapper.map(page(1, 2, 3, 4), frame, present(), present(), PageTableFlags::all()),
        Ok(())
    );
    let (_, store) = mapper.into_parts();
    assert_eq!(store.allocated(), 3);
    let (first, tables) = store.into_tables();
    assert_eq!(first, 1 << 30);
    assert_eq!(tables.len(), 3);
}

#[test]
fn map_allocates_one_table_per_absent_level_on_the_path() {
    let mut mapper = new_mapper();
    let frame = Frame::new(PhysAddress::from_raw(0x5000));
    let fl = present();
    let all = PageTableFlags::all();
    // An empty tree: all three levels below the root are new.
    mapper.map(page(1, 2, 3, 4), frame, fl, fl, all).unwrap();
    assert_eq!(mapper.store().allocated(), 3);
    // The same L1 table: nothing new.
    mapper.map(page(1, 2, 3, 5), frame, fl, fl, all).unwrap();
    assert_eq!(mapper.store().allocated(), 3);
    // A new L1 table under the existing L2 table.
    mapper.map(page(1, 2, 4, 0), frame, fl, fl, all).unwrap();
    assert_eq!(mapper.store().allocated(), 4);
    // A new L2 and L1 table under the existing L3 table.
    mapper.map(page(1, 3, 0, 0), frame, fl, fl, all).unwrap();
    assert_eq!(mapper.store().allocated(), 6);
    // A 2 MiB page under a fresh root slot: an L3 and an L2 table.
    let big = Frame::new(PhysAddress::from_raw(0x20_0000));
    mapper.map_large::<Size2M>(page(2, 0, 1, 0), big, fl, fl, all).unwrap();
    assert_eq!(mapper.store().allocated(), 8);
    // A 1 GiB page under a fresh root slot: only an L3 table.
    let huge = Frame::new(PhysAddress::from_raw(0x4000_0000));
    mapper.map_large::<Size1G>(page(3, 1, 0, 0), huge, fl, fl, all).unwrap();
    assert_eq!(mapper.store().allocated(), 9);
}

#[test]
fn map_range_succeeds_with_room_for_its_table_budget() {
    let fl = flags(PageTableFlags::PRESENT | PageTableFlags::WRITABLE);
    // One 4 KiB page: a budget of three tables, and room for exactly three.
    let store = ArenaStore::new(Frame::new(PhysAddress::from_raw((1u64 << 52) - 3 * 4096)));
    let mut mapper = Mapper::new_with_store(PageTable::zero(), store);
    let one_page = PhysExtent::from_raw(0x5000, 0x1000);
    assert_eq!(
        mapper.map_range(one_page, VirtAddress::from_raw(0x5000), fl, fl, PageTableFlags::all()),
        Ok(())
    );
    assert_eq!(mapper.store().allocated(), 3);
    // One 2 MiB page: a budget of two tables, and room for exactly two.
    let store = ArenaStore::new(Frame::new(PhysAddress::from_raw((1u64 << 52) - 2 * 4096)));
    let mut mapper = Mapper::new_with_store(PageTable::zero(), store);
    let big_page = PhysExtent::from_raw(0x20_0000, 0x20_0000);
    assert_eq!(
        mapper.map_range(big_page, VirtAddress::from_raw(0x20_0000), fl, fl, PageTableFlags::all()),
        Ok(())
    );
    assert_eq!(mapper.store().allocated(), 2);
    // The same 4 KiB page with room for only two tables fails.
    let store = ArenaStore::new(Frame::new(PhysAddress::from_raw((1u64 << 52) - 2 * 4096)));
    let mut mapper = Mapper::new_with_store(PageTable::zero(), store);
    assert_eq!(
        mapper.map_range(one_page, VirtAddress::from_raw(0x5000), fl, fl, PageTableFlags::all()),
        Err(MapError::FrameAllocationFailed)
    );
}

#[test]
fn map_range_writes_the_callers_leaf_flags_and_only_the_missing_tables() {
    let mut mapper = new_mapper();
    let f = flags(PageTableFlags::PRESENT | PageTableFlags::WRITABLE);
    let phys = PhysExtent::from_raw(0x20_0000, 0x30_0000);
    mapper
        .map_range(phys, VirtAddress::from_raw(0x20_0000), f, f, PageTableFlags::all())
        .unwrap();
    let (root, store) = mapper.into_parts();
    assert_eq!(store.allocated(), 3);
    let big = store.walk(&root, Page::new(VirtAddress::from_raw(0x20_0000))).unwrap();
    assert_eq!(big.get_addr(), PhysAddress::from_raw(0x20_0000));
    assert_eq!(big.get_flags().bits(), f.bits() | PageTableFlags::PAGE_SIZE);
    for k in 0..256u64 {
        let v = 0x40_0000 + k * 0x1000;
        let leaf = store.walk(&root, Page::new(VirtAddress::from_raw(v))).unwrap();
        assert_eq!(leaf.get_addr(), PhysAddress::from_raw(v));
        assert_eq!(leaf.get_flags().bits(), f.bits());
    }
    assert!(store.walk(&root, Page::new(VirtAddress::from_raw(0x50_0000))).is_none());
}

#[test]
fn map_range_takes_only_the_tables_its_paths_lack() {
    let mut mapper = new_mapper();
    let f = flags(PageTableFlags::PRESENT | PageTableFlags::WRITABLE);
    // A page beside the window: its L3 and L2 tables are shared with the
    // window, its L1 table is not.
    let beside = Page::new(VirtAddress::from_raw(0x60_0000));
    mapper.map(beside, Frame::new(PhysAddress::from_raw(0x9000)), f, f, PageTableFlags::all()).unwrap();
    assert_eq!(mapper.store().allocated(), 3);
    let phys = PhysExtent::from_raw(0x20_0000, 0x30_0000);
    mapper
        .map_range(phys, VirtAddress::from_raw(0x20_0000), f, f, PageTableFlags::all())
        .unwrap();
    // Only the L1 table for the 4 KiB tail is new.
    assert_eq!(mapper.store().allocated(), 4);
    let (root, store) = mapper.into_parts();
    let (first, tables) = store.into_tables();
    let page = Page::new(VirtAddress::from_raw(0x40_0000));
    let l4 = root.entries()[page.l4_index()];
    assert_eq!(l4.get_flags().bits(), f.bits());
    let l3 = tables[((l4.get_addr().as_raw() - first) / 4096) as usize].entries()[page.l3_index()];
    assert_eq!(l3.get_flags().bits(), f.bits());
    let l2 = tables[((l3.get_addr().as_raw() - first) / 4096) as usize].entries()[page.l2_index()];
    assert_eq!(l2.get_flags().bits(), f.bits());
}
