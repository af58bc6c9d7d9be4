use testos::physmem::{
    align_u64_down, align_u64_up, reserve, Address, BumpAllocator, Extent, Length, MapEntry,
    MemoryMap, MemoryType,
};

#[test]
fn physmem_align_raw() {
    assert_eq!(align_u64_down(0, 2), 0);
    assert_eq!(align_u64_down(1, 2), 0);
    assert_eq!(align_u64_down(2, 2), 2);

    assert_eq!(align_u64_up(0, 2), 0);
    assert_eq!(align_u64_up(1, 2), 2);
    assert_eq!(align_u64_up(2, 2), 2);

    assert_eq!(align_u64_down(255, 1024), 0);
    assert_eq!(align_u64_up(255, 1024), 1024);
}

#[test]
fn physmem_align_address() {
    assert_eq!(Address::from_raw(0).align_down(1024), Address::from_raw(0));
    assert_eq!(Address::from_raw(0).align_up(1024), Address::from_raw(0));

    assert_eq!(Address::from_raw(1024).align_down(1024), Address::from_raw(1024));
    assert_eq!(Address::from_raw(1024).align_up(1024), Address::from_raw(1024));

    assert_eq!(Address::from_raw(1).align_down(1024), Address::from_raw(0));
    assert_eq!(Address::from_raw(1).align_up(1024), Address::from_raw(1024));

    assert_eq!(Address::from_raw(1023).align_down(1024), Address::from_raw(0));
    assert_eq!(Address::from_raw(1023).align_up(1024), Address::from_raw(1024));
}

#[test]
fn physmem_overlap_extent() {
    assert_eq!(
        Extent::from_raw(0, 8).overlap(&Extent::from_raw(0, 8)),
        Some(Extent::from_raw(0, 8))
    );

    assert_eq!(Extent::from_raw(0, 8).overlap(&Extent::from_raw(8, 8)), None);
    assert_eq!(Extent::from_raw(0, 8).overlap(&Extent::from_raw(1024, 8)), None);

    assert_eq!(
        Extent::from_raw(5, 5).overlap(&Extent::from_raw(8, 7)),
        Some(Extent::from_raw(8, 2))
    );
    assert_eq!(
        Extent::from_raw(8, 7).overlap(&Extent::from_raw(5, 5)),
        Some(Extent::from_raw(8, 2))
    );

    assert_eq!(
        Extent::from_raw(0, 10).overlap(&Extent::from_raw(2, 3)),
        Some(Extent::from_raw(2, 3))
    );
    assert_eq!(
        Extent::from_raw(2, 3).overlap(&Extent::from_raw(0, 10)),
        Some(Extent::from_raw(2, 3))
    );
}

#[test]
fn physmem_shrink_extent() {
    let extent = Extent::from_raw(1, 8191).shrink_to_alignment(4096).unwrap();
    assert_eq!(extent, Extent::from_raw(4096, 4096));

    let extent = Extent::from_raw(0, 4097).shrink_to_alignment(4096).unwrap();
    assert_eq!(extent, Extent::from_raw(0, 4096));

    let extent = Extent::from_raw(4095, 4097).shrink_to_alignment(4096).unwrap();
    assert_eq!(extent, Extent::from_raw(4096, 4096));
}

#[test]
fn physmem_shrink_extent_already_aligned() {
    let extent = Extent::from_raw(0, 4096);
    assert_eq!(extent, extent.shrink_to_alignment(4096).unwrap());

    let extent = Extent::from_raw(4096, 8192);
    assert_eq!(extent, extent.shrink_to_alignment(4096).unwrap());
}

#[test]
fn physmem_shrink_extent_empty() {
    let extent = Extent::from_raw(1, 4096).shrink_to_alignment(4096);
    assert_eq!(extent, None);

    let extent = Extent::from_raw(0, 4095).shrink_to_alignment(4096);
    assert_eq!(extent, None);

    let extent = Extent::from_raw(1, 8190).shrink_to_alignment(4096);
    assert_eq!(extent, None);
}

#[test]
fn physmem_left_difference() {
    assert_eq!(Extent::from_raw(10, 10).left_difference(&Extent::from_raw(0, 10)), None);
    assert_eq!(Extent::from_raw(10, 10).left_difference(&Extent::from_raw(10, 10)), None);
    assert_eq!(
        Extent::from_raw(10, 10).left_difference(&Extent::from_raw(20, 10)),
        Some(Extent::from_raw(10, 10))
    );

    assert_eq!(Extent::from_raw(10, 10).left_difference(&Extent::from_raw(5, 10)), None);
    assert_eq!(
        Extent::from_raw(10, 10).left_difference(&Extent::from_raw(15, 10)),
        Some(Extent::from_raw(10, 5))
    );

    assert_eq!(
        Extent::from_raw(10, 10).left_difference(&Extent::from_raw(12, 6)),
        Some(Extent::from_raw(10, 2))
    );

    assert_eq!(Extent::from_raw(10, 10).left_difference(&Extent::from_raw(8, 14)), None);
}

#[test]
fn physmem_right_difference() {
    assert_eq!(
        Extent::from_raw(10, 10).right_difference(&Extent::from_raw(0, 10)),
        Some(Extent::from_raw(10, 10))
    );
    assert_eq!(Extent::from_raw(10, 10).right_difference(&Extent::from_raw(10, 10)), None);
    assert_eq!(Extent::from_raw(10, 10).right_difference(&Extent::from_raw(20, 10)), None);

    assert_eq!(
        Extent::from_raw(10, 10).right_difference(&Extent::from_raw(5, 10)),
        Some(Extent::from_raw(15, 5))
    );
    assert_eq!(Extent::from_raw(10, 10).right_difference(&Extent::from_raw(15, 10)), None);

    assert_eq!(
        Extent::from_raw(10, 10).right_difference(&Extent::from_raw(12, 6)),
        Some(Extent::from_raw(18, 2))
    );

    assert_eq!(Extent::from_raw(10, 10).right_difference(&Extent::from_raw(8, 14)), None);
}

fn check_reserve_no_holes() {
    let result = reserve(&[Extent::from_raw(1, 4), Extent::from_raw(10, 4)], &[]);
    assert_eq!(result, [Extent::from_raw(1, 4), Extent::from_raw(10, 4)]);

    let result = reserve(&[], &[]);
    assert_eq!(result, []);
}

fn check_reserve_no_blocks() {
    let result = reserve(&[], &[Extent::from_raw(5, 5), Extent::from_raw(15, 5)]);
    assert_eq!(result, []);
}

fn check_reserve_big() {
    let result = reserve(
        &[
            Extent::from_raw(0, 5),
            Extent::from_raw(7, 2),
            Extent::from_raw(10, 10),
            Extent::from_raw(25, 5),
            Extent::from_raw(35, 10),
        ],
        &[
            Extent::from_raw(0, 3),
            Extent::from_raw(6, 4),
            Extent::from_raw(12, 4),
            Extent::from_raw(27, 3),
            Extent::from_raw(32, 4),
            Extent::from_raw(44, 2),
        ],
    );

    assert_eq!(
        result,
        [
            Extent::from_raw(3, 2),
            Extent::from_raw(10, 2),
            Extent::from_raw(16, 4),
            Extent::from_raw(25, 2),
            Extent::from_raw(36, 8)
        ]
    );
}

fn check_reserve_multiple_holes_in_one_block() {
    let result = reserve(
        &[Extent::from_raw(10, 20)],
        &[
            Extent::from_raw(8, 4),
            Extent::from_raw(15, 5),
            Extent::from_raw(22, 2),
            Extent::from_raw(28, 10),
        ],
    );

    assert_eq!(
        result,
        [Extent::from_raw(12, 3), Extent::from_raw(20, 2), Extent::from_raw(24, 4)]
    );
}

fn check_reserve_multiple_blocks_in_one_hole() {
    let result = reserve(
        &[
            Extent::from_raw(4, 2),
            Extent::from_raw(10, 5),
            Extent::from_raw(20, 10),
            Extent::from_raw(38, 4),
        ],
        &[Extent::from_raw(5, 35)],
    );

    assert_eq!(result, [Extent::from_raw(4, 1), Extent::from_raw(40, 2)]);
}

fn check_bump_allocator() {
    let page_size = 4096;

    let map = MemoryMap::from_entries(&[MapEntry {
        extent: Extent::from_raw(0, 131072),
        mem_type: MemoryType::Available,
    }]);

    let holes = [Extent::from_raw(4095, 4098)];

    let mut allocator = BumpAllocator::new(page_size, &map, &holes);

    assert_eq!(allocator.allocate_pages(2), Address::from_raw(page_size * 3));
    assert_eq!(allocator.allocate(Length::from_raw(20)), Address::from_raw(page_size * 5));
    assert_eq!(allocator.allocate_pages(1), Address::from_raw(page_size * 6));
}

#[test]
fn physmem_reserve_no_holes() {
    check_reserve_no_holes();
}

#[test]
fn physmem_reserve_no_blocks() {
    check_reserve_no_blocks();
}

#[test]
fn physmem_reserve_big() {
    check_reserve_big();
}

#[test]
fn physmem_reserve_multiple_holes_in_one_block() {
    check_reserve_multiple_holes_in_one_block();
}

#[test]
fn physmem_reserve_multiple_blocks_in_one_hole() {
    check_reserve_multiple_blocks_in_one_hole();
}

#[test]
fn physmem_bump_allocator() {
    check_bump_allocator();
}

#[test]
fn mod_reserve_no_holes() {
    check_reserve_no_holes();
}

#[test]
fn mod_reserve_no_blocks() {
    check_reserve_no_blocks();
}

#[test]
fn mod_reserve_big() {
    check_reserve_big();
}

#[test]
fn mod_reserve_multiple_holes_in_one_block() {
    check_reserve_multiple_holes_in_one_block();
}

#[test]
fn mod_reserve_multiple_blocks_in_one_hole() {
    check_reserve_multiple_blocks_in_one_hole();
}

#[test]
fn mod_bump_allocator() {
    check_bump_allocator();
}

#[test]
fn reserve_keeps_exactly_the_addresses_outside_every_hole() {
    let blocks = [Extent::from_raw(0, 100), Extent::from_raw(200, 50)];
    let holes = [Extent::from_raw(10, 20), Extent::from_raw(90, 120)];
    let result = reserve(&blocks, &holes);
    for x in 0u64..300 {
        let in_block = blocks.iter().any(|b| b.address().as_raw() <= x && x < b.end_address().as_raw());
        let in_hole = holes.iter().any(|h| h.address().as_raw() <= x && x < h.end_address().as_raw());
        let kept = result.iter().any(|e| e.address().as_raw() <= x && x < e.end_address().as_raw());
        assert_eq!(kept, in_block && !in_hole, "address {x}");
    }
}

#[test]
fn bump_allocator_hands_out_whole_pages_in_order() {
    let map = MemoryMap::from_entries(&[
        MapEntry { extent: Extent::from_raw(0, 3 * 4096), mem_type: MemoryType::Available },
        MapEntry { extent: Extent::from_raw(3 * 4096, 4096), mem_type: MemoryType::Reserved },
        MapEntry { extent: Extent::from_raw(8 * 4096, 8 * 4096), mem_type: MemoryType::Available },
    ]);
    let mut allocator = BumpAllocator::new(4096, &map, &[]);
    assert_eq!(allocator.allocate_pages(1), Address::from_raw(0));
    // Two pages no longer fit in the first block: it is dropped.
    assert_eq!(allocator.allocate_pages(3), Address::from_raw(8 * 4096));
    assert_eq!(allocator.allocate(Length::from_raw(1)), Address::from_raw(11 * 4096));
}

#[test]
fn iter_type_keeps_map_order() {
    let map = MemoryMap::from_entries(&[
        MapEntry { extent: Extent::from_raw(0, 10), mem_type: MemoryType::Available },
        MapEntry { extent: Extent::from_raw(10, 10), mem_type: MemoryType::Acpi },
        MapEntry { extent: Extent::from_raw(20, 10), mem_type: MemoryType::Available },
    ]);
    assert_eq!(
        map.iter_type(MemoryType::Available),
        vec![Extent::from_raw(0, 10), Extent::from_raw(20, 10)]
    );
    assert_eq!(map.iter_type(MemoryType::Acpi), vec![Extent::from_raw(10, 10)]);
    assert_eq!(map.entries().len(), 3);
}
