use testos::memory::addr::{align_u64_down, align_u64_up, Length, PhysAddress, PhysExtent};
use testos::memory::allocators::phys::{
    ceil_divide, fill_bitmap_from_map, find_bit_group, mark_frames_free,
    set_bit_range, set_least_significant_bits, BitmapFrameAllocator, FrameAllocator,
};
use testos::memory::allocators::heap::{
    block_size_of, blocks_per_chunk, first_fit, key_for_size_align,
};
use testos::memory::page::{Frame, FrameRange, PAGE_SIZE};
use testos::memory::{
    is_sorted_and_nonoverlapping, iter_map_frames, mark_kernel_areas, remove_reserved, MapEntry,
    MemoryMap, MemoryType,
};

#[test]
fn ram_backed_excludes_only_reserved_and_defective() {
    assert!(MemoryType::Available.is_ram_backed());
    assert!(MemoryType::Acpi.is_ram_backed());
    assert!(MemoryType::ReservedPreserveOnHibernation.is_ram_backed());
    assert!(MemoryType::KernelLoad.is_ram_backed());

    assert!(!MemoryType::Reserved.is_ram_backed());
    assert!(!MemoryType::Defective.is_ram_backed());
}

fn entry(begin: u64, end: u64, mem_type: MemoryType) -> MapEntry {
    MapEntry { extent: PhysExtent::from_raw_range_exclusive(begin, end), mem_type }
}

#[test]
fn test_mark_kernel_areas() {
    let regions = [
        entry(0, 100, MemoryType::Available),
        entry(100, 200, MemoryType::Reserved),
        entry(200, 300, MemoryType::Available),
        entry(325, 375, MemoryType::Defective),
        entry(400, 600, MemoryType::Available),
        entry(700, 800, MemoryType::Available),
        entry(800, 900, MemoryType::Available),
        entry(900, 1000, MemoryType::Available),
        entry(1100, 1200, MemoryType::Available),
    ];

    let areas = [
        PhysExtent::from_raw_range_exclusive(25, 75),
        PhysExtent::from_raw_range_exclusive(200, 300),
        PhysExtent::from_raw_range_exclusive(400, 500),
        PhysExtent::from_raw_range_exclusive(750, 775),
        PhysExtent::from_raw_range_exclusive(790, 825),
        PhysExtent::from_raw_range_exclusive(950, 1000),
    ];

    let correct = [
        entry(0, 25, MemoryType::Available),
        entry(25, 75, MemoryType::KernelLoad),
        entry(75, 100, MemoryType::Available),
        entry(100, 200, MemoryType::Reserved),
        entry(200, 300, MemoryType::KernelLoad),
        entry(325, 375, MemoryType::Defective),
        entry(400, 500, MemoryType::KernelLoad),
        entry(500, 600, MemoryType::Available),
        entry(700, 750, MemoryType::Available),
        entry(750, 775, MemoryType::KernelLoad),
        entry(775, 790, MemoryType::Available),
        entry(790, 800, MemoryType::KernelLoad),
        entry(800, 825, MemoryType::KernelLoad),
        entry(825, 900, MemoryType::Available),
        entry(900, 950, MemoryType::Available),
        entry(950, 1000, MemoryType::KernelLoad),
        entry(1100, 1200, MemoryType::Available),
    ];

    assert_eq!(mark_kernel_areas(&regions, &areas), correct.to_vec());
}

#[test]
fn mark_kernel_areas_types_every_address_as_the_law_says() {
    let regions = [
        entry(0, 50, MemoryType::Acpi),
        entry(50, 60, MemoryType::KernelLoad),
        entry(60, 100, MemoryType::Reserved),
        entry(100, 300, MemoryType::Available),
    ];
    let areas = [
        PhysExtent::from_raw_range_exclusive(10, 20),
        PhysExtent::from_raw_range_exclusive(55, 120),
        PhysExtent::from_raw_range_exclusive(250, 400),
    ];
    let out = mark_kernel_areas(&regions, &areas);
    let type_at = |entries: &[MapEntry], x: u64| {
        entries
            .iter()
            .find(|e| e.extent.address().as_raw() <= x && x < e.extent.end_address().as_raw())
            .map(|e| e.mem_type)
    };
    for x in 0u64..400 {
        let in_area = areas.iter().any(|a| a.address().as_raw() <= x && x < a.end_address().as_raw());
        let expected = match type_at(&regions, x) {
            Some(MemoryType::Available) | Some(MemoryType::Acpi) if in_area => Some(MemoryType::KernelLoad),
            t => t,
        };
        assert_eq!(type_at(&out, x), expected, "address {x}");
    }
}

#[test]
fn contained_by_extent_reports_none_at_the_top_of_the_address_space() {
    let e = PhysExtent::from_raw(u64::MAX - 0xFFE, 0xFFE);
    assert_eq!(FrameRange::contained_by_extent(e), None);
}

#[test]
fn addr_align_raw() {
    assert_eq!(align_u64_down(0, 2), 0);
    assert_eq!(align_u64_down(1, 2), 0);
    assert_eq!(align_u64_down(2, 2), 2);

    assert_eq!(align_u64_up(0, 2), 0);
    assert_eq!(align_u64_up(1, 2), 2);
    assert_eq!(align_u64_up(2, 2), 2);

    assert_eq!(align_u64_down(255, 1024), 0);
    assert_eq!(align_u64_up(255, 1024), 1024);
}

#[test]
fn addr_align_address() {
    assert_eq!(PhysAddress::from_raw(0).align_down(1024), PhysAddress::from_raw(0));
    assert_eq!(PhysAddress::from_raw(0).align_up(1024), PhysAddress::from_raw(0));

    assert_eq!(PhysAddress::from_raw(1024).align_down(1024), PhysAddress::from_raw(1024));
    assert_eq!(PhysAddress::from_raw(1024).align_up(1024), PhysAddress::from_raw(1024));

    assert_eq!(PhysAddress::from_raw(1).align_down(1024), PhysAddress::from_raw(0));
    assert_eq!(PhysAddress::from_raw(1).align_up(1024), PhysAddress::from_raw(1024));

    assert_eq!(PhysAddress::from_raw(1023).align_down(1024), PhysAddress::from_raw(0));
    assert_eq!(PhysAddress::from_raw(1023).align_up(1024), PhysAddress::from_raw(1024));
}

#[test]
fn addr_overlap_extent() {
    assert_eq!(
        PhysExtent::from_raw(0, 8).overlap(PhysExtent::from_raw(0, 8)),
        Some(PhysExtent::from_raw(0, 8))
    );

    assert_eq!(PhysExtent::from_raw(0, 8).overlap(PhysExtent::from_raw(8, 8)), None);
    assert_eq!(PhysExtent::from_raw(0, 8).overlap(PhysExtent::from_raw(1024, 8)), None);

    assert_eq!(
        PhysExtent::from_raw(5, 5).overlap(PhysExtent::from_raw(8, 7)),
        Some(PhysExtent::from_raw(8, 2))
    );
    assert_eq!(
        PhysExtent::from_raw(8, 7).overlap(PhysExtent::from_raw(5, 5)),
        Some(PhysExtent::from_raw(8, 2))
    );

    assert_eq!(
        PhysExtent::from_raw(0, 10).overlap(PhysExtent::from_raw(2, 3)),
        Some(PhysExtent::from_raw(2, 3))
    );
    assert_eq!(
        PhysExtent::from_raw(2, 3).overlap(PhysExtent::from_raw(0, 10)),
        Some(PhysExtent::from_raw(2, 3))
    );
}

#[test]
fn addr_shrink_extent() {
    let extent = PhysExtent::from_raw(1, 8191).shrink_to_alignment(4096).unwrap();
    assert_eq!(extent, PhysExtent::from_raw(4096, 4096));

    let extent = PhysExtent::from_raw(0, 4097).shrink_to_alignment(4096).unwrap();
    assert_eq!(extent, PhysExtent::from_raw(0, 4096));

    let extent = PhysExtent::from_raw(4095, 4097).shrink_to_alignment(4096).unwrap();
    assert_eq!(extent, PhysExtent::from_raw(4096, 4096));
}

#[test]
fn addr_shrink_extent_already_aligned() {
    let extent = PhysExtent::from_raw(0, 4096);
    assert_eq!(extent, extent.shrink_to_alignment(4096).unwrap());

    let extent = PhysExtent::from_raw(4096, 8192);
    assert_eq!(extent, extent.shrink_to_alignment(4096).unwrap());
}

#[test]
fn addr_shrink_extent_empty() {
    let extent = PhysExtent::from_raw(1, 4096).shrink_to_alignment(4096);
    assert_eq!(extent, None);

    let extent = PhysExtent::from_raw(0, 4095).shrink_to_alignment(4096);
    assert_eq!(extent, None);

    let extent = PhysExtent::from_raw(1, 8190).shrink_to_alignment(4096);
    assert_eq!(extent, None);
}

#[test]
fn addr_left_difference() {
    assert_eq!(PhysExtent::from_raw(10, 10).left_difference(PhysExtent::from_raw(0, 10)), None);
    assert_eq!(PhysExtent::from_raw(10, 10).left_difference(PhysExtent::from_raw(10, 10)), None);
    assert_eq!(
        PhysExtent::from_raw(10, 10).left_difference(PhysExtent::from_raw(20, 10)),
        Some(PhysExtent::from_raw(10, 10))
    );

    assert_eq!(PhysExtent::from_raw(10, 10).left_difference(PhysExtent::from_raw(5, 10)), None);
    assert_eq!(
        PhysExtent::from_raw(10, 10).left_difference(PhysExtent::from_raw(15, 10)),
        Some(PhysExtent::from_raw(10, 5))
    );

    assert_eq!(
        PhysExtent::from_raw(10, 10).left_difference(PhysExtent::from_raw(12, 6)),
        Some(PhysExtent::from_raw(10, 2))
    );

    assert_eq!(PhysExtent::from_raw(10, 10).left_difference(PhysExtent::from_raw(8, 14)), None);
}

#[test]
fn addr_right_difference() {
    assert_eq!(
        PhysExtent::from_raw(10, 10).right_difference(PhysExtent::from_raw(0, 10)),
        Some(PhysExtent::from_raw(10, 10))
    );
    assert_eq!(PhysExtent::from_raw(10, 10).right_difference(PhysExtent::from_raw(10, 10)), None);
    assert_eq!(PhysExtent::from_raw(10, 10).right_difference(PhysExtent::from_raw(20, 10)), None);

    assert_eq!(
        PhysExtent::from_raw(10, 10).right_difference(PhysExtent::from_raw(5, 10)),
        Some(PhysExtent::from_raw(15, 5))
    );
    assert_eq!(PhysExtent::from_raw(10, 10).right_difference(PhysExtent::from_raw(15, 10)), None);

    assert_eq!(
        PhysExtent::from_raw(10, 10).right_difference(PhysExtent::from_raw(12, 6)),
        Some(PhysExtent::from_raw(18, 2))
    );

    assert_eq!(PhysExtent::from_raw(10, 10).right_difference(PhysExtent::from_raw(8, 14)), None);
}

#[test]
fn contains() {
    assert!(!PhysExtent::from_raw(10, 10).contains(PhysExtent::from_raw(0, 10)));
    assert!(PhysExtent::from_raw(10, 10).contains(PhysExtent::from_raw(10, 10)));
    assert!(!PhysExtent::from_raw(10, 10).contains(PhysExtent::from_raw(20, 10)));

    assert!(!PhysExtent::from_raw(10, 10).contains(PhysExtent::from_raw(5, 10)));

    assert!(PhysExtent::from_raw(0, 10).contains(PhysExtent::from_raw(5, 4)));
}

#[test]
fn sorted_and_nonoverlapping_extents() {
    assert!(is_sorted_and_nonoverlapping::<testos::memory::addr::PhysAddressType>(&[]));
    assert!(is_sorted_and_nonoverlapping(&[PhysExtent::from_raw(0, 10)]));
    assert!(is_sorted_and_nonoverlapping(&[PhysExtent::from_raw(0, 10), PhysExtent::from_raw(10, 5)]));
    assert!(!is_sorted_and_nonoverlapping(&[PhysExtent::from_raw(0, 10), PhysExtent::from_raw(9, 5)]));
    assert!(!is_sorted_and_nonoverlapping(&[PhysExtent::from_raw(10, 5), PhysExtent::from_raw(0, 5)]));
}

#[test]
fn iter_map_frames_keeps_the_whole_frames_of_each_entry() {
    let entries = [
        entry(1, 3 * 4096 + 5, MemoryType::Available),
        entry(4 * 4096, 4 * 4096 + 100, MemoryType::Available),
        entry(8 * 4096, 10 * 4096, MemoryType::Reserved),
    ];
    let frames = iter_map_frames(&entries);
    assert_eq!(frames.len(), 2);
    assert_eq!(frames[0].first().start().as_raw(), 4096);
    assert_eq!(frames[0].count(), 2);
    assert_eq!(frames[1].first().start().as_raw(), 8 * 4096);
    assert_eq!(frames[1].count(), 2);
}

#[test]
fn memory_map_keeps_and_replaces_entries() {
    let mut map = MemoryMap::from_entries(&[
        entry(0, 10, MemoryType::Available),
        entry(10, 20, MemoryType::Acpi),
        entry(20, 30, MemoryType::Available),
    ]);
    assert_eq!(map.entries().len(), 3);
    assert_eq!(
        map.iter_type(MemoryType::Available),
        vec![entry(0, 10, MemoryType::Available), entry(20, 30, MemoryType::Available)]
    );
    map.set_entry(1, entry(10, 20, MemoryType::Defective));
    assert_eq!(map.entries()[1], entry(10, 20, MemoryType::Defective));
    assert_eq!(map.iter_type(MemoryType::Acpi), vec![]);
    let copy = map.clone();
    assert_eq!(copy.entries(), map.entries());
}

#[test]
fn bit_ranges() {
    assert_eq!(set_bit_range(0, 0), 0b00000000);
    assert_eq!(set_bit_range(8, 8), 0b00000000);

    assert_eq!(set_bit_range(0, 1), 0b00000001);
    assert_eq!(set_bit_range(0, 4), 0b00001111);
    assert_eq!(set_bit_range(7, 8), 0b10000000);
    assert_eq!(set_bit_range(4, 8), 0b11110000);
    assert_eq!(set_bit_range(0, 8), 0b11111111);

    assert_eq!(set_bit_range(1, 4), 0b00001110);
    assert_eq!(set_bit_range(2, 6), 0b00111100);
    assert_eq!(set_bit_range(3, 4), 0b00001000);
}

#[test]
fn least_significant_bits() {
    assert_eq!(set_least_significant_bits(0), 0b00000000);
    assert_eq!(set_least_significant_bits(1), 0b00000001);
    assert_eq!(set_least_significant_bits(2), 0b00000011);
    assert_eq!(set_least_significant_bits(3), 0b00000111);
    assert_eq!(set_least_significant_bits(4), 0b00001111);
    assert_eq!(set_least_significant_bits(5), 0b00011111);
    assert_eq!(set_least_significant_bits(6), 0b00111111);
    assert_eq!(set_least_significant_bits(7), 0b01111111);
    assert_eq!(set_least_significant_bits(8), 0b11111111);
}

#[test]
fn find_bit_groups() {
    assert_eq!(find_bit_group(0b00000001, 1), Some(0));
    assert_eq!(find_bit_group(0b00000011, 2), Some(0));
    assert_eq!(find_bit_group(0b00001111, 4), Some(0));

    assert_eq!(find_bit_group(0b10000000, 1), Some(7));
    assert_eq!(find_bit_group(0b11000000, 2), Some(6));
    assert_eq!(find_bit_group(0b11110000, 4), Some(4));

    assert_eq!(find_bit_group(0b00110000, 2), Some(4));
    assert_eq!(find_bit_group(0b00001100, 2), Some(2));

    assert_eq!(find_bit_group(0b11111111, 2), Some(0));
    assert_eq!(find_bit_group(0b11111100, 2), Some(2));
    assert_eq!(find_bit_group(0b11110000, 2), Some(4));

    assert_eq!(find_bit_group(0b01010101, 2), None);
    assert_eq!(find_bit_group(0b11101110, 4), None);
}

#[test]
fn ceil_divide_rounds_up() {
    assert_eq!(ceil_divide(0, 8), 0);
    assert_eq!(ceil_divide(1, 8), 1);
    assert_eq!(ceil_divide(8, 8), 1);
    assert_eq!(ceil_divide(9, 8), 2);
    assert_eq!(ceil_divide(u64::MAX, 2), 1 << 63);
}

fn map_from_pairs(pairs: &[(u64, u64)]) -> MemoryMap {
    let entries: Vec<MapEntry> =
        pairs.iter().map(|&(begin, end)| entry(begin, end, MemoryType::Available)).collect();
    MemoryMap::from_entries(&entries)
}

fn fill_bitmap(memory_map: &MemoryMap) -> Vec<u8> {
    let total_memory = memory_map.entries().last().unwrap().extent.end_address().as_raw();
    let mut bitmap = vec![0u8; ceil_divide(total_memory, PAGE_SIZE * 8) as usize];
    fill_bitmap_from_map(&mut bitmap, memory_map);
    bitmap
}

#[test]
fn fill_bitmap_single_element() {
    assert_eq!(fill_bitmap(&map_from_pairs(&[(0, PAGE_SIZE * 8)])), &[0b11111111]);
    assert_eq!(fill_bitmap(&map_from_pairs(&[(0, PAGE_SIZE * 16)])), &[0b11111111, 0b11111111]);
    assert_eq!(
        fill_bitmap(&map_from_pairs(&[(0, PAGE_SIZE * 24)])),
        &[0b11111111, 0b11111111, 0b11111111]
    );

    assert_eq!(
        fill_bitmap(&map_from_pairs(&[(PAGE_SIZE, PAGE_SIZE * 24)])),
        &[0b11111110, 0b11111111, 0b11111111]
    );
    assert_eq!(
        fill_bitmap(&map_from_pairs(&[(0, PAGE_SIZE * 23)])),
        &[0b11111111, 0b11111111, 0b01111111]
    );
    assert_eq!(
        fill_bitmap(&map_from_pairs(&[(PAGE_SIZE, PAGE_SIZE * 23)])),
        &[0b11111110, 0b11111111, 0b01111111]
    );

    assert_eq!(
        fill_bitmap(&map_from_pairs(&[(PAGE_SIZE * 7, PAGE_SIZE * 17)])),
        &[0b10000000, 0b11111111, 0b00000001]
    );
}

#[test]
fn fill_bitmap_region_ending_in_first_byte() {
    assert_eq!(fill_bitmap(&map_from_pairs(&[(0, PAGE_SIZE * 4)])), &[0b00001111]);
}

#[test]
fn fill_bitmap_region_inside_one_byte() {
    assert_eq!(fill_bitmap(&map_from_pairs(&[(PAGE_SIZE, PAGE_SIZE * 4)])), &[0b00001110]);
}

#[test]
fn fill_bitmap_multiple_elements() {
    assert_eq!(
        fill_bitmap(&map_from_pairs(&[(0, PAGE_SIZE * 8), (PAGE_SIZE * 16, PAGE_SIZE * 24)])),
        &[0b11111111, 0b00000000, 0b11111111]
    );

    assert_eq!(
        fill_bitmap(&map_from_pairs(&[(0, PAGE_SIZE * 9), (PAGE_SIZE * 15, PAGE_SIZE * 24)])),
        &[0b11111111, 0b10000001, 0b11111111]
    );
}

#[test]
fn fill_bitmap_off_page_boundary() {
    assert_eq!(fill_bitmap(&map_from_pairs(&[(0, PAGE_SIZE * 8 + 1)])), &[0b11111111, 0b00000000]);

    assert_eq!(
        fill_bitmap(&map_from_pairs(&[(0, PAGE_SIZE * 8 + 1), (PAGE_SIZE * 16 - 1, PAGE_SIZE * 24)])),
        &[0b11111111, 0b00000000, 0b11111111]
    );
}

#[test]
fn fill_bitmap_filters_unavailable() {
    assert_eq!(
        fill_bitmap(&MemoryMap::from_entries(&[
            entry(0, PAGE_SIZE * 8, MemoryType::Acpi),
            entry(PAGE_SIZE * 8, PAGE_SIZE * 16, MemoryType::Available),
        ])),
        &[0b00000000, 0b11111111]
    );
}

#[test]
fn mark_frames_free_marks_exactly_its_frames() {
    let mut bitmap = [0b0000_0001u8, 0, 0b1000_0000];
    let frames = FrameRange::new(Frame::new(PhysAddress::from_raw(3 * PAGE_SIZE)), 10).unwrap();
    mark_frames_free(&mut bitmap, frames);
    assert_eq!(bitmap, [0b1111_1001, 0b0001_1111, 0b1000_0000]);
}

#[test]
fn bitmap_bytes_cover_the_highest_available_entry() {
    let map = MemoryMap::from_entries(&[
        entry(0, PAGE_SIZE * 9, MemoryType::Available),
        entry(PAGE_SIZE * 100, PAGE_SIZE * 200, MemoryType::Reserved),
    ]);
    assert_eq!(testos::memory::allocators::phys::bitmap_bytes_needed(&map), 2);
}

fn frame(index: u64) -> Frame {
    Frame::new(PhysAddress::from_raw(PAGE_SIZE * index))
}

#[test]
fn bitmap_allocator_returns_correct_available_frames() {
    let bitmap = vec![0b00100000, 0b00010000, 0b00000010];
    let mut allocator = BitmapFrameAllocator::new(bitmap);
    let mut allocated_frames = std::collections::BTreeSet::new();

    assert!(allocated_frames.insert(allocator.allocate().unwrap()));
    assert!(allocated_frames.insert(allocator.allocate().unwrap()));
    assert!(allocated_frames.insert(allocator.allocate().unwrap()));

    assert_eq!(allocated_frames, vec![frame(5), frame(12), frame(17)].into_iter().collect());
}

#[test]
fn bitmap_allocator_does_not_return_reserved_frame() {
    let mut allocator = BitmapFrameAllocator::new(vec![0b01000010]);

    allocator.reserve(frame(1)).unwrap();
    assert_eq!(allocator.allocate().unwrap(), frame(6));
    assert_eq!(allocator.allocate(), None);

    allocator.unreserve(frame(1));
    assert_eq!(allocator.allocate().unwrap(), frame(1));
    assert_eq!(allocator.allocate(), None);
}

#[test]
fn bitmap_allocator_returns_freed_frame() {
    let mut allocator = BitmapFrameAllocator::new(vec![0b01000010]);

    let frame1 = allocator.allocate().unwrap();
    let frame2 = allocator.allocate().unwrap();
    assert_eq!(allocator.allocate(), None);

    allocator.deallocate(frame2);
    assert_eq!(allocator.allocate().unwrap(), frame2);

    allocator.deallocate(frame1);
    assert_eq!(allocator.allocate().unwrap(), frame1);
}

#[test]
fn reserve_fails_on_a_used_frame() {
    let mut allocator = BitmapFrameAllocator::new(vec![0b0000_0001]);
    assert!(allocator.reserve(frame(1)).is_err());
    assert!(allocator.reserve(frame(0)).is_ok());
    assert!(allocator.reserve(frame(0)).is_err());
}

#[test]
fn allocate_range_finds_the_lowest_aligned_free_run() {
    let mut allocator = BitmapFrameAllocator::new(vec![0b1111_0110, 0xff, 0xff, 0xff]);
    let run = allocator.allocate_range(2).unwrap();
    assert_eq!(run.first(), frame(4));
    assert_eq!(run.count(), 4);
    assert_eq!(allocator.bitmap(), &[0b0000_0110, 0xff, 0xff, 0xff]);
    let big = allocator.allocate_range(4).unwrap();
    assert_eq!(big.first(), frame(16));
    assert_eq!(big.count(), 16);
    let byte_run = allocator.allocate_range(3).unwrap();
    assert_eq!(byte_run.first(), frame(8));
    assert_eq!(allocator.allocate_range(3), None);
    assert_eq!(allocator.bitmap(), &[0b0000_0110, 0, 0, 0]);
    allocator.deallocate_range(big);
    assert_eq!(allocator.bitmap(), &[0b0000_0110, 0, 0xff, 0xff]);
}

fn ext(address: u64, length: u64) -> PhysExtent {
    PhysExtent::from_raw(address, length)
}

#[test]
fn remove_reserved_no_holes() {
    let result = remove_reserved(&[ext(1, 4), ext(10, 4)], &[]);
    assert_eq!(result, [ext(1, 4), ext(10, 4)]);

    let result = remove_reserved(&[], &[]);
    assert_eq!(result, []);
}

#[test]
fn remove_reserved_no_blocks() {
    let result = remove_reserved(&[], &[ext(5, 5), ext(15, 5)]);
    assert_eq!(result, []);
}

#[test]
fn remove_reserved_big() {
    let result = remove_reserved(
        &[ext(0, 5), ext(7, 2), ext(10, 10), ext(25, 5), ext(35, 10)],
        &[ext(0, 3), ext(6, 4), ext(12, 4), ext(27, 3), ext(32, 4), ext(44, 2)],
    );
    assert_eq!(result, [ext(3, 2), ext(10, 2), ext(16, 4), ext(25, 2), ext(36, 8)]);
}

#[test]
fn remove_reserved_multiple_holes_in_one_block() {
    let result = remove_reserved(&[ext(10, 20)], &[ext(8, 4), ext(15, 5), ext(22, 2), ext(28, 10)]);
    assert_eq!(result, [ext(12, 3), ext(20, 2), ext(24, 4)]);
}

#[test]
fn remove_reserved_multiple_blocks_in_one_hole() {
    let result = remove_reserved(&[ext(4, 2), ext(10, 5), ext(20, 10), ext(38, 4)], &[ext(5, 35)]);
    assert_eq!(result, [ext(4, 1), ext(40, 2)]);
}

#[test]
fn heap_size_classes_pick_the_smallest_fitting_block() {
    assert_eq!(key_for_size_align(1, 1), Some(0));
    assert_eq!(key_for_size_align(16, 8), Some(0));
    assert_eq!(key_for_size_align(17, 8), Some(1));
    assert_eq!(key_for_size_align(8, 64), Some(2));
    assert_eq!(key_for_size_align(200, 16), Some(4));
    assert_eq!(key_for_size_align(256, 256), Some(4));
    assert_eq!(key_for_size_align(257, 8), None);
    assert_eq!(key_for_size_align(8, 512), None);
    assert_eq!((0..5).map(block_size_of).collect::<Vec<_>>(), [16, 32, 64, 128, 256]);
}

#[test]
fn heap_first_fit_searches_upward_from_the_size_class() {
    let lists = [false, false, false, false, true];
    assert_eq!(first_fit(&lists, 0), Some(4));
    assert_eq!(first_fit(&lists, 4), Some(4));
    let lists = [true, false, true, false, false];
    assert_eq!(first_fit(&lists, 1), Some(2));
    assert_eq!(first_fit(&lists, 3), None);
    assert_eq!(blocks_per_chunk(4096), 16);
    assert_eq!(blocks_per_chunk(300), 1);
}

#[test]
fn num_pages_is_the_ceiling_of_the_length_in_pages() {
    assert_eq!(Length::from_raw(0).num_pages(), 0);
    assert_eq!(Length::from_raw(1).num_pages(), 1);
    assert_eq!(Length::from_raw(4096).num_pages(), 1);
    assert_eq!(Length::from_raw(4097).num_pages(), 2);
}

#[test]
fn addresses_and_lengths_order_as_their_raw_values() {
    let a = PhysAddress::from_raw(0x1000);
    let b = PhysAddress::from_raw(0x2000);
    assert!(a < b && a <= b && b > a && b >= a && a <= a && !(a < a));
    assert_eq!(a.partial_cmp(&b), Some(std::cmp::Ordering::Less));
    assert_eq!(b.cmp(&a), std::cmp::Ordering::Greater);
    let x = Length::from_raw(4096);
    let y = Length::from_raw(4097);
    assert!(x < y && y >= x && x >= x);
    assert_eq!(y.partial_cmp(&x), Some(std::cmp::Ordering::Greater));
    assert_eq!(x.max(y), y);
}
