use testos::log::{LogExt, LogTee};
use testos::memory::addr::{PhysAddress, PhysExtent, VirtAddress};
use testos::memory::allocators::phys::{BitmapFrameAllocator, FrameAllocator};
use testos::memory::page::{Frame, FrameRange};
use testos::memory::{MapEntry, MemoryMap, MemoryType};
use testos::mm::{
    allocate_frame, allocate_frames, allocate_owned_frames, give_back_init_frames,
    init_alloc_frame_count, kernel_ptr_to_phys_addr, phys_extent_to_virt, phys_to_virt,
    reserve_extent, take_init_frames, VirtualMap,
};
use testos::multiboot::{get_memory_map_iterator, get_section_header_table_info, Info};
use testos::paging::{Entry, Level4, Page, Table};
use testos::qemu::QemuExitCode;
use testos::terminal::{display_buffer, Buffer, Terminal, TextScreen, Vector, HEIGHT, WIDTH};

#[test]
fn qemu_exit_codes_give_the_documented_process_status() {
    assert_eq!(QemuExitCode::Success.value(), 0x10);
    assert_eq!(QemuExitCode::Failed.value(), 0x11);
    assert_eq!((QemuExitCode::Success.value() << 1) | 1, 33);
    assert_eq!((QemuExitCode::Failed.value() << 1) | 1, 35);
}

struct FixedLock(bool);

impl LogExt for FixedLock {
    fn is_locked(&self) -> bool {
        self.0
    }
}

#[test]
fn tee_is_locked_when_either_logger_is() {
    assert!(!LogTee(FixedLock(false), FixedLock(false)).is_locked());
    assert!(LogTee(FixedLock(true), FixedLock(false)).is_locked());
    assert!(LogTee(FixedLock(false), FixedLock(true)).is_locked());
}

#[test]
fn legacy_page_indices() {
    let page = Page((3 << 27) | (5 << 18) | (7 << 9) | 11);
    assert_eq!(page.p4_ndx(), 3);
    assert_eq!(page.p3_ndx(), 5);
    assert_eq!(page.p2_ndx(), 7);
    assert_eq!(page.p1_ndx(), 11);
    assert_eq!(Page(u64::MAX).p1_ndx(), 511);
}

#[test]
fn legacy_entry_splits_into_flags_and_addr() {
    let e = Entry(0x8000_1234_5678_9abf);
    assert_eq!(e.flags(), 0x8000_0000_0000_0abf);
    assert_eq!(e.addr(), 0x0000_1234_5678_9000);
    assert_eq!(e.flags() | e.addr(), e.0);
}

#[test]
fn legacy_table_zero_clears_every_entry() {
    let mut table: Table<Level4> = Table { entries: [Entry(0xffff); 512], level: core::marker::PhantomData };
    table.zero();
    assert!(table.entries.iter().all(|e| e.0 == 0));
}

#[test]
fn buffer_write_line_cuts_pads_and_wraps() {
    let mut buffer = Buffer::new();
    assert_eq!(buffer.bottom_line, 25);
    assert!(buffer.data.iter().all(|l| l.0.iter().all(|&b| b == 0)));

    buffer.write_line("hello");
    assert_eq!(buffer.bottom_line, 26);
    assert_eq!(&buffer.data[25].0[..5], b"hello");
    assert!(buffer.data[25].0[5..].iter().all(|&b| b == 0));

    let long = "x".repeat(WIDTH + 10);
    buffer.write_line(&long);
    assert!(buffer.data[26].0.iter().all(|&b| b == b'x'));

    buffer.bottom_line = HEIGHT - 1;
    buffer.write_line("last");
    assert_eq!(buffer.bottom_line, 0);
    assert_eq!(&buffer.data[HEIGHT - 1].0[..4], b"last");
}

fn row_text<const W: usize, const H: usize>(screen: &TextScreen<W, H>, y: usize) -> Vec<u8> {
    screen.row(y).to_vec()
}

#[test]
fn display_buffer_shows_the_last_lines() {
    let mut buffer = Buffer::new();
    buffer.bottom_line = 0;
    buffer.write_line("one");
    buffer.write_line("two");
    buffer.write_line("three");
    let mut screen = TextScreen::<5, 2>::new(b' ');
    display_buffer(&mut screen, &buffer);
    assert_eq!(row_text(&screen, 0), b"two\0\0");
    assert_eq!(row_text(&screen, 1), b"three");

    let mut screen = TextScreen::<3, 4>::new(b' ');
    display_buffer(&mut screen, &buffer);
    assert_eq!(row_text(&screen, 0), &[0, 0, 0]);
    assert_eq!(row_text(&screen, 1), b"one");
    assert_eq!(row_text(&screen, 2), b"two");
    assert_eq!(row_text(&screen, 3), b"thr");
}

#[test]
fn terminal_clear_blanks_every_cell() {
    let mut screen = TextScreen::<4, 3>::new(b' ');
    screen.write_at(b'x', Vector { x: 1, y: 2 });
    screen.write_at(b'y', Vector { x: 3, y: 0 });
    assert_eq!(row_text(&screen, 2), b" x  ");
    assert_eq!(row_text(&screen, 0), b"   y");
    assert_eq!(screen.size().x, 4);
    assert_eq!(screen.size().y, 3);
    assert_eq!(screen.blank_elem(), b' ');
    screen.clear();
    for y in 0..3 {
        assert_eq!(row_text(&screen, y), b"    ");
    }
}

fn mmap_entry(size: u32, base: u64, length: u64, mem_type: u32) -> Vec<u8> {
    let mut v = Vec::new();
    v.extend_from_slice(&size.to_le_bytes());
    v.extend_from_slice(&base.to_le_bytes());
    v.extend_from_slice(&length.to_le_bytes());
    v.extend_from_slice(&mem_type.to_le_bytes());
    v
}

fn info(mmap_addr: u32, mmap_length: u32) -> Info {
    Info {
        flags: 0,
        mem_lower: 0,
        mem_upper: 0,
        boot_device: 0,
        cmdline_addr: 0,
        mods_count: 0,
        mods_addr: 0,
        shdr_num: 7,
        shdr_size: 64,
        shdr_addr: 0x1000,
        shdr_shndx: 6,
        mmap_length,
        mmap_addr,
    }
}

#[test]
fn memory_map_reader_yields_only_available_entries() {
    let mut bytes = mmap_entry(20, 0, 0x9f000, 1);
    bytes.extend(mmap_entry(20, 0x9f000, 0x1000, 2));
    bytes.extend(mmap_entry(20, 0x10_0000, 0x700_0000, 1));
    let mb = info(0x8000, bytes.len() as u32);
    let mut it = get_memory_map_iterator(&mb);
    let first = it.next_entry(&bytes).unwrap();
    assert_eq!((first.base_addr, first.length), (0, 0x9f000));
    let second = it.next_entry(&bytes).unwrap();
    assert_eq!((second.base_addr, second.length), (0x10_0000, 0x700_0000));
    assert!(it.next_entry(&bytes).is_none());
    assert!(it.next_entry(&bytes).is_none());
}

#[test]
fn memory_map_reader_stops_at_a_truncated_entry() {
    let mut bytes = mmap_entry(20, 0x1000, 0x2000, 1);
    bytes.truncate(10);
    let mb = info(0, 24);
    let mut it = get_memory_map_iterator(&mb);
    assert!(it.next_entry(&bytes).is_none());
}

#[test]
fn section_header_table_info_copies_the_fields() {
    let t = get_section_header_table_info(&info(0, 0));
    assert_eq!((t.addr, t.entry_size, t.entry_count, t.string_table_ndx), (0x1000, 64, 7, 6));
}

#[test]
fn virtual_map_regions() {
    let first = VirtualMap::first_mib();
    assert_eq!((first.address().as_raw(), first.length().as_raw()), (0, 0x10_0000));
    let user = VirtualMap::user();
    assert_eq!(user.address().as_raw(), 0x10_0000);
    assert_eq!(user.end_address().as_raw(), 0x0000_8000_0000_0000);
    assert!(!user.has_overlap(first));
    let phys = VirtualMap::phys_map();
    assert_eq!(phys.address().as_raw(), 0xffff_8000_0000_0000);
    assert_eq!(phys.length().as_raw(), 1 << 40);
    let kernel = VirtualMap::kernel_image();
    assert_eq!(kernel.address().as_raw(), 0xffff_ffff_8000_0000);
    assert_eq!(kernel.length().as_raw(), 2 << 30);
}

#[test]
fn physical_memory_maps_into_the_higher_half() {
    assert_eq!(phys_to_virt(PhysAddress::from_raw(0x1234)), VirtAddress::from_raw(0xffff_8000_0000_1234));
    let v = phys_extent_to_virt(PhysExtent::from_raw(0x2000, 0x3000));
    assert_eq!(v.address().as_raw(), 0xffff_8000_0000_2000);
    assert_eq!(v.length().as_raw(), 0x3000);
    assert_eq!(
        kernel_ptr_to_phys_addr(
            VirtAddress::from_raw(0xffff_ffff_8010_0040),
            VirtAddress::from_raw(0xffff_ffff_8000_0000)
        ),
        PhysAddress::from_raw(0x10_0040)
    );
}

#[test]
fn frames_come_from_the_allocator() {
    let mut allocator = BitmapFrameAllocator::new(vec![0b1111_0000, 0xff]);
    let f = allocate_frame(&mut allocator).unwrap();
    assert_eq!(f.start().as_raw(), 4 * 4096);
    let range = allocate_frames(&mut allocator, 3).unwrap();
    assert_eq!((range.first().start().as_raw(), range.count()), (8 * 4096, 8));
    assert!(allocate_owned_frames(&mut allocator, 1).is_some());
    assert!(allocate_frames(&mut allocator, 2).is_none());
    let owned = allocate_owned_frames(&mut allocator, 0).unwrap();
    assert_eq!(owned.frames().first().start().as_raw(), 5 * 4096);
}

#[test]
fn reserve_extent_marks_every_touched_frame() {
    let mut allocator = BitmapFrameAllocator::new(vec![0xff, 0xff]);
    reserve_extent(&mut allocator, PhysExtent::from_raw(4095, 4098));
    assert_eq!(allocator.bitmap(), &[0b1111_1000, 0xff]);
    reserve_extent(&mut allocator, PhysExtent::from_raw(0, 1));
    assert_eq!(allocator.bitmap(), &[0b1111_1000, 0xff]);
    assert!(allocator.reserve(Frame::new(PhysAddress::from_raw(3 * 4096))).is_ok());
}

fn entry(begin: u64, end: u64, mem_type: MemoryType) -> MapEntry {
    MapEntry { extent: PhysExtent::from_raw_range_exclusive(begin, end), mem_type }
}

#[test]
fn init_frames_come_from_the_first_large_enough_entry_past_one_mib() {
    let mut map = MemoryMap::from_entries(&[
        entry(0, 0x9_f000, MemoryType::Available),
        entry(0x10_0000, 0x10_2000, MemoryType::Available),
        entry(0x10_2000, 0x20_0000, MemoryType::Reserved),
        entry(0x20_0800, 0x40_0000, MemoryType::Available),
    ]);
    assert_eq!(init_alloc_frame_count(&map), (0x9f + 0x2 + 0xfe + 0x200) / 256);
    let (index, frames) = take_init_frames(&mut map, 4).unwrap();
    assert_eq!(index, 3);
    assert_eq!(frames.first().start().as_raw(), 0x20_1000);
    assert_eq!(frames.count(), 4);
    assert_eq!(map.entries()[3], entry(0x20_5000, 0x40_0000, MemoryType::Available));
    assert_eq!(map.entries()[1], entry(0x10_0000, 0x10_2000, MemoryType::Available));

    let rest = FrameRange::new(Frame::new(PhysAddress::from_raw(0x20_3000)), 2).unwrap();
    give_back_init_frames(&mut map, index, rest);
    assert_eq!(map.entries()[3], entry(0x20_3000, 0x40_0000, MemoryType::Available));
}

#[test]
fn init_frames_fail_without_a_large_enough_entry() {
    let mut map = MemoryMap::from_entries(&[entry(0x10_0000, 0x10_2000, MemoryType::Available)]);
    assert!(take_init_frames(&mut map, 3).is_none());
    assert_eq!(map.entries()[0], entry(0x10_0000, 0x10_2000, MemoryType::Available));
}



use testos::memory::page::Page as MemPage;
use testos::memory::paging::{ArenaStore, PageTableFlags};
use testos::mm::template::{create_page_table_template, KernelSection, TemplateError};

fn section(start: u64, len: u64, writable: bool, executable: bool) -> KernelSection {
    KernelSection {
        extent: testos::memory::addr::VirtExtent::from_raw(start, len),
        allocated: true,
        writable,
        executable,
        loaded: true,
        bootstrap: false,
    }
}

#[test]
fn page_table_template_maps_memory_first_mib_and_kernel() {
    let map = MemoryMap::from_entries(&[
        entry(0, 0x9_f000, MemoryType::Available),
        entry(0x10_0000, 0x10_3000, MemoryType::Available),
    ]);
    let base = 0xffff_ffff_8000_0000u64;
    let sections = [
        section(base + 0x10_0000, 0x2000, false, true),
        section(base + 0x10_2000, 0x1000, true, false),
        KernelSection { bootstrap: true, ..section(0x1000, 0x1000, false, true) },
    ];
    let store = ArenaStore::new(Frame::new(PhysAddress::from_raw(1 << 40)));
    let mapper = create_page_table_template(store, &map, &sections, VirtAddress::from_raw(base))
        .unwrap();
    let (root, store) = mapper.into_parts();

    let window = store.translate(&root, VirtAddress::from_raw(0xffff_8000_0010_2abc));
    assert_eq!(window, Some(PhysAddress::from_raw(0x10_2abc)));
    assert_eq!(store.translate(&root, VirtAddress::from_raw(0xffff_8000_0010_3000)), None);
    assert_eq!(store.translate(&root, VirtAddress::from_raw(0x5_0123)), Some(PhysAddress::from_raw(0x5_0123)));

    let text = store.walk(&root, MemPage::new(VirtAddress::from_raw(base + 0x10_1000))).unwrap();
    assert_eq!(text.get_addr(), PhysAddress::from_raw(0x10_1000));
    assert!(!text.get_flags().contains(PageTableFlags::from_bits_truncate(PageTableFlags::WRITABLE)));
    assert!(!text.get_flags().contains(PageTableFlags::from_bits_truncate(PageTableFlags::EXECUTE_DISABLE)));
    let data = store.walk(&root, MemPage::new(VirtAddress::from_raw(base + 0x10_2000))).unwrap();
    assert!(data.get_flags().contains(PageTableFlags::from_bits_truncate(
        PageTableFlags::WRITABLE | PageTableFlags::EXECUTE_DISABLE
    )));
    let l4 = root.entries()[MemPage::new(VirtAddress::from_raw(base)).l4_index()];
    assert!(l4.get_flags().contains(PageTableFlags::from_bits_truncate(
        PageTableFlags::PRESENT | PageTableFlags::GLOBAL | PageTableFlags::APP_PARENT_FROZEN
    )));
}

#[test]
fn page_table_template_rejects_bad_sections() {
    let map = MemoryMap::from_entries(&[entry(0, 0x1000, MemoryType::Available)]);
    let base = VirtAddress::from_raw(0xffff_ffff_8000_0000);
    let store = || ArenaStore::new(Frame::new(PhysAddress::from_raw(1 << 40)));
    let outside = [section(0x40_0000, 0x1000, false, false)];
    assert_eq!(
        create_page_table_template(store(), &map, &outside, base).err(),
        Some(TemplateError::SectionOutsideKernelImage)
    );
    let wx = [section(0xffff_ffff_8000_0000, 0x1000, true, true)];
    assert_eq!(
        create_page_table_template(store(), &map, &wx, base).err(),
        Some(TemplateError::WritableAndExecutable)
    );
    let too_big = MemoryMap::from_entries(&[entry(0x20_0000_0000, 0x20_0000_1000, MemoryType::Reserved)]);
    assert_eq!(
        create_page_table_template(store(), &too_big, &[], base).err(),
        Some(TemplateError::MemoryBeyondLimit)
    );
}

#[test]
fn page_table_template_last_section_on_a_shared_page_decides_its_flags() {
    let map = MemoryMap::from_entries(&[entry(0, 0x1000, MemoryType::Available)]);
    let base = 0xffff_ffff_8000_0000u64;
    let sections = [
        section(base + 0x10_0000, 0x800, false, true),
        section(base + 0x10_0800, 0x800, true, false),
    ];
    let store = ArenaStore::new(Frame::new(PhysAddress::from_raw(1 << 40)));
    let mapper = create_page_table_template(store, &map, &sections, VirtAddress::from_raw(base))
        .unwrap();
    let (root, store) = mapper.into_parts();
    let shared = store.walk(&root, MemPage::new(VirtAddress::from_raw(base + 0x10_0000))).unwrap();
    assert_eq!(shared.get_addr(), PhysAddress::from_raw(0x10_0000));
    assert!(shared.get_flags().contains(PageTableFlags::from_bits_truncate(
        PageTableFlags::PRESENT | PageTableFlags::WRITABLE | PageTableFlags::EXECUTE_DISABLE
    )));
}

#[test]
fn page_table_template_fails_only_when_the_store_runs_out_of_tables() {
    let map = MemoryMap::from_entries(&[entry(0, 0x1000, MemoryType::Available)]);
    let base = VirtAddress::from_raw(0xffff_ffff_8000_0000);
    // Room for two tables below 2^52: the first page already needs three.
    let tight = ArenaStore::new(Frame::new(PhysAddress::from_raw((1u64 << 52) - 2 * 4096)));
    assert_eq!(
        create_page_table_template(tight, &map, &[], base).err(),
        Some(TemplateError::Paging(testos::memory::paging::MapError::FrameAllocationFailed))
    );
    // With enough room the same inputs succeed: one window path and one
    // first-MiB path, three tables each.
    let roomy = ArenaStore::new(Frame::new(PhysAddress::from_raw(1 << 40)));
    let mapper = create_page_table_template(roomy, &map, &[], base).unwrap();
    let (_, store) = mapper.into_parts();
    assert_eq!(store.allocated(), 6);
}

#[test]
fn page_table_template_parent_entries_carry_exactly_the_template_flags() {
    let map = MemoryMap::from_entries(&[entry(0, 0x1000, MemoryType::Available)]);
    let base = VirtAddress::from_raw(0xffff_ffff_8000_0000);
    let store = ArenaStore::new(Frame::new(PhysAddress::from_raw(1 << 40)));
    let mapper = create_page_table_template(store, &map, &[], base).unwrap();
    let (root, store) = mapper.into_parts();
    let (first, tables) = store.into_tables();
    let parent = testos::mm::template::TEMPLATE_PARENT_FLAGS;
    for addr in [0xffff_8000_0000_0000u64, 0x5000] {
        let page = MemPage::new(VirtAddress::from_raw(addr));
        let l4 = root.entries()[page.l4_index()];
        assert_eq!(l4.get_flags().bits(), parent);
        let l3_table = &tables[((l4.get_addr().as_raw() - first) / 4096) as usize];
        let l3 = l3_table.entries()[page.l3_index()];
        assert_eq!(l3.get_flags().bits(), parent);
        let l2_table = &tables[((l3.get_addr().as_raw() - first) / 4096) as usize];
        let l2 = l2_table.entries()[page.l2_index()];
        assert_eq!(l2.get_flags().bits(), parent);
    }
}
