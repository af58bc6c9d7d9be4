use testos::log::{level_as_string, LogLevel};
use testos::memory::addr::PhysAddress;
use testos::memory::paging::PageTableFlags;
use testos::mm::paging::{PageTable, PageTableEntry};
use testos::vga::{VgaWriter, CELLS, COLS, ROWS};

fn screen(w: &VgaWriter) -> Vec<u8> {
    (0..CELLS).map(|i| w.char_at(i)).collect()
}

fn row(w: &VgaWriter, y: usize) -> Vec<u8> {
    (0..COLS).map(|x| w.char_at(y * COLS + x)).collect()
}

fn text(s: &str) -> Vec<u8> {
    let mut v = s.as_bytes().to_vec();
    v.resize(COLS, 0);
    v
}

#[test]
fn vga_starts_blank_with_the_cursor_home() {
    let w = VgaWriter::new();
    assert_eq!(w.offset(), 0);
    assert!(screen(&w).iter().all(|&b| b == 0));
    assert_eq!(ROWS * COLS, CELLS);
}

#[test]
fn vga_writes_ascii_at_the_cursor_and_replaces_the_rest() {
    let mut w = VgaWriter::new();
    w.write_str("hi é!");
    assert_eq!(row(&w, 0), text("hi ?!"));
    assert_eq!(w.offset(), 5);
}

#[test]
fn vga_newline_moves_to_the_next_row() {
    let mut w = VgaWriter::new();
    w.write_str("ab\ncd\n\nx");
    assert_eq!(row(&w, 0), text("ab"));
    assert_eq!(row(&w, 1), text("cd"));
    assert_eq!(row(&w, 2), text(""));
    assert_eq!(row(&w, 3), text("x"));
    assert_eq!(w.offset(), 3 * COLS + 1);
}

#[test]
fn vga_newline_at_a_row_start_still_moves_a_row() {
    let mut w = VgaWriter::new();
    w.write_str("\n");
    assert_eq!(w.offset(), COLS);
}

#[test]
fn vga_scrolls_when_writing_past_the_last_cell() {
    let mut w = VgaWriter::new();
    for i in 0..ROWS {
        let line = format!("{}\n", i);
        w.write_str(&line);
    }
    // The cursor is past the last cell; nothing has scrolled yet.
    assert_eq!(w.offset(), CELLS);
    assert_eq!(row(&w, 0), text("0"));
    w.write_str("z");
    assert_eq!(row(&w, 0), text("1"));
    assert_eq!(row(&w, ROWS - 2), text("24"));
    assert_eq!(row(&w, ROWS - 1), text("z"));
    assert_eq!(w.offset(), (ROWS - 1) * COLS + 1);
}

#[test]
fn vga_clear_blanks_the_screen_and_homes_the_cursor() {
    let mut w = VgaWriter::new();
    w.write_str("some text\nmore");
    w.clear();
    assert_eq!(w.offset(), 0);
    assert!(screen(&w).iter().all(|&b| b == 0));
}

#[test]
fn kernel_entry_sets_address_and_flags() {
    let mut e = PageTableEntry::zero();
    e.set_addr(PhysAddress::from_raw(0x1_4000_5000));
    let flags = PageTableFlags::from_bits_truncate(
        PageTableFlags::PRESENT | PageTableFlags::WRITABLE | PageTableFlags::EXECUTE_DISABLE,
    );
    e.set_flags(flags);
    assert_eq!(e.get_addr().as_raw(), 0x1_4000_5000);
    assert_eq!(e.get_flags().bits(), flags.bits());
    // A second address replaces the first and keeps the flags.
    e.set_addr(PhysAddress::from_raw(0x2_8000_a000));
    assert_eq!(e.get_addr().as_raw(), 0x2_8000_a000);
    assert_eq!(e.get_flags().bits(), flags.bits());
    // Narrower flags replace the old ones and keep the address.
    e.set_flags(PageTableFlags::from_bits_truncate(PageTableFlags::PRESENT));
    assert_eq!(e.get_flags().bits(), PageTableFlags::PRESENT);
    assert_eq!(e.get_addr().as_raw(), 0x2_8000_a000);
}

#[test]
fn kernel_entry_address_round_trips_up_to_2_pow_52() {
    let mut e = PageTableEntry::zero();
    e.set_addr(PhysAddress::from_raw(1 << 48));
    assert_eq!(e.get_addr().as_raw(), 1 << 48);
    e.set_addr(PhysAddress::from_raw(0x000f_ffff_ffff_f000));
    assert_eq!(e.get_addr().as_raw(), 0x000f_ffff_ffff_f000);
    assert_eq!(e.get_flags().bits(), 0);
}

#[test]
fn kernel_table_starts_zero() {
    let t = PageTable::zero();
    let u = t.clone();
    for i in 0..512 {
        let mut e = u.entry_at(i);
        assert_eq!(e.get_addr().as_raw(), 0);
        assert_eq!(e.get_flags().bits(), 0);
    }
}

#[test]
fn log_level_labels_are_five_characters() {
    assert_eq!(level_as_string(LogLevel::Error), "ERROR");
    assert_eq!(level_as_string(LogLevel::Warn), " WARN");
    assert_eq!(level_as_string(LogLevel::Info), " INFO");
    assert_eq!(level_as_string(LogLevel::Debug), "DEBUG");
    assert_eq!(level_as_string(LogLevel::Trace), "TRACE");
}
