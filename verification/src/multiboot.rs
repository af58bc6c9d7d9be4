//! The Multiboot information structure handed over by the bootloader, and a
//! reader of its memory map.

use vstd::prelude::*;

verus! {

/// The Multiboot information structure.
pub struct Info {
    pub flags: u32,
    /// Size of lower memory.
    pub mem_lower: u32,
    /// Size of upper memory.
    pub mem_upper: u32,
    /// BIOS boot device.
    pub boot_device: u32,
    /// Address of kernel command line string.
    pub cmdline_addr: u32,
    /// Kernel module information.
    pub mods_count: u32,
    pub mods_addr: u32,
    /// Kernel ELF section header table info.
    pub shdr_num: u32,
    pub shdr_size: u32,
    pub shdr_addr: u32,
    pub shdr_shndx: u32,
    /// Memory map.
    pub mmap_length: u32,
    pub mmap_addr: u32,
}

pub const INFO_FLAG_MEM: u32 = 1;

pub const IFNO_FLAG_BOOT_DEVICE: u32 = 2;

pub const INFO_FLAG_CMDLINE: u32 = 4;

pub const INFO_FLAG_MODULES: u32 = 8;

pub const INFO_FLAG_AOUT_SYM: u32 = 16;

pub const INFO_FLAG_ELF_SYM: u32 = 32;

pub const INFO_FLAG_MMAP: u32 = 64;

/// A region of memory available for use.
pub struct AvailableMemoryEntry {
    pub base_addr: u64,
    pub length: u64,
}

/// Reads the memory map entries one by one, skipping those that are not
/// available memory. An entry is 24 bytes: its size (not counting the size
/// field itself) as a little-endian `u32`, then the base address and the
/// length as `u64`, then the type as `u32`; type 1 is available memory.
pub struct MemoryMapIterator {
    base: u32,
    length: u32,
    cur: u32,
}

/// The little-endian number that the bytes `s` spell.
pub open spec fn le_value(s: Seq<u8>) -> nat
    decreases s.len(),
{
    if s.len() == 0 {
        0
    } else {
        s[0] as nat + 256 * le_value(s.drop_first())
    }
}

/// The little-endian number in the `n` bytes of `s` from `off` on.
pub open spec fn le_at(s: Seq<u8>, off: int, n: int) -> nat {
    le_value(s.subrange(off, off + n))
}

/// Reading the memory map from the cursor `cur` on, where the map starts at
/// `base`, is `length` bytes long and `bytes[k]` is the byte at `base + k`:
/// the next available entry's base address and length, and where the cursor
/// then stands. Reading stops, with the cursor left where it is, at the end
/// of the map, at an entry that does not lie wholly inside `bytes`, and at
/// one whose size would carry the cursor past `u32::MAX`.
pub open spec fn scan_available(bytes: Seq<u8>, base: int, length: int, cur: int) -> (
    Option<(u64, u64)>,
    int,
)
    decreases (if length - (cur - base) > 0 {
        length - (cur - base)
    } else {
        0
    }),
{
    let off = cur - base;
    if off < 0 || off >= length || off + 24 > bytes.len() {
        (None, cur)
    } else {
        let next = cur + le_at(bytes, off, 4) + 4;
        if next > u32::MAX {
            (None, cur)
        } else if le_at(bytes, off + 20, 4) == 1 {
            (Some((le_at(bytes, off + 4, 8) as u64, le_at(bytes, off + 12, 8) as u64)), next)
        } else {
            scan_available(bytes, base, length, next)
        }
    }
}

/// Reading the memory map from the cursor `from` to the cursor `to` passes
/// only entries that are not available memory: each one there lies wholly
/// inside the map and `bytes`, has a type field (the 4 bytes at offset 20)
/// other than 1, and the next one starts right after it, its size field
/// (the 4 bytes at offset 0) plus 4 bytes on.
pub open spec fn skips_unavailable(bytes: Seq<u8>, base: int, length: int, from: int, to: int) -> bool
    decreases (if to - from > 0 {
        to - from
    } else {
        0
    }),
{
    if from == to {
        true
    } else {
        let off = from - base;
        let next = from + le_at(bytes, off, 4) + 4;
        if 0 <= off < length && off + 24 <= bytes.len() && le_at(bytes, off + 20, 4) != 1 && from
            < next <= to {
            skips_unavailable(bytes, base, length, next, to)
        } else {
            false
        }
    }
}

/// Reading cannot go on at the cursor `cur`: the map ends there, its entry
/// does not lie wholly inside `bytes`, or the entry's size would carry the
/// cursor past `u32::MAX`.
pub open spec fn map_ends_at(bytes: Seq<u8>, base: int, length: int, cur: int) -> bool {
    let off = cur - base;
    off < 0 || off >= length || off + 24 > bytes.len() || cur + le_at(bytes, off, 4) + 4
        > u32::MAX
}

/// What reading the map from `cur` gives: an entry whose type field is 1
/// (available memory), found after passing only entries of other types,
/// with its base address and length read from offsets 4 and 12 and the
/// cursor left just past it; or, when nothing is found, only entries of
/// other types passed before a point where the map ends (`map_ends_at`).
/// Returns where the found entry starts.
pub proof fn lemma_scan_available_finds_available(bytes: Seq<u8>, base: int, length: int, cur: int) -> (start: int)
    ensures
        ({
            let (found, next) = scan_available(bytes, base, length, cur);
            &&& found is Some ==> {
                let off = start - base;
                &&& skips_unavailable(bytes, base, length, cur, start)
                &&& 0 <= off < length
                &&& off + 24 <= bytes.len()
                &&& le_at(bytes, off + 20, 4) == 1
                &&& next == start + le_at(bytes, off, 4) + 4
                &&& found == Some((le_at(bytes, off + 4, 8) as u64, le_at(bytes, off + 12, 8) as u64))
            }
            &&& found is None ==> skips_unavailable(bytes, base, length, cur, next)
            &&& found is None ==> map_ends_at(bytes, base, length, next)
        }),
    decreases (if length - (cur - base) > 0 {
        length - (cur - base)
    } else {
        0
    }),
{
    let off = cur - base;
    if off < 0 || off >= length || off + 24 > bytes.len() {
        cur
    } else {
        let next = cur + le_at(bytes, off, 4) + 4;
        if next > u32::MAX {
            cur
        } else if 1 == le_at(bytes, off + 20, 4) {
            cur
        } else {
            let start = lemma_scan_available_finds_available(bytes, base, length, next);
            let (found, next2) = scan_available(bytes, base, length, next);
            if found is Some {
                lemma_skips_grow(bytes, base, length, cur, next, start);
            } else {
                lemma_skips_grow(bytes, base, length, cur, next, next2);
            }
            start
        }
    }
}

/// Passing one entry that is not available memory, then more of them, is
/// passing all of them.
proof fn lemma_skips_grow(bytes: Seq<u8>, base: int, length: int, cur: int, next: int, to: int)
    requires
        0 <= cur - base < length,
        cur - base + 24 <= bytes.len(),
        le_at(bytes, cur - base + 20, 4) != 1,
        next == cur + le_at(bytes, cur - base, 4) + 4,
        skips_unavailable(bytes, base, length, next, to),
    ensures
        skips_unavailable(bytes, base, length, cur, to),
{
    lemma_skips_order(bytes, base, length, next, to);
}

/// Passing entries only moves the cursor forward.
proof fn lemma_skips_order(bytes: Seq<u8>, base: int, length: int, from: int, to: int)
    requires
        skips_unavailable(bytes, base, length, from, to),
    ensures
        from <= to,
    decreases (if to - from > 0 {
        to - from
    } else {
        0
    }),
{
    if from != to {
        let next = from + le_at(bytes, from - base, 4) + 4;
        lemma_skips_order(bytes, base, length, next, to);
    }
}

proof fn lemma_le4(s: Seq<u8>)
    requires
        s.len() == 4,
    ensures
        le_value(s) == s[0] + 256 * s[1] + 65536 * s[2] + 16777216 * s[3],
{
    reveal_with_fuel(le_value, 5);
    assert(s.drop_first().drop_first().drop_first().drop_first().len() == 0);
}

proof fn lemma_le8(s: Seq<u8>)
    requires
        s.len() == 8,
    ensures
        le_value(s) == s[0] + 0x100 * s[1] + 0x1_0000 * s[2] + 0x100_0000 * s[3] + 0x1_0000_0000
            * s[4] + 0x100_0000_0000 * s[5] + 0x1_0000_0000_0000 * s[6] + 0x100_0000_0000_0000
            * s[7],
{
    reveal_with_fuel(le_value, 9);
    let t = s.drop_first().drop_first().drop_first().drop_first();
    assert(t.drop_first().drop_first().drop_first().drop_first().len() == 0);
}

/// The little-endian `u32` in the four bytes of `bytes` from `off` on.
fn read_u32(bytes: &[u8], off: usize) -> (r: u32)
    requires
        off + 4 <= bytes@.len(),
    ensures
        r == le_at(bytes@, off as int, 4),
{
    let b0 = bytes[off] as u32;
    let b1 = bytes[off + 1] as u32;
    let b2 = bytes[off + 2] as u32;
    let b3 = bytes[off + 3] as u32;
    proof {
        lemma_le4(bytes@.subrange(off as int, off + 4));
        assert(b0 | (b1 << 8u32) | (b2 << 16u32) | (b3 << 24u32) == b0 + 256 * b1 + 65536 * b2
            + 16777216 * b3) by (bit_vector)
            requires
                b0 < 256 && b1 < 256 && b2 < 256 && b3 < 256,
        ;
    }
    b0 | (b1 << 8) | (b2 << 16) | (b3 << 24)
}

/// The little-endian `u64` in the eight bytes of `bytes` from `off` on.
fn read_u64(bytes: &[u8], off: usize) -> (r: u64)
    requires
        off + 8 <= bytes@.len(),
    ensures
        r == le_at(bytes@, off as int, 8),
{
    let b0 = bytes[off] as u64;
    let b1 = bytes[off + 1] as u64;
    let b2 = bytes[off + 2] as u64;
    let b3 = bytes[off + 3] as u64;
    let b4 = bytes[off + 4] as u64;
    let b5 = bytes[off + 5] as u64;
    let b6 = bytes[off + 6] as u64;
    let b7 = bytes[off + 7] as u64;
    proof {
        lemma_le8(bytes@.subrange(off as int, off + 8));
        assert(b0 | (b1 << 8u64) | (b2 << 16u64) | (b3 << 24u64) | (b4 << 32u64) | (b5 << 40u64) | (
        b6 << 48u64) | (b7 << 56u64) == b0 + 0x100 * b1 + 0x1_0000 * b2 + 0x100_0000 * b3
            + 0x1_0000_0000 * b4 + 0x100_0000_0000 * b5 + 0x1_0000_0000_0000 * b6
            + 0x100_0000_0000_0000 * b7) by (bit_vector)
            requires
                b0 < 256 && b1 < 256 && b2 < 256 && b3 < 256 && b4 < 256 && b5 < 256 && b6 < 256
                    && b7 < 256,
        ;
    }
    b0 | (b1 << 8) | (b2 << 16) | (b3 << 24) | (b4 << 32) | (b5 << 40) | (b6 << 48) | (b7 << 56)
}

impl MemoryMapIterator {
    /// The cursor never stands before the start of the map.
    pub closed spec fn wf(self) -> bool {
        self.base <= self.cur
    }

    /// Where the map starts, its length in bytes, and the cursor.
    pub closed spec fn state(self) -> (int, int, int) {
        (self.base as int, self.length as int, self.cur as int)
    }

    /// The next available entry of the map, read from `mmap`, whose byte `k`
    /// is the byte at address `base + k`; `None` once the map is done (see
    /// `scan_available`).
    pub fn next_entry(&mut self, mmap: &[u8]) -> (r: Option<AvailableMemoryEntry>)
        requires
            old(self).wf(),
        ensures
            final(self).wf(),
            ({
                let (b, l, c) = old(self).state();
                let (found, next) = scan_available(mmap@, b, l, c);
                &&& final(self).state() == (b, l, next)
                &&& match found {
                    Some((a, n)) => r matches Some(e) && e.base_addr == a && e.length == n,
                    None => r is None,
                }
            }),
            ({
                let (b, l, c) = old(self).state();
                let next = final(self).state().2;
                &&& r matches Some(e) ==> exists|start: int|
                    {
                        let off = start - b;
                        &&& #[trigger] skips_unavailable(mmap@, b, l, c, start)
                        &&& 0 <= off < l
                        &&& off + 24 <= mmap@.len()
                        &&& le_at(mmap@, off + 20, 4) == 1
                        &&& next == start + le_at(mmap@, off, 4) + 4
                        &&& e.base_addr == le_at(mmap@, off + 4, 8) as u64
                        &&& e.length == le_at(mmap@, off + 12, 8) as u64
                    }
                &&& r is None ==> skips_unavailable(mmap@, b, l, c, next)
                &&& r is None ==> map_ends_at(mmap@, b, l, next)
            }),
    {

        let n = mmap.len();
        while self.cur - self.base < self.length
            invariant
                self.wf(),
                n == mmap@.len(),
                self.base == old(self).base,
                self.length == old(self).length,
                scan_available(mmap@, self.base as int, self.length as int, self.cur as int)
                    == scan_available(
                    mmap@,
                    old(self).base as int,
                    old(self).length as int,
                    old(self).cur as int,
                ),
            decreases (if self.length - (self.cur - self.base) > 0 {
                self.length - (self.cur - self.base)
            } else {
                0
            }),
        {
            proof {
                let _ = lemma_scan_available_finds_available(
                    mmap@,
                    old(self).base as int,
                    old(self).length as int,
                    old(self).cur as int,
                );
            }
            let off = (self.cur - self.base) as usize;
            if off > n || n - off < 24 {
                return None;
            }
            let size = read_u32(mmap, off);
            let mem_type = read_u32(mmap, off + 20);
            if size > u32::MAX - 4 || self.cur > u32::MAX - (size + 4) {
                return None;
            }
            let base_addr = read_u64(mmap, off + 4);
            let length = read_u64(mmap, off + 12);
            self.cur = self.cur + (size + 4);
            if mem_type == 1 {
                proof {
                    let st = lemma_scan_available_finds_available(
                        mmap@,
                        old(self).base as int,
                        old(self).length as int,
                        old(self).cur as int,
                    );
                    assert(skips_unavailable(
                        mmap@,
                        old(self).base as int,
                        old(self).length as int,
                        old(self).cur as int,
                        st,
                    ));
                }
                return Some(AvailableMemoryEntry { base_addr, length });
            }
        }
        proof {
            let _ = lemma_scan_available_finds_available(
                mmap@,
                old(self).base as int,
                old(self).length as int,
                old(self).cur as int,
            );
        }
        None
    }
}

/// A reader of the memory map described by `mbinfo`, at its start.
pub fn get_memory_map_iterator(mbinfo: &Info) -> (r: MemoryMapIterator)
    ensures
        r.wf(),
        r.state() == (mbinfo.mmap_addr as int, mbinfo.mmap_length as int, mbinfo.mmap_addr as int),
{
    MemoryMapIterator { base: mbinfo.mmap_addr, length: mbinfo.mmap_length, cur: mbinfo.mmap_addr }
}

/// Where the kernel's ELF section header table is, as `mbinfo` tells it.
pub struct SectionHeaderTableInfo {
    /// The table's address.
    pub addr: usize,
    pub entry_size: usize,
    pub entry_count: usize,
    pub string_table_ndx: usize,
}

pub fn get_section_header_table_info(mbinfo: &Info) -> (r: SectionHeaderTableInfo)
    ensures
        r.addr == mbinfo.shdr_addr,
        r.entry_size == mbinfo.shdr_size,
        r.entry_count == mbinfo.shdr_num,
        r.string_table_ndx == mbinfo.shdr_shndx,
{
    SectionHeaderTableInfo {
        addr: mbinfo.shdr_addr as usize,
        entry_size: mbinfo.shdr_size as usize,
        entry_count: mbinfo.shdr_num as usize,
        string_table_ndx: mbinfo.shdr_shndx as usize,
    }
}

} // verus!
