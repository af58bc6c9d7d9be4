//! The page table every address space starts from: all physical memory
//! mapped into the kernel's window, the first MiB identity mapped, and the
//! kernel image's sections mapped with the access their flags allow.

use crate::memory::addr::{align_down_spec, u64_max, PhysAddress, VirtAddress, VirtExtent};
use crate::memory::page::{table_index, Frame, Page, PageRange};
use crate::memory::paging::mapper::Mapper;
use crate::memory::paging::range::{lemma_low_bits_of_aligned, lemma_page_no_alias};
use crate::memory::paging::tree::{
    path_entry, same_path_entry, leaf_entry, lemma_empty_tree_ok, lemma_empty_tree_unmapped, lemma_index_bound, lemma_leaf_entry,
    link_ok, same_indices, tree_links, tree_ok, walk,
};
use crate::memory::paging::{
    entry_addr, entry_flags, is_huge, is_present, zero_table, MapError, PageTable, PageTableFlags, TableStore,
    MAX_PHYS_ADDR, PAGE_TABLE_FLAG_BITS,
};
use crate::memory::{MapEntry, MemoryMap};
use crate::mm::{phys_to_virt, VirtualMap, MAX_MEMORY, PHYS_MAP_BASE};
use vstd::prelude::*;

verus! {

/// No huge-page leaf anywhere: no root entry is a leaf, and every walk that
/// finds something finds a 4 KiB leaf.
pub open spec fn no_huge_pages(root: Seq<u64>, tables: Map<u64, Seq<u64>>) -> bool {
    &&& forall|i: int| 0 <= i < 512 && is_present(#[trigger] root[i]) ==> !is_huge(root[i])
    &&& forall|v: u64| #[trigger] walk(root, tables, v) matches Some((e, size)) ==> size == 0x1000
}

/// In a proper tree with no huge-page leaf, no path passes a huge-page leaf,
/// so any page may be mapped.
pub proof fn lemma_no_huge_path(root: Seq<u64>, tables: Map<u64, Seq<u64>>, v: u64)
    requires
        tree_ok(root, tables),
        no_huge_pages(root, tables),
    ensures
        crate::memory::paging::tree::path_has_no_leaf(root, tables, v, 3),
{
    let parents = choose|p: Map<u64, (int, u64, int)>| tree_links(root, tables, p);
    lemma_index_bound(v);
    let i4 = table_index(v, 39) as int;
    let e4 = root[i4];
    if is_present(e4) {
        let t3 = entry_addr(e4);
        assert(parents.contains_key(t3));
        assert(link_ok(root, tables, parents, t3));
        let i3 = table_index(v, 30) as int;
        let e3 = tables[t3][i3];
        let w = walk(root, tables, v);
        assert(w matches Some((e, size)) ==> size == 0x1000);
        if is_present(e3) && !is_huge(e3) {
            assert(parents[t3].0 == 3);
            let t2 = entry_addr(e3);
            assert(parents.contains_key(t2));
            assert(link_ok(root, tables, parents, t2));
        }
    }
}

/// The level-4 slot of an address in each of the kernel's windows: 0 for the
/// lowest 512 GiB, 256 for the physical-memory window, 511 for the top
/// 512 GiB.
proof fn lemma_window_slots(v: u64)
    by (bit_vector)
    ensures
        v < 0x80_0000_0000 ==> (v >> 39u64) & 0x1ff == 0,
        0xffff_8000_0000_0000 <= v && v < 0xffff_8080_0000_0000 ==> (v >> 39u64) & 0x1ff == 256,
        0xffff_ff80_0000_0000 <= v ==> (v >> 39u64) & 0x1ff == 511,
{
}

/// Two page-aligned addresses less than 2^48 apart with the same table
/// indices are the same address.
proof fn lemma_same_page(p: u64, q: u64)
    requires
        p % 4096 == 0,
        q % 4096 == 0,
        same_indices(p, q),
        p <= q ==> q - p < 0x1_0000_0000_0000,
        q < p ==> p - q < 0x1_0000_0000_0000,
    ensures
        p == q,
{
    if p != q {
        lemma_low_bits_of_aligned(p);
        lemma_low_bits_of_aligned(q);
        if p < q {
            assert(q - p >= 0x1000) by {
                vstd::arithmetic::div_mod::lemma_fundamental_div_mod(p as int, 4096);
                vstd::arithmetic::div_mod::lemma_fundamental_div_mod(q as int, 4096);
            }
            lemma_page_no_alias(p, q);
        } else {
            assert(p - q >= 0x1000) by {
                vstd::arithmetic::div_mod::lemma_fundamental_div_mod(p as int, 4096);
                vstd::arithmetic::div_mod::lemma_fundamental_div_mod(q as int, 4096);
            }
            lemma_page_no_alias(q, p);
        }
    }
}

/// Leaf flags of the physical-memory window and of the first MiB: present,
/// writable, not executable.
pub const WINDOW_LEAF_FLAGS: u64 = 0x8000_0000_0000_0003;

/// Parent flags of every mapping in the template: present, writable, global
/// and frozen, since its tables are shared by all address spaces.
pub const TEMPLATE_PARENT_FLAGS: u64 = 0x4000_0000_0000_0103;

/// Where the physical-memory window maps frame `i`.
pub open spec fn phys_page(i: int) -> u64 {
    (PHYS_MAP_BASE + 4096 * i) as u64
}

/// Entry `e` touches frame `i`.
pub open spec fn touches(e: MapEntry, i: int) -> bool {
    e.extent.start() / 4096 <= i <= (e.extent.end() - 1) / 4096
}

/// Frame `i` lies in the memory the kernel supports, and its page in the
/// physical-memory window maps it with the window's flags.
pub open spec fn phys_mapped(root: Seq<u64>, tables: Map<u64, Seq<u64>>, i: int) -> bool {
    &&& 0 <= i
    &&& 4096 * i < MAX_MEMORY
    &&& walk(root, tables, phys_page(i)) == Some(
        (leaf_entry((4096 * i) as u64, WINDOW_LEAF_FLAGS), 0x1000u64),
    )
}

/// The page at `p`, in the first MiB, maps to the frame at `p` with the
/// window's flags.
pub open spec fn ident_mapped(root: Seq<u64>, tables: Map<u64, Seq<u64>>, p: int) -> bool {
    &&& 0 <= p < 0x10_0000
    &&& p % 4096 == 0
    &&& walk(root, tables, p as u64) == Some((leaf_entry(p as u64, WINDOW_LEAF_FLAGS), 0x1000u64))
}

/// The page at `p`, in the kernel image's range, has a 4 KiB leaf for the
/// frame at `p - base` with leaf flags `flags`.
pub open spec fn kernel_mapped(
    root: Seq<u64>,
    tables: Map<u64, Seq<u64>>,
    base: int,
    p: int,
    flags: u64,
) -> bool {
    &&& 0xffff_ffff_8000_0000 <= p < 0x1_0000_0000_0000_0000
    &&& p % 4096 == 0
    &&& walk(root, tables, p as u64) == Some((leaf_entry((p - base) as u64, flags), 0x1000u64))
}

/// What one successful `Mapper::map` of the 4 KiB page at `page`, with
/// parent flags that are no leaf, does: the tree stays proper, the page's
/// walk finds `leaf`, the walks of addresses with other indices are
/// unchanged, and the root changes at most in the page's slot, which is then
/// no leaf if present.
pub open spec fn map_step(
    root0: Seq<u64>,
    tables0: Map<u64, Seq<u64>>,
    root1: Seq<u64>,
    tables1: Map<u64, Seq<u64>>,
    page: u64,
    leaf: u64,
) -> bool {
    &&& root1.len() == 512
    &&& tree_ok(root1, tables1)
    &&& walk(root1, tables1, page) == Some((leaf, 0x1000u64))
    &&& forall|q: u64|
        !same_indices(q, page) ==> #[trigger] walk(root1, tables1, q) == walk(root0, tables0, q)
    &&& forall|i: int| 0 <= i < 512 && i != table_index(page, 39) ==> #[trigger] root1[i] == root0[i]
    &&& root1[table_index(page, 39) as int] == root0[table_index(page, 39) as int] || (is_present(
        root1[table_index(page, 39) as int],
    ) && !is_huge(root1[table_index(page, 39) as int]))
}

/// A walk reads only the four table indices of the address.
proof fn lemma_walk_same_indices(root: Seq<u64>, tables: Map<u64, Seq<u64>>, a: u64, b: u64)
    requires
        same_indices(a, b),
    ensures
        walk(root, tables, a) == walk(root, tables, b),
{
}

/// Mapping a 4 KiB page keeps the tree free of huge-page leaves.
proof fn lemma_no_huge_kept(
    root0: Seq<u64>,
    tables0: Map<u64, Seq<u64>>,
    root1: Seq<u64>,
    tables1: Map<u64, Seq<u64>>,
    page: u64,
    leaf: u64,
)
    requires
        map_step(root0, tables0, root1, tables1, page, leaf),
        no_huge_pages(root0, tables0),
    ensures
        no_huge_pages(root1, tables1),
{
    assert forall|v: u64| (#[trigger] walk(root1, tables1, v) matches Some((e, size)) ==> size
        == 0x1000) by {
        if same_indices(v, page) {
            lemma_walk_same_indices(root1, tables1, v, page);
        } else {
            assert(walk(root1, tables1, v) == walk(root0, tables0, v));
        }
    }
}

/// The window an address lies in: the first MiB, the physical-memory window
/// or the kernel image's range.
pub open spec fn in_template_window(v: int) -> bool {
    ||| 0 <= v < 0x10_0000
    ||| PHYS_MAP_BASE <= v < PHYS_MAP_BASE + MAX_MEMORY
    ||| 0xffff_ffff_8000_0000 <= v < 0x1_0000_0000_0000_0000
}

/// Two distinct page-aligned addresses in the template's windows have
/// different table indices.
proof fn lemma_template_pages_apart(p: u64, q: u64)
    requires
        p % 4096 == 0,
        q % 4096 == 0,
        p != q,
        in_template_window(p as int),
        in_template_window(q as int),
    ensures
        !same_indices(p, q),
{
    lemma_window_slots(p);
    lemma_window_slots(q);
    if same_indices(p, q) {
        lemma_same_page(p, q);
    }
}

/// Mapping one page of the template's windows keeps every other page's
/// mapping.
proof fn lemma_facts_kept(
    root0: Seq<u64>,
    tables0: Map<u64, Seq<u64>>,
    root1: Seq<u64>,
    tables1: Map<u64, Seq<u64>>,
    page: u64,
    leaf: u64,
    base: int,
)
    requires
        map_step(root0, tables0, root1, tables1, page, leaf),
        page % 4096 == 0,
        in_template_window(page as int),
    ensures
        forall|i: int|
            #[trigger] phys_mapped(root0, tables0, i) && phys_page(i) != page ==> phys_mapped(
                root1,
                tables1,
                i,
            ),
        forall|p: int|
            #[trigger] ident_mapped(root0, tables0, p) && p != page ==> ident_mapped(root1, tables1, p),
        forall|p: int, f: u64|
            #[trigger] kernel_mapped(root0, tables0, base, p, f) && p != page ==> kernel_mapped(
                root1,
                tables1,
                base,
                p,
                f,
            ),
{
    assert forall|i: int|
        #[trigger] phys_mapped(root0, tables0, i) && phys_page(i) != page implies phys_mapped(
            root1,
            tables1,
            i,
        ) by {
        assert(phys_page(i) % 4096 == 0);
        lemma_template_pages_apart(phys_page(i), page);
        assert(walk(root1, tables1, phys_page(i)) == walk(root0, tables0, phys_page(i)));
    }
    assert forall|p: int|
        #[trigger] ident_mapped(root0, tables0, p) && p != page implies ident_mapped(
            root1,
            tables1,
            p,
        ) by {
        lemma_template_pages_apart(p as u64, page);
        assert(walk(root1, tables1, p as u64) == walk(root0, tables0, p as u64));
    }
    assert forall|p: int, f: u64|
        #[trigger] kernel_mapped(root0, tables0, base, p, f) && p != page implies kernel_mapped(
            root1,
            tables1,
            base,
            p,
            f,
        ) by {
        lemma_template_pages_apart(p as u64, page);
        assert(walk(root1, tables1, p as u64) == walk(root0, tables0, p as u64));
    }
}

/// Why building the template failed. Each of these stops the kernel's boot.
#[derive(Clone, Copy, Debug, PartialEq, Eq, Structural)]
pub enum TemplateError {
    /// The page tables could not be extended.
    Paging(MapError),
    /// The memory map reaches above the memory the kernel supports.
    MemoryBeyondLimit,
    /// A section to be mapped lies outside the kernel image's range.
    SectionOutsideKernelImage,
    /// A section is both writable and executable.
    WritableAndExecutable,
    /// A section's pages have no frame to map to: the section is empty or
    /// ends at the top of the address space, the kernel's base is not page
    /// aligned or lies above the section, or the frame lies at 2^52 or above.
    SectionNotMappable,
}

/// The facts about one ELF section of the kernel image that mapping it needs.
#[derive(Clone, Copy)]
pub struct KernelSection {
    pub extent: VirtExtent,
    /// It occupies memory when loaded.
    pub allocated: bool,
    pub writable: bool,
    pub executable: bool,
    /// It holds program data or is uninitialized data.
    pub loaded: bool,
    /// Its name starts with `.bootstrap`: lower-half code for early boot.
    pub bootstrap: bool,
}

/// A section is mapped: it occupies memory, is no bootstrap section, and
/// holds program or uninitialized data.
pub open spec fn maps_section(s: KernelSection) -> bool {
    s.allocated && !s.bootstrap && s.loaded
}

/// The page at `p` holds part of section `s`.
pub open spec fn section_page(s: KernelSection, p: int) -> bool {
    &&& p % 4096 == 0
    &&& align_down_spec(s.extent.start(), 4096) <= p <= align_down_spec(s.extent.end() - 1, 4096)
}

/// The extent lies in the kernel image's range, the top 2 GiB.
pub open spec fn in_kernel_image(e: VirtExtent) -> bool {
    0xffff_ffff_8000_0000 <= e.start() && e.end() <= 0x1_0000_0000_0000_0000
}

/// Every page of section `s` has a frame to map to below `base`'s image.
pub open spec fn pages_mappable(s: KernelSection, base: int) -> bool {
    &&& s.extent.length@ != 0
    &&& s.extent.end() <= u64_max()
    &&& base % 4096 == 0
    &&& base <= align_down_spec(s.extent.start(), 4096)
    &&& align_down_spec(s.extent.end() - 1, 4096) - base < MAX_PHYS_ADDR
}

/// The leaf flags of a section: present, writable if it is, not executable
/// unless it is.
pub open spec fn section_leaf_flags(s: KernelSection) -> u64 {
    if s.writable {
        if s.executable {
            3
        } else {
            0x8000_0000_0000_0003
        }
    } else {
        if s.executable {
            1
        } else {
            0x8000_0000_0000_0001
        }
    }
}

/// The leaf flags page `p` ends up with from the first `n` sections: those
/// of the last of them that is mapped and holds `p`, since a later section
/// overwrites an earlier one's leaf; `None` if none holds it.
pub open spec fn kernel_page_flags(sections: Seq<KernelSection>, n: int, p: int) -> Option<u64>
    decreases n,
{
    if n <= 0 {
        None
    } else if maps_section(sections[n - 1]) && section_page(sections[n - 1], p) {
        Some(section_leaf_flags(sections[n - 1]))
    } else {
        kernel_page_flags(sections, n - 1, p)
    }
}

/// A page that some mapped section among the first `n` holds gets flags.
proof fn lemma_kernel_page_flags_some(sections: Seq<KernelSection>, n: int, s: int, p: int)
    requires
        0 <= s < n,
        maps_section(sections[s]),
        section_page(sections[s], p),
    ensures
        kernel_page_flags(sections, n, p) is Some,
    decreases n,
{
    if s < n - 1 {
        lemma_kernel_page_flags_some(sections, n - 1, s, p);
    }
}

proof fn lemma_template_flags()
    by (bit_vector)
    ensures
        0x8000_0000_0000_0003u64 & 0xc000_0000_0000_01ffu64 == 0x8000_0000_0000_0003u64,
        0x8000_0000_0000_0001u64 & 0xc000_0000_0000_01ffu64 == 0x8000_0000_0000_0001u64,
        3u64 & 0xc000_0000_0000_01ffu64 == 3u64,
        1u64 & 0xc000_0000_0000_01ffu64 == 1u64,
        0x8000_0000_0000_0003u64 & 1 == 1,
        0x8000_0000_0000_0001u64 & 1 == 1,
        3u64 & 1 == 1,
        1u64 & 1 == 1,
        0x4000_0000_0000_0103u64 & 0xc000_0000_0000_01ffu64 == 0x4000_0000_0000_0103u64,
        0x4000_0000_0000_0103u64 & 0x80 == 0,
        (0x4000_0000_0000_0103u64 & 0xc000_0000_0000_01ffu64) | 0x4000_0000_0000_0103u64 | 1
            == 0x4000_0000_0000_0103u64,
        0x4000_0000_0000_0103u64 | 1 == 0x4000_0000_0000_0103u64,
        0x8000_0000_0000_0003u64 & !0xc000_0000_0000_01ffu64 == 0,
        0x8000_0000_0000_0001u64 & !0xc000_0000_0000_01ffu64 == 0,
        3u64 & !0xc000_0000_0000_01ffu64 == 0,
        1u64 & !0xc000_0000_0000_01ffu64 == 0,
        0x8000_0000_0000_0003u64 & 2 == 2,
        0x8000_0000_0000_0001u64 & 2 == 0,
        3u64 & 2 == 2,
        1u64 & 2 == 0,
        0x8000_0000_0000_0003u64 & 0x8000_0000_0000_0000 == 0x8000_0000_0000_0000u64,
        0x8000_0000_0000_0001u64 & 0x8000_0000_0000_0000 == 0x8000_0000_0000_0000u64,
        3u64 & 0x8000_0000_0000_0000 == 0,
        1u64 & 0x8000_0000_0000_0000 == 0,
        0x8000_0000_0000_0003u64 & !0x8000_0000_0000_0003u64 == 0,
        0x8000_0000_0000_0001u64 & !0x8000_0000_0000_0003u64 == 0,
        3u64 & !0x8000_0000_0000_0003u64 == 0,
        1u64 & !0x8000_0000_0000_0003u64 == 0,
        1u64 | 2u64 | 0x8000_0000_0000_0000u64 == 0x8000_0000_0000_0003u64,
{
}

/// A page held by a mapped section that no later mapped section holds gets
/// that section's leaf flags.
proof fn lemma_kernel_page_flags_last(sections: Seq<KernelSection>, n: int, s: int, p: int)
    requires
        0 <= s < n <= sections.len(),
        maps_section(sections[s]),
        section_page(sections[s], p),
        forall|j: int|
            s < j < n ==> !(maps_section(#[trigger] sections[j]) && section_page(sections[j], p)),
    ensures
        kernel_page_flags(sections, n, p) == Some(section_leaf_flags(sections[s])),
    decreases n,
{
    if s < n - 1 {
        assert(!(maps_section(sections[n - 1]) && section_page(sections[n - 1], p)));
        lemma_kernel_page_flags_last(sections, n - 1, s, p);
    }
}

/// The leaf flags of a kernel section are `PRESENT`, plus `WRITABLE`
/// exactly when the section is writable, plus `EXECUTE_DISABLE` exactly when
/// it is not executable, and no other bit.
pub proof fn lemma_section_leaf_flags(s: KernelSection)
    ensures
        section_leaf_flags(s) & PageTableFlags::PRESENT == PageTableFlags::PRESENT,
        (section_leaf_flags(s) & PageTableFlags::WRITABLE == PageTableFlags::WRITABLE)
            == s.writable,
        (section_leaf_flags(s) & PageTableFlags::EXECUTE_DISABLE
            == PageTableFlags::EXECUTE_DISABLE) == !s.executable,
        section_leaf_flags(s) & !(PageTableFlags::PRESENT | PageTableFlags::WRITABLE
            | PageTableFlags::EXECUTE_DISABLE) == 0,
{
    lemma_template_flags();
}

/// The flags a page gets from the kernel's sections are those of the last
/// mapped section that holds it: present, writable exactly when that section
/// is, not executable exactly when it is not.
pub proof fn lemma_kernel_page_flags_from_last_section(
    sections: Seq<KernelSection>,
    n: int,
    p: int,
    f: u64,
)
    requires
        n <= sections.len(),
        kernel_page_flags(sections, n, p) == Some(f),
    ensures
        exists|i: int|
            {
                &&& 0 <= i < n
                &&& maps_section(#[trigger] sections[i])
                &&& section_page(sections[i], p)
                &&& forall|j: int|
                    i < j < n ==> !(maps_section(#[trigger] sections[j]) && section_page(
                        sections[j],
                        p,
                    ))
                &&& (f & PageTableFlags::WRITABLE == PageTableFlags::WRITABLE)
                    == sections[i].writable
                &&& (f & PageTableFlags::EXECUTE_DISABLE == PageTableFlags::EXECUTE_DISABLE)
                    == !sections[i].executable
                &&& f & PageTableFlags::PRESENT == PageTableFlags::PRESENT
            },
    decreases n,
{
    if maps_section(sections[n - 1]) && section_page(sections[n - 1], p) {
        lemma_section_leaf_flags(sections[n - 1]);
        assert(sections[n - 1] == sections[n - 1]);
    } else {
        lemma_kernel_page_flags_from_last_section(sections, n - 1, p, f);
        let i = choose|i: int|
            {
                &&& 0 <= i < n - 1
                &&& maps_section(#[trigger] sections[i])
                &&& section_page(sections[i], p)
                &&& forall|j: int|
                    i < j < n - 1 ==> !(maps_section(#[trigger] sections[j]) && section_page(
                        sections[j],
                        p,
                    ))
                &&& (f & PageTableFlags::WRITABLE == PageTableFlags::WRITABLE)
                    == sections[i].writable
                &&& (f & PageTableFlags::EXECUTE_DISABLE == PageTableFlags::EXECUTE_DISABLE)
                    == !sections[i].executable
                &&& f & PageTableFlags::PRESENT == PageTableFlags::PRESENT
            };
        assert(sections[i] == sections[i]);
    }
}

/// How many 4 KiB frames the memory-map entry `e` touches.
pub open spec fn entry_pages(e: MapEntry) -> nat {
    ((e.extent.end() - 1) / 4096 - e.extent.start() / 4096 + 1) as nat
}

/// How many frames the entries of `entries` from the `k`-th on touch,
/// counted once per entry.
pub open spec fn window_pages(entries: Seq<MapEntry>, k: int) -> nat
    decreases entries.len() - k,
{
    if 0 <= k < entries.len() {
        entry_pages(entries[k]) + window_pages(entries, k + 1)
    } else {
        0
    }
}

/// How many pages of section `s` the template maps: all it holds if it is
/// mapped, none otherwise.
pub open spec fn section_pages(s: KernelSection) -> nat {
    if maps_section(s) && s.extent.length@ != 0 {
        ((align_down_spec(s.extent.end() - 1, 4096) - align_down_spec(s.extent.start(), 4096))
            / 4096 + 1) as nat
    } else {
        0
    }
}

/// How many pages the sections of `sections` from the `k`-th on map.
pub open spec fn sections_pages(sections: Seq<KernelSection>, k: int) -> nat
    decreases sections.len() - k,
{
    if 0 <= k < sections.len() {
        section_pages(sections[k]) + sections_pages(sections, k + 1)
    } else {
        0
    }
}

/// The most tables the template over `entries` and `sections` can need:
/// three for each 4 KiB page it maps, the physical-memory window's, the
/// first MiB's 256 and the kernel sections'.
pub open spec fn template_table_budget(entries: Seq<MapEntry>, sections: Seq<KernelSection>) -> int {
    3 * (window_pages(entries, 0) + 256 + sections_pages(sections, 0)) as int
}

/// Every parent entry that can be reached from the root, at level 4, 3 or 2,
/// and is present carries exactly the template's parent flags.
pub open spec fn parents_flagged(root: Seq<u64>, tables: Map<u64, Seq<u64>>) -> bool {
    forall|q: u64, lv: int|
        2 <= lv <= 4 && is_present(#[trigger] path_entry(root, tables, q, lv)) ==> entry_flags(
            path_entry(root, tables, q, lv),
        ) == TEMPLATE_PARENT_FLAGS
}

/// The template being built is a proper tree with no huge-page leaf, whose
/// parent entries carry the template's parent flags.
pub open spec fn building<S: TableStore>(m: Mapper<S>) -> bool {
    &&& m.tree_ok()
    &&& no_huge_pages(m.root(), m.tables())
    &&& parents_flagged(m.root(), m.tables())
}

/// Map the 4 KiB page at `page` to `frame` with `leaf` and the template's
/// parent flags.
fn map_page<S: TableStore>(
    mapper: &mut Mapper<S>,
    page: Page,
    frame: Frame,
    leaf: PageTableFlags,
) -> (r: Result<(), TemplateError>)
    requires
        building(*old(mapper)),
        frame@ < MAX_PHYS_ADDR,
        leaf@ & 1 == 1,
    ensures
        r is Ok ==> {
            &&& building(*final(mapper))
            &&& map_step(
                old(mapper).root(),
                old(mapper).tables(),
                final(mapper).root(),
                final(mapper).tables(),
                page@,
                leaf_entry(frame@, leaf@),
            )
        },
        r is Err ==> r == Err::<(), TemplateError>(TemplateError::Paging(MapError::FrameAllocationFailed))
            && old(mapper).store_capacity() < 3,
        old(mapper).store_capacity() >= 3 ==> r is Ok,
        r is Ok ==> final(mapper).store_capacity() + 3 >= old(mapper).store_capacity(),
        final(mapper).store_capacity() <= old(mapper).store_capacity(),
{
    proof {
        lemma_template_flags();
        lemma_no_huge_path(mapper.root(), mapper.tables(), page@);
    }
    let parent = PageTableFlags::from_bits_truncate(TEMPLATE_PARENT_FLAGS);
    let ghost root0 = mapper.root();
    let ghost tables0 = mapper.tables();
    match mapper.map(page, frame, leaf, parent, PageTableFlags::all()) {
        Ok(()) => {
            proof {
                lemma_no_huge_kept(
                    root0,
                    tables0,
                    mapper.root(),
                    mapper.tables(),
                    page@,
                    leaf_entry(frame@, leaf@),
                );
                let root1 = mapper.root();
                let tables1 = mapper.tables();
                assert forall|q: u64, lv: int|
                    2 <= lv <= 4 && is_present(#[trigger] path_entry(root1, tables1, q, lv))
                        implies entry_flags(path_entry(root1, tables1, q, lv))
                        == TEMPLATE_PARENT_FLAGS by {
                    if same_path_entry(q, page@, lv) {
                        assert(path_entry(root1, tables1, q, lv) == path_entry(root1, tables1, page@, lv));
                        let before = path_entry(root0, tables0, page@, lv);
                        if is_present(before) {
                            assert(entry_flags(before) == TEMPLATE_PARENT_FLAGS);
                        }
                    } else {
                        assert(path_entry(root1, tables1, q, lv) == path_entry(root0, tables0, q, lv));
                    }
                }
            }
            Ok(())
        },
        Err(e) => Err(TemplateError::Paging(e)),
    }
}

/// Map every frame that an entry of the memory map touches into the
/// physical-memory window, in map order.
fn map_phys_window<S: TableStore>(mapper: &mut Mapper<S>, entries: &[MapEntry]) -> (r: Result<
    (),
    TemplateError,
>)
    requires
        building(*old(mapper)),
        forall|k: int|
            0 <= k < entries@.len() ==> (#[trigger] entries@[k]).extent.length@ != 0
                && entries@[k].extent.end() <= u64_max(),
    ensures
        r is Ok ==> {
            &&& building(*final(mapper))
            &&& forall|k: int, i: int|
                0 <= k < entries@.len() && #[trigger] touches(entries@[k], i) ==> phys_mapped(
                    final(mapper).root(),
                    final(mapper).tables(),
                    i,
                )
        },
        final(mapper).store_capacity() <= old(mapper).store_capacity(),
        r is Ok ==> old(mapper).store_capacity() - final(mapper).store_capacity() <= 3
            * window_pages(entries@, 0),
        r matches Err(e) ==> {
            ||| e == TemplateError::Paging(MapError::FrameAllocationFailed)
                && old(mapper).store_capacity() < 3 * window_pages(entries@, 0)
            ||| e is MemoryBeyondLimit && exists|k: int|
                0 <= k < entries@.len() && (#[trigger] entries@[k]).extent.end() > MAX_MEMORY
        },
{
    let ghost cap0 = mapper.store_capacity();
    let ghost total = window_pages(entries@, 0);
    let mut k: usize = 0;
    while k < entries.len()
        invariant
            k <= entries@.len(),
            building(*mapper),
            cap0 == old(mapper).store_capacity(),
            total == window_pages(entries@, 0),
            window_pages(entries@, k as int) <= total,
            mapper.store_capacity() <= cap0,
            cap0 - mapper.store_capacity() <= 3 * (total - window_pages(entries@, k as int)),
            forall|k: int|
                0 <= k < entries@.len() ==> (#[trigger] entries@[k]).extent.length@ != 0
                    && entries@[k].extent.end() <= u64_max(),
            forall|k2: int, i: int|
                0 <= k2 < k && #[trigger] touches(entries@[k2], i) ==> phys_mapped(
                    mapper.root(),
                    mapper.tables(),
                    i,
                ),
        decreases entries@.len() - k,
    {
        let e = entries[k].extent;
        proof {
            crate::memory::addr::lemma_align_down_bounds(e.start(), 4096);
            crate::memory::addr::lemma_align_down_bounds(e.end() - 1, 4096);
            crate::memory::addr::lemma_align_down_is_greatest(
                e.end() - 1,
                4096,
                align_down_spec(e.start(), 4096),
            );
        }
        let frames = crate::memory::page::FrameRange::containing_extent(e);
        let first = frames.first().index();
        let count = frames.count();
        assert(first == e.start() / 4096 && first + count - 1 == (e.end() - 1) / 4096) by {
            vstd::arithmetic::div_mod::lemma_fundamental_div_mod(e.start(), 4096);
            vstd::arithmetic::div_mod::lemma_fundamental_div_mod(e.end() - 1, 4096);
        }
        assert(window_pages(entries@, k as int) == count + window_pages(entries@, k + 1));
        let mut j: u64 = 0;
        while j < count
            invariant
                k < entries@.len(),
                e == entries@[k as int].extent,
                first == e.start() / 4096,
                first + count - 1 == (e.end() - 1) / 4096,
                j <= count,
                building(*mapper),
                cap0 == old(mapper).store_capacity(),
                total == window_pages(entries@, 0),
                window_pages(entries@, k as int) == count + window_pages(entries@, k + 1),
                window_pages(entries@, k as int) <= total,
                mapper.store_capacity() <= cap0,
                cap0 - mapper.store_capacity() <= 3 * (total - window_pages(entries@, k as int) + j),
                forall|k2: int, i: int|
                    0 <= k2 < k && #[trigger] touches(entries@[k2], i) ==> phys_mapped(
                        mapper.root(),
                        mapper.tables(),
                        i,
                    ),
                forall|i: int|
                    first <= i < first + j ==> #[trigger] phys_mapped(
                        mapper.root(),
                        mapper.tables(),
                        i,
                    ),
            decreases count - j,
        {
            let i = first + j;
            if i >= MAX_MEMORY / 4096 {
                proof {
                    assert(touches(entries@[k as int], i as int));
                    assert(e.end() > MAX_MEMORY);
                }
                return Err(TemplateError::MemoryBeyondLimit);
            }
            let frame = Frame::new(PhysAddress::from_raw(i * 4096));
            let virt = phys_to_virt(frame.start());
            let page = Page::new(virt);
            let leaf = PageTableFlags::from_bits_truncate(WINDOW_LEAF_FLAGS);
            proof {
                lemma_template_flags();
            }
            let ghost root0 = mapper.root();
            let ghost tables0 = mapper.tables();
            match map_page(mapper, page, frame, leaf) {
                Ok(()) => {},
                Err(err) => {
                    return Err(err);
                },
            }
            proof {
                let root1 = mapper.root();
                let tables1 = mapper.tables();
                assert(page@ == phys_page(i as int));
                lemma_facts_kept(root0, tables0, root1, tables1, page@, leaf_entry(frame@, leaf@), 0);
                assert(phys_mapped(root1, tables1, i as int));
                assert forall|i2: int| #[trigger] phys_mapped(root0, tables0, i2) implies phys_mapped(
                    root1,
                    tables1,
                    i2,
                ) by {
                    if phys_page(i2) == page@ {
                        assert(i2 == i);
                    }
                }
                assert forall|i2: int| first <= i2 < first + j + 1 implies #[trigger] phys_mapped(
                    root1,
                    tables1,
                    i2,
                ) by {
                    if i2 < first + j {
                        assert(phys_mapped(root0, tables0, i2));
                    }
                }
            }
            j = j + 1;
        }
        proof {
            assert forall|k2: int, i: int|
                0 <= k2 < k + 1 && #[trigger] touches(entries@[k2], i) implies phys_mapped(
                    mapper.root(),
                    mapper.tables(),
                    i,
                ) by {
                if k2 == k {
                    assert(first <= i < first + count);
                }
            }
        }
        k = k + 1;
    }
    Ok(())
}

/// Identity map the first MiB.
fn map_first_mib<S: TableStore>(mapper: &mut Mapper<S>) -> (r: Result<(), TemplateError>)
    requires
        building(*old(mapper)),
    ensures
        r is Ok ==> {
            &&& building(*final(mapper))
            &&& forall|i: int|
                #[trigger] phys_mapped(old(mapper).root(), old(mapper).tables(), i) ==> phys_mapped(
                    final(mapper).root(),
                    final(mapper).tables(),
                    i,
                )
            &&& forall|p: int|
                0 <= p < 0x10_0000 && p % 4096 == 0 ==> #[trigger] ident_mapped(
                    final(mapper).root(),
                    final(mapper).tables(),
                    p,
                )
        },
        final(mapper).store_capacity() <= old(mapper).store_capacity(),
        r is Ok ==> old(mapper).store_capacity() - final(mapper).store_capacity() <= 3 * 256,
        r is Err ==> r == Err::<(), TemplateError>(TemplateError::Paging(MapError::FrameAllocationFailed))
            && old(mapper).store_capacity() < 3 * 256,
{
    let ghost root_start = mapper.root();
    let ghost tables_start = mapper.tables();
    let ghost cap0 = mapper.store_capacity();
    let pages = PageRange::containing_extent(VirtualMap::first_mib());
    let first = pages.first();
    let count = pages.count();
    assert(first@ == 0 && count == 256) by {
        assert(align_down_spec(0xfffff, 4096) == 0xff000);
        assert(align_down_spec(0, 4096) == 0);
    }
    let mut j: u64 = 0;
    while j < count
        invariant
            count == 256,
            j <= count,
            building(*mapper),
            cap0 == old(mapper).store_capacity(),
            mapper.store_capacity() <= cap0,
            cap0 - mapper.store_capacity() <= 3 * j,
            forall|i: int|
                #[trigger] phys_mapped(root_start, tables_start, i) ==> phys_mapped(
                    mapper.root(),
                    mapper.tables(),
                    i,
                ),
            forall|p: int|
                0 <= p < 4096 * j && p % 4096 == 0 ==> #[trigger] ident_mapped(
                    mapper.root(),
                    mapper.tables(),
                    p,
                ),
        decreases count - j,
    {
        let addr = j * 4096;
        let page = Page::new(VirtAddress::from_raw(addr));
        let frame = Frame::new(PhysAddress::from_raw(addr));
        let leaf = PageTableFlags::from_bits_truncate(WINDOW_LEAF_FLAGS);
        proof {
            lemma_template_flags();
        }
        let ghost root0 = mapper.root();
        let ghost tables0 = mapper.tables();
        match map_page(mapper, page, frame, leaf) {
            Ok(()) => {},
            Err(err) => {
                return Err(err);
            },
        }
        proof {
            let root1 = mapper.root();
            let tables1 = mapper.tables();
            lemma_facts_kept(root0, tables0, root1, tables1, page@, leaf_entry(frame@, leaf@), 0);
            assert(ident_mapped(root1, tables1, addr as int));
            assert forall|i: int| #[trigger] phys_mapped(root_start, tables_start, i) implies phys_mapped(
                root1,
                tables1,
                i,
            ) by {
                assert(phys_mapped(root0, tables0, i));
                assert(phys_page(i) != page@);
            }
            assert forall|p: int|
                0 <= p < 4096 * (j + 1) && p % 4096 == 0 implies #[trigger] ident_mapped(
                    root1,
                    tables1,
                    p,
                ) by {
                if p < 4096 * j {
                    assert(ident_mapped(root0, tables0, p));
                }
            }
        }
        j = j + 1;
    }
    Ok(())
}

/// Map the kernel image's sections: those that occupy memory and are not
/// for early boot must lie in the kernel image's range; those that hold
/// program or uninitialized data get their pages mapped to the frames at
/// `kernel_virt_base` below, with leaf flags from their own flags.
fn map_kernel_sections<S: TableStore>(
    mapper: &mut Mapper<S>,
    sections: &[KernelSection],
    kernel_virt_base: VirtAddress,
) -> (r: Result<(), TemplateError>)
    requires
        building(*old(mapper)),
    ensures
        r is Ok ==> {
            &&& building(*final(mapper))
            &&& forall|i: int|
                #[trigger] phys_mapped(old(mapper).root(), old(mapper).tables(), i) ==> phys_mapped(
                    final(mapper).root(),
                    final(mapper).tables(),
                    i,
                )
            &&& forall|p: int|
                #[trigger] ident_mapped(old(mapper).root(), old(mapper).tables(), p) ==> ident_mapped(
                    final(mapper).root(),
                    final(mapper).tables(),
                    p,
                )
            &&& forall|p: int|
                #[trigger] kernel_page_flags(sections@, sections@.len() as int, p) matches Some(f)
                    ==> kernel_mapped(
                    final(mapper).root(),
                    final(mapper).tables(),
                    kernel_virt_base@ as int,
                    p,
                    f,
                )
        },
        final(mapper).store_capacity() <= old(mapper).store_capacity(),
        r is Ok ==> old(mapper).store_capacity() - final(mapper).store_capacity() <= 3
            * sections_pages(sections@, 0),
        r matches Err(e) ==> {
            ||| e == TemplateError::Paging(MapError::FrameAllocationFailed)
                && old(mapper).store_capacity() < 3 * sections_pages(sections@, 0)
            ||| e is SectionOutsideKernelImage && exists|s: int|
                0 <= s < sections@.len() && (#[trigger] sections@[s]).allocated
                    && !sections@[s].bootstrap && !in_kernel_image(sections@[s].extent)
            ||| e is WritableAndExecutable && exists|s: int|
                0 <= s < sections@.len() && maps_section(#[trigger] sections@[s])
                    && sections@[s].writable && sections@[s].executable
            ||| e is SectionNotMappable && exists|s: int|
                0 <= s < sections@.len() && maps_section(#[trigger] sections@[s]) && !pages_mappable(
                    sections@[s],
                    kernel_virt_base@ as int,
                )
        },
{
    let ghost root_start = mapper.root();
    let ghost tables_start = mapper.tables();
    let ghost base = kernel_virt_base@ as int;
    let ghost cap0 = mapper.store_capacity();
    let ghost total = sections_pages(sections@, 0);
    let mut s: usize = 0;
    while s < sections.len()
        invariant
            s <= sections@.len(),
            base == kernel_virt_base@,
            building(*mapper),
            cap0 == old(mapper).store_capacity(),
            total == sections_pages(sections@, 0),
            sections_pages(sections@, s as int) <= total,
            mapper.store_capacity() <= cap0,
            cap0 - mapper.store_capacity() <= 3 * (total - sections_pages(sections@, s as int)),
            forall|i: int|
                #[trigger] phys_mapped(root_start, tables_start, i) ==> phys_mapped(
                    mapper.root(),
                    mapper.tables(),
                    i,
                ),
            forall|p: int|
                #[trigger] ident_mapped(root_start, tables_start, p) ==> ident_mapped(
                    mapper.root(),
                    mapper.tables(),
                    p,
                ),
            forall|p: int|
                #[trigger] kernel_page_flags(sections@, s as int, p) is Some ==> kernel_mapped(
                    mapper.root(),
                    mapper.tables(),
                    base,
                    p,
                    kernel_page_flags(sections@, s as int, p)->0,
                ),
        decreases sections@.len() - s,
    {
        let section = sections[s];
        let ghost sec = sections@[s as int];
        if !section.allocated || section.bootstrap {
            proof {
                assert forall|p: int| #[trigger]
                    kernel_page_flags(sections@, s + 1, p) is Some implies kernel_mapped(
                    mapper.root(),
                    mapper.tables(),
                    base,
                    p,
                    kernel_page_flags(sections@, s + 1, p)->0,
                ) by {
                    assert(kernel_page_flags(sections@, s + 1, p) == kernel_page_flags(
                        sections@,
                        s as int,
                        p,
                    ));
                }
            }
            s = s + 1;
            continue ;
        }
        if !VirtualMap::kernel_image().contains(section.extent) {
            return Err(TemplateError::SectionOutsideKernelImage);
        }
        if !section.loaded {
            proof {
                assert forall|p: int| #[trigger]
                    kernel_page_flags(sections@, s + 1, p) is Some implies kernel_mapped(
                    mapper.root(),
                    mapper.tables(),
                    base,
                    p,
                    kernel_page_flags(sections@, s + 1, p)->0,
                ) by {
                    assert(kernel_page_flags(sections@, s + 1, p) == kernel_page_flags(
                        sections@,
                        s as int,
                        p,
                    ));
                }
            }
            s = s + 1;
            continue ;
        }
        let bits: u64 = if section.writable {
            if section.executable {
                return Err(TemplateError::WritableAndExecutable);
            }
            0x8000_0000_0000_0003
        } else if section.executable {
            1
        } else {
            0x8000_0000_0000_0001
        };
        let ext = section.extent;
        let len = ext.length().as_raw();
        proof {
            crate::memory::addr::lemma_common_alignments();
        }
        if len == 0 || ext.address().as_raw() > u64::MAX - len
            || !kernel_virt_base.is_aligned_to(4096) {
            return Err(TemplateError::SectionNotMappable);
        }
        proof {
            crate::memory::addr::lemma_common_alignments();
            crate::memory::addr::lemma_align_down_bounds(ext.start(), 4096);
            crate::memory::addr::lemma_align_down_bounds(ext.end() - 1, 4096);
            crate::memory::addr::lemma_align_down_is_greatest(
                ext.end() - 1,
                4096,
                align_down_spec(ext.start(), 4096),
            );
        }
        let pages = PageRange::containing_extent(ext);
        let first = pages.first();
        let count = pages.count();
        let last_start = first.start().as_raw() + 4096 * (count - 1);
        if first.start().as_raw() < kernel_virt_base.as_raw()
            || last_start - kernel_virt_base.as_raw() >= MAX_PHYS_ADDR {
            return Err(TemplateError::SectionNotMappable);
        }
        let leaf = PageTableFlags::from_bits_truncate(bits);
        proof {
            lemma_template_flags();
            assert(bits == section_leaf_flags(sec));
        }
        let ghost lo = first@ as int;
        assert(sections_pages(sections@, s as int) == count + sections_pages(sections@, s + 1)) by {
            assert(section_pages(sec) == count) by {
                vstd::arithmetic::div_mod::lemma_div_multiples_vanish(count - 1, 4096);
            }
        }
        let mut j: u64 = 0;
        while j < count
            invariant
                s < sections@.len(),
                sec == sections@[s as int],
                maps_section(sec),
                in_kernel_image(sec.extent),
                base == kernel_virt_base@,
                base % 4096 == 0,
                lo == align_down_spec(sec.extent.start(), 4096),
                lo == first@,
                lo + 4096 * (count - 1) == align_down_spec(sec.extent.end() - 1, 4096),
                lo + 4096 * (count - 1) <= u64_max(),
                lo % 4096 == 0,
                lo >= base,
                lo + 4096 * (count - 1) - base < MAX_PHYS_ADDR,
                leaf@ == bits,
                bits & 1 == 1,
                bits & !PAGE_TABLE_FLAG_BITS == 0,
                j <= count,
                building(*mapper),
                cap0 == old(mapper).store_capacity(),
                total == sections_pages(sections@, 0),
                sections_pages(sections@, s as int) == count + sections_pages(sections@, s + 1),
                sections_pages(sections@, s as int) <= total,
                mapper.store_capacity() <= cap0,
                cap0 - mapper.store_capacity() <= 3 * (total - sections_pages(sections@, s as int)
                    + j),
                forall|i: int|
                    #[trigger] phys_mapped(root_start, tables_start, i) ==> phys_mapped(
                        mapper.root(),
                        mapper.tables(),
                        i,
                    ),
                forall|p: int|
                    #[trigger] ident_mapped(root_start, tables_start, p) ==> ident_mapped(
                        mapper.root(),
                        mapper.tables(),
                        p,
                    ),
                forall|p: int|
                    #[trigger] kernel_page_flags(sections@, s as int, p) is Some && !(lo <= p < lo
                        + 4096 * j && p % 4096 == 0) ==> kernel_mapped(
                        mapper.root(),
                        mapper.tables(),
                        base,
                        p,
                        kernel_page_flags(sections@, s as int, p)->0,
                    ),
                forall|p: int|
                    lo <= p < lo + 4096 * j && p % 4096 == 0 ==> #[trigger] kernel_mapped(
                        mapper.root(),
                        mapper.tables(),
                        base,
                        p,
                        bits,
                    ),
            decreases count - j,
        {
            let addr = first.start().as_raw() + 4096 * j;
            let page = Page::new(VirtAddress::from_raw(addr));
            let frame = Frame::new(PhysAddress::from_raw(addr - kernel_virt_base.as_raw()));
            let ghost root0 = mapper.root();
            let ghost tables0 = mapper.tables();
            match map_page(mapper, page, frame, leaf) {
                Ok(()) => {},
                Err(err) => {
                    return Err(err);
                },
            }
            proof {
                let root1 = mapper.root();
                let tables1 = mapper.tables();
                lemma_leaf_entry(frame@, leaf@);
                lemma_facts_kept(root0, tables0, root1, tables1, page@, leaf_entry(frame@, leaf@), base);
                assert(kernel_mapped(root1, tables1, base, addr as int, bits));
                assert forall|i: int| #[trigger] phys_mapped(root_start, tables_start, i) implies phys_mapped(
                    root1,
                    tables1,
                    i,
                ) by {
                    assert(phys_mapped(root0, tables0, i));
                    assert(phys_page(i) != page@);
                }
                assert forall|p: int| #[trigger] ident_mapped(root_start, tables_start, p) implies ident_mapped(
                    root1,
                    tables1,
                    p,
                ) by {
                    assert(ident_mapped(root0, tables0, p));
                }
                assert forall|p: int|
                    #[trigger] kernel_page_flags(sections@, s as int, p) is Some && !(lo <= p < lo
                        + 4096 * (j + 1) && p % 4096 == 0) implies kernel_mapped(
                    root1,
                    tables1,
                    base,
                    p,
                    kernel_page_flags(sections@, s as int, p)->0,
                ) by {
                    let f = kernel_page_flags(sections@, s as int, p)->0;
                    assert(kernel_mapped(root0, tables0, base, p, f));
                }
                assert forall|p: int|
                    lo <= p < lo + 4096 * (j + 1) && p % 4096 == 0 implies #[trigger] kernel_mapped(
                        root1,
                        tables1,
                        base,
                        p,
                        bits,
                    ) by {
                    if p < lo + 4096 * j {
                        assert(kernel_mapped(root0, tables0, base, p, bits));
                    }
                }
            }
            j = j + 1;
        }
        proof {
            assert forall|p: int| #[trigger]
                kernel_page_flags(sections@, s + 1, p) is Some implies kernel_mapped(
                mapper.root(),
                mapper.tables(),
                base,
                p,
                kernel_page_flags(sections@, s + 1, p)->0,
            ) by {
                if section_page(sec, p) {
                    assert(lo <= p < lo + 4096 * count);
                } else {
                    assert(kernel_page_flags(sections@, s + 1, p) == kernel_page_flags(
                        sections@,
                        s as int,
                        p,
                    ));
                }
            }
        }
        s = s + 1;
    }
    Ok(())
}

/// Build the page table every address space starts from, in a fresh
/// `store`: every frame that an entry of `memory_map` touches is mapped into
/// the physical-memory window (present, writable, not executable), the first
/// MiB is identity mapped the same way, and each section of the kernel image
/// that occupies memory, is not for early boot and holds program or
/// uninitialized data has its pages mapped to the frames `kernel_virt_base`
/// below them, present, writable if the section is, executable only if it
/// is; where sections share a page, the last of them decides its flags. All
/// parent entries are present, writable, global and frozen: they carry
/// exactly `TEMPLATE_PARENT_FLAGS`.
///
/// It fails only for a memory map that reaches beyond `MAX_MEMORY`, for a
/// section that is out of place, writable and executable, or has no frames
/// to map to, and with `Paging(FrameAllocationFailed)` when `store` runs out
/// of tables: with room for `template_table_budget` of them it never does.
pub fn create_page_table_template<S: TableStore>(
    store: S,
    memory_map: &MemoryMap,
    sections: &[KernelSection],
    kernel_virt_base: VirtAddress,
) -> (r: Result<Mapper<S>, TemplateError>)
    requires
        store.tables() == Map::<u64, Seq<u64>>::empty(),
        forall|k: int|
            0 <= k < memory_map@.len() ==> (#[trigger] memory_map@[k]).extent.length@ != 0
                && memory_map@[k].extent.end() <= u64_max(),
    ensures
        r matches Ok(m) ==> {
            &&& m.tree_ok()
            &&& parents_flagged(m.root(), m.tables())
            &&& forall|k: int, i: int|
                0 <= k < memory_map@.len() && #[trigger] touches(memory_map@[k], i) ==> phys_mapped(
                    m.root(),
                    m.tables(),
                    i,
                )
            &&& forall|p: int|
                0 <= p < 0x10_0000 && p % 4096 == 0 ==> #[trigger] ident_mapped(m.root(), m.tables(), p)
            &&& forall|p: int|
                #[trigger] kernel_page_flags(sections@, sections@.len() as int, p) matches Some(f)
                    ==> kernel_mapped(m.root(), m.tables(), kernel_virt_base@ as int, p, f)
            &&& forall|s: int, p: int|
                0 <= s < sections@.len() && maps_section(sections@[s]) && #[trigger] section_page(
                    sections@[s],
                    p,
                ) ==> kernel_page_flags(sections@, sections@.len() as int, p) is Some
            &&& forall|s: int, p: int|
                0 <= s < sections@.len() && maps_section(sections@[s]) && #[trigger] section_page(
                    sections@[s],
                    p,
                ) && (forall|j: int|
                    s < j < sections@.len() ==> !(maps_section(#[trigger] sections@[j])
                        && section_page(sections@[j], p))) ==> kernel_mapped(
                    m.root(),
                    m.tables(),
                    kernel_virt_base@ as int,
                    p,
                    section_leaf_flags(sections@[s]),
                )
        },
        r matches Err(e) ==> {
            ||| e == TemplateError::Paging(MapError::FrameAllocationFailed) && store.capacity()
                < template_table_budget(memory_map@, sections@)
            ||| e is MemoryBeyondLimit && exists|k: int|
                0 <= k < memory_map@.len() && (#[trigger] memory_map@[k]).extent.end() > MAX_MEMORY
            ||| e is SectionOutsideKernelImage && exists|s: int|
                0 <= s < sections@.len() && (#[trigger] sections@[s]).allocated
                    && !sections@[s].bootstrap && !in_kernel_image(sections@[s].extent)
            ||| e is WritableAndExecutable && exists|s: int|
                0 <= s < sections@.len() && maps_section(#[trigger] sections@[s])
                    && sections@[s].writable && sections@[s].executable
            ||| e is SectionNotMappable && exists|s: int|
                0 <= s < sections@.len() && maps_section(#[trigger] sections@[s]) && !pages_mappable(
                    sections@[s],
                    kernel_virt_base@ as int,
                )
        },
{
    let mut mapper = Mapper::new_with_store(PageTable::zero(), store);
    proof {
        lemma_empty_tree_ok(zero_table());
        crate::memory::paging::tree::lemma_zero_entry_absent();
        assert forall|i: int| 0 <= i < 512 && is_present(#[trigger] mapper.root()[i]) implies !is_huge(
            mapper.root()[i],
        ) by {
            assert(mapper.root()[i] == 0u64);
        }
        assert forall|v: u64| (#[trigger] walk(mapper.root(), mapper.tables(), v) matches Some((e, size))
            ==> size == 0x1000) by {
            lemma_empty_tree_unmapped(v);
        }
        assert forall|q: u64, lv: int|
            2 <= lv <= 4 && is_present(#[trigger] path_entry(mapper.root(), mapper.tables(), q, lv))
                implies entry_flags(path_entry(mapper.root(), mapper.tables(), q, lv))
                == TEMPLATE_PARENT_FLAGS by {
            lemma_index_bound(q);
            assert(mapper.root()[table_index(q, 39) as int] == 0u64);
        }
    }
    let entries = memory_map.entries();
    match map_phys_window(&mut mapper, entries) {
        Ok(()) => {},
        Err(e) => {
            return Err(e);
        },
    }
    let ghost after_window = mapper;
    match map_first_mib(&mut mapper) {
        Ok(()) => {},
        Err(e) => {
            return Err(e);
        },
    }
    let ghost after_mib = mapper;
    match map_kernel_sections(&mut mapper, sections, kernel_virt_base) {
        Ok(()) => {},
        Err(e) => {
            return Err(e);
        },
    }
    proof {
        assert forall|k: int, i: int|
            0 <= k < memory_map@.len() && #[trigger] touches(memory_map@[k], i) implies phys_mapped(
                mapper.root(),
                mapper.tables(),
                i,
            ) by {
            assert(phys_mapped(after_window.root(), after_window.tables(), i));
            assert(phys_mapped(after_mib.root(), after_mib.tables(), i));
        }
        assert forall|p: int| 0 <= p < 0x10_0000 && p % 4096 == 0 implies #[trigger] ident_mapped(
            mapper.root(),
            mapper.tables(),
            p,
        ) by {
            assert(ident_mapped(after_mib.root(), after_mib.tables(), p));
        }
        assert forall|s: int, p: int|
            0 <= s < sections@.len() && maps_section(sections@[s]) && #[trigger] section_page(
                sections@[s],
                p,
            ) implies kernel_page_flags(sections@, sections@.len() as int, p) is Some by {
            lemma_kernel_page_flags_some(sections@, sections@.len() as int, s, p);
        }
        assert forall|s: int, p: int|
            0 <= s < sections@.len() && maps_section(sections@[s]) && #[trigger] section_page(
                sections@[s],
                p,
            ) && (forall|j: int|
                s < j < sections@.len() ==> !(maps_section(#[trigger] sections@[j])
                    && section_page(sections@[j], p))) implies kernel_mapped(
            mapper.root(),
            mapper.tables(),
            kernel_virt_base@ as int,
            p,
            section_leaf_flags(sections@[s]),
        ) by {
            lemma_kernel_page_flags_last(sections@, sections@.len() as int, s, p);
        }
    }
    Ok(mapper)
}

} // verus!
