//! Memory bookkeeping: page counts, mapping attributes and permissions,
//! addresses, kernel sections and the physical page allocator.
use vstd::prelude::*;
use vstd::string::StringSliceAdditionalSpecFns;

pub mod address;
pub mod address_space;
pub mod map;
pub mod physical_page_allocator;


use crate::arch::mmu::{
    map_ok, map_result, remap_ok, same_tables, mapped_as, page_round, perm_bits, same_translation, span, translate,
    unmap_ok, unmapped, unmapped_as, LevelTable, Translation, PAGE_BITS, PAGE_SIZE,
};
use crate::memory::address::{Address, LogicalAddress, PhysicalAddress, VirtualAddress};
use crate::memory::address_space::{
    first_named, has_name, KernelAddressSpace, MemoryRange, RangeView,
};
use crate::collections::intrusive_list::select;
use crate::memory::map::{KernelSection, KERNEL_LOGICAL_BASE, KERNEL_LOGICAL_SIZE, MMIO_BASE, MMIO_SIZE};
use crate::memory::physical_page_allocator::{
    adjacency, contains, disjoint_regions, overlaps, first_overlap, joined_region, range_ok, remainder, PhysicalMemoryRegion,
    PhysicalPageAllocator, RegionView,
};

verus! {

/// Number of pages needed to hold `bytes` bytes.
pub fn num_pages_from_bytes(bytes: usize) -> (pages: usize)
    ensures
        pages == (bytes + PAGE_SIZE - 1) / PAGE_SIZE as int,
{
    assert(bytes & 16383usize == bytes % 16384 && bytes >> 14usize == bytes / 16384)
        by (bit_vector);
    if bytes & (PAGE_SIZE - 1) == 0 {
        bytes >> PAGE_BITS
    } else {
        (bytes >> PAGE_BITS) + 1
    }
}

/// Memory attributes of a mapping, as indices in the attribute register.
#[derive(Clone, Copy, Debug)]
pub enum Attributes {
    Normal,
    DevicenGnRnE,
    DevicenGnRE,
}

/// The attribute register index of `attributes`.
pub open spec fn attributes_index(attributes: Attributes) -> u64 {
    match attributes {
        Attributes::Normal => 0,
        Attributes::DevicenGnRnE => 1,
        Attributes::DevicenGnRE => 2,
    }
}

/// The attributes that `value` decodes to: the inverse of
/// `attributes_index`. The attribute register is set up with device memory
/// without early write acknowledgement (nGnRnE) at index 1 and with it
/// (nGnRE) at index 2, and `Attributes` names the same indices, so index 1
/// decodes to `DevicenGnRnE` and index 2 to `DevicenGnRE`. Decoding the
/// other way round would make reading a descriptor back, and splitting a
/// block that maps device memory, change its memory type.
pub open spec fn attributes_from_index(value: u64) -> Result<Attributes, ()> {
    if value == 0 {
        Ok(Attributes::Normal)
    } else if value == 1 {
        Ok(Attributes::DevicenGnRnE)
    } else if value == 2 {
        Ok(Attributes::DevicenGnRE)
    } else {
        Err(())
    }
}

/// Decoding the index of any attributes gives them back.
pub proof fn law_attributes_roundtrip(attributes: Attributes)
    ensures
        attributes_from_index(attributes_index(attributes)) == Ok::<Attributes, ()>(attributes),
{
}

impl Attributes {
    pub fn index(&self) -> (i: u64)
        ensures
            i == attributes_index(*self),
    {
        match self {
            Attributes::Normal => 0,
            Attributes::DevicenGnRnE => 1,
            Attributes::DevicenGnRE => 2,
        }
    }

    pub fn try_from(value: u64) -> (r: Result<Self, ()>)
        ensures
            r == attributes_from_index(value),
    {
        match value {
            0 => Ok(Attributes::Normal),
            1 => Ok(Attributes::DevicenGnRnE),
            2 => Ok(Attributes::DevicenGnRE),
            _ => Err(()),
        }
    }
}

#[derive(Clone, Copy, Debug, PartialEq, Eq, Structural)]
pub enum Permissions {
    NoAccess,
    RWX,
    RW,
    RX,
    RO,
}

/// Permissions of a mapping for privileged and unprivileged accesses.
#[derive(Clone, Copy, Debug, PartialEq, Eq, Structural)]
pub struct GlobalPermissions {
    pub unprivileged: Permissions,
    pub privileged: Permissions,
}

/// The privileged permissions that go with `unprivileged` ones for a
/// process mapping: the kernel may not execute process memory.
pub open spec fn privileged_for_process(unprivileged: Permissions) -> Permissions {
    match unprivileged {
        Permissions::RWX => Permissions::RW,
        Permissions::RX => Permissions::RO,
        perm => perm,
    }
}

impl GlobalPermissions {
    pub fn new_only_privileged(privileged: Permissions) -> (p: Self)
        ensures
            p.privileged == privileged,
            p.unprivileged == Permissions::NoAccess,
    {
        Self { unprivileged: Permissions::NoAccess, privileged }
    }

    pub fn new_for_process(unprivileged: Permissions) -> (p: Self)
        ensures
            p.unprivileged == unprivileged,
            p.privileged == privileged_for_process(unprivileged),
    {
        Self {
            unprivileged,
            privileged: match unprivileged {
                Permissions::RWX => Permissions::RW,
                Permissions::RX => Permissions::RO,
                perm => perm,
            },
        }
    }
}


#[derive(Debug)]
pub enum Error {
    ArchitectureSpecific(crate::arch::mmu::Error),
    AddressSpaceError(address_space::Error),
    PageAllocationError(physical_page_allocator::Error),
    TranslationError,
}

/// Whether a range can be unmapped from the table: page aligned and small
/// enough that rounding it up to whole pages stays in the address space.
pub open spec fn unmappable(r: RangeView) -> bool {
    &&& r.1 % 0x4000 == 0
    &&& 0 <= r.2 <= usize::MAX
    &&& r.2 + 0x4000 <= u64::MAX
    &&& r.1 + page_round(r.2) <= 0x1_0000_0000_0000_0000
}

/// A mapping as the top-level table sees it: its offset within the table's
/// span, its size rounded up to whole pages, the physical start, the
/// attribute index and the permission bits.
pub type MapView = (int, int, int, u64, u64);

pub open spec fn in_window(m: MapView, o: int) -> bool {
    m.0 <= o < m.0 + m.1
}

/// No two of the mappings share an offset.
pub open spec fn windows_disjoint(ms: Seq<MapView>) -> bool {
    forall|i: int, j: int|
        #![trigger ms[i], ms[j]]
        0 <= i < j < ms.len() ==> ms[i].0 + ms[i].1 <= ms[j].0 || ms[j].0 + ms[j].1 <= ms[i].0
}

/// What offset `o` translates to once the mappings `ms` are made, in order,
/// on top of the table `old`.
pub open spec fn expected_translation(old: LevelTable, ms: Seq<MapView>, o: int) -> Option<
    Translation,
>
    decreases ms.len(),
{
    if ms.len() == 0 {
        translate(old, 0, o)
    } else if in_window(ms.last(), o) {
        Some((ms.last().2 + (o - ms.last().0), ms.last().3, ms.last().4))
    } else {
        expected_translation(old, ms.drop_last(), o)
    }
}

/// `new` translates as `old` with the mappings `ms` made on top.
pub open spec fn maps_all(new: LevelTable, old: LevelTable, ms: Seq<MapView>) -> bool {
    forall|o: int| #![trigger translate(new, 0, o)] translate(new, 0, o) == expected_translation(old, ms, o)
}

proof fn lemma_outside_windows(old: LevelTable, ms: Seq<MapView>, o: int)
    requires
        forall|i: int| 0 <= i < ms.len() ==> !in_window(#[trigger] ms[i], o),
    ensures
        expected_translation(old, ms, o) == translate(old, 0, o),
    decreases ms.len(),
{
    if ms.len() > 0 {
        assert(!in_window(ms[ms.len() - 1], o));
        let rest = ms.drop_last();
        assert forall|i: int| 0 <= i < rest.len() implies !in_window(#[trigger] rest[i], o) by {
            assert(rest[i] == ms[i]);
        }
        lemma_outside_windows(old, rest, o);
    }
}

/// Making one more mapping on top of a table that had the first ones.
proof fn lemma_map_step(cur: LevelTable, new: LevelTable, old: LevelTable, ms: Seq<MapView>, m: MapView)
    requires
        maps_all(cur, old, ms),
        mapped_as(new, cur, 0, m.0, m.1, m.2, m.3, m.4),
    ensures
        maps_all(new, old, ms.push(m)),
{
    reveal(mapped_as);
    assert(ms.push(m).drop_last() =~= ms);
    assert forall|o: int| #![trigger translate(new, 0, o)] translate(new, 0, o) == expected_translation(old, ms.push(m), o) by {
        assert(ms.push(m).last() == m);
        if !in_window(m, o) {
            assert(translate(new, 0, o) == translate(cur, 0, o));
        }
    }
}

/// A range that was unmapped and that none of the mappings made since
/// touches is still unmapped.
proof fn lemma_still_unmapped(cur: LevelTable, old: LevelTable, ms: Seq<MapView>, m: MapView)
    requires
        maps_all(cur, old, ms),
        unmapped(old, 0, m.0, m.1),
        forall|i: int| 0 <= i < ms.len() ==> #[trigger] ms[i].0 + ms[i].1 <= m.0 || m.0 + m.1 <= ms[i].0,
    ensures
        unmapped(cur, 0, m.0, m.1),
{
    reveal(unmapped);
    assert forall|o: int| m.0 <= o < m.0 + m.1 implies #[trigger] translate(cur, 0, o) is None by {
        assert forall|i: int| 0 <= i < ms.len() implies !in_window(#[trigger] ms[i], o) by {
            assert(ms[i].0 + ms[i].1 <= m.0 || m.0 + m.1 <= ms[i].0);
        }
        lemma_outside_windows(old, ms, o);
        assert(translate(cur, 0, o) == expected_translation(old, ms, o));
    }
}

/// The mapping `[va, va + size)` to `pa` makes, as the top table sees it.
pub open spec fn map_view(va: int, pa: int, size: int, attributes: Attributes, permissions: GlobalPermissions) -> MapView {
    (va % span(0), page_round(size), pa, attributes_index(attributes), perm_bits(permissions)->Some_0)
}

/// Where the kernel maps a section: at its logical address.
pub open spec fn section_va(s: KernelSection) -> int {
    s.spec_pa() + KERNEL_LOGICAL_BASE
}

pub open spec fn section_map(s: KernelSection) -> MapView {
    map_view(section_va(s), s.spec_pa() as int, s.spec_size_bytes() as int, Attributes::Normal, s.spec_permissions())
}

pub open spec fn section_maps(secs: Seq<KernelSection>) -> Seq<MapView> {
    secs.map_values(|s: KernelSection| section_map(s))
}

/// A section whose mapping the table can be asked for: page aligned, in the
/// logical map, with permissions that a descriptor can express.
pub open spec fn section_mappable(s: KernelSection) -> bool {
    &&& s.spec_pa() % 0x4000 == 0
    &&& s.spec_pa() <= KERNEL_LOGICAL_SIZE
    &&& s.spec_size_bytes() + 0x4000 <= u64::MAX
    &&& section_va(s) + page_round(s.spec_size_bytes() as int) <= 0x1_0000_0000_0000_0000
    &&& perm_bits(s.spec_permissions()) is Some
}

/// Every section can be mapped into `high` on its own and no two of them
/// share a page.
pub open spec fn sections_fit(high: LevelTable, secs: Seq<KernelSection>) -> bool {
    &&& forall|i: int| 0 <= i < secs.len() ==> map_ok(high, 0, section_va(#[trigger] secs[i]), secs[i].spec_pa() as int, secs[i].spec_size_bytes() as int)
    &&& windows_disjoint(section_maps(secs))
}

/// The identity mapping of `[base, base + size)` with `attributes`, for
/// the kernel only, readable, writable and executable.
pub open spec fn identity_map(base: u64, size: usize, attributes: Attributes) -> MapView {
    map_view(
        base as int,
        base as int,
        size as int,
        attributes,
        GlobalPermissions { unprivileged: Permissions::NoAccess, privileged: Permissions::RWX },
    )
}

/// A range that can be identity mapped: page aligned, and small enough that
/// rounding it up to whole pages stays in the address space.
pub open spec fn identity_mappable(base: u64, size: usize) -> bool {
    &&& base % 0x4000 == 0
    &&& size + 0x4000 <= u64::MAX
    &&& base + page_round(size as int) <= 0x1_0000_0000_0000_0000
}

/// The identity mappings of the boot layout: DRAM first, then each I/O
/// range.
pub open spec fn default_identity_maps(dram_base: u64, dram_size: usize, mmio: Seq<(u64, usize)>) -> Seq<MapView> {
    seq![identity_map(dram_base, dram_size, Attributes::Normal)] + mmio.map_values(
        |r: (u64, usize)| identity_map(r.0, r.1, Attributes::DevicenGnRnE),
    )
}

/// Every identity mapping can be made in `low` on its own and no two of
/// them share a page.
pub open spec fn identity_fit(low: LevelTable, dram_base: u64, dram_size: usize, mmio: Seq<(u64, usize)>) -> bool {
    &&& map_ok(low, 0, dram_base as int, dram_base as int, dram_size as int)
    &&& forall|i: int| 0 <= i < mmio.len() ==> map_ok(low, 0, #[trigger] mmio[i].0 as int, mmio[i].0 as int, mmio[i].1 as int)
    &&& windows_disjoint(default_identity_maps(dram_base, dram_size, mmio))
}

/// Pages that hold `size` bytes.
pub open spec fn pages_for(size: usize) -> int {
    (size + PAGE_SIZE - 1) / PAGE_SIZE as int
}

/// Some free region holds the pages `(pa, n)`.
pub open spec fn has_container(v: Seq<RegionView>, pa: u64, n: int) -> bool {
    exists|i: int| 0 <= i < v.len() && contains(#[trigger] v[i], pa, n)
}

/// At most one free region holds the pages `(pa, n)`.
pub open spec fn unique_container(v: Seq<RegionView>, pa: u64, n: int) -> bool {
    forall|i: int, j: int|
        0 <= i < v.len() && 0 <= j < v.len() && contains(#[trigger] v[i], pa, n) && contains(#[trigger] v[j], pa, n) ==> i == j
}

/// The first logical range that `[va, va + size)` overlaps.
pub open spec fn first_overlap_logical(s: KernelAddressSpace, va: u64, size: int) -> Option<int> {
    address_space::first_overlap(s.logical(), va, size, 0)
}

/// The logical range a kernel section is recorded as.
pub open spec fn section_range(s: KernelSection) -> RangeView {
    (s.spec_name(), section_va(s) as u64, s.spec_size_bytes() as int)
}

pub open spec fn section_ranges(secs: Seq<KernelSection>) -> Seq<RangeView> {
    secs.map_values(|s: KernelSection| section_range(s))
}

/// Whether a logical range `r` whose name takes `name_len` bytes can be
/// recorded next to the logical ranges `logical` and the virtual ranges
/// `virt`.
pub open spec fn range_addable(logical: Seq<RangeView>, virt: Seq<RangeView>, r: RangeView, name_len: int) -> bool {
    &&& address_space::first_overlap(logical, r.1, r.2, 0) is None
    &&& !has_name(logical, r.0)
    &&& !has_name(virt, r.0)
    &&& name_len <= 32
}

/// The error that recording `r` next to `logical` and `virt` fails with.
pub open spec fn add_error(logical: Seq<RangeView>, virt: Seq<RangeView>, r: RangeView, name_len: int, e: address_space::Error) -> bool {
    match address_space::first_overlap(logical, r.1, r.2, 0) {
        Some(i) => e matches address_space::Error::MemoryRangeOverlaps(n) && address_space::name_text(n) == logical[i].0,
        None => if has_name(logical, r.0) || has_name(virt, r.0) {
            e matches address_space::Error::MemoryRangeAlreadyExists(n) && address_space::name_text(n) == r.0
        } else {
            e matches address_space::Error::NameTooLong
        },
    }
}

/// The index of the first section, from `j` on, that cannot be recorded
/// after those before it were; the number of sections if there is none.
pub open spec fn first_unaddable(logical: Seq<RangeView>, virt: Seq<RangeView>, secs: Seq<KernelSection>, j: int) -> int
    decreases secs.len() - j,
{
    if j < 0 || j >= secs.len() {
        secs.len() as int
    } else if !range_addable(logical + section_ranges(secs.take(j)), virt, section_range(secs[j]), secs[j].spec_name_bytes().len() as int) {
        j
    } else {
        first_unaddable(logical, virt, secs, j + 1)
    }
}

/// A section whose logical range can be recorded: it lies in the logical
/// map, and so does its end.
pub open spec fn section_recordable(s: KernelSection) -> bool {
    &&& s.spec_pa() <= KERNEL_LOGICAL_SIZE
    &&& section_va(s) + s.spec_size_bytes() <= u64::MAX
}

/// The free regions `v` after adding the pages `(pa, n)`, which overlap
/// none of them: the regions they touch are joined with them.
pub open spec fn added_regions(v: Seq<RegionView>, pa: u64, n: int) -> Seq<RegionView> {
    select(v, adjacency(v, pa, n), false).push(joined_region(v, pa, n))
}

/// The free regions `v` after taking the pages `(pa, n)` out of the one
/// region that holds them.
pub open spec fn stolen_regions(v: Seq<RegionView>, pa: u64, n: int) -> Seq<RegionView> {
    if has_container(v, pa, n) {
        let i = choose|i: int| 0 <= i < v.len() && contains(#[trigger] v[i], pa, n);
        v.remove(i) + remainder(v[i], pa, n)
    } else {
        v
    }
}

/// The free regions after taking the first `i` of `reqs`, in order.
pub open spec fn steals_upto(v: Seq<RegionView>, reqs: Seq<(u64, int)>, i: int) -> Seq<RegionView>
    decreases i,
{
    if i <= 0 {
        v
    } else {
        stolen_regions(steals_upto(v, reqs, i - 1), reqs[i - 1].0, reqs[i - 1].1)
    }
}

/// Taking the ranges `reqs` in turn is well defined: each is page aligned
/// in the address space, and an empty one is held, when its turn comes, by
/// at most one free region (free regions never overlap, so a range of pages
/// is held by one at most).
pub open spec fn steals_ok(v: Seq<RegionView>, reqs: Seq<(u64, int)>) -> bool {
    forall|i: int|
        0 <= i < reqs.len() ==> range_ok(#[trigger] reqs[i].0, reqs[i].1) && (reqs[i].1 == 0
            ==> unique_container(steals_upto(v, reqs, i), reqs[i].0, reqs[i].1))
}

/// The first of `reqs`, from `j` on, that no free region holds when its
/// turn comes; the number of ranges if there is none.
pub open spec fn first_missing(v: Seq<RegionView>, reqs: Seq<(u64, int)>, j: int) -> int
    decreases reqs.len() - j,
{
    if j < 0 || j >= reqs.len() {
        reqs.len() as int
    } else if !has_container(steals_upto(v, reqs, j), reqs[j].0, reqs[j].1) {
        j
    } else {
        first_missing(v, reqs, j + 1)
    }
}

/// The pages of the kernel sections.
pub open spec fn section_pages(secs: Seq<KernelSection>) -> Seq<(u64, int)> {
    secs.map_values(|s: KernelSection| (s.spec_pa(), pages_for(s.spec_size_bytes())))
}

proof fn lemma_first_missing_ge(v: Seq<RegionView>, reqs: Seq<(u64, int)>, j: int)
    requires
        0 <= j <= reqs.len(),
    ensures
        first_missing(v, reqs, j) >= j,
    decreases reqs.len() - j,
{
    if j < reqs.len() && has_container(steals_upto(v, reqs, j), reqs[j].0, reqs[j].1) {
        lemma_first_missing_ge(v, reqs, j + 1);
    }
}

proof fn lemma_steal_step(v: Seq<RegionView>, pa: u64, n: int, i: int)
    requires
        0 <= i < v.len(),
        contains(v[i], pa, n),
        unique_container(v, pa, n) || (n > 0 && disjoint_regions(v)),
    ensures
        stolen_regions(v, pa, n) == v.remove(i) + remainder(v[i], pa, n),
{
    if n > 0 && disjoint_regions(v) {
        assert forall|a: int, b: int|
            0 <= a < v.len() && 0 <= b < v.len() && contains(#[trigger] v[a], pa, n) && contains(#[trigger] v[b], pa, n)
            implies a == b by {
            if a != b {
                assert(overlaps(v[a], v[b].0, v[b].1));
            }
        }
    }
    let c = choose|c: int| 0 <= c < v.len() && contains(#[trigger] v[c], pa, n);
    assert(contains(v[c], pa, n));
}

/// The kernel's memory: its address space and the free physical pages.
pub struct MemoryManager {
    kernel_address_space: KernelAddressSpace,
    physical_page_allocator: PhysicalPageAllocator,
}

impl MemoryManager {
    pub closed spec fn space(&self) -> KernelAddressSpace {
        self.kernel_address_space
    }

    pub closed spec fn allocator(&self) -> PhysicalPageAllocator {
        self.physical_page_allocator
    }

    pub open spec fn wf(&self) -> bool {
        &&& self.space().wf()
        &&& self.allocator().wf()
    }

    pub fn new() -> (manager: Self)
        ensures
            manager.wf(),
            manager.space().logical() == Seq::<RangeView>::empty(),
            manager.space().virtual_ranges() == Seq::<RangeView>::empty(),
            manager.space().mmio() == Seq::<RangeView>::empty(),
            manager.space().io_used() == 0,
            forall|o: int| #![trigger translate(manager.space().high(), 0, o)] translate(manager.space().high(), 0, o) is None,
            forall|o: int| #![trigger translate(manager.space().low(), 0, o)] translate(manager.space().low(), 0, o) is None,
            manager.allocator().view() == Seq::<(u64, int)>::empty(),
    {
        Self {
            kernel_address_space: KernelAddressSpace::new(),
            physical_page_allocator: PhysicalPageAllocator::new(),
        }
    }

    /// Maps `size_bytes` of device memory at `pa` into the next part of the
    /// I/O window, read-write for the kernel only, and records it as
    /// `name`. The window must have room for it, and the pages it gets must
    /// be free to map or already map `pa` onwards.
    pub fn map_io(&mut self, name: &str, pa: PhysicalAddress, size_bytes: usize) -> (result:
        Result<VirtualAddress, Error>)
        requires
            old(self).wf(),
            old(self).space().io_used() + page_round(size_bytes as int) <= MMIO_SIZE,
            size_bytes + 0x4000 <= u64::MAX,
            pa.addr() + page_round(size_bytes as int) <= 0x1_0000_0000_0000_0000,
            name.spec_bytes().len() <= 32 ==> map_ok(
                old(self).space().high(),
                0,
                MMIO_BASE + old(self).space().io_used(),
                pa.addr() as int,
                size_bytes as int,
            ) || remap_ok(
                old(self).space().high(),
                0,
                MMIO_BASE + old(self).space().io_used(),
                pa.addr() as int,
                size_bytes as int,
            ),
        ensures
            final(self).wf(),
            final(self).allocator() == old(self).allocator(),
            final(self).space().low() == old(self).space().low(),
            final(self).space().logical() == old(self).space().logical(),
            final(self).space().virtual_ranges() == old(self).space().virtual_ranges(),
            final(self).space().io_used() == old(self).space().io_used() + page_round(
                size_bytes as int,
            ),
            name.spec_bytes().len() > 32 ==> {
                &&& result matches Err(Error::AddressSpaceError(address_space::Error::NameTooLong))
                &&& final(self).space().high() == old(self).space().high()
                &&& final(self).space().mmio() == old(self).space().mmio()
            },
            name.spec_bytes().len() <= 32 ==> {
                let va = MMIO_BASE + old(self).space().io_used();
                &&& result matches Ok(v) && v.addr() == va
                &&& final(self).space().mmio() == old(self).space().mmio().push(
                    (name@, va as u64, size_bytes as int),
                )
                &&& map_ok(old(self).space().high(), 0, va, pa.addr() as int, size_bytes as int) ==> map_result(
                    final(self).space().high(),
                    old(self).space().high(),
                    0,
                    va,
                    pa.addr() as int,
                    size_bytes as int,
                    Attributes::DevicenGnRnE,
                    GlobalPermissions { unprivileged: Permissions::NoAccess, privileged: Permissions::RW },
                    Ok(()),
                )
                &&& remap_ok(old(self).space().high(), 0, va, pa.addr() as int, size_bytes as int) ==> same_tables(
                    final(self).space().high(),
                    old(self).space().high(),
                    0,
                )
            },
    {
        let va = match self.kernel_address_space.allocate_io_range(name, size_bytes) {
            Ok(va) => va,
            Err(e) => {
                return Err(Error::AddressSpaceError(e));
            },
        };
        let permissions = GlobalPermissions::new_only_privileged(Permissions::RW);
        let mapped = self.kernel_address_space.high_table().map_region(
            va,
            pa,
            size_bytes,
            Attributes::DevicenGnRnE,
            permissions,
        );
        assert(perm_bits(permissions) is Some);
        assert(mapped is Ok);
        Ok(va)
    }

    /// Forgets the range called `name` and unmaps it from the table of the
    /// upper half.
    pub fn remove_mapping_by_name(&mut self, name: &str) -> (result: Result<(), Error>)
        requires
            old(self).wf(),
            named_range(old(self).space(), name@) matches Some(r) ==> unmappable(r),
        ensures
            final(self).wf(),
            final(self).allocator() == old(self).allocator(),
            final(self).space().low() == old(self).space().low(),
            final(self).space().io_used() == old(self).space().io_used(),
            ranges_without(final(self).space(), old(self).space(), name@),
            match named_range(old(self).space(), name@) {
                Some(r) => unmap_ok(old(self).space().high(), 0, r.1 as int, r.2) ==> {
                    &&& result is Ok
                    &&& unmapped_as(
                        final(self).space().high(),
                        old(self).space().high(),
                        0,
                        r.1 as int % span(0),
                        page_round(r.2),
                    )
                },
                None => {
                    &&& final(self).space().high() == old(self).space().high()
                    &&& name.spec_bytes().len() <= 32 ==> (result matches Err(
                        Error::AddressSpaceError(address_space::Error::MemoryRangeNotFound(n)),
                    ) && address_space::name_text(n) == name@)
                    &&& name.spec_bytes().len() > 32 ==> (result matches Err(
                        Error::AddressSpaceError(address_space::Error::NameTooLong),
                    ))
                },
            },
    {
        let range = match self.kernel_address_space.remove_range_by_name(name) {
            Ok(range) => range,
            Err(e) => {
                return Err(Error::AddressSpaceError(e));
            },
        };
        let va = range.virtual_address();
        let size = range.size_bytes();
        match self.kernel_address_space.high_table().unmap_region(va, size) {
            Ok(()) => Ok(()),
            Err(e) => Err(Error::ArchitectureSpecific(e)),
        }
    }

    /// Maps a kernel section at its logical address in the table of the
    /// upper half.
    pub fn add_kernel_mapping(&mut self, section: &KernelSection) -> (result: Result<(), Error>)
        requires
            old(self).wf(),
            section_mappable(*section),
        ensures
            final(self).wf(),
            final(self).allocator() == old(self).allocator(),
            final(self).space().low() == old(self).space().low(),
            final(self).space().logical() == old(self).space().logical(),
            final(self).space().virtual_ranges() == old(self).space().virtual_ranges(),
            final(self).space().mmio() == old(self).space().mmio(),
            final(self).space().io_used() == old(self).space().io_used(),
            map_ok(old(self).space().high(), 0, section_va(*section), section.spec_pa() as int, section.spec_size_bytes() as int) ==> {
                &&& result is Ok
                &&& mapped_as(
                    final(self).space().high(),
                    old(self).space().high(),
                    0,
                    section_map(*section).0,
                    section_map(*section).1,
                    section_map(*section).2,
                    section_map(*section).3,
                    section_map(*section).4,
                )
            },
    {
        let pa = section.pa();
        let va = section.la().into_virtual();
        let mapped = self.kernel_address_space.high_table().map_region(
            va,
            pa,
            section.size_bytes(),
            Attributes::Normal,
            section.permissions(),
        );
        match mapped {
            Ok(()) => Ok(()),
            Err(e) => Err(Error::ArchitectureSpecific(e)),
        }
    }

    /// Maps the kernel sections, in order, stopping at the first that fails.
    pub fn add_kernel_mappings(&mut self, sections: &Vec<KernelSection>) -> (result: Result<(), Error>)
        requires
            old(self).wf(),
            forall|i: int| 0 <= i < sections@.len() ==> section_mappable(#[trigger] sections@[i]),
        ensures
            final(self).wf(),
            final(self).allocator() == old(self).allocator(),
            final(self).space().low() == old(self).space().low(),
            final(self).space().logical() == old(self).space().logical(),
            final(self).space().virtual_ranges() == old(self).space().virtual_ranges(),
            final(self).space().mmio() == old(self).space().mmio(),
            final(self).space().io_used() == old(self).space().io_used(),
            sections_fit(old(self).space().high(), sections@) ==> {
                &&& result is Ok
                &&& maps_all(final(self).space().high(), old(self).space().high(), section_maps(sections@))
            },
    {
        let ghost good = sections_fit(self.space().high(), sections@);
        let ghost start = self.space().high();
        let ghost ms = section_maps(sections@);
        let mut i: usize = 0;
        proof {
            assert(ms.take(0) =~= Seq::<MapView>::empty());
        }
        while i < sections.len()
            invariant
                self.wf(),
                self.allocator() == old(self).allocator(),
                self.space().low() == old(self).space().low(),
                self.space().logical() == old(self).space().logical(),
                self.space().virtual_ranges() == old(self).space().virtual_ranges(),
                self.space().mmio() == old(self).space().mmio(),
                self.space().io_used() == old(self).space().io_used(),
                start == old(self).space().high(),
                good == sections_fit(start, sections@),
                ms == section_maps(sections@),
                ms.len() == sections@.len(),
                forall|k: int| 0 <= k < sections@.len() ==> section_mappable(#[trigger] sections@[k]),
                i <= sections@.len(),
                good ==> maps_all(self.space().high(), start, ms.take(i as int)),
            decreases sections@.len() - i,
        {
            let ghost cur = self.space().high();
            let ghost m = ms[i as int];
            proof {
                if good {
                    let s = sections@[i as int];
                    assert(m == section_map(s));
                    assert(map_ok(start, 0, section_va(s), s.spec_pa() as int, s.spec_size_bytes() as int));
                    assert forall|k: int| 0 <= k < ms.take(i as int).len() implies #[trigger] ms.take(i as int)[k].0 + ms.take(i as int)[k].1 <= m.0 || m.0 + m.1 <= ms.take(i as int)[k].0 by {
                        assert(ms.take(i as int)[k] == ms[k]);
                        assert(ms[k].0 + ms[k].1 <= ms[i as int].0 || ms[i as int].0 + ms[i as int].1 <= ms[k].0);
                    }
                    lemma_still_unmapped(cur, start, ms.take(i as int), m);
                }
            }
            match self.add_kernel_mapping(&sections[i]) {
                Ok(()) => {},
                Err(e) => {
                    return Err(e);
                },
            }
            proof {
                if good {
                    lemma_map_step(cur, self.space().high(), start, ms.take(i as int), m);
                    assert(ms.take(i as int).push(m) =~= ms.take(i + 1));
                }
            }
            i = i + 1;
        }
        proof {
            assert(ms.take(i as int) =~= ms);
        }
        Ok(())
    }

    /// Builds the boot mappings: DRAM identity mapped, the kernel sections at
    /// their logical addresses, and the I/O ranges identity mapped as device
    /// memory. Each mapping must succeed: the ranges are page aligned, fit
    /// their tables and do not overlap.
    pub fn add_default_mappings(
        &mut self,
        dram_base: u64,
        dram_size: usize,
        sections: &Vec<KernelSection>,
        mmio_ranges: &Vec<(u64, usize)>,
    )
        requires
            old(self).wf(),
            identity_mappable(dram_base, dram_size),
            forall|i: int| 0 <= i < mmio_ranges@.len() ==> identity_mappable(#[trigger] mmio_ranges@[i].0, mmio_ranges@[i].1),
            identity_fit(old(self).space().low(), dram_base, dram_size, mmio_ranges@),
            forall|i: int| 0 <= i < sections@.len() ==> section_mappable(#[trigger] sections@[i]),
            sections_fit(old(self).space().high(), sections@),
        ensures
            final(self).wf(),
            final(self).allocator() == old(self).allocator(),
            final(self).space().logical() == old(self).space().logical(),
            final(self).space().virtual_ranges() == old(self).space().virtual_ranges(),
            final(self).space().mmio() == old(self).space().mmio(),
            final(self).space().io_used() == old(self).space().io_used(),
            maps_all(final(self).space().low(), old(self).space().low(), default_identity_maps(dram_base, dram_size, mmio_ranges@)),
            maps_all(final(self).space().high(), old(self).space().high(), section_maps(sections@)),
    {
        let ghost low0 = self.space().low();
        let ghost high0 = self.space().high();
        let ghost ids = default_identity_maps(dram_base, dram_size, mmio_ranges@);
        let rwx = GlobalPermissions::new_only_privileged(Permissions::RWX);
        let va = match VirtualAddress::try_from_ptr(dram_base) {
            Ok(va) => va,
            Err(_) => {
                assert(false);
                return;
            },
        };
        let pa = match PhysicalAddress::try_from_ptr(dram_base) {
            Ok(pa) => pa,
            Err(_) => {
                assert(false);
                return;
            },
        };
        let mapped = self.kernel_address_space.low_table().map_region(va, pa, dram_size, Attributes::Normal, rwx);
        proof {
            assert(perm_bits(rwx) is Some);
            assert(mapped is Ok);
            assert(ids[0] == identity_map(dram_base, dram_size, Attributes::Normal));
            lemma_map_step(low0, self.space().low(), low0, Seq::empty(), ids[0]);
            assert(Seq::<MapView>::empty().push(ids[0]) =~= ids.take(1));
        }
        match self.add_kernel_mappings(sections) {
            Ok(()) => {},
            Err(_) => {
                assert(false);
                return;
            },
        }
        let mut i: usize = 0;
        while i < mmio_ranges.len()
            invariant
                self.wf(),
                self.allocator() == old(self).allocator(),
                self.space().logical() == old(self).space().logical(),
                self.space().virtual_ranges() == old(self).space().virtual_ranges(),
                self.space().mmio() == old(self).space().mmio(),
                self.space().io_used() == old(self).space().io_used(),
                low0 == old(self).space().low(),
                high0 == old(self).space().high(),
                maps_all(self.space().high(), high0, section_maps(sections@)),
                ids == default_identity_maps(dram_base, dram_size, mmio_ranges@),
                ids.len() == mmio_ranges@.len() + 1,
                identity_fit(low0, dram_base, dram_size, mmio_ranges@),
                forall|k: int| 0 <= k < mmio_ranges@.len() ==> identity_mappable(#[trigger] mmio_ranges@[k].0, mmio_ranges@[k].1),
                rwx == (GlobalPermissions { unprivileged: Permissions::NoAccess, privileged: Permissions::RWX }),
                i <= mmio_ranges@.len(),
                maps_all(self.space().low(), low0, ids.take(i + 1)),
            decreases mmio_ranges@.len() - i,
        {
            let (base, size) = mmio_ranges[i];
            let ghost cur = self.space().low();
            let ghost m = ids[i + 1];
            proof {
                assert(m == identity_map(base, size, Attributes::DevicenGnRnE));
                assert(map_ok(low0, 0, base as int, base as int, size as int));
                assert forall|k: int| 0 <= k < ids.take(i + 1).len() implies #[trigger] ids.take(i + 1)[k].0 + ids.take(i + 1)[k].1 <= m.0 || m.0 + m.1 <= ids.take(i + 1)[k].0 by {
                    assert(ids.take(i + 1)[k] == ids[k]);
                    assert(ids[k].0 + ids[k].1 <= ids[i + 1].0 || ids[i + 1].0 + ids[i + 1].1 <= ids[k].0);
                }
                lemma_still_unmapped(cur, low0, ids.take(i + 1), m);
            }
            let va = match VirtualAddress::try_from_ptr(base) {
                Ok(va) => va,
                Err(_) => {
                    assert(false);
                    return;
                },
            };
            let pa = match PhysicalAddress::try_from_ptr(base) {
                Ok(pa) => pa,
                Err(_) => {
                    assert(false);
                    return;
                },
            };
            let mapped = self.kernel_address_space.low_table().map_region(va, pa, size, Attributes::DevicenGnRnE, rwx);
            proof {
                assert(mapped is Ok);
                lemma_map_step(cur, self.space().low(), low0, ids.take(i + 1), m);
                assert(ids.take(i + 1).push(m) =~= ids.take(i + 2));
            }
            i = i + 1;
        }
        proof {
            assert(ids.take(i + 1) =~= ids);
        }
    }

    /// Takes the physical pages under `[la, la + size_bytes)` of the logical
    /// map, records the range as `name` and maps it. Fails, changing nothing,
    /// when those pages are not free; once they are taken, recording and
    /// mapping the range must succeed.
    pub fn map_logical(
        &mut self,
        name: &str,
        la: LogicalAddress,
        size_bytes: usize,
        attributes: Attributes,
        permissions: Permissions,
    ) -> (result: Result<(), Error>)
        requires
            old(self).wf(),
            la.addr() >= KERNEL_LOGICAL_BASE,
            la.addr() % 0x4000 == 0,
            size_bytes + 0x4000 <= u64::MAX,
            la.addr() + page_round(size_bytes as int) <= u64::MAX,
            range_ok((la.addr() - KERNEL_LOGICAL_BASE) as u64, pages_for(size_bytes)),
            pages_for(size_bytes) == 0 ==> unique_container(old(self).allocator().view(), (la.addr() - KERNEL_LOGICAL_BASE) as u64, pages_for(size_bytes)),
            has_container(old(self).allocator().view(), (la.addr() - KERNEL_LOGICAL_BASE) as u64, pages_for(size_bytes)) ==> {
                &&& first_overlap_logical(old(self).space(), la.addr(), size_bytes as int) is None
                &&& !has_name(old(self).space().logical(), name@)
                &&& !has_name(old(self).space().virtual_ranges(), name@)
                &&& name.spec_bytes().len() <= 32
                &&& map_ok(old(self).space().high(), 0, la.addr() as int, la.addr() - KERNEL_LOGICAL_BASE, size_bytes as int)
                &&& (perm_bits(GlobalPermissions { unprivileged: Permissions::NoAccess, privileged: permissions }) is Some
                    || page_round(size_bytes as int) == 0)
            },
        ensures
            final(self).wf(),
            final(self).space().low() == old(self).space().low(),
            final(self).space().virtual_ranges() == old(self).space().virtual_ranges(),
            final(self).space().mmio() == old(self).space().mmio(),
            final(self).space().io_used() == old(self).space().io_used(),
            ({
                let v = old(self).allocator().view();
                let pa = (la.addr() - KERNEL_LOGICAL_BASE) as u64;
                let n = pages_for(size_bytes);
                if has_container(v, pa, n) {
                    &&& result is Ok
                    &&& exists|i: int| 0 <= i < v.len() && contains(#[trigger] v[i], pa, n)
                        && final(self).allocator().view() == v.remove(i) + remainder(v[i], pa, n)
                    &&& final(self).space().logical() == old(self).space().logical().push((name@, la.addr(), size_bytes as int))
                    &&& map_result(
                        final(self).space().high(),
                        old(self).space().high(),
                        0,
                        la.addr() as int,
                        pa as int,
                        size_bytes as int,
                        attributes,
                        GlobalPermissions { unprivileged: Permissions::NoAccess, privileged: permissions },
                        Ok(()),
                    )
                } else {
                    &&& result matches Err(Error::PageAllocationError(physical_page_allocator::Error::RegionNotAvailable))
                    &&& final(self).allocator().view() == old(self).allocator().view()
                    &&& final(self).space() == old(self).space()
                }
            }),
    {
        let pages = num_pages_from_bytes(size_bytes);
        let region = match self.physical_page_allocator.request_pages(la.into_physical(), pages) {
            Ok(region) => region,
            Err(e) => {
                return Err(Error::PageAllocationError(e));
            },
        };
        let (la, size, attributes, permissions) = match self.kernel_address_space.add_logical_range(
            name,
            la,
            size_bytes,
            attributes,
            permissions,
            Some(region),
        ) {
            Ok(range) => (range.la, range.size_bytes, range.attributes, range.permissions),
            Err(_) => {
                assert(false);
                return Ok(());
            },
        };
        let permissions = GlobalPermissions::new_only_privileged(permissions);
        let mapped = self.kernel_address_space.high_table().map_region(
            la.into_virtual(),
            la.into_physical(),
            size,
            attributes,
            permissions,
        );
        assert(mapped is Ok);
        Ok(())
    }

    /// Records the kernel sections, which are mapped already, as logical
    /// ranges, stopping at the first that cannot be recorded.
    pub fn initialize_address_space(&mut self, sections: &Vec<KernelSection>) -> (result: Result<(), Error>)
        requires
            old(self).wf(),
            forall|i: int| 0 <= i < sections@.len() ==> section_recordable(#[trigger] sections@[i]),
        ensures
            final(self).wf(),
            final(self).allocator() == old(self).allocator(),
            final(self).space().high() == old(self).space().high(),
            final(self).space().low() == old(self).space().low(),
            final(self).space().virtual_ranges() == old(self).space().virtual_ranges(),
            final(self).space().mmio() == old(self).space().mmio(),
            final(self).space().io_used() == old(self).space().io_used(),
            ({
                let l = old(self).space().logical();
                let v = old(self).space().virtual_ranges();
                let k = first_unaddable(l, v, sections@, 0);
                &&& final(self).space().logical() == l + section_ranges(sections@.take(k))
                &&& k == sections@.len() ==> result is Ok
                &&& k < sections@.len() ==> (result matches Err(Error::AddressSpaceError(e)) && add_error(
                    final(self).space().logical(),
                    v,
                    section_range(sections@[k]),
                    sections@[k].spec_name_bytes().len() as int,
                    e,
                ))
            }),
    {
        let ghost l = self.space().logical();
        let ghost v = self.space().virtual_ranges();
        let ghost k = first_unaddable(l, v, sections@, 0);
        let mut i: usize = 0;
        proof {
            assert(sections@.take(0) =~= Seq::<KernelSection>::empty());
            assert(section_ranges(sections@.take(0)) =~= Seq::<RangeView>::empty());
            assert(l + section_ranges(sections@.take(0)) =~= l);
        }
        while i < sections.len()
            invariant
                self.wf(),
                self.allocator() == old(self).allocator(),
                self.space().high() == old(self).space().high(),
                self.space().low() == old(self).space().low(),
                self.space().virtual_ranges() == old(self).space().virtual_ranges(),
                self.space().mmio() == old(self).space().mmio(),
                self.space().io_used() == old(self).space().io_used(),
                l == old(self).space().logical(),
                v == old(self).space().virtual_ranges(),
                forall|j: int| 0 <= j < sections@.len() ==> section_recordable(#[trigger] sections@[j]),
                i <= sections@.len(),
                k == first_unaddable(l, v, sections@, 0),
                first_unaddable(l, v, sections@, i as int) == k,
                self.space().logical() == l + section_ranges(sections@.take(i as int)),
            decreases sections@.len() - i,
        {
            let section = &sections[i];
            let name = section.name();
            let la = section.la();
            let size = section.size_bytes();
            let permissions = section.permissions();
            let ghost before = self.space().logical();
            let added = self.kernel_address_space.add_logical_range(
                name,
                la,
                size,
                Attributes::Normal,
                permissions.privileged,
                None,
            );
            match added {
                Ok(_) => {},
                Err(e) => {
                    return Err(Error::AddressSpaceError(e));
                },
            }
            proof {
                assert(section_range(sections@[i as int]) == (name@, la.addr(), size as int));
                assert(section_ranges(sections@.take(i + 1)) =~= section_ranges(sections@.take(i as int)).push(section_range(sections@[i as int])));
                assert(l + section_ranges(sections@.take(i + 1)) =~= before.push((name@, la.addr(), size as int)));
            }
            i = i + 1;
        }
        proof {
            assert(sections@.take(i as int) =~= sections@);
        }
        Ok(())
    }

    /// Fills the page allocator: all of DRAM, less the pages of the kernel
    /// sections and of the device tree. Stops at the first section whose
    /// pages are not free; the device tree's pages must be free once the
    /// sections are taken.
    pub fn initialize_physical_page_allocator(
        &mut self,
        dram_base: PhysicalAddress,
        dram_size: usize,
        sections: &Vec<KernelSection>,
        device_tree_base: PhysicalAddress,
        device_tree_size: usize,
    ) -> (result: Result<(), Error>)
        requires
            old(self).wf(),
            range_ok(dram_base.addr(), pages_for(dram_size)),
            first_overlap(old(self).allocator().view(), dram_base.addr(), pages_for(dram_size)) is None ==> {
                let v = old(self).allocator().view();
                let j = joined_region(v, dram_base.addr(), pages_for(dram_size));
                let added = added_regions(v, dram_base.addr(), pages_for(dram_size));
                let reqs = section_pages(sections@).push((device_tree_base.addr(), pages_for(device_tree_size)));
                &&& j.1 <= usize::MAX
                &&& range_ok(j.0, j.1)
                &&& steals_ok(added, reqs)
                &&& first_missing(added, reqs, 0) != sections@.len()
            },
        ensures
            final(self).wf(),
            final(self).space() == old(self).space(),
            ({
                let v = old(self).allocator().view();
                let pa = dram_base.addr();
                let n = pages_for(dram_size);
                let reqs = section_pages(sections@).push((device_tree_base.addr(), pages_for(device_tree_size)));
                match first_overlap(v, pa, n) {
                    Some(i) => {
                        &&& result matches Err(Error::PageAllocationError(physical_page_allocator::Error::RegionOverlapsWith(p, k)))
                            && p.addr() == v[i].0 && k == v[i].1
                        &&& final(self).allocator().view() == v
                    },
                    None => {
                        let added = added_regions(v, pa, n);
                        let k = first_missing(added, reqs, 0);
                        if k < sections@.len() {
                            &&& result matches Err(Error::PageAllocationError(physical_page_allocator::Error::RegionNotAvailable))
                            &&& final(self).allocator().view() == steals_upto(added, reqs, k)
                        } else {
                            &&& result is Ok
                            &&& final(self).allocator().view() == steals_upto(added, reqs, reqs.len() as int)
                        }
                    },
                }
            }),
    {
        let dram_pages = num_pages_from_bytes(dram_size);
        match self.physical_page_allocator.add_region(dram_base, dram_pages) {
            Ok(()) => {},
            Err(e) => {
                return Err(Error::PageAllocationError(e));
            },
        }
        let ghost added = self.allocator().view();
        let ghost reqs = section_pages(sections@).push((device_tree_base.addr(), pages_for(device_tree_size)));
        let ghost k = first_missing(added, reqs, 0);
        let mut i: usize = 0;
        proof {
            lemma_first_missing_ge(added, reqs, 0);
        }
        while i < sections.len()
            invariant
                self.wf(),
                self.space() == old(self).space(),
                reqs == section_pages(sections@).push((device_tree_base.addr(), pages_for(device_tree_size))),
                reqs.len() == sections@.len() + 1,
                steals_ok(added, reqs),
                first_overlap(old(self).allocator().view(), dram_base.addr(), pages_for(dram_size)) is None,
                added == added_regions(old(self).allocator().view(), dram_base.addr(), pages_for(dram_size)),
                k == first_missing(added, reqs, 0),
                k != sections@.len(),
                i <= sections@.len(),
                i <= k,
                first_missing(added, reqs, i as int) == k,
                self.allocator().view() == steals_upto(added, reqs, i as int),
            decreases sections@.len() - i,
        {
            let section = &sections[i];
            let pa = section.pa();
            let pages = num_pages_from_bytes(section.size_bytes());
            let ghost cur = self.allocator().view();
            proof {
                assert(reqs[i as int] == (pa.addr(), pages as int));
                assert(range_ok(reqs[i as int].0, reqs[i as int].1));
            }
            match self.physical_page_allocator.steal_region(pa, pages) {
                Ok(()) => {},
                Err(e) => {
                    return Err(Error::PageAllocationError(e));
                },
            }
            proof {
                lemma_first_missing_ge(added, reqs, i + 1);
                let c = choose|c: int| 0 <= c < cur.len() && contains(#[trigger] cur[c], pa.addr(), pages as int);
                lemma_steal_step(cur, pa.addr(), pages as int, c);
            }
            i = i + 1;
        }
        let device_tree_pages = num_pages_from_bytes(device_tree_size);
        let ghost cur = self.allocator().view();
        proof {
            let last = sections@.len() as int;
            assert(reqs[last] == (device_tree_base.addr(), device_tree_pages as int));
            assert(range_ok(reqs[last].0, reqs[last].1));
        }
        match self.physical_page_allocator.steal_region(device_tree_base, device_tree_pages) {
            Ok(()) => {},
            Err(_) => {
                assert(false);
                return Ok(());
            },
        }
        proof {
            let c = choose|c: int| 0 <= c < cur.len() && contains(#[trigger] cur[c], device_tree_base.addr(), device_tree_pages as int);
            lemma_steal_step(cur, device_tree_base.addr(), device_tree_pages as int, c);
        }
        Ok(())
    }

    /// Gives the pages of `region` back to the free memory.
    pub fn release_pages(&mut self, physical_memory_region: PhysicalMemoryRegion) -> (result:
        Result<(), Error>)
        requires
            old(self).wf(),
            range_ok(physical_memory_region.view().0, physical_memory_region.view().1),
            first_overlap(
                old(self).allocator().view(),
                physical_memory_region.view().0,
                physical_memory_region.view().1,
            ) is None ==> {
                let j = joined_region(
                    old(self).allocator().view(),
                    physical_memory_region.view().0,
                    physical_memory_region.view().1,
                );
                &&& j.1 <= usize::MAX
                &&& range_ok(j.0, j.1)
            },
        ensures
            final(self).wf(),
            final(self).space() == old(self).space(),
            ({
                let v = old(self).allocator().view();
                let (pa, n) = physical_memory_region.view();
                match first_overlap(v, pa, n) {
                    Some(i) => {
                        &&& result matches Err(
                            Error::PageAllocationError(
                                physical_page_allocator::Error::RegionOverlapsWith(p, k),
                            ),
                        ) && p.addr() == v[i].0 && k == v[i].1
                        &&& final(self).allocator().view() == v
                    },
                    None => {
                        &&& result is Ok
                        &&& final(self).allocator().view() == select(
                            v,
                            adjacency(v, pa, n),
                            false,
                        ).push(joined_region(v, pa, n))
                    },
                }
            }),
    {
        match self.physical_page_allocator.release_pages(physical_memory_region) {
            Ok(()) => Ok(()),
            Err(e) => Err(Error::PageAllocationError(e)),
        }
    }
}

/// The range that removing `name` takes away: the first logical range of
/// that name, else the first virtual one, else the first I/O one.
pub open spec fn named_range(s: KernelAddressSpace, name: Seq<char>) -> Option<RangeView> {
    match first_named(s.logical(), name, 0) {
        Some(i) => Some(s.logical()[i]),
        None => match first_named(s.virtual_ranges(), name, 0) {
            Some(i) => Some(s.virtual_ranges()[i]),
            None => match first_named(s.mmio(), name, 0) {
                Some(i) => Some(s.mmio()[i]),
                None => None,
            },
        },
    }
}

/// `new` holds the ranges of `old` less the one that removing `name` takes.
pub open spec fn ranges_without(new: KernelAddressSpace, old: KernelAddressSpace, name: Seq<char>) -> bool {
    match first_named(old.logical(), name, 0) {
        Some(i) => {
            &&& new.logical() == old.logical().remove(i)
            &&& new.virtual_ranges() == old.virtual_ranges()
            &&& new.mmio() == old.mmio()
        },
        None => match first_named(old.virtual_ranges(), name, 0) {
            Some(i) => {
                &&& new.logical() == old.logical()
                &&& new.virtual_ranges() == old.virtual_ranges().remove(i)
                &&& new.mmio() == old.mmio()
            },
            None => match first_named(old.mmio(), name, 0) {
                Some(i) => {
                    &&& new.logical() == old.logical()
                    &&& new.virtual_ranges() == old.virtual_ranges()
                    &&& new.mmio() == old.mmio().remove(i)
                },
                None => {
                    &&& new.logical() == old.logical()
                    &&& new.virtual_ranges() == old.virtual_ranges()
                    &&& new.mmio() == old.mmio()
                },
            },
        },
    }
}


proof fn lemma_first_named_push(s: Seq<RangeView>, x: RangeView, name: Seq<char>, i: int)
    requires
        0 <= i <= s.len(),
        first_named(s, name, i) is None,
        x.0 == name,
    ensures
        first_named(s.push(x), name, i) == Some(s.len() as int),
    decreases s.len() - i,
{
    if i < s.len() {
        assert(s.push(x)[i] == s[i]);
        lemma_first_named_push(s, x, name, i + 1);
    }
}

/// Removing an I/O range by its name right after mapping it, under a name
/// that no range had, gives back the ranges and the translations of the
/// upper half as they were before.
pub proof fn law_io_mapping_removed(
    s0: KernelAddressSpace,
    s1: KernelAddressSpace,
    s2: KernelAddressSpace,
    name: Seq<char>,
    pa: u64,
    size: usize,
)
    requires
        named_range(s0, name) is None,
        s1.logical() == s0.logical(),
        s1.virtual_ranges() == s0.virtual_ranges(),
        s1.mmio() == s0.mmio().push((name, (MMIO_BASE + s0.io_used()) as u64, size as int)),
        map_ok(s0.high(), 0, MMIO_BASE + s0.io_used(), pa as int, size as int),
        map_result(
            s1.high(),
            s0.high(),
            0,
            MMIO_BASE + s0.io_used(),
            pa as int,
            size as int,
            Attributes::DevicenGnRnE,
            GlobalPermissions { unprivileged: Permissions::NoAccess, privileged: Permissions::RW },
            Ok(()),
        ),
        ranges_without(s2, s1, name),
        unmapped_as(s2.high(), s1.high(), 0, (MMIO_BASE + s0.io_used()) % span(0), page_round(size as int)),
    ensures
        s2.logical() == s0.logical(),
        s2.virtual_ranges() == s0.virtual_ranges(),
        s2.mmio() == s0.mmio(),
        same_translation(s2.high(), s0.high(), 0),
{
    let x = (name, (MMIO_BASE + s0.io_used()) as u64, size as int);
    lemma_first_named_push(s0.mmio(), x, name, 0);
    assert(s0.mmio().push(x).remove(s0.mmio().len() as int) =~= s0.mmio());
    let perm = GlobalPermissions { unprivileged: Permissions::NoAccess, privileged: Permissions::RW };
    assert(perm_bits(perm) is Some);
    crate::arch::mmu::law_unmap_undoes_map(
        s0.high(),
        s1.high(),
        s2.high(),
        0,
        (MMIO_BASE + s0.io_used()) % span(0),
        page_round(size as int),
        pa as int,
        attributes_index(Attributes::DevicenGnRnE),
        perm_bits(perm)->Some_0,
    );
}

} // verus!
