//! The memory ranges of a process's address space, kept by name next to
//! the translation table that maps them.
use vstd::prelude::*;

use core::str::FromStr;
use vstd::string::StringSliceAdditionalSpecFns;
use vstd::utf8::encode_utf8;

use crate::arch::mmu::{map_ok, map_result, page_round, perm_bits, translate, wf_table, LevelTable};
use crate::memory::address::{Address, LogicalAddress, VirtualAddress};
use crate::memory::map::{MMIO_BASE, MMIO_SIZE};
use crate::memory::num_pages_from_bytes;
use crate::memory::physical_page_allocator::PhysicalMemoryRegion;
use crate::memory::{Attributes, GlobalPermissions, Permissions};

verus! {

/// Longest name of a memory range, in bytes.
pub const MAX_NAME_LENGTH: usize = 32;

#[verifier::external_type_specification]
#[verifier::external_body]
pub struct ExHeaplessString<const N: usize>(heapless::String<N>);

/// The text that a range name holds.
pub uninterp spec fn name_text(name: heapless::String<32>) -> Seq<char>;

/// `heapless::String::<32>::from_str`: copies `s` into a bounded string,
/// which fails, leaving nothing behind, when the bytes of `s` do not fit
/// the 32-byte capacity.
#[verifier::external_body]
pub(crate) fn name_from_str(s: &str) -> (name: Result<heapless::String<32>, ()>)
    ensures
        name is Ok <==> s.spec_bytes().len() <= 32,
        name matches Ok(n) ==> name_text(n) == s@,
{
    heapless::String::<32>::from_str(s)
}

/// `heapless::String::<32>::new`: an empty bounded string.
#[verifier::external_body]
pub(crate) fn name_empty() -> (name: heapless::String<32>)
    ensures
        name_text(name) == Seq::<char>::empty(),
{
    heapless::String::<32>::new()
}

/// `heapless::String::<32>::as_str`: the held text.
#[verifier::external_body]
pub(crate) fn name_as_str(name: &heapless::String<32>) -> (s: &str)
    ensures
        s@ == name_text(*name),
{
    name.as_str()
}

/// `heapless::String<32> == str`: compares the held text with `s`.
#[verifier::external_body]
pub(crate) fn name_eq(name: &heapless::String<32>, s: &str) -> (equal: bool)
    ensures
        equal == (name_text(*name) == s@),
{
    *name == *s
}

/// `heapless::String::<32>::clone`: a copy with the same text.
#[verifier::external_body]
pub(crate) fn name_clone(name: &heapless::String<32>) -> (copy: heapless::String<32>)
    ensures
        name_text(copy) == name_text(*name),
{
    name.clone()
}

/// `heapless::String::<32>::from(&str)`, which panics when `s` does not
/// fit; the requirement rules that out.
#[verifier::external_body]
pub(crate) fn name_from(s: &str) -> (name: heapless::String<32>)
    requires
        s.spec_bytes().len() <= 32,
    ensures
        name_text(name) == s@,
{
    heapless::String::<32>::from(s)
}

#[derive(Debug)]
pub enum Error {
    MemoryRangeNotFound(heapless::String<32>),
    MemoryRangeAlreadyExists(heapless::String<32>),
    MemoryRangeOverlaps(heapless::String<32>),
    NameTooLong,
}

/// A range of virtual memory of a process, backed by physical pages.
pub struct VirtualMemoryRange {
    pub va: VirtualAddress,
    pub size_bytes: usize,
    pub name: heapless::String<32>,
    pub attributes: Attributes,
    pub permissions: GlobalPermissions,
    pub pmr: PhysicalMemoryRegion,
}

/// A range as its name, start address and size in bytes.
pub type RangeView = (Seq<char>, u64, int);

pub open spec fn range_view(r: VirtualMemoryRange) -> RangeView {
    (name_text(r.name), r.va.addr(), r.size_bytes as int)
}

pub open spec fn range_views(rs: Seq<VirtualMemoryRange>) -> Seq<RangeView> {
    rs.map_values(|r: VirtualMemoryRange| range_view(r))
}

/// Whether range `r` and `[va, va + size)` share an address.
pub open spec fn overlaps(r: RangeView, va: u64, size: int) -> bool {
    r.1 < va + size && r.1 + r.2 > va
}

/// The first range from `i` on that overlaps `[va, va + size)`.
pub open spec fn first_overlap(rs: Seq<RangeView>, va: u64, size: int, i: int) -> Option<int>
    decreases rs.len() - i,
{
    if i < 0 || i >= rs.len() {
        None
    } else if overlaps(rs[i], va, size) {
        Some(i)
    } else {
        first_overlap(rs, va, size, i + 1)
    }
}

/// Whether a range is called `name`.
pub open spec fn has_name(rs: Seq<RangeView>, name: Seq<char>) -> bool {
    exists|i: int| 0 <= i < rs.len() && #[trigger] rs[i].0 == name
}

/// Operations shared by memory ranges.
pub trait MemoryRange {
    spec fn spec_start(&self) -> u64;

    spec fn spec_size(&self) -> usize;

    fn virtual_address(&self) -> (va: VirtualAddress)
        ensures
            va.addr() == self.spec_start(),
    ;

    fn size_bytes(&self) -> (size: usize)
        ensures
            size == self.spec_size(),
    ;

    /// The first address after the range.
    fn end_virtual_address(&self) -> (end: VirtualAddress)
        requires
            self.spec_start() + self.spec_size() <= u64::MAX,
        ensures
            end.addr() == self.spec_start() + self.spec_size(),
    {
        self.virtual_address().offset(self.size_bytes())
    }

    /// Whether the range shares an address with `[va, va + size_bytes)`.
    fn overlaps(&self, va: VirtualAddress, size_bytes: usize) -> (b: bool)
        requires
            self.spec_start() + self.spec_size() <= u64::MAX,
            va.addr() + size_bytes <= u64::MAX,
        ensures
            b == (self.spec_start() < va.addr() + size_bytes && self.spec_start() + self.spec_size()
                > va.addr()),
    {
        let a_start = self.virtual_address().as_u64();
        let a_end = self.end_virtual_address().as_u64();
        let b_start = va.as_u64();
        let b_end = va.offset(size_bytes).as_u64();
        a_start < b_end && a_end > b_start
    }
}

impl MemoryRange for VirtualMemoryRange {
    open spec fn spec_start(&self) -> u64 {
        self.va.addr()
    }

    open spec fn spec_size(&self) -> usize {
        self.size_bytes
    }

    fn virtual_address(&self) -> (va: VirtualAddress) {
        self.va
    }

    fn size_bytes(&self) -> (size: usize) {
        self.size_bytes
    }
}

/// The address space of a process: its translation table and its named
/// memory ranges.
pub struct ProcessAddressSpace {
    address_table: Box<LevelTable>,
    memory_ranges: Vec<VirtualMemoryRange>,
}

impl ProcessAddressSpace {
    /// The ranges, in the order in which they were added.
    pub closed spec fn ranges(&self) -> Seq<RangeView> {
        range_views(self.memory_ranges@)
    }

    /// The ranges as recorded, with their attributes, permissions and pages.
    pub closed spec fn records(&self) -> Seq<VirtualMemoryRange> {
        self.memory_ranges@
    }

    /// The ranges are the views of the records.
    pub proof fn lemma_records(&self)
        ensures
            self.ranges() == range_views(self.records()),
    {
    }

    pub closed spec fn table(&self) -> LevelTable {
        *self.address_table
    }

    /// The table is well formed and every range ends inside the address
    /// space.
    pub open spec fn wf(&self) -> bool {
        &&& wf_table(self.table(), 0)
        &&& forall|i: int| 0 <= i < self.ranges().len() ==> #[trigger] self.ranges()[i].1 + self.ranges()[i].2 <= u64::MAX
        &&& forall|i: int| 0 <= i < self.ranges().len() ==> encode_utf8(#[trigger] self.ranges()[i].0).len() <= MAX_NAME_LENGTH
    }

    pub fn new() -> (space: Self)
        ensures
            space.wf(),
            space.ranges() == Seq::<RangeView>::empty(),
    {
        let space = Self { address_table: Box::new(LevelTable::new()), memory_ranges: Vec::new() };
        assert(space.ranges() =~= Seq::<RangeView>::empty());
        space
    }

    /// The translation table.
    pub fn address_table(&self) -> (table: &LevelTable)
        ensures
            *table == self.table(),
    {
        &*self.address_table
    }

    fn check_overlaps(&self, va: VirtualAddress, size_bytes: usize) -> (result: Result<(), Error>)
        requires
            self.wf(),
            va.addr() + size_bytes <= u64::MAX,
        ensures
            match first_overlap(self.ranges(), va.addr(), size_bytes as int, 0) {
                None => result is Ok,
                Some(i) => result matches Err(Error::MemoryRangeOverlaps(n)) && name_text(n)
                    == self.ranges()[i].0,
            },
    {
        let mut i: usize = 0;
        while i < self.memory_ranges.len()
            invariant
                self.wf(),
                va.addr() + size_bytes <= u64::MAX,
                i <= self.memory_ranges@.len(),
                first_overlap(self.ranges(), va.addr(), size_bytes as int, i as int) == first_overlap(
                    self.ranges(),
                    va.addr(),
                    size_bytes as int,
                    0,
                ),
            decreases self.memory_ranges@.len() - i,
        {
            let range = &self.memory_ranges[i];
            assert(self.ranges()[i as int] == range_view(*range));
            if range.overlaps(va, size_bytes) {
                return Err(Error::MemoryRangeOverlaps(name_clone(&range.name)));
            }
            i = i + 1;
        }
        Ok(())
    }

    /// The index of the range called `name`. When there is none, the error
    /// holds the name, or says that it is too long to hold.
    fn find_by_name(&self, name: &str) -> (result: Result<usize, Error>)
        ensures
            has_name(self.ranges(), name@) ==> (result matches Ok(i) && i < self.ranges().len()
                && self.ranges()[i as int].0 == name@),
            !has_name(self.ranges(), name@) ==> result is Err,
    {
        let mut i: usize = 0;
        while i < self.memory_ranges.len()
            invariant
                i <= self.memory_ranges@.len(),
                forall|j: int| 0 <= j < i ==> #[trigger] self.ranges()[j].0 != name@,
            decreases self.memory_ranges@.len() - i,
        {
            assert(self.ranges()[i as int] == range_view(self.memory_ranges@[i as int]));
            if name_eq(&self.memory_ranges[i].name, name) {
                assert(self.ranges()[i as int].0 == name@);
                return Ok(i);
            }
            i = i + 1;
        }
        match name_from_str(name) {
            Ok(n) => Err(Error::MemoryRangeNotFound(n)),
            Err(()) => Err(Error::NameTooLong),
        }
    }

    /// Records a range called `name`. It fails, changing nothing, when the
    /// range overlaps another, when the name is taken, or when the name is
    /// longer than 32 bytes.
    fn add_virtual_range(
        &mut self,
        name: &str,
        va: VirtualAddress,
        pmr: PhysicalMemoryRegion,
        size_bytes: usize,
        attributes: Attributes,
        permissions: GlobalPermissions,
    ) -> (result: Result<(), Error>)
        requires
            old(self).wf(),
            va.addr() + size_bytes <= u64::MAX,
        ensures
            final(self).wf(),
            final(self).table() == old(self).table(),
            add_range_result(old(self).ranges(), final(self).ranges(), name, va.addr(), size_bytes as int, result),
            recorded(old(self).records(), final(self).records(), va, size_bytes, attributes, permissions, pmr, result),
    {
        match self.check_overlaps(va, size_bytes) {
            Ok(()) => {},
            Err(e) => {
                return Err(e);
            },
        }
        if self.find_by_name(name).is_ok() {
            let ghost i = choose|i: int| 0 <= i < self.ranges().len() && #[trigger] self.ranges()[i].0 == name@;
            proof {
                assert(encode_utf8(self.ranges()[i].0).len() <= MAX_NAME_LENGTH);
            }
            return Err(Error::MemoryRangeAlreadyExists(name_from(name)));
        }
        let name = match name_from_str(name) {
            Ok(n) => n,
            Err(()) => {
                return Err(Error::NameTooLong);
            },
        };
        let memory_range = VirtualMemoryRange { va, name, size_bytes, attributes, permissions, pmr };
        let ghost prev = self.memory_ranges@;
        self.memory_ranges.push(memory_range);
        proof {
            assert(range_views(self.memory_ranges@) =~= range_views(prev).push(
                range_view(memory_range),
            ));
            assert(self.memory_ranges@.take(prev.len() as int) =~= prev);
        }
        Ok(())
    }

    /// Maps `[va, va + size_bytes)` to the pages of `pmr` and records the
    /// range as `name`. The mapping stays when recording the range fails.
    pub fn map_section(
        &mut self,
        name: &str,
        va: VirtualAddress,
        pmr: PhysicalMemoryRegion,
        size_bytes: usize,
        permissions: GlobalPermissions,
    ) -> (result: Result<(), Error>)
        requires
            old(self).wf(),
            va.addr() % 0x4000 == 0,
            va.addr() + size_bytes <= u64::MAX,
            size_bytes + 0x4000 <= u64::MAX,
            va.addr() + page_round(size_bytes as int) <= 0x1_0000_0000_0000_0000,
            pmr.view().0 + page_round(size_bytes as int) <= 0x1_0000_0000_0000_0000,
            map_ok(old(self).table(), 0, va.addr() as int, pmr.view().0 as int, size_bytes as int),
            perm_bits(permissions) is Some,
        ensures
            final(self).wf(),
            map_result(
                final(self).table(),
                old(self).table(),
                0,
                va.addr() as int,
                pmr.view().0 as int,
                size_bytes as int,
                Attributes::Normal,
                permissions,
                Ok(()),
            ),
            add_range_result(old(self).ranges(), final(self).ranges(), name, va.addr(), size_bytes as int, result),
            recorded(old(self).records(), final(self).records(), va, size_bytes, Attributes::Normal, permissions, pmr, result),
    {
        let pa = pmr.base_address();
        let mapped = self.address_table.map_region(va, pa, size_bytes, Attributes::Normal, permissions);
        proof {
            assert(mapped is Ok);
            assert(self.ranges() == old(self).ranges());
            assert(self.records() == old(self).records());
        }
        self.add_virtual_range(name, va, pmr, size_bytes, Attributes::Normal, permissions)
    }
}

/// A range of the kernel's logical map.
pub struct LogicalMemoryRange {
    pub la: LogicalAddress,
    pub size_bytes: usize,
    pub name: heapless::String<32>,
    pub attributes: Attributes,
    pub permissions: Permissions,
    pub physical_region: Option<PhysicalMemoryRegion>,
}

/// A range of the I/O window.
pub struct MMIORange {
    pub va: VirtualAddress,
    pub size_bytes: usize,
    pub name: heapless::String<32>,
}

/// Any kind of range.
pub enum GenericMemoryRange {
    Logical(LogicalMemoryRange),
    Virtual(VirtualMemoryRange),
    Mmio(MMIORange),
}

impl MemoryRange for LogicalMemoryRange {
    open spec fn spec_start(&self) -> u64 {
        self.la.addr()
    }

    open spec fn spec_size(&self) -> usize {
        self.size_bytes
    }

    fn virtual_address(&self) -> (va: VirtualAddress) {
        self.la.into_virtual()
    }

    fn size_bytes(&self) -> (size: usize) {
        self.size_bytes
    }
}

impl MemoryRange for MMIORange {
    open spec fn spec_start(&self) -> u64 {
        self.va.addr()
    }

    open spec fn spec_size(&self) -> usize {
        self.size_bytes
    }

    fn virtual_address(&self) -> (va: VirtualAddress) {
        self.va
    }

    fn size_bytes(&self) -> (size: usize) {
        self.size_bytes
    }
}

pub open spec fn generic_view(r: GenericMemoryRange) -> RangeView {
    match r {
        GenericMemoryRange::Logical(l) => logical_view(l),
        GenericMemoryRange::Virtual(v) => range_view(v),
        GenericMemoryRange::Mmio(m) => mmio_view(m),
    }
}

impl MemoryRange for GenericMemoryRange {
    open spec fn spec_start(&self) -> u64 {
        generic_view(*self).1
    }

    open spec fn spec_size(&self) -> usize {
        generic_view(*self).2 as usize
    }

    fn virtual_address(&self) -> (va: VirtualAddress) {
        match self {
            GenericMemoryRange::Logical(range) => range.virtual_address(),
            GenericMemoryRange::Virtual(range) => range.virtual_address(),
            GenericMemoryRange::Mmio(range) => range.virtual_address(),
        }
    }

    fn size_bytes(&self) -> (size: usize) {
        match self {
            GenericMemoryRange::Logical(range) => range.size_bytes(),
            GenericMemoryRange::Virtual(range) => range.size_bytes(),
            GenericMemoryRange::Mmio(range) => range.size_bytes(),
        }
    }
}

pub open spec fn logical_view(r: LogicalMemoryRange) -> RangeView {
    (name_text(r.name), r.la.addr(), r.size_bytes as int)
}

pub open spec fn logical_views(rs: Seq<LogicalMemoryRange>) -> Seq<RangeView> {
    rs.map_values(|r: LogicalMemoryRange| logical_view(r))
}

pub open spec fn mmio_view(r: MMIORange) -> RangeView {
    (name_text(r.name), r.va.addr(), r.size_bytes as int)
}

pub open spec fn mmio_views(rs: Seq<MMIORange>) -> Seq<RangeView> {
    rs.map_values(|r: MMIORange| mmio_view(r))
}

/// The index of the first range called `name`.
pub open spec fn first_named(rs: Seq<RangeView>, name: Seq<char>, i: int) -> Option<int>
    decreases rs.len() - i,
{
    if i < 0 || i >= rs.len() {
        None
    } else if rs[i].0 == name {
        Some(i)
    } else {
        first_named(rs, name, i + 1)
    }
}

/// The kernel's address space: the tables of the upper and the lower half,
/// and the named ranges of the logical map, of virtual memory and of the
/// I/O window.
pub struct KernelAddressSpace {
    high_address_table: LevelTable,
    low_address_table: LevelTable,
    virtual_ranges: Vec<VirtualMemoryRange>,
    logical_ranges: Vec<LogicalMemoryRange>,
    mmio_ranges: Vec<MMIORange>,
    mmio_offset: usize,
}

impl KernelAddressSpace {
    pub closed spec fn logical(&self) -> Seq<RangeView> {
        logical_views(self.logical_ranges@)
    }

    pub closed spec fn virtual_ranges(&self) -> Seq<RangeView> {
        range_views(self.virtual_ranges@)
    }

    pub closed spec fn mmio(&self) -> Seq<RangeView> {
        mmio_views(self.mmio_ranges@)
    }

    /// The logical ranges as recorded, with their attributes, permissions
    /// and pages.
    pub closed spec fn logical_records(&self) -> Seq<LogicalMemoryRange> {
        self.logical_ranges@
    }

    /// The virtual ranges as recorded.
    pub closed spec fn virtual_records(&self) -> Seq<VirtualMemoryRange> {
        self.virtual_ranges@
    }

    /// The ranges are the views of the records.
    pub proof fn lemma_records(&self)
        ensures
            self.logical() == logical_views(self.logical_records()),
            self.virtual_ranges() == range_views(self.virtual_records()),
    {
    }

    /// Bytes of the I/O window handed out so far.
    pub closed spec fn io_used(&self) -> int {
        self.mmio_offset as int
    }

    pub closed spec fn high(&self) -> LevelTable {
        self.high_address_table
    }

    pub closed spec fn low(&self) -> LevelTable {
        self.low_address_table
    }

    /// The tables are well formed, every range ends inside the address
    /// space, and every name fits in 32 bytes.
    pub open spec fn wf(&self) -> bool {
        &&& wf_table(self.high(), 0)
        &&& wf_table(self.low(), 0)
        &&& self.io_used() <= MMIO_SIZE
        &&& self.io_used() % 0x4000 == 0
        &&& forall|i: int| 0 <= i < self.logical().len() ==> #[trigger] self.logical()[i].1 + self.logical()[i].2 <= u64::MAX
        &&& forall|i: int| 0 <= i < self.logical().len() ==> encode_utf8(#[trigger] self.logical()[i].0).len() <= MAX_NAME_LENGTH
        &&& forall|i: int| 0 <= i < self.virtual_ranges().len() ==> encode_utf8(#[trigger] self.virtual_ranges()[i].0).len() <= MAX_NAME_LENGTH
    }

    pub fn new() -> (space: Self)
        ensures
            space.wf(),
            space.logical() == Seq::<RangeView>::empty(),
            space.virtual_ranges() == Seq::<RangeView>::empty(),
            space.mmio() == Seq::<RangeView>::empty(),
            space.io_used() == 0,
            forall|o: int| #![trigger translate(space.high(), 0, o)] translate(space.high(), 0, o) is None,
            forall|o: int| #![trigger translate(space.low(), 0, o)] translate(space.low(), 0, o) is None,
    {
        let space = Self {
            high_address_table: LevelTable::new(),
            low_address_table: LevelTable::new(),
            virtual_ranges: Vec::new(),
            logical_ranges: Vec::new(),
            mmio_ranges: Vec::new(),
            mmio_offset: 0,
        };
        assert(space.logical() =~= Seq::<RangeView>::empty());
        assert(space.virtual_ranges() =~= Seq::<RangeView>::empty());
        assert(space.mmio() =~= Seq::<RangeView>::empty());
        space
    }

    /// Only the logical ranges are looked at.
    fn check_overlaps(&self, va: VirtualAddress, size_bytes: usize) -> (result: Result<(), Error>)
        requires
            self.wf(),
            va.addr() + size_bytes <= u64::MAX,
        ensures
            match first_overlap(self.logical(), va.addr(), size_bytes as int, 0) {
                None => result is Ok,
                Some(i) => result matches Err(Error::MemoryRangeOverlaps(n)) && name_text(n)
                    == self.logical()[i].0,
            },
    {
        let mut i: usize = 0;
        while i < self.logical_ranges.len()
            invariant
                self.wf(),
                va.addr() + size_bytes <= u64::MAX,
                i <= self.logical_ranges@.len(),
                first_overlap(self.logical(), va.addr(), size_bytes as int, i as int) == first_overlap(
                    self.logical(),
                    va.addr(),
                    size_bytes as int,
                    0,
                ),
            decreases self.logical_ranges@.len() - i,
        {
            let range = &self.logical_ranges[i];
            assert(self.logical()[i as int] == logical_view(*range));
            if range.overlaps(va, size_bytes) {
                return Err(Error::MemoryRangeOverlaps(name_clone(&range.name)));
            }
            i = i + 1;
        }
        Ok(())
    }

    /// Whether a logical or virtual range is called `name`.
    fn find_by_name(&self, name: &str) -> (found: bool)
        ensures
            found == (has_name(self.logical(), name@) || has_name(self.virtual_ranges(), name@)),
    {
        let mut i: usize = 0;
        while i < self.logical_ranges.len()
            invariant
                i <= self.logical_ranges@.len(),
                forall|j: int| 0 <= j < i ==> #[trigger] self.logical()[j].0 != name@,
            decreases self.logical_ranges@.len() - i,
        {
            assert(self.logical()[i as int] == logical_view(self.logical_ranges@[i as int]));
            if name_eq(&self.logical_ranges[i].name, name) {
                assert(self.logical()[i as int].0 == name@);
                return true;
            }
            i = i + 1;
        }
        let mut k: usize = 0;
        while k < self.virtual_ranges.len()
            invariant
                k <= self.virtual_ranges@.len(),
                !has_name(self.logical(), name@),
                forall|j: int| 0 <= j < k ==> #[trigger] self.virtual_ranges()[j].0 != name@,
            decreases self.virtual_ranges@.len() - k,
        {
            assert(self.virtual_ranges()[k as int] == range_view(self.virtual_ranges@[k as int]));
            if name_eq(&self.virtual_ranges[k].name, name) {
                assert(self.virtual_ranges()[k as int].0 == name@);
                return true;
            }
            k = k + 1;
        }
        false
    }

    /// Records a range of the logical map called `name`. It fails, changing
    /// nothing, when the range overlaps another logical range, when a
    /// logical or virtual range has that name, or when the name is longer
    /// than 32 bytes.
    pub fn add_logical_range(
        &mut self,
        name: &str,
        la: LogicalAddress,
        size_bytes: usize,
        attributes: Attributes,
        permissions: Permissions,
        physical_region: Option<PhysicalMemoryRegion>,
    ) -> (result: Result<&LogicalMemoryRange, Error>)
        requires
            old(self).wf(),
            la.addr() + size_bytes <= u64::MAX,
        ensures
            final(self).wf(),
            final(self).high() == old(self).high(),
            final(self).low() == old(self).low(),
            final(self).virtual_ranges() == old(self).virtual_ranges(),
            final(self).mmio() == old(self).mmio(),
            final(self).io_used() == old(self).io_used(),
            match first_overlap(old(self).logical(), la.addr(), size_bytes as int, 0) {
                Some(i) => {
                    &&& result matches Err(Error::MemoryRangeOverlaps(n)) && name_text(n) == old(self).logical()[i].0
                    &&& final(self).logical() == old(self).logical()
                },
                None => if has_name(old(self).logical(), name@) || has_name(old(self).virtual_ranges(), name@) {
                    &&& result matches Err(Error::MemoryRangeAlreadyExists(n)) && name_text(n) == name@
                    &&& final(self).logical() == old(self).logical()
                } else if name.spec_bytes().len() > 32 {
                    &&& result matches Err(Error::NameTooLong)
                    &&& final(self).logical() == old(self).logical()
                } else {
                    &&& result matches Ok(r) && logical_view(*r) == (name@, la.addr(), size_bytes as int)
                        && r.attributes == attributes && r.permissions == permissions
                        && r.physical_region == physical_region
                        && final(self).logical_records() == old(self).logical_records().push(*r)
                    &&& final(self).logical() == old(self).logical().push((name@, la.addr(), size_bytes as int))
                },
            },
            result is Err ==> final(self).logical_records() == old(self).logical_records(),
            final(self).virtual_records() == old(self).virtual_records(),
    {
        match self.check_overlaps(la.into_virtual(), size_bytes) {
            Ok(()) => {},
            Err(e) => {
                return Err(e);
            },
        }
        if self.find_by_name(name) {
            proof {
                if has_name(self.logical(), name@) {
                    let i = choose|i: int| 0 <= i < self.logical().len() && #[trigger] self.logical()[i].0 == name@;
                    assert(encode_utf8(self.logical()[i].0).len() <= MAX_NAME_LENGTH);
                } else {
                    let i = choose|i: int| 0 <= i < self.virtual_ranges().len() && #[trigger] self.virtual_ranges()[i].0 == name@;
                    assert(encode_utf8(self.virtual_ranges()[i].0).len() <= MAX_NAME_LENGTH);
                }
            }
            return Err(Error::MemoryRangeAlreadyExists(name_from(name)));
        }
        let name = match name_from_str(name) {
            Ok(n) => n,
            Err(()) => {
                return Err(Error::NameTooLong);
            },
        };
        let memory_range = LogicalMemoryRange {
            la,
            name,
            size_bytes,
            attributes,
            permissions,
            physical_region,
        };
        let ghost prev = self.logical_ranges@;
        self.logical_ranges.push(memory_range);
        proof {
            assert(logical_views(self.logical_ranges@) =~= logical_views(prev).push(
                logical_view(memory_range),
            ));
        }
        let last = self.logical_ranges.len() - 1;
        Ok(&self.logical_ranges[last])
    }

    /// Hands out the next `size_bytes` of the I/O window, rounded up to
    /// whole pages, and records them as `name`. When the name is too long
    /// the window still moves on.
    pub fn allocate_io_range(&mut self, name: &str, size_bytes: usize) -> (result: Result<
        VirtualAddress,
        Error,
    >)
        requires
            old(self).wf(),
            old(self).io_used() + page_round(size_bytes as int) <= MMIO_SIZE,
        ensures
            final(self).wf(),
            final(self).high() == old(self).high(),
            final(self).low() == old(self).low(),
            final(self).logical() == old(self).logical(),
            final(self).virtual_ranges() == old(self).virtual_ranges(),
            final(self).io_used() == old(self).io_used() + page_round(size_bytes as int),
            name.spec_bytes().len() > 32 ==> (result matches Err(Error::NameTooLong))
                && final(self).mmio() == old(self).mmio(),
            name.spec_bytes().len() <= 32 ==> (result matches Ok(va) && va.addr() == MMIO_BASE
                + old(self).io_used() && final(self).mmio() == old(self).mmio().push(
                (name@, va.addr(), size_bytes as int),
            )),
    {
        let num_pages = num_pages_from_bytes(size_bytes);
        proof {
            lemma_pages_bytes(size_bytes as int);
        }
        let offset = self.mmio_offset;
        let va = VirtualAddress::new_unchecked(MMIO_BASE + offset as u64);
        self.mmio_offset = self.mmio_offset + num_pages * 0x4000;
        assert(self.io_used() == old(self).io_used() + page_round(size_bytes as int));
        assert(self.logical() == old(self).logical());
        assert(self.virtual_ranges() == old(self).virtual_ranges());
        let name = match name_from_str(name) {
            Ok(n) => n,
            Err(()) => {
                return Err(Error::NameTooLong);
            },
        };
        let range = MMIORange { va, name, size_bytes };
        let ghost prev = self.mmio_ranges@;
        self.mmio_ranges.push(range);
        proof {
            assert(mmio_views(self.mmio_ranges@) =~= mmio_views(prev).push(mmio_view(range)));
        }
        Ok(va)
    }

    /// Removes the range called `name`: the first logical one, else the
    /// first virtual one, else the first I/O one.
    pub fn remove_range_by_name(&mut self, name: &str) -> (result: Result<GenericMemoryRange, Error>)
        requires
            old(self).wf(),
        ensures
            final(self).wf(),
            final(self).high() == old(self).high(),
            final(self).low() == old(self).low(),
            final(self).io_used() == old(self).io_used(),
            match first_named(old(self).logical(), name@, 0) {
                Some(i) => {
                    &&& result matches Ok(GenericMemoryRange::Logical(r)) && r == old(self).logical_records()[i]
                    &&& final(self).logical_records() == old(self).logical_records().remove(i)
                    &&& final(self).virtual_records() == old(self).virtual_records()
                    &&& result matches Ok(r) && r is Logical && generic_view(r) == old(self).logical()[i]
                    &&& final(self).logical() == old(self).logical().remove(i)
                    &&& final(self).virtual_ranges() == old(self).virtual_ranges()
                    &&& final(self).mmio() == old(self).mmio()
                },
                None => match first_named(old(self).virtual_ranges(), name@, 0) {
                    Some(i) => {
                        &&& result matches Ok(GenericMemoryRange::Virtual(r)) && r == old(self).virtual_records()[i]
                        &&& final(self).virtual_records() == old(self).virtual_records().remove(i)
                        &&& final(self).logical_records() == old(self).logical_records()
                        &&& result matches Ok(r) && r is Virtual && generic_view(r) == old(self).virtual_ranges()[i]
                        &&& final(self).logical() == old(self).logical()
                        &&& final(self).virtual_ranges() == old(self).virtual_ranges().remove(i)
                        &&& final(self).mmio() == old(self).mmio()
                    },
                    None => match first_named(old(self).mmio(), name@, 0) {
                        Some(i) => {
                            &&& final(self).logical_records() == old(self).logical_records()
                            &&& final(self).virtual_records() == old(self).virtual_records()
                            &&& result matches Ok(r) && r is Mmio && generic_view(r) == old(self).mmio()[i]
                            &&& final(self).logical() == old(self).logical()
                            &&& final(self).virtual_ranges() == old(self).virtual_ranges()
                            &&& final(self).mmio() == old(self).mmio().remove(i)
                        },
                        None => {
                            &&& final(self).logical() == old(self).logical()
                            &&& final(self).virtual_ranges() == old(self).virtual_ranges()
                            &&& final(self).mmio() == old(self).mmio()
                            &&& final(self).logical_records() == old(self).logical_records()
                            &&& final(self).virtual_records() == old(self).virtual_records()
                            &&& name.spec_bytes().len() <= 32 ==> (result matches Err(Error::MemoryRangeNotFound(n)) && name_text(n) == name@)
                            &&& name.spec_bytes().len() > 32 ==> (result matches Err(Error::NameTooLong))
                        },
                    },
                },
            },
    {
        let mut i: usize = 0;
        while i < self.logical_ranges.len()
            invariant
                *self == *old(self),
                old(self).wf(),
                i <= self.logical_ranges@.len(),
                first_named(self.logical(), name@, i as int) == first_named(self.logical(), name@, 0),
            decreases self.logical_ranges@.len() - i,
        {
            assert(self.logical()[i as int] == logical_view(self.logical_ranges@[i as int]));
            if name_eq(&self.logical_ranges[i].name, name) {
                let ghost prev = self.logical_ranges@;
                let range = self.logical_ranges.remove(i);
                proof {
                    assert(logical_views(self.logical_ranges@) =~= logical_views(prev).remove(i as int));
                    let o = old(self).logical();
                    assert forall|j: int| 0 <= j < self.logical().len() implies #[trigger] self.logical()[j].1 + self.logical()[j].2 <= u64::MAX
                        && encode_utf8(self.logical()[j].0).len() <= MAX_NAME_LENGTH by {
                        if j < i {
                            assert(self.logical()[j] == o[j]);
                        } else {
                            assert(self.logical()[j] == o[j + 1]);
                        }
                    }
                }
                return Ok(GenericMemoryRange::Logical(range));
            }
            i = i + 1;
        }
        let mut k: usize = 0;
        while k < self.virtual_ranges.len()
            invariant
                *self == *old(self),
                old(self).wf(),
                first_named(old(self).logical(), name@, 0) is None,
                k <= self.virtual_ranges@.len(),
                first_named(self.virtual_ranges(), name@, k as int) == first_named(self.virtual_ranges(), name@, 0),
            decreases self.virtual_ranges@.len() - k,
        {
            assert(self.virtual_ranges()[k as int] == range_view(self.virtual_ranges@[k as int]));
            if name_eq(&self.virtual_ranges[k].name, name) {
                let ghost prev = self.virtual_ranges@;
                let range = self.virtual_ranges.remove(k);
                proof {
                    assert(range_views(self.virtual_ranges@) =~= range_views(prev).remove(k as int));
                    let o = old(self).virtual_ranges();
                    assert forall|j: int| 0 <= j < self.virtual_ranges().len() implies encode_utf8(#[trigger] self.virtual_ranges()[j].0).len() <= MAX_NAME_LENGTH by {
                        if j < k {
                            assert(self.virtual_ranges()[j] == o[j]);
                        } else {
                            assert(self.virtual_ranges()[j] == o[j + 1]);
                        }
                    }
                }
                return Ok(GenericMemoryRange::Virtual(range));
            }
            k = k + 1;
        }
        let mut m: usize = 0;
        while m < self.mmio_ranges.len()
            invariant
                *self == *old(self),
                old(self).wf(),
                first_named(old(self).logical(), name@, 0) is None,
                first_named(old(self).virtual_ranges(), name@, 0) is None,
                m <= self.mmio_ranges@.len(),
                first_named(self.mmio(), name@, m as int) == first_named(self.mmio(), name@, 0),
            decreases self.mmio_ranges@.len() - m,
        {
            assert(self.mmio()[m as int] == mmio_view(self.mmio_ranges@[m as int]));
            if name_eq(&self.mmio_ranges[m].name, name) {
                let ghost prev = self.mmio_ranges@;
                let range = self.mmio_ranges.remove(m);
                proof {
                    assert(mmio_views(self.mmio_ranges@) =~= mmio_views(prev).remove(m as int));
                }
                return Ok(GenericMemoryRange::Mmio(range));
            }
            m = m + 1;
        }
        match name_from_str(name) {
            Ok(n) => Err(Error::MemoryRangeNotFound(n)),
            Err(()) => Err(Error::NameTooLong),
        }
    }

    /// The table of the upper half, to change it in place.
    pub fn high_table(&mut self) -> (t: &mut LevelTable)
        ensures
            *t == old(self).high(),
            final(self).high() == *final(t),
            final(self).low() == old(self).low(),
            final(self).logical() == old(self).logical(),
            final(self).virtual_ranges() == old(self).virtual_ranges(),
            final(self).mmio() == old(self).mmio(),
            final(self).io_used() == old(self).io_used(),
    {
        &mut self.high_address_table
    }

    /// The table of the lower half, to change it in place.
    pub fn low_table(&mut self) -> (t: &mut LevelTable)
        ensures
            *t == old(self).low(),
            final(self).low() == *final(t),
            final(self).high() == old(self).high(),
            final(self).logical() == old(self).logical(),
            final(self).virtual_ranges() == old(self).virtual_ranges(),
            final(self).mmio() == old(self).mmio(),
            final(self).io_used() == old(self).io_used(),
    {
        &mut self.low_address_table
    }
}

proof fn lemma_pages_bytes(size: int)
    requires
        0 <= size,
    ensures
        ((size + 16384 - 1) / 16384) * 0x4000 == page_round(size),
{
    assert(((size + 16383) / 16384) * 16384 == (if size % 16384 == 0 { size } else { size + 16384 - size % 16384 })) by (nonlinear_arith)
        requires
            0 <= size,
    ;
}

/// What adding a range called `name` at `[va, va + size)` answers and does
/// to the ranges `old`.
/// What recording a range of virtual memory leaves in the records: on
/// success one more record, at the end, that holds the start, size,
/// attributes, permissions and pages it was given; otherwise the records as
/// they were.
pub open spec fn recorded(
    old: Seq<VirtualMemoryRange>,
    new: Seq<VirtualMemoryRange>,
    va: VirtualAddress,
    size: usize,
    attributes: Attributes,
    permissions: GlobalPermissions,
    pmr: PhysicalMemoryRegion,
    result: Result<(), Error>,
) -> bool {
    match result {
        Ok(()) => {
            &&& new.len() == old.len() + 1
            &&& new.take(old.len() as int) == old
            &&& new.last().va == va
            &&& new.last().size_bytes == size
            &&& new.last().attributes == attributes
            &&& new.last().permissions == permissions
            &&& new.last().pmr == pmr
        },
        Err(_) => new == old,
    }
}

pub open spec fn add_range_result(
    old: Seq<RangeView>,
    new: Seq<RangeView>,
    name: &str,
    va: u64,
    size: int,
    result: Result<(), Error>,
) -> bool {
    match first_overlap(old, va, size, 0) {
        Some(i) => {
            &&& result matches Err(Error::MemoryRangeOverlaps(n)) && name_text(n) == old[i].0
            &&& new == old
        },
        None => if has_name(old, name@) {
            &&& result matches Err(Error::MemoryRangeAlreadyExists(n)) && name_text(n) == name@
            &&& new == old
        } else if name.spec_bytes().len() > 32 {
            &&& result matches Err(Error::NameTooLong)
            &&& new == old
        } else {
            &&& result is Ok
            &&& new == old.push((name@, va, size))
        },
    }
}

} // verus!
