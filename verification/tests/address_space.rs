use p1c0_kernel::memory::address::{LogicalAddress, PhysicalAddress, VirtualAddress};
use p1c0_kernel::memory::address_space::{
    Error, GenericMemoryRange, KernelAddressSpace, MemoryRange, ProcessAddressSpace,
};
use p1c0_kernel::memory::map::MMIO_BASE;
use p1c0_kernel::memory::physical_page_allocator::PhysicalMemoryRegion;
use p1c0_kernel::memory::{Attributes, GlobalPermissions, Permissions};
use p1c0_kernel::arch::mmu::DescriptorType;

fn pmr(pa: u64, pages: usize) -> PhysicalMemoryRegion {
    PhysicalMemoryRegion::new(PhysicalAddress::try_from_ptr(pa).unwrap(), pages)
}

fn rw() -> GlobalPermissions {
    GlobalPermissions::new_for_process(Permissions::RW)
}

#[test]
fn process_sections_are_mapped_and_named() {
    let mut space = ProcessAddressSpace::new();
    let va = VirtualAddress::try_from_ptr(0x40_0000).unwrap();
    space.map_section(".text", va, pmr(0x8000_0000, 1), 0x4000, rw()).unwrap();
    let l1 = space.address_table().entry(0).get_table().unwrap();
    assert!(matches!(l1.entry(0).ty(), DescriptorType::Table));

    let next = VirtualAddress::try_from_ptr(0x40_4000).unwrap();
    space.map_section(".data", next, pmr(0x8000_4000, 1), 0x4000, rw()).unwrap();
}

#[test]
fn duplicate_section_names_are_refused() {
    let va = VirtualAddress::try_from_ptr(0x40_0000).unwrap();
    let mut other = ProcessAddressSpace::new();
    other.map_section(".a", va, pmr(0x9000_0000, 1), 0x4000, rw()).unwrap();
    let far = VirtualAddress::try_from_ptr(0x80_0000).unwrap();
    match other.map_section(".a", far, pmr(0x9100_0000, 1), 0x4000, rw()) {
        Err(Error::MemoryRangeAlreadyExists(n)) => assert_eq!(n.as_str(), ".a"),
        other => panic!("unexpected {:?}", other),
    }
}

#[test]
fn logical_ranges_are_checked_for_overlap_and_names() {
    let mut space = KernelAddressSpace::new();
    let la = LogicalAddress::try_from_ptr(0xFFFF_0200_0000_0000).unwrap();
    let r = space
        .add_logical_range("kernel", la, 0x10000, Attributes::Normal, Permissions::RX, None)
        .unwrap();
    assert_eq!(r.size_bytes(), 0x10000);
    let la2 = LogicalAddress::try_from_ptr(0xFFFF_0200_0000_8000).unwrap();
    match space.add_logical_range("other", la2, 0x1000, Attributes::Normal, Permissions::RW, None) {
        Err(Error::MemoryRangeOverlaps(n)) => assert_eq!(n.as_str(), "kernel"),
        _ => panic!("expected an overlap"),
    }
    let la3 = LogicalAddress::try_from_ptr(0xFFFF_0200_0010_0000).unwrap();
    assert!(matches!(
        space.add_logical_range("kernel", la3, 0x1000, Attributes::Normal, Permissions::RW, None),
        Err(Error::MemoryRangeAlreadyExists(_))
    ));
    let long = "a name that is far too long for a range";
    assert!(matches!(
        space.add_logical_range(long, la3, 0x1000, Attributes::Normal, Permissions::RW, None),
        Err(Error::NameTooLong)
    ));
}

#[test]
fn io_ranges_are_handed_out_in_pages_and_removed_by_name() {
    let mut space = KernelAddressSpace::new();
    let a = space.allocate_io_range("uart", 0x100).unwrap();
    let b = space.allocate_io_range("spi", 0x4001).unwrap();
    let c = space.allocate_io_range("gpio", 0x10).unwrap();
    assert_eq!(a, VirtualAddress::new_unchecked(MMIO_BASE));
    assert_eq!(b, VirtualAddress::new_unchecked(MMIO_BASE + 0x4000));
    assert_eq!(c, VirtualAddress::new_unchecked(MMIO_BASE + 0xC000));
    match space.remove_range_by_name("spi").unwrap() {
        GenericMemoryRange::Mmio(r) => {
            assert_eq!(r.virtual_address(), b);
            assert_eq!(r.size_bytes(), 0x4001);
        }
        _ => panic!("expected an io range"),
    }
    match space.remove_range_by_name("spi") {
        Err(Error::MemoryRangeNotFound(n)) => assert_eq!(n.as_str(), "spi"),
        _ => panic!("expected not found"),
    }
}

#[test]
fn a_removed_logical_range_hands_back_what_was_recorded() {
    let mut space = KernelAddressSpace::new();
    let la = LogicalAddress::try_from_ptr(0xFFFF_0200_0000_0000).unwrap();
    space
        .add_logical_range("heap", la, 0x8000, Attributes::Normal, Permissions::RX, Some(pmr(0x8800_0000, 2)))
        .unwrap();
    match space.remove_range_by_name("heap").unwrap() {
        GenericMemoryRange::Logical(r) => {
            assert_eq!(r.size_bytes, 0x8000);
            assert_eq!(r.la, la);
            assert!(matches!(r.attributes, Attributes::Normal));
            assert_eq!(r.permissions, Permissions::RX);
            assert_eq!(r.physical_region, Some(pmr(0x8800_0000, 2)));
            assert_eq!(r.name.as_str(), "heap");
        }
        _ => panic!("expected a logical range"),
    }
    assert!(matches!(space.remove_range_by_name("heap"), Err(Error::MemoryRangeNotFound(_))));
}
