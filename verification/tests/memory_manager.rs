use p1c0_kernel::memory::address::Address;
use p1c0_kernel::memory::address::{LogicalAddress, PhysicalAddress};
use p1c0_kernel::memory::address_space::Error as SpaceError;
use p1c0_kernel::memory::map::{KernelSection, KernelSectionId, KERNEL_LOGICAL_BASE, MMIO_BASE};
use p1c0_kernel::memory::physical_page_allocator::{Error as PageError, PhysicalMemoryRegion};
use p1c0_kernel::memory::{Attributes, Error, MemoryManager, Permissions};

const DRAM: u64 = 0x8_0000_0000;

fn sections() -> Vec<KernelSection> {
    vec![
        KernelSection::from_id(KernelSectionId::Text, DRAM, DRAM + 0x8000, false),
        KernelSection::from_id(KernelSectionId::RoData, DRAM + 0x8000, DRAM + 0xc000, false),
        KernelSection::from_id(KernelSectionId::Data, DRAM + 0xc000, DRAM + 0x1_0000, false),
    ]
}

fn pa(addr: u64) -> PhysicalAddress {
    PhysicalAddress::try_from_ptr(addr).unwrap()
}

#[test]
fn io_ranges_are_handed_out_in_order() {
    let mut mm = MemoryManager::new();
    let first = mm.map_io("uart", pa(0x2_3520_0000), 0x4000).unwrap();
    assert_eq!(first.as_u64(), MMIO_BASE);
    let second = mm.map_io("spi", pa(0x2_3510_0000), 0x100).unwrap();
    assert_eq!(second.as_u64(), MMIO_BASE + 0x4000);
    let third = mm.map_io("gpio", pa(0x2_3c10_0000), 0x8000).unwrap();
    assert_eq!(third.as_u64(), MMIO_BASE + 0x8000);
}

#[test]
fn io_range_with_a_long_name_is_refused() {
    let mut mm = MemoryManager::new();
    let long = "a-name-that-is-far-too-long-to-fit-in-32-bytes";
    assert!(matches!(
        mm.map_io(long, pa(0x2_3520_0000), 0x4000),
        Err(Error::AddressSpaceError(SpaceError::NameTooLong))
    ));
    // The window still moved on.
    let next = mm.map_io("uart", pa(0x2_3520_0000), 0x4000).unwrap();
    assert_eq!(next.as_u64(), MMIO_BASE + 0x4000);
}

#[test]
fn removing_a_mapping_by_name() {
    let mut mm = MemoryManager::new();
    mm.map_io("uart", pa(0x2_3520_0000), 0x4000).unwrap();
    assert!(mm.remove_mapping_by_name("uart").is_ok());
    match mm.remove_mapping_by_name("uart") {
        Err(Error::AddressSpaceError(SpaceError::MemoryRangeNotFound(name))) => {
            assert_eq!(name.as_str(), "uart")
        }
        _ => panic!("the range is gone"),
    }
}

#[test]
fn boot_mappings_are_made() {
    let mut mm = MemoryManager::new();
    let mmio = vec![(0x2_0000_0000u64, 0x10_0000usize), (0x3_0000_0000u64, 0x4000usize)];
    mm.add_default_mappings(DRAM, 0x100_0000, &sections(), &mmio);
    // The upper half still takes I/O mappings afterwards.
    let va = mm.map_io("uart", pa(0x2_3520_0000), 0x4000).unwrap();
    assert_eq!(va.as_u64(), MMIO_BASE);
}

#[test]
fn kernel_sections_are_mapped_one_by_one() {
    let mut mm = MemoryManager::new();
    let secs = sections();
    assert!(mm.add_kernel_mapping(&secs[0]).is_ok());
    let mut other = MemoryManager::new();
    assert!(other.add_kernel_mappings(&secs).is_ok());
}

#[test]
fn kernel_sections_are_recorded_once() {
    let mut mm = MemoryManager::new();
    let secs = sections();
    assert!(mm.initialize_address_space(&secs).is_ok());
    assert!(matches!(
        mm.initialize_address_space(&secs),
        Err(Error::AddressSpaceError(SpaceError::MemoryRangeOverlaps(_)))
    ));
}

#[test]
fn page_allocator_leaves_out_kernel_and_device_tree() {
    let mut mm = MemoryManager::new();
    let secs = sections();
    mm.initialize_physical_page_allocator(pa(DRAM), 0x100_0000, &secs, pa(DRAM + 0x80_0000), 0x8000)
        .unwrap();
    // The kernel's own pages are taken.
    let la = LogicalAddress::try_from_ptr(KERNEL_LOGICAL_BASE + DRAM).unwrap();
    assert!(matches!(
        mm.map_logical("heap", la, 0x4000, Attributes::Normal, Permissions::RW),
        Err(Error::PageAllocationError(PageError::RegionNotAvailable))
    ));
    // Free pages can be mapped, once.
    let la = LogicalAddress::try_from_ptr(KERNEL_LOGICAL_BASE + DRAM + 0x10_0000).unwrap();
    assert!(mm
        .map_logical("heap", la, 0x8000, Attributes::Normal, Permissions::RW)
        .is_ok());
    assert!(matches!(
        mm.map_logical("heap2", la, 0x8000, Attributes::Normal, Permissions::RW),
        Err(Error::PageAllocationError(PageError::RegionNotAvailable))
    ));
}

#[test]
fn page_allocator_refuses_overlapping_dram() {
    let mut mm = MemoryManager::new();
    let secs = sections();
    mm.initialize_physical_page_allocator(pa(DRAM), 0x100_0000, &secs, pa(DRAM + 0x80_0000), 0x8000)
        .unwrap();
    assert!(matches!(
        mm.initialize_physical_page_allocator(pa(DRAM + 0x20_0000), 0x4000, &Vec::new(), pa(DRAM), 0),
        Err(Error::PageAllocationError(PageError::RegionOverlapsWith(_, _)))
    ));
}

#[test]
fn page_allocator_stops_at_a_section_outside_dram() {
    let mut mm = MemoryManager::new();
    let outside = vec![KernelSection::from_id(KernelSectionId::Text, 0x1_0000_0000, 0x1_0000_4000, false)];
    assert!(matches!(
        mm.initialize_physical_page_allocator(pa(DRAM), 0x10_0000, &outside, pa(DRAM), 0x4000),
        Err(Error::PageAllocationError(PageError::RegionNotAvailable))
    ));
}

#[test]
fn released_pages_can_be_mapped_again() {
    let mut mm = MemoryManager::new();
    mm.initialize_physical_page_allocator(pa(DRAM), 0x10_0000, &Vec::new(), pa(DRAM), 0x4000)
        .unwrap();
    let la = LogicalAddress::try_from_ptr(KERNEL_LOGICAL_BASE + DRAM).unwrap();
    assert!(matches!(
        mm.map_logical("low", la, 0x4000, Attributes::Normal, Permissions::RW),
        Err(Error::PageAllocationError(PageError::RegionNotAvailable))
    ));
    assert!(mm.release_pages(PhysicalMemoryRegion::new(pa(DRAM), 1)).is_ok());
    assert!(mm
        .map_logical("low", la, 0x4000, Attributes::Normal, Permissions::RW)
        .is_ok());
}

#[test]
fn removed_io_range_name_can_be_used_again() {
    let mut mm = MemoryManager::new();
    mm.map_io("uart", pa(0x2_3520_0000), 0x4000).unwrap();
    mm.remove_mapping_by_name("uart").unwrap();
    let again = mm.map_io("uart", pa(0x2_3520_0000), 0x4000).unwrap();
    // The window is not given back: the next range follows the first.
    assert_eq!(again.as_u64(), MMIO_BASE + 0x4000);
    assert!(mm.remove_mapping_by_name("uart").is_ok());
}
