use p1c0_kernel::arch::mmu::PAGE_BITS;
use p1c0_kernel::memory::address::PhysicalAddress;
use p1c0_kernel::memory::physical_page_allocator::{
    Error, PhysicalMemoryRegion, PhysicalPageAllocator,
};

#[test]
fn add_region() {
    let mut allocator = PhysicalPageAllocator::new();
    let dram_base = PhysicalAddress::try_from_ptr(0x10000000000).unwrap();
    let num_pages = (32 * 1024 * 1024 * 1024) >> PAGE_BITS;

    allocator.add_region(dram_base, num_pages).unwrap();

    assert_eq!(
        allocator.regions(),
        vec![PhysicalMemoryRegion::new(dram_base, num_pages)]
    );
}

#[test]
fn steal_regions() {
    let mut allocator = PhysicalPageAllocator::new();
    let dram_base = PhysicalAddress::try_from_ptr(0x10000000000).unwrap();
    let num_pages = (32 * 1024 * 1024 * 1024) >> PAGE_BITS;

    allocator.add_region(dram_base, num_pages).unwrap();

    assert_eq!(
        allocator.regions(),
        vec![PhysicalMemoryRegion::new(dram_base, num_pages)]
    );

    let region_base = PhysicalAddress::try_from_ptr(0x10000074000).unwrap();
    let num_pages = 7;
    allocator.steal_region(region_base, num_pages).unwrap();

    let second_base = PhysicalAddress::new_unchecked(0x10000090000);
    assert_eq!(
        allocator.regions(),
        vec![
            PhysicalMemoryRegion::new(dram_base, 29),
            PhysicalMemoryRegion::new(second_base, 2097116),
        ]
    );

    let region_base = PhysicalAddress::try_from_ptr(0x10000090000).unwrap();
    let num_pages = 9;
    allocator.steal_region(region_base, num_pages).unwrap();

    let region_base = PhysicalAddress::try_from_ptr(0x100000b4000).unwrap();
    let num_pages = 46;
    allocator.steal_region(region_base, num_pages).unwrap();

    let region_base = PhysicalAddress::try_from_ptr(0x1000016c000).unwrap();
    let num_pages = 262144;
    allocator.steal_region(region_base, num_pages).unwrap();

    let third_base = PhysicalAddress::new_unchecked(0x1010016c000);
    assert_eq!(
        allocator.regions(),
        vec![
            PhysicalMemoryRegion::new(dram_base, 29),
            PhysicalMemoryRegion::new(third_base, 1834917)
        ]
    );
}

#[test]
fn adjacent_regions_are_joined() {
    let mut allocator = PhysicalPageAllocator::new();
    let a = PhysicalAddress::try_from_ptr(0x100000).unwrap();
    let b = PhysicalAddress::try_from_ptr(0x100000 + 4 * 0x4000).unwrap();
    allocator.add_region(a, 4).unwrap();
    allocator.add_region(b, 2).unwrap();
    assert_eq!(allocator.regions(), vec![PhysicalMemoryRegion::new(a, 6)]);
}

#[test]
fn overlapping_region_is_refused() {
    let mut allocator = PhysicalPageAllocator::new();
    let a = PhysicalAddress::try_from_ptr(0x100000).unwrap();
    let b = PhysicalAddress::try_from_ptr(0x100000 + 2 * 0x4000).unwrap();
    allocator.add_region(a, 4).unwrap();
    match allocator.add_region(b, 4) {
        Err(Error::RegionOverlapsWith(pa, n)) => {
            assert_eq!(pa, a);
            assert_eq!(n, 4);
        }
        other => panic!("unexpected {:?}", other),
    }
    assert_eq!(allocator.regions(), vec![PhysicalMemoryRegion::new(a, 4)]);
}

#[test]
fn stealing_memory_that_is_not_free_fails() {
    let mut allocator = PhysicalPageAllocator::new();
    let a = PhysicalAddress::try_from_ptr(0x100000).unwrap();
    allocator.add_region(a, 4).unwrap();
    let far = PhysicalAddress::try_from_ptr(0x900000).unwrap();
    assert!(matches!(
        allocator.steal_region(far, 1),
        Err(Error::RegionNotAvailable)
    ));
    assert_eq!(allocator.regions(), vec![PhysicalMemoryRegion::new(a, 4)]);
}

#[test]
fn requested_pages_can_be_released() {
    let mut allocator = PhysicalPageAllocator::new();
    let a = PhysicalAddress::try_from_ptr(0x100000).unwrap();
    allocator.add_region(a, 8).unwrap();
    let region = allocator.request_pages(a, 8).unwrap();
    assert_eq!(region.base_address(), a);
    assert_eq!(region.num_pages(), 8);
    assert!(allocator.regions().is_empty());
    allocator.release_pages(region).unwrap();
    assert_eq!(allocator.regions(), vec![PhysicalMemoryRegion::new(a, 8)]);
}

#[test]
fn pages_taken_from_the_middle_come_back_as_one_region() {
    let mut allocator = PhysicalPageAllocator::new();
    let a = PhysicalAddress::try_from_ptr(0x100000).unwrap();
    allocator.add_region(a, 16).unwrap();
    let middle = PhysicalAddress::try_from_ptr(0x100000 + 4 * 0x4000).unwrap();
    let region = allocator.request_pages(middle, 3).unwrap();
    assert_eq!(
        allocator.regions(),
        vec![
            PhysicalMemoryRegion::new(a, 4),
            PhysicalMemoryRegion::new(PhysicalAddress::try_from_ptr(0x100000 + 7 * 0x4000).unwrap(), 9),
        ]
    );
    allocator.release_pages(region).unwrap();
    assert_eq!(allocator.regions(), vec![PhysicalMemoryRegion::new(a, 16)]);
}
