use p1c0_kernel::memory::address::{
    Address, Error, LogicalAddress, PhysicalAddress, VirtualAddress,
};
use p1c0_kernel::memory::map::{KERNEL_LOGICAL_BASE, KERNEL_LOGICAL_SIZE};
use p1c0_kernel::memory::num_pages_from_bytes;

#[test]
fn unaligned_addresses_are_refused() {
    assert!(matches!(
        VirtualAddress::try_from_ptr(0x4001),
        Err(Error::UnalignedAddress)
    ));
    assert!(matches!(
        PhysicalAddress::try_from_ptr(0x10),
        Err(Error::UnalignedAddress)
    ));
    assert_eq!(VirtualAddress::try_from_ptr(0x8000).unwrap().as_u64(), 0x8000);
}

#[test]
fn page_number_and_alignment() {
    let pa = PhysicalAddress::from_unaligned_ptr(0x12345);
    assert!(!pa.is_page_aligned());
    assert_eq!(pa.align_to_page().as_u64(), 0x10000);
    assert_eq!(pa.page_number(), 4);
    assert!(PhysicalAddress::new_unchecked(0).is_null());
}

#[test]
fn logical_addresses_map_back_to_physical() {
    let pa = PhysicalAddress::try_from_ptr(0x4000).unwrap();
    let la = pa.try_into_logical().unwrap();
    assert_eq!(la.as_u64(), KERNEL_LOGICAL_BASE + 0x4000);
    assert_eq!(la.into_physical(), pa);
    assert_eq!(la.into_virtual().as_u64(), la.as_u64());
    assert!(matches!(
        LogicalAddress::try_from_ptr(0x1000),
        Err(Error::AddressOutOfRange)
    ));
    assert!(matches!(
        LogicalAddress::try_from_ptr(KERNEL_LOGICAL_BASE + KERNEL_LOGICAL_SIZE + 1),
        Err(Error::AddressOutOfRange)
    ));
}

#[test]
fn offsets_and_distances() {
    let a = PhysicalAddress::new_unchecked(0x8000);
    let b = PhysicalAddress::new_unchecked(0x4000);
    assert_eq!(a.offset_from(b), 0x4000);
    assert_eq!(b.offset_from(a), -0x4000);
    assert_eq!(a.offset(0x10).as_u64(), 0x8010);
    let va = VirtualAddress::new_unchecked(0x9000);
    assert_eq!(va.remove_base(VirtualAddress::new_unchecked(0x1000)).as_u64(), 0x8000);
    assert!(VirtualAddress::new_unchecked(0xFFFF_0000_0000_0000).is_high_address());
    assert!(!va.is_high_address());
}

#[test]
fn pages_needed_for_bytes() {
    assert_eq!(num_pages_from_bytes(0), 0);
    assert_eq!(num_pages_from_bytes(1), 1);
    assert_eq!(num_pages_from_bytes(16384), 1);
    assert_eq!(num_pages_from_bytes(16385), 2);
}
