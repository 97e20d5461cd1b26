use p1c0_kernel::arch::mmu::{DescriptorType, Error, LevelTable};
use p1c0_kernel::memory::address::{Address, PhysicalAddress, VirtualAddress};
use p1c0_kernel::memory::{Attributes, GlobalPermissions, Permissions};

const ENTRIES: usize = 2048;

fn kernel_rwx() -> GlobalPermissions {
    GlobalPermissions::new_only_privileged(Permissions::RWX)
}

#[test]
fn single_page_mapping() {
    let mut table = LevelTable::new();

    let from = VirtualAddress::try_from_ptr(0x012345678000).unwrap();
    let to = PhysicalAddress::try_from_ptr(0x012345678000).unwrap();
    let size = 1 << 14;
    table
        .map_region(from, to, size, Attributes::Normal, kernel_rwx())
        .expect("Adding region was successful");

    assert!(matches!(table.entry(0).ty(), DescriptorType::Table));
    assert!(matches!(table.entry(1).ty(), DescriptorType::Invalid));

    let level1 = table.entry(0).get_table().expect("Is a table");
    for idx in 0..ENTRIES {
        let desc = level1.entry(idx);
        if idx == 0x12 {
            assert!(matches!(desc.ty(), DescriptorType::Table));
        } else {
            assert!(matches!(desc.ty(), DescriptorType::Invalid));
        }
    }

    let level2 = level1.entry(0x12).get_table().expect("Is a table");

    for idx in 0..ENTRIES {
        let desc = level2.entry(idx);
        if idx == 0x1a2 {
            assert!(matches!(desc.ty(), DescriptorType::Table));
        } else {
            assert!(matches!(desc.ty(), DescriptorType::Invalid));
        }
    }

    let level3 = level2.entry(0x1a2).get_table().expect("Is a table");

    for idx in 0..ENTRIES {
        let desc = level3.entry(idx);
        if idx == 0x59e {
            assert!(matches!(desc.ty(), DescriptorType::Page));
            assert_eq!(desc.pa(), Some(to));
        } else {
            assert!(matches!(desc.ty(), DescriptorType::Invalid));
        }
    }
}

#[test]
fn single_block_mapping() {
    let mut table = LevelTable::new();

    let from = VirtualAddress::try_from_ptr(0x12344000000).unwrap();
    let to = PhysicalAddress::try_from_ptr(0x12344000000).unwrap();
    let size = 1 << 25;
    table
        .map_region(from, to, size, Attributes::Normal, kernel_rwx())
        .expect("Adding region was successful");

    assert!(matches!(table.entry(0).ty(), DescriptorType::Table));
    assert!(matches!(table.entry(1).ty(), DescriptorType::Invalid));

    let level1 = table.entry(0).get_table().expect("Is a table");
    for idx in 0..ENTRIES {
        let desc = level1.entry(idx);
        if idx == 0x12 {
            assert!(matches!(desc.ty(), DescriptorType::Table));
        } else {
            assert!(matches!(desc.ty(), DescriptorType::Invalid));
        }
    }

    let level2 = level1.entry(0x12).get_table().expect("Is a table");

    for idx in 0..ENTRIES {
        let desc = level2.entry(idx);
        if idx == 0x1a2 {
            assert!(matches!(desc.ty(), DescriptorType::Block));
            assert_eq!(desc.pa(), Some(to));
        } else {
            assert!(matches!(desc.ty(), DescriptorType::Invalid));
        }
    }
}

#[test]
fn large_aligned_block_mapping() {
    let mut table = LevelTable::new();

    let block_size: usize = 1 << 25;
    let page_size: usize = 1 << 14;

    let from = VirtualAddress::try_from_ptr(0x12344000000).unwrap();
    let to = PhysicalAddress::try_from_ptr(0x12344000000).unwrap();
    let size = block_size + page_size * 4;
    table
        .map_region(from, to, size, Attributes::Normal, kernel_rwx())
        .expect("Adding region was successful");

    assert!(matches!(table.entry(0).ty(), DescriptorType::Table));
    assert!(matches!(table.entry(1).ty(), DescriptorType::Invalid));

    let level1 = table.entry(0).get_table().expect("Is a table");
    for idx in 0..ENTRIES {
        let desc = level1.entry(idx);
        if idx == 0x12 {
            assert!(matches!(desc.ty(), DescriptorType::Table));
        } else {
            assert!(matches!(desc.ty(), DescriptorType::Invalid));
        }
    }

    let level2 = level1.entry(0x12).get_table().expect("Is a table");

    for idx in 0..ENTRIES {
        let desc = level2.entry(idx);
        if idx == 0x1a2 {
            assert!(matches!(desc.ty(), DescriptorType::Block));
            assert_eq!(desc.pa(), Some(to));
        } else if idx == 0x1a3 {
            assert!(matches!(desc.ty(), DescriptorType::Table));
        } else {
            assert!(matches!(desc.ty(), DescriptorType::Invalid));
        }
    }

    let level3 = level2.entry(0x1a3).get_table().expect("Is a table");
    for idx in 0..ENTRIES {
        let desc = level3.entry(idx);
        if idx < 4 {
            assert!(matches!(desc.ty(), DescriptorType::Page));
            let to_addr = to.as_u64() + (block_size + page_size * idx) as u64;
            let to = PhysicalAddress::try_from_ptr(to_addr).expect("Address is aligned");
            assert_eq!(desc.pa(), Some(to));
        } else {
            assert!(matches!(desc.ty(), DescriptorType::Invalid));
        }
    }
}

#[test]
fn large_unaligned_block_mapping() {
    let mut table = LevelTable::new();

    let block_size: usize = 1 << 25;
    let page_size: usize = 1 << 14;
    let va: u64 = 0x12344000000 + (page_size * 2044) as u64;

    let from = VirtualAddress::try_from_ptr(va).unwrap();
    let to = PhysicalAddress::try_from_ptr(0x12344000000).unwrap();
    let size = block_size + page_size * 4;
    table
        
        .map_region(from, to, size, Attributes::Normal, kernel_rwx())
        .expect("Adding region was successful");

    assert!(matches!(table.entry(0).ty(), DescriptorType::Table));
    assert!(matches!(table.entry(1).ty(), DescriptorType::Invalid));

    let level1 = table.entry(0).get_table().expect("Is a table");
    for idx in 0..ENTRIES {
        let desc = level1.entry(idx);
        if idx == 0x12 {
            assert!(matches!(desc.ty(), DescriptorType::Table));
        } else {
            assert!(matches!(desc.ty(), DescriptorType::Invalid));
        }
    }

    let level2 = level1.entry(0x12).get_table().expect("Is a table");

    for idx in 0..ENTRIES {
        let desc = level2.entry(idx);
        if idx == 0x1a2 {
            assert!(matches!(desc.ty(), DescriptorType::Table));
        } else if idx == 0x1a3 {
            assert!(matches!(desc.ty(), DescriptorType::Block));
            let to_addr = to.as_u64() + (page_size * 4) as u64;
            let to = PhysicalAddress::try_from_ptr(to_addr).expect("Address is aligned");
            assert_eq!(desc.pa(), Some(to));
        } else {
            assert!(matches!(desc.ty(), DescriptorType::Invalid));
        }
    }

    let level3 = level2.entry(0x1a2).get_table().expect("Is a table");

    for idx in 0..ENTRIES {
        let desc = level3.entry(idx);
        if idx >= 2044 {
            assert!(matches!(desc.ty(), DescriptorType::Page));
            let to_addr = to.as_u64() + (page_size * (idx - 2044)) as u64;
            let to = PhysicalAddress::try_from_ptr(to_addr).expect("Address is aligned");
            assert_eq!(desc.pa(), Some(to));
        } else {
            assert!(matches!(desc.ty(), DescriptorType::Invalid));
        }
    }
}

#[test]
fn unmap_single_page() {
    let mut table = LevelTable::new();

    let from = VirtualAddress::try_from_ptr(0x012345678000).unwrap();
    let to = PhysicalAddress::try_from_ptr(0x012345678000).unwrap();
    let size = 1 << 14;
    table
        .map_region(from, to, size, Attributes::Normal, kernel_rwx())
        .expect("Could add region");

    table.unmap_region(from, size).expect("Could remove region");

    assert!(matches!(table.entry(0).ty(), DescriptorType::Table));
    assert!(matches!(table.entry(1).ty(), DescriptorType::Invalid));

    let level1 = table.entry(0).get_table().expect("Is a table");
    for idx in 0..ENTRIES {
        let desc = level1.entry(idx);
        if idx == 0x12 {
            assert!(matches!(desc.ty(), DescriptorType::Table));
        } else {
            assert!(matches!(desc.ty(), DescriptorType::Invalid));
        }
    }

    let level2 = level1.entry(0x12).get_table().expect("Is a table");

    for idx in 0..ENTRIES {
        let desc = level2.entry(idx);
        if idx == 0x1a2 {
            assert!(matches!(desc.ty(), DescriptorType::Table));
        } else {
            assert!(matches!(desc.ty(), DescriptorType::Invalid));
        }
    }

    let level3 = level2.entry(0x1a2).get_table().expect("Is a table");

    for idx in 0..ENTRIES {
        let desc = level3.entry(idx);
        if idx == 0x59e {
            // This has been removed
            assert!(matches!(desc.ty(), DescriptorType::Invalid));
        } else {
            assert!(matches!(desc.ty(), DescriptorType::Invalid));
        }
    }
}

#[test]
fn unmap_multiple_blocks() {
    let mut table = LevelTable::new();

    let from = VirtualAddress::try_from_ptr(0x10000000000).unwrap();
    let to = PhysicalAddress::try_from_ptr(0x10000000000).unwrap();
    let size = 0x800000000;
    table
        .map_region(from, to, size, Attributes::Normal, kernel_rwx())
        .expect("Could add region");

    table.unmap_region(from, size).expect("Could remove region");

    assert!(matches!(table.entry(0).ty(), DescriptorType::Table));
    assert!(matches!(table.entry(1).ty(), DescriptorType::Invalid));

    let level1 = table.entry(0).get_table().expect("Is a table");
    for idx in 0..ENTRIES {
        let desc = level1.entry(idx);
        if idx == 0x10 {
            assert!(matches!(desc.ty(), DescriptorType::Table));
        } else {
            assert!(matches!(desc.ty(), DescriptorType::Invalid));
        }
    }

    let level2 = level1.entry(0x10).get_table().expect("Is a table");

    for idx in 0..ENTRIES {
        assert!(matches!(level2.entry(idx).ty(), DescriptorType::Invalid));
    }
}

#[test]
fn mapping_twice_to_another_address_is_refused() {
    let mut table = LevelTable::new();
    let from = VirtualAddress::try_from_ptr(0x4000_0000).unwrap();
    let to = PhysicalAddress::try_from_ptr(0x8000_0000).unwrap();
    table
        .map_region(from, to, 0x4000, Attributes::Normal, kernel_rwx())
        .unwrap();
    let other = PhysicalAddress::try_from_ptr(0x9000_0000).unwrap();
    let res = table.map_region(from, other, 0x4000, Attributes::Normal, kernel_rwx());
    assert!(matches!(res, Err(Error::OverlapsExistingMapping(_, _))));
}

#[test]
fn writable_executable_user_mapping_is_refused() {
    let mut table = LevelTable::new();
    let from = VirtualAddress::try_from_ptr(0x4000_0000).unwrap();
    let to = PhysicalAddress::try_from_ptr(0x8000_0000).unwrap();
    let perms = GlobalPermissions {
        unprivileged: Permissions::RWX,
        privileged: Permissions::RWX,
    };
    let res = table.map_region(from, to, 0x4000, Attributes::Normal, perms);
    assert!(matches!(res, Err(Error::InvalidPermissions)));
}

#[test]
fn mapped_page_keeps_attributes_and_permissions() {
    let mut table = LevelTable::new();
    let from = VirtualAddress::try_from_ptr(0x4000_0000).unwrap();
    let to = PhysicalAddress::try_from_ptr(0x8000_0000).unwrap();
    let perms = GlobalPermissions::new_for_process(Permissions::RX);
    table
        .map_region(from, to, 0x4000, Attributes::Normal, perms)
        .unwrap();
    let l1 = table.entry(0).get_table().unwrap();
    let l2 = l1.entry(0).get_table().unwrap();
    let l3 = l2.entry(32).get_table().unwrap();
    let desc = l3.entry(0);
    assert!(matches!(desc.ty(), DescriptorType::Page));
    assert_eq!(desc.pa(), Some(to));
    assert!(matches!(desc.attrs(), Some(Attributes::Normal)));
    assert_eq!(desc.permissions(), Some(perms));
}

#[test]
fn mapping_twice_to_the_same_address_changes_nothing() {
    let mut table = LevelTable::new();
    let base = 0x12344000000u64;
    let from = VirtualAddress::try_from_ptr(base + 2044 * 0x4000).unwrap();
    let to = PhysicalAddress::try_from_ptr(base).unwrap();
    let size = (1 << 25) + 4 * 0x4000;
    table
        .map_region(from, to, size, Attributes::Normal, kernel_rwx())
        .unwrap();
    table
        .map_region(from, to, size, Attributes::Normal, kernel_rwx())
        .expect("the same mapping again is accepted");
    let level2 = table
        .entry(0)
        .get_table()
        .unwrap()
        .entry(0x12)
        .get_table()
        .unwrap();
    assert!(matches!(level2.entry(0x1a3).ty(), DescriptorType::Block));
    assert_eq!(level2.entry(0x1a3).pa().unwrap().as_u64(), base + 4 * 0x4000);
    let level3 = level2.entry(0x1a2).get_table().unwrap();
    for idx in 0..ENTRIES {
        if idx >= 2044 {
            assert_eq!(
                level3.entry(idx).pa().unwrap().as_u64(),
                base + (idx as u64 - 2044) * 0x4000
            );
        } else {
            assert!(matches!(level3.entry(idx).ty(), DescriptorType::Invalid));
        }
    }
}

#[test]
fn device_attributes_read_back_as_mapped() {
    let kinds = [Attributes::DevicenGnRnE, Attributes::DevicenGnRE];
    for (k, attrs) in kinds.iter().enumerate() {
        let mut table = LevelTable::new();
        let from = VirtualAddress::try_from_ptr(0x4000_0000).unwrap();
        let to = PhysicalAddress::try_from_ptr(0x8000_0000).unwrap();
        table.map_region(from, to, 0x4000, *attrs, kernel_rwx()).unwrap();
        let desc = table
            .entry(0)
            .get_table()
            .unwrap()
            .entry(0)
            .get_table()
            .unwrap()
            .entry(32)
            .get_table()
            .unwrap()
            .entry(0);
        if k == 0 {
            assert!(matches!(desc.attrs(), Some(Attributes::DevicenGnRnE)));
        } else {
            assert!(matches!(desc.attrs(), Some(Attributes::DevicenGnRE)));
        }
    }
}

#[test]
fn unmapping_the_start_of_a_block_splits_it() {
    let mut table = LevelTable::new();
    let base = 0x12344000000u64;
    let from = VirtualAddress::try_from_ptr(base).unwrap();
    let to = PhysicalAddress::try_from_ptr(base).unwrap();
    table
        .map_region(from, to, 1 << 25, Attributes::DevicenGnRnE, kernel_rwx())
        .unwrap();
    table.unmap_region(from, 3 * 0x4000).unwrap();
    let level2 = table
        .entry(0)
        .get_table()
        .unwrap()
        .entry(0x12)
        .get_table()
        .unwrap();
    assert!(matches!(level2.entry(0x1a2).ty(), DescriptorType::Table));
    let level3 = level2.entry(0x1a2).get_table().unwrap();
    for idx in 0..ENTRIES {
        let desc = level3.entry(idx);
        if idx < 3 {
            assert!(matches!(desc.ty(), DescriptorType::Invalid));
        } else {
            assert!(matches!(desc.ty(), DescriptorType::Page));
            assert_eq!(desc.pa().unwrap().as_u64(), base + idx as u64 * 0x4000);
            assert!(matches!(desc.attrs(), Some(Attributes::DevicenGnRnE)));
            assert_eq!(desc.permissions(), Some(kernel_rwx()));
        }
    }
}
