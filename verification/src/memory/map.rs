//! The kernel's fixed address-space layout and its sections.
use vstd::prelude::*;
use vstd::string::StringSliceAdditionalSpecFns;

use crate::memory::address::{Address, LogicalAddress, PhysicalAddress, VirtualAddress};
use crate::memory::{GlobalPermissions, Permissions};

verus! {

/// Base of the kernel logical (linear) map.
pub const KERNEL_LOGICAL_BASE: u64 = 0xFFFF_0200_0000_0000;

/// Size of the kernel logical map: 128 TiB.
pub const KERNEL_LOGICAL_SIZE: u64 = 0x0000_8000_0000_0000;

/// Where the device tree is mapped.
pub const ADT_VIRTUAL_BASE: u64 = 0xFFFF_0000_0000_0000;

/// The last 4 GiB are reserved for memory-mapped I/O.
pub const MMIO_BASE: u64 = 0xFFFF_FFFF_0000_0000;

/// Size of the I/O window: 4 GiB less the last page.
pub const MMIO_SIZE: u64 = 0xFFFF_C000;

/// The last page is used to map single pages into the kernel quickly.
pub const FASTMAP_PAGE: u64 = 0xFFFF_FFFF_FFFF_C000;

#[derive(Debug, Clone, Copy)]
pub enum KernelSectionId {
    Text,
    RoData,
    Data,
    Arena,
    Payload,
}

/// The kernel sections, in memory order.
pub fn all_sections() -> (sections: [KernelSectionId; 5])
    ensures
        sections@ == seq![
            KernelSectionId::Text,
            KernelSectionId::RoData,
            KernelSectionId::Data,
            KernelSectionId::Arena,
            KernelSectionId::Payload,
        ],
{
    [
        KernelSectionId::Text,
        KernelSectionId::RoData,
        KernelSectionId::Data,
        KernelSectionId::Arena,
        KernelSectionId::Payload,
    ]
}

/// Name and permissions of each kernel section.
pub open spec fn section_name(id: KernelSectionId) -> Seq<char> {
    match id {
        KernelSectionId::Text => seq!['.', 't', 'e', 'x', 't'],
        KernelSectionId::RoData => seq!['.', 'r', 'o', 'd', 'a', 't', 'a'],
        KernelSectionId::Data => seq!['.', 'd', 'a', 't', 'a'],
        KernelSectionId::Arena => seq!['.', 'a', 'r', 'e', 'n', 'a'],
        KernelSectionId::Payload => seq!['.', 'p', 'a', 'y', 'l', 'o', 'a', 'd'],
    }
}

pub open spec fn section_permissions(id: KernelSectionId) -> Permissions {
    match id {
        KernelSectionId::Text => Permissions::RX,
        KernelSectionId::RoData => Permissions::RO,
        KernelSectionId::Data => Permissions::RW,
        KernelSectionId::Arena => Permissions::RW,
        KernelSectionId::Payload => Permissions::RO,
    }
}

/// Where a section of the loaded image starts, given where the linker put
/// it: a logical address once the MMU runs, a physical one before.
pub open spec fn section_start(start: u64, mmu_initialized: bool) -> u64 {
    if mmu_initialized {
        (start - KERNEL_LOGICAL_BASE) as u64
    } else {
        start
    }
}

/// A section of the kernel image.
pub struct KernelSection {
    name: &'static str,
    start: PhysicalAddress,
    size_bytes: usize,
    permissions: GlobalPermissions,
}

impl KernelSection {
    pub closed spec fn spec_name(&self) -> Seq<char> {
        self.name@
    }

    /// The bytes of the section's name.
    pub closed spec fn spec_name_bytes(&self) -> Seq<u8> {
        self.name.spec_bytes()
    }

    pub closed spec fn spec_pa(&self) -> u64 {
        self.start.addr()
    }

    pub closed spec fn spec_size_bytes(&self) -> usize {
        self.size_bytes
    }

    pub closed spec fn spec_permissions(&self) -> GlobalPermissions {
        self.permissions
    }

    /// The section `id`, which the linker placed from `start` up to `end`.
    pub fn from_id(id: KernelSectionId, start: u64, end: u64, mmu_initialized: bool) -> (section:
        Self)
        requires
            start <= end,
            end - start <= usize::MAX,
            mmu_initialized ==> KERNEL_LOGICAL_BASE <= start <= KERNEL_LOGICAL_BASE
                + KERNEL_LOGICAL_SIZE,
            !mmu_initialized ==> start % 0x4000 == 0,
        ensures
            section.spec_name() == section_name(id),
            section.spec_pa() == section_start(start, mmu_initialized),
            section.spec_size_bytes() == end - start,
            section.spec_permissions() == (GlobalPermissions {
                unprivileged: Permissions::NoAccess,
                privileged: section_permissions(id),
            }),
    {
        let (name, permissions) = match id {
            KernelSectionId::Text => {
                let name = ".text";
                proof {
                    reveal_strlit(".text");
                }
                (name, GlobalPermissions::new_only_privileged(Permissions::RX))
            },
            KernelSectionId::RoData => {
                let name = ".rodata";
                proof {
                    reveal_strlit(".rodata");
                }
                (name, GlobalPermissions::new_only_privileged(Permissions::RO))
            },
            KernelSectionId::Data => {
                let name = ".data";
                proof {
                    reveal_strlit(".data");
                }
                (name, GlobalPermissions::new_only_privileged(Permissions::RW))
            },
            KernelSectionId::Arena => {
                let name = ".arena";
                proof {
                    reveal_strlit(".arena");
                }
                (name, GlobalPermissions::new_only_privileged(Permissions::RW))
            },
            KernelSectionId::Payload => {
                let name = ".payload";
                proof {
                    reveal_strlit(".payload");
                }
                (name, GlobalPermissions::new_only_privileged(Permissions::RO))
            },
        };
        let size_bytes = (end - start) as usize;
        let start = if mmu_initialized {
            match LogicalAddress::try_from_ptr(start) {
                Ok(la) => la.into_physical(),
                Err(_) => {
                    assert(false);
                    PhysicalAddress::new_unchecked(0)
                },
            }
        } else {
            match PhysicalAddress::try_from_ptr(start) {
                Ok(pa) => pa,
                Err(_) => {
                    assert(false);
                    PhysicalAddress::new_unchecked(0)
                },
            }
        };
        Self { name, start, size_bytes, permissions }
    }

    pub fn name(&self) -> (name: &'static str)
        ensures
            name@ == self.spec_name(),
            name.spec_bytes() == self.spec_name_bytes(),
    {
        self.name
    }

    pub fn pa(&self) -> (pa: PhysicalAddress)
        ensures
            pa.addr() == self.spec_pa(),
    {
        self.start
    }

    /// The section's logical address.
    pub fn la(&self) -> (la: LogicalAddress)
        requires
            self.spec_pa() <= KERNEL_LOGICAL_SIZE,
        ensures
            la.addr() == self.spec_pa() + KERNEL_LOGICAL_BASE,
    {
        match self.start.try_into_logical() {
            Ok(la) => la,
            Err(_) => {
                assert(false);
                LogicalAddress::new_unchecked(0)
            },
        }
    }

    pub fn size_bytes(&self) -> (size: usize)
        ensures
            size == self.spec_size_bytes(),
    {
        self.size_bytes
    }

    pub fn permissions(&self) -> (permissions: GlobalPermissions)
        ensures
            permissions == self.spec_permissions(),
    {
        self.permissions
    }
}

} // verus!
