//! Virtual, physical and kernel logical addresses. Addresses are 64-bit
//! machine words; the page size is 16 KiB.
use vstd::prelude::*;

use crate::memory::map::{KERNEL_LOGICAL_BASE, KERNEL_LOGICAL_SIZE};

verus! {

/// Size of a page as a 64-bit value.
pub const PAGE_SIZE_BYTES: u64 = 0x4000;

/// Checks whether a virtual address lies in a valid range.
pub trait Validator {
    fn is_valid(&self, va: VirtualAddress) -> bool;
}

/// Operations shared by all kinds of address.
pub trait Address {
    /// The address value.
    spec fn addr(&self) -> u64;

    fn as_u64(&self) -> (v: u64)
        ensures
            v == self.addr(),
    ;

    fn as_usize(&self) -> (v: usize)
        requires
            self.addr() <= usize::MAX,
        ensures
            v == self.addr(),
    ;

    fn is_page_aligned(&self) -> (aligned: bool)
        ensures
            aligned == (self.addr() % PAGE_SIZE_BYTES == 0),
    ;

    fn page_number(&self) -> (n: u64)
        ensures
            n == self.addr() / PAGE_SIZE_BYTES,
    ;

    fn is_null(&self) -> (null: bool)
        ensures
            null == (self.addr() == 0),
    ;
}

#[derive(Debug, Clone)]
pub enum Error {
    UnalignedAddress,
    AddressOutOfRange,
}

proof fn lemma_page_bits(a: u64)
    ensures
        (a & 0x3fff == 0) == (a % PAGE_SIZE_BYTES == 0),
        a & 0x3fff == a % PAGE_SIZE_BYTES,
        a >> 14u64 == a / PAGE_SIZE_BYTES,
        a & !0x3fffu64 == a - a % PAGE_SIZE_BYTES,
{
    assert(a & 0x3fff == a % 0x4000) by (bit_vector);
    assert(a >> 14u64 == a / 0x4000) by (bit_vector);
    assert(a & !0x3fffu64 == a - a % 0x4000) by (bit_vector);
}

#[derive(PartialEq, Eq, Structural, Copy, Clone, Debug)]
pub struct VirtualAddress(u64);

impl VirtualAddress {
    pub fn new_unchecked(addr: u64) -> (va: Self)
        ensures
            va.addr() == addr,
    {
        Self(addr)
    }

    /// A page-aligned virtual address.
    pub fn try_from_ptr(addr: u64) -> (result: Result<Self, Error>)
        ensures
            addr % PAGE_SIZE_BYTES == 0 ==> (result matches Ok(va) && va.addr() == addr),
            addr % PAGE_SIZE_BYTES != 0 ==> (result matches Err(Error::UnalignedAddress)),
    {
        proof {
            lemma_page_bits(addr);
        }
        if (addr & 0x3fff) != 0 {
            return Err(Error::UnalignedAddress);
        }
        Ok(Self(addr))
    }

    pub fn new_unaligned(addr: u64) -> (va: Self)
        ensures
            va.addr() == addr,
    {
        Self(addr)
    }

    /// The address `offset` bytes further on.
    pub fn offset(&self, offset: usize) -> (va: Self)
        requires
            self.addr() + offset <= u64::MAX,
        ensures
            va.addr() == self.addr() + offset,
    {
        Self(self.0 + offset as u64)
    }

    /// The distance from `other` to this address, which lies above it.
    pub fn remove_base(&self, other: VirtualAddress) -> (va: Self)
        requires
            self.addr() > other.addr(),
        ensures
            va.addr() == self.addr() - other.addr(),
    {
        Self(self.0 - other.0)
    }

    /// Whether the address lies in the upper half of the address space.
    pub fn is_high_address(&self) -> (high: bool)
        requires
            self.addr() / 0x1_0000_0000_0000 == 0xFFFF || self.addr() / 0x1_0000_0000_0000 == 0,
        ensures
            high == (self.addr() / 0x1_0000_0000_0000 == 0xFFFF),
    {
        let a = self.0;
        assert(a >> 48u64 == a / 0x1_0000_0000_0000) by (bit_vector);
        let high_bits = self.0 >> 48;
        high_bits == 0xFFFF
    }
}

impl Address for VirtualAddress {
    closed spec fn addr(&self) -> u64 {
        self.0
    }

    fn as_u64(&self) -> (v: u64) {
        self.0
    }

    fn as_usize(&self) -> (v: usize) {
        self.0 as usize
    }

    fn is_page_aligned(&self) -> (aligned: bool) {
        proof {
            lemma_page_bits(self.0);
        }
        (self.0 & 0x3fff) == 0
    }

    fn page_number(&self) -> (n: u64) {
        proof {
            lemma_page_bits(self.0);
        }
        self.0 >> 14
    }

    fn is_null(&self) -> (null: bool) {
        self.0 == 0
    }
}

#[derive(PartialEq, Eq, Structural, Copy, Clone, Debug)]
pub struct PhysicalAddress(u64);

impl PhysicalAddress {
    pub fn new_unchecked(addr: u64) -> (pa: Self)
        ensures
            pa.addr() == addr,
    {
        Self(addr)
    }

    /// A page-aligned physical address.
    pub fn try_from_ptr(addr: u64) -> (result: Result<Self, Error>)
        ensures
            addr % PAGE_SIZE_BYTES == 0 ==> (result matches Ok(pa) && pa.addr() == addr),
            addr % PAGE_SIZE_BYTES != 0 ==> (result matches Err(Error::UnalignedAddress)),
    {
        proof {
            lemma_page_bits(addr);
        }
        if (addr & 0x3fff) != 0 {
            return Err(Error::UnalignedAddress);
        }
        Ok(Self(addr))
    }

    pub fn from_unaligned_ptr(addr: u64) -> (pa: Self)
        ensures
            pa.addr() == addr,
    {
        Self(addr)
    }

    /// The start of the page that holds this address.
    pub fn align_to_page(&self) -> (pa: Self)
        ensures
            pa.addr() == self.addr() - self.addr() % PAGE_SIZE_BYTES,
    {
        proof {
            lemma_page_bits(self.0);
        }
        Self(self.0 & !0x3fffu64)
    }

    /// The address `offset` bytes further on.
    pub fn offset(&self, offset: usize) -> (pa: Self)
        requires
            self.addr() + offset <= u64::MAX,
        ensures
            pa.addr() == self.addr() + offset,
    {
        Self(self.0 + offset as u64)
    }

    /// The kernel logical address of this physical address.
    pub fn try_into_logical(&self) -> (result: Result<LogicalAddress, Error>)
        requires
            self.addr() + KERNEL_LOGICAL_BASE <= u64::MAX,
        ensures
            self.addr() <= KERNEL_LOGICAL_SIZE ==> (result matches Ok(la) && la.addr()
                == self.addr() + KERNEL_LOGICAL_BASE),
            self.addr() > KERNEL_LOGICAL_SIZE ==> (result matches Err(Error::AddressOutOfRange)),
    {
        LogicalAddress::try_from_ptr(self.0 + KERNEL_LOGICAL_BASE)
    }

    /// The signed distance from `other` to this address, wrapping around.
    pub fn offset_from(&self, other: PhysicalAddress) -> (distance: i64)
        ensures
            distance == (self.addr() as i64).wrapping_sub(other.addr() as i64),
    {
        let self_i64 = self.0 as i64;
        let other_i64 = other.0 as i64;
        self_i64.wrapping_sub(other_i64)
    }
}

impl Address for PhysicalAddress {
    closed spec fn addr(&self) -> u64 {
        self.0
    }

    fn as_u64(&self) -> (v: u64) {
        self.0
    }

    fn as_usize(&self) -> (v: usize) {
        self.0 as usize
    }

    fn is_page_aligned(&self) -> (aligned: bool) {
        proof {
            lemma_page_bits(self.0);
        }
        (self.0 & 0x3fff) == 0
    }

    fn page_number(&self) -> (n: u64) {
        proof {
            lemma_page_bits(self.0);
        }
        self.0 >> 14
    }

    fn is_null(&self) -> (null: bool) {
        self.0 == 0
    }
}

/// An address in the kernel's linear map of physical memory.
#[derive(PartialEq, Eq, Structural, Copy, Clone, Debug)]
pub struct LogicalAddress(u64);

impl LogicalAddress {
    pub fn new_unchecked(addr: u64) -> (la: Self)
        ensures
            la.addr() == addr,
    {
        Self(addr)
    }

    /// A logical address: it must lie in the linear map.
    pub fn try_from_ptr(addr: u64) -> (result: Result<Self, Error>)
        ensures
            KERNEL_LOGICAL_BASE <= addr <= KERNEL_LOGICAL_BASE + KERNEL_LOGICAL_SIZE ==> (
            result matches Ok(la) && la.addr() == addr),
            !(KERNEL_LOGICAL_BASE <= addr <= KERNEL_LOGICAL_BASE + KERNEL_LOGICAL_SIZE) ==> (
            result matches Err(Error::AddressOutOfRange)),
    {
        if addr < KERNEL_LOGICAL_BASE || addr - KERNEL_LOGICAL_BASE > KERNEL_LOGICAL_SIZE {
            return Err(Error::AddressOutOfRange);
        }
        Ok(Self(addr))
    }

    /// The physical address behind this logical address.
    pub fn into_physical(&self) -> (pa: PhysicalAddress)
        requires
            self.addr() >= KERNEL_LOGICAL_BASE,
        ensures
            pa.addr() == self.addr() - KERNEL_LOGICAL_BASE,
    {
        PhysicalAddress(self.0 - KERNEL_LOGICAL_BASE)
    }

    /// The same address seen as a virtual address.
    pub fn into_virtual(&self) -> (va: VirtualAddress)
        ensures
            va.addr() == self.addr(),
    {
        VirtualAddress(self.0)
    }
}

impl Address for LogicalAddress {
    closed spec fn addr(&self) -> u64 {
        self.0
    }

    fn as_u64(&self) -> (v: u64) {
        self.0
    }

    fn as_usize(&self) -> (v: usize) {
        self.0 as usize
    }

    fn is_page_aligned(&self) -> (aligned: bool) {
        proof {
            lemma_page_bits(self.0);
        }
        (self.0 & 0x3fff) == 0
    }

    fn page_number(&self) -> (n: u64) {
        proof {
            lemma_page_bits(self.0);
        }
        self.0 >> 14
    }

    fn is_null(&self) -> (null: bool) {
        self.0 == 0
    }
}

} // verus!
