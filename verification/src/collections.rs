//! Kernel collections and owning pointer wrappers.
use vstd::prelude::*;

pub mod flat_map;
pub mod intrusive_list;
pub mod ring_buffer;

verus! {

/// An owning, mutable handle to a heap value. Ownership must be handed back
/// explicitly with [`OwnedMutPtr::into_box`] or [`OwnedMutPtr::leak`].
#[derive(Debug)]
pub struct OwnedMutPtr<T> {
    inner: Box<T>,
}

/// An owning, read-only handle to a heap value.
#[derive(Debug)]
pub struct OwnedPtr<T> {
    inner: Box<T>,
}

impl<T> OwnedMutPtr<T> {
    /// The value that is pointed to.
    pub closed spec fn value(&self) -> T {
        *self.inner
    }

    pub fn new_from_box(ptr: Box<T>) -> (owned: Self)
        ensures
            owned.value() == *ptr,
    {
        Self { inner: ptr }
    }

    /// Gives up the handle and returns the allocation it owned.
    pub fn leak(self) -> (ptr: Box<T>)
        ensures
            *ptr == self.value(),
    {
        self.inner
    }

    /// Returns the allocation to a `Box`.
    pub fn into_box(self) -> (ptr: Box<T>)
        ensures
            *ptr == self.value(),
    {
        self.inner
    }

    /// Shared access to the value.
    pub fn get(&self) -> (value: &T)
        ensures
            *value == self.value(),
    {
        &self.inner
    }

    /// Replaces the value.
    pub fn set(&mut self, value: T)
        ensures
            final(self).value() == value,
    {
        self.inner = Box::new(value);
    }
}

impl<T> OwnedPtr<T> {
    /// The value that is pointed to.
    pub closed spec fn value(&self) -> T {
        *self.inner
    }

    pub fn new_from_box(ptr: Box<T>) -> (owned: Self)
        ensures
            owned.value() == *ptr,
    {
        Self { inner: ptr }
    }

    /// Gives up the handle and returns the allocation it owned.
    pub fn leak(self) -> (ptr: Box<T>)
        ensures
            *ptr == self.value(),
    {
        self.inner
    }

    /// Returns the allocation to a `Box`.
    pub fn into_box(self) -> (ptr: Box<T>)
        ensures
            *ptr == self.value(),
    {
        self.inner
    }

    /// Shared access to the value.
    pub fn get(&self) -> (value: &T)
        ensures
            *value == self.value(),
    {
        &self.inner
    }
}

} // verus!
