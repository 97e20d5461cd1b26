//! Thread bookkeeping that does not touch hardware: the check that a frame
//! pointer lies on a thread's stack.
use vstd::prelude::*;

use crate::memory::address::{Address, Validator, VirtualAddress};
use crate::memory::address_space::{name_as_str, name_empty, name_from, name_text};
use vstd::string::StringSliceAdditionalSpecFns;

verus! {

#[derive(Debug, PartialEq, Eq, Structural, Clone, Copy)]
pub enum Error {
    ThreadNotFound,
}

/// The stack of a thread, as its lowest address and its length.
#[derive(Clone, Copy)]
pub struct StackValidator {
    range_base: VirtualAddress,
    range_len: usize,
}

impl StackValidator {
    pub closed spec fn base(&self) -> u64 {
        self.range_base.addr()
    }

    pub closed spec fn len(&self) -> usize {
        self.range_len
    }

    pub fn new(range_base: VirtualAddress, range_len: usize) -> (v: Self)
        ensures
            v.base() == range_base.addr(),
            v.len() == range_len,
    {
        Self { range_base, range_len }
    }

    /// The first address above the stack.
    pub fn top(&self) -> (top: u64)
        requires
            self.base() + self.len() <= u64::MAX,
        ensures
            top == self.base() + self.len(),
    {
        self.range_base.as_u64() + self.range_len as u64
    }
}

impl Validator for StackValidator {
    /// Whether `ptr` is at or above the base of the stack, or below its end.
    fn is_valid(&self, ptr: VirtualAddress) -> (valid: bool)
        ensures
            valid == (ptr.addr() >= self.base() || ptr.addr() < self.base() + self.len()),
    {
        let range_base = self.range_base.as_u64() as u128;
        let range_len = self.range_len as u128;
        let p = ptr.as_u64() as u128;
        (p >= range_base) || (p < (range_base + range_len))
    }
}


/// The stack size of a thread whose builder names none, in words.
pub const DEFAULT_STACK_SIZE: usize = 1024;

/// The identifier of a thread.
#[derive(Debug, PartialEq, Eq, Structural, Clone, Copy)]
pub struct ThreadHandle(pub u64);

/// The settings of a thread to be created.
pub struct Builder {
    name: Option<heapless::String<32>>,
    stack_size: Option<usize>,
}

impl Builder {
    /// The name, when one was given.
    pub closed spec fn spec_name(&self) -> Option<Seq<char>> {
        match self.name {
            Some(n) => Some(name_text(n)),
            None => None,
        }
    }

    pub closed spec fn spec_stack_size(&self) -> Option<usize> {
        self.stack_size
    }

    pub fn new() -> (b: Self)
        ensures
            b.spec_name() is None,
            b.spec_stack_size() is None,
    {
        Self { name: None, stack_size: None }
    }

    /// Names the thread; the name holds at most 32 bytes.
    pub fn name(self, name: &str) -> (b: Self)
        requires
            name.spec_bytes().len() <= 32,
        ensures
            b.spec_name() == Some(name@),
            b.spec_stack_size() == self.spec_stack_size(),
    {
        Self { name: Some(name_from(name)), stack_size: self.stack_size }
    }

    pub fn stack_size(self, size: usize) -> (b: Self)
        ensures
            b.spec_name() == self.spec_name(),
            b.spec_stack_size() == Some(size),
    {
        Self { name: self.name, stack_size: Some(size) }
    }

    /// The name and stack size the thread gets: an empty name and
    /// [`DEFAULT_STACK_SIZE`] when none were given.
    pub fn settings(self) -> (settings: (heapless::String<32>, usize))
        ensures
            name_text(settings.0) == (match self.spec_name() {
                Some(n) => n,
                None => Seq::<char>::empty(),
            }),
            settings.1 == (match self.spec_stack_size() {
                Some(s) => s,
                None => DEFAULT_STACK_SIZE,
            }),
    {
        let name = match self.name {
            Some(n) => n,
            None => name_empty(),
        };
        let stack_size = match self.stack_size {
            Some(s) => s,
            None => DEFAULT_STACK_SIZE,
        };
        (name, stack_size)
    }
}

/// The name of a thread as it is shown: none when it is empty.
pub fn thread_name(name: &heapless::String<32>) -> (shown: Option<&str>)
    ensures
        name_text(*name).len() == 0 ==> shown is None,
        name_text(*name).len() > 0 ==> (shown matches Some(s) && s@ == name_text(*name)),
{
    let s = name_as_str(name);
    if s.as_bytes().len() == 0 {
        proof {
            vstd::utf8::encode_utf8_decode_utf8(s@);
            assert(s.spec_bytes() =~= Seq::<u8>::empty());
            assert(vstd::utf8::decode_utf8(Seq::<u8>::empty()) =~= Seq::<char>::empty());
        }
        None
    } else {
        proof {
            if s@.len() == 0 {
                assert(vstd::utf8::encode_utf8(s@) =~= Seq::<u8>::empty());
            }
        }
        Some(s)
    }
}

} // verus!
