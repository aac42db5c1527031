//! Addresses: the locations that a heap hands out to its clients.
//!
//! An address is the index of a payload word. The address of a block is that
//! of its first payload word, one behind its header.

use vstd::prelude::*;
use vstd::std_specs::convert::FromSpecImpl;
use vstd::std_specs::ops::AddSpecImpl;
use std::ops::Add;
use crate::types::Word;
use crate::block::Block;
use crate::region::Region;

verus! {

/// The index of a word in the payload of a block.
#[derive(Copy, Clone, Debug, PartialOrd, Ord, PartialEq, Eq, Structural)]
pub struct Address {
    pub ptr: usize,
}

impl Address {
    /// The address of the first payload word of the block at `block`.
    pub(crate) fn new(block: Block) -> (address: Address)
        requires
            block.pos < usize::MAX,
        ensures
            address.ptr == block.pos + 1,
    {
        Address::from_usize_ptr(block.pos + 1)
    }

    fn from_usize_ptr(ptr: usize) -> (address: Address)
        ensures
            address.ptr == ptr,
    {
        Address { ptr }
    }

    /// A mutable reference to the word that the address names. Whatever is
    /// stored through it lands at the address, and nowhere else.
    pub fn as_mut<'a>(&mut self, region: &'a mut Region) -> (word: &'a mut Word)
        requires
            old(self).ptr < old(region)@.len(),
        ensures
            *final(self) == *old(self),
            *word == old(region)@[old(self).ptr as int],
            final(region)@ == old(region)@.update(old(self).ptr as int, *final(word)),
    {
        region.word_mut(self.ptr)
    }

    /// Stores `value` in the word that the address names.
    pub fn write(&mut self, region: &mut Region, value: Word)
        requires
            old(self).ptr < old(region)@.len(),
        ensures
            *final(self) == *old(self),
            final(region)@ == old(region)@.update(old(self).ptr as int, value),
    {
        let word = self.as_mut(region);
        *word = value;
    }

    /// The word that the address names.
    pub fn read(&self, region: &Region) -> (word: Word)
        requires
            self.ptr < region@.len(),
        ensures
            word == region@[self.ptr as int],
    {
        region.read(self.ptr)
    }
}

impl From<Block> for Address {
    /// The address of the block's first payload word. No address lies behind
    /// the last index, so that one stands for itself.
    fn from(value: Block) -> (address: Address) {
        match value.pos.checked_add(1) {
            Some(ptr) => Address::from_usize_ptr(ptr),
            None => Address::from_usize_ptr(value.pos),
        }
    }
}

impl FromSpecImpl<Block> for Address {
    open spec fn obeys_from_spec() -> bool {
        true
    }

    open spec fn from_spec(value: Block) -> Address {
        if value.pos < usize::MAX {
            Address { ptr: (value.pos + 1) as usize }
        } else {
            Address { ptr: value.pos }
        }
    }
}

impl From<Address> for Block {
    /// The block whose first payload word the address names: its header is
    /// the word in front. No header lies in front of index 0, so that index
    /// stands for itself.
    fn from(value: Address) -> (block: Block) {
        if value.ptr == 0 {
            Block { pos: 0 }
        } else {
            Block { pos: value.ptr - 1 }
        }
    }
}

impl FromSpecImpl<Address> for Block {
    open spec fn obeys_from_spec() -> bool {
        true
    }

    open spec fn from_spec(value: Address) -> Block {
        if value.ptr == 0 {
            Block { pos: 0 }
        } else {
            Block { pos: (value.ptr - 1) as usize }
        }
    }
}

impl From<usize> for Address {
    fn from(value: usize) -> (address: Address) {
        Address { ptr: value }
    }
}

impl FromSpecImpl<usize> for Address {
    open spec fn obeys_from_spec() -> bool {
        true
    }

    open spec fn from_spec(value: usize) -> Address {
        Address { ptr: value }
    }
}

impl From<Address> for usize {
    fn from(value: Address) -> (index: usize) {
        value.ptr
    }
}

impl FromSpecImpl<Address> for usize {
    open spec fn obeys_from_spec() -> bool {
        true
    }

    open spec fn from_spec(value: Address) -> usize {
        value.ptr
    }
}

impl Add<usize> for Address {
    type Output = Address;

    /// The address `value` words further on.
    fn add(self, value: usize) -> (address: Address) {
        Address::from_usize_ptr(self.ptr + value)
    }
}

impl AddSpecImpl<usize> for Address {
    open spec fn obeys_add_spec() -> bool {
        true
    }

    open spec fn add_req(self, value: usize) -> bool {
        self.ptr + value <= usize::MAX
    }

    open spec fn add_spec(self, value: usize) -> Address {
        Address { ptr: (self.ptr + value) as usize }
    }
}

} // verus!
