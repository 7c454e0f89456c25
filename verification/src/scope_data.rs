//! The node of a scope's destructor chain, and how it is laid out in the block.
//!
//! A node takes three little-endian words of eight bytes each: the position of
//! the object that it guards, the destructor that is due to that object, and the
//! position of the node that was linked before it.

use vstd::bytes::lemma_auto_spec_u64_to_from_le_bytes;
use vstd::bytes::spec_u64_from_le_bytes;
use vstd::bytes::spec_u64_to_le_bytes;
use vstd::bytes::u64_from_le_bytes;
use vstd::bytes::u64_to_le_bytes;
use vstd::prelude::*;
use vstd::slice::slice_subrange;

verus! {

/// Number of bytes that a node takes in the block.
pub const SCOPE_DATA_SIZE: usize = 24;

/// Alignment at which a node is placed in the block.
pub const SCOPE_DATA_ALIGNMENT: usize = 8;

/// The word that stands for "no node was linked before this one".
pub const NO_PREVIOUS: u64 = 0xffff_ffff_ffff_ffff;

/// The target of a node whose object has not been placed yet.
pub const UNSET_TARGET: usize = 0;

/// One node of a destructor chain.
#[derive(Debug, Clone, Copy, PartialEq, Eq)]
pub struct ScopeData {
    /// Position of the object that needs cleanup.
    pub mem: usize,
    /// The destructor that is due to the object: a tag that names it.
    pub dtor: usize,
    /// Position of the node that the same scope linked before this one.
    pub previous: Option<usize>,
}

/// The word that a link to the previous node is stored as.
pub open spec fn spec_previous_word(previous: Option<usize>) -> u64 {
    match previous {
        Some(position) => position as u64,
        None => NO_PREVIOUS,
    }
}

impl ScopeData {
    /// The bytes that the node is stored as.
    pub open spec fn spec_encode(self) -> Seq<u8> {
        spec_u64_to_le_bytes(self.mem as u64) + spec_u64_to_le_bytes(self.dtor as u64)
            + spec_u64_to_le_bytes(spec_previous_word(self.previous))
    }

    /// The node that `bytes` store.
    pub open spec fn spec_decode(bytes: Seq<u8>) -> ScopeData {
        let mem = spec_u64_from_le_bytes(bytes.subrange(0, 8));
        let dtor = spec_u64_from_le_bytes(bytes.subrange(8, 16));
        let previous = spec_u64_from_le_bytes(bytes.subrange(16, 24));
        ScopeData {
            mem: mem as usize,
            dtor: dtor as usize,
            previous: if previous == NO_PREVIOUS {
                None
            } else {
                Some(previous as usize)
            },
        }
    }

    /// The link of the node can be told apart from "no previous node".
    pub open spec fn encodable(self) -> bool {
        self.previous matches Some(position) ==> position < NO_PREVIOUS
    }

    /// The bytes that the node is stored as.
    pub fn encode(&self) -> (bytes: Vec<u8>)
        ensures
            bytes@ == self.spec_encode(),
            bytes@.len() == SCOPE_DATA_SIZE,
            self.encodable() ==> Self::spec_decode(bytes@) == *self,
    {
        proof {
            if self.encodable() {
                self.lemma_encode_decode();
            }
        }
        let previous: u64 = match self.previous {
            Some(position) => position as u64,
            None => NO_PREVIOUS,
        };
        let mut bytes = u64_to_le_bytes(self.mem as u64);
        let mut dtor_bytes = u64_to_le_bytes(self.dtor as u64);
        let mut previous_bytes = u64_to_le_bytes(previous);
        bytes.append(&mut dtor_bytes);
        bytes.append(&mut previous_bytes);
        bytes
    }

    /// The node that `bytes` store, if they are as many as a node takes.
    pub fn decode(bytes: &[u8]) -> (node: Option<ScopeData>)
        ensures
            node == if bytes@.len() == SCOPE_DATA_SIZE {
                Some(Self::spec_decode(bytes@))
            } else {
                None
            },
    {
        if bytes.len() != SCOPE_DATA_SIZE {
            return None;
        }
        let mem = u64_from_le_bytes(slice_subrange(bytes, 0, 8));
        let dtor = u64_from_le_bytes(slice_subrange(bytes, 8, 16));
        let previous = u64_from_le_bytes(slice_subrange(bytes, 16, 24));
        Some(
            ScopeData {
                mem: mem as usize,
                dtor: dtor as usize,
                previous: if previous == NO_PREVIOUS {
                    None
                } else {
                    Some(previous as usize)
                },
            },
        )
    }

    /// A node takes `SCOPE_DATA_SIZE` bytes, and reading back what was stored
    /// gives the node that was stored.
    pub proof fn lemma_encode_decode(self)
        requires
            self.encodable(),
        ensures
            self.spec_encode().len() == SCOPE_DATA_SIZE,
            Self::spec_decode(self.spec_encode()) == self,
    {
        lemma_auto_spec_u64_to_from_le_bytes();
        let mem = spec_u64_to_le_bytes(self.mem as u64);
        let dtor = spec_u64_to_le_bytes(self.dtor as u64);
        let previous = spec_u64_to_le_bytes(spec_previous_word(self.previous));
        let bytes = self.spec_encode();
        assert(bytes.subrange(0, 8) =~= mem);
        assert(bytes.subrange(8, 16) =~= dtor);
        assert(bytes.subrange(16, 24) =~= previous);
    }
}

} // verus!
