//! The linear allocator: one block of bytes of fixed capacity and a cursor that
//! marks where its free space starts.
//!
//! Objects are byte strings. An allocation copies the object to the first
//! aligned position at or after the cursor and hands back that position; the
//! position is the handle through which the object is read and written.

use crate::layout::align_offset;
use crate::layout::max_block_size;
use crate::layout::spec_align_up;
use crate::layout::L1_CACHE_LINE_SIZE;
use vstd::prelude::*;
use vstd::slice::slice_subrange;

verus! {

/// Why an allocator could not be made, or an allocation could not be served.
#[derive(Debug, Clone, Copy, PartialEq, Eq)]
pub enum AllocationError {
    /// The requested capacity is zero, or too large for a block.
    InvalidConfiguration,
    /// The memory for the block could not be reserved.
    BackingAllocationFailed,
    /// The object does not fit behind the cursor once it is aligned.
    OutOfMemory {
        /// Size of the object that was asked for.
        size_bytes: usize,
        /// Alignment of the object that was asked for.
        alignment: usize,
        /// Free bytes behind the cursor when it was asked for.
        remaining_bytes: usize,
    },
    /// The scope has a live child scope and may not allocate.
    ScopeLocked,
}

/// `block` with `data` copied over the bytes that start at `at`.
pub open spec fn write_at(block: Seq<u8>, at: nat, data: Seq<u8>) -> Seq<u8> {
    Seq::new(
        block.len(),
        |i: int|
            if at <= i < at + data.len() {
                data[i - at]
            } else {
                block[i]
            },
    )
}

/// What a linear allocator is: the bytes of its block, and its cursor.
pub struct LinearAllocatorView {
    /// The bytes of the block; its length is the capacity.
    pub block: Seq<u8>,
    /// Position at which the free space starts.
    pub cursor: nat,
}

impl LinearAllocatorView {
    /// The block is not empty, small enough, and the cursor lies inside it.
    pub open spec fn wf(self) -> bool {
        &&& 0 < self.block.len() <= max_block_size()
        &&& self.cursor <= self.block.len()
    }

    /// A block of `size_bytes` zero bytes, all of them free.
    pub open spec fn fresh(size_bytes: nat) -> Self {
        LinearAllocatorView { block: Seq::new(size_bytes, |i: int| 0u8), cursor: 0 }
    }

    /// Number of free bytes behind the cursor.
    pub open spec fn remaining(self) -> nat {
        (self.block.len() - self.cursor) as nat
    }

    /// Position that the next object of the given alignment is placed at.
    pub open spec fn place(self, alignment: nat) -> nat {
        spec_align_up(self.cursor, alignment)
    }

    /// An object of the given size and alignment still fits into the block.
    pub open spec fn fits(self, size_bytes: nat, alignment: nat) -> bool {
        self.place(alignment) + size_bytes <= self.block.len()
    }

    /// The allocator after `obj` has been allocated at the given alignment.
    pub open spec fn allocate(self, obj: Seq<u8>, alignment: nat) -> Self {
        LinearAllocatorView {
            block: write_at(self.block, self.place(alignment), obj),
            cursor: self.place(alignment) + obj.len(),
        }
    }

    /// The allocator after its cursor has been set back to `target`.
    pub open spec fn rewind(self, target: nat) -> Self {
        LinearAllocatorView { block: self.block, cursor: target }
    }

    /// The allocator after `data` has been written over the bytes at `at`.
    pub open spec fn write(self, at: nat, data: Seq<u8>) -> Self {
        LinearAllocatorView { block: write_at(self.block, at, data), cursor: self.cursor }
    }

    /// The bytes of the block that lie below `limit`.
    pub open spec fn below(self, limit: nat) -> Seq<u8> {
        self.block.subrange(0, limit as int)
    }

    /// Both allocators have blocks of one size that hold the same bytes below
    /// `limit`: up to there, and up to every position before it.
    pub open spec fn agrees_below(self, other: Self, limit: nat) -> bool {
        &&& self.block.len() == other.block.len()
        &&& forall|part: nat|
            #![trigger self.below(part)]
            #![trigger other.below(part)]
            part <= limit ==> self.below(part) == other.below(part)
    }
}

/// Two allocators agree below a limit exactly if their blocks are of one size
/// and hold the same byte at each position below the limit.
pub proof fn lemma_agrees_below_byte_by_byte(
    one: LinearAllocatorView,
    other: LinearAllocatorView,
    limit: nat,
)
    requires
        one.block.len() == other.block.len(),
        limit <= one.block.len(),
    ensures
        one.agrees_below(other, limit) <==> (forall|i: int|
            0 <= i < limit ==> one.block[i] == other.block[i]),
{
    if one.agrees_below(other, limit) {
        assert forall|i: int| 0 <= i < limit implies one.block[i] == other.block[i] by {
            assert(one.below(limit) == other.below(limit));
            assert(one.below(limit)[i] == one.block[i]);
            assert(other.below(limit)[i] == other.block[i]);
        }
    }
    if forall|i: int| 0 <= i < limit ==> one.block[i] == other.block[i] {
        assert forall|part: nat| part <= limit implies one.below(part) == other.below(part) by {
            assert(one.below(part) =~= other.below(part));
        }
    }
}

/// A capacity that a block can have.
pub open spec fn valid_block_size(size_bytes: usize) -> bool {
    0 < size_bytes <= max_block_size()
}

/// A bump allocator over one block of bytes.
pub struct LinearAllocator {
    block: Vec<u8>,
    next_alloc: usize,
}

impl View for LinearAllocator {
    type V = LinearAllocatorView;

    closed spec fn view(&self) -> LinearAllocatorView {
        LinearAllocatorView { block: self.block@, cursor: self.next_alloc as nat }
    }
}

/// The operations on the cursor that the scopes are built from.
pub trait AllocatorInternal: View<V = LinearAllocatorView> {
    /// Copies `obj` to the next position that has the given alignment and hands
    /// that position back, or reports that the block is too full for it.
    fn alloc_internal(&mut self, obj: &[u8], alignment: usize) -> (result: Result<
        usize,
        AllocationError,
    >)
        requires
            alignment > 0,
        ensures
            final(self)@.wf(),
            old(self)@.agrees_below(final(self)@, old(self)@.cursor),
            match result {
                Ok(alloc) => {
                    &&& old(self)@.fits(obj@.len(), alignment as nat)
                    &&& alloc == old(self)@.place(alignment as nat)
                    &&& final(self)@ == old(self)@.allocate(obj@, alignment as nat)
                },
                Err(error) => {
                    &&& !old(self)@.fits(obj@.len(), alignment as nat)
                    &&& error == (AllocationError::OutOfMemory {
                        size_bytes: obj@.len() as usize,
                        alignment,
                        remaining_bytes: old(self)@.remaining() as usize,
                    })
                    &&& final(self)@ == old(self)@
                },
            },
    ;

    /// Sets the cursor back to `alloc`, a position that it stood at before.
    /// Nothing is cleaned up: what lies behind `alloc` is free again as it is.
    fn rewind(&mut self, alloc: usize)
        requires
            alloc <= old(self)@.cursor,
        ensures
            final(self)@ == old(self)@.rewind(alloc as nat),
            final(self)@.wf(),
            old(self)@.agrees_below(final(self)@, old(self)@.block.len()),
    ;

    /// The position at which the free space starts.
    fn peek(&self) -> (alloc: usize)
        ensures
            alloc == self@.cursor,
            self@.wf(),
    ;
}

impl LinearAllocator {
    /// Every allocator has a block of a valid size and its cursor inside it.
    #[verifier::type_invariant]
    pub open spec fn inv(&self) -> bool {
        self@.wf()
    }

    /// A new allocator with a block of `size_bytes` zero bytes.
    ///
    /// Whether the block can be reserved is for the system to say; every other
    /// outcome is fixed by `size_bytes`, as `from_reservation` states it.
    pub fn new(size_bytes: usize) -> (result: Result<LinearAllocator, AllocationError>)
        ensures
            match result {
                Ok(allocator) => {
                    &&& valid_block_size(size_bytes)
                    &&& allocator@ == LinearAllocatorView::fresh(size_bytes as nat)
                },
                Err(error) => error == if valid_block_size(size_bytes) {
                    AllocationError::BackingAllocationFailed
                } else {
                    AllocationError::InvalidConfiguration
                },
            },
    {
        let mut block: Vec<u8> = Vec::new();
        let mut reserved = false;
        if Self::check_block_size(size_bytes) {
            reserved = block.try_reserve(size_bytes).is_ok();
        }
        Self::from_reservation(size_bytes, block, reserved)
    }

    /// Tells whether a block can have `size_bytes` bytes.
    pub fn check_block_size(size_bytes: usize) -> (valid: bool)
        ensures
            valid == valid_block_size(size_bytes),
    {
        size_bytes != 0 && size_bytes <= (isize::MAX as usize) - (L1_CACHE_LINE_SIZE - 1)
    }

    /// Makes the allocator once the system has said whether `block` could be
    /// reserved for `size_bytes` bytes.
    pub fn from_reservation(size_bytes: usize, block: Vec<u8>, reserved: bool) -> (result: Result<
        LinearAllocator,
        AllocationError,
    >)
        ensures
            match result {
                Ok(allocator) => {
                    &&& valid_block_size(size_bytes)
                    &&& reserved
                    &&& allocator@ == LinearAllocatorView::fresh(size_bytes as nat)
                },
                Err(error) => {
                    &&& !(valid_block_size(size_bytes) && reserved)
                    &&& error == if valid_block_size(size_bytes) {
                        AllocationError::BackingAllocationFailed
                    } else {
                        AllocationError::InvalidConfiguration
                    }
                },
            },
    {
        if !Self::check_block_size(size_bytes) {
            return Err(AllocationError::InvalidConfiguration);
        }
        if !reserved {
            return Err(AllocationError::BackingAllocationFailed);
        }
        let mut block = block;
        block.clear();
        block.resize(size_bytes, 0u8);
        assert(block@ =~= LinearAllocatorView::fresh(size_bytes as nat).block);
        Ok(LinearAllocator { block, next_alloc: 0 })
    }

    /// Number of bytes in the block.
    pub fn capacity(&self) -> (size_bytes: usize)
        ensures
            size_bytes == self@.block.len(),
            self@.wf(),
    {
        proof {
            use_type_invariant(self);
        }
        self.block.len()
    }

    /// Tells whether an object of the given size and alignment still fits.
    pub fn fits(&self, size_bytes: usize, alignment: usize) -> (fits: bool)
        requires
            alignment > 0,
        ensures
            fits == self@.fits(size_bytes as nat, alignment as nat),
    {
        proof {
            use_type_invariant(self);
        }
        let remaining: usize = self.block.len() - self.next_alloc;
        let padding: usize = align_offset(self.next_alloc, alignment);
        padding <= remaining && size_bytes <= remaining - padding
    }

    /// Copies `obj` to the next position that has the given alignment, where it
    /// is known to fit.
    pub(crate) fn place_object(&mut self, obj: &[u8], alignment: usize) -> (alloc: usize)
        requires
            alignment > 0,
            old(self)@.fits(obj@.len(), alignment as nat),
        ensures
            alloc == old(self)@.place(alignment as nat),
            final(self)@ == old(self)@.allocate(obj@, alignment as nat),
            final(self)@.wf(),
            old(self)@.agrees_below(final(self)@, old(self)@.cursor),
    {
        proof {
            use_type_invariant(&*self);
            lemma_agrees_below_byte_by_byte(
                old(self)@,
                old(self)@.allocate(obj@, alignment as nat),
                old(self)@.cursor,
            );
        }
        let padding: usize = align_offset(self.next_alloc, alignment);
        let alloc: usize = self.next_alloc + padding;
        self.copy_in(alloc, obj);
        self.next_alloc = alloc + obj.len();
        assert(self@.block =~= old(self)@.allocate(obj@, alignment as nat).block);
        alloc
    }

    /// Sets the cursor back to `target`.
    pub(crate) fn set_cursor(&mut self, target: usize)
        requires
            target <= old(self)@.cursor,
        ensures
            final(self)@ == old(self)@.rewind(target as nat),
            final(self)@.wf(),
            old(self)@.agrees_below(final(self)@, old(self)@.block.len()),
    {
        proof {
            use_type_invariant(&*self);
        }
        self.next_alloc = target;
    }

    /// The position at which the free space starts.
    pub(crate) fn cursor(&self) -> (position: usize)
        ensures
            position == self@.cursor,
            self@.wf(),
    {
        proof {
            use_type_invariant(self);
        }
        self.next_alloc
    }

    /// Copies `data` over the bytes of the block that start at `at`.
    fn copy_in(&mut self, at: usize, data: &[u8])
        requires
            at + data@.len() <= old(self)@.block.len(),
        ensures
            final(self)@ == old(self)@.write(at as nat, data@),
    {
        proof {
            use_type_invariant(&*self);
        }
        let mut i: usize = 0;
        while i < data.len()
            invariant
                i <= data@.len(),
                at + data@.len() <= self.block@.len(),
                self.block@.len() == old(self).block@.len(),
                self.next_alloc == old(self).next_alloc,
                self@.wf(),
                forall|j: int|
                    0 <= j < self.block@.len() ==> self.block@[j] == if at <= j < at + i {
                        data@[j - at]
                    } else {
                        old(self).block@[j]
                    },
            decreases data@.len() - i,
        {
            self.block[at + i] = data[i];
            i = i + 1;
        }
        assert(self@.block =~= write_at(old(self)@.block, at as nat, data@));
    }

    /// The `len` bytes of the object at `at`, if they all lie below the cursor.
    pub fn read(&self, at: usize, len: usize) -> (data: Option<&[u8]>)
        ensures
            match data {
                Some(bytes) => at + len <= self@.cursor && bytes@ == self@.block.subrange(
                    at as int,
                    at + len,
                ),
                None => at + len > self@.cursor,
            },
    {
        proof {
            use_type_invariant(self);
        }
        if at > self.next_alloc || len > self.next_alloc - at {
            return None;
        }
        Some(slice_subrange(self.block.as_slice(), at, at + len))
    }

    /// Writes `data` over the object at `at`, if all of it lies below the
    /// cursor, and says whether it did.
    pub fn write(&mut self, at: usize, data: &[u8]) -> (written: bool)
        ensures
            written == (at + data@.len() <= old(self)@.cursor),
            final(self)@ == if written {
                old(self)@.write(at as nat, data@)
            } else {
                old(self)@
            },
            final(self)@.wf(),
    {
        proof {
            use_type_invariant(&*self);
        }
        if at > self.next_alloc || data.len() > self.next_alloc - at {
            return false;
        }
        self.copy_in(at, data);
        true
    }
}

impl AllocatorInternal for LinearAllocator {
    fn alloc_internal(&mut self, obj: &[u8], alignment: usize) -> (result: Result<
        usize,
        AllocationError,
    >) {
        proof {
            use_type_invariant(&*self);
        }
        if !self.fits(obj.len(), alignment) {
            let remaining_bytes: usize = self.block.len() - self.next_alloc;
            return Err(
                AllocationError::OutOfMemory { size_bytes: obj.len(), alignment, remaining_bytes },
            );
        }
        Ok(self.place_object(obj, alignment))
    }

    fn rewind(&mut self, alloc: usize) {
        self.set_cursor(alloc);
    }

    fn peek(&self) -> (alloc: usize) {
        self.cursor()
    }
}

} // verus!
