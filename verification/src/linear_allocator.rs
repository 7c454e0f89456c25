//! The cursor operations for a caller that has made sure of the room: the
//! allocation cannot fail, because the caller owes the proof that the object
//! fits.

use crate::allocator::LinearAllocator;
use crate::allocator::LinearAllocatorView;
use vstd::prelude::*;

verus! {

/// The operations on the cursor, without a check for room.
pub trait LinearAllocatorInternal: View<V = LinearAllocatorView> {
    /// Copies `obj` to the next position that has the given alignment, and
    /// hands that position back. The object has to fit.
    fn alloc_internal(&mut self, obj: &[u8], alignment: usize) -> (alloc: usize)
        requires
            alignment > 0,
            old(self)@.fits(obj@.len(), alignment as nat),
        ensures
            alloc == old(self)@.place(alignment as nat),
            final(self)@ == old(self)@.allocate(obj@, alignment as nat),
            final(self)@.wf(),
            old(self)@.agrees_below(final(self)@, old(self)@.cursor),
    ;

    /// Sets the cursor back to `alloc`, a position that it stood at before.
    /// Nothing is cleaned up: what lies behind `alloc` is free again as it is.
    fn rewind(&mut self, alloc: usize)
        requires
            alloc <= old(self)@.cursor,
        ensures
            final(self)@ == old(self)@.rewind(alloc as nat),
            final(self)@.wf(),
            old(self)@.agrees_below(final(self)@, old(self)@.block.len()),
    ;

    /// The position at which the free space starts.
    fn peek(&self) -> (alloc: usize)
        ensures
            alloc == self@.cursor,
            self@.wf(),
    ;
}

impl LinearAllocatorInternal for LinearAllocator {
    fn alloc_internal(&mut self, obj: &[u8], alignment: usize) -> (alloc: usize) {
        self.place_object(obj, alignment)
    }

    fn rewind(&mut self, alloc: usize) {
        self.set_cursor(alloc);
    }

    fn peek(&self) -> (alloc: usize) {
        self.cursor()
    }
}

} // verus!
