//! The scope behind two entry points, one for plain data and one for objects
//! that need cleanup: the caller says with each request which of the two it
//! makes.

use crate::allocator::AllocationError;
use crate::allocator::LinearAllocator;
use crate::scope_data::ScopeData;
use crate::scope_model::ScopedScratchView;
use crate::scoped_scratch::ScopedScratch;
use vstd::prelude::*;

verus! {

/// A scope over an allocator, with one entry point for each kind of object.
pub struct ScopeScratch {
    scope: ScopedScratch,
}

impl View for ScopeScratch {
    type V = ScopedScratchView;

    closed spec fn view(&self) -> ScopedScratchView {
        self.scope@
    }
}

impl ScopeScratch {
    /// A root scope that starts at the cursor of `allocator`.
    pub fn new(allocator: &LinearAllocator) -> (scratch: ScopeScratch)
        ensures
            scratch@ == ScopedScratchView::fresh(allocator@.cursor, false),
            scratch@.wf(allocator@),
    {
        ScopeScratch { scope: ScopedScratch::new(allocator) }
    }

    /// A child scope that starts at the cursor of `allocator`. This scope is
    /// locked until the child has ended.
    pub fn new_scope(&mut self, allocator: &LinearAllocator) -> (child: ScopeScratch)
        requires
            old(self)@.wf(allocator@),
            !old(self)@.locked,
        ensures
            final(self)@ == old(self)@.lock(),
            final(self)@.wf(allocator@),
            child@ == ScopedScratchView::fresh(allocator@.cursor, true),
            child@.wf(allocator@),
            child@.is_child_of(final(self)@),
    {
        ScopeScratch { scope: self.scope.new_scope(allocator) }
    }

    /// The scope itself, for what does not depend on the kind of object.
    pub fn scope(&self) -> (scope: &ScopedScratch)
        ensures
            scope@ == self@,
    {
        &self.scope
    }

    /// Copies `obj` into the block of `allocator`, links it into the chain, and
    /// hands back its position. The destructor `dtor` falls due when the scope
    /// ends.
    pub fn new_obj(
        &mut self,
        allocator: &mut LinearAllocator,
        obj: &[u8],
        alignment: usize,
        dtor: usize,
    ) -> (result: Result<usize, AllocationError>)
        requires
            old(self)@.wf(old(allocator)@),
            alignment > 0,
        ensures
            (final(self)@, final(allocator)@, result) == old(self)@.allocate(
                old(allocator)@,
                obj@,
                alignment,
                Some(dtor),
            ),
            final(self)@.wf(final(allocator)@),
            final(self)@.alloc_start == old(self)@.alloc_start,
            final(self)@.locked == old(self)@.locked,
            final(self)@.has_parent == old(self)@.has_parent,
            final(self)@.cleanup_calls() == old(self)@.cleanup_calls_after(result, Some(dtor)),
            old(allocator)@.agrees_below(final(allocator)@, old(allocator)@.cursor),
            old(allocator)@.cursor <= final(allocator)@.cursor,
    {
        self.scope.allocate(allocator, obj, alignment, Some(dtor))
    }

    /// Copies `pod`, an object that needs no cleanup, into the block of
    /// `allocator` and hands back its position.
    pub fn new_pod(
        &mut self,
        allocator: &mut LinearAllocator,
        pod: &[u8],
        alignment: usize,
    ) -> (result: Result<usize, AllocationError>)
        requires
            old(self)@.wf(old(allocator)@),
            alignment > 0,
        ensures
            (final(self)@, final(allocator)@, result) == old(self)@.allocate(
                old(allocator)@,
                pod@,
                alignment,
                None,
            ),
            final(self)@.wf(final(allocator)@),
            final(self)@.alloc_start == old(self)@.alloc_start,
            final(self)@.locked == old(self)@.locked,
            final(self)@.has_parent == old(self)@.has_parent,
            final(self)@.cleanup_calls() == old(self)@.cleanup_calls_after(result, None),
            old(allocator)@.agrees_below(final(allocator)@, old(allocator)@.cursor),
            old(allocator)@.cursor <= final(allocator)@.cursor,
    {
        self.scope.allocate(allocator, pod, alignment, None)
    }

    /// Ends the scope. The nodes of its chain are handed back in the order in
    /// which their destructors are due, the newest first; the cursor of
    /// `allocator` goes back to where the scope started; and the parent, if the
    /// scope has one, gets its lock back.
    pub fn drop_scope(
        self,
        allocator: &mut LinearAllocator,
        parent: Option<&mut ScopeScratch>,
    ) -> (calls: Vec<ScopeData>)
        requires
            self@.wf(old(allocator)@),
            !self@.locked,
            self@.has_parent == parent is Some,
            parent matches Some(scratch) ==> {
                &&& scratch@.wf(old(allocator)@)
                &&& self@.is_child_of(scratch@)
            },
        ensures
            calls@ == self@.cleanup_calls(),
            final(allocator)@ == old(allocator)@.rewind(self@.alloc_start),
            old(allocator)@.agrees_below(final(allocator)@, old(allocator)@.cursor),
            parent matches Some(scratch) ==> {
                &&& final(scratch)@ == scratch@.unlock()
                &&& final(scratch)@.wf(final(allocator)@)
            },
    {
        match parent {
            Some(scratch) => self.scope.drop_scope(allocator, Some(&mut scratch.scope)),
            None => self.scope.drop_scope(allocator, None),
        }
    }
}

} // verus!
