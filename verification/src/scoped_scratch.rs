//! The scope: a stretch of an allocator's block that is handed back as a whole.
//!
//! A scope remembers where the cursor stood when it was made. Objects that need
//! cleanup are linked into a chain of nodes that lie in the block beside them.
//! When the scope ends, the chain is walked from the newest node to the oldest,
//! and the cursor goes back to where the scope started. A scope that has a live
//! child scope is locked and hands out nothing.

use crate::allocator::AllocationError;
use crate::allocator::AllocatorInternal;
use crate::allocator::LinearAllocator;
use crate::scope_data::ScopeData;
use crate::scope_data::SCOPE_DATA_ALIGNMENT;
use crate::scope_data::SCOPE_DATA_SIZE;
use crate::scope_data::UNSET_TARGET;
use crate::scope_model::chain;
use crate::scope_model::chain_head;
use crate::scope_model::lemma_allocate_keeps_scope_standing;
use crate::scope_model::lemma_chain_head_is_newest_node;
use crate::scope_model::lemma_chain_without_head_is_empty;
use crate::scope_model::lemma_nodes_are_encodable;
use crate::scope_model::lemma_scope_stands_on_what_is_below;
use crate::scope_model::node_of;
use crate::scope_model::node_stored;
use crate::scope_model::with_node;
use crate::scope_model::Allocation;
use crate::scope_model::Cleanup;
use crate::scope_model::ScopedScratchView;
use vstd::prelude::*;

verus! {

/// A scope over an allocator. The allocator is handed to each operation; it has
/// to be the one that the scope was made on.
pub struct ScopedScratch {
    alloc_start: usize,
    data_chain: Option<usize>,
    locked: bool,
    parent_locked: bool,
    top: Ghost<nat>,
    allocations: Ghost<Seq<Allocation>>,
}

impl View for ScopedScratch {
    type V = ScopedScratchView;

    closed spec fn view(&self) -> ScopedScratchView {
        ScopedScratchView {
            alloc_start: self.alloc_start as nat,
            top: self.top@,
            data_chain: self.data_chain,
            locked: self.locked,
            has_parent: self.parent_locked,
            allocations: self.allocations@,
        }
    }
}

impl ScopedScratch {
    /// A root scope that starts at the cursor of `allocator`.
    pub fn new(allocator: &LinearAllocator) -> (scope: ScopedScratch)
        ensures
            scope@ == ScopedScratchView::fresh(allocator@.cursor, false),
            scope@.wf(allocator@),
    {
        let alloc_start = allocator.peek();
        ScopedScratch {
            alloc_start,
            data_chain: None,
            locked: false,
            parent_locked: false,
            top: Ghost(alloc_start as nat),
            allocations: Ghost(Seq::empty()),
        }
    }

    /// A child scope that starts at the cursor of `allocator`. This scope is
    /// locked until the child has ended.
    pub fn new_scope(&mut self, allocator: &LinearAllocator) -> (child: ScopedScratch)
        requires
            old(self)@.wf(allocator@),
            !old(self)@.locked,
        ensures
            final(self)@ == old(self)@.lock(),
            final(self)@.wf(allocator@),
            child@ == ScopedScratchView::fresh(allocator@.cursor, true),
            child@.wf(allocator@),
            child@.is_child_of(final(self)@),
    {
        self.locked = true;
        let alloc_start = allocator.peek();
        ScopedScratch {
            alloc_start,
            data_chain: None,
            locked: false,
            parent_locked: true,
            top: Ghost(alloc_start as nat),
            allocations: Ghost(Seq::empty()),
        }
    }

    /// The cursor of the allocator when the scope was made.
    pub fn alloc_start(&self) -> (position: usize)
        ensures
            position == self@.alloc_start,
    {
        self.alloc_start
    }

    /// Tells whether a child scope is alive.
    pub fn is_locked(&self) -> (locked: bool)
        ensures
            locked == self@.locked,
    {
        self.locked
    }

    /// Tells whether the scope is the child of another.
    pub fn has_parent(&self) -> (has_parent: bool)
        ensures
            has_parent == self@.has_parent,
    {
        self.parent_locked
    }

    /// Copies `obj` into the block of `allocator` and hands back its position.
    /// With a destructor, the object is linked into the chain first, and the
    /// destructor falls due when the scope ends.
    pub fn allocate(
        &mut self,
        allocator: &mut LinearAllocator,
        obj: &[u8],
        alignment: usize,
        dtor: Option<usize>,
    ) -> (result: Result<usize, AllocationError>)
        requires
            old(self)@.wf(old(allocator)@),
            alignment > 0,
        ensures
            (final(self)@, final(allocator)@, result) == old(self)@.allocate(
                old(allocator)@,
                obj@,
                alignment,
                dtor,
            ),
            final(self)@.wf(final(allocator)@),
            final(self)@.alloc_start == old(self)@.alloc_start,
            final(self)@.locked == old(self)@.locked,
            final(self)@.has_parent == old(self)@.has_parent,
            final(self)@.cleanup_calls() == old(self)@.cleanup_calls_after(result, dtor),
            old(allocator)@.agrees_below(final(allocator)@, old(allocator)@.cursor),
            old(allocator)@.cursor <= final(allocator)@.cursor,
    {
        proof {
            lemma_allocate_keeps_scope_standing(
                old(self)@,
                old(allocator)@,
                obj@,
                alignment,
                dtor,
            );
        }
        if self.locked {
            return Err(AllocationError::ScopeLocked);
        }
        match dtor {
            None => {
                match allocator.alloc_internal(obj, alignment) {
                    Ok(mem) => {
                        self.top = Ghost(allocator@.cursor);
                        self.allocations = Ghost(
                            self.allocations@.push(
                                Allocation { mem, size_bytes: obj.len(), alignment, cleanup: None },
                            ),
                        );
                        Ok(mem)
                    },
                    Err(error) => Err(error),
                }
            },
            Some(dtor) => {
                let unset = ScopeData { mem: UNSET_TARGET, dtor, previous: self.data_chain };
                let node = match allocator.alloc_internal(
                    unset.encode().as_slice(),
                    SCOPE_DATA_ALIGNMENT,
                ) {
                    Ok(node) => node,
                    Err(error) => {
                        return Err(error);
                    },
                };
                proof {
                    assert(allocator@.block =~= with_node(old(allocator)@, unset).block);
                }
                self.top = Ghost(allocator@.cursor);
                let mem = match allocator.alloc_internal(obj, alignment) {
                    Ok(mem) => mem,
                    Err(error) => {
                        return Err(error);
                    },
                };
                let linked = ScopeData { mem, dtor, previous: self.data_chain };
                allocator.write(node, linked.encode().as_slice());
                proof {
                    assert(allocator@.block =~= with_node(old(allocator)@, linked).allocate(
                        obj@,
                        alignment as nat,
                    ).block);
                }
                self.top = Ghost(allocator@.cursor);
                self.data_chain = Some(node);
                self.allocations = Ghost(
                    self.allocations@.push(
                        Allocation {
                            mem,
                            size_bytes: obj.len(),
                            alignment,
                            cleanup: Some(Cleanup { node, dtor }),
                        },
                    ),
                );
                Ok(mem)
            },
        }
    }

    /// The nodes of the chain, from the newest to the oldest.
    pub fn iter_chain(&self, allocator: &LinearAllocator) -> (nodes: Vec<ScopeData>)
        requires
            self@.wf(allocator@),
        ensures
            nodes@ == chain(self@.allocations),
    {
        let mut nodes: Vec<ScopeData> = Vec::new();
        let mut data_chain = self.data_chain;
        let ghost mut len: int = self.allocations@.len() as int;
        proof {
            assert(self@.allocations.subrange(0, len) =~= self@.allocations);
            assert(nodes@ + chain(self@.allocations) =~= chain(self@.allocations));
        }
        while data_chain.is_some()
            invariant
                self@.wf(allocator@),
                0 <= len <= self@.allocations.len(),
                data_chain == chain_head(self@.allocations.subrange(0, len)),
                nodes@ + chain(self@.allocations.subrange(0, len)) == chain(self@.allocations),
            decreases len,
        {
            let at = data_chain.unwrap();
            proof {
                let inner = self@.allocations.subrange(0, len);
                let i = lemma_chain_head_is_newest_node(inner);
                assert(inner[i] == self@.allocations[i]);
                assert(inner.subrange(0, i) =~= self@.allocations.subrange(0, i));
                assert(self@.allocations[i].wf());
                assert(node_stored(self@.allocations, allocator@.below(self@.top), i));
                assert(allocator@.block.subrange(at as int, at + SCOPE_DATA_SIZE)
                    =~= allocator@.below(self@.top).subrange(at as int, at + SCOPE_DATA_SIZE));
                lemma_nodes_are_encodable(self@, allocator@, i);
                node_of(self@.allocations, i).lemma_encode_decode();
                assert(nodes@.push(node_of(self@.allocations, i)) + chain(
                    self@.allocations.subrange(0, i),
                ) =~= nodes@ + chain(inner));
                len = i;
            }
            let bytes = allocator.read(at, SCOPE_DATA_SIZE);
            let node = ScopeData::decode(bytes.unwrap()).unwrap();
            nodes.push(node);
            data_chain = node.previous;
        }
        proof {
            lemma_chain_without_head_is_empty(self@.allocations.subrange(0, len));
            assert(nodes@ + Seq::<ScopeData>::empty() =~= nodes@);
        }
        nodes
    }

    /// Number of nodes in the chain: of objects that await cleanup.
    pub fn data_chain_len(&self, allocator: &LinearAllocator) -> (len: usize)
        requires
            self@.wf(allocator@),
        ensures
            len == chain(self@.allocations).len(),
    {
        self.iter_chain(allocator).len()
    }

    /// Ends the scope. The nodes of its chain are handed back in the order in
    /// which their destructors are due, the newest first; the cursor of
    /// `allocator` goes back to where the scope started; and the parent, if the
    /// scope has one, gets its lock back.
    pub fn drop_scope(
        self,
        allocator: &mut LinearAllocator,
        parent: Option<&mut ScopedScratch>,
    ) -> (calls: Vec<ScopeData>)
        requires
            self@.wf(old(allocator)@),
            !self@.locked,
            self@.has_parent == parent is Some,
            parent matches Some(scope) ==> {
                &&& scope@.wf(old(allocator)@)
                &&& self@.is_child_of(scope@)
            },
        ensures
            calls@ == self@.cleanup_calls(),
            final(allocator)@ == old(allocator)@.rewind(self@.alloc_start),
            old(allocator)@.agrees_below(final(allocator)@, old(allocator)@.cursor),
            parent matches Some(scope) ==> {
                &&& final(scope)@ == scope@.unlock()
                &&& final(scope)@.wf(final(allocator)@)
            },
    {
        let calls = self.iter_chain(allocator);
        allocator.rewind(self.alloc_start);
        match parent {
            Some(scope) => {
                proof {
                    lemma_scope_stands_on_what_is_below(scope@, old(allocator)@, allocator@);
                }
                scope.locked = false;
            },
            None => {},
        }
        calls
    }
}

} // verus!
