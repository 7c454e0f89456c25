//! What a scope is, as a value: the record of what it has allocated, and how
//! that record stands in the block of its allocator.
//!
//! A scope records every object that it hands out, oldest first. An object that
//! needs cleanup is guarded by a node that lies in the block just before it; the
//! nodes of one scope form a chain from the newest to the oldest.

use crate::allocator::lemma_agrees_below_byte_by_byte;
use crate::allocator::AllocationError;
use crate::allocator::LinearAllocatorView;
use crate::layout::is_aligned;
use crate::layout::lemma_align_up_is_least;
use crate::scope_data::ScopeData;
use crate::scope_data::SCOPE_DATA_ALIGNMENT;
use crate::scope_data::SCOPE_DATA_SIZE;
use crate::scope_data::UNSET_TARGET;
use vstd::prelude::*;

verus! {

/// The cleanup that is due to an object: where its node lies, and which
/// destructor the node names.
pub struct Cleanup {
    /// Position of the node that guards the object.
    pub node: usize,
    /// The destructor that is due to the object.
    pub dtor: usize,
}

/// One object that a scope has handed out.
pub struct Allocation {
    /// Position of the object.
    pub mem: usize,
    /// Size of the object.
    pub size_bytes: usize,
    /// Alignment that was asked for.
    pub alignment: usize,
    /// The cleanup that is due to it, if any.
    pub cleanup: Option<Cleanup>,
}

impl Allocation {
    /// First position that the allocation takes: that of its node, if it has
    /// one, else that of the object.
    pub open spec fn start(self) -> nat {
        match self.cleanup {
            Some(cleanup) => cleanup.node as nat,
            None => self.mem as nat,
        }
    }

    /// First position behind the object.
    pub open spec fn end(self) -> nat {
        (self.mem + self.size_bytes) as nat
    }

    /// The object is aligned as asked, and its node, if any, is aligned and
    /// lies wholly before it.
    pub open spec fn wf(self) -> bool {
        &&& self.alignment > 0
        &&& is_aligned(self.mem as nat, self.alignment as nat)
        &&& self.cleanup matches Some(cleanup) ==> {
            &&& is_aligned(cleanup.node as nat, SCOPE_DATA_ALIGNMENT as nat)
            &&& cleanup.node + SCOPE_DATA_SIZE <= self.mem
        }
    }
}

/// Position of the newest node among `allocations`, if any of them has one.
pub open spec fn chain_head(allocations: Seq<Allocation>) -> Option<usize>
    decreases allocations.len(),
{
    if allocations.len() == 0 {
        None
    } else {
        match allocations.last().cleanup {
            Some(cleanup) => Some(cleanup.node),
            None => chain_head(allocations.drop_last()),
        }
    }
}

/// The node that guards the `i`-th of `allocations`: it names the object and
/// its destructor, and links to the newest node that was there before it.
pub open spec fn node_of(allocations: Seq<Allocation>, i: int) -> ScopeData {
    ScopeData {
        mem: allocations[i].mem,
        dtor: allocations[i].cleanup.unwrap().dtor,
        previous: chain_head(allocations.subrange(0, i)),
    }
}

/// The chain of `allocations` as it is walked: the nodes of those that need
/// cleanup, the newest first.
pub open spec fn chain(allocations: Seq<Allocation>) -> Seq<ScopeData>
    decreases allocations.len(),
{
    if allocations.len() == 0 {
        Seq::empty()
    } else if allocations.last().cleanup is Some {
        seq![node_of(allocations, allocations.len() - 1)] + chain(allocations.drop_last())
    } else {
        chain(allocations.drop_last())
    }
}

/// How many of `allocations` need cleanup.
pub open spec fn cleanup_count(allocations: Seq<Allocation>) -> nat
    decreases allocations.len(),
{
    if allocations.len() == 0 {
        0
    } else if allocations.last().cleanup is Some {
        cleanup_count(allocations.drop_last()) + 1
    } else {
        cleanup_count(allocations.drop_last())
    }
}

/// The bytes at the node of the `i`-th of `allocations` are that node.
pub open spec fn node_stored(allocations: Seq<Allocation>, bytes: Seq<u8>, i: int) -> bool {
    let node = allocations[i].cleanup.unwrap().node;
    bytes.subrange(node as int, node + SCOPE_DATA_SIZE) == node_of(allocations, i).spec_encode()
}

/// `block` with `node` stored over the bytes that start at `at`.
pub open spec fn store_node(block: Seq<u8>, at: nat, node: ScopeData) -> Seq<u8> {
    Seq::new(
        block.len(),
        |i: int|
            if at <= i < at + SCOPE_DATA_SIZE {
                node.spec_encode()[i - at]
            } else {
                block[i]
            },
    )
}

/// The allocator after `node` has been allocated: the node is stored at the
/// next position that is aligned for a node, and the cursor stands behind it.
pub open spec fn with_node(allocator: LinearAllocatorView, node: ScopeData) -> LinearAllocatorView {
    LinearAllocatorView {
        block: store_node(
            allocator.block,
            allocator.place(SCOPE_DATA_ALIGNMENT as nat),
            node,
        ),
        cursor: allocator.place(SCOPE_DATA_ALIGNMENT as nat) + SCOPE_DATA_SIZE as nat,
    }
}

/// The error that reports that an object does not fit into `allocator`.
pub open spec fn out_of_memory(
    allocator: LinearAllocatorView,
    size_bytes: nat,
    alignment: usize,
) -> AllocationError {
    AllocationError::OutOfMemory {
        size_bytes: size_bytes as usize,
        alignment,
        remaining_bytes: allocator.remaining() as usize,
    }
}

/// What a scope is.
pub struct ScopedScratchView {
    /// The cursor of the allocator when the scope was made.
    pub alloc_start: nat,
    /// The cursor of the allocator when the scope last was the innermost one.
    pub top: nat,
    /// Position of the newest node of the chain.
    pub data_chain: Option<usize>,
    /// A child scope is alive.
    pub locked: bool,
    /// The scope is the child of another, whose lock it holds.
    pub has_parent: bool,
    /// The objects that the scope has handed out, oldest first.
    pub allocations: Seq<Allocation>,
}

impl ScopedScratchView {
    /// A scope that was just made at `cursor`.
    pub open spec fn fresh(cursor: nat, has_parent: bool) -> Self {
        ScopedScratchView {
            alloc_start: cursor,
            top: cursor,
            data_chain: None,
            locked: false,
            has_parent,
            allocations: Seq::empty(),
        }
    }

    /// The scope with its lock taken.
    pub open spec fn lock(self) -> Self {
        ScopedScratchView { locked: true, ..self }
    }

    /// The scope with its lock given back.
    pub open spec fn unlock(self) -> Self {
        ScopedScratchView { locked: false, ..self }
    }

    /// The scope after the allocator has moved on to `cursor` for it.
    pub open spec fn advance(self, cursor: nat) -> Self {
        ScopedScratchView { top: cursor, ..self }
    }

    /// The scope after it has handed out `allocation`.
    pub open spec fn record(self, allocation: Allocation) -> Self {
        ScopedScratchView {
            top: allocation.end(),
            data_chain: match allocation.cleanup {
                Some(cleanup) => Some(cleanup.node),
                None => self.data_chain,
            },
            allocations: self.allocations.push(allocation),
            ..self
        }
    }

    /// The scope was made by `parent`, which has been waiting for it since.
    pub open spec fn is_child_of(self, parent: Self) -> bool {
        &&& self.has_parent
        &&& parent.locked
        &&& parent.top == self.alloc_start
    }

    /// The nodes that are due for cleanup when the scope ends, in the order in
    /// which they are due.
    pub open spec fn cleanup_calls(self) -> Seq<ScopeData> {
        chain(self.allocations)
    }

    /// The nodes that are due for cleanup once the scope has answered a
    /// request: where it has handed out an object to which a destructor is due,
    /// the node of that object comes before all that were due already.
    pub open spec fn cleanup_calls_after(
        self,
        answer: Result<usize, AllocationError>,
        dtor: Option<usize>,
    ) -> Seq<ScopeData> {
        match (answer, dtor) {
            (Ok(mem), Some(dtor)) => seq![ScopeData { mem, dtor, previous: self.data_chain }]
                + self.cleanup_calls(),
            _ => self.cleanup_calls(),
        }
    }

    /// The scope stands in `allocator` as it has recorded: its objects and
    /// nodes lie between its start and its top, one behind the other, each
    /// where it is aligned, and the block holds each node as the chain has it.
    /// The innermost scope ends at the cursor; a locked one at or before it.
    /// Of the block, only what lies below the top of the scope counts.
    pub open spec fn wf(self, allocator: LinearAllocatorView) -> bool {
        &&& allocator.wf()
        &&& self.alloc_start <= self.top <= allocator.cursor
        &&& !self.locked ==> self.top == allocator.cursor
        &&& self.data_chain == chain_head(self.allocations)
        &&& forall|i: int|
            0 <= i < self.allocations.len() ==> {
                &&& (#[trigger] self.allocations[i]).wf()
                &&& self.alloc_start <= self.allocations[i].start()
                &&& self.allocations[i].end() <= self.top
            }
        &&& forall|i: int, j: int|
            0 <= i < j < self.allocations.len() ==> (#[trigger] self.allocations[i]).end() <= (
            #[trigger] self.allocations[j]).start()
        &&& forall|i: int|
            0 <= i < self.allocations.len() && self.allocations[i].cleanup is Some
                ==> #[trigger] node_stored(self.allocations, allocator.below(self.top), i)
    }

    /// The scope, its allocator and the answer after the scope was asked for an
    /// object that needs no cleanup.
    pub open spec fn allocate_pod(
        self,
        allocator: LinearAllocatorView,
        obj: Seq<u8>,
        alignment: usize,
    ) -> (Self, LinearAllocatorView, Result<usize, AllocationError>) {
        if allocator.fits(obj.len(), alignment as nat) {
            let mem = allocator.place(alignment as nat) as usize;
            (
                self.record(
                    Allocation { mem, size_bytes: obj.len() as usize, alignment, cleanup: None },
                ),
                allocator.allocate(obj, alignment as nat),
                Ok(mem),
            )
        } else {
            (self, allocator, Err(out_of_memory(allocator, obj.len(), alignment)))
        }
    }

    /// The scope, its allocator and the answer after the scope was asked for an
    /// object to which the destructor `dtor` is due. The node goes first and
    /// the object behind it, and the node names the object as its target. Where
    /// only the object does not fit, the node stays behind, unlinked and with
    /// its target unset.
    pub open spec fn allocate_obj(
        self,
        allocator: LinearAllocatorView,
        obj: Seq<u8>,
        alignment: usize,
        dtor: usize,
    ) -> (Self, LinearAllocatorView, Result<usize, AllocationError>) {
        let unset = ScopeData { mem: UNSET_TARGET, dtor, previous: self.data_chain };
        if !allocator.fits(SCOPE_DATA_SIZE as nat, SCOPE_DATA_ALIGNMENT as nat) {
            (
                self,
                allocator,
                Err(out_of_memory(allocator, SCOPE_DATA_SIZE as nat, SCOPE_DATA_ALIGNMENT)),
            )
        } else {
            let node = allocator.place(SCOPE_DATA_ALIGNMENT as nat) as usize;
            let with_node = with_node(allocator, unset);
            if !with_node.fits(obj.len(), alignment as nat) {
                (
                    self.advance(with_node.cursor),
                    with_node,
                    Err(out_of_memory(with_node, obj.len(), alignment)),
                )
            } else {
                let mem = with_node.place(alignment as nat) as usize;
                let linked = ScopeData { mem, dtor, previous: self.data_chain };
                (
                    self.record(
                        Allocation {
                            mem,
                            size_bytes: obj.len() as usize,
                            alignment,
                            cleanup: Some(Cleanup { node, dtor }),
                        },
                    ),
                    self::with_node(allocator, linked).allocate(obj, alignment as nat),
                    Ok(mem),
                )
            }
        }
    }

    /// The scope, its allocator and the answer after the scope was asked for
    /// an object: a locked scope refuses, and nothing changes.
    pub open spec fn allocate(
        self,
        allocator: LinearAllocatorView,
        obj: Seq<u8>,
        alignment: usize,
        dtor: Option<usize>,
    ) -> (Self, LinearAllocatorView, Result<usize, AllocationError>) {
        if self.locked {
            (self, allocator, Err(AllocationError::ScopeLocked))
        } else {
            match dtor {
                None => self.allocate_pod(allocator, obj, alignment),
                Some(dtor) => self.allocate_obj(allocator, obj, alignment, dtor),
            }
        }
    }
}

/// What is below the top of a scope is all that its standing depends on: it
/// stands as well in any allocator that holds the same bytes there and whose
/// cursor is at its top, or behind it while the scope is locked.
pub proof fn lemma_scope_stands_on_what_is_below(
    scope: ScopedScratchView,
    before: LinearAllocatorView,
    after: LinearAllocatorView,
)
    requires
        scope.wf(before),
        after.wf(),
        before.agrees_below(after, scope.top),
        scope.top <= after.cursor,
        scope.locked || after.cursor == scope.top,
    ensures
        scope.wf(after),
{
    assert(before.below(scope.top) == after.below(scope.top));
}

/// The newest node among `allocations`, where there is one, is the node of one
/// of them. The answer is that one's index: none behind it needs cleanup, and
/// the chain starts with its node and goes on as the chain of those before it.
pub proof fn lemma_chain_head_is_newest_node(allocations: Seq<Allocation>) -> (i: int)
    requires
        chain_head(allocations) is Some,
    ensures
        0 <= i < allocations.len(),
        allocations[i].cleanup matches Some(cleanup) && chain_head(allocations) == Some(
            cleanup.node,
        ),
        chain(allocations) == seq![node_of(allocations, i)] + chain(allocations.subrange(0, i)),
    decreases allocations.len(),
{
    let last = allocations.len() - 1;
    assert(allocations.drop_last() =~= allocations.subrange(0, last));
    if allocations.last().cleanup is Some {
        last
    } else {
        let rest = allocations.drop_last();
        let i = lemma_chain_head_is_newest_node(rest);
        assert(rest.subrange(0, i) =~= allocations.subrange(0, i));
        i
    }
}

/// Where none of `allocations` has a node, their chain is empty.
pub proof fn lemma_chain_without_head_is_empty(allocations: Seq<Allocation>)
    requires
        chain_head(allocations) is None,
    ensures
        chain(allocations) == Seq::<ScopeData>::empty(),
        cleanup_count(allocations) == 0,
    decreases allocations.len(),
{
    if allocations.len() > 0 {
        lemma_chain_without_head_is_empty(allocations.drop_last());
    }
}

/// Every node of a scope that stands in an allocator can be read back from the
/// bytes that it is stored as.
pub proof fn lemma_nodes_are_encodable(
    scope: ScopedScratchView,
    allocator: LinearAllocatorView,
    i: int,
)
    requires
        scope.wf(allocator),
        0 <= i < scope.allocations.len(),
        scope.allocations[i].cleanup is Some,
    ensures
        node_of(scope.allocations, i).encodable(),
{
    let before = scope.allocations.subrange(0, i);
    if chain_head(before) is Some {
        let j = lemma_chain_head_is_newest_node(before);
        assert(before[j] == scope.allocations[j]);
        assert(scope.allocations[j].wf());
    }
}

/// A scope that hands out one more object behind all that it has, and whose
/// allocator keeps what was there and ends behind the new object, stands in
/// the allocator with the object recorded.
pub proof fn lemma_recorded_scope_stands(
    scope: ScopedScratchView,
    before: LinearAllocatorView,
    after: LinearAllocatorView,
    allocation: Allocation,
)
    requires
        scope.wf(before),
        !scope.locked,
        after.wf(),
        before.agrees_below(after, before.cursor),
        allocation.wf(),
        before.cursor <= allocation.start(),
        allocation.end() == after.cursor,
        allocation.cleanup matches Some(cleanup) ==> after.block.subrange(
            cleanup.node as int,
            cleanup.node + SCOPE_DATA_SIZE,
        ) == (ScopeData {
            mem: allocation.mem,
            dtor: cleanup.dtor,
            previous: scope.data_chain,
        }).spec_encode(),
    ensures
        scope.record(allocation).wf(after),
{
    let recorded = scope.record(allocation);
    let len = scope.allocations.len() as int;
    assert(recorded.allocations.drop_last() =~= scope.allocations);
    assert(recorded.allocations.subrange(0, len) =~= scope.allocations);
    assert forall|i: int| 0 <= i < recorded.allocations.len() implies {
        &&& (#[trigger] recorded.allocations[i]).wf()
        &&& recorded.alloc_start <= recorded.allocations[i].start()
        &&& recorded.allocations[i].end() <= recorded.top
    } by {
        if i < len {
            assert(recorded.allocations[i] == scope.allocations[i]);
        }
    }
    assert forall|i: int, j: int| 0 <= i < j < recorded.allocations.len() implies (
    #[trigger] recorded.allocations[i]).end() <= (#[trigger] recorded.allocations[j]).start() by {
        assert(recorded.allocations[i] == scope.allocations[i]);
        if j < len {
            assert(recorded.allocations[j] == scope.allocations[j]);
        }
    }
    lemma_agrees_below_byte_by_byte(before, after, before.cursor);
    assert forall|i: int|
        0 <= i < recorded.allocations.len()
            && recorded.allocations[i].cleanup is Some implies #[trigger] node_stored(
        recorded.allocations,
        after.below(recorded.top),
        i,
    ) by {
        let node = recorded.allocations[i].cleanup.unwrap().node;
        assert(recorded.allocations[i].wf());
        if i < len {
            let x = scope.allocations[i];
            assert(recorded.allocations[i] == x);
            assert(recorded.allocations.subrange(0, i) =~= scope.allocations.subrange(0, i));
            assert(node_stored(scope.allocations, before.below(scope.top), i));
            assert(after.below(recorded.top).subrange(node as int, node + SCOPE_DATA_SIZE)
                =~= before.below(scope.top).subrange(node as int, node + SCOPE_DATA_SIZE));
        } else {
            assert(after.below(recorded.top).subrange(node as int, node + SCOPE_DATA_SIZE)
                =~= after.block.subrange(node as int, node + SCOPE_DATA_SIZE));
        }
    }
}

/// A scope whose allocator moves on without writing below where the cursor was
/// stands in the allocator once it has moved its top to the new cursor.
proof fn lemma_advanced_scope_stands(
    scope: ScopedScratchView,
    before: LinearAllocatorView,
    after: LinearAllocatorView,
)
    requires
        scope.wf(before),
        !scope.locked,
        after.wf(),
        before.agrees_below(after, before.cursor),
        before.cursor <= after.cursor,
    ensures
        scope.advance(after.cursor).wf(after),
{
    lemma_agrees_below_byte_by_byte(before, after, before.cursor);
    assert forall|i: int|
        0 <= i < scope.allocations.len()
            && scope.allocations[i].cleanup is Some implies #[trigger] node_stored(
        scope.allocations,
        after.below(after.cursor),
        i,
    ) by {
        let x = scope.allocations[i];
        let node = x.cleanup.unwrap().node;
        assert(x.wf());
        assert(node_stored(scope.allocations, before.below(scope.top), i));
        assert(after.below(after.cursor).subrange(node as int, node + SCOPE_DATA_SIZE)
            =~= before.below(scope.top).subrange(node as int, node + SCOPE_DATA_SIZE));
    }
}

/// Asking a scope that stands in its allocator for an object leaves it
/// standing there, whatever the answer. The scope stays where it started, its
/// lock is not touched, what lay below the cursor is kept, and the cursor does
/// not move back.
pub proof fn lemma_allocate_keeps_scope_standing(
    scope: ScopedScratchView,
    allocator: LinearAllocatorView,
    obj: Seq<u8>,
    alignment: usize,
    dtor: Option<usize>,
)
    requires
        scope.wf(allocator),
        alignment > 0,
    ensures
        ({
            let (after_scope, after, result) = scope.allocate(allocator, obj, alignment, dtor);
            &&& after_scope.wf(after)
            &&& after_scope.alloc_start == scope.alloc_start
            &&& after_scope.locked == scope.locked
            &&& after_scope.has_parent == scope.has_parent
            &&& after_scope.cleanup_calls() == scope.cleanup_calls_after(result, dtor)
            &&& allocator.agrees_below(after, allocator.cursor)
            &&& allocator.cursor <= after.cursor
        }),
{
    let (after_scope, after, result) = scope.allocate(allocator, obj, alignment, dtor);
    if result is Ok {
        let had = scope.allocations.len() as int;
        assert(after_scope.allocations.drop_last() =~= scope.allocations);
        assert(after_scope.allocations.subrange(0, had) =~= scope.allocations);
    }
    lemma_align_up_is_least(allocator.cursor, alignment as nat);
    lemma_align_up_is_least(allocator.cursor, SCOPE_DATA_ALIGNMENT as nat);
    vstd::bytes::lemma_auto_spec_u64_to_from_le_bytes();
    lemma_agrees_below_byte_by_byte(allocator, after, allocator.cursor);
    if scope.locked {
    } else if dtor is None {
        if allocator.fits(obj.len(), alignment as nat) {
            let mem = allocator.place(alignment as nat) as usize;
            let allocation = Allocation {
                mem,
                size_bytes: obj.len() as usize,
                alignment,
                cleanup: None,
            };
            lemma_recorded_scope_stands(scope, allocator, after, allocation);
        }
    } else {
        let dtor = dtor.unwrap();
        let unset = ScopeData { mem: UNSET_TARGET, dtor, previous: scope.data_chain };
        assert(unset.spec_encode().len() == SCOPE_DATA_SIZE);
        if allocator.fits(SCOPE_DATA_SIZE as nat, SCOPE_DATA_ALIGNMENT as nat) {
            let node = allocator.place(SCOPE_DATA_ALIGNMENT as nat) as usize;
            let with_node = with_node(allocator, unset);
            lemma_align_up_is_least(with_node.cursor, alignment as nat);
            if !with_node.fits(obj.len(), alignment as nat) {
                lemma_advanced_scope_stands(scope, allocator, with_node);
            } else {
                let mem = with_node.place(alignment as nat) as usize;
                let linked = ScopeData { mem, dtor, previous: scope.data_chain };
                assert(linked.spec_encode().len() == SCOPE_DATA_SIZE);
                let allocation = Allocation {
                    mem,
                    size_bytes: obj.len() as usize,
                    alignment,
                    cleanup: Some(Cleanup { node, dtor }),
                };
                assert(after.block.subrange(node as int, node + SCOPE_DATA_SIZE)
                    =~= linked.spec_encode());
                lemma_recorded_scope_stands(scope, allocator, after, allocation);
            }
        }
    }
}

} // verus!
