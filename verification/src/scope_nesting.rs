//! Scopes nested in one another on one allocator: only the innermost hands out
//! anything, and the nest stays in order through whatever the innermost does.

use crate::allocator::AllocationError;
use crate::allocator::LinearAllocatorView;
use crate::scope_laws::Request;
use crate::scope_model::lemma_allocate_keeps_scope_standing;
use crate::scope_model::lemma_scope_stands_on_what_is_below;
use crate::scope_model::ScopedScratchView;
use vstd::prelude::*;

verus! {

/// `scopes` are nested in one another on `allocator`, the outermost first: each
/// stands in the allocator, each but the first is the child of the one before
/// it, and the last is free to allocate.
pub open spec fn nested(scopes: Seq<ScopedScratchView>, allocator: LinearAllocatorView) -> bool {
    &&& forall|k: int| 0 <= k < scopes.len() ==> (#[trigger] scopes[k]).wf(allocator)
    &&& forall|k: int|
        #![trigger scopes[k]]
        0 < k < scopes.len() ==> scopes[k].is_child_of(scopes[k - 1])
    &&& scopes.len() > 0 ==> !scopes.last().locked
}

/// In a nest, a scope ends where the scope inside it starts, so no scope reaches
/// behind the start of one that lies further in.
pub proof fn lemma_outer_scopes_end_before_inner(
    scopes: Seq<ScopedScratchView>,
    allocator: LinearAllocatorView,
    outer: int,
    inner: int,
)
    requires
        nested(scopes, allocator),
        0 <= outer < inner < scopes.len(),
    ensures
        scopes[outer].locked,
        scopes[outer].top <= scopes[inner].alloc_start,
    decreases inner - outer,
{
    assert(scopes[inner].is_child_of(scopes[inner - 1]));
    assert(scopes[inner - 1].wf(allocator));
    if outer < inner - 1 {
        lemma_outer_scopes_end_before_inner(scopes, allocator, outer, inner - 1);
    }
}

/// In a nest, every scope but the innermost refuses every request, and nothing
/// changes.
pub proof fn lemma_only_the_innermost_allocates(
    scopes: Seq<ScopedScratchView>,
    allocator: LinearAllocatorView,
    k: int,
    request: Request,
)
    requires
        nested(scopes, allocator),
        0 <= k < scopes.len() - 1,
    ensures
        scopes[k].allocate(allocator, request.obj, request.alignment, request.dtor) == (
            scopes[k],
            allocator,
            Err::<usize, AllocationError>(AllocationError::ScopeLocked),
        ),
{
    lemma_outer_scopes_end_before_inner(scopes, allocator, k, scopes.len() - 1);
}

/// A nest stays a nest when its innermost scope is asked for an object.
pub proof fn lemma_nested_after_allocate(
    scopes: Seq<ScopedScratchView>,
    allocator: LinearAllocatorView,
    request: Request,
)
    requires
        nested(scopes, allocator),
        scopes.len() > 0,
        request.alignment > 0,
    ensures
        ({
            let (after_scope, after, _) = scopes.last().allocate(
                allocator,
                request.obj,
                request.alignment,
                request.dtor,
            );
            nested(scopes.update(scopes.len() - 1, after_scope), after)
        }),
{
    let last = scopes.len() - 1;
    let (after_scope, after, _) = scopes.last().allocate(
        allocator,
        request.obj,
        request.alignment,
        request.dtor,
    );
    let moved = scopes.update(last, after_scope);
    assert(scopes[last].wf(allocator));
    lemma_allocate_keeps_scope_standing(
        scopes.last(),
        allocator,
        request.obj,
        request.alignment,
        request.dtor,
    );
    assert forall|k: int| 0 <= k < moved.len() implies (#[trigger] moved[k]).wf(after) by {
        if k < last {
            lemma_outer_scopes_end_before_inner(scopes, allocator, k, last);
            assert(scopes[k].wf(allocator));
            lemma_scope_stands_on_what_is_below(scopes[k], allocator, after);
        }
    }
    assert forall|k: int| #![trigger moved[k]] 0 < k < moved.len() implies moved[k].is_child_of(
        moved[k - 1],
    ) by {
        assert(scopes[k].is_child_of(scopes[k - 1]));
    }
}

/// A nest stays a nest when its innermost scope makes a child: the child is
/// the innermost now, and the scope that made it is locked.
pub proof fn lemma_nested_after_new_scope(
    scopes: Seq<ScopedScratchView>,
    allocator: LinearAllocatorView,
)
    requires
        nested(scopes, allocator),
        scopes.len() > 0,
    ensures
        nested(
            scopes.update(scopes.len() - 1, scopes.last().lock()).push(
                ScopedScratchView::fresh(allocator.cursor, true),
            ),
            allocator,
        ),
{
    let last = scopes.len() - 1;
    let child = ScopedScratchView::fresh(allocator.cursor, true);
    let grown = scopes.update(last, scopes.last().lock()).push(child);
    assert(scopes[last].wf(allocator));
    assert forall|k: int| 0 <= k < grown.len() implies (#[trigger] grown[k]).wf(allocator) by {
        if k < last {
            assert(scopes[k].wf(allocator));
        }
    }
    assert forall|k: int| #![trigger grown[k]] 0 < k < grown.len() implies grown[k].is_child_of(
        grown[k - 1],
    ) by {
        if k <= last {
            assert(scopes[k].is_child_of(scopes[k - 1]));
        }
    }
}

/// A nest stays a nest when its innermost scope ends: the cursor goes back to
/// where that scope started, and the scope that made it is the innermost again
/// and free to allocate.
pub proof fn lemma_nested_after_drop_scope(
    scopes: Seq<ScopedScratchView>,
    allocator: LinearAllocatorView,
)
    requires
        nested(scopes, allocator),
        scopes.len() > 0,
    ensures
        ({
            let ended = allocator.rewind(scopes.last().alloc_start);
            let outer = scopes.drop_last();
            nested(
                if outer.len() > 0 {
                    outer.update(outer.len() - 1, outer.last().unlock())
                } else {
                    outer
                },
                ended,
            )
        }),
{
    let last = scopes.len() - 1;
    let ended = allocator.rewind(scopes.last().alloc_start);
    let outer = scopes.drop_last();
    assert(scopes[last].wf(allocator));
    if outer.len() > 0 {
        let left = outer.update(outer.len() - 1, outer.last().unlock());
        assert forall|k: int| 0 <= k < left.len() implies (#[trigger] left[k]).wf(ended) by {
            lemma_outer_scopes_end_before_inner(scopes, allocator, k, last);
            assert(scopes[k].wf(allocator));
            lemma_scope_stands_on_what_is_below(scopes[k], allocator, ended);
            if k == last - 1 {
                assert(scopes[last].is_child_of(scopes[k]));
            }
        }
        assert forall|k: int| #![trigger left[k]] 0 < k < left.len() implies left[k].is_child_of(
            left[k - 1],
        ) by {
            assert(scopes[k].is_child_of(scopes[k - 1]));
        }
    }
}

} // verus!
