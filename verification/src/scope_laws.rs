//! What holds of every scope that stands in its allocator, and of every run of
//! requests that a scope serves.

use crate::allocator::lemma_agrees_below_byte_by_byte;
use crate::allocator::AllocationError;
use crate::allocator::LinearAllocatorView;
use crate::layout::is_aligned;
use crate::layout::lemma_align_up_is_least;
use crate::scope_data::SCOPE_DATA_ALIGNMENT;
use crate::scope_data::SCOPE_DATA_SIZE;
use crate::scope_model::chain;
use crate::scope_model::cleanup_count;
use crate::scope_model::lemma_allocate_keeps_scope_standing;
use crate::scope_model::lemma_scope_stands_on_what_is_below;
use crate::scope_model::node_of;
use crate::scope_model::Allocation;
use crate::scope_model::ScopedScratchView;
use vstd::prelude::*;

verus! {

/// One request to a scope: the object, its alignment, and the destructor that
/// is due to it, if any.
pub struct Request {
    /// The bytes of the object.
    pub obj: Seq<u8>,
    /// The alignment that the object needs.
    pub alignment: usize,
    /// The destructor that is due to the object, if it needs cleanup.
    pub dtor: Option<usize>,
}

/// A scope and its allocator after a run of requests, with the answers.
pub struct Served {
    /// The scope after the run.
    pub scope: ScopedScratchView,
    /// The allocator after the run.
    pub allocator: LinearAllocatorView,
    /// The answer to each request, in the order of the requests.
    pub answers: Seq<Result<usize, AllocationError>>,
}

/// The scope and its allocator after the scope was asked for each of
/// `requests` in turn, and what it answered.
pub open spec fn serve(
    scope: ScopedScratchView,
    allocator: LinearAllocatorView,
    requests: Seq<Request>,
) -> Served
    decreases requests.len(),
{
    if requests.len() == 0 {
        Served { scope, allocator, answers: Seq::empty() }
    } else {
        let before = serve(scope, allocator, requests.drop_last());
        let request = requests.last();
        let (after_scope, after, answer) = before.scope.allocate(
            before.allocator,
            request.obj,
            request.alignment,
            request.dtor,
        );
        Served { scope: after_scope, allocator: after, answers: before.answers.push(answer) }
    }
}

/// Every one of `requests` names an alignment.
pub open spec fn requests_are_valid(requests: Seq<Request>) -> bool {
    forall|i: int| 0 <= i < requests.len() ==> (#[trigger] requests[i]).alignment > 0
}

/// Every one of `answers` is a position.
pub open spec fn all_granted(answers: Seq<Result<usize, AllocationError>>) -> bool {
    forall|i: int| 0 <= i < answers.len() ==> (#[trigger] answers[i]) is Ok
}

/// How many of `requests` name a destructor.
pub open spec fn needing_cleanup(requests: Seq<Request>) -> nat
    decreases requests.len(),
{
    if requests.len() == 0 {
        0
    } else if requests.last().dtor is Some {
        needing_cleanup(requests.drop_last()) + 1
    } else {
        needing_cleanup(requests.drop_last())
    }
}

/// The objects of one scope lie one behind the other, in the order in which
/// they were handed out, none over another, each where it is aligned, and all
/// between the start of the scope and the cursor. The later of two has the
/// higher position, unless the earlier is empty and the later has no node.
pub proof fn lemma_allocations_rise_and_keep_apart(
    scope: ScopedScratchView,
    allocator: LinearAllocatorView,
    i: int,
    j: int,
)
    requires
        scope.wf(allocator),
        0 <= i < j < scope.allocations.len(),
    ensures
        scope.allocations[i].mem + scope.allocations[i].size_bytes <= scope.allocations[j].mem,
        scope.allocations[i].size_bytes > 0 || scope.allocations[j].cleanup is Some
            ==> scope.allocations[i].mem < scope.allocations[j].mem,
        is_aligned(scope.allocations[i].mem as nat, scope.allocations[i].alignment as nat),
        is_aligned(scope.allocations[j].mem as nat, scope.allocations[j].alignment as nat),
        scope.alloc_start <= scope.allocations[i].mem,
        scope.allocations[j].mem + scope.allocations[j].size_bytes <= allocator.cursor,
{
    assert(scope.allocations[i].wf());
    assert(scope.allocations[j].wf());
    assert(scope.allocations[i].end() <= scope.allocations[j].start());
}

/// The chain has as many nodes as there are objects that need cleanup.
pub proof fn lemma_chain_len(allocations: Seq<Allocation>)
    ensures
        chain(allocations).len() == cleanup_count(allocations),
    decreases allocations.len(),
{
    if allocations.len() > 0 {
        lemma_chain_len(allocations.drop_last());
    }
}

/// The chain holds one node for each object that needs cleanup, and none for
/// the others. The node of an object comes after the nodes of all that were
/// handed out later: its place in the chain is the number of those among them
/// that need cleanup.
pub proof fn lemma_chain_is_cleanups_newest_first(allocations: Seq<Allocation>, i: int)
    requires
        0 <= i < allocations.len(),
        allocations[i].cleanup is Some,
    ensures
        chain(allocations).len() == cleanup_count(allocations),
        cleanup_count(allocations.subrange(i + 1, allocations.len() as int)) < chain(
            allocations,
        ).len(),
        chain(allocations)[cleanup_count(
            allocations.subrange(i + 1, allocations.len() as int),
        ) as int] == node_of(allocations, i),
    decreases allocations.len(),
{
    let len = allocations.len() as int;
    let rest = allocations.drop_last();
    lemma_chain_len(allocations);
    if i == len - 1 {
        assert(allocations.subrange(i + 1, len) =~= Seq::<Allocation>::empty());
    } else {
        lemma_chain_is_cleanups_newest_first(rest, i);
        lemma_chain_len(rest);
        assert(rest.subrange(i + 1, len - 1) =~= allocations.subrange(i + 1, len).drop_last());
        assert(rest.subrange(0, i) =~= allocations.subrange(0, i));
        assert(allocations.subrange(i + 1, len).last() == allocations.last());
    }
}

/// Where every object needs cleanup, as many need it as there are objects.
pub proof fn lemma_count_of_all(allocations: Seq<Allocation>)
    requires
        forall|i: int| 0 <= i < allocations.len() ==> (#[trigger] allocations[i]).cleanup is Some,
    ensures
        cleanup_count(allocations) == allocations.len(),
    decreases allocations.len(),
{
    if allocations.len() > 0 {
        lemma_count_of_all(allocations.drop_last());
    }
}

/// Where every object needs cleanup, the chain is the objects in reverse: the
/// node of the last comes first, that of the first comes last.
pub proof fn lemma_chain_reverses_allocations(allocations: Seq<Allocation>, k: int)
    requires
        forall|i: int| 0 <= i < allocations.len() ==> (#[trigger] allocations[i]).cleanup is Some,
        0 <= k < allocations.len(),
    ensures
        chain(allocations).len() == allocations.len(),
        chain(allocations)[k] == node_of(allocations, allocations.len() - 1 - k),
    decreases allocations.len(),
{
    let len = allocations.len() as int;
    let rest = allocations.drop_last();
    lemma_count_of_all(allocations);
    lemma_chain_len(allocations);
    if k > 0 {
        lemma_chain_reverses_allocations(rest, k - 1);
        assert(rest.subrange(0, len - 1 - k) =~= allocations.subrange(0, len - 1 - k));
    }
}

/// An object that a scope hands out lies at or behind the cursor, behind its
/// node if it has one, where it is aligned, and the cursor ends up just behind
/// it. The scope records it, and nothing else.
pub proof fn lemma_granted_object_is_placed_and_recorded(
    scope: ScopedScratchView,
    allocator: LinearAllocatorView,
    request: Request,
)
    requires
        scope.wf(allocator),
        request.alignment > 0,
    ensures
        ({
            let (after_scope, after, answer) = scope.allocate(
                allocator,
                request.obj,
                request.alignment,
                request.dtor,
            );
            match answer {
                Ok(mem) => {
                    &&& allocator.cursor <= mem
                    &&& request.dtor is Some ==> allocator.cursor + SCOPE_DATA_SIZE <= mem
                    &&& is_aligned(mem as nat, request.alignment as nat)
                    &&& mem + request.obj.len() == after.cursor
                    &&& after.block.subrange(mem as int, mem + request.obj.len()) == request.obj
                    &&& after_scope.allocations.len() == scope.allocations.len() + 1
                    &&& after_scope.allocations.drop_last() == scope.allocations
                    &&& after_scope.allocations.last().mem == mem
                    &&& after_scope.allocations.last().size_bytes == request.obj.len()
                    &&& after_scope.allocations.last().alignment == request.alignment
                    &&& match request.dtor {
                        Some(dtor) => after_scope.allocations.last().cleanup matches Some(cleanup)
                            && cleanup.dtor == dtor,
                        None => after_scope.allocations.last().cleanup is None,
                    }
                },
                Err(_) => after_scope.allocations == scope.allocations,
            }
        }),
{
    let (after_scope, after, answer) = scope.allocate(
        allocator,
        request.obj,
        request.alignment,
        request.dtor,
    );
    lemma_allocate_keeps_scope_standing(
        scope,
        allocator,
        request.obj,
        request.alignment,
        request.dtor,
    );
    lemma_align_up_is_least(allocator.cursor, request.alignment as nat);
    lemma_align_up_is_least(allocator.cursor, SCOPE_DATA_ALIGNMENT as nat);
    vstd::bytes::lemma_auto_spec_u64_to_from_le_bytes();
    if answer is Ok {
        let mem = answer->Ok_0;
        assert(after_scope.allocations.drop_last() =~= scope.allocations);
        if request.dtor is Some {
            let node = allocator.place(SCOPE_DATA_ALIGNMENT as nat);
            lemma_align_up_is_least((node + SCOPE_DATA_SIZE) as nat, request.alignment as nat);
        }
        assert(after.block.subrange(mem as int, mem + request.obj.len()) =~= request.obj);
    }
}

/// Whatever a scope is asked for, it stays standing in its allocator and stays
/// where it started; what lay below the cursor when the run began is kept, the
/// cursor is not before where it was, and each request has its answer.
pub proof fn lemma_serve_keeps_scope_standing(
    scope: ScopedScratchView,
    allocator: LinearAllocatorView,
    requests: Seq<Request>,
)
    requires
        scope.wf(allocator),
        requests_are_valid(requests),
    ensures
        ({
            let served = serve(scope, allocator, requests);
            &&& served.scope.wf(served.allocator)
            &&& served.scope.alloc_start == scope.alloc_start
            &&& served.scope.locked == scope.locked
            &&& served.scope.has_parent == scope.has_parent
            &&& served.answers.len() == requests.len()
            &&& allocator.agrees_below(served.allocator, allocator.cursor)
            &&& allocator.cursor <= served.allocator.cursor
        }),
    decreases requests.len(),
{
    if requests.len() > 0 {
        let request = requests.last();
        assert(request.alignment > 0);
        lemma_fewer_requests_are_valid(requests);
        lemma_serve_keeps_scope_standing(scope, allocator, requests.drop_last());
        let before = serve(scope, allocator, requests.drop_last());
        lemma_allocate_keeps_scope_standing(
            before.scope,
            before.allocator,
            request.obj,
            request.alignment,
            request.dtor,
        );
    }
}

/// Requests that are valid stay so when the last is left out.
proof fn lemma_fewer_requests_are_valid(requests: Seq<Request>)
    requires
        requests_are_valid(requests),
        requests.len() > 0,
    ensures
        requests_are_valid(requests.drop_last()),
{
    assert forall|i: int| 0 <= i < requests.drop_last().len() implies (
    #[trigger] requests.drop_last()[i]).alignment > 0 by {
        assert(requests.drop_last()[i] == requests[i]);
    }
}

/// An object that was handed out in a run lies between the cursor at which
/// the run began and the cursor at which it ended, where it is aligned.
pub proof fn lemma_granted_lies_within_the_run(
    scope: ScopedScratchView,
    allocator: LinearAllocatorView,
    requests: Seq<Request>,
    i: int,
)
    requires
        scope.wf(allocator),
        requests_are_valid(requests),
        0 <= i < requests.len(),
        serve(scope, allocator, requests).answers[i] is Ok,
    ensures
        ({
            let served = serve(scope, allocator, requests);
            let mem = served.answers[i]->Ok_0;
            &&& allocator.cursor <= mem
            &&& mem + requests[i].obj.len() <= served.allocator.cursor
            &&& is_aligned(mem as nat, requests[i].alignment as nat)
        }),
    decreases requests.len(),
{
    let request = requests.last();
    let rest = requests.drop_last();
    lemma_fewer_requests_are_valid(requests);
    lemma_serve_keeps_scope_standing(scope, allocator, rest);
    let before = serve(scope, allocator, rest);
    assert(request.alignment > 0);
    lemma_allocate_keeps_scope_standing(
        before.scope,
        before.allocator,
        request.obj,
        request.alignment,
        request.dtor,
    );
    if i == requests.len() - 1 {
        lemma_granted_object_is_placed_and_recorded(before.scope, before.allocator, request);
    } else {
        assert(rest[i] == requests[i]);
        lemma_granted_lies_within_the_run(scope, allocator, rest, i);
    }
}

/// An object that was handed out in a run is still in the block at the end of
/// the run, byte for byte as it was stored: nothing that the scope is asked for
/// later writes over it.
pub proof fn lemma_granted_object_is_kept(
    scope: ScopedScratchView,
    allocator: LinearAllocatorView,
    requests: Seq<Request>,
    i: int,
)
    requires
        scope.wf(allocator),
        requests_are_valid(requests),
        0 <= i < requests.len(),
        serve(scope, allocator, requests).answers[i] is Ok,
    ensures
        ({
            let served = serve(scope, allocator, requests);
            let mem = served.answers[i]->Ok_0;
            served.allocator.block.subrange(mem as int, mem + requests[i].obj.len())
                == requests[i].obj
        }),
    decreases requests.len(),
{
    let request = requests.last();
    let rest = requests.drop_last();
    let served = serve(scope, allocator, requests);
    lemma_fewer_requests_are_valid(requests);
    lemma_serve_keeps_scope_standing(scope, allocator, rest);
    let before = serve(scope, allocator, rest);
    assert(request.alignment > 0);
    if i == requests.len() - 1 {
        lemma_granted_object_is_placed_and_recorded(before.scope, before.allocator, request);
    } else {
        assert(rest[i] == requests[i]);
        let mem = before.answers[i]->Ok_0;
        lemma_granted_object_is_kept(scope, allocator, rest, i);
        lemma_granted_lies_within_the_run(scope, allocator, rest, i);
        lemma_allocate_keeps_scope_standing(
            before.scope,
            before.allocator,
            request.obj,
            request.alignment,
            request.dtor,
        );
        lemma_agrees_below_byte_by_byte(
            before.allocator,
            served.allocator,
            before.allocator.cursor,
        );
        assert(served.allocator.block.subrange(mem as int, mem + requests[i].obj.len())
            =~= before.allocator.block.subrange(mem as int, mem + requests[i].obj.len()));
    }
}

/// The objects that one scope hands out in a run lie one behind the other in
/// the order of the requests, none over another, and each where its request
/// asked it to be aligned. The later of two has the higher position, unless the
/// earlier is empty and the later needs no cleanup.
pub proof fn lemma_granted_positions_rise(
    scope: ScopedScratchView,
    allocator: LinearAllocatorView,
    requests: Seq<Request>,
    i: int,
    j: int,
)
    requires
        scope.wf(allocator),
        requests_are_valid(requests),
        0 <= i < j < requests.len(),
        serve(scope, allocator, requests).answers[i] is Ok,
        serve(scope, allocator, requests).answers[j] is Ok,
    ensures
        ({
            let answers = serve(scope, allocator, requests).answers;
            let first = answers[i]->Ok_0;
            let second = answers[j]->Ok_0;
            &&& first + requests[i].obj.len() <= second
            &&& requests[i].obj.len() > 0 || requests[j].dtor is Some ==> first < second
            &&& is_aligned(first as nat, requests[i].alignment as nat)
            &&& is_aligned(second as nat, requests[j].alignment as nat)
        }),
    decreases requests.len(),
{
    let request = requests.last();
    let rest = requests.drop_last();
    lemma_fewer_requests_are_valid(requests);
    lemma_serve_keeps_scope_standing(scope, allocator, rest);
    let before = serve(scope, allocator, rest);
    assert(rest[i] == requests[i]);
    if j == requests.len() - 1 {
        assert(request.alignment > 0);
        lemma_granted_lies_within_the_run(scope, allocator, rest, i);
        lemma_granted_object_is_placed_and_recorded(before.scope, before.allocator, request);
    } else {
        assert(rest[j] == requests[j]);
        lemma_granted_positions_rise(scope, allocator, rest, i, j);
    }
}

/// A scope that grants every request of a run records one object for each, in
/// the order of the requests and behind what it had recorded before: where the
/// object lies, its size and alignment, and the destructor that the request
/// named, if it named one.
pub proof fn lemma_granted_requests_are_recorded(
    scope: ScopedScratchView,
    allocator: LinearAllocatorView,
    requests: Seq<Request>,
)
    requires
        scope.wf(allocator),
        requests_are_valid(requests),
        all_granted(serve(scope, allocator, requests).answers),
    ensures
        ({
            let served = serve(scope, allocator, requests);
            let had = scope.allocations.len();
            &&& served.answers.len() == requests.len()
            &&& served.scope.allocations.len() == had + requests.len()
            &&& served.scope.allocations.subrange(0, had as int) == scope.allocations
            &&& cleanup_count(served.scope.allocations) == cleanup_count(scope.allocations)
                + needing_cleanup(requests)
            &&& forall|i: int|
                #![trigger requests[i]]
                0 <= i < requests.len() ==> {
                    let recorded = served.scope.allocations[had + i];
                    &&& served.answers[i] == Ok::<usize, AllocationError>(recorded.mem)
                    &&& recorded.size_bytes == requests[i].obj.len()
                    &&& recorded.alignment == requests[i].alignment
                    &&& match requests[i].dtor {
                        Some(dtor) => recorded.cleanup matches Some(cleanup) && cleanup.dtor
                            == dtor,
                        None => recorded.cleanup is None,
                    }
                }
        }),
    decreases requests.len(),
{
    let served = serve(scope, allocator, requests);
    let had = scope.allocations.len() as int;
    if requests.len() == 0 {
        assert(served.scope.allocations.subrange(0, had) =~= scope.allocations);
    } else {
        let request = requests.last();
        let rest = requests.drop_last();
        let before = serve(scope, allocator, rest);
        lemma_fewer_requests_are_valid(requests);
        lemma_serve_keeps_scope_standing(scope, allocator, rest);
        lemma_serve_keeps_scope_standing(scope, allocator, requests);
        assert(all_granted(before.answers)) by {
            assert forall|i: int| 0 <= i < before.answers.len() implies (
            #[trigger] before.answers[i]) is Ok by {
                assert(served.answers[i] == before.answers[i]);
            }
        }
        lemma_granted_requests_are_recorded(scope, allocator, rest);
        assert(request.alignment > 0);
        lemma_granted_object_is_placed_and_recorded(before.scope, before.allocator, request);
        assert(served.answers.last() is Ok);
        assert(served.scope.allocations.subrange(0, had) =~= before.scope.allocations.subrange(
            0,
            had,
        ));
        assert forall|i: int| #![trigger requests[i]] 0 <= i < requests.len() implies {
            let recorded = served.scope.allocations[had + i];
            &&& served.answers[i] == Ok::<usize, AllocationError>(recorded.mem)
            &&& recorded.size_bytes == requests[i].obj.len()
            &&& recorded.alignment == requests[i].alignment
            &&& match requests[i].dtor {
                Some(dtor) => recorded.cleanup matches Some(cleanup) && cleanup.dtor == dtor,
                None => recorded.cleanup is None,
            }
        } by {
            if i < rest.len() {
                assert(rest[i] == requests[i]);
                assert(served.scope.allocations[had + i] == served.scope.allocations.drop_last()[had
                    + i]);
            }
        }
    }
}

/// When a new scope has granted requests that all name a destructor and then
/// ends, the destructors are due in the reverse of the order of the requests:
/// the first that is due is that of the last object, on that object; the last
/// is that of the first.
pub proof fn lemma_cleanup_is_due_in_reverse(
    allocator: LinearAllocatorView,
    has_parent: bool,
    requests: Seq<Request>,
    k: int,
)
    requires
        allocator.wf(),
        requests_are_valid(requests),
        forall|i: int| 0 <= i < requests.len() ==> (#[trigger] requests[i]).dtor is Some,
        all_granted(
            serve(
                ScopedScratchView::fresh(allocator.cursor, has_parent),
                allocator,
                requests,
            ).answers,
        ),
        0 <= k < requests.len(),
    ensures
        ({
            let served = serve(
                ScopedScratchView::fresh(allocator.cursor, has_parent),
                allocator,
                requests,
            );
            let calls = served.scope.cleanup_calls();
            let last = requests.len() - 1;
            &&& calls.len() == requests.len()
            &&& served.answers[last - k] == Ok::<usize, AllocationError>(calls[k].mem)
            &&& requests[last - k].dtor == Some(calls[k].dtor)
        }),
{
    let fresh = ScopedScratchView::fresh(allocator.cursor, has_parent);
    let served = serve(fresh, allocator, requests);
    let last = requests.len() - 1;
    lemma_granted_requests_are_recorded(fresh, allocator, requests);
    assert forall|i: int| 0 <= i < served.scope.allocations.len() implies (
    #[trigger] served.scope.allocations[i]).cleanup is Some by {
        assert(requests[i].dtor is Some);
    }
    lemma_chain_reverses_allocations(served.scope.allocations, k);
    assert(requests[last - k].dtor is Some);
}

/// When a new scope has granted requests of both kinds and then ends, as many
/// destructors are due as there were requests that named one. The destructor
/// of each of those is due on its object, after the destructors of all that
/// were asked for later: its place in the order is the number of later
/// requests that named a destructor.
pub proof fn lemma_cleanup_is_due_where_it_was_asked_for(
    allocator: LinearAllocatorView,
    has_parent: bool,
    requests: Seq<Request>,
    i: int,
)
    requires
        allocator.wf(),
        requests_are_valid(requests),
        all_granted(
            serve(
                ScopedScratchView::fresh(allocator.cursor, has_parent),
                allocator,
                requests,
            ).answers,
        ),
        0 <= i < requests.len(),
        requests[i].dtor is Some,
    ensures
        ({
            let served = serve(
                ScopedScratchView::fresh(allocator.cursor, has_parent),
                allocator,
                requests,
            );
            let calls = served.scope.cleanup_calls();
            let later = needing_cleanup(requests.subrange(i + 1, requests.len() as int));
            &&& calls.len() == needing_cleanup(requests)
            &&& later < calls.len()
            &&& served.answers[i] == Ok::<usize, AllocationError>(calls[later as int].mem)
            &&& requests[i].dtor == Some(calls[later as int].dtor)
        }),
{
    let fresh = ScopedScratchView::fresh(allocator.cursor, has_parent);
    let served = serve(fresh, allocator, requests);
    let len = requests.len() as int;
    lemma_granted_requests_are_recorded(fresh, allocator, requests);
    assert(cleanup_count(fresh.allocations) == 0);
    lemma_chain_is_cleanups_newest_first(served.scope.allocations, i);
    let later_objects = served.scope.allocations.subrange(i + 1, len);
    let later_requests = requests.subrange(i + 1, len);
    assert forall|j: int| #![trigger later_requests[j]] 0 <= j < later_requests.len() implies (
    later_objects[j].cleanup is Some <==> later_requests[j].dtor is Some) by {
        assert(later_requests[j] == requests[i + 1 + j]);
    }
    lemma_counts_agree(later_objects, later_requests);
}

/// Where each object needs cleanup exactly if its request named a destructor,
/// as many objects need cleanup as there are requests that name a destructor.
proof fn lemma_counts_agree(allocations: Seq<Allocation>, requests: Seq<Request>)
    requires
        allocations.len() == requests.len(),
        forall|i: int|
            #![trigger requests[i]]
            0 <= i < requests.len() ==> (allocations[i].cleanup is Some <==> requests[i].dtor
                is Some),
    ensures
        cleanup_count(allocations) == needing_cleanup(requests),
    decreases requests.len(),
{
    if requests.len() > 0 {
        let fewer = requests.drop_last();
        assert forall|i: int| #![trigger fewer[i]] 0 <= i < fewer.len() implies (
        allocations.drop_last()[i].cleanup is Some <==> fewer[i].dtor is Some) by {
            assert(fewer[i] == requests[i]);
        }
        lemma_counts_agree(allocations.drop_last(), fewer);
        assert(requests.last() == requests[requests.len() - 1]);
    }
}

/// A scope gives back all that it took, and no more: when a scope that was made
/// at the cursor of an allocator has served any requests and ends, the cursor
/// is where it was before the scope was made, and the bytes below it are as
/// they were.
pub proof fn lemma_scope_reclaims_all(
    allocator: LinearAllocatorView,
    has_parent: bool,
    requests: Seq<Request>,
)
    requires
        allocator.wf(),
        requests_are_valid(requests),
    ensures
        ({
            let served = serve(
                ScopedScratchView::fresh(allocator.cursor, has_parent),
                allocator,
                requests,
            );
            let ended = served.allocator.rewind(served.scope.alloc_start);
            &&& served.scope.wf(served.allocator)
            &&& !served.scope.locked
            &&& ended.wf()
            &&& ended.cursor == allocator.cursor
            &&& allocator.agrees_below(ended, allocator.cursor)
        }),
{
    lemma_serve_keeps_scope_standing(
        ScopedScratchView::fresh(allocator.cursor, has_parent),
        allocator,
        requests,
    );
}

/// A scope with a live child refuses every request and changes nothing. Once
/// the child has served its requests and ended, the scope is as it was before
/// the child was made, stands in the allocator again with all that it had
/// there, and no longer refuses.
pub proof fn lemma_child_scope_locks_parent(
    parent: ScopedScratchView,
    allocator: LinearAllocatorView,
    requests: Seq<Request>,
    request: Request,
)
    requires
        parent.wf(allocator),
        !parent.locked,
        requests_are_valid(requests),
        request.alignment > 0,
    ensures
        ({
            let child = ScopedScratchView::fresh(allocator.cursor, true);
            let served = serve(child, allocator, requests);
            let ended = served.allocator.rewind(served.scope.alloc_start);
            &&& child.is_child_of(parent.lock())
            &&& served.scope.is_child_of(parent.lock())
            &&& parent.lock().wf(served.allocator)
            &&& parent.lock().allocate(
                served.allocator,
                request.obj,
                request.alignment,
                request.dtor,
            ) == (
                parent.lock(),
                served.allocator,
                Err::<usize, AllocationError>(AllocationError::ScopeLocked),
            )
            &&& parent.lock().unlock() == parent
            &&& parent.wf(ended)
            &&& ended.cursor == allocator.cursor
            &&& allocator.agrees_below(ended, allocator.cursor)
            &&& parent.allocate(ended, request.obj, request.alignment, request.dtor).2 != Err::<
                usize,
                AllocationError,
            >(AllocationError::ScopeLocked)
        }),
{
    let child = ScopedScratchView::fresh(allocator.cursor, true);
    lemma_serve_keeps_scope_standing(child, allocator, requests);
    let served = serve(child, allocator, requests);
    lemma_scope_stands_on_what_is_below(parent.lock(), allocator, served.allocator);
    let ended = served.allocator.rewind(served.scope.alloc_start);
    lemma_scope_stands_on_what_is_below(parent, allocator, ended);
}

} // verus!
