//! The operations on the scheduler's queues keep them in order.

use vstd::prelude::*;
use crate::common::evictor;
use crate::common::protocols::PrefillCost;
use crate::common::sequence_model::SequenceState;
use crate::scheduler::model;
use crate::scheduler::model::{RequestState, SchedState};

verus! {

broadcast use {vstd::set::group_set_axioms, vstd::map::group_map_axioms};

/// What is left of a queue once its first id is taken.
pub proof fn lemma_drop_first(ids: Seq<u128>)
    requires
        ids.no_duplicates(),
        ids.len() > 0,
    ensures
        ids.drop_first().no_duplicates(),
        ids.contains(ids[0]),
        forall|k: u128| #[trigger]
            ids.drop_first().contains(k) <==> ids.contains(k) && k != ids[0],
{
    let rest = ids.drop_first();
    assert forall|k: u128| #[trigger] rest.contains(k) <==> ids.contains(k) && k != ids[0] by {
        if rest.contains(k) {
            assert(ids[rest.index_of(k) + 1] == k);
        }
        if ids.contains(k) && k != ids[0] {
            assert(rest[ids.index_of(k) - 1] == k);
        }
    }
}

/// A queue with a new first id.
pub proof fn lemma_push_front(ids: Seq<u128>, uuid: u128)
    requires
        ids.no_duplicates(),
        !ids.contains(uuid),
    ensures
        (seq![uuid] + ids).no_duplicates(),
        forall|k: u128| #[trigger]
            (seq![uuid] + ids).contains(k) <==> ids.contains(k) || k == uuid,
{
    let more = seq![uuid] + ids;
    assert forall|k: u128| #[trigger] more.contains(k) <==> ids.contains(k) || k == uuid by {
        if ids.contains(k) {
            assert(more[ids.index_of(k) + 1] == k);
        }
        if k == uuid {
            assert(more[0] == k);
        }
    }
}

/// The request can wait: if it is a sequence, it has no blocks.
pub open spec fn can_wait(request: RequestState) -> bool {
    request is Active ==> model::sustainable(request->sequence)
        && request->sequence.creation_signal is Some
}

/// The costs of prompts that stay the same add up as before.
proof fn lemma_costs_same(a: SchedState, b: SchedState, ids: Seq<u128>)
    requires
        forall|k: u128| #[trigger]
            ids.contains(k) ==> a.prefill_costs[k].new_tokens == b.prefill_costs[k].new_tokens,
    ensures
        model::sum_over(ids, a.cost_tokens()) == model::sum_over(ids, b.cost_tokens()),
{
    let f = a.cost_tokens();
    let g = b.cost_tokens();
    assert forall|k: u128| ids.contains(k) implies #[trigger] f(k) == g(k) by {}
    model::lemma_sum_same(ids, f, g);
}

/// A request comes in.
pub proof fn lemma_received(s: SchedState, uuid: u128, request: RequestState)
    requires
        s.wf(),
        !s.requests.contains_key(uuid),
        can_wait(request),
    ensures
        s.received(uuid, request).wf(),
{
    let t = s.received(uuid, request);
    assert(!s.queued(uuid));
    evictor::lemma_push_distinct(s.waiting, uuid);
    assert forall|k: u128| #[trigger] t.requests.contains_key(k) <==> t.queued(k) by {
        assert(s.requests.contains_key(k) <==> s.queued(k));
    }
    lemma_costs_same(s, t, s.prefill);
}

/// The next waiting request is taken out.
pub proof fn lemma_next_taken(s: SchedState)
    requires
        s.wf(),
        s.waiting.len() > 0,
    ensures
        s.next_taken().wf(),
        s.requests.contains_key(s.waiting[0]),
        can_wait(s.requests[s.waiting[0]]),
        !s.next_taken().requests.contains_key(s.waiting[0]),
{
    let t = s.next_taken();
    lemma_drop_first(s.waiting);
    assert(s.queued(s.waiting[0]));
    assert forall|k: u128| #[trigger] t.requests.contains_key(k) <==> t.queued(k) by {
        assert(s.requests.contains_key(k) <==> s.queued(k));
    }
    lemma_costs_same(s, t, s.prefill);
}

/// A request waits before all others.
pub proof fn lemma_first_in_line(s: SchedState, uuid: u128, request: RequestState)
    requires
        s.wf(),
        !s.requests.contains_key(uuid),
        can_wait(request),
    ensures
        s.first_in_line(uuid, request).wf(),
{
    let t = s.first_in_line(uuid, request);
    assert(!s.queued(uuid));
    lemma_push_front(s.waiting, uuid);
    assert forall|k: u128| #[trigger] t.requests.contains_key(k) <==> t.queued(k) by {
        assert(s.requests.contains_key(k) <==> s.queued(k));
    }
    lemma_costs_same(s, t, s.prefill);
}

/// The prompt of a request is to be computed.
pub proof fn lemma_to_prefill(s: SchedState, uuid: u128, sequence: SequenceState, cost: PrefillCost)
    requires
        s.wf(),
        !s.requests.contains_key(uuid),
        model::sustainable(sequence),
    ensures
        s.to_prefill(uuid, sequence, cost).wf(),
{
    let t = s.to_prefill(uuid, sequence, cost);
    assert(!s.queued(uuid));
    evictor::lemma_push_distinct(s.prefill, uuid);
    assert forall|k: u128| #[trigger] t.requests.contains_key(k) <==> t.queued(k) by {
        assert(s.requests.contains_key(k) <==> s.queued(k));
    }
    lemma_costs_same(s, t, s.prefill);
    model::lemma_sum_push(s.prefill, uuid, t.cost_tokens());
}

/// The sequence of a request that is decoded changes.
pub proof fn lemma_with_sequence(s: SchedState, uuid: u128, sequence: SequenceState)
    requires
        s.wf(),
        s.decode.contains(uuid),
        model::sustainable(sequence),
        sequence.creation_signal is None,
    ensures
        s.with_sequence(uuid, sequence).wf(),
{
    let t = s.with_sequence(uuid, sequence);
    assert(s.queued(uuid));
    assert forall|k: u128| #[trigger] t.requests.contains_key(k) <==> t.queued(k) by {
        assert(s.requests.contains_key(k) <==> s.queued(k));
    }
    lemma_costs_same(s, t, s.prefill);
}

/// The next prompt is computed.
pub proof fn lemma_prefilled(s: SchedState)
    requires
        s.wf(),
        s.prefill.len() > 0,
        s.max_num_batched_tokens is Some ==> s.active_tokens <= s.max_num_batched_tokens->0,
    ensures
        s.prefilled().wf(),
        s.requests.contains_key(s.prefill[0]),
        s.requests[s.prefill[0]] is Active,
        s.prefill_costs.contains_key(s.prefill[0]),
        s.prefill_costs[s.prefill[0]].new_tokens <= s.waiting_tokens,
        s.max_num_batched_tokens is Some ==> s.prefilled().active_tokens
            <= s.max_num_batched_tokens->0,
{
    let t = s.prefilled();
    let uuid = s.prefill[0];
    lemma_drop_first(s.prefill);
    assert(s.queued(uuid));
    let rest = s.prefill.drop_first();
    model::lemma_sum_first(s.prefill, s.cost_tokens());
    lemma_costs_same(s, t, rest);
    evictor::lemma_without(s.decode, uuid);
    evictor::lemma_push_distinct(evictor::without(s.decode, uuid), uuid);
    assert forall|k: u128| #[trigger] t.requests.contains_key(k) <==> t.queued(k) by {
        assert(s.requests.contains_key(k) <==> s.queued(k));
    }
    if s.chunk() is Some {
        model::lemma_sum_first(s.prefill, t.cost_tokens());
        assert(t.decode == s.decode);
    }
}

/// A request is done.
pub proof fn lemma_completed(s: SchedState, uuid: u128)
    requires
        s.wf(),
        s.decode.contains(uuid),
    ensures
        s.completed(uuid).wf(),
        s.requests.contains_key(uuid),
        s.completed(uuid).decode.len() == s.decode.len() - 1,
{
    let t = s.completed(uuid);
    evictor::lemma_without(s.decode, uuid);
    assert(s.queued(uuid));
    assert forall|k: u128| #[trigger] t.requests.contains_key(k) <==> t.queued(k) by {
        assert(s.requests.contains_key(k) <==> s.queued(k));
    }
    lemma_costs_same(s, t, s.prefill);
}

/// The longest running request has to wait again.
pub proof fn lemma_preempted(s: SchedState)
    requires
        s.wf(),
        s.decode.len() > 0,
    ensures
        s.preempted().wf(),
        s.requests.contains_key(s.decode[0]),
        s.requests[s.decode[0]] is Active,
{
    let uuid = s.decode[0];
    lemma_drop_first(s.decode);
    lemma_completed(s, uuid);
    evictor::lemma_without_at(s.decode, 0);
    assert(s.decode.remove(0) =~= s.decode.drop_first());
    let request = RequestState::Active { sequence: s.sequence(uuid).reset() };
    assert(s.requests.contains_key(uuid));
    assert(model::sustainable(s.sequence(uuid)));
    assert(s.sequence(uuid).reset().use_signal() == s.sequence(uuid).use_signal());
    lemma_reset(s.sequence(uuid));
    lemma_received(s.completed(uuid), uuid, request);
    assert(s.preempted() == s.completed(uuid).received(uuid, request));
}

/// A sequence stays as it is while its blocks are given up.
pub proof fn lemma_reset(s: SequenceState)
    requires
        model::sustainable(s),
    ensures
        model::sustainable(s.reset()),
{
    let t = s.reset();
    assert(t.use_signal() == s.use_signal());
    assert forall|i: int|
        #![trigger t.unique_blocks[i]]
        0 <= i < t.unique_blocks.len() && t.unique_blocks[i] is FullBlock implies i < t.tokens.len()
        / t.block_size by {
        assert(s.unique_blocks[i] is FullBlock);
    }
    assert(t.faithful());
}

} // verus!
