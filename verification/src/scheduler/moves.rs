//! What each operation on the queues does, place by place.

use vstd::prelude::*;
use crate::common::evictor;
use crate::common::protocols::{DirectRequest, PrefillCost};
use crate::common::sequence_model::SequenceState;
use crate::scheduler::model::{RequestState, SchedState};
use crate::scheduler::state;

verus! {

broadcast use {vstd::set::group_set_axioms, vstd::map::group_map_axioms};

/// Nothing but the waiting queue and the requests differs.
pub open spec fn only_waiting_differs(s: SchedState, t: SchedState) -> bool {
    &&& t.prefill == s.prefill
    &&& t.decode == s.decode
    &&& t.prefill_costs == s.prefill_costs
    &&& t.max_num_batched_tokens == s.max_num_batched_tokens
    &&& t.active_tokens == s.active_tokens
    &&& t.waiting_tokens == s.waiting_tokens
}

/// A scheduler starts without requests.
pub proof fn lemma_starts_empty(max_num_batched_tokens: Option<nat>)
    ensures
        ({
            let s = SchedState::empty(max_num_batched_tokens);
            &&& s.requests.dom().len() == 0
            &&& s.waiting.len() == 0 && s.prefill.len() == 0 && s.decode.len() == 0
            &&& s.prefill_costs.dom().len() == 0
            &&& s.active_tokens == 0 && s.waiting_tokens == 0
            &&& s.max_num_batched_tokens == max_num_batched_tokens
        }),
{
}

/// A request that comes in is kept as it is, and its id waits behind all others.
pub proof fn lemma_received_waits_last(s: SchedState, uuid: u128, request: DirectRequest)
    ensures
        ({
            let t = s.received(uuid, state::direct(request));
            &&& only_waiting_differs(s, t)
            &&& t.waiting == s.waiting.push(uuid)
            &&& t.requests.dom() == s.requests.dom().insert(uuid)
            &&& forall|k: u128| k != uuid ==> #[trigger] t.requests[k] == s.requests[k]
            &&& t.requests[uuid] matches RequestState::Direct {
                tokens,
                max_output_tokens,
                uuid: id,
                dp_rank,
            } && tokens == request.tokens@ && max_output_tokens == request.max_output_tokens && id
                == request.uuid && dp_rank == request.dp_rank
        }),
{
    assert(s.received(uuid, state::direct(request)).requests.dom() =~= s.requests.dom().insert(uuid));
}

/// The next request is the one that waits first; the others keep their places.
pub proof fn lemma_next_is_first(s: SchedState)
    requires
        s.waiting.len() > 0,
    ensures
        ({
            let t = s.next_taken();
            &&& only_waiting_differs(s, t)
            &&& t.waiting == s.waiting.subrange(1, s.waiting.len() as int)
            &&& t.requests == s.requests.remove(s.waiting[0])
        }),
{
    assert(s.waiting.drop_first() =~= s.waiting.subrange(1, s.waiting.len() as int));
}

/// A request that is put first in line is the next one; taking it out again undoes this.
pub proof fn lemma_first_in_line_is_next(s: SchedState, uuid: u128, request: RequestState)
    requires
        !s.requests.contains_key(uuid),
    ensures
        ({
            let t = s.first_in_line(uuid, request);
            &&& only_waiting_differs(s, t)
            &&& t.waiting.len() == s.waiting.len() + 1
            &&& t.waiting[0] == uuid
            &&& t.requests == s.requests.insert(uuid, request)
            &&& t.next_taken() == s
        }),
{
    let t = s.first_in_line(uuid, request);
    assert(t.waiting.drop_first() =~= s.waiting);
    assert(t.requests.remove(uuid) =~= s.requests);
    assert(t.next_taken() =~= s);
}

/// A request whose prompt is to be computed is the last one whose prompt is, with the cost of the
/// prompt, and the tokens of the cost are still to be computed.
pub proof fn lemma_to_prefill_is_last(
    s: SchedState,
    uuid: u128,
    sequence: SequenceState,
    cost: PrefillCost,
)
    ensures
        ({
            let t = s.to_prefill(uuid, sequence, cost);
            &&& t.waiting == s.waiting
            &&& t.decode == s.decode
            &&& t.prefill == s.prefill.push(uuid)
            &&& t.requests == s.requests.insert(uuid, RequestState::Active { sequence })
            &&& t.prefill_costs == s.prefill_costs.insert(uuid, cost)
            &&& t.waiting_tokens == s.waiting_tokens + cost.new_tokens
            &&& t.active_tokens == s.active_tokens
            &&& t.max_num_batched_tokens == s.max_num_batched_tokens
        }),
{
}

/// A decode pass costs one token for each request that is decoded; nothing else changes at its
/// start.
pub proof fn lemma_pass_costs_one_token_each(s: SchedState)
    ensures
        s.tokens_reset().active_tokens == s.decode.len(),
        s.tokens_reset() == (SchedState { active_tokens: s.decode.len(), ..s }),
{
}

/// A request that is done leaves the decode queue, where the others keep their order, and nothing of
/// it is kept; its token does not count any more.
pub proof fn lemma_completed_is_gone(s: SchedState, uuid: u128, place: int)
    requires
        s.wf(),
        0 <= place < s.decode.len(),
        s.decode[place] == uuid,
        s.active_tokens > 0,
    ensures
        ({
            let t = s.completed(uuid);
            &&& t.decode == s.decode.remove(place)
            &&& t.requests == s.requests.remove(uuid)
            &&& t.prefill_costs == s.prefill_costs
            &&& t.waiting == s.waiting
            &&& t.prefill == s.prefill
            &&& t.active_tokens == s.active_tokens - 1
            &&& t.waiting_tokens == s.waiting_tokens
        }),
{
    assert(s.decode.contains(uuid));
    assert(!s.prefill.contains(uuid));
    assert(!s.prefill_costs.contains_key(uuid));
    evictor::lemma_without_at(s.decode, place);
    assert(s.prefill_costs.remove(uuid) =~= s.prefill_costs);
}

} // verus!
