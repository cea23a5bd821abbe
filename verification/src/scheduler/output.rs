//! What becomes of the tokens of a request: each request gets as many as it asks for, and none is
//! lost or reported twice.

use vstd::prelude::*;
use crate::common::protocols::UniqueBlock;
use crate::common::sequence_model::SequenceState;
use crate::kv_manager::KvBackend;
use crate::scheduler::decode;
use crate::scheduler::decode::DecodeOutcome;
use crate::scheduler::model::{RequestState, SchedState};
use crate::scheduler::schedule;
use crate::scheduler::schedule::{ScheduleLimits, ScheduledRequest};

verus! {

broadcast use {vstd::set::group_set_axioms, vstd::map::group_map_axioms};

/// The tokens of a request, those of its prompt first.
pub open spec fn tokens_of(request: RequestState) -> Seq<u32> {
    match request {
        RequestState::Direct { tokens, .. } => tokens,
        RequestState::Active { sequence } => sequence.tokens,
    }
}

/// The number of tokens that a request asks for.
pub open spec fn asked(request: RequestState) -> nat {
    match request {
        RequestState::Direct { max_output_tokens, .. } => max_output_tokens,
        RequestState::Active { sequence } => sequence.max_output_tokens,
    }
}

/// The number of tokens that have been generated for a request.
pub open spec fn produced(request: RequestState) -> nat {
    match request {
        RequestState::Direct { .. } => 0,
        RequestState::Active { sequence } => sequence.generated_tokens,
    }
}

/// Request `k` stays in the scheduler; it gets one more token, or it keeps those that it has.
pub open spec fn goes_on(before: SchedState, after: SchedState, k: u128, reported: bool) -> bool {
    let r = before.requests[k];
    let t = after.requests[k];
    &&& before.requests.contains_key(k)
    &&& after.requests.contains_key(k)
    &&& asked(t) == asked(r)
    &&& if reported {
        produced(t) == produced(r) + 1 && tokens_of(t).len() == tokens_of(r).len() + 1 && tokens_of(
            t,
        ).drop_last() == tokens_of(r)
    } else {
        produced(t) == produced(r) && tokens_of(t) == tokens_of(r)
    }
}

/// A turn adds one token to its request where it reports one, and completes the request with the
/// last token that was asked for. It changes the tokens of no other request; in particular, a
/// preempted request keeps its tokens.
pub proof fn lemma_turn_counts_tokens<B: KvBackend>(
    before: SchedState,
    kv_before: B,
    uuid: u128,
    token: u32,
    hash: u64,
    block: UniqueBlock,
    after: SchedState,
    kv_after: B,
    r: DecodeOutcome,
    k: u128,
)
    requires
        before.wf(),
        before.requests.contains_key(k),
        decode::turn(before, kv_before, uuid, token, hash, block, after, kv_after, r),
    ensures
        goes_on(before, after, k, r is Generated && k == uuid),
        r is Generated && k == uuid ==> {
            &&& tokens_of(after.requests[k]).last() == token
            &&& r->completed == (produced(after.requests[k]) == asked(after.requests[k]))
        },
{
    assert(before.requests.contains_key(uuid) <==> before.queued(uuid));
    if before.decode.contains(uuid) {
        let s = before.sequence(uuid);
        assert(s.pushed(token, hash, block).tokens.drop_last() =~= s.tokens);
        assert(before.decode.contains(before.decode[0]));
        assert(before.queued(before.decode[0]));
    }
}

/// Scheduling changes the tokens of no request.
pub proof fn lemma_scheduling_keeps_tokens<B: KvBackend>(
    before: SchedState,
    kv: B,
    limits: ScheduleLimits,
    candidates: Seq<SequenceState>,
    refused: Option<SequenceState>,
    after: SchedState,
    r: Seq<ScheduledRequest>,
    k: u128,
)
    requires
        before.wf(),
        before.requests.contains_key(k),
        schedule::scheduled(before, kv, limits, candidates, refused, after, r),
    ensures
        goes_on(before, after, k, false),
{
    let n = candidates.len() as int;
    let chosen = before.waiting.take(n);
    schedule::lemma_scheduled_queues(before, kv, candidates);
    if chosen.contains(k) {
        let i = chosen.index_of(k);
        assert(before.waiting[i] == k);
        assert(schedule::becomes(
            before.requests[k],
            limits,
            kv.tokens_per_block(),
            candidates[i],
        ));
        if refused is Some {
            assert(before.waiting[n] != before.waiting[i]);
        }
    }
}

/// Computing a prompt, or a part of it, changes the tokens of no request.
pub proof fn lemma_prefill_keeps_tokens(s: SchedState, k: u128)
    requires
        s.wf(),
        s.prefill.len() > 0,
        s.requests.contains_key(k),
    ensures
        goes_on(s, s.prefilled(), k, false),
{
    assert(s.prefill.contains(s.prefill[0]));
}

/// The arrival of a request and the end of one change the tokens of no other.
pub proof fn lemma_others_keep_tokens(s: SchedState, uuid: u128, request: RequestState, k: u128)
    requires
        s.requests.contains_key(k),
        k != uuid,
    ensures
        goes_on(s, s.received(uuid, request), k, false),
        goes_on(s, s.completed(uuid), k, false),
{
}

/// How many of some steps have reported a token.
pub open spec fn num_reported(reported: Seq<bool>) -> nat
    decreases reported.len(),
{
    if reported.len() == 0 {
        0
    } else {
        num_reported(reported.drop_last()) + if reported.last() {
            1nat
        } else {
            0
        }
    }
}

/// Exactly the generated tokens are reported: while a request goes from state to state, the tokens
/// generated for it are as many as the reports, so that a request that is complete has had one
/// report for each token that it asked for.
pub proof fn lemma_tokens_are_reported_once(
    states: Seq<SchedState>,
    reported: Seq<bool>,
    k: u128,
)
    requires
        states.len() == reported.len() + 1,
        states[0].requests.contains_key(k),
        produced(states[0].requests[k]) == 0,
        forall|i: int|
            #![trigger reported[i]]
            0 <= i < reported.len() ==> goes_on(states[i], states[i + 1], k, reported[i]),
    ensures
        produced(states.last().requests[k]) == num_reported(reported),
        asked(states.last().requests[k]) == asked(states[0].requests[k]),
        tokens_of(states[0].requests[k]).is_prefix_of(tokens_of(states.last().requests[k])),
        tokens_of(states.last().requests[k]).len() == tokens_of(states[0].requests[k]).len()
            + num_reported(reported),
    decreases reported.len(),
{
    if reported.len() > 0 {
        let n = reported.len() - 1;
        let less = states.drop_last();
        assert forall|i: int|
            #![trigger reported.drop_last()[i]]
            0 <= i < reported.drop_last().len() implies goes_on(
            less[i],
            less[i + 1],
            k,
            reported.drop_last()[i],
        ) by {
            assert(goes_on(states[i], states[i + 1], k, reported[i]));
        }
        lemma_tokens_are_reported_once(less, reported.drop_last(), k);
        assert(goes_on(states[n], states[n + 1], k, reported[n]));
        let first = tokens_of(states[0].requests[k]);
        let last = tokens_of(states[n + 1].requests[k]);
        if reported[n] {
            let mid = tokens_of(states[n].requests[k]);
            assert(last.take(mid.len() as int) =~= mid);
            assert(last.take(first.len() as int) =~= mid.take(first.len() as int));
        }
    }
}

} // verus!
