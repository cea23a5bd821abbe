//! When blocks can be provided, and what a request is refused for.

use vstd::prelude::*;
use crate::common::evictor;
use crate::common::protocols::{Signal, UniqueBlock};
use crate::common::sequence_model::SequenceState;
use crate::kv_manager::accounting;
use crate::kv_manager::KvBackend;
use crate::scheduler::decode;
use crate::scheduler::decode::DecodeOutcome;
use crate::scheduler::model;
use crate::scheduler::model::{RequestState, SchedState};
use crate::scheduler::passes;
use crate::scheduler::prefill;
use crate::scheduler::prefill::PrefillError;
use crate::scheduler::signals;
use crate::scheduler::state;

verus! {

broadcast use {vstd::set::group_set_axioms, vstd::map::group_map_axioms};

/// A request can be served if it asks for a token at least, and its prompt fills no more than
/// 16777216 blocks.
pub proof fn lemma_what_can_be_served(
    num_input_tokens: nat,
    max_output_tokens: nat,
    block_size: nat,
)
    requires
        block_size > 0,
    ensures
        model::admissible(num_input_tokens, max_output_tokens, block_size) <==> max_output_tokens >= 1
            && num_input_tokens < (16777216 + 1) * block_size,
{
    assert(num_input_tokens / block_size <= 16777216 <==> num_input_tokens < (16777216 + 1)
        * block_size) by (nonlinear_arith)
        requires
            block_size > 0,
    ;
}

/// A token can be generated if the sequence fills no more than 16777216 blocks with it, its length
/// is still a machine integer, and so are all counts of reads of its blocks.
pub proof fn lemma_what_can_be_generated(s: SequenceState)
    requires
        s.block_size > 0,
    ensures
        model::can_go_on(s) <==> s.tokens.len() + 1 < (16777216 + 1) * s.block_size
            && s.tokens.len() + 1 <= usize::MAX && (s.generated_tokens + 1) * (s.unique_blocks.len()
            + 1) <= usize::MAX,
{
    let n = s.tokens.len() + 1;
    let size = s.block_size;
    assert(n / size <= 16777216 <==> n < (16777216 + 1) * size) by (nonlinear_arith)
        requires
            size > 0,
    ;
}

/// Of signals, all those have to fit that ask for blocks: the blocks in use once the signals before
/// have been processed, with the blocks that are asked for, each counted once, have slots. The other
/// signals are never refused.
pub proof fn lemma_signals_fit(
    active: Map<UniqueBlock, nat>,
    signals: Seq<Signal>,
    last: Signal,
    capacity: nat,
)
    ensures
        signals::all_fit(active, Seq::empty(), capacity),
        signals::all_fit(active, signals.push(last), capacity) <==> signals::all_fit(
            active,
            signals,
            capacity,
        ) && (last matches Signal::Use { blocks, .. } ==> accounting::applied_all(
            active,
            signals,
        ).dom().union(blocks.to_set()).len() <= capacity),
        accounting::applied_all(active, Seq::empty()) == active,
{
    let all = signals.push(last);
    let n = signals.len() as int;
    assert(all.take(n) =~= signals);
    assert(signals::refused_at(active, all, capacity, n) == signals::refused(
        accounting::applied_all(active, signals),
        last,
        capacity,
    ));
    assert forall|i: int| 0 <= i < n implies signals::refused_at(active, all, capacity, i)
        == signals::refused_at(active, signals, capacity, i) by {
        assert(all.take(i) =~= signals.take(i));
    }
    if signals::all_fit(active, all, capacity) {
        assert forall|i: int| 0 <= i < signals.len() implies !#[trigger] signals::refused_at(
            active,
            signals,
            capacity,
            i,
        ) by {
            assert(!signals::refused_at(active, all, capacity, i));
        }
    }
    if signals::all_fit(active, signals, capacity) && !signals::refused_at(
        active,
        all,
        capacity,
        n,
    ) {
        assert forall|i: int| 0 <= i < all.len() implies !#[trigger] signals::refused_at(
            active,
            all,
            capacity,
            i,
        ) by {
            if i < n {
                assert(!signals::refused_at(active, signals, capacity, i));
            }
        }
    }
}

/// The blocks of a prompt are refused only before they have been provided: because its partial block
/// is in use by another request, or else because the blocks in use and those of the request, each
/// counted once, have no slots.
pub proof fn lemma_why_prefill_fails<B: KvBackend>(s: SchedState, kv: B, e: PrefillError)
    requires
        s.prefill.len() > 0,
    ensures
        ({
            let sequence = s.requests[s.prefill[0]]->sequence;
            let blocks = sequence.unique_blocks;
            let in_use = blocks.len() > 0 && blocks[blocks.len() - 1] is PartialBlock
                && kv.active().contains_key(blocks[blocks.len() - 1]);
            let short = kv.active().dom().union(blocks.to_set()).len() > kv.capacity();
            prefill::fails(s, kv, e) <==> sequence.creation_signal is Some && match e {
                PrefillError::BlockInUse => in_use,
                PrefillError::OutOfBlocks => !in_use && short,
            }
        }),
{
}

/// A request is received under its id if there is none with it, and waits last; otherwise nothing
/// happens.
pub proof fn lemma_received_once(
    before: SchedState,
    uuid: u128,
    request: RequestState,
    after: SchedState,
    r: Option<u128>,
)
    requires
        state::received_under(before, uuid, request, after, r),
    ensures
        r is Some <==> !before.requests.contains_key(uuid),
        r is Some ==> r == Some(uuid) && after.waiting == before.waiting.push(uuid)
            && after.requests == before.requests.insert(uuid, request),
        r is None ==> after == before,
{
}

/// A request whose turn has ended is done if it is complete, or its token could not be sent: nothing
/// of it is kept. Otherwise the end of the turn changes nothing.
pub proof fn lemma_done_requests_leave(
    s: SchedState,
    uuid: u128,
    r: DecodeOutcome,
    send_failed: bool,
)
    requires
        s.wf(),
        s.decode.contains(uuid),
    ensures
        ({
            let t = decode::ended(s, uuid, passes::done(r, send_failed));
            let over = match r {
                DecodeOutcome::Generated { completed } => completed || send_failed,
                _ => false,
            };
            &&& over ==> !t.requests.contains_key(uuid) && !t.decode.contains(uuid)
                && t.decode.len() == s.decode.len() - 1
            &&& !over ==> t == s
        }),
{
    evictor::lemma_without(s.decode, uuid);
}

} // verus!
