//! What holds of the scheduler and its KV manager between the steps of a pass.

use vstd::prelude::*;
use crate::common::protocols::UniqueBlock;
use crate::common::sequence_laws;
use crate::common::sequence_model;
use crate::common::sequence_model::SequenceState;
use crate::common::tokens::MAX_BLOCKS;
use crate::kv_manager::accounting;
use crate::kv_manager::model as kv_model;
use crate::kv_manager::KvBackend;
use crate::scheduler::ledger;
use crate::scheduler::model;
use crate::scheduler::model::RequestState;
use crate::scheduler::state::SchedulerState;

verus! {

broadcast use {vstd::set::group_set_axioms, vstd::map::group_map_axioms};

/// The most that one step of the scheduler adds to the counters of a KV manager.
pub const STEP_HEADROOM: u64 = 0x200_0010;

/// All sequences have blocks of this size, and all other requests can be served with it.
pub open spec fn sized(requests: Map<u128, RequestState>, block_size: nat) -> bool {
    forall|k: u128| #[trigger]
        requests.contains_key(k) ==> match requests[k] {
            RequestState::Direct { tokens, max_output_tokens, .. } => model::admissible(
                tokens.len(),
                max_output_tokens,
                block_size,
            ),
            RequestState::Active { sequence } => sequence.block_size == block_size,
        }
}

/// All sequences have tokens left to generate.
pub open spec fn unfinished(requests: Map<u128, RequestState>) -> bool {
    forall|k: u128| #[trigger]
        requests.contains_key(k) ==> match requests[k] {
            RequestState::Direct { .. } => true,
            RequestState::Active { sequence } => sequence.generated_tokens
                < sequence.max_output_tokens,
        }
}

/// Only complete blocks are kept for reuse: a partial block is in use, or it is gone.
pub open spec fn keeps_complete_blocks<B: KvBackend>(kv: B) -> bool {
    forall|b: UniqueBlock| #[trigger] kv.reusable().contains(b) ==> b is FullBlock
}

/// The scheduler and its KV manager fit together: the references on blocks are those that the
/// requests hold, only complete blocks are kept for reuse, and every request has tokens left to
/// generate.
pub open spec fn in_order<B: KvBackend>(state: SchedulerState, kv: B) -> bool {
    &&& state.wf()
    &&& kv.valid()
    &&& 2 <= kv.tokens_per_block() <= u32::MAX
    &&& sized(state@.requests, kv.tokens_per_block())
    &&& unfinished(state@.requests)
    &&& ledger::balanced(kv.active(), state@.requests)
    &&& keeps_complete_blocks(kv)
}

/// A token of a request has been generated; if it was the last one, its blocks have been given up,
/// and the request is to be completed.
pub open spec fn generated<B: KvBackend>(
    state: SchedulerState,
    kv: B,
    uuid: u128,
    completed: bool,
) -> bool {
    &&& state.wf()
    &&& kv.valid()
    &&& 2 <= kv.tokens_per_block() <= u32::MAX
    &&& sized(state@.requests, kv.tokens_per_block())
    &&& state@.decode.contains(uuid)
    &&& completed == (state@.sequence(uuid).generated_tokens == state@.sequence(
        uuid,
    ).max_output_tokens)
    &&& unfinished(state@.requests.remove(uuid))
    &&& keeps_complete_blocks(kv)
    &&& ledger::balanced(
        kv.active(),
        if completed {
            state@.requests.remove(uuid)
        } else {
            state@.requests
        },
    )
}

/// An idle scheduler leaves nothing behind: without requests, no block is in use.
pub proof fn lemma_idle<B: KvBackend>(state: SchedulerState, kv: B)
    requires
        in_order(state, kv),
        state@.requests == Map::<u128, RequestState>::empty(),
    ensures
        kv.active() == Map::<UniqueBlock, nat>::empty(),
        kv.active().dom().len() == 0,
{
    kv.lemma_valid();
    assert forall|b: UniqueBlock| !kv.active().contains_key(b) by {
        ledger::lemma_held_none(state@.requests, b);
        assert(accounting::refs(kv.active(), b) == 0);
    }
    assert(kv.active() =~= Map::empty());
}

/// The scheduler starts in order.
pub proof fn lemma_start<B: KvBackend>(state: SchedulerState, kv: B)
    requires
        state.wf(),
        state@.requests == Map::<u128, RequestState>::empty(),
        kv.valid(),
        kv.active() == Map::<UniqueBlock, nat>::empty(),
        keeps_complete_blocks(kv),
        2 <= kv.tokens_per_block() <= u32::MAX,
    ensures
        in_order(state, kv),
{
    assert forall|b: UniqueBlock|
        #![trigger accounting::refs(kv.active(), b)]
        accounting::refs(kv.active(), b) == ledger::held(state@.requests, b) && (b is PartialBlock
            ==> accounting::refs(kv.active(), b) <= 1) by {
        ledger::lemma_held_none(state@.requests, b);
    }
}

/// A request that can be served comes in.
pub proof fn lemma_receive<B: KvBackend>(
    before: SchedulerState,
    after: SchedulerState,
    kv: B,
    uuid: u128,
    request: RequestState,
)
    requires
        in_order(before, kv),
        after.wf(),
        !before@.requests.contains_key(uuid),
        after@ == before@.received(uuid, request),
        request matches RequestState::Direct { tokens, max_output_tokens, .. }
            && model::admissible(tokens.len(), max_output_tokens, kv.tokens_per_block()),
    ensures
        in_order(after, kv),
{
    before.lemma_wf();
    ledger::lemma_balanced_same(kv.active(), before@.requests, uuid, request);
}

/// The number of blocks of a sequence is within its limit.
pub proof fn lemma_most_blocks(s: SequenceState)
    requires
        s.wf(),
    ensures
        s.unique_blocks.len() <= MAX_BLOCKS + 1,
{
    sequence_model::lemma_blocks_for(s.tokens.len(), s.block_size);
}

/// The complete blocks of a sequence are among its blocks.
pub proof fn lemma_full_count(blocks: Seq<UniqueBlock>)
    ensures
        kv_model::full_hashes(blocks).len() <= blocks.len(),
        blocks.len() > 0 && blocks.last() is PartialBlock ==> kv_model::full_hashes(blocks).len()
            <= blocks.len() - 1,
    decreases blocks.len(),
{
    if blocks.len() > 0 {
        lemma_full_count(blocks.drop_last());
    }
}

/// As many content hashes as complete blocks are known of a sequence.
pub proof fn lemma_full_bound(s: SequenceState)
    requires
        s.wf(),
        s.faithful(),
    ensures
        kv_model::full_hashes(s.unique_blocks).len() <= s.tokens.len() / s.block_size,
        kv_model::full_hashes(s.unique_blocks).len() * s.block_size <= s.tokens.len(),
{
    let n = s.unique_blocks.len() as int;
    lemma_full_count(s.unique_blocks);
    if n > 0 {
        if s.unique_blocks.last() is FullBlock {
            assert(s.unique_blocks[n - 1] is FullBlock);
        } else if n > 1 {
            assert(s.unique_blocks[n - 2] is FullBlock);
        }
    }
    let q = s.tokens.len() / s.block_size;
    let m = kv_model::full_hashes(s.unique_blocks).len();
    vstd::arithmetic::div_mod::lemma_fundamental_div_mod(
        s.tokens.len() as int,
        s.block_size as int,
    );
    assert(m * s.block_size <= s.block_size * q) by (nonlinear_arith)
        requires
            m <= q,
    ;
}

/// The signal that provides the blocks of a sequence is in order if its partial block is new.
pub proof fn lemma_use_sound(
    active: Map<UniqueBlock, nat>,
    present: Set<UniqueBlock>,
    s: SequenceState,
)
    requires
        s.wf(),
        s.faithful(),
        s.ends_partial() ==> !present.contains(s.unique_blocks.last()),
    ensures
        accounting::sound(active, present, s.use_signal()),
        accounting::cost(s.use_signal()) == 2 * s.unique_blocks.len() + 1,
{
    let blocks = s.unique_blocks;
    lemma_full_bound(s);
    assert forall|i: int| 0 <= i < blocks.len() && (#[trigger] blocks[i]) is PartialBlock implies
        !present.contains(blocks[i]) && !blocks.take(i).contains(blocks[i]) by {
        assert(i == blocks.len() - 1);
        if blocks.take(i).contains(blocks[i]) {
            let j = blocks.take(i).index_of(blocks[i]);
            assert(blocks[j] is FullBlock);
        }
    }
}

/// A sequence that generates a token stays as the scheduler keeps it.
pub proof fn lemma_pushed(s: SequenceState, token: u32, drawn: u64, block: UniqueBlock)
    requires
        model::sustainable(s),
        model::can_go_on(s),
        s.generated_tokens < s.max_output_tokens,
        s.creation_signal is None,
        block is PartialBlock,
    ensures
        ({
            let t = s.pushed(token, drawn, block);
            let ids = sequence_model::full_ids(t.unique_blocks);
            let read = SequenceState {
                decode_block_reads: sequence_model::add_reads(t.decode_block_reads, ids),
                ..t
            };
            &&& model::sustainable(t)
            &&& model::sustainable(read)
            &&& forall|id: u64|
                sequence_model::read_count(t.decode_block_reads, id)
                    + #[trigger] ids.to_multiset().count(id) <= usize::MAX
        }),
{
    let t = s.pushed(token, drawn, block);
    let ids = sequence_model::full_ids(t.unique_blocks);
    let read = SequenceState {
        decode_block_reads: sequence_model::add_reads(t.decode_block_reads, ids),
        ..t
    };
    let g = s.generated_tokens;
    let n = s.unique_blocks.len();
    let m = t.unique_blocks.len();
    sequence_model::lemma_pushed_wf(s, token, drawn, block);
    sequence_laws::lemma_pushed_faithful(s, token, drawn, block);
    assert(n <= m <= n + 1);
    assert(g * n <= g * m) by (nonlinear_arith)
        requires
            n <= m,
    ;
    assert(g * m + m == (g + 1) * m) by (nonlinear_arith);
    assert((g + 1) * m <= (g + 1) * (n + 1)) by (nonlinear_arith)
        requires
            m <= n + 1,
    ;
    assert forall|id: u64| #[trigger] sequence_model::read_count(t.decode_block_reads, id)
        <= t.generated_tokens * m by {
        assert(sequence_model::read_count(s.decode_block_reads, id) <= g * n);
    }
    assert(model::sustainable(t));
    lemma_full_count(t.unique_blocks);
    assert forall|id: u64| sequence_model::read_count(t.decode_block_reads, id)
        + #[trigger] ids.to_multiset().count(id) <= (g + 1) * m by {
        lemma_count_bound(ids, id);
        assert(sequence_model::read_count(s.decode_block_reads, id) <= g * n);
    }
    assert forall|id: u64| #[trigger] sequence_model::read_count(read.decode_block_reads, id)
        <= read.generated_tokens * read.unique_blocks.len() by {
        assert(sequence_model::read_count(t.decode_block_reads, id)
            + ids.to_multiset().count(id) <= (g + 1) * m);
    }
    assert(read.faithful()) by {
        assert forall|i: int|
            #![trigger read.unique_blocks[i]]
            0 <= i < read.unique_blocks.len() && read.unique_blocks[i] is FullBlock implies i
            < read.tokens.len() / read.block_size by {
            assert(t.unique_blocks[i] is FullBlock);
        }
    }
}

/// An id occurs at most as often as there are places.
proof fn lemma_count_bound(ids: Seq<u64>, id: u64)
    ensures
        ids.to_multiset().count(id) <= ids.len(),
{
    broadcast use vstd::seq_lib::group_to_multiset_ensures;
    broadcast use vstd::multiset::group_multiset_axioms;

    let m = ids.to_multiset();
    assert(m.count(id) <= m.len());
}

/// A sequence that gives back a generated token stays as the scheduler keeps it.
pub proof fn lemma_popped(s: SequenceState, token: u32, drawn: u64, block: UniqueBlock)
    requires
        model::sustainable(s),
        model::can_go_on(s),
        s.generated_tokens < s.max_output_tokens,
        s.creation_signal is None,
        block is PartialBlock,
    ensures
        model::sustainable(s.pushed(token, drawn, block).popped()),
        s.pushed(token, drawn, block).popped().generated_tokens == s.generated_tokens,
        s.pushed(token, drawn, block).popped().creation_signal is None,
{
    let t = s.pushed(token, drawn, block).popped();
    lemma_pushed(s, token, drawn, block);
    sequence_laws::lemma_pop_undoes_push(s, token, drawn, block);
    sequence_laws::lemma_popped_faithful(s, token, drawn, block);
    sequence_model::lemma_popped_wf(s.pushed(token, drawn, block));
    assert(t.unique_blocks.len() == s.unique_blocks.len());
}

/// A new sequence is one that the scheduler can keep.
pub proof fn lemma_new(
    s: SequenceState,
    tokens: Seq<u32>,
    max_output_tokens: nat,
    block_size: nat,
    enable_prefix_caching: bool,
    emit_token_ids: bool,
)
    requires
        s.wf(),
        s.is_new(tokens, max_output_tokens, block_size, enable_prefix_caching, emit_token_ids),
        model::admissible(tokens.len(), max_output_tokens, block_size),
    ensures
        model::sustainable(s),
        s.generated_tokens < s.max_output_tokens,
{
    sequence_laws::lemma_new_faithful(
        s,
        tokens,
        max_output_tokens,
        block_size,
        enable_prefix_caching,
        emit_token_ids,
    );
}

/// The requests keep their sizes and have tokens left when one of them changes.
pub proof fn lemma_change(
    before: Map<u128, RequestState>,
    uuid: u128,
    sequence: SequenceState,
    block_size: nat,
)
    requires
        sized(before, block_size),
        sequence.block_size == block_size,
    ensures
        sized(before.insert(uuid, RequestState::Active { sequence }), block_size),
        unfinished(before) && sequence.generated_tokens < sequence.max_output_tokens
            ==> unfinished(before.insert(uuid, RequestState::Active { sequence })),
        unfinished(before) ==> unfinished(before.remove(uuid)),
        sized(before.remove(uuid), block_size),
{
    let after = before.insert(uuid, RequestState::Active { sequence });
    assert forall|k: u128| #[trigger] after.contains_key(k) && k != uuid implies
        before.contains_key(k) && after[k] == before[k] by {}
    assert forall|k: u128| #[trigger] before.remove(uuid).contains_key(k) implies
        before.contains_key(k) && before.remove(uuid)[k] == before[k] by {}
}

} // verus!
