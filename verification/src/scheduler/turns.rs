//! What comes of the turn of a request, in numbers.

use vstd::prelude::*;
use crate::common::protocols::{Signal, UniqueBlock};
use crate::common::sequence_model;
use crate::common::sequence_model::SequenceState;
use crate::common::sequence_signals;
use crate::kv_manager::accounting;
use crate::kv_manager::KvBackend;
use crate::scheduler::decode;
use crate::scheduler::decode::DecodeOutcome;
use crate::scheduler::model::{RequestState, SchedState};
use crate::scheduler::signals;

verus! {

broadcast use {vstd::set::group_set_axioms, vstd::map::group_map_axioms};

/// The number of times a list of blocks has the complete block `id`.
pub open spec fn places_of(blocks: Seq<UniqueBlock>, id: u64) -> nat {
    blocks.filter(|b: UniqueBlock| b == UniqueBlock::FullBlock(id)).len()
}

/// How often a block was read, by a table of reads.
pub open spec fn reads_of(reads: Map<u64, nat>, id: u64) -> nat {
    if reads.contains_key(id) {
        reads[id]
    } else {
        0
    }
}

/// An id counts once for each of its blocks.
proof fn lemma_places(blocks: Seq<UniqueBlock>, id: u64)
    ensures
        sequence_model::full_ids(blocks).to_multiset().count(id) == places_of(blocks, id),
    decreases blocks.len(),
{
    broadcast use vstd::seq_lib::group_to_multiset_ensures;

    reveal(Seq::filter);
    if blocks.len() > 0 {
        let rest = blocks.drop_last();
        lemma_places(rest, id);
        if let UniqueBlock::FullBlock(hash) = blocks.last() {
            let ids = sequence_model::full_ids(rest);
            assert(sequence_model::full_ids(blocks) =~= ids.push(hash));
            assert(ids.push(hash).to_multiset() =~= ids.to_multiset().insert(hash));
        }
    } else {
        let none = Seq::<u64>::empty();
        assert(!none.contains(id));
        assert(!none.to_multiset().contains(id));
    }
}

/// A request that is not decoded any more is skipped, and a block that is in use is not taken for a
/// new one: in both cases nothing happens.
pub proof fn lemma_turn_without_effect<B: KvBackend>(
    before: SchedState,
    kv_before: B,
    uuid: u128,
    token: u32,
    hash: u64,
    block: UniqueBlock,
    after: SchedState,
    kv_after: B,
    r: DecodeOutcome,
)
    requires
        before.wf(),
        decode::turn(before, kv_before, uuid, token, hash, block, after, kv_after, r),
    ensures
        r is Skipped <==> !before.decode.contains(uuid),
        r is BlockInUse <==> before.decode.contains(uuid)
            && before.requests[uuid]->sequence.tokens.len()
            % before.requests[uuid]->sequence.block_size == 0
            && kv_before.active().contains_key(block),
        r is Skipped || r is BlockInUse ==> after == before && kv_after == kv_before,
{
    if before.decode.contains(uuid) {
        let s = before.sequence(uuid);
        assert(before.queued(uuid));
        assert(before.requests.contains_key(uuid));
        sequence_model::lemma_next_starts_block(s.tokens.len(), s.block_size);
    }
}

/// A token is generated unless a new block is needed and there is no slot for it. With a partial
/// block that is completed at the same time, the blocks in use are counted after that.
pub proof fn lemma_turn_needs_slot<B: KvBackend>(
    before: SchedState,
    kv_before: B,
    uuid: u128,
    token: u32,
    hash: u64,
    block: UniqueBlock,
    after: SchedState,
    kv_after: B,
    r: DecodeOutcome,
)
    requires
        before.wf(),
        kv_before.valid(),
        decode::turn(before, kv_before, uuid, token, hash, block, after, kv_after, r),
        before.decode.contains(uuid),
        !(r is BlockInUse),
        block is PartialBlock,
    ensures
        ({
            let s = before.requests[uuid]->sequence;
            let n = s.unique_blocks.len() as int;
            let active = kv_before.active().dom();
            let starts = s.tokens.len() % s.block_size == 0;
            let completes = n > 0 && s.unique_blocks[n - 1] is PartialBlock;
            let completed = s.pushed(token, hash, block).unique_blocks[n - 1];
            let in_use = if completes {
                active.remove(s.unique_blocks[n - 1]).insert(completed)
            } else {
                active
            };
            &&& r is Generated <==> !starts || in_use.len() < kv_before.capacity()
            &&& r is Preempted <==> starts && in_use.len() >= kv_before.capacity()
        }),
{
    let s = before.sequence(uuid);
    let n = s.unique_blocks.len() as int;
    let active = kv_before.active();
    let pushes = s.push_signals(token, hash, block);
    let capacity = kv_before.capacity();
    assert(before.queued(uuid));
    assert(before.requests.contains_key(uuid));
    kv_before.lemma_valid();
    sequence_model::lemma_next_starts_block(s.tokens.len(), s.block_size);
    if s.tokens.len() % s.block_size == 0 {
        sequence_signals::lemma_push_starts_block(s, token, hash, block);
        let last = pushes.len() - 1;
        assert(pushes.take(0) =~= Seq::empty());
        let in_use = accounting::applied_all(active, pushes.take(last));
        if s.ends_partial() {
            assert(pushes.take(1) =~= seq![pushes[0]]);
            assert(seq![pushes[0]].drop_first() =~= Seq::empty());
            reveal_with_fuel(accounting::applied_all, 2);
            let t = s.pushed(token, hash, block);
            assert(in_use == accounting::applied(active, pushes[0]));
            assert(in_use.dom() =~= active.dom().remove(s.unique_blocks[n - 1]).insert(
                t.unique_blocks[n - 1],
            ));
        }
        assert(in_use.dom().union(seq![block].to_set()) =~= in_use.dom().insert(block)) by {
            assert(seq![block][0] == block);
        }
        assert(!in_use.contains_key(block));
        assert(signals::refused_at(active, pushes, capacity, last) <==> in_use.dom().len()
            >= capacity);
        if pushes.len() == 2 {
            assert(!signals::refused_at(active, pushes, capacity, 0));
        }
        assert(signals::all_fit(active, pushes, capacity) <==> !signals::refused_at(
            active,
            pushes,
            capacity,
            last,
        ));
    }
}

/// A generated token leaves every request in its queue, and its request is complete if it has got as
/// many tokens as it asked for; each complete block of the request, those
/// that the token has completed included, has been read once more for each of its places, and no
/// other count changes.
pub proof fn lemma_token_reads_blocks<B: KvBackend>(
    before: SchedState,
    kv_before: B,
    uuid: u128,
    token: u32,
    hash: u64,
    block: UniqueBlock,
    after: SchedState,
    kv_after: B,
    r: DecodeOutcome,
    id: u64,
    other: u128,
)
    requires
        before.wf(),
        decode::turn(before, kv_before, uuid, token, hash, block, after, kv_after, r),
        r is Generated,
        other != uuid,
    ensures
        after.waiting == before.waiting,
        after.prefill == before.prefill,
        after.decode == before.decode,
        after.active_tokens == before.active_tokens,
        after.waiting_tokens == before.waiting_tokens,
        after.prefill_costs == before.prefill_costs,
        after.requests.contains_key(other) == before.requests.contains_key(other),
        after.requests[other] == before.requests[other],
        ({
            let s = before.requests[uuid]->sequence;
            let t = after.requests[uuid]->sequence;
            &&& signals::ran(kv_before, s.generate_signals(token, hash, block), kv_after)
            &&& t.unique_blocks == s.pushed(token, hash, block).unique_blocks
            &&& t.tokens == s.tokens.push(token)
            &&& t.generated_tokens == s.generated_tokens + 1
            &&& t.max_output_tokens == s.max_output_tokens
            &&& t.num_input_tokens == s.num_input_tokens
            &&& r == DecodeOutcome::Generated {
                completed: s.generated_tokens + 1 == s.max_output_tokens,
            }
            &&& reads_of(t.decode_block_reads, id) == reads_of(s.decode_block_reads, id)
                + places_of(t.unique_blocks, id)
        }),
{
    broadcast use vstd::seq_lib::group_to_multiset_ensures;

    let s = before.sequence(uuid);
    let t = s.pushed(token, hash, block);
    let ids = sequence_model::full_ids(t.unique_blocks);
    lemma_places(t.unique_blocks, id);
    if !ids.contains(id) {
        assert(!ids.to_multiset().contains(id));
    }
}

/// Where there is no slot, the request that has been decoded longest is preempted, whoever's turn it
/// was: it gives up its blocks, waits behind all others, and asks for its blocks again. The others
/// keep their order; no request has got a token.
pub proof fn lemma_oldest_is_preempted<B: KvBackend>(
    before: SchedState,
    kv_before: B,
    uuid: u128,
    token: u32,
    hash: u64,
    block: UniqueBlock,
    after: SchedState,
    kv_after: B,
    r: DecodeOutcome,
)
    requires
        before.wf(),
        before.active_tokens > 0,
        decode::turn(before, kv_before, uuid, token, hash, block, after, kv_after, r),
        r is Preempted,
    ensures
        ({
            let oldest = before.decode[0];
            let s = before.requests[oldest]->sequence;
            &&& r == DecodeOutcome::Preempted { uuid: oldest }
            &&& after.decode == before.decode.subrange(1, before.decode.len() as int)
            &&& after.waiting == before.waiting.push(oldest)
            &&& after.prefill == before.prefill
            &&& after.active_tokens == before.active_tokens - 1
            &&& after.waiting_tokens == before.waiting_tokens
            &&& after.requests.dom() == before.requests.dom()
            &&& forall|k: u128| #[trigger]
                before.requests.contains_key(k) && k != uuid && k != oldest ==> after.requests[k]
                    == before.requests[k]
            &&& after.requests[uuid] is Active
            &&& after.requests[uuid]->sequence.tokens == before.requests[uuid]->sequence.tokens
            &&& after.requests[uuid]->sequence.generated_tokens
                == before.requests[uuid]->sequence.generated_tokens
            &&& after.requests[oldest] matches RequestState::Active { sequence: t } && {
                &&& t.tokens == s.tokens
                &&& t.generated_tokens == s.generated_tokens
                &&& t.decode_block_reads == s.decode_block_reads
                &&& t.creation_signal is Some
                &&& sequence_signals::asks_for(
                    t.creation_signal->0,
                    t.unique_blocks,
                    t.tokens,
                    t.block_size,
                    t.emit_token_ids,
                )
                &&& exists|mid: B| #[trigger] signals::ran(mid, t.free_signals(), kv_after)
            }
        }),
{
    let oldest = before.decode[0];
    assert(before.decode.contains(oldest));
    assert(before.queued(oldest));
    assert(before.queued(uuid));
    assert(before.requests.contains_key(uuid));
    assert(before.requests.contains_key(oldest));
    let s = before.sequence(uuid);
    let reverted = before.with_sequence(uuid, s.pushed(token, hash, block).popped());
    assert(s.pushed(token, hash, block).tokens.drop_last() =~= s.tokens);
    sequence_signals::lemma_reset_asks_again(reverted.sequence(oldest));
    assert(after.sequence(oldest).free_signals() =~= reverted.sequence(oldest).free_signals());
    assert(before.decode.drop_first() =~= before.decode.subrange(1, before.decode.len() as int));
    assert(after.requests.dom() =~= before.requests.dom());
}

/// Signals are processed one after the other: processing one is what the KV manager does with it,
/// and processing two lists is processing the first, then the second.
pub proof fn lemma_signals_run_in_order<B: KvBackend>(
    before: B,
    signal: Signal,
    a: Seq<Signal>,
    b: Seq<Signal>,
    after: B,
)
    ensures
        signals::ran(before, Seq::empty(), after) <==> after == before,
        signals::ran(before, seq![signal], after) <==> before.leads_to(signal, &after, true),
        signals::ran_short(before, seq![signal], after) <==> before.leads_to(
            signal,
            &after,
            false,
        ),
        signals::ran(before, a + b, after) <==> exists|mid: B| #[trigger]
            signals::ran(before, a, mid) && signals::ran(mid, b, after),
{
    let one = seq![signal];
    assert(one.drop_last() =~= Seq::empty());
    assert(one.last() == signal);
    assert(signals::ran(before, Seq::empty(), before));
    if before.leads_to(signal, &after, true) {
        assert(signals::ran(before, one.drop_last(), before));
        assert(before.leads_to(one.last(), &after, true));
    }
    if before.leads_to(signal, &after, false) {
        assert(signals::ran(before, one.drop_last(), before));
        assert(before.leads_to(one.last(), &after, false));
    }
    if signals::ran(before, one, after) {
        let mid = choose|mid: B|
            signals::ran(before, one.drop_last(), mid) && #[trigger] mid.leads_to(
                one.last(),
                &after,
                true,
            );
        assert(signals::ran(before, Seq::empty(), mid));
    }
    if signals::ran_short(before, one, after) {
        let mid = choose|mid: B|
            signals::ran(before, one.drop_last(), mid) && #[trigger] mid.leads_to(
                one.last(),
                &after,
                false,
            );
        assert(signals::ran(before, Seq::empty(), mid));
    }
    lemma_ran_concat(before, a, b, after);
}

/// Processing two lists.
proof fn lemma_ran_concat<B: KvBackend>(before: B, a: Seq<Signal>, b: Seq<Signal>, after: B)
    ensures
        signals::ran(before, a + b, after) <==> exists|mid: B| #[trigger]
            signals::ran(before, a, mid) && signals::ran(mid, b, after),
    decreases b.len(),
{
    let both = a + b;
    if b.len() == 0 {
        assert(both =~= a);
        if signals::ran(before, a, after) {
            assert(signals::ran(after, b, after));
        }
    } else {
        let rest = b.drop_last();
        assert(both.drop_last() =~= a + rest);
        assert(both.last() == b.last());
        if signals::ran(before, both, after) {
            let last = choose|last: B|
                signals::ran(before, both.drop_last(), last) && #[trigger] last.leads_to(
                    both.last(),
                    &after,
                    true,
                );
            lemma_ran_concat(before, a, rest, last);
            let mid = choose|mid: B| #[trigger]
                signals::ran(before, a, mid) && signals::ran(mid, rest, last);
            assert(last.leads_to(b.last(), &after, true));
            assert(signals::ran(mid, b, after));
        }
        if exists|mid: B| #[trigger]
            signals::ran(before, a, mid) && signals::ran(mid, b, after) {
            let mid = choose|mid: B| #[trigger]
                signals::ran(before, a, mid) && signals::ran(mid, b, after);
            let last = choose|last: B|
                signals::ran(mid, rest, last) && #[trigger] last.leads_to(b.last(), &after, true);
            assert(signals::ran(mid, rest, last));
            lemma_ran_concat(before, a, rest, last);
            assert(signals::ran(before, both.drop_last(), last));
            assert(last.leads_to(both.last(), &after, true));
        }
    }
}

} // verus!
