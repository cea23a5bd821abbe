//! The decode phase.

use vstd::prelude::*;
use crate::common::protocols::{Signal, UniqueBlock};
use crate::common::random;
use crate::common::sequence_model;
use crate::common::sequence_model::SequenceState;
use crate::kv_manager::accounting;
use crate::kv_manager::KvBackend;
use crate::scheduler::ledger;
use crate::scheduler::model;
use crate::scheduler::model::{RequestState, SchedState};
use crate::scheduler::order;
use crate::scheduler::order::STEP_HEADROOM;
use crate::scheduler::prefill;
use crate::scheduler::queues;
use crate::scheduler::signals;
use crate::scheduler::state::SchedulerState;
use crate::scheduler::summary::DecodeReadReport;

verus! {

broadcast use {vstd::set::group_set_axioms, vstd::map::group_map_axioms};

/// What came of the turn of a request.
#[derive(Clone, Copy, Debug, PartialEq, Eq, Structural)]
pub enum DecodeOutcome {
    /// The request is not decoded any more.
    Skipped,
    /// A token was generated; the request is complete or not.
    Generated { completed: bool },
    /// There was no slot for a new block: no token was generated, and the given request has to
    /// wait for its blocks again.
    Preempted { uuid: u128 },
    /// The random id of the new block is in use: nothing was done.
    BlockInUse,
}

/// The sequence after a token was generated, with the reads of its complete blocks.
pub open spec fn with_token(
    s: SequenceState,
    token: u32,
    hash: u64,
    block: UniqueBlock,
) -> SequenceState {
    let t = s.pushed(token, hash, block);
    SequenceState {
        decode_block_reads: sequence_model::add_reads(
            t.decode_block_reads,
            sequence_model::full_ids(t.unique_blocks),
        ),
        ..t
    }
}

/// The turn of request `uuid`, where the token and the ids of blocks are given: what comes of it,
/// and what the scheduler and the KV manager are then.
pub open spec fn turn<B: KvBackend>(
    before: SchedState,
    kv_before: B,
    uuid: u128,
    token: u32,
    hash: u64,
    block: UniqueBlock,
    after: SchedState,
    kv_after: B,
    r: DecodeOutcome,
) -> bool {
    let s = before.sequence(uuid);
    let pushes = s.push_signals(token, hash, block);
    if !before.decode.contains(uuid) {
        r == DecodeOutcome::Skipped && after == before && kv_after == kv_before
    } else if s.starts_block() && kv_before.active().contains_key(block) {
        r == DecodeOutcome::BlockInUse && after == before && kv_after == kv_before
    } else if signals::all_fit(kv_before.active(), pushes, kv_before.capacity()) {
        &&& r == DecodeOutcome::Generated {
            completed: s.generated_tokens + 1 == s.max_output_tokens,
        }
        &&& after == before.with_sequence(uuid, with_token(s, token, hash, block))
        &&& signals::ran(kv_before, s.generate_signals(token, hash, block), kv_after)
    } else {
        let reverted = before.with_sequence(uuid, s.pushed(token, hash, block).popped());
        &&& r == DecodeOutcome::Preempted { uuid: before.decode[0] }
        &&& after == reverted.preempted()
        &&& exists|mid: B| #[trigger]
            signals::ran_short(kv_before, pushes, mid) && signals::ran(
                mid,
                reverted.sequence(before.decode[0]).free_signals(),
                kv_after,
            )
    }
}

/// The signals of a generated token ask for no more blocks than those of an added one.
proof fn lemma_frees_fit(
    active: Map<UniqueBlock, nat>,
    pushes: Seq<Signal>,
    blocks: Seq<UniqueBlock>,
    capacity: nat,
)
    ensures
        signals::all_fit(active, pushes + ledger::frees(blocks), capacity) <==> signals::all_fit(
            active,
            pushes,
            capacity,
        ),
{
    let all = pushes + ledger::frees(blocks);
    if signals::all_fit(active, all, capacity) {
        assert forall|i: int| 0 <= i < pushes.len() implies !#[trigger] signals::refused_at(
            active,
            pushes,
            capacity,
            i,
        ) by {
            assert(all.take(i) =~= pushes.take(i));
            assert(!signals::refused_at(active, all, capacity, i));
        }
    }
    if signals::all_fit(active, pushes, capacity) {
        assert forall|i: int| 0 <= i < all.len() implies !#[trigger] signals::refused_at(
            active,
            all,
            capacity,
            i,
        ) by {
            if i < pushes.len() {
                assert(all.take(i) =~= pushes.take(i));
                assert(!signals::refused_at(active, pushes, capacity, i));
            } else {
                assert(all[i] == ledger::frees(blocks)[i - pushes.len()]);
            }
        }
    }
}

/// Giving up the blocks of a sequence keeps its complete blocks for reuse, and no others.
proof fn lemma_frees_release(blocks: Seq<UniqueBlock>, b: UniqueBlock)
    requires
        signals::release(ledger::frees(blocks), b),
    ensures
        b is FullBlock,
{
    let frees = ledger::frees(blocks);
    let i = choose|i: int|
        0 <= i < frees.len() && accounting::releases(#[trigger] frees[i], b);
    assert(frees[i] == sequence_model::free_block(blocks[blocks.len() - 1 - i]));
}

/// The signals of a generated token keep complete blocks for reuse, and no others.
proof fn lemma_generate_release(
    s: SequenceState,
    token: u32,
    hash: u64,
    block: UniqueBlock,
    b: UniqueBlock,
)
    requires
        signals::release(s.generate_signals(token, hash, block), b),
    ensures
        b is FullBlock,
{
    let all = s.generate_signals(token, hash, block);
    let pushes = s.push_signals(token, hash, block);
    let t = s.pushed(token, hash, block);
    let i = choose|i: int| 0 <= i < all.len() && accounting::releases(#[trigger] all[i], b);
    assert(t.free_signals() =~= ledger::frees(t.unique_blocks));
    if i < pushes.len() {
        assert(all[i] == pushes[i]);
    } else {
        assert(all[i] == t.free_signals()[i - pushes.len()]);
        lemma_frees_release(t.unique_blocks, b);
    }
}

/// All signals of a generated token: in order, affordable, and what they leave.
proof fn lemma_generate(
    active: Map<UniqueBlock, nat>,
    present: Set<UniqueBlock>,
    s: SequenceState,
    token: u32,
    hash: u64,
    block: UniqueBlock,
    rest: Map<u128, RequestState>,
    capacity: nat,
)
    requires
        accounting::counted(active),
        active.dom().subset_of(present),
        ledger::backed(active, s.unique_blocks, rest),
        model::sustainable(s),
        model::can_go_on(s),
        s.generated_tokens < s.max_output_tokens,
        s.creation_signal is None,
        block is PartialBlock,
        s.starts_block() ==> !present.contains(block),
    ensures
        ({
            let all = s.generate_signals(token, hash, block);
            let t = s.pushed(token, hash, block);
            let after = accounting::applied_all(active, all);
            let completed = t.generated_tokens == t.max_output_tokens;
            &&& accounting::sound_all(active, present, all)
            &&& accounting::cost_all(all) <= 0x100_0006
            &&& completed ==> ledger::balanced(after, rest)
            &&& !completed ==> ledger::backed(after, t.unique_blocks, rest)
            &&& signals::all_fit(active, all, capacity) <==> signals::all_fit(
                active,
                s.push_signals(token, hash, block),
                capacity,
            )
        }),
{
    let t = s.pushed(token, hash, block);
    let pushes = s.push_signals(token, hash, block);
    let all = s.generate_signals(token, hash, block);
    let mid = accounting::applied_all(active, pushes);
    order::lemma_pushed(s, token, hash, block);
    order::lemma_most_blocks(t);
    ledger::lemma_push(active, present, s, token, hash, block, rest);
    if t.generated_tokens == t.max_output_tokens {
        assert(t.free_signals() =~= ledger::frees(t.unique_blocks));
        assert(all == pushes + ledger::frees(t.unique_blocks));
        ledger::lemma_free_all(mid, t.unique_blocks, rest);
        accounting::lemma_sound_all_add(active, present, pushes, ledger::frees(t.unique_blocks));
        accounting::lemma_applied_all_add(active, pushes, ledger::frees(t.unique_blocks));
        accounting::lemma_cost_all_add(pushes, ledger::frees(t.unique_blocks));
        lemma_frees_fit(active, pushes, t.unique_blocks, capacity);
    }
}

/// Where the signals of a generated token stop, the sequence holds what it holds without the token.
proof fn lemma_stopped(
    active: Map<UniqueBlock, nat>,
    present: Set<UniqueBlock>,
    s: SequenceState,
    token: u32,
    hash: u64,
    block: UniqueBlock,
    rest: Map<u128, RequestState>,
    capacity: nat,
    i: int,
)
    requires
        accounting::counted(active),
        active.dom().subset_of(present),
        ledger::backed(active, s.unique_blocks, rest),
        model::sustainable(s),
        model::can_go_on(s),
        s.generated_tokens < s.max_output_tokens,
        s.creation_signal is None,
        block is PartialBlock,
        s.starts_block() ==> !present.contains(block),
        signals::stops_at(active, s.generate_signals(token, hash, block), capacity, i),
    ensures
        ledger::backed(
            accounting::applied_all(active, s.generate_signals(token, hash, block).take(i)),
            s.pushed(token, hash, block).popped().unique_blocks,
            rest,
        ),
        signals::is_generation(s.generate_signals(token, hash, block)[i]),
        s.generate_signals(token, hash, block).take(i + 1) == s.push_signals(token, hash, block),
{
    let t = s.pushed(token, hash, block);
    let pushes = s.push_signals(token, hash, block);
    let all = s.generate_signals(token, hash, block);
    ledger::lemma_push(active, present, s, token, hash, block, rest);
    if i >= pushes.len() {
        assert(all == pushes + t.free_signals());
        assert(all[i] == t.free_signals()[i - pushes.len()]);
        assert(all[i] is Destroy || all[i] is Deref);
    }
    assert(all.take(i) =~= pushes.take(i));
    assert(all[i] == pushes[i]);
    if pushes.len() == 2 && i == 0 {
        assert(pushes[0] is Promote);
    }
    assert(all.take(i + 1) =~= pushes);
    if pushes.len() == 2 && i == 1 {
        assert(pushes.take(1) =~= seq![pushes[0]]);
        reveal_with_fuel(accounting::applied_all, 2);
        assert(seq![pushes[0]].drop_first() =~= Seq::empty());
    } else {
        assert(i == 0);
        assert(pushes.take(0) =~= Seq::empty());
        if pushes.len() == 2 {
            assert(pushes[0] is Promote);
        }
    }
}

/// What is left for making room after a generated token.
const PREEMPT_HEADROOM: u64 = 0x100_000a;

/// Makes the longest running request wait for its blocks again, and gives them up.
fn preempt_oldest<B: KvBackend>(state: &mut SchedulerState, kv_manager: &mut B) -> (r: u128)
    requires
        order::in_order(*old(state), *old(kv_manager)),
        old(state)@.decode.len() > 0,
        old(state)@.active_tokens == old(state)@.decode.len(),
        old(kv_manager).headroom(PREEMPT_HEADROOM as nat),
    ensures
        r == old(state)@.decode[0],
        final(state)@ == old(state)@.preempted(),
        signals::ran(
            *old(kv_manager),
            old(state)@.sequence(r).free_signals(),
            *final(kv_manager),
        ),
        order::in_order(*final(state), *final(kv_manager)),
        final(state)@.active_tokens == final(state)@.decode.len(),
        final(kv_manager).capacity() == old(kv_manager).capacity(),
        final(kv_manager).tokens_per_block() == old(kv_manager).tokens_per_block(),
        forall|n: nat| #[trigger]
            old(kv_manager).headroom(n + PREEMPT_HEADROOM as nat) ==> final(kv_manager).headroom(n),
{
    let ghost before = state@;
    let ghost first = *kv_manager;
    let ghost oldest = before.decode[0];
    let ghost s = before.sequence(oldest);
    let ghost rest = before.requests.remove(oldest);
    proof {
        state.lemma_wf();
        first.lemma_valid();
        queues::lemma_preempted(before);
        queues::lemma_drop_first(before.decode);
        assert(before.requests[oldest] == RequestState::Active { sequence: s });
        assert(model::sustainable(s));
        ledger::lemma_balanced_split(first.active(), before.requests, oldest);
        ledger::lemma_free_all(first.active(), s.unique_blocks, rest);
        assert(s.free_signals() =~= ledger::frees(s.unique_blocks));
        accounting::lemma_sound_all_fewer(
            first.active(),
            Set::full(),
            first.present(),
            s.free_signals(),
        );
        order::lemma_most_blocks(s);
        first.lemma_headroom(
            PREEMPT_HEADROOM as nat,
            accounting::cost_all(s.free_signals()),
        );
        lemma_frees_fit(first.active(), Seq::empty(), s.unique_blocks, first.capacity());
        assert(Seq::<Signal>::empty() + ledger::frees(s.unique_blocks) =~= s.free_signals());
        signals::lemma_acceptable(first, s.free_signals());
    }
    let uuid = state.decode_keys()[0];
    let signals = match state.preempt() {
        Some(signals) => signals,
        None => Vec::new(),
    };
    let _ = signals::process_signals(kv_manager, &signals);
    proof {
        assert forall|n: nat| #[trigger] first.headroom(n + PREEMPT_HEADROOM as nat) implies
            kv_manager.headroom(n) by {
            first.lemma_headroom(
                n + PREEMPT_HEADROOM as nat,
                n + accounting::cost_all(s.free_signals()),
            );
        }
        assert forall|b: UniqueBlock| #[trigger] kv_manager.reusable().contains(b) implies b
            is FullBlock by {
            if signals::release(s.free_signals(), b) {
                lemma_frees_release(s.unique_blocks, b);
            }
        }
        let request = RequestState::Active { sequence: s.reset() };
        assert(request.footprint() =~= Seq::empty());
        assert(rest.dom() =~= before.requests.dom().remove(oldest));
        ledger::lemma_balanced_same(kv_manager.active(), rest, oldest, request);
        order::lemma_change(rest, oldest, s.reset(), kv_manager.tokens_per_block());
        order::lemma_change(before.requests, oldest, s, kv_manager.tokens_per_block());
        assert(state@.requests =~= rest.insert(oldest, request));
    }
    uuid
}

/// The turn of a request in a pass over the requests that are decoded: a token is generated. The
/// token, and the ids that a block completed by it and a block started by it get where the contents
/// do not decide, are given.
pub fn decode_step_drawn<B: KvBackend>(
    state: &mut SchedulerState,
    kv_manager: &mut B,
    uuid: u128,
    token: u32,
    hash: u64,
    block: UniqueBlock,
) -> (r: DecodeOutcome)
    requires
        order::in_order(*old(state), *old(kv_manager)),
        old(state)@.decode.contains(uuid) ==> model::can_go_on(old(state)@.sequence(uuid)),
        old(state)@.active_tokens == old(state)@.decode.len(),
        old(kv_manager).headroom(STEP_HEADROOM as nat),
        block is PartialBlock,
    ensures
        turn(
            old(state)@,
            *old(kv_manager),
            uuid,
            token,
            hash,
            block,
            final(state)@,
            *final(kv_manager),
            r,
        ),
        match r {
            DecodeOutcome::Generated { completed } => order::generated(
                *final(state),
                *final(kv_manager),
                uuid,
                completed,
            ),
            _ => order::in_order(*final(state), *final(kv_manager)),
        },
        final(state)@.active_tokens == final(state)@.decode.len(),
        final(kv_manager).capacity() == old(kv_manager).capacity(),
        final(kv_manager).tokens_per_block() == old(kv_manager).tokens_per_block(),
        forall|n: nat| #[trigger]
            old(kv_manager).headroom(n + STEP_HEADROOM as nat) ==> final(kv_manager).headroom(n),
{
    let ghost before = state@;
    let ghost first = *kv_manager;
    proof {
        assert forall|n: nat| #[trigger] first.headroom(n + STEP_HEADROOM as nat) implies
            first.headroom(n) by {
            first.lemma_headroom(n + STEP_HEADROOM as nat, n);
        }
        state.lemma_wf();
        first.lemma_valid();
    }
    let starts_block = match state.running(uuid) {
        Some(sequence) => {
            proof {
                assert(before.queued(uuid));
                assert(before.requests.contains_key(uuid));
                order::lemma_pushed(sequence@, token, hash, block);
            }
            (sequence.len() + 1) % sequence.block_size() == 1
        },
        None => {
            return DecodeOutcome::Skipped;
        },
    };
    if starts_block && prefill::is_in_use(kv_manager, block) {
        return DecodeOutcome::BlockInUse;
    }
    let mut sequence = match state.run(uuid) {
        Some(sequence) => sequence,
        None => {
            return DecodeOutcome::Skipped;
        },
    };
    let ghost s = sequence@;
    let ghost t = s.pushed(token, hash, block);
    let ghost rest = before.requests.remove(uuid);
    let ghost all = s.generate_signals(token, hash, block);
    let signals = sequence.generate_drawn(token, hash, block);
    proof {
        assert(before.requests[uuid] == RequestState::Active { sequence: s });
        ledger::lemma_balanced_split(first.active(), before.requests, uuid);
        assert(before.requests[uuid].footprint() == s.unique_blocks);
        lemma_generate(
            first.active(),
            first.present(),
            s,
            token,
            hash,
            block,
            rest,
            first.capacity(),
        );
        first.lemma_headroom(STEP_HEADROOM as nat, accounting::cost_all(all));
        signals::lemma_acceptable(first, all);
        assert forall|i: int| #[trigger]
            signals::stops_at(first.active(), all, first.capacity(), i) implies
            signals::is_generation(all[i]) by {
            lemma_stopped(
                first.active(),
                first.present(),
                s,
                token,
                hash,
                block,
                rest,
                first.capacity(),
                i,
            );
        }
    }
    let processed = signals::process_signals(kv_manager, &signals);
    proof {
        assert forall|b: UniqueBlock| #[trigger] kv_manager.reusable().contains(b) implies b
            is FullBlock by {
            if signals::release(all, b) {
                lemma_generate_release(s, token, hash, block, b);
            }
        }
        assert forall|n: nat| #[trigger] first.headroom(n + STEP_HEADROOM as nat) implies
            kv_manager.headroom(n + PREEMPT_HEADROOM as nat) by {
            first.lemma_headroom(
                n + STEP_HEADROOM as nat,
                n + PREEMPT_HEADROOM as nat + accounting::cost_all(all),
            );
        }
        assert(first.headroom(0 + STEP_HEADROOM as nat));
        assert(kv_manager.headroom(0 + PREEMPT_HEADROOM as nat));
    }
    if !processed {
        // No slot for the new block: revert the failed generation, and make room.
        sequence.pop();
        let ghost popped = sequence@;
        proof {
            let i = choose|i: int| #[trigger]
                signals::stops_at(first.active(), all, first.capacity(), i)
                    && signals::is_generation(all[i]) && kv_manager.active()
                    == accounting::applied_all(first.active(), all.take(i)) && signals::ran_short(
                    first,
                    all.take(i + 1),
                    *kv_manager,
                );
            lemma_stopped(
                first.active(),
                first.present(),
                s,
                token,
                hash,
                block,
                rest,
                first.capacity(),
                i,
            );
            order::lemma_popped(s, token, hash, block);
            queues::lemma_with_sequence(before, uuid, popped);
            assert(rest.insert(uuid, RequestState::Active { sequence: popped })
                =~= before.with_sequence(uuid, popped).requests);
        }
        state.resume(uuid, sequence);
        let ghost mid = state@;
        proof {
            assert(mid == before.with_sequence(uuid, popped));
            order::lemma_change(before.requests, uuid, popped, kv_manager.tokens_per_block());
            assert(mid.requests.remove(uuid) =~= rest);
            ledger::lemma_balanced_split(kv_manager.active(), mid.requests, uuid);
        }
        let ghost short = *kv_manager;
        assert(signals::ran_short(first, s.push_signals(token, hash, block), short));
        let oldest = preempt_oldest(state, kv_manager);
        return DecodeOutcome::Preempted { uuid: oldest };
    }
    // Record reads for every full block visible to attention after this decode step. Once decode
    // grows beyond the prompt-only prefix, decode-generated full blocks accumulate fewer reads than
    // older prompt blocks, which makes the trace informative.
    let full_block_hashes = sequence.full_block_ids();
    sequence.record_decode_block_reads(full_block_hashes);
    let completed = sequence.generated_tokens() >= sequence.max_output_tokens();
    let ghost read = sequence@;
    proof {
        assert(read == with_token(s, token, hash, block));
        queues::lemma_with_sequence(before, uuid, read);
        assert(rest.insert(uuid, RequestState::Active { sequence: read })
            =~= before.with_sequence(uuid, read).requests);
    }
    state.resume(uuid, sequence);
    proof {
        let after = state@;
        assert(after == before.with_sequence(uuid, read));
        order::lemma_change(before.requests, uuid, read, kv_manager.tokens_per_block());
        assert(after.requests.remove(uuid) =~= rest);
        ledger::lemma_balanced_split(kv_manager.active(), after.requests, uuid);
        assert forall|n: nat| #[trigger] first.headroom(n + STEP_HEADROOM as nat) implies
            kv_manager.headroom(n) by {
            assert(kv_manager.headroom(n + PREEMPT_HEADROOM as nat));
            kv_manager.lemma_headroom(n + PREEMPT_HEADROOM as nat, n);
        }
    }
    DecodeOutcome::Generated { completed }
}

/// The turn of a request in a pass over the requests that are decoded: a random token is generated,
/// and blocks get random ids where the contents do not decide.
pub fn decode_step<B: KvBackend>(state: &mut SchedulerState, kv_manager: &mut B, uuid: u128) -> (r:
    DecodeOutcome)
    requires
        order::in_order(*old(state), *old(kv_manager)),
        old(state)@.decode.contains(uuid) ==> model::can_go_on(old(state)@.sequence(uuid)),
        old(state)@.active_tokens == old(state)@.decode.len(),
        old(kv_manager).headroom(STEP_HEADROOM as nat),
    ensures
        exists|token: u32, hash: u64, block: UniqueBlock|
            block is PartialBlock && #[trigger] turn(
                old(state)@,
                *old(kv_manager),
                uuid,
                token,
                hash,
                block,
                final(state)@,
                *final(kv_manager),
                r,
            ),
        match r {
            DecodeOutcome::Generated { completed } => order::generated(
                *final(state),
                *final(kv_manager),
                uuid,
                completed,
            ),
            _ => order::in_order(*final(state), *final(kv_manager)),
        },
        final(state)@.active_tokens == final(state)@.decode.len(),
        final(kv_manager).capacity() == old(kv_manager).capacity(),
        final(kv_manager).tokens_per_block() == old(kv_manager).tokens_per_block(),
        forall|n: nat| #[trigger]
            old(kv_manager).headroom(n + STEP_HEADROOM as nat) ==> final(kv_manager).headroom(n),
{
    let token = random::random_token();
    let hash = random::random_hash();
    let block = random::random_partial_block();
    let r = decode_step_drawn(state, kv_manager, uuid, token, hash, block);
    assert(turn(
        old(state)@,
        *old(kv_manager),
        uuid,
        token,
        hash,
        block,
        state@,
        *kv_manager,
        r,
    ));
    r
}

/// The state once the turn of a request for which a token was generated has ended; the request is
/// done if it is complete or its tokens cannot be sent.
pub open spec fn ended(s: SchedState, uuid: u128, done: bool) -> SchedState {
    if done {
        s.completed(uuid)
    } else {
        s
    }
}

/// Ends the turn of a request for which a token was generated, once the token has been sent. A
/// request that is complete is removed; so is one whose tokens cannot be sent, after its blocks
/// have been given up. What was read of the blocks of a removed request is returned.
pub fn finish_decode<B: KvBackend>(
    state: &mut SchedulerState,
    kv_manager: &mut B,
    uuid: u128,
    completed: bool,
    send_failed: bool,
) -> (r: Option<DecodeReadReport>)
    requires
        order::generated(*old(state), *old(kv_manager), uuid, completed),
        !(completed && send_failed),
        old(state)@.active_tokens == old(state)@.decode.len(),
        old(kv_manager).headroom(STEP_HEADROOM as nat),
    ensures
        order::in_order(*final(state), *final(kv_manager)),
        final(state)@.active_tokens == final(state)@.decode.len(),
        final(kv_manager).capacity() == old(kv_manager).capacity(),
        final(kv_manager).tokens_per_block() == old(kv_manager).tokens_per_block(),
        forall|n: nat| #[trigger]
            old(kv_manager).headroom(n + STEP_HEADROOM as nat) ==> final(kv_manager).headroom(n),
        ({
            let s = old(state)@.sequence(uuid);
            match r {
                Some(report) => {
                    &&& completed || send_failed
                    &&& report.tells(
                        uuid,
                        s.block_size,
                        s.num_input_tokens,
                        sequence_model::full_ids(s.unique_blocks),
                        s.decode_block_reads,
                    )
                    &&& final(state)@ == ended(old(state)@, uuid, true)
                    &&& if send_failed {
                        signals::ran(*old(kv_manager), s.free_signals(), *final(kv_manager))
                    } else {
                        *final(kv_manager) == *old(kv_manager)
                    }
                },
                None => {
                    &&& !completed && !send_failed
                    &&& final(state)@ == ended(old(state)@, uuid, false)
                    &&& *final(kv_manager) == *old(kv_manager)
                },
            }
        }),
{
    let ghost before = state@;
    let ghost first = *kv_manager;
    let ghost s = before.sequence(uuid);
    let ghost rest = before.requests.remove(uuid);
    proof {
        assert forall|n: nat| #[trigger] first.headroom(n + STEP_HEADROOM as nat) implies
            first.headroom(n) by {
            first.lemma_headroom(n + STEP_HEADROOM as nat, n);
        }
        state.lemma_wf();
        first.lemma_valid();
        queues::lemma_completed(before, uuid);
        assert(before.requests[uuid] == RequestState::Active { sequence: s });
        assert(model::sustainable(s));
        order::lemma_change(before.requests, uuid, s, first.tokens_per_block());
    }
    if !completed && !send_failed {
        proof {
            assert forall|k: u128| #[trigger] before.requests.contains_key(k) implies (
            match before.requests[k] {
                RequestState::Direct { .. } => true,
                RequestState::Active { sequence } => sequence.generated_tokens
                    < sequence.max_output_tokens,
            }) by {
                assert(k != uuid ==> rest.contains_key(k));
            }
        }
        return None;
    }
    let mut sequence = match state.run(uuid) {
        Some(sequence) => sequence,
        None => {
            return None;
        },
    };
    if send_failed {
        let signals = sequence.free_signal();
        proof {
            ledger::lemma_balanced_split(first.active(), before.requests, uuid);
            ledger::lemma_free_all(first.active(), s.unique_blocks, rest);
            assert(s.free_signals() =~= ledger::frees(s.unique_blocks));
            accounting::lemma_sound_all_fewer(
                first.active(),
                Set::full(),
                first.present(),
                s.free_signals(),
            );
            order::lemma_most_blocks(s);
            first.lemma_headroom(STEP_HEADROOM as nat, accounting::cost_all(s.free_signals()));
            lemma_frees_fit(first.active(), Seq::empty(), s.unique_blocks, first.capacity());
            assert(Seq::<Signal>::empty() + ledger::frees(s.unique_blocks) =~= s.free_signals());
            signals::lemma_acceptable(first, s.free_signals());
        }
        let _ = signals::process_signals(kv_manager, &signals);
        proof {
            assert forall|b: UniqueBlock| #[trigger] kv_manager.reusable().contains(b) implies b
                is FullBlock by {
                if signals::release(s.free_signals(), b) {
                    lemma_frees_release(s.unique_blocks, b);
                }
            }
            assert forall|n: nat| #[trigger] first.headroom(n + STEP_HEADROOM as nat) implies
                kv_manager.headroom(n) by {
                first.lemma_headroom(
                    n + STEP_HEADROOM as nat,
                    n + accounting::cost_all(s.free_signals()),
                );
            }
        }
    }
    // Emit a single report with ordered per-block decode read totals.
    let ids = sequence.full_block_ids();
    let reads = sequence.take_decode_block_reads();
    let report = DecodeReadReport::new(
        uuid,
        sequence.block_size(),
        sequence.num_input_tokens(),
        ids,
        reads,
    );
    let ghost left = sequence@;
    proof {
        assert(left.faithful()) by {
            assert forall|i: int|
                #![trigger left.unique_blocks[i]]
                0 <= i < left.unique_blocks.len() && left.unique_blocks[i] is FullBlock implies i
                < left.tokens.len() / left.block_size by {
                assert(s.unique_blocks[i] is FullBlock);
            }
        }
        assert(model::sustainable(left));
        queues::lemma_with_sequence(before, uuid, left);
        assert(rest.insert(uuid, RequestState::Active { sequence: left }) =~= before.with_sequence(
            uuid,
            left,
        ).requests);
    }
    state.resume(uuid, sequence);
    state.complete(uuid);
    proof {
        assert(state@.requests =~= rest);
        assert(state@ =~= before.completed(uuid));
    }
    Some(report)
}

/// How much a pass over the requests that are decoded has to do.
#[derive(Clone, Copy, Debug, PartialEq, Eq, Structural)]
pub struct DecodeLoad {
    /// The number of tokens that the blocks in use have room for.
    pub active_kv_tokens: usize,
    /// The average number of tokens of a request.
    pub context_length: usize,
}

/// The number of tokens of a request.
pub open spec fn lengths(s: SchedState) -> spec_fn(u128) -> nat {
    |k: u128| s.requests[k].len()
}

/// The average number of tokens of the requests that are decoded.
pub open spec fn context_length(s: SchedState) -> nat {
    if s.decode.len() > 0 {
        model::sum_over(s.decode, lengths(s)) / s.decode.len()
    } else {
        0
    }
}

/// Measures what a pass over the requests that are decoded has to do.
pub fn decode_load<B: KvBackend>(state: &SchedulerState, kv_manager: &B) -> (r: DecodeLoad)
    requires
        state.wf(),
        kv_manager.valid(),
        kv_manager.active().dom().len() * kv_manager.tokens_per_block() <= usize::MAX,
        model::sum_over(state@.decode, lengths(state@)) <= usize::MAX,
    ensures
        r.active_kv_tokens == kv_manager.active().dom().len() * kv_manager.tokens_per_block(),
        r.context_length == context_length(state@),
{
    let active_kv_tokens = kv_manager.num_active_blocks() * kv_manager.block_size();
    let uuids = state.decode_keys();
    let count = uuids.len();
    let ghost f = lengths(state@);
    let mut total_length: usize = 0;
    let mut i: usize = 0;
    while i < count
        invariant
            i <= count,
            state.wf(),
            count == uuids@.len(),
            uuids@ == state@.decode,
            f == lengths(state@),
            model::sum_over(uuids@, f) <= usize::MAX,
            total_length == model::sum_over(uuids@.take(i as int), f),
        decreases count - i,
    {
        proof {
            state.lemma_wf();
            assert(uuids@.take(i + 1).drop_last() =~= uuids@.take(i as int));
            model::lemma_sum_take(uuids@, i + 1, f);
            assert(state@.decode.contains(uuids@[i as int]));
        }
        let length = match state.running(uuids[i]) {
            Some(sequence) => sequence.len(),
            None => 0,
        };
        total_length = total_length + length;
        i += 1;
    }
    assert(uuids@.take(i as int) =~= uuids@);
    let context_length: usize = if count > 0 {
        total_length / count
    } else {
        0
    };
    DecodeLoad { active_kv_tokens, context_length }
}

/// Starts a pass over the requests that are decoded: each costs one token. Returns the requests,
/// the longest running one first.
pub fn start_decode(state: &mut SchedulerState) -> (r: Vec<u128>)
    ensures
        old(state).wf() ==> final(state).wf(),
        final(state)@ == old(state)@.tokens_reset(),
        r@ == old(state)@.decode,
{
    state.reset_active_tokens();
    state.decode_keys()
}

} // verus!
