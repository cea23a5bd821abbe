//! The prefill phase.

use vstd::prelude::*;
use crate::common::protocols::{MoveBlock, PrefillCost, UniqueBlock};
use crate::common::sequence_model;
use crate::common::sequence_model::SequenceState;
use crate::kv_manager::accounting;
use crate::kv_manager::KvBackend;
use crate::scheduler::ledger;
use crate::scheduler::model;
use crate::scheduler::model::{RequestState, SchedState};
use crate::scheduler::order;
use crate::scheduler::order::STEP_HEADROOM;
use crate::scheduler::queues;
use crate::scheduler::signals;
use crate::scheduler::state::SchedulerState;
use crate::scheduler::summary::PrefillReadReport;

verus! {

broadcast use {vstd::set::group_set_axioms, vstd::map::group_map_axioms};

/// Why the blocks of a prompt could not be provided.
#[derive(Clone, Copy, Debug, PartialEq, Eq, Structural)]
pub enum PrefillError {
    /// There are not enough slots. Block allocation for prefilling cannot fail as long as requests
    /// are scheduled within the budget of blocks.
    OutOfBlocks,
    /// The random id of the partial block of the request is in use.
    BlockInUse,
}

/// A prompt, or a part of it, was computed.
#[derive(Debug)]
pub struct PrefillStep {
    /// The request.
    pub uuid: u128,
    /// What the prompt cost before.
    pub prefill_cost: PrefillCost,
    /// The number of tokens computed, if not all of them were.
    pub chunk: Option<usize>,
    /// The reads of the blocks of the prompt, once it is computed.
    pub reads: Option<PrefillReadReport>,
}

impl PrefillStep {
    /// The step that computes the next prompt of `s`.
    pub open spec fn tells(&self, s: SchedState) -> bool {
        let sequence = s.sequence(s.prefill[0]);
        &&& s.prefill.len() > 0
        &&& self.uuid == s.prefill[0]
        &&& self.prefill_cost == s.prefill_costs[self.uuid]
        &&& match self.chunk {
            Some(tokens) => s.chunk() == Some(tokens as nat),
            None => s.chunk() is None,
        }
        &&& self.reads is Some == s.chunk() is None
        &&& self.reads is Some ==> self.reads->0.tells(
            self.uuid,
            sequence.block_size,
            sequence_model::full_ids(sequence.unique_blocks),
            self.prefill_cost.new_blocks as nat,
        )
    }
}

/// The blocks of a sequence are still to be provided.
pub open spec fn unclaimed(s: SequenceState) -> bool {
    s.creation_signal is Some
}

/// The blocks of a sequence cannot be provided because the partial one is in use.
pub open spec fn clashes(s: SequenceState, active: Map<UniqueBlock, nat>) -> bool {
    unclaimed(s) && s.ends_partial() && active.contains_key(s.unique_blocks.last())
}

/// The blocks of a sequence cannot be provided because there are not enough slots.
pub open spec fn overflows(
    s: SequenceState,
    active: Map<UniqueBlock, nat>,
    capacity: nat,
) -> bool {
    unclaimed(s) && !accounting::fits(active, s.unique_blocks, capacity)
}

/// Whether a partial block is in use.
pub(crate) fn is_in_use<B: KvBackend>(kv_manager: &B, block: UniqueBlock) -> (r: bool)
    requires
        kv_manager.valid(),
        order::keeps_complete_blocks(*kv_manager),
        block is PartialBlock,
    ensures
        r == kv_manager.active().contains_key(block),
        r == kv_manager.present().contains(block),
{
    let mut blocks: Vec<UniqueBlock> = Vec::new();
    blocks.push(block);
    let n = kv_manager.probe_new_blocks(blocks.as_slice());
    proof {
        let is_new = |b: UniqueBlock| !kv_manager.present().contains(b);
        assert(blocks@ =~= seq![block]);
        assert(seq![block].drop_last() =~= Seq::empty());
        reveal_with_fuel(Seq::filter, 2);
        kv_manager.lemma_valid();
    }
    n == 0
}

/// Computes the next prompt, as far as it fits into this pass, and provides the blocks of its
/// request; `None` if there is no prompt to compute.
pub fn prefill_next<B: KvBackend>(state: &mut SchedulerState, kv_manager: &mut B) -> (r: Result<
    Option<PrefillStep>,
    PrefillError,
>)
    requires
        order::in_order(*old(state), *old(kv_manager)),
        old(state)@.prefill.len() > 0 && old(state)@.max_num_batched_tokens is Some ==> old(
            state,
        )@.active_tokens <= old(state)@.max_num_batched_tokens->0,
        old(state)@.active_tokens + old(state)@.waiting_tokens <= usize::MAX,
        old(kv_manager).headroom(STEP_HEADROOM as nat),
    ensures
        ({
            let uuid = old(state)@.prefill[0];
            let sequence = old(state)@.sequence(uuid);
            match r {
                Ok(None) => {
                    &&& old(state)@.prefill.len() == 0
                    &&& *final(kv_manager) == *old(kv_manager)
                    &&& final(state)@ == old(state)@
                    &&& order::in_order(*final(state), *final(kv_manager))
                },
                Ok(Some(step)) => {
                    &&& step.tells(old(state)@)
                    &&& final(state)@ == old(state)@.prefilled()
                    &&& order::in_order(*final(state), *final(kv_manager))
                    &&& final(state)@.active_tokens + final(state)@.waiting_tokens <= usize::MAX
                    &&& !clashes(sequence, old(kv_manager).active())
                    &&& !overflows(
                        sequence,
                        old(kv_manager).active(),
                        old(kv_manager).capacity(),
                    )
                    &&& claimed(*old(kv_manager), sequence, *final(kv_manager))
                    &&& final(kv_manager).active() == if unclaimed(sequence) {
                        accounting::taken(old(kv_manager).active(), sequence.unique_blocks)
                    } else {
                        old(kv_manager).active()
                    }
                },
                Err(e) => fails(old(state)@, *old(kv_manager), e),
            }
        }),
        final(kv_manager).capacity() == old(kv_manager).capacity(),
        final(kv_manager).tokens_per_block() == old(kv_manager).tokens_per_block(),
        forall|n: nat| #[trigger]
            old(kv_manager).headroom(n + STEP_HEADROOM as nat) ==> final(kv_manager).headroom(n),
{
    let ghost before = state@;
    let ghost first = *kv_manager;
    proof {
        state.lemma_wf();
        if before.prefill.len() > 0 {
            queues::lemma_prefilled(before);
        }
        assert forall|n: nat| #[trigger] first.headroom(n + STEP_HEADROOM as nat) implies
            first.headroom(n) by {
            first.lemma_headroom(n + STEP_HEADROOM as nat, n);
        }
    }
    let attempt = match state.try_prefill() {
        Some(attempt) => attempt,
        None => {
            return Ok(None);
        },
    };
    let ghost uuid = attempt.uuid;
    let ghost sequence = before.sequence(uuid);
    let ghost rest = before.requests.remove(uuid);
    proof {
        state.lemma_wf();
        assert(before.requests[uuid] == RequestState::Active { sequence });
        assert(model::sustainable(sequence));
        ledger::lemma_balanced_split(first.active(), before.requests, uuid);
    }
    if let Some(creation_signal) = attempt.creation_signal {
        proof {
            assert(creation_signal@ == sequence.use_signal());
            assert(before.requests[uuid].footprint() =~= Seq::empty());
            ledger::lemma_backed_none(first.active(), rest);
            order::lemma_most_blocks(sequence);
        }
        let last: Option<UniqueBlock> = match &creation_signal {
            MoveBlock::Use(blocks, _, _, _) => if blocks.len() > 0 {
                Some(blocks[blocks.len() - 1])
            } else {
                None
            },
            _ => None,
        };
        if let Some(UniqueBlock::PartialBlock(id)) = last {
            if is_in_use(kv_manager, UniqueBlock::PartialBlock(id)) {
                return Err(PrefillError::BlockInUse);
            }
        }
        let ghost said = sequence.use_signal();
        proof {
            order::lemma_use_sound(first.active(), first.present(), sequence);
            first.lemma_headroom(STEP_HEADROOM as nat, accounting::cost(said));
            first.lemma_accepts(said);
        }
        let ok = kv_manager.process(&creation_signal);
        proof {
            assert forall|n: nat| #[trigger] first.headroom(n + STEP_HEADROOM as nat) implies
                kv_manager.headroom(n) by {
                first.lemma_headroom(n + STEP_HEADROOM as nat, n + accounting::cost(said));
            }
        }
        if !ok {
            return Err(PrefillError::OutOfBlocks);
        }
        proof {
            assert(seq![said].drop_last() =~= Seq::empty());
            assert(signals::ran(first, Seq::empty(), first));
            assert(first.leads_to(seq![said].last(), &*kv_manager, true));
            assert(signals::ran(first, seq![said], *kv_manager));
        }
        proof {
            first.lemma_valid();
            ledger::lemma_use_all(
                first.active(),
                sequence.unique_blocks,
                rest,
                sequence.use_signal(),
            );
        }
    }
    proof {
        let taken = SequenceState { creation_signal: None, ..sequence };
        let after = before.prefilled();
        assert(after.requests == before.requests.insert(
            uuid,
            RequestState::Active { sequence: taken },
        ));
        assert(after.requests.remove(uuid) =~= rest);
        assert(after.requests[uuid].footprint() == sequence.unique_blocks);
        ledger::lemma_balanced_split(kv_manager.active(), after.requests, uuid);
        assert(order::sized(after.requests, kv_manager.tokens_per_block())) by {
            assert forall|k: u128| #[trigger] after.requests.contains_key(k) implies (
            match after.requests[k] {
                RequestState::Direct { tokens, max_output_tokens, .. } => model::admissible(
                    tokens.len(),
                    max_output_tokens,
                    kv_manager.tokens_per_block(),
                ),
                RequestState::Active { sequence } => sequence.block_size
                    == kv_manager.tokens_per_block(),
            }) by {
                assert(before.requests.contains_key(k));
            }
        }
        assert(order::unfinished(after.requests)) by {
            assert forall|k: u128| #[trigger] after.requests.contains_key(k) implies (
            match after.requests[k] {
                RequestState::Direct { .. } => true,
                RequestState::Active { sequence } => sequence.generated_tokens
                    < sequence.max_output_tokens,
            }) by {
                assert(before.requests.contains_key(k));
            }
        }
    }
    // Emit a single report per completed prefill with ordered per-block read totals. Cached prompt
    // blocks contribute one read during prefix lookup; newly allocated blocks are represented with
    // zero reads for easier downstream analysis.
    let reads = if attempt.is_full_prefill {
        match state.running(attempt.uuid) {
            Some(sequence) => Some(
                PrefillReadReport::new(
                    attempt.uuid,
                    sequence.block_size(),
                    sequence.full_block_ids(),
                    attempt.prefill_cost.new_blocks,
                ),
            ),
            None => None,
        }
    } else {
        None
    };
    assert(attempt.is_full_prefill ==> state@.decode.contains(uuid)) by {
        if attempt.is_full_prefill {
            let n = state@.decode.len();
            assert(state@.decode[n - 1] == uuid);
        }
    }
    Ok(
        Some(
            PrefillStep {
                uuid: attempt.uuid,
                prefill_cost: attempt.prefill_cost,
                chunk: attempt.chunk,
                reads,
            },
        ),
    )
}

/// The state after `n` steps.
pub open spec fn after_steps(s: SchedState, n: nat) -> SchedState
    decreases n,
{
    if n == 0 {
        s
    } else {
        after_steps(s, (n - 1) as nat).prefilled()
    }
}

/// The blocks of a sequence are provided, unless they have been.
pub open spec fn claimed<B: KvBackend>(before: B, s: SequenceState, after: B) -> bool {
    if unclaimed(s) {
        signals::ran(before, seq![s.use_signal()], after)
    } else {
        after == before
    }
}

/// The KV manager after each of some steps that start with `s`: the blocks of the requests are
/// provided one after the other.
pub open spec fn claimed_in_turn<B: KvBackend>(s: SchedState, kvs: Seq<B>) -> bool {
    forall|i: int|
        #![trigger kvs[i]]
        0 <= i < kvs.len() - 1 ==> {
            let t = after_steps(s, i as nat);
            claimed(kvs[i], t.sequence(t.prefill[0]), kvs[i + 1])
        }
}

/// The next prompt of `s` cannot be computed for this reason.
pub open spec fn fails<B: KvBackend>(s: SchedState, kv: B, e: PrefillError) -> bool {
    let sequence = s.sequence(s.prefill[0]);
    &&& s.prefill.len() > 0
    &&& match e {
        PrefillError::BlockInUse => clashes(sequence, kv.active()),
        PrefillError::OutOfBlocks => !clashes(sequence, kv.active()) && overflows(
            sequence,
            kv.active(),
            kv.capacity(),
        ),
    }
}

/// The number of blocks that are still to be provided to requests in the prefill queue.
pub open spec fn blocks_to_claim(s: SchedState) -> nat {
    model::sum_over(s.prefill, claims(s))
}

/// The number of blocks that are still to be provided to a request.
pub open spec fn claims(s: SchedState) -> spec_fn(u128) -> nat {
    |k: u128|
        if unclaimed(s.sequence(k)) {
            s.sequence(k).unique_blocks.len()
        } else {
            0
        }
}

/// A step claims the blocks of its request.
proof fn lemma_claimed(s: SchedState)
    requires
        s.wf(),
        s.prefill.len() > 0,
        s.max_num_batched_tokens is Some ==> s.active_tokens <= s.max_num_batched_tokens->0,
    ensures
        blocks_to_claim(s) == blocks_to_claim(s.prefilled()) + claims(s)(s.prefill[0]),
{
    let t = s.prefilled();
    let uuid = s.prefill[0];
    let rest = s.prefill.drop_first();
    queues::lemma_drop_first(s.prefill);
    queues::lemma_prefilled(s);
    model::lemma_sum_first(s.prefill, claims(s));
    assert forall|k: u128| rest.contains(k) implies #[trigger] claims(s)(k) == claims(t)(k) by {}
    model::lemma_sum_same(rest, claims(s), claims(t));
    if s.chunk() is Some {
        model::lemma_sum_first(s.prefill, claims(t));
    }
}

/// Where the blocks of all requests in the prefill queue have slots, those of the next one have.
proof fn lemma_claim_fits(
    s: SchedState,
    active: Map<UniqueBlock, nat>,
    capacity: nat,
)
    requires
        s.wf(),
        s.prefill.len() > 0,
        s.max_num_batched_tokens is Some ==> s.active_tokens <= s.max_num_batched_tokens->0,
        active.dom().finite(),
        active.dom().len() + blocks_to_claim(s) <= capacity,
    ensures
        ({
            let sequence = s.sequence(s.prefill[0]);
            &&& !overflows(sequence, active, capacity)
            &&& unclaimed(sequence) ==> accounting::taken(
                active,
                sequence.unique_blocks,
            ).dom().len() + blocks_to_claim(s.prefilled()) <= capacity
        }),
{
    let sequence = s.sequence(s.prefill[0]);
    let blocks = sequence.unique_blocks;
    lemma_claimed(s);
    blocks.lemma_cardinality_of_set();
    vstd::seq_lib::seq_to_set_is_finite(blocks);
    vstd::set_lib::lemma_len_union(active.dom(), blocks.to_set());
    assert(accounting::taken(active, blocks).dom() =~= active.dom().union(blocks.to_set()));
}

/// Simulate prefill phase for all pending prefill requests: prompts are computed one after the
/// other, until none is left or one does not fit into this pass. Returns what was computed.
pub fn simulate_prefill<B: KvBackend>(state: &mut SchedulerState, kv_manager: &mut B) -> (r: Result<
    Vec<PrefillStep>,
    PrefillError,
>)
    requires
        order::in_order(*old(state), *old(kv_manager)),
        old(state)@.prefill.len() > 0 && old(state)@.max_num_batched_tokens is Some ==> old(
            state,
        )@.active_tokens <= old(state)@.max_num_batched_tokens->0,
        old(state)@.active_tokens + old(state)@.waiting_tokens <= usize::MAX,
        old(kv_manager).headroom(old(state)@.prefill.len() * STEP_HEADROOM as nat),
    ensures
        match r {
            Ok(steps) => {
                &&& steps@.len() <= old(state)@.prefill.len()
                &&& final(state)@ == after_steps(old(state)@, steps@.len())
                &&& order::in_order(*final(state), *final(kv_manager))
                &&& forall|i: int|
                    0 <= i < steps@.len() ==> (#[trigger] steps@[i]).tells(
                        after_steps(old(state)@, i as nat),
                    )
                &&& forall|i: int|
                    0 <= i < steps@.len() - 1 ==> (#[trigger] steps@[i]).chunk is None
                &&& final(state)@.prefill.len() == 0 || steps@.len() > 0
                    && steps@.last().chunk is Some
                &&& exists|kvs: Seq<B>|
                    {
                        &&& kvs.len() == steps@.len() + 1
                        &&& kvs[0] == *old(kv_manager)
                        &&& kvs.last() == *final(kv_manager)
                        &&& #[trigger] claimed_in_turn(old(state)@, kvs)
                    }
            },
            Err(e) => {
                &&& exists|kvs: Seq<B>|
                    {
                        &&& kvs.len() > 0
                        &&& kvs[0] == *old(kv_manager)
                        &&& #[trigger] claimed_in_turn(old(state)@, kvs)
                        &&& fails(
                            after_steps(old(state)@, (kvs.len() - 1) as nat),
                            kvs.last(),
                            e,
                        )
                    }
                &&& e == PrefillError::OutOfBlocks ==> old(kv_manager).active().dom().len()
                    + blocks_to_claim(old(state)@) > old(kv_manager).capacity()
            },
        },
        final(kv_manager).capacity() == old(kv_manager).capacity(),
        final(kv_manager).tokens_per_block() == old(kv_manager).tokens_per_block(),
        forall|m: nat| #[trigger]
            old(kv_manager).headroom(m + old(state)@.prefill.len() * STEP_HEADROOM as nat)
                ==> final(kv_manager).headroom(m),
{
    let ghost before = state@;
    let ghost first = *kv_manager;
    let ghost n = before.prefill.len();
    let ghost step_cost = STEP_HEADROOM as nat;
    let ghost mut kvs: Seq<B> = seq![first];
    let mut steps: Vec<PrefillStep> = Vec::new();
    let mut go_on = state.num_prefill() > 0;
    while go_on
        invariant
            before == old(state)@,
            first == *old(kv_manager),
            n == before.prefill.len(),
            step_cost == STEP_HEADROOM as nat,
            order::in_order(*state, *kv_manager),
            kv_manager.capacity() == first.capacity(),
            kv_manager.tokens_per_block() == first.tokens_per_block(),
            state@ == after_steps(before, steps@.len()),
            kvs.len() == steps@.len() + 1,
            kvs[0] == first,
            kvs.last() == *kv_manager,
            claimed_in_turn(before, kvs),
            state@.active_tokens + state@.waiting_tokens <= usize::MAX,
            go_on ==> state@.prefill.len() > 0,
            go_on ==> steps@.len() + state@.prefill.len() == n,
            go_on && state@.max_num_batched_tokens is Some ==> state@.active_tokens
                <= state@.max_num_batched_tokens->0,
            first.headroom(n * step_cost),
            go_on ==> kv_manager.headroom(state@.prefill.len() * step_cost),
            steps@.len() <= n,
            forall|m: nat| #[trigger]
                first.headroom(m + n * step_cost) ==> kv_manager.headroom(
                    m + (n - steps@.len()) as nat * step_cost,
                ),
            !go_on ==> state@.prefill.len() == 0 || steps@.len() > 0 && steps@.last().chunk is Some,
            forall|i: int|
                0 <= i < steps@.len() ==> (#[trigger] steps@[i]).tells(
                    after_steps(before, i as nat),
                ),
            forall|i: int| 0 <= i < steps@.len() - 1 ==> (#[trigger] steps@[i]).chunk is None,
            go_on ==> forall|i: int| 0 <= i < steps@.len() ==> (#[trigger] steps@[i]).chunk is None,
            first.active().dom().len() + blocks_to_claim(before) <= first.capacity()
                ==> kv_manager.active().dom().len() + blocks_to_claim(state@) <= first.capacity(),
        decreases
                if go_on {
                    state@.prefill.len() + 1
                } else {
                    0
                },
    {
        let ghost now = state@;
        let ghost cache = *kv_manager;
        let ghost left = now.prefill.len();
        proof {
            state.lemma_wf();
            kv_manager.lemma_valid();
            queues::lemma_prefilled(now);
            assert(left * step_cost == (left - 1) * step_cost + step_cost) by (nonlinear_arith);
            kv_manager.lemma_headroom(left * step_cost, step_cost);
            if first.active().dom().len() + blocks_to_claim(before) <= first.capacity() {
                lemma_claim_fits(now, kv_manager.active(), kv_manager.capacity());
                lemma_claimed(now);
            }
        }
        let next = prefill_next(state, kv_manager);
        proof {
            assert forall|m: nat| #[trigger] first.headroom(m + n * step_cost) implies
                kv_manager.headroom(m + (left - 1) as nat * step_cost) && kv_manager.headroom(m) by {
                let rest = m + (left - 1) as nat * step_cost;
                assert(cache.headroom(rest + step_cost));
                assert((left - 1) as nat * step_cost >= 0) by (nonlinear_arith)
                    requires
                        left >= 1,
                        step_cost >= 0,
                ;
                kv_manager.lemma_headroom(rest, m);
            }
        }
        let step = match next {
            Ok(Some(step)) => step,
            Ok(None) => {
                return Ok(steps);
            },
            Err(e) => {
                return Err(e);
            },
        };
        // Impossible to schedule more prefills if we encounter one incomplete (chunked) prefill
        go_on = step.chunk.is_none() && state.num_prefill() > 0;
        steps.push(step);
        proof {
            let more = kvs.push(*kv_manager);
            assert forall|i: int|
                #![trigger more[i]]
                0 <= i < more.len() - 1 implies ({
                let t = after_steps(before, i as nat);
                claimed(more[i], t.sequence(t.prefill[0]), more[i + 1])
            }) by {
                if i < kvs.len() - 1 {
                    assert(more[i] == kvs[i] && more[i + 1] == kvs[i + 1]);
                }
            }
            kvs = more;
            assert(cache.headroom((left - 1) as nat * step_cost + step_cost));
        }
    }
    proof {
        assert forall|m: nat| #[trigger] first.headroom(m + n * step_cost) implies
            kv_manager.headroom(m) by {
            let rest = (n - steps@.len()) as nat * step_cost;
            assert(rest >= 0) by (nonlinear_arith)
                requires
                    rest == (n - steps@.len()) as nat * step_cost,
                    step_cost >= 0,
            ;
            kv_manager.lemma_headroom(m + rest, m);
        }
    }
    Ok(steps)
}

} // verus!
