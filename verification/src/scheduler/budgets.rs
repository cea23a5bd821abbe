//! Which waiting requests are scheduled, in numbers.

use vstd::prelude::*;
use crate::common::sequence_model::SequenceState;
use crate::kv_manager::backend;
use crate::kv_manager::KvBackend;
use crate::scheduler::model::{RequestState, SchedState};
use crate::scheduler::order;
use crate::scheduler::schedule;
use crate::scheduler::schedule::{ScheduleLimits, ScheduledRequest};

verus! {

broadcast use {vstd::set::group_set_axioms, vstd::map::group_map_axioms};

/// The number of tokens that a request has, as it came in or as a sequence.
pub open spec fn size(request: RequestState) -> nat {
    match request {
        RequestState::Direct { tokens, .. } => tokens.len(),
        RequestState::Active { sequence } => sequence.tokens.len(),
    }
}

/// The number of blocks that the tokens of some requests fill, each request for itself.
pub open spec fn blocks_filled(
    requests: Map<u128, RequestState>,
    ids: Seq<u128>,
    block_size: nat,
) -> nat {
    ids.fold_left(
        0nat,
        |sum: nat, k: u128| sum + (size(requests[k]) + block_size - 1) as nat / block_size,
    )
}

/// The number of prompt tokens of some sequences that are not cached.
pub open spec fn tokens_to_compute<B: KvBackend>(kv: B, sequences: Seq<SequenceState>) -> nat {
    sequences.fold_left(
        0nat,
        |sum: nat, c: SequenceState|
            sum + backend::prefill_cost(kv.cached(), kv.tokens_per_block(), c).new_tokens as nat,
    )
}

/// The sums that scheduling makes.
proof fn lemma_sums<B: KvBackend>(
    before: SchedState,
    kv: B,
    limits: ScheduleLimits,
    sequences: Seq<SequenceState>,
)
    requires
        sequences.len() <= before.waiting.len(),
        forall|i: int|
            #![trigger sequences[i]]
            0 <= i < sequences.len() ==> schedule::becomes(
                before.requests[before.waiting[i]],
                limits,
                kv.tokens_per_block(),
                sequences[i],
            ) && sequences[i].block_size == kv.tokens_per_block(),
    ensures
        schedule::blocks_demanded(sequences) == blocks_filled(
            before.requests,
            before.waiting.take(sequences.len() as int),
            kv.tokens_per_block(),
        ),
        schedule::tokens_demanded(kv, sequences) == tokens_to_compute(kv, sequences),
    decreases sequences.len(),
{
    let ids = before.waiting.take(sequences.len() as int);
    if sequences.len() > 0 {
        let less = sequences.drop_last();
        let n = less.len() as int;
        assert forall|i: int|
            #![trigger less[i]]
            0 <= i < less.len() implies schedule::becomes(
            before.requests[before.waiting[i]],
            limits,
            kv.tokens_per_block(),
            less[i],
        ) && less[i].block_size == kv.tokens_per_block() by {
            assert(less[i] == sequences[i]);
        }
        lemma_sums(before, kv, limits, less);
        assert(ids.drop_last() =~= before.waiting.take(n));
        assert(ids.last() == before.waiting[n]);
        assert(sequences[n] == sequences.last());
        assert(size(before.requests[before.waiting[n]]) == sequences[n].tokens.len());
    }
}

/// Scheduling admits whatever fits, and nothing else. `n` requests have left the waiting queue; each
/// of them was within the budgets, and the next one, if there is one, would have broken one of them:
/// - The blocks in use, and those that the tokens of the requests up to this one fill, as if no
///   block were cached, are within the budget of blocks.
/// - The tokens of the pass, those still to be computed, and those that the requests admitted before
///   cost, are within the budget of tokens, if there is one; without chunked prefill, those that
///   this request costs as well.
/// - The requests whose prompts are computed or whose tokens are generated, with those up to this
///   one, are no more than may be served at the same time, if there is a limit.
pub proof fn lemma_admits_what_fits<B: KvBackend>(
    before: SchedState,
    kv: B,
    limits: ScheduleLimits,
    candidates: Seq<SequenceState>,
    refused: Option<SequenceState>,
    after: SchedState,
    r: Seq<ScheduledRequest>,
    i: int,
)
    requires
        before.wf(),
        order::sized(before.requests, kv.tokens_per_block()),
        schedule::scheduled(before, kv, limits, candidates, refused, after, r),
        0 <= i <= candidates.len(),
        i < before.waiting.len(),
    ensures
        ({
            let n = candidates.len() as int;
            let bs = kv.tokens_per_block();
            let own = backend::prefill_cost(
                kv.cached(),
                bs,
                if i < n {
                    candidates[i]
                } else {
                    refused->0
                },
            ).new_tokens as nat;
            let blocks = kv.active().dom().len() + blocks_filled(
                before.requests,
                before.waiting.take(i + 1),
                bs,
            );
            let tokens = before.active_tokens + before.waiting_tokens + tokens_to_compute(
                kv,
                candidates.take(i),
            ) + if limits.enable_chunked_prefill {
                0
            } else {
                own
            };
            let served = before.prefill.len() + before.decode.len() + i + 1;
            &&& i == n ==> refused is Some
            &&& (i < n) == {
                &&& blocks <= limits.block_budget
                &&& limits.max_num_batched_tokens is Some ==> tokens
                    <= limits.max_num_batched_tokens->0
                &&& limits.max_num_seqs is Some ==> served <= limits.max_num_seqs->0
            }
        }),
{
    let n = candidates.len() as int;
    let bs = kv.tokens_per_block();
    let c = if i < n {
        candidates[i]
    } else {
        refused->0
    };
    let earlier = candidates.take(i);
    let upto = earlier.push(c);
    assert(upto.drop_last() =~= earlier);
    assert forall|j: int|
        #![trigger upto[j]]
        0 <= j < upto.len() implies schedule::becomes(
        before.requests[before.waiting[j]],
        limits,
        bs,
        upto[j],
    ) && upto[j].block_size == bs by {
        if j < n {
            assert(upto[j] == candidates[j]);
        }
        assert(before.waiting.contains(before.waiting[j]));
        assert(before.queued(before.waiting[j]));
        assert(before.requests.contains_key(before.waiting[j]));
    }
    assert forall|j: int|
        #![trigger earlier[j]]
        0 <= j < earlier.len() implies schedule::becomes(
        before.requests[before.waiting[j]],
        limits,
        bs,
        earlier[j],
    ) && earlier[j].block_size == bs by {
        assert(upto[j] == earlier[j]);
    }
    lemma_sums(before, kv, limits, upto);
    lemma_sums(before, kv, limits, earlier);
    if i < n {
        assert(candidates.take(i + 1) =~= upto);
        assert(schedule::within_budgets(before, kv, limits, upto));
    } else {
        assert(earlier =~= candidates);
        assert(!schedule::within_budgets(before, kv, limits, upto));
    }
}

/// What is told of a scheduled request: its id, the tokens that it costs and those that it has. Its
/// cost is kept with it until its prompt is computed, and counts as tokens still to be computed.
pub proof fn lemma_scheduled_costs<B: KvBackend>(
    before: SchedState,
    kv: B,
    limits: ScheduleLimits,
    candidates: Seq<SequenceState>,
    refused: Option<SequenceState>,
    after: SchedState,
    r: Seq<ScheduledRequest>,
)
    requires
        before.wf(),
        order::sized(before.requests, kv.tokens_per_block()),
        schedule::scheduled(before, kv, limits, candidates, refused, after, r),
    ensures
        r.len() == candidates.len(),
        after.waiting.len() == before.waiting.len() - r.len(),
        after.active_tokens == before.active_tokens,
        after.waiting_tokens == before.waiting_tokens + tokens_to_compute(kv, candidates),
        forall|i: int|
            #![trigger r[i]]
            0 <= i < r.len() ==> {
                let k = before.waiting[i];
                let cost = backend::prefill_cost(
                    kv.cached(),
                    kv.tokens_per_block(),
                    candidates[i],
                );
                &&& r[i].uuid == k
                &&& r[i].new_tokens == cost.new_tokens
                &&& r[i].total_tokens == size(before.requests[k]) as usize
                &&& after.prefill_costs.contains_key(k)
                &&& after.prefill_costs[k] == cost
                &&& after.prefill[before.prefill.len() + i] == k
            },
{
    let n = candidates.len() as int;
    schedule::lemma_scheduled_queues(before, kv, candidates);
    assert forall|j: int|
        #![trigger candidates[j]]
        0 <= j < candidates.len() implies schedule::becomes(
        before.requests[before.waiting[j]],
        limits,
        kv.tokens_per_block(),
        candidates[j],
    ) && candidates[j].block_size == kv.tokens_per_block() by {
        assert(before.waiting.contains(before.waiting[j]));
        assert(before.queued(before.waiting[j]));
        assert(before.requests.contains_key(before.waiting[j]));
    }
    lemma_sums(before, kv, limits, candidates);
    assert forall|i: int|
        #![trigger r[i]]
        0 <= i < r.len() implies ({
        let k = before.waiting[i];
        let cost = backend::prefill_cost(kv.cached(), kv.tokens_per_block(), candidates[i]);
        &&& r[i].uuid == k
        &&& r[i].new_tokens == cost.new_tokens
        &&& r[i].total_tokens == size(before.requests[k]) as usize
        &&& after.prefill_costs.contains_key(k)
        &&& after.prefill_costs[k] == cost
        &&& after.prefill[before.prefill.len() + i] == k
    }) by {
        let k = before.waiting[i];
        assert(schedule::becomes(
            before.requests[k],
            limits,
            kv.tokens_per_block(),
            candidates[i],
        ));
        if refused is Some {
            assert(before.waiting[n] != k);
        }
    }
}

/// The sequence that a request has become when it is scheduled or refused: a request as it came in
/// has become a new sequence of its tokens, with blocks of the manager's size; a sequence that
/// waited stays as it is.
pub open spec fn made_of(
    request: RequestState,
    limits: ScheduleLimits,
    block_size: nat,
    s: SequenceState,
) -> bool {
    match request {
        RequestState::Direct { tokens, max_output_tokens, .. } => {
            &&& s.tokens == tokens
            &&& s.num_input_tokens == tokens.len()
            &&& s.generated_tokens == 0
            &&& s.max_output_tokens == max_output_tokens
            &&& s.block_size == block_size
            &&& s.enable_prefix_caching == limits.enable_prefix_caching
            &&& s.emit_token_ids == limits.emit_token_ids
            &&& s.creation_signal is Some
        },
        RequestState::Active { sequence } => s == sequence,
    }
}

/// Scheduled requests are kept as the sequences that they have become. So is the one that was
/// refused: it is first in line, and need not be made again. All other requests stay as they are, and
/// no request is lost or added.
pub proof fn lemma_scheduled_sequences<B: KvBackend>(
    before: SchedState,
    kv: B,
    limits: ScheduleLimits,
    candidates: Seq<SequenceState>,
    refused: Option<SequenceState>,
    after: SchedState,
    r: Seq<ScheduledRequest>,
)
    requires
        before.wf(),
        schedule::scheduled(before, kv, limits, candidates, refused, after, r),
    ensures
        ({
            let n = candidates.len() as int;
            let bs = kv.tokens_per_block();
            &&& after.waiting == before.waiting.subrange(n, before.waiting.len() as int)
            &&& after.prefill == before.prefill + before.waiting.subrange(0, n)
            &&& after.decode == before.decode
            &&& after.requests.dom() == before.requests.dom()
            &&& forall|i: int|
                #![trigger candidates[i]]
                0 <= i < n ==> {
                    let k = before.waiting[i];
                    &&& after.requests[k] == RequestState::Active { sequence: candidates[i] }
                    &&& made_of(before.requests[k], limits, bs, candidates[i])
                }
            &&& refused is Some <==> n < before.waiting.len()
            &&& refused is Some ==> {
                let k = before.waiting[n];
                &&& after.requests[k] == RequestState::Active { sequence: refused->0 }
                &&& made_of(before.requests[k], limits, bs, refused->0)
            }
            &&& forall|k: u128| #[trigger]
                before.requests.contains_key(k) && !before.waiting.subrange(
                    0,
                    if refused is Some {
                        n + 1
                    } else {
                        n
                    },
                ).contains(k) ==> after.requests[k] == before.requests[k]
        }),
{
    let n = candidates.len() as int;
    let waiting = before.waiting;
    let mid = schedule::after_scheduling(before, kv, candidates);
    schedule::lemma_scheduled_queues(before, kv, candidates);
    assert(waiting.skip(n) =~= waiting.subrange(n, waiting.len() as int));
    assert(waiting.take(n) =~= waiting.subrange(0, n));
    if refused is Some {
        let uuid = waiting[n];
        assert(mid.waiting[0] == uuid);
        assert(after.waiting =~= waiting.subrange(n, waiting.len() as int));
        assert(before.waiting.contains(uuid));
        assert(before.queued(uuid));
        assert(before.requests.contains_key(uuid));
        assert(after.requests.dom() =~= before.requests.dom());
        let first = waiting.subrange(0, n + 1);
        assert forall|k: u128| #[trigger]
            before.requests.contains_key(k) && !first.contains(k) implies after.requests[k]
            == before.requests[k] by {
            assert(first[n] == uuid);
            if waiting.take(n).contains(k) {
                assert(first[waiting.take(n).index_of(k)] == k);
            }
            assert(mid.requests[k] == before.requests[k]);
        }
    }
    assert forall|i: int|
        #![trigger candidates[i]]
        0 <= i < n implies ({
        let k = waiting[i];
        &&& after.requests[k] == RequestState::Active { sequence: candidates[i] }
        &&& made_of(before.requests[k], limits, kv.tokens_per_block(), candidates[i])
    }) by {
        assert(mid.requests[waiting[i]] == RequestState::Active { sequence: candidates[i] });
        if refused is Some {
            assert(waiting[n] != waiting[i]);
        }
    }
}

} // verus!
