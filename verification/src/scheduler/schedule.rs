//! The scheduling of waiting requests.

use vstd::prelude::*;
use crate::common::protocols::{DirectRequest, PrefillCost};
use crate::common::sequence::ActiveSequence;
use crate::common::sequence_model;
use crate::common::sequence_model::SequenceState;
use crate::kv_manager::backend;
use crate::kv_manager::KvBackend;
use crate::scheduler::ledger;
use crate::scheduler::model;
use crate::scheduler::model::{RequestState, SchedState};
use crate::scheduler::order;
use crate::scheduler::queues;
use crate::scheduler::state::{Request, SchedulerState};

verus! {

broadcast use {vstd::set::group_set_axioms, vstd::map::group_map_axioms};

/// What requests may claim, and how they become sequences.
#[derive(Clone, Copy, Debug, PartialEq, Eq, Structural)]
pub struct ScheduleLimits {
    /// The number of blocks that may be in use.
    pub block_budget: usize,
    /// The number of tokens that may be computed in one pass.
    pub max_num_batched_tokens: Option<usize>,
    /// The number of requests that may be served at the same time.
    pub max_num_seqs: Option<usize>,
    /// Whether a prompt may be computed in several passes.
    pub enable_chunked_prefill: bool,
    /// Whether complete blocks are identified by their contents.
    pub enable_prefix_caching: bool,
    /// Whether signals bring the tokens of blocks.
    pub emit_token_ids: bool,
}

/// A request that has left the waiting queue.
#[derive(Clone, Copy, Debug, PartialEq, Eq, Structural)]
pub struct ScheduledRequest {
    /// The request.
    pub uuid: u128,
    /// The number of prompt tokens that are not in the cache.
    pub new_tokens: usize,
    /// The number of tokens.
    pub total_tokens: usize,
}

/// A request has become this sequence.
pub open spec fn becomes(
    request: RequestState,
    limits: ScheduleLimits,
    block_size: nat,
    s: SequenceState,
) -> bool {
    match request {
        RequestState::Active { sequence } => s == sequence,
        RequestState::Direct { tokens, max_output_tokens, .. } => s.is_new(
            tokens,
            max_output_tokens,
            block_size,
            limits.enable_prefix_caching,
            limits.emit_token_ids,
        ),
    }
}

/// The number of blocks that are set aside for a sequence: as if none of them were cached.
pub open spec fn block_demand(s: SequenceState) -> nat {
    sequence_model::blocks_for(s.tokens.len(), s.block_size)
}

/// The number of blocks that are set aside for some sequences.
pub open spec fn blocks_demanded(candidates: Seq<SequenceState>) -> nat
    decreases candidates.len(),
{
    if candidates.len() == 0 {
        0
    } else {
        blocks_demanded(candidates.drop_last()) + block_demand(candidates.last())
    }
}

/// The number of prompt tokens of some sequences that are not in the cache.
pub open spec fn tokens_demanded<B: KvBackend>(kv: B, candidates: Seq<SequenceState>) -> nat
    decreases candidates.len(),
{
    if candidates.len() == 0 {
        0
    } else {
        tokens_demanded(kv, candidates.drop_last()) + cost_of(kv, candidates.last()).new_tokens as nat
    }
}

/// What the prompt of a sequence costs.
pub open spec fn cost_of<B: KvBackend>(kv: B, s: SequenceState) -> PrefillCost {
    backend::prefill_cost(kv.cached(), kv.tokens_per_block(), s)
}

/// The budgets for blocks, tokens and requests are kept with `candidates` on top of what is there.
/// With chunked prefill, the tokens of the last candidate need not fit.
pub open spec fn within_budgets<B: KvBackend>(
    s: SchedState,
    kv: B,
    limits: ScheduleLimits,
    candidates: Seq<SequenceState>,
) -> bool {
    let counted = if limits.enable_chunked_prefill {
        candidates.drop_last()
    } else {
        candidates
    };
    &&& kv.active().dom().len() + blocks_demanded(candidates) <= limits.block_budget
    &&& match limits.max_num_batched_tokens {
        Some(max) => s.active_tokens + s.waiting_tokens + tokens_demanded(kv, counted) <= max,
        None => true,
    }
    &&& match limits.max_num_seqs {
        Some(max) => s.prefill.len() + s.decode.len() + candidates.len() <= max,
        None => true,
    }
}

/// The state once the first requests of the waiting queue have become `candidates` and moved to the
/// prefill queue.
pub open spec fn after_scheduling<B: KvBackend>(
    s: SchedState,
    kv: B,
    candidates: Seq<SequenceState>,
) -> SchedState
    decreases candidates.len(),
{
    if candidates.len() == 0 {
        s
    } else {
        let t = after_scheduling(s, kv, candidates.drop_last());
        t.next_taken().to_prefill(
            t.waiting[0],
            candidates.last(),
            cost_of(kv, candidates.last()),
        )
    }
}

/// The first requests of the waiting queue have become `candidates`, each of which has kept the
/// budgets; `r` tells of them.
pub open spec fn chosen<B: KvBackend>(
    before: SchedState,
    kv: B,
    limits: ScheduleLimits,
    candidates: Seq<SequenceState>,
    r: Seq<ScheduledRequest>,
) -> bool {
    &&& candidates.len() <= before.waiting.len()
    &&& r.len() == candidates.len()
    &&& forall|i: int|
        #![trigger candidates[i]]
        0 <= i < candidates.len() ==> {
            &&& becomes(
                before.requests[before.waiting[i]],
                limits,
                kv.tokens_per_block(),
                candidates[i],
            )
            &&& within_budgets(before, kv, limits, candidates.take(i + 1))
            &&& r[i] == ScheduledRequest {
                uuid: before.waiting[i],
                new_tokens: cost_of(kv, candidates[i]).new_tokens,
                total_tokens: candidates[i].tokens.len() as usize,
            }
        }
}

/// The longest prefix of the waiting queue that keeps the budgets is scheduled: `candidates` are
/// the sequences of its requests. The next request has become `refused`, if there is one, and still
/// waits before all others.
pub open spec fn scheduled<B: KvBackend>(
    before: SchedState,
    kv: B,
    limits: ScheduleLimits,
    candidates: Seq<SequenceState>,
    refused: Option<SequenceState>,
    after: SchedState,
    r: Seq<ScheduledRequest>,
) -> bool {
    let n = candidates.len();
    &&& chosen(before, kv, limits, candidates, r)
    &&& match refused {
        Some(s) => {
            &&& n < before.waiting.len()
            &&& becomes(before.requests[before.waiting[n as int]], limits, kv.tokens_per_block(), s)
            &&& !within_budgets(before, kv, limits, candidates.push(s))
            &&& after == after_scheduling(before, kv, candidates).next_taken().first_in_line(
                before.waiting[n as int],
                RequestState::Active { sequence: s },
            )
        },
        None => n == before.waiting.len() && after == after_scheduling(before, kv, candidates),
    }
}

/// The tokens of some sequences.
pub open spec fn total_len(candidates: Seq<SequenceState>) -> nat
    decreases candidates.len(),
{
    if candidates.len() == 0 {
        0
    } else {
        total_len(candidates.drop_last()) + candidates.last().tokens.len()
    }
}

/// The number of tokens of all requests that wait.
pub open spec fn waiting_len(s: SchedState) -> nat {
    model::sum_over(s.waiting, |k: u128| s.requests[k].len())
}

/// The queues once requests have been scheduled: they are taken from the front of the waiting queue
/// and put at the end of the prefill queue, in order; the others stay as they are.
pub proof fn lemma_scheduled_queues<B: KvBackend>(
    s: SchedState,
    kv: B,
    candidates: Seq<SequenceState>,
)
    requires
        s.wf(),
        candidates.len() <= s.waiting.len(),
    ensures
        ({
            let t = after_scheduling(s, kv, candidates);
            let n = candidates.len() as int;
            &&& t.waiting == s.waiting.skip(n)
            &&& t.prefill == s.prefill + s.waiting.take(n)
            &&& t.decode == s.decode
            &&& t.max_num_batched_tokens == s.max_num_batched_tokens
            &&& t.active_tokens == s.active_tokens
            &&& t.waiting_tokens == s.waiting_tokens + tokens_demanded(kv, candidates)
            &&& t.requests.dom() == s.requests.dom()
            &&& forall|k: u128| #[trigger]
                s.requests.contains_key(k) && !s.waiting.take(n).contains(k) ==> t.requests[k]
                    == s.requests[k]
            &&& forall|i: int|
                0 <= i < n ==> t.requests[#[trigger] s.waiting[i]] == RequestState::Active {
                    sequence: candidates[i],
                }
            &&& forall|i: int|
                0 <= i < n ==> t.prefill_costs.contains_key(#[trigger] s.waiting[i])
                    && t.prefill_costs[s.waiting[i]] == cost_of(kv, candidates[i])
        }),
    decreases candidates.len(),
{
    let t = after_scheduling(s, kv, candidates);
    let n = candidates.len() as int;
    if n == 0 {
        assert(s.waiting.skip(0) =~= s.waiting);
        assert(s.prefill + s.waiting.take(0) =~= s.prefill);
        assert(s.waiting.take(0) =~= Seq::empty());
    } else {
        let m = n - 1;
        let less = candidates.drop_last();
        let p = after_scheduling(s, kv, less);
        let uuid = s.waiting[m];
        lemma_scheduled_queues(s, kv, less);
        assert(p.waiting[0] == uuid);
        assert(t.waiting =~= s.waiting.skip(n));
        assert(t.prefill =~= s.prefill + s.waiting.take(n));
        assert(s.queued(uuid)) by {
            assert(s.waiting.contains(uuid));
        }
        assert(s.requests.contains_key(uuid));
        assert(t.requests.dom() =~= s.requests.dom());
        assert forall|k: u128| #[trigger]
            s.requests.contains_key(k) && !s.waiting.take(n).contains(k) implies t.requests[k]
            == s.requests[k] by {
            assert(s.waiting.take(n)[m] == uuid);
            if s.waiting.take(m).contains(k) {
                assert(s.waiting.take(n)[s.waiting.take(m).index_of(k)] == k);
            }
            assert(p.requests[k] == s.requests[k]);
        }
        assert forall|i: int| 0 <= i < n implies t.requests[#[trigger] s.waiting[i]]
            == RequestState::Active { sequence: candidates[i] } && t.prefill_costs.contains_key(
            s.waiting[i],
        ) && t.prefill_costs[s.waiting[i]] == cost_of(kv, candidates[i]) by {
            if i < m {
                assert(less[i] == candidates[i]);
                assert(s.waiting[i] != uuid);
            }
        }
    }
}

/// The blocks of a sequence are set aside; these are no more than its tokens.
pub proof fn lemma_demand_bound(s: SequenceState)
    requires
        s.wf(),
    ensures
        block_demand(s) <= s.tokens.len(),
        block_demand(s) == s.unique_blocks.len(),
{
    let len = s.tokens.len();
    sequence_model::lemma_blocks_for(len, s.block_size);
    if len == 0 {
        vstd::arithmetic::div_mod::lemma_small_mod(0, s.block_size);
    }
    if len % s.block_size != 0 {
        vstd::arithmetic::div_mod::lemma_div_decreases(len as int, s.block_size as int);
    }
}

/// Converts a request to a sequence.
fn activate(request: Request, limits: &ScheduleLimits, block_size: usize) -> (r: ActiveSequence)
    requires
        request.wf(),
        queues::can_wait(request@),
        2 <= block_size <= u32::MAX,
        match request@ {
            RequestState::Direct { tokens, max_output_tokens, .. } => model::admissible(
                tokens.len(),
                max_output_tokens,
                block_size as nat,
            ),
            RequestState::Active { sequence } => sequence.block_size == block_size
                && sequence.generated_tokens < sequence.max_output_tokens,
        },
    ensures
        r.wf(),
        becomes(request@, *limits, block_size as nat, r@),
        model::sustainable(r@),
        r@.creation_signal is Some,
        r@.block_size == block_size,
        r@.generated_tokens < r@.max_output_tokens,
        r@.tokens.len() == request@.len(),
{
    match request {
        Request::Active(active_seq) => *active_seq,
        Request::Direct(direct_request) => {
            let DirectRequest { tokens, max_output_tokens, uuid: _, dp_rank: _ } = *direct_request;
            let ghost input = tokens@;
            let sequence = ActiveSequence::new(
                tokens,
                max_output_tokens,
                Some(block_size),
                limits.enable_prefix_caching,
                limits.emit_token_ids,
            );
            proof {
                sequence.lemma_wf();
                order::lemma_new(
                    sequence@,
                    input,
                    max_output_tokens as nat,
                    block_size as nat,
                    limits.enable_prefix_caching,
                    limits.emit_token_ids,
                );
            }
            sequence
        },
    }
}

/// The number of blocks that are set aside for a sequence.
fn blocks_to_set_aside(sequence: &ActiveSequence) -> (n: usize)
    requires
        sequence.wf(),
    ensures
        n == block_demand(sequence@),
        n <= sequence@.tokens.len(),
{
    proof {
        sequence.lemma_wf();
        lemma_demand_bound(sequence@);
        sequence_model::lemma_blocks_for(sequence@.tokens.len(), sequence@.block_size);
    }
    let tokens = sequence.len();
    let block_size = sequence.block_size();
    if tokens % block_size == 0 {
        tokens / block_size
    } else {
        tokens / block_size + 1
    }
}

/// What is claimed by the requests served and those scheduled so far.
struct Claims {
    blocks: usize,
    tokens: usize,
}

/// The next waiting request has become `c`. If the budgets allow, it has moved to the prefill queue,
/// and `r` tells of it; otherwise it still waits before all others.
spec fn considered<B: KvBackend>(
    before: SchedState,
    kv: B,
    limits: ScheduleLimits,
    claims: Claims,
    c: SequenceState,
    after: SchedState,
    claims_after: Claims,
    r: Option<ScheduledRequest>,
) -> bool {
    let uuid = before.waiting[0];
    let new_tokens = cost_of(kv, c).new_tokens;
    let counted_tokens = if limits.enable_chunked_prefill {
        claims.tokens
    } else {
        claims_after.tokens
    };
    &&& becomes(before.requests[uuid], limits, kv.tokens_per_block(), c)
    &&& c.tokens.len() == before.requests[uuid].len()
    &&& new_tokens <= c.tokens.len()
    &&& block_demand(c) <= c.tokens.len()
    &&& claims_after.blocks == claims.blocks + block_demand(c)
    &&& claims_after.tokens == claims.tokens + new_tokens
    &&& r is Some == {
        &&& claims_after.blocks <= limits.block_budget
        &&& limits.max_num_batched_tokens is Some ==> counted_tokens
            <= limits.max_num_batched_tokens->0
        &&& limits.max_num_seqs is Some ==> before.prefill.len() + before.decode.len() + 1
            <= limits.max_num_seqs->0
    }
    &&& match r {
        Some(request) => {
            &&& request == ScheduledRequest {
                uuid,
                new_tokens,
                total_tokens: c.tokens.len() as usize,
            }
            &&& after == before.next_taken().to_prefill(uuid, c, cost_of(kv, c))
        },
        None => after == before.next_taken().first_in_line(
            uuid,
            RequestState::Active { sequence: c },
        ),
    }
}

/// Schedules the next waiting request if the budgets allow.
fn schedule_next<B: KvBackend>(
    state: &mut SchedulerState,
    kv_manager: &B,
    limits: &ScheduleLimits,
    claims: &mut Claims,
) -> (r: Option<ScheduledRequest>)
    requires
        order::in_order(*old(state), *kv_manager),
        old(state)@.waiting.len() > 0,
        ({
            let len = old(state)@.requests[old(state)@.waiting[0]].len();
            &&& old(claims).blocks + len <= usize::MAX
            &&& old(claims).tokens + len <= usize::MAX
            &&& old(state)@.waiting_tokens + len <= usize::MAX
        }),
    ensures
        order::in_order(*final(state), *kv_manager),
        exists|c: SequenceState| #[trigger]
            considered(
                old(state)@,
                *kv_manager,
                *limits,
                *old(claims),
                c,
                final(state)@,
                *final(claims),
                r,
            ),
{
    let ghost now = state@;
    let ghost kv = *kv_manager;
    let ghost claimed = *claims;
    proof {
        state.lemma_wf();
        queues::lemma_next_taken(now);
    }
    let seqs: usize = state.num_active_requests() + 1;
    let (uuid, request) = match state.next() {
        Some(taken) => taken,
        None => {
            return None;
        },
    };
    let sequence = activate(request, limits, kv_manager.block_size());
    let ghost c = sequence@;
    let ghost active = RequestState::Active { sequence: c };
    proof {
        sequence.lemma_wf();
        order::lemma_full_bound(c);
        assert(now.requests[uuid].footprint() =~= Seq::empty());
        assert(active.footprint() =~= Seq::empty());
        ledger::lemma_balanced_same(kv.active(), now.requests, uuid, active);
        assert(now.next_taken().requests.insert(uuid, active) =~= now.requests.insert(
            uuid,
            active,
        ));
        order::lemma_change(now.requests, uuid, c, kv.tokens_per_block());
    }
    // Update predictive budgets. This is conservative, assumes no cache hit so never
    // over-schedules.
    let total_tokens = sequence.len();
    let prefill_cost = kv_manager.get_prefill_cost(&sequence);
    let new_tokens = prefill_cost.new_tokens;
    assert(new_tokens <= c.tokens.len());
    let tokens_before = claims.tokens;
    claims.blocks = claims.blocks + blocks_to_set_aside(&sequence);
    claims.tokens = claims.tokens + new_tokens;
    // Check various budgets to see if possible to schedule
    let under_block_budget = claims.blocks <= limits.block_budget;
    // If chunked prefill is enabled, we can be under token budget when scheduling
    let counted_tokens = if limits.enable_chunked_prefill {
        tokens_before
    } else {
        claims.tokens
    };
    let under_token_budget = match limits.max_num_batched_tokens {
        Some(limit) => counted_tokens <= limit,
        None => true,
    };
    let under_seq_budget = match limits.max_num_seqs {
        Some(limit) => seqs <= limit,
        None => true,
    };
    if !(under_block_budget && under_token_budget && under_seq_budget) {
        // Cannot schedule, put first in line instead
        state.first_in_line(uuid, Request::Active(Box::new(sequence)));
        assert(considered(now, kv, *limits, claimed, c, state@, *claims, None));
        return None;
    }
    state.move_to_prefill(uuid, sequence, prefill_cost);
    let r = Some(ScheduledRequest { uuid, new_tokens, total_tokens });
    assert(considered(now, kv, *limits, claimed, c, state@, *claims, r));
    r
}

/// The next waiting request is as it was before scheduling started.
proof fn lemma_next_unchanged<B: KvBackend>(s: SchedState, kv: B, candidates: Seq<SequenceState>)
    requires
        s.wf(),
        candidates.len() < s.waiting.len(),
    ensures
        ({
            let t = after_scheduling(s, kv, candidates);
            let uuid = s.waiting[candidates.len() as int];
            t.waiting[0] == uuid && t.requests[uuid] == s.requests[uuid]
        }),
{
    let n = candidates.len() as int;
    let uuid = s.waiting[n];
    lemma_scheduled_queues(s, kv, candidates);
    assert(s.waiting.contains(uuid));
    assert(s.queued(uuid));
    assert(s.requests.contains_key(uuid));
    if s.waiting.take(n).contains(uuid) {
        let j = s.waiting.take(n).index_of(uuid);
        assert(s.waiting[j] == s.waiting[n]);
    }
}

/// One more request is chosen.
proof fn lemma_chosen_next<B: KvBackend>(
    s: SchedState,
    kv: B,
    limits: ScheduleLimits,
    candidates: Seq<SequenceState>,
    r: Seq<ScheduledRequest>,
    c: SequenceState,
    request: ScheduledRequest,
)
    requires
        chosen(s, kv, limits, candidates, r),
        candidates.len() < s.waiting.len(),
        becomes(
            s.requests[s.waiting[candidates.len() as int]],
            limits,
            kv.tokens_per_block(),
            c,
        ),
        within_budgets(s, kv, limits, candidates.push(c)),
        request == (ScheduledRequest {
            uuid: s.waiting[candidates.len() as int],
            new_tokens: cost_of(kv, c).new_tokens,
            total_tokens: c.tokens.len() as usize,
        }),
    ensures
        chosen(s, kv, limits, candidates.push(c), r.push(request)),
{
    let more = candidates.push(c);
    let n = candidates.len() as int;
    assert forall|i: int|
        #![trigger more[i]]
        0 <= i < more.len() implies becomes(
        s.requests[s.waiting[i]],
        limits,
        kv.tokens_per_block(),
        more[i],
    ) && within_budgets(s, kv, limits, more.take(i + 1)) && r.push(request)[i] == (
    ScheduledRequest {
        uuid: s.waiting[i],
        new_tokens: cost_of(kv, more[i]).new_tokens,
        total_tokens: more[i].tokens.len() as usize,
    }) by {
        if i < n {
            assert(more[i] == candidates[i]);
            assert(more.take(i + 1) =~= candidates.take(i + 1));
        } else {
            assert(more.take(i + 1) =~= more);
        }
    }
}

/// Attempts to schedule waiting requests: requests are taken from the front of the waiting queue as
/// long as the budgets allow. Returns the requests scheduled.
pub fn try_schedule<B: KvBackend>(
    state: &mut SchedulerState,
    kv_manager: &B,
    limits: &ScheduleLimits,
) -> (r: Vec<ScheduledRequest>)
    requires
        order::in_order(*old(state), *kv_manager),
        kv_manager.active().dom().len() + old(state)@.active_tokens + old(state)@.waiting_tokens
            + waiting_len(old(state)@) <= usize::MAX,
    ensures
        order::in_order(*final(state), *kv_manager),
        final(state)@.active_tokens + final(state)@.waiting_tokens <= usize::MAX,
        exists|candidates: Seq<SequenceState>, refused: Option<SequenceState>| #[trigger]
            scheduled(
                old(state)@,
                *kv_manager,
                *limits,
                candidates,
                refused,
                final(state)@,
                r@,
            ),
{
    let ghost s0 = state@;
    let ghost kv = *kv_manager;
    let ghost lens = |k: u128| s0.requests[k].len();
    let ghost mut candidates: Seq<SequenceState> = Seq::empty();
    proof {
        state.lemma_wf();
    }
    let mut claims = Claims {
        blocks: kv_manager.num_active_blocks(),
        tokens: state.active_tokens() + state.waiting_tokens(),
    };
    let mut scheduled_requests: Vec<ScheduledRequest> = Vec::new();
    while state.num_waiting() > 0
        invariant
            s0 == old(state)@,
            s0.wf(),
            kv == *kv_manager,
            lens == (|k: u128| s0.requests[k].len()),
            order::in_order(*state, kv),
            kv.active().dom().len() + s0.active_tokens + s0.waiting_tokens + waiting_len(s0)
                <= usize::MAX,
            candidates.len() <= s0.waiting.len(),
            state@ == after_scheduling(s0, kv, candidates),
            claims.blocks == kv.active().dom().len() + blocks_demanded(candidates),
            claims.tokens == s0.active_tokens + s0.waiting_tokens + tokens_demanded(kv, candidates),
            blocks_demanded(candidates) <= total_len(candidates),
            tokens_demanded(kv, candidates) <= total_len(candidates),
            total_len(candidates) + model::sum_over(state@.waiting, lens) == waiting_len(s0),
            chosen(s0, kv, *limits, candidates, scheduled_requests@),
        decreases state@.waiting.len(),
    {
        let ghost now = state@;
        let ghost n = candidates.len() as int;
        let ghost uuid = now.waiting[0];
        proof {
            lemma_scheduled_queues(s0, kv, candidates);
            lemma_next_unchanged(s0, kv, candidates);
            model::lemma_sum_first(now.waiting, lens);
            assert(lens(uuid) == now.requests[uuid].len());
        }
        let ghost claimed = claims;
        let r = schedule_next(state, kv_manager, limits, &mut claims);
        let ghost c = choose|c: SequenceState| #[trigger]
            considered(now, kv, *limits, claimed, c, state@, claims, r);
        let ghost more = candidates.push(c);
        proof {
            assert(more.drop_last() =~= candidates);
            assert((r is Some) == within_budgets(s0, kv, *limits, more));
        }
        match r {
            Some(request) => {
                let ghost before = scheduled_requests@;
                scheduled_requests.push(request);
                proof {
                    lemma_chosen_next(s0, kv, *limits, candidates, before, c, request);
                    candidates = more;
                }
            },
            None => {
                proof {
                    assert(scheduled(
                        s0,
                        kv,
                        *limits,
                        candidates,
                        Some(c),
                        state@,
                        scheduled_requests@,
                    ));
                }
                return scheduled_requests;
            },
        }
    }
    proof {
        lemma_scheduled_queues(s0, kv, candidates);
        assert(scheduled(s0, kv, *limits, candidates, None, state@, scheduled_requests@));
    }
    scheduled_requests
}

} // verus!
