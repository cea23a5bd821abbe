//! What holds of the scheduler as a whole.

use vstd::prelude::*;
use crate::common::protocols::{Signal, UniqueBlock};
use crate::common::sequence_model::SequenceState;
use crate::kv_manager::accounting;
use crate::kv_manager::KvBackend;
use crate::scheduler::decode;
use crate::scheduler::decode::DecodeOutcome;
use crate::scheduler::ledger;
use crate::scheduler::model;
use crate::scheduler::model::{RequestState, SchedState};
use crate::scheduler::prefill;
use crate::scheduler::queues;
use crate::scheduler::schedule;
use crate::scheduler::schedule::{ScheduleLimits, ScheduledRequest};

verus! {

broadcast use {vstd::set::group_set_axioms, vstd::map::group_map_axioms};

/// Scheduling is fair: requests are scheduled in the order in which they wait, and those that are
/// not scheduled keep their places.
pub proof fn lemma_scheduled_in_order<B: KvBackend>(
    before: SchedState,
    kv: B,
    limits: ScheduleLimits,
    candidates: Seq<SequenceState>,
    refused: Option<SequenceState>,
    after: SchedState,
    r: Seq<ScheduledRequest>,
)
    requires
        before.wf(),
        schedule::scheduled(before, kv, limits, candidates, refused, after, r),
    ensures
        after.waiting == before.waiting.skip(candidates.len() as int),
        after.prefill == before.prefill + before.waiting.take(candidates.len() as int),
        after.decode == before.decode,
        after.active_tokens == before.active_tokens,
        after.max_num_batched_tokens == before.max_num_batched_tokens,
{
    let n = candidates.len() as int;
    schedule::lemma_scheduled_queues(before, kv, candidates);
    if refused is Some {
        assert(after.waiting =~= before.waiting.skip(n));
    }
}

/// Scheduling keeps the budgets: what the scheduled requests set aside is within the budget of
/// blocks, the requests served are no more than allowed, and without chunked prefill the tokens to
/// compute are within the budget of tokens.
pub proof fn lemma_budgets_kept<B: KvBackend>(
    before: SchedState,
    kv: B,
    limits: ScheduleLimits,
    candidates: Seq<SequenceState>,
    refused: Option<SequenceState>,
    after: SchedState,
    r: Seq<ScheduledRequest>,
)
    requires
        before.wf(),
        schedule::scheduled(before, kv, limits, candidates, refused, after, r),
        candidates.len() > 0,
    ensures
        kv.active().dom().len() + schedule::blocks_demanded(candidates) <= limits.block_budget,
        limits.max_num_seqs is Some ==> after.prefill.len() + after.decode.len()
            <= limits.max_num_seqs->0,
        limits.max_num_batched_tokens is Some && !limits.enable_chunked_prefill
            ==> after.active_tokens + after.waiting_tokens <= limits.max_num_batched_tokens->0,
{
    let n = candidates.len() as int;
    lemma_scheduled_in_order(before, kv, limits, candidates, refused, after, r);
    schedule::lemma_scheduled_queues(before, kv, candidates);
    assert(schedule::within_budgets(before, kv, limits, candidates.take(n))) by {
        assert(candidates[n - 1] == candidates.last());
    }
    assert(candidates.take(n) =~= candidates);
}

/// The initial allocation of blocks cannot fail: once requests are scheduled, the blocks of all
/// prompts to compute have slots, as the budget of blocks is within the capacity. A prompt that is
/// left from an earlier pass has its blocks, since they were provided with its first part.
pub proof fn lemma_scheduled_blocks_fit<B: KvBackend>(
    before: SchedState,
    kv: B,
    limits: ScheduleLimits,
    candidates: Seq<SequenceState>,
    refused: Option<SequenceState>,
    after: SchedState,
    r: Seq<ScheduledRequest>,
)
    requires
        before.wf(),
        after.wf(),
        kv.valid(),
        schedule::scheduled(before, kv, limits, candidates, refused, after, r),
        forall|k: u128| #[trigger]
            before.prefill.contains(k) ==> before.sequence(k).creation_signal is None,
        limits.block_budget <= kv.capacity(),
    ensures
        kv.active().dom().len() + prefill::blocks_to_claim(after) <= kv.capacity(),
{
    let n = candidates.len() as int;
    let f = prefill::claims(after);
    kv.lemma_valid();
    lemma_scheduled_in_order(before, kv, limits, candidates, refused, after, r);
    assert forall|k: u128| #[trigger] before.prefill.contains(k) implies f(k) == 0 by {
        lemma_prompt_kept(before, kv, limits, candidates, refused, after, r, k);
    }
    model::lemma_sum_zero(before.prefill, f);
    model::lemma_sum_concat(before.prefill, before.waiting.take(n), f);
    assert forall|i: int| 0 <= i < n implies f(#[trigger] before.waiting[i])
        == schedule::block_demand(candidates[i]) by {
        lemma_candidate(before, kv, limits, candidates, refused, after, r, i);
        schedule::lemma_demand_bound(candidates[i]);
    }
    lemma_claims_demanded(before.waiting, candidates, f, n);
    assert(candidates.take(n) =~= candidates);
    if n > 0 {
        lemma_budgets_kept(before, kv, limits, candidates, refused, after, r);
    }
}

/// Scheduling does not change a prompt that was to be computed before.
proof fn lemma_prompt_kept<B: KvBackend>(
    before: SchedState,
    kv: B,
    limits: ScheduleLimits,
    candidates: Seq<SequenceState>,
    refused: Option<SequenceState>,
    after: SchedState,
    r: Seq<ScheduledRequest>,
    k: u128,
)
    requires
        before.wf(),
        schedule::scheduled(before, kv, limits, candidates, refused, after, r),
        before.prefill.contains(k),
    ensures
        after.requests[k] == before.requests[k],
{
    let n = candidates.len() as int;
    schedule::lemma_scheduled_queues(before, kv, candidates);
    assert(before.queued(k));
    assert(before.requests.contains_key(k));
    if before.waiting.take(n).contains(k) {
        assert(before.waiting[before.waiting.take(n).index_of(k)] == k);
        assert(before.waiting.contains(k));
    }
    if refused is Some {
        assert(before.waiting.contains(before.waiting[n]));
    }
}

/// A scheduled request is in the prefill queue as the sequence that it has become.
proof fn lemma_candidate<B: KvBackend>(
    before: SchedState,
    kv: B,
    limits: ScheduleLimits,
    candidates: Seq<SequenceState>,
    refused: Option<SequenceState>,
    after: SchedState,
    r: Seq<ScheduledRequest>,
    i: int,
)
    requires
        before.wf(),
        after.wf(),
        schedule::scheduled(before, kv, limits, candidates, refused, after, r),
        0 <= i < candidates.len(),
    ensures
        after.requests[before.waiting[i]] == (RequestState::Active { sequence: candidates[i] }),
        candidates[i].wf(),
        candidates[i].creation_signal is Some,
{
    let n = candidates.len() as int;
    let uuid = before.waiting[i];
    lemma_scheduled_in_order(before, kv, limits, candidates, refused, after, r);
    schedule::lemma_scheduled_queues(before, kv, candidates);
    assert(before.waiting.contains(uuid));
    assert(schedule::becomes(
        before.requests[uuid],
        limits,
        kv.tokens_per_block(),
        candidates[i],
    ));
    if refused is Some {
        assert(before.waiting[n] != uuid);
    }
    assert(after.prefill[before.prefill.len() + i] == uuid);
    assert(after.prefill.contains(uuid));
    assert(after.queued(uuid));
    assert(after.requests.contains_key(uuid));
}

/// The blocks set aside for sequences, counted by request.
proof fn lemma_claims_demanded(
    waiting: Seq<u128>,
    candidates: Seq<SequenceState>,
    f: spec_fn(u128) -> nat,
    n: int,
)
    requires
        0 <= n <= candidates.len(),
        n <= waiting.len(),
        forall|i: int|
            0 <= i < n ==> f(#[trigger] waiting[i]) == schedule::block_demand(candidates[i]),
    ensures
        model::sum_over(waiting.take(n), f) == schedule::blocks_demanded(candidates.take(n)),
    decreases n,
{
    if n > 0 {
        lemma_claims_demanded(waiting, candidates, f, n - 1);
        assert(waiting.take(n).drop_last() =~= waiting.take(n - 1));
        assert(candidates.take(n).drop_last() =~= candidates.take(n - 1));
        assert(f(waiting[n - 1]) == schedule::block_demand(candidates[n - 1]));
    }
}

/// Prompts are computed in the order of the prefill queue, and their requests are decoded in that
/// order behind those that are decoded already.
pub proof fn lemma_prefilled_in_order(s: SchedState, n: nat)
    requires
        s.wf(),
        n <= s.prefill.len(),
        s.max_num_batched_tokens is Some ==> s.active_tokens <= s.max_num_batched_tokens->0,
        forall|i: nat| i < n ==> (#[trigger] prefill::after_steps(s, i)).chunk() is None,
    ensures
        ({
            let t = prefill::after_steps(s, n);
            &&& t.wf()
            &&& t.prefill == s.prefill.skip(n as int)
            &&& t.decode == s.decode + s.prefill.take(n as int)
            &&& t.waiting == s.waiting
            &&& t.max_num_batched_tokens == s.max_num_batched_tokens
            &&& t.max_num_batched_tokens is Some ==> t.active_tokens
                <= t.max_num_batched_tokens->0
        }),
    decreases n,
{
    if n == 0 {
        assert(s.prefill.skip(0) =~= s.prefill);
        assert(s.decode + s.prefill.take(0) =~= s.decode);
    } else {
        let m = (n - 1) as nat;
        let p = prefill::after_steps(s, m);
        let t = prefill::after_steps(s, n);
        lemma_prefilled_in_order(s, m);
        queues::lemma_prefilled(p);
        assert(p.chunk() is None);
        assert(p.prefill.contains(p.prefill[0]));
        assert(!p.decode.contains(p.prefill[0]));
        assert(t.prefill =~= s.prefill.skip(n as int));
        assert(t.decode =~= s.decode + s.prefill.take(n as int));
    }
}

/// Computing entire prompts changes neither the prompts behind them nor the number of tokens of
/// this pass together with those still to be computed.
proof fn lemma_prompts_behind(s: SchedState, n: nat)
    requires
        s.wf(),
        n <= s.prefill.len(),
        s.max_num_batched_tokens is Some ==> s.active_tokens <= s.max_num_batched_tokens->0,
        forall|i: nat| i < n ==> (#[trigger] prefill::after_steps(s, i)).chunk() is None,
    ensures
        ({
            let t = prefill::after_steps(s, n);
            &&& t.active_tokens + t.waiting_tokens == s.active_tokens + s.waiting_tokens
            &&& forall|i: int|
                #![trigger s.prefill[i]]
                n <= i < s.prefill.len() ==> {
                    &&& t.prefill_costs[s.prefill[i]] == s.prefill_costs[s.prefill[i]]
                    &&& t.requests[s.prefill[i]] == s.requests[s.prefill[i]]
                }
        }),
    decreases n,
{
    if n > 0 {
        let m = (n - 1) as nat;
        let p = prefill::after_steps(s, m);
        lemma_prompts_behind(s, m);
        lemma_prefilled_in_order(s, m);
        assert(p.chunk() is None);
        model::lemma_sum_first(p.prefill, p.cost_tokens());
        assert(p.prefill[0] == s.prefill[m as int]);
    }
}

/// Only the last prompt can be cut: if a prefill pass over what was scheduled, with at most one
/// prompt from an earlier pass, computes a part of a prompt only, this is the one prompt left, and
/// its blocks have been provided.
pub proof fn lemma_one_prompt_left<B: KvBackend>(
    before: SchedState,
    kv: B,
    limits: ScheduleLimits,
    candidates: Seq<SequenceState>,
    refused: Option<SequenceState>,
    after: SchedState,
    r: Seq<ScheduledRequest>,
    n: nat,
)
    requires
        before.wf(),
        after.wf(),
        schedule::scheduled(before, kv, limits, candidates, refused, after, r),
        before.prefill.len() <= 1,
        same_token_budget(before, limits),
        before.max_num_batched_tokens is Some ==> before.active_tokens
            <= before.max_num_batched_tokens->0,
        0 < n <= after.prefill.len(),
        forall|i: nat| i < n - 1 ==> (#[trigger] prefill::after_steps(after, i)).chunk() is None,
        prefill::after_steps(after, (n - 1) as nat).chunk() is Some,
    ensures
        ({
            let t = prefill::after_steps(after, n);
            &&& t.prefill.len() == 1
            &&& t.sequence(t.prefill[0]).creation_signal is None
        }),
{
    let m = (n - 1) as nat;
    let p = prefill::after_steps(after, m);
    let size = candidates.len() as int;
    lemma_scheduled_in_order(before, kv, limits, candidates, refused, after, r);
    schedule::lemma_scheduled_queues(before, kv, candidates);
    lemma_prefilled_in_order(after, m);
    lemma_prompts_behind(after, m);
    if n < after.prefill.len() {
        // The budget holds the tokens of all prompts but the last one, so that the next one fits.
        let first = p.prefill[0];
        let last = p.prefill.last();
        let rest = p.prefill.drop_first();
        assert(size > 0);
        assert(schedule::within_budgets(before, kv, limits, candidates.take(size))) by {
            assert(candidates[size - 1] == candidates.last());
        }
        assert(candidates.take(size) =~= candidates);
        assert(last == before.waiting[size - 1]);
        assert(last == after.prefill[after.prefill.len() - 1]);
        model::lemma_sum_first(p.prefill, p.cost_tokens());
        assert(rest.last() == last);
        assert(model::sum_over(rest, p.cost_tokens()) >= p.cost_tokens()(last));
        assert(after.prefill_costs[last] == schedule::cost_of(kv, candidates.last()));
        assert(p.prefill_costs[last] == after.prefill_costs[last]);
    }
}

/// The scheduler and the limits agree on the number of tokens that may be computed in one pass.
pub open spec fn same_token_budget(s: SchedState, limits: ScheduleLimits) -> bool {
    s.max_num_batched_tokens == match limits.max_num_batched_tokens {
        Some(max) => Some(max as nat),
        None => None,
    }
}

/// No more than one prompt is left from earlier passes, and its blocks have been provided.
pub open spec fn prompts_settled(s: SchedState) -> bool {
    &&& s.prefill.len() <= 1
    &&& forall|k: u128| #[trigger] s.prefill.contains(k) ==> s.sequence(k).creation_signal is None
}

/// Passes repeat: where no more than one prompt was left from earlier passes, with its blocks
/// provided, this is so again after requests have been scheduled and a prefill pass has been made,
/// whether the pass has computed all prompts or has ended with a part of one. Therefore the
/// allocation of blocks cannot fail in the pass after it either.
pub proof fn lemma_prompts_settled_again<B: KvBackend>(
    before: SchedState,
    kv: B,
    limits: ScheduleLimits,
    candidates: Seq<SequenceState>,
    refused: Option<SequenceState>,
    after: SchedState,
    r: Seq<ScheduledRequest>,
    n: nat,
)
    requires
        before.wf(),
        after.wf(),
        kv.valid(),
        schedule::scheduled(before, kv, limits, candidates, refused, after, r),
        prompts_settled(before),
        limits.block_budget <= kv.capacity(),
        same_token_budget(before, limits),
        before.max_num_batched_tokens is Some ==> before.active_tokens
            <= before.max_num_batched_tokens->0,
        n <= after.prefill.len(),
        forall|i: nat| i < n - 1 ==> (#[trigger] prefill::after_steps(after, i)).chunk() is None,
        prefill::after_steps(after, n).prefill.len() == 0 || n > 0 && prefill::after_steps(
            after,
            (n - 1) as nat,
        ).chunk() is Some,
    ensures
        kv.active().dom().len() + prefill::blocks_to_claim(after) <= kv.capacity(),
        prompts_settled(prefill::after_steps(after, n)),
{
    let t = prefill::after_steps(after, n);
    lemma_scheduled_blocks_fit(before, kv, limits, candidates, refused, after, r);
    if t.prefill.len() > 0 {
        lemma_one_prompt_left(before, kv, limits, candidates, refused, after, r, n);
        assert(forall|k: u128| #[trigger] t.prefill.contains(k) ==> k == t.prefill[0]);
    }
}

/// The turns of a decode pass do not touch the prompts that are left.
pub proof fn lemma_turn_keeps_prompts<B: KvBackend>(
    before: SchedState,
    kv_before: B,
    uuid: u128,
    token: u32,
    hash: u64,
    block: UniqueBlock,
    after: SchedState,
    kv_after: B,
    r: DecodeOutcome,
)
    requires
        before.wf(),
        prompts_settled(before),
        decode::turn(before, kv_before, uuid, token, hash, block, after, kv_after, r),
    ensures
        prompts_settled(after),
{
    if before.decode.len() > 0 {
        assert(before.decode.contains(before.decode[0]));
    }
    assert forall|k: u128| #[trigger] after.prefill.contains(k) implies after.sequence(
        k,
    ).creation_signal is None by {
        assert(before.prefill.contains(k));
        assert(after.requests[k] == before.requests[k]);
    }
}

/// Neither the start of a decode pass, nor the end of a request, nor one that comes in touches the
/// prompts that are left.
pub proof fn lemma_others_keep_prompts(
    s: SchedState,
    done: u128,
    uuid: u128,
    request: RequestState,
)
    requires
        s.wf(),
        prompts_settled(s),
    ensures
        prompts_settled(s.tokens_reset()),
        s.decode.contains(done) ==> prompts_settled(s.completed(done)),
        !s.requests.contains_key(uuid) ==> prompts_settled(s.received(uuid, request)),
{
    assert forall|k: u128| #[trigger] s.prefill.contains(k) implies s.requests.contains_key(k) by {
        assert(s.queued(k));
    }
}

/// A preempted request waits behind all others for its blocks; it keeps its tokens, and no request
/// is lost.
pub proof fn lemma_preempted_waits_last(s: SchedState)
    requires
        s.wf(),
        s.decode.len() > 0,
    ensures
        ({
            let t = s.preempted();
            let uuid = s.decode[0];
            &&& t.waiting == s.waiting.push(uuid)
            &&& t.decode == s.decode.drop_first()
            &&& t.requests.dom() == s.requests.dom()
            &&& forall|k: u128| #[trigger]
                s.requests.contains_key(k) && k != uuid ==> t.requests[k] == s.requests[k]
            &&& t.sequence(uuid).tokens == s.sequence(uuid).tokens
            &&& t.sequence(uuid).generated_tokens == s.sequence(uuid).generated_tokens
            &&& t.sequence(uuid).creation_signal == Some(s.sequence(uuid).use_signal())
        }),
{
    queues::lemma_preempted(s);
    assert(s.preempted().requests.dom() =~= s.requests.dom());
}

/// Giving up the blocks of a sequence undoes the signal that has provided them.
pub proof fn lemma_free_undoes_use(active: Map<UniqueBlock, nat>, s: SequenceState)
    requires
        accounting::counted(active),
        s.wf(),
        s.ends_partial() ==> !active.contains_key(s.unique_blocks.last()),
    ensures
        accounting::applied_all(accounting::applied(active, s.use_signal()), s.free_signals())
            == active,
{
    assert(s.free_signals() =~= ledger::frees(s.unique_blocks));
    lemma_frees_undo(active, s.unique_blocks);
}

/// Giving up blocks undoes their use.
proof fn lemma_frees_undo(active: Map<UniqueBlock, nat>, blocks: Seq<UniqueBlock>)
    requires
        accounting::counted(active),
        forall|i: int| 0 <= i < blocks.len() - 1 ==> #[trigger] blocks[i] is FullBlock,
        blocks.len() > 0 && blocks.last() is PartialBlock ==> !active.contains_key(blocks.last()),
    ensures
        accounting::applied_all(accounting::taken(active, blocks), ledger::frees(blocks)) == active,
    decreases blocks.len(),
{
    let signals = ledger::frees(blocks);
    if blocks.len() == 0 {
        accounting::lemma_taken_none(active, blocks);
        assert(signals =~= Seq::empty());
    } else {
        let n = blocks.len() as int;
        let last = blocks.last();
        let rest = blocks.drop_last();
        assert(signals[0] == crate::common::sequence_model::free_block(last));
        assert(signals.drop_first() =~= ledger::frees(rest));
        let used = accounting::taken(active, blocks);
        let before = accounting::taken(active, rest);
        let after = accounting::applied(used, signals[0]);
        let use_blocks = Signal::Use {
            blocks,
            local_hashes: Seq::empty(),
            lineage_hashes: Seq::empty(),
            token_ids: None,
        };
        let use_rest = Signal::Use {
            blocks: rest,
            local_hashes: Seq::empty(),
            lineage_hashes: Seq::empty(),
            token_ids: None,
        };
        assert forall|b: UniqueBlock| #[trigger] accounting::refs(after, b) == accounting::refs(
            before,
            b,
        ) by {
            accounting::lemma_applied_refs(active, use_blocks, b);
            accounting::lemma_applied_refs(active, use_rest, b);
            accounting::lemma_applied_refs(used, signals[0], b);
            ledger::lemma_occurrences_last(blocks, b);
            ledger::lemma_occurrences_push(Seq::empty(), last, b);
            ledger::lemma_occurrences_none(b);
            assert(Seq::<UniqueBlock>::empty().push(last) =~= seq![last]);
            assert(seq![last].contains(b) <==> b == last) by {
                assert(seq![last][0] == last);
            }
            if b == last && last is PartialBlock {
                ledger::lemma_partial_once(blocks, b);
            }
        }
        accounting::lemma_applied_refs(active, use_blocks, last);
        accounting::lemma_applied_refs(active, use_rest, last);
        accounting::lemma_applied_refs(used, signals[0], last);
        accounting::lemma_same_refs(after, before);
        lemma_frees_undo(active, rest);
    }
}

} // verus!
