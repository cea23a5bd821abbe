//! How much of a prompt one prefill step computes.

use vstd::prelude::*;
use crate::scheduler::laws;
use crate::scheduler::model;
use crate::scheduler::model::{RequestState, SchedState};
use crate::scheduler::prefill;
use crate::scheduler::prefill::PrefillStep;
use crate::scheduler::queues;

verus! {

broadcast use {vstd::set::group_set_axioms, vstd::map::group_map_axioms};

/// A step that does not compute all of a prompt uses up the budget of tokens: where the prompt
/// costs more tokens than the pass has left, exactly the tokens that are left are computed, the
/// rest of the prompt stays to be computed first, and no token of the budget is left.
pub proof fn lemma_cut_uses_up_budget(s: SchedState, step: PrefillStep, max: nat)
    requires
        s.wf(),
        s.prefill.len() > 0,
        s.max_num_batched_tokens == Some(max),
        s.active_tokens <= max,
        step.tells(s),
        s.active_tokens + s.prefill_costs[s.prefill[0]].new_tokens > max,
    ensures
        ({
            let t = s.prefilled();
            let k = s.prefill[0];
            let computed = max - s.active_tokens;
            &&& step.chunk is Some
            &&& step.chunk->0 == computed
            &&& step.reads is None
            &&& t.active_tokens == max
            &&& t.waiting_tokens == s.waiting_tokens - computed
            &&& t.prefill == s.prefill
            &&& t.decode == s.decode
            &&& t.prefill_costs[k].new_tokens == s.prefill_costs[k].new_tokens - computed
            &&& t.prefill_costs[k].new_tokens > 0
            &&& t.prefill_costs[k].new_blocks == s.prefill_costs[k].new_blocks
        }),
{
    assert(s.prefill.contains(s.prefill[0]));
    model::lemma_sum_first(s.prefill, s.cost_tokens());
}

/// A step computes all of a prompt where the budget of tokens allows, or where there is none: the
/// tokens that the prompt costs are computed, and the request is the last one to be decoded.
pub proof fn lemma_prompt_that_fits_is_computed(s: SchedState, step: PrefillStep)
    requires
        s.wf(),
        s.prefill.len() > 0,
        step.tells(s),
        s.max_num_batched_tokens is Some ==> s.active_tokens
            + s.prefill_costs[s.prefill[0]].new_tokens <= s.max_num_batched_tokens->0,
    ensures
        ({
            let t = s.prefilled();
            let k = s.prefill[0];
            let computed = s.prefill_costs[k].new_tokens;
            &&& step.chunk is None
            &&& step.reads is Some
            &&& t.active_tokens == s.active_tokens + computed
            &&& t.waiting_tokens == s.waiting_tokens - computed
            &&& t.prefill == s.prefill.subrange(1, s.prefill.len() as int)
            &&& t.decode == s.decode.push(k)
            &&& !t.prefill_costs.contains_key(k)
        }),
{
    let k = s.prefill[0];
    assert(s.prefill.contains(k));
    assert(!s.decode.contains(k));
    model::lemma_sum_first(s.prefill, s.cost_tokens());
    assert(s.prefilled().prefill =~= s.prefill.subrange(1, s.prefill.len() as int));
}

/// A step after which the request still stands in the prefill queue has used up the budget of
/// tokens; this takes a budget, and a prompt that costs more than what is left of it.
pub proof fn lemma_part_is_left_for_want_of_budget(s: SchedState)
    requires
        s.wf(),
        s.prefill.len() > 0,
        s.max_num_batched_tokens is Some ==> s.active_tokens <= s.max_num_batched_tokens->0,
        s.prefilled().prefill.contains(s.prefill[0]),
    ensures
        s.max_num_batched_tokens is Some,
        s.prefilled().active_tokens == s.max_num_batched_tokens->0,
        s.waiting_tokens - s.prefilled().waiting_tokens == s.max_num_batched_tokens->0
            - s.active_tokens,
        s.active_tokens + s.prefill_costs[s.prefill[0]].new_tokens > s.max_num_batched_tokens->0,
{
    let k = s.prefill[0];
    assert(s.prefill.contains(k));
    model::lemma_sum_first(s.prefill, s.cost_tokens());
    if s.chunk() is None {
        let rest = s.prefill.drop_first();
        assert(s.prefilled().prefill =~= rest);
        assert(s.prefill[rest.index_of(k) + 1] == k);
    }
}

/// A step is about the first prompt, and tells what it cost. It takes the signal that provides the
/// blocks of the request; nothing else changes of this request, nothing at all of the others, and
/// no request comes to wait or ceases to.
pub proof fn lemma_step_is_about_first_prompt(s: SchedState, step: PrefillStep, other: u128)
    requires
        s.wf(),
        s.prefill.len() > 0,
        step.tells(s),
        other != s.prefill[0],
    ensures
        ({
            let t = s.prefilled();
            let k = s.prefill[0];
            let before = s.requests[k]->sequence;
            &&& step.uuid == k
            &&& step.prefill_cost == s.prefill_costs[k]
            &&& t.waiting == s.waiting
            &&& t.max_num_batched_tokens == s.max_num_batched_tokens
            &&& t.requests.dom() == s.requests.dom()
            &&& t.requests[other] == s.requests[other]
            &&& t.requests[k] matches RequestState::Active { sequence: after } && {
                &&& after.creation_signal is None
                &&& after.tokens == before.tokens
                &&& after.unique_blocks == before.unique_blocks
                &&& after.generated_tokens == before.generated_tokens
                &&& after.max_output_tokens == before.max_output_tokens
                &&& after.num_input_tokens == before.num_input_tokens
                &&& after.decode_block_reads == before.decode_block_reads
            }
        }),
{
    assert(s.prefill.contains(s.prefill[0]));
    assert(s.queued(s.prefill[0]));
    assert(s.requests.contains_key(s.prefill[0]));
    assert(s.prefilled().requests.dom() =~= s.requests.dom());
}

/// Tokens that are computed cease to wait: complete steps do not change their sum.
proof fn lemma_tokens_move(s: SchedState, n: nat)
    requires
        s.wf(),
        n <= s.prefill.len(),
        s.max_num_batched_tokens is Some ==> s.active_tokens <= s.max_num_batched_tokens->0,
        forall|i: nat| i < n ==> (#[trigger] prefill::after_steps(s, i)).chunk() is None,
    ensures
        ({
            let t = prefill::after_steps(s, n);
            t.active_tokens + t.waiting_tokens == s.active_tokens + s.waiting_tokens
        }),
    decreases n,
{
    if n > 0 {
        let m = (n - 1) as nat;
        let p = prefill::after_steps(s, m);
        lemma_tokens_move(s, m);
        laws::lemma_prefilled_in_order(s, m);
        assert(p.prefill.contains(p.prefill[0]));
        model::lemma_sum_first(p.prefill, p.cost_tokens());
    }
}

/// A prefill phase computes every prompt token that waits, or as many as the budget of tokens
/// allows: none is computed twice or left out, and where a token is left, the budget is used up.
pub proof fn lemma_prefill_phase_computes_what_fits(s: SchedState, steps: Seq<PrefillStep>)
    requires
        s.wf(),
        s.max_num_batched_tokens is Some ==> s.active_tokens <= s.max_num_batched_tokens->0,
        steps.len() <= s.prefill.len(),
        forall|i: int|
            0 <= i < steps.len() ==> (#[trigger] steps[i]).tells(prefill::after_steps(s, i as nat)),
        forall|i: int| 0 <= i < steps.len() - 1 ==> (#[trigger] steps[i]).chunk is None,
        prefill::after_steps(s, steps.len()).prefill.len() == 0 || steps.len() > 0
            && steps.last().chunk is Some,
    ensures
        ({
            let t = prefill::after_steps(s, steps.len());
            let total = s.active_tokens + s.waiting_tokens;
            &&& t.active_tokens + t.waiting_tokens == total
            &&& t.waiting_tokens == 0 || s.max_num_batched_tokens == Some(t.active_tokens)
            &&& s.max_num_batched_tokens is None ==> t.active_tokens == total
            &&& s.max_num_batched_tokens is Some && total <= s.max_num_batched_tokens->0
                ==> t.active_tokens == total
            &&& s.max_num_batched_tokens is Some && total > s.max_num_batched_tokens->0
                ==> t.active_tokens == s.max_num_batched_tokens->0
        }),
{
    let n = steps.len();
    let t = prefill::after_steps(s, n);
    if n == 0 {
        assert(s.waiting_tokens == 0);
    } else {
        let m = (n - 1) as nat;
        let p = prefill::after_steps(s, m);
        assert forall|i: nat| i < m implies (#[trigger] prefill::after_steps(s, i)).chunk()
            is None by {
            assert(steps[i as int].tells(prefill::after_steps(s, i)));
        }
        lemma_tokens_move(s, m);
        laws::lemma_prefilled_in_order(s, m);
        assert(steps[m as int].tells(p));
        assert(t == p.prefilled());
        assert(p.prefill.contains(p.prefill[0]));
        model::lemma_sum_first(p.prefill, p.cost_tokens());
        queues::lemma_prefilled(p);
        assert(t.wf());
        if t.prefill.len() == 0 {
            assert(t.waiting_tokens == 0);
        }
    }
}

} // verus!
