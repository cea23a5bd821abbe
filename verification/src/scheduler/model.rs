//! The state of the scheduler's queues, and what each operation does to it.

use vstd::prelude::*;
use crate::common::evictor;
use crate::common::protocols::{PrefillCost, UniqueBlock};
use crate::common::sequence_model;
use crate::common::sequence_model::SequenceState;
use crate::common::tokens::MAX_BLOCKS;

verus! {

broadcast use {vstd::set::group_set_axioms, vstd::map::group_map_axioms};

/// A request, before or after it has become a sequence.
#[verifier::ext_equal]
pub enum RequestState {
    /// As it came in.
    Direct { tokens: Seq<u32>, max_output_tokens: nat, uuid: Option<u128>, dp_rank: u32 },
    /// A sequence in progress.
    Active { sequence: SequenceState },
}

impl RequestState {
    /// The number of tokens.
    pub open spec fn len(self) -> nat {
        match self {
            RequestState::Direct { tokens, .. } => tokens.len(),
            RequestState::Active { sequence } => sequence.tokens.len(),
        }
    }

    /// The blocks of the request that the KV manager has provided.
    pub open spec fn footprint(self) -> Seq<UniqueBlock> {
        match self {
            RequestState::Direct { .. } => Seq::empty(),
            RequestState::Active { sequence } => if sequence.creation_signal is None {
                sequence.unique_blocks
            } else {
                Seq::empty()
            },
        }
    }
}

/// A request of this size can be served: it asks for at least one token, and its prompt has no more
/// blocks than a sequence can have.
pub open spec fn admissible(num_input_tokens: nat, max_output_tokens: nat, block_size: nat) -> bool {
    &&& 0 < max_output_tokens
    &&& num_input_tokens / block_size <= MAX_BLOCKS
}

/// A sequence as the scheduler keeps it: its ids are decided by its tokens, a signal for its blocks
/// is up to date, and no block was read more often than tokens were generated, for each place where
/// it may stand.
pub open spec fn sustainable(s: SequenceState) -> bool {
    &&& s.wf()
    &&& s.faithful()
    &&& s.tokens.len() == s.num_input_tokens + s.generated_tokens
    &&& s.generated_tokens <= s.max_output_tokens
    &&& s.creation_signal is Some ==> s.creation_signal == Some(s.use_signal())
    &&& forall|id: u64| #[trigger]
        sequence_model::read_count(s.decode_block_reads, id) <= s.generated_tokens
            * s.unique_blocks.len()
}

/// One more token can be generated: there is room for it, and the reads of blocks can be counted.
pub open spec fn can_go_on(s: SequenceState) -> bool {
    &&& s.has_room()
    &&& (s.generated_tokens + 1) * (s.unique_blocks.len() + 1) <= usize::MAX
}

/// The sum of `f` over `ids`.
pub open spec fn sum_over(ids: Seq<u128>, f: spec_fn(u128) -> nat) -> nat
    decreases ids.len(),
{
    if ids.len() == 0 {
        0
    } else {
        sum_over(ids.drop_last(), f) + f(ids.last())
    }
}

/// Sums of the same numbers are the same.
pub proof fn lemma_sum_same(ids: Seq<u128>, f: spec_fn(u128) -> nat, g: spec_fn(u128) -> nat)
    requires
        forall|k: u128| ids.contains(k) ==> #[trigger] f(k) == g(k),
    ensures
        sum_over(ids, f) == sum_over(ids, g),
    decreases ids.len(),
{
    if ids.len() > 0 {
        let rest = ids.drop_last();
        assert(ids.contains(ids.last()));
        assert(f(ids.last()) == g(ids.last()));
        assert forall|k: u128| rest.contains(k) implies #[trigger] f(k) == g(k) by {
            assert(ids[rest.index_of(k)] == k);
        }
        lemma_sum_same(rest, f, g);
    }
}

/// The sum with one more id.
pub proof fn lemma_sum_push(ids: Seq<u128>, k: u128, f: spec_fn(u128) -> nat)
    ensures
        sum_over(ids.push(k), f) == sum_over(ids, f) + f(k),
{
    assert(ids.push(k).drop_last() =~= ids);
}

/// A sum of zeros.
pub proof fn lemma_sum_zero(ids: Seq<u128>, f: spec_fn(u128) -> nat)
    requires
        forall|k: u128| #[trigger] ids.contains(k) ==> f(k) == 0,
    ensures
        sum_over(ids, f) == 0,
    decreases ids.len(),
{
    if ids.len() > 0 {
        let rest = ids.drop_last();
        assert(ids.contains(ids.last()));
        assert forall|k: u128| #[trigger] rest.contains(k) implies f(k) == 0 by {
            assert(ids[rest.index_of(k)] == k);
            assert(ids.contains(k));
        }
        lemma_sum_zero(rest, f);
    }
}

/// The sum over two lists.
pub proof fn lemma_sum_concat(a: Seq<u128>, b: Seq<u128>, f: spec_fn(u128) -> nat)
    ensures
        sum_over(a + b, f) == sum_over(a, f) + sum_over(b, f),
    decreases b.len(),
{
    if b.len() > 0 {
        assert((a + b).drop_last() =~= a + b.drop_last());
        lemma_sum_concat(a, b.drop_last(), f);
    } else {
        assert(a + b =~= a);
    }
}

/// The sum with the first id apart.
pub proof fn lemma_sum_first(ids: Seq<u128>, f: spec_fn(u128) -> nat)
    requires
        ids.len() > 0,
    ensures
        sum_over(ids, f) == f(ids[0]) + sum_over(ids.drop_first(), f),
    decreases ids.len(),
{
    if ids.len() > 1 {
        lemma_sum_first(ids.drop_last(), f);
        assert(ids.drop_last().drop_first() =~= ids.drop_first().drop_last());
    } else {
        assert(ids.drop_last() =~= Seq::empty());
        assert(ids.drop_first() =~= Seq::empty());
    }
}

/// A part of a sum is no greater than the whole.
pub proof fn lemma_sum_take(ids: Seq<u128>, n: int, f: spec_fn(u128) -> nat)
    requires
        0 <= n <= ids.len(),
    ensures
        sum_over(ids.take(n), f) <= sum_over(ids, f),
    decreases ids.len() - n,
{
    if n < ids.len() {
        lemma_sum_take(ids, n + 1, f);
        assert(ids.take(n + 1).drop_last() =~= ids.take(n));
    } else {
        assert(ids.take(n) =~= ids);
    }
}

/// The state of the scheduler.
#[verifier::ext_equal]
pub struct SchedState {
    /// The requests that wait for resources, the next one first.
    pub waiting: Seq<u128>,
    /// The requests whose prompts are to be computed, the next one first.
    pub prefill: Seq<u128>,
    /// The requests whose tokens are generated, the longest running one first.
    pub decode: Seq<u128>,
    /// All requests.
    pub requests: Map<u128, RequestState>,
    /// What the prompts cost that are to be computed.
    pub prefill_costs: Map<u128, PrefillCost>,
    /// The number of tokens that may be computed in one pass.
    pub max_num_batched_tokens: Option<nat>,
    /// The number of tokens computed in this pass.
    pub active_tokens: nat,
    /// The number of prompt tokens still to be computed.
    pub waiting_tokens: nat,
}

impl SchedState {
    /// The state without requests.
    pub open spec fn empty(max_num_batched_tokens: Option<nat>) -> SchedState {
        SchedState {
            waiting: Seq::empty(),
            prefill: Seq::empty(),
            decode: Seq::empty(),
            requests: Map::empty(),
            prefill_costs: Map::empty(),
            max_num_batched_tokens,
            active_tokens: 0,
            waiting_tokens: 0,
        }
    }

    /// The sequence of a request.
    pub open spec fn sequence(self, uuid: u128) -> SequenceState {
        self.requests[uuid]->sequence
    }

    /// The request is in one of the queues.
    pub open spec fn queued(self, uuid: u128) -> bool {
        self.waiting.contains(uuid) || self.prefill.contains(uuid) || self.decode.contains(uuid)
    }

    /// The tokens that the prompt of a request still costs.
    pub open spec fn cost_tokens(self) -> spec_fn(u128) -> nat {
        |k: u128| self.prefill_costs[k].new_tokens as nat
    }

    /// Each request is in exactly one queue, and once; requests behind the waiting queue are
    /// sequences; those that are decoded have their blocks, those that wait have none; the costs
    /// of prompts are known and add up.
    pub open spec fn wf(self) -> bool {
        &&& self.waiting.no_duplicates()
        &&& self.prefill.no_duplicates()
        &&& self.decode.no_duplicates()
        &&& forall|k: u128| #[trigger]
            self.waiting.contains(k) ==> !self.prefill.contains(k) && !self.decode.contains(k)
        &&& forall|k: u128| #[trigger] self.prefill.contains(k) ==> !self.decode.contains(k)
        &&& forall|k: u128| #[trigger] self.requests.contains_key(k) <==> self.queued(k)
        &&& forall|k: u128| #[trigger]
            self.prefill_costs.contains_key(k) <==> self.prefill.contains(k)
        &&& forall|k: u128| #[trigger]
            self.prefill.contains(k) ==> self.requests[k] is Active
        &&& forall|k: u128| #[trigger]
            self.decode.contains(k) ==> self.requests[k] is Active && self.sequence(
                k,
            ).creation_signal is None
        &&& forall|k: u128|
            self.waiting.contains(k) && (#[trigger] self.requests[k]) is Active ==> self.sequence(
                k,
            ).creation_signal is Some
        &&& forall|k: u128|
            self.requests.contains_key(k) && (#[trigger] self.requests[k]) is Active
                ==> sustainable(self.sequence(k))
        &&& self.waiting_tokens == sum_over(self.prefill, self.cost_tokens())
    }

    /// A request comes in.
    pub open spec fn received(self, uuid: u128, request: RequestState) -> SchedState {
        SchedState {
            requests: self.requests.insert(uuid, request),
            waiting: self.waiting.push(uuid),
            ..self
        }
    }

    /// The next waiting request is taken out.
    pub open spec fn next_taken(self) -> SchedState {
        SchedState {
            requests: self.requests.remove(self.waiting[0]),
            waiting: self.waiting.drop_first(),
            ..self
        }
    }

    /// A request waits before all others.
    pub open spec fn first_in_line(self, uuid: u128, request: RequestState) -> SchedState {
        SchedState {
            requests: self.requests.insert(uuid, request),
            waiting: seq![uuid] + self.waiting,
            ..self
        }
    }

    /// A request waits behind all others.
    pub open spec fn last_in_line(self, uuid: u128, request: RequestState) -> SchedState {
        self.received(uuid, request)
    }

    /// The prompt of a request is to be computed.
    pub open spec fn to_prefill(
        self,
        uuid: u128,
        sequence: SequenceState,
        cost: PrefillCost,
    ) -> SchedState {
        SchedState {
            waiting_tokens: self.waiting_tokens + cost.new_tokens as nat,
            requests: self.requests.insert(uuid, RequestState::Active { sequence }),
            prefill: self.prefill.push(uuid),
            prefill_costs: self.prefill_costs.insert(uuid, cost),
            ..self
        }
    }

    /// The sequence of a request changes.
    pub open spec fn with_sequence(self, uuid: u128, sequence: SequenceState) -> SchedState {
        SchedState {
            requests: self.requests.insert(uuid, RequestState::Active { sequence }),
            ..self
        }
    }

    /// The part of the next prompt that fits into this pass, if not all of it does.
    pub open spec fn chunk(self) -> Option<nat> {
        let new_tokens = self.prefill_costs[self.prefill[0]].new_tokens as nat;
        match self.max_num_batched_tokens {
            Some(max) => if new_tokens > max - self.active_tokens {
                Some((max - self.active_tokens) as nat)
            } else {
                None
            },
            None => None,
        }
    }

    /// The next prompt is computed, as far as it fits into this pass: all of it, and the request
    /// goes on to decode; or a part, and the request stays. Either way its blocks are claimed.
    pub open spec fn prefilled(self) -> SchedState {
        let uuid = self.prefill[0];
        let cost = self.prefill_costs[uuid];
        let s = self.with_sequence(
            uuid,
            SequenceState { creation_signal: None, ..self.sequence(uuid) },
        );
        match self.chunk() {
            Some(tokens) => SchedState {
                prefill_costs: self.prefill_costs.insert(
                    uuid,
                    PrefillCost { new_tokens: (cost.new_tokens - tokens) as usize, ..cost },
                ),
                active_tokens: self.max_num_batched_tokens->0,
                waiting_tokens: (self.waiting_tokens - tokens) as nat,
                ..s
            },
            None => SchedState {
                prefill: self.prefill.drop_first(),
                decode: evictor::without(self.decode, uuid).push(uuid),
                prefill_costs: self.prefill_costs.remove(uuid),
                active_tokens: self.active_tokens + cost.new_tokens as nat,
                waiting_tokens: (self.waiting_tokens - cost.new_tokens) as nat,
                ..s
            },
        }
    }

    /// A pass over the requests that are decoded starts: each costs one token.
    pub open spec fn tokens_reset(self) -> SchedState {
        SchedState { active_tokens: self.decode.len(), ..self }
    }

    /// A request is done.
    pub open spec fn completed(self, uuid: u128) -> SchedState {
        SchedState {
            decode: evictor::without(self.decode, uuid),
            requests: self.requests.remove(uuid),
            prefill_costs: self.prefill_costs.remove(uuid),
            active_tokens: (self.active_tokens - 1) as nat,
            ..self
        }
    }

    /// The longest running request has to wait again, behind all others.
    pub open spec fn preempted(self) -> SchedState {
        let uuid = self.decode[0];
        SchedState {
            decode: self.decode.drop_first(),
            requests: self.requests.remove(uuid),
            prefill_costs: self.prefill_costs.remove(uuid),
            active_tokens: (self.active_tokens - 1) as nat,
            ..self
        }.last_in_line(uuid, RequestState::Active { sequence: self.sequence(uuid).reset() })
    }
}

} // verus!
