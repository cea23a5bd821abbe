//! The queues of the scheduler.

use std::collections::{HashMap, VecDeque};
use vstd::prelude::*;
use crate::common::evictor;
use crate::common::evictor::LRUEvictor;
use crate::common::protocols::{DirectRequest, MoveBlock, PrefillCost};
use crate::common::random;
use crate::common::sequence::ActiveSequence;
use crate::common::sequence_model;
use crate::common::tokens::MAX_BLOCKS;
use crate::scheduler::model;
use crate::scheduler::model::{RequestState, SchedState};
use crate::scheduler::queues;

verus! {

broadcast use {
    vstd::std_specs::hash::group_hash_axioms,
    vstd::set::group_set_axioms,
    vstd::map::group_map_axioms,
};

/// Enum representing either a direct request or an active sequence
pub enum Request {
    /// A request as it came in.
    Direct(Box<DirectRequest>),
    /// A sequence in progress.
    Active(Box<ActiveSequence>),
}

/// Whether a request can be served with blocks of this size.
pub fn can_serve(request: &DirectRequest, block_size: usize) -> (r: bool)
    requires
        block_size > 0,
    ensures
        r == model::admissible(
            request.tokens@.len(),
            request.max_output_tokens as nat,
            block_size as nat,
        ),
{
    request.max_output_tokens > 0 && request.tokens.len() / block_size <= MAX_BLOCKS
}

/// What a [`DirectRequest`] says.
pub open spec fn direct(request: DirectRequest) -> RequestState {
    RequestState::Direct {
        tokens: request.tokens@,
        max_output_tokens: request.max_output_tokens as nat,
        uuid: request.uuid,
        dp_rank: request.dp_rank,
    }
}

impl View for Request {
    type V = RequestState;

    open spec fn view(&self) -> RequestState {
        match *self {
            Request::Direct(request) => direct(*request),
            Request::Active(sequence) => RequestState::Active { sequence: sequence@ },
        }
    }
}

impl Request {
    /// A sequence is in order.
    pub open spec fn wf(&self) -> bool {
        match *self {
            Request::Direct(_) => true,
            Request::Active(sequence) => sequence.wf(),
        }
    }
}

/// The requests and the queues that they are in.
pub struct SchedulerState {
    waiting: VecDeque<u128>,
    prefill: VecDeque<u128>,
    decode: LRUEvictor<u128>,
    requests: HashMap<u128, Request>,
    prefill_costs: HashMap<u128, PrefillCost>,
    max_num_batched_tokens: Option<usize>,
    active_tokens: usize,
    waiting_tokens: usize,
}

impl View for SchedulerState {
    type V = SchedState;

    closed spec fn view(&self) -> SchedState {
        SchedState {
            waiting: self.waiting@,
            prefill: self.prefill@,
            decode: self.decode@,
            requests: self.requests@.map_values(|request: Request| request@),
            prefill_costs: self.prefill_costs@,
            max_num_batched_tokens: match self.max_num_batched_tokens {
                Some(max) => Some(max as nat),
                None => None,
            },
            active_tokens: self.active_tokens as nat,
            waiting_tokens: self.waiting_tokens as nat,
        }
    }
}

/// A part of the next prompt, or all of it, is computed.
pub struct PrefillAttempt {
    /// The request.
    pub uuid: u128,
    /// What the prompt cost before.
    pub prefill_cost: PrefillCost,
    /// The number of tokens computed, if not all of them are.
    pub chunk: Option<usize>,
    /// The signal that provides the blocks of the request, if they are not there yet.
    pub creation_signal: Option<MoveBlock>,
    /// Whether the entire prompt is computed.
    pub is_full_prefill: bool,
}

impl SchedulerState {
    /// The queues and the sequences are in order.
    pub closed spec fn wf(&self) -> bool {
        &&& self@.wf()
        &&& self@.active_tokens <= usize::MAX
        &&& self@.waiting_tokens <= usize::MAX
        &&& forall|k: u128| #[trigger] self.requests@.contains_key(k) ==> self.requests@[k].wf()
    }

    /// What is known of queues that are in order.
    pub proof fn lemma_wf(&self)
        requires
            self.wf(),
        ensures
            self@.wf(),
            self@.requests.dom().finite(),
            self@.active_tokens <= usize::MAX,
            self@.waiting_tokens <= usize::MAX,
            self@.max_num_batched_tokens is Some ==> self@.max_num_batched_tokens->0 <= usize::MAX,
    {
        assert(self@.requests.dom() =~= self.requests@.dom());
    }

    /// No requests.
    pub fn new(max_num_batched_tokens: Option<usize>) -> (r: Self)
        ensures
            r.wf(),
            r@ == SchedState::empty(
                match max_num_batched_tokens {
                    Some(max) => Some(max as nat),
                    None => None,
                },
            ),
    {
        let r = SchedulerState {
            waiting: VecDeque::new(),
            prefill: VecDeque::new(),
            decode: LRUEvictor::new(),
            requests: HashMap::new(),
            prefill_costs: HashMap::new(),
            max_num_batched_tokens,
            active_tokens: 0,
            waiting_tokens: 0,
        };
        assert(r@.requests =~= Map::empty());
        assert(r@.prefill_costs =~= Map::empty());
        r
    }

    /// Whether there are no requests.
    pub fn is_empty(&self) -> (r: bool)
        ensures
            r == (self@.requests == Map::<u128, RequestState>::empty()),
    {
        let r = self.requests.len() == 0;
        proof {
            assert(self@.requests.dom() =~= self.requests@.dom());
            if r {
                assert(self.requests@.dom() =~= Set::empty());
                assert(self@.requests =~= Map::empty());
            } else {
                assert(self.requests@.dom().len() != 0);
            }
        }
        r
    }

    /// Whether there is a request with this id.
    pub fn contains(&self, uuid: u128) -> (r: bool)
        ensures
            r == self@.requests.contains_key(uuid),
    {
        self.requests.contains_key(&uuid)
    }

    /// The number of requests that wait.
    pub fn num_waiting(&self) -> (n: usize)
        ensures
            n == self@.waiting.len(),
    {
        self.waiting.len()
    }

    /// The requests that wait, the next one first.
    pub fn waiting_keys(&self) -> (r: Vec<u128>)
        ensures
            r@ == self@.waiting,
    {
        let mut keys: Vec<u128> = Vec::new();
        let mut i: usize = 0;
        while i < self.waiting.len()
            invariant
                i <= self.waiting@.len(),
                keys@ == self.waiting@.take(i as int),
            decreases self.waiting@.len() - i,
        {
            keys.push(self.waiting[i]);
            i += 1;
        }
        assert(self.waiting@.take(i as int) =~= self.waiting@);
        keys
    }

    /// The number of tokens of a request, if there is one with this id.
    pub fn num_tokens(&self, uuid: u128) -> (r: Option<usize>)
        requires
            self.wf(),
        ensures
            match r {
                Some(n) => self@.requests.contains_key(uuid) && n == self@.requests[uuid].len(),
                None => !self@.requests.contains_key(uuid),
            },
    {
        match self.requests.get(&uuid) {
            Some(Request::Direct(request)) => Some(request.tokens.len()),
            Some(Request::Active(sequence)) => Some(sequence.len()),
            None => None,
        }
    }

    /// The number of tokens computed in this pass.
    pub fn active_tokens(&self) -> (n: usize)
        ensures
            n == self@.active_tokens,
    {
        self.active_tokens
    }

    /// The number of prompt tokens still to be computed.
    pub fn waiting_tokens(&self) -> (n: usize)
        ensures
            n == self@.waiting_tokens,
    {
        self.waiting_tokens
    }

    /// The number of prompts that are to be computed.
    pub fn num_prefill(&self) -> (n: usize)
        ensures
            n == self@.prefill.len(),
    {
        self.prefill.len()
    }

    /// The requests whose tokens are generated, the longest running one first.
    pub fn decode_keys(&self) -> (r: Vec<u128>)
        ensures
            r@ == self@.decode,
    {
        self.decode.keys()
    }

    /// Adds a request under a given id and puts the id at the end of the waiting queue. A request
    /// that has the id is replaced, and the id is then queued once more; only a new id keeps the
    /// queues in order.
    pub fn receive_as(&mut self, uuid: u128, request: DirectRequest)
        ensures
            final(self)@ == old(self)@.received(uuid, direct(request)),
            old(self).wf() && !old(self)@.requests.contains_key(uuid) ==> final(self).wf(),
    {
        let ghost before = self@;
        proof {
            if self.wf() && !before.requests.contains_key(uuid) {
                queues::lemma_received(before, uuid, direct(request));
            }
        }
        self.requests.insert(uuid, Request::Direct(Box::new(request)));
        self.waiting.push_back(uuid);
        assert(self@.requests =~= before.requests.insert(uuid, direct(request)));
    }

    /// Adds a request and puts its id at the end of the waiting queue: the id that the request
    /// brings, otherwise a new one. Returns the id.
    pub fn receive(&mut self, request: DirectRequest) -> (r: u128)
        ensures
            request.uuid is Some ==> r == request.uuid->0,
            final(self)@ == old(self)@.received(r, direct(request)),
            old(self).wf() && !old(self)@.requests.contains_key(r) ==> final(self).wf(),
    {
        let uuid = request_id(&request);
        self.receive_as(uuid, request);
        uuid
    }

    /// Adds a request like [`SchedulerState::receive`] if its id is new. Returns the id, or `None`
    /// where there is a request with it; then nothing has changed.
    pub fn receive_new(&mut self, request: DirectRequest) -> (r: Option<u128>)
        requires
            old(self).wf(),
        ensures
            final(self).wf(),
            exists|uuid: u128|
                (request.uuid is Some ==> uuid == request.uuid->0) && #[trigger] received_under(
                    old(self)@,
                    uuid,
                    direct(request),
                    final(self)@,
                    r,
                ),
    {
        let uuid = request_id(&request);
        let ghost asked = direct(request);
        if self.contains(uuid) {
            assert(received_under(old(self)@, uuid, asked, self@, None));
            return None;
        }
        self.receive_as(uuid, request);
        assert(received_under(old(self)@, uuid, asked, self@, Some(uuid)));
        Some(uuid)
    }

    /// Takes out the next waiting request.
    pub fn next(&mut self) -> (r: Option<(u128, Request)>)
        requires
            old(self).wf() || (old(self)@.waiting.len() > 0 ==> old(self)@.requests.contains_key(
                old(self)@.waiting[0],
            )),
        ensures
            old(self).wf() ==> final(self).wf(),
            match r {
                Some((uuid, request)) => {
                    &&& old(self)@.waiting.len() > 0
                    &&& uuid == old(self)@.waiting[0]
                    &&& old(self).wf() ==> request.wf()
                    &&& request@ == old(self)@.requests[uuid]
                    &&& final(self)@ == old(self)@.next_taken()
                },
                None => old(self)@.waiting.len() == 0 && final(self)@ == old(self)@,
            },
    {
        let ghost before = self@;
        proof {
            if self.wf() && before.waiting.len() > 0 {
                queues::lemma_next_taken(before);
            }
        }
        match self.waiting.pop_front() {
            Some(uuid) => {
                assert(self.waiting@ =~= before.waiting.drop_first());
                assert(self.requests@.contains_key(uuid));
                match self.requests.remove(&uuid) {
                    Some(request) => {
                        assert(self@.requests =~= before.requests.remove(uuid));
                        Some((uuid, request))
                    },
                    None => None,
                }
            },
            None => None,
        }
    }

    /// Puts a request at the front of the waiting queue.
    pub fn first_in_line(&mut self, uuid: u128, request: Request)
        ensures
            final(self)@ == old(self)@.first_in_line(uuid, request@),
            old(self).wf() && !old(self)@.requests.contains_key(uuid) && request.wf()
                && queues::can_wait(request@) ==> final(self).wf(),
    {
        let ghost before = self@;
        proof {
            if self.wf() && !before.requests.contains_key(uuid) && queues::can_wait(request@) {
                queues::lemma_first_in_line(before, uuid, request@);
            }
        }
        self.requests.insert(uuid, request);
        self.waiting.push_front(uuid);
        assert(self@.requests =~= before.requests.insert(uuid, request@));
        assert(self.waiting@ =~= seq![uuid] + before.waiting);
    }

    /// Puts a request at the back of the waiting queue.
    fn last_in_line(&mut self, uuid: u128, request: Request)
        requires
            old(self).wf(),
            !old(self)@.requests.contains_key(uuid),
            request.wf(),
            queues::can_wait(request@),
        ensures
            final(self).wf(),
            final(self)@ == old(self)@.last_in_line(uuid, request@),
    {
        let ghost before = self@;
        proof {
            queues::lemma_received(before, uuid, request@);
        }
        self.requests.insert(uuid, request);
        self.waiting.push_back(uuid);
        assert(self@.requests =~= before.requests.insert(uuid, request@));
    }

    /// Moves a request whose prompt is to be computed to the prefill queue.
    pub fn move_to_prefill(&mut self, uuid: u128, active_seq: ActiveSequence, cost: PrefillCost)
        requires
            old(self)@.waiting_tokens + cost.new_tokens <= usize::MAX,
        ensures
            final(self)@ == old(self)@.to_prefill(uuid, active_seq@, cost),
            old(self).wf() && !old(self)@.requests.contains_key(uuid) && active_seq.wf()
                && model::sustainable(active_seq@) ==> final(self).wf(),
    {
        let ghost before = self@;
        let ghost sequence = active_seq@;
        proof {
            if self.wf() && !before.requests.contains_key(uuid) && model::sustainable(sequence) {
                queues::lemma_to_prefill(before, uuid, sequence, cost);
            }
        }
        self.waiting_tokens = self.waiting_tokens + cost.new_tokens;
        self.requests.insert(uuid, Request::Active(Box::new(active_seq)));
        self.prefill.push_back(uuid);
        self.prefill_costs.insert(uuid, cost);
        assert(self@.requests =~= before.requests.insert(uuid, RequestState::Active { sequence }));
        assert(self@.prefill_costs =~= before.prefill_costs.insert(uuid, cost));
    }

    /// Try (chunked) prefill and move to decode queue.
    ///
    /// NOTE: the current behavior allocates the KV blocks for the entire sequence, even if only a
    /// chunk is prefilled
    pub fn try_prefill(&mut self) -> (r: Option<PrefillAttempt>)
        requires
            old(self).wf(),
            old(self)@.prefill.len() > 0 && old(self)@.max_num_batched_tokens is Some ==> old(
                self,
            )@.active_tokens <= old(self)@.max_num_batched_tokens->0,
            old(self)@.active_tokens + old(self)@.waiting_tokens <= usize::MAX,
        ensures
            final(self).wf(),
            final(self)@.active_tokens + final(self)@.waiting_tokens <= usize::MAX,
            match r {
                Some(attempt) => {
                    &&& old(self)@.prefill.len() > 0
                    &&& attempt.uuid == old(self)@.prefill[0]
                    &&& attempt.prefill_cost == old(self)@.prefill_costs[attempt.uuid]
                    &&& match attempt.chunk {
                        Some(tokens) => old(self)@.chunk() == Some(tokens as nat),
                        None => old(self)@.chunk() is None,
                    }
                    &&& attempt.is_full_prefill == (old(self)@.chunk() is None)
                    &&& match attempt.creation_signal {
                        Some(signal) => old(self)@.sequence(attempt.uuid).creation_signal == Some(
                            signal@,
                        ),
                        None => old(self)@.sequence(attempt.uuid).creation_signal is None,
                    }
                    &&& final(self)@ == old(self)@.prefilled()
                },
                None => old(self)@.prefill.len() == 0 && final(self)@ == old(self)@,
            },
    {
        let ghost before = self@;
        if self.prefill.len() == 0 {
            return None;
        }
        proof {
            queues::lemma_prefilled(before);
            queues::lemma_drop_first(before.prefill);
        }
        let uuid = self.prefill[0];
        let prefill_cost = match self.prefill_costs.remove(&uuid) {
            Some(cost) => cost,
            None => {
                return None;
            },
        };
        let new_tokens = prefill_cost.new_tokens;
        let chunk: Option<usize> = match self.max_num_batched_tokens {
            Some(max_tokens) => {
                let remaining_tokens = max_tokens - self.active_tokens;
                if new_tokens > remaining_tokens {
                    Some(remaining_tokens)
                } else {
                    None
                }
            },
            None => None,
        };
        let is_full_prefill = match chunk {
            Some(prefill_tokens) => {
                let rest = PrefillCost {
                    new_blocks: prefill_cost.new_blocks,
                    new_tokens: new_tokens - prefill_tokens,
                };
                self.prefill_costs.insert(uuid, rest);
                self.active_tokens = self.active_tokens + prefill_tokens;
                self.waiting_tokens = self.waiting_tokens - prefill_tokens;
                assert(self.prefill_costs@ =~= before.prefill_costs.insert(uuid, rest));
                false
            },
            None => {
                // Assume possible to complete prefilling the sequence, transfer to decode
                self.prefill.pop_front();
                self.decode.insert(uuid);
                self.active_tokens = self.active_tokens + new_tokens;
                self.waiting_tokens = self.waiting_tokens - new_tokens;
                assert(self.prefill@ =~= before.prefill.drop_first());
                assert(self.prefill_costs@ =~= before.prefill_costs.remove(uuid));
                true
            },
        };
        assert(self.requests@.contains_key(uuid));
        let creation_signal = match self.requests.remove(&uuid) {
            Some(Request::Active(mut sequence)) => {
                let signal = sequence.take_creation_signal();
                let ghost taken = sequence@;
                self.requests.insert(uuid, Request::Active(sequence));
                assert(self@.requests =~= before.requests.insert(
                    uuid,
                    RequestState::Active { sequence: taken },
                ));
                signal
            },
            _ => None,
        };
        assert(self@ =~= before.prefilled());
        Some(PrefillAttempt { uuid, prefill_cost, chunk, creation_signal, is_full_prefill })
    }

    /// Assumes that (chunked) prefills are completed: active tokens are 1 per decoding sequence.
    pub fn reset_active_tokens(&mut self)
        ensures
            final(self)@ == old(self)@.tokens_reset(),
            old(self).wf() ==> final(self).wf(),
    {
        self.active_tokens = self.decode.len();
        proof {
            if old(self).wf() {
                assert(self@.cost_tokens() =~= old(self)@.cost_tokens());
                lemma_reset_wf(old(self)@);
            }
        }
    }

    /// The sequence of a request whose tokens are generated.
    pub fn running(&self, uuid: u128) -> (r: Option<&ActiveSequence>)
        requires
            self.wf(),
        ensures
            match r {
                Some(sequence) => self@.decode.contains(uuid) && sequence.wf() && sequence@
                    == self@.sequence(uuid),
                None => !self@.decode.contains(uuid),
            },
    {
        if !self.decode.contains(&uuid) {
            return None;
        }
        assert(self@.requests.contains_key(uuid)) by {
            assert(self@.queued(uuid));
        }
        match self.requests.get(&uuid) {
            Some(Request::Active(sequence)) => Some(&**sequence),
            _ => None,
        }
    }

    /// Whether one more token of a request can be generated, if its tokens are.
    pub fn can_generate(&self, uuid: u128) -> (r: bool)
        requires
            self.wf(),
        ensures
            r == (self@.decode.contains(uuid) ==> model::can_go_on(self@.sequence(uuid))),
    {
        match self.running(uuid) {
            Some(sequence) => {
                if !sequence.has_room() {
                    return false;
                }
                proof {
                    sequence.lemma_wf();
                }
                let steps: usize = sequence.generated_tokens() + 1;
                match sequence.unique_blocks().len().checked_add(1) {
                    Some(blocks) => match steps.checked_mul(blocks) {
                        Some(_) => true,
                        None => false,
                    },
                    None => {
                        proof {
                            let n = sequence@.unique_blocks.len() + 1;
                            assert(steps * n >= n) by (nonlinear_arith)
                                requires
                                    steps >= 1,
                                    n >= 0,
                            ;
                        }
                        false
                    },
                }
            },
            None => true,
        }
    }

    /// Takes the sequence of a request whose tokens are generated out of the requests.
    pub(crate) fn run(&mut self, uuid: u128) -> (r: Option<ActiveSequence>)
        requires
            old(self).wf(),
        ensures
            match r {
                Some(sequence) => {
                    &&& old(self)@.decode.contains(uuid)
                    &&& sequence.wf()
                    &&& sequence@ == old(self)@.sequence(uuid)
                    &&& final(self)@ == (SchedState {
                        requests: old(self)@.requests.remove(uuid),
                        ..old(self)@
                    })
                    &&& final(self).keeps_sequences()
                },
                None => !old(self)@.decode.contains(uuid) && *final(self) == *old(self),
            },
    {
        let ghost before = self@;
        if !self.decode.contains(&uuid) {
            return None;
        }
        assert(self@.requests.contains_key(uuid)) by {
            assert(self@.queued(uuid));
        }
        assert(self.requests@.contains_key(uuid));
        match self.requests.remove(&uuid) {
            Some(Request::Active(sequence)) => {
                assert(self@.requests =~= before.requests.remove(uuid));
                Some(*sequence)
            },
            _ => None,
        }
    }

    /// The sequences are in order.
    pub(crate) closed spec fn keeps_sequences(&self) -> bool {
        forall|k: u128| #[trigger] self.requests@.contains_key(k) ==> self.requests@[k].wf()
    }

    /// Puts a sequence back that was taken out.
    pub(crate) fn resume(&mut self, uuid: u128, sequence: ActiveSequence)
        requires
            old(self).keeps_sequences(),
            old(self)@.active_tokens <= usize::MAX,
            old(self)@.with_sequence(uuid, sequence@).wf(),
            sequence.wf(),
        ensures
            final(self).wf(),
            final(self)@ == old(self)@.with_sequence(uuid, sequence@),
    {
        let ghost before = self@;
        let ghost put = sequence@;
        self.requests.insert(uuid, Request::Active(Box::new(sequence)));
        assert(self@.requests =~= before.requests.insert(
            uuid,
            RequestState::Active { sequence: put },
        ));
    }

    /// The number of requests that have left the waiting queue.
    pub fn num_active_requests(&self) -> (n: usize)
        requires
            self.wf(),
        ensures
            n == self@.prefill.len() + self@.decode.len(),
            n + self@.waiting.len() <= usize::MAX,
    {
        // The queues hold no more than all requests, which can be counted.
        let _all = self.requests.len();
        proof {
            self.lemma_wf();
            lemma_queue_sizes(self@);
            assert(self@.requests.dom() =~= self.requests@.dom());
        }
        self.prefill.len() + self.decode.len()
    }

    /// Removes a request that is done.
    pub fn complete(&mut self, uuid: u128)
        requires
            old(self)@.decode.no_duplicates(),
            old(self)@.active_tokens >= 1,
        ensures
            final(self)@ == old(self)@.completed(uuid),
            old(self).wf() && old(self)@.decode.contains(uuid) ==> final(self).wf(),
    {
        let ghost before = self@;
        proof {
            if self.wf() && before.decode.contains(uuid) {
                queues::lemma_completed(before, uuid);
            }
        }
        self.decode.remove(&uuid);
        self.requests.remove(&uuid);
        self.prefill_costs.remove(&uuid);
        self.active_tokens = self.active_tokens - 1;
        assert(self@.requests =~= before.requests.remove(uuid));
        assert(self@.prefill_costs =~= before.prefill_costs.remove(uuid));
    }

    /// Preempt the oldest running request by evicting it from running, resetting the sequence, and
    /// adding it back to the waiting queue. Returns the signals that give up its blocks, or `None`
    /// if no requests are running.
    pub fn preempt(&mut self) -> (r: Option<Vec<MoveBlock>>)
        requires
            old(self).wf(),
            old(self)@.decode.len() > 0 ==> old(self)@.active_tokens >= 1,
        ensures
            final(self).wf(),
            match r {
                Some(signals) => {
                    &&& old(self)@.decode.len() > 0
                    &&& sequence_model::signals_of(signals@) == old(self)@.sequence(
                        old(self)@.decode[0],
                    ).free_signals()
                    &&& final(self)@ == old(self)@.preempted()
                },
                None => old(self)@.decode.len() == 0 && final(self)@ == old(self)@,
            },
    {
        let ghost before = self@;
        let uuid = match self.decode.evict() {
            Some(uuid) => uuid,
            None => {
                return None;
            },
        };
        proof {
            queues::lemma_preempted(before);
            queues::lemma_completed(before, uuid);
            queues::lemma_drop_first(before.decode);
            evictor::lemma_without_at(before.decode, 0);
            assert(before.decode.remove(0) =~= before.decode.drop_first());
        }
        assert(self.requests@.contains_key(uuid));
        let request = self.requests.remove(&uuid);
        self.prefill_costs.remove(&uuid);
        self.active_tokens = self.active_tokens - 1;
        assert(self@.requests =~= before.requests.remove(uuid));
        assert(self@.prefill_costs =~= before.prefill_costs.remove(uuid));
        assert(self@ =~= before.completed(uuid));
        match request {
            Some(Request::Active(mut active_sequence)) => {
                let ghost running = active_sequence@;
                let signals = active_sequence.reset_with_signal();
                proof {
                    queues::lemma_reset(running);
                }
                self.last_in_line(uuid, Request::Active(active_sequence));
                Some(signals)
            },
            _ => None,
        }
    }
}

/// The id that a request brings, otherwise a random one.
fn request_id(request: &DirectRequest) -> (uuid: u128)
    ensures
        request.uuid is Some ==> uuid == request.uuid->0,
{
    match request.uuid {
        Some(uuid) => uuid,
        None => random::random_uuid(),
    }
}

/// A request was received under this id, or there was one with it.
pub open spec fn received_under(
    before: SchedState,
    uuid: u128,
    request: RequestState,
    after: SchedState,
    r: Option<u128>,
) -> bool {
    if before.requests.contains_key(uuid) {
        r is None && after == before
    } else {
        r == Some(uuid) && after == before.received(uuid, request)
    }
}

/// Counting the tokens of a pass anew keeps the queues in order.
proof fn lemma_reset_wf(s: SchedState)
    requires
        s.wf(),
    ensures
        s.tokens_reset().wf(),
{
    let t = s.tokens_reset();
    assert forall|k: u128| #[trigger] t.requests.contains_key(k) <==> t.queued(k) by {
        assert(s.requests.contains_key(k) <==> s.queued(k));
    }
    assert(t.cost_tokens() =~= s.cost_tokens());
}

/// The queues hold as many ids as there are requests.
proof fn lemma_queue_sizes(s: SchedState)
    requires
        s.wf(),
        s.requests.dom().finite(),
    ensures
        s.waiting.len() + s.prefill.len() + s.decode.len() == s.requests.dom().len(),
{
    s.waiting.unique_seq_to_set();
    s.prefill.unique_seq_to_set();
    s.decode.unique_seq_to_set();
    let a = s.waiting.to_set();
    let b = s.prefill.to_set();
    let c = s.decode.to_set();
    assert(a.disjoint(b));
    assert((a + b).disjoint(c));
    vstd::set_lib::lemma_set_disjoint_lens(a, b);
    vstd::set_lib::lemma_set_disjoint_lens(a + b, c);
    assert(s.requests.dom() =~= a + b + c) by {
        assert forall|k: u128| s.requests.dom().contains(k) <==> (a + b + c).contains(k) by {
            assert(s.requests.contains_key(k) <==> s.queued(k));
        }
    }
}

} // verus!
