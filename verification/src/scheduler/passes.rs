//! What a whole pass over the requests that are decoded does.

use vstd::prelude::*;
use crate::common::evictor;
use crate::common::protocols::UniqueBlock;
use crate::kv_manager::KvBackend;
use crate::scheduler::decode;
use crate::scheduler::decode::DecodeOutcome;
use crate::scheduler::model::{RequestState, SchedState};
use crate::scheduler::order;
use crate::scheduler::output;
use crate::scheduler::queues;

verus! {

broadcast use {vstd::set::group_set_axioms, vstd::map::group_map_axioms};

/// A request is done after its turn: it is complete, or its token could not be sent.
pub open spec fn done(r: DecodeOutcome, send_failed: bool) -> bool {
    r is Generated && (r->completed || send_failed)
}

/// Request `uuid` has had its turn, which came to `r`, and the turn has ended.
pub open spec fn served<B: KvBackend>(
    before: SchedState,
    uuid: u128,
    r: DecodeOutcome,
    send_failed: bool,
    after: SchedState,
) -> bool {
    exists|kv_before: B, token: u32, hash: u64, block: UniqueBlock, mid: SchedState, kv_mid: B|
        #[trigger] decode::turn(before, kv_before, uuid, token, hash, block, mid, kv_mid, r)
            && after == decode::ended(mid, uuid, done(r, send_failed))
}

/// The turn of a request and its end.
proof fn lemma_served<B: KvBackend>(
    before: SchedState,
    uuid: u128,
    r: DecodeOutcome,
    send_failed: bool,
    after: SchedState,
)
    requires
        before.wf(),
        order::unfinished(before.requests),
        before.active_tokens == before.decode.len(),
        served::<B>(before, uuid, r, send_failed, after),
    ensures
        order::unfinished(after.requests),
        after.active_tokens == after.decode.len(),
        after.prefill == before.prefill,
        forall|k: u128| #[trigger] after.decode.contains(k) ==> before.decode.contains(k),
        forall|k: u128| #[trigger]
            after.requests.contains_key(k) ==> before.requests.contains_key(k),
        forall|k: u128| #[trigger] before.waiting.contains(k) ==> after.waiting.contains(k),
        forall|k: u128|
            #![trigger after.decode.contains(k)]
            #![trigger before.decode.contains(k)]
            before.decode.contains(k) && !after.decode.contains(k) ==> if k == uuid && done(
                r,
                send_failed,
            ) {
                !after.requests.contains_key(k)
            } else {
                after.waiting.contains(k)
            },
        forall|k: u128| #[trigger]
            before.requests.contains_key(k) && !(k == uuid && done(r, send_failed))
                ==> output::goes_on(before, after, k, r is Generated && k == uuid),
        done(r, send_failed) ==> !after.requests.contains_key(uuid),
        r is Generated ==> r->completed == (output::produced(before.requests[uuid]) + 1
            == output::asked(before.requests[uuid])),
{
    let (kv_before, token, hash, block, mid, kv_mid) = choose|
        kv_before: B,
        token: u32,
        hash: u64,
        block: UniqueBlock,
        mid: SchedState,
        kv_mid: B,
    | #[trigger]
        decode::turn(before, kv_before, uuid, token, hash, block, mid, kv_mid, r) && after
            == decode::ended(mid, uuid, done(r, send_failed));
    assert forall|k: u128| #[trigger] before.requests.contains_key(k) implies output::goes_on(
        before,
        mid,
        k,
        r is Generated && k == uuid,
    ) by {
        output::lemma_turn_counts_tokens(
            before,
            kv_before,
            uuid,
            token,
            hash,
            block,
            mid,
            kv_mid,
            r,
            k,
        );
    }
    if before.decode.contains(uuid) {
        assert(before.queued(uuid));
        assert(before.requests.contains_key(uuid));
        output::lemma_turn_counts_tokens(
            before,
            kv_before,
            uuid,
            token,
            hash,
            block,
            mid,
            kv_mid,
            r,
            uuid,
        );
        evictor::lemma_without(before.decode, uuid);
        queues::lemma_drop_first(before.decode);
        assert(before.decode.contains(before.decode[0]));
        assert(before.queued(before.decode[0]));
        if r is Preempted {
            assert(mid.waiting =~= before.waiting.push(before.decode[0]));
            assert(mid.waiting[before.waiting.len() as int] == before.decode[0]);
            assert forall|k: u128| #[trigger] before.waiting.contains(k) implies
                mid.waiting.contains(k) by {
                assert(mid.waiting[before.waiting.index_of(k)] == k);
            }
        }
    }
    assert forall|k: u128| #[trigger] after.requests.contains_key(k) implies (
    match after.requests[k] {
        RequestState::Direct { .. } => true,
        RequestState::Active { sequence } => sequence.generated_tokens
            < sequence.max_output_tokens,
    }) by {
        assert(before.requests.contains_key(k));
        assert(output::goes_on(before, mid, k, r is Generated && k == uuid));
    }
}

/// The place of request `i` of a pass over the requests of `s`, after the first `n` turns: it is
/// gone, or it is decoded, or it waits again; it has the tokens that its turn has given it.
spec fn placed(
    s: SchedState,
    outcomes: Seq<DecodeOutcome>,
    send_failed: Seq<bool>,
    t: SchedState,
    n: int,
    i: int,
) -> bool {
    let k = s.decode[i];
    if i < n && done(outcomes[i], send_failed[i]) {
        !t.requests.contains_key(k)
    } else {
        &&& t.decode.contains(k) || t.waiting.contains(k)
        &&& output::goes_on(s, t, k, i < n && outcomes[i] is Generated)
    }
}

/// The first `n` turns of a pass.
proof fn lemma_turns<B: KvBackend>(
    s: SchedState,
    states: Seq<SchedState>,
    outcomes: Seq<DecodeOutcome>,
    send_failed: Seq<bool>,
    n: int,
)
    requires
        s.wf(),
        order::unfinished(s.requests),
        is_pass::<B>(s, states, outcomes, send_failed),
        forall|i: int| 0 <= i < states.len() ==> (#[trigger] states[i]).wf(),
        0 <= n <= s.decode.len(),
    ensures
        ({
            let t = states[n];
            &&& order::unfinished(t.requests)
            &&& t.active_tokens == t.decode.len()
            &&& t.prefill == s.prefill
            &&& forall|k: u128| #[trigger] t.decode.contains(k) ==> s.decode.contains(k)
            &&& forall|i: int|
                #![trigger s.decode[i]]
                0 <= i < s.decode.len() ==> placed(s, outcomes, send_failed, t, n, i)
            &&& forall|k: u128| #[trigger]
                s.requests.contains_key(k) && !s.decode.contains(k) ==> output::goes_on(
                    s,
                    t,
                    k,
                    false,
                )
            &&& forall|i: int|
                #![trigger outcomes[i]]
                0 <= i < n && outcomes[i] is Generated ==> outcomes[i]->completed == (
                output::produced(s.requests[s.decode[i]]) + 1 == output::asked(
                    s.requests[s.decode[i]],
                ))
        }),
    decreases n,
{
    let t = states[n];
    if n == 0 {
        assert forall|i: int|
            #![trigger s.decode[i]]
            0 <= i < s.decode.len() implies placed(s, outcomes, send_failed, t, n, i) by {
            assert(s.decode.contains(s.decode[i]));
            assert(s.queued(s.decode[i]));
        }
    } else {
        let m = n - 1;
        let p = states[m];
        let uuid = s.decode[m];
        let r = outcomes[m];
        lemma_turns::<B>(s, states, outcomes, send_failed, m);
        assert(served::<B>(p, uuid, r, send_failed[m], t));
        assert(p.wf() && t.wf());
        lemma_served::<B>(p, uuid, r, send_failed[m], t);
        assert(placed(s, outcomes, send_failed, p, m, m));
        assert forall|i: int|
            #![trigger s.decode[i]]
            0 <= i < s.decode.len() implies placed(s, outcomes, send_failed, t, n, i) by {
            let k = s.decode[i];
            assert(placed(s, outcomes, send_failed, p, m, i));
            if !(i < m && done(outcomes[i], send_failed[i])) {
                assert(p.requests.contains_key(k));
                assert(k == uuid ==> i == m);
            }
        }
        assert forall|k: u128| #[trigger]
            s.requests.contains_key(k) && !s.decode.contains(k) implies output::goes_on(
            s,
            t,
            k,
            false,
        ) by {
            assert(s.decode.contains(uuid));
            assert(output::goes_on(s, p, k, false));
            assert(p.requests.contains_key(k));
        }
    }
}

/// `states` are those of a pass over the requests that `s` decodes: the tokens of the pass are
/// counted anew, then each of the requests has its turn, the longest running one first.
pub open spec fn is_pass<B: KvBackend>(
    s: SchedState,
    states: Seq<SchedState>,
    outcomes: Seq<DecodeOutcome>,
    send_failed: Seq<bool>,
) -> bool {
    &&& states.len() == s.decode.len() + 1
    &&& outcomes.len() == s.decode.len()
    &&& send_failed.len() == s.decode.len()
    &&& states[0] == s.tokens_reset()
    &&& forall|i: int|
        #![trigger outcomes[i]]
        0 <= i < s.decode.len() ==> served::<B>(
            states[i],
            s.decode[i],
            outcomes[i],
            send_failed[i],
            states[i + 1],
        )
}

/// After a pass over the requests that are decoded:
/// - The tokens of the pass are one for each request that is still decoded, each of which has
///   tokens left to generate.
/// - Nobody has come to be decoded, and the prompts to compute are the same.
/// - A request is gone if and only if it is complete, or its token could not be sent. One that is
///   not decoded any more and not gone was preempted and waits, with its tokens.
/// - Each request has got one token where its turn has generated one, and is complete where this was
///   the last one that it asked for; no other request has got or lost tokens.
pub proof fn lemma_decode_pass<B: KvBackend>(
    s: SchedState,
    states: Seq<SchedState>,
    outcomes: Seq<DecodeOutcome>,
    send_failed: Seq<bool>,
)
    requires
        s.wf(),
        order::unfinished(s.requests),
        is_pass::<B>(s, states, outcomes, send_failed),
        forall|i: int| 0 <= i < states.len() ==> (#[trigger] states[i]).wf(),
    ensures
        ({
            let t = states.last();
            &&& t.active_tokens == t.decode.len()
            &&& order::unfinished(t.requests)
            &&& t.prefill == s.prefill
            &&& forall|k: u128| #[trigger] t.decode.contains(k) ==> s.decode.contains(k)
            &&& forall|i: int|
                #![trigger s.decode[i]]
                0 <= i < s.decode.len() ==> {
                    let k = s.decode[i];
                    let reported = outcomes[i] is Generated;
                    &&& !t.requests.contains_key(k) <==> done(outcomes[i], send_failed[i])
                    &&& t.requests.contains_key(k) ==> {
                        &&& t.decode.contains(k) || t.waiting.contains(k)
                        &&& output::goes_on(s, t, k, reported)
                    }
                    &&& reported ==> outcomes[i]->completed == (output::produced(s.requests[k]) + 1
                        == output::asked(s.requests[k]))
                }
            &&& forall|k: u128| #[trigger]
                s.requests.contains_key(k) && !s.decode.contains(k) ==> output::goes_on(
                    s,
                    t,
                    k,
                    false,
                )
        }),
{
    let n = s.decode.len() as int;
    lemma_turns::<B>(s, states, outcomes, send_failed, n);
    assert forall|i: int|
        #![trigger s.decode[i]]
        0 <= i < s.decode.len() implies placed(s, outcomes, send_failed, states[n], n, i) by {}
}

} // verus!
