//! The numbers and the rank of the events that a KV manager reports.

use vstd::prelude::*;
use crate::common::protocols::{EventRecord, Signal, UniqueBlock};
use crate::kv_manager::model;
use crate::kv_manager::model::{KvState, UseProgress};

verus! {

/// What `after` has reported since `before` is numbered one after the other, from the number that
/// was next, and carries the rank of the manager. A manager that does not report uses up no number.
pub open spec fn numbered(before: KvState, after: KvState) -> bool {
    let n = before.events.len() as int;
    &&& after.publishes == before.publishes
    &&& after.dp_rank == before.dp_rank
    &&& n <= after.events.len()
    &&& after.events.take(n) == before.events
    &&& after.next_event_id == before.next_event_id + (after.events.len() - n)
    &&& !before.publishes ==> after.events == before.events
    &&& forall|i: int|
        n <= i < after.events.len() ==> (#[trigger] after.events[i]).event_id
            == before.next_event_id + (i - n) && after.events[i].dp_rank == before.dp_rank
}

/// Nothing is reported.
proof fn lemma_same(before: KvState, after: KvState)
    requires
        after.publishes == before.publishes,
        after.dp_rank == before.dp_rank,
        after.events == before.events,
        after.next_event_id == before.next_event_id,
    ensures
        numbered(before, after),
{
    assert(after.events.take(before.events.len() as int) =~= before.events);
}

/// Reports follow each other.
proof fn lemma_then(before: KvState, mid: KvState, after: KvState)
    requires
        numbered(before, mid),
        numbered(mid, after),
    ensures
        numbered(before, after),
{
    let n = before.events.len() as int;
    assert(after.events.take(n) =~= mid.events.take(n)) by {
        assert(after.events.take(mid.events.len() as int) == mid.events);
    }
    assert forall|i: int| n <= i < after.events.len() implies (#[trigger] after.events[i]).event_id
        == before.next_event_id + (i - n) && after.events[i].dp_rank == before.dp_rank by {
        if i < mid.events.len() {
            assert(after.events.take(mid.events.len() as int)[i] == after.events[i]);
            assert(mid.events[i].event_id == before.next_event_id + (i - n));
        }
    }
}

/// The storing or the removal of blocks takes the next number; without a block, or without a
/// report, no number is used up.
pub proof fn lemma_published_numbered(
    s: KvState,
    full_blocks: Seq<u64>,
    local_hashes: Seq<u64>,
    parent_hash: Option<u64>,
    is_store: bool,
    token_ids: Option<Seq<Seq<u32>>>,
)
    ensures
        ({
            let t = s.published(full_blocks, local_hashes, parent_hash, is_store, token_ids);
            &&& numbered(s, t)
            &&& t.next_event_id == s.next_event_id + if s.publishes && full_blocks.len() > 0 {
                1int
            } else {
                0
            }
        }),
{
    let t = s.published(full_blocks, local_hashes, parent_hash, is_store, token_ids);
    assert(t.events.take(s.events.len() as int) =~= s.events);
}

/// The reports of an eviction.
proof fn lemma_evicted(s: KvState)
    ensures
        numbered(s, s.evicted()),
{
    let block = s.cache.inactive[0];
    let out = KvState { cache: s.cache.evict(), ..s };
    lemma_same(s, out);
    if block is FullBlock {
        let told = out.published(seq![block->FullBlock_0], Seq::empty(), None, false, None);
        lemma_published_numbered(out, seq![block->FullBlock_0], Seq::empty(), None, false, None);
        lemma_then(s, out, told);
        lemma_same(told, told.offloaded(block));
        lemma_then(s, told, s.evicted());
    } else {
        lemma_same(out, out.offloaded(block));
        lemma_then(s, out, s.evicted());
    }
}

/// The reports on the way from the second tier.
proof fn lemma_onboarded(s: KvState, block: UniqueBlock)
    ensures
        numbered(s, s.onboarded(block).0),
{
    let left = s.left_g2(block);
    if s.in_g2(block) && left.cache.is_full() && left.cache.inactive.len() > 0 {
        lemma_same(s, left);
        lemma_evicted(left);
        lemma_same(left.evicted(), left.evicted().boarded(block));
        lemma_then(s, left, left.evicted());
        lemma_then(s, left.evicted(), left.evicted().boarded(block));
    } else {
        lemma_same(s, s.onboarded(block).0);
    }
}

/// The reports for one block of a `Use` signal.
proof fn lemma_step(
    p: UseProgress,
    i: int,
    block: UniqueBlock,
    local_hashes: Seq<u64>,
    token_ids: Option<Seq<Seq<u32>>>,
)
    ensures
        numbered(p.state, p.step(i, block, local_hashes, token_ids).state),
{
    let s = p.state;
    let after = p.step(i, block, local_hashes, token_ids).state;
    if p.failed || s.cache.active.contains_key(block) || s.cache.inactive.contains(block) {
        lemma_same(s, after);
    } else {
        let (t, found) = s.onboarded(block);
        lemma_onboarded(s, block);
        if !found && t.cache.is_full() && t.cache.inactive.len() > 0 {
            lemma_evicted(t);
            lemma_same(t.evicted(), after);
            lemma_then(s, t, t.evicted());
            lemma_then(s, t.evicted(), after);
        } else {
            lemma_same(t, after);
            lemma_then(s, t, after);
        }
    }
}

/// The reports for the first `n` blocks of a `Use` signal.
proof fn lemma_progress(
    s: KvState,
    blocks: Seq<UniqueBlock>,
    local_hashes: Seq<u64>,
    token_ids: Option<Seq<Seq<u32>>>,
    n: nat,
)
    ensures
        numbered(s, model::use_progress(s, blocks, local_hashes, token_ids, n).state),
    decreases n,
{
    let p = model::use_progress(s, blocks, local_hashes, token_ids, n);
    if n == 0 {
        lemma_same(s, p.state);
    } else {
        let m = (n - 1) as nat;
        let before = model::use_progress(s, blocks, local_hashes, token_ids, m);
        lemma_progress(s, blocks, local_hashes, token_ids, m);
        lemma_step(before, m as int, blocks[m as int], local_hashes, token_ids);
        lemma_then(s, before.state, p.state);
    }
}

/// The reports of blocks from the second tier.
proof fn lemma_report(s: KvState, onboarded: Seq<(u64, u64, Option<u64>)>)
    ensures
        numbered(s, model::report_onboarded(s, onboarded)),
    decreases onboarded.len(),
{
    if onboarded.len() == 0 {
        lemma_same(s, s);
    } else {
        let (hash, local_hash, parent) = onboarded.last();
        let before = model::report_onboarded(s, onboarded.drop_last());
        lemma_report(s, onboarded.drop_last());
        lemma_published_numbered(before, seq![hash], seq![local_hash], parent, true, None);
        lemma_then(s, before, model::report_onboarded(s, onboarded));
    }
}

/// What a `Use` signal has reported before the blocks that were allocated.
pub proof fn lemma_use_reports(
    s: KvState,
    blocks: Seq<UniqueBlock>,
    local_hashes: Seq<u64>,
    token_ids: Option<Seq<Seq<u32>>>,
)
    ensures
        ({
            let p = model::use_progress(s, blocks, local_hashes, token_ids, blocks.len());
            numbered(s, model::report_onboarded(p.hits_traced(), p.onboarded))
        }),
{
    let p = model::use_progress(s, blocks, local_hashes, token_ids, blocks.len());
    let traced = p.hits_traced();
    lemma_progress(s, blocks, local_hashes, token_ids, blocks.len());
    lemma_same(p.state, traced);
    lemma_then(s, p.state, traced);
    lemma_report(traced, p.onboarded);
    lemma_then(s, traced, model::report_onboarded(traced, p.onboarded));
}

/// The active pool is not reported while blocks are dropped from it.
proof fn lemma_destroyed(s: KvState, blocks: Seq<UniqueBlock>, n: nat)
    ensures
        numbered(s, model::destroy_progress(s, blocks, n)),
    decreases n,
{
    if n == 0 {
        lemma_same(s, s);
    } else {
        let before = model::destroy_progress(s, blocks, (n - 1) as nat);
        lemma_destroyed(s, blocks, (n - 1) as nat);
        lemma_same(before, model::destroy_progress(s, blocks, n));
        lemma_then(s, before, model::destroy_progress(s, blocks, n));
    }
}

/// Events count up by one: the events that a signal causes, whatever the signal and whether it
/// succeeds, carry the numbers that follow each other from the one that was next, and the rank of
/// the manager. A signal without an event uses up no number.
pub proof fn lemma_signal_numbered(s: KvState, signal: Signal)
    ensures
        numbered(s, model::process_signal(s, signal).0),
{
    let t = model::process_signal(s, signal).0;
    match signal {
        Signal::Use { blocks, local_hashes, lineage_hashes, token_ids } => {
            let p = model::use_progress(s, blocks, local_hashes, token_ids, blocks.len());
            lemma_progress(s, blocks, local_hashes, token_ids, blocks.len());
            if !p.failed {
                let traced = p.hits_traced();
                let told = model::report_onboarded(traced, p.onboarded);
                lemma_same(p.state, traced);
                lemma_then(s, p.state, traced);
                lemma_report(traced, p.onboarded);
                lemma_then(s, traced, told);
                lemma_published_numbered(
                    told,
                    p.stored,
                    local_hashes,
                    model::parent_hash(p.parent),
                    true,
                    p.stored_ids,
                );
                lemma_then(s, told, t);
            }
        },
        Signal::Destroy { blocks } => {
            let mid = model::destroy_progress(s, blocks, blocks.len());
            lemma_destroyed(s, blocks, blocks.len());
            lemma_published_numbered(
                mid,
                model::full_hashes(blocks),
                Seq::empty(),
                None,
                false,
                None,
            );
            lemma_then(s, mid, t);
        },
        Signal::Deref { blocks } => {
            lemma_same(s, t);
        },
        Signal::Promote { uuid, hash, parent_hash, local_hash, lineage_hash, promoted_ids } => {
            let partial = UniqueBlock::PartialBlock(uuid);
            let full = UniqueBlock::FullBlock(hash);
            let cache = s.cache.drop_active(partial);
            let count: nat = if cache.active.contains_key(full) {
                cache.active[full]
            } else {
                0
            };
            let mid = KvState {
                cache: cache.drop_inactive(full).activate(full, count + 1),
                ..s
            }.checked(
                s.cache.active.contains_key(partial) && s.cache.active[partial] == 1 && count
                    < usize::MAX,
            );
            lemma_same(s, mid);
            if !cache.holds(full) {
                let ids = match promoted_ids {
                    Some(ids) => Some(seq![ids]),
                    None => None,
                };
                lemma_published_numbered(
                    mid,
                    seq![hash],
                    seq![local_hash],
                    parent_hash,
                    true,
                    ids,
                );
                lemma_then(s, mid, t);
            }
        },
    }
}

/// The events that a signal causes.
pub open spec fn caused(s: KvState, signal: Signal) -> Seq<EventRecord> {
    model::process_signal(s, signal).0.events.skip(s.events.len() as int)
}

/// The events that signals cause, where `states[i]` is the state in which signal `i` comes.
pub open spec fn all_caused(states: Seq<KvState>, signals: Seq<Signal>) -> Seq<EventRecord>
    decreases signals.len(),
{
    if signals.len() == 0 {
        Seq::empty()
    } else {
        all_caused(states, signals.drop_last()) + caused(
            states[signals.len() - 1],
            signals.last(),
        )
    }
}

/// Event `k` of a manager has number `k`: over any signals since a manager was made, the events
/// that they cause are numbered from zero, without gaps, and all carry its rank. This holds
/// whatever becomes of the events and trace records between two signals.
pub proof fn lemma_events_numbered(states: Seq<KvState>, signals: Seq<Signal>)
    requires
        states.len() == signals.len() + 1,
        states[0].next_event_id == 0,
        forall|i: int|
            #![trigger signals[i]]
            0 <= i < signals.len() ==> {
                let t = model::process_signal(states[i], signals[i]).0;
                &&& states[i + 1].next_event_id == t.next_event_id
                &&& states[i + 1].dp_rank == t.dp_rank
            },
    ensures
        all_caused(states, signals).len() == states.last().next_event_id,
        states.last().dp_rank == states[0].dp_rank,
        forall|k: int|
            0 <= k < all_caused(states, signals).len() ==> (#[trigger] all_caused(
                states,
                signals,
            )[k]).event_id == k && all_caused(states, signals)[k].dp_rank == states[0].dp_rank,
    decreases signals.len(),
{
    if signals.len() > 0 {
        let n = signals.len() - 1;
        let fewer = signals.drop_last();
        let less = states.drop_last();
        assert forall|i: int|
            #![trigger fewer[i]]
            0 <= i < fewer.len() implies ({
            let t = model::process_signal(less[i], fewer[i]).0;
            &&& less[i + 1].next_event_id == t.next_event_id
            &&& less[i + 1].dp_rank == t.dp_rank
        }) by {
            assert(fewer[i] == signals[i]);
        }
        lemma_events_numbered(less, fewer);
        lemma_same_caused(states, less, fewer);
        lemma_signal_numbered(states[n], signals[n]);
        assert(signals[n] == signals.last());
        let before = all_caused(states, fewer);
        let all = all_caused(states, signals);
        let t = model::process_signal(states[n], signals[n]).0;
        let m = states[n].events.len() as int;
        assert forall|k: int| 0 <= k < all.len() implies (#[trigger] all[k]).event_id == k
            && all[k].dp_rank == states[0].dp_rank by {
            if k < before.len() {
                assert(all[k] == before[k]);
            } else {
                assert(all[k] == t.events[m + k - before.len()]);
            }
        }
    }
}

/// Later states do not matter for the events caused.
proof fn lemma_same_caused(a: Seq<KvState>, b: Seq<KvState>, signals: Seq<Signal>)
    requires
        signals.len() <= a.len(),
        signals.len() <= b.len(),
        forall|i: int| 0 <= i < signals.len() ==> a[i] == b[i],
    ensures
        all_caused(a, signals) == all_caused(b, signals),
    decreases signals.len(),
{
    if signals.len() > 0 {
        lemma_same_caused(a, b, signals.drop_last());
        assert(a[signals.len() - 1] == b[signals.len() - 1]);
    }
}

} // verus!
