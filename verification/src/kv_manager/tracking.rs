//! What can be known of a KV manager's first tier from the events that it reports.

use vstd::prelude::*;
use crate::cache::hash_cache;
use crate::common::evictor;
use crate::common::protocols::{
    Change, EventRecord, KvCacheStoredBlockData, Signal, UniqueBlock,
};
use crate::kv_manager::accounting;
use crate::kv_manager::effects;
use crate::kv_manager::model;
use crate::kv_manager::model::{KvState, UseProgress};

verus! {

broadcast use {vstd::set::group_set_axioms, vstd::map::group_map_axioms};

/// The hashes of stored blocks.
pub open spec fn stored_hashes(blocks: Seq<KvCacheStoredBlockData>) -> Seq<u64> {
    Seq::new(blocks.len(), |i: int| blocks[i].block_hash)
}

/// The blocks known after an event, where `known` are those known before.
pub open spec fn told(known: Set<u64>, change: Change) -> Set<u64> {
    match change {
        Change::Stored { blocks, .. } => known.union(stored_hashes(blocks).to_set()),
        Change::Removed { block_hashes } => known.difference(block_hashes.to_set()),
    }
}

/// The event makes sense to whoever knows `known`: stored blocks are new and follow a known one,
/// removed blocks are known.
pub open spec fn coherent(known: Set<u64>, change: Change) -> bool {
    match change {
        Change::Stored { parent_hash, blocks } => {
            &&& parent_hash is Some ==> known.contains(parent_hash->0)
            &&& forall|h: u64| #[trigger] stored_hashes(blocks).contains(h) ==> !known.contains(h)
        },
        Change::Removed { block_hashes } => forall|h: u64| #[trigger]
            block_hashes.contains(h) ==> known.contains(h),
    }
}

/// The blocks known after some events.
pub open spec fn told_all(known: Set<u64>, events: Seq<EventRecord>) -> Set<u64>
    decreases events.len(),
{
    if events.len() == 0 {
        known
    } else {
        told(told_all(known, events.drop_last()), events.last().change)
    }
}

/// Each of the events makes sense to whoever has followed the ones before.
pub open spec fn all_coherent(known: Set<u64>, events: Seq<EventRecord>) -> bool
    decreases events.len(),
{
    events.len() > 0 ==> {
        &&& all_coherent(known, events.drop_last())
        &&& coherent(told_all(known, events.drop_last()), events.last().change)
    }
}

/// The complete blocks in the first tier.
pub open spec fn kept_hashes(s: KvState) -> Set<u64> {
    Set::new(|h: u64| s.cache.holds(UniqueBlock::FullBlock(h)))
}

/// The events that `after` has reported since `before` are numbered one after the other, make sense
/// to whoever knows the blocks in the first tier of `before`, and let them know `known`.
pub open spec fn reported(before: KvState, after: KvState, known: Set<u64>) -> bool {
    let n = before.events.len() as int;
    &&& after.events.len() >= n
    &&& after.events.take(n) == before.events
    &&& after.next_event_id == before.next_event_id + after.events.len() - n
    &&& forall|i: int|
        n <= i < after.events.len() ==> (#[trigger] after.events[i]).event_id
            == before.next_event_id + i - n
    &&& all_coherent(kept_hashes(before), after.events.skip(n))
    &&& told_all(kept_hashes(before), after.events.skip(n)) == known
}

/// The signal tells enough for its effects to be reported: a complete block comes with its content
/// hash and once, and the parent of a promoted block is in the first tier.
pub open spec fn reportable(s: KvState, signal: Signal) -> bool {
    match signal {
        Signal::Use { blocks, local_hashes, .. } => {
            &&& blocks.no_duplicates()
            &&& forall|i: int|
                0 <= i < blocks.len() && (#[trigger] blocks[i]) is FullBlock ==> i
                    < local_hashes.len()
        },
        Signal::Promote { parent_hash, .. } => parent_hash is Some ==> kept_hashes(s).contains(
            parent_hash->0,
        ),
        _ => true,
    }
}

/// One more event is reported.
proof fn lemma_reported_next(before: KvState, mid: KvState, after: KvState, known: Set<u64>)
    requires
        reported(before, mid, known),
        after.events == mid.events.push(after.events.last()),
        after.events.last().event_id == mid.next_event_id,
        after.next_event_id == mid.next_event_id + 1,
        coherent(known, after.events.last().change),
    ensures
        reported(before, after, told(known, after.events.last().change)),
{
    let n = before.events.len() as int;
    assert(after.events.take(n) =~= mid.events.take(n));
    assert(after.events.skip(n).drop_last() =~= mid.events.skip(n));
}

/// Nothing is reported.
proof fn lemma_reported_same(before: KvState, mid: KvState, after: KvState, known: Set<u64>)
    requires
        reported(before, mid, known),
        after.events == mid.events,
        after.next_event_id == mid.next_event_id,
    ensures
        reported(before, after, known),
{
}

/// Stored or removed blocks are reported.
proof fn lemma_published(
    before: KvState,
    s: KvState,
    known: Set<u64>,
    full_blocks: Seq<u64>,
    local_hashes: Seq<u64>,
    parent_hash: Option<u64>,
    is_store: bool,
    token_ids: Option<Seq<Seq<u32>>>,
)
    requires
        reported(before, s, known),
        s.publishes,
        is_store ==> (parent_hash is Some && full_blocks.len() > 0 ==> known.contains(
            parent_hash->0,
        )),
        is_store ==> forall|h: u64| #[trigger] full_blocks.contains(h) ==> !known.contains(h),
        !is_store ==> forall|h: u64| #[trigger] full_blocks.contains(h) ==> known.contains(h),
    ensures
        reported(
            before,
            s.published(full_blocks, local_hashes, parent_hash, is_store, token_ids),
            if is_store {
                known.union(full_blocks.to_set())
            } else {
                known.difference(full_blocks.to_set())
            },
        ),
{
    let t = s.published(full_blocks, local_hashes, parent_hash, is_store, token_ids);
    if full_blocks.len() == 0 {
        assert(full_blocks.to_set() =~= Set::empty());
        assert(known.union(full_blocks.to_set()) =~= known);
        assert(known.difference(full_blocks.to_set()) =~= known);
    } else {
        assert(stored_hashes(model::stored_blocks(full_blocks, local_hashes)) =~= full_blocks);
        assert(t.events == s.events.push(t.events.last()));
        lemma_reported_next(before, s, t, known);
    }
}

/// The hashes of blocks that have come from the second tier.
pub open spec fn onboarded_hashes(onboarded: Seq<(u64, u64, Option<u64>)>) -> Seq<u64> {
    Seq::new(onboarded.len(), |i: int| onboarded[i].0)
}

/// The blocks that will be reported when the signal has been processed.
pub open spec fn pending(p: UseProgress) -> Set<u64> {
    p.stored.to_set().union(onboarded_hashes(p.onboarded).to_set())
}

/// What has been reported, and what will be, while the blocks of a `Use` signal are processed.
pub open spec fn tracks(
    s: KvState,
    blocks: Seq<UniqueBlock>,
    n: int,
    p: UseProgress,
) -> bool {
    let active = p.state.cache.active;
    &&& effects::tiers(p.state)
    &&& p.state.publishes
    &&& reported(s, p.state, kept_hashes(p.state).difference(pending(p)))
    &&& forall|h: u64| #[trigger]
        p.stored.contains(h) ==> active.contains_key(UniqueBlock::FullBlock(h))
            && !onboarded_hashes(p.onboarded).contains(h) && blocks.take(n).contains(
            UniqueBlock::FullBlock(h),
        )
    &&& forall|h: u64| #[trigger]
        onboarded_hashes(p.onboarded).contains(h) ==> active.contains_key(UniqueBlock::FullBlock(h))
    &&& onboarded_hashes(p.onboarded).no_duplicates()
    &&& forall|k: int|
        #![trigger p.onboarded[k]]
        0 <= k < p.onboarded.len() && p.onboarded[k].2 is Some ==> active.contains_key(
            UniqueBlock::FullBlock(p.onboarded[k].2->0),
        ) && !p.stored.contains(p.onboarded[k].2->0)
    &&& forall|k: int, m: int|
        #![trigger p.onboarded[k], p.onboarded[m]]
        0 <= k <= m < p.onboarded.len() ==> p.onboarded[k].2 != Some(p.onboarded[m].0)
    &&& model::parent_hash(p.parent) is Some ==> active.contains_key(p.parent->0)
        && !p.stored.contains(model::parent_hash(p.parent)->0)
}

/// The eviction of a block is reported.
proof fn lemma_evicted(s: KvState, x: KvState, waiting: Set<u64>)
    requires
        effects::tiers(x),
        x.publishes,
        x.cache.inactive.len() > 0,
        reported(s, x, kept_hashes(x).difference(waiting)),
        forall|h: u64| #[trigger]
            waiting.contains(h) ==> x.cache.active.contains_key(UniqueBlock::FullBlock(h)),
    ensures
        reported(s, x.evicted(), kept_hashes(x.evicted()).difference(waiting)),
{
    let block = x.cache.inactive[0];
    let known = kept_hashes(x).difference(waiting);
    effects::lemma_evicted(x);
    hash_cache::lemma_evict(x.cache);
    assert(x.cache.inactive.contains(block));
    let out = KvState { cache: x.cache.evict(), ..x };
    assert forall|h: u64| kept_hashes(x.evicted()).contains(h) <==> kept_hashes(x).contains(h)
        && UniqueBlock::FullBlock(h) != block by {
        assert(x.cache.evict().inactive.contains(UniqueBlock::FullBlock(h))
            <==> x.cache.inactive.contains(UniqueBlock::FullBlock(h)) && UniqueBlock::FullBlock(h)
            != block);
    }
    if block is FullBlock {
        let hash = block->FullBlock_0;
        assert(kept_hashes(x).contains(hash));
        let told = out.published(seq![hash], Seq::empty(), None, false, None);
        lemma_reported_same(s, x, out, known);
        lemma_published(s, out, known, seq![hash], Seq::empty(), None, false, None);
        effects::lemma_offloaded(told, block);
        assert(seq![hash].to_set() =~= set![hash]) by {
            assert(seq![hash][0] == hash);
        }
        assert(kept_hashes(x.evicted()).difference(waiting) =~= known.difference(
            seq![hash].to_set(),
        ));
    } else {
        effects::lemma_offloaded(out, block);
        assert(kept_hashes(x.evicted()).difference(waiting) =~= known);
    }
}

/// Coming from the second tier, a block may push another one out of the first.
proof fn lemma_onboarded(s: KvState, x: KvState, block: UniqueBlock, waiting: Set<u64>)
    requires
        effects::tiers(x),
        x.publishes,
        !x.cache.holds(block),
        reported(s, x, kept_hashes(x).difference(waiting)),
        forall|h: u64| #[trigger]
            waiting.contains(h) ==> x.cache.active.contains_key(UniqueBlock::FullBlock(h)),
    ensures
        x.onboarded(block).1 ==> reported(
            s,
            x.onboarded(block).0,
            kept_hashes(x.onboarded(block).0).difference(
                if block is FullBlock {
                    waiting.insert(block->FullBlock_0)
                } else {
                    waiting
                },
            ),
        ),
        !x.onboarded(block).1 ==> reported(
            s,
            x.onboarded(block).0,
            kept_hashes(x.onboarded(block).0).difference(waiting),
        ),
{
    effects::lemma_onboarded(x, block);
    let known = kept_hashes(x).difference(waiting);
    let after = x.onboarded(block).0;
    if x.in_g2(block) {
        let left = x.left_g2(block);
        lemma_reported_same(s, x, left, known);
        assert(kept_hashes(left) =~= kept_hashes(x));
        hash_cache::lemma_drop_inactive(x.g2->0, block);
        let more = if block is FullBlock {
            waiting.insert(block->FullBlock_0)
        } else {
            waiting
        };
        if !left.cache.is_full() {
            assert(kept_hashes(after).difference(more) =~= known);
            lemma_reported_same(s, left, after, known);
        } else if left.cache.inactive.len() > 0 {
            lemma_evicted(s, left, waiting);
            effects::lemma_evicted(left);
            hash_cache::lemma_evict(left.cache);
            let out = left.evicted();
            assert(!out.cache.holds(block));
            let now = kept_hashes(out).difference(waiting);
            assert(kept_hashes(after).difference(more) =~= now);
            lemma_reported_same(s, out, after, now);
        } else {
            assert(kept_hashes(after) =~= kept_hashes(x));
            lemma_reported_same(s, left, after, known);
        }
    }
}

/// The first blocks of a signal are among the first ones and one more.
proof fn lemma_take_next(blocks: Seq<UniqueBlock>, n: int)
    requires
        0 <= n < blocks.len(),
    ensures
        blocks.take(n + 1).contains(blocks[n]),
        forall|b: UniqueBlock| #[trigger]
            blocks.take(n).contains(b) ==> blocks.take(n + 1).contains(b),
        blocks.no_duplicates() ==> !blocks.take(n).contains(blocks[n]),
{
    assert(blocks.take(n + 1)[n] == blocks[n]);
    assert forall|b: UniqueBlock| #[trigger] blocks.take(n).contains(b) implies blocks.take(
        n + 1,
    ).contains(b) by {
        assert(blocks.take(n + 1)[blocks.take(n).index_of(b)] == b);
    }
}

/// A block of a `Use` signal that is in the first tier.
proof fn lemma_found(
    s: KvState,
    blocks: Seq<UniqueBlock>,
    n: int,
    p: UseProgress,
    local_hashes: Seq<u64>,
    token_ids: Option<Seq<Seq<u32>>>,
)
    requires
        tracks(s, blocks, n, p),
        0 <= n < blocks.len(),
        blocks.no_duplicates(),
        !p.failed,
        p.state.cache.holds(blocks[n]),
        accounting::refs(p.state.cache.active, blocks[n]) < usize::MAX,
    ensures
        tracks(s, blocks, n + 1, p.step(n, blocks[n], local_hashes, token_ids)),
{
    let block = blocks[n];
    let q = p.step(n, block, local_hashes, token_ids);
    effects::lemma_step(p, n, block, local_hashes, token_ids);
    lemma_take_next(blocks, n);
    if !p.state.cache.active.contains_key(block) {
        hash_cache::lemma_drop_inactive(p.state.cache, block);
        assert forall|b: UniqueBlock| q.state.cache.inactive.contains(b) implies
            p.state.cache.inactive.contains(b) by {
            assert(p.state.cache.drop_inactive(block).inactive.contains(b));
        }
        assert forall|b: UniqueBlock| p.state.cache.inactive.contains(b) && b != block implies
            q.state.cache.inactive.contains(b) by {
            assert(p.state.cache.drop_inactive(block).inactive.contains(b));
        }
    }
    assert(q.stored == p.stored && q.onboarded == p.onboarded);
    assert forall|h: u64| kept_hashes(q.state).contains(h) <==> kept_hashes(p.state).contains(h) by {
    }
    assert(kept_hashes(q.state).difference(pending(q)) =~= kept_hashes(p.state).difference(
        pending(p),
    ));
    lemma_reported_same(s, p.state, q.state, kept_hashes(p.state).difference(pending(p)));
}

/// A block of a `Use` signal that comes from the second tier.
proof fn lemma_found_in_g2(
    s: KvState,
    blocks: Seq<UniqueBlock>,
    n: int,
    p: UseProgress,
    local_hashes: Seq<u64>,
    token_ids: Option<Seq<Seq<u32>>>,
)
    requires
        tracks(s, blocks, n, p),
        0 <= n < blocks.len(),
        blocks.no_duplicates(),
        blocks[n] is FullBlock ==> n < local_hashes.len(),
        !p.failed,
        !p.state.cache.holds(blocks[n]),
        p.state.onboarded(blocks[n]).1,
    ensures
        tracks(s, blocks, n + 1, p.step(n, blocks[n], local_hashes, token_ids)),
{
    let block = blocks[n];
    let q = p.step(n, block, local_hashes, token_ids);
    let old_hashes = onboarded_hashes(p.onboarded);
    let new_hashes = onboarded_hashes(q.onboarded);
    effects::lemma_step(p, n, block, local_hashes, token_ids);
    effects::lemma_onboarded(p.state, block);
    lemma_take_next(blocks, n);
    lemma_onboarded(s, p.state, block, pending(p));
    assert(q.stored == p.stored);
    if block is FullBlock {
        let hash = block->FullBlock_0;
        assert(new_hashes =~= old_hashes.push(hash));
        assert forall|h: u64| #[trigger] new_hashes.contains(h) <==> old_hashes.contains(h) || h
            == hash by {
            if old_hashes.contains(h) {
                assert(new_hashes[old_hashes.index_of(h)] == h);
            }
            if h == hash {
                assert(new_hashes[old_hashes.len() as int] == h);
            }
        }
        assert(pending(q) =~= pending(p).insert(hash));
        let last = p.onboarded.len() as int;
        assert(q.onboarded == p.onboarded.push(
            (hash, local_hashes[n], model::parent_hash(p.parent)),
        ));
        evictor::lemma_push_distinct(old_hashes, hash);
        assert forall|k: int|
            #![trigger q.onboarded[k]]
            0 <= k < q.onboarded.len() && q.onboarded[k].2 is Some implies
            q.state.cache.active.contains_key(UniqueBlock::FullBlock(q.onboarded[k].2->0))
            && !q.stored.contains(q.onboarded[k].2->0) by {
            if k < last {
                assert(p.onboarded[k] == q.onboarded[k]);
            }
        }
        assert forall|k: int, m: int|
            #![trigger q.onboarded[k], q.onboarded[m]]
            0 <= k <= m < q.onboarded.len() implies q.onboarded[k].2 != Some(q.onboarded[m].0) by {
            if k < last {
                assert(p.onboarded[k] == q.onboarded[k]);
            }
            if m < last {
                assert(p.onboarded[m] == q.onboarded[m]);
            }
        }
    } else {
        assert(q.onboarded == p.onboarded);
        assert(pending(q) =~= pending(p));
    }
}

/// A block of a `Use` signal that gets a slot.
proof fn lemma_allocated(
    s: KvState,
    blocks: Seq<UniqueBlock>,
    n: int,
    p: UseProgress,
    local_hashes: Seq<u64>,
    token_ids: Option<Seq<Seq<u32>>>,
)
    requires
        tracks(s, blocks, n, p),
        0 <= n < blocks.len(),
        blocks.no_duplicates(),
        !p.failed,
        !p.state.cache.holds(blocks[n]),
        !p.state.onboarded(blocks[n]).1,
        !p.step(n, blocks[n], local_hashes, token_ids).failed,
    ensures
        tracks(s, blocks, n + 1, p.step(n, blocks[n], local_hashes, token_ids)),
{
    let block = blocks[n];
    let q = p.step(n, block, local_hashes, token_ids);
    effects::lemma_step(p, n, block, local_hashes, token_ids);
    effects::lemma_onboarded(p.state, block);
    lemma_take_next(blocks, n);
    lemma_onboarded(s, p.state, block, pending(p));
    let tried = p.state.onboarded(block).0;
    let roomy = if tried.cache.is_full() {
        lemma_evicted(s, tried, pending(p));
        effects::lemma_evicted(tried);
        hash_cache::lemma_evict(tried.cache);
        tried.evicted()
    } else {
        tried
    };
    assert(!roomy.cache.holds(block));
    assert(q.onboarded == p.onboarded);
    let known = kept_hashes(roomy).difference(pending(p));
    if block is FullBlock {
        let hash = block->FullBlock_0;
        assert(q.stored == p.stored.push(hash));
        assert forall|h: u64| #[trigger] q.stored.contains(h) <==> p.stored.contains(h) || h
            == hash by {
            if p.stored.contains(h) {
                assert(q.stored[p.stored.index_of(h)] == h);
            }
            if h == hash {
                assert(q.stored[p.stored.len() as int] == h);
            }
        }
        assert(pending(q) =~= pending(p).insert(hash));
    }
    assert(kept_hashes(q.state).difference(pending(q)) =~= known);
    lemma_reported_same(s, roomy, q.state, known);
}

/// A block of a `Use` signal is processed.
proof fn lemma_tracks_step(
    s: KvState,
    blocks: Seq<UniqueBlock>,
    n: int,
    p: UseProgress,
    local_hashes: Seq<u64>,
    token_ids: Option<Seq<Seq<u32>>>,
)
    requires
        tracks(s, blocks, n, p),
        0 <= n < blocks.len(),
        blocks.no_duplicates(),
        blocks[n] is FullBlock ==> n < local_hashes.len(),
        !p.failed,
        accounting::refs(p.state.cache.active, blocks[n]) < usize::MAX,
    ensures
        ({
            let q = p.step(n, blocks[n], local_hashes, token_ids);
            if q.failed {
                q.state.cache == p.state.cache && q.state.events == p.state.events
                    && q.state.next_event_id == p.state.next_event_id
            } else {
                tracks(s, blocks, n + 1, q)
            }
        }),
{
    let q = p.step(n, blocks[n], local_hashes, token_ids);
    if p.state.cache.holds(blocks[n]) {
        lemma_found(s, blocks, n, p, local_hashes, token_ids);
    } else if p.state.onboarded(blocks[n]).1 {
        lemma_found_in_g2(s, blocks, n, p, local_hashes, token_ids);
    } else if !q.failed {
        lemma_allocated(s, blocks, n, p, local_hashes, token_ids);
    } else {
        effects::lemma_onboarded(p.state, blocks[n]);
    }
}

/// The first `n` blocks of a `Use` signal are processed.
proof fn lemma_tracks_progress(
    s: KvState,
    blocks: Seq<UniqueBlock>,
    local_hashes: Seq<u64>,
    token_ids: Option<Seq<Seq<u32>>>,
    n: nat,
)
    requires
        s.wf(),
        s.publishes,
        n <= blocks.len(),
        blocks.no_duplicates(),
        forall|i: int|
            0 <= i < blocks.len() && (#[trigger] blocks[i]) is FullBlock ==> i
                < local_hashes.len(),
        !model::use_progress(s, blocks, local_hashes, token_ids, n).state.broken,
        !model::use_progress(s, blocks, local_hashes, token_ids, n).failed,
    ensures
        tracks(s, blocks, n as int, model::use_progress(s, blocks, local_hashes, token_ids, n)),
    decreases n,
{
    let p = model::use_progress(s, blocks, local_hashes, token_ids, n);
    if n == 0 {
        assert(pending(p) =~= Set::empty());
        assert(kept_hashes(s).difference(pending(p)) =~= kept_hashes(s));
        assert(s.events.take(s.events.len() as int) =~= s.events);
        assert(s.events.skip(s.events.len() as int) =~= Seq::empty());
    } else {
        let m = (n - 1) as nat;
        let before = model::use_progress(s, blocks, local_hashes, token_ids, m);
        if before.state.broken {
            model::lemma_step_stays_broken(
                before,
                m as int,
                blocks[m as int],
                local_hashes,
                token_ids,
            );
        }
        lemma_tracks_progress(s, blocks, local_hashes, token_ids, m);
        lemma_tracks_step(s, blocks, m as int, before, local_hashes, token_ids);
    }
}

/// The blocks from the second tier are reported one after the other.
proof fn lemma_tracks_report(
    s: KvState,
    p: UseProgress,
    traced: KvState,
    known: Set<u64>,
    n: int,
)
    requires
        0 <= n <= p.onboarded.len(),
        traced.publishes,
        traced.cache == p.state.cache,
        reported(s, traced, known),
        known == kept_hashes(p.state).difference(pending(p)),
        onboarded_hashes(p.onboarded).no_duplicates(),
        forall|h: u64| #[trigger]
            p.stored.contains(h) ==> !onboarded_hashes(p.onboarded).contains(h),
        forall|h: u64| #[trigger]
            onboarded_hashes(p.onboarded).contains(h) ==> p.state.cache.active.contains_key(
                UniqueBlock::FullBlock(h),
            ),
        forall|k: int|
            #![trigger p.onboarded[k]]
            0 <= k < p.onboarded.len() && p.onboarded[k].2 is Some
                ==> p.state.cache.active.contains_key(
                UniqueBlock::FullBlock(p.onboarded[k].2->0),
            ) && !p.stored.contains(p.onboarded[k].2->0),
        forall|k: int, m: int|
            #![trigger p.onboarded[k], p.onboarded[m]]
            0 <= k <= m < p.onboarded.len() ==> p.onboarded[k].2 != Some(p.onboarded[m].0),
    ensures
        reported(
            s,
            model::report_onboarded(traced, p.onboarded.take(n)),
            known.union(onboarded_hashes(p.onboarded).take(n).to_set()),
        ),
        model::report_onboarded(traced, p.onboarded.take(n)).publishes,
    decreases n,
{
    let hashes = onboarded_hashes(p.onboarded);
    let now = known.union(hashes.take(n).to_set());
    if n == 0 {
        assert(hashes.take(0).to_set() =~= Set::empty());
        assert(now =~= known);
    } else {
        let m = n - 1;
        lemma_tracks_report(s, p, traced, known, m);
        let before = known.union(hashes.take(m).to_set());
        let (hash, local_hash, parent) = p.onboarded[m];
        assert(p.onboarded.take(n).drop_last() =~= p.onboarded.take(m));
        assert(hashes[m] == hash);
        assert(hashes.contains(hash));
        assert forall|h: u64| hashes.take(n).contains(h) <==> hashes.take(m).contains(h) || h
            == hash by {
            if hashes.take(m).contains(h) {
                assert(hashes.take(n)[hashes.take(m).index_of(h)] == h);
            }
            if h == hash {
                assert(hashes.take(n)[m] == h);
            }
        }
        assert(!hashes.take(m).contains(hash)) by {
            if hashes.take(m).contains(hash) {
                assert(hashes[hashes.take(m).index_of(hash)] == hashes[m]);
            }
        }
        if parent is Some {
            let h = parent->0;
            assert(kept_hashes(p.state).contains(h));
            if hashes.contains(h) {
                let k = hashes.index_of(h);
                assert(p.onboarded[k].0 == h);
                assert(p.onboarded[m].2 == Some(p.onboarded[k].0));
                assert(k < m);
                assert(hashes.take(m)[k] == h);
                assert(hashes.take(m).contains(h));
            }
            assert(before.contains(h));
        }
        lemma_published(
            s,
            model::report_onboarded(traced, p.onboarded.take(m)),
            before,
            seq![hash],
            seq![local_hash],
            parent,
            true,
            None,
        );
        assert(seq![hash].to_set() =~= set![hash]) by {
            assert(seq![hash][0] == hash);
        }
        assert(before.union(seq![hash].to_set()) =~= now);
    }
}

/// Whoever follows the events of a manager knows the complete blocks in its first tier: after a
/// signal that was processed, the events that it has caused lead from the blocks that were there
/// before to those that are there now. No event tells of the removal of a block that is not known,
/// of the storing of one that is, or of one whose parent is not known. A `Use` signal of several
/// blocks that fails is an exception: the blocks allocated before the failure are not reported.
pub proof fn lemma_events_track_blocks(s: KvState, signal: Signal)
    requires
        s.wf(),
        s.publishes,
        reportable(s, signal),
        !model::process_signal(s, signal).0.broken,
        signal is Use && signal->Use_blocks.len() > 1 ==> model::process_signal(s, signal).1,
    ensures
        ({
            let t = model::process_signal(s, signal).0;
            reported(s, t, kept_hashes(t))
        }),
{
    let (t, ok) = model::process_signal(s, signal);
    assert(s.events.take(s.events.len() as int) =~= s.events);
    assert(s.events.skip(s.events.len() as int) =~= Seq::empty());
    assert(reported(s, s, kept_hashes(s)));
    match signal {
        Signal::Use { blocks, local_hashes, lineage_hashes, token_ids } => {
            lemma_use_tracked(s, blocks, local_hashes, token_ids);
        },
        Signal::Destroy { blocks } => {
            let n = blocks.len();
            effects::lemma_destroyed(s, blocks, n);
            let mid = model::destroy_progress(s, blocks, n);
            assert(blocks.take(n as int) =~= blocks);
            lemma_full_hashes(blocks);
            lemma_destroyed_active(s, blocks, n);
            assert forall|h: u64| #[trigger] model::full_hashes(blocks).contains(h) implies
                kept_hashes(s).contains(h) by {
                assert(blocks.contains(UniqueBlock::FullBlock(h)));
            }
            lemma_published(
                s,
                mid,
                kept_hashes(s),
                model::full_hashes(blocks),
                Seq::empty(),
                None,
                false,
                None,
            );
            assert forall|h: u64| kept_hashes(t).contains(h) <==> kept_hashes(s).difference(
                model::full_hashes(blocks).to_set(),
            ).contains(h) by {
                let b = UniqueBlock::FullBlock(h);
                if blocks.contains(b) {
                    assert(s.cache.active.contains_key(b));
                }
            }
            assert(kept_hashes(t) =~= kept_hashes(s).difference(
                model::full_hashes(blocks).to_set(),
            ));
        },
        Signal::Deref { blocks } => {
            effects::lemma_given_back(s.cache, blocks, blocks.len());
            assert forall|h: u64| kept_hashes(t).contains(h) <==> kept_hashes(s).contains(h) by {
                assert(t.cache.holds(UniqueBlock::FullBlock(h)) <==> s.cache.holds(
                    UniqueBlock::FullBlock(h),
                ));
            }
            assert(kept_hashes(t) =~= kept_hashes(s));
            lemma_reported_same(s, s, t, kept_hashes(s));
        },
        Signal::Promote { uuid, hash, parent_hash, local_hash, lineage_hash, promoted_ids } => {
            let partial = UniqueBlock::PartialBlock(uuid);
            let full = UniqueBlock::FullBlock(hash);
            let cache = s.cache.drop_active(partial);
            hash_cache::lemma_drop_active(s.cache, partial);
            hash_cache::lemma_drop_inactive(cache, full);
            assert forall|h: u64| kept_hashes(t).contains(h) <==> kept_hashes(s).contains(h) || h
                == hash by {
                let b = UniqueBlock::FullBlock(h);
                assert(cache.drop_inactive(full).inactive.contains(b)
                    <==> cache.inactive.contains(b) && b != full);
            }
            if cache.holds(full) {
                assert(kept_hashes(t) =~= kept_hashes(s));
                lemma_reported_same(s, s, t, kept_hashes(s));
            } else {
                assert(!kept_hashes(s).contains(hash));
                let count: nat = if cache.active.contains_key(full) {
                    cache.active[full]
                } else {
                    0
                };
                let mid = KvState {
                    cache: cache.drop_inactive(full).activate(full, count + 1),
                    ..s
                }.checked(
                    s.cache.active.contains_key(partial) && s.cache.active[partial] == 1 && count
                        < usize::MAX,
                );
                lemma_reported_same(s, s, mid, kept_hashes(s));
                lemma_published(
                    s,
                    mid,
                    kept_hashes(s),
                    seq![hash],
                    seq![local_hash],
                    parent_hash,
                    true,
                    match promoted_ids {
                        Some(ids) => Some(seq![ids]),
                        None => None,
                    },
                );
                assert(seq![hash].to_set() =~= set![hash]) by {
                    assert(seq![hash][0] == hash);
                }
                assert(kept_hashes(t) =~= kept_hashes(s).union(seq![hash].to_set()));
            }
        },
    }
}

/// The effects of a `Use` signal are reported.
proof fn lemma_use_tracked(
    s: KvState,
    blocks: Seq<UniqueBlock>,
    local_hashes: Seq<u64>,
    token_ids: Option<Seq<Seq<u32>>>,
)
    requires
        s.wf(),
        s.publishes,
        reported(s, s, kept_hashes(s)),
        blocks.no_duplicates(),
        forall|i: int|
            0 <= i < blocks.len() && (#[trigger] blocks[i]) is FullBlock ==> i
                < local_hashes.len(),
        !model::use_blocks(s, blocks, local_hashes, token_ids).0.broken,
        blocks.len() > 1 ==> model::use_blocks(s, blocks, local_hashes, token_ids).1,
    ensures
        ({
            let t = model::use_blocks(s, blocks, local_hashes, token_ids).0;
            reported(s, t, kept_hashes(t))
        }),
{
    let n = blocks.len();
    let p = model::use_progress(s, blocks, local_hashes, token_ids, n);
    let (t, ok) = model::use_blocks(s, blocks, local_hashes, token_ids);
    model::lemma_use_defined(s, blocks, local_hashes, token_ids, n);
    if !ok {
        let start = model::use_progress(s, blocks, local_hashes, token_ids, 0);
        assert(n == 1);
        reveal_with_fuel(model::use_progress, 2);
        lemma_tracks_progress(s, blocks, local_hashes, token_ids, 0);
        lemma_tracks_step(s, blocks, 0, start, local_hashes, token_ids);
        assert(kept_hashes(t) =~= kept_hashes(s));
    } else {
        lemma_tracks_progress(s, blocks, local_hashes, token_ids, n);
        let traced = p.hits_traced();
        let known = kept_hashes(p.state).difference(pending(p));
        let hashes = onboarded_hashes(p.onboarded);
        lemma_reported_same(s, p.state, traced, known);
        lemma_tracks_report(s, p, traced, known, p.onboarded.len() as int);
        assert(p.onboarded.take(p.onboarded.len() as int) =~= p.onboarded);
        assert(hashes.take(p.onboarded.len() as int) =~= hashes);
        let told = model::report_onboarded(traced, p.onboarded);
        effects::lemma_report(traced, p.onboarded);
        let now = known.union(hashes.to_set());
        let parent = model::parent_hash(p.parent);
        if parent is Some {
            assert(kept_hashes(p.state).contains(parent->0));
        }
        lemma_published(s, told, now, p.stored, local_hashes, parent, true, p.stored_ids);
        assert(now.union(p.stored.to_set()) =~= kept_hashes(t));
    }
}

/// The complete blocks of a list.
proof fn lemma_full_hashes(blocks: Seq<UniqueBlock>)
    ensures
        forall|h: u64| #[trigger]
            model::full_hashes(blocks).contains(h) <==> blocks.contains(UniqueBlock::FullBlock(h)),
    decreases blocks.len(),
{
    if blocks.len() > 0 {
        let rest = blocks.drop_last();
        lemma_full_hashes(rest);
        let hashes = model::full_hashes(rest);
        assert forall|h: u64| #[trigger] model::full_hashes(blocks).contains(h) <==> blocks.contains(
            UniqueBlock::FullBlock(h),
        ) by {
            let b = UniqueBlock::FullBlock(h);
            if blocks.contains(b) {
                let i = blocks.index_of(b);
                if i < rest.len() {
                    assert(rest[i] == b);
                    assert(rest.contains(b));
                    assert(hashes.contains(h));
                    assert(model::full_hashes(blocks)[hashes.index_of(h)] == h);
                } else {
                    assert(model::full_hashes(blocks)[hashes.len() as int] == h);
                }
            }
            if model::full_hashes(blocks).contains(h) {
                let i = model::full_hashes(blocks).index_of(h);
                if i < hashes.len() {
                    assert(hashes[i] == h);
                    assert(hashes.contains(h));
                    assert(rest.contains(b));
                    assert(blocks[rest.index_of(b)] == b);
                } else {
                    assert(blocks.last() == b);
                }
            }
        }
    }
}

/// What is destroyed with a defined outcome was active.
proof fn lemma_destroyed_active(s: KvState, blocks: Seq<UniqueBlock>, n: nat)
    requires
        effects::tiers(s),
        n <= blocks.len(),
        !model::destroy_progress(s, blocks, n).broken,
    ensures
        forall|b: UniqueBlock| #[trigger]
            blocks.take(n as int).contains(b) ==> s.cache.active.contains_key(b),
    decreases n,
{
    if n > 0 {
        let m = (n - 1) as nat;
        lemma_destroyed_active(s, blocks, m);
        effects::lemma_destroyed(s, blocks, m);
        assert forall|b: UniqueBlock| #[trigger] blocks.take(n as int).contains(b) implies
            s.cache.active.contains_key(b) by {
            let i = blocks.take(n as int).index_of(b);
            if i < m {
                assert(blocks.take(m as int)[i] == b);
                assert(blocks.take(m as int).contains(b));
            }
        }
    }
}

} // verus!
