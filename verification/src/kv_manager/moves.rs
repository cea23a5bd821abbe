//! What a signal about one block does: where the block goes, which one makes room for it, and what is
//! reported and traced.

use vstd::prelude::*;
use crate::cache::hash_cache;
use crate::cache::hash_cache::CacheState;
use crate::common::evictor;
use crate::common::protocols::{
    Change, EventRecord, KvCacheStoredBlockData, PoolUsage, Signal, TierEvent, TraceRecord,
    UniqueBlock,
};
use crate::kv_manager::effects;
use crate::kv_manager::model;
use crate::kv_manager::model::{KvState, UseProgress};

verus! {

broadcast use {vstd::set::group_set_axioms, vstd::map::group_map_axioms};

/// The signal that asks for one block.
pub open spec fn use_of(
    block: UniqueBlock,
    local_hashes: Seq<u64>,
    lineage_hashes: Seq<u128>,
    token_ids: Option<Seq<Seq<u32>>>,
) -> Signal {
    Signal::Use { blocks: seq![block], local_hashes, lineage_hashes, token_ids }
}

/// The usage counts the blocks of the two pools, and what is left of the capacity.
pub open spec fn measures(usage: PoolUsage, cache: CacheState) -> bool {
    &&& usage.active == cache.active.dom().len()
    &&& usage.inactive == cache.inactive.len()
    &&& usage.total == cache.max_capacity
    &&& usage.free + usage.active + usage.inactive == usage.total
}

/// A list has got one more entry.
pub open spec fn one_more<T>(before: Seq<T>, after: Seq<T>) -> bool {
    after.len() == before.len() + 1 && after.take(before.len() as int) == before
}

/// The first steps of a signal that asks for one block.
proof fn lemma_one(
    s: KvState,
    block: UniqueBlock,
    local_hashes: Seq<u64>,
    token_ids: Option<Seq<Seq<u32>>>,
)
    ensures
        ({
            let p = UseProgress::start(s, token_ids).step(0, block, local_hashes, token_ids);
            model::use_blocks(s, seq![block], local_hashes, token_ids) == if p.failed {
                (p.state, false)
            } else {
                (p.finish(local_hashes), true)
            }
        }),
{
    let blocks = seq![block];
    assert(model::use_progress(s, blocks, local_hashes, token_ids, 0) == UseProgress::start(
        s,
        token_ids,
    ));
    assert(model::use_progress(s, blocks, local_hashes, token_ids, 1) == UseProgress::start(
        s,
        token_ids,
    ).step(0, blocks[0], local_hashes, token_ids));
}

/// Use of a block that is active: one reference more, and nothing else, except that the hit is
/// traced.
pub proof fn lemma_use_active(
    s: KvState,
    hash: u64,
    local_hashes: Seq<u64>,
    lineage_hashes: Seq<u128>,
    token_ids: Option<Seq<Seq<u32>>>,
)
    requires
        s.wf(),
        s.cache.active.contains_key(UniqueBlock::FullBlock(hash)),
    ensures
        ({
            let b = UniqueBlock::FullBlock(hash);
            let (t, ok) = model::process_signal(
                s,
                use_of(b, local_hashes, lineage_hashes, token_ids),
            );
            &&& ok
            &&& t.cache.active == s.cache.active.insert(b, s.cache.active[b] + 1)
            &&& t.cache.inactive == s.cache.inactive
            &&& t.cache.max_capacity == s.cache.max_capacity
            &&& t.g2 == s.g2
            &&& t.events == s.events
            &&& t.next_event_id == s.next_event_id
            &&& !s.traces_enabled ==> t.traces == s.traces
            &&& s.traces_enabled ==> one_more(s.traces, t.traces) && {
                t.traces.last() matches TraceRecord::CacheHit {
                    g1_active_block_ids,
                    g1_inactive_block_ids,
                    g2_block_ids,
                    usage,
                } && g1_active_block_ids == seq![hash] && g1_inactive_block_ids.len() == 0
                    && g2_block_ids.len() == 0 && measures(usage, t.cache)
            }
        }),
{
    let b = UniqueBlock::FullBlock(hash);
    lemma_one(s, b, local_hashes, token_ids);
    assert(s.cache.active.insert(b, s.cache.active[b] + 1).dom() =~= s.cache.active.dom());
    assert(Seq::<u64>::empty().push(hash) =~= seq![hash]);
    let t = model::use_blocks(s, seq![b], local_hashes, token_ids).0;
    assert(t.traces.take(s.traces.len() as int) =~= s.traces);
}

/// Use of a block that is inactive: it becomes active with one reference and leaves its place in
/// the order of eviction; the others keep theirs. Nothing is reported; the hit is traced.
pub proof fn lemma_use_inactive(
    s: KvState,
    hash: u64,
    local_hashes: Seq<u64>,
    lineage_hashes: Seq<u128>,
    token_ids: Option<Seq<Seq<u32>>>,
    place: int,
)
    requires
        s.wf(),
        0 <= place < s.cache.inactive.len(),
        s.cache.inactive[place] == UniqueBlock::FullBlock(hash),
    ensures
        ({
            let b = UniqueBlock::FullBlock(hash);
            let (t, ok) = model::process_signal(
                s,
                use_of(b, local_hashes, lineage_hashes, token_ids),
            );
            &&& ok
            &&& t.cache.active == s.cache.active.insert(b, 1)
            &&& t.cache.inactive == s.cache.inactive.remove(place)
            &&& t.cache.max_capacity == s.cache.max_capacity
            &&& t.g2 == s.g2
            &&& t.events == s.events
            &&& t.next_event_id == s.next_event_id
            &&& !s.traces_enabled ==> t.traces == s.traces
            &&& s.traces_enabled ==> one_more(s.traces, t.traces) && {
                t.traces.last() matches TraceRecord::CacheHit {
                    g1_active_block_ids,
                    g1_inactive_block_ids,
                    g2_block_ids,
                    usage,
                } && g1_active_block_ids.len() == 0 && g1_inactive_block_ids == seq![hash]
                    && g2_block_ids.len() == 0 && measures(usage, t.cache)
            }
        }),
{
    let b = UniqueBlock::FullBlock(hash);
    lemma_one(s, b, local_hashes, token_ids);
    assert(s.cache.inactive.contains(b));
    evictor::lemma_without_at(s.cache.inactive, place);
    hash_cache::lemma_drop_inactive(s.cache, b);
    hash_cache::lemma_activate(s.cache.drop_inactive(b), b, 1);
    assert(Seq::<u64>::empty().push(hash) =~= seq![hash]);
    let t = model::use_blocks(s, seq![b], local_hashes, token_ids).0;
    assert(t.traces.take(s.traces.len() as int) =~= s.traces);
}

/// The block is in neither tier.
pub open spec fn is_new(s: KvState, block: UniqueBlock) -> bool {
    &&& !s.cache.active.contains_key(block)
    &&& !s.cache.inactive.contains(block)
    &&& s.g2 is Some ==> !s.g2->0.inactive.contains(block)
}

/// Use of a new block while a slot is free: it becomes active with one reference, and no other
/// block is touched. A complete block is reported as stored behind no other one, with the last
/// content hash and its tokens; a partial one is not reported.
pub proof fn lemma_use_new(
    s: KvState,
    block: UniqueBlock,
    local_hashes: Seq<u64>,
    lineage_hashes: Seq<u128>,
    token_ids: Option<Seq<Seq<u32>>>,
)
    requires
        s.wf(),
        is_new(s, block),
        s.cache.active.dom().len() + s.cache.inactive.len() < s.cache.max_capacity,
    ensures
        ({
            let (t, ok) = model::process_signal(
                s,
                use_of(block, local_hashes, lineage_hashes, token_ids),
            );
            &&& ok
            &&& t.cache.active == s.cache.active.insert(block, 1)
            &&& t.cache.inactive == s.cache.inactive
            &&& t.g2 == s.g2
            &&& !(s.publishes && block is FullBlock) ==> t.events == s.events && t.next_event_id
                == s.next_event_id
            &&& s.publishes && block is FullBlock ==> {
                &&& one_more(s.events, t.events)
                &&& t.next_event_id == s.next_event_id + 1
                &&& t.events.last().event_id == s.next_event_id
                &&& t.events.last().dp_rank == s.dp_rank
                &&& t.events.last().change matches Change::Stored { parent_hash, blocks }
                    && parent_hash is None && blocks.len() == 1 && blocks[0].block_hash
                    == block->FullBlock_0 && blocks[0].tokens_hash == local_hashes.last()
                &&& t.events.last().token_ids is Some == token_ids is Some
                &&& token_ids is Some ==> t.events.last().token_ids->0 == seq![token_ids->0[0]]
            }
            &&& !(s.traces_enabled && block is FullBlock) ==> t.traces == s.traces
            &&& s.traces_enabled && block is FullBlock ==> one_more(s.traces, t.traces) && {
                t.traces.last() matches TraceRecord::Pool { is_store, block_ids, usage }
                    && is_store && block_ids == seq![block->FullBlock_0] && measures(
                    usage,
                    t.cache,
                )
            }
        }),
{
    lemma_one(s, block, local_hashes, token_ids);
    hash_cache::lemma_activate(s.cache, block, 1);
    let t = model::use_blocks(s, seq![block], local_hashes, token_ids).0;
    if block is FullBlock {
        assert(Seq::<u64>::empty().push(block->FullBlock_0) =~= seq![block->FullBlock_0]);
        if token_ids is Some {
            assert(Seq::<Seq<u32>>::empty().push(token_ids->0[0]) =~= seq![token_ids->0[0]]);
        }
    }
    assert(t.traces.take(s.traces.len() as int) =~= s.traces);
    assert(t.events.take(s.events.len() as int) =~= s.events);
}

/// Use of a new block while no slot is free: the block that was released longest ago makes room. It
/// is reported as removed before the new one is reported, and nothing else leaves the first tier.
/// Without a second tier it is gone; with one it is the most recent block there, and if that tier
/// was full, its own least recent block is gone.
pub proof fn lemma_use_evicts_least_recent(
    s: KvState,
    block: UniqueBlock,
    local_hashes: Seq<u64>,
    lineage_hashes: Seq<u128>,
    token_ids: Option<Seq<Seq<u32>>>,
)
    requires
        s.wf(),
        is_new(s, block),
        s.cache.active.dom().len() + s.cache.inactive.len() == s.cache.max_capacity,
        s.cache.inactive.len() > 0,
    ensures
        ({
            let (t, ok) = model::process_signal(
                s,
                use_of(block, local_hashes, lineage_hashes, token_ids),
            );
            let n = s.cache.inactive.len() as int;
            let old = s.cache.inactive[0];
            let removed = s.publishes && old is FullBlock;
            let stored = s.publishes && block is FullBlock;
            let at = s.events.len() as int;
            &&& ok
            &&& t.cache.active == s.cache.active.insert(block, 1)
            &&& t.cache.inactive == s.cache.inactive.subrange(1, n)
            &&& t.events.len() == at + if removed {
                1int
            } else {
                0
            } + if stored {
                1int
            } else {
                0
            }
            &&& removed ==> t.events[at].change == Change::Removed {
                block_hashes: seq![old->FullBlock_0],
            } && t.events[at].event_id == s.next_event_id && t.events[at].dp_rank == s.dp_rank
                && t.events[at].token_ids is None
            &&& stored ==> t.events.last().change is Stored
            &&& s.g2 is None ==> t.g2 is None
            &&& s.g2 is Some && !s.g2->0.inactive.contains(old) ==> {
                let kept = s.g2->0.inactive;
                &&& t.g2 is Some
                &&& kept.len() < s.g2->0.max_capacity ==> t.g2->0.inactive == kept.push(old)
                &&& kept.len() == s.g2->0.max_capacity ==> t.g2->0.inactive == kept.subrange(
                    1,
                    kept.len() as int,
                ).push(old)
            }
        }),
{
    lemma_one(s, block, local_hashes, token_ids);
    let old = s.cache.inactive[0];
    let n = s.cache.inactive.len() as int;
    hash_cache::lemma_evict(s.cache);
    effects::lemma_evicted(s);
    assert(s.cache.inactive.drop_first() =~= s.cache.inactive.subrange(1, n));
    if s.g2 is Some {
        let g2 = s.g2->0;
        assert(g2.active.dom() =~= Set::empty());
        if g2.is_full() {
            hash_cache::lemma_evict(g2);
            assert(g2.inactive.drop_first() =~= g2.inactive.subrange(1, g2.inactive.len() as int));
        }
    }
}

/// How an eviction is traced, where the evicted block is complete: first the eviction, with the usage
/// of the pools after it; then, with a second tier, the block that this one has discarded, if it was
/// full, and the offloading; last the allocation of the new block, if that is complete.
pub proof fn lemma_eviction_is_traced(
    s: KvState,
    block: UniqueBlock,
    local_hashes: Seq<u64>,
    lineage_hashes: Seq<u128>,
    token_ids: Option<Seq<Seq<u32>>>,
)
    requires
        s.wf(),
        s.traces_enabled,
        is_new(s, block),
        s.cache.active.dom().len() + s.cache.inactive.len() == s.cache.max_capacity,
        s.cache.inactive.len() > 0,
        s.cache.inactive[0] is FullBlock,
    ensures
        ({
            let t = model::process_signal(
                s,
                use_of(block, local_hashes, lineage_hashes, token_ids),
            ).0;
            let old = s.cache.inactive[0]->FullBlock_0;
            let at = s.traces.len() as int;
            let discards = s.g2 is Some && s.g2->0.inactive.len() == s.g2->0.max_capacity
                && s.g2->0.inactive[0] is FullBlock;
            let moved = at + 1 + if discards {
                1int
            } else {
                0
            };
            let end = moved + if s.g2 is Some {
                1int
            } else {
                0
            };
            &&& t.traces.len() == end + if block is FullBlock {
                1int
            } else {
                0
            }
            &&& t.traces[at] matches TraceRecord::Pool { is_store, block_ids, usage } && !is_store
                && block_ids == seq![old] && usage.active == s.cache.active.dom().len()
                && usage.inactive == s.cache.inactive.len() - 1 && usage.free == 1 && usage.total
                == s.cache.max_capacity
            &&& discards ==> {
                t.traces[at + 1] matches TraceRecord::Tier { event, block_id, .. } && event
                    == TierEvent::G2Eviction && block_id == s.g2->0.inactive[0]->FullBlock_0
            }
            &&& s.g2 is Some ==> {
                t.traces[moved] matches TraceRecord::Tier {
                    event,
                    block_id,
                    usage,
                    g2_free,
                    g2_inactive,
                    g2_total,
                } && event == TierEvent::G1ToG2Offload && block_id == old && usage.free == 1
                    && g2_inactive == t.g2->0.inactive.len() && g2_total == s.g2->0.max_capacity
                    && g2_free + g2_inactive == g2_total
            }
            &&& block is FullBlock ==> {
                t.traces[end] matches TraceRecord::Pool { is_store, block_ids, usage } && is_store
                    && block_ids == seq![block->FullBlock_0] && measures(usage, t.cache)
            }
        }),
{
    lemma_one(s, block, local_hashes, token_ids);
    hash_cache::lemma_evict(s.cache);
    effects::lemma_evicted(s);
    hash_cache::lemma_activate(s.evicted().cache, block, 1);
    if block is FullBlock {
        assert(Seq::<u64>::empty().push(block->FullBlock_0) =~= seq![block->FullBlock_0]);
    }
    if s.g2 is Some {
        let g2 = s.g2->0;
        let old = s.cache.inactive[0];
        assert(g2.active.dom() =~= Set::empty());
        if g2.is_full() {
            hash_cache::lemma_evict(g2);
            hash_cache::lemma_rest(g2.evict(), old);
        } else {
            hash_cache::lemma_rest(g2, old);
        }
    }
}

/// Use of a new block while all slots are taken by active blocks fails, and changes nothing.
pub proof fn lemma_use_fails_without_slot(
    s: KvState,
    block: UniqueBlock,
    local_hashes: Seq<u64>,
    lineage_hashes: Seq<u128>,
    token_ids: Option<Seq<Seq<u32>>>,
)
    requires
        s.wf(),
        is_new(s, block),
        s.cache.active.dom().len() == s.cache.max_capacity,
    ensures
        model::process_signal(s, use_of(block, local_hashes, lineage_hashes, token_ids)) == (
            s,
            false,
        ),
{
    lemma_one(s, block, local_hashes, token_ids);
}

/// Use of a complete block that only the second tier holds, while a slot of the first tier is free:
/// it becomes active with one reference and leaves the second tier, where the others keep their
/// order. It is reported as stored behind no other one, with its content hash, so that whoever
/// follows the events knows it again; the hit is traced.
pub proof fn lemma_use_onboards(
    s: KvState,
    hash: u64,
    local_hashes: Seq<u64>,
    lineage_hashes: Seq<u128>,
    token_ids: Option<Seq<Seq<u32>>>,
    place: int,
)
    requires
        s.wf(),
        s.g2 is Some,
        0 <= place < s.g2->0.inactive.len(),
        s.g2->0.inactive[place] == UniqueBlock::FullBlock(hash),
        !s.cache.active.contains_key(UniqueBlock::FullBlock(hash)),
        !s.cache.inactive.contains(UniqueBlock::FullBlock(hash)),
        s.cache.active.dom().len() + s.cache.inactive.len() < s.cache.max_capacity,
        local_hashes.len() > 0,
    ensures
        ({
            let b = UniqueBlock::FullBlock(hash);
            let (t, ok) = model::process_signal(
                s,
                use_of(b, local_hashes, lineage_hashes, token_ids),
            );
            &&& ok
            &&& t.cache.active == s.cache.active.insert(b, 1)
            &&& t.cache.inactive == s.cache.inactive
            &&& t.g2 is Some
            &&& t.g2->0.inactive == s.g2->0.inactive.remove(place)
            &&& !s.publishes ==> t.events == s.events
            &&& s.publishes ==> {
                &&& one_more(s.events, t.events)
                &&& t.events.last() == EventRecord {
                    event_id: s.next_event_id,
                    change: Change::Stored {
                        parent_hash: None,
                        blocks: seq![
                            KvCacheStoredBlockData {
                                block_hash: hash,
                                tokens_hash: local_hashes[0],
                            },
                        ],
                    },
                    dp_rank: s.dp_rank,
                    token_ids: None,
                }
            }
            &&& !s.traces_enabled ==> t.traces == s.traces
            &&& s.traces_enabled ==> {
                let at = s.traces.len() as int;
                &&& t.traces.len() == at + 3
                &&& t.traces[at] matches TraceRecord::Tier {
                    event,
                    block_id,
                    usage,
                    g2_free,
                    g2_inactive,
                    g2_total,
                } && event == TierEvent::G2ToG1Onboard && block_id == hash && measures(
                    usage,
                    t.cache,
                ) && g2_inactive == t.g2->0.inactive.len() && g2_total == t.g2->0.max_capacity
                    && g2_free + g2_inactive == g2_total
                &&& t.traces[at + 1] matches TraceRecord::CacheHit {
                    g1_active_block_ids,
                    g1_inactive_block_ids,
                    g2_block_ids,
                    usage,
                } && g1_active_block_ids.len() == 0 && g1_inactive_block_ids.len() == 0
                    && g2_block_ids == seq![hash] && measures(usage, t.cache)
                &&& t.traces[at + 2] matches TraceRecord::Pool { is_store, block_ids, usage }
                    && is_store && block_ids == seq![hash] && measures(usage, t.cache)
            }
        }),
{
    let b = UniqueBlock::FullBlock(hash);
    let g2 = s.g2->0;
    lemma_one(s, b, local_hashes, token_ids);
    assert(g2.inactive.contains(b));
    assert(g2.active.dom() =~= Set::empty());
    evictor::lemma_without_at(g2.inactive, place);
    hash_cache::lemma_drop_inactive(g2, b);
    hash_cache::lemma_activate(s.cache, b, 1);
    let t = model::use_blocks(s, seq![b], local_hashes, token_ids).0;
    let entry: (u64, u64, Option<u64>) = (hash, local_hashes[0], None);
    let onboarded = Seq::<(u64, u64, Option<u64>)>::empty().push(entry);
    assert(onboarded.drop_last() =~= Seq::empty());
    reveal_with_fuel(model::report_onboarded, 2);
    assert(Seq::<u64>::empty().push(hash) =~= seq![hash]);
    assert(model::stored_blocks(seq![hash], seq![local_hashes[0]]) =~= seq![
        KvCacheStoredBlockData { block_hash: hash, tokens_hash: local_hashes[0] },
    ]);
    assert(t.events.take(s.events.len() as int) =~= s.events);
}

/// Use of a complete block that only the second tier holds, while no slot of the first tier is free:
/// it changes places with the block of the first tier that was released longest ago. Nothing is
/// lost. The removal of that block is reported before the block itself is.
pub proof fn lemma_use_exchanges(
    s: KvState,
    hash: u64,
    local_hashes: Seq<u64>,
    lineage_hashes: Seq<u128>,
    token_ids: Option<Seq<Seq<u32>>>,
    place: int,
)
    requires
        s.wf(),
        s.g2 is Some,
        0 <= place < s.g2->0.inactive.len(),
        s.g2->0.inactive[place] == UniqueBlock::FullBlock(hash),
        !s.cache.active.contains_key(UniqueBlock::FullBlock(hash)),
        !s.cache.inactive.contains(UniqueBlock::FullBlock(hash)),
        s.cache.active.dom().len() + s.cache.inactive.len() == s.cache.max_capacity,
        s.cache.inactive.len() > 0,
        s.cache.inactive[0] is FullBlock,
        !s.g2->0.inactive.contains(s.cache.inactive[0]),
        local_hashes.len() > 0,
    ensures
        ({
            let b = UniqueBlock::FullBlock(hash);
            let old = s.cache.inactive[0];
            let (t, ok) = model::process_signal(
                s,
                use_of(b, local_hashes, lineage_hashes, token_ids),
            );
            &&& ok
            &&& t.cache.active == s.cache.active.insert(b, 1)
            &&& t.cache.inactive == s.cache.inactive.subrange(1, s.cache.inactive.len() as int)
            &&& t.g2 is Some
            &&& t.g2->0.inactive == s.g2->0.inactive.remove(place).push(old)
            &&& !s.publishes ==> t.events == s.events
            &&& s.publishes ==> {
                let at = s.events.len() as int;
                &&& t.events.len() == at + 2
                &&& t.events[at].change == Change::Removed { block_hashes: seq![old->FullBlock_0] }
                &&& t.events[at + 1].change == Change::Stored {
                    parent_hash: None,
                    blocks: seq![
                        KvCacheStoredBlockData { block_hash: hash, tokens_hash: local_hashes[0] },
                    ],
                }
            }
        }),
{
    let b = UniqueBlock::FullBlock(hash);
    let g2 = s.g2->0;
    lemma_one(s, b, local_hashes, token_ids);
    assert(g2.inactive.contains(b));
    assert(g2.active.dom() =~= Set::empty());
    evictor::lemma_without_at(g2.inactive, place);
    hash_cache::lemma_drop_inactive(g2, b);
    hash_cache::lemma_evict(s.cache);
    assert(s.cache.inactive.drop_first() =~= s.cache.inactive.subrange(
        1,
        s.cache.inactive.len() as int,
    ));
    assert(!g2.drop_inactive(b).inactive.contains(s.cache.inactive[0]));
    let entry: (u64, u64, Option<u64>) = (hash, local_hashes[0], None);
    let onboarded = Seq::<(u64, u64, Option<u64>)>::empty().push(entry);
    assert(onboarded.drop_last() =~= Seq::empty());
    reveal_with_fuel(model::report_onboarded, 2);
    assert(model::stored_blocks(seq![hash], seq![local_hashes[0]]) =~= seq![
        KvCacheStoredBlockData { block_hash: hash, tokens_hash: local_hashes[0] },
    ]);
}

/// Deref of an active block: a block with more than one reference loses one; one with a single
/// reference becomes the most recent inactive block. A block that is not active is left alone.
/// Nothing is reported or traced.
pub proof fn lemma_deref_one(s: KvState, block: UniqueBlock)
    requires
        s.wf(),
    ensures
        ({
            let (t, ok) = model::process_signal(s, Signal::Deref { blocks: seq![block] });
            let active = s.cache.active;
            &&& ok
            &&& t.g2 == s.g2
            &&& t.events == s.events
            &&& t.next_event_id == s.next_event_id
            &&& t.traces == s.traces
            &&& t.cache.max_capacity == s.cache.max_capacity
            &&& !active.contains_key(block) ==> t.cache == s.cache
            &&& active.contains_key(block) && active[block] == 1 ==> {
                &&& t.cache.active == active.remove(block)
                &&& t.cache.inactive == s.cache.inactive.push(block)
            }
            &&& active.contains_key(block) && active[block] > 1 ==> {
                &&& t.cache.active == active.insert(block, (active[block] - 1) as nat)
                &&& t.cache.inactive == s.cache.inactive
            }
        }),
{
    let blocks = seq![block];
    assert(model::deref_progress(s.cache, blocks, 0) == s.cache);
    assert(model::deref_progress(s.cache, blocks, 1) == model::deref_block(s.cache, blocks[0]));
}

/// Destroy of an active block: it is gone from the active pool whatever its references, and is not
/// kept for reuse. A complete block is reported as removed.
pub proof fn lemma_destroy_one(s: KvState, block: UniqueBlock)
    requires
        s.wf(),
        s.cache.active.contains_key(block),
    ensures
        ({
            let (t, ok) = model::process_signal(s, Signal::Destroy { blocks: seq![block] });
            &&& ok
            &&& t.cache.active == s.cache.active.remove(block)
            &&& t.cache.inactive == s.cache.inactive
            &&& t.g2 == s.g2
            &&& !(s.publishes && block is FullBlock) ==> t.events == s.events && t.next_event_id
                == s.next_event_id
            &&& s.publishes && block is FullBlock ==> {
                &&& one_more(s.events, t.events)
                &&& t.events.last() == EventRecord {
                    event_id: s.next_event_id,
                    change: Change::Removed { block_hashes: seq![block->FullBlock_0] },
                    dp_rank: s.dp_rank,
                    token_ids: None,
                }
            }
            &&& !(s.traces_enabled && block is FullBlock) ==> t.traces == s.traces
            &&& s.traces_enabled && block is FullBlock ==> one_more(s.traces, t.traces) && {
                t.traces.last() matches TraceRecord::Pool { is_store, block_ids, usage }
                    && !is_store && block_ids == seq![block->FullBlock_0] && measures(
                    usage,
                    t.cache,
                )
            }
        }),
{
    let blocks = seq![block];
    hash_cache::lemma_drop_active(s.cache, block);
    assert(model::destroy_progress(s, blocks, 0) == s);
    let mid = model::destroy_progress(s, blocks, 1);
    assert(blocks[0] == block);
    assert(blocks.drop_last() =~= Seq::empty());
    reveal_with_fuel(model::full_hashes, 2);
    if block is FullBlock {
        assert(Seq::<u64>::empty().push(block->FullBlock_0) =~= seq![block->FullBlock_0]);
    }
    let t = model::destroy_blocks(s, blocks);
    assert(t.traces.take(s.traces.len() as int) =~= s.traces);
    assert(t.events.take(s.events.len() as int) =~= s.events);
}

/// Promote of a partial block with one reference: it is gone, and the complete block has one
/// reference more than before, coming from the inactive pool if it was there. Only a block that was
/// not in the first tier is reported, as stored behind the parent that the signal names, with the
/// content hash and the tokens that it brings.
pub proof fn lemma_promote_one(
    s: KvState,
    uuid: u128,
    hash: u64,
    parent_hash: Option<u64>,
    local_hash: u64,
    lineage_hash: u128,
    promoted_ids: Option<Seq<u32>>,
)
    requires
        s.wf(),
        s.cache.active.contains_key(UniqueBlock::PartialBlock(uuid)),
        s.cache.active[UniqueBlock::PartialBlock(uuid)] == 1,
    ensures
        ({
            let partial = UniqueBlock::PartialBlock(uuid);
            let full = UniqueBlock::FullBlock(hash);
            let (t, ok) = model::process_signal(
                s,
                Signal::Promote {
                    uuid,
                    hash,
                    parent_hash,
                    local_hash,
                    lineage_hash,
                    promoted_ids,
                },
            );
            let active = s.cache.active;
            let inactive = s.cache.inactive;
            let is_new = !active.contains_key(full) && !inactive.contains(full);
            &&& ok
            &&& t.g2 == s.g2
            &&& t.cache.active == active.remove(partial).insert(
                full,
                if active.contains_key(full) {
                    active[full] + 1
                } else {
                    1
                },
            )
            &&& !inactive.contains(full) ==> t.cache.inactive == inactive
            &&& forall|i: int|
                0 <= i < inactive.len() && #[trigger] inactive[i] == full ==> t.cache.inactive
                    == inactive.remove(i)
            &&& !(s.publishes && is_new) ==> t.events == s.events && t.next_event_id
                == s.next_event_id
            &&& s.publishes && is_new ==> {
                &&& one_more(s.events, t.events)
                &&& t.events.last() == EventRecord {
                    event_id: s.next_event_id,
                    change: Change::Stored {
                        parent_hash,
                        blocks: seq![
                            KvCacheStoredBlockData { block_hash: hash, tokens_hash: local_hash },
                        ],
                    },
                    dp_rank: s.dp_rank,
                    token_ids: match promoted_ids {
                        Some(ids) => Some(seq![ids]),
                        None => None,
                    },
                }
            }
            &&& !(s.traces_enabled && is_new) ==> t.traces == s.traces
            &&& s.traces_enabled && is_new ==> one_more(s.traces, t.traces) && {
                t.traces.last() matches TraceRecord::Pool { is_store, block_ids, usage }
                    && is_store && block_ids == seq![hash] && measures(usage, t.cache)
            }
        }),
{
    let partial = UniqueBlock::PartialBlock(uuid);
    let full = UniqueBlock::FullBlock(hash);
    let cache = s.cache.drop_active(partial);
    hash_cache::lemma_drop_active(s.cache, partial);
    hash_cache::lemma_drop_inactive(cache, full);
    let count: nat = if cache.active.contains_key(full) {
        cache.active[full]
    } else {
        0
    };
    assert(cache.active.contains_key(full) == s.cache.active.contains_key(full));
    let t = model::promote_block(s, uuid, hash, parent_hash, local_hash, promoted_ids);
    if count < usize::MAX {
        hash_cache::lemma_activate(cache.drop_inactive(full), full, count + 1);
    }
    assert forall|i: int|
        0 <= i < s.cache.inactive.len() && #[trigger] s.cache.inactive[i] == full implies
        t.cache.inactive == s.cache.inactive.remove(i) by {
        evictor::lemma_without_at(s.cache.inactive, i);
    }
    assert(model::stored_blocks(seq![hash], seq![local_hash]) =~= seq![
        KvCacheStoredBlockData { block_hash: hash, tokens_hash: local_hash },
    ]);
    assert(t.traces.take(s.traces.len() as int) =~= s.traces);
    assert(t.events.take(s.events.len() as int) =~= s.events);
}

/// An eviction moves the same block in states that hold the same.
proof fn lemma_evicted_same(s: KvState, t: KvState)
    requires
        s.cache == t.cache,
        s.g2 == t.g2,
    ensures
        s.evicted().cache == t.evicted().cache,
        s.evicted().g2 == t.evicted().g2,
{
}

/// A block comes from the second tier in the same way in states that hold the same.
proof fn lemma_onboarded_same(s: KvState, t: KvState, block: UniqueBlock)
    requires
        s.cache == t.cache,
        s.g2 == t.g2,
    ensures
        s.onboarded(block).0.cache == t.onboarded(block).0.cache,
        s.onboarded(block).0.g2 == t.onboarded(block).0.g2,
        s.onboarded(block).1 == t.onboarded(block).1,
{
    lemma_evicted_same(s.left_g2(block), t.left_g2(block));
}

/// A step for one block moves the same blocks in states that hold the same.
proof fn lemma_step_same(
    p: UseProgress,
    q: UseProgress,
    i: int,
    j: int,
    block: UniqueBlock,
    a: Seq<u64>,
    b: Seq<u64>,
    x: Option<Seq<Seq<u32>>>,
    y: Option<Seq<Seq<u32>>>,
)
    requires
        !p.failed,
        !q.failed,
        p.state.cache == q.state.cache,
        p.state.g2 == q.state.g2,
    ensures
        p.step(i, block, a, x).failed == q.step(j, block, b, y).failed,
        p.step(i, block, a, x).state.cache == q.step(j, block, b, y).state.cache,
        p.step(i, block, a, x).state.g2 == q.step(j, block, b, y).state.g2,
{
    let s = p.state;
    let t = q.state;
    if s.cache.active.contains_key(block) {
    } else if s.cache.inactive.contains(block) {
    } else {
        lemma_onboarded_same(s, t, block);
        let (u, found) = s.onboarded(block);
        let (v, found_too) = t.onboarded(block);
        assert(found == found_too && u.cache == v.cache && u.g2 == v.g2);
        if found {
            assert(p.step(i, block, a, x).state == u);
            assert(q.step(j, block, b, y).state == v);
        } else if !u.cache.is_full() {
            assert(p.step(i, block, a, x) == p.allocated(u, i, block, x));
            assert(q.step(j, block, b, y) == q.allocated(v, j, block, y));
        } else if u.cache.inactive.len() > 0 {
            lemma_evicted_same(u, v);
            assert(p.step(i, block, a, x) == p.allocated(u.evicted(), i, block, x));
            assert(q.step(j, block, b, y) == q.allocated(v.evicted(), j, block, y));
        } else {
            assert(p.step(i, block, a, x).state == u);
            assert(q.step(j, block, b, y).state == v);
        }
    }
}

/// The blocks of a signal are processed one by one: using some blocks and one more moves the same
/// blocks as using the first ones, and then the last one on its own.
pub proof fn lemma_use_one_by_one(
    s: KvState,
    blocks: Seq<UniqueBlock>,
    last: UniqueBlock,
    local_hashes: Seq<u64>,
    fewer_hashes: Seq<u64>,
    last_hashes: Seq<u64>,
    token_ids: Option<Seq<Seq<u32>>>,
    fewer_ids: Option<Seq<Seq<u32>>>,
    last_ids: Option<Seq<Seq<u32>>>,
)
    ensures
        ({
            let (mid, ok) = model::process_signal(
                s,
                Signal::Use {
                    blocks,
                    local_hashes: fewer_hashes,
                    lineage_hashes: Seq::empty(),
                    token_ids: fewer_ids,
                },
            );
            let (t, last_ok) = model::process_signal(
                mid,
                use_of(last, last_hashes, Seq::empty(), last_ids),
            );
            let (all, all_ok) = model::process_signal(
                s,
                Signal::Use {
                    blocks: blocks.push(last),
                    local_hashes,
                    lineage_hashes: Seq::empty(),
                    token_ids,
                },
            );
            &&& all_ok == (ok && last_ok)
            &&& ok ==> all.cache == t.cache && all.g2 == t.g2
            &&& !ok ==> all.cache == mid.cache && all.g2 == mid.g2
        }),
{
    let n = blocks.len();
    let more = blocks.push(last);
    let p = model::use_progress(s, blocks, fewer_hashes, fewer_ids, n);
    let q = model::use_progress(s, more, local_hashes, token_ids, n);
    lemma_progress_same(s, blocks, more, fewer_hashes, local_hashes, fewer_ids, token_ids, n);
    let (mid, ok) = model::use_blocks(s, blocks, fewer_hashes, fewer_ids);
    let all = q.step(n as int, last, local_hashes, token_ids);
    assert(model::use_progress(s, more, local_hashes, token_ids, n + 1) == all);
    effects::lemma_report(all.hits_traced(), all.onboarded);
    if ok {
        effects::lemma_report(p.hits_traced(), p.onboarded);
        lemma_one(mid, last, last_hashes, last_ids);
        let start = UseProgress::start(mid, last_ids);
        let one = start.step(0, last, last_hashes, last_ids);
        effects::lemma_report(one.hits_traced(), one.onboarded);
        lemma_step_same(
            q,
            start,
            n as int,
            0,
            last,
            local_hashes,
            last_hashes,
            token_ids,
            last_ids,
        );
    }
}

/// The first blocks of two `Use` signals are the same, so they move the same blocks.
proof fn lemma_progress_same(
    s: KvState,
    a: Seq<UniqueBlock>,
    b: Seq<UniqueBlock>,
    a_hashes: Seq<u64>,
    b_hashes: Seq<u64>,
    a_ids: Option<Seq<Seq<u32>>>,
    b_ids: Option<Seq<Seq<u32>>>,
    n: nat,
)
    requires
        n <= a.len(),
        n <= b.len(),
        forall|i: int| 0 <= i < n ==> a[i] == b[i],
    ensures
        ({
            let p = model::use_progress(s, a, a_hashes, a_ids, n);
            let q = model::use_progress(s, b, b_hashes, b_ids, n);
            p.failed == q.failed && p.state.cache == q.state.cache && p.state.g2 == q.state.g2
        }),
    decreases n,
{
    if n > 0 {
        let m = (n - 1) as nat;
        lemma_progress_same(s, a, b, a_hashes, b_hashes, a_ids, b_ids, m);
        let p = model::use_progress(s, a, a_hashes, a_ids, m);
        let q = model::use_progress(s, b, b_hashes, b_ids, m);
        assert(a[m as int] == b[m as int]);
        if !p.failed {
            lemma_step_same(
                p,
                q,
                m as int,
                m as int,
                a[m as int],
                a_hashes,
                b_hashes,
                a_ids,
                b_ids,
            );
        }
    }
}

/// References are given back one by one, in order.
pub proof fn lemma_deref_one_by_one(s: KvState, blocks: Seq<UniqueBlock>, last: UniqueBlock)
    ensures
        ({
            let mid = model::process_signal(s, Signal::Deref { blocks }).0;
            let t = model::process_signal(mid, Signal::Deref { blocks: seq![last] }).0;
            model::process_signal(s, Signal::Deref { blocks: blocks.push(last) }).0 == t
        }),
{
    let n = blocks.len();
    let more = blocks.push(last);
    lemma_deref_same(s.cache, blocks, more, n);
    let mid = model::deref_blocks(s, blocks);
    assert(model::deref_progress(s.cache, more, n + 1) == model::deref_block(mid.cache, more[n as int]));
    assert(model::deref_progress(mid.cache, seq![last], 0) == mid.cache);
    assert(model::deref_progress(mid.cache, seq![last], 1) == model::deref_block(
        mid.cache,
        seq![last][0],
    ));
}

/// The first blocks of two `Deref` signals are the same.
proof fn lemma_deref_same(c: CacheState, a: Seq<UniqueBlock>, b: Seq<UniqueBlock>, n: nat)
    requires
        n <= a.len(),
        n <= b.len(),
        forall|i: int| 0 <= i < n ==> a[i] == b[i],
    ensures
        model::deref_progress(c, a, n) == model::deref_progress(c, b, n),
    decreases n,
{
    if n > 0 {
        lemma_deref_same(c, a, b, (n - 1) as nat);
        assert(a[n - 1] == b[n - 1]);
    }
}

/// Several blocks are destroyed like one: all of them are gone from the active pool, nothing else is
/// touched, and one event tells of the complete ones, in order.
pub proof fn lemma_destroy_all(s: KvState, hashes: Seq<u64>)
    requires
        s.wf(),
        !model::process_signal(
            s,
            Signal::Destroy { blocks: hashes.map_values(|h: u64| UniqueBlock::FullBlock(h)) },
        ).0.broken,
    ensures
        ({
            let blocks = hashes.map_values(|h: u64| UniqueBlock::FullBlock(h));
            let (t, ok) = model::process_signal(s, Signal::Destroy { blocks });
            &&& ok
            &&& forall|b: UniqueBlock| #[trigger]
                t.cache.active.contains_key(b) <==> s.cache.active.contains_key(b)
                    && !blocks.contains(b)
            &&& t.cache.inactive == s.cache.inactive
            &&& t.g2 == s.g2
            &&& !(s.publishes && hashes.len() > 0) ==> t.events == s.events
            &&& s.publishes && hashes.len() > 0 ==> one_more(s.events, t.events)
                && t.events.last().change == Change::Removed { block_hashes: hashes }
        }),
{
    let blocks = hashes.map_values(|h: u64| UniqueBlock::FullBlock(h));
    effects::lemma_destroyed(s, blocks, blocks.len());
    assert(blocks.take(blocks.len() as int) =~= blocks);
    lemma_all_full(hashes);
    let t = model::destroy_blocks(s, blocks);
    assert(t.events.take(s.events.len() as int) =~= s.events);
}

/// Where all blocks are complete, all their hashes count.
proof fn lemma_all_full(hashes: Seq<u64>)
    ensures
        model::full_hashes(hashes.map_values(|h: u64| UniqueBlock::FullBlock(h))) == hashes,
    decreases hashes.len(),
{
    let blocks = hashes.map_values(|h: u64| UniqueBlock::FullBlock(h));
    if hashes.len() > 0 {
        lemma_all_full(hashes.drop_last());
        assert(blocks.drop_last() =~= hashes.drop_last().map_values(
            |h: u64| UniqueBlock::FullBlock(h),
        ));
        assert(hashes.drop_last().push(hashes.last()) =~= hashes);
    } else {
        assert(hashes =~= Seq::empty());
    }
}

/// A `Use` signal succeeds if and only if the blocks that are then in use, those that were and those
/// of the signal, each counted once, are no more than the capacity. The other signals succeed.
pub proof fn lemma_succeeds_if_blocks_fit(s: KvState, signal: Signal)
    requires
        s.wf(),
        !model::process_signal(s, signal).0.broken,
    ensures
        model::process_signal(s, signal).1 == match signal {
            Signal::Use { blocks, .. } => s.cache.active.dom().union(blocks.to_set()).len()
                <= s.cache.max_capacity,
            _ => true,
        },
{
    effects::lemma_processed(s, signal);
}

/// A new manager holds nothing, has reported nothing but what its sink held before, and numbers its
/// events from zero. It has a second tier if and only if that has room for a block.
pub proof fn lemma_starts_empty(
    max_capacity: nat,
    block_size: usize,
    sink: Option<Seq<EventRecord>>,
    dp_rank: u32,
    num_dram_blocks: nat,
)
    ensures
        ({
            let s = KvState::initial(max_capacity, block_size, sink, dp_rank, num_dram_blocks);
            &&& s.cache.active == Map::<UniqueBlock, nat>::empty()
            &&& s.cache.inactive.len() == 0
            &&& s.cache.max_capacity == max_capacity
            &&& num_dram_blocks == 0 ==> s.g2 is None
            &&& num_dram_blocks > 0 ==> s.g2 is Some && s.g2->0.max_capacity == num_dram_blocks
                && s.g2->0.inactive.len() == 0 && s.g2->0.active.dom().len() == 0
            &&& s.block_size == block_size
            &&& s.dp_rank == dp_rank
            &&& s.publishes == sink is Some
            &&& s.next_event_id == 0
            &&& sink is Some ==> s.events == sink->0
            &&& s.traces.len() == 0
        }),
{
}

} // verus!
