//! What a `Use` signal tells when there are slots for all its blocks: which of them were found and
//! where, and behind which block the others stand.

use vstd::prelude::*;
use crate::cache::hash_cache;
use crate::common::protocols::{
    Change, EventRecord, KvCacheStoredBlockData, Signal, TraceRecord, UniqueBlock,
};
use crate::kv_manager::effects;
use crate::kv_manager::lineage;
use crate::kv_manager::model;
use crate::kv_manager::model::KvState;

verus! {

broadcast use {vstd::set::group_set_axioms, vstd::map::group_map_axioms};

/// The block is in one of the tiers.
pub open spec fn found(s: KvState, block: UniqueBlock) -> bool {
    lineage::in_first_tier(s, block) || lineage::in_second_tier(s, block)
}

/// The last of the first `n` blocks that is in one of the tiers.
pub open spec fn last_found(s: KvState, blocks: Seq<UniqueBlock>, n: nat) -> Option<UniqueBlock>
    decreases n,
{
    if n == 0 {
        None
    } else if found(s, blocks[n - 1]) {
        Some(blocks[n - 1])
    } else {
        last_found(s, blocks, (n - 1) as nat)
    }
}

/// The hash of a block, if it is complete.
pub open spec fn hash_of(block: Option<UniqueBlock>) -> Option<u64> {
    match block {
        Some(UniqueBlock::FullBlock(hash)) => Some(hash),
        _ => None,
    }
}

/// The hashes of the complete ones among `blocks` of which `keep` holds, in order.
pub open spec fn hashes_where(blocks: Seq<UniqueBlock>, keep: spec_fn(UniqueBlock) -> bool) -> Seq<
    u64,
> {
    blocks.filter(|b: UniqueBlock| b is FullBlock && keep(b)).map_values(
        |b: UniqueBlock| b->FullBlock_0,
    )
}

/// The places, among the first `n`, of complete blocks that come from the second tier, and for which
/// the signal brings a content hash.
pub open spec fn brought(
    s: KvState,
    blocks: Seq<UniqueBlock>,
    local_hashes: Seq<u64>,
    n: nat,
) -> Seq<int> {
    Seq::new(n, |j: int| j).filter(
        |j: int|
            blocks[j] is FullBlock && j < local_hashes.len() && !lineage::in_first_tier(
                s,
                blocks[j],
            ) && lineage::in_second_tier(s, blocks[j]),
    )
}

/// One more block among those of which hashes are listed.
proof fn lemma_hashes_next(
    blocks: Seq<UniqueBlock>,
    i: int,
    keep: spec_fn(UniqueBlock) -> bool,
)
    requires
        0 <= i < blocks.len(),
    ensures
        hashes_where(blocks.take(i + 1), keep) == if blocks[i] is FullBlock && keep(blocks[i]) {
            hashes_where(blocks.take(i), keep).push(blocks[i]->FullBlock_0)
        } else {
            hashes_where(blocks.take(i), keep)
        },
{
    reveal(Seq::filter);
    let more = blocks.take(i + 1);
    assert(more.drop_last() =~= blocks.take(i));
    assert(more.last() == blocks[i]);
    assert(hashes_where(more, keep) =~= if blocks[i] is FullBlock && keep(blocks[i]) {
        hashes_where(blocks.take(i), keep).push(blocks[i]->FullBlock_0)
    } else {
        hashes_where(blocks.take(i), keep)
    });
}

/// One more place.
proof fn lemma_brought_next(
    s: KvState,
    blocks: Seq<UniqueBlock>,
    local_hashes: Seq<u64>,
    n: nat,
)
    ensures
        brought(s, blocks, local_hashes, n + 1) == if blocks[n as int] is FullBlock && n
            < local_hashes.len() && !lineage::in_first_tier(s, blocks[n as int])
            && lineage::in_second_tier(s, blocks[n as int]) {
            brought(s, blocks, local_hashes, n).push(n as int)
        } else {
            brought(s, blocks, local_hashes, n)
        },
{
    reveal(Seq::filter);
    let more = Seq::new(n + 1, |j: int| j);
    assert(more.drop_last() =~= Seq::new(n, |j: int| j));
    assert(more.last() == n);
}

/// How far a `Use` signal has come after `i` blocks, where there are slots for all of them.
#[verifier::rlimit(40)]
proof fn lemma_roomy(
    s: KvState,
    blocks: Seq<UniqueBlock>,
    local_hashes: Seq<u64>,
    token_ids: Option<Seq<Seq<u32>>>,
    i: nat,
)
    requires
        s.wf(),
        i <= blocks.len(),
        blocks.no_duplicates(),
        s.cache.active.dom().len() + s.cache.inactive.len() + blocks.len() <= s.cache.max_capacity,
        !model::use_blocks(s, blocks, local_hashes, token_ids).0.broken,
    ensures
        ({
            let p = model::use_progress(s, blocks, local_hashes, token_ids, i);
            let first = blocks.take(i as int);
            &&& !p.failed
            &&& p.state.events == s.events
            &&& p.parent == last_found(s, blocks, i)
            &&& p.stored == hashes_where(first, |b: UniqueBlock| !found(s, b))
            &&& p.active_hits == hashes_where(
                first,
                |b: UniqueBlock| s.cache.active.contains_key(b),
            )
            &&& p.inactive_hits == hashes_where(
                first,
                |b: UniqueBlock| s.cache.inactive.contains(b),
            )
            &&& p.g2_hits == hashes_where(
                first,
                |b: UniqueBlock|
                    !lineage::in_first_tier(s, b) && lineage::in_second_tier(s, b),
            )
            &&& p.onboarded == brought(s, blocks, local_hashes, i).map_values(
                |j: int|
                    (
                        blocks[j]->FullBlock_0,
                        local_hashes[j],
                        hash_of(last_found(s, blocks, j as nat)),
                    ),
            )
            &&& p.state.cache.len() + (blocks.len() - i) <= s.cache.max_capacity
            &&& forall|j: int|
                #![trigger blocks[j]]
                i <= j < blocks.len() ==> {
                    &&& p.state.cache.active.contains_key(blocks[j])
                        == s.cache.active.contains_key(blocks[j])
                    &&& p.state.cache.inactive.contains(blocks[j]) == s.cache.inactive.contains(
                        blocks[j],
                    )
                    &&& p.state.in_g2(blocks[j]) == lineage::in_second_tier(s, blocks[j])
                }
        }),
    decreases i,
{
    let p = model::use_progress(s, blocks, local_hashes, token_ids, i);
    let is_new = |b: UniqueBlock| !found(s, b);
    let in_use = |b: UniqueBlock| s.cache.active.contains_key(b);
    let kept = |b: UniqueBlock| s.cache.inactive.contains(b);
    let away = |b: UniqueBlock|
        !lineage::in_first_tier(s, b) && lineage::in_second_tier(s, b);
    let note = |j: int|
        (
            blocks[j]->FullBlock_0,
            local_hashes[j],
            hash_of(last_found(s, blocks, j as nat)),
        );
    if i == 0 {
        reveal(Seq::filter);
        assert(blocks.take(0) =~= Seq::empty());
        assert(hashes_where(blocks.take(0), is_new) =~= Seq::empty());
        assert(hashes_where(blocks.take(0), in_use) =~= Seq::empty());
        assert(hashes_where(blocks.take(0), kept) =~= Seq::empty());
        assert(hashes_where(blocks.take(0), away) =~= Seq::empty());
        assert(brought(s, blocks, local_hashes, 0).map_values(note) =~= Seq::empty());
    } else {
        let m = (i - 1) as nat;
        let q = model::use_progress(s, blocks, local_hashes, token_ids, m);
        let block = blocks[m as int];
        lemma_roomy(s, blocks, local_hashes, token_ids, m);
        model::lemma_use_defined(s, blocks, local_hashes, token_ids, m);
        effects::lemma_progress(s, blocks, local_hashes, token_ids, m);
        lemma_hashes_next(blocks, m as int, is_new);
        lemma_hashes_next(blocks, m as int, in_use);
        lemma_hashes_next(blocks, m as int, kept);
        lemma_hashes_next(blocks, m as int, away);
        lemma_brought_next(s, blocks, local_hashes, m);
        assert(forall|j: int| i <= j < blocks.len() ==> #[trigger] blocks[j] != block);
        let c = q.state.cache;
        if c.active.contains_key(block) {
            hash_cache::lemma_activate(c, block, 1);
            assert(c.activate(block, c.active[block] + 1).active.dom() =~= c.active.dom());
        } else if c.inactive.contains(block) {
            hash_cache::lemma_drop_inactive(c, block);
            hash_cache::lemma_activate(c.drop_inactive(block), block, 1);
        } else if q.state.in_g2(block) {
            let g2 = q.state.g2->0;
            hash_cache::lemma_drop_inactive(g2, block);
            hash_cache::lemma_activate(c, block, 1);
            assert(brought(s, blocks, local_hashes, i).map_values(note) =~= if block is FullBlock
                && m < local_hashes.len() {
                brought(s, blocks, local_hashes, m).map_values(note).push(note(m as int))
            } else {
                brought(s, blocks, local_hashes, m).map_values(note)
            });
            assert(hash_of(q.parent) == model::parent_hash(q.parent));
        } else {
            hash_cache::lemma_activate(c, block, 1);
        }
    }
}

/// The events that tell of blocks from the second tier, one for each.
proof fn lemma_report_events(s: KvState, onboarded: Seq<(u64, u64, Option<u64>)>)
    requires
        s.publishes,
    ensures
        ({
            let t = model::report_onboarded(s, onboarded);
            &&& t.publishes
            &&& t.dp_rank == s.dp_rank
            &&& t.next_event_id == s.next_event_id + onboarded.len()
            &&& t.events.len() == s.events.len() + onboarded.len()
            &&& forall|x: int| 0 <= x < s.events.len() ==> #[trigger] t.events[x] == s.events[x]
            &&& forall|x: int|
                #![trigger onboarded[x]]
                0 <= x < onboarded.len() ==> {
                    let (hash, local_hash, parent) = onboarded[x];
                    t.events[s.events.len() + x] == EventRecord {
                        event_id: s.next_event_id + x as nat,
                        change: Change::Stored {
                            parent_hash: parent,
                            blocks: seq![
                                KvCacheStoredBlockData {
                                    block_hash: hash,
                                    tokens_hash: local_hash,
                                },
                            ],
                        },
                        dp_rank: s.dp_rank,
                        token_ids: None,
                    }
                }
        }),
    decreases onboarded.len(),
{
    if onboarded.len() > 0 {
        let less = onboarded.drop_last();
        let n = less.len() as int;
        let p = model::report_onboarded(s, less);
        let (hash, local_hash, parent) = onboarded.last();
        lemma_report_events(s, less);
        assert(model::stored_blocks(seq![hash], seq![local_hash]) =~= seq![
            KvCacheStoredBlockData { block_hash: hash, tokens_hash: local_hash },
        ]);
        assert forall|x: int|
            #![trigger onboarded[x]]
            0 <= x < onboarded.len() && x < n implies less[x] == onboarded[x] by {}
    }
}

/// A `Use` signal whose blocks all have free slots succeeds. Each complete block that comes from the
/// second tier is told of by an event of its own, in order, as stored behind the last block before it
/// that was found. The complete blocks that are new are told of together, in order, by one more
/// event, as stored behind the last block of all that was found; their content hashes are the last
/// ones of the signal. No other event is published.
pub proof fn lemma_use_tells_of_stored_blocks(
    s: KvState,
    blocks: Seq<UniqueBlock>,
    local_hashes: Seq<u64>,
    lineage_hashes: Seq<u128>,
    token_ids: Option<Seq<Seq<u32>>>,
)
    requires
        s.wf(),
        s.publishes,
        blocks.no_duplicates(),
        s.cache.active.dom().len() + s.cache.inactive.len() + blocks.len() <= s.cache.max_capacity,
        !model::process_signal(
            s,
            Signal::Use { blocks, local_hashes, lineage_hashes, token_ids },
        ).0.broken,
    ensures
        ({
            let (t, ok) = model::process_signal(
                s,
                Signal::Use { blocks, local_hashes, lineage_hashes, token_ids },
            );
            let places = brought(s, blocks, local_hashes, blocks.len());
            let stored = hashes_where(blocks, |b: UniqueBlock| !found(s, b));
            let at = s.events.len() + places.len();
            &&& ok
            &&& t.events.len() == at + if stored.len() > 0 {
                1int
            } else {
                0
            }
            &&& forall|x: int| 0 <= x < s.events.len() ==> #[trigger] t.events[x] == s.events[x]
            &&& forall|x: int|
                #![trigger places[x]]
                0 <= x < places.len() ==> t.events[s.events.len() + x].change == Change::Stored {
                    parent_hash: hash_of(last_found(s, blocks, places[x] as nat)),
                    blocks: seq![
                        KvCacheStoredBlockData {
                            block_hash: blocks[places[x]]->FullBlock_0,
                            tokens_hash: local_hashes[places[x]],
                        },
                    ],
                }
            &&& stored.len() > 0 ==> t.events[at as int].change == Change::Stored {
                parent_hash: hash_of(last_found(s, blocks, blocks.len())),
                blocks: Seq::new(
                    stored.len(),
                    |j: int|
                        KvCacheStoredBlockData {
                            block_hash: stored[j],
                            tokens_hash: local_hashes[local_hashes.len() - stored.len() + j],
                        },
                ),
            }
        }),
{
    let n = blocks.len();
    let p = model::use_progress(s, blocks, local_hashes, token_ids, n);
    let places = brought(s, blocks, local_hashes, n);
    let note = |j: int|
        (
            blocks[j]->FullBlock_0,
            local_hashes[j],
            hash_of(last_found(s, blocks, j as nat)),
        );
    let stored = hashes_where(blocks, |b: UniqueBlock| !found(s, b));
    lemma_roomy(s, blocks, local_hashes, token_ids, n);
    model::lemma_use_defined(s, blocks, local_hashes, token_ids, n);
    effects::lemma_progress(s, blocks, local_hashes, token_ids, n);
    assert(blocks.take(n as int) =~= blocks);
    let traced = p.hits_traced();
    assert(traced.events == s.events);
    assert(p.onboarded == places.map_values(note));
    lemma_report_events(traced, p.onboarded);
    assert forall|x: int|
        #![trigger places[x]]
        0 <= x < places.len() implies p.onboarded[x] == note(places[x]) by {}
    assert(hash_of(p.parent) == model::parent_hash(p.parent));
    assert(model::stored_blocks(stored, local_hashes) =~= Seq::new(
        stored.len(),
        |j: int|
            KvCacheStoredBlockData {
                block_hash: stored[j],
                tokens_hash: local_hashes[local_hashes.len() - stored.len() + j],
            },
    ));
}

/// Reports come behind the traces that are there.
proof fn lemma_report_traces(s: KvState, onboarded: Seq<(u64, u64, Option<u64>)>)
    ensures
        ({
            let t = model::report_onboarded(s, onboarded);
            &&& t.traces.len() >= s.traces.len()
            &&& forall|x: int| 0 <= x < s.traces.len() ==> #[trigger] t.traces[x] == s.traces[x]
        }),
    decreases onboarded.len(),
{
    if onboarded.len() > 0 {
        lemma_report_traces(s, onboarded.drop_last());
    }
}

/// A `Use` signal whose blocks all have free slots, and of which a complete block is found, leaves a
/// trace of the complete blocks that were found, in order: those that were in use, those kept for
/// reuse, and those of the second tier.
pub proof fn lemma_use_traces_hits(
    s: KvState,
    blocks: Seq<UniqueBlock>,
    local_hashes: Seq<u64>,
    lineage_hashes: Seq<u128>,
    token_ids: Option<Seq<Seq<u32>>>,
    hit: int,
)
    requires
        s.wf(),
        s.traces_enabled,
        blocks.no_duplicates(),
        s.cache.active.dom().len() + s.cache.inactive.len() + blocks.len() <= s.cache.max_capacity,
        !model::process_signal(
            s,
            Signal::Use { blocks, local_hashes, lineage_hashes, token_ids },
        ).0.broken,
        0 <= hit < blocks.len(),
        blocks[hit] is FullBlock,
        found(s, blocks[hit]),
    ensures
        ({
            let t = model::process_signal(
                s,
                Signal::Use { blocks, local_hashes, lineage_hashes, token_ids },
            ).0;
            exists|x: int|
                0 <= x < t.traces.len() && (#[trigger] t.traces[x] matches TraceRecord::CacheHit {
                    g1_active_block_ids,
                    g1_inactive_block_ids,
                    g2_block_ids,
                    usage,
                } && {
                    &&& g1_active_block_ids == hashes_where(
                        blocks,
                        |b: UniqueBlock| s.cache.active.contains_key(b),
                    )
                    &&& g1_inactive_block_ids == hashes_where(
                        blocks,
                        |b: UniqueBlock| s.cache.inactive.contains(b),
                    )
                    &&& g2_block_ids == hashes_where(
                        blocks,
                        |b: UniqueBlock|
                            !lineage::in_first_tier(s, b) && lineage::in_second_tier(s, b),
                    )
                    &&& usage.active == t.cache.active.dom().len() as usize
                    &&& usage.inactive == t.cache.inactive.len() as usize
                    &&& usage.total == s.cache.max_capacity as usize
                })
        }),
{
    let n = blocks.len();
    let p = model::use_progress(s, blocks, local_hashes, token_ids, n);
    let in_use = |b: UniqueBlock| s.cache.active.contains_key(b);
    let kept = |b: UniqueBlock| s.cache.inactive.contains(b);
    let away = |b: UniqueBlock|
        !lineage::in_first_tier(s, b) && lineage::in_second_tier(s, b);
    lemma_roomy(s, blocks, local_hashes, token_ids, n);
    model::lemma_use_defined(s, blocks, local_hashes, token_ids, n);
    effects::lemma_progress(s, blocks, local_hashes, token_ids, n);
    assert(blocks.take(n as int) =~= blocks);
    let b = blocks[hit];
    if in_use(b) {
        lemma_listed(blocks, hit, in_use);
    } else if kept(b) {
        lemma_listed(blocks, hit, kept);
    } else {
        lemma_listed(blocks, hit, away);
    }
    let traced = p.hits_traced();
    lemma_report_traces(traced, p.onboarded);
    effects::lemma_report(traced, p.onboarded);
    let t = p.finish(local_hashes);
    let x = p.state.traces.len() as int;
    assert(traced.traces[x] is CacheHit);
    assert(t.traces[x] == traced.traces[x]);
}

/// A complete block of which `keep` holds is listed.
proof fn lemma_listed(blocks: Seq<UniqueBlock>, i: int, keep: spec_fn(UniqueBlock) -> bool)
    requires
        0 <= i < blocks.len(),
        blocks[i] is FullBlock,
        keep(blocks[i]),
    ensures
        hashes_where(blocks, keep).len() > 0,
{
    broadcast use vstd::seq_lib::group_filter_ensures;

    let listed = |b: UniqueBlock| b is FullBlock && keep(b);
    assert(blocks.contains(blocks[i]));
    assert(listed(blocks[i]));
    assert(blocks.filter(listed).contains(blocks[i]));
}

} // verus!
