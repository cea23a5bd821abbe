//! What the signals do to a reference-counting KV manager, seen from outside: references, known
//! blocks, number of events, and which signals have a defined outcome.

use vstd::prelude::*;
use crate::cache::hash_cache;
use crate::cache::hash_cache::CacheState;
use crate::common::protocols::{Signal, UniqueBlock};
use crate::kv_manager::accounting;
use crate::kv_manager::model;
use crate::kv_manager::model::{KvState, UseProgress};

verus! {

broadcast use {vstd::set::group_set_axioms, vstd::map::group_map_axioms};

/// The tiers are in order.
pub open spec fn tiers(s: KvState) -> bool {
    &&& s.cache.wf()
    &&& s.cache.max_capacity > 0
    &&& match s.g2 {
        Some(g2) => g2.wf() && g2.max_capacity > 0 && g2.active == Map::<UniqueBlock, nat>::empty(),
        None => true,
    }
}

/// The manager has `block` in one of its pools.
pub open spec fn present(s: KvState, block: UniqueBlock) -> bool {
    s.cache.holds(block) || s.in_g2(block)
}

/// The blocks in all pools.
pub open spec fn known(s: KvState) -> Set<UniqueBlock> {
    Set::new(|b: UniqueBlock| present(s, b))
}

/// The manager keeps `block` for reuse, in one of the tiers.
pub open spec fn idle(s: KvState, block: UniqueBlock) -> bool {
    s.cache.inactive.contains(block) || s.in_g2(block)
}

/// The blocks kept for reuse.
pub open spec fn reusable(s: KvState) -> Set<UniqueBlock> {
    Set::new(|b: UniqueBlock| idle(s, b))
}

/// What stays as it is, and how far the event counter may move.
pub open spec fn steady(before: KvState, after: KvState, events: nat) -> bool {
    &&& after.cache.max_capacity == before.cache.max_capacity
    &&& after.g2 is Some == before.g2 is Some
    &&& before.g2 is Some ==> after.g2->0.max_capacity == before.g2->0.max_capacity
    &&& after.block_size == before.block_size
    &&& after.dp_rank == before.dp_rank
    &&& after.publishes == before.publishes
    &&& after.traces_enabled == before.traces_enabled
    &&& before.next_event_id <= after.next_event_id <= before.next_event_id + events
    &&& before.broken ==> after.broken
    &&& before.next_event_id + events <= u64::MAX && after.broken ==> before.broken
}

/// Offloading a block that has left the first tier.
pub proof fn lemma_offloaded(s: KvState, block: UniqueBlock)
    requires
        tiers(s),
    ensures
        tiers(s.offloaded(block)),
        s.offloaded(block).cache == s.cache,
        steady(s, s.offloaded(block), 0),
        s.offloaded(block).broken == s.broken,
        s.offloaded(block).events == s.events,
        forall|b: UniqueBlock| #[trigger]
            s.offloaded(block).in_g2(b) ==> s.in_g2(b) || b == block,
{
    if let Some(g2) = s.g2 {
        if g2.is_full() {
            hash_cache::lemma_evict(g2);
            hash_cache::lemma_rest(g2.evict(), block);
        } else {
            hash_cache::lemma_rest(g2, block);
        }
    }
}

/// Evicting a block from the first tier.
pub proof fn lemma_evicted(s: KvState)
    requires
        tiers(s),
        s.cache.inactive.len() > 0,
    ensures
        tiers(s.evicted()),
        s.evicted().cache == s.cache.evict(),
        steady(s, s.evicted(), 1),
        s.cache.evict().len() == s.cache.len() - 1,
        forall|b: UniqueBlock| #[trigger] present(s.evicted(), b) ==> present(s, b),
        forall|b: UniqueBlock| #[trigger] idle(s.evicted(), b) ==> idle(s, b),
{
    let block = s.cache.inactive[0];
    hash_cache::lemma_evict(s.cache);
    let out = KvState { cache: s.cache.evict(), ..s };
    let told = if block is FullBlock {
        out.published(seq![block->FullBlock_0], Seq::empty(), None, false, None)
    } else {
        out
    };
    lemma_offloaded(told, block);
    assert(s.cache.inactive.contains(block));
    assert forall|b: UniqueBlock| #[trigger] present(s.evicted(), b) implies present(s, b) by {
        if s.evicted().in_g2(b) {
            assert(told.in_g2(b) || b == block);
        }
        if s.evicted().cache.inactive.contains(b) {
            assert(s.cache.evict().inactive.contains(b));
        }
    }
    assert forall|b: UniqueBlock| #[trigger] idle(s.evicted(), b) implies idle(s, b) by {
        if s.evicted().in_g2(b) {
            assert(told.in_g2(b) || b == block);
        }
        if s.evicted().cache.inactive.contains(b) {
            assert(s.cache.evict().inactive.contains(b));
        }
    }
}

/// A block comes from the second tier, or nothing of the first tier changes.
pub proof fn lemma_onboarded(s: KvState, block: UniqueBlock)
    requires
        tiers(s),
        !s.cache.holds(block),
    ensures
        tiers(s.onboarded(block).0),
        steady(
            s,
            s.onboarded(block).0,
            if s.onboarded(block).1 {
                1
            } else {
                0
            },
        ),
        s.onboarded(block).1 ==> s.onboarded(block).0.cache.active == s.cache.active.insert(
            block,
            1,
        ),
        !s.onboarded(block).1 ==> s.onboarded(block).0.cache == s.cache,
        forall|b: UniqueBlock| #[trigger] present(s.onboarded(block).0, b) ==> present(s, b),
        forall|b: UniqueBlock| #[trigger] idle(s.onboarded(block).0, b) ==> idle(s, b),
{
    let t = s.onboarded(block).0;
    if s.in_g2(block) {
        let g2 = s.g2->0;
        let left = s.left_g2(block);
        hash_cache::lemma_drop_inactive(g2, block);
        assert(forall|b: UniqueBlock| #[trigger] left.in_g2(b) ==> s.in_g2(b));
        assert(forall|b: UniqueBlock| #[trigger] present(left, b) ==> present(s, b));
        if !left.cache.is_full() {
            hash_cache::lemma_activate(left.cache, block, 1);
        } else if left.cache.inactive.len() > 0 {
            lemma_evicted(left);
            hash_cache::lemma_evict(left.cache);
            hash_cache::lemma_activate(left.evicted().cache, block, 1);
            assert forall|b: UniqueBlock| #[trigger] present(t, b) implies present(s, b) by {
                assert(present(left.evicted(), b) || b == block);
            }
            assert forall|b: UniqueBlock| #[trigger] idle(t, b) implies idle(s, b) by {
                assert(idle(left.evicted(), b));
                assert(idle(left, b));
            }
        } else {
            hash_cache::lemma_rest(g2.drop_inactive(block), block);
        }
    }
}

/// A block of a `Use` signal is processed with a defined outcome.
pub proof fn lemma_step(
    p: UseProgress,
    i: int,
    block: UniqueBlock,
    local_hashes: Seq<u64>,
    token_ids: Option<Seq<Seq<u32>>>,
)
    requires
        tiers(p.state),
        !p.failed,
        accounting::refs(p.state.cache.active, block) < usize::MAX,
    ensures
        ({
            let q = p.step(i, block, local_hashes, token_ids);
            let active = p.state.cache.active;
            &&& tiers(q.state)
            &&& if q.failed {
                q.state.cache == p.state.cache && active.dom().len() == p.state.cache.max_capacity
                    && !active.contains_key(block)
            } else {
                q.state.cache.active == active.insert(block, accounting::refs(active, block) + 1)
            }
            &&& q.state.cache.max_capacity == p.state.cache.max_capacity
            &&& q.state.g2 is Some == p.state.g2 is Some
            &&& p.state.g2 is Some ==> q.state.g2->0.max_capacity == p.state.g2->0.max_capacity
            &&& q.state.block_size == p.state.block_size
            &&& q.state.dp_rank == p.state.dp_rank
            &&& q.state.publishes == p.state.publishes
            &&& q.state.traces_enabled == p.state.traces_enabled
            &&& p.state.next_event_id <= q.state.next_event_id <= p.state.next_event_id + 1
            &&& p.state.next_event_id < u64::MAX && q.state.broken ==> p.state.broken || (
            block is FullBlock && token_ids is Some && i >= token_ids->0.len())
            &&& forall|b: UniqueBlock| #[trigger]
                present(q.state, b) ==> present(p.state, b) || b == block
            &&& forall|b: UniqueBlock| #[trigger] idle(q.state, b) ==> idle(p.state, b)
            &&& q.onboarded.len() <= p.onboarded.len() + 1
            &&& q.stored.len() <= p.stored.len() + if block is FullBlock {
                1int
            } else {
                0
            }
            &&& q.parent != p.parent ==> q.parent == Some(block) && present(p.state, block)
        }),
{
    let s = p.state;
    if s.cache.active.contains_key(block) {
        hash_cache::lemma_activate(s.cache, block, s.cache.active[block] + 1);
    } else if s.cache.inactive.contains(block) {
        hash_cache::lemma_drop_inactive(s.cache, block);
        hash_cache::lemma_activate(s.cache.drop_inactive(block), block, 1);
    } else {
        lemma_onboarded(s, block);
        let (t, found) = s.onboarded(block);
        if !found {
            if !t.cache.is_full() {
                hash_cache::lemma_activate(t.cache, block, 1);
            } else if t.cache.inactive.len() > 0 {
                lemma_evicted(t);
                hash_cache::lemma_evict(t.cache);
                hash_cache::lemma_activate(t.evicted().cache, block, 1);
                let q = p.step(i, block, local_hashes, token_ids);
                assert forall|b: UniqueBlock| #[trigger] present(q.state, b) implies present(s, b)
                    || b == block by {
                    assert(present(t.evicted(), b) || b == block);
                    assert(present(t.evicted(), b) ==> present(t, b));
                }
                assert forall|b: UniqueBlock| #[trigger] idle(q.state, b) implies idle(s, b) by {
                    assert(idle(t.evicted(), b));
                    assert(idle(t, b));
                }
            }
        }
    }
}

/// The references on the blocks of a `Use` signal can be counted: the state is far enough from the
/// limits, or the outcome is defined.
pub open spec fn countable(
    s: KvState,
    blocks: Seq<UniqueBlock>,
    local_hashes: Seq<u64>,
    token_ids: Option<Seq<Seq<u32>>>,
    n: nat,
) -> bool {
    ||| forall|b: UniqueBlock| #[trigger] accounting::refs(s.cache.active, b) + n <= usize::MAX
    ||| !model::use_progress(s, blocks, local_hashes, token_ids, n).state.broken
}

/// The last block found in the cache is one that was known before it was used.
pub open spec fn found(s: KvState, blocks: Seq<UniqueBlock>, n: int, block: UniqueBlock) -> bool {
    exists|j: int|
        0 <= j < n && #[trigger] blocks[j] == block && (present(s, block) || blocks.take(
            j,
        ).contains(block))
}

/// The first `n` blocks of a `Use` signal are processed.
pub proof fn lemma_progress(
    s: KvState,
    blocks: Seq<UniqueBlock>,
    local_hashes: Seq<u64>,
    token_ids: Option<Seq<Seq<u32>>>,
    n: nat,
)
    requires
        tiers(s),
        n <= blocks.len(),
        countable(s, blocks, local_hashes, token_ids, n),
    ensures
        ({
            let p = model::use_progress(s, blocks, local_hashes, token_ids, n);
            let after = p.state.cache.active;
            &&& tiers(p.state)
            &&& p.state.cache.max_capacity == s.cache.max_capacity
            &&& p.state.g2 is Some == s.g2 is Some
            &&& s.g2 is Some ==> p.state.g2->0.max_capacity == s.g2->0.max_capacity
            &&& p.state.block_size == s.block_size
            &&& p.state.dp_rank == s.dp_rank
            &&& p.state.publishes == s.publishes
            &&& p.state.traces_enabled == s.traces_enabled
            &&& s.next_event_id <= p.state.next_event_id <= s.next_event_id + n
            &&& if p.failed {
                exists|k: int|
                    k < n && #[trigger] accounting::stopped_at(
                        s.cache.active,
                        blocks,
                        s.cache.max_capacity,
                        after,
                        k,
                    )
            } else {
                after == accounting::taken(s.cache.active, blocks.take(n as int))
            }
            &&& forall|b: UniqueBlock| #[trigger]
                present(p.state, b) ==> present(s, b) || blocks.take(n as int).contains(b)
            &&& forall|b: UniqueBlock| #[trigger] idle(p.state, b) ==> idle(s, b)
            &&& p.onboarded.len() <= n
            &&& p.stored.len() <= model::full_hashes(blocks.take(n as int)).len()
            &&& p.parent is Some ==> found(s, blocks, n as int, p.parent->0)
        }),
    decreases n,
{
    let p = model::use_progress(s, blocks, local_hashes, token_ids, n);
    if n == 0 {
        accounting::lemma_taken_none(s.cache.active, blocks.take(0));
    } else {
        let m = (n - 1) as nat;
        let before = model::use_progress(s, blocks, local_hashes, token_ids, m);
        let block = blocks[m as int];
        if before.state.broken {
            model::lemma_step_stays_broken(before, m as int, block, local_hashes, token_ids);
        }
        lemma_progress(s, blocks, local_hashes, token_ids, m);
        let taken = blocks.take(m as int);
        assert(blocks.take(n as int) =~= taken.push(block));
        assert(blocks.take(n as int).drop_last() =~= taken);
        assert(blocks.take(n as int).contains(block)) by {
            assert(blocks.take(n as int)[m as int] == block);
        }
        assert forall|b: UniqueBlock| #[trigger] taken.contains(b) implies blocks.take(
            n as int,
        ).contains(b) by {
            assert(blocks.take(n as int)[taken.index_of(b)] == b);
        }
        if before.failed {
            let k = choose|k: int|
                k < m && #[trigger] accounting::stopped_at(
                    s.cache.active,
                    blocks,
                    s.cache.max_capacity,
                    before.state.cache.active,
                    k,
                );
            assert(accounting::stopped_at(
                s.cache.active,
                blocks,
                s.cache.max_capacity,
                p.state.cache.active,
                k,
            ));
        } else {
            let active = before.state.cache.active;
            assert(accounting::refs(active, block) < usize::MAX) by {
                if forall|b: UniqueBlock| #[trigger]
                    accounting::refs(s.cache.active, b) + n <= usize::MAX {
                    assert(accounting::refs(s.cache.active, block) + n <= usize::MAX);
                    lemma_occurrences_bound(taken, block);
                } else {
                    assert(!p.state.broken);
                }
            }
            lemma_step(before, m as int, block, local_hashes, token_ids);
            accounting::lemma_taken_next(s.cache.active, blocks, m as int);
            if p.failed {
                assert(accounting::stopped_at(
                    s.cache.active,
                    blocks,
                    s.cache.max_capacity,
                    p.state.cache.active,
                    m as int,
                ));
            }
            assert forall|b: UniqueBlock| #[trigger] present(p.state, b) implies present(s, b)
                || blocks.take(n as int).contains(b) by {
                assert(present(before.state, b) || b == block);
            }
            assert forall|b: UniqueBlock| #[trigger] idle(p.state, b) implies idle(s, b) by {
                assert(idle(before.state, b));
            }
            if p.parent is Some {
                if p.parent != before.parent {
                    assert(blocks[m as int] == block);
                    assert(present(before.state, block));
                } else {
                    let parent = p.parent->0;
                    let j = choose|j: int|
                        0 <= j < m && #[trigger] blocks[j] == parent && (present(s, parent)
                            || blocks.take(j).contains(parent));
                    assert(blocks[j] == parent);
                }
            }
        }
    }
}

/// A block occurs at most as often as there are places.
pub proof fn lemma_occurrences_bound(blocks: Seq<UniqueBlock>, block: UniqueBlock)
    ensures
        accounting::occurrences(blocks, block) <= blocks.len(),
{
    broadcast use vstd::seq_lib::group_to_multiset_ensures;
    broadcast use vstd::multiset::group_multiset_axioms;

    let m = blocks.to_multiset();
    assert(m.count(block) <= m.len());
}

/// The reports of blocks from the second tier.
pub proof fn lemma_report(s: KvState, onboarded: Seq<(u64, u64, Option<u64>)>)
    ensures
        model::report_onboarded(s, onboarded).cache == s.cache,
        model::report_onboarded(s, onboarded).g2 == s.g2,
        steady(s, model::report_onboarded(s, onboarded), onboarded.len()),
    decreases onboarded.len(),
{
    if onboarded.len() > 0 {
        lemma_report(s, onboarded.drop_last());
    }
}

/// Whether the blocks of a `Use` signal fit decides whether it succeeds.
pub proof fn lemma_use(
    s: KvState,
    blocks: Seq<UniqueBlock>,
    local_hashes: Seq<u64>,
    token_ids: Option<Seq<Seq<u32>>>,
)
    requires
        tiers(s),
        countable(s, blocks, local_hashes, token_ids, blocks.len()),
    ensures
        ({
            let (after, ok) = model::use_blocks(s, blocks, local_hashes, token_ids);
            let signal = Signal::Use { blocks, local_hashes, lineage_hashes: Seq::empty(), token_ids };
            &&& tiers(after)
            &&& after.cache.max_capacity == s.cache.max_capacity
            &&& after.g2 is Some == s.g2 is Some
            &&& s.g2 is Some ==> after.g2->0.max_capacity == s.g2->0.max_capacity
            &&& after.block_size == s.block_size
            &&& after.publishes == s.publishes
            &&& s.next_event_id <= after.next_event_id <= s.next_event_id + 2 * blocks.len() + 1
            &&& accounting::settled(
                s.cache.active,
                signal,
                s.cache.max_capacity,
                after.cache.active,
                ok,
            )
            &&& forall|b: UniqueBlock| #[trigger]
                present(after, b) ==> present(s, b) || blocks.contains(b)
            &&& forall|b: UniqueBlock| #[trigger] idle(after, b) ==> idle(s, b)
        }),
{
    let n = blocks.len();
    let p = model::use_progress(s, blocks, local_hashes, token_ids, n);
    lemma_progress(s, blocks, local_hashes, token_ids, n);
    assert(blocks.take(n as int) =~= blocks);
    lemma_report(p.hits_traced(), p.onboarded);
    vstd::seq_lib::seq_to_set_is_finite(blocks);
    let union = s.cache.active.dom().union(blocks.to_set());
    let (end, ok) = model::use_blocks(s, blocks, local_hashes, token_ids);
    assert forall|b: UniqueBlock| #[trigger] present(end, b) implies present(s, b)
        || blocks.contains(b) by {
        assert(present(p.state, b));
    }
    assert forall|b: UniqueBlock| #[trigger] idle(end, b) implies idle(s, b) by {
        assert(idle(p.state, b));
    }
    if p.failed {
        let k = choose|k: int|
            k < n && #[trigger] accounting::stopped_at(
                s.cache.active,
                blocks,
                s.cache.max_capacity,
                p.state.cache.active,
                k,
            );
        let after = p.state.cache.active.dom();
        assert(blocks.to_set().contains(blocks[k]));
        assert(after.insert(blocks[k]).subset_of(union)) by {
            assert forall|b: UniqueBlock| after.contains(b) implies union.contains(b) by {
                if blocks.take(k).contains(b) {
                    assert(blocks[blocks.take(k).index_of(b)] == b);
                }
            }
        }
        vstd::set_lib::lemma_len_subset(after.insert(blocks[k]), union);
    } else {
        assert(p.state.cache.active.dom() =~= union);
    }
}

/// A `Use` signal that is in order has a defined outcome at each of its blocks.
proof fn lemma_use_goes_on(
    s: KvState,
    blocks: Seq<UniqueBlock>,
    local_hashes: Seq<u64>,
    token_ids: Option<Seq<Seq<u32>>>,
    n: nat,
)
    requires
        tiers(s),
        !s.broken,
        n <= blocks.len(),
        forall|b: UniqueBlock| #[trigger] accounting::refs(s.cache.active, b) + n <= usize::MAX,
        s.next_event_id + n <= u64::MAX,
        token_ids is Some ==> forall|i: int|
            0 <= i < blocks.len() && (#[trigger] blocks[i]) is FullBlock ==> i < token_ids->0.len(),
    ensures
        !model::use_progress(s, blocks, local_hashes, token_ids, n).state.broken,
    decreases n,
{
    if n > 0 {
        let m = (n - 1) as nat;
        let before = model::use_progress(s, blocks, local_hashes, token_ids, m);
        let block = blocks[m as int];
        assert forall|b: UniqueBlock| #[trigger] accounting::refs(s.cache.active, b) + m
            <= usize::MAX by {
            assert(accounting::refs(s.cache.active, b) + n <= usize::MAX);
        }
        lemma_use_goes_on(s, blocks, local_hashes, token_ids, m);
        lemma_progress(s, blocks, local_hashes, token_ids, m);
        if !before.failed {
            assert(accounting::refs(s.cache.active, block) + n <= usize::MAX);
            lemma_occurrences_bound(blocks.take(m as int), block);
            lemma_step(before, m as int, block, local_hashes, token_ids);
        }
    }
}

/// A `Use` signal that is in order has a defined outcome.
pub proof fn lemma_use_accepted(
    s: KvState,
    blocks: Seq<UniqueBlock>,
    local_hashes: Seq<u64>,
    lineage_hashes: Seq<u128>,
    token_ids: Option<Seq<Seq<u32>>>,
)
    requires
        tiers(s),
        !s.broken,
        accounting::sound(
            s.cache.active,
            known(s),
            Signal::Use { blocks, local_hashes, lineage_hashes, token_ids },
        ),
        forall|b: UniqueBlock| #[trigger]
            accounting::refs(s.cache.active, b) + blocks.len() <= usize::MAX,
        s.next_event_id + 2 * blocks.len() + 1 <= u64::MAX,
    ensures
        !model::use_blocks(s, blocks, local_hashes, token_ids).0.broken,
{
    let n = blocks.len();
    let p = model::use_progress(s, blocks, local_hashes, token_ids, n);
    lemma_use_goes_on(s, blocks, local_hashes, token_ids, n);
    lemma_progress(s, blocks, local_hashes, token_ids, n);
    assert(blocks.take(n as int) =~= blocks);
    if !p.failed {
        if p.parent is Some && p.parent->0 is PartialBlock {
            let parent = p.parent->0;
            let j = choose|j: int|
                0 <= j < n && #[trigger] blocks[j] == parent && (present(s, parent) || blocks.take(
                    j,
                ).contains(parent));
            assert(blocks[j] is PartialBlock);
        }
        lemma_report(p.hits_traced(), p.onboarded);
    }
}

/// Blocks are dropped from the active pool.
pub proof fn lemma_destroyed(s: KvState, blocks: Seq<UniqueBlock>, n: nat)
    requires
        tiers(s),
        n <= blocks.len(),
    ensures
        ({
            let t = model::destroy_progress(s, blocks, n);
            &&& tiers(t)
            &&& t == KvState { cache: t.cache, broken: t.broken, ..s }
            &&& t.cache == CacheState { active: t.cache.active, ..s.cache }
            &&& t.cache.active == accounting::destroyed(s.cache.active, blocks.take(n as int))
            &&& !s.broken && blocks.no_duplicates() && (forall|i: int|
                0 <= i < blocks.len() ==> s.cache.active.contains_key(#[trigger] blocks[i]))
                ==> !t.broken
        }),
    decreases n,
{
    if n == 0 {
        assert(blocks.take(0).to_set() =~= Set::empty());
        assert(s.cache.active.remove_keys(blocks.take(0).to_set()) =~= s.cache.active);
    } else {
        let m = (n - 1) as nat;
        lemma_destroyed(s, blocks, m);
        let before = model::destroy_progress(s, blocks, m);
        let block = blocks[m as int];
        hash_cache::lemma_drop_active(before.cache, block);
        let taken = blocks.take(m as int);
        let more = blocks.take(n as int);
        assert(more =~= taken.push(block));
        assert forall|b: UniqueBlock| more.contains(b) <==> taken.contains(b) || b == block by {
            if taken.contains(b) {
                assert(more[taken.index_of(b)] == b);
            }
            if b == block {
                assert(more[m as int] == b);
            }
        }
        assert(accounting::destroyed(s.cache.active, more) =~= accounting::destroyed(
            s.cache.active,
            taken,
        ).remove(block));
        if blocks.no_duplicates() && taken.contains(block) {
            let j = taken.index_of(block);
            assert(blocks[j] == blocks[m as int]);
        }
    }
}

/// References are given back.
pub proof fn lemma_given_back(c: CacheState, blocks: Seq<UniqueBlock>, n: nat)
    requires
        c.wf(),
        n <= blocks.len(),
    ensures
        ({
            let d = model::deref_progress(c, blocks, n);
            &&& d.wf()
            &&& d.max_capacity == c.max_capacity
            &&& d.len() == c.len()
            &&& d.active == accounting::given_back(c.active, blocks.take(n as int))
            &&& forall|b: UniqueBlock| #[trigger] d.holds(b) <==> c.holds(b)
            &&& forall|b: UniqueBlock| #[trigger]
                d.inactive.contains(b) ==> c.inactive.contains(b) || blocks.contains(b)
        }),
    decreases n,
{
    broadcast use vstd::seq_lib::group_to_multiset_ensures;

    if n == 0 {
        assert forall|b: UniqueBlock| accounting::occurrences(blocks.take(0), b) == 0 by {
            assert(!blocks.take(0).contains(b));
            assert(!blocks.take(0).to_multiset().contains(b));
        }
        assert(accounting::given_back(c.active, blocks.take(0)) =~= c.active);
    } else {
        let m = (n - 1) as nat;
        lemma_given_back(c, blocks, m);
        let before = model::deref_progress(c, blocks, m);
        let block = blocks[m as int];
        let taken = blocks.take(m as int);
        let more = blocks.take(n as int);
        assert(more =~= taken.push(block));
        assert(more.to_multiset() =~= taken.to_multiset().insert(block));
        let after = model::deref_block(before, block);
        assert(after.active =~= accounting::given_back(c.active, more));
        if before.active.contains_key(block) {
            if before.active[block] == 1 {
                hash_cache::lemma_drop_active(before, block);
                hash_cache::lemma_rest(before.drop_active(block), block);
                assert(after == before.drop_active(block).rest(block));
            } else {
                hash_cache::lemma_activate(before, block, (before.active[block] - 1) as nat);
            }
        }
        assert forall|b: UniqueBlock| #[trigger] after.holds(b) <==> c.holds(b) by {
            assert(before.holds(b) <==> c.holds(b));
            assert(before.drop_active(block).inactive.contains(b) == before.inactive.contains(b));
        }
        assert(blocks.contains(block));
        assert forall|b: UniqueBlock| #[trigger] after.inactive.contains(b) implies
            c.inactive.contains(b) || blocks.contains(b) by {
            assert(before.inactive.contains(b) || b == block);
        }
    }
}

/// A partial block becomes a complete one.
pub proof fn lemma_promoted(
    s: KvState,
    uuid: u128,
    hash: u64,
    parent: Option<u64>,
    local_hash: u64,
    token_ids: Option<Seq<u32>>,
)
    requires
        tiers(s),
        accounting::refs(s.cache.active, UniqueBlock::PartialBlock(uuid)) == 1,
        accounting::refs(s.cache.active, UniqueBlock::FullBlock(hash)) < usize::MAX,
    ensures
        ({
            let t = model::promote_block(s, uuid, hash, parent, local_hash, token_ids);
            &&& tiers(t)
            &&& t.g2 == s.g2
            &&& steady(s, t, 1)
            &&& t.cache.active == accounting::exchanged(s.cache.active, uuid, hash)
            &&& forall|b: UniqueBlock| #[trigger]
                t.cache.holds(b) ==> s.cache.holds(b) || b == UniqueBlock::FullBlock(hash)
            &&& forall|b: UniqueBlock| #[trigger]
                t.cache.inactive.contains(b) ==> s.cache.inactive.contains(b)
        }),
{
    let partial = UniqueBlock::PartialBlock(uuid);
    let full = UniqueBlock::FullBlock(hash);
    let cache = s.cache.drop_active(partial);
    hash_cache::lemma_drop_active(s.cache, partial);
    hash_cache::lemma_drop_inactive(cache, full);
    let count = if cache.active.contains_key(full) {
        cache.active[full]
    } else {
        0
    };
    hash_cache::lemma_activate(cache.drop_inactive(full), full, count + 1);
    let t = model::promote_block(s, uuid, hash, parent, local_hash, token_ids);
    assert(t.cache == cache.drop_inactive(full).activate(full, count + 1));
    assert(t.cache.active =~= accounting::exchanged(s.cache.active, uuid, hash));
    assert forall|b: UniqueBlock| #[trigger] t.cache.holds(b) implies s.cache.holds(b) || b
        == full by {
        assert(t.cache.inactive.contains(b) ==> cache.drop_inactive(full).inactive.contains(b));
    }
}

/// The counters of a manager can still grow by `n`.
pub open spec fn headroom(s: KvState, n: nat) -> bool {
    &&& s.next_event_id + n <= u64::MAX
    &&& forall|b: UniqueBlock| #[trigger] accounting::refs(s.cache.active, b) + n <= usize::MAX
}

/// The outcome of a signal, seen from outside.
pub proof fn lemma_processed(s: KvState, signal: Signal)
    requires
        s.wf(),
        !model::process_signal(s, signal).0.broken,
    ensures
        ({
            let (t, ok) = model::process_signal(s, signal);
            &&& accounting::settled(
                s.cache.active,
                signal,
                s.cache.max_capacity,
                t.cache.active,
                ok,
            )
            &&& t.cache.max_capacity == s.cache.max_capacity
            &&& t.block_size == s.block_size
            &&& forall|b: UniqueBlock| #[trigger]
                known(t).contains(b) ==> known(s).contains(b) || accounting::names(signal, b)
            &&& forall|b: UniqueBlock| #[trigger]
                reusable(t).contains(b) ==> reusable(s).contains(b) || accounting::releases(
                    signal,
                    b,
                )
            &&& tiers(t)
            &&& forall|n: nat| #[trigger]
                headroom(s, n + accounting::cost(signal)) ==> headroom(t, n)
        }),
{
    let (t, ok) = model::process_signal(s, signal);
    match signal {
        Signal::Use { blocks, local_hashes, lineage_hashes, token_ids } => {
            assert(countable(s, blocks, local_hashes, token_ids, blocks.len())) by {
                model::lemma_use_defined(s, blocks, local_hashes, token_ids, blocks.len());
            }
            lemma_use(s, blocks, local_hashes, token_ids);
            assert forall|b: UniqueBlock| #[trigger] known(t).contains(b) implies known(
                s,
            ).contains(b) || accounting::names(signal, b) by {
                assert(present(t, b));
            }
        },
        Signal::Destroy { blocks } => {
            lemma_destroyed(s, blocks, blocks.len());
            assert(blocks.take(blocks.len() as int) =~= blocks);
            assert forall|b: UniqueBlock| #[trigger] known(t).contains(b) implies known(
                s,
            ).contains(b) by {
                assert(present(t, b));
            }
        },
        Signal::Deref { blocks } => {
            lemma_given_back(s.cache, blocks, blocks.len());
            assert(blocks.take(blocks.len() as int) =~= blocks);
            assert forall|b: UniqueBlock| #[trigger] known(t).contains(b) implies known(
                s,
            ).contains(b) by {
                assert(present(t, b));
                assert(t.cache.holds(b) <==> s.cache.holds(b));
            }
        },
        Signal::Promote { uuid, hash, parent_hash, local_hash, lineage_hash, promoted_ids } => {
            let full = UniqueBlock::FullBlock(hash);
            assert(s.cache.active.contains_key(full) ==> s.cache.active[full] < usize::MAX) by {
                assert(s.cache.drop_active(UniqueBlock::PartialBlock(uuid)).active.contains_key(full)
                    == s.cache.active.contains_key(full));
            }
            lemma_promoted(s, uuid, hash, parent_hash, local_hash, promoted_ids);
            assert forall|b: UniqueBlock| #[trigger] known(t).contains(b) implies known(
                s,
            ).contains(b) || accounting::names(signal, b) by {
                assert(present(t, b));
                assert(t.cache.holds(b) ==> s.cache.holds(b) || b == full);
            }
        },
    }
    assert forall|b: UniqueBlock| #[trigger] reusable(t).contains(b) implies reusable(
        s,
    ).contains(b) || accounting::releases(signal, b) by {
        assert(idle(t, b));
        if let Signal::Deref { blocks } = signal {
            assert(t.cache.inactive.contains(b) ==> s.cache.inactive.contains(b)
                || blocks.contains(b));
        }
        if signal is Promote {
            assert(t.cache.inactive.contains(b) ==> s.cache.inactive.contains(b));
        }
        assert(signal is Use ==> idle(s, b));
    }
    assert forall|n: nat| #[trigger] headroom(s, n + accounting::cost(signal)) implies headroom(
        t,
        n,
    ) by {
        assert forall|b: UniqueBlock| #[trigger] accounting::refs(t.cache.active, b) + n
            <= usize::MAX by {
            assert(accounting::refs(s.cache.active, b) + n + accounting::cost(signal)
                <= usize::MAX);
            lemma_settled_bound(s.cache.active, signal, s.cache.max_capacity, t.cache.active, ok, b);
        }
    }
}

/// References grow by no more than the cost of a signal.
proof fn lemma_settled_bound(
    before: Map<UniqueBlock, nat>,
    signal: Signal,
    capacity: nat,
    after: Map<UniqueBlock, nat>,
    ok: bool,
    b: UniqueBlock,
)
    requires
        accounting::counted(before),
        accounting::settled(before, signal, capacity, after, ok),
    ensures
        accounting::refs(after, b) <= accounting::refs(before, b) + accounting::cost(signal),
{
    accounting::lemma_applied_refs(before, signal, b);
    if let Signal::Use { blocks, local_hashes, lineage_hashes, token_ids } = signal {
        lemma_occurrences_bound(blocks, b);
        if !ok {
            let k = choose|k: int| #[trigger]
                accounting::stopped_at(before, blocks, capacity, after, k);
            lemma_occurrences_bound(blocks.take(k), b);
        }
    }
}

/// A signal that is in order has a defined outcome.
pub proof fn lemma_accepted(s: KvState, signal: Signal)
    requires
        s.wf(),
        accounting::sound(s.cache.active, known(s), signal),
        headroom(s, accounting::cost(signal)),
    ensures
        !model::process_signal(s, signal).0.broken,
{
    match signal {
        Signal::Use { blocks, local_hashes, lineage_hashes, token_ids } => {
            assert forall|b: UniqueBlock| #[trigger] accounting::refs(s.cache.active, b)
                + blocks.len() <= usize::MAX by {
                assert(accounting::refs(s.cache.active, b) + accounting::cost(signal)
                    <= usize::MAX);
            }
            lemma_use_accepted(s, blocks, local_hashes, lineage_hashes, token_ids);
        },
        Signal::Destroy { blocks } => {
            lemma_destroyed(s, blocks, blocks.len());
        },
        Signal::Deref { blocks } => {},
        Signal::Promote { uuid, hash, parent_hash, local_hash, lineage_hash, promoted_ids } => {
            let full = UniqueBlock::FullBlock(hash);
            assert(accounting::refs(s.cache.active, full) + accounting::cost(signal)
                <= usize::MAX);
            lemma_promoted(s, uuid, hash, parent_hash, local_hash, promoted_ids);
        },
    }
}

} // verus!
