//! How blocks move between the two tiers of a reference-counting KV manager.

use vstd::prelude::*;
use crate::cache::hash_cache;
use crate::common::protocols::UniqueBlock;
use crate::kv_manager::effects;
use crate::kv_manager::model;
use crate::kv_manager::model::{KvState, UseProgress};

verus! {

broadcast use {vstd::set::group_set_axioms, vstd::map::group_map_axioms};

/// A slot of the first tier is free or can be made free.
pub open spec fn has_slot(s: KvState) -> bool {
    !s.cache.is_full() || s.cache.inactive.len() > 0
}

/// An offloaded block is in the second tier, and so are those that were there before, except the
/// least recent one of a full tier.
proof fn lemma_offloaded(s: KvState, block: UniqueBlock)
    requires
        effects::tiers(s),
        s.g2 is Some,
    ensures
        s.offloaded(block).in_g2(block),
        forall|b: UniqueBlock| #[trigger]
            s.in_g2(b) ==> s.offloaded(block).in_g2(b) || (s.g2->0.is_full() && b
                == s.g2->0.inactive[0]),
{
    let g2 = s.g2->0;
    if g2.is_full() {
        hash_cache::lemma_evict(g2);
        hash_cache::lemma_rest(g2.evict(), block);
    } else {
        hash_cache::lemma_rest(g2, block);
    }
}

/// The block evicted from the first tier is in the second one, and nothing else is lost but the
/// least recent block of a second tier that is full.
proof fn lemma_evicted(s: KvState)
    requires
        effects::tiers(s),
        s.g2 is Some,
        s.cache.inactive.len() > 0,
    ensures
        s.evicted().in_g2(s.cache.inactive[0]),
        !s.evicted().cache.holds(s.cache.inactive[0]),
        forall|b: UniqueBlock| #[trigger]
            effects::present(s, b) ==> effects::present(s.evicted(), b) || (s.g2->0.is_full() && b
                == s.g2->0.inactive[0]),
{
    let block = s.cache.inactive[0];
    hash_cache::lemma_evict(s.cache);
    let out = KvState { cache: s.cache.evict(), ..s };
    let told = if block is FullBlock {
        out.published(seq![block->FullBlock_0], Seq::empty(), None, false, None)
    } else {
        out
    };
    lemma_offloaded(told, block);
    assert forall|b: UniqueBlock| #[trigger] effects::present(s, b) implies effects::present(
        s.evicted(),
        b,
    ) || (s.g2->0.is_full() && b == s.g2->0.inactive[0]) by {
        if s.cache.inactive.contains(b) && b != block {
            assert(s.cache.evict().inactive.contains(b));
        }
        if s.in_g2(b) {
            assert(told.in_g2(b));
        }
    }
}

/// A block found in the second tier alone becomes active in the first one if that has a slot, and
/// nothing is lost on the way.
pub proof fn lemma_onboarded(s: KvState, block: UniqueBlock)
    requires
        effects::tiers(s),
        !s.cache.holds(block),
        s.in_g2(block),
    ensures
        s.onboarded(block).1 == has_slot(s),
        s.onboarded(block).1 ==> !s.onboarded(block).0.in_g2(block),
        forall|b: UniqueBlock| #[trigger]
            effects::present(s, b) ==> effects::present(s.onboarded(block).0, b),
{
    let g2 = s.g2->0;
    let left = s.left_g2(block);
    let t = s.onboarded(block).0;
    hash_cache::lemma_drop_inactive(g2, block);
    assert(forall|b: UniqueBlock| #[trigger] left.in_g2(b) <==> s.in_g2(b) && b != block);
    if !s.cache.is_full() {
        assert(forall|b: UniqueBlock| #[trigger] t.in_g2(b) == left.in_g2(b));
        assert forall|b: UniqueBlock| #[trigger] effects::present(s, b) implies effects::present(
            t,
            b,
        ) by {
            assert(s.in_g2(b) ==> b == block || left.in_g2(b));
        }
    } else if s.cache.inactive.len() > 0 {
        let out = s.cache.inactive[0];
        assert(s.cache.inactive.contains(out));
        lemma_evicted(left);
        effects::lemma_evicted(left);
        assert(!left.evicted().in_g2(block)) by {
            if left.evicted().in_g2(block) {
                assert(effects::present(left.evicted(), block));
                assert(effects::present(left, block));
            }
        }
        assert forall|b: UniqueBlock| #[trigger] effects::present(s, b) implies effects::present(
            t,
            b,
        ) by {
            if b != block {
                assert(s.in_g2(b) ==> left.in_g2(b));
                assert(effects::present(left, b));
                assert(effects::present(left.evicted(), b));
            }
        }
    } else {
        hash_cache::lemma_rest(g2.drop_inactive(block), block);
        assert forall|b: UniqueBlock| #[trigger] effects::present(s, b) implies effects::present(
            t,
            b,
        ) by {
            if s.in_g2(b) {
                assert(g2.drop_inactive(block).rest(block).inactive.contains(b));
            }
        }
    }
}

/// With a second tier, what the first tier evicts is offloaded, not discarded, and comes back
/// when it is used again. Of the processing of a `Use` signal with one block:
/// - Nothing is lost, except the least recent block of a full second tier, and this only where the
///   block is new to both tiers and the first tier is full.
/// - Where an eviction makes room for a new block, the evicted block is in the second tier.
/// - A block that only the second tier holds becomes active in the first one, with one reference,
///   and leaves the second one, provided that a slot is free or can be made free.
pub proof fn lemma_evicted_blocks_are_offloaded(
    s: KvState,
    block: UniqueBlock,
    local_hashes: Seq<u64>,
    token_ids: Option<Seq<Seq<u32>>>,
)
    requires
        s.wf(),
        s.g2 is Some,
    ensures
        ({
            let (t, ok) = model::use_blocks(s, seq![block], local_hashes, token_ids);
            let evicted = s.cache.inactive[0];
            &&& forall|b: UniqueBlock| #[trigger]
                effects::present(s, b) ==> effects::present(t, b) || (b == s.g2->0.inactive[0]
                    && s.g2->0.is_full() && s.cache.is_full() && !effects::present(s, block))
            &&& !effects::present(s, block) && s.cache.is_full() && s.cache.inactive.len() > 0
                ==> ok && t.in_g2(evicted) && !t.cache.holds(evicted)
            &&& !s.cache.holds(block) && s.in_g2(block) ==> {
                &&& ok == has_slot(s)
                &&& ok ==> t.cache.active == s.cache.active.insert(block, 1) && !t.in_g2(block)
            }
        }),
{
    let blocks = seq![block];
    let p = UseProgress::start(s, token_ids);
    let q = p.step(0, block, local_hashes, token_ids);
    assert(model::use_progress(s, blocks, local_hashes, token_ids, 0) == p);
    assert(model::use_progress(s, blocks, local_hashes, token_ids, 1) == q);
    let (t, ok) = model::use_blocks(s, blocks, local_hashes, token_ids);
    effects::lemma_report(q.hits_traced(), q.onboarded);
    assert(t.cache == q.state.cache && t.g2 == q.state.g2);
    assert(forall|b: UniqueBlock| #[trigger]
        effects::present(t, b) == effects::present(q.state, b));
    if s.cache.active.contains_key(block) {
        assert(forall|b: UniqueBlock| #[trigger]
            effects::present(s, b) ==> effects::present(q.state, b));
    } else if s.cache.inactive.contains(block) {
        hash_cache::lemma_drop_inactive(s.cache, block);
        assert forall|b: UniqueBlock| #[trigger] effects::present(s, b) implies effects::present(
            q.state,
            b,
        ) by {
            if s.cache.inactive.contains(b) && b != block {
                assert(s.cache.drop_inactive(block).inactive.contains(b));
            }
        }
    } else if s.in_g2(block) {
        lemma_onboarded(s, block);
        effects::lemma_onboarded(s, block);
        assert(s.onboarded(block).0.in_g2(block) == t.in_g2(block) || !ok);
    } else if s.cache.is_full() && s.cache.inactive.len() > 0 {
        lemma_evicted(s);
        assert(s.cache.inactive.contains(s.cache.inactive[0]));
        assert(t.in_g2(s.cache.inactive[0]) == s.evicted().in_g2(s.cache.inactive[0]));
        assert forall|b: UniqueBlock| #[trigger] effects::present(s, b) implies effects::present(
            q.state,
            b,
        ) || (b == s.g2->0.inactive[0] && s.g2->0.is_full()) by {
            assert(effects::present(s.evicted(), b) || (s.g2->0.is_full() && b
                == s.g2->0.inactive[0]));
        }
    } else {
        assert(forall|b: UniqueBlock| #[trigger]
            effects::present(s, b) ==> effects::present(q.state, b));
    }
}

} // verus!
