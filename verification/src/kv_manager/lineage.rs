//! What the events tell of the place of blocks: each stored block follows the one before it in its
//! sequence, and comes with its content hash and its tokens.

use vstd::prelude::*;
use crate::cache::hash_cache;
use crate::common::protocols::{Change, UniqueBlock};
use crate::kv_manager::effects;
use crate::kv_manager::model;
use crate::kv_manager::model::KvState;
use crate::kv_manager::numbering;
use crate::kv_manager::tiers;

verus! {

broadcast use {vstd::set::group_set_axioms, vstd::map::group_map_axioms};

/// The block is in the first tier, active or inactive.
pub open spec fn in_first_tier(s: KvState, block: UniqueBlock) -> bool {
    s.cache.active.contains_key(block) || s.cache.inactive.contains(block)
}

/// The block is in the second tier.
pub open spec fn in_second_tier(s: KvState, block: UniqueBlock) -> bool {
    s.g2 is Some && s.g2->0.inactive.contains(block)
}

/// The first `i` blocks of a `Use` signal are complete and found in one of the tiers.
proof fn lemma_found(
    s: KvState,
    blocks: Seq<UniqueBlock>,
    local_hashes: Seq<u64>,
    token_ids: Option<Seq<Seq<u32>>>,
    i: nat,
)
    requires
        s.wf(),
        i <= blocks.len(),
        !model::use_blocks(s, blocks, local_hashes, token_ids).0.broken,
        model::use_blocks(s, blocks, local_hashes, token_ids).1,
        forall|j: int|
            0 <= j < i ==> (#[trigger] blocks[j]) is FullBlock && effects::present(s, blocks[j]),
    ensures
        ({
            let p = model::use_progress(s, blocks, local_hashes, token_ids, i);
            &&& !p.failed
            &&& p.stored.len() == 0
            &&& p.stored_ids is Some == token_ids is Some
            &&& p.stored_ids is Some ==> p.stored_ids->0.len() == 0
            &&& p.parent == if i > 0 {
                Some(blocks[i - 1])
            } else {
                None
            }
            &&& forall|b: UniqueBlock| #[trigger]
                effects::present(s, b) ==> effects::present(p.state, b)
        }),
    decreases i,
{
    let p = model::use_progress(s, blocks, local_hashes, token_ids, i);
    if i > 0 {
        let m = (i - 1) as nat;
        let q = model::use_progress(s, blocks, local_hashes, token_ids, m);
        let block = blocks[m as int];
        lemma_found(s, blocks, local_hashes, token_ids, m);
        model::lemma_use_defined(s, blocks, local_hashes, token_ids, m);
        effects::lemma_progress(s, blocks, local_hashes, token_ids, m);
        if p.failed {
            model::lemma_progress_stays_failed(
                s,
                blocks,
                local_hashes,
                token_ids,
                i,
                blocks.len(),
            );
        }
        assert(effects::present(q.state, block));
        if q.state.cache.active.contains_key(block) {
            assert(forall|b: UniqueBlock| #[trigger]
                effects::present(q.state, b) ==> effects::present(p.state, b));
        } else if q.state.cache.inactive.contains(block) {
            hash_cache::lemma_drop_inactive(q.state.cache, block);
            assert forall|b: UniqueBlock| #[trigger] effects::present(q.state, b) implies
                effects::present(p.state, b) by {
                if q.state.cache.inactive.contains(b) && b != block {
                    assert(q.state.cache.drop_inactive(block).inactive.contains(b));
                }
            }
        } else {
            tiers::lemma_onboarded(q.state, block);
            let (t, found) = q.state.onboarded(block);
            assert(found) by {
                if !found {
                    effects::lemma_onboarded(q.state, block);
                    assert(t.cache == q.state.cache);
                    assert(!tiers::has_slot(q.state));
                }
            }
        }
        assert forall|b: UniqueBlock| #[trigger] effects::present(s, b) implies effects::present(
            p.state,
            b,
        ) by {
            assert(effects::present(q.state, b));
        }
    }
}

/// From block `k` on, the blocks of a `Use` signal are new, the first `m` of them complete.
#[verifier::rlimit(40)]
#[verifier::spinoff_prover]
proof fn lemma_allocated(
    s: KvState,
    blocks: Seq<UniqueBlock>,
    local_hashes: Seq<u64>,
    token_ids: Option<Seq<Seq<u32>>>,
    k: int,
    m: int,
    i: nat,
)
    requires
        s.wf(),
        0 <= k <= i <= blocks.len(),
        0 <= m,
        k + m <= blocks.len(),
        !model::use_blocks(s, blocks, local_hashes, token_ids).0.broken,
        model::use_blocks(s, blocks, local_hashes, token_ids).1,
        blocks.no_duplicates(),
        forall|j: int|
            0 <= j < k ==> (#[trigger] blocks[j]) is FullBlock && effects::present(s, blocks[j]),
        forall|j: int|
            k <= j < blocks.len() ==> !effects::present(s, #[trigger] blocks[j]) && (
            blocks[j] is FullBlock <==> j < k + m),
    ensures
        ({
            let p = model::use_progress(s, blocks, local_hashes, token_ids, i);
            let n = if i < k + m {
                i - k
            } else {
                m
            };
            &&& !p.failed
            &&& p.stored.len() == n
            &&& forall|j: int|
                0 <= j < n ==> #[trigger] p.stored[j] == blocks[k + j]->FullBlock_0
            &&& p.stored_ids is Some == token_ids is Some
            &&& p.stored_ids is Some ==> p.stored_ids->0.len() == n && forall|j: int|
                0 <= j < n ==> #[trigger] p.stored_ids->0[j] == token_ids->0[k + j]
            &&& n > 0 && token_ids is Some ==> k + n <= token_ids->0.len()
            &&& p.parent == if k > 0 {
                Some(blocks[k - 1])
            } else {
                None
            }
        }),
    decreases i,
{
    let p = model::use_progress(s, blocks, local_hashes, token_ids, i);
    if i == k {
        lemma_found(s, blocks, local_hashes, token_ids, i);
    } else {
        let l = (i - 1) as nat;
        let q = model::use_progress(s, blocks, local_hashes, token_ids, l);
        let block = blocks[l as int];
        lemma_allocated(s, blocks, local_hashes, token_ids, k, m, l);
        model::lemma_use_defined(s, blocks, local_hashes, token_ids, l);
        model::lemma_use_defined(s, blocks, local_hashes, token_ids, i);
        effects::lemma_progress(s, blocks, local_hashes, token_ids, l);
        if p.failed {
            model::lemma_progress_stays_failed(
                s,
                blocks,
                local_hashes,
                token_ids,
                i,
                blocks.len(),
            );
        }
        assert(!effects::present(q.state, block)) by {
            if effects::present(q.state, block) {
                let j = blocks.take(l as int).index_of(block);
                assert(blocks[j] == blocks[l as int]);
            }
        }
        assert(q.state.onboarded(block) == (q.state, false));
        let roomy = if q.state.cache.is_full() {
            q.state.evicted()
        } else {
            q.state
        };
        assert(p == q.allocated(roomy, l as int, block, token_ids));
        assert(block is FullBlock && token_ids is Some ==> l < token_ids->0.len());
    }
}

/// The parent in an event is the predecessor. Let the first `k` blocks of a `Use` signal be complete
/// and in one of the tiers, the next `m` complete and new, and the rest partial and new. If the
/// signal succeeds, the last event tells that the `m` blocks are stored: behind block `k - 1`, or
/// behind none if `k` is zero; in their order; with the last `m` content hashes of the signal; and
/// with the tokens that the signal brings for them, if it brings tokens.
pub proof fn lemma_stored_blocks_follow_predecessor(
    s: KvState,
    blocks: Seq<UniqueBlock>,
    local_hashes: Seq<u64>,
    token_ids: Option<Seq<Seq<u32>>>,
    k: int,
    m: int,
)
    requires
        s.wf(),
        s.publishes,
        !model::use_blocks(s, blocks, local_hashes, token_ids).0.broken,
        model::use_blocks(s, blocks, local_hashes, token_ids).1,
        blocks.no_duplicates(),
        0 <= k,
        0 < m,
        k + m <= blocks.len(),
        forall|j: int|
            0 <= j < k ==> (#[trigger] blocks[j]) is FullBlock && (in_first_tier(s, blocks[j])
                || in_second_tier(s, blocks[j])),
        forall|j: int|
            k <= j < blocks.len() ==> !in_first_tier(s, #[trigger] blocks[j]) && !in_second_tier(
                s,
                blocks[j],
            ) && (blocks[j] is FullBlock <==> j < k + m),
    ensures
        ({
            let t = model::use_blocks(s, blocks, local_hashes, token_ids).0;
            let e = t.events.last();
            &&& t.events.len() > s.events.len()
            &&& e.dp_rank == s.dp_rank
            &&& e.event_id == t.next_event_id - 1
            &&& e.change matches Change::Stored { parent_hash, blocks: stored } && {
                &&& k > 0 ==> parent_hash == Some(blocks[k - 1]->FullBlock_0)
                &&& k == 0 ==> parent_hash is None
                &&& stored.len() == m
                &&& forall|j: int|
                    #![trigger stored[j]]
                    0 <= j < m ==> {
                        &&& stored[j].block_hash == blocks[k + j]->FullBlock_0
                        &&& stored[j].tokens_hash == local_hashes[local_hashes.len() - m + j]
                    }
            }
            &&& e.token_ids is Some == token_ids is Some
            &&& token_ids is Some ==> e.token_ids->0 == token_ids->0.subrange(k, k + m)
        }),
{
    let n = blocks.len();
    let p = model::use_progress(s, blocks, local_hashes, token_ids, n);
    assert forall|j: int| 0 <= j < k implies (#[trigger] blocks[j]) is FullBlock
        && effects::present(s, blocks[j]) by {}
    assert forall|j: int| k <= j < blocks.len() implies !effects::present(s, #[trigger] blocks[j])
        && (blocks[j] is FullBlock <==> j < k + m) by {}
    lemma_allocated(s, blocks, local_hashes, token_ids, k, m, n);
    model::lemma_use_defined(s, blocks, local_hashes, token_ids, n);
    effects::lemma_progress(s, blocks, local_hashes, token_ids, n);
    let traced = p.hits_traced();
    effects::lemma_report(traced, p.onboarded);
    numbering::lemma_use_reports(s, blocks, local_hashes, token_ids);
    let told = model::report_onboarded(traced, p.onboarded);
    assert(told.publishes);
    assert(p.stored.len() == m);
    let t = p.finish(local_hashes);
    assert(t.events == told.events.push(t.events.last()));
    if token_ids is Some {
        assert(p.stored_ids->0 =~= token_ids->0.subrange(k, k + m));
    }
}

} // verus!
