//! Which blocks the manager can find, and what signals do to the references on blocks.

use vstd::prelude::*;
use crate::common::protocols::{PositionalLineageHash, Signal, UniqueBlock};
use crate::kv_manager::accounting;
use crate::kv_manager::backend::KvBackend;
use crate::kv_manager::vllm_backend::ManualKvManager;

verus! {

broadcast use {
    vstd::set::group_set_axioms,
    vstd::map::group_map_axioms,
    vstd::seq_lib::group_to_multiset_ensures,
};

/// A block can be found in use, among the blocks kept for reuse, or in the second tier; its lineage
/// does not matter. A partial block is known in the same way.
pub proof fn lemma_found_in_any_pool(
    manager: ManualKvManager,
    seq_hash: u64,
    plh: Option<PositionalLineageHash>,
    block: UniqueBlock,
)
    ensures
        ({
            let full = UniqueBlock::FullBlock(seq_hash);
            let s = manager@;
            &&& (manager.cached())(seq_hash, plh) <==> s.cache.active.contains_key(full)
                || s.cache.inactive.contains(full) || (s.g2 is Some && s.g2->0.inactive.contains(
                full,
            ))
            &&& manager.present().contains(block) <==> s.cache.active.contains_key(block)
                || s.cache.inactive.contains(block) || (s.g2 is Some && s.g2->0.inactive.contains(
                block,
            ))
            &&& manager.reusable().contains(block) <==> s.cache.inactive.contains(block) || (s.g2
                is Some && s.g2->0.inactive.contains(block))
            &&& s.in_g2(block) <==> s.g2 is Some && s.g2->0.inactive.contains(block)
            &&& manager.active() == s.cache.active
            &&& manager.num_inactive() == s.cache.inactive.len()
            &&& manager.capacity() == s.cache.max_capacity
            &&& manager.tokens_per_block() == s.block_size
        }),
{
}

/// The number of references on `block`: none if it is not in use.
pub open spec fn count(active: Map<UniqueBlock, nat>, block: UniqueBlock) -> int {
    if active.contains_key(block) {
        active[block] as int
    } else {
        0
    }
}

/// Blocks are provided if and only if those in use and the ones asked for, each counted once, have
/// slots; each is then referenced once more for each place where it is asked for.
pub proof fn lemma_use_takes_references<B: KvBackend>(
    before: B,
    signal: Signal,
    after: B,
    ok: bool,
    block: UniqueBlock,
)
    requires
        signal is Use,
        before.valid(),
        before.accepts(signal),
        before.leads_to(signal, &after, ok),
    ensures
        ok <==> before.active().dom().union(signal->Use_blocks.to_set()).len() <= before.capacity(),
        ok ==> count(after.active(), block) == count(before.active(), block)
            + signal->Use_blocks.to_multiset().count(block),
        after.active().contains_key(block) ==> after.active()[block] > 0,
        before.active().contains_key(block) ==> after.active().contains_key(block),
{
    before.lemma_valid();
    before.lemma_leads_to(signal, &after, ok);
    after.lemma_valid();
    let blocks = signal->Use_blocks;
    if ok {
        accounting::lemma_applied_refs(before.active(), signal, block);
        assert(count(after.active(), block) == accounting::refs(after.active(), block));
    }
}

/// Giving up blocks takes one reference from a block for each place where it is named, down to none;
/// a block without references is not in use.
pub proof fn lemma_deref_gives_references_back<B: KvBackend>(
    before: B,
    signal: Signal,
    after: B,
    ok: bool,
    block: UniqueBlock,
)
    requires
        signal is Deref,
        before.valid(),
        before.accepts(signal),
        before.leads_to(signal, &after, ok),
    ensures
        ok,
        ({
            let left = count(before.active(), block) - signal->Deref_blocks.to_multiset().count(block);
            &&& left > 0 ==> count(after.active(), block) == left
            &&& left <= 0 ==> !after.active().contains_key(block)
        }),
{
    before.lemma_valid();
    before.lemma_leads_to(signal, &after, ok);
    after.lemma_valid();
    accounting::lemma_applied_refs(before.active(), signal, block);
    assert(accounting::refs(after.active(), block) == count(after.active(), block));
}

/// Destroyed blocks are not in use any more, whatever the references on them; a block that becomes
/// complete takes the place of the partial one. The references on the other blocks stay.
pub proof fn lemma_destroyed_or_promoted<B: KvBackend>(
    before: B,
    signal: Signal,
    after: B,
    ok: bool,
    block: UniqueBlock,
)
    requires
        signal is Destroy || signal is Promote,
        before.valid(),
        before.accepts(signal),
        before.leads_to(signal, &after, ok),
    ensures
        ok,
        signal is Destroy && signal->Destroy_blocks.contains(block) ==> !after.active().contains_key(
            block,
        ),
        signal is Destroy && !signal->Destroy_blocks.contains(block) ==> count(
            after.active(),
            block,
        ) == count(before.active(), block),
        signal is Promote && block == UniqueBlock::PartialBlock(signal->Promote_uuid)
            ==> !after.active().contains_key(block),
        signal is Promote && block == UniqueBlock::FullBlock(signal->Promote_hash) ==> count(
            after.active(),
            block,
        ) == count(before.active(), block) + 1,
        signal is Promote && block != UniqueBlock::PartialBlock(signal->Promote_uuid) && block
            != UniqueBlock::FullBlock(signal->Promote_hash) ==> count(after.active(), block)
            == count(before.active(), block),
{
    before.lemma_valid();
    before.lemma_leads_to(signal, &after, ok);
    after.lemma_valid();
    accounting::lemma_applied_refs(before.active(), signal, block);
    assert(accounting::refs(after.active(), block) == count(after.active(), block));
}

} // verus!
