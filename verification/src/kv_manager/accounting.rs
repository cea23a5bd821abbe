//! What signals do to the references on blocks.

use vstd::prelude::*;
use crate::common::protocols::{Signal, UniqueBlock};
use crate::kv_manager::model;

verus! {

broadcast use {
    vstd::set::group_set_axioms,
    vstd::map::group_map_axioms,
    vstd::seq_lib::group_to_multiset_ensures,
};

/// The number of references that `active` counts on `block`.
pub open spec fn refs(active: Map<UniqueBlock, nat>, block: UniqueBlock) -> nat {
    if active.contains_key(block) {
        active[block]
    } else {
        0
    }
}

/// The number of times that `block` occurs among `blocks`.
pub open spec fn occurrences(blocks: Seq<UniqueBlock>, block: UniqueBlock) -> nat {
    blocks.to_multiset().count(block)
}

/// `active` with one more reference for each occurrence of a block among `blocks`.
pub open spec fn taken(active: Map<UniqueBlock, nat>, blocks: Seq<UniqueBlock>) -> Map<
    UniqueBlock,
    nat,
> {
    Map::new(
        |b: UniqueBlock| active.contains_key(b) || blocks.contains(b),
        |b: UniqueBlock| refs(active, b) + occurrences(blocks, b),
    )
}

/// `active` without `blocks`.
pub open spec fn destroyed(active: Map<UniqueBlock, nat>, blocks: Seq<UniqueBlock>) -> Map<
    UniqueBlock,
    nat,
> {
    active.remove_keys(blocks.to_set())
}

/// `active` with one reference less for each occurrence of a block among `blocks`; what has no
/// reference left is not active.
pub open spec fn given_back(active: Map<UniqueBlock, nat>, blocks: Seq<UniqueBlock>) -> Map<
    UniqueBlock,
    nat,
> {
    Map::new(
        |b: UniqueBlock| refs(active, b) > occurrences(blocks, b),
        |b: UniqueBlock| (refs(active, b) - occurrences(blocks, b)) as nat,
    )
}

/// `active` with the complete block in place of one reference on the partial one.
pub open spec fn exchanged(active: Map<UniqueBlock, nat>, uuid: u128, hash: u64) -> Map<
    UniqueBlock,
    nat,
> {
    let full = UniqueBlock::FullBlock(hash);
    active.remove(UniqueBlock::PartialBlock(uuid)).insert(full, refs(active, full) + 1)
}

/// The references once `signal` has been processed with success.
pub open spec fn applied(active: Map<UniqueBlock, nat>, signal: Signal) -> Map<UniqueBlock, nat> {
    match signal {
        Signal::Use { blocks, .. } => taken(active, blocks),
        Signal::Destroy { blocks } => destroyed(active, blocks),
        Signal::Deref { blocks } => given_back(active, blocks),
        Signal::Promote { uuid, hash, .. } => exchanged(active, uuid, hash),
    }
}

/// The blocks that are referenced once `blocks` are used fit into `capacity` slots.
pub open spec fn fits(
    active: Map<UniqueBlock, nat>,
    blocks: Seq<UniqueBlock>,
    capacity: nat,
) -> bool {
    active.dom().union(blocks.to_set()).len() <= capacity
}

/// `after` are the references once `signal` has been processed, and `ok` tells whether its blocks
/// could be provided: they can if and only if they fit. Where they do not, the blocks before the
/// first one without a slot are kept.
pub open spec fn settled(
    before: Map<UniqueBlock, nat>,
    signal: Signal,
    capacity: nat,
    after: Map<UniqueBlock, nat>,
    ok: bool,
) -> bool {
    match signal {
        Signal::Use { blocks, .. } => {
            &&& ok == fits(before, blocks, capacity)
            &&& if ok {
                after == applied(before, signal)
            } else {
                exists|k: int| #[trigger] stopped_at(before, blocks, capacity, after, k)
            }
        },
        _ => ok && after == applied(before, signal),
    }
}

/// The first `k` blocks were taken, and no slot was left for the next one.
pub open spec fn stopped_at(
    before: Map<UniqueBlock, nat>,
    blocks: Seq<UniqueBlock>,
    capacity: nat,
    after: Map<UniqueBlock, nat>,
    k: int,
) -> bool {
    &&& 0 <= k < blocks.len()
    &&& after == taken(before, blocks.take(k))
    &&& after.dom().len() == capacity
    &&& !after.contains_key(blocks[k])
}

/// The signal makes `block` known to a cache.
pub open spec fn names(signal: Signal, block: UniqueBlock) -> bool {
    match signal {
        Signal::Use { blocks, .. } => blocks.contains(block),
        Signal::Destroy { .. } => false,
        Signal::Deref { .. } => false,
        Signal::Promote { hash, .. } => block == UniqueBlock::FullBlock(hash),
    }
}

/// The signal may send `block` to the inactive pool.
pub open spec fn releases(signal: Signal, block: UniqueBlock) -> bool {
    match signal {
        Signal::Deref { blocks } => blocks.contains(block),
        _ => false,
    }
}

/// The most that `signal` adds to the number of events, or to the references on a block.
pub open spec fn cost(signal: Signal) -> nat {
    match signal {
        Signal::Use { blocks, .. } => 2 * blocks.len() + 1,
        Signal::Destroy { .. } => 1,
        Signal::Deref { .. } => 0,
        Signal::Promote { .. } => 1,
    }
}

/// The signal is in order for a cache with these references, which knows the blocks in `present`:
/// a partial block is used when it is new, and once; hashes and tokens are brought for all
/// complete blocks; what is destroyed is active; what is promoted has one reference.
pub open spec fn sound(
    active: Map<UniqueBlock, nat>,
    present: Set<UniqueBlock>,
    signal: Signal,
) -> bool {
    match signal {
        Signal::Use { blocks, local_hashes, lineage_hashes: _, token_ids } => {
            &&& forall|i: int|
                0 <= i < blocks.len() && (#[trigger] blocks[i]) is PartialBlock ==> !present.contains(
                    blocks[i],
                ) && !blocks.take(i).contains(blocks[i])
            &&& model::full_hashes(blocks).len() <= local_hashes.len()
            &&& token_ids is Some ==> forall|i: int|
                0 <= i < blocks.len() && (#[trigger] blocks[i]) is FullBlock ==> i
                    < token_ids->0.len()
        },
        Signal::Destroy { blocks } => {
            &&& blocks.no_duplicates()
            &&& forall|i: int| 0 <= i < blocks.len() ==> active.contains_key(#[trigger] blocks[i])
        },
        Signal::Deref { .. } => true,
        Signal::Promote { uuid, .. } => refs(active, UniqueBlock::PartialBlock(uuid)) == 1,
    }
}

/// Every count of `active` is at least one.
pub open spec fn counted(active: Map<UniqueBlock, nat>) -> bool {
    forall|b: UniqueBlock| #[trigger] active.contains_key(b) ==> active[b] >= 1
}

/// Maps with counts of at least one are the same if they count the same references.
pub proof fn lemma_same_refs(a: Map<UniqueBlock, nat>, b: Map<UniqueBlock, nat>)
    requires
        counted(a),
        counted(b),
        forall|x: UniqueBlock| #[trigger] refs(a, x) == refs(b, x),
    ensures
        a == b,
{
    assert forall|x: UniqueBlock| a.contains_key(x) <==> b.contains_key(x) by {
        assert(refs(a, x) == refs(b, x));
    }
    assert forall|x: UniqueBlock| a.contains_key(x) implies a[x] == b[x] by {
        assert(refs(a, x) == refs(b, x));
    }
    assert(a =~= b);
}

/// The references after each operation.
pub proof fn lemma_applied_refs(active: Map<UniqueBlock, nat>, signal: Signal, b: UniqueBlock)
    requires
        counted(active),
    ensures
        counted(applied(active, signal)),
        refs(applied(active, signal), b) == match signal {
            Signal::Use { blocks, .. } => refs(active, b) + occurrences(blocks, b),
            Signal::Destroy { blocks } => if blocks.contains(b) {
                0
            } else {
                refs(active, b)
            },
            Signal::Deref { blocks } => if refs(active, b) > occurrences(blocks, b) {
                (refs(active, b) - occurrences(blocks, b)) as nat
            } else {
                0
            },
            Signal::Promote { uuid, hash, .. } => if b == UniqueBlock::FullBlock(hash) {
                refs(active, b) + 1
            } else if b == UniqueBlock::PartialBlock(uuid) {
                0
            } else {
                refs(active, b)
            },
        },
{
    match signal {
        Signal::Use { blocks, .. } => {
            assert forall|x: UniqueBlock| taken(active, blocks).contains_key(x) implies taken(
                active,
                blocks,
            )[x] >= 1 by {
                if blocks.contains(x) {
                    assert(blocks.to_multiset().contains(x));
                }
            }
            if !blocks.contains(b) {
                assert(!blocks.to_multiset().contains(b));
            }
        },
        _ => {},
    }
}

/// Nothing is taken for no blocks.
pub proof fn lemma_taken_none(active: Map<UniqueBlock, nat>, blocks: Seq<UniqueBlock>)
    requires
        blocks.len() == 0,
    ensures
        taken(active, blocks) == active,
{
    assert forall|b: UniqueBlock| occurrences(blocks, b) == 0 by {
        assert(!blocks.contains(b));
        assert(!blocks.to_multiset().contains(b));
    }
    assert(taken(active, blocks) =~= active);
}

/// One more block is taken.
pub proof fn lemma_taken_next(active: Map<UniqueBlock, nat>, blocks: Seq<UniqueBlock>, k: int)
    requires
        0 <= k < blocks.len(),
    ensures
        taken(active, blocks.take(k + 1)) == taken(active, blocks.take(k)).insert(
            blocks[k],
            refs(taken(active, blocks.take(k)), blocks[k]) + 1,
        ),
{
    let before = blocks.take(k);
    let after = blocks.take(k + 1);
    assert(after =~= before.push(blocks[k]));
    assert(after.to_multiset() =~= before.to_multiset().insert(blocks[k]));
    assert forall|b: UniqueBlock| after.contains(b) <==> before.contains(b) || b == blocks[k] by {
        assert(after.contains(b) <==> after.to_multiset().contains(b));
        assert(before.contains(b) <==> before.to_multiset().contains(b));
    }
    if !before.contains(blocks[k]) {
        assert(!before.to_multiset().contains(blocks[k]));
    }
    assert(taken(active, after) =~= taken(active, before).insert(
        blocks[k],
        refs(taken(active, before), blocks[k]) + 1,
    ));
}

/// The blocks that the signal makes known to a cache.
pub open spec fn named(signal: Signal) -> Set<UniqueBlock> {
    Set::new(|b: UniqueBlock| names(signal, b))
}

/// The references once all of `signals` have been processed with success, the first one first.
pub open spec fn applied_all(active: Map<UniqueBlock, nat>, signals: Seq<Signal>) -> Map<
    UniqueBlock,
    nat,
>
    decreases signals.len(),
{
    if signals.len() == 0 {
        active
    } else {
        applied_all(applied(active, signals[0]), signals.drop_first())
    }
}

/// Each of the signals is in order when those before it have been processed.
pub open spec fn sound_all(
    active: Map<UniqueBlock, nat>,
    present: Set<UniqueBlock>,
    signals: Seq<Signal>,
) -> bool
    decreases signals.len(),
{
    signals.len() > 0 ==> {
        &&& sound(active, present, signals[0])
        &&& sound_all(
            applied(active, signals[0]),
            present.union(named(signals[0])),
            signals.drop_first(),
        )
    }
}

/// The most that `signals` add to the number of events, or to the references on a block.
pub open spec fn cost_all(signals: Seq<Signal>) -> nat
    decreases signals.len(),
{
    if signals.len() == 0 {
        0
    } else {
        cost(signals[0]) + cost_all(signals.drop_first())
    }
}

/// Signals are in order for a cache that knows fewer blocks.
pub proof fn lemma_sound_all_fewer(
    active: Map<UniqueBlock, nat>,
    present: Set<UniqueBlock>,
    fewer: Set<UniqueBlock>,
    signals: Seq<Signal>,
)
    requires
        sound_all(active, present, signals),
        fewer.subset_of(present),
    ensures
        sound_all(active, fewer, signals),
    decreases signals.len(),
{
    if signals.len() > 0 {
        assert(fewer.union(named(signals[0])).subset_of(present.union(named(signals[0]))));
        lemma_sound_all_fewer(
            applied(active, signals[0]),
            present.union(named(signals[0])),
            fewer.union(named(signals[0])),
            signals.drop_first(),
        );
    }
}

/// The references after two lists of signals.
pub proof fn lemma_applied_all_add(active: Map<UniqueBlock, nat>, a: Seq<Signal>, b: Seq<Signal>)
    ensures
        applied_all(active, a + b) == applied_all(applied_all(active, a), b),
    decreases a.len(),
{
    if a.len() == 0 {
        assert(a + b =~= b);
    } else {
        assert((a + b).drop_first() =~= a.drop_first() + b);
        lemma_applied_all_add(applied(active, a[0]), a.drop_first(), b);
    }
}

/// Two lists of signals are in order if the second is so, whatever blocks are known, when the first
/// has been processed.
pub proof fn lemma_sound_all_add(
    active: Map<UniqueBlock, nat>,
    present: Set<UniqueBlock>,
    a: Seq<Signal>,
    b: Seq<Signal>,
)
    requires
        sound_all(active, present, a),
        sound_all(applied_all(active, a), Set::full(), b),
    ensures
        sound_all(active, present, a + b),
    decreases a.len(),
{
    if a.len() == 0 {
        assert(a + b =~= b);
        lemma_sound_all_fewer(active, Set::full(), present, b);
    } else {
        assert((a + b).drop_first() =~= a.drop_first() + b);
        lemma_sound_all_add(
            applied(active, a[0]),
            present.union(named(a[0])),
            a.drop_first(),
            b,
        );
    }
}

/// The cost of two lists of signals.
pub proof fn lemma_cost_all_add(a: Seq<Signal>, b: Seq<Signal>)
    ensures
        cost_all(a + b) == cost_all(a) + cost_all(b),
    decreases a.len(),
{
    if a.len() == 0 {
        assert(a + b =~= b);
    } else {
        assert((a + b).drop_first() =~= a.drop_first() + b);
        lemma_cost_all_add(a.drop_first(), b);
    }
}

/// Giving back the references on blocks undoes the use of these blocks.
pub proof fn lemma_deref_undoes_use(active: Map<UniqueBlock, nat>, blocks: Seq<UniqueBlock>)
    requires
        counted(active),
    ensures
        given_back(taken(active, blocks), blocks) == active,
{
    assert forall|b: UniqueBlock| !blocks.contains(b) implies occurrences(blocks, b) == 0 by {
        assert(!blocks.to_multiset().contains(b));
    }
    assert(given_back(taken(active, blocks), blocks) =~= active);
}

} // verus!
