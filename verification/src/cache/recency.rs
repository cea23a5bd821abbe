//! The order in which blocks are kept for reuse, and what each change of the pools leaves as it is.

use vstd::prelude::*;
use crate::cache::hash_cache::CacheState;
use crate::common::evictor;
use crate::common::protocols::UniqueBlock;

verus! {

broadcast use {vstd::set::group_set_axioms, vstd::map::group_map_axioms};

/// A key that is inserted comes last, whether it is new or had another place; the other keys keep
/// their order.
pub proof fn lemma_inserted_key_is_last<T>(keys: Seq<T>, key: T, place: int)
    requires
        keys.no_duplicates(),
        keys.contains(key) ==> 0 <= place < keys.len() && keys[place] == key,
    ensures
        !keys.contains(key) ==> evictor::without(keys, key).push(key) == keys.push(key),
        keys.contains(key) ==> evictor::without(keys, key).push(key) == keys.remove(place).push(key),
{
    if keys.contains(key) {
        evictor::lemma_without_at(keys, place);
    }
}

/// A key that is removed leaves its place; the other keys keep their order.
pub proof fn lemma_removed_key_leaves_its_place<T>(keys: Seq<T>, key: T, place: int)
    requires
        keys.no_duplicates(),
        keys.contains(key) ==> 0 <= place < keys.len() && keys[place] == key,
    ensures
        !keys.contains(key) ==> evictor::without(keys, key) == keys,
        keys.contains(key) ==> evictor::without(keys, key) == keys.remove(place),
{
    if keys.contains(key) {
        evictor::lemma_without_at(keys, place);
    }
}

/// A cache starts empty. It is full when there are as many blocks in the two pools together as it
/// has slots.
pub proof fn lemma_slots(c: CacheState, max_capacity: nat)
    ensures
        CacheState::empty(max_capacity).active.dom().len() == 0,
        CacheState::empty(max_capacity).inactive.len() == 0,
        CacheState::empty(max_capacity).max_capacity == max_capacity,
        c.len() == c.active.dom().len() + c.inactive.len(),
        c.is_full() <==> c.active.dom().len() + c.inactive.len() >= c.max_capacity,
{
}

/// A block is held if it is in one of the two pools.
pub proof fn lemma_held(c: CacheState, block: UniqueBlock)
    ensures
        c.holds(block) <==> c.active.contains_key(block) || c.inactive.contains(block),
{
}

/// A change of the references on a block, to `count`, changes nothing else.
pub proof fn lemma_references_change(c: CacheState, block: UniqueBlock, count: nat, other: UniqueBlock)
    requires
        other != block,
    ensures
        c.activate(block, count).active.contains_key(block),
        c.activate(block, count).active[block] == count,
        c.activate(block, count).active.contains_key(other) == c.active.contains_key(other),
        c.activate(block, count).active[other] == c.active[other],
        c.activate(block, count).inactive == c.inactive,
        c.activate(block, count).max_capacity == c.max_capacity,
        !c.drop_active(block).active.contains_key(block),
        c.drop_active(block).active.contains_key(other) == c.active.contains_key(other),
        c.drop_active(block).active[other] == c.active[other],
        c.drop_active(block).inactive == c.inactive,
        c.drop_active(block).max_capacity == c.max_capacity,
{
}

/// A block that is deactivated is the last one to be evicted; one that is used again leaves its
/// place among those kept for reuse; the one that is evicted is the first of them.
pub proof fn lemma_least_recent_goes_first(c: CacheState, block: UniqueBlock, place: int)
    requires
        c.inactive.no_duplicates(),
        c.inactive.contains(block) ==> 0 <= place < c.inactive.len() && c.inactive[place] == block,
    ensures
        c.rest(block).active == c.active,
        c.rest(block).max_capacity == c.max_capacity,
        !c.inactive.contains(block) ==> c.rest(block).inactive == c.inactive.push(block),
        c.inactive.contains(block) ==> c.rest(block).inactive == c.inactive.remove(place).push(
            block,
        ),
        c.drop_inactive(block).active == c.active,
        c.drop_inactive(block).max_capacity == c.max_capacity,
        !c.inactive.contains(block) ==> c.drop_inactive(block).inactive == c.inactive,
        c.inactive.contains(block) ==> c.drop_inactive(block).inactive == c.inactive.remove(place),
        c.evict().active == c.active,
        c.evict().max_capacity == c.max_capacity,
        c.inactive.len() > 0 ==> c.evict().inactive == c.inactive.subrange(
            1,
            c.inactive.len() as int,
        ),
{
    if c.inactive.contains(block) {
        evictor::lemma_without_at(c.inactive, place);
    }
    if c.inactive.len() > 0 {
        assert(c.evict().inactive =~= c.inactive.subrange(1, c.inactive.len() as int));
    }
}

} // verus!
