//! A bounded cache with an active and an inactive pool.

use vstd::prelude::*;
use crate::cache::block_table::BlockTable;
use crate::common::evictor;
use crate::common::evictor::LRUEvictor;
use crate::common::protocols::UniqueBlock;

verus! {

broadcast use {vstd::set::group_set_axioms, vstd::map::group_map_axioms};

/// What a [`HashCache`] holds.
#[verifier::ext_equal]
pub struct CacheState {
    /// The blocks in use, with their reference counts.
    pub active: Map<UniqueBlock, nat>,
    /// The blocks kept for reuse, the next one to evict first.
    pub inactive: Seq<UniqueBlock>,
    /// The number of blocks that the two pools can hold together.
    pub max_capacity: nat,
}

impl CacheState {
    /// The number of blocks in the two pools.
    pub open spec fn len(self) -> nat {
        self.active.dom().len() + self.inactive.len()
    }

    /// No slot is free.
    pub open spec fn is_full(self) -> bool {
        self.len() >= self.max_capacity
    }

    /// The block is in one of the pools.
    pub open spec fn holds(self, block: UniqueBlock) -> bool {
        self.active.contains_key(block) || self.inactive.contains(block)
    }

    /// Every active block is referenced, no block is in both pools or twice in one, and the pools
    /// are within the capacity.
    pub open spec fn wf(self) -> bool {
        &&& self.active.dom().finite()
        &&& forall|b: UniqueBlock| #[trigger]
            self.active.contains_key(b) ==> 1 <= self.active[b] <= usize::MAX
        &&& self.inactive.no_duplicates()
        &&& forall|b: UniqueBlock| #[trigger]
            self.active.contains_key(b) ==> !self.inactive.contains(b)
        &&& self.len() <= self.max_capacity <= usize::MAX
    }

    /// The state in which nothing is held.
    pub open spec fn empty(max_capacity: nat) -> CacheState {
        CacheState { active: Map::empty(), inactive: Seq::empty(), max_capacity }
    }

    /// `block` is active with `count` references.
    pub open spec fn activate(self, block: UniqueBlock, count: nat) -> CacheState {
        CacheState { active: self.active.insert(block, count), ..self }
    }

    /// `block` is no longer active.
    pub open spec fn drop_active(self, block: UniqueBlock) -> CacheState {
        CacheState { active: self.active.remove(block), ..self }
    }

    /// `block` is the most recent inactive block.
    pub open spec fn rest(self, block: UniqueBlock) -> CacheState {
        CacheState { inactive: evictor::without(self.inactive, block).push(block), ..self }
    }

    /// `block` is no longer inactive.
    pub open spec fn drop_inactive(self, block: UniqueBlock) -> CacheState {
        CacheState { inactive: evictor::without(self.inactive, block), ..self }
    }

    /// The least recent inactive block is gone.
    pub open spec fn evict(self) -> CacheState {
        CacheState { inactive: self.inactive.drop_first(), ..self }
    }
}

/// Giving a block an active entry keeps the pools in order.
pub proof fn lemma_activate(c: CacheState, block: UniqueBlock, count: nat)
    requires
        c.wf(),
        1 <= count <= usize::MAX,
        !c.inactive.contains(block),
        c.active.contains_key(block) || !c.is_full(),
    ensures
        c.activate(block, count).wf(),
        c.activate(block, count).len() == c.len() + if c.active.contains_key(block) {
            0int
        } else {
            1
        },
{
    assert(c.activate(block, count).active.dom() =~= c.active.dom().insert(block));
}

/// Dropping an active entry keeps the pools in order.
pub proof fn lemma_drop_active(c: CacheState, block: UniqueBlock)
    requires
        c.wf(),
    ensures
        c.drop_active(block).wf(),
        c.drop_active(block).len() == c.len() - if c.active.contains_key(block) {
            1int
        } else {
            0
        },
{
    assert(c.drop_active(block).active.dom() =~= c.active.dom().remove(block));
}

/// Keeping an inactive block keeps the pools in order.
pub proof fn lemma_rest(c: CacheState, block: UniqueBlock)
    requires
        c.wf(),
        !c.active.contains_key(block),
        c.inactive.contains(block) || !c.is_full(),
    ensures
        c.rest(block).wf(),
        c.rest(block).len() == c.len() + if c.inactive.contains(block) {
            0int
        } else {
            1
        },
        forall|x: UniqueBlock| #[trigger]
            c.rest(block).inactive.contains(x) <==> c.inactive.contains(x) || x == block,
{
    evictor::lemma_without(c.inactive, block);
    evictor::lemma_push_distinct(evictor::without(c.inactive, block), block);
}

/// Dropping an inactive block keeps the pools in order.
pub proof fn lemma_drop_inactive(c: CacheState, block: UniqueBlock)
    requires
        c.wf(),
    ensures
        c.drop_inactive(block).wf(),
        c.drop_inactive(block).len() == c.len() - if c.inactive.contains(block) {
            1int
        } else {
            0
        },
        forall|x: UniqueBlock| #[trigger]
            c.drop_inactive(block).inactive.contains(x) <==> c.inactive.contains(x) && x != block,
{
    evictor::lemma_without(c.inactive, block);
}

/// Evicting an inactive block keeps the pools in order.
pub proof fn lemma_evict(c: CacheState)
    requires
        c.wf(),
        c.inactive.len() > 0,
    ensures
        c.evict().wf(),
        c.evict().len() == c.len() - 1,
        !c.active.contains_key(c.inactive[0]),
        forall|x: UniqueBlock| #[trigger]
            c.evict().inactive.contains(x) <==> c.inactive.contains(x) && x != c.inactive[0],
{
    assert(c.inactive.contains(c.inactive[0]));
    let rest = c.inactive.drop_first();
    assert forall|x: UniqueBlock| #[trigger] rest.contains(x) <==> c.inactive.contains(x) && x
        != c.inactive[0] by {
        if rest.contains(x) {
            assert(c.inactive[rest.index_of(x) + 1] == x);
        }
        if c.inactive.contains(x) && x != c.inactive[0] {
            assert(rest[c.inactive.index_of(x) - 1] == x);
        }
    }
}

/// Blocks in use with their reference counts, and blocks kept for reuse in order of eviction.
pub struct HashCache {
    active: BlockTable,
    inactive: LRUEvictor<UniqueBlock>,
    max_capacity: usize,
}

impl View for HashCache {
    type V = CacheState;

    closed spec fn view(&self) -> CacheState {
        CacheState {
            active: self.active@,
            inactive: self.inactive@,
            max_capacity: self.max_capacity as nat,
        }
    }
}

impl HashCache {
    /// The pools are in order.
    pub open spec fn wf(&self) -> bool {
        self@.wf()
    }

    /// A cache without blocks that can hold `max_capacity` of them.
    pub fn new(max_capacity: usize) -> (r: Self)
        ensures
            r.wf(),
            r@ == CacheState::empty(max_capacity as nat),
    {
        HashCache { active: BlockTable::new(), inactive: LRUEvictor::new(), max_capacity }
    }

    /// The number of blocks that can be held.
    pub fn max_capacity(&self) -> (n: usize)
        ensures
            n == self@.max_capacity,
    {
        self.max_capacity
    }

    /// The number of active blocks.
    pub fn num_active(&self) -> (n: usize)
        requires
            self.wf(),
        ensures
            n == self@.active.dom().len(),
    {
        self.active.len()
    }

    /// The number of inactive blocks.
    pub fn num_inactive(&self) -> (n: usize)
        ensures
            n == self@.inactive.len(),
    {
        self.inactive.len()
    }

    /// The number of blocks held.
    pub fn current_capacity(&self) -> (n: usize)
        requires
            self.wf(),
        ensures
            n == self@.len(),
    {
        self.active.len() + self.inactive.len()
    }

    /// Whether no slot is free.
    pub fn is_at_capacity(&self) -> (r: bool)
        requires
            self.wf(),
        ensures
            r == self@.is_full(),
    {
        self.current_capacity() >= self.max_capacity
    }

    /// Whether `block` is active.
    pub fn contains_active(&self, block: &UniqueBlock) -> (r: bool)
        ensures
            r == self@.active.contains_key(*block),
    {
        self.active.contains_key(block)
    }

    /// Whether `block` is inactive.
    pub fn contains_inactive(&self, block: &UniqueBlock) -> (r: bool)
        ensures
            r == self@.inactive.contains(*block),
    {
        self.inactive.contains(block)
    }

    /// Whether `block` is held.
    pub fn contains(&self, block: &UniqueBlock) -> (r: bool)
        ensures
            r == self@.holds(*block),
    {
        self.active.contains_key(block) || self.inactive.contains(block)
    }

    /// The reference count of `block`, if it is active.
    pub fn get_active_ref_count(&self, block: &UniqueBlock) -> (r: Option<usize>)
        ensures
            match r {
                Some(count) => self@.active.contains_key(*block) && self@.active[*block] == count,
                None => !self@.active.contains_key(*block),
            },
    {
        match self.active.get(block) {
            Some(count) => Some(*count),
            None => None,
        }
    }

    /// Takes one more reference on an active block.
    pub fn increment_ref(&mut self, block: &UniqueBlock)
        requires
            old(self).wf(),
            old(self)@.active.contains_key(*block),
            old(self)@.active[*block] < usize::MAX,
        ensures
            final(self).wf(),
            final(self)@ == old(self)@.activate(*block, old(self)@.active[*block] + 1),
    {
        proof {
            lemma_activate(self@, *block, self@.active[*block] + 1);
        }
        if let Some(count) = self.get_active_ref_count(block) {
            self.active.insert(*block, count + 1);
        }
    }

    /// Gives back one of several references on an active block.
    pub fn decrement_ref(&mut self, block: &UniqueBlock)
        requires
            old(self).wf(),
            old(self)@.active.contains_key(*block),
            old(self)@.active[*block] > 1,
        ensures
            final(self).wf(),
            final(self)@ == old(self)@.activate(*block, (old(self)@.active[*block] - 1) as nat),
    {
        proof {
            lemma_activate(self@, *block, (self@.active[*block] - 1) as nat);
        }
        if let Some(count) = self.get_active_ref_count(block) {
            self.active.insert(*block, count - 1);
        }
    }

    /// Sets the reference count of a block that is active or for which a slot is free.
    pub fn insert_active(&mut self, block: UniqueBlock, count: usize)
        requires
            old(self).wf(),
            count >= 1,
            !old(self)@.inactive.contains(block),
            old(self)@.active.contains_key(block) || !old(self)@.is_full(),
        ensures
            final(self).wf(),
            final(self)@ == old(self)@.activate(block, count as nat),
    {
        proof {
            lemma_activate(self@, block, count as nat);
        }
        self.active.insert(block, count);
    }

    /// Drops `block` from the active pool; returns its reference count.
    pub fn remove_active(&mut self, block: &UniqueBlock) -> (r: Option<usize>)
        requires
            old(self).wf(),
        ensures
            final(self).wf(),
            final(self)@ == old(self)@.drop_active(*block),
            match r {
                Some(count) => old(self)@.active.contains_key(*block)
                    && old(self)@.active[*block] == count,
                None => !old(self)@.active.contains_key(*block),
            },
    {
        proof {
            lemma_drop_active(self@, *block);
        }
        self.active.remove(block)
    }

    /// Moves `block` from the inactive to the active pool, with one reference; tells whether it
    /// was inactive.
    pub fn reactivate(&mut self, block: &UniqueBlock) -> (r: bool)
        requires
            old(self).wf(),
            !old(self)@.active.contains_key(*block),
        ensures
            final(self).wf(),
            r == old(self)@.inactive.contains(*block),
            final(self)@ == if r {
                old(self)@.drop_inactive(*block).activate(*block, 1)
            } else {
                old(self)@
            },
    {
        proof {
            lemma_drop_inactive(self@, *block);
        }
        if !self.remove_inactive(block) {
            assert(self@ == old(self)@);
            return false;
        }
        self.insert_active(*block, 1);
        true
    }

    /// Moves an active block to the inactive pool, as its most recent one.
    pub fn deactivate(&mut self, block: &UniqueBlock)
        requires
            old(self).wf(),
            old(self)@.active.contains_key(*block),
        ensures
            final(self).wf(),
            final(self)@ == old(self)@.drop_active(*block).rest(*block),
    {
        proof {
            lemma_drop_active(self@, *block);
        }
        self.remove_active(block);
        self.insert_inactive(*block);
    }

    /// Makes a block that is not active the most recent inactive one.
    pub fn insert_inactive(&mut self, block: UniqueBlock)
        requires
            old(self).wf(),
            !old(self)@.active.contains_key(block),
            old(self)@.inactive.contains(block) || !old(self)@.is_full(),
        ensures
            final(self).wf(),
            final(self)@ == old(self)@.rest(block),
    {
        proof {
            lemma_rest(self@, block);
        }
        self.inactive.insert(block);
    }

    /// Drops `block` from the inactive pool; tells whether it was there.
    pub fn remove_inactive(&mut self, block: &UniqueBlock) -> (r: bool)
        requires
            old(self).wf(),
        ensures
            final(self).wf(),
            r == old(self)@.inactive.contains(*block),
            final(self)@ == old(self)@.drop_inactive(*block),
    {
        proof {
            lemma_drop_inactive(self@, *block);
        }
        self.inactive.remove(block)
    }

    /// Drops the least recent inactive block and returns it.
    pub fn evict_inactive(&mut self) -> (r: Option<UniqueBlock>)
        requires
            old(self).wf(),
        ensures
            final(self).wf(),
            match r {
                Some(block) => old(self)@.inactive.len() > 0 && block == old(self)@.inactive[0]
                    && final(self)@ == old(self)@.evict(),
                None => old(self)@.inactive.len() == 0 && final(self)@ == old(self)@,
            },
    {
        proof {
            if self@.inactive.len() > 0 {
                lemma_evict(self@);
            }
        }
        self.inactive.evict()
    }

    /// The active blocks, in no particular order.
    pub fn active_keys(&self) -> (r: Vec<UniqueBlock>)
        ensures
            r@.no_duplicates(),
            r@.to_set() == self@.active.dom(),
    {
        self.active.keys()
    }

    /// The inactive blocks, the next one to evict first.
    pub fn inactive_keys(&self) -> (r: Vec<UniqueBlock>)
        ensures
            r@ == self@.inactive,
    {
        self.inactive.keys()
    }

    /// The reference counts of the active blocks.
    pub fn active_blocks(&self) -> (r: &BlockTable)
        ensures
            r@ == self@.active,
    {
        &self.active
    }
}

} // verus!
