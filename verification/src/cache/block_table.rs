//! Reference counts of blocks.

use std::collections::HashMap;
use vstd::prelude::*;
use crate::common::protocols::UniqueBlock;

verus! {

broadcast use {
    vstd::std_specs::hash::group_hash_axioms,
    vstd::set::group_set_axioms,
    vstd::map::group_map_axioms,
};

/// A map from blocks to reference counts.
pub struct BlockTable {
    full: HashMap<u64, usize>,
    partial: HashMap<u128, usize>,
}

impl View for BlockTable {
    type V = Map<UniqueBlock, nat>;

    closed spec fn view(&self) -> Map<UniqueBlock, nat> {
        Map::new(
            |b: UniqueBlock|
                match b {
                    UniqueBlock::FullBlock(hash) => self.full@.contains_key(hash),
                    UniqueBlock::PartialBlock(uuid) => self.partial@.contains_key(uuid),
                },
            |b: UniqueBlock|
                match b {
                    UniqueBlock::FullBlock(hash) => self.full@[hash] as nat,
                    UniqueBlock::PartialBlock(uuid) => self.partial@[uuid] as nat,
                },
        )
    }
}

impl BlockTable {
    /// The entries are finitely many, one for each key of the two maps.
    proof fn lemma_size(&self)
        ensures
            self@.dom().finite(),
            self@.dom().len() == self.full@.dom().len() + self.partial@.dom().len(),
    {
        let f = |hash: u64| UniqueBlock::FullBlock(hash);
        let p = |uuid: u128| UniqueBlock::PartialBlock(uuid);
        let fulls = self.full@.dom().map(f);
        let partials = self.partial@.dom().map(p);
        assert(vstd::relations::injective_on(f, self.full@.dom()));
        assert(vstd::relations::injective_on(p, self.partial@.dom()));
        vstd::set_lib::lemma_map_size(self.full@.dom(), fulls, f);
        vstd::set_lib::lemma_map_size(self.partial@.dom(), partials, p);
        assert(fulls.disjoint(partials));
        vstd::set_lib::lemma_set_disjoint_lens(fulls, partials);
        assert(self@.dom() =~= fulls + partials) by {
            assert forall|b: UniqueBlock| self@.dom().contains(b) <==> (fulls + partials).contains(b) by {
                match b {
                    UniqueBlock::FullBlock(hash) => {
                        if self.full@.contains_key(hash) {
                            assert(f(hash) == b);
                        }
                    },
                    UniqueBlock::PartialBlock(uuid) => {
                        if self.partial@.contains_key(uuid) {
                            assert(p(uuid) == b);
                        }
                    },
                }
            }
        }
    }

    /// A table without blocks.
    pub fn new() -> (r: Self)
        ensures
            r@ == Map::<UniqueBlock, nat>::empty(),
    {
        let r = BlockTable { full: HashMap::new(), partial: HashMap::new() };
        assert(r@ =~= Map::<UniqueBlock, nat>::empty());
        r
    }

    /// The number of blocks.
    pub fn len(&self) -> (n: usize)
        requires
            self@.dom().len() <= usize::MAX,
        ensures
            n == self@.dom().len(),
    {
        proof {
            self.lemma_size();
        }
        self.full.len() + self.partial.len()
    }

    /// Whether `block` has an entry.
    pub fn contains_key(&self, block: &UniqueBlock) -> (r: bool)
        ensures
            r == self@.contains_key(*block),
    {
        match *block {
            UniqueBlock::FullBlock(hash) => self.full.contains_key(&hash),
            UniqueBlock::PartialBlock(uuid) => self.partial.contains_key(&uuid),
        }
    }

    /// The reference count of `block`, if it has an entry.
    pub fn get(&self, block: &UniqueBlock) -> (r: Option<&usize>)
        ensures
            match r {
                Some(count) => self@.contains_key(*block) && self@[*block] == *count,
                None => !self@.contains_key(*block),
            },
    {
        match *block {
            UniqueBlock::FullBlock(hash) => self.full.get(&hash),
            UniqueBlock::PartialBlock(uuid) => self.partial.get(&uuid),
        }
    }

    /// Sets the reference count of `block`.
    pub fn insert(&mut self, block: UniqueBlock, count: usize)
        ensures
            final(self)@ == old(self)@.insert(block, count as nat),
    {
        match block {
            UniqueBlock::FullBlock(hash) => {
                self.full.insert(hash, count);
            },
            UniqueBlock::PartialBlock(uuid) => {
                self.partial.insert(uuid, count);
            },
        }
        assert(self@ =~= old(self)@.insert(block, count as nat));
    }

    /// Takes the entry of `block` out; returns its reference count.
    pub fn remove(&mut self, block: &UniqueBlock) -> (r: Option<usize>)
        ensures
            final(self)@ == old(self)@.remove(*block),
            match r {
                Some(count) => old(self)@.contains_key(*block) && old(self)@[*block] == count,
                None => !old(self)@.contains_key(*block),
            },
    {
        let r = match *block {
            UniqueBlock::FullBlock(hash) => self.full.remove(&hash),
            UniqueBlock::PartialBlock(uuid) => self.partial.remove(&uuid),
        };
        assert(self@ =~= old(self)@.remove(*block));
        r
    }

    /// The blocks that have an entry, each once, in no particular order.
    pub fn keys(&self) -> (r: Vec<UniqueBlock>)
        ensures
            r@.no_duplicates(),
            r@.to_set() == self@.dom(),
    {
        let mut keys: Vec<UniqueBlock> = Vec::new();
        for hash in it: self.full.keys()
            invariant
                keys@.len() == it.index(),
                forall|i: int| #![trigger keys@[i]] 0 <= i < keys@.len() ==> keys@[i] == UniqueBlock::FullBlock(
                    *it.seq()[i],
                ),
        {
            keys.push(UniqueBlock::FullBlock(*hash));
        }
        let ghost hashes = vstd::std_specs::iter::IteratorSpec::remaining(
            &vstd::std_specs::hash::spec_keys_iter(&self.full),
        );
        let ghost fulls = keys@;
        proof {
            assert forall|b: UniqueBlock| fulls.contains(b) <==> b is FullBlock && self@.contains_key(b) by {
                if b is FullBlock && self@.contains_key(b) {
                    assert(hashes.unref().to_set().contains(b->FullBlock_0));
                    let i = hashes.unref().index_of(b->FullBlock_0);
                    assert(fulls[i] == b);
                }
                if fulls.contains(b) {
                    let i = fulls.index_of(b);
                    assert(hashes.unref().contains(hashes.unref()[i]));
                    assert(hashes.unref().to_set().contains(b->FullBlock_0));
                }
            }
        }
        for uuid in it: self.partial.keys()
            invariant
                fulls.len() <= keys@.len(),
                keys@.len() == fulls.len() + it.index(),
                keys@.take(fulls.len() as int) == fulls,
                forall|i: int| #![trigger keys@[i]] fulls.len() <= i < keys@.len() ==> keys@[i]
                    == UniqueBlock::PartialBlock(*it.seq()[i - fulls.len()]),
        {
            keys.push(UniqueBlock::PartialBlock(*uuid));
            assert(keys@.take(fulls.len() as int) =~= fulls);
        }
        proof {
            let uuids = vstd::std_specs::iter::IteratorSpec::remaining(
                &vstd::std_specs::hash::spec_keys_iter(&self.partial),
            );
            assert forall|b: UniqueBlock| keys@.contains(b) <==> self@.contains_key(b) by {
                if self@.contains_key(b) {
                    match b {
                        UniqueBlock::FullBlock(hash) => {
                            assert(fulls.contains(b));
                            assert(keys@.take(fulls.len() as int)[fulls.index_of(b)] == b);
                        },
                        UniqueBlock::PartialBlock(uuid) => {
                            assert(uuids.unref().to_set().contains(uuid));
                            let i = uuids.unref().index_of(uuid);
                            assert(keys@[fulls.len() + i] == b);
                        },
                    }
                }
                if keys@.contains(b) {
                    let i = keys@.index_of(b);
                    if i < fulls.len() {
                        assert(keys@.take(fulls.len() as int)[i] == b);
                        assert(fulls.contains(b));
                    } else {
                        let j = i - fulls.len();
                        assert(uuids.unref().contains(uuids.unref()[j]));
                        assert(uuids.unref().to_set().contains(b->PartialBlock_0));
                    }
                }
            }
            assert(keys@.to_set() =~= self@.dom());
            assert forall|i: int, j: int| 0 <= i < j < keys@.len() implies keys@[i] != keys@[j] by {
                if j < fulls.len() {
                    assert(keys@.take(fulls.len() as int)[i] == UniqueBlock::FullBlock(*hashes[i]));
                    assert(keys@.take(fulls.len() as int)[j] == UniqueBlock::FullBlock(*hashes[j]));
                } else if i >= fulls.len() {
                } else {
                    assert(keys@.take(fulls.len() as int)[i] is FullBlock);
                }
            }
        }
        keys
    }
}

} // verus!
