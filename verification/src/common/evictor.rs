//! A queue that evicts in order of insertion.

use vstd::prelude::*;
use crate::common::protocols::UniqueBlock;

verus! {

/// Keys that can be compared for identity.
pub trait Key: Copy {
    /// Whether the two keys are the same.
    fn same(&self, other: &Self) -> (r: bool)
        ensures
            r == (*self == *other),
    ;
}

impl Key for UniqueBlock {
    fn same(&self, other: &Self) -> (r: bool) {
        *self == *other
    }
}

impl Key for u128 {
    fn same(&self, other: &Self) -> (r: bool) {
        *self == *other
    }
}

/// The sequence `s` without an occurrence of `key`, the order of the rest unchanged.
pub open spec fn without<T>(s: Seq<T>, key: T) -> Seq<T> {
    if s.contains(key) {
        s.remove(s.index_of(key))
    } else {
        s
    }
}

/// What is left of a sequence without duplicates once a key has been taken out.
pub proof fn lemma_without<T>(s: Seq<T>, key: T)
    requires
        s.no_duplicates(),
    ensures
        without(s, key).no_duplicates(),
        !without(s, key).contains(key),
        forall|x: T| #[trigger] without(s, key).contains(x) <==> s.contains(x) && x != key,
        without(s, key).len() == if s.contains(key) { s.len() - 1 } else { s.len() as int },
{
    if s.contains(key) {
        let k = s.index_of(key);
        let r = s.remove(k);
        assert forall|x: T| #[trigger] r.contains(x) <==> s.contains(x) && x != key by {
            if r.contains(x) {
                let i = r.index_of(x);
                let j = if i < k { i } else { i + 1 };
                assert(s[j] == x);
            }
            if s.contains(x) && x != key {
                let j = s.index_of(x);
                let i = if j < k { j } else { j - 1 };
                assert(r[i] == x);
            }
        }
    }
}

/// Taking out the key at a known position.
pub proof fn lemma_without_at<T>(s: Seq<T>, i: int)
    requires
        s.no_duplicates(),
        0 <= i < s.len(),
    ensures
        without(s, s[i]) == s.remove(i),
{
    assert(s.contains(s[i]));
}

/// Adding a new key at the end keeps the keys distinct.
pub proof fn lemma_push_distinct<T>(s: Seq<T>, key: T)
    requires
        s.no_duplicates(),
        !s.contains(key),
    ensures
        s.push(key).no_duplicates(),
        forall|x: T| #[trigger] s.push(key).contains(x) <==> s.contains(x) || x == key,
{
    assert forall|x: T| #[trigger] s.push(key).contains(x) <==> s.contains(x) || x == key by {
        if s.contains(x) {
            assert(s.push(key)[s.index_of(x)] == x);
        }
        if x == key {
            assert(s.push(key)[s.len() as int] == x);
        }
    }
}

/// Keys ordered from the least to the most recently inserted, each at most once.
pub struct LRUEvictor<T> {
    order: Vec<T>,
}

impl<T> View for LRUEvictor<T> {
    type V = Seq<T>;

    closed spec fn view(&self) -> Seq<T> {
        self.order@
    }
}

impl<T: Key> LRUEvictor<T> {
    /// No key occurs twice.
    pub open spec fn wf(&self) -> bool {
        self@.no_duplicates()
    }

    /// An evictor without keys.
    pub fn new() -> (r: Self)
        ensures
            r.wf(),
            r@ == Seq::<T>::empty(),
    {
        LRUEvictor { order: Vec::new() }
    }

    /// The number of keys.
    pub fn len(&self) -> (n: usize)
        ensures
            n == self@.len(),
    {
        self.order.len()
    }

    /// The place of `key`, if it is there.
    fn position(&self, key: &T) -> (r: Option<usize>)
        ensures
            match r {
                Some(i) => i < self@.len() && self@[i as int] == *key,
                None => !self@.contains(*key),
            },
    {
        let mut i: usize = 0;
        while i < self.order.len()
            invariant
                i <= self.order.len(),
                forall|j: int| 0 <= j < i ==> self.order@[j] != *key,
            decreases self.order.len() - i,
        {
            if self.order[i].same(key) {
                return Some(i);
            }
            i += 1;
        }
        None
    }

    /// Whether `key` is there.
    pub fn contains(&self, key: &T) -> (r: bool)
        ensures
            r == self@.contains(*key),
    {
        match self.position(key) {
            Some(i) => {
                assert(self@[i as int] == *key);
                true
            },
            None => false,
        }
    }

    /// Takes `key` out; tells whether it was there.
    pub fn remove(&mut self, key: &T) -> (r: bool)
        requires
            old(self).wf(),
        ensures
            final(self).wf(),
            r == old(self)@.contains(*key),
            final(self)@ == without(old(self)@, *key),
    {
        proof {
            lemma_without(self@, *key);
        }
        match self.position(key) {
            Some(i) => {
                proof {
                    lemma_without_at(self@, i as int);
                }
                assert(self@.contains(*key));
                self.order.remove(i);
                true
            },
            None => false,
        }
    }

    /// Makes `key` the most recently inserted one.
    pub fn insert(&mut self, key: T)
        requires
            old(self).wf(),
        ensures
            final(self).wf(),
            final(self)@ == without(old(self)@, key).push(key),
    {
        let ghost before = self@;
        self.remove(&key);
        proof {
            lemma_without(before, key);
            lemma_push_distinct(self@, key);
        }
        self.order.push(key);
    }

    /// Takes out the least recently inserted key.
    pub fn evict(&mut self) -> (r: Option<T>)
        requires
            old(self).wf(),
        ensures
            final(self).wf(),
            match r {
                Some(key) => old(self)@.len() > 0 && key == old(self)@[0] && final(self)@
                    == old(self)@.drop_first(),
                None => old(self)@.len() == 0 && final(self)@ == old(self)@,
            },
    {
        if self.order.len() == 0 {
            return None;
        }
        let ghost before = self@;
        let key = self.order.remove(0);
        assert(self@ =~= before.drop_first());
        Some(key)
    }

    /// The keys, the least recently inserted one first.
    pub fn keys(&self) -> (r: Vec<T>)
        ensures
            r@ == self@,
    {
        let mut keys: Vec<T> = Vec::new();
        let mut i: usize = 0;
        while i < self.order.len()
            invariant
                i <= self.order.len(),
                keys@ == self.order@.take(i as int),
            decreases self.order.len() - i,
        {
            keys.push(self.order[i]);
            i += 1;
        }
        keys
    }
}

} // verus!
