//! The unbounded bucket: a growable list of entries, for classic chaining.

use crate::bucket::helpers::IndexOf;
use crate::bucket::iteration::each_mut;
use crate::bucket::model::{
    entries_of, items_cloned, lemma_absent, lemma_found_at, lemma_push, lemma_swap_remove,
    well_formed,
};
use crate::bucket::Bucket;
use crate::kv::{same_key, Key, Value};
use vstd::prelude::*;

verus! {

/// A bucket that takes any number of entries.
pub type VecBucket<K, V> = Vec<(K, V)>;

impl<K: Key, V: Value> Bucket<K, V> for VecBucket<K, V> {
    open spec fn items(&self) -> Seq<(K, V)> {
        self@
    }

    open spec fn limit() -> Option<nat> {
        None
    }

    #[inline]
    fn new() -> (bucket: Self) {
        Vec::with_capacity(1)
    }

    #[inline]
    fn insert(&mut self, key: K, value: V) -> (previous: Option<V>) {
        proof {
            assert(well_formed(self.items(), Self::limit()) && self.items() == self@);
            lemma_keys(self);
        }
        let old_value = match self.index_of(key) {
            Some(idx) => {
                proof {
                    lemma_found_at(self@, idx as int);
                    lemma_swap_remove(self@, idx as int);
                }
                Some(self.swap_remove(idx).1)
            },
            None => {
                proof {
                    lemma_absent(self@, key);
                }
                None
            },
        };
        proof {
            lemma_push(self@, key, value);
        }
        self.push((key, value));
        old_value
    }

    #[inline]
    fn get<'a>(&'a self, key: K) -> (found: Option<&'a V>) {
        proof {
            assert(well_formed(self.items(), Self::limit()) && self.items() == self@);
            lemma_keys(self);
        }
        match self.index_of(key) {
            Some(idx) => {
                proof {
                    lemma_found_at(self@, idx as int);
                }
                Some(&self[idx].1)
            },
            None => {
                proof {
                    lemma_absent(self@, key);
                }
                None
            },
        }
    }

    #[inline]
    fn get_mut(&mut self, key: K) -> (found: Option<&mut V>) {
        proof {
            assert(well_formed(self.items(), Self::limit()) && self.items() == self@);
            lemma_keys(self);
        }
        match self.index_of(key) {
            Some(idx) => {
                proof {
                    lemma_found_at(self@, idx as int);
                }
                Some(&mut self[idx].1)
            },
            None => {
                proof {
                    lemma_absent(self@, key);
                }
                None
            },
        }
    }

    fn remove_entry(&mut self, key: K) -> (removed: Option<(K, V)>) {
        proof {
            assert(well_formed(self.items(), Self::limit()) && self.items() == self@);
            lemma_keys(self);
        }
        match self.index_of(key) {
            Some(idx) => {
                proof {
                    lemma_found_at(self@, idx as int);
                    lemma_swap_remove(self@, idx as int);
                }
                Some(self.swap_remove(idx))
            },
            None => {
                proof {
                    lemma_absent(self@, key);
                    assert(entries_of(self@) =~= entries_of(self@).remove(key));
                }
                None
            },
        }
    }

    #[inline]
    fn len(&self) -> (n: usize) {
        Vec::len(self)
    }

    #[inline]
    fn clear(&mut self) {
        Vec::clear(self)
    }

    #[inline]
    fn reached_max_capacity(&self) -> (full: bool) {
        false
    }

    #[inline]
    fn entry(&self, idx: usize) -> (entry: &(K, V)) {
        &self[idx]
    }

    #[inline]
    fn entries_mut(&mut self) -> (entries: Vec<&mut (K, V)>) {
        each_mut(self.as_mut_slice())
    }

    fn duplicate(&self) -> (copy: Self) {
        let n = self.len();
        let mut copy: Vec<(K, V)> = Vec::with_capacity(n);
        for i in 0..n
            invariant
                n == self@.len(),
                items_cloned(self@.take(i as int), copy@),
        {
            copy.push((self[i].0, self[i].1.clone()));
        }
        assert(self@.take(n as int) =~= self@);
        copy
    }

    #[inline]
    fn into_entries(self) -> (entries: Vec<(K, V)>) {
        self
    }
}

impl<K: Key, V: Value> IndexOf<K> for VecBucket<K, V> {
    open spec fn keys(&self) -> Seq<K> {
        Seq::new(self@.len(), |i: int| self@[i].0)
    }

    #[inline]
    fn index_of(&self, key: K) -> (found: Option<usize>) {
        proof {
            lemma_keys(self);
        }
        let mut idx: usize = 0;
        while idx < self.len()
            invariant
                idx <= self@.len(),
                self.keys().len() == self@.len(),
                forall|i: int| 0 <= i < self@.len() ==> (#[trigger] self.keys()[i]) == self@[i].0,
                forall|j: int| 0 <= j < idx ==> (#[trigger] self@[j]).0 != key,
            decreases self@.len() - idx,
        {
            if same_key(self[idx].0, key) {
                return Some(idx);
            }
            idx += 1;
        }
        None
    }
}

/// The keys of a list of entries stand at the positions of their entries.
proof fn lemma_keys<K: Key, V: Value>(entries: &VecBucket<K, V>)
    ensures
        entries.keys().len() == entries@.len(),
        forall|i: int|
            0 <= i < entries@.len() ==> (#[trigger] entries@[i]).0 == entries.keys()[i],
        forall|i: int|
            0 <= i < entries@.len() ==> (#[trigger] entries.keys()[i]) == entries@[i].0,
{
}

} // verus!
