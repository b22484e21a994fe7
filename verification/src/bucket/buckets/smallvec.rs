//! The bucket with a stated inline size: room for a few entries is set aside
//! when the bucket is made, and it grows like any list beyond that.

use crate::bucket::buckets::vec::VecBucket;
use crate::bucket::model::items_cloned;
use crate::bucket::Bucket;
use crate::kv::{Key, Value};
use vstd::prelude::*;

verus! {

/// A bucket that sets room for `N` entries aside when it is made. It never
/// refuses an entry: beyond `N` it moves to a larger allocation.
pub struct SmallVecBucket<K: Key, V: Value, const N: usize> {
    entries: VecBucket<K, V>,
}

pub type SmallVecBucket1<K, V> = SmallVecBucket<K, V, 1>;

pub type SmallVecBucket2<K, V> = SmallVecBucket<K, V, 2>;

pub type SmallVecBucket4<K, V> = SmallVecBucket<K, V, 4>;

pub type SmallVecBucket8<K, V> = SmallVecBucket<K, V, 8>;

pub type SmallVecBucket16<K, V> = SmallVecBucket<K, V, 16>;

pub type SmallVecBucket32<K, V> = SmallVecBucket<K, V, 32>;

pub type SmallVecBucket64<K, V> = SmallVecBucket<K, V, 64>;

impl<K: Key, V: Value, const N: usize> SmallVecBucket<K, V, N> {
    /// Whether the bucket holds more entries than the room set aside for it.
    pub fn spilled(&self) -> (spilled: bool)
        ensures
            spilled == (self.items().len() > N),
    {
        self.entries.len() > N
    }
}

impl<K: Key, V: Value, const N: usize> Clone for SmallVecBucket<K, V, N> {
    fn clone(&self) -> (copy: Self)
        ensures
            items_cloned(self.items(), copy.items()),
    {
        self.duplicate()
    }
}

impl<K: Key, V: Value, const N: usize> Bucket<K, V> for SmallVecBucket<K, V, N> {
    closed spec fn items(&self) -> Seq<(K, V)> {
        self.entries@
    }

    open spec fn limit() -> Option<nat> {
        None
    }

    #[inline]
    fn new() -> (bucket: Self) {
        SmallVecBucket { entries: Vec::with_capacity(N) }
    }

    #[inline]
    fn insert(&mut self, key: K, value: V) -> (previous: Option<V>) {
        Bucket::insert(&mut self.entries, key, value)
    }

    #[inline]
    fn get<'a>(&'a self, key: K) -> (found: Option<&'a V>) {
        Bucket::get(&self.entries, key)
    }

    #[inline]
    fn get_mut(&mut self, key: K) -> (found: Option<&mut V>) {
        Bucket::get_mut(&mut self.entries, key)
    }

    fn remove_entry(&mut self, key: K) -> (removed: Option<(K, V)>) {
        self.entries.remove_entry(key)
    }

    #[inline]
    fn len(&self) -> (n: usize) {
        self.entries.len()
    }

    #[inline]
    fn clear(&mut self) {
        self.entries.clear()
    }

    #[inline]
    fn reached_max_capacity(&self) -> (full: bool) {
        false
    }

    #[inline]
    fn entry(&self, idx: usize) -> (entry: &(K, V)) {
        &self.entries[idx]
    }

    #[inline]
    fn entries_mut(&mut self) -> (entries: Vec<&mut (K, V)>) {
        Bucket::entries_mut(&mut self.entries)
    }

    fn duplicate(&self) -> (copy: Self) {
        SmallVecBucket { entries: Bucket::duplicate(&self.entries) }
    }

    #[inline]
    fn into_entries(self) -> (entries: Vec<(K, V)>) {
        self.entries
    }
}

} // verus!
