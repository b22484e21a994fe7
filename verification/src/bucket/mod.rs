//! Buckets, bucket stores and the wrap-around probe that walks them.

pub mod buckets;
pub mod helpers;
pub mod iteration;
pub mod model;
pub mod stores;

pub use self::buckets::{
    OptionBucket, SmallVecBucket, SmallVecBucket1, SmallVecBucket16, SmallVecBucket2,
    SmallVecBucket32, SmallVecBucket4, SmallVecBucket64, SmallVecBucket8, VecBucket,
};
pub use self::stores::{
    Array1024, Array128, Array16, Array16384, Array2, Array2048, Array256, Array32, Array32768,
    Array4, Array4096, Array512, Array64, Array768, Array8, Array8192, ArrayStore,
};

use crate::bucket::helpers::{probe_first, probe_index, WrappingIndexIterator};
use crate::bucket::model::{
    at_limit, entries_of, has_key, items_cloned, lookup, slot_of, value_of, well_formed,
};
use crate::kv::{Key, Value};
use vstd::prelude::*;

verus! {

/// The number of buckets of a store that is built without a stated capacity.
pub const DEFAULT_BUCKETS_COUNT: usize = 256;

/// A small container bound to one slot of the table. It holds the entries whose
/// keys were sent to that slot, at most one entry per key.
pub trait Bucket<K: Key, V: Value>: Sized {
    /// The entries, in the order in which the bucket holds them.
    spec fn items(&self) -> Seq<(K, V)>;

    /// The most entries that a bucket of this kind takes, or `None` where it
    /// grows without bound.
    spec fn limit() -> Option<nat>;

    /// A bucket without entries.
    fn new() -> (bucket: Self)
        ensures
            bucket.items() =~= Seq::<(K, V)>::empty(),
    ;

    /// Stores `value` under `key`. Where the bucket held an entry with that key,
    /// its value is replaced and handed back; otherwise the entry is new.
    /// A bucket that has reached its bound takes no new key.
    fn insert(&mut self, key: K, value: V) -> (previous: Option<V>)
        requires
            well_formed(old(self).items(), Self::limit()),
            has_key(old(self).items(), key) || !at_limit(old(self).items(), Self::limit()),
        ensures
            well_formed(final(self).items(), Self::limit()),
            previous == lookup(old(self).items(), key),
            entries_of(final(self).items()) =~= entries_of(old(self).items()).insert(key, value),
            final(self).items().len() == old(self).items().len() + (if has_key(
                old(self).items(),
                key,
            ) {
                0int
            } else {
                1int
            }),
            !has_key(old(self).items(), key) ==> final(self).items() =~= old(self).items().push(
                (key, value),
            ),
    ;

    /// The value stored under `key`.
    fn get<'a>(&'a self, key: K) -> (found: Option<&'a V>)
        requires
            well_formed(self.items(), Self::limit()),
        ensures
            found.is_some() == has_key(self.items(), key),
            found.is_some() ==> *found.unwrap() == value_of(self.items(), key),
    ;

    /// The value stored under `key`, open to change. Whatever the caller writes
    /// through the reference becomes the value of that entry; nothing else changes.
    fn get_mut(&mut self, key: K) -> (found: Option<&mut V>)
        requires
            well_formed(old(self).items(), Self::limit()),
        ensures
            found.is_some() == has_key(old(self).items(), key),
            match found {
                Some(value) => {
                    &&& *value == value_of(old(self).items(), key)
                    &&& final(self).items() =~= old(self).items().update(
                        slot_of(old(self).items(), key),
                        (key, *final(value)),
                    )
                },
                None => final(self).items() == old(self).items(),
            },
    ;

    /// Takes the entry with the key `key` out of the bucket and hands its value back.
    fn remove(&mut self, key: K) -> (removed: Option<V>)
        requires
            well_formed(old(self).items(), Self::limit()),
        ensures
            well_formed(final(self).items(), Self::limit()),
            removed == lookup(old(self).items(), key),
            entries_of(final(self).items()) =~= entries_of(old(self).items()).remove(key),
            final(self).items().len() == old(self).items().len() - (if has_key(
                old(self).items(),
                key,
            ) {
                1int
            } else {
                0int
            }),
    {
        match self.remove_entry(key) {
            Some(entry) => Some(entry.1),
            None => None,
        }
    }

    /// Takes the entry with the key `key` out of the bucket and hands it back.
    fn remove_entry(&mut self, key: K) -> (removed: Option<(K, V)>)
        requires
            well_formed(old(self).items(), Self::limit()),
        ensures
            well_formed(final(self).items(), Self::limit()),
            removed == (match lookup(old(self).items(), key) {
                Some(value) => Some((key, value)),
                None => None,
            }),
            entries_of(final(self).items()) =~= entries_of(old(self).items()).remove(key),
            final(self).items().len() == old(self).items().len() - (if has_key(
                old(self).items(),
                key,
            ) {
                1int
            } else {
                0int
            }),
    ;

    /// The number of entries.
    fn len(&self) -> (n: usize)
        ensures
            n == self.items().len(),
    ;

    /// Whether the bucket holds no entry.
    fn is_empty(&self) -> (empty: bool)
        ensures
            empty == (self.items().len() == 0),
    {
        self.len() == 0
    }

    /// Drops every entry.
    fn clear(&mut self)
        ensures
            final(self).items() =~= Seq::<(K, V)>::empty(),
    ;

    /// Whether the bucket has reached its bound, so that an `insert` with a new
    /// key has to go elsewhere.
    fn reached_max_capacity(&self) -> (full: bool)
        ensures
            full == at_limit(self.items(), Self::limit()),
    ;

    /// The entry at position `idx`.
    fn entry(&self, idx: usize) -> (entry: &(K, V))
        requires
            idx < self.items().len(),
        ensures
            *entry == self.items()[idx as int],
    ;

    /// The entries, each open to change, in their order. What the caller
    /// leaves in them is what the bucket holds afterwards, position by
    /// position; a caller that changes keys answers for their distinctness.
    fn entries_mut(&mut self) -> (entries: Vec<&mut (K, V)>)
        ensures
            entries@.len() == old(self).items().len(),
            forall|j: int|
                0 <= j < entries@.len() ==> *#[trigger] entries@[j] == old(self).items()[j],
            final(self).items().len() == old(self).items().len(),
            forall|j: int|
                0 <= j < entries@.len() ==> #[trigger] final(self).items()[j] == *final(
                    entries@[j]
                ),
    ;

    /// A bucket of its own with the same keys in the same order, each with a
    /// clone of its value.
    fn duplicate(&self) -> (copy: Self)
        ensures
            items_cloned(self.items(), copy.items()),
    ;

    /// Gives the bucket up for its entries, in their order.
    fn into_entries(self) -> (entries: Vec<(K, V)>)
        ensures
            entries@ == self.items(),
    ;
}

/// `copy` has as many buckets as `base`, each with the keys of its
/// counterpart in the same order and with clones of the values.
pub open spec fn slots_cloned<K: Key, V: Value, B: Bucket<K, V>>(
    base: Seq<B>,
    copy: Seq<B>,
) -> bool {
    &&& copy.len() == base.len()
    &&& forall|i: int|
        0 <= i < base.len() ==> items_cloned(
            base[i].items(),
            (#[trigger] copy[i]).items(),
        )
}

/// Marks the slots whose bucket holds an entry with the key `key`.
pub open spec fn key_hits<K: Key, V: Value, B: Bucket<K, V>>(slots: Seq<B>, key: K) -> Seq<bool> {
    Seq::new(slots.len(), |i: int| has_key(slots[i].items(), key))
}

/// Marks the slots whose bucket has not reached its bound.
pub open spec fn room_hits<K: Key, V: Value, B: Bucket<K, V>>(slots: Seq<B>) -> Seq<bool> {
    Seq::new(slots.len(), |i: int| !at_limit(slots[i].items(), B::limit()))
}

/// Every bucket of the table is well formed.
pub open spec fn all_well_formed<K: Key, V: Value, B: Bucket<K, V>>(slots: Seq<B>) -> bool {
    forall|i: int| 0 <= i < slots.len() ==> well_formed((#[trigger] slots[i]).items(), B::limit())
}

/// Every bucket of the table is empty.
pub open spec fn all_empty<K: Key, V: Value, B: Bucket<K, V>>(slots: Seq<B>) -> bool {
    forall|i: int| 0 <= i < slots.len() ==> (#[trigger] slots[i]).items().len() == 0
}

/// The walk from `start` meets at step `step` the first bucket that `predicate` accepts:
/// it has refused the bucket of every step before.
pub open spec fn probe_stops_at<B, P: Fn(&B) -> bool>(
    slots: Seq<B>,
    start: int,
    step: int,
    predicate: P,
) -> bool {
    &&& 0 <= step < slots.len()
    &&& call_ensures(predicate, (&slots[probe_index(start, slots.len() as int, step)],), true)
    &&& forall|j: int|
        0 <= j < step ==> call_ensures(
            predicate,
            (&#[trigger] slots[probe_index(start, slots.len() as int, j)],),
            false,
        )
}

/// A table of buckets of fixed length, indexed from zero, with the searches
/// that walk it in probe order.
pub trait BucketStore<K: Key, V: Value, B: Bucket<K, V> + 'static>: Sized {
    /// The buckets, slot by slot.
    spec fn slots(&self) -> Seq<B>;

    /// The number of buckets is a machine length.
    proof fn len_fits(&self)
        ensures
            self.slots().len() <= usize::MAX,
    ;

    /// The number of buckets.
    fn len(&self) -> (n: usize)
        ensures
            n == self.slots().len(),
    ;

    /// Whether the store has no bucket.
    fn is_empty(&self) -> (empty: bool)
        ensures
            empty == (self.slots().len() == 0),
    {
        self.len() == 0
    }

    /// The bucket in slot `idx`.
    fn get<'a>(&'a self, idx: usize) -> (bucket: &'a B)
        requires
            idx < self.slots().len(),
        ensures
            *bucket == self.slots()[idx as int],
    ;

    /// The bucket in slot `idx`, open to change: what the caller leaves in it
    /// is what the slot holds afterwards, and no other slot changes.
    fn get_mut(&mut self, idx: usize) -> (bucket: &mut B)
        requires
            idx < old(self).slots().len(),
        ensures
            *bucket == old(self).slots()[idx as int],
            final(self).slots() == old(self).slots().update(idx as int, *final(bucket)),
    ;

    /// Walks the buckets in probe order from `start_idx` and hands out the
    /// first one that `predicate` accepts, or `None` where it refuses them all.
    fn search_bucket<P: Fn(&B) -> bool>(&mut self, start_idx: usize, predicate: P) -> (found:
        Option<&mut B>)
        requires
            start_idx <= old(self).slots().len(),
            forall|i: int|
                0 <= i < old(self).slots().len() ==> call_requires(
                    predicate,
                    (&#[trigger] old(self).slots()[i],),
                ),
        ensures
            match found {
                Some(bucket) => exists|step: int|
                    {
                        &&& #[trigger] probe_stops_at(
                            old(self).slots(),
                            start_idx as int,
                            step,
                            predicate,
                        )
                        &&& *bucket == old(self).slots()[probe_index(
                            start_idx as int,
                            old(self).slots().len() as int,
                            step,
                        )]
                        &&& final(self).slots() == old(self).slots().update(
                            probe_index(start_idx as int, old(self).slots().len() as int, step),
                            *final(bucket),
                        )
                    },
                None => {
                    &&& final(self).slots() == old(self).slots()
                    &&& forall|i: int|
                        0 <= i < old(self).slots().len() ==> call_ensures(
                            predicate,
                            (&#[trigger] old(self).slots()[i],),
                            false,
                        )
                },
            },
    {
        let n = self.len();
        let mut walk = WrappingIndexIterator::new(start_idx, n);
        loop
            invariant
                n == self.slots().len(),
                self.slots() == old(self).slots(),
                walk.origin() == start_idx,
                walk.span() == n,
                start_idx <= n,
                forall|i: int|
                    0 <= i < self.slots().len() ==> call_requires(
                        predicate,
                        (&#[trigger] self.slots()[i],),
                    ),
                forall|j: int|
                    0 <= j < walk.yielded() ==> call_ensures(
                        predicate,
                        (&#[trigger] self.slots()[probe_index(start_idx as int, n as int, j)],),
                        false,
                    ),
            decreases walk.span() - walk.yielded(),
        {
            let ghost step = walk.yielded() as int;
            match walk.next() {
                Some(i) => {
                    assert(i == probe_index(start_idx as int, n as int, step));
                    if predicate(self.get(i)) {
                        assert(probe_stops_at(
                            old(self).slots(),
                            start_idx as int,
                            step,
                            predicate,
                        ));
                        return Some(self.get_mut(i));
                    }
                },
                None => {
                    assert forall|i: int| 0 <= i < old(self).slots().len() implies call_ensures(
                        predicate,
                        (&#[trigger] old(self).slots()[i],),
                        false,
                    ) by {
                        let j = if i >= start_idx {
                            i - start_idx
                        } else {
                            i + n - start_idx
                        };
                        assert(probe_index(start_idx as int, n as int, j) == i);
                    }
                    return None;
                },
            }
        }
    }

    /// Walks the buckets in probe order from `start_idx` and hands out the
    /// entry of the first bucket that holds `key`.
    fn search_entry<'a>(&'a self, start_idx: usize, key: K) -> (found: Option<(K, &'a V)>)
        requires
            start_idx <= self.slots().len(),
            all_well_formed(self.slots()),
        ensures
            match probe_first(key_hits(self.slots(), key), start_idx as int, 0) {
                Some(i) => found == Some((key, &value_of(self.slots()[i].items(), key))),
                None => found.is_none(),
            },
    {
        let n = self.len();
        let ghost hits = key_hits(self.slots(), key);
        let mut walk = WrappingIndexIterator::new(start_idx, n);
        loop
            invariant
                n == self.slots().len(),
                hits == key_hits(self.slots(), key),
                all_well_formed(self.slots()),
                walk.origin() == start_idx,
                walk.span() == n,
                start_idx <= n,
                probe_first(hits, start_idx as int, 0) == probe_first(
                    hits,
                    start_idx as int,
                    walk.yielded() as int,
                ),
            decreases walk.span() - walk.yielded(),
        {
            match walk.next() {
                Some(i) => {
                    if let Some(value) = self.get(i).get(key) {
                        return Some((key, value));
                    }
                },
                None => {
                    return None;
                },
            }
        }
    }

    /// Walks the buckets in probe order from `start_idx` and hands out the
    /// entry of the first bucket that holds `key`, with its value open to
    /// change. What the caller writes becomes the value of that entry;
    /// nothing else in the table changes.
    fn search_entry_mut(&mut self, start_idx: usize, key: K) -> (found: Option<(K, &mut V)>)
        requires
            start_idx <= old(self).slots().len(),
            all_well_formed(old(self).slots()),
        ensures
            final(self).slots().len() == old(self).slots().len(),
            match probe_first(key_hits(old(self).slots(), key), start_idx as int, 0) {
                Some(i) => {
                    &&& found.is_some()
                    &&& found.unwrap().0 == key
                    &&& *found.unwrap().1 == value_of(old(self).slots()[i].items(), key)
                    &&& final(self).slots()[i].items() =~= old(self).slots()[i].items().update(
                        slot_of(old(self).slots()[i].items(), key),
                        (key, *final(found.unwrap().1)),
                    )
                    &&& forall|j: int|
                        0 <= j < old(self).slots().len() && j != i ==> final(self).slots()[j]
                            == old(self).slots()[j]
                },
                None => found.is_none() && final(self).slots() == old(self).slots(),
            },
    {
        let n = self.len();
        let ghost hits = key_hits(self.slots(), key);
        let mut walk = WrappingIndexIterator::new(start_idx, n);
        loop
            invariant
                n == self.slots().len(),
                self.slots() == old(self).slots(),
                hits == key_hits(self.slots(), key),
                all_well_formed(self.slots()),
                walk.origin() == start_idx,
                walk.span() == n,
                start_idx <= n,
                probe_first(hits, start_idx as int, 0) == probe_first(
                    hits,
                    start_idx as int,
                    walk.yielded() as int,
                ),
            decreases walk.span() - walk.yielded(),
        {
            match walk.next() {
                Some(i) => {
                    if self.get(i).get(key).is_some() {
                        return match self.get_mut(i).get_mut(key) {
                            Some(value) => Some((key, value)),
                            None => None,
                        };
                    }
                },
                None => {
                    return None;
                },
            }
        }
    }

    /// The buckets as one slice, open to change: what the caller leaves in
    /// the slice is what the store holds afterwards.
    fn as_mut_slice(&mut self) -> (slice: &mut [B])
        ensures
            slice@ == old(self).slots(),
            final(self).slots() == final(slice)@,
    ;

    /// A store of its own with a duplicate of every bucket.
    fn duplicate(&self) -> (copy: Self)
        ensures
            slots_cloned(self.slots(), copy.slots()),
    ;

    /// Empties every bucket.
    fn clear(&mut self)
        ensures
            final(self).slots().len() == old(self).slots().len(),
            all_empty(final(self).slots()),
    {
        let n = self.len();
        for i in 0..n
            invariant
                n == self.slots().len(),
                forall|j: int| 0 <= j < i ==> (#[trigger] self.slots()[j]).items().len() == 0,
        {
            self.get_mut(i).clear()
        }
    }
}

/// A bucket store that can be built with every bucket empty.
pub trait BucketStoreNew<K: Key, V: Value, B: Bucket<K, V> + 'static>: BucketStore<K, V, B> {
    /// The number of buckets of a store built by `initialized`.
    spec fn default_len() -> nat;

    /// Whether a store of this kind can be built with `cap` buckets: one whose
    /// size is part of its type cannot be given a capacity at run time.
    spec fn accepts_capacity(cap: usize) -> bool;

    /// A store of the default size, every bucket empty.
    fn initialized() -> (store: Self)
        ensures
            store.slots().len() == Self::default_len(),
            all_empty(store.slots()),
    ;

    /// A store of `cap` buckets, every bucket empty.
    fn initialized_with_capacity(cap: usize) -> (store: Self)
        requires
            Self::accepts_capacity(cap),
        ensures
            store.slots().len() == cap,
            all_empty(store.slots()),
    ;
}

} // verus!
