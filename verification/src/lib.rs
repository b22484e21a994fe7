//! An associative container for primitive integer keys, assembled from three
//! interchangeable policies: a hasher that turns a key into a table address,
//! a bucket that holds the entries sharing one address, and a bucket store
//! that lays the table of buckets out in memory.
//!
//! A key is looked up by walking the table from its address in probe order,
//! wrapping around at the end, until a bucket that holds the key is met.
//! An insert walks the same way to the first bucket that has not reached its
//! bound. The table never grows: an insert that finds every bucket full fails.
//!
//! The contracts speak of a map in two ways. `slots` is the table itself,
//! bucket by bucket, and `inserted`, `removed` and `rewritten` say what an
//! operation does to it. The view `@` is the finite map that lookups see.
//! The module `laws` relates the two across several operations.

pub mod bucket;
pub mod hash;
pub mod kv;
pub mod laws;

pub use crate::bucket::{
    Bucket, BucketStore, BucketStoreNew, OptionBucket, SmallVecBucket1, SmallVecBucket2,
    SmallVecBucket4, VecBucket,
};
pub use crate::hash::{DefaultHasher, Hasher};
pub use crate::kv::{Key, Value};

use crate::bucket::helpers::{
    lemma_probe_first_all, lemma_probe_first_at, lemma_probe_first_found, probe_first,
    probe_index,
};
use crate::bucket::iteration::{
    all_entries, each_entry_mut, each_mut, each_value_mut, entries_through, entry_offset,
    lemma_entry_position, lemma_targets_push, targets,
};
use crate::bucket::model::{
    at_limit, entries_of, has_key, lemma_cloned_items, lemma_set_value, lookup, slot_of,
    value_of, well_formed,
};
use crate::bucket::{all_empty, all_well_formed, key_hits, probe_stops_at, room_hits, slots_cloned};
use crate::laws::{
    law_failed_insert_changes_nothing, law_insert_keeps_other_keys, law_insert_new_key,
    law_remove_keeps_other_keys, law_rewrite_sets_value,
};
use core::marker::PhantomData;
use vstd::prelude::*;

verus! {

/// Why an insert did not take place.
#[derive(Debug, Clone, Copy, PartialEq, Eq)]
pub enum InsertError {
    /// The walk over the table met no bucket with room for another entry.
    CapacityExhausted,
}

/// A map from primitive integer keys to values, laid out as a table of
/// buckets of fixed length.
pub struct PrimitiveMap<
    K: Key,
    V: Value,
    B: Bucket<K, V> + 'static = SmallVecBucket4<K, V>,
    BL: BucketStore<K, V, B> = Vec<B>,
    H: Hasher<K> = DefaultHasher<K>,
> {
    buckets: BL,
    _marker: PhantomData<(K, V, H, B)>,
}

/// `Vec`-based map with buckets that set room for four entries aside.
/// The balanced default.
pub type VecPrimitiveMap<K, V> = PrimitiveMap<
    K,
    V,
    SmallVecBucket4<K, V>,
    Vec<SmallVecBucket4<K, V>>,
    DefaultHasher<K>,
>;

/// Array-based map with buckets that set room for one entry aside.
/// The table lies in place; the buckets may reach onto the heap.
pub type ArrayPrimitiveMap<K, V, A> = PrimitiveMap<
    K,
    V,
    SmallVecBucket1<K, V>,
    A,
    DefaultHasher<K>,
>;

/// Linear-probing map: every bucket is a single slot.
/// Useful in embedded environments and where the table has to lie in place.
pub type LinearPrimitiveMap<K, V, A> = PrimitiveMap<
    K,
    V,
    OptionBucket<K, V>,
    A,
    DefaultHasher<K>,
>;

impl<K, V, B, BL, H> Clone for PrimitiveMap<K, V, B, BL, H> where
    K: Key,
    V: Value,
    B: Bucket<K, V> + 'static,
    BL: BucketStore<K, V, B>,
    H: Hasher<K>,
 {
    /// A map of its own over a copy of the whole table: bucket by bucket the
    /// same keys in the same order, each with a clone of its value. Nothing
    /// is shared between the two, so a change to either is no change to the other.
    fn clone(&self) -> (copy: Self)
        ensures
            slots_cloned(self.slots(), copy.slots()),
            self.wf() ==> copy.wf(),
    {
        let copy = PrimitiveMap { buckets: self.buckets.duplicate(), _marker: PhantomData };
        proof {
            if self.wf() {
                assert forall|i: int| 0 <= i < copy.slots().len() implies well_formed(
                    (#[trigger] copy.slots()[i]).items(),
                    B::limit(),
                ) by {
                    lemma_cloned_items(
                        self.slots()[i].items(),
                        copy.slots()[i].items(),
                        B::limit(),
                    );
                }
            }
        }
        copy
    }
}

impl<K, V, B, BL, H> View for PrimitiveMap<K, V, B, BL, H> where
    K: Key,
    V: Value,
    B: Bucket<K, V> + 'static,
    BL: BucketStore<K, V, B>,
    H: Hasher<K>,
 {
    type V = Map<K, V>;

    /// The map that lookups see: a key is present where some bucket holds it,
    /// and its value is the one in the first such bucket on the walk from the
    /// key's address.
    open spec fn view(&self) -> Map<K, V> {
        Map::new(
            |key: K| self.holder(key).is_some(),
            |key: K| value_of(self.slots()[self.holder(key).unwrap()].items(), key),
        )
    }
}

impl<K, V, B, BL, H> PrimitiveMap<K, V, B, BL, H> where
    K: Key,
    V: Value,
    B: Bucket<K, V> + 'static,
    BL: BucketStore<K, V, B>,
    H: Hasher<K>,
 {
    /// The buckets of the table, slot by slot.
    pub closed spec fn slots(&self) -> Seq<B> {
        self.buckets.slots()
    }

    /// The table has at least one bucket, and every bucket is well formed.
    pub open spec fn wf(&self) -> bool {
        &&& 0 < self.slots().len() <= usize::MAX
        &&& all_well_formed(self.slots())
    }

    /// The address of `key`: the slot at which the walk for it begins.
    pub open spec fn home(&self, key: K) -> int {
        H::compress_spec(H::hash_spec(key), self.slots().len() as usize) as int
    }

    /// The slot whose bucket answers for `key`: the first on the walk from the
    /// key's address that holds it.
    pub open spec fn holder(&self, key: K) -> Option<int> {
        probe_first(key_hits(self.slots(), key), self.home(key), 0)
    }

    /// The slot whose bucket takes an insert of `key`: the first on the walk
    /// from the key's address that has not reached its bound.
    pub open spec fn vacancy(&self, key: K) -> Option<int> {
        probe_first(room_hits(self.slots()), self.home(key), 0)
    }

    /// What `insert` does to the table: the bucket at the vacancy takes the
    /// entry, as its last where the key is new to that bucket, and in place
    /// of the entry with the same key otherwise; every other bucket stays
    /// as it is. Without a vacancy nothing changes.
    pub open spec fn inserted(
        self,
        key: K,
        value: V,
        after: Self,
        outcome: Result<Option<V>, InsertError>,
    ) -> bool {
        match self.vacancy(key) {
            Some(i) => {
                &&& outcome == Ok::<Option<V>, InsertError>(lookup(self.slots()[i].items(), key))
                &&& after.slots().len() == self.slots().len()
                &&& well_formed(after.slots()[i].items(), B::limit())
                &&& entries_of(after.slots()[i].items()) == entries_of(
                    self.slots()[i].items(),
                ).insert(key, value)
                &&& after.slots()[i].items().len() == self.slots()[i].items().len() + (if has_key(
                    self.slots()[i].items(),
                    key,
                ) {
                    0int
                } else {
                    1int
                })
                &&& !has_key(self.slots()[i].items(), key) ==> after.slots()[i].items()
                    == self.slots()[i].items().push((key, value))
                &&& forall|j: int|
                    0 <= j < self.slots().len() && j != i ==> after.slots()[j] == self.slots()[j]
            },
            None => {
                &&& outcome == Err::<Option<V>, InsertError>(InsertError::CapacityExhausted)
                &&& after.slots() == self.slots()
            },
        }
    }

    /// What writing `value` through a reference handed out for `key` does to
    /// the table: the entry under `key` in its holder takes the value, and
    /// nothing else changes.
    pub open spec fn rewritten(self, key: K, value: V, after: Self) -> bool {
        match self.holder(key) {
            Some(i) => {
                &&& after.slots().len() == self.slots().len()
                &&& after.slots()[i].items() == self.slots()[i].items().update(
                    slot_of(self.slots()[i].items(), key),
                    (key, value),
                )
                &&& forall|j: int|
                    0 <= j < self.slots().len() && j != i ==> after.slots()[j] == self.slots()[j]
            },
            None => after.slots() == self.slots(),
        }
    }

    /// What `remove` does to the table: the holder of `key` gives up its entry
    /// under `key`; every other bucket stays as it is. Without a holder
    /// nothing changes.
    pub open spec fn removed(self, key: K, after: Self, outcome: Option<V>) -> bool {
        match self.holder(key) {
            Some(i) => {
                &&& outcome == Some(value_of(self.slots()[i].items(), key))
                &&& after.slots().len() == self.slots().len()
                &&& well_formed(after.slots()[i].items(), B::limit())
                &&& entries_of(after.slots()[i].items()) == entries_of(
                    self.slots()[i].items(),
                ).remove(key)
                &&& after.slots()[i].items().len() == self.slots()[i].items().len() - 1
                &&& forall|j: int|
                    0 <= j < self.slots().len() && j != i ==> after.slots()[j] == self.slots()[j]
            },
            None => outcome.is_none() && after.slots() == self.slots(),
        }
    }

    /// The address of a key, its holder and its vacancy are slots of the table;
    /// the holder holds the key, and the vacancy has room.
    pub proof fn lemma_slots_in_range(self, key: K)
        requires
            self.wf(),
        ensures
            0 <= self.home(key) < self.slots().len(),
            self.holder(key) matches Some(i) ==> 0 <= i < self.slots().len() && has_key(
                self.slots()[i].items(),
                key,
            ),
            self.vacancy(key) matches Some(i) ==> 0 <= i < self.slots().len() && !at_limit(
                self.slots()[i].items(),
                B::limit(),
            ),
    {
        H::compress_in_range(H::hash_spec(key), self.slots().len() as usize);
        if self.holder(key).is_some() {
            let step = lemma_probe_first_found(key_hits(self.slots(), key), self.home(key), 0);
        }
        if self.vacancy(key).is_some() {
            let step = lemma_probe_first_found(room_hits(self.slots()), self.home(key), 0);
        }
    }

    /// A table of empty buckets holds no key.
    pub proof fn lemma_empty_view(self)
        requires
            self.wf(),
            all_empty(self.slots()),
        ensures
            self@ =~= Map::<K, V>::empty(),
    {
        assert forall|key: K| !self@.contains_key(key) by {
            H::compress_in_range(H::hash_spec(key), self.slots().len() as usize);
            assert forall|i: int| 0 <= i < self.slots().len() implies !#[trigger] key_hits(
                self.slots(),
                key,
            )[i] by {
                assert(self.slots()[i].items().len() == 0);
            }
            lemma_probe_first_all(key_hits(self.slots(), key), self.home(key));
        }
    }

    /// A map over the table `buckets`, with the hasher `H`. The hasher has
    /// no state: the value only names the type.
    pub fn custom(buckets: BL, _hasher: H) -> (map: Self)
        requires
            buckets.slots().len() > 0,
            all_well_formed(buckets.slots()),
        ensures
            map.slots() == buckets.slots(),
            map.wf(),
    {
        proof {
            buckets.len_fits();
        }
        PrimitiveMap { buckets, _marker: PhantomData }
    }

    /// Stores `value` under `key` in the first bucket with room on the walk
    /// from the key's address, and hands back the value that this bucket held
    /// under the key before. Fails, and changes nothing, where every bucket
    /// has reached its bound.
    ///
    /// A bucket that has reached its bound is passed by even where it holds
    /// the key. In a table of single-slot buckets a key that is inserted a
    /// second time therefore comes to lie in a second bucket, and lookups go
    /// on seeing the first; with buckets that have no bound the second insert
    /// overwrites.
    pub fn insert(&mut self, key: K, value: V) -> (outcome: Result<Option<V>, InsertError>)
        requires
            old(self).wf(),
        ensures
            final(self).wf(),
            old(self).inserted(key, value, *final(self), outcome),
            outcome.is_ok() == old(self).vacancy(key).is_some(),
            outcome.is_err() ==> final(self)@ == old(self)@,
            outcome.is_ok() && !old(self)@.contains_key(key) ==> final(self)@ == old(self)@.insert(
                key,
                value,
            ),
            forall|other: K|
                other != key ==> (#[trigger] final(self)@.contains_key(other)) == old(
                    self,
                )@.contains_key(other),
            forall|other: K|
                other != key && old(self)@.contains_key(other) ==> #[trigger] final(self)@[other]
                    == old(self)@[other],
    {
        let addr = self.get_addr(key);
        let ghost before = self.buckets.slots();
        let ghost n = before.len() as int;
        let has_room = |bucket: &B| -> (open: bool)
            ensures
                open == !at_limit(bucket.items(), B::limit()),
            { !bucket.reached_max_capacity() };
        let outcome = match self.buckets.search_bucket(addr, has_room) {
            Some(bucket) => {
                proof {
                    let step = choose|step: int|
                        {
                            &&& #[trigger] probe_stops_at(before, addr as int, step, has_room)
                            &&& *bucket == before[probe_index(addr as int, n, step)]
                        };
                    assert forall|j: int| 0 <= j < step implies !#[trigger] room_hits(
                        before,
                    )[probe_index(addr as int, n, j)] by {
                        assert(call_ensures(
                            has_room,
                            (&before[probe_index(addr as int, n, j)],),
                            false,
                        ));
                    }
                    lemma_probe_first_at(room_hits(before), addr as int, 0, step);
                }
                Ok(bucket.insert(key, value))
            },
            None => {
                proof {
                    lemma_probe_first_all(room_hits(before), addr as int);
                }
                Err(InsertError::CapacityExhausted)
            },
        };
        proof {
            assert(old(self).inserted(key, value, *self, outcome));
            if outcome.is_err() {
                law_failed_insert_changes_nothing(*old(self), key, value, *self, outcome);
            } else if !old(self)@.contains_key(key) {
                law_insert_new_key(*old(self), key, value, *self, outcome);
            }
            assert forall|other: K| other != key implies (#[trigger] self@.contains_key(other))
                == old(self)@.contains_key(other) by {
                law_insert_keeps_other_keys(*old(self), key, value, *self, outcome, other);
            }
            assert forall|other: K|
                other != key && old(self)@.contains_key(other) implies #[trigger] self@[other]
                == old(self)@[other] by {
                law_insert_keeps_other_keys(*old(self), key, value, *self, outcome, other);
            }
        }
        outcome
    }

    /// The value that lookups see under `key`.
    #[inline]
    pub fn get(&self, key: K) -> (found: Option<&V>)
        requires
            self.wf(),
        ensures
            found == (if self@.contains_key(key) {
                Some(&self@[key])
            } else {
                None
            }),
    {
        match self.get_key_value(key) {
            Some((_, value)) => Some(value),
            None => None,
        }
    }

    /// The value that lookups see under `key`, open to change. What the
    /// caller writes through the reference becomes the value of that entry;
    /// nothing else in the table changes.
    #[inline]
    pub fn get_mut(&mut self, key: K) -> (found: Option<&mut V>)
        requires
            old(self).wf(),
        ensures
            final(self).wf(),
            found.is_some() == old(self)@.contains_key(key),
            match found {
                Some(value) => {
                    &&& *value == old(self)@[key]
                    &&& old(self).rewritten(key, *final(value), *final(self))
                    &&& final(self)@ == old(self)@.insert(key, *final(value))
                },
                None => final(self).slots() == old(self).slots(),
            },
    {
        match self.get_key_value_mut(key) {
            Some((_, value)) => Some(value),
            None => None,
        }
    }

    /// The key `key` with the value that lookups see under it.
    #[inline]
    pub fn get_key_value(&self, key: K) -> (found: Option<(K, &V)>)
        requires
            self.wf(),
        ensures
            found == (if self@.contains_key(key) {
                Some((key, &self@[key]))
            } else {
                None
            }),
    {
        let addr = self.get_addr(key);
        self.buckets.search_entry(addr, key)
    }

    /// The key `key` with the value that lookups see under it, open to change.
    #[inline]
    pub fn get_key_value_mut(&mut self, key: K) -> (found: Option<(K, &mut V)>)
        requires
            old(self).wf(),
        ensures
            final(self).wf(),
            found.is_some() == old(self)@.contains_key(key),
            match found {
                Some(entry) => {
                    &&& entry.0 == key
                    &&& *entry.1 == old(self)@[key]
                    &&& old(self).rewritten(key, *final(entry.1), *final(self))
                    &&& final(self)@ == old(self)@.insert(key, *final(entry.1))
                },
                None => final(self).slots() == old(self).slots(),
            },
    {
        let addr = self.get_addr(key);
        proof {
            let hits = key_hits(self.slots(), key);
            if probe_first(hits, addr as int, 0).is_some() {
                let step = lemma_probe_first_found(hits, addr as int, 0);
                let i = probe_index(addr as int, hits.len() as int, step);
                let items = self.slots()[i].items();
                assert(has_key(items, key));
                let at = slot_of(items, key);
                // Whatever value the caller writes, the bucket stays well
                // formed and lookups see that value under the key.
                assert forall|value: V| #[trigger]
                    well_formed(items.update(at, (key, value)), B::limit()) by {
                    lemma_set_value(items, at, value);
                }
            }
            if self@.contains_key(key) {
                assert forall|value: V, after: Self| #[trigger]
                    self.rewritten(key, value, after) implies after@ == self@.insert(
                    key,
                    value,
                ) by {
                    law_rewrite_sets_value(*self, key, value, after);
                }
            }
        }
        self.buckets.search_entry_mut(addr, key)
    }

    /// Takes the entry under `key` out of its holder and hands its value back.
    #[inline]
    pub fn remove(&mut self, key: K) -> (outcome: Option<V>)
        requires
            old(self).wf(),
        ensures
            final(self).wf(),
            old(self).removed(key, *final(self), outcome),
            outcome == (if old(self)@.contains_key(key) {
                Some(old(self)@[key])
            } else {
                None
            }),
            forall|other: K|
                other != key ==> (#[trigger] final(self)@.contains_key(other)) == old(
                    self,
                )@.contains_key(other),
            forall|other: K|
                other != key && old(self)@.contains_key(other) ==> #[trigger] final(self)@[other]
                    == old(self)@[other],
    {
        proof {
            self.lemma_slots_in_range(key);
        }
        let outcome = match self.get_bucket(key) {
            Some(bucket) => bucket.remove(key),
            None => None,
        };
        proof {
            assert(old(self).removed(key, *self, outcome));
            assert forall|other: K| other != key implies (#[trigger] self@.contains_key(other))
                == old(self)@.contains_key(other) by {
                law_remove_keeps_other_keys(*old(self), key, *self, outcome, other);
            }
            assert forall|other: K|
                other != key && old(self)@.contains_key(other) implies #[trigger] self@[other]
                == old(self)@[other] by {
                law_remove_keeps_other_keys(*old(self), key, *self, outcome, other);
            }
        }
        outcome
    }

    /// Takes the entry under `key` out of its holder and hands it back.
    #[inline]
    pub fn remove_entry(&mut self, key: K) -> (outcome: Option<(K, V)>)
        requires
            old(self).wf(),
        ensures
            final(self).wf(),
            outcome.is_some() == old(self)@.contains_key(key),
            outcome.is_some() ==> outcome.unwrap().0 == key,
            old(self).removed(
                key,
                *final(self),
                match outcome {
                    Some(entry) => Some(entry.1),
                    None => None,
                },
            ),
            outcome == (if old(self)@.contains_key(key) {
                Some((key, old(self)@[key]))
            } else {
                None
            }),
            forall|other: K|
                other != key ==> (#[trigger] final(self)@.contains_key(other)) == old(
                    self,
                )@.contains_key(other),
            forall|other: K|
                other != key && old(self)@.contains_key(other) ==> #[trigger] final(self)@[other]
                    == old(self)@[other],
    {
        proof {
            self.lemma_slots_in_range(key);
        }
        let outcome = match self.get_bucket(key) {
            Some(bucket) => bucket.remove_entry(key),
            None => None,
        };
        proof {
            let value = if outcome.is_some() {
                Some(outcome.unwrap().1)
            } else {
                None
            };
            assert(old(self).removed(key, *self, value));
            assert forall|other: K| other != key implies (#[trigger] self@.contains_key(other))
                == old(self)@.contains_key(other) by {
                law_remove_keeps_other_keys(*old(self), key, *self, value, other);
            }
            assert forall|other: K|
                other != key && old(self)@.contains_key(other) implies #[trigger] self@[other]
                == old(self)@[other] by {
                law_remove_keeps_other_keys(*old(self), key, *self, value, other);
            }
        }
        outcome
    }

    /// Whether lookups see a value under `key`.
    #[inline]
    pub fn contains_key(&self, key: K) -> (present: bool)
        requires
            self.wf(),
        ensures
            present == self@.contains_key(key),
    {
        self.get(key).is_some()
    }

    /// The number of buckets of the table. It is fixed when the map is built
    /// and says nothing of how many entries the buckets hold.
    #[inline]
    pub fn len(&self) -> (n: usize)
        ensures
            n == self.slots().len(),
    {
        self.buckets.len()
    }

    /// Whether the table has no bucket at all.
    #[inline]
    pub fn is_empty(&self) -> (empty: bool)
        ensures
            empty == (self.slots().len() == 0),
    {
        self.buckets.is_empty()
    }

    /// Drops every entry; the table keeps its buckets.
    #[inline]
    pub fn clear(&mut self)
        requires
            old(self).wf(),
        ensures
            final(self).wf(),
            final(self).slots().len() == old(self).slots().len(),
            all_empty(final(self).slots()),
            final(self)@ == Map::<K, V>::empty(),
    {
        self.buckets.clear();
        proof {
            assert forall|i: int| 0 <= i < self.slots().len() implies well_formed(
                (#[trigger] self.slots()[i]).items(),
                B::limit(),
            ) by {
                assert(self.slots()[i].items().len() == 0);
            }
            self.lemma_empty_view();
        }
    }

    /// The holder of `key`, open to change.
    #[inline]
    fn get_bucket(&mut self, key: K) -> (found: Option<&mut B>)
        requires
            old(self).wf(),
        ensures
            match old(self).holder(key) {
                Some(i) => {
                    &&& found.is_some()
                    &&& *found.unwrap() == old(self).slots()[i]
                    &&& final(self).slots() == old(self).slots().update(i, *final(found.unwrap()))
                },
                None => found.is_none() && final(self).slots() == old(self).slots(),
            },
    {
        let addr = self.get_addr(key);
        let ghost before = self.buckets.slots();
        let ghost n = before.len() as int;
        let holds_key = |bucket: &B| -> (holds: bool)
            requires
                well_formed(bucket.items(), B::limit()),
            ensures
                holds == has_key(bucket.items(), key),
            { bucket.get(key).is_some() };
        let found = self.buckets.search_bucket(addr, holds_key);
        proof {
            match found {
                Some(_) => {
                    let step = choose|step: int|
                        {
                            &&& #[trigger] probe_stops_at(before, addr as int, step, holds_key)
                            &&& *found.unwrap() == before[probe_index(addr as int, n, step)]
                        };
                    assert forall|j: int| 0 <= j < step implies !#[trigger] key_hits(
                        before,
                        key,
                    )[probe_index(addr as int, n, j)] by {
                        assert(call_ensures(
                            holds_key,
                            (&before[probe_index(addr as int, n, j)],),
                            false,
                        ));
                    }
                    lemma_probe_first_at(key_hits(before, key), addr as int, 0, step);
                },
                None => {
                    lemma_probe_first_all(key_hits(before, key), addr as int);
                },
            }
        }
        found
    }

    /// The address of `key` in the table.
    #[inline]
    fn get_addr(&self, key: K) -> (addr: usize)
        requires
            self.wf(),
        ensures
            addr == self.home(key),
            addr < self.slots().len(),
    {
        let hash = H::hash(key);
        H::compress(hash, self.buckets.len())
    }
}

impl<K, V, B, BL, H> PrimitiveMap<K, V, B, BL, H> where
    K: Key,
    V: Value,
    B: Bucket<K, V> + 'static,
    BL: BucketStore<K, V, B>,
    H: Hasher<K>,
 {
    /// The buckets of the table, in slot order.
    pub fn buckets(&self) -> (buckets: Vec<&B>)
        ensures
            targets(buckets@) == self.slots(),
    {
        let n = self.buckets.len();
        let mut buckets: Vec<&B> = Vec::with_capacity(n);
        for i in 0..n
            invariant
                n == self.buckets.slots().len(),
                targets(buckets@) == self.buckets.slots().take(i as int),
        {
            let bucket = self.buckets.get(i);
            proof {
                lemma_targets_push(buckets@, bucket);
            }
            buckets.push(bucket);
            assert(targets(buckets@) =~= self.buckets.slots().take(i + 1));
        }
        assert(self.buckets.slots().take(n as int) =~= self.buckets.slots());
        buckets
    }

    /// The keys of all entries, in the order of `iter`.
    pub fn keys(&self) -> (keys: Vec<K>)
        ensures
            keys@ == all_entries(self.slots()).map_values(|entry: (K, V)| entry.0),
    {
        let entries = self.iter();
        let n = entries.len();
        let mut keys: Vec<K> = Vec::with_capacity(n);
        for i in 0..n
            invariant
                n == entries@.len(),
                targets(entries@) == all_entries(self.slots()),
                keys@ == all_entries(self.slots()).map_values(|entry: (K, V)| entry.0).take(
                    i as int,
                ),
        {
            keys.push(entries[i].0);
            assert(keys@ =~= all_entries(self.slots()).map_values(|entry: (K, V)| entry.0).take(
                i + 1,
            )) by {
                assert(targets(entries@)[i as int] == *entries@[i as int]);
            }
        }
        assert(keys@ =~= all_entries(self.slots()).map_values(|entry: (K, V)| entry.0));
        keys
    }

    /// All entries: bucket after bucket in slot order, each bucket in its own order.
    pub fn iter(&self) -> (entries: Vec<&(K, V)>)
        ensures
            targets(entries@) == all_entries(self.slots()),
    {
        let n = self.buckets.len();
        let mut entries: Vec<&(K, V)> = Vec::new();
        for i in 0..n
            invariant
                n == self.buckets.slots().len(),
                targets(entries@) == entries_through(self.buckets.slots(), i as int),
        {
            let bucket = self.buckets.get(i);
            let m = bucket.len();
            for j in 0..m
                invariant
                    i < n,
                    n == self.buckets.slots().len(),
                    *bucket == self.buckets.slots()[i as int],
                    m == bucket.items().len(),
                    targets(entries@) == entries_through(self.buckets.slots(), i as int)
                        + bucket.items().take(j as int),
            {
                let entry = bucket.entry(j);
                proof {
                    lemma_targets_push(entries@, entry);
                }
                entries.push(entry);
                assert(targets(entries@) =~= entries_through(self.buckets.slots(), i as int)
                    + bucket.items().take(j + 1));
            }
            assert(bucket.items().take(m as int) =~= bucket.items());
        }
        entries
    }

    /// The values of all entries, in the order of `iter`.
    pub fn values(&self) -> (values: Vec<&V>)
        ensures
            targets(values@) == all_entries(self.slots()).map_values(|entry: (K, V)| entry.1),
    {
        let entries = self.iter();
        let n = entries.len();
        let mut values: Vec<&V> = Vec::with_capacity(n);
        for i in 0..n
            invariant
                n == entries@.len(),
                targets(entries@) == all_entries(self.slots()),
                targets(values@) == all_entries(self.slots()).map_values(
                    |entry: (K, V)| entry.1,
                ).take(i as int),
        {
            let value = &entries[i].1;
            proof {
                lemma_targets_push(values@, value);
                assert(targets(entries@)[i as int] == *entries@[i as int]);
            }
            values.push(value);
            assert(targets(values@) =~= all_entries(self.slots()).map_values(
                |entry: (K, V)| entry.1,
            ).take(i + 1));
        }
        assert(targets(values@) =~= all_entries(self.slots()).map_values(
            |entry: (K, V)| entry.1,
        ));
        values
    }

    /// The buckets of the table, each open to change, in slot order. What
    /// the caller leaves in them is what the table holds afterwards; a caller
    /// that changes entries answers for the well-formedness of the buckets.
    pub fn buckets_mut(&mut self) -> (buckets: Vec<&mut B>)
        ensures
            buckets@.len() == old(self).slots().len(),
            forall|i: int|
                0 <= i < buckets@.len() ==> *#[trigger] buckets@[i] == old(self).slots()[i],
            final(self).slots().len() == old(self).slots().len(),
            forall|i: int|
                0 <= i < buckets@.len() ==> #[trigger] final(self).slots()[i] == *final(
                    buckets@[i]
                ),
    {
        each_mut(self.buckets.as_mut_slice())
    }

    /// All entries, each open to change, in the order of `iter`. What the
    /// caller leaves in them is what the buckets hold afterwards, position by
    /// position; a caller that changes keys answers for the well-formedness
    /// of the buckets and for where lookups then find the entries.
    pub fn iter_mut(&mut self) -> (entries: Vec<&mut (K, V)>)
        ensures
            entries@.len() == all_entries(old(self).slots()).len(),
            forall|k: int|
                0 <= k < entries@.len() ==> *#[trigger] entries@[k] == all_entries(
                    old(self).slots(),
                )[k],
            final(self).slots().len() == old(self).slots().len(),
            forall|i: int|
                0 <= i < old(self).slots().len() ==> (#[trigger] final(
                    self
                ).slots()[i]).items().len() == old(self).slots()[i].items().len(),
            forall|i: int, j: int|
                0 <= i < old(self).slots().len() && 0 <= j < old(self).slots()[i].items().len()
                    ==> #[trigger] final(self).slots()[i].items()[j] == *final(
                    entries@[entry_offset(old(self).slots(), i) + j]
                ),
    {
        each_entry_mut(self.buckets.as_mut_slice())
    }

    /// The values of all entries, each open to change, in the order of
    /// `iter`. The keys stay as they are; what the caller leaves in the
    /// references are the values of the entries afterwards.
    pub fn values_mut(&mut self) -> (values: Vec<&mut V>)
        ensures
            values@.len() == all_entries(old(self).slots()).len(),
            forall|k: int|
                0 <= k < values@.len() ==> *#[trigger] values@[k] == all_entries(
                    old(self).slots(),
                )[k].1,
            final(self).slots().len() == old(self).slots().len(),
            forall|i: int|
                0 <= i < old(self).slots().len() ==> (#[trigger] final(
                    self
                ).slots()[i]).items().len() == old(self).slots()[i].items().len(),
            forall|i: int, j: int|
                0 <= i < old(self).slots().len() && 0 <= j < old(self).slots()[i].items().len()
                    ==> #[trigger] final(self).slots()[i].items()[j] == (
                    old(self).slots()[i].items()[j].0,
                    *final(values@[entry_offset(old(self).slots(), i) + j]),
                ),
            old(self).wf() ==> final(self).wf(),
    {
        proof {
            let slots = self.slots();
            assert forall|i: int, j: int|
                0 <= i < slots.len() && 0 <= j < slots[i].items().len() implies 0 <= entry_offset(
                slots,
                i,
            ) + j < all_entries(slots).len() && all_entries(slots)[#[trigger] (entry_offset(
                slots,
                i,
            ) + j)] == slots[i].items()[j] by {
                lemma_entry_position(slots, slots.len() as int, i, j);
            }
        }
        each_value_mut(self.iter_mut())
    }

    /// Gives the map up for its entries, in the order of `iter`.
    pub fn into_iter(self) -> (entries: Vec<(K, V)>)
        ensures
            entries@ == all_entries(self.slots()),
    {
        let mut store = self.buckets;
        let n = store.len();
        let mut entries: Vec<(K, V)> = Vec::new();
        for i in 0..n
            invariant
                n == self.buckets.slots().len(),
                store.slots().len() == n,
                forall|j: int| i <= j < n ==> store.slots()[j] == self.buckets.slots()[j],
                entries@ == entries_through(self.buckets.slots(), i as int),
        {
            let mut bucket = B::new();
            core::mem::swap(&mut bucket, store.get_mut(i));
            let mut taken = bucket.into_entries();
            entries.append(&mut taken);
        }
        entries
    }
}

impl<K, V, B, BL, H> PrimitiveMap<K, V, B, BL, H> where
    K: Key,
    V: Value,
    B: Bucket<K, V> + 'static,
    BL: BucketStore<K, V, B> + BucketStoreNew<K, V, B>,
    H: Hasher<K>,
 {
    /// A map over a table of the store's default size, without entries.
    pub fn new() -> (map: Self)
        requires
            BL::default_len() > 0,
        ensures
            map.wf(),
            map.slots().len() == BL::default_len(),
            all_empty(map.slots()),
            map@ == Map::<K, V>::empty(),
    {
        let map = PrimitiveMap::custom(BL::initialized(), H::default());
        proof {
            map.lemma_empty_view();
        }
        map
    }

    /// A map over a table of `cap` buckets, without entries.
    pub fn with_capacity(cap: usize) -> (map: Self)
        requires
            cap > 0,
            BL::accepts_capacity(cap),
        ensures
            map.wf(),
            map.slots().len() == cap,
            all_empty(map.slots()),
            map@ == Map::<K, V>::empty(),
    {
        let map = PrimitiveMap::custom(BL::initialized_with_capacity(cap), H::default());
        proof {
            map.lemma_empty_view();
        }
        map
    }
}

impl<K, V, B, BL> PrimitiveMap<K, V, B, BL> where
    K: Key,
    V: Value,
    B: Bucket<K, V> + 'static,
    BL: BucketStore<K, V, B>,
    DefaultHasher<K>: Hasher<K>,
 {
    /// A map over the table `buckets`, with the default hasher.
    pub fn with_buckets(buckets: BL) -> (map: Self)
        requires
            buckets.slots().len() > 0,
            all_well_formed(buckets.slots()),
        ensures
            map.slots() == buckets.slots(),
            map.wf(),
    {
        PrimitiveMap::custom(buckets, DefaultHasher::new())
    }
}

} // verus!
