//! The single-slot bucket, for pure linear probing.

use crate::bucket::model::{has_key, lemma_absent, lemma_found_at};
use crate::bucket::Bucket;
use crate::kv::{same_key, Key, Value};
use vstd::prelude::*;

verus! {

/// A bucket of at most one entry. Once it is occupied it is full, and the
/// probe moves on to the next slot of the table.
pub type OptionBucket<K, V> = Option<(K, V)>;

impl<K: Key, V: Value> Bucket<K, V> for OptionBucket<K, V> {
    open spec fn items(&self) -> Seq<(K, V)> {
        match *self {
            Some(entry) => seq![entry],
            None => Seq::empty(),
        }
    }

    open spec fn limit() -> Option<nat> {
        Some(1nat)
    }

    #[inline]
    fn new() -> (bucket: Self) {
        None
    }

    #[inline]
    fn insert(&mut self, key: K, value: V) -> (previous: Option<V>) {
        proof {
            if old(self).is_some() {
                lemma_found_at(old(self).items(), 0);
            } else {
                lemma_absent(old(self).items(), key);
            }
        }
        let mut new_entry = Some((key, value));
        core::mem::swap(self, &mut new_entry);
        proof {
            lemma_found_at(self.items(), 0);
            assert forall|k: K| #[trigger] has_key(self.items(), k) == (k == key) by {
                if k == key {
                    assert(self.items()[0].0 == key);
                }
            }
        }
        match new_entry {
            Some((_, previous)) => Some(previous),
            None => None,
        }
    }

    #[inline]
    fn get<'a>(&'a self, key: K) -> (found: Option<&'a V>) {
        match self {
            Some((k, v)) => {
                if same_key(*k, key) {
                    proof {
                        lemma_found_at(self.items(), 0);
                    }
                    Some(v)
                } else {
                    proof {
                        lemma_absent(self.items(), key);
                    }
                    None
                }
            },
            None => {
                proof {
                    lemma_absent(self.items(), key);
                }
                None
            },
        }
    }

    #[inline]
    fn get_mut(&mut self, key: K) -> (found: Option<&mut V>) {
        proof {
            if old(self).is_some() && old(self).unwrap().0 == key {
                lemma_found_at(old(self).items(), 0);
            } else {
                lemma_absent(old(self).items(), key);
            }
        }
        match self {
            Some((k, v)) => {
                if same_key(*k, key) {
                    Some(v)
                } else {
                    None
                }
            },
            None => None,
        }
    }

    fn remove_entry(&mut self, key: K) -> (removed: Option<(K, V)>) {
        proof {
            if old(self).is_some() && old(self).unwrap().0 == key {
                lemma_found_at(old(self).items(), 0);
            } else {
                lemma_absent(old(self).items(), key);
            }
        }
        let holds = match &*self {
            Some((k, _)) => same_key(*k, key),
            None => false,
        };
        if holds {
            self.take()
        } else {
            None
        }
    }

    #[inline]
    fn len(&self) -> (n: usize) {
        match self {
            Some(_) => 1,
            None => 0,
        }
    }

    #[inline]
    fn clear(&mut self) {
        *self = None;
    }

    #[inline]
    fn reached_max_capacity(&self) -> (full: bool) {
        self.is_some()
    }

    #[inline]
    fn entry(&self, idx: usize) -> (entry: &(K, V)) {
        self.as_ref().unwrap()
    }

    fn entries_mut(&mut self) -> (entries: Vec<&mut (K, V)>) {
        let mut entries: Vec<&mut (K, V)> = Vec::new();
        match self {
            Some(entry) => {
                entries.push(entry);
            },
            None => {},
        }
        entries
    }

    fn duplicate(&self) -> (copy: Self) {
        match self {
            Some((key, value)) => Some((*key, value.clone())),
            None => None,
        }
    }

    fn into_entries(self) -> (entries: Vec<(K, V)>) {
        let mut entries: Vec<(K, V)> = Vec::new();
        match self {
            Some(entry) => {
                entries.push(entry);
            },
            None => {},
        }
        assert(entries@ =~= self.items());
        entries
    }
}

} // verus!
