//! The heap-allocated store, whose number of buckets is chosen when it is built.

use crate::bucket::{
    all_empty, slots_cloned, Bucket, BucketStore, BucketStoreNew, DEFAULT_BUCKETS_COUNT,
};
use crate::kv::{Key, Value};
use vstd::prelude::*;

verus! {

impl<K, V, B> BucketStore<K, V, B> for Vec<B> where K: Key, V: Value, B: Bucket<K, V> + 'static {
    open spec fn slots(&self) -> Seq<B> {
        self@
    }

    proof fn len_fits(&self) {
        vstd::std_specs::vec::axiom_spec_len(self);
    }

    #[inline]
    fn len(&self) -> (n: usize) {
        Vec::len(self)
    }

    #[inline]
    fn get<'a>(&'a self, idx: usize) -> (bucket: &'a B) {
        &self[idx]
    }

    #[inline]
    fn get_mut(&mut self, idx: usize) -> (bucket: &mut B) {
        &mut self[idx]
    }

    #[inline]
    fn as_mut_slice(&mut self) -> (slice: &mut [B]) {
        Vec::as_mut_slice(self)
    }

    fn duplicate(&self) -> (copy: Self) {
        let n = Vec::len(self);
        let mut copy: Vec<B> = Vec::with_capacity(n);
        for i in 0..n
            invariant
                n == self@.len(),
                slots_cloned(self@.take(i as int), copy@),
        {
            copy.push(self[i].duplicate());
        }
        assert(self@.take(n as int) =~= self@);
        copy
    }
}

impl<K, V, B> BucketStoreNew<K, V, B> for Vec<B> where K: Key, V: Value, B: Bucket<K, V> + 'static {
    open spec fn default_len() -> nat {
        DEFAULT_BUCKETS_COUNT as nat
    }

    open spec fn accepts_capacity(cap: usize) -> bool {
        true
    }

    fn initialized() -> (store: Self) {
        Self::initialized_with_capacity(DEFAULT_BUCKETS_COUNT)
    }

    fn initialized_with_capacity(cap: usize) -> (store: Self) {
        let mut store: Vec<B> = Vec::with_capacity(cap);
        for i in 0..cap
            invariant
                store@.len() == i,
                all_empty(store@),
        {
            store.push(B::new());
        }
        store
    }
}

} // verus!
