//! The fixed-size store, whose number of buckets is part of its type and
//! whose buckets lie in place, without a heap allocation for the table.

use crate::bucket::model::items_cloned;
use crate::bucket::{slots_cloned, Bucket, BucketStore, BucketStoreNew};
use crate::kv::{Key, Value};
use core::marker::PhantomData;
use vstd::prelude::*;

verus! {

/// A table of exactly `N` buckets.
pub struct ArrayStore<K: Key, V: Value, B: Bucket<K, V>, const N: usize> {
    inner: [B; N],
    _marker: PhantomData<(K, V)>,
}

pub type Array2<K, V, B> = ArrayStore<K, V, B, 2>;

pub type Array4<K, V, B> = ArrayStore<K, V, B, 4>;

pub type Array8<K, V, B> = ArrayStore<K, V, B, 8>;

pub type Array16<K, V, B> = ArrayStore<K, V, B, 16>;

pub type Array32<K, V, B> = ArrayStore<K, V, B, 32>;

pub type Array64<K, V, B> = ArrayStore<K, V, B, 64>;

pub type Array128<K, V, B> = ArrayStore<K, V, B, 128>;

pub type Array256<K, V, B> = ArrayStore<K, V, B, 256>;

pub type Array512<K, V, B> = ArrayStore<K, V, B, 512>;

pub type Array768<K, V, B> = ArrayStore<K, V, B, 768>;

pub type Array1024<K, V, B> = ArrayStore<K, V, B, 1024>;

pub type Array2048<K, V, B> = ArrayStore<K, V, B, 2048>;

pub type Array4096<K, V, B> = ArrayStore<K, V, B, 4096>;

pub type Array8192<K, V, B> = ArrayStore<K, V, B, 8192>;

pub type Array16384<K, V, B> = ArrayStore<K, V, B, 16384>;

pub type Array32768<K, V, B> = ArrayStore<K, V, B, 32768>;

/// Calls `core::array::from_fn` with a generator that makes a new bucket for
/// every position. Trusted: each element of the array is a bucket that
/// `B::new` returned.
#[verifier::external_body]
fn array_of_new_buckets<K: Key, V: Value, B: Bucket<K, V>, const N: usize>() -> (buckets: [B; N])
    ensures
        forall|i: int| 0 <= i < N ==> call_ensures(B::new, (), #[trigger] buckets@[i]),
{
    core::array::from_fn(|_| B::new())
}

/// Calls `as_mut_slice` of the array, which hands out the whole array as a
/// slice. Trusted: the slice holds the elements of the array, and what the
/// caller leaves in the slice is what the array holds afterwards.
#[verifier::external_body]
fn array_as_mut_slice<E, const N: usize>(array: &mut [E; N]) -> (slice: &mut [E])
    ensures
        slice@ == old(array)@,
        final(slice)@ == final(array)@,
{
    array.as_mut_slice()
}

impl<K, V, B, const N: usize> Clone for ArrayStore<K, V, B, N> where
    K: Key,
    V: Value,
    B: Bucket<K, V> + 'static,
 {
    fn clone(&self) -> (copy: Self)
        ensures
            slots_cloned(self.slots(), copy.slots()),
    {
        self.duplicate()
    }
}

impl<K, V, B, const N: usize> BucketStore<K, V, B> for ArrayStore<K, V, B, N> where
    K: Key,
    V: Value,
    B: Bucket<K, V> + 'static,
 {
    closed spec fn slots(&self) -> Seq<B> {
        self.inner@
    }

    proof fn len_fits(&self) {
    }

    #[inline]
    fn len(&self) -> (n: usize) {
        N
    }

    #[inline]
    fn get<'a>(&'a self, idx: usize) -> (bucket: &'a B) {
        &self.inner[idx]
    }

    #[inline]
    fn get_mut(&mut self, idx: usize) -> (bucket: &mut B) {
        &mut self.inner[idx]
    }

    #[inline]
    fn as_mut_slice(&mut self) -> (slice: &mut [B]) {
        array_as_mut_slice(&mut self.inner)
    }

    fn duplicate(&self) -> (copy: Self) {
        let mut inner = array_of_new_buckets::<K, V, B, N>();
        for i in 0..N
            invariant
                forall|j: int|
                    0 <= j < i ==> items_cloned(
                        self.inner@[j].items(),
                        (#[trigger] inner@[j]).items(),
                    ),
        {
            inner[i] = self.inner[i].duplicate();
        }
        ArrayStore { inner, _marker: PhantomData }
    }
}

impl<K, V, B, const N: usize> BucketStoreNew<K, V, B> for ArrayStore<K, V, B, N> where
    K: Key,
    V: Value,
    B: Bucket<K, V> + 'static,
 {
    open spec fn default_len() -> nat {
        N as nat
    }

    open spec fn accepts_capacity(cap: usize) -> bool {
        false
    }

    fn initialized() -> (store: Self) {
        let inner = array_of_new_buckets::<K, V, B, N>();
        ArrayStore { inner, _marker: PhantomData }
    }

    /// The size of this store is fixed by its type: use `initialized`.
    fn initialized_with_capacity(cap: usize) -> (store: Self) {
        vstd::pervasive::unreached()
    }
}

} // verus!
