//! Turning a key into a table address: a cheap scramble, then a reduction
//! into the range of the table.

use core::marker::PhantomData;
use vstd::prelude::*;

verus! {

/// The integer types that a hasher can take.
pub trait Hash: Sized + Copy {
}

impl Hash for u8 {
}

impl Hash for i8 {
}

impl Hash for u16 {
}

impl Hash for i16 {
}

impl Hash for u32 {
}

impl Hash for i32 {
}

impl Hash for u64 {
}

impl Hash for i64 {
}

impl Hash for usize {
}

impl Hash for isize {
}

/// A stateless pair of functions: `hash` scrambles a key, `compress` maps the
/// scrambled value to an address below the table size.
pub trait Hasher<T: Hash>: Default {
    /// The scrambled value of `value`.
    spec fn hash_spec(value: T) -> T;

    /// The address of the scrambled value `hash` in a table of `upper_bound` slots.
    spec fn compress_spec(hash: T, upper_bound: usize) -> usize;

    /// Every address lies inside the table.
    proof fn compress_in_range(hash: T, upper_bound: usize)
        requires
            upper_bound > 0,
        ensures
            Self::compress_spec(hash, upper_bound) < upper_bound,
    ;

    /// Scrambles a key.
    fn hash(value: T) -> (hash: T)
        ensures
            hash == Self::hash_spec(value),
    ;

    /// Maps a scrambled value to an address in a table of `upper_bound`
    /// slots. A table has at least one slot.
    fn compress(hash: T, upper_bound: usize) -> (addr: usize)
        requires
            upper_bound > 0,
        ensures
            addr == Self::compress_spec(hash, upper_bound),
            addr < upper_bound,
    ;
}

/// The hasher used unless another is chosen: the identity on 8-bit keys, a
/// shift-xor mix on wider ones, and the remainder by the table size.
pub struct DefaultHasher<T: Hash> {
    _marker: PhantomData<T>,
}

impl<T: Hash> DefaultHasher<T> {
    /// The hasher; it has no state.
    pub fn new() -> (hasher: Self) {
        DefaultHasher { _marker: PhantomData }
    }
}

impl<T: Hash> Default for DefaultHasher<T> {
    fn default() -> (hasher: Self) {
        DefaultHasher::new()
    }
}

impl Hasher<u8> for DefaultHasher<u8> {
    open spec fn hash_spec(value: u8) -> u8 {
        value
    }

    open spec fn compress_spec(hash: u8, upper_bound: usize) -> usize {
        (hash as usize) % upper_bound
    }

    proof fn compress_in_range(hash: u8, upper_bound: usize) {
    }

    #[inline]
    fn hash(value: u8) -> (hash: u8) {
        value
    }

    #[inline]
    fn compress(hash: u8, upper_bound: usize) -> (addr: usize) {
        hash as usize % upper_bound
    }
}

impl Hasher<i8> for DefaultHasher<i8> {
    open spec fn hash_spec(value: i8) -> i8 {
        value
    }

    open spec fn compress_spec(hash: i8, upper_bound: usize) -> usize {
        (hash as usize) % upper_bound
    }

    proof fn compress_in_range(hash: i8, upper_bound: usize) {
    }

    #[inline]
    fn hash(value: i8) -> (hash: i8) {
        value
    }

    #[inline]
    fn compress(hash: i8, upper_bound: usize) -> (addr: usize) {
        hash as usize % upper_bound
    }
}

impl Hasher<u16> for DefaultHasher<u16> {
    open spec fn hash_spec(value: u16) -> u16 {
        value ^ (value >> 7)
    }

    open spec fn compress_spec(hash: u16, upper_bound: usize) -> usize {
        (hash as usize) % upper_bound
    }

    proof fn compress_in_range(hash: u16, upper_bound: usize) {
    }

    #[inline]
    fn hash(value: u16) -> (hash: u16) {
        value ^ value >> 7
    }

    #[inline]
    fn compress(hash: u16, upper_bound: usize) -> (addr: usize) {
        (hash as usize) % upper_bound
    }
}

impl Hasher<i16> for DefaultHasher<i16> {
    open spec fn hash_spec(value: i16) -> i16 {
        value ^ (value >> 7)
    }

    open spec fn compress_spec(hash: i16, upper_bound: usize) -> usize {
        (hash as usize) % upper_bound
    }

    proof fn compress_in_range(hash: i16, upper_bound: usize) {
    }

    #[inline]
    fn hash(value: i16) -> (hash: i16) {
        value ^ value >> 7
    }

    #[inline]
    fn compress(hash: i16, upper_bound: usize) -> (addr: usize) {
        (hash as usize) % upper_bound
    }
}

impl Hasher<u32> for DefaultHasher<u32> {
    open spec fn hash_spec(value: u32) -> u32 {
        value ^ (value >> 7)
    }

    open spec fn compress_spec(hash: u32, upper_bound: usize) -> usize {
        (hash as usize) % upper_bound
    }

    proof fn compress_in_range(hash: u32, upper_bound: usize) {
    }

    #[inline]
    fn hash(value: u32) -> (hash: u32) {
        value ^ value >> 7
    }

    #[inline]
    fn compress(hash: u32, upper_bound: usize) -> (addr: usize) {
        (hash as usize) % upper_bound
    }
}

impl Hasher<i32> for DefaultHasher<i32> {
    open spec fn hash_spec(value: i32) -> i32 {
        value ^ (value >> 7)
    }

    open spec fn compress_spec(hash: i32, upper_bound: usize) -> usize {
        (hash as usize) % upper_bound
    }

    proof fn compress_in_range(hash: i32, upper_bound: usize) {
    }

    #[inline]
    fn hash(value: i32) -> (hash: i32) {
        value ^ value >> 7
    }

    #[inline]
    fn compress(hash: i32, upper_bound: usize) -> (addr: usize) {
        (hash as usize) % upper_bound
    }
}

impl Hasher<u64> for DefaultHasher<u64> {
    open spec fn hash_spec(value: u64) -> u64 {
        value ^ (value >> 7)
    }

    open spec fn compress_spec(hash: u64, upper_bound: usize) -> usize {
        (hash as usize) % upper_bound
    }

    proof fn compress_in_range(hash: u64, upper_bound: usize) {
    }

    #[inline]
    fn hash(value: u64) -> (hash: u64) {
        value ^ value >> 7
    }

    #[inline]
    fn compress(hash: u64, upper_bound: usize) -> (addr: usize) {
        (hash as usize) % upper_bound
    }
}

impl Hasher<i64> for DefaultHasher<i64> {
    open spec fn hash_spec(value: i64) -> i64 {
        value ^ (value >> 7)
    }

    open spec fn compress_spec(hash: i64, upper_bound: usize) -> usize {
        (hash as usize) % upper_bound
    }

    proof fn compress_in_range(hash: i64, upper_bound: usize) {
    }

    #[inline]
    fn hash(value: i64) -> (hash: i64) {
        value ^ value >> 7
    }

    #[inline]
    fn compress(hash: i64, upper_bound: usize) -> (addr: usize) {
        (hash as usize) % upper_bound
    }
}

impl Hasher<usize> for DefaultHasher<usize> {
    open spec fn hash_spec(value: usize) -> usize {
        value ^ (value >> 7)
    }

    open spec fn compress_spec(hash: usize, upper_bound: usize) -> usize {
        (hash as usize) % upper_bound
    }

    proof fn compress_in_range(hash: usize, upper_bound: usize) {
    }

    #[inline]
    fn hash(value: usize) -> (hash: usize) {
        value ^ value >> 7
    }

    #[inline]
    fn compress(hash: usize, upper_bound: usize) -> (addr: usize) {
        (hash as usize) % upper_bound
    }
}

impl Hasher<isize> for DefaultHasher<isize> {
    open spec fn hash_spec(value: isize) -> isize {
        value ^ (value >> 7)
    }

    open spec fn compress_spec(hash: isize, upper_bound: usize) -> usize {
        (hash as usize) % upper_bound
    }

    proof fn compress_in_range(hash: isize, upper_bound: usize) {
    }

    #[inline]
    fn hash(value: isize) -> (hash: isize) {
        value ^ value >> 7
    }

    #[inline]
    fn compress(hash: isize, upper_bound: usize) -> (addr: usize) {
        (hash as usize) % upper_bound
    }
}

} // verus!
