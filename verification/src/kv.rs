//! What a type has to offer to serve as a key or as a value.

use vstd::prelude::*;
use vstd::std_specs::cmp::PartialEqSpec;

verus! {

/// A primitive integer that can address a table: copied freely, hashed, and
/// compared with an `==` that holds exactly of equal numbers.
pub trait Key: Sized + Copy + Default + PartialEq + Eq + crate::hash::Hash + Ord {
    /// The executable `==` of the key type decides mathematical equality.
    proof fn eq_is_identity()
        ensures
            Self::obeys_eq_spec(),
            forall|a: Self, b: Self| #[trigger] a.eq_spec(&b) == (a == b),
    ;
}

impl Key for u8 {
    proof fn eq_is_identity() {
    }
}

impl Key for i8 {
    proof fn eq_is_identity() {
    }
}

impl Key for u16 {
    proof fn eq_is_identity() {
    }
}

impl Key for i16 {
    proof fn eq_is_identity() {
    }
}

impl Key for u32 {
    proof fn eq_is_identity() {
    }
}

impl Key for i32 {
    proof fn eq_is_identity() {
    }
}

impl Key for u64 {
    proof fn eq_is_identity() {
    }
}

impl Key for i64 {
    proof fn eq_is_identity() {
    }
}

impl Key for usize {
    proof fn eq_is_identity() {
    }
}

impl Key for isize {
    proof fn eq_is_identity() {
    }
}

/// Anything that can be cloned and has a default can be stored as a value.
pub trait Value: Sized + Clone + Default {
}

impl<T> Value for T where T: Sized + Clone + Default {
}

/// Compares two keys.
pub fn same_key<K: Key>(a: K, b: K) -> (same: bool)
    ensures
        same == (a == b),
{
    proof {
        K::eq_is_identity();
    }
    a == b
}

} // verus!
