//! The shapes of a bucket store: a run-time sized list and a fixed-size array.

pub mod array;
pub mod vec;

pub use self::array::{
    Array1024, Array128, Array16, Array16384, Array2, Array2048, Array256, Array32, Array32768,
    Array4, Array4096, Array512, Array64, Array768, Array8, Array8192, ArrayStore,
};
