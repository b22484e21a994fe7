//! The kinds of bucket: one slot, a growable list, and a list with a stated
//! inline size.

pub mod option;
pub mod smallvec;
pub mod vec;

pub use self::option::OptionBucket;
pub use self::smallvec::{
    SmallVecBucket, SmallVecBucket1, SmallVecBucket16, SmallVecBucket2, SmallVecBucket32,
    SmallVecBucket4, SmallVecBucket64, SmallVecBucket8,
};
pub use self::vec::VecBucket;
