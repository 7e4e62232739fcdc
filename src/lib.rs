//! A key-value map built from three strategies: how one slot stores its
//! entries (a bucket), how the slots are laid out and probed (a bucket list),
//! and how a key is hashed to a slot address.

pub mod bucket;
pub mod hash;
pub mod key;
pub mod list;
pub mod map;

pub use bucket::{Bucket, OptionBucket, VecBucket};
pub use hash::{DefaultHasher, Hasher};
pub use key::Key;
pub use list::{Array1024, Array64, BucketList, BucketListNew, FixedBuckets};
pub use map::{
    ArrayPrimitiveMap, CapacityExhausted, LinearPrimitiveMap, PrimitiveMap, VecPrimitiveMap,
};
