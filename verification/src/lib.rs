//! A prioritized training-replay store.
//!
//! The store keeps labels derived from stream offsets, training examples with
//! a scalar loss, and a loss-ranked secondary index kept in lock-step with the
//! training records, so a learner can preferentially replay the examples it
//! currently gets most wrong while never starving stale ones. It also derives
//! the highest stream offset that is safe to serve for inference.
//!
//! Model scalars are carried as their 32-bit patterns (`FloatBits`), so the
//! codec round-trips bit-for-bit and the loss order is a total order on keys.

use vstd::prelude::*;

pub mod codec;
pub mod hexcode;
pub mod records;
pub mod store;

pub use codec::{CodecError, LabelTypeStoredDb, InputStoredDb, encode, decode};
pub use hexcode::{input_to_hex, label_to_hex};
pub use records::{
    EventId, InputStored, LabelLookup, LabelStored, LabelType, LossEntry, OffsetId, Timestamp,
    TrainStored, TrainStoredWithLabel, VersionType,
};
pub use store::{IntegrityFault, KVStore, DEFAULT_OLDEST_WINDOW};

verus! {

/// Bit pattern of one 32-bit model scalar.
pub type FloatBits = u32;

} // verus!
