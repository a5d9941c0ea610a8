//! An LSM-tree storage engine core: block and table encodings, block and
//! table builders, and the iterators that merge and filter sorted key-value
//! streams.

pub mod codec;
pub mod key;
pub mod block;
pub mod iterators;
pub mod lsm_iterator;
pub mod table;
