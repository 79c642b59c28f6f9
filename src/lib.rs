//! A log-structured key-value store: an append-only log of checksummed
//! records paired with an in-memory index from keys to record offsets.

pub mod codec;
pub mod index;
pub mod store;

pub use codec::{decode_record, encode_record, KeyValuePair, KvError};
pub use index::Index;
pub use store::SimpleKV;
