//! The B+tree engine of an embedded, copy-on-write key-value store.
//!
//! A bucket is an ordered collection of key / value pairs and nested buckets,
//! kept as one B+tree.  Immutable pages hold the persisted tree; the first
//! write that reaches a page promotes it to a mutable node.  At commit the
//! tree is rebalanced and the nodes are serialized back into fresh pages.

pub mod bucket;
pub mod bytes;
pub mod check;
pub mod codec;
pub mod cursor;
pub mod data;
pub mod decode;
pub mod errors;
pub mod fold;
pub mod laws;
pub mod listing;
pub mod merge;
pub mod meta;
pub mod node;
pub mod page;
pub mod persist;
pub mod size;
pub mod split;
pub mod tree;

pub use bucket::Bucket;
pub use cursor::Cursor;
pub use data::{BucketData, Data, Entry, KVPair};
pub use errors::Error;
pub use meta::{BucketMeta, PageID};
pub use page::{Page, PageStore};
