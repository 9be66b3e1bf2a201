//! What a leaf holds: key / value pairs and the headers of nested buckets.

use vstd::prelude::*;
use crate::bytes::copy_bytes;
use crate::meta::{meta_bytes, meta_of_bytes, BucketMeta, META_SIZE};

verus! {

/// One entry of a bucket, as a mathematical value.
pub enum Entry {
    /// A key with the value stored under it.
    KeyValue { key: Seq<u8>, value: Seq<u8> },
    /// The name of a nested bucket with the header kept for it.
    Bucket { name: Seq<u8>, meta: BucketMeta },
}

impl Entry {
    /// The key the entry is found by: the key of a pair, the name of a bucket.
    pub open spec fn key(self) -> Seq<u8> {
        match self {
            Entry::KeyValue { key, .. } => key,
            Entry::Bucket { name, .. } => name,
        }
    }

    /// Whether the entry is a key / value pair.
    pub open spec fn is_kv(self) -> bool {
        self is KeyValue
    }

    /// The bytes stored under the key: the value of a pair, the packed
    /// header of a bucket.
    pub open spec fn value_bytes(self) -> Seq<u8> {
        match self {
            Entry::KeyValue { value, .. } => value,
            Entry::Bucket { meta, .. } => meta_bytes(meta),
        }
    }

    /// The number of bytes the entry takes in a leaf, its slot in the
    /// offset table included.
    pub open spec fn size(self) -> nat {
        ENTRY_OVERHEAD as nat + self.key().len() + self.value_bytes().len()
    }
}

/// The bytes a leaf spends on the offset-table slot of one entry.
pub const ENTRY_OVERHEAD: usize = 16;

/// A key with the value stored under it.
#[derive(Debug)]
pub struct KVPair {
    pub key: Vec<u8>,
    pub value: Vec<u8>,
}

/// The name of a nested bucket with the header kept for it.
#[derive(Debug)]
pub struct BucketData {
    pub name: Vec<u8>,
    pub meta: BucketMeta,
}

/// An entry of a bucket.
#[derive(Debug)]
pub enum Data {
    Bucket(BucketData),
    KeyValue(KVPair),
}

impl KVPair {
    /// Makes a pair from a key and a value.
    pub fn from_slice_parts(key: Vec<u8>, value: Vec<u8>) -> (kv: KVPair)
        ensures
            kv.key == key,
            kv.value == value,
    {
        KVPair { key, value }
    }

    /// The key of the pair.
    pub fn key(&self) -> (k: &[u8])
        ensures
            k@ == self.key@,
    {
        self.key.as_slice()
    }

    /// The value of the pair.
    pub fn value(&self) -> (v: &[u8])
        ensures
            v@ == self.value@,
    {
        self.value.as_slice()
    }
}

impl BucketData {
    /// Makes the entry that a parent keeps for a nested bucket with the
    /// given header.
    pub fn from_meta(name: Vec<u8>, meta: &BucketMeta) -> (b: BucketData)
        ensures
            b.name == name,
            b.meta == *meta,
    {
        BucketData { name, meta: *meta }
    }

    /// Makes the entry from a name and the 16-byte form of a header;
    /// `None` unless exactly sixteen bytes are given.
    pub fn from_slice_parts(name: Vec<u8>, meta: &[u8]) -> (r: Option<BucketData>)
        ensures
            meta@.len() != META_SIZE ==> r is None,
            meta@.len() == META_SIZE ==> (r matches Some(b) && b.name == name && b.meta
                == meta_of_bytes(meta@)),
    {
        match BucketMeta::from_bytes(meta) {
            Some(m) => Some(BucketData { name, meta: m }),
            None => None,
        }
    }

    /// The name of the nested bucket.
    pub fn name(&self) -> (k: &[u8])
        ensures
            k@ == self.name@,
    {
        self.name.as_slice()
    }

    /// The header kept for the nested bucket.
    pub fn meta(&self) -> (m: BucketMeta)
        ensures
            m == self.meta,
    {
        self.meta
    }
}

impl View for Data {
    type V = Entry;

    open spec fn view(&self) -> Entry {
        match self {
            Data::KeyValue(kv) => Entry::KeyValue { key: kv.key@, value: kv.value@ },
            Data::Bucket(b) => Entry::Bucket { name: b.name@, meta: b.meta },
        }
    }
}

impl Data {
    /// The key the entry is found by.
    pub fn key(&self) -> (k: &[u8])
        ensures
            k@ == self@.key(),
    {
        match self {
            Data::KeyValue(kv) => kv.key(),
            Data::Bucket(b) => b.name(),
        }
    }

    /// Whether the entry is a key / value pair.
    pub fn is_kv(&self) -> (r: bool)
        ensures
            r == self@.is_kv(),
    {
        match self {
            Data::KeyValue(_) => true,
            Data::Bucket(_) => false,
        }
    }

    /// The bytes stored under the key: the value of a pair, the packed
    /// header of a bucket.
    pub fn value_bytes(&self) -> (v: Vec<u8>)
        ensures
            v@ == self@.value_bytes(),
    {
        match self {
            Data::KeyValue(kv) => copy_bytes(kv.value()),
            Data::Bucket(b) => b.meta.to_bytes(),
        }
    }

    /// An entry of its own with the same content.
    pub fn copy(&self) -> (d: Data)
        ensures
            d@ == self@,
    {
        match self {
            Data::KeyValue(kv) => Data::KeyValue(
                KVPair { key: copy_bytes(kv.key()), value: copy_bytes(kv.value()) },
            ),
            Data::Bucket(b) => Data::Bucket(
                BucketData { name: copy_bytes(b.name()), meta: b.meta },
            ),
        }
    }

    /// The number of bytes the entry takes in a leaf, capped at `usize::MAX`.
    pub fn size(&self) -> (n: usize)
        ensures
            n == if self@.size() <= usize::MAX { self@.size() } else { usize::MAX as nat },
    {
        let k = self.key().len();
        let v = match self {
            Data::KeyValue(kv) => kv.value.len(),
            Data::Bucket(_) => META_SIZE,
        };
        proof {
            vstd::bytes::lemma_auto_spec_u64_to_from_le_bytes();
        }
        ENTRY_OVERHEAD.saturating_add(k).saturating_add(v)
    }
}

/// The entries of a leaf as mathematical values.
pub open spec fn views(s: Seq<Data>) -> Seq<Entry> {
    Seq::new(s.len(), |i: int| s[i]@)
}

} // verus!
