//! The persisted header of a bucket and its fixed 16-byte form.

use vstd::prelude::*;
use vstd::bytes::*;
use vstd::slice::slice_subrange;

verus! {

/// Identifies one fixed-size page of the backing store.
pub type PageID = u64;

/// The number of bytes a bucket header takes in a leaf.
pub const META_SIZE: usize = 16;

/// What a parent keeps about a nested bucket: where its tree starts and
/// how many new keys it has seen.
#[derive(Debug, Clone, Copy, PartialEq, Eq, Structural)]
pub struct BucketMeta {
    pub root_page: PageID,
    pub next_int: u64,
}

/// The 16-byte form of a header: `root_page` then `next_int`, each as eight
/// little-endian bytes.
pub open spec fn meta_bytes(m: BucketMeta) -> Seq<u8> {
    spec_u64_to_le_bytes(m.root_page) + spec_u64_to_le_bytes(m.next_int)
}

/// The header that sixteen bytes stand for.
pub open spec fn meta_of_bytes(s: Seq<u8>) -> BucketMeta {
    BucketMeta {
        root_page: spec_u64_from_le_bytes(s.subrange(0, 8)),
        next_int: spec_u64_from_le_bytes(s.subrange(8, 16)),
    }
}

impl Default for BucketMeta {
    fn default() -> (m: BucketMeta)
        ensures
            m == (BucketMeta { root_page: 0, next_int: 0 }),
    {
        BucketMeta { root_page: 0, next_int: 0 }
    }
}

impl BucketMeta {
    /// Packs the header into its 16-byte form.
    pub fn to_bytes(&self) -> (out: Vec<u8>)
        ensures
            out@ == meta_bytes(*self),
            out@.len() == META_SIZE,
    {
        let mut out = u64_to_le_bytes(self.root_page);
        let mut tail = u64_to_le_bytes(self.next_int);
        out.append(&mut tail);
        proof {
            lemma_auto_spec_u64_to_from_le_bytes();
        }
        out
    }

    /// Unpacks a header; `None` unless exactly sixteen bytes are given.
    pub fn from_bytes(bytes: &[u8]) -> (r: Option<BucketMeta>)
        ensures
            bytes@.len() != META_SIZE ==> r is None,
            bytes@.len() == META_SIZE ==> r == Some(meta_of_bytes(bytes@)),
    {
        if bytes.len() != META_SIZE {
            return None;
        }
        let head = slice_subrange(bytes, 0, 8);
        let tail = slice_subrange(bytes, 8, 16);
        let root_page = u64_from_le_bytes(head);
        let next_int = u64_from_le_bytes(tail);
        Some(BucketMeta { root_page, next_int })
    }
}

/// Packing a header and unpacking the bytes gives the header back.
pub proof fn lemma_meta_round_trip(m: BucketMeta)
    ensures
        meta_bytes(m).len() == META_SIZE,
        meta_of_bytes(meta_bytes(m)) == m,
{
    lemma_auto_spec_u64_to_from_le_bytes();
    let a = spec_u64_to_le_bytes(m.root_page);
    let b = spec_u64_to_le_bytes(m.next_int);
    assert((a + b).subrange(0, 8) =~= a);
    assert((a + b).subrange(8, 16) =~= b);
}

/// Unpacking sixteen bytes and packing the header gives the bytes back.
pub proof fn lemma_bytes_round_trip(s: Seq<u8>)
    requires
        s.len() == META_SIZE,
    ensures
        meta_bytes(meta_of_bytes(s)) == s,
{
    lemma_auto_spec_u64_to_from_le_bytes();
    assert(s.subrange(0, 8) + s.subrange(8, 16) =~= s);
}

} // verus!
