//! The bytes of a page: a header, one slot of sixteen bytes for each item,
//! and then the keys and values of the items, all in order.  Numbers are
//! little-endian.
//!
//! ```text
//! header   id: u64 | kind: u8 | 0 0 0 | count: u32
//! leaf     key length: u32 | value length: u32 | kind: u8 | 0 0 0 0 0 0 0
//! branch   key length: u32 | 0 0 0 0 | child: u64
//! ```

use vstd::prelude::*;
use vstd::bytes::{
    lemma_auto_spec_u32_to_from_le_bytes, lemma_auto_spec_u64_to_from_le_bytes,
    spec_u32_to_le_bytes, spec_u64_to_le_bytes, u32_to_le_bytes, u64_to_le_bytes,
};
use crate::bytes::copy_bytes;
use crate::data::Data;
use crate::meta::PageID;
use crate::node::{NodeData, Target};
use crate::page::{pure, Page};
use crate::size::{data_bytes, sum_bytes};

verus! {

/// The kind byte of a branch page.
pub const KIND_BRANCH: u8 = 1;

/// The kind byte of a leaf page.
pub const KIND_LEAF: u8 = 2;

/// The kind byte of a key / value pair in a leaf.
pub const ENTRY_PAIR: u8 = 0;

/// The kind byte of the header of a nested bucket in a leaf.
pub const ENTRY_BUCKET: u8 = 1;

/// `n` zero bytes.
pub open spec fn zeros(n: nat) -> Seq<u8> {
    Seq::new(n, |i: int| 0u8)
}

/// The first sixteen bytes of a page.
pub open spec fn header_bytes(id: PageID, leaf: bool, count: u32) -> Seq<u8> {
    spec_u64_to_le_bytes(id) + seq![if leaf { KIND_LEAF } else { KIND_BRANCH }] + zeros(3)
        + spec_u32_to_le_bytes(count)
}

/// The length of the key of item `i`.
pub open spec fn key_len(data: NodeData, i: int) -> nat {
    match data {
        NodeData::Leaf(es) => es@[i]@.key().len(),
        NodeData::Branches(bs) => bs@[i].key@.len(),
    }
}

/// The length of the value of item `i`; a child pointer has none.
pub open spec fn value_len(data: NodeData, i: int) -> nat {
    match data {
        NodeData::Leaf(es) => es@[i]@.value_bytes().len(),
        NodeData::Branches(_) => 0,
    }
}

/// The slot of item `i`.
pub open spec fn slot_bytes(data: NodeData, i: int) -> Seq<u8> {
    match data {
        NodeData::Leaf(es) => spec_u32_to_le_bytes(key_len(data, i) as u32) + spec_u32_to_le_bytes(
            value_len(data, i) as u32,
        ) + seq![if es@[i]@.is_kv() { ENTRY_PAIR } else { ENTRY_BUCKET }] + zeros(7),
        NodeData::Branches(bs) => spec_u32_to_le_bytes(key_len(data, i) as u32) + zeros(4)
            + spec_u64_to_le_bytes(bs@[i].target->Page_0),
    }
}

/// The key and the value of item `i`.
pub open spec fn blob_bytes(data: NodeData, i: int) -> Seq<u8> {
    match data {
        NodeData::Leaf(es) => es@[i]@.key() + es@[i]@.value_bytes(),
        NodeData::Branches(bs) => bs@[i].key@,
    }
}

/// The slots of the first `n` items.
pub open spec fn slots_upto(data: NodeData, n: int) -> Seq<u8>
    decreases n,
{
    if n <= 0 {
        Seq::empty()
    } else {
        slots_upto(data, n - 1) + slot_bytes(data, n - 1)
    }
}

/// The keys and values of the first `n` items.
pub open spec fn blobs_upto(data: NodeData, n: int) -> Seq<u8>
    decreases n,
{
    if n <= 0 {
        Seq::empty()
    } else {
        blobs_upto(data, n - 1) + blob_bytes(data, n - 1)
    }
}

/// The bytes of a page.
pub open spec fn page_bytes(p: Page) -> Seq<u8> {
    header_bytes(p.id, p.data is Leaf, p.data.spec_len() as u32) + slots_upto(
        p.data,
        p.data.spec_len() as int,
    ) + blobs_upto(p.data, p.data.spec_len() as int)
}

/// The page can be put in bytes: it points at pages only, and its count
/// and the lengths of its keys and values fit in 32 bits.
pub open spec fn encodable(p: Page) -> bool {
    &&& pure(p.data)
    &&& p.data.spec_len() <= u32::MAX
    &&& forall|i: int|
        0 <= i < p.data.spec_len() ==> #[trigger] key_len(p.data, i) <= u32::MAX && value_len(
            p.data,
            i,
        ) <= u32::MAX
}

/// The bytes of a page are as many as the size of its content says.
pub proof fn lemma_page_bytes_len(data: NodeData, n: int)
    requires
        0 <= n <= data.spec_len(),
    ensures
        slots_upto(data, n).len() == 16 * n,
        slots_upto(data, n).len() + blobs_upto(data, n).len() == sum_bytes(data, n),
    decreases n,
{
    lemma_auto_spec_u32_to_from_le_bytes();
    lemma_auto_spec_u64_to_from_le_bytes();
    if n > 0 {
        lemma_page_bytes_len(data, n - 1);
    }
}

/// Adds the bytes `src` at the end of `out`.
fn push_bytes(out: &mut Vec<u8>, src: &[u8])
    ensures
        final(out)@ == old(out)@ + src@,
{
    let mut copy = copy_bytes(src);
    out.append(&mut copy);
}

/// Adds `n` zero bytes at the end of `out`.
fn push_zeros(out: &mut Vec<u8>, n: usize)
    ensures
        final(out)@ == old(out)@ + zeros(n as nat),
{
    let mut i: usize = 0;
    while i < n
        invariant
            i <= n,
            out@ == old(out)@ + zeros(i as nat),
        decreases n - i,
    {
        out.push(0u8);
        assert(out@ =~= old(out)@ + zeros((i + 1) as nat));
        i += 1;
    }
    assert(old(out)@ + zeros(0) =~= old(out)@);
}

impl NodeData {
    /// Whether the keys and values of item `i` have lengths that fit in
    /// 32 bits, and the item, if it is a child pointer, points at a page.
    fn item_encodable(&self, i: usize) -> (r: bool)
        requires
            i < self.spec_len(),
        ensures
            r == (key_len(*self, i as int) <= u32::MAX && value_len(*self, i as int) <= u32::MAX
                && (self matches NodeData::Branches(bs) ==> bs@[i as int].target is Page)),
    {
        proof {
            lemma_auto_spec_u64_to_from_le_bytes();
        }
        match self {
            NodeData::Leaf(es) => {
                let k = es[i].key().len();
                let v = match &es[i] {
                    Data::KeyValue(kv) => kv.value.len(),
                    Data::Bucket(_) => 16,
                };
                k <= u32::MAX as usize && v <= u32::MAX as usize
            },
            NodeData::Branches(bs) => {
                let k = bs[i].key.len();
                let page = match &bs[i].target {
                    Target::Page(_) => true,
                    Target::Node(_) => false,
                };
                k <= u32::MAX as usize && page
            },
        }
    }

    /// Adds the slot of item `i` at the end of `out`.
    fn push_slot(&self, i: usize, out: &mut Vec<u8>)
        requires
            i < self.spec_len(),
            key_len(*self, i as int) <= u32::MAX,
            value_len(*self, i as int) <= u32::MAX,
            self matches NodeData::Branches(bs) ==> bs@[i as int].target is Page,
        ensures
            final(out)@ == old(out)@ + slot_bytes(*self, i as int),
    {
        proof {
            lemma_auto_spec_u64_to_from_le_bytes();
        }
        match self {
            NodeData::Leaf(es) => {
                let k = es[i].key().len();
                let (v, kind) = match &es[i] {
                    Data::KeyValue(kv) => (kv.value.len(), ENTRY_PAIR),
                    Data::Bucket(_) => (16usize, ENTRY_BUCKET),
                };
                let mut a = u32_to_le_bytes(k as u32);
                let mut b = u32_to_le_bytes(v as u32);
                out.append(&mut a);
                out.append(&mut b);
                out.push(kind);
                push_zeros(out, 7);
                assert(out@ =~= old(out)@ + slot_bytes(*self, i as int));
            },
            NodeData::Branches(bs) => {
                let k = bs[i].key.len();
                let child = match &bs[i].target {
                    Target::Page(p) => *p,
                    Target::Node(_) => 0,
                };
                let mut a = u32_to_le_bytes(k as u32);
                let mut c = u64_to_le_bytes(child);
                out.append(&mut a);
                push_zeros(out, 4);
                out.append(&mut c);
                assert(out@ =~= old(out)@ + slot_bytes(*self, i as int));
            },
        }
    }

    /// Adds the key and the value of item `i` at the end of `out`.
    fn push_blob(&self, i: usize, out: &mut Vec<u8>)
        requires
            i < self.spec_len(),
        ensures
            final(out)@ == old(out)@ + blob_bytes(*self, i as int),
    {
        match self {
            NodeData::Leaf(es) => {
                push_bytes(out, es[i].key());
                let v = es[i].value_bytes();
                push_bytes(out, v.as_slice());
                assert(out@ =~= old(out)@ + blob_bytes(*self, i as int));
            },
            NodeData::Branches(bs) => {
                push_bytes(out, bs[i].key.as_slice());
            },
        }
    }
}

impl Page {
    /// The bytes of the page, as they go into the file; `None` if the page
    /// cannot be put in bytes.
    pub fn encode(&self) -> (r: Option<Vec<u8>>)
        ensures
            r is Some == encodable(*self),
            r matches Some(b) ==> b@ == page_bytes(*self) && b@.len() == data_bytes(self.data),
    {
        let n = self.data.len();
        if n > u32::MAX as usize {
            return None;
        }
        let mut i: usize = 0;
        while i < n
            invariant
                i <= n,
                n == self.data.spec_len(),
                forall|j: int|
                    0 <= j < i ==> #[trigger] key_len(self.data, j) <= u32::MAX && value_len(
                        self.data,
                        j,
                    ) <= u32::MAX && (self.data matches NodeData::Branches(bs) ==> bs@[j].target
                        is Page),
            decreases n - i,
        {
            if !self.data.item_encodable(i) {
                proof {
                    if pure(self.data) && self.data is Branches {
                        assert(self.data->Branches_0@[i as int].target is Page);
                    }
                }
                return None;
            }
            i += 1;
        }
        proof {
            if self.data is Branches {
                assert forall|k: int| 0 <= k < n implies (
                #[trigger] self.data->Branches_0@[k]).target is Page by {
                    assert(key_len(self.data, k) <= u32::MAX);
                }
            }
        }
        let leaf = self.data.is_leaf();
        let mut out = u64_to_le_bytes(self.id);
        out.push(if leaf { KIND_LEAF } else { KIND_BRANCH });
        push_zeros(&mut out, 3);
        let mut count = u32_to_le_bytes(n as u32);
        out.append(&mut count);
        let ghost head = header_bytes(self.id, leaf, n as u32);
        assert(out@ =~= head);
        let mut i: usize = 0;
        while i < n
            invariant
                i <= n,
                n == self.data.spec_len(),
                encodable(*self),
                out@ == head + slots_upto(self.data, i as int),
            decreases n - i,
        {
            assert(key_len(self.data, i as int) <= u32::MAX);
            self.data.push_slot(i, &mut out);
            assert(out@ =~= head + slots_upto(self.data, i + 1));
            i += 1;
        }
        let ghost slots = out@;
        let mut i: usize = 0;
        assert(slots + blobs_upto(self.data, 0) =~= slots);
        while i < n
            invariant
                i <= n,
                n == self.data.spec_len(),
                out@ == slots + blobs_upto(self.data, i as int),
            decreases n - i,
        {
            self.data.push_blob(i, &mut out);
            assert(out@ =~= slots + blobs_upto(self.data, i + 1));
            i += 1;
        }
        proof {
            lemma_page_bytes_len(self.data, n as int);
            lemma_auto_spec_u32_to_from_le_bytes();
            lemma_auto_spec_u64_to_from_le_bytes();
        }
        Some(out)
    }
}

} // verus!
