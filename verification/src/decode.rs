//! Reading the bytes of a page back: the page that the bytes stand for,
//! if they stand for one.

use vstd::prelude::*;
use vstd::bytes::{
    lemma_auto_spec_u32_to_from_le_bytes, lemma_auto_spec_u64_to_from_le_bytes,
    spec_u32_to_le_bytes, spec_u64_to_le_bytes, u32_from_le_bytes, u64_from_le_bytes,
};
use vstd::slice::slice_subrange;
use crate::bytes::copy_bytes;
use crate::codec::{
    blob_bytes, blobs_upto, encodable, header_bytes, key_len, page_bytes, slot_bytes, slots_upto,
    value_len, zeros, ENTRY_BUCKET, ENTRY_PAIR, KIND_BRANCH, KIND_LEAF,
};
use crate::data::{views, BucketData, Data, KVPair};
use crate::meta::{lemma_bytes_round_trip, lemma_meta_round_trip, BucketMeta};
use crate::node::{Branch, NodeData, Target};
use crate::page::Page;

verus! {

/// The slot of an item with the given lengths, kind and child.
pub open spec fn slot_of(leaf: bool, klen: u32, vlen: u32, tag: u8, child: u64) -> Seq<u8> {
    if leaf {
        spec_u32_to_le_bytes(klen) + spec_u32_to_le_bytes(vlen) + seq![tag] + zeros(7)
    } else {
        spec_u32_to_le_bytes(klen) + zeros(4) + spec_u64_to_le_bytes(child)
    }
}

/// The kind byte of entry `i` of a leaf; 0 for a child pointer.
pub open spec fn tag_of(data: NodeData, i: int) -> u8 {
    match data {
        NodeData::Leaf(es) => if es@[i]@.is_kv() {
            ENTRY_PAIR
        } else {
            ENTRY_BUCKET
        },
        NodeData::Branches(_) => 0,
    }
}

/// The page that child pointer `i` points at; 0 for an entry of a leaf.
pub open spec fn child_of(data: NodeData, i: int) -> u64 {
    match data {
        NodeData::Leaf(_) => 0,
        NodeData::Branches(bs) => bs@[i].target->Page_0,
    }
}

/// The slot of an item is the slot of its lengths, kind and child.
pub proof fn lemma_slot_is(data: NodeData, i: int)
    ensures
        slot_bytes(data, i) == slot_of(
            data is Leaf,
            key_len(data, i) as u32,
            value_len(data, i) as u32,
            tag_of(data, i),
            child_of(data, i),
        ),
        slot_bytes(data, i).len() == 16,
{
    lemma_auto_spec_u32_to_from_le_bytes();
    lemma_auto_spec_u64_to_from_le_bytes();
}

/// A slot gives its lengths, kind and child back.
pub proof fn lemma_slot_fields(leaf: bool, klen: u32, vlen: u32, tag: u8, child: u64)
    ensures
        ({
            let s = slot_of(leaf, klen, vlen, tag, child);
            &&& s.len() == 16
            &&& s.subrange(0, 4) == spec_u32_to_le_bytes(klen)
            &&& leaf ==> s.subrange(4, 8) == spec_u32_to_le_bytes(vlen) && s[8] == tag && s.subrange(
                9,
                16,
            ) == zeros(7)
            &&& !leaf ==> s.subrange(4, 8) == zeros(4) && s.subrange(8, 16) == spec_u64_to_le_bytes(
                child,
            )
        }),
{
    lemma_auto_spec_u32_to_from_le_bytes();
    lemma_auto_spec_u64_to_from_le_bytes();
    let s = slot_of(leaf, klen, vlen, tag, child);
    assert(s.subrange(0, 4) =~= spec_u32_to_le_bytes(klen));
    if leaf {
        assert(s.subrange(4, 8) =~= spec_u32_to_le_bytes(vlen));
        assert(s.subrange(9, 16) =~= zeros(7));
    } else {
        assert(s.subrange(4, 8) =~= zeros(4));
        assert(s.subrange(8, 16) =~= spec_u64_to_le_bytes(child));
    }
}

/// Where the slot of item `i` is among the slots of the first `n` items.
pub proof fn lemma_slot_at(data: NodeData, n: int, i: int)
    requires
        0 <= i < n,
    ensures
        slots_upto(data, n).len() == 16 * n,
        slots_upto(data, n).subrange(16 * i, 16 * i + 16) == slot_bytes(data, i),
    decreases n,
{
    lemma_slots_len(data, n);
    lemma_slots_len(data, n - 1);
    lemma_slot_is(data, n - 1);
    if i < n - 1 {
        lemma_slot_at(data, n - 1, i);
        assert(slots_upto(data, n).subrange(16 * i, 16 * i + 16) =~= slots_upto(
            data,
            n - 1,
        ).subrange(16 * i, 16 * i + 16));
    } else {
        assert(slots_upto(data, n).subrange(16 * i, 16 * i + 16) =~= slot_bytes(data, i));
    }
}

/// The slots of `n` items take sixteen bytes each.
pub proof fn lemma_slots_len(data: NodeData, n: int)
    requires
        0 <= n,
    ensures
        slots_upto(data, n).len() == 16 * n,
    decreases n,
{
    if n > 0 {
        lemma_slots_len(data, n - 1);
        lemma_slot_is(data, n - 1);
    }
}

/// The keys and values of more items take at least as many bytes, and
/// those of item `i` come right after those of the items before it.
pub proof fn lemma_blob_at(data: NodeData, n: int, i: int)
    requires
        0 <= i < n,
    ensures
        blobs_upto(data, i).len() + blob_bytes(data, i).len() <= blobs_upto(data, n).len(),
        blobs_upto(data, n).subrange(
            blobs_upto(data, i).len() as int,
            (blobs_upto(data, i).len() + blob_bytes(data, i).len()) as int,
        ) == blob_bytes(data, i),
    decreases n,
{
    if i < n - 1 {
        lemma_blob_at(data, n - 1, i);
        assert(blobs_upto(data, n).subrange(
            blobs_upto(data, i).len() as int,
            (blobs_upto(data, i).len() + blob_bytes(data, i).len()) as int,
        ) =~= blobs_upto(data, n - 1).subrange(
            blobs_upto(data, i).len() as int,
            (blobs_upto(data, i).len() + blob_bytes(data, i).len()) as int,
        ));
    } else {
        assert(blobs_upto(data, n).subrange(
            blobs_upto(data, i).len() as int,
            (blobs_upto(data, i).len() + blob_bytes(data, i).len()) as int,
        ) =~= blob_bytes(data, i));
    }
}

/// The slots and the keys and values of the first `n` items depend on
/// those items only.
pub proof fn lemma_upto_agree(a: NodeData, b: NodeData, n: int)
    requires
        0 <= n,
        forall|i: int| 0 <= i < n ==> slot_bytes(a, i) == slot_bytes(b, i),
        forall|i: int| 0 <= i < n ==> blob_bytes(a, i) == blob_bytes(b, i),
    ensures
        slots_upto(a, n) == slots_upto(b, n),
        blobs_upto(a, n) == blobs_upto(b, n),
    decreases n,
{
    if n > 0 {
        lemma_upto_agree(a, b, n - 1);
    }
}

/// Whether the bytes from `from` up to `to` are all zero.
fn all_zero(bytes: &[u8], from: usize, to: usize) -> (r: bool)
    requires
        from <= to <= bytes@.len(),
    ensures
        r == (bytes@.subrange(from as int, to as int) == zeros((to - from) as nat)),
{
    let mut i = from;
    while i < to
        invariant
            from <= i <= to <= bytes@.len(),
            forall|j: int| from <= j < i ==> bytes@[j] == 0,
        decreases to - i,
    {
        if bytes[i] != 0 {
            proof {
                let s = bytes@.subrange(from as int, to as int);
                assert(s[i - from] == bytes@[i as int]);
                assert(zeros((to - from) as nat)[i - from] == 0);
            }
            return false;
        }
        i += 1;
    }
    assert(bytes@.subrange(from as int, to as int) =~= zeros((to - from) as nat));
    true
}

/// The lengths, kind and child that the slot at `at` holds; `None` if the
/// sixteen bytes are no slot.
fn parse_slot(bytes: &[u8], at: usize, leaf: bool) -> (r: Option<(u32, u32, u8, u64)>)
    requires
        at + 16 <= bytes@.len(),
    ensures
        r matches Some((klen, vlen, tag, child)) ==> {
            &&& bytes@.subrange(at as int, at + 16) == slot_of(leaf, klen, vlen, tag, child)
            &&& leaf ==> (tag == ENTRY_PAIR || tag == ENTRY_BUCKET) && child == 0
            &&& !leaf ==> vlen == 0 && tag == 0
        },
        forall|klen: u32, vlen: u32, tag: u8, child: u64|
            (leaf ==> tag == ENTRY_PAIR || tag == ENTRY_BUCKET) && bytes@.subrange(
                at as int,
                at + 16,
            ) == #[trigger] slot_of(leaf, klen, vlen, tag, child) ==> {
                &&& r matches Some((k, v, t, c))
                &&& k == klen
                &&& leaf ==> v == vlen && t == tag
                &&& !leaf ==> c == child
            },
{
    let ghost s = bytes@.subrange(at as int, at + 16);
    proof {
        lemma_auto_spec_u32_to_from_le_bytes();
        lemma_auto_spec_u64_to_from_le_bytes();
        assert forall|klen: u32, vlen: u32, tag: u8, child: u64|
            s == #[trigger] slot_of(leaf, klen, vlen, tag, child) implies {
            &&& s.subrange(0, 4) == spec_u32_to_le_bytes(klen)
            &&& leaf ==> s.subrange(4, 8) == spec_u32_to_le_bytes(vlen) && s[8] == tag && s.subrange(
                9,
                16,
            ) == zeros(7)
            &&& !leaf ==> s.subrange(4, 8) == zeros(4) && s.subrange(8, 16) == spec_u64_to_le_bytes(
                child,
            )
        } by {
            lemma_slot_fields(leaf, klen, vlen, tag, child);
        }
        assert(s.subrange(0, 4) =~= bytes@.subrange(at as int, at + 4));
        assert(s.subrange(4, 8) =~= bytes@.subrange(at + 4, at + 8));
        assert(s.subrange(8, 16) =~= bytes@.subrange(at + 8, at + 16));
        assert(s.subrange(9, 16) =~= bytes@.subrange(at + 9, at + 16));
        assert(s[8] == bytes@[at + 8]);
    }
    let n = bytes.len();
    assert(at + 16 <= n);
    let klen = u32_from_le_bytes(slice_subrange(bytes, at, at + 4));
    if leaf {
        let vlen = u32_from_le_bytes(slice_subrange(bytes, at + 4, at + 8));
        let tag = bytes[at + 8];
        if tag != ENTRY_PAIR && tag != ENTRY_BUCKET {
            return None;
        }
        if !all_zero(bytes, at + 9, at + 16) {
            return None;
        }
        assert(s =~= slot_of(leaf, klen, vlen, tag, 0));
        Some((klen, vlen, tag, 0))
    } else {
        if !all_zero(bytes, at + 4, at + 8) {
            return None;
        }
        let child = u64_from_le_bytes(slice_subrange(bytes, at + 8, at + 16));
        assert(s =~= slot_of(leaf, klen, 0, 0, child));
        Some((klen, 0, 0, child))
    }
}

/// The identifier, the kind and the count that the first sixteen bytes
/// hold; `None` if they are no header.
fn parse_header(bytes: &[u8]) -> (r: Option<(u64, bool, u32)>)
    ensures
        r matches Some((id, leaf, count)) ==> bytes@.len() >= 16 && bytes@.subrange(0, 16)
            == header_bytes(id, leaf, count),
        forall|id: u64, leaf: bool, count: u32|
            bytes@.len() >= 16 && bytes@.subrange(0, 16) == #[trigger] header_bytes(id, leaf, count)
                ==> r == Some((id, leaf, count)),
{
    if bytes.len() < 16 {
        return None;
    }
    let ghost s = bytes@.subrange(0, 16);
    proof {
        lemma_auto_spec_u32_to_from_le_bytes();
        lemma_auto_spec_u64_to_from_le_bytes();
        assert forall|id: u64, leaf: bool, count: u32|
            s == #[trigger] header_bytes(id, leaf, count) implies {
            &&& s.subrange(0, 8) == spec_u64_to_le_bytes(id)
            &&& s[8] == (if leaf { KIND_LEAF } else { KIND_BRANCH })
            &&& s.subrange(9, 12) == zeros(3)
            &&& s.subrange(12, 16) == spec_u32_to_le_bytes(count)
        } by {
            let h = header_bytes(id, leaf, count);
            assert(h.subrange(0, 8) =~= spec_u64_to_le_bytes(id));
            assert(h.subrange(9, 12) =~= zeros(3));
            assert(h.subrange(12, 16) =~= spec_u32_to_le_bytes(count));
        }
        assert(s.subrange(0, 8) =~= bytes@.subrange(0, 8));
        assert(s.subrange(9, 12) =~= bytes@.subrange(9, 12));
        assert(s.subrange(12, 16) =~= bytes@.subrange(12, 16));
        assert(s[8] == bytes@[8]);
    }
    let id = u64_from_le_bytes(slice_subrange(bytes, 0, 8));
    let kind = bytes[8];
    if kind != KIND_LEAF && kind != KIND_BRANCH {
        return None;
    }
    if !all_zero(bytes, 9, 12) {
        return None;
    }
    let count = u32_from_le_bytes(slice_subrange(bytes, 12, 16));
    let leaf = kind == KIND_LEAF;
    assert(s =~= header_bytes(id, leaf, count));
    Some((id, leaf, count))
}

/// Where the parts of the bytes of a page are.
pub proof fn lemma_head(p: Page)
    requires
        encodable(p),
    ensures
        page_bytes(p).len() == 16 + 16 * p.data.spec_len() + blobs_upto(
            p.data,
            p.data.spec_len() as int,
        ).len(),
        page_bytes(p).subrange(0, 16) == header_bytes(
            p.id,
            p.data is Leaf,
            p.data.spec_len() as u32,
        ),
{
    let n = p.data.spec_len() as int;
    lemma_auto_spec_u32_to_from_le_bytes();
    lemma_auto_spec_u64_to_from_le_bytes();
    lemma_slots_len(p.data, n);
    assert(page_bytes(p).subrange(0, 16) =~= header_bytes(p.id, p.data is Leaf, n as u32));
}

/// Where item `i` is in the bytes of a page, and what its slot holds.
pub proof fn lemma_item(p: Page, i: int)
    requires
        encodable(p),
        0 <= i < p.data.spec_len(),
    ensures
        page_bytes(p).subrange(16 + 16 * i, 32 + 16 * i) == slot_of(
            p.data is Leaf,
            key_len(p.data, i) as u32,
            value_len(p.data, i) as u32,
            tag_of(p.data, i),
            child_of(p.data, i),
        ),
        key_len(p.data, i) <= u32::MAX,
        value_len(p.data, i) <= u32::MAX,
        p.data is Leaf ==> tag_of(p.data, i) == ENTRY_PAIR || tag_of(p.data, i) == ENTRY_BUCKET,
        p.data is Leaf && tag_of(p.data, i) == ENTRY_BUCKET ==> value_len(p.data, i) == 16,
        p.data is Branches ==> value_len(p.data, i) == 0,
        blobs_upto(p.data, i + 1).len() == blobs_upto(p.data, i).len() + key_len(p.data, i)
            + value_len(p.data, i),
        blobs_upto(p.data, i + 1).len() <= blobs_upto(p.data, p.data.spec_len() as int).len(),
{
    let n = p.data.spec_len() as int;
    lemma_auto_spec_u32_to_from_le_bytes();
    lemma_auto_spec_u64_to_from_le_bytes();
    lemma_slots_len(p.data, n);
    lemma_slot_at(p.data, n, i);
    lemma_slot_is(p.data, i);
    lemma_blob_at(p.data, n, i);
    assert(key_len(p.data, i) <= u32::MAX);
    let b = page_bytes(p);
    assert(b.subrange(16 + 16 * i, 32 + 16 * i) =~= slots_upto(p.data, n).subrange(
        16 * i,
        16 * i + 16,
    ));
}

impl Page {
    /// The page that the bytes stand for; `None` if they stand for none.
    /// The bytes of the page are the bytes that were given.
    pub fn from_bytes(bytes: &[u8]) -> (r: Option<Page>)
        ensures
            r matches Some(p) ==> encodable(p) && page_bytes(p) == bytes@,
            forall|p: Page| encodable(p) && #[trigger] page_bytes(p) == bytes@ ==> r is Some,
    {
        let len = bytes.len();
        proof {
            assert forall|p: Page| encodable(p) && #[trigger] page_bytes(p) == bytes@ implies bytes@.len()
                >= 16 && bytes@.subrange(0, 16) == header_bytes(
                p.id,
                p.data is Leaf,
                p.data.spec_len() as u32,
            ) && bytes@.len() == 16 + 16 * p.data.spec_len() + blobs_upto(
                p.data,
                p.data.spec_len() as int,
            ).len() by {
                lemma_head(p);
            }
        }
        let (id, leaf, count) = match parse_header(bytes) {
            Some(h) => h,
            None => {
                return None;
            },
        };
        if (count as u64) * 16 + 16 > len as u64 {
            return None;
        }
        let n = count as usize;
        let slots_end: usize = 16 + 16 * n;
        let mut at: usize = slots_end;
        let ghost head = bytes@.subrange(0, 16);
        if leaf {
            let mut es: Vec<Data> = Vec::new();
            let mut i: usize = 0;
            proof {
                assert(bytes@.subrange(16, 16) =~= Seq::<u8>::empty());
                assert(bytes@.subrange(slots_end as int, at as int) =~= Seq::<u8>::empty());
            }
            while i < n
                invariant
                    i <= n,
                    n == count,
                    len == bytes@.len(),
                    slots_end == 16 + 16 * n,
                    slots_end <= at <= len,
                    es@.len() == i,
                    head == bytes@.subrange(0, 16),
                    head == header_bytes(id, true, count),
                    slots_upto(NodeData::Leaf(es), i as int) == bytes@.subrange(16, 16 + 16 * i),
                    blobs_upto(NodeData::Leaf(es), i as int) == bytes@.subrange(
                        slots_end as int,
                        at as int,
                    ),
                    forall|j: int|
                        0 <= j < i ==> #[trigger] key_len(NodeData::Leaf(es), j) <= u32::MAX
                            && value_len(NodeData::Leaf(es), j) <= u32::MAX,
                    forall|p: Page|
                        encodable(p) && #[trigger] page_bytes(p) == bytes@ ==> p.data is Leaf
                            && p.data.spec_len() == n && blobs_upto(p.data, i as int).len() == at
                            - slots_end,
                decreases n - i,
            {
                let slot = 16 + 16 * i;
                let ghost before = NodeData::Leaf(es);
                proof {
                    assert forall|p: Page|
                        encodable(p) && #[trigger] page_bytes(p) == bytes@ implies bytes@.subrange(
                        slot as int,
                        slot + 16,
                    ) == slot_of(
                        true,
                        key_len(p.data, i as int) as u32,
                        value_len(p.data, i as int) as u32,
                        tag_of(p.data, i as int),
                        0,
                    ) && (tag_of(p.data, i as int) == ENTRY_PAIR || tag_of(p.data, i as int)
                        == ENTRY_BUCKET) && (tag_of(p.data, i as int) == ENTRY_BUCKET
                        ==> value_len(p.data, i as int) == 16) && key_len(p.data, i as int)
                        <= u32::MAX && value_len(p.data, i as int) <= u32::MAX && at - slots_end
                        + key_len(p.data, i as int) + value_len(p.data, i as int) == blobs_upto(
                        p.data,
                        i + 1,
                    ).len() && blobs_upto(p.data, i + 1).len() <= len - slots_end by {
                        lemma_head(p);
                        lemma_item(p, i as int);
                    }
                }
                let (klen, vlen, tag, _) = match parse_slot(bytes, slot, true) {
                    Some(x) => x,
                    None => {
                        return None;
                    },
                };
                if tag == ENTRY_BUCKET && vlen != 16 {
                    return None;
                }
                let left = len - at;
                if klen as u64 > left as u64 {
                    return None;
                }
                let key_end = at + klen as usize;
                if vlen as u64 > (len - key_end) as u64 {
                    return None;
                }
                let value_end = key_end + vlen as usize;
                let key = copy_bytes(slice_subrange(bytes, at, key_end));
                let value = slice_subrange(bytes, key_end, value_end);
                let item = if tag == ENTRY_PAIR {
                    Data::KeyValue(KVPair::from_slice_parts(key, copy_bytes(value)))
                } else {
                    match BucketMeta::from_bytes(value) {
                        Some(m) => Data::Bucket(BucketData::from_meta(key, &m)),
                        None => {
                            return None;
                        },
                    }
                };
                proof {
                    if vlen == 16 {
                        lemma_bytes_round_trip(value@);
                    }
                }
                es.push(item);
                proof {
                    let after = NodeData::Leaf(es);
                    assert forall|j: int| 0 <= j < i implies slot_bytes(after, j) == slot_bytes(
                        before,
                        j,
                    ) && blob_bytes(after, j) == blob_bytes(before, j) && key_len(after, j)
                        == key_len(before, j) && value_len(after, j) == value_len(before, j) by {
                        assert(es@[j] == before->Leaf_0@[j]);
                    }
                    lemma_upto_agree(after, before, i as int);
                    lemma_slot_is(after, i as int);
                    assert(key_len(after, i as int) == klen);
                    assert(value_len(after, i as int) == vlen);
                    assert(blob_bytes(after, i as int) =~= bytes@.subrange(
                        at as int,
                        value_end as int,
                    ));
                    assert(slots_upto(after, i + 1) =~= bytes@.subrange(16, 16 + 16 * (i + 1)));
                    assert(blobs_upto(after, i + 1) =~= bytes@.subrange(
                        slots_end as int,
                        value_end as int,
                    ));
                }
                at = value_end;
                i += 1;
            }
            if at != len {
                return None;
            }
            let page = Page { id, data: NodeData::Leaf(es) };
            proof {
                assert(encodable(page));
                assert(bytes@ =~= head + bytes@.subrange(16, slots_end as int) + bytes@.subrange(
                    slots_end as int,
                    len as int,
                ));
                assert(page_bytes(page) =~= bytes@);
            }
            Some(page)
        } else {
            let mut bs: Vec<Branch> = Vec::new();
            let mut i: usize = 0;
            proof {
                assert(bytes@.subrange(16, 16) =~= Seq::<u8>::empty());
                assert(bytes@.subrange(slots_end as int, at as int) =~= Seq::<u8>::empty());
            }
            while i < n
                invariant
                    i <= n,
                    n == count,
                    len == bytes@.len(),
                    slots_end == 16 + 16 * n,
                    slots_end <= at <= len,
                    bs@.len() == i,
                    head == bytes@.subrange(0, 16),
                    head == header_bytes(id, false, count),
                    slots_upto(NodeData::Branches(bs), i as int) == bytes@.subrange(
                        16,
                        16 + 16 * i,
                    ),
                    blobs_upto(NodeData::Branches(bs), i as int) == bytes@.subrange(
                        slots_end as int,
                        at as int,
                    ),
                    forall|j: int|
                        0 <= j < i ==> #[trigger] key_len(NodeData::Branches(bs), j) <= u32::MAX
                            && bs@[j].target is Page,
                    forall|p: Page|
                        encodable(p) && #[trigger] page_bytes(p) == bytes@ ==> p.data is Branches
                            && p.data.spec_len() == n && blobs_upto(p.data, i as int).len() == at
                            - slots_end,
                decreases n - i,
            {
                let slot = 16 + 16 * i;
                let ghost before = NodeData::Branches(bs);
                proof {
                    assert forall|p: Page|
                        encodable(p) && #[trigger] page_bytes(p) == bytes@ implies bytes@.subrange(
                        slot as int,
                        slot + 16,
                    ) == slot_of(
                        false,
                        key_len(p.data, i as int) as u32,
                        0,
                        0,
                        child_of(p.data, i as int),
                    ) && key_len(p.data, i as int) <= u32::MAX && at - slots_end + key_len(
                        p.data,
                        i as int,
                    ) == blobs_upto(p.data, i + 1).len() && blobs_upto(p.data, i + 1).len() <= len
                        - slots_end by {
                        lemma_head(p);
                        lemma_item(p, i as int);
                    }
                }
                let (klen, _, _, child) = match parse_slot(bytes, slot, false) {
                    Some(x) => x,
                    None => {
                        return None;
                    },
                };
                let left = len - at;
                if klen as u64 > left as u64 {
                    return None;
                }
                let key_end = at + klen as usize;
                let key = copy_bytes(slice_subrange(bytes, at, key_end));
                bs.push(Branch { key, target: Target::Page(child) });
                proof {
                    let after = NodeData::Branches(bs);
                    assert forall|j: int| 0 <= j < i implies slot_bytes(after, j) == slot_bytes(
                        before,
                        j,
                    ) && blob_bytes(after, j) == blob_bytes(before, j) && key_len(after, j)
                        == key_len(before, j) by {
                        assert(bs@[j] == before->Branches_0@[j]);
                    }
                    lemma_upto_agree(after, before, i as int);
                    lemma_slot_is(after, i as int);
                    assert(key_len(after, i as int) == klen);
                    assert forall|j: int| 0 <= j < i + 1 implies #[trigger] key_len(after, j)
                        <= u32::MAX && bs@[j].target is Page by {
                        if j < i {
                            assert(bs@[j] == before->Branches_0@[j]);
                            assert(key_len(before, j) <= u32::MAX);
                        }
                    }
                    assert(blob_bytes(after, i as int) =~= bytes@.subrange(
                        at as int,
                        key_end as int,
                    ));
                    assert(slots_upto(after, i + 1) =~= bytes@.subrange(16, 16 + 16 * (i + 1)));
                    assert(blobs_upto(after, i + 1) =~= bytes@.subrange(
                        slots_end as int,
                        key_end as int,
                    ));
                }
                at = key_end;
                i += 1;
            }
            if at != len {
                return None;
            }
            let page = Page { id, data: NodeData::Branches(bs) };
            proof {
                assert forall|k: int| 0 <= k < bs@.len() implies (#[trigger] bs@[k]).target
                    is Page by {
                    assert(key_len(NodeData::Branches(bs), k) <= u32::MAX);
                }
                assert(encodable(page));
                assert(bytes@ =~= head + bytes@.subrange(16, slots_end as int) + bytes@.subrange(
                    slots_end as int,
                    len as int,
                ));
                assert(page_bytes(page) =~= bytes@);
            }
            Some(page)
        }
    }
}

/// The two contents hold the same entries, or the same keys filed over
/// the same pages.
pub open spec fn same_items(a: NodeData, b: NodeData) -> bool {
    match (a, b) {
        (NodeData::Leaf(x), NodeData::Leaf(y)) => views(x@) == views(y@),
        (NodeData::Branches(x), NodeData::Branches(y)) => {
            &&& x@.len() == y@.len()
            &&& forall|k: int|
                0 <= k < x@.len() ==> (#[trigger] x@[k]).key@ == y@[k].key@ && x@[k].target
                    == y@[k].target
        },
        _ => false,
    }
}

/// Item `j` has the same lengths, kind, child and bytes in both contents.
pub open spec fn same_item(a: NodeData, b: NodeData, j: int) -> bool {
    &&& key_len(a, j) == key_len(b, j)
    &&& value_len(a, j) == value_len(b, j)
    &&& tag_of(a, j) == tag_of(b, j)
    &&& child_of(a, j) == child_of(b, j)
    &&& blob_bytes(a, j) == blob_bytes(b, j)
}

/// Two pages with the same bytes keep the keys and values of their first
/// `i` items in the same bytes, and each of those items is the same in both.
proof fn lemma_same_upto(p: Page, q: Page, i: int)
    requires
        encodable(p),
        encodable(q),
        page_bytes(p) == page_bytes(q),
        p.data.spec_len() == q.data.spec_len(),
        p.data is Leaf == q.data is Leaf,
        0 <= i <= p.data.spec_len(),
    ensures
        blobs_upto(p.data, i).len() == blobs_upto(q.data, i).len(),
        forall|j: int| 0 <= j < i ==> #[trigger] same_item(p.data, q.data, j),
    decreases i,
{
    if i > 0 {
        let j = i - 1;
        let n = p.data.spec_len() as int;
        lemma_same_upto(p, q, j);
        lemma_head(p);
        lemma_head(q);
        lemma_item(p, j);
        lemma_item(q, j);
        lemma_auto_spec_u32_to_from_le_bytes();
        lemma_auto_spec_u64_to_from_le_bytes();
        let leaf = p.data is Leaf;
        lemma_slot_fields(
            leaf,
            key_len(p.data, j) as u32,
            value_len(p.data, j) as u32,
            tag_of(p.data, j),
            child_of(p.data, j),
        );
        lemma_slot_fields(
            leaf,
            key_len(q.data, j) as u32,
            value_len(q.data, j) as u32,
            tag_of(q.data, j),
            child_of(q.data, j),
        );
        assert(key_len(p.data, j) == key_len(q.data, j));
        assert(value_len(p.data, j) == value_len(q.data, j));
        lemma_blob_at(p.data, n, j);
        lemma_blob_at(q.data, n, j);
        let b = page_bytes(p);
        let off = 16 + 16 * n + blobs_upto(p.data, j).len();
        let blen = blob_bytes(p.data, j).len();
        lemma_slots_len(p.data, n);
        lemma_slots_len(q.data, n);
        assert(b.subrange(off, off + blen) =~= blobs_upto(p.data, n).subrange(
            blobs_upto(p.data, j).len() as int,
            (blobs_upto(p.data, j).len() + blen) as int,
        ));
        assert(blob_bytes(q.data, j).len() == blen);
        assert(b.subrange(off, off + blen) =~= blobs_upto(q.data, n).subrange(
            blobs_upto(q.data, j).len() as int,
            (blobs_upto(q.data, j).len() + blen) as int,
        ));
        assert(blob_bytes(p.data, j) == blob_bytes(q.data, j));
        let sp = slot_of(
            leaf,
            key_len(p.data, j) as u32,
            value_len(p.data, j) as u32,
            tag_of(p.data, j),
            child_of(p.data, j),
        );
        let sq = slot_of(
            leaf,
            key_len(q.data, j) as u32,
            value_len(q.data, j) as u32,
            tag_of(q.data, j),
            child_of(q.data, j),
        );
        assert(sp == sq);
        if leaf {
            assert(sp[8] == sq[8]);
        } else {
            assert(sp.subrange(8, 16) == sq.subrange(8, 16));
        }
        assert(tag_of(p.data, j) == tag_of(q.data, j));
        assert(child_of(p.data, j) == child_of(q.data, j));
        assert(blobs_upto(p.data, i).len() == blobs_upto(q.data, i).len());
        assert forall|k: int| 0 <= k < i implies #[trigger] same_item(p.data, q.data, k) by {
            if k < j {
                assert(same_item(p.data, q.data, k));
            }
        }
    }
}

/// The bytes of a page say what the page is: two pages with the same bytes
/// have the same identifier and hold the same items.  So the page read
/// back from the bytes of a page is that page.
pub proof fn law_page_round_trip(p: Page, q: Page)
    requires
        encodable(p),
        encodable(q),
        page_bytes(p) == page_bytes(q),
    ensures
        p.id == q.id,
        same_items(p.data, q.data),
{
    lemma_head(p);
    lemma_head(q);
    lemma_auto_spec_u32_to_from_le_bytes();
    lemma_auto_spec_u64_to_from_le_bytes();
    let n = p.data.spec_len() as int;
    let hp = header_bytes(p.id, p.data is Leaf, p.data.spec_len() as u32);
    let hq = header_bytes(q.id, q.data is Leaf, q.data.spec_len() as u32);
    assert(hp == hq);
    assert(hp.subrange(0, 8) =~= spec_u64_to_le_bytes(p.id));
    assert(hq.subrange(0, 8) =~= spec_u64_to_le_bytes(q.id));
    assert(hp.subrange(12, 16) =~= spec_u32_to_le_bytes(p.data.spec_len() as u32));
    assert(hq.subrange(12, 16) =~= spec_u32_to_le_bytes(q.data.spec_len() as u32));
    assert(hp[8] == hq[8]);
    assert(p.data is Leaf == q.data is Leaf);
    assert(p.data.spec_len() == q.data.spec_len());
    lemma_same_upto(p, q, n);
    match (p.data, q.data) {
        (NodeData::Leaf(x), NodeData::Leaf(y)) => {
            assert forall|k: int| 0 <= k < n implies x@[k]@ == y@[k]@ by {
                assert(same_item(p.data, q.data, k));
                let bp = blob_bytes(p.data, k);
                let bq = blob_bytes(q.data, k);
                let kl = key_len(p.data, k) as int;
                assert(bp.subrange(0, kl) =~= x@[k]@.key());
                assert(bq.subrange(0, kl) =~= y@[k]@.key());
                assert(bp.subrange(kl, bp.len() as int) =~= x@[k]@.value_bytes());
                assert(bq.subrange(kl, bq.len() as int) =~= y@[k]@.value_bytes());
                if x@[k]@ is Bucket {
                    lemma_meta_round_trip(x@[k]@->meta);
                    lemma_meta_round_trip(y@[k]@->meta);
                }
            }
            assert(views(x@) =~= views(y@));
        },
        (NodeData::Branches(x), NodeData::Branches(y)) => {
            assert forall|k: int| 0 <= k < x@.len() implies (#[trigger] x@[k]).key@ == y@[k].key@
                && x@[k].target == y@[k].target by {
                assert(same_item(p.data, q.data, k));
                assert(x@[k].target is Page);
                assert(y@[k].target is Page);
            }
        },
        _ => {},
    }
}

} // verus!
