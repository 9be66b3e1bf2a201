//! How many bytes the content of a node takes on a page.

use vstd::prelude::*;
use crate::bytes::copy_bytes;
use crate::node::{Branch, NodeData};

verus! {

/// The bytes at the start of every page: identifier, kind and count.
pub const PAGE_HEADER: usize = 16;

/// The bytes a branch page spends on one child pointer besides its key.
pub const BRANCH_OVERHEAD: usize = 16;

/// `n` as a machine integer, or the largest one if `n` is beyond them.
pub open spec fn capped(n: nat) -> usize {
    if n <= usize::MAX {
        n as usize
    } else {
        usize::MAX
    }
}

/// The bytes that item `i` of the content takes on a page.
pub open spec fn item_bytes(data: NodeData, i: int) -> nat {
    match data {
        NodeData::Leaf(es) => es@[i]@.size(),
        NodeData::Branches(bs) => BRANCH_OVERHEAD as nat + bs@[i].key@.len(),
    }
}

/// The bytes that the first `n` items of the content take on a page.
pub open spec fn sum_bytes(data: NodeData, n: int) -> nat
    decreases n,
{
    if n <= 0 {
        0
    } else {
        sum_bytes(data, n - 1) + item_bytes(data, n - 1)
    }
}

/// The bytes that the content takes on a page, the header included.
pub open spec fn data_bytes(data: NodeData) -> nat {
    PAGE_HEADER as nat + sum_bytes(data, data.spec_len() as int)
}

/// The fewest items that a node is cut down to: one entry for a leaf,
/// two children for a branch.
pub open spec fn min_items(data: NodeData) -> nat {
    if data is Leaf {
        1
    } else {
        2
    }
}

/// The content goes on one page, or holds so few items that it is given a
/// page of its own however large they are.
pub open spec fn fits(data: NodeData, page_size: usize) -> bool {
    data_bytes(data) <= page_size || data.spec_len() <= min_items(data)
}

/// The bytes of the first `n` items depend on those items only.
pub proof fn lemma_sum_agree(a: NodeData, b: NodeData, n: int)
    requires
        0 <= n <= a.spec_len(),
        n <= b.spec_len(),
        forall|i: int| 0 <= i < n ==> item_bytes(a, i) == item_bytes(b, i),
    ensures
        sum_bytes(a, n) == sum_bytes(b, n),
    decreases n,
{
    if n > 0 {
        lemma_sum_agree(a, b, n - 1);
    }
}

/// More items take at least as many bytes.
pub proof fn lemma_sum_monotone(a: NodeData, m: int, n: int)
    requires
        0 <= m <= n,
    ensures
        sum_bytes(a, m) <= sum_bytes(a, n),
    decreases n - m,
{
    if m < n {
        lemma_sum_monotone(a, m, n - 1);
    }
}

impl NodeData {
    /// The bytes that item `i` takes on a page, capped at `usize::MAX`.
    pub fn item_size(&self, i: usize) -> (n: usize)
        requires
            i < self.spec_len(),
        ensures
            n == capped(item_bytes(*self, i as int)),
    {
        match self {
            NodeData::Leaf(es) => es[i].size(),
            NodeData::Branches(bs) => BRANCH_OVERHEAD.saturating_add(bs[i].key.len()),
        }
    }

    /// The bytes that the content takes on a page, capped at `usize::MAX`.
    pub fn size(&self) -> (n: usize)
        ensures
            n == capped(data_bytes(*self)),
    {
        let len = self.len();
        let mut total: usize = PAGE_HEADER;
        let mut i: usize = 0;
        while i < len
            invariant
                i <= len,
                len == self.spec_len(),
                total == capped(PAGE_HEADER as nat + sum_bytes(*self, i as int)),
            decreases len - i,
        {
            total = total.saturating_add(self.item_size(i));
            i += 1;
        }
        total
    }

    /// The bytes that the content takes on a page; `None` if they are more
    /// than `usize::MAX`.
    pub fn exact_size(&self) -> (r: Option<usize>)
        ensures
            r == (if data_bytes(*self) <= usize::MAX {
                Some(data_bytes(*self) as usize)
            } else {
                None
            }),
    {
        let len = self.len();
        let mut total: usize = PAGE_HEADER;
        let mut i: usize = 0;
        while i < len
            invariant
                i <= len,
                len == self.spec_len(),
                total == PAGE_HEADER + sum_bytes(*self, i as int),
            decreases len - i,
        {
            match total.checked_add(self.item_size(i)) {
                Some(next) => {
                    total = next;
                },
                None => {
                    proof {
                        lemma_sum_monotone(*self, i + 1, len as int);
                    }
                    return None;
                },
            }
            i += 1;
        }
        Some(total)
    }

    /// How many of the first items go on one page together: as many as
    /// fit, and the fewest that a node is cut down to at least.
    pub fn prefix_fit(&self, page_size: usize) -> (c: usize)
        requires
            self.spec_len() > 0,
        ensures
            1 <= c <= self.spec_len(),
            self.spec_len() >= min_items(*self) ==> c >= min_items(*self),
            c > min_items(*self) ==> PAGE_HEADER + sum_bytes(*self, c as int) <= page_size,
            c < self.spec_len() ==> PAGE_HEADER + sum_bytes(*self, c + 1) > page_size,
    {
        let len = self.len();
        let least: usize = if self.is_leaf() {
            1
        } else {
            2
        };
        let mut total: usize = PAGE_HEADER;
        let mut c: usize = 0;
        while c < len
            invariant
                0 <= c <= len,
                len == self.spec_len(),
                total == PAGE_HEADER + sum_bytes(*self, c as int),
                c > 0 ==> total <= page_size,
            ensures
                0 <= c <= len,
                c > 0 ==> PAGE_HEADER + sum_bytes(*self, c as int) <= page_size,
                c < len ==> PAGE_HEADER + sum_bytes(*self, c + 1) > page_size,
            decreases len - c,
        {
            let item = self.item_size(c);
            match total.checked_add(item) {
                Some(next) => {
                    if next > page_size {
                        break ;
                    }
                    total = next;
                    c += 1;
                },
                None => {
                    break ;
                },
            }
        }
        if c < least {
            let forced = if len < least {
                len
            } else {
                least
            };
            proof {
                if forced < len {
                    lemma_sum_monotone(*self, c + 1, forced + 1);
                }
            }
            forced
        } else {
            c
        }
    }

    /// Whether the content goes on one page, or holds too few items to
    /// be cut.
    pub fn fits_page(&self, page_size: usize) -> (b: bool)
        ensures
            b == fits(*self, page_size),
    {
        let least: usize = if self.is_leaf() {
            1
        } else {
            2
        };
        if self.len() <= least {
            return true;
        }
        let c = self.prefix_fit(page_size);
        proof {
            if c < self.spec_len() {
                lemma_sum_monotone(*self, c + 1, self.spec_len() as int);
            }
        }
        c == self.len()
    }

    /// The key of the first item.
    pub open spec fn spec_first_key(&self) -> Seq<u8> {
        match self {
            NodeData::Leaf(es) => es@[0]@.key(),
            NodeData::Branches(bs) => bs@[0].key@,
        }
    }

    /// A copy of the key of the first item.
    pub fn first_key(&self) -> (k: Vec<u8>)
        requires
            self.spec_len() > 0,
        ensures
            k@ == self.spec_first_key(),
    {
        match self {
            NodeData::Leaf(es) => copy_bytes(es[0].key()),
            NodeData::Branches(bs) => copy_bytes(bs[0].key.as_slice()),
        }
    }

    /// `head` and `tail` are this content cut in two before item `at`.
    pub open spec fn cut_into(&self, at: int, head: NodeData, tail: NodeData) -> bool {
        match (*self, head, tail) {
            (NodeData::Leaf(o), NodeData::Leaf(f), NodeData::Leaf(t)) => f@ == o@.subrange(0, at)
                && t@ == o@.subrange(at, o@.len() as int),
            (NodeData::Branches(o), NodeData::Branches(f), NodeData::Branches(t)) => f@
                == o@.subrange(0, at) && t@ == o@.subrange(at, o@.len() as int),
            _ => false,
        }
    }

    /// Takes the items from `at` on out of the content.
    pub fn split_off(&mut self, at: usize) -> (tail: NodeData)
        requires
            at <= old(self).spec_len(),
        ensures
            old(self).cut_into(at as int, *final(self), tail),
    {
        match self {
            NodeData::Leaf(es) => NodeData::Leaf(es.split_off(at)),
            NodeData::Branches(bs) => NodeData::Branches(bs.split_off(at)),
        }
    }
}

/// The bytes of the two parts of a content that was cut in two.
pub proof fn lemma_cut_bytes(data: NodeData, at: int, head: NodeData, tail: NodeData, n: int)
    requires
        0 <= at <= data.spec_len(),
        data.cut_into(at, head, tail),
        0 <= n <= tail.spec_len(),
    ensures
        head.spec_len() == at,
        tail.spec_len() == data.spec_len() - at,
        forall|i: int| 0 <= i < at ==> item_bytes(head, i) == item_bytes(data, i),
        forall|i: int|
            0 <= i < data.spec_len() - at ==> item_bytes(tail, i) == item_bytes(data, at + i),
        sum_bytes(head, at) == sum_bytes(data, at),
        sum_bytes(data, at + n) == sum_bytes(data, at) + sum_bytes(tail, n),
    decreases n,
{
    lemma_sum_agree(head, data, at);
    if n > 0 {
        lemma_cut_bytes(data, at, head, tail, n - 1);
    }
}

/// Puts `items` into `list` before the item at `at`.
pub fn insert_all(list: &mut Vec<Branch>, at: usize, items: Vec<Branch>)
    requires
        at <= old(list)@.len(),
    ensures
        final(list)@ == old(list)@.subrange(0, at as int) + items@ + old(list)@.subrange(
            at as int,
            old(list)@.len() as int,
        ),
{
    let mut items = items;
    let mut rest = list.split_off(at);
    list.append(&mut items);
    list.append(&mut rest);
}

} // verus!
