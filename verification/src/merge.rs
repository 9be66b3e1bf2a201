//! Merging: nodes that deletes have left nearly empty are folded into a
//! neighbour, and the pages they stood for are given back.

use vstd::prelude::*;
use crate::data::{views, Entry};
use crate::fold::{join, lemma_above_weaken, lemma_below_weaken, lemma_fold, lemma_join};
use crate::bytes::key_le;
use crate::meta::PageID;
use crate::node::{
    data_good, data_ok, data_tree, lemma_branch_tree, target_ok, target_tree, Branch, Node,
    NodeData, Target,
};
use crate::page::Page;
use crate::size::{data_bytes, item_bytes, lemma_sum_agree, lemma_sum_monotone, sum_bytes, PAGE_HEADER};
use crate::split::{lemma_links, links_of};
use crate::tree::{
    bounded_hi, bounded_lo, child_hi, child_lo, flat_all, flat_upto, lemma_child_bounds,
    lemma_expand, lemma_seps_above_weaken, lemma_seps_below_weaken, replaced, Link,
};

verus! {

/// `later` is `earlier` with more page identifiers at its end.
pub open spec fn grown(later: Seq<PageID>, earlier: Seq<PageID>) -> bool {
    &&& earlier.len() <= later.len()
    &&& later.subrange(0, earlier.len() as int) == earlier
}

/// A list that keeps what a list held that had grown, or was the first,
/// has grown from the first.
pub proof fn lemma_grown_step(start: Seq<PageID>, mid: Seq<PageID>, now: Seq<PageID>)
    requires
        mid == start || grown(mid, start),
        mid.len() <= now.len(),
        forall|i: int| 0 <= i < mid.len() ==> now[i] == mid[i],
    ensures
        grown(now, start),
{
    assert(now.subrange(0, start.len() as int) =~= mid.subrange(0, start.len() as int));
    assert(start.subrange(0, start.len() as int) =~= start);
}

/// `out` holds the items of `l` and then those of `r`; where they are
/// child pointers, the first of `r` is filed under `key`.
pub open spec fn joined(l: NodeData, r: NodeData, key: Seq<u8>, out: NodeData) -> bool {
    match (l, r, out) {
        (NodeData::Leaf(a), NodeData::Leaf(b), NodeData::Leaf(c)) => c@ == a@ + b@,
        (NodeData::Branches(a), NodeData::Branches(b), NodeData::Branches(c)) => {
            &&& b@.len() > 0
            &&& c@.len() == a@.len() + b@.len()
            &&& forall|i: int| 0 <= i < a@.len() ==> c@[i] == a@[i]
            &&& forall|i: int| 1 <= i < b@.len() ==> c@[a@.len() + i] == b@[i]
            &&& c@[a@.len() as int].key@ == key
            &&& c@[a@.len() as int].target == b@[0].target
        },
        _ => false,
    }
}

/// The content made of two contents stands for the tree made of their trees.
pub proof fn lemma_data_join(
    pages: Seq<Page>,
    h: nat,
    l: NodeData,
    r: NodeData,
    key: Seq<u8>,
    out: NodeData,
)
    requires
        joined(l, r, key, out),
        data_ok(pages, l, h),
        data_ok(pages, r, h),
    ensures
        data_ok(pages, out, h),
        data_tree(pages, out, h) == join(data_tree(pages, l, h), data_tree(pages, r, h), key),
{
    match (l, r, out) {
        (NodeData::Leaf(a), NodeData::Leaf(b), NodeData::Leaf(c)) => {
            assert(views(c@) =~= views(a@) + views(b@));
        },
        (NodeData::Branches(a), NodeData::Branches(b), NodeData::Branches(c)) => {
            let hc = (h - 1) as nat;
            let x = data_tree(pages, l, h)->Branch_0;
            let y = data_tree(pages, r, h)->Branch_0;
            let z = data_tree(pages, out, h)->Branch_0;
            let n = a@.len() as int;
            assert forall|k: int| 0 <= k < c@.len() implies target_ok(
                pages,
                (#[trigger] c@[k]).target,
                hc,
            ) by {
                if k < n {
                    assert(target_ok(pages, a@[k].target, hc));
                } else {
                    assert(target_ok(pages, b@[k - n].target, hc));
                }
            }
            assert(z =~= x + y.update(0, Link { key, sub: y[0].sub }));
        },
        _ => {},
    }
}

/// Moves the items of `right` to the end of `left`; `key` is the key that
/// `right` was filed under.  The page that `right` stood for is given back.
fn join_nodes(left: &mut Node, right: Node, key: Vec<u8>, freed: &mut Vec<PageID>)
    requires
        old(left).data is Leaf == right.data is Leaf,
        right.data is Branches ==> right.data.spec_len() > 0,
    ensures
        final(left).page_id == old(left).page_id,
        joined(old(left).data, right.data, key@, final(left).data),
        grown(final(freed)@, old(freed)@),
{
    right.free_page(freed);
    let Node { page_id: _, data } = right;
    proof {
        lemma_grown_step(old(freed)@, old(freed)@, freed@);
    }
    match &mut left.data {
        NodeData::Leaf(les) => {
            match data {
                NodeData::Leaf(res) => {
                    let mut res = res;
                    les.append(&mut res);
                },
                NodeData::Branches(_) => {},
            }
        },
        NodeData::Branches(lbs) => {
            match data {
                NodeData::Branches(rbs) => {
                    let mut rbs = rbs;
                    let first = &mut rbs[0];
                    first.key = key;
                    lbs.append(&mut rbs);
                },
                NodeData::Leaf(_) => {},
            }
        },
    }
}

/// Whether the child is a node that holds nothing.
fn is_empty_node(b: &Branch) -> (r: bool)
    ensures
        r == (b.target matches Target::Node(n) && n.data.spec_len() == 0),
{
    match &b.target {
        Target::Node(n) => n.data.len() == 0,
        Target::Page(_) => false,
    }
}

/// The bytes that the node `right` takes at most once its items are at
/// the end of the node `left`: the bytes of both, one page header less,
/// and for branches the key that `right` is filed under, which its first
/// child is filed under from then on.
pub open spec fn joint_bytes(left: Branch, right: Branch) -> int {
    data_bytes(left.target->Node_0.data) + data_bytes(right.target->Node_0.data) - PAGE_HEADER + (
    if right.target->Node_0.data is Leaf {
        0int
    } else {
        right.key@.len() as int
    })
}

/// The two children are nodes of one kind, and the items of both go on
/// one page together.
pub open spec fn joinable(left: Branch, right: Branch, page_size: usize) -> bool {
    &&& left.target is Node
    &&& right.target is Node
    &&& left.target->Node_0.data is Leaf == right.target->Node_0.data is Leaf
    &&& joint_bytes(left, right) <= page_size
}

/// The child is a node that takes fewer bytes than `min_fill`.
pub open spec fn underfull(b: Branch, min_fill: usize) -> bool {
    b.target is Node && data_bytes(b.target->Node_0.data) < min_fill
}

/// The child is a node that holds nothing.
pub open spec fn is_empty(b: Branch) -> bool {
    b.target is Node && b.target->Node_0.data.spec_len() == 0
}

/// One of the two neighbours is underfull, and the two go on one page
/// together: the second is to be folded into the first.
pub open spec fn foldable(a: Branch, b: Branch, page_size: usize, min_fill: usize) -> bool {
    (underfull(a, min_fill) || underfull(b, min_fill)) && joinable(a, b, page_size)
}

/// Among the first `k` children nothing is left to fold: none is a node
/// that holds nothing, unless it is the only child, and no two neighbours
/// are to be folded.
pub open spec fn merged_upto(bs: Seq<Branch>, k: int, page_size: usize, min_fill: usize) -> bool {
    &&& forall|j: int| 0 <= j < k && is_empty(#[trigger] bs[j]) ==> bs.len() == 1
    &&& forall|i: int, j: int|
        0 <= i && j == i + 1 && j < k ==> !foldable(
            #[trigger] bs[i],
            #[trigger] bs[j],
            page_size,
            min_fill,
        )
}

/// A node that has taken the items of its right neighbour is of the kind
/// it was, holds the items of both, and takes at least the bytes it took.
pub proof fn lemma_joined_bytes(l: NodeData, r: NodeData, key: Seq<u8>, out: NodeData)
    requires
        joined(l, r, key, out),
    ensures
        out is Leaf == l is Leaf,
        out.spec_len() == l.spec_len() + r.spec_len(),
        data_bytes(out) >= data_bytes(l),
{
    let n = l.spec_len() as int;
    match (l, r, out) {
        (NodeData::Leaf(a), NodeData::Leaf(b), NodeData::Leaf(c)) => {
            assert(c@.len() == a@.len() + b@.len());
            assert forall|i: int| 0 <= i < n implies item_bytes(out, i) == item_bytes(l, i) by {
                assert(c@[i] == a@[i]);
            }
        },
        (NodeData::Branches(a), NodeData::Branches(b), NodeData::Branches(c)) => {
            assert forall|i: int| 0 <= i < n implies item_bytes(out, i) == item_bytes(l, i) by {
                assert(c@[i] == a@[i]);
            }
        },
        _ => {},
    }
    lemma_sum_agree(out, l, n);
    lemma_sum_monotone(out, n, out.spec_len() as int);
}

/// A child that was merged below keeps what was settled before it.
pub proof fn lemma_merged_keep(
    before: Seq<Branch>,
    after: Seq<Branch>,
    k: int,
    page_size: usize,
    min_fill: usize,
)
    requires
        merged_upto(before, k, page_size, min_fill),
        after.len() == before.len(),
        forall|j: int| 0 <= j < k ==> after[j] == before[j],
    ensures
        merged_upto(after, k, page_size, min_fill),
{
    assert forall|j: int| 0 <= j < k && is_empty(#[trigger] after[j]) implies after.len() == 1 by {
        assert(is_empty(before[j]));
    }
    assert forall|i: int, j: int| 0 <= i && j == i + 1 && j < k implies !foldable(
        #[trigger] after[i],
        #[trigger] after[j],
        page_size,
        min_fill,
    ) by {
        assert(!foldable(before[i], before[j], page_size, min_fill));
    }
}

/// Child `k` taken out of more than one child keeps what was settled
/// before it.
pub proof fn lemma_merged_drop(
    before: Seq<Branch>,
    after: Seq<Branch>,
    k: int,
    page_size: usize,
    min_fill: usize,
)
    requires
        merged_upto(before, k, page_size, min_fill),
        0 <= k < before.len(),
        before.len() > 1,
        after == before.remove(k),
    ensures
        merged_upto(after, k, page_size, min_fill),
{
    assert forall|j: int| 0 <= j < k && is_empty(#[trigger] after[j]) implies after.len() == 1 by {
        assert(after[j] == before[j]);
        assert(is_empty(before[j]));
    }
    assert forall|i: int, j: int| 0 <= i && j == i + 1 && j < k implies !foldable(
        #[trigger] after[i],
        #[trigger] after[j],
        page_size,
        min_fill,
    ) by {
        assert(after[i] == before[i] && after[j] == before[j]);
        assert(!foldable(before[i], before[j], page_size, min_fill));
    }
}

/// Child `k` folded into the child before it keeps what was settled: the
/// child before it has grown, so it is no easier to fold than it was.
pub proof fn lemma_merged_join(
    before: Seq<Branch>,
    after: Seq<Branch>,
    k: int,
    page_size: usize,
    min_fill: usize,
)
    requires
        merged_upto(before, k, page_size, min_fill),
        1 <= k < before.len(),
        after.len() == before.len() - 1,
        forall|j: int| 0 <= j < k - 1 ==> after[j] == before[j],
        after[k - 1].key == before[k - 1].key,
        before[k - 1].target is Node,
        before[k].target is Node,
        after[k - 1].target is Node,
        before[k].target->Node_0.data is Branches ==> before[k].target->Node_0.data.spec_len() > 0,
        !is_empty(before[k]),
        joined(
            before[k - 1].target->Node_0.data,
            before[k].target->Node_0.data,
            before[k].key@,
            after[k - 1].target->Node_0.data,
        ),
    ensures
        merged_upto(after, k, page_size, min_fill),
{
    lemma_joined_bytes(
        before[k - 1].target->Node_0.data,
        before[k].target->Node_0.data,
        before[k].key@,
        after[k - 1].target->Node_0.data,
    );
    assert forall|j: int| 0 <= j < k && is_empty(#[trigger] after[j]) implies after.len() == 1 by {
        if j < k - 1 {
            assert(is_empty(before[j]));
        }
    }
    assert forall|i: int, j: int| 0 <= i && j == i + 1 && j < k implies !foldable(
        #[trigger] after[i],
        #[trigger] after[j],
        page_size,
        min_fill,
    ) by {
        assert(!foldable(before[i], before[j], page_size, min_fill));
    }
}

/// Whether the two children are nodes of one kind whose items go on one
/// page together.
fn can_join(left: &Branch, right: &Branch, page_size: usize) -> (r: bool)
    ensures
        r == joinable(*left, *right, page_size),
{
    match &left.target {
        Target::Node(l) => match &right.target {
            Target::Node(r) => {
                if l.data.is_leaf() != r.data.is_leaf() {
                    return false;
                }
                let a = match l.data.exact_size() {
                    Some(x) => x,
                    None => {
                        return false;
                    },
                };
                let b = match r.data.exact_size() {
                    Some(x) => x,
                    None => {
                        return false;
                    },
                };
                let extra = if r.data.is_leaf() {
                    0
                } else {
                    right.key.len()
                };
                match (a - PAGE_HEADER).checked_add(b) {
                    Some(both) => match both.checked_add(extra) {
                        Some(all) => all <= page_size,
                        None => false,
                    },
                    None => false,
                }
            },
            Target::Page(_) => false,
        },
        Target::Page(_) => false,
    }
}

/// Whether the child is a node that takes fewer bytes than `min_fill`.
fn is_underfull(b: &Branch, min_fill: usize) -> (r: bool)
    ensures
        r == underfull(*b, min_fill),
{
    match &b.target {
        Target::Node(n) => n.data.size() < min_fill,
        Target::Page(_) => false,
    }
}

/// What merging below child `k` has done to the child: it is well formed
/// as before, with the same entries, within the same bounds.
pub open spec fn child_merged(
    pages: Seq<Page>,
    h: nat,
    before: Branch,
    after: Branch,
    lo: Option<Seq<u8>>,
    hi: Option<Seq<u8>>,
) -> bool {
    let first = target_tree(pages, after.target, h);
    &&& after.key == before.key
    &&& target_ok(pages, after.target, h)
    &&& first.shaped(h)
    &&& first.ordered()
    &&& bounded_lo(first, lo)
    &&& bounded_hi(first, hi)
    &&& first.flat() == target_tree(pages, before.target, h).flat()
    &&& after.target is Node == before.target is Node
}

/// A child changed within its bounds, with the same entries, leaves the
/// branch well formed as before.
pub proof fn lemma_settled(
    pages: Seq<Page>,
    h: nat,
    before: NodeData,
    after: NodeData,
    k: int,
    lo: Option<Seq<u8>>,
    hi: Option<Seq<u8>>,
)
    requires
        h > 0,
        before is Branches,
        after is Branches,
        0 <= k < before->Branches_0@.len(),
        data_good(pages, before, h),
        bounded_lo(data_tree(pages, before, h), lo),
        bounded_hi(data_tree(pages, before, h), hi),
        after->Branches_0@.len() == before->Branches_0@.len(),
        forall|j: int|
            0 <= j < before->Branches_0@.len() && j != k ==> after->Branches_0@[j]
                == before->Branches_0@[j],
        child_merged(
            pages,
            (h - 1) as nat,
            before->Branches_0@[k],
            after->Branches_0@[k],
            child_lo(links_of(pages, before->Branches_0@, (h - 1) as nat), k, lo),
            child_hi(links_of(pages, before->Branches_0@, (h - 1) as nat), k, hi),
        ),
    ensures
        data_good(pages, after, h),
        bounded_lo(data_tree(pages, after, h), lo),
        bounded_hi(data_tree(pages, after, h), hi),
        data_tree(pages, after, h).flat() == data_tree(pages, before, h).flat(),
{
    let hc = (h - 1) as nat;
    let bs = before->Branches_0@;
    let xs = after->Branches_0@;
    let links = links_of(pages, bs, hc);
    let first = target_tree(pages, xs[k].target, hc);
    let more = Seq::<Link>::empty();
    let parts = seq![Link { key: links[k].key, sub: first }] + more;
    let links2 = replaced(links, k, k + 1, parts);
    lemma_links(pages, before, h);
    lemma_links(pages, after, h);
    assert(flat_all(more) =~= Seq::<Entry>::empty());
    assert(first.flat() + flat_all(more) =~= first.flat());
    lemma_expand(links, k, first, more, lo, hi);
    assert(links_of(pages, xs, hc) =~= links2);
    assert forall|j: int| 0 <= j < xs.len() implies target_ok(pages, (#[trigger] xs[j]).target, hc)
        && links2[j].sub.shaped(hc) by {
        if j != k {
            assert(target_ok(pages, bs[j].target, hc));
            assert(links[j].sub.shaped(hc));
        }
    }
}

/// A child that holds no entries taken out of a branch with more than one
/// child leaves the branch well formed, with the same entries.
pub proof fn lemma_dropped(
    pages: Seq<Page>,
    h: nat,
    before: NodeData,
    after: NodeData,
    k: int,
    lo: Option<Seq<u8>>,
    hi: Option<Seq<u8>>,
)
    requires
        h > 0,
        before is Branches,
        after is Branches,
        0 <= k < before->Branches_0@.len(),
        before->Branches_0@.len() > 1,
        data_good(pages, before, h),
        bounded_lo(data_tree(pages, before, h), lo),
        bounded_hi(data_tree(pages, before, h), hi),
        target_tree(pages, before->Branches_0@[k].target, (h - 1) as nat).flat().len() == 0,
        after->Branches_0@ == before->Branches_0@.remove(k),
    ensures
        data_good(pages, after, h),
        bounded_lo(data_tree(pages, after, h), lo),
        bounded_hi(data_tree(pages, after, h), hi),
        data_tree(pages, after, h).flat() == data_tree(pages, before, h).flat(),
{
    let hc = (h - 1) as nat;
    let bs = before->Branches_0@;
    let xs = after->Branches_0@;
    let n = bs.len() as int;
    let links = links_of(pages, bs, hc);
    lemma_links(pages, before, h);
    lemma_links(pages, after, h);
    // the child that takes the place of the two
    let a = if k >= 1 { k - 1 } else { 0int };
    let keep = if k >= 1 { k - 1 } else { 1int };
    let sub = links[keep].sub;
    let key = links[keep].key;
    lemma_child_bounds(links, keep, lo, hi);
    lemma_child_bounds(links, k, lo, hi);
    let two = links.subrange(a, a + 2);
    assert(flat_all(two) =~= sub.flat()) by {
        assert(flat_upto(two, 2) == flat_upto(two, 1) + two[1].sub.flat());
        assert(flat_upto(two, 1) == flat_upto(two, 0) + two[0].sub.flat());
        assert(two[0] == links[a] && two[1] == links[a + 1]);
    }
    if k >= 1 {
        // the left neighbour takes the place: its bound from above moves up
        if k + 1 < n {
            assert(key_le(links[k].key, links[k + 1].key));
            lemma_below_weaken(sub.flat(), links[k].key, links[k + 1].key);
            lemma_seps_below_weaken(sub, links[k].key, links[k + 1].key);
        } else if hi is Some {
            assert(key_le(links[k].key, hi->0));
            lemma_below_weaken(sub.flat(), links[k].key, hi->0);
            lemma_seps_below_weaken(sub, links[k].key, hi->0);
        }
    } else {
        // the right neighbour takes the place: its bound from below moves down
        if lo is Some {
            assert(key_le(lo->0, links[1].key));
            lemma_above_weaken(sub.flat(), links[1].key, lo->0);
            lemma_seps_above_weaken(sub, links[1].key, lo->0);
        }
    }
    lemma_fold(links, a, a + 2, key, sub, lo, hi);
    let links2 = replaced(links, a, a + 2, seq![Link { key, sub }]);
    assert(links_of(pages, xs, hc) =~= links2);
    assert forall|j: int| 0 <= j < xs.len() implies target_ok(pages, (#[trigger] xs[j]).target, hc)
        && links2[j].sub.shaped(hc) by {
        if j < k {
            assert(xs[j] == bs[j]);
            assert(target_ok(pages, bs[j].target, hc));
            assert(links[j].sub.shaped(hc));
        } else {
            assert(xs[j] == bs[j + 1]);
            assert(target_ok(pages, bs[j + 1].target, hc));
            assert(links[j + 1].sub.shaped(hc));
        }
    }
}

/// Child `k` folded into the child before it leaves the branch well
/// formed, with the same entries.
pub proof fn lemma_joined(
    pages: Seq<Page>,
    h: nat,
    before: NodeData,
    after: NodeData,
    k: int,
    lo: Option<Seq<u8>>,
    hi: Option<Seq<u8>>,
)
    requires
        h > 0,
        before is Branches,
        after is Branches,
        1 <= k < before->Branches_0@.len(),
        data_good(pages, before, h),
        bounded_lo(data_tree(pages, before, h), lo),
        bounded_hi(data_tree(pages, before, h), hi),
        before->Branches_0@[k - 1].target is Node,
        before->Branches_0@[k].target is Node,
        after->Branches_0@.len() == before->Branches_0@.len() - 1,
        forall|j: int| 0 <= j < k - 1 ==> after->Branches_0@[j] == before->Branches_0@[j],
        forall|j: int|
            k <= j < after->Branches_0@.len() ==> after->Branches_0@[j] == before->Branches_0@[j
                + 1],
        after->Branches_0@[k - 1].key == before->Branches_0@[k - 1].key,
        after->Branches_0@[k - 1].target is Node,
        joined(
            before->Branches_0@[k - 1].target->Node_0.data,
            before->Branches_0@[k].target->Node_0.data,
            before->Branches_0@[k].key@,
            after->Branches_0@[k - 1].target->Node_0.data,
        ),
    ensures
        data_good(pages, after, h),
        bounded_lo(data_tree(pages, after, h), lo),
        bounded_hi(data_tree(pages, after, h), hi),
        data_tree(pages, after, h).flat() == data_tree(pages, before, h).flat(),
{
    let hc = (h - 1) as nat;
    let bs = before->Branches_0@;
    let xs = after->Branches_0@;
    let n = bs.len() as int;
    let links = links_of(pages, bs, hc);
    lemma_links(pages, before, h);
    lemma_links(pages, after, h);
    let a = links[k - 1].sub;
    let b = links[k].sub;
    let key = links[k].key;
    let lo_a = child_lo(links, k - 1, lo);
    let hi_b = child_hi(links, k, hi);
    lemma_child_bounds(links, k - 1, lo, hi);
    lemma_child_bounds(links, k, lo, hi);
    assert(target_ok(pages, bs[k - 1].target, hc));
    assert(target_ok(pages, bs[k].target, hc));
    assert(a.shaped(hc) && b.shaped(hc));
    lemma_data_join(
        pages,
        hc,
        bs[k - 1].target->Node_0.data,
        bs[k].target->Node_0.data,
        key,
        xs[k - 1].target->Node_0.data,
    );
    if k - 1 >= 1 {
        assert(key_le(links[k - 1].key, links[k].key));
    } else if lo is Some {
        assert(key_le(lo->0, links[k].key));
    }
    if k + 1 < n {
        assert(key_le(links[k].key, links[k + 1].key));
    } else if hi is Some {
        assert(key_le(links[k].key, hi->0));
    }
    lemma_join(a, b, key, hc, lo_a, hi_b);
    let sub = join(a, b, key);
    let two = links.subrange(k - 1, k + 1);
    assert(flat_all(two) =~= a.flat() + b.flat()) by {
        assert(flat_upto(two, 2) == flat_upto(two, 1) + two[1].sub.flat());
        assert(flat_upto(two, 1) == flat_upto(two, 0) + two[0].sub.flat());
        assert(two[0] == links[k - 1] && two[1] == links[k]);
    }
    lemma_fold(links, k - 1, k + 1, links[k - 1].key, sub, lo, hi);
    let links2 = replaced(links, k - 1, k + 1, seq![Link { key: links[k - 1].key, sub }]);
    assert(links_of(pages, xs, hc) =~= links2);
    assert forall|j: int| 0 <= j < xs.len() implies target_ok(pages, (#[trigger] xs[j]).target, hc)
        && links2[j].sub.shaped(hc) by {
        if j < k - 1 {
            assert(target_ok(pages, bs[j].target, hc));
            assert(links[j].sub.shaped(hc));
        } else if j >= k {
            assert(target_ok(pages, bs[j + 1].target, hc));
            assert(links[j + 1].sub.shaped(hc));
        }
    }
}

impl Node {
    /// Folds nodes below this one that have become nearly empty into
    /// their neighbours, the deepest first: a node that holds nothing is
    /// taken out, unless it is the only child; a node that takes fewer
    /// bytes than `min_fill`, or whose left neighbour does, is folded into
    /// that neighbour if the two go on one page together.  The entries and
    /// their order stay what they were.  The pages of the nodes taken out
    /// are put on `freed`.  Afterwards nothing is left to fold among the
    /// children of this node.  Returns whether this node itself takes fewer
    /// bytes than `min_fill`, for the caller to fold it in turn.
    pub fn merge(
        &mut self,
        freed: &mut Vec<PageID>,
        page_size: usize,
        min_fill: usize,
        Ghost(pages): Ghost<Seq<Page>>,
        Ghost(h): Ghost<nat>,
        Ghost(lo): Ghost<Option<Seq<u8>>>,
        Ghost(hi): Ghost<Option<Seq<u8>>>,
    ) -> (underfull: bool)
        requires
            data_good(pages, old(self).data, h),
            bounded_lo(data_tree(pages, old(self).data, h), lo),
            bounded_hi(data_tree(pages, old(self).data, h), hi),
        ensures
            data_good(pages, final(self).data, h),
            bounded_lo(data_tree(pages, final(self).data, h), lo),
            bounded_hi(data_tree(pages, final(self).data, h), hi),
            data_tree(pages, final(self).data, h).flat() == data_tree(
                pages,
                old(self).data,
                h,
            ).flat(),
            final(self).page_id == old(self).page_id,
            underfull == (data_bytes(final(self).data) < min_fill),
            grown(final(freed)@, old(freed)@),
            final(self).data matches NodeData::Branches(bs) ==> merged_upto(
                bs@,
                bs@.len() as int,
                page_size,
                min_fill,
            ),
        decreases h,
    {
        let ghost t0 = data_tree(pages, self.data, h);
        proof {
            lemma_grown_step(old(freed)@, old(freed)@, freed@);
        }
        match &mut self.data {
            NodeData::Leaf(_) => {},
            NodeData::Branches(bs) => {
                let mut k: usize = 0;
                let mut left_under = false;
                while k < bs.len()
                    invariant
                        h > 0,
                        k <= bs@.len(),
                        data_good(pages, NodeData::Branches(*bs), h),
                        bounded_lo(data_tree(pages, NodeData::Branches(*bs), h), lo),
                        bounded_hi(data_tree(pages, NodeData::Branches(*bs), h), hi),
                        data_tree(pages, NodeData::Branches(*bs), h).flat() == t0.flat(),
                        grown(freed@, old(freed)@),
                        merged_upto(bs@, k as int, page_size, min_fill),
                        k >= 1 ==> left_under == underfull(bs@[k - 1], min_fill),
                    decreases bs@.len() - k, bs@.len(),
                {
                    let ghost before = *bs;
                    let ghost links = links_of(pages, before@, (h - 1) as nat);
                    let ghost lo_k = child_lo(links, k as int, lo);
                    let ghost hi_k = child_hi(links, k as int, hi);
                    let ghost freed0 = freed@;
                    proof {
                        lemma_links(pages, NodeData::Branches(before), h);
                        lemma_child_bounds(links, k as int, lo, hi);
                        lemma_branch_tree(pages, NodeData::Branches(before), h, k as int);
                        assert(target_ok(pages, before@[k as int].target, (h - 1) as nat));
                        assert(links[k as int].sub.shaped((h - 1) as nat));
                    }
                    match &mut bs[k].target {
                        Target::Node(c) => {
                            c.merge(
                                freed,
                                page_size,
                                min_fill,
                                Ghost(pages),
                                Ghost((h - 1) as nat),
                                Ghost(lo_k),
                                Ghost(hi_k),
                            );
                        },
                        Target::Page(_) => {},
                    }
                    let ghost mid = *bs;
                    proof {
                        lemma_settled(
                            pages,
                            h,
                            NodeData::Branches(before),
                            NodeData::Branches(mid),
                            k as int,
                            lo,
                            hi,
                        );
                        lemma_links(pages, NodeData::Branches(mid), h);
                        lemma_merged_keep(before@, mid@, k as int, page_size, min_fill);
                        lemma_grown_step(old(freed)@, freed0, freed@);
                    }
                    let ghost freed1 = freed@;
                    let under = is_underfull(&bs[k], min_fill);
                    if bs.len() > 1 && is_empty_node(&bs[k]) {
                        let gone = bs.remove(k);
                        match gone.target {
                            Target::Node(n) => {
                                n.free_page(freed);
                            },
                            Target::Page(_) => {},
                        }
                        proof {
                            assert(target_ok(pages, mid@[k as int].target, (h - 1) as nat));
                            lemma_dropped(
                                pages,
                                h,
                                NodeData::Branches(mid),
                                NodeData::Branches(*bs),
                                k as int,
                                lo,
                                hi,
                            );
                            lemma_merged_drop(mid@, bs@, k as int, page_size, min_fill);
                            lemma_grown_step(old(freed)@, freed1, freed@);
                        }
                    } else if k >= 1 && (under || left_under) && can_join(
                        &bs[k - 1],
                        &bs[k],
                        page_size,
                    ) {
                        let gone = bs.remove(k);
                        let Branch { key, target } = gone;
                        let left = &mut bs[k - 1];
                        match &mut left.target {
                            Target::Node(l) => {
                                match target {
                                    Target::Node(r) => {
                                        proof {
                                            assert(target_ok(
                                                pages,
                                                mid@[k as int].target,
                                                (h - 1) as nat,
                                            ));
                                            assert(links_of(pages, mid@, (h - 1) as nat)[k as int].sub.shaped(
                                                (h - 1) as nat,
                                            ));
                                        }
                                        join_nodes(l, r, key, freed);
                                    },
                                    Target::Page(_) => {},
                                }
                            },
                            Target::Page(_) => {},
                        }
                        left_under = is_underfull(&bs[k - 1], min_fill);
                        proof {
                            lemma_joined(
                                pages,
                                h,
                                NodeData::Branches(mid),
                                NodeData::Branches(*bs),
                                k as int,
                                lo,
                                hi,
                            );
                            lemma_merged_join(mid@, bs@, k as int, page_size, min_fill);
                            lemma_grown_step(old(freed)@, freed1, freed@);
                        }
                    } else {
                        left_under = under;
                        k += 1;
                    }
                }
            },
        }
        self.data.size() < min_fill
    }
}

} // verus!
