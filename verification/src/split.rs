//! Splitting: a node that has outgrown its page is cut into nodes that
//! each go on a page, and the new nodes are handed to the parent to file.

use vstd::prelude::*;
use crate::data::views;
use crate::node::{
    data_good, data_ok, data_tree, lemma_branch_tree, target_ok, target_tree, Branch, Node,
    NodeData, Target,
};
use crate::page::Page;
use crate::size::{data_bytes, fits, insert_all, item_bytes, lemma_cut_bytes, sum_bytes};
use crate::tree::{
    bounded_hi, bounded_lo, child_hi, child_lo, flat_all, lemma_carve, lemma_carve_first,
    lemma_child_bounds, lemma_expand, parts_ok, replaced, Link, Tree,
};

verus! {

/// The links that the child pointers stand for, the children being `h`
/// levels high.
pub open spec fn links_of(pages: Seq<Page>, bs: Seq<Branch>, h: nat) -> Seq<Link> {
    Seq::new(bs.len(), |k: int| Link { key: bs[k].key@, sub: target_tree(pages, bs[k].target, h) })
}

/// Every node below `data` goes on a page.
pub open spec fn kids_packed(data: NodeData, h: nat, page_size: usize) -> bool
    decreases h, 0nat,
{
    match data {
        NodeData::Leaf(_) => true,
        NodeData::Branches(bs) => h > 0 ==> forall|k: int|
            0 <= k < bs@.len() ==> target_packed((#[trigger] bs@[k]).target, (h - 1) as nat, page_size),
    }
}

/// The child, if it is a node, goes on a page, and so does every node
/// below it.
pub open spec fn target_packed(t: Target, h: nat, page_size: usize) -> bool
    decreases h, 1nat,
{
    match t {
        Target::Page(_) => true,
        Target::Node(n) => fits(n.data, page_size) && kids_packed(n.data, h, page_size),
    }
}

/// The first item of `next` does not go on the page of `part` any more.
pub open spec fn tight(part: NodeData, next: NodeData, page_size: usize) -> bool {
    data_bytes(part) + item_bytes(next, 0) > page_size
}

/// Each part is as large as a page allows: the first item of the part
/// after it does not go on its page any more.
pub open spec fn parts_tight(first: NodeData, sibs: Seq<Branch>, page_size: usize) -> bool {
    &&& sibs.len() > 0 ==> tight(first, sibs[0].target->Node_0.data, page_size)
    &&& forall|i: int, j: int|
        0 <= i && j == i + 1 && j < sibs.len() ==> tight(
            (#[trigger] sibs[i]).target->Node_0.data,
            (#[trigger] sibs[j]).target->Node_0.data,
            page_size,
        )
}

/// What a split has done: the node and the new nodes are the parts of
/// what the node was, each well formed and each on a page of its own.
pub open spec fn split_done(
    pages: Seq<Page>,
    h: nat,
    lo: Option<Seq<u8>>,
    hi: Option<Seq<u8>>,
    before: Tree,
    after: NodeData,
    r: Option<Vec<Branch>>,
    page_size: usize,
) -> bool {
    let first = data_tree(pages, after, h);
    let more = match r {
        Some(v) => links_of(pages, v@, h),
        None => Seq::empty(),
    };
    &&& data_ok(pages, after, h)
    &&& first.shaped(h)
    &&& fits(after, page_size)
    &&& kids_packed(after, h, page_size)
    &&& parts_ok(first, more, lo, hi)
    &&& first.flat() + flat_all(more) == before.flat()
    &&& r matches Some(v) ==> {
        &&& v@.len() > 0
        &&& after.spec_len() > 0
        &&& forall|j: int|
            0 <= j < v@.len() ==> (#[trigger] v@[j]).target is Node
                && v@[j].target->Node_0.data.spec_len() > 0
        &&& forall|j: int|
            0 <= j < v@.len() ==> {
                &&& target_ok(pages, (#[trigger] v@[j]).target, h)
                &&& target_tree(pages, v@[j].target, h).shaped(h)
                &&& target_packed(v@[j].target, h, page_size)
            }
    }
}

/// The tree of a branch is made of the links of its child pointers.
pub proof fn lemma_links(pages: Seq<Page>, data: NodeData, h: nat)
    requires
        data is Branches,
        h > 0,
    ensures
        data_tree(pages, data, h) == Tree::Branch(
            links_of(pages, data->Branches_0@, (h - 1) as nat),
        ),
{
    assert(data_tree(pages, data, h)->Branch_0 =~= links_of(
        pages,
        data->Branches_0@,
        (h - 1) as nat,
    ));
}

/// The two parts of a content that was cut in two stand for the two parts
/// of its tree.
pub proof fn lemma_data_cut(
    pages: Seq<Page>,
    data: NodeData,
    h: nat,
    c: int,
    head: NodeData,
    tail: NodeData,
    page_size: usize,
)
    requires
        data.cut_into(c, head, tail),
        data_ok(pages, data, h),
        data_tree(pages, data, h).shaped(h),
        0 < c < data.spec_len(),
        kids_packed(data, h, page_size),
    ensures
        data_tree(pages, data, h).len() == data.spec_len(),
        data_tree(pages, head, h) == data_tree(pages, data, h).head(c),
        data_tree(pages, tail, h) == data_tree(pages, data, h).tail(c),
        data_ok(pages, head, h),
        data_ok(pages, tail, h),
        tail.spec_first_key() == data_tree(pages, data, h).key_at(c),
        kids_packed(head, h, page_size),
        kids_packed(tail, h, page_size),
        head.spec_len() == c,
        tail.spec_len() == data.spec_len() - c,
{
    match (data, head, tail) {
        (NodeData::Leaf(o), NodeData::Leaf(f), NodeData::Leaf(t)) => {
            assert(views(f@) =~= views(o@).subrange(0, c));
            assert(views(t@) =~= views(o@).subrange(c, o@.len() as int));
        },
        (NodeData::Branches(o), NodeData::Branches(f), NodeData::Branches(t)) => {
            let ls = data_tree(pages, data, h)->Branch_0;
            assert(data_tree(pages, head, h)->Branch_0 =~= ls.subrange(0, c));
            assert(data_tree(pages, tail, h)->Branch_0 =~= ls.subrange(c, ls.len() as int));
            assert forall|k: int| 0 <= k < f@.len() implies target_ok(
                pages,
                (#[trigger] f@[k]).target,
                (h - 1) as nat,
            ) && target_packed(f@[k].target, (h - 1) as nat, page_size) by {
                assert(f@[k] == o@[k]);
                assert(target_ok(pages, o@[k].target, (h - 1) as nat));
            }
            assert forall|k: int| 0 <= k < t@.len() implies target_ok(
                pages,
                (#[trigger] t@[k]).target,
                (h - 1) as nat,
            ) && target_packed(t@[k].target, (h - 1) as nat, page_size) by {
                assert(t@[k] == o@[c + k]);
                assert(target_ok(pages, o@[c + k].target, (h - 1) as nat));
            }
        },
        _ => {},
    }
}

impl Node {
    /// Cuts the node, if it has outgrown its page, into nodes that each go
    /// on a page; the nodes below it are split first.  The node keeps the
    /// first part; the others come back as child pointers for the parent
    /// to file after the node, each under the first key of its part.
    /// `None` if the node goes on a page as it is.
    pub fn split(
        &mut self,
        page_size: usize,
        Ghost(pages): Ghost<Seq<Page>>,
        Ghost(h): Ghost<nat>,
        Ghost(lo): Ghost<Option<Seq<u8>>>,
        Ghost(hi): Ghost<Option<Seq<u8>>>,
    ) -> (r: Option<Vec<Branch>>)
        requires
            data_good(pages, old(self).data, h),
            bounded_lo(data_tree(pages, old(self).data, h), lo),
            bounded_hi(data_tree(pages, old(self).data, h), hi),
        ensures
            split_done(
                pages,
                h,
                lo,
                hi,
                data_tree(pages, old(self).data, h),
                final(self).data,
                r,
                page_size,
            ),
            final(self).page_id == old(self).page_id,
            r matches Some(v) ==> parts_tight(final(self).data, v@, page_size),
        decreases h, 1nat,
    {
        self.split_children(page_size, Ghost(pages), Ghost(h), Ghost(lo), Ghost(hi));
        self.split_self(page_size, Ghost(pages), Ghost(h), Ghost(lo), Ghost(hi))
    }

    /// Splits the nodes below this one and files the new nodes.
    fn split_children(
        &mut self,
        page_size: usize,
        Ghost(pages): Ghost<Seq<Page>>,
        Ghost(h): Ghost<nat>,
        Ghost(lo): Ghost<Option<Seq<u8>>>,
        Ghost(hi): Ghost<Option<Seq<u8>>>,
    )
        requires
            data_good(pages, old(self).data, h),
            bounded_lo(data_tree(pages, old(self).data, h), lo),
            bounded_hi(data_tree(pages, old(self).data, h), hi),
        ensures
            data_good(pages, final(self).data, h),
            bounded_lo(data_tree(pages, final(self).data, h), lo),
            bounded_hi(data_tree(pages, final(self).data, h), hi),
            data_tree(pages, final(self).data, h).flat() == data_tree(
                pages,
                old(self).data,
                h,
            ).flat(),
            kids_packed(final(self).data, h, page_size),
            final(self).page_id == old(self).page_id,
        decreases h, 0nat,
    {
        let ghost t0 = data_tree(pages, self.data, h);
        match &mut self.data {
            NodeData::Leaf(_) => {},
            NodeData::Branches(bs) => {
                let mut k: usize = 0;
                while k < bs.len()
                    invariant
                        h > 0,
                        k <= bs@.len(),
                        data_good(pages, NodeData::Branches(*bs), h),
                        bounded_lo(data_tree(pages, NodeData::Branches(*bs), h), lo),
                        bounded_hi(data_tree(pages, NodeData::Branches(*bs), h), hi),
                        data_tree(pages, NodeData::Branches(*bs), h).flat() == t0.flat(),
                        forall|j: int|
                            0 <= j < k ==> target_packed(
                                (#[trigger] bs@[j]).target,
                                (h - 1) as nat,
                                page_size,
                            ),
                    decreases bs@.len() - k,
                {
                    let ghost before = *bs;
                    let ghost links = links_of(pages, before@, (h - 1) as nat);
                    let ghost lo_k = child_lo(links, k as int, lo);
                    let ghost hi_k = child_hi(links, k as int, hi);
                    proof {
                        lemma_links(pages, NodeData::Branches(before), h);
                        lemma_child_bounds(links, k as int, lo, hi);
                        lemma_branch_tree(pages, NodeData::Branches(before), h, k as int);
                        assert(target_ok(pages, before@[k as int].target, (h - 1) as nat));
                    }
                    let r = match &mut bs[k].target {
                        Target::Node(c) => c.split(
                            page_size,
                            Ghost(pages),
                            Ghost((h - 1) as nat),
                            Ghost(lo_k),
                            Ghost(hi_k),
                        ),
                        Target::Page(_) => None,
                    };
                    let ghost mid = *bs;
                    let ghost sibs = given(r);
                    let n = match &r {
                        Some(v) => v.len(),
                        None => 0,
                    };
                    match r {
                        Some(v) => {
                            insert_all(bs, k + 1, v);
                        },
                        None => {
                            assert(bs@ =~= mid@.subrange(0, k + 1) + sibs + mid@.subrange(
                                k + 1,
                                mid@.len() as int,
                            ));
                        },
                    }
                    proof {
                        lemma_filed(
                            pages,
                            h,
                            NodeData::Branches(before),
                            NodeData::Branches(mid),
                            NodeData::Branches(*bs),
                            sibs,
                            k as int,
                            lo,
                            hi,
                            page_size,
                        );
                    }
                    let total = bs.len();
                    assert(total == mid@.len() + n);
                    k = k + 1 + n;
                }
            },
        }
    }

    /// Cuts the node itself, the nodes below it being done.
    pub fn split_self(
        &mut self,
        page_size: usize,
        Ghost(pages): Ghost<Seq<Page>>,
        Ghost(h): Ghost<nat>,
        Ghost(lo): Ghost<Option<Seq<u8>>>,
        Ghost(hi): Ghost<Option<Seq<u8>>>,
    ) -> (r: Option<Vec<Branch>>)
        requires
            data_good(pages, old(self).data, h),
            bounded_lo(data_tree(pages, old(self).data, h), lo),
            bounded_hi(data_tree(pages, old(self).data, h), hi),
            kids_packed(old(self).data, h, page_size),
        ensures
            split_done(
                pages,
                h,
                lo,
                hi,
                data_tree(pages, old(self).data, h),
                final(self).data,
                r,
                page_size,
            ),
            final(self).page_id == old(self).page_id,
            r matches Some(v) ==> (old(self).data is Branches ==> 2 * v@.len() + 1 <= old(self).data.spec_len()),
            r matches Some(v) ==> parts_tight(final(self).data, v@, page_size),
            r is None ==> final(self).data == old(self).data,
            old(self).data is Branches && old(self).data.spec_len() >= 2 ==> final(self).data
                is Branches && final(self).data.spec_len() >= 2,
    {
        let ghost whole = self.data;
        let ghost t0 = data_tree(pages, self.data, h);
        if self.data.fits_page(page_size) {
            proof {
                assert(flat_all(Seq::<Link>::empty()) =~= Seq::<crate::data::Entry>::empty());
                assert(t0.flat() + flat_all(Seq::<Link>::empty()) =~= t0.flat());
            }
            return None;
        }
        let cut = self.data.prefix_fit(page_size);
        let mut tail = self.data.split_off(cut);
        let mut sibs: Vec<Branch> = Vec::new();
        proof {
            lemma_cut_bytes(whole, cut as int, self.data, tail, 0);
            lemma_data_cut(pages, whole, h, cut as int, self.data, tail, page_size);
            lemma_carve_first(t0, cut as int, h, lo, hi);
            lemma_cut_bytes(whole, cut as int, self.data, tail, 1);
            assert(sum_bytes(tail, 1) == sum_bytes(tail, 0) + item_bytes(tail, 0));
            assert(tight(self.data, tail, page_size));
            assert(links_of(pages, sibs@, h) =~= Seq::<Link>::empty());
            assert(Seq::<Link>::empty().push(
                Link { key: t0.key_at(cut as int), sub: t0.tail(cut as int) },
            ) =~= seq![Link { key: t0.key_at(cut as int), sub: t0.tail(cut as int) }]);
        }
        let ghost first = data_tree(pages, self.data, h);
        let ghost total = whole.spec_len();
        loop
            invariant_except_break
                tail.spec_len() > 0,
                self.data.spec_len() > 0,
                self.data is Leaf == whole is Leaf,
                tail is Leaf == whole is Leaf,
                whole is Branches ==> 2 * (sibs@.len() + 1) + tail.spec_len() <= total,
                parts_tight(self.data, sibs@, page_size),
                tight(
                    if sibs@.len() == 0 {
                        self.data
                    } else {
                        sibs@.last().target->Node_0.data
                    },
                    tail,
                    page_size,
                ),
                forall|j: int|
                    0 <= j < sibs@.len() ==> (#[trigger] sibs@[j]).target is Node
                        && sibs@[j].target->Node_0.data.spec_len() > 0,
                data_ok(pages, tail, h),
                data_tree(pages, tail, h).shaped(h),
                kids_packed(tail, h, page_size),
                first.shaped(h),
                parts_ok(
                    first,
                    links_of(pages, sibs@, h).push(
                        Link { key: tail.spec_first_key(), sub: data_tree(pages, tail, h) },
                    ),
                    lo,
                    hi,
                ),
                first.flat() + flat_all(
                    links_of(pages, sibs@, h).push(
                        Link { key: tail.spec_first_key(), sub: data_tree(pages, tail, h) },
                    ),
                ) == t0.flat(),
                forall|j: int|
                    0 <= j < sibs@.len() ==> {
                        &&& target_ok(pages, (#[trigger] sibs@[j]).target, h)
                        &&& target_tree(pages, sibs@[j].target, h).shaped(h)
                        &&& target_packed(sibs@[j].target, h, page_size)
                    },
            ensures
                sibs@.len() > 0,
                self.data.spec_len() > 0,
                parts_tight(self.data, sibs@, page_size),
                whole is Branches ==> 2 * sibs@.len() + 1 <= total,
                forall|j: int|
                    0 <= j < sibs@.len() ==> (#[trigger] sibs@[j]).target is Node
                        && sibs@[j].target->Node_0.data.spec_len() > 0,
                parts_ok(first, links_of(pages, sibs@, h), lo, hi),
                first.flat() + flat_all(links_of(pages, sibs@, h)) == t0.flat(),
                forall|j: int|
                    0 <= j < sibs@.len() ==> {
                        &&& target_ok(pages, (#[trigger] sibs@[j]).target, h)
                        &&& target_tree(pages, sibs@[j].target, h).shaped(h)
                        &&& target_packed(sibs@[j].target, h, page_size)
                    },
            decreases tail.spec_len(),
        {
            let key = tail.first_key();
            let ghost done = sibs@;
            let ghost rest = tail;
            let ghost rk = tail.spec_first_key();
            if tail.fits_page(page_size) {
                sibs.push(Branch { key, target: Target::Node(Node::with_data(tail)) });
                proof {
                    assert(links_of(pages, sibs@, h) =~= links_of(pages, done, h).push(
                        Link { key: rk, sub: data_tree(pages, rest, h) },
                    ));
                    assert forall|j: int| 0 <= j < sibs@.len() implies {
                        &&& target_ok(pages, (#[trigger] sibs@[j]).target, h)
                        &&& target_tree(pages, sibs@[j].target, h).shaped(h)
                        &&& target_packed(sibs@[j].target, h, page_size)
                    } by {
                        if j < done.len() {
                            assert(sibs@[j] == done[j]);
                        } else {
                            assert(sibs@[j].target->Node_0.data == rest);
                        }
                    }
                    assert(sibs@.last().target->Node_0.data == rest);
                    assert forall|i: int, j: int|
                        0 <= i && j == i + 1 && j < sibs@.len() implies tight(
                        (#[trigger] sibs@[i]).target->Node_0.data,
                        (#[trigger] sibs@[j]).target->Node_0.data,
                        page_size,
                    ) by {
                        if j < done.len() {
                            assert(sibs@[i] == done[i] && sibs@[j] == done[j]);
                        } else {
                            assert(sibs@[i] == done[i]);
                            assert(done[i] == done.last());
                        }
                    }
                    if done.len() > 0 {
                        assert(sibs@[0] == done[0]);
                    }
                }
                break ;
            }
            let c = tail.prefix_fit(page_size);
            let next = tail.split_off(c);
            proof {
                lemma_cut_bytes(rest, c as int, tail, next, 0);
                lemma_data_cut(pages, rest, h, c as int, tail, next, page_size);
                lemma_carve(
                    first,
                    links_of(pages, done, h),
                    rk,
                    data_tree(pages, rest, h),
                    c as int,
                    h,
                    lo,
                    hi,
                );
                assert(tail.spec_first_key() == rk) by {
                    match (rest, tail) {
                        (NodeData::Leaf(o), NodeData::Leaf(f)) => {
                            assert(f@[0] == o@[0]);
                        },
                        (NodeData::Branches(o), NodeData::Branches(f)) => {
                            assert(f@[0] == o@[0]);
                        },
                        _ => {},
                    }
                }
            }
            sibs.push(Branch { key, target: Target::Node(Node::with_data(tail)) });
            proof {
                assert(links_of(pages, sibs@, h) =~= links_of(pages, done, h).push(
                    Link { key: rk, sub: data_tree(pages, rest, h).head(c as int) },
                ));
                assert forall|j: int| 0 <= j < sibs@.len() implies {
                    &&& target_ok(pages, (#[trigger] sibs@[j]).target, h)
                    &&& target_tree(pages, sibs@[j].target, h).shaped(h)
                    &&& target_packed(sibs@[j].target, h, page_size)
                } by {
                    if j < done.len() {
                        assert(sibs@[j] == done[j]);
                    } else {
                        assert(sibs@[j].target->Node_0.data == tail);
                    }
                }
                assert(sibs@.last().target->Node_0.data == tail);
                lemma_cut_bytes(rest, c as int, tail, next, 1);
                assert(sum_bytes(next, 1) == sum_bytes(next, 0) + item_bytes(next, 0));
                assert(item_bytes(tail, 0) == item_bytes(rest, 0));
                assert(tight(tail, next, page_size));
                assert forall|i: int, j: int|
                    0 <= i && j == i + 1 && j < sibs@.len() implies tight(
                    (#[trigger] sibs@[i]).target->Node_0.data,
                    (#[trigger] sibs@[j]).target->Node_0.data,
                    page_size,
                ) by {
                    if j < done.len() {
                        assert(sibs@[i] == done[i] && sibs@[j] == done[j]);
                    } else {
                        assert(sibs@[i] == done[i]);
                        assert(done[i] == done.last());
                    }
                }
                if done.len() > 0 {
                    assert(sibs@[0] == done[0]);
                }
            }
            tail = next;
        }
        Some(sibs)
    }
}

/// The child pointers that a split has handed back, if any.
pub open spec fn given(r: Option<Vec<Branch>>) -> Seq<Branch> {
    match r {
        Some(v) => v@,
        None => Seq::empty(),
    }
}

/// What splitting child `k` has done to the child and what it has handed
/// back: the parts of the child, or the child as it was if it is a page.
pub open spec fn child_done(
    pages: Seq<Page>,
    h: nat,
    before: Branch,
    after: Branch,
    sibs: Seq<Branch>,
    lo: Option<Seq<u8>>,
    hi: Option<Seq<u8>>,
    page_size: usize,
) -> bool {
    let first = target_tree(pages, after.target, h);
    let more = links_of(pages, sibs, h);
    &&& after.key == before.key
    &&& target_ok(pages, after.target, h)
    &&& first.shaped(h)
    &&& target_packed(after.target, h, page_size)
    &&& parts_ok(first, more, lo, hi)
    &&& first.flat() + flat_all(more) == target_tree(pages, before.target, h).flat()
    &&& forall|j: int|
        0 <= j < sibs.len() ==> {
            &&& target_ok(pages, (#[trigger] sibs[j]).target, h)
            &&& target_tree(pages, sibs[j].target, h).shaped(h)
            &&& target_packed(sibs[j].target, h, page_size)
        }
}

/// After a child was split and its new siblings were filed behind it, the
/// branch is well formed as before, with the same entries, and the child
/// and its new siblings are done.
pub proof fn lemma_filed(
    pages: Seq<Page>,
    h: nat,
    before: NodeData,
    mid: NodeData,
    after: NodeData,
    sibs: Seq<Branch>,
    k: int,
    lo: Option<Seq<u8>>,
    hi: Option<Seq<u8>>,
    page_size: usize,
)
    requires
        h > 0,
        before is Branches,
        mid is Branches,
        after is Branches,
        0 <= k < before->Branches_0@.len(),
        data_good(pages, before, h),
        bounded_lo(data_tree(pages, before, h), lo),
        bounded_hi(data_tree(pages, before, h), hi),
        mid->Branches_0@.len() == before->Branches_0@.len(),
        forall|j: int|
            0 <= j < before->Branches_0@.len() && j != k ==> mid->Branches_0@[j]
                == before->Branches_0@[j],
        child_done(
            pages,
            (h - 1) as nat,
            before->Branches_0@[k],
            mid->Branches_0@[k],
            sibs,
            child_lo(links_of(pages, before->Branches_0@, (h - 1) as nat), k, lo),
            child_hi(links_of(pages, before->Branches_0@, (h - 1) as nat), k, hi),
            page_size,
        ),
        after->Branches_0@ == mid->Branches_0@.subrange(0, k + 1) + sibs
            + mid->Branches_0@.subrange(k + 1, mid->Branches_0@.len() as int),
        forall|j: int|
            0 <= j < k ==> target_packed(
                (#[trigger] before->Branches_0@[j]).target,
                (h - 1) as nat,
                page_size,
            ),
    ensures
        data_good(pages, after, h),
        bounded_lo(data_tree(pages, after, h), lo),
        bounded_hi(data_tree(pages, after, h), hi),
        data_tree(pages, after, h).flat() == data_tree(pages, before, h).flat(),
        forall|j: int|
            0 <= j < k + 1 + sibs.len() ==> target_packed(
                (#[trigger] after->Branches_0@[j]).target,
                (h - 1) as nat,
                page_size,
            ),
{
    let hc = (h - 1) as nat;
    let bs = before->Branches_0@;
    let ms = mid->Branches_0@;
    let xs = after->Branches_0@;
    let n = bs.len() as int;
    let m = sibs.len() as int;
    let links = links_of(pages, bs, hc);
    let first = target_tree(pages, ms[k].target, hc);
    let more = links_of(pages, sibs, hc);
    let parts = seq![Link { key: links[k].key, sub: first }] + more;
    let links2 = replaced(links, k, k + 1, parts);
    lemma_links(pages, before, h);
    lemma_links(pages, after, h);
    lemma_expand(links, k, first, more, lo, hi);
    assert forall|j: int| 0 <= j <= k implies xs[j] == ms[j] by {}
    assert forall|j: int| k < j <= k + m implies xs[j] == sibs[j - k - 1] by {}
    assert forall|j: int| k + m < j < xs.len() implies xs[j] == ms[j - m] by {}
    assert(links_of(pages, xs, hc) =~= links2);
    assert forall|j: int| 0 <= j < xs.len() implies target_ok(pages, (#[trigger] xs[j]).target, hc)
        && links2[j].sub.shaped(hc) by {
        if j < k {
            assert(target_ok(pages, bs[j].target, hc));
            assert(links[j].sub.shaped(hc));
        } else if j == k {
        } else if j <= k + m {
        } else {
            assert(target_ok(pages, bs[j - m].target, hc));
            assert(links[j - m].sub.shaped(hc));
        }
    }
    assert forall|j: int| 0 <= j < k + 1 + m implies target_packed(
        (#[trigger] xs[j]).target,
        hc,
        page_size,
    ) by {
        if j < k {
            assert(target_packed(bs[j].target, hc, page_size));
        }
    }
}

} // verus!
