//! Writing nodes back: a node and the nodes below it become pages of
//! their own at the end of the store, and the pages that were there stay
//! what they were.

use vstd::prelude::*;
use crate::bytes::copy_bytes;
use crate::data::{views, Entry};
use crate::meta::{BucketMeta, PageID};
use crate::node::{
    copy_entries, data_good, data_ok, data_tree, target_good, target_ok, target_tree, Branch,
    Node, NodeData, Target,
};
use crate::page::{extends, pages_wf, rooted, Page, PageStore};
use crate::tree::{flat_all, lemma_upto_child};

verus! {

/// Every header of a nested bucket among the entries points at a
/// well-formed tree in `pages`.
pub open spec fn headers_rooted(pages: Seq<Page>, s: Seq<Entry>) -> bool {
    forall|k: int| 0 <= k < s.len() && (#[trigger] s[k]) is Bucket ==> rooted(pages, s[k]->meta)
}

/// A tree stays what it is when pages are added to the store.
pub proof fn lemma_extends_data(earlier: Seq<Page>, later: Seq<Page>, data: NodeData, h: nat)
    requires
        extends(later, earlier),
        data_ok(earlier, data, h),
    ensures
        data_ok(later, data, h),
        data_tree(later, data, h) == data_tree(earlier, data, h),
    decreases h, 0nat,
{
    match data {
        NodeData::Leaf(_) => {},
        NodeData::Branches(bs) => {
            assert forall|k: int| 0 <= k < bs@.len() implies target_ok(
                later,
                (#[trigger] bs@[k]).target,
                (h - 1) as nat,
            ) && target_tree(later, bs@[k].target, (h - 1) as nat) == target_tree(
                earlier,
                bs@[k].target,
                (h - 1) as nat,
            ) by {
                assert(target_ok(earlier, bs@[k].target, (h - 1) as nat));
                lemma_extends_target(earlier, later, bs@[k].target, (h - 1) as nat);
            }
            assert(data_tree(later, data, h)->Branch_0 =~= data_tree(earlier, data, h)->Branch_0);
        },
    }
}

/// A tree stays what it is when pages are added to the store.
pub proof fn lemma_extends_target(earlier: Seq<Page>, later: Seq<Page>, t: Target, h: nat)
    requires
        extends(later, earlier),
        target_ok(earlier, t, h),
    ensures
        target_ok(later, t, h),
        target_tree(later, t, h) == target_tree(earlier, t, h),
    decreases h, 1nat,
{
    match t {
        Target::Page(p) => {
            assert(later[p as int] == earlier[p as int]);
            lemma_extends_data(earlier, later, earlier[p as int].data, h);
        },
        Target::Node(n) => {
            lemma_extends_data(earlier, later, n.data, h);
        },
    }
}

/// A well-formed tree has one height only.
pub proof fn lemma_one_height(pages: Seq<Page>, t: Target, h1: nat, h2: nat)
    requires
        target_good(pages, t, h1),
        target_good(pages, t, h2),
    ensures
        h1 == h2,
    decreases h1,
{
    let data = match t {
        Target::Page(p) => pages[p as int].data,
        Target::Node(n) => n.data,
    };
    match data {
        NodeData::Leaf(_) => {},
        NodeData::Branches(bs) => {
            let l1 = target_tree(pages, t, h1)->Branch_0;
            let l2 = target_tree(pages, t, h2)->Branch_0;
            assert(target_ok(pages, bs@[0].target, (h1 - 1) as nat));
            assert(target_ok(pages, bs@[0].target, (h2 - 1) as nat));
            assert(l1[0].sub.shaped((h1 - 1) as nat) && l1[0].sub.ordered());
            assert(l2[0].sub.shaped((h2 - 1) as nat) && l2[0].sub.ordered());
            lemma_one_height(pages, bs@[0].target, (h1 - 1) as nat, (h2 - 1) as nat);
        },
    }
}

/// A header that points at a well-formed tree still does when pages are
/// added to the store.
pub proof fn lemma_extends_rooted(earlier: Seq<Page>, later: Seq<Page>, meta: BucketMeta)
    requires
        extends(later, earlier),
        rooted(earlier, meta),
    ensures
        rooted(later, meta),
{
    let h = choose|h: nat| target_good(earlier, Target::Page(meta.root_page), h);
    lemma_extends_target(earlier, later, Target::Page(meta.root_page), h);
    assert(target_good(later, Target::Page(meta.root_page), h));
}

/// Adding pages after pages that were added leaves the first pages as
/// they were.
pub proof fn lemma_extends_chain(a: Seq<Page>, b: Seq<Page>, c: Seq<Page>)
    requires
        extends(b, a),
        extends(c, b),
    ensures
        extends(c, a),
{
    assert forall|p: int| 0 <= p < a.len() implies #[trigger] c[p] == a[p] by {
        assert(b[p] == a[p]);
    }
}

/// One more page, whose headers point at well-formed trees, keeps the
/// store well formed.
pub proof fn lemma_push_wf(pages: Seq<Page>, page: Page)
    requires
        pages_wf(pages),
        page.data matches NodeData::Leaf(es) ==> headers_rooted(pages.push(page), views(es@)),
    ensures
        pages_wf(pages.push(page)),
        extends(pages.push(page), pages),
{
    let later = pages.push(page);
    assert forall|p: int, k: int|
        0 <= p < later.len() && later[p].data is Leaf && 0 <= k < later[p].data->Leaf_0@.len() && (
        #[trigger] later[p].data->Leaf_0@[k])@ is Bucket implies rooted(
        later,
        later[p].data->Leaf_0@[k]@->meta,
    ) by {
        if p < pages.len() {
            assert(later[p] == pages[p]);
            lemma_extends_rooted(pages, later, pages[p].data->Leaf_0@[k]@->meta);
        } else {
            let es = page.data->Leaf_0;
            assert(views(es@)[k] == es@[k]@);
        }
    }
}

/// The headers that are rooted stay rooted when pages are added.
pub proof fn lemma_extends_headers(earlier: Seq<Page>, later: Seq<Page>, s: Seq<Entry>)
    requires
        extends(later, earlier),
        headers_rooted(earlier, s),
    ensures
        headers_rooted(later, s),
{
    assert forall|k: int| 0 <= k < s.len() && (#[trigger] s[k]) is Bucket implies rooted(
        later,
        s[k]->meta,
    ) by {
        lemma_extends_rooted(earlier, later, s[k]->meta);
    }
}

/// The headers under a child of a branch are among the headers under the
/// branch.
pub proof fn lemma_child_headers(pages: Seq<Page>, data: NodeData, h: nat, k: int)
    requires
        data is Branches,
        h > 0,
        0 <= k < data->Branches_0@.len(),
        headers_rooted(pages, data_tree(pages, data, h).flat()),
    ensures
        headers_rooted(
            pages,
            target_tree(pages, data->Branches_0@[k].target, (h - 1) as nat).flat(),
        ),
{
    let links = data_tree(pages, data, h)->Branch_0;
    let s = flat_all(links);
    let c = links[k].sub.flat();
    lemma_upto_child(links, k, links.len() as int);
    let off = crate::tree::flat_upto(links, k).len() as int;
    assert forall|i: int| 0 <= i < c.len() && (#[trigger] c[i]) is Bucket implies rooted(
        pages,
        c[i]->meta,
    ) by {
        assert(c[i] == s.subrange(off, off + c.len())[i]);
        assert(c[i] == s[off + i]);
    }
}

/// The number of nodes in the tree under `data`, the node that holds
/// `data` included.  Pages that no write has reached are not counted.
pub open spec fn nodes_in(data: NodeData, h: nat) -> nat
    decreases h, 1nat, 0int,
{
    match data {
        NodeData::Leaf(_) => 1,
        NodeData::Branches(bs) => 1 + nodes_upto(data, h, bs@.len() as int),
    }
}

/// The number of nodes under the first `k` children of a branch.
pub open spec fn nodes_upto(data: NodeData, h: nat, k: int) -> nat
    decreases h, 0nat, k,
{
    if k <= 0 || h == 0 || !(data is Branches) || k > data->Branches_0@.len() {
        0
    } else {
        nodes_upto(data, h, k - 1) + (match data->Branches_0@[k - 1].target {
            Target::Page(_) => 0nat,
            Target::Node(n) => nodes_in(n.data, (h - 1) as nat),
        })
    }
}

impl Node {
    /// Writes the node and the nodes below it to pages of their own, the
    /// deepest first, and returns the identifier of the page of this node.
    /// Where a child is a node, the page of this node points at the page
    /// that the child was written to.  The page stands for the tree that
    /// the node stands for.  One page is added for each node, and no other.
    pub fn write(&self, store: &mut PageStore, Ghost(h): Ghost<nat>) -> (id: PageID)
        requires
            data_good(old(store)@, self.data, h),
            pages_wf(old(store)@),
            headers_rooted(old(store)@, data_tree(old(store)@, self.data, h).flat()),
        ensures
            extends(final(store)@, old(store)@),
            pages_wf(final(store)@),
            id == final(store)@.len() - 1,
            old(store)@.len() <= id,
            target_good(final(store)@, Target::Page(id), h),
            target_tree(final(store)@, Target::Page(id), h) == data_tree(
                old(store)@,
                self.data,
                h,
            ),
            final(store).committed == old(store).committed,
            final(store).freed == old(store).freed,
            final(store).page_size == old(store).page_size,
            final(store)@.len() == old(store)@.len() + nodes_in(self.data, h),
        decreases h,
    {
        let ghost start = store@;
        let ghost tree = data_tree(start, self.data, h);
        match &self.data {
            NodeData::Leaf(es) => {
                let copy = copy_entries(es);
                let ghost before = store@;
                let id = store.append(NodeData::Leaf(copy));
                proof {
                    let page = Page { id, data: NodeData::Leaf(copy) };
                    assert(extends(before.push(page), before));
                    lemma_extends_headers(before, before.push(page), views(es@));
                    lemma_push_wf(before, page);
                }
                id
            },
            NodeData::Branches(bs) => {
                let mut out: Vec<Branch> = Vec::new();
                let mut k: usize = 0;
                while k < bs.len()
                    invariant
                        h > 0,
                        k <= bs@.len(),
                        self.data == NodeData::Branches(*bs),
                        data_good(start, self.data, h),
                        headers_rooted(start, data_tree(start, self.data, h).flat()),
                        extends(store@, start),
                        pages_wf(store@),
                        store.committed == old(store).committed,
                        store.freed == old(store).freed,
                        store.page_size == old(store).page_size,
                        start == old(store)@,
                        store@.len() == start.len() + nodes_upto(self.data, h, k as int),
                        out@.len() == k,
                        forall|j: int|
                            0 <= j < k ==> {
                                &&& (#[trigger] out@[j]).key@ == bs@[j].key@
                                &&& out@[j].target is Page
                                &&& target_ok(store@, out@[j].target, (h - 1) as nat)
                                &&& target_tree(store@, out@[j].target, (h - 1) as nat)
                                    == target_tree(start, bs@[j].target, (h - 1) as nat)
                            },
                    decreases bs@.len() - k,
                {
                    let ghost before = store@;
                    let ghost done = out@;
                    proof {
                        assert(target_ok(start, bs@[k as int].target, (h - 1) as nat));
                        lemma_extends_target(start, before, bs@[k as int].target, (h - 1) as nat);
                        lemma_child_headers(start, self.data, h, k as int);
                        lemma_extends_headers(
                            start,
                            before,
                            target_tree(start, bs@[k as int].target, (h - 1) as nat).flat(),
                        );
                        let links = data_tree(start, self.data, h)->Branch_0;
                        assert(links[k as int].sub.shaped((h - 1) as nat));
                        assert(links[k as int].sub.ordered());
                    }
                    let target = match &bs[k].target {
                        Target::Page(p) => Target::Page(*p),
                        Target::Node(c) => Target::Page(c.write(store, Ghost((h - 1) as nat))),
                    };
                    out.push(Branch { key: copy_bytes(bs[k].key.as_slice()), target });
                    proof {
                        lemma_extends_chain(start, before, store@);
                        assert forall|j: int| 0 <= j < k + 1 implies {
                            &&& (#[trigger] out@[j]).key@ == bs@[j].key@
                            &&& out@[j].target is Page
                            &&& target_ok(store@, out@[j].target, (h - 1) as nat)
                            &&& target_tree(store@, out@[j].target, (h - 1) as nat) == target_tree(
                                start,
                                bs@[j].target,
                                (h - 1) as nat,
                            )
                        } by {
                            if j < k {
                                assert(out@[j] == done[j]);
                                lemma_extends_target(
                                    before,
                                    store@,
                                    done[j].target,
                                    (h - 1) as nat,
                                );
                            }
                        }
                    }
                    k += 1;
                }
                let ghost before = store@;
                let ghost links = data_tree(start, self.data, h)->Branch_0;
                let id = store.append(NodeData::Branches(out));
                proof {
                    let data = NodeData::Branches(out);
                    let page = Page { id, data };
                    lemma_push_wf(before, page);
                    lemma_extends_chain(start, before, store@);
                    assert forall|j: int| 0 <= j < out@.len() implies target_ok(
                        store@,
                        (#[trigger] out@[j]).target,
                        (h - 1) as nat,
                    ) && target_tree(store@, out@[j].target, (h - 1) as nat) == links[j].sub by {
                        lemma_extends_target(before, store@, out@[j].target, (h - 1) as nat);
                    }
                    assert(data_tree(store@, data, h)->Branch_0 =~= links);
                    assert(store@[id as int] == page);
                }
                id
            },
        }
    }
}

} // verus!
