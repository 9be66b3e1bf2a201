//! Nodes: the mutable, in-memory form of the pages a transaction has
//! touched, and of the pages it is about to add.

use vstd::prelude::*;
use crate::bytes::{compare, copy_bytes, key_le, key_lt, lemma_key_lt_le, lemma_key_le_lt, lemma_key_lt_or_ge, lemma_key_lt_transitive, Rel};
use crate::data::{views, Data, Entry};
use crate::listing::{lower_bound, sorted};
use crate::meta::PageID;
use crate::page::{pure, Page};
use crate::tree::{inserted, slot, Link, Tree};

verus! {

/// What a child pointer points at: a page that no write has reached yet,
/// or the node that stands for the child since a write reached it.
#[derive(Debug)]
pub enum Target {
    Page(PageID),
    Node(Node),
}

/// A child pointer: the child and the key it is filed under.
#[derive(Debug)]
pub struct Branch {
    pub key: Vec<u8>,
    pub target: Target,
}

/// The content of a node or a page.
#[derive(Debug)]
pub enum NodeData {
    Branches(Vec<Branch>),
    Leaf(Vec<Data>),
}

/// The staging copy of one page, or a page in the making.
#[derive(Debug)]
pub struct Node {
    /// The page the node was copied from, or the page set aside for it.
    pub page_id: Option<PageID>,
    pub data: NodeData,
}

/// The keys that the child pointers are filed under.
pub open spec fn keys_of(bs: Seq<Branch>) -> Seq<Seq<u8>> {
    Seq::new(bs.len(), |k: int| bs[k].key@)
}

/// The keys ascend, the first one left out.
pub open spec fn keys_sorted(ks: Seq<Seq<u8>>) -> bool {
    forall|i: int, j: int| 1 <= i < j < ks.len() ==> key_le(#[trigger] ks[i], #[trigger] ks[j])
}

/// `i` is the child to descend into for `key`: the last child filed under
/// a key that is at most `key`, or the first child if there is none.
pub open spec fn key_slot(ks: Seq<Seq<u8>>, key: Seq<u8>, i: int) -> bool {
    &&& 0 <= i < ks.len()
    &&& i > 0 ==> key_le(ks[i], key)
    &&& forall|k: int| i < k < ks.len() ==> key_lt(key, #[trigger] ks[k])
}

impl NodeData {
    /// The number of entries or child pointers.
    pub open spec fn spec_len(&self) -> usize {
        match self {
            NodeData::Leaf(es) => es.len(),
            NodeData::Branches(bs) => bs.len(),
        }
    }

    /// The number of entries or child pointers.
    #[verifier::when_used_as_spec(spec_len)]
    pub fn len(&self) -> (n: usize)
        ensures
            n == self.spec_len(),
    {
        match self {
            NodeData::Leaf(es) => es.len(),
            NodeData::Branches(bs) => bs.len(),
        }
    }

    /// Whether the content is entries rather than child pointers.
    pub fn is_leaf(&self) -> (r: bool)
        ensures
            r == (self is Leaf),
    {
        match self {
            NodeData::Leaf(_) => true,
            NodeData::Branches(_) => false,
        }
    }

    /// Two contents that hold the same entries, or the same keys filed
    /// over the same pages.
    pub open spec fn same(self, other: NodeData) -> bool {
        match (self, other) {
            (NodeData::Leaf(a), NodeData::Leaf(b)) => views(a@) == views(b@),
            (NodeData::Branches(a), NodeData::Branches(b)) => {
                &&& a@.len() == b@.len()
                &&& forall|k: int|
                    0 <= k < a@.len() ==> (#[trigger] a@[k]).key@ == b@[k].key@ && a@[k].target
                        is Page && b@[k].target is Page && a@[k].target->Page_0
                        == b@[k].target->Page_0
            },
            _ => false,
        }
    }
}

/// The tree that `data` is the root of, `h` levels high, with the pages
/// read from `pages`.
pub open spec fn data_tree(pages: Seq<Page>, data: NodeData, h: nat) -> Tree
    decreases h, 0nat,
{
    match data {
        NodeData::Leaf(es) => Tree::Leaf(views(es@)),
        NodeData::Branches(bs) => if h == 0 {
            Tree::Branch(Seq::empty())
        } else {
            Tree::Branch(
                Seq::new(
                    bs@.len(),
                    |k: int|
                        Link {
                            key: bs@[k].key@,
                            sub: target_tree(pages, bs@[k].target, (h - 1) as nat),
                        },
                ),
            )
        },
    }
}

/// The tree that a child pointer stands for.
pub open spec fn target_tree(pages: Seq<Page>, t: Target, h: nat) -> Tree
    decreases h, 1nat,
{
    match t {
        Target::Page(p) => if p < pages.len() {
            data_tree(pages, pages[p as int].data, h)
        } else {
            Tree::Leaf(Seq::empty())
        },
        Target::Node(n) => data_tree(pages, n.data, h),
    }
}

/// Every page that `data` leads to is in `pages` and points at pages only.
pub open spec fn data_ok(pages: Seq<Page>, data: NodeData, h: nat) -> bool
    decreases h, 0nat,
{
    match data {
        NodeData::Leaf(_) => true,
        NodeData::Branches(bs) => h > 0 && forall|k: int|
            0 <= k < bs@.len() ==> target_ok(pages, (#[trigger] bs@[k]).target, (h - 1) as nat),
    }
}

/// Every page that the child pointer leads to is in `pages` and points at
/// pages only.
pub open spec fn target_ok(pages: Seq<Page>, t: Target, h: nat) -> bool
    decreases h, 1nat,
{
    match t {
        Target::Page(p) => p < pages.len() && pure(pages[p as int].data) && data_ok(
            pages,
            pages[p as int].data,
            h,
        ),
        Target::Node(n) => data_ok(pages, n.data, h),
    }
}

/// `data` is the root of a well-formed tree of height `h`: its pages are
/// there, its leaves are all `h` levels down, and the search order holds.
pub open spec fn data_good(pages: Seq<Page>, data: NodeData, h: nat) -> bool {
    &&& data_ok(pages, data, h)
    &&& data_tree(pages, data, h).shaped(h)
    &&& data_tree(pages, data, h).ordered()
}

/// The child pointer stands for a well-formed tree of height `h`.
pub open spec fn target_good(pages: Seq<Page>, t: Target, h: nat) -> bool {
    &&& target_ok(pages, t, h)
    &&& target_tree(pages, t, h).shaped(h)
    &&& target_tree(pages, t, h).ordered()
}

/// Copies the entries of a leaf.
pub fn copy_entries(es: &Vec<Data>) -> (out: Vec<Data>)
    ensures
        views(out@) == views(es@),
{
    let mut out: Vec<Data> = Vec::new();
    let mut i: usize = 0;
    while i < es.len()
        invariant
            i <= es@.len(),
            out@.len() == i,
            forall|k: int| 0 <= k < i ==> (#[trigger] out@[k])@ == es@[k]@,
        decreases es@.len() - i,
    {
        out.push(es[i].copy());
        i += 1;
    }
    assert(views(out@) =~= views(es@));
    out
}

/// Copies child pointers that point at pages.
pub fn copy_branches(bs: &Vec<Branch>) -> (out: Vec<Branch>)
    requires
        pure(NodeData::Branches(*bs)),
    ensures
        NodeData::Branches(out).same(NodeData::Branches(*bs)),
{
    let mut out: Vec<Branch> = Vec::new();
    let mut i: usize = 0;
    while i < bs.len()
        invariant
            i <= bs@.len(),
            out@.len() == i,
            pure(NodeData::Branches(*bs)),
            forall|k: int|
                0 <= k < i ==> (#[trigger] out@[k]).key@ == bs@[k].key@ && out@[k].target is Page
                    && out@[k].target->Page_0 == bs@[k].target->Page_0,
        decreases bs@.len() - i,
    {
        let b = &bs[i];
        assert(bs@[i as int].target is Page);
        let target = match &b.target {
            Target::Page(p) => Target::Page(*p),
            Target::Node(_) => Target::Page(0),
        };
        out.push(Branch { key: copy_bytes(b.key.as_slice()), target });
        i += 1;
    }
    out
}

/// Contents that are the same stand for the same tree.
pub proof fn lemma_same_tree(pages: Seq<Page>, a: NodeData, b: NodeData, h: nat)
    requires
        a.same(b),
    ensures
        data_tree(pages, a, h) == data_tree(pages, b, h),
        data_ok(pages, b, h) ==> data_ok(pages, a, h),
        pure(a),
{
    match (a, b) {
        (NodeData::Branches(x), NodeData::Branches(y)) => {
            if h > 0 {
                let lx = data_tree(pages, a, h)->Branch_0;
                let ly = data_tree(pages, b, h)->Branch_0;
                assert forall|k: int| 0 <= k < x@.len() implies x@[k].target == y@[k].target by {
                    assert(x@[k].target is Page);
                }
                assert(lx =~= ly);
                if data_ok(pages, b, h) {
                    assert forall|k: int| 0 <= k < x@.len() implies target_ok(
                        pages,
                        (#[trigger] x@[k]).target,
                        (h - 1) as nat,
                    ) by {
                        assert(x@[k].target == y@[k].target);
                        assert(target_ok(pages, y@[k].target, (h - 1) as nat));
                    }
                }
            }
            assert forall|k: int| 0 <= k < x@.len() implies (#[trigger] x@[k]).target is Page by {}
        },
        _ => {},
    }
}

/// Where `key` stands among the entries of a sorted leaf, and whether an
/// entry has it.
pub fn search_leaf(es: &Vec<Data>, key: &[u8]) -> (r: (bool, usize))
    requires
        sorted(views(es@)),
    ensures
        lower_bound(views(es@), key@, r.1 as int),
        r.0 == (r.1 < es@.len() && es@[r.1 as int]@.key() == key@),
{
    let ghost s = views(es@);
    let mut lo: usize = 0;
    let mut hi: usize = es.len();
    while lo < hi
        invariant
            0 <= lo <= hi <= es@.len(),
            s == views(es@),
            sorted(s),
            forall|k: int| 0 <= k < lo ==> key_lt(#[trigger] s[k].key(), key@),
            forall|k: int| hi <= k < s.len() ==> key_le(key@, #[trigger] s[k].key()),
        decreases hi - lo,
    {
        let mid = lo + (hi - lo) / 2;
        let rel = compare(es[mid].key(), key);
        assert(s[mid as int] == es@[mid as int]@);
        match rel {
            Rel::Before => {
                assert forall|k: int| 0 <= k < mid + 1 implies key_lt(#[trigger] s[k].key(), key@) by {
                    if k < mid {
                        lemma_key_lt_transitive(s[k].key(), s[mid as int].key(), key@);
                    }
                }
                lo = mid + 1;
            },
            _ => {
                assert forall|k: int| mid <= k < s.len() implies key_le(key@, #[trigger] s[k].key()) by {
                    lemma_key_lt_or_ge(s[mid as int].key(), key@);
                    if k > mid {
                        lemma_key_le_lt(key@, s[mid as int].key(), s[k].key());
                    }
                }
                hi = mid;
            },
        }
    }
    if lo < es.len() {
        let rel = compare(es[lo].key(), key);
        assert(s[lo as int] == es@[lo as int]@);
        (matches!(rel, Rel::Same), lo)
    } else {
        (false, lo)
    }
}

/// The child to descend into for `key`.
pub fn search_branches(bs: &Vec<Branch>, key: &[u8]) -> (i: usize)
    requires
        bs@.len() > 0,
        keys_sorted(keys_of(bs@)),
    ensures
        key_slot(keys_of(bs@), key@, i as int),
{
    let ghost ks = keys_of(bs@);
    let mut lo: usize = 1;
    let mut hi: usize = bs.len();
    while lo < hi
        invariant
            1 <= lo <= hi <= bs@.len(),
            ks == keys_of(bs@),
            keys_sorted(ks),
            forall|k: int| 1 <= k < lo ==> key_le(#[trigger] ks[k], key@),
            forall|k: int| hi <= k < ks.len() ==> key_lt(key@, #[trigger] ks[k]),
        decreases hi - lo,
    {
        let mid = lo + (hi - lo) / 2;
        let rel = compare(bs[mid].key.as_slice(), key);
        assert(ks[mid as int] == bs@[mid as int].key@);
        match rel {
            Rel::After => {
                assert forall|k: int| mid <= k < ks.len() implies key_lt(key@, #[trigger] ks[k]) by {
                    lemma_key_lt_or_ge(key@, ks[mid as int]);
                    lemma_key_lt_or_ge(ks[mid as int], key@);
                    if k > mid {
                        lemma_key_lt_le(key@, ks[mid as int], ks[k]);
                    }
                }
                hi = mid;
            },
            _ => {
                assert forall|k: int| 1 <= k < mid + 1 implies key_le(#[trigger] ks[k], key@) by {
                    if k < mid {
                        crate::bytes::lemma_key_le_transitive(ks[k], ks[mid as int], key@);
                    }
                }
                lo = mid + 1;
            },
        }
    }
    lo - 1
}

/// The content that a child pointer stands for: the content of the node,
/// or of the page read from `pages`.
pub open spec fn resolved(pages: Seq<Page>, t: Target) -> NodeData {
    match t {
        Target::Page(p) => pages[p as int].data,
        Target::Node(n) => n.data,
    }
}

/// The tree of a branch is made of the trees of its children.
pub proof fn lemma_branch_tree(pages: Seq<Page>, data: NodeData, h: nat, k: int)
    requires
        data is Branches,
        data_ok(pages, data, h),
        0 <= k < data->Branches_0@.len(),
    ensures
        h > 0,
        data_tree(pages, data, h) is Branch,
        data_tree(pages, data, h)->Branch_0.len() == data->Branches_0@.len(),
        data_tree(pages, data, h)->Branch_0[k].key == data->Branches_0@[k].key@,
        data_tree(pages, data, h)->Branch_0[k].sub == data_tree(
            pages,
            resolved(pages, data->Branches_0@[k].target),
            (h - 1) as nat,
        ),
        data_ok(pages, resolved(pages, data->Branches_0@[k].target), (h - 1) as nat),
        data->Branches_0@[k].target is Page ==> data->Branches_0@[k].target->Page_0 < pages.len()
            && pure(resolved(pages, data->Branches_0@[k].target)),
{
    let bs = data->Branches_0;
    assert(target_ok(pages, bs@[k].target, (h - 1) as nat));
}

/// The links of an ordered branch are filed under ascending keys.
pub proof fn lemma_branch_keys(pages: Seq<Page>, data: NodeData, h: nat)
    requires
        data is Branches,
        data_ok(pages, data, h),
        data_tree(pages, data, h).ordered(),
    ensures
        keys_sorted(keys_of(data->Branches_0@)),
{
    let bs = data->Branches_0@;
    let ks = keys_of(bs);
    let links = data_tree(pages, data, h)->Branch_0;
    assert forall|i: int, j: int| 1 <= i < j < ks.len() implies key_le(
        #[trigger] ks[i],
        #[trigger] ks[j],
    ) by {
        assert(key_le(links[i].key, links[j].key));
    }
}

/// The slot of a key among the keys of a branch is its slot among the links.
pub proof fn lemma_branch_slot(pages: Seq<Page>, data: NodeData, h: nat, key: Seq<u8>, i: int)
    requires
        data is Branches,
        data_ok(pages, data, h),
        key_slot(keys_of(data->Branches_0@), key, i),
    ensures
        slot(data_tree(pages, data, h)->Branch_0, key, i),
{
    let ks = keys_of(data->Branches_0@);
    let links = data_tree(pages, data, h)->Branch_0;
    assert forall|k: int| i < k < links.len() implies key_lt(key, (#[trigger] links[k]).key) by {
        assert(key_lt(key, ks[k]));
    }
}

/// The content that a child pointer stands for.
pub fn resolve<'a>(pages: &'a Vec<Page>, t: &'a Target) -> (data: &'a NodeData)
    requires
        t is Page ==> t->Page_0 < pages@.len(),
    ensures
        *data == resolved(pages@, *t),
{
    match t {
        Target::Page(p) => {
            let n = pages.len();
            assert(*p < n);
            &pages[*p as usize].data
        },
        Target::Node(n) => &n.data,
    }
}

impl Node {
    /// An empty node of the given kind.
    pub fn new(leaf: bool) -> (n: Node)
        ensures
            n.page_id is None,
            n.data.spec_len() == 0,
            n.data is Leaf == leaf,
    {
        let data = if leaf {
            NodeData::Leaf(Vec::new())
        } else {
            NodeData::Branches(Vec::new())
        };
        Node { page_id: None, data }
    }

    /// A node that holds `data` and stands for no page yet.
    pub fn with_data(data: NodeData) -> (n: Node)
        ensures
            n.page_id is None,
            n.data == data,
    {
        Node { page_id: None, data }
    }

    /// The node that stands for the page `p` from now on.
    pub fn from_page(p: &Page) -> (n: Node)
        requires
            pure(p.data),
        ensures
            n.page_id == Some(p.id),
            n.data.same(p.data),
            pure(n.data),
    {
        Node { page_id: Some(p.id), data: p.decode() }
    }

    /// Whether the node holds entries rather than child pointers.
    pub fn leaf(&self) -> (r: bool)
        ensures
            r == (self.data is Leaf),
    {
        match &self.data {
            NodeData::Leaf(_) => true,
            NodeData::Branches(_) => false,
        }
    }

    /// Puts the node `child` in the place of the page that child pointer
    /// `index` points at.  This is done when a write first reaches the
    /// page: the node is the copy that the write lands on.  The child stays
    /// filed under the key that the page was filed under, whatever the first
    /// key of the node is: that key bounds the child from below, and the
    /// first child of a branch is filed under a key that bounds nothing.
    pub fn insert_child(&mut self, index: usize, child: Node)
        requires
            old(self).data is Branches,
            index < old(self).data.spec_len(),
        ensures
            final(self).page_id == old(self).page_id,
            final(self).data is Branches,
            final(self).data->Branches_0@ == old(self).data->Branches_0@.update(
                index as int,
                Branch {
                    key: old(self).data->Branches_0@[index as int].key,
                    target: Target::Node(child),
                },
            ),
    {
        match &mut self.data {
            NodeData::Branches(bs) => {
                let slot = &mut bs[index];
                slot.target = Target::Node(child);
            },
            NodeData::Leaf(_) => {},
        }
    }

    /// Gives back the page that the node was copied from, if it was copied
    /// from one: the page is put on the list of pages that no tree points
    /// at any more.
    pub fn free_page(&self, freed: &mut Vec<PageID>)
        ensures
            final(freed)@ == (match self.page_id {
                Some(p) => old(freed)@.push(p),
                None => old(freed)@,
            }),
    {
        match self.page_id {
            Some(p) => {
                freed.push(p);
            },
            None => {},
        }
    }

    /// The entries of a leaf as mathematical values.
    pub open spec fn entries(self) -> Seq<Entry> {
        views(self.data->Leaf_0@)
    }

    /// Puts `data` into a leaf where its key stands: over the entry that
    /// has the key, or between its neighbours if none has it.
    pub fn insert_data(&mut self, data: Data)
        requires
            old(self).data is Leaf,
            sorted(old(self).entries()),
        ensures
            final(self).data is Leaf,
            final(self).page_id == old(self).page_id,
            sorted(final(self).entries()),
            forall|p: int|
                lower_bound(old(self).entries(), data@.key(), p) ==> final(self).entries()
                    == #[trigger] inserted(old(self).entries(), p, data@),
    {
        let ghost s = self.entries();
        match &mut self.data {
            NodeData::Leaf(es) => {
                let (found, i) = search_leaf(es, data.key());
                proof {
                    crate::listing::lemma_lower_bound_has_key(s, data@.key(), i as int);
                    if found {
                        crate::listing::lemma_update(s, i as int, data@);
                    } else {
                        crate::listing::lemma_insert(s, i as int, data@);
                    }
                }
                if found {
                    es[i] = data;
                } else {
                    es.insert(i, data);
                }
                assert(views(es@) =~= inserted(s, i as int, data@));
                assert forall|p: int| lower_bound(s, data@.key(), p) implies views(es@)
                    == #[trigger] inserted(s, p, data@) by {
                    crate::listing::lemma_lower_bound_unique(s, data@.key(), p, i as int);
                }
            },
            NodeData::Branches(_) => {},
        }
    }

    /// Takes the entry at `index` out of a leaf.
    pub fn delete(&mut self, index: usize) -> (d: Data)
        requires
            old(self).data is Leaf,
            index < old(self).entries().len(),
        ensures
            final(self).data is Leaf,
            final(self).page_id == old(self).page_id,
            d@ == old(self).entries()[index as int],
            final(self).entries() == old(self).entries().remove(index as int),
    {
        let ghost s = self.entries();
        match &mut self.data {
            NodeData::Leaf(es) => {
                let d = es.remove(index);
                assert(views(es@) =~= s.remove(index as int));
                d
            },
            NodeData::Branches(_) => vstd::pervasive::unreached(),
        }
    }
}

/// The way as a path: the indices as mathematical integers.
pub open spec fn ints(way: Seq<usize>) -> Seq<int> {
    way.map_values(|i: usize| i as int)
}

/// A node copied from a page stands, in the place of the page, for the
/// same tree.
pub proof fn lemma_promote(pages: Seq<Page>, before: NodeData, after: NodeData, i: int, h: nat)
    requires
        before is Branches,
        after is Branches,
        data_ok(pages, before, h),
        0 <= i < before->Branches_0@.len(),
        after->Branches_0@.len() == before->Branches_0@.len(),
        forall|k: int|
            0 <= k < before->Branches_0@.len() && k != i ==> after->Branches_0@[k]
                == before->Branches_0@[k],
        after->Branches_0@[i].key@ == before->Branches_0@[i].key@,
        before->Branches_0@[i].target is Page,
        after->Branches_0@[i].target is Node,
        after->Branches_0@[i].target->Node_0.data.same(
            pages[before->Branches_0@[i].target->Page_0 as int].data,
        ),
    ensures
        data_ok(pages, after, h),
        data_tree(pages, after, h) == data_tree(pages, before, h),
{
    let bs = before->Branches_0@;
    let cs = after->Branches_0@;
    let p = bs[i].target->Page_0 as int;
    assert(target_ok(pages, bs[i].target, (h - 1) as nat));
    lemma_same_tree(pages, cs[i].target->Node_0.data, pages[p].data, (h - 1) as nat);
    assert forall|k: int| 0 <= k < cs.len() implies target_ok(
        pages,
        (#[trigger] cs[k]).target,
        (h - 1) as nat,
    ) by {
        if k != i {
            assert(target_ok(pages, bs[k].target, (h - 1) as nat));
        }
    }
    assert(data_tree(pages, after, h)->Branch_0 =~= data_tree(pages, before, h)->Branch_0);
}

impl Node {
    /// The node at the end of `way`, to be changed in place.  Every page
    /// on the way is promoted to a node first, from the top down, so that
    /// the change has a place to land; the tree stays what it was, and each
    /// promoted node stays filed under the key that its page was filed under.
    pub fn descend<'a>(
        &'a mut self,
        pages: &Vec<Page>,
        way: &Vec<usize>,
        t: usize,
        Ghost(h): Ghost<nat>,
    ) -> (r: &'a mut Node)
        requires
            t <= way@.len(),
            data_ok(pages@, old(self).data, h),
            data_tree(pages@, old(self).data, h).has_path(ints(way@).skip(t as int)),
        ensures
            h >= way@.len() - t,
            data_ok(pages@, r.data, (h - (way@.len() - t)) as nat),
            data_tree(pages@, r.data, (h - (way@.len() - t)) as nat) == data_tree(
                pages@,
                old(self).data,
                h,
            ).subtree(ints(way@).skip(t as int)),
            data_ok(pages@, final(r).data, (h - (way@.len() - t)) as nat) ==> data_ok(
                pages@,
                final(self).data,
                h,
            ),
            data_tree(pages@, final(self).data, h) == data_tree(pages@, old(self).data, h).graft(
                ints(way@).skip(t as int),
                data_tree(pages@, final(r).data, (h - (way@.len() - t)) as nat),
            ),
            t < way@.len() ==> final(self).page_id == old(self).page_id,
            t == way@.len() ==> r.page_id == old(self).page_id && final(self).page_id == final(r).page_id,
            t < way@.len() ==> final(self).data is Branches && keys_of(
                final(self).data->Branches_0@,
            ) == keys_of(old(self).data->Branches_0@),
        decreases way@.len() - t,
    {
        if t == way.len() {
            assert(ints(way@).skip(t as int).len() == 0);
            return self;
        }
        let i = way[t];
        let ghost path = ints(way@).skip(t as int);
        let ghost rest = ints(way@).skip(t + 1);
        let ghost before = self.data;
        let ghost fin = *final(self);
        let ghost hc = (h - 1) as nat;
        let ghost hr = (h - (way@.len() - t)) as nat;
        proof {
            assert(path[0] == i);
            assert(path.drop_first() =~= rest);
        }
        proof {
            lemma_branch_tree(pages@, before, h, i as int);
        }
        let promoted = match &self.data {
            NodeData::Branches(bs) => match &bs[i].target {
                Target::Page(p) => {
                    let n = pages.len();
                    assert(*p < n);
                    Some(Node::from_page(&pages[*p as usize]))
                },
                Target::Node(_) => None,
            },
            NodeData::Leaf(_) => None,
        };
        match promoted {
            Some(n) => {
                self.insert_child(i, n);
            },
            None => {},
        }
        match &mut self.data {
            NodeData::Branches(bs) => {
                let ghost mid = NodeData::Branches(*bs);
                proof {
                    if before->Branches_0@[i as int].target is Page {
                        lemma_promote(pages@, before, mid, i as int, h);
                    }
                    lemma_branch_tree(pages@, mid, h, i as int);
                }
                match &mut bs[i].target {
                    Target::Node(c) => {
                        let r = c.descend(pages, way, t + 1, Ghost(hc));
                        proof {
                            let tree = data_tree(pages@, before, h);
                            let ms = mid->Branches_0@;
                            let fs = fin.data->Branches_0@;
                            assert(fin.data is Branches);
                            assert(fs.len() == ms.len());
                            assert(forall|k: int| 0 <= k < ms.len() && k != i ==> fs[k] == ms[k]);
                            assert(keys_of(fs) =~= keys_of(before->Branches_0@));
                            let ks0 = tree->Branch_0;
                            let ks1 = data_tree(pages@, fin.data, h)->Branch_0;
                            let sub = ks0[i as int].sub.graft(rest, data_tree(pages@, final(r).data, hr));
                            assert(ks1 =~= ks0.update(
                                i as int,
                                crate::tree::Link { key: ks0[i as int].key, sub },
                            ));
                            assert forall|k: int|
                                data_ok(pages@, final(r).data, hr) && 0 <= k
                                    < fs.len() implies target_ok(
                                pages@,
                                (#[trigger] fs[k]).target,
                                hc,
                            ) by {
                                if k != i {
                                    assert(target_ok(pages@, ms[k].target, hc));
                                }
                            }
                        }
                        r
                    },
                    Target::Page(_) => vstd::pervasive::unreached(),
                }
            },
            NodeData::Leaf(_) => vstd::pervasive::unreached(),
        }
    }
}

} // verus!
