//! Cursors: a position in the tree of a bucket, kept as the way from the
//! root down to it.

use vstd::prelude::*;
use crate::data::{views, Data, Entry};
use crate::listing::{has_key, lemma_lower_bound_has_key, lower_bound, sorted};
use crate::node::{
    ints, data_ok, data_tree, key_slot, keys_of, keys_sorted, lemma_branch_keys, lemma_branch_slot,
    lemma_branch_tree, resolve, resolved, search_branches, search_leaf, target_good, target_tree,
    NodeData, Target,
};
use crate::page::Page;
use crate::tree::{
    flat_upto, lemma_flat_sorted, lemma_graft_flat, lemma_leads, lemma_leads_has_key,
    lemma_leads_push, lemma_path_push, lemma_subtree, Tree,
};

verus! {

/// One step of the way: a node or page, and the index taken in it.
pub struct Frame<'a> {
    pub data: &'a NodeData,
    pub index: usize,
}

/// A position in the tree of a bucket.  The cursor borrows the bucket and
/// the pages, so the tree cannot change under it.
pub struct Cursor<'a> {
    pub pages: &'a Vec<Page>,
    pub root: &'a Target,
    pub stack: Vec<Frame<'a>>,
    pub height: Ghost<nat>,
}

/// One more step at the end of the way leaves the steps before it as they
/// were.
pub proof fn lemma_push_frame(before: Cursor, after: Cursor)
    requires
        after.pages == before.pages,
        after.root == before.root,
        after.height == before.height,
        after.stack@.len() == before.stack@.len() + 1,
        after.stack@.drop_last() == before.stack@,
        before.descending(),
        before.tree().has_path(before.indices()),
        data_tree(
            before.pages@,
            *after.stack@.last().data,
            (before.height@ - before.stack@.len()) as nat,
        ) == before.tree().subtree(before.indices()),
        data_ok(
            before.pages@,
            *after.stack@.last().data,
            (before.height@ - before.stack@.len()) as nat,
        ),
        after.stack@.last().index <= after.stack@.last().data.spec_len(),
    ensures
        forall|t: int| 0 <= t < after.stack@.len() ==> after.frame_ok(t),
        after.stack@.last().index < after.stack@.last().data.spec_len() ==> after.descending(),
{
    reveal(Cursor::descending);
    let depth = before.stack@.len() as int;
    assert forall|t: int|
        0 <= t < after.stack@.len() && after.stack@.last().index
            < after.stack@.last().data.spec_len() implies (#[trigger] after.stack@[t]).index
        < after.stack@[t].data.spec_len() by {
        if t < depth {
            assert(after.stack@[t] == after.stack@.drop_last()[t]);
        }
    }
    assert forall|t: int| 0 <= t < after.stack@.len() implies after.frame_ok(t) by {
        if t < depth {
            assert(after.stack@[t] == after.stack@.drop_last()[t]);
            assert(after.indices().subrange(0, t) =~= before.indices().subrange(0, t));
            assert(before.frame_ok(t));
        } else {
            assert(after.indices().subrange(0, t) =~= before.indices());
        }
    }
}

/// Before a step down: the branch at hand has children, filed under
/// ascending keys.
pub proof fn lemma_step_ready(c: Cursor, data: NodeData, key: Seq<u8>)
    requires
        c.reaches(data, key),
        data is Branches,
    ensures
        data->Branches_0@.len() > 0,
        keys_sorted(keys_of(data->Branches_0@)),
        c.stack@.len() < c.height@,
        forall|k: int|
            0 <= k < data->Branches_0@.len() && (#[trigger] data->Branches_0@[k]).target is Page
                ==> data->Branches_0@[k].target->Page_0 < c.pages@.len(),
{
    reveal(Cursor::reaches);
    let h = (c.height@ - c.stack@.len()) as nat;
    lemma_subtree(c.tree(), c.indices(), c.height@);
    lemma_branch_keys(c.pages@, data, h);
    assert forall|k: int|
        0 <= k < data->Branches_0@.len() && (#[trigger] data->Branches_0@[k]).target
            is Page implies data->Branches_0@[k].target->Page_0 < c.pages@.len() by {
        lemma_branch_tree(c.pages@, data, h, k);
    }
}

/// What `reaches` says, spelled out.
pub proof fn lemma_reaches(c: Cursor, data: NodeData, key: Seq<u8>)
    ensures
        c.reaches(data, key) == ({
            let h = (c.height@ - c.stack@.len()) as nat;
            &&& target_good(c.pages@, *c.root, c.height@)
            &&& c.stack@.len() <= c.height@
            &&& c.descending()
            &&& c.tree().has_path(c.indices())
            &&& c.tree().leads(c.indices(), key)
            &&& data_tree(c.pages@, data, h) == c.tree().subtree(c.indices())
            &&& data_ok(c.pages@, data, h)
        }),
{
    reveal(Cursor::reaches);
}

/// After a step down into the slot of the key, the descent still follows
/// the key.
pub proof fn lemma_step(before: Cursor, after: Cursor, data: NodeData, key: Seq<u8>, child: NodeData)
    requires
        before.reaches(data, key),
        data is Branches,
        after.pages == before.pages,
        after.root == before.root,
        after.height == before.height,
        after.stack@.len() == before.stack@.len() + 1,
        after.stack@.drop_last() == before.stack@,
        *after.stack@.last().data == data,
        key_slot(keys_of(data->Branches_0@), key, after.stack@.last().index as int),
        child == resolved(before.pages@, data->Branches_0@[after.stack@.last().index as int].target),
    ensures
        after.reaches(child, key),
{
    let tree = before.tree();
    let pt = before.indices();
    let i = after.stack@.last().index as int;
    let h = (before.height@ - before.stack@.len()) as nat;
    lemma_reaches(before, data, key);
    lemma_reaches(after, child, key);
    lemma_subtree(tree, pt, before.height@);
    lemma_branch_slot(before.pages@, data, h, key, i);
    lemma_branch_tree(before.pages@, data, h, i);
    lemma_path_push(tree, pt, i);
    lemma_leads_push(tree, pt, i, key);
    assert(after.indices() == pt.push(i)) by {
        assert(after.stack@[before.stack@.len() as int] == after.stack@.last());
        assert forall|t: int| 0 <= t < before.stack@.len() implies after.stack@[t]
            == before.stack@[t] by {
            assert(after.stack@[t] == after.stack@.drop_last()[t]);
        }
        assert(after.indices() =~= pt.push(i));
    }
    lemma_push_frame(before, after);
    assert(after.tree() == tree);
    assert(after.descending());
    assert((after.height@ - after.stack@.len()) as nat == (h - 1) as nat);
    assert(data_tree(after.pages@, child, (h - 1) as nat) == tree.subtree(pt.push(i)));
}

/// Before the search in a leaf: the leaf at hand is sorted.
pub proof fn lemma_land_ready(c: Cursor, data: NodeData, key: Seq<u8>)
    requires
        c.reaches(data, key),
        data is Leaf,
    ensures
        sorted(views(data->Leaf_0@)),
{
    reveal(Cursor::reaches);
    lemma_subtree(c.tree(), c.indices(), c.height@);
}

/// After the search in the leaf: the cursor stands where the key stands.
pub proof fn lemma_land(before: Cursor, after: Cursor, data: NodeData, key: Seq<u8>)
    requires
        before.reaches(data, key),
        data is Leaf,
        after.pages == before.pages,
        after.root == before.root,
        after.height == before.height,
        after.stack@.len() == before.stack@.len() + 1,
        after.stack@.drop_last() == before.stack@,
        *after.stack@.last().data == data,
        lower_bound(views(data->Leaf_0@), key, after.stack@.last().index as int),
    ensures
        after.placed(),
        after.tree().has_path(after.path()),
        after.tree().leads(after.path(), key),
        after.tree().subtree(after.path()) == Tree::Leaf(views(data->Leaf_0@)),
        lower_bound(after.tree().flat(), key, after.position()),
        has_key(after.tree().flat(), key) == (after.stack@.last().index < data->Leaf_0@.len()
            && data->Leaf_0@[after.stack@.last().index as int]@.key() == key),
        has_key(after.tree().flat(), key) == (after.position() < after.tree().flat().len()
            && after.tree().flat()[after.position()].key() == key),
{
    let tree = before.tree();
    let pt = before.indices();
    let i = after.stack@.last().index as int;
    lemma_reaches(before, data, key);
    lemma_subtree(tree, pt, before.height@);
    assert(after.path() == pt) by {
        assert forall|t: int| 0 <= t < before.stack@.len() implies after.stack@[t]
            == before.stack@[t] by {
            assert(after.stack@[t] == after.stack@.drop_last()[t]);
        }
        assert(after.indices().drop_last() =~= pt);
    }
    assert(after.indices().last() == i);
    assert(after.tree() == tree);
    assert(tree.subtree(pt) == Tree::Leaf(views(data->Leaf_0@)));
    assert(before.stack@.len() == before.height@);
    lemma_push_frame(before, after);
    lemma_found(tree, pt, key, i);
    assert(after.position() == tree.offset(pt) + i);
    let leaf = views(data->Leaf_0@);
    if i < leaf.len() {
        assert(leaf[i] == data->Leaf_0@[i]@);
    }
}

/// What a descent for a key has found, once it is in a leaf.
pub proof fn lemma_found(tree: Tree, path: Seq<int>, key: Seq<u8>, i: int)
    requires
        tree.ordered(),
        tree.has_path(path),
        tree.leads(path, key),
        tree.subtree(path) is Leaf,
        tree.subtree(path).ordered(),
        lower_bound(tree.subtree(path).flat(), key, i),
    ensures
        lower_bound(tree.flat(), key, tree.offset(path) + i),
        has_key(tree.flat(), key) == (i < tree.subtree(path).flat().len() && tree.subtree(
            path,
        ).flat()[i].key() == key),
        has_key(tree.flat(), key) == (tree.offset(path) + i < tree.flat().len()
            && tree.flat()[tree.offset(path) + i].key() == key),
{
    let leaf = tree.subtree(path).flat();
    lemma_leads(tree, path, key, i);
    lemma_leads_has_key(tree, path, key);
    lemma_flat_sorted(tree);
    lemma_lower_bound_has_key(leaf, key, i);
    lemma_lower_bound_has_key(tree.flat(), key, tree.offset(path) + i);
}

impl<'a> Cursor<'a> {
    /// The tree that the cursor walks.
    pub open spec fn tree(self) -> Tree {
        target_tree(self.pages@, *self.root, self.height@)
    }

    /// The index taken at each step of the way.
    pub open spec fn indices(self) -> Seq<int> {
        Seq::new(self.stack@.len(), |t: int| self.stack@[t].index as int)
    }

    /// Step `t` of the way holds the subtree that the steps before it lead to.
    pub open spec fn frame_ok(self, t: int) -> bool {
        let pt = self.indices().subrange(0, t);
        let h = (self.height@ - t) as nat;
        &&& self.tree().has_path(pt)
        &&& data_tree(self.pages@, *self.stack@[t].data, h) == self.tree().subtree(pt)
        &&& data_ok(self.pages@, *self.stack@[t].data, h)
        &&& self.stack@[t].index <= self.stack@[t].data.spec_len()
        &&& t + 1 < self.stack@.len() ==> self.stack@[t].index < self.stack@[t].data.spec_len()
    }

    /// Every step of the way so far takes a child of a branch.
    #[verifier::opaque]
    pub open spec fn descending(self) -> bool {
        &&& forall|t: int| 0 <= t < self.stack@.len() ==> self.frame_ok(t)
        &&& forall|t: int|
            0 <= t < self.stack@.len() ==> (#[trigger] self.stack@[t]).index
                < self.stack@[t].data.spec_len()
    }

    /// A descent for `key` has come as far as `data`: the steps so far
    /// follow the key, and `data` is what they lead to.
    #[verifier::opaque]
    pub open spec fn reaches(self, data: NodeData, key: Seq<u8>) -> bool {
        let h = (self.height@ - self.stack@.len()) as nat;
        &&& target_good(self.pages@, *self.root, self.height@)
        &&& self.stack@.len() <= self.height@
        &&& self.descending()
        &&& self.tree().has_path(self.indices())
        &&& self.tree().leads(self.indices(), key)
        &&& data_tree(self.pages@, data, h) == self.tree().subtree(self.indices())
        &&& data_ok(self.pages@, data, h)
    }

    /// The cursor walks a well-formed tree, and its steps follow the tree.
    pub open spec fn wf(self) -> bool {
        &&& target_good(self.pages@, *self.root, self.height@)
        &&& self.stack@.len() <= self.height@ + 1
        &&& forall|t: int| 0 <= t < self.stack@.len() ==> self.frame_ok(t)
    }

    /// The cursor stands in a leaf.
    pub open spec fn placed(self) -> bool {
        self.wf() && self.stack@.len() == self.height@ + 1
    }

    /// The way to the leaf that the cursor stands in.
    pub open spec fn path(self) -> Seq<int> {
        self.indices().drop_last()
    }

    /// The place of the cursor in the listing of the tree.
    pub open spec fn position(self) -> int {
        self.tree().offset(self.path()) + self.indices().last()
    }

    /// The tree of step `t` of the way.
    pub open spec fn frame_tree(self, t: int) -> Tree {
        data_tree(self.pages@, *self.stack@[t].data, (self.height@ - t) as nat)
    }

    /// How many entries of its own subtree the last step has behind it.
    pub open spec fn top_count(self) -> int {
        let t = self.stack@.len() - 1;
        match self.frame_tree(t) {
            Tree::Leaf(_) => self.stack@[t].index as int,
            Tree::Branch(links) => flat_upto(links, self.stack@[t].index as int).len() as int,
        }
    }

    /// How many entries of the tree the cursor has behind it.  A cursor
    /// that has not started has none behind it.
    pub open spec fn rank(self) -> int {
        if self.stack@.len() == 0 {
            0
        } else {
            self.tree().offset(self.path()) + self.top_count()
        }
    }

    /// The entries that the cursor walks, in key order.
    pub open spec fn listing(self) -> Seq<Entry> {
        self.tree().flat()
    }

    /// The cursor stands at an entry of a leaf.
    pub open spec fn at_entry(self) -> bool {
        &&& self.stack@.len() > 0
        &&& self.stack@.last().data is Leaf
        &&& self.stack@.last().index < self.stack@.last().data.spec_len()
    }

    /// The last step is at the end of its node.
    pub open spec fn top_done(self) -> bool {
        &&& self.stack@.len() > 0
        &&& self.stack@.last().index == self.stack@.last().data.spec_len()
    }

    /// The two cursors walk the same tree.
    pub open spec fn same_walk(self, other: Cursor) -> bool {
        &&& self.pages == other.pages
        &&& self.root == other.root
        &&& self.height == other.height
    }

    /// A cursor over the tree under `root`, not yet placed.
    pub fn new(pages: &'a Vec<Page>, root: &'a Target, Ghost(height): Ghost<nat>) -> (c: Cursor<'a>)
        requires
            target_good(pages@, *root, height),
        ensures
            c.wf(),
            c.pages == pages,
            c.root == root,
            c.height@ == height,
            c.stack@.len() == 0,
    {
        Cursor { pages, root, stack: Vec::new(), height: Ghost(height) }
    }

    /// Moves to where `key` stands: to the entry that has the key if there
    /// is one, else to the place where such an entry would be put.  Returns
    /// whether an entry has the key.
    pub fn seek(&mut self, key: &[u8]) -> (found: bool)
        requires
            old(self).wf(),
        ensures
            final(self).placed(),
            final(self).pages == old(self).pages,
            final(self).root == old(self).root,
            final(self).height == old(self).height,
            final(self).tree().has_path(final(self).path()),
            final(self).tree().leads(final(self).path(), key@),
            final(self).tree().subtree(final(self).path()) is Leaf,
            lower_bound(
                final(self).tree().subtree(final(self).path()).flat(),
                key@,
                final(self).indices().last(),
            ),
            lower_bound(final(self).tree().flat(), key@, final(self).position()),
            found == has_key(final(self).tree().flat(), key@),
            found == (final(self).position() < final(self).tree().flat().len()
                && final(self).tree().flat()[final(self).position()].key() == key@),
            final(self).rank() == final(self).position(),
    {
        self.stack.clear();
        let ghost tree = self.tree();
        let ghost h = self.height@;
        let pages = self.pages;
        let root = self.root;
        let mut data: &'a NodeData = resolve(pages, root);
        proof {
            reveal(Cursor::descending);
            reveal(Cursor::reaches);
            assert(self.indices() =~= Seq::<int>::empty());
        }
        while !data.is_leaf()
            invariant
                self.pages == pages,
                self.root == root,
                self.height@ == h,
                self.pages == old(self).pages,
                self.root == old(self).root,
                self.height == old(self).height,
                self.reaches(*data, key@),
            decreases h - self.stack@.len(),
        {
            let ghost before = *self;
            match data {
                NodeData::Branches(bs) => {
                    proof {
                        lemma_step_ready(before, *data, key@);
                    }
                    let i = search_branches(bs, key);
                    self.stack.push(Frame { data, index: i });
                    let child = resolve(pages, &bs[i].target);
                    proof {
                        assert(self.stack@.drop_last() =~= before.stack@);
                        lemma_step(before, *self, *data, key@, *child);
                    }
                    data = child;
                },
                NodeData::Leaf(_) => {},
            }
        }
        let ghost before = *self;
        match data {
            NodeData::Leaf(es) => {
                proof {
                    lemma_land_ready(before, *data, key@);
                }
                let (found, i) = search_leaf(es, key);
                self.stack.push(Frame { data, index: i });
                proof {
                    assert(self.stack@.drop_last() =~= before.stack@);
                    lemma_land(before, *self, *data, key@);
                }
                found
            },
            NodeData::Branches(_) => false,
        }
    }

    /// The entry that the cursor stands at, if it stands at one.
    pub fn current(&self) -> (r: Option<Data>)
        requires
            self.placed(),
        ensures
            r is Some == (self.indices().last() < self.tree().subtree(self.path()).flat().len()),
            r matches Some(d) ==> self.position() < self.tree().flat().len() && d@
                == self.tree().flat()[self.position()],
    {
        let top = &self.stack[self.stack.len() - 1];
        proof {
            let t = self.stack@.len() - 1;
            assert(self.frame_ok(t));
            assert(self.indices().subrange(0, t) =~= self.path());
            lemma_subtree(self.tree(), self.path(), self.height@);
            lemma_graft_flat(self.tree(), self.path(), self.tree().subtree(self.path()));
        }
        match top.data {
            NodeData::Leaf(es) => {
                if top.index < es.len() {
                    proof {
                        let off = self.tree().offset(self.path());
                        let leaf = views(es@);
                        assert(self.tree().flat().subrange(off, off + leaf.len())[top.index as int]
                            == self.tree().flat()[off + top.index]);
                    }
                    Some(es[top.index].copy())
                } else {
                    None
                }
            },
            NodeData::Branches(_) => None,
        }
    }

    /// The index of the current entry in its leaf.
    pub fn current_index(&self) -> (i: usize)
        requires
            self.placed(),
        ensures
            i == self.indices().last(),
    {
        self.stack[self.stack.len() - 1].index
    }

    /// The way from the root to the leaf that the cursor stands in: the
    /// index of the child taken at each branch.
    pub fn way(&self) -> (out: Vec<usize>)
        requires
            self.placed(),
        ensures
            out@.len() == self.height@,
            ints(out@) == self.path(),
    {
        let mut out: Vec<usize> = Vec::new();
        let n = self.stack.len() - 1;
        let mut t: usize = 0;
        while t < n
            invariant
                t <= n,
                n == self.stack@.len() - 1,
                out@.len() == t,
                forall|k: int| 0 <= k < t ==> out@[k] == self.stack@[k].index,
            decreases n - t,
        {
            out.push(self.stack[t].index);
            t += 1;
        }
        assert(ints(out@) =~= self.path());
        out
    }

    /// Looks for the first entry in what is left of the subtree of the
    /// last step, going down and coming back up as far as that step.
    fn settle_from(&mut self) -> (found: bool)
        requires
            old(self).wf(),
            old(self).stack@.len() > 0,
        ensures
            final(self).wf(),
            final(self).same_walk(*old(self)),
            final(self).rank() == old(self).rank(),
            final(self).stack@.len() >= old(self).stack@.len(),
            forall|t: int|
                0 <= t < old(self).stack@.len() - 1 ==> #[trigger] final(self).stack@[t] == old(self).stack@[t],
            found ==> final(self).at_entry(),
            !found ==> final(self).stack@.len() == old(self).stack@.len() && final(self).stack@.last().data == old(self).stack@.last().data && final(self).top_done(),
        decreases old(self).height@ + 1 - old(self).stack@.len(),
    {
        let d = self.stack.len();
        let top_data: &'a NodeData = self.stack[d - 1].data;
        let pages = self.pages;
        proof {
            assert(self.frame_ok(d - 1));
        }
        match top_data {
            NodeData::Leaf(es) => {
                proof {
                    assert(self.stack@.last() == self.stack@[d - 1]);
                    assert(top_data.spec_len() == es.len());
                }
                self.stack[d - 1].index < es.len()
            },
            NodeData::Branches(bs) => {
                while self.stack[d - 1].index < bs.len()
                    invariant
                        self.wf(),
                        self.same_walk(*old(self)),
                        self.pages == pages,
                        self.rank() == old(self).rank(),
                        self.stack@.len() == d,
                        d == old(self).stack@.len(),
                        d > 0,
                        forall|t: int|
                            0 <= t < d - 1 ==> #[trigger] self.stack@[t] == old(self).stack@[t],
                        self.stack@[d - 1].data == top_data,
                        old(self).stack@[d - 1].data == top_data,
                        *top_data == NodeData::Branches(*bs),
                    decreases bs@.len() - self.stack@[d - 1].index,
                {
                    let i = self.stack[d - 1].index;
                    let ghost before = *self;
                    proof {
                        lemma_enter_ready(before);
                    }
                    let child = resolve(pages, &bs[i].target);
                    self.stack.push(Frame { data: child, index: 0 });
                    let ghost entered = *self;
                    proof {
                        assert(entered.stack@.drop_last() =~= before.stack@);
                        lemma_enter(before, entered);
                    }
                    if self.settle_from() {
                        return true;
                    }
                    let ghost done = *self;
                    self.stack.pop();
                    let top = &mut self.stack[d - 1];
                    top.index = i + 1;
                    proof {
                        assert forall|t: int| 0 <= t < d implies done.stack@[t]
                            == before.stack@[t] by {
                            assert(entered.stack@[t] == entered.stack@.drop_last()[t]);
                        }
                        lemma_leave(before, done, *self);
                    }
                }
                proof {
                    assert(self.frame_ok(d - 1));
                    assert(self.stack@.last() == self.stack@[d - 1]);
                    assert(top_data.spec_len() == bs.len());
                }
                false
            },
        }
    }

    /// Moves on to the next entry at or after the place of the cursor, if
    /// there is one; a cursor at the end stays at the end.
    fn settle(&mut self) -> (found: bool)
        requires
            old(self).wf(),
        ensures
            final(self).wf(),
            final(self).same_walk(*old(self)),
            final(self).rank() == old(self).rank(),
            found ==> final(self).at_entry(),
            found == (old(self).rank() < old(self).listing().len()),
            final(self).stack@.len() > 0,
    {
        if self.stack.len() == 0 {
            let data = resolve(self.pages, self.root);
            let ghost before = *self;
            self.stack.push(Frame { data, index: 0 });
            proof {
                lemma_start(before, *self);
            }
        }
        loop
            invariant
                self.wf(),
                self.same_walk(*old(self)),
                self.rank() == old(self).rank(),
                self.stack@.len() > 0,
            decreases self.stack@.len(),
        {
            if self.settle_from() {
                proof {
                    lemma_at_entry(*self);
                }
                return true;
            }
            if self.stack.len() == 1 {
                proof {
                    lemma_at_end(*self);
                }
                return false;
            }
            let ghost done = *self;
            self.stack.pop();
            let d = self.stack.len();
            let ghost popped = *self;
            let i = self.stack[d - 1].index;
            proof {
                assert(done.frame_ok(d - 1));
            }
            let top = &mut self.stack[d - 1];
            top.index = i + 1;
            proof {
                assert(popped.stack@ =~= done.stack@.drop_last());
                lemma_pop(done, popped);
                lemma_leave(popped, done, *self);
            }
        }
    }

    /// The entries from the place of the cursor to the end, in ascending
    /// key order; the cursor is at the end afterwards.
    pub fn collect(&mut self) -> (out: Vec<Data>)
        requires
            old(self).wf(),
        ensures
            final(self).wf(),
            final(self).same_walk(*old(self)),
            0 <= old(self).rank() <= old(self).listing().len(),
            final(self).rank() == old(self).listing().len(),
            views(out@) == old(self).listing().subrange(
                old(self).rank(),
                old(self).listing().len() as int,
            ),
    {
        let mut out: Vec<Data> = Vec::new();
        let ghost start = self.rank();
        let ghost all = self.listing();
        proof {
            lemma_rank_bounds(*self);
        }
        loop
            invariant
                self.wf(),
                self.same_walk(*old(self)),
                all == self.listing(),
                start == old(self).rank(),
                0 <= start <= self.rank() <= all.len(),
                views(out@) == all.subrange(start, self.rank()),
            ensures
                self.wf(),
                self.same_walk(*old(self)),
                self.rank() == all.len(),
                views(out@) == all.subrange(start, all.len() as int),
            decreases all.len() - self.rank(),
        {
            let ghost at = self.rank();
            let ghost sofar = views(out@);
            match self.next() {
                Some(d) => {
                    out.push(d);
                    assert(views(out@) =~= sofar.push(all[at]));
                    assert(all.subrange(start, at + 1) =~= all.subrange(start, at).push(all[at]));
                },
                None => {
                    break ;
                },
            }
        }
        out
    }

    /// The entry at the place of the cursor, if the cursor is not at the
    /// end; the cursor moves on by one entry.  Called again and again on a
    /// new cursor, this gives every entry of the bucket once, in ascending
    /// key order.
    pub fn next(&mut self) -> (r: Option<Data>)
        requires
            old(self).wf(),
        ensures
            final(self).wf(),
            final(self).same_walk(*old(self)),
            r is Some == (old(self).rank() < old(self).listing().len()),
            r matches Some(d) ==> d@ == old(self).listing()[old(self).rank()] && final(self).rank()
                == old(self).rank() + 1,
            r is None ==> final(self).rank() == old(self).rank(),
    {
        if !self.settle() {
            return None;
        }
        let d = self.stack.len();
        let i = self.stack[d - 1].index;
        let data: &'a NodeData = self.stack[d - 1].data;
        let ghost before = *self;
        proof {
            lemma_at_entry(before);
        }
        match data {
            NodeData::Leaf(es) => {
                let item = es[i].copy();
                let top = &mut self.stack[d - 1];
                top.index = i + 1;
                proof {
                    lemma_read(before, *self);
                }
                Some(item)
            },
            NodeData::Branches(_) => None,
        }
    }
}

/// The cursor is well formed up to its last step, whose index is not
/// looked at.
pub open spec fn wf_but_top(c: Cursor) -> bool {
    &&& target_good(c.pages@, *c.root, c.height@)
    &&& 0 < c.stack@.len() <= c.height@ + 1
    &&& forall|t: int| 0 <= t < c.stack@.len() - 1 ==> c.frame_ok(t)
    &&& c.tree().has_path(c.path())
    &&& c.frame_tree(c.stack@.len() - 1) == c.tree().subtree(c.path())
    &&& data_ok(c.pages@, *c.stack@.last().data, (c.height@ - (c.stack@.len() - 1)) as nat)
}

/// A well-formed cursor with a step is well formed up to its last step.
pub proof fn lemma_wf_top(c: Cursor)
    requires
        c.wf(),
        c.stack@.len() > 0,
    ensures
        wf_but_top(c),
        c.frame_tree(c.stack@.len() - 1).shaped((c.height@ - (c.stack@.len() - 1)) as nat),
        c.frame_tree(c.stack@.len() - 1).ordered(),
        c.frame_tree(c.stack@.len() - 1) is Branch == (c.stack@.last().data is Branches),
        c.frame_tree(c.stack@.len() - 1) is Branch ==> c.frame_tree(
            c.stack@.len() - 1,
        )->Branch_0.len() == c.stack@.last().data.spec_len(),
        c.frame_tree(c.stack@.len() - 1) is Leaf ==> c.frame_tree(
            c.stack@.len() - 1,
        )->Leaf_0.len() == c.stack@.last().data.spec_len(),
{
    let d = c.stack@.len() as int;
    assert(c.frame_ok(d - 1));
    assert(c.indices().subrange(0, d - 1) =~= c.path());
    lemma_subtree(c.tree(), c.path(), c.height@);
}

/// Only the index of the last step stands between `wf_but_top` and `wf`.
pub proof fn lemma_top_wf(c: Cursor)
    requires
        wf_but_top(c),
        c.stack@.last().index <= c.stack@.last().data.spec_len(),
    ensures
        c.wf(),
{
    let d = c.stack@.len() as int;
    assert forall|t: int| 0 <= t < c.stack@.len() implies c.frame_ok(t) by {
        if t == d - 1 {
            assert(c.indices().subrange(0, d - 1) =~= c.path());
        }
    }
}

/// Moving the index of the last step leaves the steps before it as they were.
pub proof fn lemma_move_top(before: Cursor, after: Cursor)
    requires
        wf_but_top(before),
        after.same_walk(before),
        after.stack@.len() == before.stack@.len(),
        forall|t: int| 0 <= t < before.stack@.len() - 1 ==> after.stack@[t] == before.stack@[t],
        after.stack@.last().data == before.stack@.last().data,
    ensures
        wf_but_top(after),
        after.path() == before.path(),
        after.frame_tree(after.stack@.len() - 1) == before.frame_tree(before.stack@.len() - 1),
{
    let d = before.stack@.len() as int;
    assert(after.path() =~= before.path());
    assert forall|t: int| 0 <= t < d - 1 implies after.frame_ok(t) by {
        assert(before.frame_ok(t));
        assert(after.indices().subrange(0, t) =~= before.indices().subrange(0, t));
    }
}

/// Before a step down from a branch: the child is there to be read.
pub proof fn lemma_enter_ready(c: Cursor)
    requires
        c.wf(),
        c.stack@.len() > 0,
        c.stack@.last().data is Branches,
        c.stack@.last().index < c.stack@.last().data.spec_len(),
    ensures
        c.stack@.last().data->Branches_0@[c.stack@.last().index as int].target is Page
            ==> c.stack@.last().data->Branches_0@[c.stack@.last().index as int].target->Page_0
            < c.pages@.len(),
        c.stack@.len() <= c.height@,
{
    let d = c.stack@.len() as int;
    lemma_wf_top(c);
    lemma_branch_tree(
        c.pages@,
        *c.stack@.last().data,
        (c.height@ - (d - 1)) as nat,
        c.stack@.last().index as int,
    );
}

/// A step down to the start of a child leaves the cursor where it was.
pub proof fn lemma_enter(before: Cursor, after: Cursor)
    requires
        before.wf(),
        before.stack@.len() > 0,
        before.stack@.last().data is Branches,
        before.stack@.last().index < before.stack@.last().data.spec_len(),
        after.same_walk(before),
        after.stack@.len() == before.stack@.len() + 1,
        after.stack@.drop_last() == before.stack@,
        after.stack@.last().index == 0,
        *after.stack@.last().data == resolved(
            before.pages@,
            before.stack@.last().data->Branches_0@[before.stack@.last().index as int].target,
        ),
    ensures
        after.wf(),
        after.rank() == before.rank(),
{
    let d = before.stack@.len() as int;
    let i = before.stack@.last().index as int;
    let tree = before.tree();
    let h = (before.height@ - (d - 1)) as nat;
    lemma_wf_top(before);
    lemma_branch_tree(before.pages@, *before.stack@.last().data, h, i);
    lemma_path_push(tree, before.path(), i);
    assert forall|t: int| 0 <= t < d implies after.stack@[t] == before.stack@[t] by {
        assert(after.stack@[t] == after.stack@.drop_last()[t]);
    }
    assert(after.path() =~= before.path().push(i));
    assert forall|t: int| 0 <= t < d implies after.frame_ok(t) by {
        assert(before.frame_ok(t));
        assert(after.indices().subrange(0, t) =~= before.indices().subrange(0, t));
    }
    assert(wf_but_top(after));
    lemma_top_wf(after);
    lemma_wf_top(after);
}

/// Dropping the last step leaves a well-formed cursor.
pub proof fn lemma_pop(full: Cursor, popped: Cursor)
    requires
        full.wf(),
        full.stack@.len() > 1,
        popped.same_walk(full),
        popped.stack@ == full.stack@.drop_last(),
    ensures
        popped.wf(),
        popped.stack@.last().data is Branches,
        popped.stack@.last().index < popped.stack@.last().data.spec_len(),
        *full.stack@.last().data == resolved(
            popped.pages@,
            popped.stack@.last().data->Branches_0@[popped.stack@.last().index as int].target,
        ) || full.frame_tree(full.stack@.len() - 1) == popped.frame_tree(
            popped.stack@.len() - 1,
        )->Branch_0[popped.stack@.last().index as int].sub,
        full.frame_tree(full.stack@.len() - 1) == popped.frame_tree(
            popped.stack@.len() - 1,
        )->Branch_0[popped.stack@.last().index as int].sub,
        full.path() == popped.path().push(popped.stack@.last().index as int),
{
    let d = popped.stack@.len() as int;
    let i = popped.stack@.last().index as int;
    assert forall|t: int| 0 <= t < d implies popped.frame_ok(t) by {
        assert(full.frame_ok(t));
        assert(popped.indices().subrange(0, t) =~= full.indices().subrange(0, t));
    }
    assert(full.frame_ok(d - 1));
    assert(full.frame_ok(d));
    lemma_wf_top(popped);
    lemma_wf_top(full);
    assert(full.path() =~= popped.path().push(i));
    lemma_path_push(popped.tree(), popped.path(), i);
}

/// Coming back up from a child that is done, to the next child, leaves
/// the cursor where it was.
pub proof fn lemma_leave(before: Cursor, done: Cursor, after: Cursor)
    requires
        before.wf(),
        before.stack@.len() > 0,
        before.stack@.last().data is Branches,
        before.stack@.last().index < before.stack@.last().data.spec_len(),
        done.wf(),
        done.same_walk(before),
        done.stack@.len() == before.stack@.len() + 1,
        forall|t: int| 0 <= t < before.stack@.len() ==> done.stack@[t] == before.stack@[t],
        done.top_done(),
        after.same_walk(before),
        after.stack@.len() == before.stack@.len(),
        forall|t: int| 0 <= t < before.stack@.len() - 1 ==> after.stack@[t] == before.stack@[t],
        after.stack@.last().data == before.stack@.last().data,
        after.stack@.last().index == before.stack@.last().index + 1,
    ensures
        after.wf(),
        after.rank() == done.rank(),
{
    let d = before.stack@.len() as int;
    let i = before.stack@.last().index as int;
    let tree = before.tree();
    lemma_wf_top(before);
    lemma_wf_top(done);
    lemma_move_top(before, after);
    lemma_top_wf(after);
    assert(done.stack@.drop_last() =~= before.stack@);
    lemma_pop(done, before);
    lemma_path_push(tree, before.path(), i);
    let links = before.frame_tree(d - 1)->Branch_0;
    assert(flat_upto(links, i + 1) == flat_upto(links, i) + links[i].sub.flat());
    let child = done.frame_tree(d);
    assert(child == links[i].sub);
    match child {
        Tree::Leaf(es) => {},
        Tree::Branch(ls) => {},
    }
}

/// The first step, to the start of the root, leaves the cursor at the start.
pub proof fn lemma_start(before: Cursor, after: Cursor)
    requires
        before.wf(),
        before.stack@.len() == 0,
        after.same_walk(before),
        after.stack@.len() == 1,
        after.stack@[0].index == 0,
        *after.stack@[0].data == resolved(before.pages@, *before.root),
    ensures
        after.wf(),
        after.rank() == 0,
{
    assert(after.path() =~= Seq::<int>::empty());
    assert(after.indices().subrange(0, 0) =~= Seq::<int>::empty());
    assert(after.frame_ok(0));
    match after.frame_tree(0) {
        Tree::Leaf(es) => {},
        Tree::Branch(ls) => {},
    }
}

/// The cursor is somewhere between the start and the end of the listing.
pub proof fn lemma_rank_bounds(c: Cursor)
    requires
        c.wf(),
    ensures
        0 <= c.rank() <= c.listing().len(),
{
    if c.stack@.len() > 0 {
        lemma_wf_top(c);
        lemma_graft_flat(c.tree(), c.path(), c.tree().subtree(c.path()));
        let d = c.stack@.len() as int;
        assert(c.frame_ok(d - 1));
        assert(c.stack@.last() == c.stack@[d - 1]);
        match c.frame_tree(d - 1) {
            Tree::Leaf(es) => {},
            Tree::Branch(ls) => {
                crate::tree::lemma_upto_prefix(ls, c.stack@[d - 1].index as int, ls.len() as int);
            },
        }
    }
}

/// A cursor that stands at an entry stands at the entry of its rank.
pub proof fn lemma_at_entry(c: Cursor)
    requires
        c.wf(),
        c.at_entry(),
    ensures
        0 <= c.rank() < c.listing().len(),
        c.listing()[c.rank()] == c.stack@.last().data->Leaf_0@[c.stack@.last().index as int]@,
{
    let i = c.stack@.last().index as int;
    lemma_wf_top(c);
    lemma_graft_flat(c.tree(), c.path(), c.tree().subtree(c.path()));
    let off = c.tree().offset(c.path());
    let leaf = c.tree().subtree(c.path()).flat();
    assert(c.listing().subrange(off, off + leaf.len())[i] == c.listing()[off + i]);
}

/// A cursor whose only step is done is at the end of the listing.
pub proof fn lemma_at_end(c: Cursor)
    requires
        c.wf(),
        c.stack@.len() == 1,
        c.top_done(),
    ensures
        c.rank() == c.listing().len(),
{
    lemma_wf_top(c);
    assert(c.path() =~= Seq::<int>::empty());
    match c.frame_tree(0) {
        Tree::Leaf(es) => {},
        Tree::Branch(ls) => {},
    }
}

/// Reading an entry moves the cursor on by one.
pub proof fn lemma_read(before: Cursor, after: Cursor)
    requires
        before.wf(),
        before.at_entry(),
        after.same_walk(before),
        after.stack@.len() == before.stack@.len(),
        forall|t: int| 0 <= t < before.stack@.len() - 1 ==> after.stack@[t] == before.stack@[t],
        after.stack@.last().data == before.stack@.last().data,
        after.stack@.last().index == before.stack@.last().index + 1,
    ensures
        after.wf(),
        after.rank() == before.rank() + 1,
{
    lemma_wf_top(before);
    lemma_move_top(before, after);
    lemma_top_wf(after);
}

} // verus!
