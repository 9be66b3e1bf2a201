//! The shape of a B+tree as a mathematical value, and what follows from
//! its order: the listing of a tree is sorted, a descent by key reaches the
//! place where the key stands, and a change under one child shows in the
//! listing where that child's entries were.

use vstd::prelude::*;
use crate::bytes::{
    key_le, key_lt, lemma_key_le_transitive, lemma_key_lt_irreflexive, lemma_key_lt_le,
};
use crate::data::Entry;
use crate::listing::{
    above, below, has_key, index_of, lemma_insert, lemma_lower_bound_has_key, lemma_remove,
    lemma_update, lower_bound, sorted, to_map,
};

verus! {

/// A child of a branch with the key it is filed under.
pub struct Link {
    pub key: Seq<u8>,
    pub sub: Tree,
}

/// A B+tree: entries in the leaves, keyed children in the branches.
pub enum Tree {
    Leaf(Seq<Entry>),
    Branch(Seq<Link>),
}

/// The entries under the first `k` children of a branch, in order.
pub open spec fn flat_upto(links: Seq<Link>, k: int) -> Seq<Entry>
    decreases links, k,
{
    if k <= 0 || k > links.len() {
        Seq::empty()
    } else {
        flat_upto(links, k - 1) + links[k - 1].sub.flat()
    }
}

/// The keys of the links ascend.  The key of the first link bounds nothing
/// and is left out: the first child takes every key below the second key.
pub open spec fn links_sorted(links: Seq<Link>) -> bool {
    forall|i: int, j: int|
        1 <= i < j < links.len() ==> key_le((#[trigger] links[i]).key, (#[trigger] links[j]).key)
}

/// Every key that a branch of `t` files a child under, the first child of
/// each branch left out, is at least `lo`.
pub open spec fn seps_above(t: Tree, lo: Seq<u8>) -> bool
    decreases t,
{
    match t {
        Tree::Leaf(_) => true,
        Tree::Branch(links) => forall|k: int|
            0 <= k < links.len() ==> (k >= 1 ==> key_le(lo, (#[trigger] links[k]).key))
                && seps_above(links[k].sub, lo),
    }
}

/// Every key that a branch of `t` files a child under, the first child of
/// each branch left out, is at most `hi`.
pub open spec fn seps_below(t: Tree, hi: Seq<u8>) -> bool
    decreases t,
{
    match t {
        Tree::Leaf(_) => true,
        Tree::Branch(links) => forall|k: int|
            0 <= k < links.len() ==> (k >= 1 ==> key_le((#[trigger] links[k]).key, hi))
                && seps_below(links[k].sub, hi),
    }
}

/// `i` is the child to descend into for `key`: the last child filed under
/// a key that is at most `key`, or the first child if there is none.
pub open spec fn slot(links: Seq<Link>, key: Seq<u8>, i: int) -> bool {
    &&& 0 <= i < links.len()
    &&& i > 0 ==> key_le(links[i].key, key)
    &&& forall|k: int| i < k < links.len() ==> key_lt(key, (#[trigger] links[k]).key)
}

/// `key` lies between the key child `i` is filed under and the key of the
/// next child; the first child has no lower bound, the last no upper one.
pub open spec fn between(links: Seq<Link>, i: int, key: Seq<u8>) -> bool {
    &&& i >= 1 ==> key_le(links[i].key, key)
    &&& i + 1 < links.len() ==> key_lt(key, links[i + 1].key)
}

impl Tree {
    /// The entries of the tree from left to right.
    pub open spec fn flat(self) -> Seq<Entry>
        decreases self,
    {
        match self {
            Tree::Leaf(es) => es,
            Tree::Branch(links) => flat_upto(links, links.len() as int),
        }
    }

    /// Every leaf is `h` levels below the root, and every branch has a child.
    pub open spec fn shaped(self, h: nat) -> bool
        decreases self,
    {
        match self {
            Tree::Leaf(_) => h == 0,
            Tree::Branch(links) => {
                &&& h > 0
                &&& links.len() > 0
                &&& forall|k: int|
                    0 <= k < links.len() ==> (#[trigger] links[k]).sub.shaped((h - 1) as nat)
            },
        }
    }

    /// The search order holds everywhere: leaves are sorted, links are
    /// sorted, and the keys under a child, those of its entries and those
    /// that its branches file children under, lie between the key it is
    /// filed under and the key of the next child.
    pub open spec fn ordered(self) -> bool
        decreases self,
    {
        match self {
            Tree::Leaf(es) => sorted(es),
            Tree::Branch(links) => {
                &&& links_sorted(links)
                &&& forall|k: int| 0 <= k < links.len() ==> (#[trigger] links[k]).sub.ordered()
                &&& forall|k: int|
                    1 <= k < links.len() ==> above((#[trigger] links[k]).sub.flat(), links[k].key)
                        && seps_above(links[k].sub, links[k].key)
                &&& forall|i: int, j: int|
                    0 <= i && j == i + 1 && j < links.len() ==> below(
                        (#[trigger] links[i]).sub.flat(),
                        (#[trigger] links[j]).key,
                    ) && seps_below(links[i].sub, links[j].key)
            },
        }
    }

    /// `path` names a subtree: each index in turn picks a child.
    pub open spec fn has_path(self, path: Seq<int>) -> bool
        decreases path.len(),
    {
        if path.len() == 0 {
            true
        } else {
            match self {
                Tree::Leaf(_) => false,
                Tree::Branch(links) => 0 <= path[0] < links.len() && links[path[0]].sub.has_path(
                    path.drop_first(),
                ),
            }
        }
    }

    /// The subtree that `path` names.
    pub open spec fn subtree(self, path: Seq<int>) -> Tree
        decreases path.len(),
    {
        if path.len() == 0 {
            self
        } else {
            match self {
                Tree::Leaf(_) => self,
                Tree::Branch(links) => links[path[0]].sub.subtree(path.drop_first()),
            }
        }
    }

    /// The tree with the subtree that `path` names replaced by `sub`.
    pub open spec fn graft(self, path: Seq<int>, sub: Tree) -> Tree
        decreases path.len(),
    {
        if path.len() == 0 {
            sub
        } else {
            match self {
                Tree::Leaf(_) => self,
                Tree::Branch(links) => Tree::Branch(
                    links.update(
                        path[0],
                        Link {
                            key: links[path[0]].key,
                            sub: links[path[0]].sub.graft(path.drop_first(), sub),
                        },
                    ),
                ),
            }
        }
    }

    /// How many entries of the tree come before the subtree that `path` names.
    pub open spec fn offset(self, path: Seq<int>) -> int
        decreases path.len(),
    {
        if path.len() == 0 {
            0
        } else {
            match self {
                Tree::Leaf(_) => 0,
                Tree::Branch(links) => flat_upto(links, path[0]).len() + links[path[0]].sub.offset(
                    path.drop_first(),
                ),
            }
        }
    }

    /// `key` may stand in the subtree that `path` names: at every branch on
    /// the way it lies between the bounds of the child taken.
    pub open spec fn admits(self, path: Seq<int>, key: Seq<u8>) -> bool
        decreases path.len(),
    {
        if path.len() == 0 {
            true
        } else {
            match self {
                Tree::Leaf(_) => false,
                Tree::Branch(links) => between(links, path[0], key) && links[path[0]].sub.admits(
                    path.drop_first(),
                    key,
                ),
            }
        }
    }
}

/// The listing of the first `j` children starts the listing of the first `k`.
pub proof fn lemma_upto_prefix(links: Seq<Link>, j: int, k: int)
    requires
        0 <= j <= k <= links.len(),
    ensures
        flat_upto(links, j).len() <= flat_upto(links, k).len(),
        flat_upto(links, k).subrange(0, flat_upto(links, j).len() as int) == flat_upto(links, j),
    decreases k - j,
{
    if j == k {
        assert(flat_upto(links, k).subrange(0, flat_upto(links, j).len() as int) =~= flat_upto(
            links,
            j,
        ));
    } else {
        lemma_upto_prefix(links, j, k - 1);
        assert(flat_upto(links, k).subrange(0, flat_upto(links, j).len() as int) =~= flat_upto(
            links,
            k - 1,
        ).subrange(0, flat_upto(links, j).len() as int));
    }
}

/// Where the entries of child `i` are in the listing of the first `k` children.
pub proof fn lemma_upto_child(links: Seq<Link>, i: int, k: int)
    requires
        0 <= i < k <= links.len(),
    ensures
        flat_upto(links, i).len() + links[i].sub.flat().len() <= flat_upto(links, k).len(),
        flat_upto(links, k).subrange(
            flat_upto(links, i).len() as int,
            (flat_upto(links, i).len() + links[i].sub.flat().len()) as int,
        ) == links[i].sub.flat(),
{
    lemma_upto_prefix(links, i + 1, k);
    let a = flat_upto(links, i);
    let c = links[i].sub.flat();
    assert(flat_upto(links, i + 1) == a + c);
    assert(flat_upto(links, k).subrange(a.len() as int, (a.len() + c.len()) as int) =~= flat_upto(
        links,
        k,
    ).subrange(0, (a + c).len() as int).subrange(a.len() as int, (a.len() + c.len()) as int));
    assert((a + c).subrange(a.len() as int, (a.len() + c.len()) as int) =~= c);
}

/// The listing of an ordered tree is sorted.
pub proof fn lemma_flat_sorted(t: Tree)
    requires
        t.ordered(),
    ensures
        sorted(t.flat()),
    decreases t,
{
    match t {
        Tree::Leaf(_) => {},
        Tree::Branch(links) => {
            lemma_upto_sorted(links, links.len() as int);
        },
    }
}

/// The listing of the first `k` children of an ordered branch is sorted and
/// stays below the key of child `k`.
pub proof fn lemma_upto_sorted(links: Seq<Link>, k: int)
    requires
        Tree::Branch(links).ordered(),
        0 <= k <= links.len(),
    ensures
        sorted(flat_upto(links, k)),
        k < links.len() ==> below(flat_upto(links, k), links[k].key),
    decreases links, k,
{
    if k > 0 {
        lemma_upto_sorted(links, k - 1);
        let a = flat_upto(links, k - 1);
        let c = links[k - 1].sub.flat();
        let s = flat_upto(links, k);
        assert(s == a + c);
        assert(links[k - 1].sub.ordered());
        lemma_flat_sorted(links[k - 1].sub);
        assert forall|i: int, j: int| 0 <= i < j < s.len() implies key_lt(
            #[trigger] s[i].key(),
            #[trigger] s[j].key(),
        ) by {
            if j < a.len() {
                assert(s[i] == a[i] && s[j] == a[j]);
            } else if i >= a.len() {
                assert(s[i] == c[i - a.len()] && s[j] == c[j - a.len()]);
            } else {
                assert(s[i] == a[i] && s[j] == c[j - a.len()]);
                assert(key_lt(a[i].key(), links[k - 1].key));
                assert(above(c, links[k - 1].key));
                assert(key_le(links[k - 1].key, c[j - a.len()].key()));
                lemma_key_lt_le(a[i].key(), links[k - 1].key, c[j - a.len()].key());
            }
        }
        if k < links.len() {
            assert(below(c, links[k].key));
            assert forall|i: int| 0 <= i < s.len() implies key_lt(
                #[trigger] s[i].key(),
                links[k].key,
            ) by {
                if i < a.len() {
                    assert(s[i] == a[i]);
                    assert(k - 1 >= 1);
                    assert(key_le(links[k - 1].key, links[k].key));
                    lemma_key_lt_le(a[i].key(), links[k - 1].key, links[k].key);
                } else {
                    assert(s[i] == c[i - a.len()]);
                }
            }
        }
    }
}

/// In an ordered branch the entries of the children after `i`, up to child
/// `k`, have keys that are at least the key child `i + 1` is filed under.
pub proof fn lemma_tail_above(links: Seq<Link>, i: int, k: int)
    requires
        Tree::Branch(links).ordered(),
        0 <= i < k <= links.len(),
    ensures
        flat_upto(links, i + 1).len() <= flat_upto(links, k).len(),
        forall|x: int|
            flat_upto(links, i + 1).len() <= x < flat_upto(links, k).len() ==> key_le(
                links[i + 1].key,
                #[trigger] flat_upto(links, k)[x].key(),
            ),
    decreases k,
{
    lemma_upto_prefix(links, i + 1, k);
    if k > i + 1 {
        lemma_tail_above(links, i, k - 1);
        let a = flat_upto(links, k - 1);
        let c = links[k - 1].sub.flat();
        let s = flat_upto(links, k);
        assert(s == a + c);
        assert(above(c, links[k - 1].key));
        assert forall|x: int| flat_upto(links, i + 1).len() <= x < s.len() implies key_le(
            links[i + 1].key,
            #[trigger] s[x].key(),
        ) by {
            if x < a.len() {
                assert(s[x] == a[x]);
            } else {
                assert(s[x] == c[x - a.len()]);
                assert(key_le(links[k - 1].key, c[x - a.len()].key()));
                if k - 1 > i + 1 {
                    assert(key_le(links[i + 1].key, links[k - 1].key));
                    lemma_key_le_transitive(
                        links[i + 1].key,
                        links[k - 1].key,
                        c[x - a.len()].key(),
                    );
                }
            }
        }
    }
}

/// Descending into the slot of a key loses nothing: where the key stands
/// under that child is, shifted by the entries before the child, where it
/// stands in the whole branch.
pub proof fn lemma_descend(links: Seq<Link>, key: Seq<u8>, i: int, p: int)
    requires
        Tree::Branch(links).ordered(),
        slot(links, key, i),
        lower_bound(links[i].sub.flat(), key, p),
    ensures
        lower_bound(Tree::Branch(links).flat(), key, flat_upto(links, i).len() + p),
{
    let n = links.len() as int;
    let s = flat_upto(links, n);
    let a = flat_upto(links, i);
    let c = links[i].sub.flat();
    lemma_upto_prefix(links, i, n);
    lemma_upto_child(links, i, n);
    lemma_upto_sorted(links, i);
    lemma_tail_above(links, i, n);
    assert(flat_upto(links, i + 1) == a + c);
    assert forall|x: int| 0 <= x < a.len() + p implies key_lt(#[trigger] s[x].key(), key) by {
        if x < a.len() {
            assert(s[x] == s.subrange(0, a.len() as int)[x]);
            assert(key_lt(a[x].key(), links[i].key));
            lemma_key_lt_le(a[x].key(), links[i].key, key);
        } else {
            assert(s[x] == s.subrange(a.len() as int, (a.len() + c.len()) as int)[x - a.len()]);
        }
    }
    assert forall|x: int| a.len() + p <= x < s.len() implies key_le(key, #[trigger] s[x].key()) by {
        if x < a.len() + c.len() {
            assert(s[x] == s.subrange(a.len() as int, (a.len() + c.len()) as int)[x - a.len()]);
        } else {
            assert(key_le(links[i + 1].key, s[x].key()));
            assert(key_lt(key, links[i + 1].key));
            lemma_key_lt_le(key, links[i + 1].key, s[x].key());
        }
    }
}

impl Tree {
    /// `path` is the way a descent for `key` takes: at every branch it
    /// picks the slot of `key`.
    pub open spec fn leads(self, path: Seq<int>, key: Seq<u8>) -> bool
        decreases path.len(),
    {
        if path.len() == 0 {
            true
        } else {
            match self {
                Tree::Leaf(_) => false,
                Tree::Branch(links) => slot(links, key, path[0]) && links[path[0]].sub.leads(
                    path.drop_first(),
                    key,
                ),
            }
        }
    }
}

/// What one more step at the end of a path does.
pub proof fn lemma_path_push(t: Tree, path: Seq<int>, i: int)
    requires
        t.has_path(path),
        t.subtree(path) is Branch,
        0 <= i < t.subtree(path)->Branch_0.len(),
    ensures
        t.has_path(path.push(i)),
        t.subtree(path.push(i)) == t.subtree(path)->Branch_0[i].sub,
        t.offset(path.push(i)) == t.offset(path) + flat_upto(t.subtree(path)->Branch_0, i).len(),
    decreases path.len(),
{
    let longer = path.push(i);
    if path.len() == 0 {
        assert(longer.drop_first() =~= Seq::<int>::empty());
        assert(longer[0] == i);
        let c = t->Branch_0[i].sub;
        assert(c.has_path(longer.drop_first()));
        assert(c.subtree(longer.drop_first()) == c);
        assert(c.offset(longer.drop_first()) == 0);
    } else {
        let c = t->Branch_0[path[0]].sub;
        lemma_path_push(c, path.drop_first(), i);
        assert(longer.drop_first() =~= path.drop_first().push(i));
        assert(longer[0] == path[0]);
    }
}

/// A descent that follows a key and then takes the slot of the key still
/// follows the key.
pub proof fn lemma_leads_push(t: Tree, path: Seq<int>, i: int, key: Seq<u8>)
    requires
        t.has_path(path),
        t.leads(path, key),
        t.subtree(path) is Branch,
        slot(t.subtree(path)->Branch_0, key, i),
    ensures
        t.leads(path.push(i), key),
    decreases path.len(),
{
    let longer = path.push(i);
    if path.len() == 0 {
        assert(longer.drop_first() =~= Seq::<int>::empty());
        assert(longer[0] == i);
        let c = t->Branch_0[i].sub;
        assert(c.leads(longer.drop_first(), key));
    } else {
        let c = t->Branch_0[path[0]].sub;
        lemma_leads_push(c, path.drop_first(), i, key);
        assert(longer.drop_first() =~= path.drop_first().push(i));
        assert(longer[0] == path[0]);
    }
}

/// A subtree of a tree of height `h` at the end of a path has the height
/// that is left, and is ordered if the tree is.
pub proof fn lemma_subtree(t: Tree, path: Seq<int>, h: nat)
    requires
        t.has_path(path),
        t.shaped(h),
    ensures
        h >= path.len(),
        t.subtree(path).shaped((h - path.len()) as nat),
        t.ordered() ==> t.subtree(path).ordered(),
    decreases path.len(),
{
    if path.len() > 0 {
        let c = t->Branch_0[path[0]].sub;
        assert(c.shaped((h - 1) as nat));
        lemma_subtree(c, path.drop_first(), (h - 1) as nat);
    }
}

/// The listing of a branch after one child was replaced: the entries
/// before the child, the entries of the new child, the entries after it.
pub proof fn lemma_update_upto(links: Seq<Link>, i: int, sub: Tree, k: int)
    requires
        0 <= i < links.len(),
        0 <= k <= links.len(),
    ensures
        ({
            let links2 = links.update(i, Link { key: links[i].key, sub });
            let a = flat_upto(links, i);
            let c = links[i].sub.flat();
            let s = flat_upto(links, k);
            &&& k <= i ==> flat_upto(links2, k) == s
            &&& k > i ==> a.len() + c.len() <= s.len() && flat_upto(links2, k) == a + sub.flat()
                + s.subrange((a.len() + c.len()) as int, s.len() as int)
        }),
    decreases k,
{
    let links2 = links.update(i, Link { key: links[i].key, sub });
    let a = flat_upto(links, i);
    let c = links[i].sub.flat();
    let s = flat_upto(links, k);
    if k > 0 {
        lemma_update_upto(links, i, sub, k - 1);
        let s1 = flat_upto(links, k - 1);
        if k - 1 == i {
            assert(flat_upto(links2, k) == a + sub.flat());
            assert(s == a + c);
            assert(flat_upto(links2, k) =~= a + sub.flat() + s.subrange(
                (a.len() + c.len()) as int,
                s.len() as int,
            ));
        } else if k - 1 > i {
            let d = links[k - 1].sub.flat();
            assert(links2[k - 1] == links[k - 1]);
            assert(s == s1 + d);
            assert(flat_upto(links2, k) =~= a + sub.flat() + s.subrange(
                (a.len() + c.len()) as int,
                s.len() as int,
            ));
        } else {
            assert(links2[k - 1] == links[k - 1]);
        }
    }
}

/// Replacing a subtree replaces its entries in the listing, in place.
pub proof fn lemma_graft_flat(t: Tree, path: Seq<int>, sub: Tree)
    requires
        t.has_path(path),
    ensures
        ({
            let off = t.offset(path);
            let old_len = t.subtree(path).flat().len();
            let s = t.flat();
            &&& 0 <= off
            &&& off + old_len <= s.len()
            &&& s.subrange(off, off + old_len) == t.subtree(path).flat()
            &&& t.graft(path, sub).flat() == s.subrange(0, off) + sub.flat() + s.subrange(
                off + old_len,
                s.len() as int,
            )
        }),
    decreases path.len(),
{
    let s = t.flat();
    if path.len() == 0 {
        assert(s.subrange(0, s.len() as int) =~= s);
        assert(sub.flat() =~= s.subrange(0, 0) + sub.flat() + s.subrange(
            s.len() as int,
            s.len() as int,
        ));
    } else {
        let links = t->Branch_0;
        let i = path[0];
        let n = links.len() as int;
        let child = links[i].sub;
        let rest = path.drop_first();
        let child2 = child.graft(rest, sub);
        lemma_graft_flat(child, rest, sub);
        lemma_update_upto(links, i, child2, n);
        lemma_upto_prefix(links, i, n);
        lemma_upto_child(links, i, n);
        let a = flat_upto(links, i);
        let c = child.flat();
        let o = child.offset(rest);
        let old_len = child.subtree(rest).flat().len();
        let off = t.offset(path);
        assert(off == a.len() + o);
        assert(s.subrange(off, off + old_len) =~= c.subrange(o, o + old_len)) by {
            assert(c == s.subrange(a.len() as int, (a.len() + c.len()) as int));
        }
        assert(t.graft(path, sub).flat() =~= s.subrange(0, off) + sub.flat() + s.subrange(
            off + old_len,
            s.len() as int,
        )) by {
            assert(c == s.subrange(a.len() as int, (a.len() + c.len()) as int));
            assert(a == s.subrange(0, a.len() as int));
            let g = t.graft(path, sub).flat();
            assert(g == a + child2.flat() + s.subrange((a.len() + c.len()) as int, s.len() as int));
            assert(child2.flat() == c.subrange(0, o) + sub.flat() + c.subrange(
                o + old_len,
                c.len() as int,
            ));
        }
    }
}

/// The keys of a subtree of an ordered tree lie within the bounds on the
/// way to it.
pub proof fn lemma_subtree_admits(t: Tree, path: Seq<int>, j: int)
    requires
        t.ordered(),
        t.has_path(path),
        0 <= j < t.subtree(path).flat().len(),
    ensures
        t.admits(path, t.subtree(path).flat()[j].key()),
    decreases path.len(),
{
    if path.len() > 0 {
        let links = t->Branch_0;
        let i = path[0];
        let child = links[i].sub;
        let rest = path.drop_first();
        lemma_subtree_admits(child, rest, j);
        lemma_graft_flat(child, rest, child.subtree(rest));
        let c = child.flat();
        let o = child.offset(rest);
        let e = child.subtree(rest).flat()[j];
        assert(c.subrange(o, o + child.subtree(rest).flat().len())[j] == c[o + j]);
        assert(e == c[o + j]);
        if i >= 1 {
            assert(above(links[i].sub.flat(), links[i].key));
        }
        if i + 1 < links.len() {
            assert(below(links[i].sub.flat(), links[i + 1].key));
        }
    }
}

/// Replacing a subtree by a leaf takes no key that a branch files a child
/// under out of its bounds.
pub proof fn lemma_graft_seps(t: Tree, path: Seq<int>, sub: Tree, bound: Seq<u8>)
    requires
        t.has_path(path),
        sub is Leaf,
    ensures
        seps_above(t, bound) ==> seps_above(t.graft(path, sub), bound),
        seps_below(t, bound) ==> seps_below(t.graft(path, sub), bound),
    decreases path.len(),
{
    if path.len() > 0 {
        let links = t->Branch_0;
        let i = path[0];
        let child = links[i].sub;
        let rest = path.drop_first();
        lemma_graft_seps(child, rest, sub, bound);
        let links2 = links.update(i, Link { key: links[i].key, sub: child.graft(rest, sub) });
        if seps_above(t, bound) {
            assert forall|k: int| 0 <= k < links2.len() implies (k >= 1 ==> key_le(
                bound,
                (#[trigger] links2[k]).key,
            )) && seps_above(links2[k].sub, bound) by {
                assert(seps_above(links[k].sub, bound));
                assert(links2[k].key == links[k].key);
            }
        }
        if seps_below(t, bound) {
            assert forall|k: int| 0 <= k < links2.len() implies (k >= 1 ==> key_le(
                (#[trigger] links2[k]).key,
                bound,
            )) && seps_below(links2[k].sub, bound) by {
                assert(seps_below(links[k].sub, bound));
                assert(links2[k].key == links[k].key);
            }
        }
    }
}

/// Replacing a subtree by a leaf keeps the tree ordered, if the leaf is
/// sorted and its keys lie within the bounds on the way to it.
pub proof fn lemma_graft_ordered(t: Tree, path: Seq<int>, sub: Tree)
    requires
        t.ordered(),
        t.has_path(path),
        sub is Leaf,
        sub.ordered(),
        forall|j: int| 0 <= j < sub.flat().len() ==> t.admits(path, #[trigger] sub.flat()[j].key()),
    ensures
        t.graft(path, sub).ordered(),
    decreases path.len(),
{
    if path.len() > 0 {
        let links = t->Branch_0;
        let i = path[0];
        let child = links[i].sub;
        let rest = path.drop_first();
        let child2 = child.graft(rest, sub);
        let links2 = links.update(i, Link { key: links[i].key, sub: child2 });
        assert(child.ordered());
        lemma_graft_ordered(child, rest, sub);
        lemma_graft_flat(child, rest, sub);
        let c = child.flat();
        let c2 = child2.flat();
        let o = child.offset(rest);
        let old_len = child.subtree(rest).flat().len();
        let n = sub.flat().len();
        assert(c2 == c.subrange(0, o) + sub.flat() + c.subrange(o + old_len, c.len() as int));
        assert forall|k: int| 0 <= k < links2.len() implies (#[trigger] links2[k]).sub.ordered() by {
            if k != i {
                assert(links2[k] == links[k]);
            }
        }
        assert forall|k: int| 1 <= k < links2.len() implies above(
            (#[trigger] links2[k]).sub.flat(),
            links2[k].key,
        ) && seps_above(links2[k].sub, links2[k].key) by {
            assert(above(links[k].sub.flat(), links[k].key));
            assert(seps_above(links[k].sub, links[k].key));
            if k == i {
                lemma_graft_seps(child, rest, sub, links[k].key);
                assert forall|x: int| 0 <= x < c2.len() implies key_le(
                    links[i].key,
                    #[trigger] c2[x].key(),
                ) by {
                    if x < o {
                        assert(c2[x] == c[x]);
                    } else if x < o + n {
                        assert(c2[x] == sub.flat()[x - o]);
                        assert(t.admits(path, sub.flat()[x - o].key()));
                    } else {
                        assert(c2[x] == c[x - n + old_len]);
                    }
                }
            } else {
                assert(links2[k] == links[k]);
            }
        }
        assert forall|k: int, k1: int| 0 <= k && k1 == k + 1 && k1 < links2.len() implies below(
            (#[trigger] links2[k]).sub.flat(),
            (#[trigger] links2[k1]).key,
        ) && seps_below(links2[k].sub, links2[k1].key) by {
            assert(below(links[k].sub.flat(), links[k + 1].key));
            assert(seps_below(links[k].sub, links[k + 1].key));
            assert(links2[k + 1].key == links[k + 1].key);
            if k == i {
                lemma_graft_seps(child, rest, sub, links[k + 1].key);
                assert forall|x: int| 0 <= x < c2.len() implies key_lt(
                    #[trigger] c2[x].key(),
                    links[i + 1].key,
                ) by {
                    if x < o {
                        assert(c2[x] == c[x]);
                    } else if x < o + n {
                        assert(c2[x] == sub.flat()[x - o]);
                        assert(t.admits(path, sub.flat()[x - o].key()));
                    } else {
                        assert(c2[x] == c[x - n + old_len]);
                    }
                }
            } else {
                assert(links2[k] == links[k]);
            }
        }
        assert forall|a: int, b: int| 1 <= a < b < links2.len() implies key_le(
            (#[trigger] links2[a]).key,
            (#[trigger] links2[b]).key,
        ) by {
            assert(links2[a].key == links[a].key);
            assert(links2[b].key == links[b].key);
        }
    }
}

/// Replacing a subtree by one of the same height keeps the height.
pub proof fn lemma_graft_shaped(t: Tree, path: Seq<int>, sub: Tree, h: nat)
    requires
        t.shaped(h),
        t.has_path(path),
        h >= path.len(),
        sub.shaped((h - path.len()) as nat),
    ensures
        t.graft(path, sub).shaped(h),
    decreases path.len(),
{
    if path.len() > 0 {
        let links = t->Branch_0;
        let i = path[0];
        let child = links[i].sub;
        let rest = path.drop_first();
        assert(child.shaped((h - 1) as nat));
        lemma_graft_shaped(child, rest, sub, (h - 1) as nat);
        let links2 = links.update(i, Link { key: links[i].key, sub: child.graft(rest, sub) });
        assert forall|k: int| 0 <= k < links2.len() implies (#[trigger] links2[k]).sub.shaped(
            (h - 1) as nat,
        ) by {
            if k != i {
                assert(links2[k] == links[k]);
            }
        }
    }
}

/// A descent for a key ends where the key stands: its place in the leaf
/// reached, shifted by the entries before that leaf, is its place in the
/// whole tree.  The key lies within the bounds on the way.
pub proof fn lemma_leads(t: Tree, path: Seq<int>, key: Seq<u8>, p: int)
    requires
        t.ordered(),
        t.has_path(path),
        t.leads(path, key),
        lower_bound(t.subtree(path).flat(), key, p),
    ensures
        lower_bound(t.flat(), key, t.offset(path) + p),
        t.admits(path, key),
    decreases path.len(),
{
    if path.len() > 0 {
        let links = t->Branch_0;
        let i = path[0];
        let child = links[i].sub;
        let rest = path.drop_first();
        assert(child.ordered());
        lemma_leads(child, rest, key, p);
        lemma_descend(links, key, i, child.offset(rest) + p);
    }
}

/// A key that is anywhere under an ordered branch is under the child in
/// its slot.
pub proof fn lemma_descend_has_key(links: Seq<Link>, key: Seq<u8>, i: int)
    requires
        Tree::Branch(links).ordered(),
        slot(links, key, i),
    ensures
        has_key(Tree::Branch(links).flat(), key) == has_key(links[i].sub.flat(), key),
{
    let n = links.len() as int;
    let s = flat_upto(links, n);
    let a = flat_upto(links, i);
    let c = links[i].sub.flat();
    lemma_upto_prefix(links, i, n);
    lemma_upto_child(links, i, n);
    lemma_upto_sorted(links, i);
    lemma_tail_above(links, i, n);
    assert(flat_upto(links, i + 1) == a + c);
    lemma_key_lt_irreflexive(key);
    if has_key(c, key) {
        let x = index_of(c, key);
        assert(s.subrange(a.len() as int, (a.len() + c.len()) as int)[x] == s[a.len() + x]);
    }
    if has_key(s, key) {
        let x = index_of(s, key);
        if x < a.len() {
            assert(s[x] == s.subrange(0, a.len() as int)[x]);
            assert(key_lt(a[x].key(), links[i].key));
            lemma_key_lt_le(a[x].key(), links[i].key, key);
        } else if x < a.len() + c.len() {
            assert(s[x] == s.subrange(a.len() as int, (a.len() + c.len()) as int)[x - a.len()]);
            assert(c[x - a.len()].key() == key);
        } else {
            assert(key_le(links[i + 1].key, s[x].key()));
            assert(key_lt(key, links[i + 1].key));
            lemma_key_lt_le(key, links[i + 1].key, s[x].key());
        }
    }
}

/// A key that is anywhere in an ordered tree is in the leaf that a descent
/// for it reaches.
pub proof fn lemma_leads_has_key(t: Tree, path: Seq<int>, key: Seq<u8>)
    requires
        t.ordered(),
        t.has_path(path),
        t.leads(path, key),
    ensures
        has_key(t.flat(), key) == has_key(t.subtree(path).flat(), key),
    decreases path.len(),
{
    if path.len() > 0 {
        let links = t->Branch_0;
        let i = path[0];
        let child = links[i].sub;
        assert(child.ordered());
        lemma_leads_has_key(child, path.drop_first(), key);
        lemma_descend_has_key(links, key, i);
    }
}

/// The listing `s` with `e` put where its key stands, `p`: over the entry
/// at `p` if that entry has the key of `e`, before it otherwise.
pub open spec fn inserted(s: Seq<Entry>, p: int, e: Entry) -> Seq<Entry> {
    if p < s.len() && s[p].key() == e.key() {
        s.update(p, e)
    } else {
        s.insert(p, e)
    }
}

/// Putting an entry into the leaf that a descent for its key reaches, where
/// the key stands in that leaf, keeps the tree well formed and puts the
/// entry into the map of the tree.
pub proof fn lemma_tree_insert(t: Tree, h: nat, path: Seq<int>, p: int, e: Entry)
    requires
        t.shaped(h),
        t.ordered(),
        t.has_path(path),
        t.leads(path, e.key()),
        t.subtree(path) is Leaf,
        lower_bound(t.subtree(path).flat(), e.key(), p),
    ensures
        ({
            let leaf = t.subtree(path).flat();
            let t2 = t.graft(path, Tree::Leaf(inserted(leaf, p, e)));
            &&& t2.shaped(h)
            &&& t2.ordered()
            &&& sorted(t2.flat())
            &&& t2.flat() == inserted(t.flat(), t.offset(path) + p, e)
            &&& to_map(t2.flat()) == to_map(t.flat()).insert(e.key(), e)
            &&& t2.flat().len() == t.flat().len() + (if has_key(t.flat(), e.key()) {
                0int
            } else {
                1int
            })
        }),
{
    let key = e.key();
    let leaf = t.subtree(path).flat();
    let leaf2 = inserted(leaf, p, e);
    let sub = Tree::Leaf(leaf2);
    let t2 = t.graft(path, sub);
    let off = t.offset(path);
    let s = t.flat();
    lemma_subtree(t, path, h);
    lemma_flat_sorted(t);
    lemma_leads(t, path, key, p);
    lemma_leads_has_key(t, path, key);
    lemma_lower_bound_has_key(leaf, key, p);
    lemma_lower_bound_has_key(s, key, off + p);
    lemma_graft_flat(t, path, sub);
    if p < leaf.len() {
        assert(s.subrange(off, off + leaf.len())[p] == s[off + p]);
    }
    if has_key(leaf, key) {
        lemma_update(leaf, p, e);
        lemma_update(s, off + p, e);
    } else {
        lemma_insert(leaf, p, e);
        lemma_insert(s, off + p, e);
    }
    assert(t2.flat() =~= inserted(s, off + p, e)) by {
        assert(leaf == s.subrange(off, off + leaf.len()));
    }
    lemma_graft_shaped(t, path, sub, h);
    assert forall|j: int| 0 <= j < sub.flat().len() implies t.admits(
        path,
        #[trigger] sub.flat()[j].key(),
    ) by {
        if has_key(leaf, key) {
            if j != p {
                lemma_subtree_admits(t, path, j);
            }
        } else {
            if j < p {
                lemma_subtree_admits(t, path, j);
            } else if j > p {
                lemma_subtree_admits(t, path, j - 1);
            }
        }
    }
    lemma_graft_ordered(t, path, sub);
}

/// Taking an entry out of a leaf keeps the tree well formed and takes the
/// key of the entry out of the map of the tree.
pub proof fn lemma_tree_remove(t: Tree, h: nat, path: Seq<int>, p: int)
    requires
        t.shaped(h),
        t.ordered(),
        t.has_path(path),
        t.subtree(path) is Leaf,
        0 <= p < t.subtree(path).flat().len(),
    ensures
        ({
            let leaf = t.subtree(path).flat();
            let t2 = t.graft(path, Tree::Leaf(leaf.remove(p)));
            &&& t2.shaped(h)
            &&& t2.ordered()
            &&& sorted(t2.flat())
            &&& t.offset(path) + p < t.flat().len()
            &&& t.flat()[t.offset(path) + p] == leaf[p]
            &&& t2.flat() == t.flat().remove(t.offset(path) + p)
            &&& to_map(t2.flat()) == to_map(t.flat()).remove(leaf[p].key())
        }),
{
    let leaf = t.subtree(path).flat();
    let leaf2 = leaf.remove(p);
    let sub = Tree::Leaf(leaf2);
    let t2 = t.graft(path, sub);
    let off = t.offset(path);
    let s = t.flat();
    lemma_subtree(t, path, h);
    lemma_flat_sorted(t);
    lemma_graft_flat(t, path, sub);
    assert(s.subrange(off, off + leaf.len())[p] == s[off + p]);
    lemma_remove(leaf, p);
    lemma_remove(s, off + p);
    assert(t2.flat() =~= s.remove(off + p)) by {
        assert(leaf == s.subrange(off, off + leaf.len()));
    }
    lemma_graft_shaped(t, path, sub, h);
    assert forall|j: int| 0 <= j < sub.flat().len() implies t.admits(
        path,
        #[trigger] sub.flat()[j].key(),
    ) by {
        if j < p {
            lemma_subtree_admits(t, path, j);
        } else {
            lemma_subtree_admits(t, path, j + 1);
        }
    }
    lemma_graft_ordered(t, path, sub);
}

/// All the entries under the links, in order.
pub open spec fn flat_all(links: Seq<Link>) -> Seq<Entry> {
    flat_upto(links, links.len() as int)
}

/// The links `links` with those from `a` up to `b` replaced by `mid`.
pub open spec fn replaced(links: Seq<Link>, a: int, b: int, mid: Seq<Link>) -> Seq<Link> {
    links.subrange(0, a) + mid + links.subrange(b, links.len() as int)
}

/// A bound from below on the keys that branches file children under can
/// be lowered.
pub proof fn lemma_seps_above_weaken(t: Tree, lo: Seq<u8>, lower: Seq<u8>)
    requires
        seps_above(t, lo),
        key_le(lower, lo),
    ensures
        seps_above(t, lower),
    decreases t,
{
    match t {
        Tree::Leaf(_) => {},
        Tree::Branch(links) => {
            assert forall|k: int| 0 <= k < links.len() implies (k >= 1 ==> key_le(
                lower,
                (#[trigger] links[k]).key,
            )) && seps_above(links[k].sub, lower) by {
                assert(seps_above(links[k].sub, lo));
                lemma_seps_above_weaken(links[k].sub, lo, lower);
                if k >= 1 {
                    lemma_key_le_transitive(lower, lo, links[k].key);
                }
            }
        },
    }
}

/// A bound from above on the keys that branches file children under can
/// be raised.
pub proof fn lemma_seps_below_weaken(t: Tree, hi: Seq<u8>, higher: Seq<u8>)
    requires
        seps_below(t, hi),
        key_le(hi, higher),
    ensures
        seps_below(t, higher),
    decreases t,
{
    match t {
        Tree::Leaf(_) => {},
        Tree::Branch(links) => {
            assert forall|k: int| 0 <= k < links.len() implies (k >= 1 ==> key_le(
                (#[trigger] links[k]).key,
                higher,
            )) && seps_below(links[k].sub, higher) by {
                assert(seps_below(links[k].sub, hi));
                lemma_seps_below_weaken(links[k].sub, hi, higher);
                if k >= 1 {
                    lemma_key_le_transitive(links[k].key, hi, higher);
                }
            }
        },
    }
}

/// The entries under the first `k` links depend on those links only.
pub proof fn lemma_upto_agree(x: Seq<Link>, y: Seq<Link>, k: int)
    requires
        0 <= k <= x.len(),
        k <= y.len(),
        forall|i: int| 0 <= i < k ==> x[i] == y[i],
    ensures
        flat_upto(x, k) == flat_upto(y, k),
    decreases k,
{
    if k > 0 {
        lemma_upto_agree(x, y, k - 1);
    }
}

/// The entries under two lists of links, one after the other.
pub proof fn lemma_flat_concat(x: Seq<Link>, y: Seq<Link>, j: int)
    requires
        0 <= j <= y.len(),
    ensures
        flat_upto(x + y, x.len() + j) == flat_all(x) + flat_upto(y, j),
    decreases j,
{
    if j == 0 {
        lemma_upto_agree(x + y, x, x.len() as int);
        assert(flat_all(x) + flat_upto(y, 0) =~= flat_all(x));
    } else {
        lemma_flat_concat(x, y, j - 1);
        assert((x + y)[x.len() + j - 1] == y[j - 1]);
        assert(flat_upto(x + y, x.len() + j) =~= flat_all(x) + flat_upto(y, j));
    }
}

/// Replacing some neighbouring children of a branch by children that hold
/// the same entries between them keeps the entries of the branch.
pub proof fn lemma_replaced_flat(links: Seq<Link>, a: int, b: int, mid: Seq<Link>)
    requires
        0 <= a <= b <= links.len(),
        flat_all(mid) == flat_all(links.subrange(a, b)),
    ensures
        flat_all(replaced(links, a, b, mid)) == flat_all(links),
{
    let n = links.len() as int;
    let pre = links.subrange(0, a);
    let old_mid = links.subrange(a, b);
    let post = links.subrange(b, n);
    lemma_flat_concat(pre, mid, mid.len() as int);
    lemma_flat_concat(pre + mid, post, post.len() as int);
    lemma_flat_concat(pre, old_mid, old_mid.len() as int);
    lemma_flat_concat(pre + old_mid, post, post.len() as int);
    assert(pre + old_mid + post =~= links);
}

/// Replacing some neighbouring children of an ordered branch keeps the
/// branch ordered, if the new children are ordered, are filed under
/// ascending keys that bound their entries, start under the key that the
/// first of the old children was filed under, and stay below the key of
/// the child that follows.
pub proof fn lemma_replaced_ordered(links: Seq<Link>, a: int, b: int, mid: Seq<Link>)
    requires
        Tree::Branch(links).ordered(),
        0 <= a < b <= links.len(),
        mid.len() > 0,
        forall|j: int| 0 <= j < mid.len() ==> (#[trigger] mid[j]).sub.ordered(),
        a >= 1 ==> mid[0].key == links[a].key,
        forall|j: int|
            0 <= j < mid.len() && a + j >= 1 ==> above((#[trigger] mid[j]).sub.flat(), mid[j].key)
                && seps_above(mid[j].sub, mid[j].key),
        forall|i: int, j: int|
            0 <= i && j == i + 1 && j < mid.len() ==> below(
                (#[trigger] mid[i]).sub.flat(),
                (#[trigger] mid[j]).key,
            ) && seps_below(mid[i].sub, mid[j].key),
        b < links.len() ==> below(mid.last().sub.flat(), links[b].key) && seps_below(
            mid.last().sub,
            links[b].key,
        ),
        forall|i: int, j: int|
            0 <= i < j < mid.len() && a + i >= 1 ==> key_le(
                (#[trigger] mid[i]).key,
                (#[trigger] mid[j]).key,
            ),
        b < links.len() ==> forall|j: int|
            0 <= j < mid.len() && a + j >= 1 ==> key_le((#[trigger] mid[j]).key, links[b].key),
    ensures
        Tree::Branch(replaced(links, a, b, mid)).ordered(),
{
    let n = links.len() as int;
    let m = mid.len() as int;
    let l2 = replaced(links, a, b, mid);
    let shift = b - a - m;
    assert(l2.len() == n - shift);
    assert forall|i: int| 0 <= i < a implies l2[i] == links[i] by {}
    assert forall|i: int| a <= i < a + m implies l2[i] == mid[i - a] by {}
    assert forall|i: int| a + m <= i < l2.len() implies l2[i] == links[i + shift] by {}
    assert forall|i: int, j: int| 1 <= i < j < l2.len() implies key_le(
        (#[trigger] l2[i]).key,
        (#[trigger] l2[j]).key,
    ) by {
        if j < a {
            assert(key_le(links[i].key, links[j].key));
        } else if i >= a + m {
            assert(key_le(links[i + shift].key, links[j + shift].key));
        } else if i < a {
            // i before the new children
            assert(key_le(links[i].key, links[a].key));
            if j < a + m {
                if j > a {
                    assert(key_le(mid[0].key, mid[j - a].key));
                }
                lemma_key_le_transitive(links[i].key, mid[0].key, mid[j - a].key);
            } else {
                assert(key_le(links[i].key, links[j + shift].key));
            }
        } else {
            // i among the new children
            if j < a + m {
                assert(key_le(mid[i - a].key, mid[j - a].key));
            } else {
                assert(key_le(mid[i - a].key, links[b].key));
                if j + shift > b {
                    assert(key_le(links[b].key, links[j + shift].key));
                }
                lemma_key_le_transitive(mid[i - a].key, links[b].key, links[j + shift].key);
            }
        }
    }
    assert forall|k: int| 0 <= k < l2.len() implies (#[trigger] l2[k]).sub.ordered() by {
        if k < a {
            assert(links[k].sub.ordered());
        } else if k < a + m {
            assert(mid[k - a].sub.ordered());
        } else {
            assert(links[k + shift].sub.ordered());
        }
    }
    assert forall|k: int| 1 <= k < l2.len() implies above((#[trigger] l2[k]).sub.flat(), l2[k].key)
        && seps_above(l2[k].sub, l2[k].key) by {
        if k < a {
            assert(above(links[k].sub.flat(), links[k].key));
        } else if k < a + m {
            assert(above(mid[k - a].sub.flat(), mid[k - a].key));
        } else {
            assert(above(links[k + shift].sub.flat(), links[k + shift].key));
        }
    }
    assert forall|i: int, j: int| 0 <= i && j == i + 1 && j < l2.len() implies below(
        (#[trigger] l2[i]).sub.flat(),
        (#[trigger] l2[j]).key,
    ) && seps_below(l2[i].sub, l2[j].key) by {
        if j < a {
            assert(below(links[i].sub.flat(), links[j].key));
        } else if j == a {
            assert(below(links[i].sub.flat(), links[a].key));
        } else if j < a + m {
            assert(below(mid[i - a].sub.flat(), mid[j - a].key));
        } else if j == a + m {
            assert(l2[i] == mid.last());
            assert(l2[j] == links[b]);
        } else {
            assert(below(links[i + shift].sub.flat(), links[j + shift].key));
        }
    }
}

/// Replacing some neighbouring children keeps the keys that the branch and
/// the branches below it file children under above a bound, if the new
/// children keep them above it.
pub proof fn lemma_replaced_seps_above(
    links: Seq<Link>,
    a: int,
    b: int,
    mid: Seq<Link>,
    bound: Seq<u8>,
)
    requires
        0 <= a < b <= links.len(),
        seps_above(Tree::Branch(links), bound),
        forall|j: int| 0 <= j < mid.len() ==> seps_above((#[trigger] mid[j]).sub, bound),
        forall|j: int| 0 <= j < mid.len() && a + j >= 1 ==> key_le(bound, (#[trigger] mid[j]).key),
    ensures
        seps_above(Tree::Branch(replaced(links, a, b, mid)), bound),
{
    let m = mid.len() as int;
    let l2 = replaced(links, a, b, mid);
    let shift = b - a - m;
    assert forall|k: int| 0 <= k < l2.len() implies (k >= 1 ==> key_le(
        bound,
        (#[trigger] l2[k]).key,
    )) && seps_above(l2[k].sub, bound) by {
        if k < a {
            assert(l2[k] == links[k]);
            assert(seps_above(links[k].sub, bound));
        } else if k < a + m {
            assert(l2[k] == mid[k - a]);
            assert(seps_above(mid[k - a].sub, bound));
        } else {
            assert(l2[k] == links[k + shift]);
            assert(seps_above(links[k + shift].sub, bound));
        }
    }
}

/// Replacing some neighbouring children keeps the keys that the branch and
/// the branches below it file children under below a bound, if the new
/// children keep them below it.
pub proof fn lemma_replaced_seps_below(
    links: Seq<Link>,
    a: int,
    b: int,
    mid: Seq<Link>,
    bound: Seq<u8>,
)
    requires
        0 <= a < b <= links.len(),
        seps_below(Tree::Branch(links), bound),
        forall|j: int| 0 <= j < mid.len() ==> seps_below((#[trigger] mid[j]).sub, bound),
        forall|j: int| 0 <= j < mid.len() && a + j >= 1 ==> key_le((#[trigger] mid[j]).key, bound),
    ensures
        seps_below(Tree::Branch(replaced(links, a, b, mid)), bound),
{
    let m = mid.len() as int;
    let l2 = replaced(links, a, b, mid);
    let shift = b - a - m;
    assert forall|k: int| 0 <= k < l2.len() implies (k >= 1 ==> key_le(
        (#[trigger] l2[k]).key,
        bound,
    )) && seps_below(l2[k].sub, bound) by {
        if k < a {
            assert(l2[k] == links[k]);
            assert(seps_below(links[k].sub, bound));
        } else if k < a + m {
            assert(l2[k] == mid[k - a]);
            assert(seps_below(mid[k - a].sub, bound));
        } else {
            assert(l2[k] == links[k + shift]);
            assert(seps_below(links[k + shift].sub, bound));
        }
    }
}

/// The entries and the filing keys of `t` are all at least `lo`, if there
/// is a `lo`.
pub open spec fn bounded_lo(t: Tree, lo: Option<Seq<u8>>) -> bool {
    lo matches Some(l) ==> above(t.flat(), l) && seps_above(t, l)
}

/// The entries of `t` are all below `hi` and its filing keys at most `hi`,
/// if there is a `hi`.
pub open spec fn bounded_hi(t: Tree, hi: Option<Seq<u8>>) -> bool {
    hi matches Some(u) ==> below(t.flat(), u) && seps_below(t, u)
}

/// `key` is at least `lo` and at most `hi`, as far as there are bounds.
pub open spec fn key_in(key: Seq<u8>, lo: Option<Seq<u8>>, hi: Option<Seq<u8>>) -> bool {
    &&& lo matches Some(l) ==> key_le(l, key)
    &&& hi matches Some(u) ==> key_le(key, u)
}

impl Tree {
    /// The number of entries of a leaf, of children of a branch.
    pub open spec fn len(self) -> nat {
        match self {
            Tree::Leaf(es) => es.len(),
            Tree::Branch(ls) => ls.len(),
        }
    }

    /// The tree of the first `c` items.
    pub open spec fn head(self, c: int) -> Tree {
        match self {
            Tree::Leaf(es) => Tree::Leaf(es.subrange(0, c)),
            Tree::Branch(ls) => Tree::Branch(ls.subrange(0, c)),
        }
    }

    /// The tree of the items from `c` on.
    pub open spec fn tail(self, c: int) -> Tree {
        match self {
            Tree::Leaf(es) => Tree::Leaf(es.subrange(c, es.len() as int)),
            Tree::Branch(ls) => Tree::Branch(ls.subrange(c, ls.len() as int)),
        }
    }

    /// The key of item `c`.
    pub open spec fn key_at(self, c: int) -> Seq<u8> {
        match self {
            Tree::Leaf(es) => es[c].key(),
            Tree::Branch(ls) => ls[c].key,
        }
    }
}

/// A node cut in two before item `c` gives two well-formed nodes that hold
/// the same entries between them; the key of item `c` is above the first
/// and bounds the second from below.
pub proof fn lemma_cut(t: Tree, c: int, h: nat, lo: Option<Seq<u8>>, hi: Option<Seq<u8>>)
    requires
        t.ordered(),
        t.shaped(h),
        0 < c < t.len(),
        bounded_lo(t, lo),
        bounded_hi(t, hi),
    ensures
        t.head(c).ordered(),
        t.tail(c).ordered(),
        t.head(c).shaped(h),
        t.tail(c).shaped(h),
        t.head(c).flat() + t.tail(c).flat() == t.flat(),
        bounded_lo(t.head(c), lo),
        bounded_hi(t.head(c), Some(t.key_at(c))),
        bounded_lo(t.tail(c), Some(t.key_at(c))),
        bounded_hi(t.tail(c), hi),
        key_in(t.key_at(c), lo, hi),
{
    let key = t.key_at(c);
    match t {
        Tree::Leaf(es) => {
            let a = es.subrange(0, c);
            let b = es.subrange(c, es.len() as int);
            assert(a + b =~= es);
            assert forall|i: int, j: int| 0 <= i < j < a.len() implies key_lt(
                #[trigger] a[i].key(),
                #[trigger] a[j].key(),
            ) by {
                assert(a[i] == es[i] && a[j] == es[j]);
            }
            assert forall|i: int, j: int| 0 <= i < j < b.len() implies key_lt(
                #[trigger] b[i].key(),
                #[trigger] b[j].key(),
            ) by {
                assert(b[i] == es[c + i] && b[j] == es[c + j]);
            }
            assert forall|i: int| 0 <= i < a.len() implies key_lt(#[trigger] a[i].key(), key) by {
                assert(a[i] == es[i]);
            }
            assert forall|i: int| 0 <= i < b.len() implies key_le(key, #[trigger] b[i].key()) by {
                assert(b[i] == es[c + i]);
                if i > 0 {
                    assert(key_lt(es[c].key(), es[c + i].key()));
                }
            }
            if lo is Some {
                assert forall|i: int| 0 <= i < a.len() implies key_le(
                    lo->0,
                    #[trigger] a[i].key(),
                ) by {
                    assert(a[i] == es[i]);
                }
                assert forall|i: int| 0 <= i < b.len() implies key_le(
                    lo->0,
                    #[trigger] b[i].key(),
                ) by {
                    assert(b[i] == es[c + i]);
                }
                assert(key_le(lo->0, es[c].key()));
            }
            if hi is Some {
                assert forall|i: int| 0 <= i < a.len() implies key_lt(
                    #[trigger] a[i].key(),
                    hi->0,
                ) by {
                    assert(a[i] == es[i]);
                }
                assert forall|i: int| 0 <= i < b.len() implies key_lt(
                    #[trigger] b[i].key(),
                    hi->0,
                ) by {
                    assert(b[i] == es[c + i]);
                }
                assert(key_lt(es[c].key(), hi->0));
            }
        },
        Tree::Branch(ls) => {
            let n = ls.len() as int;
            let a = ls.subrange(0, c);
            let b = ls.subrange(c, n);
            assert(a + b =~= ls);
            lemma_flat_concat(a, b, b.len() as int);
            lemma_upto_agree(a, ls, c);
            lemma_upto_sorted(ls, c);
            lemma_tail_above(ls, c - 1, n);
            lemma_upto_prefix(ls, c, n);
            let s = flat_all(ls);
            let fa = flat_all(a);
            let fb = flat_all(b);
            assert(s == fa + fb);
            assert forall|i: int| 0 <= i < a.len() implies a[i] == ls[i] by {}
            assert forall|i: int| 0 <= i < b.len() implies b[i] == ls[c + i] by {}
            // the first part
            assert(Tree::Branch(a).ordered()) by {
                assert forall|k: int| 0 <= k < a.len() implies (#[trigger] a[k]).sub.ordered() by {
                    assert(ls[k].sub.ordered());
                }
                assert forall|k: int| 1 <= k < a.len() implies above(
                    (#[trigger] a[k]).sub.flat(),
                    a[k].key,
                ) && seps_above(a[k].sub, a[k].key) by {
                    assert(above(ls[k].sub.flat(), ls[k].key));
                }
                assert forall|i: int, j: int| 0 <= i && j == i + 1 && j < a.len() implies below(
                    (#[trigger] a[i]).sub.flat(),
                    (#[trigger] a[j]).key,
                ) && seps_below(a[i].sub, a[j].key) by {
                    assert(below(ls[i].sub.flat(), ls[j].key));
                }
                assert forall|i: int, j: int| 1 <= i < j < a.len() implies key_le(
                    (#[trigger] a[i]).key,
                    (#[trigger] a[j]).key,
                ) by {
                    assert(key_le(ls[i].key, ls[j].key));
                }
            }
            assert(Tree::Branch(b).ordered()) by {
                assert forall|k: int| 0 <= k < b.len() implies (#[trigger] b[k]).sub.ordered() by {
                    assert(ls[c + k].sub.ordered());
                }
                assert forall|k: int| 1 <= k < b.len() implies above(
                    (#[trigger] b[k]).sub.flat(),
                    b[k].key,
                ) && seps_above(b[k].sub, b[k].key) by {
                    assert(above(ls[c + k].sub.flat(), ls[c + k].key));
                }
                assert forall|i: int, j: int| 0 <= i && j == i + 1 && j < b.len() implies below(
                    (#[trigger] b[i]).sub.flat(),
                    (#[trigger] b[j]).key,
                ) && seps_below(b[i].sub, b[j].key) by {
                    assert(below(ls[c + i].sub.flat(), ls[c + j].key));
                }
                assert forall|i: int, j: int| 1 <= i < j < b.len() implies key_le(
                    (#[trigger] b[i]).key,
                    (#[trigger] b[j]).key,
                ) by {
                    assert(key_le(ls[c + i].key, ls[c + j].key));
                }
            }
            assert(Tree::Branch(a).shaped(h)) by {
                assert forall|k: int| 0 <= k < a.len() implies (#[trigger] a[k]).sub.shaped(
                    (h - 1) as nat,
                ) by {
                    assert(ls[k].sub.shaped((h - 1) as nat));
                }
            }
            assert(Tree::Branch(b).shaped(h)) by {
                assert forall|k: int| 0 <= k < b.len() implies (#[trigger] b[k]).sub.shaped(
                    (h - 1) as nat,
                ) by {
                    assert(ls[c + k].sub.shaped((h - 1) as nat));
                }
            }
            // the key between the parts
            assert(below(fa, key));
            assert(above(fb, key)) by {
                assert forall|i: int| 0 <= i < fb.len() implies key_le(
                    key,
                    #[trigger] fb[i].key(),
                ) by {
                    assert(fb[i] == s[fa.len() + i]);
                }
            }
            assert(seps_below(Tree::Branch(a), key)) by {
                assert forall|k: int| 0 <= k < a.len() implies (k >= 1 ==> key_le(
                    (#[trigger] a[k]).key,
                    key,
                )) && seps_below(a[k].sub, key) by {
                    if k >= 1 {
                        assert(key_le(ls[k].key, ls[c].key));
                    }
                    assert(seps_below(ls[k].sub, ls[k + 1].key));
                    if k + 1 < c {
                        assert(key_le(ls[k + 1].key, ls[c].key));
                    }
                    lemma_seps_below_weaken(ls[k].sub, ls[k + 1].key, key);
                }
            }
            assert(seps_above(Tree::Branch(b), key)) by {
                assert forall|k: int| 0 <= k < b.len() implies (k >= 1 ==> key_le(
                    key,
                    (#[trigger] b[k]).key,
                )) && seps_above(b[k].sub, key) by {
                    if k >= 1 {
                        assert(key_le(ls[c].key, ls[c + k].key));
                    }
                    assert(seps_above(ls[c + k].sub, ls[c + k].key));
                    lemma_seps_above_weaken(ls[c + k].sub, ls[c + k].key, key);
                }
            }
            if lo is Some {
                let l = lo->0;
                assert(above(fa, l)) by {
                    assert forall|i: int| 0 <= i < fa.len() implies key_le(
                        l,
                        #[trigger] fa[i].key(),
                    ) by {
                        assert(fa[i] == s[i]);
                    }
                }
                assert(above(fb, l)) by {
                    assert forall|i: int| 0 <= i < fb.len() implies key_le(
                        l,
                        #[trigger] fb[i].key(),
                    ) by {
                        assert(fb[i] == s[fa.len() + i]);
                    }
                }
                assert(seps_above(Tree::Branch(a), l)) by {
                    assert forall|k: int| 0 <= k < a.len() implies (k >= 1 ==> key_le(
                        l,
                        (#[trigger] a[k]).key,
                    )) && seps_above(a[k].sub, l) by {
                        assert(seps_above(ls[k].sub, l));
                    }
                }
                assert(seps_above(Tree::Branch(b), l)) by {
                    assert forall|k: int| 0 <= k < b.len() implies (k >= 1 ==> key_le(
                        l,
                        (#[trigger] b[k]).key,
                    )) && seps_above(b[k].sub, l) by {
                        assert(seps_above(ls[c + k].sub, l));
                    }
                }
                assert(seps_above(ls[c].sub, l));
            }
            if hi is Some {
                let u = hi->0;
                assert(below(fa, u)) by {
                    assert forall|i: int| 0 <= i < fa.len() implies key_lt(
                        #[trigger] fa[i].key(),
                        u,
                    ) by {
                        assert(fa[i] == s[i]);
                    }
                }
                assert(below(fb, u)) by {
                    assert forall|i: int| 0 <= i < fb.len() implies key_lt(
                        #[trigger] fb[i].key(),
                        u,
                    ) by {
                        assert(fb[i] == s[fa.len() + i]);
                    }
                }
                assert(seps_below(Tree::Branch(a), u)) by {
                    assert forall|k: int| 0 <= k < a.len() implies (k >= 1 ==> key_le(
                        (#[trigger] a[k]).key,
                        u,
                    )) && seps_below(a[k].sub, u) by {
                        assert(seps_below(ls[k].sub, u));
                    }
                }
                assert(seps_below(Tree::Branch(b), u)) by {
                    assert forall|k: int| 0 <= k < b.len() implies (k >= 1 ==> key_le(
                        (#[trigger] b[k]).key,
                        u,
                    )) && seps_below(b[k].sub, u) by {
                        assert(seps_below(ls[c + k].sub, u));
                    }
                }
                assert(seps_below(ls[c].sub, u));
            }
        },
    }
}

/// The bound from below on child `k`: the key it is filed under, or for
/// the first child the bound on the whole branch.
pub open spec fn child_lo(links: Seq<Link>, k: int, lo: Option<Seq<u8>>) -> Option<Seq<u8>> {
    if k >= 1 {
        Some(links[k].key)
    } else {
        lo
    }
}

/// The bound from above on child `k`: the key of the next child, or for
/// the last child the bound on the whole branch.
pub open spec fn child_hi(links: Seq<Link>, k: int, hi: Option<Seq<u8>>) -> Option<Seq<u8>> {
    if k + 1 < links.len() {
        Some(links[k + 1].key)
    } else {
        hi
    }
}

/// `first` and the trees of `more` are the parts of one node, in order:
/// each is ordered, each is filed under a key that bounds it from below and
/// bounds the part before it from above, and all lie within `lo` and `hi`.
pub open spec fn parts_ok(
    first: Tree,
    more: Seq<Link>,
    lo: Option<Seq<u8>>,
    hi: Option<Seq<u8>>,
) -> bool {
    &&& first.ordered()
    &&& forall|j: int| 0 <= j < more.len() ==> (#[trigger] more[j]).sub.ordered()
    &&& bounded_lo(first, lo)
    &&& bounded_hi(
        first,
        if more.len() > 0 {
            Some(more[0].key)
        } else {
            hi
        },
    )
    &&& forall|j: int|
        0 <= j < more.len() ==> bounded_lo((#[trigger] more[j]).sub, Some(more[j].key))
    &&& forall|i: int, j: int|
        0 <= i && j == i + 1 && j < more.len() ==> bounded_hi(
            (#[trigger] more[i]).sub,
            Some((#[trigger] more[j]).key),
        )
    &&& more.len() > 0 ==> bounded_hi(more.last().sub, hi)
    &&& forall|j: int| 0 <= j < more.len() ==> key_in((#[trigger] more[j]).key, lo, hi)
    &&& forall|i: int, j: int|
        0 <= i < j < more.len() ==> key_le((#[trigger] more[i]).key, (#[trigger] more[j]).key)
}

/// The bounds on a child of an ordered, bounded branch.
pub proof fn lemma_child_bounds(links: Seq<Link>, k: int, lo: Option<Seq<u8>>, hi: Option<Seq<u8>>)
    requires
        Tree::Branch(links).ordered(),
        0 <= k < links.len(),
        bounded_lo(Tree::Branch(links), lo),
        bounded_hi(Tree::Branch(links), hi),
    ensures
        links[k].sub.ordered(),
        bounded_lo(links[k].sub, child_lo(links, k, lo)),
        bounded_hi(links[k].sub, child_hi(links, k, hi)),
{
    let n = links.len() as int;
    let s = flat_all(links);
    let c = links[k].sub.flat();
    lemma_upto_child(links, k, n);
    let off = flat_upto(links, k).len() as int;
    assert(links[k].sub.ordered());
    if k >= 1 {
        assert(above(links[k].sub.flat(), links[k].key));
    } else if lo is Some {
        assert(seps_above(links[k].sub, lo->0));
        assert forall|i: int| 0 <= i < c.len() implies key_le(lo->0, #[trigger] c[i].key()) by {
            assert(c[i] == s.subrange(off, off + c.len())[i]);
            assert(c[i] == s[off + i]);
        }
    }
    if k + 1 < n {
        assert(below(links[k].sub.flat(), links[k + 1].key));
    } else if hi is Some {
        assert(seps_below(links[k].sub, hi->0));
        assert forall|i: int| 0 <= i < c.len() implies key_lt(#[trigger] c[i].key(), hi->0) by {
            assert(c[i] == s.subrange(off, off + c.len())[i]);
            assert(c[i] == s[off + i]);
        }
    }
}

/// A child of an ordered branch replaced by its parts, the first under
/// the key of the child and the others under their own, leaves the branch
/// ordered, with the same entries and within the same bounds.
pub proof fn lemma_expand(
    links: Seq<Link>,
    k: int,
    first: Tree,
    more: Seq<Link>,
    lo: Option<Seq<u8>>,
    hi: Option<Seq<u8>>,
)
    requires
        Tree::Branch(links).ordered(),
        0 <= k < links.len(),
        bounded_lo(Tree::Branch(links), lo),
        bounded_hi(Tree::Branch(links), hi),
        parts_ok(first, more, child_lo(links, k, lo), child_hi(links, k, hi)),
        first.flat() + flat_all(more) == links[k].sub.flat(),
    ensures
        ({
            let mid = seq![Link { key: links[k].key, sub: first }] + more;
            let links2 = replaced(links, k, k + 1, mid);
            &&& Tree::Branch(links2).ordered()
            &&& flat_all(links2) == flat_all(links)
            &&& bounded_lo(Tree::Branch(links2), lo)
            &&& bounded_hi(Tree::Branch(links2), hi)
        }),
{
    let n = links.len() as int;
    let m = more.len() as int;
    let head = seq![Link { key: links[k].key, sub: first }];
    let mid = head + more;
    let links2 = replaced(links, k, k + 1, mid);
    let lo_k = child_lo(links, k, lo);
    let hi_k = child_hi(links, k, hi);
    assert(mid[0] == head[0]);
    assert forall|j: int| 1 <= j < mid.len() implies mid[j] == more[j - 1] by {}
    // the entries
    assert(flat_all(mid) == first.flat() + flat_all(more)) by {
        lemma_flat_concat(head, more, m);
        assert(flat_upto(head, 1) == flat_upto(head, 0) + head[0].sub.flat());
        assert(flat_all(head) =~= first.flat());
    }
    let one = links.subrange(k, k + 1);
    assert(flat_all(one) == links[k].sub.flat()) by {
        assert(flat_upto(one, 1) == flat_upto(one, 0) + one[0].sub.flat());
        assert(flat_all(one) =~= links[k].sub.flat());
    }
    lemma_replaced_flat(links, k, k + 1, mid);
    // the order
    assert forall|j: int| 0 <= j < mid.len() implies (#[trigger] mid[j]).sub.ordered() by {
        if j >= 1 {
            assert(more[j - 1].sub.ordered());
        }
    }
    assert forall|j: int| 0 <= j < mid.len() && k + j >= 1 implies above(
        (#[trigger] mid[j]).sub.flat(),
        mid[j].key,
    ) && seps_above(mid[j].sub, mid[j].key) by {
        if j >= 1 {
            assert(bounded_lo(more[j - 1].sub, Some(more[j - 1].key)));
        }
    }
    assert forall|i: int, j: int| 0 <= i && j == i + 1 && j < mid.len() implies below(
        (#[trigger] mid[i]).sub.flat(),
        (#[trigger] mid[j]).key,
    ) && seps_below(mid[i].sub, mid[j].key) by {
        if i >= 1 {
            assert(bounded_hi(more[i - 1].sub, Some(more[j - 1].key)));
        }
    }
    if m > 0 {
        assert(mid.last() == more.last());
    } else {
        assert(mid.last() == head[0]);
    }
    assert forall|i: int, j: int| 0 <= i < j < mid.len() && k + i >= 1 implies key_le(
        (#[trigger] mid[i]).key,
        (#[trigger] mid[j]).key,
    ) by {
        if i >= 1 {
            assert(key_le(more[i - 1].key, more[j - 1].key));
        } else {
            assert(key_in(more[j - 1].key, lo_k, hi_k));
        }
    }
    if k + 1 < n {
        assert forall|j: int| 0 <= j < mid.len() && k + j >= 1 implies key_le(
            (#[trigger] mid[j]).key,
            links[k + 1].key,
        ) by {
            if j >= 1 {
                assert(key_in(more[j - 1].key, lo_k, hi_k));
            } else {
                assert(key_le(links[k].key, links[k + 1].key));
            }
        }
    }
    lemma_replaced_ordered(links, k, k + 1, mid);
    // the bounds
    if lo is Some {
        let l = lo->0;
        if k >= 1 {
            assert(key_le(l, links[k].key));
        }
        assert forall|j: int| 0 <= j < mid.len() implies seps_above((#[trigger] mid[j]).sub, l) by {
            if j >= 1 {
                assert(bounded_lo(more[j - 1].sub, Some(more[j - 1].key)));
                assert(key_in(more[j - 1].key, lo_k, hi_k));
                if k >= 1 {
                    lemma_key_le_transitive(l, links[k].key, more[j - 1].key);
                }
                lemma_seps_above_weaken(more[j - 1].sub, more[j - 1].key, l);
            } else {
                if k >= 1 {
                    lemma_seps_above_weaken(first, links[k].key, l);
                }
            }
        }
        assert forall|j: int| 0 <= j < mid.len() && k + j >= 1 implies key_le(
            l,
            (#[trigger] mid[j]).key,
        ) by {
            if j >= 1 {
                assert(key_in(more[j - 1].key, lo_k, hi_k));
                if k >= 1 {
                    lemma_key_le_transitive(l, links[k].key, more[j - 1].key);
                }
            }
        }
        lemma_replaced_seps_above(links, k, k + 1, mid, l);
    }
    if hi is Some {
        let u = hi->0;
        if k + 1 < n {
            assert(key_le(links[k + 1].key, u));
        }
        assert forall|j: int| 0 <= j < mid.len() && k + j >= 1 implies key_le(
            (#[trigger] mid[j]).key,
            u,
        ) by {
            if j >= 1 {
                assert(key_in(more[j - 1].key, lo_k, hi_k));
                if k + 1 < n {
                    lemma_key_le_transitive(more[j - 1].key, links[k + 1].key, u);
                }
            } else {
                assert(key_le(links[k].key, u));
            }
        }
        assert forall|j: int| 0 <= j < mid.len() implies seps_below((#[trigger] mid[j]).sub, u) by {
            if j + 1 < mid.len() {
                assert(bounded_hi(mid[j].sub, Some(mid[j + 1].key))) by {
                    if j >= 1 {
                        assert(bounded_hi(more[j - 1].sub, Some(more[j].key)));
                    }
                }
                assert(key_in(more[j].key, lo_k, hi_k));
                if k + 1 < n {
                    lemma_key_le_transitive(more[j].key, links[k + 1].key, u);
                }
                lemma_seps_below_weaken(mid[j].sub, mid[j + 1].key, u);
            } else {
                assert(bounded_hi(mid[j].sub, hi_k));
                if k + 1 < n {
                    lemma_seps_below_weaken(mid[j].sub, links[k + 1].key, u);
                }
            }
        }
        lemma_replaced_seps_below(links, k, k + 1, mid, u);
    }
}

/// The entries under a list of links with one more link at its end.
pub proof fn lemma_flat_push(more: Seq<Link>, last: Link)
    ensures
        flat_all(more.push(last)) == flat_all(more) + last.sub.flat(),
{
    let longer = more.push(last);
    lemma_upto_agree(longer, more, more.len() as int);
    assert(longer[more.len() as int] == last);
}

/// A node cut in two for the first time: the two parts are the parts of
/// the node.
pub proof fn lemma_carve_first(
    t: Tree,
    c: int,
    h: nat,
    lo: Option<Seq<u8>>,
    hi: Option<Seq<u8>>,
)
    requires
        t.ordered(),
        t.shaped(h),
        0 < c < t.len(),
        bounded_lo(t, lo),
        bounded_hi(t, hi),
    ensures
        parts_ok(t.head(c), seq![Link { key: t.key_at(c), sub: t.tail(c) }], lo, hi),
        t.head(c).flat() + flat_all(seq![Link { key: t.key_at(c), sub: t.tail(c) }]) == t.flat(),
        t.head(c).shaped(h),
        t.tail(c).shaped(h),
{
    lemma_cut(t, c, h, lo, hi);
    let last = Link { key: t.key_at(c), sub: t.tail(c) };
    lemma_flat_push(Seq::<Link>::empty(), last);
    assert(Seq::<Link>::empty().push(last) =~= seq![last]);
    assert(flat_all(Seq::<Link>::empty()) =~= Seq::<Entry>::empty());
    assert(flat_all(seq![last]) =~= t.tail(c).flat());
}

/// The last of the parts of a node cut in two once more: the parts so far
/// with the two new parts in the place of the last are the parts of the node.
pub proof fn lemma_carve(
    first: Tree,
    more: Seq<Link>,
    rk: Seq<u8>,
    rest: Tree,
    c: int,
    h: nat,
    lo: Option<Seq<u8>>,
    hi: Option<Seq<u8>>,
)
    requires
        parts_ok(first, more.push(Link { key: rk, sub: rest }), lo, hi),
        rest.shaped(h),
        0 < c < rest.len(),
    ensures
        parts_ok(
            first,
            more.push(Link { key: rk, sub: rest.head(c) }).push(
                Link { key: rest.key_at(c), sub: rest.tail(c) },
            ),
            lo,
            hi,
        ),
        flat_all(
            more.push(Link { key: rk, sub: rest.head(c) }).push(
                Link { key: rest.key_at(c), sub: rest.tail(c) },
            ),
        ) == flat_all(more.push(Link { key: rk, sub: rest })),
        rest.head(c).shaped(h),
        rest.tail(c).shaped(h),
{
    let m = more.len() as int;
    let whole = more.push(Link { key: rk, sub: rest });
    let k2 = rest.key_at(c);
    let rh = rest.head(c);
    let rt = rest.tail(c);
    let mid = more.push(Link { key: rk, sub: rh });
    let parts = mid.push(Link { key: k2, sub: rt });
    assert(whole[m].sub == rest);
    assert(whole.last() == whole[m]);
    assert(rest.ordered());
    assert(bounded_lo(whole[m].sub, Some(whole[m].key)));
    lemma_cut(rest, c, h, Some(rk), hi);
    lemma_flat_push(more, Link { key: rk, sub: rest });
    lemma_flat_push(more, Link { key: rk, sub: rh });
    lemma_flat_push(mid, Link { key: k2, sub: rt });
    assert(flat_all(parts) =~= flat_all(whole));
    assert forall|j: int| 0 <= j < m implies parts[j] == more[j] && whole[j] == more[j] by {}
    assert(parts[m] == Link { key: rk, sub: rh });
    assert(parts[m + 1] == Link { key: k2, sub: rt });
    assert(parts.last() == parts[m + 1]);
    assert(parts[0].key == whole[0].key);
    assert(key_in(whole[m].key, lo, hi));
    assert forall|j: int| 0 <= j < parts.len() implies (#[trigger] parts[j]).sub.ordered() by {
        if j < m {
            assert(whole[j].sub.ordered());
        }
    }
    assert forall|j: int| 0 <= j < parts.len() implies bounded_lo(
        (#[trigger] parts[j]).sub,
        Some(parts[j].key),
    ) by {
        if j < m {
            assert(bounded_lo(whole[j].sub, Some(whole[j].key)));
        }
    }
    assert forall|i: int, j: int| 0 <= i && j == i + 1 && j < parts.len() implies bounded_hi(
        (#[trigger] parts[i]).sub,
        Some((#[trigger] parts[j]).key),
    ) by {
        if j <= m {
            assert(bounded_hi(whole[i].sub, Some(whole[j].key)));
        }
    }
    assert forall|j: int| 0 <= j < parts.len() implies key_in((#[trigger] parts[j]).key, lo, hi) by {
        if j < m {
            assert(key_in(whole[j].key, lo, hi));
        } else if j == m + 1 {
            if lo is Some {
                lemma_key_le_transitive(lo->0, rk, k2);
            }
        }
    }
    assert forall|i: int, j: int| 0 <= i < j < parts.len() implies key_le(
        (#[trigger] parts[i]).key,
        (#[trigger] parts[j]).key,
    ) by {
        if j <= m {
            assert(key_le(whole[i].key, whole[j].key));
        } else if i < m {
            assert(key_le(whole[i].key, whole[m].key));
            lemma_key_le_transitive(parts[i].key, rk, k2);
        }
    }
}

} // verus!
