//! Checking a store: whether a header points at a well-formed tree, and
//! whether every header that the leaf pages keep does.

use vstd::prelude::*;
use crate::bytes::{
    compare, copy_bytes, key_le, key_lt, lemma_key_le_lt, lemma_key_le_transitive,
    lemma_key_lt_or_ge, lemma_key_lt_transitive, Rel,
};
use crate::data::{views, Data, Entry};
use crate::listing::{above, below, sorted};
use crate::meta::{BucketMeta, PageID};
use crate::node::{target_good, target_ok, target_tree, Branch, NodeData, Target};
use crate::page::{pages_wf, rooted, Page, PageStore};
use crate::split::{lemma_links, links_of};
use crate::persist::lemma_one_height;
use crate::tree::{
    flat_upto, lemma_flat_sorted, lemma_seps_above_weaken, lemma_seps_below_weaken, seps_above,
    seps_below, Link, Tree,
};

verus! {

/// The smaller of two keys, where there are two.
pub open spec fn key_min(a: Option<Seq<u8>>, b: Option<Seq<u8>>) -> Option<Seq<u8>> {
    match (a, b) {
        (Some(x), Some(y)) => if key_le(x, y) {
            a
        } else {
            b
        },
        (Some(_), None) => a,
        _ => b,
    }
}

/// The larger of two keys, where there are two.
pub open spec fn key_max(a: Option<Seq<u8>>, b: Option<Seq<u8>>) -> Option<Seq<u8>> {
    match (a, b) {
        (Some(x), Some(y)) => if key_le(x, y) {
            b
        } else {
            a
        },
        (Some(_), None) => a,
        _ => b,
    }
}

/// The key of the first entry, if there is an entry.
pub open spec fn first_key(s: Seq<Entry>) -> Option<Seq<u8>> {
    if s.len() > 0 {
        Some(s[0].key())
    } else {
        None
    }
}

/// The key of the last entry, if there is an entry.
pub open spec fn last_key(s: Seq<Entry>) -> Option<Seq<u8>> {
    if s.len() > 0 {
        Some(s.last().key())
    } else {
        None
    }
}

/// The least key that a branch of an ordered tree files a child under,
/// the first child of each branch left out.
pub open spec fn sep_lo(t: Tree) -> Option<Seq<u8>>
    decreases t,
{
    match t {
        Tree::Leaf(_) => None,
        Tree::Branch(links) => if links.len() == 0 {
            None
        } else {
            key_min(
                sep_lo(links[0].sub),
                if links.len() >= 2 {
                    Some(links[1].key)
                } else {
                    None
                },
            )
        },
    }
}

/// The greatest key that a branch of an ordered tree files a child under.
pub open spec fn sep_hi(t: Tree) -> Option<Seq<u8>>
    decreases t,
{
    match t {
        Tree::Leaf(_) => None,
        Tree::Branch(links) => if links.len() == 0 {
            None
        } else {
            key_max(
                sep_hi(links.last().sub),
                if links.len() >= 2 {
                    Some(links.last().key)
                } else {
                    None
                },
            )
        },
    }
}

/// `lo` is at most the key, if there is a key.
pub open spec fn at_least(k: Option<Seq<u8>>, lo: Seq<u8>) -> bool {
    k matches Some(x) ==> key_le(lo, x)
}

/// The key, if there is one, is at most `hi`.
pub open spec fn at_most(k: Option<Seq<u8>>, hi: Seq<u8>) -> bool {
    k matches Some(x) ==> key_le(x, hi)
}

/// The key, if there is one, is less than `hi`.
pub open spec fn less_than(k: Option<Seq<u8>>, hi: Seq<u8>) -> bool {
    k matches Some(x) ==> key_lt(x, hi)
}

/// A bound from below on the smaller of two keys bounds both.
pub proof fn lemma_min_bound(a: Option<Seq<u8>>, b: Option<Seq<u8>>, lo: Seq<u8>)
    ensures
        at_least(key_min(a, b), lo) == (at_least(a, lo) && at_least(b, lo)),
{
    if a is Some && b is Some {
        let x = a->0;
        let y = b->0;
        lemma_key_lt_or_ge(y, x);
        if key_le(x, y) {
            if key_le(lo, x) {
                lemma_key_le_transitive(lo, x, y);
            }
        } else {
            if key_le(lo, y) {
                lemma_key_le_transitive(lo, y, x);
            }
        }
    }
}

/// A bound from above on the larger of two keys bounds both.
pub proof fn lemma_max_bound(a: Option<Seq<u8>>, b: Option<Seq<u8>>, hi: Seq<u8>)
    ensures
        at_most(key_max(a, b), hi) == (at_most(a, hi) && at_most(b, hi)),
{
    if a is Some && b is Some {
        let x = a->0;
        let y = b->0;
        lemma_key_lt_or_ge(y, x);
        if key_le(x, y) {
            if key_le(y, hi) {
                lemma_key_le_transitive(x, y, hi);
            }
        } else {
            if key_le(x, hi) {
                lemma_key_le_transitive(y, x, hi);
            }
        }
    }
}

/// The entries of a sorted listing are bounded by its first and last.
pub proof fn lemma_ends_bound(s: Seq<Entry>, lo: Seq<u8>, hi: Seq<u8>)
    requires
        sorted(s),
    ensures
        above(s, lo) == at_least(first_key(s), lo),
        below(s, hi) == less_than(last_key(s), hi),
{
    if s.len() > 0 {
        if at_least(first_key(s), lo) {
            assert forall|i: int| 0 <= i < s.len() implies key_le(lo, #[trigger] s[i].key()) by {
                if i > 0 {
                    assert(key_lt(s[0].key(), s[i].key()));
                    lemma_key_le_lt(lo, s[0].key(), s[i].key());
                }
            }
        }
        if above(s, lo) {
            assert(key_le(lo, s[0].key()));
        }
        if less_than(last_key(s), hi) {
            assert forall|i: int| 0 <= i < s.len() implies key_lt(#[trigger] s[i].key(), hi) by {
                if i < s.len() - 1 {
                    assert(key_lt(s[i].key(), s[s.len() - 1].key()));
                    lemma_key_lt_transitive(s[i].key(), s.last().key(), hi);
                }
            }
        }
        if below(s, hi) {
            assert(key_lt(s[s.len() - 1].key(), hi));
        }
    }
}

/// In an ordered tree the filing keys are all at least `lo` exactly if
/// the least of them is.
pub proof fn lemma_sep_lo(t: Tree, lo: Seq<u8>)
    requires
        t.ordered(),
    ensures
        seps_above(t, lo) == at_least(sep_lo(t), lo),
    decreases t,
{
    match t {
        Tree::Leaf(_) => {},
        Tree::Branch(links) => {
            if links.len() > 0 {
                assert(links[0].sub.ordered());
                lemma_sep_lo(links[0].sub, lo);
                lemma_min_bound(
                    sep_lo(links[0].sub),
                    if links.len() >= 2 {
                        Some(links[1].key)
                    } else {
                        None
                    },
                    lo,
                );
                if seps_above(t, lo) {
                    assert(seps_above(links[0].sub, lo));
                    if links.len() >= 2 {
                        assert(key_le(lo, links[1].key));
                    }
                }
                if at_least(sep_lo(t), lo) {
                    assert forall|k: int| 0 <= k < links.len() implies (k >= 1 ==> key_le(
                        lo,
                        (#[trigger] links[k]).key,
                    )) && seps_above(links[k].sub, lo) by {
                        if k >= 1 {
                            assert(key_le(lo, links[1].key));
                            if k > 1 {
                                assert(key_le(links[1].key, links[k].key));
                                lemma_key_le_transitive(lo, links[1].key, links[k].key);
                            }
                            assert(seps_above(links[k].sub, links[k].key));
                            lemma_seps_above_weaken(links[k].sub, links[k].key, lo);
                        }
                    }
                }
            }
        },
    }
}

/// In an ordered tree the filing keys are all at most `hi` exactly if the
/// greatest of them is.
pub proof fn lemma_sep_hi(t: Tree, hi: Seq<u8>)
    requires
        t.ordered(),
    ensures
        seps_below(t, hi) == at_most(sep_hi(t), hi),
    decreases t,
{
    match t {
        Tree::Leaf(_) => {},
        Tree::Branch(links) => {
            if links.len() > 0 {
                let n = links.len() as int;
                assert(links[n - 1].sub.ordered());
                lemma_sep_hi(links[n - 1].sub, hi);
                lemma_max_bound(
                    sep_hi(links[n - 1].sub),
                    if n >= 2 {
                        Some(links[n - 1].key)
                    } else {
                        None
                    },
                    hi,
                );
                if seps_below(t, hi) {
                    assert(seps_below(links[n - 1].sub, hi));
                    if n >= 2 {
                        assert(key_le(links[n - 1].key, hi));
                    }
                }
                if at_most(sep_hi(t), hi) {
                    assert forall|k: int| 0 <= k < links.len() implies (k >= 1 ==> key_le(
                        (#[trigger] links[k]).key,
                        hi,
                    )) && seps_below(links[k].sub, hi) by {
                        if n >= 2 {
                            assert(key_le(links[n - 1].key, hi));
                        }
                        if k >= 1 && k < n - 1 {
                            assert(key_le(links[k].key, links[n - 1].key));
                            lemma_key_le_transitive(links[k].key, links[n - 1].key, hi);
                        }
                        if k < n - 1 {
                            assert(seps_below(links[k].sub, links[k + 1].key));
                            if k + 1 < n - 1 {
                                assert(key_le(links[k + 1].key, links[n - 1].key));
                            }
                            lemma_key_le_transitive(links[k + 1].key, links[n - 1].key, hi);
                            lemma_seps_below_weaken(links[k].sub, links[k + 1].key, hi);
                        }
                    }
                }
            }
        },
    }
}

/// Child `k` of a branch can stand where it stands: it is a page that
/// stands for a well-formed tree `h` levels high, its key is not below the
/// key before it, and the keys under it and under the child before it lie
/// on the right sides of its key.
pub open spec fn step_ok(pages: Seq<Page>, bs: Seq<Branch>, h: nat, k: int) -> bool {
    let sub = target_tree(pages, bs[k].target, h);
    let prev = target_tree(pages, bs[k - 1].target, h);
    &&& bs[k].target is Page
    &&& target_good(pages, bs[k].target, h)
    &&& k >= 2 ==> key_le(bs[k - 1].key@, bs[k].key@)
    &&& k >= 1 ==> {
        &&& above(sub.flat(), bs[k].key@)
        &&& seps_above(sub, bs[k].key@)
        &&& below(prev.flat(), bs[k].key@)
        &&& seps_below(prev, bs[k].key@)
    }
}

/// The first `k` children of a branch can stand where they stand.
pub open spec fn kids_good(pages: Seq<Page>, bs: Seq<Branch>, h: nat, k: int) -> bool
    decreases k,
{
    if k <= 0 {
        true
    } else {
        kids_good(pages, bs, h, k - 1) && step_ok(pages, bs, h, k - 1)
    }
}

/// If the first `n` children can stand where they stand, each of them can.
pub proof fn lemma_kids_each(pages: Seq<Page>, bs: Seq<Branch>, h: nat, n: int, k: int)
    requires
        kids_good(pages, bs, h, n),
        0 <= k < n,
    ensures
        step_ok(pages, bs, h, k),
        kids_good(pages, bs, h, k),
        kids_good(pages, bs, h, k + 1),
    decreases n,
{
    if k < n - 1 {
        lemma_kids_each(pages, bs, h, n - 1, k);
    }
}

/// If each of the first `n` children can stand where it stands, they all can.
pub proof fn lemma_kids_all(pages: Seq<Page>, bs: Seq<Branch>, h: nat, n: int)
    requires
        forall|k: int| 0 <= k < n ==> step_ok(pages, bs, h, k),
    ensures
        kids_good(pages, bs, h, n),
    decreases n,
{
    if n > 0 {
        lemma_kids_all(pages, bs, h, n - 1);
    }
}

/// Keys of which each is at least the one before it ascend.
pub proof fn lemma_keys_ascend(pages: Seq<Page>, bs: Seq<Branch>, h: nat, n: int, i: int, j: int)
    requires
        kids_good(pages, bs, h, n),
        1 <= i <= j < n,
    ensures
        key_le(bs[i].key@, bs[j].key@),
    decreases j - i,
{
    if i < j {
        lemma_keys_ascend(pages, bs, h, n, i, j - 1);
        lemma_kids_each(pages, bs, h, n, j);
        lemma_key_le_transitive(bs[i].key@, bs[j - 1].key@, bs[j].key@);
    }
}

/// A branch page whose children can all stand where they stand is the
/// root of a well-formed tree, one level higher than they are.
pub proof fn lemma_node_good(pages: Seq<Page>, p: PageID, h: nat)
    requires
        p < pages.len(),
        pages[p as int].data is Branches,
        pages[p as int].data->Branches_0@.len() > 0,
        kids_good(
            pages,
            pages[p as int].data->Branches_0@,
            h,
            pages[p as int].data->Branches_0@.len() as int,
        ),
    ensures
        target_good(pages, Target::Page(p), h + 1),
        target_tree(pages, Target::Page(p), h + 1) == Tree::Branch(
            links_of(pages, pages[p as int].data->Branches_0@, h),
        ),
{
    let data = pages[p as int].data;
    let bs = data->Branches_0@;
    let n = bs.len() as int;
    let links = links_of(pages, bs, h);
    lemma_links(pages, data, h + 1);
    assert forall|k: int| 0 <= k < n implies (#[trigger] bs[k]).target is Page && target_ok(
        pages,
        bs[k].target,
        h,
    ) && links[k].sub.shaped(h) && links[k].sub.ordered() by {
        lemma_kids_each(pages, bs, h, n, k);
    }
    assert forall|i: int, j: int| 1 <= i < j < n implies key_le(
        (#[trigger] links[i]).key,
        (#[trigger] links[j]).key,
    ) by {
        lemma_keys_ascend(pages, bs, h, n, i, j);
    }
    assert forall|k: int| 1 <= k < n implies above((#[trigger] links[k]).sub.flat(), links[k].key)
        && seps_above(links[k].sub, links[k].key) by {
        lemma_kids_each(pages, bs, h, n, k);
    }
    assert forall|i: int, j: int| 0 <= i && j == i + 1 && j < n implies below(
        (#[trigger] links[i]).sub.flat(),
        (#[trigger] links[j]).key,
    ) && seps_below(links[i].sub, links[j].key) by {
        lemma_kids_each(pages, bs, h, n, j);
    }
}

/// The children of a branch page that is the root of a well-formed tree
/// can all stand where they stand, one level lower.
pub proof fn lemma_good_node(pages: Seq<Page>, p: PageID, h: nat)
    requires
        target_good(pages, Target::Page(p), h),
        pages[p as int].data is Branches,
    ensures
        h >= 1,
        pages[p as int].data->Branches_0@.len() > 0,
        kids_good(
            pages,
            pages[p as int].data->Branches_0@,
            (h - 1) as nat,
            pages[p as int].data->Branches_0@.len() as int,
        ),
{
    let data = pages[p as int].data;
    let bs = data->Branches_0@;
    let n = bs.len() as int;
    let hc = (h - 1) as nat;
    let links = links_of(pages, bs, hc);
    lemma_links(pages, data, h);
    assert forall|k: int| 0 <= k < n implies step_ok(pages, bs, hc, k) by {
        assert(bs[k].target is Page);
        assert(target_ok(pages, bs[k].target, hc));
        assert(links[k].sub.shaped(hc));
        assert(links[k].sub.ordered());
        if k >= 2 {
            assert(key_le(links[k - 1].key, links[k].key));
        }
        if k >= 1 {
            assert(above(links[k].sub.flat(), links[k].key));
            assert(below(links[k - 1].sub.flat(), links[k].key));
        }
    }
    lemma_kids_all(pages, bs, hc, n);
}

/// What a tree spans: its height, the keys of its first and last entry,
/// and the least and greatest key that its branches file children under.
#[derive(Debug)]
pub struct Span {
    pub height: usize,
    pub first: Option<Vec<u8>>,
    pub last: Option<Vec<u8>>,
    pub sep_lo: Option<Vec<u8>>,
    pub sep_hi: Option<Vec<u8>>,
}

/// The key as a mathematical value.
pub open spec fn key_of(k: Option<Vec<u8>>) -> Option<Seq<u8>> {
    match k {
        Some(v) => Some(v@),
        None => None,
    }
}

/// `s` is what the tree `t` spans.
pub open spec fn spans(s: Span, t: Tree) -> bool {
    &&& key_of(s.first) == first_key(t.flat())
    &&& key_of(s.last) == last_key(t.flat())
    &&& key_of(s.sep_lo) == sep_lo(t)
    &&& key_of(s.sep_hi) == sep_hi(t)
}

/// Whether `lo` is at most the key, if there is a key.
fn opt_at_least(k: &Option<Vec<u8>>, lo: &[u8]) -> (r: bool)
    ensures
        r == at_least(key_of(*k), lo@),
{
    match k {
        Some(v) => {
            proof {
                lemma_key_lt_or_ge(v@, lo@);
            }
            match compare(lo, v.as_slice()) {
                Rel::After => false,
                _ => true,
            }
        },
        None => true,
    }
}

/// Whether the key, if there is one, is at most `hi`.
fn opt_at_most(k: &Option<Vec<u8>>, hi: &[u8]) -> (r: bool)
    ensures
        r == at_most(key_of(*k), hi@),
{
    match k {
        Some(v) => {
            proof {
                lemma_key_lt_or_ge(hi@, v@);
            }
            match compare(v.as_slice(), hi) {
                Rel::After => false,
                _ => true,
            }
        },
        None => true,
    }
}

/// Whether the key, if there is one, is less than `hi`.
fn opt_less_than(k: &Option<Vec<u8>>, hi: &[u8]) -> (r: bool)
    ensures
        r == less_than(key_of(*k), hi@),
{
    match k {
        Some(v) => {
            proof {
                crate::bytes::lemma_key_lt_irreflexive(hi@);
            }
            match compare(v.as_slice(), hi) {
                Rel::Before => true,
                _ => false,
            }
        },
        None => true,
    }
}

/// A copy of the key, if there is one.
fn copy_key(k: &Option<Vec<u8>>) -> (r: Option<Vec<u8>>)
    ensures
        key_of(r) == key_of(*k),
{
    match k {
        Some(v) => Some(copy_bytes(v.as_slice())),
        None => None,
    }
}

/// The smaller of two keys, where there are two.
fn opt_min(a: Option<Vec<u8>>, b: Option<Vec<u8>>) -> (r: Option<Vec<u8>>)
    ensures
        key_of(r) == key_min(key_of(a), key_of(b)),
{
    match (&a, &b) {
        (Some(x), Some(y)) => {
            proof {
                lemma_key_lt_or_ge(y@, x@);
            }
            match compare(x.as_slice(), y.as_slice()) {
                Rel::After => b,
                _ => a,
            }
        },
        (Some(_), None) => a,
        _ => b,
    }
}

/// The larger of two keys, where there are two.
fn opt_max(a: Option<Vec<u8>>, b: Option<Vec<u8>>) -> (r: Option<Vec<u8>>)
    ensures
        key_of(r) == key_max(key_of(a), key_of(b)),
{
    match (&a, &b) {
        (Some(x), Some(y)) => {
            proof {
                lemma_key_lt_or_ge(y@, x@);
            }
            match compare(x.as_slice(), y.as_slice()) {
                Rel::After => a,
                _ => b,
            }
        },
        (Some(_), None) => a,
        _ => b,
    }
}

/// Entries of which each has a greater key than the one before it are sorted.
pub proof fn lemma_adjacent_sorted(s: Seq<Entry>, n: int, i: int, j: int)
    requires
        0 <= i < j < n <= s.len(),
        forall|k: int| 1 <= k < n ==> key_lt(#[trigger] s[k - 1].key(), s[k].key()),
    ensures
        key_lt(s[i].key(), s[j].key()),
    decreases j - i,
{
    assert(key_lt(s[j - 1].key(), s[j].key()));
    if i < j - 1 {
        lemma_adjacent_sorted(s, n, i, j - 1);
        lemma_key_lt_transitive(s[i].key(), s[j - 1].key(), s[j].key());
    }
}

/// Whether the entries are sorted by key, no key twice.
fn is_sorted(es: &Vec<Data>) -> (r: bool)
    ensures
        r == sorted(views(es@)),
{
    let ghost s = views(es@);
    let mut i: usize = 1;
    while i < es.len()
        invariant
            1 <= i,
            s == views(es@),
            forall|k: int| 1 <= k < i && k < s.len() ==> key_lt(#[trigger] s[k - 1].key(), s[k].key()),
        decreases es@.len() - i,
    {
        assert(s[i - 1] == es@[i - 1]@ && s[i as int] == es@[i as int]@);
        match compare(es[i - 1].key(), es[i].key()) {
            Rel::Before => {},
            _ => {
                proof {
                    crate::bytes::lemma_key_lt_irreflexive(s[i as int].key());
                    if sorted(s) {
                        assert(key_lt(s[i - 1].key(), s[i as int].key()));
                        crate::bytes::lemma_key_lt_asymmetric(s[i - 1].key(), s[i as int].key());
                    }
                }
                return false;
            },
        }
        i += 1;
    }
    proof {
        let n = s.len() as int;
        assert forall|a: int, b: int| 0 <= a < b < s.len() implies key_lt(
            #[trigger] s[a].key(),
            #[trigger] s[b].key(),
        ) by {
            lemma_adjacent_sorted(s, n, a, b);
        }
    }
    true
}

/// The entries under the first `k + 1` children start where those under
/// the first `k` start, or where child `k` starts if there are none, and
/// end where child `k` ends, or where those before it end if it has none.
pub proof fn lemma_ends_step(links: Seq<Link>, k: int)
    requires
        0 <= k < links.len(),
    ensures
        first_key(flat_upto(links, k + 1)) == (if flat_upto(links, k).len() > 0 {
            first_key(flat_upto(links, k))
        } else {
            first_key(links[k].sub.flat())
        }),
        last_key(flat_upto(links, k + 1)) == (if links[k].sub.flat().len() > 0 {
            last_key(links[k].sub.flat())
        } else {
            last_key(flat_upto(links, k))
        }),
{
    let a = flat_upto(links, k);
    let c = links[k].sub.flat();
    let s = flat_upto(links, k + 1);
    assert(s == a + c);
    if c.len() == 0 {
        assert(s =~= a);
    }
    if a.len() == 0 {
        assert(s =~= c);
    }
}

/// Whether the page `p` is the root of a well-formed tree that is at most
/// `fuel` levels high, and if it is, what the tree spans.
pub fn check_page(pages: &Vec<Page>, p: PageID, fuel: usize) -> (r: Option<Span>)
    ensures
        r matches Some(s) ==> s.height <= fuel && target_good(
            pages@,
            Target::Page(p),
            s.height as nat,
        ) && spans(s, target_tree(pages@, Target::Page(p), s.height as nat)),
        r is None ==> forall|h: nat|
            h <= fuel ==> !#[trigger] target_good(pages@, Target::Page(p), h),
    decreases fuel,
{
    let len = pages.len();
    if p >= len as u64 {
        return None;
    }
    let page = &pages[p as usize];
    match &page.data {
        NodeData::Leaf(es) => {
            if !is_sorted(es) {
                return None;
            }
            let n = es.len();
            let first = if n > 0 {
                Some(copy_bytes(es[0].key()))
            } else {
                None
            };
            let last = if n > 0 {
                Some(copy_bytes(es[n - 1].key()))
            } else {
                None
            };
            proof {
                if n > 0 {
                    assert(views(es@)[0] == es@[0]@);
                    assert(views(es@).last() == es@[n - 1]@);
                }
            }
            Some(Span { height: 0, first, last, sep_lo: None, sep_hi: None })
        },
        NodeData::Branches(bs) => {
            let n = bs.len();
            if fuel == 0 || n == 0 {
                return None;
            }
            let mut h0: usize = 0;
            let mut prev = Span { height: 0, first: None, last: None, sep_lo: None, sep_hi: None };
            let mut lo0: Option<Vec<u8>> = None;
            let mut first: Option<Vec<u8>> = None;
            let mut last: Option<Vec<u8>> = None;
            let mut k: usize = 0;
            while k < n
                invariant
                    k <= n,
                    n == bs@.len(),
                    n > 0,
                    fuel > 0,
                    p < pages@.len(),
                    pages@[p as int].data == NodeData::Branches(*bs),
                    k >= 1 ==> h0 < fuel,
                    kids_good(pages@, bs@, h0 as nat, k as int),
                    k >= 1 ==> prev.height == h0 && spans(
                        prev,
                        target_tree(pages@, bs@[k - 1].target, h0 as nat),
                    ),
                    k >= 1 ==> key_of(lo0) == sep_lo(target_tree(pages@, bs@[0].target, h0 as nat)),
                    k >= 1 ==> key_of(first) == first_key(
                        flat_upto(links_of(pages@, bs@, h0 as nat), k as int),
                    ),
                    k >= 1 ==> key_of(last) == last_key(
                        flat_upto(links_of(pages@, bs@, h0 as nat), k as int),
                    ),
                    k == 0 ==> first is None && last is None,
                    forall|h: nat|
                        h <= fuel && #[trigger] target_good(pages@, Target::Page(p), h) ==> (k >= 1
                            ==> h == h0 + 1),
                decreases n - k,
            {
                proof {
                    assert forall|h: nat|
                        h <= fuel && #[trigger] target_good(
                            pages@,
                            Target::Page(p),
                            h,
                        ) implies h >= 1 && step_ok(pages@, bs@, (h - 1) as nat, k as int) by {
                        lemma_good_node(pages@, p, h);
                        lemma_kids_each(pages@, bs@, (h - 1) as nat, n as int, k as int);
                    }
                }
                let q = match &bs[k].target {
                    Target::Page(q) => *q,
                    Target::Node(_) => {
                        return None;
                    },
                };
                let c = match check_page(pages, q, fuel - 1) {
                    Some(c) => c,
                    None => {
                        return None;
                    },
                };
                proof {
                    assert forall|h: nat|
                        h <= fuel && #[trigger] target_good(
                            pages@,
                            Target::Page(p),
                            h,
                        ) implies h == c.height + 1 by {
                        lemma_one_height(
                            pages@,
                            bs@[k as int].target,
                            (h - 1) as nat,
                            c.height as nat,
                        );
                    }
                }
                if k == 0 {
                    h0 = c.height;
                } else if c.height != h0 {
                    return None;
                }
                let key = bs[k].key.as_slice();
                let ghost sub = target_tree(pages@, bs@[k as int].target, h0 as nat);
                let ghost before = if k >= 1 {
                    target_tree(pages@, bs@[k - 1].target, h0 as nat)
                } else {
                    sub
                };
                proof {
                    lemma_flat_sorted(sub);
                    lemma_ends_bound(sub.flat(), key@, key@);
                    lemma_sep_lo(sub, key@);
                    if k >= 1 {
                        lemma_kids_each(pages@, bs@, h0 as nat, k as int, k - 1);
                        lemma_flat_sorted(before);
                        lemma_ends_bound(before.flat(), key@, key@);
                        lemma_sep_hi(before, key@);
                    }
                    if k >= 2 {
                        lemma_key_lt_or_ge(bs@[k as int].key@, bs@[k - 1].key@);
                    }
                }
                let in_order = if k >= 2 {
                    match compare(bs[k - 1].key.as_slice(), key) {
                        Rel::After => false,
                        _ => true,
                    }
                } else {
                    true
                };
                let bounded = if k >= 1 {
                    opt_at_least(&c.first, key) && opt_at_least(&c.sep_lo, key) && opt_less_than(
                        &prev.last,
                        key,
                    ) && opt_at_most(&prev.sep_hi, key)
                } else {
                    true
                };
                assert((in_order && bounded) == step_ok(pages@, bs@, h0 as nat, k as int));
                if !(in_order && bounded) {
                    return None;
                }
                proof {
                    lemma_ends_step(links_of(pages@, bs@, h0 as nat), k as int);
                    assert(flat_upto(links_of(pages@, bs@, h0 as nat), 0).len() == 0);
                    assert(kids_good(pages@, bs@, h0 as nat, k as int));
                    assert(kids_good(pages@, bs@, h0 as nat, k + 1));
                }
                if first.is_none() {
                    first = copy_key(&c.first);
                }
                if c.last.is_some() {
                    last = copy_key(&c.last);
                }
                if k == 0 {
                    lo0 = copy_key(&c.sep_lo);
                }
                prev = c;
                k += 1;
            }
            proof {
                lemma_node_good(pages@, p, h0 as nat);
            }
            let second = if n >= 2 {
                Some(copy_bytes(bs[1].key.as_slice()))
            } else {
                None
            };
            let final_key = if n >= 2 {
                Some(copy_bytes(bs[n - 1].key.as_slice()))
            } else {
                None
            };
            let sep_lo = opt_min(lo0, second);
            let sep_hi = opt_max(prev.sep_hi, final_key);
            Some(Span { height: h0 + 1, first, last, sep_lo, sep_hi })
        },
    }
}

/// The header points at a well-formed tree in `pages` that is at most
/// `fuel` levels high.
pub open spec fn rooted_within(pages: Seq<Page>, meta: BucketMeta, fuel: nat) -> bool {
    exists|h: nat| h <= fuel && #[trigger] target_good(pages, Target::Page(meta.root_page), h)
}

/// Every header of a nested bucket that is kept in a leaf page points at a
/// well-formed tree that is at most `fuel` levels high.
pub open spec fn pages_wf_within(pages: Seq<Page>, fuel: nat) -> bool {
    forall|p: int, k: int|
        0 <= p < pages.len() && pages[p].data is Leaf && 0 <= k < pages[p].data->Leaf_0@.len()
            && (#[trigger] pages[p].data->Leaf_0@[k])@ is Bucket ==> rooted_within(
            pages,
            pages[p].data->Leaf_0@[k]@->meta,
            fuel,
        )
}

impl PageStore {
    /// Whether the store is fit to be read under the header `meta`: the
    /// header, and every header of a nested bucket that a leaf page keeps,
    /// points at a well-formed tree, none higher than the store has pages.
    /// A store that passes meets what `Bucket::root` asks of it.
    pub fn check(&self, meta: BucketMeta) -> (r: bool)
        ensures
            r == (rooted_within(self@, meta, self@.len()) && pages_wf_within(
                self@,
                self@.len(),
            )),
            r ==> rooted(self@, meta) && pages_wf(self@),
    {
        let len = self.pages.len();
        match check_page(&self.pages, meta.root_page, len) {
            Some(_) => {},
            None => {
                return false;
            },
        }
        let mut p: usize = 0;
        while p < len
            invariant
                p <= len,
                len == self@.len(),
                rooted_within(self@, meta, len as nat),
                forall|q: int, k: int|
                    0 <= q < p && self@[q].data is Leaf && 0 <= k < self@[q].data->Leaf_0@.len()
                        && (#[trigger] self@[q].data->Leaf_0@[k])@ is Bucket ==> rooted_within(
                        self@,
                        self@[q].data->Leaf_0@[k]@->meta,
                        len as nat,
                    ),
            decreases len - p,
        {
            match &self.pages[p].data {
                NodeData::Leaf(es) => {
                    let mut k: usize = 0;
                    while k < es.len()
                        invariant
                            k <= es@.len(),
                            p < len,
                            len == self@.len(),
                            self@[p as int].data == NodeData::Leaf(*es),
                            forall|j: int|
                                0 <= j < k && (#[trigger] es@[j])@ is Bucket ==> rooted_within(
                                    self@,
                                    es@[j]@->meta,
                                    len as nat,
                                ),
                        decreases es@.len() - k,
                    {
                        match &es[k] {
                            Data::Bucket(b) => {
                                match check_page(&self.pages, b.meta.root_page, len) {
                                    Some(_) => {},
                                    None => {
                                        proof {
                                            assert((self@[p as int].data->Leaf_0@[k as int])@ is Bucket);
                                            assert(!rooted_within(
                                                self@,
                                                self@[p as int].data->Leaf_0@[k as int]@->meta,
                                                len as nat,
                                            ));
                                        }
                                        return false;
                                    },
                                }
                            },
                            Data::KeyValue(_) => {},
                        }
                        k += 1;
                    }
                },
                NodeData::Branches(_) => {},
            }
            p += 1;
        }
        proof {
            assert(pages_wf_within(self@, len as nat));
            assert forall|q: int, k: int|
                0 <= q < self@.len() && self@[q].data is Leaf && 0 <= k
                    < self@[q].data->Leaf_0@.len() && (
                #[trigger] self@[q].data->Leaf_0@[k])@ is Bucket implies rooted(
                self@,
                self@[q].data->Leaf_0@[k]@->meta,
            ) by {
                assert(rooted_within(self@, self@[q].data->Leaf_0@[k]@->meta, len as nat));
            }
        }
        true
    }
}

} // verus!
