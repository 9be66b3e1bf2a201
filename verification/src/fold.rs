//! What follows from the order of a tree when neighbouring children are
//! folded into one, as merging does.

use vstd::prelude::*;
use crate::bytes::{key_le, key_lt, lemma_key_le_transitive, lemma_key_lt_le};
use crate::data::Entry;
use crate::listing::{above, below};
use crate::tree::{
    bounded_hi, bounded_lo, child_hi, child_lo, flat_all, flat_upto, lemma_flat_concat,
    lemma_replaced_flat, lemma_replaced_ordered, lemma_replaced_seps_above,
    lemma_replaced_seps_below, lemma_seps_above_weaken, lemma_seps_below_weaken, lemma_upto_child,
    replaced, seps_above, seps_below, Link, Tree,
};

verus! {

/// Two nodes of one kind made into one: the entries of two leaves one
/// after the other; the children of two branches one after the other, the
/// first child of the second branch filed under `key`.
pub open spec fn join(a: Tree, b: Tree, key: Seq<u8>) -> Tree {
    match (a, b) {
        (Tree::Leaf(x), Tree::Leaf(y)) => Tree::Leaf(x + y),
        (Tree::Branch(x), Tree::Branch(y)) => Tree::Branch(
            x + y.update(0, Link { key, sub: y[0].sub }),
        ),
        _ => a,
    }
}

/// Entries below a key are below every key that is at least that key.
pub proof fn lemma_below_weaken(s: Seq<Entry>, hi: Seq<u8>, higher: Seq<u8>)
    requires
        below(s, hi),
        key_le(hi, higher),
    ensures
        below(s, higher),
{
    assert forall|i: int| 0 <= i < s.len() implies key_lt(#[trigger] s[i].key(), higher) by {
        lemma_key_lt_le(s[i].key(), hi, higher);
    }
}

/// Entries above a key are above every key that is at most that key.
pub proof fn lemma_above_weaken(s: Seq<Entry>, lo: Seq<u8>, lower: Seq<u8>)
    requires
        above(s, lo),
        key_le(lower, lo),
    ensures
        above(s, lower),
{
    assert forall|i: int| 0 <= i < s.len() implies key_le(lower, #[trigger] s[i].key()) by {
        lemma_key_le_transitive(lower, lo, s[i].key());
    }
}

/// Two neighbouring nodes of one kind, the key between them being `key`,
/// make one well-formed node that holds the entries of both.
pub proof fn lemma_join(
    a: Tree,
    b: Tree,
    key: Seq<u8>,
    h: nat,
    lo: Option<Seq<u8>>,
    hi: Option<Seq<u8>>,
)
    requires
        a.ordered(),
        b.ordered(),
        a.shaped(h),
        b.shaped(h),
        bounded_lo(a, lo),
        bounded_hi(a, Some(key)),
        bounded_lo(b, Some(key)),
        bounded_hi(b, hi),
        lo matches Some(l) ==> key_le(l, key),
        hi matches Some(u) ==> key_le(key, u),
    ensures
        join(a, b, key).ordered(),
        join(a, b, key).shaped(h),
        join(a, b, key).flat() == a.flat() + b.flat(),
        bounded_lo(join(a, b, key), lo),
        bounded_hi(join(a, b, key), hi),
{
    let j = join(a, b, key);
    match (a, b) {
        (Tree::Leaf(x), Tree::Leaf(y)) => {
            let s = x + y;
            assert forall|i: int, k: int| 0 <= i < k < s.len() implies key_lt(
                #[trigger] s[i].key(),
                #[trigger] s[k].key(),
            ) by {
                if k < x.len() {
                    assert(s[i] == x[i] && s[k] == x[k]);
                } else if i >= x.len() {
                    assert(s[i] == y[i - x.len()] && s[k] == y[k - x.len()]);
                } else {
                    assert(s[i] == x[i] && s[k] == y[k - x.len()]);
                    lemma_key_lt_le(x[i].key(), key, y[k - x.len()].key());
                }
            }
            if lo is Some {
                lemma_above_weaken(y, key, lo->0);
                assert forall|i: int| 0 <= i < s.len() implies key_le(
                    lo->0,
                    #[trigger] s[i].key(),
                ) by {
                    if i < x.len() {
                        assert(s[i] == x[i]);
                    } else {
                        assert(s[i] == y[i - x.len()]);
                    }
                }
            }
            if hi is Some {
                lemma_below_weaken(x, key, hi->0);
                assert forall|i: int| 0 <= i < s.len() implies key_lt(
                    #[trigger] s[i].key(),
                    hi->0,
                ) by {
                    if i < x.len() {
                        assert(s[i] == x[i]);
                    } else {
                        assert(s[i] == y[i - x.len()]);
                    }
                }
            }
        },
        (Tree::Branch(x), Tree::Branch(y)) => {
            let y2 = y.update(0, Link { key, sub: y[0].sub });
            let s = x + y2;
            let n = x.len() as int;
            assert forall|i: int| 0 <= i < n implies s[i] == x[i] by {}
            assert forall|i: int| n <= i < s.len() implies s[i] == y2[i - n] by {}
            assert forall|i: int| 1 <= i < y.len() implies y2[i] == y[i] by {}
            assert(y2[0].sub == y[0].sub && y2[0].key == key);
            // the entries
            lemma_flat_concat(x, y2, y2.len() as int);
            assert(flat_all(y2) == flat_all(y)) by {
                lemma_same_subs(y2, y, y.len() as int);
            }
            let fa = flat_all(x);
            let fb = flat_all(y);
            assert(j.flat() == fa + fb);
            lemma_upto_child(y, 0, y.len() as int);
            lemma_upto_child(x, n - 1, n);
            let first_b = y[0].sub.flat();
            let last_a = x[n - 1].sub.flat();
            assert(above(first_b, key)) by {
                assert forall|i: int| 0 <= i < first_b.len() implies key_le(
                    key,
                    #[trigger] first_b[i].key(),
                ) by {
                    assert(first_b[i] == fb.subrange(0, first_b.len() as int)[i]);
                    assert(first_b[i] == fb[i]);
                }
            }
            assert(below(last_a, key)) by {
                let off = flat_upto(x, n - 1).len() as int;
                assert forall|i: int| 0 <= i < last_a.len() implies key_lt(
                    #[trigger] last_a[i].key(),
                    key,
                ) by {
                    assert(last_a[i] == fa.subrange(off, off + last_a.len())[i]);
                    assert(last_a[i] == fa[off + i]);
                }
            }
            assert(seps_above(y[0].sub, key));
            assert(seps_below(x[n - 1].sub, key));
            // the order
            assert forall|i: int, k: int| 1 <= i < k < s.len() implies key_le(
                (#[trigger] s[i]).key,
                (#[trigger] s[k]).key,
            ) by {
                if k < n {
                    assert(key_le(x[i].key, x[k].key));
                } else if i >= n {
                    if i > n {
                        assert(key_le(y[i - n].key, y[k - n].key));
                    } else {
                        assert(key_le(key, y[k - n].key));
                    }
                } else {
                    assert(key_le(x[i].key, key));
                    if k > n {
                        assert(key_le(key, y[k - n].key));
                        lemma_key_le_transitive(x[i].key, key, y[k - n].key);
                    }
                }
            }
            assert forall|k: int| 0 <= k < s.len() implies (#[trigger] s[k]).sub.ordered() by {
                if k < n {
                    assert(x[k].sub.ordered());
                } else {
                    assert(y[k - n].sub.ordered());
                }
            }
            assert forall|k: int| 1 <= k < s.len() implies above(
                (#[trigger] s[k]).sub.flat(),
                s[k].key,
            ) && seps_above(s[k].sub, s[k].key) by {
                if k < n {
                    assert(above(x[k].sub.flat(), x[k].key));
                } else if k > n {
                    assert(above(y[k - n].sub.flat(), y[k - n].key));
                }
            }
            assert forall|i: int, k: int| 0 <= i && k == i + 1 && k < s.len() implies below(
                (#[trigger] s[i]).sub.flat(),
                (#[trigger] s[k]).key,
            ) && seps_below(s[i].sub, s[k].key) by {
                if k < n {
                    assert(below(x[i].sub.flat(), x[k].key));
                } else if k > n {
                    assert(below(y[i - n].sub.flat(), y[k - n].key));
                }
            }
            assert forall|k: int| 0 <= k < s.len() implies (#[trigger] s[k]).sub.shaped(
                (h - 1) as nat,
            ) by {
                if k < n {
                    assert(x[k].sub.shaped((h - 1) as nat));
                } else {
                    assert(y[k - n].sub.shaped((h - 1) as nat));
                }
            }
            // the bounds
            if lo is Some {
                let l = lo->0;
                lemma_above_weaken(fb, key, l);
                assert forall|i: int| 0 <= i < j.flat().len() implies key_le(
                    l,
                    #[trigger] j.flat()[i].key(),
                ) by {
                    if i < fa.len() {
                        assert(j.flat()[i] == fa[i]);
                    } else {
                        assert(j.flat()[i] == fb[i - fa.len()]);
                    }
                }
                lemma_seps_above_weaken(b, key, l);
                assert forall|k: int| 0 <= k < s.len() implies (k >= 1 ==> key_le(
                    l,
                    (#[trigger] s[k]).key,
                )) && seps_above(s[k].sub, l) by {
                    if k < n {
                        assert(seps_above(x[k].sub, l));
                    } else {
                        assert(seps_above(y[k - n].sub, l));
                    }
                }
            }
            if hi is Some {
                let u = hi->0;
                lemma_below_weaken(fa, key, u);
                assert forall|i: int| 0 <= i < j.flat().len() implies key_lt(
                    #[trigger] j.flat()[i].key(),
                    u,
                ) by {
                    if i < fa.len() {
                        assert(j.flat()[i] == fa[i]);
                    } else {
                        assert(j.flat()[i] == fb[i - fa.len()]);
                    }
                }
                lemma_seps_below_weaken(a, key, u);
                assert forall|k: int| 0 <= k < s.len() implies (k >= 1 ==> key_le(
                    (#[trigger] s[k]).key,
                    u,
                )) && seps_below(s[k].sub, u) by {
                    if k < n {
                        assert(seps_below(x[k].sub, u));
                    } else {
                        assert(seps_below(y[k - n].sub, u));
                    }
                }
            }
        },
        _ => {},
    }
}

/// The entries under links depend on the trees of the links only, not on
/// the keys they are filed under.
pub proof fn lemma_same_subs(x: Seq<Link>, y: Seq<Link>, k: int)
    requires
        0 <= k <= x.len(),
        k <= y.len(),
        forall|i: int| 0 <= i < k ==> x[i].sub == y[i].sub,
    ensures
        flat_upto(x, k) == flat_upto(y, k),
    decreases k,
{
    if k > 0 {
        lemma_same_subs(x, y, k - 1);
    }
}

/// Some neighbouring children of an ordered branch folded into one child
/// that holds their entries, under the key of the first of them, leave the
/// branch ordered, with the same entries and within the same bounds.
pub proof fn lemma_fold(
    links: Seq<Link>,
    a: int,
    b: int,
    key: Seq<u8>,
    sub: Tree,
    lo: Option<Seq<u8>>,
    hi: Option<Seq<u8>>,
)
    requires
        Tree::Branch(links).ordered(),
        0 <= a < b <= links.len(),
        bounded_lo(Tree::Branch(links), lo),
        bounded_hi(Tree::Branch(links), hi),
        a >= 1 ==> key == links[a].key,
        sub.ordered(),
        sub.flat() == flat_all(links.subrange(a, b)),
        bounded_lo(sub, child_lo(links, a, lo)),
        bounded_hi(sub, child_hi(links, b - 1, hi)),
    ensures
        Tree::Branch(replaced(links, a, b, seq![Link { key, sub }])).ordered(),
        flat_all(replaced(links, a, b, seq![Link { key, sub }])) == flat_all(links),
        bounded_lo(Tree::Branch(replaced(links, a, b, seq![Link { key, sub }])), lo),
        bounded_hi(Tree::Branch(replaced(links, a, b, seq![Link { key, sub }])), hi),
{
    let n = links.len() as int;
    let mid = seq![Link { key, sub }];
    assert(mid[0] == Link { key, sub });
    assert(mid.last() == mid[0]);
    assert(flat_all(mid) == sub.flat()) by {
        assert(flat_upto(mid, 1) == flat_upto(mid, 0) + mid[0].sub.flat());
        assert(flat_all(mid) =~= sub.flat());
    }
    lemma_replaced_flat(links, a, b, mid);
    if b < n {
        assert(b - 1 + 1 == b);
        if a >= 1 {
            assert(key_le(links[a].key, links[b].key));
        }
    }
    lemma_replaced_ordered(links, a, b, mid);
    if lo is Some {
        let l = lo->0;
        if a >= 1 {
            assert(key_le(l, links[a].key));
            lemma_seps_above_weaken(sub, links[a].key, l);
        }
        lemma_replaced_seps_above(links, a, b, mid, l);
    }
    if hi is Some {
        let u = hi->0;
        if b < n {
            assert(key_le(links[b].key, u));
            lemma_seps_below_weaken(sub, links[b].key, u);
        }
        if a >= 1 {
            assert(key_le(links[a].key, u));
        }
        lemma_replaced_seps_below(links, a, b, mid, u);
    }
}

} // verus!
