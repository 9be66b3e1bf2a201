//! Sorted listings: the entries of a bucket in key order, and the map from
//! keys to entries that such a listing stands for.

use vstd::prelude::*;
use crate::bytes::{
    key_le, key_lt, lemma_key_le_lt, lemma_key_lt_asymmetric, lemma_key_lt_irreflexive,
    lemma_key_lt_or_ge,
};
use crate::data::Entry;

verus! {

/// The keys of `s` are strictly ascending, so no key occurs twice.
pub open spec fn sorted(s: Seq<Entry>) -> bool {
    forall|i: int, j: int| 0 <= i < j < s.len() ==> key_lt(#[trigger] s[i].key(), #[trigger] s[j].key())
}

/// Every key of `s` is at least `lo`.
pub open spec fn above(s: Seq<Entry>, lo: Seq<u8>) -> bool {
    forall|i: int| 0 <= i < s.len() ==> key_le(lo, #[trigger] s[i].key())
}

/// Every key of `s` is less than `hi`.
pub open spec fn below(s: Seq<Entry>, hi: Seq<u8>) -> bool {
    forall|i: int| 0 <= i < s.len() ==> key_lt(#[trigger] s[i].key(), hi)
}

/// `p` is where `key` stands in `s`: the entries before `p` have smaller
/// keys, the entries from `p` on have keys that are at least `key`.
pub open spec fn lower_bound(s: Seq<Entry>, key: Seq<u8>, p: int) -> bool {
    &&& 0 <= p <= s.len()
    &&& forall|i: int| 0 <= i < p ==> key_lt(#[trigger] s[i].key(), key)
    &&& forall|i: int| p <= i < s.len() ==> key_le(key, #[trigger] s[i].key())
}

/// Some entry of `s` has the key `key`.
pub open spec fn has_key(s: Seq<Entry>, key: Seq<u8>) -> bool {
    exists|i: int| 0 <= i < s.len() && (#[trigger] s[i]).key() == key
}

/// The index of an entry of `s` with the key `key`.
pub open spec fn index_of(s: Seq<Entry>, key: Seq<u8>) -> int {
    choose|i: int| 0 <= i < s.len() && (#[trigger] s[i]).key() == key
}

/// The map from keys to entries that the listing `s` stands for.
pub open spec fn to_map(s: Seq<Entry>) -> Map<Seq<u8>, Entry> {
    Map::new(|k: Seq<u8>| has_key(s, k), |k: Seq<u8>| s[index_of(s, k)])
}

/// In a sorted listing two entries with the same key are the same entry.
pub proof fn lemma_sorted_unique(s: Seq<Entry>, i: int, j: int)
    requires
        sorted(s),
        0 <= i < s.len(),
        0 <= j < s.len(),
        s[i].key() == s[j].key(),
    ensures
        i == j,
{
    lemma_key_lt_irreflexive(s[i].key());
    if i < j {
        assert(key_lt(s[i].key(), s[j].key()));
    } else if j < i {
        assert(key_lt(s[j].key(), s[i].key()));
    }
}

/// In a sorted listing the map holds each entry under its key.
pub proof fn lemma_to_map_at(s: Seq<Entry>, i: int)
    requires
        sorted(s),
        0 <= i < s.len(),
    ensures
        to_map(s).contains_key(s[i].key()),
        to_map(s)[s[i].key()] == s[i],
{
    let k = s[i].key();
    assert(has_key(s, k));
    lemma_sorted_unique(s, i, index_of(s, k));
}

/// Where a key stands in a sorted listing decides whether the listing has it.
pub proof fn lemma_lower_bound_has_key(s: Seq<Entry>, key: Seq<u8>, p: int)
    requires
        sorted(s),
        lower_bound(s, key, p),
    ensures
        has_key(s, key) <==> (p < s.len() && s[p].key() == key),
        has_key(s, key) ==> index_of(s, key) == p,
{
    if has_key(s, key) {
        let i = index_of(s, key);
        lemma_key_lt_irreflexive(key);
        if i < p {
            assert(key_lt(s[i].key(), key));
        }
        if i > p {
            assert(key_le(key, s[p].key()));
            assert(key_lt(s[p].key(), s[i].key()));
            lemma_key_le_lt(key, s[p].key(), key);
        }
    }
}

/// A key stands at one place only in a sorted listing.
pub proof fn lemma_lower_bound_unique(s: Seq<Entry>, key: Seq<u8>, p: int, q: int)
    requires
        lower_bound(s, key, p),
        lower_bound(s, key, q),
    ensures
        p == q,
{
    if p < q {
        assert(key_lt(s[p].key(), key));
        assert(key_le(key, s[p].key()));
        lemma_key_lt_or_ge(s[p].key(), key);
    } else if q < p {
        assert(key_lt(s[q].key(), key));
        assert(key_le(key, s[q].key()));
        lemma_key_lt_or_ge(s[q].key(), key);
    }
}

/// Putting an entry with a new key where its key stands keeps the listing
/// sorted and adds the entry to the map.
pub proof fn lemma_insert(s: Seq<Entry>, p: int, e: Entry)
    requires
        sorted(s),
        lower_bound(s, e.key(), p),
        !has_key(s, e.key()),
    ensures
        sorted(s.insert(p, e)),
        to_map(s.insert(p, e)) == to_map(s).insert(e.key(), e),
{
    let t = s.insert(p, e);
    assert forall|i: int, j: int| 0 <= i < j < t.len() implies key_lt(
        #[trigger] t[i].key(),
        #[trigger] t[j].key(),
    ) by {
        if j == p {
            assert(t[i] == s[i]);
        } else if i == p {
            assert(t[j] == s[j - 1]);
            assert(key_le(e.key(), s[j - 1].key()));
            assert(!(s[j - 1].key() == e.key()));
        } else {
            let i0 = if i < p { i } else { i - 1 };
            let j0 = if j < p { j } else { j - 1 };
            assert(t[i] == s[i0] && t[j] == s[j0]);
        }
    }
    assert forall|k: Seq<u8>| has_key(t, k) <==> (k == e.key() || has_key(s, k)) by {
        if has_key(t, k) {
            let i = index_of(t, k);
            if i < p {
                assert(t[i] == s[i]);
            } else if i > p {
                assert(t[i] == s[i - 1]);
            }
        }
        if k == e.key() {
            assert(t[p] == e);
        }
        if has_key(s, k) {
            let i = index_of(s, k);
            if i < p {
                assert(t[i] == s[i]);
            } else {
                assert(t[i + 1] == s[i]);
            }
        }
    }
    assert forall|k: Seq<u8>| has_key(t, k) implies #[trigger] to_map(t)[k] == to_map(s).insert(
        e.key(),
        e,
    )[k] by {
        let i = index_of(t, k);
        lemma_to_map_at(t, i);
        if i < p {
            assert(t[i] == s[i]);
            lemma_to_map_at(s, i);
        } else if i > p {
            assert(t[i] == s[i - 1]);
            lemma_to_map_at(s, i - 1);
        }
    }
    assert(to_map(t) =~= to_map(s).insert(e.key(), e));
}

/// Replacing an entry by one with the same key keeps the listing sorted and
/// replaces the entry in the map.
pub proof fn lemma_update(s: Seq<Entry>, p: int, e: Entry)
    requires
        sorted(s),
        0 <= p < s.len(),
        s[p].key() == e.key(),
    ensures
        sorted(s.update(p, e)),
        to_map(s.update(p, e)) == to_map(s).insert(e.key(), e),
{
    let t = s.update(p, e);
    assert forall|i: int, j: int| 0 <= i < j < t.len() implies key_lt(
        #[trigger] t[i].key(),
        #[trigger] t[j].key(),
    ) by {
        assert(t[i].key() == s[i].key());
        assert(t[j].key() == s[j].key());
    }
    assert forall|k: Seq<u8>| has_key(t, k) <==> (k == e.key() || has_key(s, k)) by {
        if has_key(t, k) {
            let i = index_of(t, k);
            assert(t[i].key() == s[i].key());
        }
        if k == e.key() {
            assert(t[p] == e);
        }
        if has_key(s, k) {
            let i = index_of(s, k);
            assert(t[i].key() == s[i].key());
        }
    }
    assert forall|k: Seq<u8>| has_key(t, k) implies #[trigger] to_map(t)[k] == to_map(s).insert(
        e.key(),
        e,
    )[k] by {
        let i = index_of(t, k);
        lemma_to_map_at(t, i);
        if i != p {
            assert(t[i] == s[i]);
            lemma_to_map_at(s, i);
            if k == e.key() {
                lemma_sorted_unique(s, i, p);
            }
        }
    }
    assert(to_map(t) =~= to_map(s).insert(e.key(), e));
}

/// Taking an entry out keeps the listing sorted and takes its key out of
/// the map.
pub proof fn lemma_remove(s: Seq<Entry>, p: int)
    requires
        sorted(s),
        0 <= p < s.len(),
    ensures
        sorted(s.remove(p)),
        to_map(s.remove(p)) == to_map(s).remove(s[p].key()),
{
    let t = s.remove(p);
    assert forall|i: int, j: int| 0 <= i < j < t.len() implies key_lt(
        #[trigger] t[i].key(),
        #[trigger] t[j].key(),
    ) by {
        let i0 = if i < p { i } else { i + 1 };
        let j0 = if j < p { j } else { j + 1 };
        assert(t[i] == s[i0] && t[j] == s[j0]);
    }
    assert forall|k: Seq<u8>| has_key(t, k) <==> (k != s[p].key() && has_key(s, k)) by {
        if has_key(t, k) {
            let i = index_of(t, k);
            let i0 = if i < p { i } else { i + 1 };
            assert(t[i] == s[i0]);
            if k == s[p].key() {
                lemma_sorted_unique(s, i0, p);
            }
        }
        if k != s[p].key() && has_key(s, k) {
            let i = index_of(s, k);
            if i < p {
                assert(t[i] == s[i]);
            } else {
                assert(t[i - 1] == s[i]);
            }
        }
    }
    assert forall|k: Seq<u8>| has_key(t, k) implies #[trigger] to_map(t)[k] == to_map(s).remove(
        s[p].key(),
    )[k] by {
        let i = index_of(t, k);
        lemma_to_map_at(t, i);
        let i0 = if i < p { i } else { i + 1 };
        assert(t[i] == s[i0]);
        lemma_to_map_at(s, i0);
    }
    assert(to_map(t) =~= to_map(s).remove(s[p].key()));
}

/// Two sorted listings that stand for the same map are the same listing.
pub proof fn lemma_sorted_listing_unique(s: Seq<Entry>, t: Seq<Entry>)
    requires
        sorted(s),
        sorted(t),
        to_map(s) == to_map(t),
    ensures
        s == t,
    decreases s.len(),
{
    if s.len() == 0 {
        if t.len() > 0 {
            lemma_to_map_at(t, 0);
            assert(has_key(s, t[0].key()));
        }
        assert(s =~= t);
    } else {
        lemma_to_map_at(s, s.len() - 1);
        let ks = s.last().key();
        assert(has_key(t, ks));
        let j = index_of(t, ks);
        if j < t.len() - 1 {
            // the last key of t is beyond ks, yet s holds no key beyond ks
            lemma_to_map_at(t, t.len() - 1);
            let kt = t.last().key();
            assert(has_key(s, kt));
            let i = index_of(s, kt);
            assert(key_lt(t[j].key(), t[t.len() - 1].key()));
            if i < s.len() - 1 {
                assert(key_lt(s[i].key(), s[s.len() - 1].key()));
                lemma_key_lt_asymmetric(kt, ks);
            } else {
                lemma_key_lt_irreflexive(ks);
            }
        }
        lemma_to_map_at(t, j);
        lemma_remove(s, s.len() - 1);
        lemma_remove(t, t.len() - 1);
        assert(s.remove(s.len() - 1) =~= s.drop_last());
        assert(t.remove(t.len() - 1) =~= t.drop_last());
        lemma_sorted_listing_unique(s.drop_last(), t.drop_last());
        assert(s =~= s.drop_last().push(s.last()));
        assert(t =~= t.drop_last().push(t.last()));
    }
}

/// The map of a sorted listing holds each entry under its key, and nothing
/// else.
pub proof fn lemma_flat_map(s: Seq<Entry>)
    requires
        sorted(s),
    ensures
        forall|i: int|
            0 <= i < s.len() ==> to_map(s).contains_key(#[trigger] s[i].key()) && to_map(
                s,
            )[s[i].key()] == s[i],
        forall|k: Seq<u8>| #[trigger] to_map(s).contains_key(k) ==> has_key(s, k),
        forall|k: Seq<u8>|
            #[trigger] to_map(s).contains_key(k) ==> 0 <= index_of(s, k) < s.len() && to_map(s)[k]
                == s[index_of(s, k)],
{
    assert forall|i: int| 0 <= i < s.len() implies to_map(s).contains_key(#[trigger] s[i].key())
        && to_map(s)[s[i].key()] == s[i] by {
        lemma_to_map_at(s, i);
    }
}

} // verus!
