//! What follows from the contracts of the bucket operations when several
//! of them are called in a row.  Each law is stated over the map from keys
//! to entries that a bucket stands for, as the operations' own contracts are.

use vstd::prelude::*;
use crate::bucket::{
    bucket_error, create_error, delete_error, delete_map, new_bucket_entry, put_counter, put_map,
    put_result,
};
use crate::data::Entry;
use crate::errors::Error;
use crate::listing::{has_key, lemma_flat_map, lemma_sorted_listing_unique, sorted, to_map};
use crate::bytes::key_lt;

verus! {

/// After a `put` that succeeds, the bucket holds the value under the key,
/// whatever it held before, and every other key is as it was.
pub proof fn law_put_then_get(map: Map<Seq<u8>, Entry>, key: Seq<u8>, value: Seq<u8>)
    requires
        put_result(true, map, key) is Ok,
    ensures
        put_map(true, map, key, value).contains_key(key),
        put_map(true, map, key, value)[key] == (Entry::KeyValue { key, value }),
        forall|other: Seq<u8>|
            other != key ==> put_map(true, map, key, value).contains_key(other)
                == map.contains_key(other),
        forall|other: Seq<u8>|
            other != key && map.contains_key(other) ==> put_map(true, map, key, value)[other]
                == map[other],
{
}

/// A key that the bucket has never seen makes the counter go up by
/// exactly one; putting the key again succeeds and leaves the counter alone.
pub proof fn law_put_counts_new_keys_once(
    map: Map<Seq<u8>, Entry>,
    key: Seq<u8>,
    first: Seq<u8>,
    second: Seq<u8>,
    counter: u64,
)
    requires
        put_result(true, map, key) is Ok,
        counter < u64::MAX,
    ensures
        !map.contains_key(key) ==> put_counter(true, map, key, counter) == counter + 1,
        map.contains_key(key) ==> put_counter(true, map, key, counter) == counter,
        put_result(true, put_map(true, map, key, first), key) is Ok,
        put_counter(
            true,
            put_map(true, map, key, first),
            key,
            put_counter(true, map, key, counter) as u64,
        ) == put_counter(true, map, key, counter),
        put_map(true, put_map(true, map, key, first), key, second)[key] == (Entry::KeyValue {
            key,
            value: second,
        }),
{
}

/// A write through a transaction that is not writable changes nothing.
pub proof fn law_read_only(map: Map<Seq<u8>, Entry>, key: Seq<u8>, value: Seq<u8>, counter: u64)
    ensures
        put_result(false, map, key) == Err::<(), Error>(Error::ReadOnlyTx),
        put_map(false, map, key, value) == map,
        put_counter(false, map, key, counter) == counter,
        create_error(false, map, key) == Some(Error::ReadOnlyTx),
{
}

/// Creating a bucket under a name that was just given to a new bucket
/// fails with `BucketExists`.
pub proof fn law_create_twice(map: Map<Seq<u8>, Entry>, name: Seq<u8>)
    requires
        create_error(true, map, name) is None,
    ensures
        create_error(true, map.insert(name, new_bucket_entry(name)), name) == Some(
            Error::BucketExists,
        ),
        bucket_error(map.insert(name, new_bucket_entry(name)), name) is None,
{
}

/// The two kinds of entry do not replace each other: a `put` under the
/// name of a nested bucket and a `create_bucket` under the key of a key /
/// value pair both fail with `IncompatibleValue`, and so does `get_bucket`
/// under the key of a pair.
pub proof fn law_kinds_do_not_mix(map: Map<Seq<u8>, Entry>, name: Seq<u8>)
    requires
        map.contains_key(name),
    ensures
        map[name] is Bucket ==> put_result(true, map, name) == Err::<(), Error>(
            Error::IncompatibleValue,
        ),
        map[name] is KeyValue ==> create_error(true, map, name) == Some(Error::IncompatibleValue),
        map[name] is KeyValue ==> bucket_error(map, name) == Some(Error::IncompatibleValue),
{
}

/// After a bucket was created under a name, a `put` under that name fails
/// with `IncompatibleValue`; after a pair was put under a key, a
/// `create_bucket` under that key fails with `IncompatibleValue`.
pub proof fn law_kinds_after_write(map: Map<Seq<u8>, Entry>, name: Seq<u8>, value: Seq<u8>)
    ensures
        create_error(true, map, name) is None ==> put_result(
            true,
            map.insert(name, new_bucket_entry(name)),
            name,
        ) == Err::<(), Error>(Error::IncompatibleValue),
        put_result(true, map, name) is Ok ==> create_error(
            true,
            put_map(true, map, name, value),
            name,
        ) == Some(Error::IncompatibleValue),
{
}

/// `delete` fails with `KeyValueMissing` under a key that the bucket does
/// not hold, and with `IncompatibleValue` under the name of a nested
/// bucket; either way the bucket is left as it was.  A key that was
/// deleted is missing afterwards.
pub proof fn law_delete(map: Map<Seq<u8>, Entry>, key: Seq<u8>)
    ensures
        !map.contains_key(key) ==> delete_error(map, key) == Some(Error::KeyValueMissing),
        map.contains_key(key) && map[key] is Bucket ==> delete_error(map, key) == Some(
            Error::IncompatibleValue,
        ),
        delete_error(map, key) is Some ==> delete_map(map, key) == map,
        delete_error(map, key) is None ==> delete_error(delete_map(map, key), key) == Some(
            Error::KeyValueMissing,
        ),
{
}

/// A listing in key order gives every key of its map once, in strictly
/// ascending order, and is the only listing in key order of that map.
pub proof fn law_listing(s: Seq<Entry>, t: Seq<Entry>)
    requires
        sorted(s),
    ensures
        forall|i: int, j: int|
            0 <= i < j < s.len() ==> key_lt(#[trigger] s[i].key(), #[trigger] s[j].key()) && s[i].key()
                != s[j].key(),
        forall|i: int|
            0 <= i < s.len() ==> to_map(s).contains_key(#[trigger] s[i].key()) && to_map(
                s,
            )[s[i].key()] == s[i],
        forall|k: Seq<u8>| #[trigger] to_map(s).contains_key(k) ==> has_key(s, k),
        sorted(t) && to_map(t) == to_map(s) ==> t == s,
{
    lemma_flat_map(s);
    assert forall|i: int, j: int| 0 <= i < j < s.len() implies key_lt(
        #[trigger] s[i].key(),
        #[trigger] s[j].key(),
    ) && s[i].key() != s[j].key() by {
        crate::bytes::lemma_key_lt_asymmetric(s[i].key(), s[j].key());
    }
    if sorted(t) && to_map(t) == to_map(s) {
        lemma_sorted_listing_unique(t, s);
    }
}

} // verus!
