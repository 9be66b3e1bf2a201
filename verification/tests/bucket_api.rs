use jammdb::bucket::Bucket;
use jammdb::data::Data;
use jammdb::errors::Error;
use jammdb::meta::BucketMeta;
use jammdb::page::PageStore;

fn value_of(d: Option<Data>) -> Vec<u8> {
    match d {
        Some(Data::KeyValue(kv)) => kv.value().to_vec(),
        _ => panic!("not a key / value pair"),
    }
}

#[test]
fn put_then_get_returns_the_value() {
    let store = PageStore::new();
    let mut root = Bucket::root(&store, BucketMeta::default(), true);
    assert_eq!(root.put(&store, b"k", b"v"), Ok(()));
    assert_eq!(value_of(root.get(&store, b"k")), b"v".to_vec());
    assert!(root.get(&store, b"other").is_none());
}

#[test]
fn put_twice_counts_the_key_once() {
    let store = PageStore::new();
    let mut root = Bucket::root(&store, BucketMeta::default(), true);
    assert_eq!(root.next_int(), 0);
    root.put(&store, b"k", b"v1").unwrap();
    assert_eq!(root.next_int(), 1);
    root.put(&store, b"k", b"v2").unwrap();
    assert_eq!(root.next_int(), 1);
    assert_eq!(value_of(root.get(&store, b"k")), b"v2".to_vec());
    root.put(&store, b"j", b"v3").unwrap();
    assert_eq!(root.next_int(), 2);
}

#[test]
fn create_bucket_twice_fails() {
    let store = PageStore::new();
    let mut root = Bucket::root(&store, BucketMeta::default(), true);
    assert!(root.create_bucket(&store, b"b").is_ok());
    assert_eq!(root.create_bucket(&store, b"b").err(), Some(Error::BucketExists));
    assert_eq!(root.next_int(), 1);
}

#[test]
fn kinds_do_not_mix() {
    let store = PageStore::new();
    let mut root = Bucket::root(&store, BucketMeta::default(), true);
    root.create_bucket(&store, b"b").unwrap();
    root.put(&store, b"k", b"v").unwrap();
    assert_eq!(root.put(&store, b"b", b"v"), Err(Error::IncompatibleValue));
    assert_eq!(root.create_bucket(&store, b"k").err(), Some(Error::IncompatibleValue));
    assert_eq!(root.get_bucket(&store, b"k").err(), Some(Error::IncompatibleValue));
    assert_eq!(root.get_bucket(&store, b"missing").err(), Some(Error::BucketMissing));
    assert!(root.get_bucket(&store, b"b").is_ok());
}

#[test]
fn delete_reports_what_is_missing() {
    let store = PageStore::new();
    let mut root = Bucket::root(&store, BucketMeta::default(), true);
    root.create_bucket(&store, b"b").unwrap();
    root.put(&store, b"k", b"v").unwrap();
    assert_eq!(root.delete(&store, b"nope").err(), Some(Error::KeyValueMissing));
    assert_eq!(root.delete(&store, b"b").err(), Some(Error::IncompatibleValue));
    let gone = root.delete(&store, b"k").unwrap();
    assert_eq!(value_of(Some(gone)), b"v".to_vec());
    assert!(root.get(&store, b"k").is_none());
    assert_eq!(root.delete(&store, b"k").err(), Some(Error::KeyValueMissing));
    assert_eq!(root.next_int(), 2);
}

#[test]
fn read_only_transaction_refuses_writes() {
    let store = PageStore::new();
    let mut root = Bucket::root(&store, BucketMeta::default(), false);
    assert_eq!(root.put(&store, b"k", b"v"), Err(Error::ReadOnlyTx));
    assert_eq!(root.create_bucket(&store, b"b").err(), Some(Error::ReadOnlyTx));
    assert!(root.get(&store, b"k").is_none());
    assert_eq!(root.next_int(), 0);
}

#[test]
fn nested_bucket_keeps_its_own_entries() {
    let store = PageStore::new();
    let mut root = Bucket::root(&store, BucketMeta::default(), true);
    {
        let b = root.create_bucket(&store, b"b").unwrap();
        b.put(&store, b"a", b"1").unwrap();
        b.put(&store, b"c", b"3").unwrap();
        b.put(&store, b"b", b"2").unwrap();
        assert_eq!(b.next_int(), 3);
    }
    let b = root.get_bucket(&store, b"b").unwrap();
    assert_eq!(value_of(b.get(&store, b"a")), b"1".to_vec());
    assert_eq!(value_of(b.get(&store, b"b")), b"2".to_vec());
    assert_eq!(value_of(b.get(&store, b"c")), b"3".to_vec());
    assert_eq!(root.next_int(), 1);
    assert!(root.get(&store, b"a").is_none());
}
