use jammdb::bucket::Bucket;
use jammdb::data::Data;
use jammdb::errors::Error;
use jammdb::meta::BucketMeta;
use jammdb::node::{NodeData, Target};
use jammdb::page::{PageKind, PageStore};

fn key(i: u32) -> Vec<u8> {
    format!("key-{:05}", i).into_bytes()
}

fn val(i: u32) -> Vec<u8> {
    format!("value-{}", i).into_bytes()
}

fn keys_of(list: &Vec<Data>) -> Vec<Vec<u8>> {
    list.iter().map(|d| d.key().to_vec()).collect()
}

/// The number of levels above the leaves, measured by a descent.
fn height(b: &Bucket, store: &PageStore) -> usize {
    let mut c = b.cursor(store);
    c.seek(b"");
    c.stack.len() - 1
}

#[test]
fn cursor_yields_entries_in_key_order() {
    let store = PageStore::new();
    let mut root = Bucket::root(&store, BucketMeta::default(), true);
    let b = root.create_bucket(&store, b"b").unwrap();
    b.put(&store, b"a", b"1").unwrap();
    b.put(&store, b"c", b"3").unwrap();
    b.put(&store, b"b", b"2").unwrap();
    let mut seen: Vec<(Vec<u8>, Vec<u8>)> = Vec::new();
    let mut c = b.cursor(&store);
    loop {
        match c.next() {
            Some(Data::KeyValue(kv)) => seen.push((kv.key().to_vec(), kv.value().to_vec())),
            Some(Data::Bucket(_)) => panic!("no nested bucket was created here"),
            None => break,
        }
    }
    assert_eq!(
        seen,
        vec![
            (b"a".to_vec(), b"1".to_vec()),
            (b"b".to_vec(), b"2".to_vec()),
            (b"c".to_vec(), b"3".to_vec()),
        ]
    );
    assert!(c.next().is_none());
    assert_eq!(b.next_int(), 3);
}

#[test]
fn cursor_on_an_empty_bucket_is_at_the_end() {
    let store = PageStore::new();
    let root = Bucket::root(&store, BucketMeta::default(), true);
    let mut c = root.cursor(&store);
    assert!(c.next().is_none());
    assert!(root.cursor(&store).collect().is_empty());
}

#[test]
fn cursor_after_seek_starts_at_the_key_or_after_it() {
    let store = PageStore::new();
    let mut root = Bucket::root(&store, BucketMeta::default(), true);
    for k in [&b"b"[..], &b"d"[..], &b"f"[..]] {
        root.put(&store, k, b"x").unwrap();
    }
    let mut c = root.cursor(&store);
    assert!(c.seek(b"d"));
    assert_eq!(keys_of(&c.collect()), vec![b"d".to_vec(), b"f".to_vec()]);
    let mut c = root.cursor(&store);
    assert!(!c.seek(b"c"));
    assert_eq!(keys_of(&c.collect()), vec![b"d".to_vec(), b"f".to_vec()]);
    let mut c = root.cursor(&store);
    assert!(!c.seek(b"g"));
    assert!(c.collect().is_empty());
}

#[test]
fn many_keys_split_pages_and_come_back_in_order() {
    let mut store = PageStore::with_page_size(256);
    let mut root = Bucket::root(&store, BucketMeta::default(), true);
    let n: u32 = 600;
    // put the keys in an order that is not the key order
    for i in 0..n {
        let k = (i * 7919) % n;
        assert_eq!(root.put(&store, &key(k), &val(k)), Ok(()));
    }
    assert_eq!(root.next_int(), n as u64);
    let expected: Vec<Vec<u8>> = (0..n).map(key).collect();
    assert_eq!(keys_of(&root.cursor(&store).collect()), expected);

    let pages_before = store.len();
    let meta = root.rebalance(&mut store).unwrap();
    assert!(store.len() > pages_before + 2, "the tree was split into pages");
    assert_eq!(store.committed, 1, "nothing is durable before write");
    assert!(height(&root, &store) >= 2);
    assert_eq!(keys_of(&root.cursor(&store).collect()), expected);
    // every page that was laid out fits, or holds too few items to be cut
    for p in pages_before..store.len() {
        let page = store.page(p as u64);
        assert_eq!(page.id, p as u64);
        let few = match page.kind() {
            PageKind::Leaf => 1,
            PageKind::Branch => 2,
        };
        assert!(page.data.size() <= 256 || page.count() <= few);
    }

    assert_eq!(root.write(&mut store), Ok(()));
    assert_eq!(store.committed, store.len());
    assert_eq!(keys_of(&root.cursor(&store).collect()), expected);

    // a new transaction reads the same entries from the pages
    let again = Bucket::root(&store, meta, false);
    assert_eq!(again.next_int(), n as u64);
    let list = again.cursor(&store).collect();
    assert_eq!(keys_of(&list), expected);
    for (i, d) in list.iter().enumerate() {
        match d {
            Data::KeyValue(kv) => assert_eq!(kv.value().to_vec(), val(i as u32)),
            Data::Bucket(_) => panic!("a pair was put"),
        }
    }
    match again.get(&store, &key(123)) {
        Some(Data::KeyValue(kv)) => assert_eq!(kv.value().to_vec(), val(123)),
        _ => panic!("the key is in the bucket"),
    }
}

#[test]
fn rebalance_of_an_untouched_bucket_changes_nothing() {
    let mut store = PageStore::new();
    let mut root = Bucket::root(&store, BucketMeta::default(), true);
    let meta = root.rebalance(&mut store).unwrap();
    assert_eq!(meta, BucketMeta::default());
    assert_eq!(store.len(), 1);
}

#[test]
fn nested_buckets_survive_a_commit() {
    let mut store = PageStore::with_page_size(256);
    let mut root = Bucket::root(&store, BucketMeta::default(), true);
    root.put(&store, b"plain", b"pair").unwrap();
    {
        let outer = root.create_bucket(&store, b"outer").unwrap();
        for i in 0..100 {
            outer.put(&store, &key(i), &val(i)).unwrap();
        }
        let inner = outer.create_bucket(&store, b"inner").unwrap();
        inner.put(&store, b"deep", b"down").unwrap();
    }
    let meta = root.rebalance(&mut store).unwrap();
    root.write(&mut store).unwrap();
    assert_eq!(meta.next_int, 2);

    let mut again = Bucket::root(&store, meta, true);
    assert_eq!(
        keys_of(&again.cursor(&store).collect()),
        vec![b"outer".to_vec(), b"plain".to_vec()]
    );
    let outer = again.get_bucket(&store, b"outer").unwrap();
    assert_eq!(outer.next_int(), 101);
    let list = outer.cursor(&store).collect();
    assert_eq!(list.len(), 101);
    let inner = outer.get_bucket(&store, b"inner").unwrap();
    assert_eq!(inner.next_int(), 1);
    match inner.get(&store, b"deep") {
        Some(Data::KeyValue(kv)) => assert_eq!(kv.value(), b"down"),
        _ => panic!("the key is in the nested bucket"),
    }
    assert_eq!(again.get_bucket(&store, b"plain").err(), Some(Error::IncompatibleValue));
}

#[test]
fn a_write_under_a_clean_bucket_reaches_the_pages() {
    let mut store = PageStore::new();
    let mut root = Bucket::root(&store, BucketMeta::default(), true);
    root.create_bucket(&store, b"a").unwrap().create_bucket(&store, b"b").unwrap();
    let meta = root.rebalance(&mut store).unwrap();
    root.write(&mut store).unwrap();

    // only the innermost bucket is written to in the second transaction
    let mut second = Bucket::root(&store, meta, true);
    second
        .get_bucket(&store, b"a")
        .unwrap()
        .get_bucket(&store, b"b")
        .unwrap()
        .put(&store, b"k", b"v")
        .unwrap();
    let meta = second.rebalance(&mut store).unwrap();
    second.write(&mut store).unwrap();

    let mut third = Bucket::root(&store, meta, false);
    let b = third.get_bucket(&store, b"a").unwrap().get_bucket(&store, b"b").unwrap();
    match b.get(&store, b"k") {
        Some(Data::KeyValue(kv)) => assert_eq!(kv.value(), b"v"),
        _ => panic!("the key was put in the second transaction"),
    }
}

#[test]
fn deleting_all_but_one_leaf_collapses_the_root() {
    let mut store = PageStore::with_page_size(256);
    let mut root = Bucket::root(&store, BucketMeta::default(), true);
    let n: u32 = 40;
    for i in 0..n {
        root.put(&store, &key(i), &val(i)).unwrap();
    }
    let meta = root.rebalance(&mut store).unwrap();
    root.write(&mut store).unwrap();

    let mut second = Bucket::root(&store, meta, true);
    assert_eq!(height(&second, &store), 1);
    // the root is a branch page; keep the keys under its last child
    let (survivor, children) = match &store.page(meta.root_page).data {
        NodeData::Branches(bs) => match &bs[bs.len() - 1].target {
            Target::Page(p) => (*p, bs.len()),
            Target::Node(_) => panic!("a page points at pages"),
        },
        NodeData::Leaf(_) => panic!("forty keys do not go on one page"),
    };
    assert!(children >= 2);
    let mut kept: Vec<Vec<u8>> = Vec::new();
    for i in 0..n {
        let under_last = {
            let mut c = second.cursor(&store);
            assert!(c.seek(&key(i)));
            c.stack[0].index == children - 1
        };
        if under_last {
            kept.push(key(i));
        } else {
            second.delete(&store, &key(i)).unwrap();
        }
    }
    assert!(!kept.is_empty());
    let after = second.rebalance(&mut store).unwrap();
    assert_eq!(after.root_page, survivor);
    assert_eq!(height(&second, &store), 0);
    assert_eq!(keys_of(&second.cursor(&store).collect()), kept);
    assert!(store.freed.contains(&meta.root_page));
    assert_eq!(after.next_int, n as u64);
}

#[test]
fn nearly_empty_leaves_are_folded_together() {
    let mut store = PageStore::with_page_size(256);
    let mut root = Bucket::root(&store, BucketMeta::default(), true);
    let n: u32 = 200;
    for i in 0..n {
        root.put(&store, &key(i), &val(i)).unwrap();
    }
    let meta = root.rebalance(&mut store).unwrap();
    root.write(&mut store).unwrap();
    let full = store.len();

    let mut second = Bucket::root(&store, meta, true);
    // leave every tenth key
    for i in 0..n {
        if i % 10 != 0 {
            second.delete(&store, &key(i)).unwrap();
        }
    }
    let expected: Vec<Vec<u8>> = (0..n).filter(|i| i % 10 == 0).map(key).collect();
    let meta = second.rebalance(&mut store).unwrap();
    second.write(&mut store).unwrap();
    let third = Bucket::root(&store, meta, false);
    assert_eq!(keys_of(&third.cursor(&store).collect()), expected);
    // twenty short pairs go on far fewer pages than two hundred did
    assert!(store.len() - full < full / 2);
    assert!(!store.freed.is_empty());
}

#[test]
fn print_gives_the_header_of_the_root_page() {
    let mut store = PageStore::new();
    let mut root = Bucket::root(&store, BucketMeta::default(), true);
    let h = root.print(&store).unwrap();
    assert_eq!((h.id, h.kind, h.count), (0, PageKind::Leaf, 0));
    root.put(&store, b"a", b"1").unwrap();
    root.put(&store, b"b", b"2").unwrap();
    let meta = root.rebalance(&mut store).unwrap();
    let h = root.print(&store).unwrap();
    assert_eq!((h.id, h.kind, h.count), (meta.root_page, PageKind::Leaf, 2));
}

#[test]
fn a_large_entry_gets_a_page_of_its_own() {
    let mut store = PageStore::with_page_size(128);
    let mut root = Bucket::root(&store, BucketMeta::default(), true);
    let big = vec![7u8; 1000];
    root.put(&store, b"a", &big).unwrap();
    root.put(&store, b"b", &big).unwrap();
    root.put(&store, b"c", b"small").unwrap();
    let meta = root.rebalance(&mut store).unwrap();
    root.write(&mut store).unwrap();
    let again = Bucket::root(&store, meta, false);
    match again.get(&store, b"b") {
        Some(Data::KeyValue(kv)) => assert_eq!(kv.value().to_vec(), big),
        _ => panic!("the key is in the bucket"),
    }
    assert_eq!(keys_of(&again.cursor(&store).collect()).len(), 3);
}

#[test]
fn a_full_counter_shuts_out_new_keys_only() {
    let mut store = PageStore::new();
    let mut root = Bucket::root(&store, BucketMeta::default(), true);
    root.put(&store, b"k", b"v").unwrap();
    root.create_bucket(&store, b"b").unwrap();
    let meta = root.rebalance(&mut store).unwrap();
    root.write(&mut store).unwrap();

    let full = BucketMeta { root_page: meta.root_page, next_int: u64::MAX };
    let mut second = Bucket::root(&store, full, true);
    assert_eq!(second.put(&store, b"k", b"w"), Ok(()));
    assert_eq!(second.next_int(), u64::MAX);
    assert_eq!(second.put(&store, b"b", b"w"), Err(Error::IncompatibleValue));
    assert_eq!(second.create_bucket(&store, b"b").err(), Some(Error::BucketExists));
    assert_eq!(second.create_bucket(&store, b"k").err(), Some(Error::IncompatibleValue));
    assert_eq!(second.next_int(), u64::MAX);

    let mut third = Bucket::root(&store, full, false);
    assert!(!third.writable());
    assert_eq!(third.put(&store, b"new", b"w"), Err(Error::ReadOnlyTx));
    assert_eq!(third.create_bucket(&store, b"new").err(), Some(Error::ReadOnlyTx));
    assert_eq!(third.next_int(), u64::MAX);
}

#[test]
fn a_dirty_nested_bucket_makes_its_parents_commit() {
    let mut store = PageStore::new();
    let mut root = Bucket::root(&store, BucketMeta::default(), true);
    root.create_bucket(&store, b"a").unwrap();
    let meta = root.rebalance(&mut store).unwrap();
    root.write(&mut store).unwrap();
    let pages = store.len();

    // nothing written: nothing laid out
    let mut second = Bucket::root(&store, meta, true);
    second.get_bucket(&store, b"a").unwrap();
    assert_eq!(second.rebalance(&mut store).unwrap(), meta);
    assert_eq!(store.len(), pages);

    // a write to the nested bucket only: one page for its leaf, one for the root
    let mut third = Bucket::root(&store, meta, true);
    third.get_bucket(&store, b"a").unwrap().put(&store, b"k", b"v").unwrap();
    let after = third.rebalance(&mut store).unwrap();
    assert_eq!(store.len(), pages + 2);
    assert_eq!(after.root_page, (store.len() - 1) as u64);
    assert_eq!(after.next_int, meta.next_int);
}

#[test]
fn a_root_that_is_split_grows_one_level_at_a_time() {
    let mut store = PageStore::with_page_size(256);
    let mut root = Bucket::root(&store, BucketMeta::default(), true);
    for i in 0..8 {
        root.put(&store, &key(i), &val(i)).unwrap();
    }
    assert_eq!(height(&root, &store), 0);
    let before = store.len();
    let meta = root.rebalance(&mut store).unwrap();
    assert_eq!(height(&root, &store), 1);
    // the root is the last page laid out, above the leaves
    assert_eq!(meta.root_page, (store.len() - 1) as u64);
    assert_eq!(store.page(meta.root_page).kind(), PageKind::Branch);
    assert_eq!(store.page(meta.root_page).count(), store.len() - before - 1);
}
