use jammdb::bucket::Bucket;
use jammdb::check::check_page;
use jammdb::data::{BucketData, Data, KVPair};
use jammdb::meta::BucketMeta;
use jammdb::node::{Branch, NodeData, Target};
use jammdb::page::{Page, PageStore};

fn pair(k: &[u8]) -> Data {
    Data::KeyValue(KVPair::from_slice_parts(k.to_vec(), b"v".to_vec()))
}

fn leaf(id: u64, keys: &[&[u8]]) -> Page {
    Page { id, data: NodeData::Leaf(keys.iter().map(|k| pair(k)).collect()) }
}

fn branch(id: u64, kids: &[(&[u8], u64)]) -> Page {
    Page {
        id,
        data: NodeData::Branches(
            kids.iter().map(|(k, p)| Branch { key: k.to_vec(), target: Target::Page(*p) }).collect(),
        ),
    }
}

fn store_of(pages: Vec<Page>) -> PageStore {
    let committed = pages.len();
    PageStore { pages, committed, freed: Vec::new(), page_size: 4096 }
}

fn zero() -> BucketMeta {
    BucketMeta { root_page: 0, next_int: 0 }
}

#[test]
fn a_new_store_passes() {
    assert!(PageStore::new().check(zero()));
    assert!(!PageStore::new().check(BucketMeta { root_page: 1, next_int: 0 }));
}

#[test]
fn a_committed_store_passes() {
    let mut store = PageStore::with_page_size(128);
    let mut root = Bucket::root(&store, zero(), true);
    for i in 0..200u8 {
        root.put(&store, &[b'k', i], &[i; 4]).unwrap();
    }
    root.create_bucket(&store, b"nested").unwrap().put(&store, b"a", b"b").unwrap();
    let meta = root.rebalance(&mut store).unwrap();
    root.write(&mut store).unwrap();
    assert!(store.check(meta));
    assert!(store.check(zero()));
}

#[test]
fn a_tree_spans_its_keys() {
    let store = store_of(vec![
        branch(0, &[(b"", 1), (b"m", 2)]),
        leaf(1, &[b"a", b"c"]),
        leaf(2, &[b"m", b"x"]),
    ]);
    let s = check_page(&store.pages, 0, 3).unwrap();
    assert_eq!(s.height, 1);
    assert_eq!(s.first, Some(b"a".to_vec()));
    assert_eq!(s.last, Some(b"x".to_vec()));
    assert_eq!(s.sep_lo, Some(b"m".to_vec()));
    assert_eq!(s.sep_hi, Some(b"m".to_vec()));
    assert!(store.check(zero()));
    // not within a height of 0
    assert!(check_page(&store.pages, 0, 0).is_none());
}

#[test]
fn trees_that_are_not_well_formed_are_refused() {
    // a leaf that is not sorted
    assert!(!store_of(vec![leaf(0, &[b"b", b"a"])]).check(zero()));
    assert!(!store_of(vec![leaf(0, &[b"a", b"a"])]).check(zero()));
    // a branch with no child
    assert!(!store_of(vec![branch(0, &[])]).check(zero()));
    // a child that is not in the store
    assert!(!store_of(vec![branch(0, &[(b"", 7)])]).check(zero()));
    // a page that points at itself
    assert!(!store_of(vec![branch(0, &[(b"", 0)])]).check(zero()));
    // leaves at different depths
    assert!(!store_of(vec![
        branch(0, &[(b"", 1), (b"m", 2)]),
        leaf(1, &[b"a"]),
        branch(2, &[(b"", 1)]),
    ])
    .check(zero()));
    // a key under the wrong child
    assert!(!store_of(vec![
        branch(0, &[(b"", 1), (b"m", 2)]),
        leaf(1, &[b"a", b"n"]),
        leaf(2, &[b"x"]),
    ])
    .check(zero()));
    assert!(!store_of(vec![
        branch(0, &[(b"", 1), (b"m", 2)]),
        leaf(1, &[b"a"]),
        leaf(2, &[b"c"]),
    ])
    .check(zero()));
    // filing keys that do not ascend
    assert!(!store_of(vec![
        branch(0, &[(b"", 1), (b"m", 1), (b"c", 1)]),
        leaf(1, &[]),
    ])
    .check(zero()));
    // a node where a page must stand
    let staged = Page {
        id: 0,
        data: NodeData::Branches(vec![Branch {
            key: Vec::new(),
            target: Target::Node(jammdb::node::Node::new(true)),
        }]),
    };
    assert!(!store_of(vec![staged]).check(zero()));
}

#[test]
fn headers_in_leaves_are_checked() {
    let good = Data::Bucket(BucketData::from_meta(
        b"n".to_vec(),
        &BucketMeta { root_page: 1, next_int: 0 },
    ));
    let bad = Data::Bucket(BucketData::from_meta(
        b"n".to_vec(),
        &BucketMeta { root_page: 9, next_int: 0 },
    ));
    let ok = store_of(vec![Page { id: 0, data: NodeData::Leaf(vec![good]) }, leaf(1, &[b"a"])]);
    assert!(ok.check(zero()));
    let broken =
        store_of(vec![Page { id: 0, data: NodeData::Leaf(vec![bad]) }, leaf(1, &[b"a"])]);
    assert!(!broken.check(zero()));
    // the header is checked even where no tree reaches the leaf
    assert!(!broken.check(BucketMeta { root_page: 1, next_int: 0 }));
}
