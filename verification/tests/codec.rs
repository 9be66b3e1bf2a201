use jammdb::data::{BucketData, Data, KVPair};
use jammdb::meta::BucketMeta;
use jammdb::node::{Branch, NodeData, Target};
use jammdb::page::{Page, PageKind};

fn sample_leaf() -> Page {
    Page {
        id: 7,
        data: NodeData::Leaf(vec![
            Data::KeyValue(KVPair::from_slice_parts(b"alpha".to_vec(), b"1".to_vec())),
            Data::Bucket(BucketData::from_meta(
                b"beta".to_vec(),
                &BucketMeta { root_page: 42, next_int: 3 },
            )),
            Data::KeyValue(KVPair::from_slice_parts(b"gamma".to_vec(), Vec::new())),
        ]),
    }
}

fn sample_branch() -> Page {
    Page {
        id: 8,
        data: NodeData::Branches(vec![
            Branch { key: b"a".to_vec(), target: Target::Page(3) },
            Branch { key: b"k".to_vec(), target: Target::Page(u64::MAX) },
        ]),
    }
}

#[test]
fn leaf_page_round_trip() {
    let bytes = sample_leaf().encode().unwrap();
    let back = Page::from_bytes(&bytes).unwrap();
    assert_eq!(back.id, 7);
    assert_eq!(back.kind(), PageKind::Leaf);
    assert_eq!(back.count(), 3);
    match &back.data {
        NodeData::Leaf(es) => {
            assert_eq!(es[0].key(), b"alpha");
            assert_eq!(es[0].value_bytes(), b"1".to_vec());
            match &es[1] {
                Data::Bucket(b) => {
                    assert_eq!(b.name(), b"beta");
                    assert_eq!(b.meta(), BucketMeta { root_page: 42, next_int: 3 });
                }
                Data::KeyValue(_) => panic!("the second entry is a nested bucket"),
            }
            assert_eq!(es[2].key(), b"gamma");
            assert!(es[2].is_kv());
            assert!(es[2].value_bytes().is_empty());
        }
        NodeData::Branches(_) => panic!("a leaf was put in bytes"),
    }
    assert_eq!(back.encode().unwrap(), bytes);
}

#[test]
fn branch_page_round_trip() {
    let bytes = sample_branch().encode().unwrap();
    let back = Page::from_bytes(&bytes).unwrap();
    assert_eq!(back.id, 8);
    assert_eq!(back.kind(), PageKind::Branch);
    match &back.data {
        NodeData::Branches(bs) => {
            assert_eq!(bs.len(), 2);
            assert_eq!(bs[0].key, b"a".to_vec());
            assert!(matches!(bs[0].target, Target::Page(3)));
            assert_eq!(bs[1].key, b"k".to_vec());
            assert!(matches!(bs[1].target, Target::Page(u64::MAX)));
        }
        NodeData::Leaf(_) => panic!("a branch was put in bytes"),
    }
    assert_eq!(back.encode().unwrap(), bytes);
}

#[test]
fn empty_leaf_is_a_header_only() {
    let page = Page { id: 0, data: NodeData::Leaf(Vec::new()) };
    let bytes = page.encode().unwrap();
    assert_eq!(bytes, vec![0, 0, 0, 0, 0, 0, 0, 0, 2, 0, 0, 0, 0, 0, 0, 0]);
    let back = Page::from_bytes(&bytes).unwrap();
    assert_eq!(back.count(), 0);
    assert_eq!(back.kind(), PageKind::Leaf);
}

#[test]
fn bytes_that_are_no_page_are_refused() {
    let good = sample_leaf().encode().unwrap();
    assert!(Page::from_bytes(&[]).is_none());
    assert!(Page::from_bytes(&good[..15]).is_none());
    assert!(Page::from_bytes(&good[..good.len() - 1]).is_none());
    let mut longer = good.clone();
    longer.push(0);
    assert!(Page::from_bytes(&longer).is_none());
    // an unknown page kind
    let mut bad = good.clone();
    bad[8] = 9;
    assert!(Page::from_bytes(&bad).is_none());
    // padding that is not zero
    let mut bad = good.clone();
    bad[10] = 1;
    assert!(Page::from_bytes(&bad).is_none());
    let mut bad = good.clone();
    bad[16 + 15] = 1;
    assert!(Page::from_bytes(&bad).is_none());
    // an unknown entry kind
    let mut bad = good.clone();
    bad[16 + 8] = 2;
    assert!(Page::from_bytes(&bad).is_none());
    // a nested bucket whose header is not sixteen bytes
    let mut bad = good.clone();
    bad[16 + 16 + 4] = 15;
    assert!(Page::from_bytes(&bad).is_none());
    // a count that the bytes do not hold
    let mut bad = good.clone();
    bad[12] = 200;
    assert!(Page::from_bytes(&bad).is_none());
    // a branch slot with padding that is not zero
    let mut bad = sample_branch().encode().unwrap();
    bad[16 + 5] = 1;
    assert!(Page::from_bytes(&bad).is_none());
}

#[test]
fn written_pages_read_back_as_pages() {
    use_store();
}

fn use_store() {
    let mut store = jammdb::page::PageStore::with_page_size(128);
    let mut root = jammdb::bucket::Bucket::root(&store, BucketMeta::default(), true);
    for i in 0..50u8 {
        root.put(&store, &[b'k', i], &[i; 5]).unwrap();
    }
    root.create_bucket(&store, b"nested").unwrap().put(&store, b"x", b"y").unwrap();
    root.rebalance(&mut store).unwrap();
    root.write(&mut store).unwrap();
    for id in 0..store.len() {
        let page = store.page(id as u64);
        let bytes = page.encode().unwrap();
        assert_eq!(bytes.len(), page.data.size());
        let back = Page::from_bytes(&bytes).unwrap();
        assert_eq!(back.id, page.id);
        assert_eq!(back.count(), page.count());
        assert_eq!(back.encode().unwrap(), bytes);
    }
}
