use jammdb::bytes::{compare, copy_bytes, Rel};
use jammdb::data::{BucketData, Data, KVPair};
use jammdb::meta::{BucketMeta, META_SIZE};
use jammdb::node::{search_leaf, Branch, Node, NodeData, Target};
use jammdb::page::Page;

#[test]
fn keys_compare_byte_by_byte() {
    assert_eq!(compare(b"", b""), Rel::Same);
    assert_eq!(compare(b"", b"a"), Rel::Before);
    assert_eq!(compare(b"a", b""), Rel::After);
    assert_eq!(compare(b"abc", b"abd"), Rel::Before);
    assert_eq!(compare(b"abc", b"ab"), Rel::After);
    assert_eq!(compare(b"ab", b"abc"), Rel::Before);
    assert_eq!(compare(&[0xff], &[0x00, 0x01]), Rel::After);
    assert_eq!(compare(b"same", b"same"), Rel::Same);
}

#[test]
fn copy_bytes_copies() {
    assert_eq!(copy_bytes(b"hello"), b"hello".to_vec());
    assert!(copy_bytes(b"").is_empty());
}

#[test]
fn header_round_trip() {
    for (r, i) in [(0u64, 0u64), (1, 2), (u64::MAX, 7), (0x0102030405060708, u64::MAX)] {
        let m = BucketMeta { root_page: r, next_int: i };
        let bytes = m.to_bytes();
        assert_eq!(bytes.len(), META_SIZE);
        assert_eq!(BucketMeta::from_bytes(&bytes), Some(m));
    }
}

#[test]
fn header_is_little_endian() {
    let m = BucketMeta { root_page: 0x0102030405060708, next_int: 3 };
    assert_eq!(
        m.to_bytes(),
        vec![8, 7, 6, 5, 4, 3, 2, 1, 3, 0, 0, 0, 0, 0, 0, 0]
    );
}

#[test]
fn header_needs_sixteen_bytes() {
    assert_eq!(BucketMeta::from_bytes(&[0u8; 15]), None);
    assert_eq!(BucketMeta::from_bytes(&[0u8; 17]), None);
    assert_eq!(BucketMeta::from_bytes(&[]), None);
    assert_eq!(
        BucketMeta::from_bytes(&[0u8; 16]),
        Some(BucketMeta { root_page: 0, next_int: 0 })
    );
}

#[test]
fn default_header_is_zero() {
    assert_eq!(BucketMeta::default(), BucketMeta { root_page: 0, next_int: 0 });
}

#[test]
fn bucket_entry_from_bytes() {
    let m = BucketMeta { root_page: 9, next_int: 4 };
    let b = BucketData::from_slice_parts(b"n".to_vec(), &m.to_bytes()).unwrap();
    assert_eq!(b.name(), b"n");
    assert_eq!(b.meta(), m);
    assert!(BucketData::from_slice_parts(b"n".to_vec(), &[1, 2, 3]).is_none());
    let d = Data::Bucket(b);
    assert!(!d.is_kv());
    assert_eq!(d.key(), b"n");
    assert_eq!(d.value_bytes(), m.to_bytes());
    assert_eq!(d.size(), 16 + 1 + 16);
}

#[test]
fn pair_entry() {
    let d = Data::KeyValue(KVPair::from_slice_parts(b"key".to_vec(), b"value".to_vec()));
    assert!(d.is_kv());
    assert_eq!(d.key(), b"key");
    assert_eq!(d.value_bytes(), b"value".to_vec());
    assert_eq!(d.size(), 16 + 3 + 5);
    let c = d.copy();
    assert_eq!(c.key(), b"key");
}

fn pair(k: &[u8], v: &[u8]) -> Data {
    Data::KeyValue(KVPair::from_slice_parts(k.to_vec(), v.to_vec()))
}

fn leaf_keys(n: &Node) -> Vec<Vec<u8>> {
    match &n.data {
        NodeData::Leaf(es) => es.iter().map(|d| d.key().to_vec()).collect(),
        NodeData::Branches(_) => panic!("a leaf was made"),
    }
}

#[test]
fn leaf_node_keeps_its_entries_sorted() {
    let mut n = Node::new(true);
    assert!(n.leaf());
    assert!(n.page_id.is_none());
    n.insert_data(pair(b"m", b"1"));
    n.insert_data(pair(b"a", b"2"));
    n.insert_data(pair(b"z", b"3"));
    n.insert_data(pair(b"m", b"4"));
    assert_eq!(leaf_keys(&n), vec![b"a".to_vec(), b"m".to_vec(), b"z".to_vec()]);
    match &n.data {
        NodeData::Leaf(es) => {
            assert_eq!(es[1].value_bytes(), b"4".to_vec());
            assert_eq!(search_leaf(es, b"m"), (true, 1));
            assert_eq!(search_leaf(es, b"b"), (false, 1));
            assert_eq!(search_leaf(es, b"zz"), (false, 3));
        }
        NodeData::Branches(_) => panic!("a leaf was made"),
    }
    let gone = n.delete(0);
    assert_eq!(gone.key(), b"a");
    assert_eq!(leaf_keys(&n), vec![b"m".to_vec(), b"z".to_vec()]);
}

#[test]
fn content_sizes_and_cuts() {
    let mut n = Node::new(true);
    for i in 0..10u8 {
        n.insert_data(pair(&[i], &[0u8; 10]));
    }
    // each entry takes 16 + 1 + 10 bytes, the header 16
    assert_eq!(n.data.size(), 16 + 10 * 27);
    assert!(n.data.fits_page(16 + 10 * 27));
    assert!(!n.data.fits_page(16 + 10 * 27 - 1));
    assert_eq!(n.data.prefix_fit(16 + 3 * 27), 3);
    assert_eq!(n.data.prefix_fit(16 + 3 * 27 + 26), 3);
    assert_eq!(n.data.prefix_fit(1), 1);
    assert_eq!(n.data.prefix_fit(usize::MAX), 10);
    let tail = n.data.split_off(4);
    assert_eq!(n.data.len(), 4);
    assert_eq!(tail.len(), 6);
    assert_eq!(tail.first_key(), vec![4u8]);
}

#[test]
fn page_bytes_follow_the_layout() {
    let leaf = Page {
        id: 3,
        data: NodeData::Leaf(vec![
            pair(b"ab", b"xyz"),
            Data::Bucket(BucketData::from_meta(
                b"n".to_vec(),
                &BucketMeta { root_page: 5, next_int: 1 },
            )),
        ]),
    };
    let mut expected: Vec<u8> = Vec::new();
    expected.extend_from_slice(&3u64.to_le_bytes());
    expected.extend_from_slice(&[2, 0, 0, 0]);
    expected.extend_from_slice(&2u32.to_le_bytes());
    expected.extend_from_slice(&2u32.to_le_bytes());
    expected.extend_from_slice(&3u32.to_le_bytes());
    expected.extend_from_slice(&[0, 0, 0, 0, 0, 0, 0, 0]);
    expected.extend_from_slice(&1u32.to_le_bytes());
    expected.extend_from_slice(&16u32.to_le_bytes());
    expected.extend_from_slice(&[1, 0, 0, 0, 0, 0, 0, 0]);
    expected.extend_from_slice(b"abxyz");
    expected.extend_from_slice(b"n");
    expected.extend_from_slice(&5u64.to_le_bytes());
    expected.extend_from_slice(&1u64.to_le_bytes());
    let bytes = leaf.encode().unwrap();
    assert_eq!(bytes, expected);
    assert_eq!(bytes.len(), leaf.data.size());

    let branch = Page {
        id: 9,
        data: NodeData::Branches(vec![
            Branch { key: b"".to_vec(), target: Target::Page(1) },
            Branch { key: b"m".to_vec(), target: Target::Page(2) },
        ]),
    };
    let mut expected: Vec<u8> = Vec::new();
    expected.extend_from_slice(&9u64.to_le_bytes());
    expected.extend_from_slice(&[1, 0, 0, 0]);
    expected.extend_from_slice(&2u32.to_le_bytes());
    expected.extend_from_slice(&0u32.to_le_bytes());
    expected.extend_from_slice(&[0, 0, 0, 0]);
    expected.extend_from_slice(&1u64.to_le_bytes());
    expected.extend_from_slice(&1u32.to_le_bytes());
    expected.extend_from_slice(&[0, 0, 0, 0]);
    expected.extend_from_slice(&2u64.to_le_bytes());
    expected.extend_from_slice(b"m");
    assert_eq!(branch.encode().unwrap(), expected);

    let staged = Page {
        id: 1,
        data: NodeData::Branches(vec![Branch {
            key: b"k".to_vec(),
            target: Target::Node(Node::new(true)),
        }]),
    };
    assert!(staged.encode().is_none());
}
