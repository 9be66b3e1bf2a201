//! Buckets: the ordered collections that callers read and write.

use vstd::prelude::*;
use crate::bytes::{compare, copy_bytes, Rel};
use crate::cursor::Cursor;
use crate::data::{BucketData, Data, Entry, KVPair};
use crate::errors::Error;
use crate::listing::{has_key, lemma_flat_map, lemma_to_map_at, sorted, to_map};
use crate::meta::{BucketMeta, PageID};
use crate::merge::{grown, lemma_grown_step, merged_upto};
use crate::node::{
    data_good, data_ok, data_tree, ints, lemma_same_tree, target_good, target_ok, target_tree,
    Branch, Node, NodeData, Target,
};
use crate::page::{extends, pages_wf, rooted, stored, Page, PageHeader, PageStore};
use crate::persist::{
    headers_rooted, lemma_extends_chain, lemma_extends_headers, lemma_extends_rooted,
    lemma_extends_target, lemma_one_height, nodes_in,
};
use crate::size::data_bytes;
use crate::split::{given, kids_packed, lemma_links, links_of, target_packed};
use crate::tree::{flat_all, flat_upto, lemma_expand, parts_ok, Link};
use crate::tree::{
    inserted, lemma_flat_sorted, lemma_subtree, lemma_tree_insert, lemma_tree_remove, Tree,
};

verus! {

/// What `put` answers for a key, given whether the transaction is writable
/// and what the bucket holds.
pub open spec fn put_result(writable: bool, map: Map<Seq<u8>, Entry>, key: Seq<u8>) -> Result<
    (),
    Error,
> {
    if !writable {
        Err(Error::ReadOnlyTx)
    } else if map.contains_key(key) && map[key] is Bucket {
        Err(Error::IncompatibleValue)
    } else {
        Ok(())
    }
}

/// What the bucket holds after `put`.
pub open spec fn put_map(
    writable: bool,
    map: Map<Seq<u8>, Entry>,
    key: Seq<u8>,
    value: Seq<u8>,
) -> Map<Seq<u8>, Entry> {
    if put_result(writable, map, key) is Ok {
        map.insert(key, Entry::KeyValue { key, value })
    } else {
        map
    }
}

/// The counter of new keys after `put`.
pub open spec fn put_counter(
    writable: bool,
    map: Map<Seq<u8>, Entry>,
    key: Seq<u8>,
    counter: u64,
) -> int {
    if put_result(writable, map, key) is Ok && !map.contains_key(key) {
        counter + 1
    } else {
        counter as int
    }
}

/// The error that `delete` answers for a key, if it answers one.
pub open spec fn delete_error(map: Map<Seq<u8>, Entry>, key: Seq<u8>) -> Option<Error> {
    if !map.contains_key(key) {
        Some(Error::KeyValueMissing)
    } else if map[key] is Bucket {
        Some(Error::IncompatibleValue)
    } else {
        None
    }
}

/// What the bucket holds after `delete`.
pub open spec fn delete_map(map: Map<Seq<u8>, Entry>, key: Seq<u8>) -> Map<Seq<u8>, Entry> {
    if delete_error(map, key) is None {
        map.remove(key)
    } else {
        map
    }
}

/// The error that `create_bucket` answers for a name, if it answers one.
pub open spec fn create_error(writable: bool, map: Map<Seq<u8>, Entry>, name: Seq<u8>) -> Option<
    Error,
> {
    if !writable {
        Some(Error::ReadOnlyTx)
    } else if map.contains_key(name) {
        if map[name].is_kv() {
            Some(Error::IncompatibleValue)
        } else {
            Some(Error::BucketExists)
        }
    } else {
        None
    }
}

/// The error that `get_bucket` answers for a name, if it answers one.
pub open spec fn bucket_error(map: Map<Seq<u8>, Entry>, name: Seq<u8>) -> Option<Error> {
    if !map.contains_key(name) {
        Some(Error::BucketMissing)
    } else if map[name].is_kv() {
        Some(Error::IncompatibleValue)
    } else {
        None
    }
}

/// The entry that a parent keeps for a nested bucket that was just created.
pub open spec fn new_bucket_entry(name: Seq<u8>) -> Entry {
    Entry::Bucket { name, meta: BucketMeta { root_page: 0, next_int: 0 } }
}

/// The second map holds the keys of the first: the same pair under the key
/// of a pair, a nested bucket of the same name under the name of a nested
/// bucket.
pub open spec fn same_pairs(before: Map<Seq<u8>, Entry>, after: Map<Seq<u8>, Entry>) -> bool {
    &&& forall|k: Seq<u8>| #[trigger] after.contains_key(k) == before.contains_key(k)
    &&& forall|k: Seq<u8>|
        #[trigger] before.contains_key(k) ==> {
            &&& before[k] is KeyValue ==> after[k] == before[k]
            &&& before[k] is Bucket ==> after[k] is Bucket && after[k]->name == before[k]->name
        }
}

/// How a rebalance has reshaped the tree of a bucket; kept for proofs only.
pub ghost struct Reshape {
    /// The root as merging left it.
    pub merged: NodeData,
    /// The page that this root was copied from, if it was copied from one.
    pub origin: Option<PageID>,
    /// Whether the root gave way to its only child.
    pub gave_way: bool,
    /// How many new roots were put on top when the root was split.
    pub grew: nat,
}

/// A nested bucket that has been opened, under its name.
pub struct Nested {
    name: Vec<u8>,
    bucket: Bucket,
}

/// A collection of data, sorted by key: key / value pairs and nested
/// buckets.  A counter keeps track of how many new keys the bucket has seen.
pub struct Bucket {
    meta: BucketMeta,
    root: Target,
    dirty: bool,
    writable: bool,
    buckets: Vec<Nested>,
    height: Ghost<nat>,
    reshape: Ghost<Option<Reshape>>,
}

impl Bucket {
    /// The tree of the bucket.
    pub closed spec fn tree(&self, pages: Seq<Page>) -> Tree {
        target_tree(pages, self.root, self.height@)
    }

    /// The entries of the bucket in key order.
    pub closed spec fn entries(&self, pages: Seq<Page>) -> Seq<Entry> {
        self.tree(pages).flat()
    }

    /// The entries of the bucket by key.
    pub open spec fn map(&self, pages: Seq<Page>) -> Map<Seq<u8>, Entry> {
        to_map(self.entries(pages))
    }

    /// The number of new keys that the bucket has seen.
    pub open spec fn counter(&self) -> u64 {
        self.header().next_int
    }

    /// Whether anything was written to the bucket in this transaction.
    pub closed spec fn is_dirty(&self) -> bool {
        self.dirty
    }

    /// Whether the transaction allows writing.
    pub closed spec fn is_writable(&self) -> bool {
        self.writable
    }

    /// The header of the bucket.
    pub closed spec fn header(&self) -> BucketMeta {
        self.meta
    }

    /// The names of the nested buckets that have been opened.
    pub closed spec fn opened(&self) -> Seq<Seq<u8>> {
        Seq::new(self.buckets@.len(), |i: int| self.buckets@[i].name@)
    }

    /// The nested bucket that was opened as number `i`.
    pub closed spec fn nested(&self, i: int) -> Bucket {
        self.buckets@[i].bucket
    }

    /// Whether the nested bucket `name` has been opened and written to.
    pub closed spec fn opened_dirty(&self, name: Seq<u8>) -> bool {
        exists|i: int|
            0 <= i < self.buckets@.len() && (#[trigger] self.buckets@[i]).name@ == name
                && self.buckets@[i].bucket.dirty
    }

    /// Whether the nested bucket `name` has been opened.
    pub open spec fn has_opened(&self, name: Seq<u8>) -> bool {
        self.opened().contains(name)
    }

    /// The bucket is well formed over `pages`.
    pub closed spec fn inv(&self, pages: Seq<Page>) -> bool
        decreases self,
    {
        &&& pages_wf(pages)
        &&& target_good(pages, self.root, self.height@)
        &&& (self.root matches Target::Page(p) ==> p == self.meta.root_page)
        &&& (self.root is Node ==> self.dirty)
        &&& forall|i: int|
            0 <= i < self.buckets@.len() ==> {
                &&& (#[trigger] self.buckets@[i]).bucket.inv(pages)
                &&& self.buckets@[i].bucket.writable == self.writable
                &&& self.map(pages).contains_key(self.buckets@[i].name@)
                &&& self.map(pages)[self.buckets@[i].name@] is Bucket
                &&& !self.buckets@[i].bucket.dirty ==> self.map(pages)[self.buckets@[i].name@]->meta
                    == self.buckets@[i].bucket.meta
            }
        &&& forall|i: int, j: int|
            0 <= i < j < self.buckets@.len() ==> (#[trigger] self.buckets@[i]).name@
                != (#[trigger] self.buckets@[j]).name@
        &&& forall|k: Seq<u8>|
            #[trigger] self.map(pages).contains_key(k) && self.map(pages)[k] is Bucket
                ==> self.has_opened(k) || rooted(pages, self.map(pages)[k]->meta)
    }

    /// The entries of a well-formed bucket are sorted by key, and the map
    /// holds each of them under its key.  The store is well formed too.
    pub proof fn lemma_entries(&self, pages: Seq<Page>)
        requires
            self.inv(pages),
        ensures
            pages_wf(pages),
            sorted(self.entries(pages)),
            forall|i: int|
                0 <= i < self.entries(pages).len() ==> self.map(pages).contains_key(
                    #[trigger] self.entries(pages)[i].key(),
                ) && self.map(pages)[self.entries(pages)[i].key()] == self.entries(pages)[i],
            forall|k: Seq<u8>|
                #[trigger] self.map(pages).contains_key(k) ==> has_key(self.entries(pages), k),
    {
        lemma_flat_sorted(self.tree(pages));
        lemma_flat_map(self.entries(pages));
    }

    /// The root bucket of a transaction, as the header `meta` describes it.
    pub fn root(store: &PageStore, meta: BucketMeta, writable: bool) -> (b: Bucket)
        requires
            pages_wf(store@),
            rooted(store@, meta),
        ensures
            b.inv(store@),
            b.header() == meta,
            b.counter() == meta.next_int,
            !b.is_dirty(),
            b.is_writable() == writable,
            b.opened().len() == 0,
            b.persisted(store@),
            b.entries(store@) == stored(store@, meta),
    {
        let ghost h = choose|h: nat| target_good(store@, Target::Page(meta.root_page), h);
        let b = Bucket {
            meta,
            root: Target::Page(meta.root_page),
            dirty: false,
            writable,
            buckets: Vec::new(),
            height: Ghost(h),
            reshape: Ghost(None),
        };
        proof {
            lemma_stored_rooted(store@, meta.root_page, h);
            lemma_flat_sorted(b.tree(store@));
            lemma_flat_map(b.entries(store@));
            assert(b.opened() =~= Seq::<Seq<u8>>::empty());
            assert(target_tree(store@, Target::Page(meta.root_page), h).flat() == b.entries(
                store@,
            ));
            b.lemma_persisted(store@);
        }
        b
    }

    /// Whether the transaction allows writing.
    pub fn writable(&self) -> (r: bool)
        ensures
            r == self.is_writable(),
    {
        self.writable
    }

    /// The number of new keys that the bucket has seen: it goes up by one
    /// each time a key that was not there is put or a nested bucket is
    /// created, and never otherwise.
    pub fn next_int(&self) -> (n: u64)
        ensures
            n == self.counter(),
    {
        self.meta.next_int
    }

    /// A cursor over the entries of the bucket.
    pub fn cursor<'a>(&'a self, store: &'a PageStore) -> (c: Cursor<'a>)
        requires
            self.inv(store@),
        ensures
            c.wf(),
            c.rank() == 0,
            c.listing() == self.entries(store@),
            c.stack@.len() == 0,
            c.tree() == self.tree(store@),
            c.height@ == self.height(),
    {
        Cursor::new(&store.pages, &self.root, Ghost(self.height@))
    }

    /// The number of levels between the root and the leaves.
    pub closed spec fn height(&self) -> nat {
        self.height@
    }

    /// The entry stored under `key`, if there is one.
    pub fn get(&self, store: &PageStore, key: &[u8]) -> (r: Option<Data>)
        requires
            self.inv(store@),
        ensures
            r is Some == self.map(store@).contains_key(key@),
            r matches Some(d) ==> d@ == self.map(store@)[key@],
    {
        let mut c = self.cursor(store);
        let exists = c.seek(key);
        proof {
            lemma_flat_sorted(c.tree());
            if exists {
                lemma_to_map_at(c.tree().flat(), c.position());
            }
        }
        if exists {
            let r = c.current();
            proof {
                lemma_found_current(c.tree(), c.path(), c.indices().last(), key@, self.height@);
            }
            r
        } else {
            None
        }
    }

    /// The two buckets differ in their tree at most.
    pub closed spec fn same_but_tree(&self, other: Bucket) -> bool {
        &&& self.reshape == other.reshape
        &&& self.meta == other.meta
        &&& self.dirty == other.dirty
        &&& self.writable == other.writable
        &&& self.buckets == other.buckets
        &&& self.height == other.height
    }

    /// A change of the tree that keeps the headers of the nested buckets,
    /// or replaces them for buckets that are opened, keeps the bucket well
    /// formed.
    proof fn lemma_inv_after(&self, after: Bucket, pages: Seq<Page>)
        requires
            self.inv(pages),
            after.writable == self.writable,
            after.buckets == self.buckets,
            target_good(pages, after.root, after.height@),
            after.root matches Target::Page(p) ==> p == after.meta.root_page,
            after.root is Node ==> after.dirty,
            forall|k: Seq<u8>|
                #[trigger] self.map(pages).contains_key(k) && self.map(pages)[k] is Bucket
                    ==> after.map(pages).contains_key(k) && after.map(pages)[k] is Bucket && (
                after.map(pages)[k] == self.map(pages)[k] || self.opened_dirty(k)
                    || !self.has_opened(k)),
            forall|k: Seq<u8>|
                #[trigger] after.map(pages).contains_key(k) && after.map(pages)[k] is Bucket ==> (
                self.map(pages).contains_key(k) && self.map(pages)[k] == after.map(pages)[k])
                    || after.has_opened(k) || rooted(pages, after.map(pages)[k]->meta),
        ensures
            after.inv(pages),
    {
        assert(after.opened() == self.opened());
        assert forall|i: int| 0 <= i < after.buckets@.len() implies {
            &&& (#[trigger] after.buckets@[i]).bucket.inv(pages)
            &&& after.buckets@[i].bucket.writable == after.writable
            &&& after.map(pages).contains_key(after.buckets@[i].name@)
            &&& after.map(pages)[after.buckets@[i].name@] is Bucket
            &&& !after.buckets@[i].bucket.dirty ==> after.map(pages)[after.buckets@[i].name@]->meta
                == after.buckets@[i].bucket.meta
        } by {
            assert(self.buckets@[i].bucket.inv(pages));
            assert(self.map(pages).contains_key(self.buckets@[i].name@));
            let name = self.buckets@[i].name@;
            assert(self.opened()[i] == name);
            if !self.buckets@[i].bucket.dirty && self.opened_dirty(name) {
                let j = choose|j: int|
                    0 <= j < self.buckets@.len() && (#[trigger] self.buckets@[j]).name@ == name
                        && self.buckets@[j].bucket.dirty;
                if j < i {
                    assert(self.buckets@[j].name@ != self.buckets@[i].name@);
                } else if i < j {
                    assert(self.buckets@[i].name@ != self.buckets@[j].name@);
                }
            }
        }
        assert forall|k: Seq<u8>|
            #[trigger] after.map(pages).contains_key(k) && after.map(pages)[k]
                is Bucket implies after.has_opened(k) || rooted(pages, after.map(pages)[k]->meta) by {
            if !after.has_opened(k) && !rooted(pages, after.map(pages)[k]->meta) {
                assert(self.map(pages).contains_key(k));
            }
        }
    }

    /// The node at the end of `way`, to be changed in place.  This is
    /// where pages become nodes: the root and every page on the way are
    /// promoted first, from the top down, each at most once.  What the
    /// bucket holds changes only as the caller changes the node.
    fn node<'a>(&'a mut self, store: &PageStore, way: &Vec<usize>) -> (n: &'a mut Node)
        requires
            target_good(store@, old(self).root, old(self).height@),
            old(self).tree(store@).has_path(ints(way@)),
        ensures
            old(self).height@ >= way@.len(),
            data_ok(store@, n.data, (old(self).height@ - way@.len()) as nat),
            data_tree(store@, n.data, (old(self).height@ - way@.len()) as nat) == old(self).tree(
                store@,
            ).subtree(ints(way@)),
            final(self).same_but_tree(*old(self)),
            final(self).root is Node,
            old(self).root is Node ==> (if way@.len() == 0 {
                n.page_id == old(self).root->Node_0.page_id && final(self).root->Node_0.page_id
                    == final(n).page_id
            } else {
                final(self).root->Node_0.page_id == old(self).root->Node_0.page_id
            }),
            data_ok(store@, final(n).data, (old(self).height@ - way@.len()) as nat) ==> target_ok(
                store@,
                final(self).root,
                old(self).height@,
            ),
            final(self).tree(store@) == old(self).tree(store@).graft(
                ints(way@),
                data_tree(store@, final(n).data, (old(self).height@ - way@.len()) as nat),
            ),
    {
        let ghost h = self.height@;
        let ghost before = self.root;
        let promoted = match &self.root {
            Target::Page(p) => Some(Node::from_page(store.page(*p))),
            Target::Node(_) => None,
        };
        match promoted {
            Some(n) => {
                proof {
                    lemma_same_tree(store@, n.data, store@[before->Page_0 as int].data, h);
                }
                self.root = Target::Node(n);
            },
            None => {},
        }
        proof {
            assert(ints(way@).skip(0) =~= ints(way@));
        }
        match &mut self.root {
            Target::Node(n) => n.descend(&store.pages, way, 0, Ghost(h)),
            Target::Page(_) => vstd::pervasive::unreached(),
        }
    }

    /// Puts an entry into the bucket, over the entry that has its key if
    /// there is one.  An entry never replaces an entry of the other kind.
    fn put_data(&mut self, store: &PageStore, data: Data) -> (r: Result<(), Error>)
        requires
            old(self).inv(store@),
            !old(self).map(store@).contains_key(data@.key()) ==> old(self).counter() < u64::MAX,
            data@ is Bucket ==> old(self).opened_dirty(data@.key()) || (!old(self).has_opened(
                data@.key(),
            ) && rooted(store@, data@->meta)),
        ensures
            final(self).inv(store@),
            final(self).is_writable() == old(self).is_writable(),
            final(self).buckets == old(self).buckets,
            final(self).height() == old(self).height(),
            r is Err == (old(self).map(store@).contains_key(data@.key()) && old(self).map(
                store@,
            )[data@.key()].is_kv() != data@.is_kv()),
            r is Err ==> r == Err::<(), Error>(Error::IncompatibleValue) && *final(self) == *old(self),
            r is Ok ==> final(self).map(store@) == old(self).map(store@).insert(data@.key(), data@),
            r is Ok ==> final(self).counter() == old(self).counter() + (if old(self).map(
                store@,
            ).contains_key(data@.key()) {
                0int
            } else {
                1int
            }),
            r is Ok ==> final(self).is_dirty(),
            r is Ok ==> final(self).header().root_page == old(self).header().root_page,
            final(self).reshape == old(self).reshape,
            r is Ok && !old(self).reads_pages() ==> final(self).root_origin() == old(self).root_origin() && !final(self).reads_pages(),
    {
        let ghost pages = store@;
        let ghost before = *self;
        let ghost tree = self.tree(pages);
        let ghost h = self.height@;
        let mut c = self.cursor(store);
        let exists = c.seek(data.key());
        let way = c.way();
        let ghost path = c.path();
        let ghost i = c.indices().last();
        proof {
            lemma_flat_sorted(tree);
            lemma_flat_map(tree.flat());
        }
        if exists {
            let current = c.current();
            proof {
                lemma_found_current(tree, path, i, data@.key(), h);
                lemma_to_map_at(tree.flat(), c.position());
            }
            match current {
                Some(cur) => {
                    if cur.is_kv() != data.is_kv() {
                        return Err(Error::IncompatibleValue);
                    }
                },
                None => {},
            }
        } else {
            self.meta.next_int += 1;
        }
        let node = self.node(store, &way);
        let ghost leaf = node.entries();
        proof {
            lemma_subtree(tree, path, h);
        }
        node.insert_data(data);
        let ghost leaf2 = node.entries();
        self.dirty = true;
        proof {
            assert(leaf2 == inserted(leaf, i, data@));
            lemma_tree_insert(tree, h, path, i, data@);
            lemma_flat_map(self.tree(pages).flat());
            if data@ is Bucket && before.opened_dirty(data@.key()) {
                let j = choose|j: int|
                    0 <= j < before.buckets@.len() && (#[trigger] before.buckets@[j]).name@
                        == data@.key() && before.buckets@[j].bucket.dirty;
                assert(before.opened()[j] == data@.key());
            }
            before.lemma_inv_after(*self, pages);
        }
        Ok(())
    }

    /// Adds to or replaces key / value data in the bucket.
    ///
    /// Fails with `ReadOnlyTx` if the transaction is not writable, and with
    /// `IncompatibleValue` if the key is the name of a nested bucket.  A key
    /// that was not in the bucket makes the counter go up by one.
    pub fn put(&mut self, store: &PageStore, key: &[u8], value: &[u8]) -> (r: Result<(), Error>)
        requires
            old(self).inv(store@),
            old(self).is_writable() && !old(self).map(store@).contains_key(key@) ==> old(self).counter() < u64::MAX,
        ensures
            final(self).inv(store@),
            r == put_result(old(self).is_writable(), old(self).map(store@), key@),
            final(self).map(store@) == put_map(
                old(self).is_writable(),
                old(self).map(store@),
                key@,
                value@,
            ),
            final(self).counter() == put_counter(
                old(self).is_writable(),
                old(self).map(store@),
                key@,
                old(self).counter(),
            ),
            final(self).is_dirty() == (old(self).is_dirty() || r is Ok),
            final(self).is_writable() == old(self).is_writable(),
            final(self).opened() == old(self).opened(),
            r is Err ==> *final(self) == *old(self),
    {
        if !self.writable {
            return Err(Error::ReadOnlyTx);
        }
        let k = copy_bytes(key);
        let v = copy_bytes(value);
        let data = Data::KeyValue(KVPair::from_slice_parts(k, v));
        assert(data@ == Entry::KeyValue { key: key@, value: value@ });
        let r = self.put_data(store, data);
        proof {
            let map = old(self).map(store@);
            if map.contains_key(key@) {
                assert(map[key@].is_kv() != data@.is_kv() <==> map[key@] is Bucket);
            }
            match r {
                Ok(u) => {
                    assert(u == ());
                },
                Err(_) => {},
            }
        }
        r
    }

    /// Deletes a key / value pair from the bucket and returns it.
    ///
    /// Fails with `KeyValueMissing` if the bucket has no entry under the
    /// key, and with `IncompatibleValue` if the entry is a nested bucket.
    pub fn delete(&mut self, store: &PageStore, key: &[u8]) -> (r: Result<Data, Error>)
        requires
            old(self).inv(store@),
        ensures
            final(self).inv(store@),
            r matches Ok(d) ==> delete_error(old(self).map(store@), key@) is None && d@ == old(self).map(store@)[key@],
            r matches Err(e) ==> delete_error(old(self).map(store@), key@) == Some(e) && *final(self) == *old(self),
            final(self).map(store@) == delete_map(old(self).map(store@), key@),
            final(self).counter() == old(self).counter(),
            final(self).is_dirty() == (old(self).is_dirty() || r is Ok),
            final(self).is_writable() == old(self).is_writable(),
            final(self).opened() == old(self).opened(),
    {
        let ghost pages = store@;
        let ghost before = *self;
        let ghost tree = self.tree(pages);
        let ghost h = self.height@;
        let mut c = self.cursor(store);
        let exists = c.seek(key);
        proof {
            lemma_flat_sorted(tree);
            lemma_flat_map(tree.flat());
        }
        if !exists {
            return Err(Error::KeyValueMissing);
        }
        let current = c.current();
        let way = c.way();
        let index = c.current_index();
        let ghost path = c.path();
        proof {
            lemma_found_current(tree, path, index as int, key@, h);
            lemma_to_map_at(tree.flat(), c.position());
        }
        let is_kv = match current {
            Some(cur) => cur.is_kv(),
            None => false,
        };
        if !is_kv {
            return Err(Error::IncompatibleValue);
        }
        self.dirty = true;
        let node = self.node(store, &way);
        let d = node.delete(index);
        proof {
            lemma_tree_remove(tree, h, path, index as int);
            lemma_flat_map(self.tree(pages).flat());
            before.lemma_inv_after(*self, pages);
        }
        Ok(d)
    }

    /// `after` is this bucket but for the nested bucket opened as number `i`.
    pub closed spec fn differs_at(&self, after: Bucket, i: int) -> bool {
        &&& after.meta == self.meta
        &&& after.root == self.root
        &&& after.dirty == self.dirty
        &&& after.writable == self.writable
        &&& after.height == self.height
        &&& 0 <= i < self.buckets@.len()
        &&& after.buckets@.len() == self.buckets@.len()
        &&& after.buckets@[i].name == self.buckets@[i].name
        &&& forall|j: int|
            0 <= j < self.buckets@.len() && j != i ==> #[trigger] after.buckets@[j]
                == self.buckets@[j]
    }

    /// Whatever is done to a nested bucket, the parent stays well formed
    /// as long as the nested bucket does.
    proof fn lemma_inv_nested(&self, i: int, pages: Seq<Page>)
        requires
            self.inv(pages),
        ensures
            forall|after: Bucket|
                #[trigger] self.differs_at(after, i) && after.buckets@[i].bucket.inv(pages)
                    && after.buckets@[i].bucket.writable == self.writable && (
                after.buckets@[i].bucket.dirty || after.buckets@[i].bucket.meta == self.map(
                    pages,
                )[self.buckets@[i].name@]->meta) ==> after.inv(pages),
    {
        assert forall|after: Bucket|
            #[trigger] self.differs_at(after, i) && after.buckets@[i].bucket.inv(pages)
                && after.buckets@[i].bucket.writable == self.writable && (
            after.buckets@[i].bucket.dirty || after.buckets@[i].bucket.meta == self.map(
                pages,
            )[self.buckets@[i].name@]->meta) implies after.inv(pages) by {
            assert(after.opened() =~= self.opened());
            assert(after.map(pages) == self.map(pages));
            assert forall|j: int| 0 <= j < after.buckets@.len() implies {
                &&& (#[trigger] after.buckets@[j]).bucket.inv(pages)
                &&& after.buckets@[j].bucket.writable == after.writable
                &&& after.map(pages).contains_key(after.buckets@[j].name@)
                &&& after.map(pages)[after.buckets@[j].name@] is Bucket
                &&& !after.buckets@[j].bucket.dirty ==> after.map(pages)[after.buckets@[j].name@]->meta
                    == after.buckets@[j].bucket.meta
            } by {
                assert(self.buckets@[j].bucket.inv(pages));
                assert(self.map(pages).contains_key(self.buckets@[j].name@));
            }
            assert forall|j: int, k: int| 0 <= j < k < after.buckets@.len() implies (
            #[trigger] after.buckets@[j]).name@ != (#[trigger] after.buckets@[k]).name@ by {
                assert(self.buckets@[j].name@ != self.buckets@[k].name@);
            }
            assert forall|k: Seq<u8>|
                #[trigger] after.map(pages).contains_key(k) && after.map(pages)[k]
                    is Bucket implies after.has_opened(k) || rooted(
                pages,
                after.map(pages)[k]->meta,
            ) by {
                assert(self.map(pages).contains_key(k));
            }
        }
    }

    /// One more nested bucket opened, under a name that the bucket holds
    /// a header for, leaves the bucket well formed.
    proof fn lemma_inv_opened(&self, after: Bucket, pages: Seq<Page>)
        requires
            self.inv(pages),
            after.writable == self.writable,
            target_good(pages, after.root, after.height@),
            after.root matches Target::Page(p) ==> p == after.meta.root_page,
            after.root is Node ==> after.dirty,
            after.buckets@.len() == self.buckets@.len() + 1,
            after.buckets@.drop_last() == self.buckets@,
            after.buckets@.last().bucket.inv(pages),
            after.buckets@.last().bucket.writable == self.writable,
            !self.has_opened(after.buckets@.last().name@),
            after.map(pages).contains_key(after.buckets@.last().name@),
            after.map(pages)[after.buckets@.last().name@] is Bucket,
            !after.buckets@.last().bucket.dirty ==> after.map(
                pages,
            )[after.buckets@.last().name@]->meta == after.buckets@.last().bucket.meta,
            forall|k: Seq<u8>|
                #[trigger] self.map(pages).contains_key(k) && self.map(pages)[k] is Bucket
                    ==> after.map(pages).contains_key(k) && after.map(pages)[k] == self.map(
                    pages,
                )[k],
            forall|k: Seq<u8>|
                #[trigger] after.map(pages).contains_key(k) && after.map(pages)[k] is Bucket ==> (
                self.map(pages).contains_key(k) && self.map(pages)[k] == after.map(pages)[k]) || k
                    == after.buckets@.last().name@,
        ensures
            after.inv(pages),
            after.opened() == self.opened().push(after.buckets@.last().name@),
    {
        let last = after.buckets@.len() - 1;
        let name = after.buckets@.last().name@;
        assert(after.opened() =~= self.opened().push(name));
        assert forall|j: int| 0 <= j < after.buckets@.len() implies {
            &&& (#[trigger] after.buckets@[j]).bucket.inv(pages)
            &&& after.buckets@[j].bucket.writable == after.writable
            &&& after.map(pages).contains_key(after.buckets@[j].name@)
            &&& after.map(pages)[after.buckets@[j].name@] is Bucket
            &&& !after.buckets@[j].bucket.dirty ==> after.map(pages)[after.buckets@[j].name@]->meta
                == after.buckets@[j].bucket.meta
        } by {
            if j < last {
                assert(after.buckets@[j] == after.buckets@.drop_last()[j]);
                assert(self.buckets@[j].bucket.inv(pages));
                assert(self.map(pages).contains_key(self.buckets@[j].name@));
            }
        }
        assert forall|j: int, k: int| 0 <= j < k < after.buckets@.len() implies (
        #[trigger] after.buckets@[j]).name@ != (#[trigger] after.buckets@[k]).name@ by {
            assert(after.buckets@[j] == after.buckets@.drop_last()[j]);
            if k < last {
                assert(after.buckets@[k] == after.buckets@.drop_last()[k]);
                assert(self.buckets@[j].name@ != self.buckets@[k].name@);
            } else {
                assert(self.opened()[j] == self.buckets@[j].name@);
            }
        }
        assert forall|k: Seq<u8>|
            #[trigger] after.map(pages).contains_key(k) && after.map(pages)[k]
                is Bucket implies after.has_opened(k) || rooted(pages, after.map(pages)[k]->meta) by {
            if k == name {
                assert(after.opened()[last] == name);
            } else {
                assert(self.map(pages).contains_key(k));
                if self.has_opened(k) {
                    let j = choose|j: int| 0 <= j < self.opened().len() && self.opened()[j] == k;
                    assert(after.opened()[j] == k);
                }
            }
        }
    }

    /// The number under which the nested bucket `name` was opened, if it was.
    fn find_opened(&self, name: &[u8]) -> (r: Option<usize>)
        ensures
            r matches Some(i) ==> i < self.buckets@.len() && self.buckets@[i as int].name@ == name@,
            r is None ==> !self.has_opened(name@),
    {
        let mut i: usize = 0;
        while i < self.buckets.len()
            invariant
                i <= self.buckets@.len(),
                forall|j: int| 0 <= j < i ==> (#[trigger] self.buckets@[j]).name@ != name@,
            decreases self.buckets@.len() - i,
        {
            match compare(self.buckets[i].name.as_slice(), name) {
                Rel::Same => {
                    return Some(i);
                },
                _ => {},
            }
            i += 1;
        }
        assert(!self.opened().contains(name@)) by {
            if self.opened().contains(name@) {
                let j = choose|j: int| 0 <= j < self.opened().len() && self.opened()[j] == name@;
                assert(self.buckets@[j].name@ == name@);
            }
        }
        None
    }

    /// A bucket nested in this one, read from the header `meta`.
    fn from_meta(&self, store: &PageStore, meta: BucketMeta) -> (b: Bucket)
        requires
            pages_wf(store@),
            rooted(store@, meta),
        ensures
            b.inv(store@),
            b.header() == meta,
            !b.is_dirty(),
            b.is_writable() == self.is_writable(),
            b.opened().len() == 0,
            b.entries(store@) == stored(store@, meta),
    {
        Bucket::root(store, meta, self.writable)
    }

    /// Opens a new, empty bucket under `name`: a tree of one empty leaf
    /// that no page stands for yet.
    fn new_child(&mut self, name: &[u8])
        ensures
            final(self).meta == old(self).meta,
            final(self).root == old(self).root,
            final(self).dirty == old(self).dirty,
            final(self).writable == old(self).writable,
            final(self).height == old(self).height,
            final(self).buckets@.len() == old(self).buckets@.len() + 1,
            final(self).buckets@.drop_last() == old(self).buckets@,
            final(self).buckets@.last().name@ == name@,
            final(self).buckets@.last().bucket.is_empty_child(old(self).writable),
    {
        let b = Bucket {
            meta: BucketMeta::default(),
            root: Target::Node(Node::new(true)),
            dirty: true,
            writable: self.writable,
            buckets: Vec::new(),
            height: Ghost(0),
            reshape: Ghost(None),
        };
        self.buckets.push(Nested { name: copy_bytes(name), bucket: b });
        assert(self.buckets@.drop_last() =~= old(self).buckets@);
    }

    /// The bucket is as `create_bucket` makes it: empty, written to, with
    /// no page of its own.
    pub closed spec fn is_empty_child(&self, writable: bool) -> bool {
        &&& self.meta == BucketMeta { root_page: 0, next_int: 0 }
        &&& self.root matches Target::Node(n) && n.data matches NodeData::Leaf(es) && es@.len() == 0
        &&& self.dirty
        &&& self.writable == writable
        &&& self.buckets@.len() == 0
        &&& self.height@ == 0
    }

    /// What `is_empty_child` means to a caller.
    pub proof fn lemma_empty_child(&self, writable: bool, pages: Seq<Page>)
        requires
            self.is_empty_child(writable),
            pages_wf(pages),
        ensures
            self.inv(pages),
            self.entries(pages).len() == 0,
            self.map(pages) == Map::<Seq<u8>, Entry>::empty(),
            self.counter() == 0,
            self.is_dirty(),
            self.is_writable() == writable,
            self.opened().len() == 0,
    {
        let es = self.root->Node_0.data->Leaf_0;
        assert(self.tree(pages) == Tree::Leaf(crate::data::views(es@)));
        assert(self.entries(pages).len() == 0);
        assert(self.map(pages) =~= Map::<Seq<u8>, Entry>::empty());
        assert(self.opened() =~= Seq::<Seq<u8>>::empty());
    }

    /// Creates a new, empty nested bucket and returns it.
    ///
    /// Fails with `ReadOnlyTx` if the transaction is not writable, with
    /// `IncompatibleValue` if the name is the key of a key / value pair, and
    /// with `BucketExists` if a nested bucket has the name already.  The
    /// new name makes the counter go up by one.
    pub fn create_bucket<'a>(&'a mut self, store: &PageStore, name: &[u8]) -> (r: Result<
        &'a mut Bucket,
        Error,
    >)
        requires
            old(self).inv(store@),
            create_error(old(self).is_writable(), old(self).map(store@), name@) is None ==> old(self).counter() < u64::MAX,
        ensures
            r matches Err(e) ==> {
                &&& create_error(old(self).is_writable(), old(self).map(store@), name@) == Some(e)
                &&& final(self).inv(store@)
                &&& final(self).map(store@) == old(self).map(store@)
                &&& final(self).counter() == old(self).counter()
                &&& final(self).opened() == old(self).opened()
                &&& final(self).is_writable() == old(self).is_writable()
                &&& final(self).is_dirty() == (old(self).is_dirty() || old(self).is_writable())
            },
            r matches Ok(b) ==> {
                &&& create_error(old(self).is_writable(), old(self).map(store@), name@) is None
                &&& b.is_empty_child(old(self).is_writable())
                &&& final(self).map(store@) == old(self).map(store@).insert(
                    name@,
                    new_bucket_entry(name@),
                )
                &&& final(self).counter() == old(self).counter() + 1
                &&& final(self).is_dirty()
                &&& final(self).is_writable() == old(self).is_writable()
                &&& final(self).opened() == old(self).opened().push(name@)
                &&& final(self).nested(old(self).opened().len() as int) == *final(b)
                &&& forall|i: int|
                    0 <= i < old(self).opened().len() ==> #[trigger] final(self).nested(i) == old(self).nested(i)
                &&& final(b).inv(store@) && final(b).is_writable() == old(self).is_writable()
                    && final(b).is_dirty() ==> final(self).inv(store@)
            },
    {
        if !self.writable {
            return Err(Error::ReadOnlyTx);
        }
        let ghost pages = store@;
        let ghost before = *self;
        let ghost fin = *final(self);
        let ghost tree = self.tree(pages);
        let ghost h = self.height@;
        self.dirty = true;
        proof {
            before.lemma_inv_after(*self, pages);
        }
        let mut c = self.cursor(store);
        let exists = c.seek(name);
        let way = c.way();
        let ghost path = c.path();
        let ghost i = c.indices().last();
        proof {
            lemma_flat_sorted(tree);
            lemma_flat_map(tree.flat());
        }
        if exists {
            let current = c.current();
            proof {
                lemma_found_current(tree, path, i, name@, h);
                lemma_to_map_at(tree.flat(), c.position());
            }
            let is_kv = match current {
                Some(cur) => cur.is_kv(),
                None => false,
            };
            if is_kv {
                return Err(Error::IncompatibleValue);
            }
            return Err(Error::BucketExists);
        }
        self.meta.next_int += 1;
        let data = Data::Bucket(BucketData::from_meta(copy_bytes(name), &BucketMeta::default()));
        assert(data@ == new_bucket_entry(name@));
        let node = self.node(store, &way);
        let ghost leaf = node.entries();
        proof {
            lemma_subtree(tree, path, h);
        }
        node.insert_data(data);
        let ghost leaf2 = node.entries();
        self.new_child(name);
        let ghost cur = *self;
        let last = self.buckets.len() - 1;
        proof {
            assert(leaf2 == inserted(leaf, i, data@));
            lemma_tree_insert(tree, h, path, i, data@);
            lemma_flat_map(cur.tree(pages).flat());
            assert(cur.map(pages) == before.map(pages).insert(name@, data@));
            assert(cur.opened() =~= before.opened().push(name@));
            cur.buckets@[last as int].bucket.lemma_empty_child(before.writable, pages);
            before.lemma_inv_opened(cur, pages);
            cur.lemma_inv_nested(last as int, pages);
        }
        let slot = &mut self.buckets[last];
        let b = &mut slot.bucket;
        proof {
            assert(cur.differs_at(fin, last as int));
            assert(fin.opened() =~= cur.opened());
            assert(fin.map(pages) == cur.map(pages));
            assert forall|j: int| 0 <= j < before.opened().len() implies #[trigger] fin.nested(j)
                == before.nested(j) by {
                assert(cur.buckets@[j] == cur.buckets@.drop_last()[j]);
            }
        }
        Ok(b)
    }

    /// Gets a nested bucket that exists already, opening it if this is
    /// the first time.
    ///
    /// Fails with `BucketMissing` if the bucket has no entry under the
    /// name, and with `IncompatibleValue` if the entry is a key / value pair.
    pub fn get_bucket<'a>(&'a mut self, store: &PageStore, name: &[u8]) -> (r: Result<
        &'a mut Bucket,
        Error,
    >)
        requires
            old(self).inv(store@),
        ensures
            r matches Err(e) ==> bucket_error(old(self).map(store@), name@) == Some(e) && *final(self) == *old(self),
            r matches Ok(b) ==> {
                &&& bucket_error(old(self).map(store@), name@) is None
                &&& b.inv(store@)
                &&& b.is_writable() == old(self).is_writable()
                &&& final(self).map(store@) == old(self).map(store@)
                &&& final(self).counter() == old(self).counter()
                &&& final(self).is_dirty() == old(self).is_dirty()
                &&& final(self).is_writable() == old(self).is_writable()
                &&& old(self).has_opened(name@) ==> {
                    &&& final(self).opened() == old(self).opened()
                    &&& *b == old(self).nested(old(self).opened().index_of(name@))
                    &&& final(self).nested(old(self).opened().index_of(name@)) == *final(b)
                }
                &&& !old(self).has_opened(name@) ==> {
                    &&& final(self).opened() == old(self).opened().push(name@)
                    &&& b.header() == old(self).map(store@)[name@]->meta
                    &&& !b.is_dirty()
                    &&& b.opened().len() == 0
                    &&& b.entries(store@) == stored(store@, b.header())
                    &&& final(self).nested(old(self).opened().len() as int) == *final(b)
                }
                &&& final(b).inv(store@) && final(b).is_writable() == old(self).is_writable() && (
                final(b).is_dirty() || (!b.is_dirty() && final(b).header() == b.header()))
                    ==> final(self).inv(store@)
            },
    {
        let ghost pages = store@;
        let ghost before = *self;
        let ghost fin = *final(self);
        let ghost tree = self.tree(pages);
        let ghost h = self.height@;
        let found = self.find_opened(name);
        let at = match found {
            Some(i) => i,
            None => {
                let mut c = self.cursor(store);
                let exists = c.seek(name);
                proof {
                    lemma_flat_sorted(tree);
                    lemma_flat_map(tree.flat());
                }
                if !exists {
                    return Err(Error::BucketMissing);
                }
                let current = c.current();
                proof {
                    lemma_found_current(tree, c.path(), c.indices().last(), name@, h);
                    lemma_to_map_at(tree.flat(), c.position());
                }
                let meta = match current {
                    Some(Data::Bucket(data)) => data.meta(),
                    _ => {
                        return Err(Error::IncompatibleValue);
                    },
                };
                let b = self.from_meta(store, meta);
                self.buckets.push(Nested { name: copy_bytes(name), bucket: b });
                proof {
                    assert(self.buckets@.drop_last() =~= before.buckets@);
                    assert(self.opened() =~= before.opened().push(name@));
                    before.lemma_inv_opened(*self, pages);
                }
                self.buckets.len() - 1
            },
        };
        let ghost cur = *self;
        proof {
            cur.lemma_inv_nested(at as int, pages);
            assert(cur.buckets@[at as int].bucket.inv(pages));
            assert(cur.buckets@[at as int].name@ == name@);
            assert(!cur.buckets@[at as int].bucket.dirty ==> cur.buckets@[at as int].bucket.meta
                == cur.map(pages)[name@]->meta);
            if found is Some {
                assert(before.opened()[at as int] == name@);
            } else {
                assert(cur.opened() =~= before.opened().push(name@));
            }
            if before.has_opened(name@) {
                assert(before.opened()[at as int] == name@);
                let j = before.opened().index_of(name@);
                if j != at {
                    assert(before.buckets@[j].name@ == before.opened()[j]);
                    if j < at {
                        assert(before.buckets@[j].name@ != before.buckets@[at as int].name@);
                    } else {
                        assert(before.buckets@[at as int].name@ != before.buckets@[j].name@);
                    }
                }
                assert(before.map(pages).contains_key(name@));
            }
        }
        let slot = &mut self.buckets[at];
        let b = &mut slot.bucket;
        proof {
            assert(cur.differs_at(fin, at as int));
            assert(fin.opened() =~= cur.opened());
            assert(fin.map(pages) == cur.map(pages));
        }
        Ok(b)
    }

    /// The tree of the bucket starts at a page that no write has reached.
    pub closed spec fn reads_pages(&self) -> bool {
        self.root is Page
    }

    /// The page that the root node was copied from, if the root is a node
    /// that was copied from a page.
    pub closed spec fn root_origin(&self) -> Option<PageID> {
        if self.root is Node {
            self.root->Node_0.page_id
        } else {
            None
        }
    }

    /// The root as the last rebalance left it after merging, if the last
    /// rebalance had a root node to merge.
    pub closed spec fn merged_root(&self) -> Option<NodeData> {
        match self.reshape@ {
            Some(r) => Some(r.merged),
            None => None,
        }
    }

    /// The page that the root was copied from that the last rebalance merged.
    pub closed spec fn merged_origin(&self) -> Option<PageID> {
        match self.reshape@ {
            Some(r) => r.origin,
            None => None,
        }
    }

    /// Whether the root gave way to its only child in the last rebalance.
    pub closed spec fn gave_way(&self) -> bool {
        self.reshape@ matches Some(r) && r.gave_way
    }

    /// How many new roots the last rebalance put on top of the tree.
    pub closed spec fn grew(&self) -> nat {
        match self.reshape@ {
            Some(r) => r.grew,
            None => 0,
        }
    }

    /// The number of children of the root, if the root is a branch node;
    /// 0 otherwise.
    pub closed spec fn root_fanout(&self) -> nat {
        match self.root {
            Target::Node(n) => match n.data {
                NodeData::Branches(bs) => bs@.len(),
                NodeData::Leaf(_) => 0,
            },
            Target::Page(_) => 0,
        }
    }

    /// The number of nodes in the tree of the bucket.
    pub closed spec fn own_nodes(&self) -> nat {
        match self.root {
            Target::Page(_) => 0,
            Target::Node(n) => nodes_in(n.data, self.height@),
        }
    }

    /// The number of nodes in the tree of the bucket and in the trees of
    /// the nested buckets that were opened in it, and in those opened in
    /// them, and so on: the number of pages that a rebalance lays out.
    pub closed spec fn laid_out(&self) -> nat
        decreases self, 1nat, 0int,
    {
        self.own_nodes() + self.laid_upto(self.buckets@.len() as int)
    }

    /// The number of pages that a rebalance lays out for the first `i`
    /// nested buckets that were opened.
    pub closed spec fn laid_upto(&self, i: int) -> nat
        decreases self, 0nat, i,
    {
        if i <= 0 || i > self.buckets@.len() {
            0
        } else {
            self.laid_upto(i - 1) + self.buckets@[i - 1].bucket.laid_out()
        }
    }

    /// What `laid_out` counts.
    pub proof fn lemma_laid_out(&self)
        ensures
            self.laid_out() == self.own_nodes() + self.laid_upto(self.opened().len() as int),
            self.laid_upto(0) == 0,
            forall|i: int|
                0 <= i < self.opened().len() ==> #[trigger] self.laid_upto(i + 1) == self.laid_upto(
                    i,
                ) + self.nested(i).laid_out(),
            self.reads_pages() ==> self.own_nodes() == 0,
    {
    }

    /// The pages laid out for the first `i` nested buckets depend on those
    /// buckets only.
    proof fn lemma_laid_agree(&self, other: Bucket, i: int)
        requires
            0 <= i <= self.buckets@.len(),
            i <= other.buckets@.len(),
            forall|j: int| 0 <= j < i ==> self.buckets@[j].bucket == other.buckets@[j].bucket,
        ensures
            self.laid_upto(i) == other.laid_upto(i),
        decreases i,
    {
        if i > 0 {
            self.lemma_laid_agree(other, i - 1);
        }
    }

    /// The two buckets differ at most in what is kept of the last rebalance.
    pub closed spec fn same_but_reshape(&self, other: Bucket) -> bool {
        &&& self.meta == other.meta
        &&& self.root == other.root
        &&& self.dirty == other.dirty
        &&& self.writable == other.writable
        &&& self.buckets == other.buckets
        &&& self.height == other.height
    }

    /// What is kept of the last rebalance has no part in what a bucket holds.
    proof fn lemma_reshape_inv(&self, other: Bucket, pages: Seq<Page>)
        requires
            self.same_but_reshape(other),
        ensures
            self.inv(pages) == other.inv(pages),
            self.touched() == other.touched(),
            self.map(pages) == other.map(pages),
            self.opened() == other.opened(),
            forall|i: int| self.touched_upto(i) == other.touched_upto(i),
    {
        assert(self.opened() =~= other.opened());
        assert forall|i: int| self.touched_upto(i) == other.touched_upto(i) by {
            if self.touched_upto(i) {
                let j = choose|j: int|
                    0 <= j < i && j < self.buckets@.len() && (
                    #[trigger] self.buckets@[j]).bucket.touched();
                assert(other.buckets@[j].bucket.touched());
            }
            if other.touched_upto(i) {
                let j = choose|j: int|
                    0 <= j < i && j < other.buckets@.len() && (
                    #[trigger] other.buckets@[j]).bucket.touched();
                assert(self.buckets@[j].bucket.touched());
            }
        }
    }

    /// Something was written to the bucket, or to a nested bucket that was
    /// opened in it, or to one opened in that, and so on.
    pub closed spec fn touched(&self) -> bool
        decreases self, 1nat,
    {
        self.dirty || self.touched_upto(self.buckets@.len() as int)
    }

    /// One of the first `i` nested buckets that were opened is touched.
    pub closed spec fn touched_upto(&self, i: int) -> bool
        decreases self, 0nat,
    {
        exists|j: int|
            0 <= j < i && j < self.buckets@.len() && (#[trigger] self.buckets@[j]).bucket.touched()
    }

    /// What `touched` means.
    pub proof fn lemma_touched(&self)
        ensures
            self.touched() == (self.is_dirty() || exists|j: int|
                0 <= j < self.opened().len() && (#[trigger] self.nested(j)).touched()),
            self.is_dirty() ==> self.touched(),
    {
        if self.touched_upto(self.buckets@.len() as int) {
            let j = choose|j: int|
                0 <= j < self.buckets@.len() && (#[trigger] self.buckets@[j]).bucket.touched();
            assert(self.nested(j).touched());
        }
        if exists|j: int| 0 <= j < self.opened().len() && (#[trigger] self.nested(j)).touched() {
            let j = choose|j: int|
                0 <= j < self.opened().len() && (#[trigger] self.nested(j)).touched();
            assert(self.buckets@[j].bucket.touched());
        }
    }

    /// The header of the bucket points at pages that hold what the
    /// bucket holds.
    pub closed spec fn persisted(&self, pages: Seq<Page>) -> bool {
        exists|h: nat|
            target_good(pages, Target::Page(self.meta.root_page), h) && #[trigger] target_tree(
                pages,
                Target::Page(self.meta.root_page),
                h,
            ).flat() == self.entries(pages)
    }

    /// What `persisted` means: the header points at a well-formed tree,
    /// and the pages hold under it what the bucket holds.
    pub proof fn lemma_persisted(&self, pages: Seq<Page>)
        ensures
            self.persisted(pages) == (rooted(pages, self.header()) && stored(pages, self.header())
                == self.entries(pages)),
    {
        let t = Target::Page(self.meta.root_page);
        if self.persisted(pages) {
            let h = choose|h: nat|
                target_good(pages, t, h) && #[trigger] target_tree(pages, t, h).flat()
                    == self.entries(pages);
            let h2 = choose|h: nat| target_good(pages, t, h);
            lemma_one_height(pages, t, h, h2);
        }
        if rooted(pages, self.header()) && stored(pages, self.header()) == self.entries(pages) {
            let h2 = choose|h: nat| target_good(pages, t, h);
            assert(target_tree(pages, t, h2).flat() == self.entries(pages));
        }
    }

    /// Every node of the bucket goes on a page.
    pub closed spec fn compact(&self, page_size: usize) -> bool {
        target_packed(self.root, self.height@, page_size)
    }

    /// A bucket stays well formed, and holds what it held, when pages are
    /// added to the store.
    pub proof fn lemma_inv_extends(&self, earlier: Seq<Page>, later: Seq<Page>)
        requires
            self.inv(earlier),
            extends(later, earlier),
            pages_wf(later),
        ensures
            self.inv(later),
            self.tree(later) == self.tree(earlier),
            self.entries(later) == self.entries(earlier),
            self.map(later) == self.map(earlier),
        decreases self,
    {
        lemma_extends_target(earlier, later, self.root, self.height@);
        assert forall|i: int| 0 <= i < self.buckets@.len() implies (
        #[trigger] self.buckets@[i]).bucket.inv(later) by {
            assert(self.buckets@[i].bucket.inv(earlier));
            self.buckets@[i].bucket.lemma_inv_extends(earlier, later);
        }
        assert forall|k: Seq<u8>|
            #[trigger] self.map(later).contains_key(k) && self.map(later)[k]
                is Bucket implies self.has_opened(k) || rooted(later, self.map(later)[k]->meta) by {
            assert(self.map(earlier).contains_key(k));
            if !self.has_opened(k) {
                lemma_extends_rooted(earlier, later, self.map(earlier)[k]->meta);
            }
        }
    }

    /// A bucket whose header points at pages that hold what it holds
    /// still has such a header when pages are added to the store.
    pub proof fn lemma_persisted_extends(&self, earlier: Seq<Page>, later: Seq<Page>)
        requires
            self.inv(earlier),
            self.persisted(earlier),
            extends(later, earlier),
            pages_wf(later),
        ensures
            self.persisted(later),
            rooted(later, self.header()),
    {
        self.lemma_inv_extends(earlier, later);
        let h = choose|h: nat|
            target_good(earlier, Target::Page(self.meta.root_page), h) && #[trigger] target_tree(
                earlier,
                Target::Page(self.meta.root_page),
                h,
            ).flat() == self.entries(earlier);
        lemma_extends_target(earlier, later, Target::Page(self.meta.root_page), h);
        assert(target_good(later, Target::Page(self.meta.root_page), h));
        assert(target_tree(later, Target::Page(self.meta.root_page), h).flat() == self.entries(
            later,
        ));
    }

    /// A bucket that reads from its pages only has a header that points
    /// at what it holds.
    proof fn lemma_clean_persisted(&self, pages: Seq<Page>)
        requires
            self.inv(pages),
            self.root is Page,
        ensures
            self.persisted(pages),
            rooted(pages, self.meta),
    {
        assert(target_tree(pages, Target::Page(self.meta.root_page), self.height@).flat()
            == self.entries(pages));
    }

    /// Restores the shape of the tree of this bucket and lays out its
    /// pages.  Nodes that have become nearly empty are merged first; a
    /// root left with a single child gives way to that child, and if the
    /// child is a page that no write has reached, nothing more is done.
    /// Then nodes that have outgrown a page are split, the tree growing a
    /// new root for as long as the root itself is split.  At the end the
    /// nodes are written to pages of their own and the header points at
    /// the page of the root.
    fn rebalance_own(&mut self, store: &mut PageStore)
        requires
            old(self).inv(old(store)@),
            old(self).dirty,
            headers_rooted(old(store)@, old(self).entries(old(store)@)),
        ensures
            final(self).inv(final(store)@),
            final(self).persisted(final(store)@),
            final(self).entries(final(store)@) == old(self).entries(old(store)@),
            final(self).compact(old(store).page_size),
            final(self).dirty,
            final(self).writable == old(self).writable,
            final(self).buckets == old(self).buckets,
            final(self).meta.next_int == old(self).meta.next_int,
            extends(final(store)@, old(store)@),
            final(store).committed == old(store).committed,
            final(store).page_size == old(store).page_size,
            grown(final(store).freed@, old(store).freed@),
            final(self).height@ + 1 >= old(self).height@,
            old(self).root is Page ==> final(self).root == old(self).root && final(self).height
                == old(self).height && final(store)@ == old(store)@ && final(store).freed == old(store).freed,
            final(self).root is Page ==> final(self).height@ <= old(self).height@ && final(store)@ == old(store)@ && final(self).meta.root_page < old(store)@.len(),
            old(self).root is Node && final(self).root is Page ==> final(self).height@ + 1 == old(self).height@ && (old(self).root->Node_0.page_id matches Some(p) ==> final(store).freed@.len() > 0 && final(store).freed@.last() == p),
            final(self).root is Node ==> final(self).meta.root_page == final(store)@.len() - 1
                && final(store)@.len() > old(store)@.len(),
            final(store)@.len() == old(store)@.len() + final(self).own_nodes(),
            final(self).reshape@ matches Some(r) && r.grew > 0 && old(self).root is Node
                ==> final(self).root_fanout() >= 2,
            old(self).root is Page ==> final(self).reshape == old(self).reshape,
            old(self).root is Node ==> (final(self).reshape@ matches Some(r) && own_reshaped(
                old(store)@,
                old(store).page_size,
                old(self).entries(old(store)@),
                old(self).height@,
                old(self).root->Node_0.page_id,
                r,
                final(self).root,
                final(self).height@,
                final(store).freed@,
            )),
    {
        let ghost pages = store@;
        let ghost before = *self;
        let ghost entries = self.entries(pages);
        let ghost mut h: nat = self.height@;
        proof {
            lemma_grown_step(old(store).freed@, old(store).freed@, store.freed@);
        }
        if self.root_is_page() {
            proof {
                self.lemma_clean_persisted(pages);
            }
            return ;
        }
        let page_size = store.page_size;
        let min_fill = store.min_fill();
        let mut taken = Target::Page(0);
        std::mem::swap(&mut self.root, &mut taken);
        let mut node = match taken {
            Target::Node(n) => n,
            Target::Page(_) => vstd::pervasive::unreached(),
        };
        let under = node.merge(
            &mut store.freed,
            page_size,
            min_fill,
            Ghost(pages),
            Ghost(h),
            Ghost(None),
            Ghost(None),
        );
        let ghost merged = node.data;
        let ghost origin = node.page_id;
        let ghost mut grew: nat = 0;
        let ghost gave = under && !(node.data is Leaf) && node.data.spec_len() == 1;
        if under && !node.leaf() && node.data.len() == 1 {
            // the root has a single child left: the child becomes the root
            let ghost freed1 = store.freed@;
            node.free_page(&mut store.freed);
            proof {
                lemma_grown_step(old(store).freed@, freed1, store.freed@);
            }
            let ghost top = node.data;
            proof {
                lemma_links(pages, top, h);
                let links = links_of(pages, top->Branches_0@, (h - 1) as nat);
                assert(flat_upto(links, 1) == flat_upto(links, 0) + links[0].sub.flat());
                assert(flat_all(links) =~= links[0].sub.flat());
                assert(target_ok(pages, top->Branches_0@[0].target, (h - 1) as nat));
                assert(links[0].sub.shaped((h - 1) as nat));
                assert(links[0].sub.ordered());
                h = (h - 1) as nat;
            }
            let Node { page_id: _, data } = node;
            let child = match data {
                NodeData::Branches(bs) => {
                    let mut bs = bs;
                    match bs.pop() {
                        Some(b) => b.target,
                        None => vstd::pervasive::unreached(),
                    }
                },
                NodeData::Leaf(_) => vstd::pervasive::unreached(),
            };
            match child {
                Target::Page(p) => {
                    self.root = Target::Page(p);
                    self.meta.root_page = p;
                    self.height = Ghost(h);
                    self.reshape = Ghost(
                        Some(Reshape { merged, origin, gave_way: true, grew: 0 }),
                    );
                    proof {
                        lemma_flat_sorted(self.tree(pages));
                        lemma_flat_map(self.entries(pages));
                        before.lemma_inv_after(*self, pages);
                        self.lemma_clean_persisted(pages);
                    }
                    return ;
                },
                Target::Node(c) => {
                    node = c;
                },
            }
        }
        let ghost whole = data_tree(pages, node.data, h);
        let r = node.split(page_size, Ghost(pages), Ghost(h), Ghost(None), Ghost(None));
        proof {
            assert(links_of(pages, Seq::<Branch>::empty(), h) =~= Seq::<Link>::empty());
        }
        let ghost sibs = given(r);
        let mut level = level_of(node, r);
        proof {
            assert forall|j: int| 1 <= j < level@.len() implies level@[j] == sibs[j - 1] by {
                assert(level@.subrange(1, level@.len() as int)[j - 1] == level@[j]);
            }
        }
        let ghost mut whole = whole;
        let ghost h0 = h;
        while level.len() > 1
            invariant
                level@.len() >= 1,
                h + 1 >= before.height@,
                h == h0 + grew,
                grew > 0 ==> level@[0].target->Node_0.data is Branches
                    && level@[0].target->Node_0.data.spec_len() >= 2,
                whole.ordered(),
                whole.flat() == entries,
                level_ok(pages, h, level@, whole, page_size),
            decreases level@.len(),
        {
            let ghost items = level@;
            let mut n = Node::with_data(NodeData::Branches(level));
            proof {
                lemma_wrap(pages, h, n.data, whole, page_size);
                h = h + 1;
                whole = data_tree(pages, n.data, h);
            }
            let r = n.split_self(page_size, Ghost(pages), Ghost(h), Ghost(None), Ghost(None));
            proof {
                grew = grew + 1;
                assert(links_of(pages, Seq::<Branch>::empty(), h) =~= Seq::<Link>::empty());
            }
            let ghost sibs = given(r);
            level = level_of(n, r);
            proof {
                assert forall|j: int| 1 <= j < level@.len() implies level@[j] == sibs[j - 1] by {
                    assert(level@.subrange(1, level@.len() as int)[j - 1] == level@[j]);
                }
            }
        }
        let top = match level.pop() {
            Some(b) => match b.target {
                Target::Node(n) => n,
                Target::Page(_) => vstd::pervasive::unreached(),
            },
            None => vstd::pervasive::unreached(),
        };
        proof {
            let more = links_of(pages, Seq::<Branch>::empty(), h);
            assert(more =~= Seq::<Link>::empty());
            assert(flat_all(more) =~= Seq::<Entry>::empty());
            assert(data_tree(pages, top.data, h).flat() =~= entries);
        }
        let id = top.write(store, Ghost(h));
        self.meta.root_page = id;
        self.root = Target::Node(top);
        self.height = Ghost(h);
        self.reshape = Ghost(Some(Reshape { merged, origin, gave_way: gave, grew }));
        proof {
            let later = store@;
            before.lemma_inv_extends(pages, later);
            lemma_extends_target(pages, later, self.root, h);
            lemma_flat_sorted(self.tree(later));
            lemma_flat_map(self.entries(later));
            before.lemma_inv_after(*self, later);
            assert(target_tree(later, Target::Page(id), h).flat() == self.entries(later));
        }
    }

    /// Whether the root is a page that no write has reached.
    fn root_is_page(&self) -> (r: bool)
        ensures
            r == (self.root is Page),
    {
        match &self.root {
            Target::Page(_) => true,
            Target::Node(_) => false,
        }
    }
}

/// The root gives way to its only child: it is a branch with one child and
/// takes fewer bytes than `min_fill`.
/// What a rebalance has done to the tree of a bucket that had a root node:
/// `merged` is the root as merging left it, with nothing left to fold
/// among its children.  The root gave way to its only child exactly if it
/// was left a branch with one child that takes fewer bytes than a quarter
/// of a page; then the tree is one level lower, the page that the root was
/// copied from is the last that was given back, and if the child is a page
/// that no write has reached, the header points at that page and nothing
/// more is done.  Otherwise the tree is written to new pages, one level
/// higher for each new root that splitting has put on top.
pub open spec fn rebalanced(
    page_size: usize,
    height: nat,
    merged: NodeData,
    origin: Option<PageID>,
    gave_way: bool,
    grew: nat,
    reads_pages: bool,
    root_page: PageID,
    new_height: nat,
    freed: Seq<PageID>,
) -> bool {
    let min_fill = (page_size / 4) as usize;
    &&& merged matches NodeData::Branches(bs) ==> merged_upto(
        bs@,
        bs@.len() as int,
        page_size,
        min_fill,
    )
    &&& gave_way == gives_way(merged, min_fill)
    &&& gave_way ==> match merged->Branches_0@[0].target {
        Target::Page(p) => reads_pages && root_page == p && new_height + 1 == height && grew == 0,
        Target::Node(_) => !reads_pages && new_height + 1 == height + grew,
    }
    &&& !gave_way ==> !reads_pages && new_height == height + grew
    &&& gave_way ==> (origin matches Some(p) ==> freed.len() > 0 && freed.last() == p)
}

/// What the rebalance of one tree has done: the root was merged; it gave
/// way to its only child exactly if it was left a branch with one child
/// that takes fewer bytes than a quarter of a page; the height is what it
/// was, one less if the root gave way, and one more for each new root; the
/// page of a root that gave way is the last that was given back.
pub open spec fn own_reshaped(
    pages: Seq<Page>,
    page_size: usize,
    entries: Seq<Entry>,
    height: nat,
    origin: Option<PageID>,
    r: Reshape,
    root: Target,
    new_height: nat,
    freed: Seq<PageID>,
) -> bool {
    let min_fill = (page_size / 4) as usize;
    &&& r.origin == origin
    &&& data_good(pages, r.merged, height)
    &&& data_tree(pages, r.merged, height).flat() == entries
    &&& r.merged matches NodeData::Branches(bs) ==> merged_upto(
        bs@,
        bs@.len() as int,
        page_size,
        min_fill,
    )
    &&& r.gave_way == gives_way(r.merged, min_fill)
    &&& r.gave_way ==> match r.merged->Branches_0@[0].target {
        Target::Page(p) => root == Target::Page(p) && new_height + 1 == height && r.grew == 0,
        Target::Node(_) => root is Node && new_height + 1 == height + r.grew,
    }
    &&& !r.gave_way ==> root is Node && new_height == height + r.grew
    &&& r.gave_way ==> (origin matches Some(p) ==> freed.len() > 0 && freed.last() == p)
}

/// The root gives way to its only child: it is a branch with one child and
/// takes fewer bytes than `min_fill`.
pub open spec fn gives_way(root: NodeData, min_fill: usize) -> bool {
    root is Branches && root.spec_len() == 1 && data_bytes(root) < min_fill
}

/// The first node of a level and the nodes that a split has handed back.
fn level_of(node: Node, r: Option<Vec<Branch>>) -> (level: Vec<Branch>)
    requires
        r is Some ==> node.data.spec_len() > 0,
    ensures
        level@.len() == 1 + given(r).len(),
        level@[0].target == Target::Node(node),
        level@.subrange(1, level@.len() as int) == given(r),
{
    let mut level: Vec<Branch> = Vec::new();
    match r {
        Some(sibs) => {
            let key = node.data.first_key();
            level.push(Branch { key, target: Target::Node(node) });
            let mut sibs = sibs;
            level.append(&mut sibs);
        },
        None => {
            level.push(Branch { key: Vec::new(), target: Target::Node(node) });
        },
    }
    assert(level@.subrange(1, level@.len() as int) =~= given(r));
    level
}

/// The nodes of one level, the first of them and then those that were
/// split off to its right, are the parts of the tree `whole`: each is
/// well formed and goes on a page, and together they hold its entries.
pub open spec fn level_ok(
    pages: Seq<Page>,
    h: nat,
    level: Seq<Branch>,
    whole: Tree,
    page_size: usize,
) -> bool {
    let first = target_tree(pages, level[0].target, h);
    let more = links_of(pages, level.subrange(1, level.len() as int), h);
    &&& level.len() >= 1
    &&& parts_ok(first, more, None, None)
    &&& first.flat() + flat_all(more) == whole.flat()
    &&& forall|j: int|
        0 <= j < level.len() ==> {
            &&& (#[trigger] level[j]).target is Node
            &&& target_ok(pages, level[j].target, h)
            &&& target_tree(pages, level[j].target, h).shaped(h)
            &&& target_packed(level[j].target, h, page_size)
        }
}

/// The nodes of one level under a new node: the new node is well formed,
/// one level higher, and holds the entries of the tree that the nodes are
/// the parts of.
pub proof fn lemma_wrap(pages: Seq<Page>, h: nat, data: NodeData, whole: Tree, page_size: usize)
    requires
        data is Branches,
        whole.ordered(),
        level_ok(pages, h, data->Branches_0@, whole, page_size),
    ensures
        data_good(pages, data, h + 1),
        data_tree(pages, data, h + 1).flat() == whole.flat(),
        kids_packed(data, h + 1, page_size),
{
    let level = data->Branches_0@;
    let first = target_tree(pages, level[0].target, h);
    let rest = level.subrange(1, level.len() as int);
    let more = links_of(pages, rest, h);
    let links0 = seq![Link { key: level[0].key@, sub: whole }];
    assert(links0[0].sub == whole);
    assert(flat_upto(links0, 1) == flat_upto(links0, 0) + links0[0].sub.flat());
    assert(flat_all(links0) =~= whole.flat());
    assert(Tree::Branch(links0).ordered());
    lemma_expand(links0, 0, first, more, None, None);
    let links = links_of(pages, level, h);
    let mid = seq![Link { key: links0[0].key, sub: first }] + more;
    assert forall|j: int| 1 <= j < level.len() implies rest[j - 1] == level[j] by {}
    assert(crate::tree::replaced(links0, 0, 1, mid) =~= links);
    lemma_links(pages, data, h + 1);
    assert forall|k: int| 0 <= k < links.len() implies (#[trigger] links[k]).sub.shaped(h) by {
        assert(target_tree(pages, level[k].target, h).shaped(h));
    }
}

impl Bucket {
    /// Nested bucket `j` is done: its header points at pages that hold
    /// what it holds, and this bucket keeps that header under its name.
    pub closed spec fn kid_done(&self, before: Bucket, j: int, pages: Seq<Page>, start: Seq<Page>) -> bool {
        let kid = self.buckets@[j].bucket;
        let name = self.buckets@[j].name@;
        &&& kid.persisted(pages)
        &&& self.map(pages).contains_key(name)
        &&& self.map(pages)[name] == (Entry::Bucket { name, meta: kid.meta })
        &&& kid.meta.next_int == before.buckets@[j].bucket.meta.next_int
        &&& same_pairs(before.buckets@[j].bucket.map(start), kid.map(pages))
    }

    /// What `kid_done` says, for callers.
    pub proof fn lemma_kid_done(&self, before: Bucket, j: int, pages: Seq<Page>, start: Seq<Page>)
        requires
            0 <= j < self.opened().len(),
        ensures
            self.kid_done(before, j, pages, start) == ({
                &&& rooted(pages, self.nested(j).header())
                &&& stored(pages, self.nested(j).header()) == self.nested(j).entries(pages)
                &&& self.map(pages).contains_key(self.opened()[j])
                &&& self.map(pages)[self.opened()[j]] == (Entry::Bucket {
                    name: self.opened()[j],
                    meta: self.nested(j).header(),
                })
                &&& self.nested(j).counter() == before.nested(j).counter()
                &&& same_pairs(before.nested(j).map(start), self.nested(j).map(pages))
            }),
    {
        self.buckets@[j].bucket.lemma_persisted(pages);
    }

    /// The nested buckets that are done stay done when pages are added to
    /// the store and the entries of this bucket stay what they were.
    proof fn lemma_kids_extend(
        &self,
        after: Bucket,
        before: Bucket,
        i: int,
        earlier: Seq<Page>,
        later: Seq<Page>,
        start: Seq<Page>,
    )
        requires
            self.inv(earlier),
            after.inv(later),
            extends(later, earlier),
            after.buckets@.len() == self.buckets@.len(),
            forall|j: int| 0 <= j < i ==> after.buckets@[j] == self.buckets@[j],
            0 <= i <= self.buckets@.len(),
            forall|j: int| 0 <= j < i ==> self.kid_done(before, j, earlier, start),
            forall|j: int|
                0 <= j < i ==> after.map(later).contains_key(#[trigger] self.buckets@[j].name@)
                    && after.map(later)[self.buckets@[j].name@] == self.map(
                    earlier,
                )[self.buckets@[j].name@],
        ensures
            forall|j: int| 0 <= j < i ==> after.kid_done(before, j, later, start),
    {
        assert forall|j: int| 0 <= j < i implies after.kid_done(before, j, later, start) by {
            let kid = self.buckets@[j].bucket;
            assert(self.kid_done(before, j, earlier, start));
            assert(self.buckets@[j].bucket.inv(earlier));
            kid.lemma_persisted_extends(earlier, later);
            kid.lemma_inv_extends(earlier, later);
            assert(after.map(later).contains_key(self.buckets@[j].name@));
        }
    }

    /// The headers that this bucket keeps point at well-formed trees, once
    /// every nested bucket that was opened is done.
    proof fn lemma_headers(&self, before: Bucket, pages: Seq<Page>, start: Seq<Page>)
        requires
            self.inv(pages),
            forall|j: int| 0 <= j < self.buckets@.len() ==> self.kid_done(before, j, pages, start),
        ensures
            headers_rooted(pages, self.entries(pages)),
    {
        let s = self.entries(pages);
        lemma_flat_sorted(self.tree(pages));
        lemma_flat_map(s);
        assert forall|k: int| 0 <= k < s.len() && (#[trigger] s[k]) is Bucket implies rooted(
            pages,
            s[k]->meta,
        ) by {
            let key = s[k].key();
            assert(self.map(pages).contains_key(key));
            if self.has_opened(key) {
                let j = choose|j: int| 0 <= j < self.opened().len() && self.opened()[j] == key;
                assert(self.buckets@[j].name@ == key);
                assert(self.kid_done(before, j, pages, start));
                let kid = self.buckets@[j].bucket;
                let h = choose|h: nat|
                    target_good(pages, Target::Page(kid.meta.root_page), h)
                        && #[trigger] target_tree(pages, Target::Page(kid.meta.root_page), h).flat()
                        == kid.entries(pages);
                assert(target_good(pages, Target::Page(kid.meta.root_page), h));
            }
        }
    }

    /// Makes the bucket and every nested bucket that was opened ready for
    /// commit and returns the header to keep for it.
    ///
    /// The nested buckets come first, in the order in which they were
    /// opened; the new header of each that was written to is put under its
    /// name.  If anything was written to this bucket or under it, its tree
    /// is then merged and split back into shape and written to new pages
    /// at the end of the store, and the header points at the new root.  What
    /// the bucket holds does not change, but for those headers.  The pages
    /// that were in the store stay as they are, and none becomes durable
    /// before `write`.  One page is laid out for each node, those of the
    /// nested buckets first and the root of this bucket last.
    pub fn rebalance(&mut self, store: &mut PageStore) -> (r: Result<BucketMeta, Error>)
        requires
            old(self).inv(old(store)@),
        ensures
            r == Ok::<BucketMeta, Error>(final(self).header()),
            final(self).inv(final(store)@),
            final(self).persisted(final(store)@),
            pages_wf(final(store)@),
            rooted(final(store)@, final(self).header()),
            stored(final(store)@, final(self).header()) == final(self).entries(final(store)@),
            headers_rooted(final(store)@, final(self).entries(final(store)@)),
            extends(final(store)@, old(store)@),
            final(store).committed == old(store).committed,
            final(store).page_size == old(store).page_size,
            grown(final(store).freed@, old(store).freed@),
            final(self).counter() == old(self).counter(),
            final(self).is_writable() == old(self).is_writable(),
            final(self).opened() == old(self).opened(),
            old(self).is_dirty() ==> final(self).is_dirty(),
            final(self).is_dirty() == old(self).touched(),
            (exists|j: int|
                0 <= j < old(self).opened().len() && (#[trigger] old(self).nested(j)).is_dirty())
                ==> final(self).is_dirty(),
            final(self).height() + 1 >= old(self).height(),
            final(self).reads_pages() ==> final(self).height() <= old(self).height(),
            !final(self).reads_pages() ==> final(self).header().root_page == final(store)@.len()
                - 1,
            final(store)@.len() == old(store)@.len() + final(self).laid_out(),
            final(self).grew() > 0 ==> final(self).root_fanout() >= 2,
            forall|j: int|
                0 <= j < final(self).opened().len() && !(#[trigger] final(self).nested(j)).reads_pages() ==> final(self).nested(j).header().root_page + final(self).own_nodes() < final(store)@.len(),
            final(self).merged_root() is None ==> final(self).reads_pages() && final(self).height()
                == old(self).height() && !final(self).gave_way() && final(self).grew() == 0,
            final(self).merged_root() matches Some(d) ==> rebalanced(
                old(store).page_size,
                old(self).height(),
                d,
                final(self).merged_origin(),
                final(self).gave_way(),
                final(self).grew(),
                final(self).reads_pages(),
                final(self).header().root_page,
                final(self).height(),
                final(store).freed@,
            ),
            !old(self).reads_pages() ==> final(self).merged_root() is Some && final(self).merged_origin() == old(self).root_origin(),
            !final(self).is_dirty() ==> final(self).header() == old(self).header() && final(self).map(final(store)@) == old(self).map(old(store)@) && final(store)@ == old(store)@
                && final(store).freed == old(store).freed,
            final(self).is_dirty() ==> final(self).compact(old(store).page_size),
            same_pairs(old(self).map(old(store)@), final(self).map(final(store)@)),
            forall|j: int|
                0 <= j < final(self).opened().len() ==> final(self).kid_done(
                    *old(self),
                    j,
                    final(store)@,
                    old(store)@,
                ),
        decreases *old(self),
    {
        let ghost start = store@;
        let ghost unset = *self;
        self.reshape = Ghost(None);
        let ghost before = *self;
        proof {
            unset.lemma_reshape_inv(before, start);
        }
        let n = self.buckets.len();
        let mut i: usize = 0;
        proof {
            lemma_grown_step(old(store).freed@, old(store).freed@, store.freed@);
        }
        while i < n
            invariant
                i <= n,
                n == self.buckets@.len(),
                n == old(self).buckets@.len(),
                before.same_but_reshape(*old(self)),
                before.reshape@ is None,
                self.reshape@ is None,
                store@.len() == start.len() + self.laid_upto(i as int),
                forall|j: int|
                    0 <= j < i && (#[trigger] self.buckets@[j]).bucket.root is Node
                        ==> self.buckets@[j].bucket.meta.root_page < store@.len(),
                !before.reads_pages() ==> !self.reads_pages() && self.root_origin()
                    == before.root_origin(),
                start == old(store)@,
                self.inv(store@),
                extends(store@, start),
                store.committed == old(store).committed,
                store.page_size == old(store).page_size,
                grown(store.freed@, old(store).freed@),
                self.meta.next_int == before.meta.next_int,
                self.writable == before.writable,
                self.opened() == before.opened(),
                before.dirty ==> self.dirty,
                self.dirty == (before.dirty || before.touched_upto(i as int)),
                self.height == before.height,
                before.inv(start),
                !self.dirty ==> self.meta == before.meta && self.root == before.root && self.height
                    == before.height && store@ == start && store.freed == old(store).freed,
                same_pairs(before.map(start), self.map(store@)),
                forall|j: int| 0 <= j < i ==> self.kid_done(before, j, store@, start),
                forall|j: int| i <= j < n ==> self.buckets@[j] == before.buckets@[j],
            decreases n - i,
        {
            let ghost prev = *self;
            let ghost pages1 = store@;
            let ghost freed1 = store.freed@;
            proof {
                assert(prev.buckets@[i as int].bucket.inv(pages1));
                assert(prev.buckets@[i as int].bucket == before.buckets@[i as int].bucket);
            }
            let kid = &mut self.buckets[i];
            let r = kid.bucket.rebalance(store);
            let ghost mid = *self;
            let ghost pages2 = store@;
            proof {
                lemma_extends_chain(start, pages1, pages2);
                lemma_grown_step(old(store).freed@, freed1, store.freed@);
                prev.lemma_inv_extends(pages1, pages2);
                prev.lemma_inv_nested(i as int, pages2);
                assert(prev.differs_at(mid, i as int));
                assert(mid.opened() =~= prev.opened());
                assert(mid.inv(pages2));
                assert(mid.map(pages2) == prev.map(pages1));
                prev.lemma_kids_extend(mid, before, i as int, pages1, pages2, start);
                assert(before.buckets@[i as int].bucket.inv(start));
                before.buckets@[i as int].bucket.lemma_inv_extends(start, pages1);
                before.lemma_touched_step(i as int);
                prev.lemma_laid_agree(mid, i as int);
            }
            if self.buckets[i].bucket.dirty {
                self.dirty = true;
                proof {
                    lemma_flat_sorted(self.tree(pages2));
                    lemma_flat_map(self.entries(pages2));
                    mid.lemma_inv_after(*self, pages2);
                }
                let name = copy_bytes(self.buckets[i].name.as_slice());
                let meta = self.buckets[i].bucket.meta;
                let data = Data::Bucket(BucketData::from_meta(name, &meta));
                let ghost marked = *self;
                proof {
                    assert(marked.map(pages2) == mid.map(pages2));
                    assert forall|j: int| 0 <= j < i implies marked.kid_done(
                        before,
                        j,
                        pages2,
                        start,
                    ) by {
                        assert(mid.kid_done(before, j, pages2, start));
                    }
                }
                match self.put_data(&*store, data) {
                    Ok(_) => {},
                    Err(e) => {
                        return Err(e);
                    },
                }
                proof {
                    assert(self.opened() =~= marked.opened());
                    marked.lemma_kids_put(*self, before, i as int, pages2, start);
                    mid.lemma_laid_agree(*self, i + 1);
                }
            } else {
                proof {
                    mid.lemma_kid_clean(before, i as int, pages2, start);
                }
            }
            i += 1;
        }
        let ghost done = *self;
        let ghost pages3 = store@;
        let ghost freed3 = store.freed@;
        proof {
            done.lemma_headers(before, pages3, start);
            before.lemma_touched();
            if exists|j: int|
                0 <= j < before.opened().len() && (#[trigger] before.nested(j)).is_dirty() {
                let j = choose|j: int|
                    0 <= j < before.opened().len() && (#[trigger] before.nested(j)).is_dirty();
                before.nested(j).lemma_touched();
            }
        }
        if self.dirty {
            self.rebalance_own(store);
            proof {
                lemma_extends_chain(start, pages3, store@);
                lemma_grown_step(old(store).freed@, freed3, store.freed@);
                done.lemma_inv_extends(pages3, store@);
                lemma_extends_headers(pages3, store@, done.entries(pages3));
                done.lemma_kids_extend(*self, before, n as int, pages3, store@, start);
                done.lemma_laid_agree(*self, n as int);
            }
        } else {
            proof {
                self.lemma_clean_persisted(pages3);
            }
        }
        proof {
            self.lemma_persisted(store@);
            assert forall|j: int| 0 <= j < self.opened().len() implies self.kid_done(
                unset,
                j,
                store@,
                start,
            ) by {
                assert(self.kid_done(before, j, store@, start));
            }
        }
        Ok(self.meta)
    }

    /// The first `i + 1` nested buckets hold a touched one if the first `i`
    /// do or nested bucket `i` is touched.
    proof fn lemma_touched_step(&self, i: int)
        requires
            0 <= i < self.buckets@.len(),
        ensures
            self.touched_upto(i + 1) == (self.touched_upto(i) || self.buckets@[i].bucket.touched()),
    {
        if self.touched_upto(i + 1) {
            let j = choose|j: int|
                0 <= j < i + 1 && j < self.buckets@.len() && (
                #[trigger] self.buckets@[j]).bucket.touched();
            if j < i {
                assert(self.touched_upto(i));
            }
        }
        if self.touched_upto(i) {
            let j = choose|j: int|
                0 <= j < i && j < self.buckets@.len() && (
                #[trigger] self.buckets@[j]).bucket.touched();
            assert(self.buckets@[j].bucket.touched());
        }
    }

    /// A nested bucket that nothing was written to is done as it is.
    proof fn lemma_kid_clean(&self, before: Bucket, i: int, pages: Seq<Page>, start: Seq<Page>)
        requires
            self.inv(pages),
            0 <= i < self.buckets@.len(),
            forall|j: int| 0 <= j < i ==> self.kid_done(before, j, pages, start),
            !self.buckets@[i].bucket.dirty,
            self.buckets@[i].bucket.persisted(pages),
            self.buckets@[i].bucket.meta.next_int == before.buckets@[i].bucket.meta.next_int,
            same_pairs(before.buckets@[i].bucket.map(start), self.buckets@[i].bucket.map(pages)),
        ensures
            forall|j: int| 0 <= j < i + 1 ==> self.kid_done(before, j, pages, start),
    {
        let name = self.buckets@[i].name@;
        lemma_flat_sorted(self.tree(pages));
        lemma_flat_map(self.entries(pages));
        assert(self.map(pages).contains_key(name));
        assert(self.map(pages)[name].key() == name);
    }

    /// After the header of nested bucket `i` was put under its name, the
    /// nested buckets up to `i` are done.
    proof fn lemma_kids_put(
        &self,
        after: Bucket,
        before: Bucket,
        i: int,
        pages: Seq<Page>,
        start: Seq<Page>,
    )
        requires
            self.inv(pages),
            after.inv(pages),
            after.buckets == self.buckets,
            0 <= i < self.buckets@.len(),
            forall|j: int| 0 <= j < i ==> self.kid_done(before, j, pages, start),
            after.map(pages) == self.map(pages).insert(
                self.buckets@[i].name@,
                Entry::Bucket { name: self.buckets@[i].name@, meta: self.buckets@[i].bucket.meta },
            ),
            self.buckets@[i].bucket.persisted(pages),
            self.buckets@[i].bucket.meta.next_int == before.buckets@[i].bucket.meta.next_int,
            same_pairs(before.buckets@[i].bucket.map(start), self.buckets@[i].bucket.map(pages)),
        ensures
            forall|j: int| 0 <= j < i + 1 ==> after.kid_done(before, j, pages, start),
    {
        assert forall|j: int| 0 <= j < i + 1 implies after.kid_done(before, j, pages, start) by {
            if j < i {
                assert(self.kid_done(before, j, pages, start));
                assert(self.buckets@[j].name@ != self.buckets@[i].name@);
            }
        }
    }

    /// Commits what `rebalance` has laid out: the pages at the end of the
    /// store become durable, and the bucket lets go of its nodes and of
    /// the nested buckets that were opened, to read from the pages again.
    /// It holds what it held.
    pub fn write(&mut self, store: &mut PageStore) -> (r: Result<(), Error>)
        requires
            old(self).inv(old(store)@),
            old(self).persisted(old(store)@),
            headers_rooted(old(store)@, old(self).entries(old(store)@)),
        ensures
            r is Ok,
            final(self).inv(final(store)@),
            final(self).entries(final(store)@) == old(self).entries(old(store)@),
            final(self).map(final(store)@) == old(self).map(old(store)@),
            final(self).persisted(final(store)@),
            pages_wf(final(store)@),
            rooted(final(store)@, final(self).header()),
            stored(final(store)@, final(self).header()) == final(self).entries(final(store)@),
            final(self).header() == old(self).header(),
            final(self).counter() == old(self).counter(),
            final(self).is_writable() == old(self).is_writable(),
            !final(self).is_dirty(),
            final(self).opened().len() == 0,
            final(store)@ == old(store)@,
            final(store).committed == old(store)@.len(),
            final(store).freed == old(store).freed,
            final(store).page_size == old(store).page_size,
    {
        let ghost pages = store@;
        let ghost entries = self.entries(pages);
        let ghost h = choose|h: nat|
            target_good(pages, Target::Page(self.meta.root_page), h) && #[trigger] target_tree(
                pages,
                Target::Page(self.meta.root_page),
                h,
            ).flat() == self.entries(pages);
        self.root = Target::Page(self.meta.root_page);
        self.dirty = false;
        self.buckets = Vec::new();
        self.height = Ghost(h);
        store.commit();
        proof {
            assert(self.entries(pages) == entries);
            lemma_flat_sorted(self.tree(pages));
            lemma_flat_map(entries);
            assert(self.opened() =~= Seq::<Seq<u8>>::empty());
            self.lemma_persisted(pages);
        }
        Ok(())
    }

    /// The header of the page that the tree of the bucket starts at, for
    /// a caller to print: its identifier, its kind, and the number of items
    /// on it.  `None` if the store does not hold that page yet.
    pub fn print(&self, store: &PageStore) -> (r: Option<PageHeader>)
        ensures
            r == (if self.header().root_page < store@.len() {
                Some(store@[self.header().root_page as int].spec_header())
            } else {
                None
            }),
    {
        if store.has(self.meta.root_page) {
            Some(store.page(self.meta.root_page).header())
        } else {
            None
        }
    }
}

/// The entry that a descent has found is in the leaf it ended in.
pub proof fn lemma_found_current(t: Tree, path: Seq<int>, i: int, key: Seq<u8>, h: nat)
    requires
        t.shaped(h),
        t.ordered(),
        t.has_path(path),
        t.leads(path, key),
        t.subtree(path) is Leaf,
        crate::listing::lower_bound(t.subtree(path).flat(), key, i),
        has_key(t.flat(), key),
    ensures
        i < t.subtree(path).flat().len(),
        t.subtree(path).flat()[i].key() == key,
{
    lemma_subtree(t, path, h);
    crate::cursor::lemma_found(t, path, key, i);
}

/// The entries of a tree that is all pages are entries of leaf pages, so
/// the headers among them point at well-formed trees.
pub proof fn lemma_stored_rooted(pages: Seq<Page>, p: PageID, h: nat)
    requires
        pages_wf(pages),
        target_ok(pages, Target::Page(p), h),
    ensures
        forall|k: int|
            0 <= k < target_tree(pages, Target::Page(p), h).flat().len() && (
            #[trigger] target_tree(pages, Target::Page(p), h).flat()[k]) is Bucket ==> rooted(
                pages,
                target_tree(pages, Target::Page(p), h).flat()[k]->meta,
            ),
    decreases h, 1nat,
{
    let data = pages[p as int].data;
    let s = target_tree(pages, Target::Page(p), h).flat();
    match data {
        NodeData::Leaf(es) => {
            assert forall|k: int| 0 <= k < s.len() && (#[trigger] s[k]) is Bucket implies rooted(
                pages,
                s[k]->meta,
            ) by {
                assert(s[k] == es@[k]@);
            }
        },
        NodeData::Branches(bs) => {
            lemma_stored_upto(pages, p, h, bs@.len() as int);
        },
    }
}

/// The same for the entries under the first `n` children of a branch page.
pub proof fn lemma_stored_upto(pages: Seq<Page>, p: PageID, h: nat, n: int)
    requires
        pages_wf(pages),
        target_ok(pages, Target::Page(p), h),
        pages[p as int].data is Branches,
        0 <= n <= pages[p as int].data->Branches_0@.len(),
    ensures
        forall|k: int|
            0 <= k < crate::tree::flat_upto(
                target_tree(pages, Target::Page(p), h)->Branch_0,
                n,
            ).len() && (#[trigger] crate::tree::flat_upto(
                target_tree(pages, Target::Page(p), h)->Branch_0,
                n,
            )[k]) is Bucket ==> rooted(
                pages,
                crate::tree::flat_upto(target_tree(pages, Target::Page(p), h)->Branch_0, n)[k]->meta,
            ),
    decreases h, 0nat, n,
{
    let bs = pages[p as int].data->Branches_0@;
    let links = target_tree(pages, Target::Page(p), h)->Branch_0;
    if n > 0 {
        lemma_stored_upto(pages, p, h, n - 1);
        let a = crate::tree::flat_upto(links, n - 1);
        let s = crate::tree::flat_upto(links, n);
        assert(target_ok(pages, bs[n - 1].target, (h - 1) as nat));
        assert(bs[n - 1].target is Page);
        let q = bs[n - 1].target->Page_0;
        lemma_stored_rooted(pages, q, (h - 1) as nat);
        let c = links[n - 1].sub.flat();
        assert(links[n - 1].sub == target_tree(pages, Target::Page(q), (h - 1) as nat));
        assert(s == a + c);
        assert forall|k: int| 0 <= k < s.len() && (#[trigger] s[k]) is Bucket implies rooted(
            pages,
            s[k]->meta,
        ) by {
            if k < a.len() {
                assert(s[k] == a[k]);
            } else {
                assert(s[k] == c[k - a.len()]);
            }
        }
    }
}

} // verus!
