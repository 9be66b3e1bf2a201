//! Pages: the immutable, persisted form of the nodes of a tree, and the
//! store that holds them.

use vstd::prelude::*;
use crate::data::Entry;
use crate::meta::{BucketMeta, PageID};
use crate::node::{
    copy_branches, copy_entries, target_good, target_tree, NodeData, Target,
};

verus! {

/// What a page of a tree holds.
#[derive(Debug, Clone, Copy, PartialEq, Eq, Structural)]
pub enum PageKind {
    /// Child pointers.
    Branch,
    /// Entries.
    Leaf,
}

/// One persisted node of a tree.  A page is never changed once it is in
/// the store: a change is made on a node copied from it, and the node is
/// later written to a page of its own.
#[derive(Debug)]
pub struct Page {
    pub id: PageID,
    pub data: NodeData,
}

/// Every child pointer in `data` points at a page.
pub open spec fn pure(data: NodeData) -> bool {
    match data {
        NodeData::Leaf(_) => true,
        NodeData::Branches(bs) => forall|k: int| 0 <= k < bs@.len() ==> (#[trigger] bs@[k]).target is Page,
    }
}

/// What a page starts with.
#[derive(Debug, Clone, Copy, PartialEq, Eq, Structural)]
pub struct PageHeader {
    pub id: PageID,
    pub kind: PageKind,
    /// The number of entries or child pointers, capped at `u32::MAX`.
    pub count: u32,
}

impl Page {
    /// The header of the page.
    pub open spec fn spec_header(&self) -> PageHeader {
        PageHeader {
            id: self.id,
            kind: if self.data is Leaf {
                PageKind::Leaf
            } else {
                PageKind::Branch
            },
            count: if self.data.spec_len() <= u32::MAX {
                self.data.spec_len() as u32
            } else {
                u32::MAX
            },
        }
    }

    /// The header of the page.
    pub fn header(&self) -> (h: PageHeader)
        ensures
            h == self.spec_header(),
    {
        let n = self.data.len();
        let count: u32 = if n <= u32::MAX as usize {
            n as u32
        } else {
            u32::MAX
        };
        PageHeader { id: self.id, kind: self.kind(), count }
    }

    /// Whether the page holds entries or child pointers.
    pub fn kind(&self) -> (k: PageKind)
        ensures
            k == (if self.data is Leaf { PageKind::Leaf } else { PageKind::Branch }),
    {
        match &self.data {
            NodeData::Leaf(_) => PageKind::Leaf,
            NodeData::Branches(_) => PageKind::Branch,
        }
    }

    /// The number of entries or child pointers on the page.
    pub fn count(&self) -> (n: usize)
        ensures
            n == self.data.spec_len(),
    {
        self.data.len()
    }

    /// The content of the page, copied for a node to change.
    pub fn decode(&self) -> (data: NodeData)
        requires
            pure(self.data),
        ensures
            pure(data),
            data.same(self.data),
    {
        match &self.data {
            NodeData::Leaf(es) => NodeData::Leaf(copy_entries(es)),
            NodeData::Branches(bs) => NodeData::Branches(copy_branches(bs)),
        }
    }
}

/// The pages of one store, each found by its identifier.  The store only
/// grows while a transaction runs: the pages up to `committed` are the
/// durable ones, the pages after them are laid out for the next commit.
#[derive(Debug)]
pub struct PageStore {
    pub pages: Vec<Page>,
    /// How many of the pages are durable.
    pub committed: usize,
    /// The pages that no tree points at any more.
    pub freed: Vec<PageID>,
    /// The capacity of one page in bytes.
    pub page_size: usize,
}

/// The capacity of a page unless the caller asks for another.
pub const PAGE_SIZE: usize = 4096;

impl View for PageStore {
    type V = Seq<Page>;

    open spec fn view(&self) -> Seq<Page> {
        self.pages@
    }
}

/// The header points at a well-formed tree in `pages`.
pub open spec fn rooted(pages: Seq<Page>, meta: BucketMeta) -> bool {
    exists|h: nat| target_good(pages, Target::Page(meta.root_page), h)
}

/// Every header of a nested bucket that is kept in a leaf page points at a
/// well-formed tree.
pub open spec fn pages_wf(pages: Seq<Page>) -> bool {
    forall|p: int, k: int|
        0 <= p < pages.len() && pages[p].data is Leaf && 0 <= k < pages[p].data->Leaf_0@.len()
            && (#[trigger] pages[p].data->Leaf_0@[k])@ is Bucket ==> rooted(
            pages,
            pages[p].data->Leaf_0@[k]@->meta,
        )
}

/// The entries that the pages hold under the header `meta`, in key order.
pub open spec fn stored(pages: Seq<Page>, meta: BucketMeta) -> Seq<Entry> {
    target_tree(
        pages,
        Target::Page(meta.root_page),
        choose|h: nat| target_good(pages, Target::Page(meta.root_page), h),
    ).flat()
}

/// `later` holds every page of `earlier`, unchanged, under the same identifier.
pub open spec fn extends(later: Seq<Page>, earlier: Seq<Page>) -> bool {
    &&& earlier.len() <= later.len()
    &&& forall|p: int| 0 <= p < earlier.len() ==> #[trigger] later[p] == earlier[p]
}

impl PageStore {
    /// A store that holds one page: the empty leaf that the tree of a new
    /// root bucket starts with, under the identifier 0.
    pub fn new() -> (s: PageStore)
        ensures
            s@.len() == 1,
            s@[0].id == 0,
            s@[0].data is Leaf,
            s@[0].data->Leaf_0@.len() == 0,
            s.freed@.len() == 0,
            s.committed == 1,
            s.page_size == PAGE_SIZE,
            pages_wf(s@),
            rooted(s@, BucketMeta { root_page: 0, next_int: 0 }),
            stored(s@, BucketMeta { root_page: 0, next_int: 0 }).len() == 0,
    {
        PageStore::with_page_size(PAGE_SIZE)
    }

    /// Like `new`, with pages of `page_size` bytes.
    pub fn with_page_size(page_size: usize) -> (s: PageStore)
        ensures
            s@.len() == 1,
            s@[0].id == 0,
            s@[0].data is Leaf,
            s@[0].data->Leaf_0@.len() == 0,
            s.freed@.len() == 0,
            s.committed == 1,
            s.page_size == page_size,
            pages_wf(s@),
            rooted(s@, BucketMeta { root_page: 0, next_int: 0 }),
            stored(s@, BucketMeta { root_page: 0, next_int: 0 }).len() == 0,
    {
        let mut pages: Vec<Page> = Vec::new();
        pages.push(Page { id: 0, data: NodeData::Leaf(Vec::new()) });
        let s = PageStore { pages, committed: 1, freed: Vec::new(), page_size };
        proof {
            let meta = BucketMeta { root_page: 0, next_int: 0 };
            assert(target_good(s@, Target::Page(meta.root_page), 0));
            assert(rooted(s@, meta));
            let h = choose|h: nat| target_good(s@, Target::Page(meta.root_page), h);
            assert(target_tree(s@, Target::Page(meta.root_page), h).shaped(h));
        }
        s
    }

    /// Lays out a new page with the content `data` and returns its
    /// identifier.  The pages that were there stay as they are.
    pub fn append(&mut self, data: NodeData) -> (id: PageID)
        ensures
            id == old(self)@.len(),
            final(self)@ == old(self)@.push(Page { id, data }),
            final(self).committed == old(self).committed,
            final(self).freed == old(self).freed,
            final(self).page_size == old(self).page_size,
    {
        let id = self.pages.len() as u64;
        self.pages.push(Page { id, data });
        id
    }

    /// Makes every page that was laid out durable.
    pub fn commit(&mut self)
        ensures
            final(self)@ == old(self)@,
            final(self).committed == old(self)@.len(),
            final(self).freed == old(self).freed,
            final(self).page_size == old(self).page_size,
    {
        self.committed = self.pages.len();
    }

    /// The size below which a node is folded into a neighbour: a quarter
    /// of a page.
    pub fn min_fill(&self) -> (n: usize)
        ensures
            n == self.page_size / 4,
    {
        self.page_size / 4
    }

    /// The number of pages in the store.
    pub fn len(&self) -> (n: usize)
        ensures
            n == self@.len(),
    {
        self.pages.len()
    }

    /// Whether the store holds a page with this identifier.
    pub fn has(&self, id: PageID) -> (r: bool)
        ensures
            r == (id < self@.len()),
    {
        id < self.pages.len() as u64
    }

    /// The page with the identifier `id`.
    pub fn page(&self, id: PageID) -> (p: &Page)
        requires
            id < self@.len(),
        ensures
            *p == self@[id as int],
    {
        let n = self.pages.len();
        assert(id < n);
        &self.pages[id as usize]
    }
}

} // verus!
