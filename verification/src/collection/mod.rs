//! Collection: a named unit of document storage.
//!
//! A collection manages its own data pages (via a buffer pool) and primary
//! index (via a [`BTree`]). It provides raw CRUD operations without WAL — the
//! caller (Database or GrumpyDb) handles WAL logging.
//!
//! A collection is stored in two files:
//!
//! ```text
//!   data.db       ← slotted pages (documents)
//!   primary.idx   ← B+Tree: UUID → (PageId, SlotId)
//! ```

pub mod heap;
pub mod indexed;
pub mod mirror;
pub mod packing;
pub mod raws;
pub mod store;

use vstd::prelude::*;

use crate::btree::cursor::{cursor_model, lemma_entries_sorted, CursorEntry};
use crate::btree::entries::{lemma_lookup, lemma_rank, lookup, rank};
use crate::btree::fill::{path_grown, small_tree};
use crate::btree::key::Key;
use crate::btree::node::Entry;
use crate::btree::{BTree, BTreeMeta};
use crate::buffer::pool::{saved_kept, BufferPool};
use crate::bytes::lemma_be_bytes_len;
use crate::collection::heap::{
    chain_of, entries_kept, kept, lemma_entry_joins, lemma_entry_leaves, lemma_nothing_lost,
    nothing_lost, typed, Heap, Loc,
};
use crate::collection::packing::dense;
use crate::collection::raws::{
    keys_ascend, lemma_kept_rank, lemma_select_skip, lemma_select_stop, raw_lookup, selected,
    with_raw, without_raw, KeyBound, RawDoc,
};
use crate::collection::store::{
    before_image, fresh_chain, heap_of, only_page_changed, stored, DataFile, PageWriteRecord,
    INLINE_MAX,
};
use crate::error::{GrumpyError, Result};
use crate::index::SecondaryIndex;
use crate::page::manager::{capped, contents, free_pages_first, is_free_list_page, PageManager};
use crate::page::overflow::{chunk_count, is_overflow, is_ref, link_at};
use crate::page::slotted::{page_room, SlottedPage};
use crate::page::{Page, PageHeader, PageType};
use crate::text::owned;
use crate::uid::Uuid;

verus! {

/// Default number of frames in the buffer pool.
pub const DEFAULT_POOL_CAPACITY: usize = 256;

/// A named collection of documents with a primary index.
///
/// A collection is the unit of storage — it owns its data pages and B+Tree.
/// WAL logging is NOT handled here; the caller must log the returned
/// [`PageWriteRecord`]s.
pub struct Collection {
    /// Collection name.
    pub name: String,
    /// The data file.
    pub data: DataFile,
    /// Primary B+Tree index: UUID → (PageId, SlotId).
    pub btree: BTree<Uuid>,
    /// Secondary indexes.
    pub secondary_indexes: Vec<SecondaryIndex>,
    /// The overflow pages of each document.
    pub chains: Ghost<Map<Loc, Seq<u32>>>,
}

/// The pages of a file and which of them are free.
pub open spec fn file_heap(pm: PageManager) -> Heap {
    Heap { pages: contents(pm), free: Set::new(|x: int| pm.is_free(x)) }
}

/// A data file and an index belong together: every entry of the index leads to
/// a document in the file.
pub open spec fn valid_files(
    pm: PageManager,
    t: BTree<Uuid>,
    chains: Map<Loc, Seq<u32>>,
) -> bool {
    &&& pm.free_ok()
    &&& t.wf()
    &&& typed(file_heap(pm))
    &&& entries_kept(file_heap(pm), t.entries(), chains)
}

/// `c` is what opening a data file and an index gives.
pub open spec fn attached(c: Collection, pm: PageManager, t: BTree<Uuid>) -> bool {
    forall|chains: Map<Loc, Seq<u32>>| #[trigger]
        valid_files(pm, t, chains) ==> c.wf() && c.raws() == kept(
            file_heap(pm),
            t.entries(),
            chains,
        )
}

/// The data file `d` goes on with the last data page of the file `pm`; where
/// there is none, with a new one.
pub open spec fn resumed(d: DataFile, pm: PageManager) -> bool {
    let h = file_heap(pm);
    if exists|q: u32| h.data_page(q) {
        &&& d.pool.pm == pm
        &&& h.data_page(d.current)
        &&& forall|q: u32| #[trigger] h.data_page(q) ==> q <= d.current
    } else {
        &&& free_pages_first(pm, d.pool.pm, 1)
        &&& d.heap().slots(d.current).len() == 0
        &&& page_room(d.heap().pages[d.current as int]) == 8160
    }
}

/// `pm` holds the pages of a stored file.
pub open spec fn is_image(image: Seq<u8>, pm: PageManager) -> bool {
    &&& pm.count() == image.len() as int / 8192
    &&& forall|i: int|
        0 <= i < pm.count() ==> #[trigger] pm.page(i) == image.subrange(8192 * i, 8192 * i + 8192)
}

/// `pm` is what opening a stored data file gives; no bytes stand for a new one.
pub open spec fn data_opened(data: Seq<u8>, pm: PageManager) -> bool {
    if data.len() == 0 {
        pm.count() == 1 && is_free_list_page(pm.page(0), Seq::empty())
    } else {
        is_image(data, pm)
    }
}

/// `t` is what opening a stored index gives; no bytes stand for a new one.
pub open spec fn index_opened(index: Seq<u8>, t: BTree<Uuid>) -> bool {
    if index.len() == 0 {
        t.wf() && t.entries() == Seq::<Entry>::empty()
    } else {
        is_image(index, t.pm) && t.meta == BTreeMeta::<Uuid>::parse(t.pm.page(1))
    }
}

/// `c` was opened from two stored files.
pub open spec fn opened_from(c: Collection, data: Seq<u8>, index: Seq<u8>) -> bool {
    exists|pm: PageManager, t: BTree<Uuid>|
        #![trigger data_opened(data, pm), index_opened(index, t)]
        data_opened(data, pm) && index_opened(index, t) && attached(c, pm, t)
}

/// Why files of these lengths cannot be opened: an index without its meta page,
/// or a data file without its first page.
pub open spec fn unopenable(data: nat, index: nat) -> Option<GrumpyError> {
    if 0 < index < 16384 {
        Some(GrumpyError::PageNotFound(1))
    } else if 0 < data < 8192 {
        Some(GrumpyError::PageNotFound(0))
    } else {
        None
    }
}

/// The files of a new collection: one page for documents, and an index with one
/// leaf; neither holds anything, and no page is free.
pub open spec fn fresh_files(c: Collection) -> bool {
    &&& c.data.pool.pm.count() == 2
    &&& c.btree.pm.count() == 3
    &&& c.btree.meta.height == 1
    &&& c.btree.meta.num_entries == 0
    &&& c.btree.tidy()
    &&& small_tree(c.btree, 0)
    &&& dense(c.data, Seq::empty())
}

/// A new collection takes every document that a data file can hold.
pub proof fn law_new_collection_has_room(c: Collection, len: nat)
    requires
        fresh_files(c),
        chunk_count(len) + 3 <= u32::MAX,
    ensures
        c.has_room(len),
{
}

/// The bytes are those of the files of a flushed collection.
pub open spec fn files_of(c: Collection, data: Seq<u8>, index: Seq<u8>) -> bool {
    &&& c.wf()
    &&& contents(c.data.pool.pm) == c.data.heap().pages
    &&& data.len() == 8192 * c.data.pool.pm.count()
    &&& index.len() == 8192 * c.btree.pm.count()
    &&& is_image(data, c.data.pool.pm)
    &&& is_image(index, c.btree.pm)
}

impl Collection {
    /// The collection is in order.
    #[verifier::opaque]
    pub open spec fn wf(&self) -> bool {
        &&& self.data.ok()
        &&& self.btree.wf()
        &&& entries_kept(self.data.heap(), self.btree.entries(), self.chains@)
        &&& forall|i: int|
            0 <= i < self.secondary_indexes@.len() ==> (#[trigger] self.secondary_indexes@[i]).wf()
    }

    /// The documents: the bytes of their keys in ascending order, each with
    /// the bytes that are stored for it.
    #[verifier::opaque]
    pub open spec fn raws(&self) -> Seq<RawDoc> {
        kept(self.data.heap(), self.btree.entries(), self.chains@)
    }

    /// There is a frame to read and write pages with.
    pub open spec fn framed(&self) -> bool {
        self.data.pool.frames@.len() >= 1
    }

    /// There are page IDs left for a document of `len` bytes.
    pub open spec fn has_room(&self, len: nat) -> bool {
        &&& self.btree.has_room()
        &&& self.data.room_for(chunk_count(len) as int + 1)
    }

    /// Opens or creates a collection from the stored bytes of its data file
    /// and its index; no bytes stand for a file that does not exist.
    pub fn open(name: &str, data: &[u8], index: &[u8], pool_capacity: usize) -> (r: Result<Self>)
        requires
            data@.len() / 8192 < u32::MAX,
            index@.len() / 8192 <= u32::MAX,
        ensures
            match unopenable(data@.len(), index@.len()) {
                Some(e) => r == Err::<Self, GrumpyError>(e),
                None => r is Ok,
            },
            r matches Ok(c) ==> {
                &&& c.name@ == name@
                &&& c.secondary_indexes@.len() == 0
                &&& c.data.pool.frames@.len() == pool_capacity
                &&& contents(c.data.pool.pm) == c.data.heap().pages
                &&& opened_from(c, data@, index@)
                &&& data@.len() == 0 && index@.len() == 0 ==> c.wf() && c.raws() == Seq::<
                    RawDoc,
                >::empty() && fresh_files(c)
            },
    {
        proof {
            reveal(Collection::wf);
            reveal(Collection::raws);
        }
        let data_pm: PageManager = PageManager::new(data);
        let btree: BTree<Uuid> = if index.len() > 0 {
            match BTree::open(PageManager::new(index)) {
                Ok(t) => t,
                Err(e) => {
                    return Err(e);
                },
            }
        } else {
            match BTree::<Uuid>::create() {
                Ok(t) => t,
                Err(e) => {
                    return Err(e);
                },
            }
        };
        let ghost pm0 = data_pm;
        let ghost t0 = btree;
        proof {
            if data@.len() == 0 && index@.len() == 0 {
                assert(typed(file_heap(pm0)));
                assert(!(exists|q: u32| file_heap(pm0).data_page(q)));
                assert(valid_files(pm0, t0, Map::empty()));
                assert(kept(file_heap(pm0), t0.entries(), Map::empty()) =~= Seq::<
                    RawDoc,
                >::empty());
            }
            assert(data_opened(data@, pm0));
            assert(index_opened(index@, t0));
        }
        Collection::attach(name, data_pm, btree, pool_capacity)
    }

    /// Opens a collection with default pool capacity.
    pub fn open_default(name: &str, data: &[u8], index: &[u8]) -> (r: Result<Self>)
        requires
            data@.len() / 8192 < u32::MAX,
            index@.len() / 8192 <= u32::MAX,
        ensures
            match unopenable(data@.len(), index@.len()) {
                Some(e) => r == Err::<Self, GrumpyError>(e),
                None => r is Ok,
            },
            r matches Ok(c) ==> {
                &&& c.name@ == name@
                &&& c.secondary_indexes@.len() == 0
                &&& c.data.pool.frames@.len() == DEFAULT_POOL_CAPACITY
                &&& opened_from(c, data@, index@)
                &&& data@.len() == 0 && index@.len() == 0 ==> c.wf() && c.raws() == Seq::<
                    RawDoc,
                >::empty() && fresh_files(c)
            },
    {
        Collection::open(name, data, index, DEFAULT_POOL_CAPACITY)
    }

    /// Makes a collection of a data file and an index.
    pub fn attach(
        name: &str,
        data_pm: PageManager,
        btree: BTree<Uuid>,
        pool_capacity: usize,
    ) -> (r: Result<Self>)
        requires
            data_pm.wf(),
            data_pm.count() < u32::MAX,
        ensures
            r is Ok == (data_pm.count() > 0),
            match r {
                Ok(c) => {
                    &&& c.name@ == name@
                    &&& c.btree == btree
                    &&& c.secondary_indexes@.len() == 0
                    &&& c.data.pool.frames@.len() == pool_capacity
                    &&& c.data.pool.pm.count() <= data_pm.count() + 1
                    &&& contents(c.data.pool.pm) == c.data.heap().pages
                    &&& attached(c, data_pm, btree)
                    &&& data_pm.free_ok() && typed(file_heap(data_pm)) ==> resumed(c.data, data_pm)
                },
                Err(e) => e == GrumpyError::PageNotFound(0),
            },
    {
        proof {
            reveal(Collection::wf);
            reveal(Collection::raws);
        }
        let ghost pm0 = data_pm;
        let mut pm: PageManager = data_pm;
        let current: u32 = match Collection::find_or_alloc_data_page(&mut pm) {
            Ok(p) => p,
            Err(e) => {
                return Err(e);
            },
        };
        let ghost pm1 = pm;
        let pool: BufferPool = BufferPool::new(pool_capacity, pm);
        let ghost chains = choose|c: Map<Loc, Seq<u32>>| valid_files(pm0, btree, c);
        let c: Collection = Collection {
            name: owned(name),
            data: DataFile { pool, current },
            btree,
            secondary_indexes: Vec::new(),
            chains: Ghost(chains),
        };
        proof {
            assert(pool.pages() =~= contents(pm1));
            let h0 = file_heap(pm0);
            let h1 = file_heap(pm1);
            assert(c.data.heap() == h1);
            assert forall|other: Map<Loc, Seq<u32>>| #[trigger]
                valid_files(pm0, btree, other) implies c.wf() && c.raws() == kept(
                h0,
                btree.entries(),
                other,
            ) by {
                assert(valid_files(pm0, btree, chains));
                lemma_nothing_lost(h0, h1, btree.entries(), chains);
                heap::lemma_kept_unique(h0, btree.entries(), chains, other);
            }
        }
        Ok(c)
    }

    /// The last data page of a file; a new one where there is none.
    fn find_or_alloc_data_page(pm: &mut PageManager) -> (r: Result<u32>)
        requires
            old(pm).wf(),
            old(pm).count() < u32::MAX,
        ensures
            r is Ok == (old(pm).count() > 0),
            final(pm).wf(),
            final(pm).count() <= old(pm).count() + 1,
            old(pm).free_ok() && typed(file_heap(*old(pm))) ==> {
                &&& final(pm).free_ok()
                &&& file_heap(*final(pm)).data_page(r->Ok_0)
                &&& nothing_lost(file_heap(*old(pm)), file_heap(*final(pm)))
                &&& typed(file_heap(*final(pm)))
                &&& if exists|q: u32| file_heap(*old(pm)).data_page(q) {
                    &&& *final(pm) == *old(pm)
                    &&& forall|q: u32| #[trigger]
                        file_heap(*old(pm)).data_page(q) ==> q <= r->Ok_0
                } else {
                    &&& free_pages_first(*old(pm), *final(pm), 1)
                    &&& file_heap(*final(pm)).slots(r->Ok_0).len() == 0
                    &&& page_room(file_heap(*final(pm)).pages[r->Ok_0 as int]) == 8160
                }
            },
            old(pm).count() == 0 ==> r == Err::<u32, GrumpyError>(GrumpyError::PageNotFound(0)),
    {
        let ghost pm0 = *pm;
        let mut pid: u32 = pm.num_pages();
        while pid > 1
            invariant
                *pm == pm0,
                pm0.wf(),
                pid <= pm0.count(),
                forall|q: u32| pid <= q < pm0.count() ==> !(#[trigger] file_heap(pm0).data_page(q)),
            decreases pid,
        {
            pid = pid - 1;
            let buf: Page = match pm.read_page(pid) {
                Ok(b) => b,
                Err(e) => {
                    return Err(e);
                },
            };
            let header: PageHeader = PageHeader::read_from(&buf);
            match header.page_type {
                PageType::Data => {
                    proof {
                        assert(file_heap(pm0).pages[pid as int] == buf@);
                    }
                    return Ok(pid);
                },
                _ => {
                    assert(file_heap(pm0).pages[pid as int] == buf@);
                },
            }
        }
        assert forall|q: u32| !(#[trigger] file_heap(pm0).data_page(q)) by {
            if 1 <= q < pm0.count() {
                assert(pid <= q);
            }
        }
        let page_id: u32 = match pm.allocate_page() {
            Ok(p) => p,
            Err(e) => {
                return Err(e);
            },
        };
        let ghost pm1 = *pm;
        let page: SlottedPage = SlottedPage::new(page_id);
        let _ = pm.write_page(page_id, &page.data);
        proof {
            if pm0.free_ok() && typed(file_heap(pm0)) {
                lemma_data_page_added(pm0, pm1, *pm, page_id, page);
            }
        }
        Ok(page_id)
    }

    /// Returns the collection name.
    pub fn name(&self) -> (r: &str)
        ensures
            r@ == self.name@,
    {
        self.name.as_str()
    }

    // ── CRUD (no WAL) ───────────────────────────────────────────────────

    /// Inserts an encoded document. Returns (page_id, slot_id) and WAL records.
    ///
    /// The caller is responsible for WAL logging the returned records. Does
    /// NOT update secondary indexes — use `insert_doc` for that. A file that
    /// has used up its page IDs is reported as `PageFull`.
    pub fn insert_raw(&mut self, key: Uuid, encoded: &[u8]) -> (r: Result<
        (Loc, Vec<PageWriteRecord>),
    >)
        requires
            old(self).wf(),
        ensures
            final(self).wf(),
            final(self).name == old(self).name,
            final(self).secondary_indexes == old(self).secondary_indexes,
            final(self).data.pool.frames@.len() == old(self).data.pool.frames@.len(),
            r is Ok == (raw_lookup(old(self).raws(), key.spec_bytes()) is None && old(
                self).has_room(encoded@.len()) && old(self).framed()),
            match r {
                Ok(t) => {
                    &&& final(self).raws() == with_raw(
                        old(self).raws(),
                        key.spec_bytes(),
                        encoded@,
                    )
                    &&& lookup(final(self).btree.entries(), key.spec_bytes()) == Some(t.0)
                    &&& logged(*old(self), *final(self), t.0.0, t.1@)
                    &&& stored(old(self).data, final(self).data, encoded@, t.0)
                    &&& final(self).data.pool.pm.count() <= old(self).data.pool.pm.count()
                        + chunk_count(encoded@.len()) + 1
                    &&& final(self).btree.pm.count() <= old(self).btree.pm.count() + old(
                        self).btree.meta.height + 1
                    &&& final(self).btree.meta.height <= old(self).btree.meta.height + 1
                    &&& path_grown(old(self).btree, final(self).btree)
                },
                Err(e) => {
                    &&& *final(self) == *old(self)
                    &&& if raw_lookup(old(self).raws(), key.spec_bytes()) is Some {
                        e == GrumpyError::DuplicateKey(key)
                    } else if !old(self).has_room(encoded@.len()) {
                        e == GrumpyError::PageFull(old(self).data.current)
                    } else {
                        e == GrumpyError::BufferPoolExhausted
                    }
                },
            },
    {
        proof {
            reveal(Collection::wf);
            reveal(Collection::raws);
        }
        let ghost c0 = *self;
        let ghost k = key.spec_bytes();
        let ghost es = self.btree.entries();
        let ghost h0 = self.data.heap();
        let ghost chains = self.chains@;
        proof {
            lemma_entries_sorted(self.btree);
            lemma_kept_rank(h0, es, chains, k);
        }
        match self.btree.search(&key) {
            Ok(None) => {},
            _ => {
                return Err(GrumpyError::DuplicateKey(key));
            },
        }
        if !self.room_left(encoded.len()) {
            return Err(GrumpyError::PageFull(self.data.current));
        }
        if self.data.pool.capacity() == 0 {
            return Err(GrumpyError::BufferPoolExhausted);
        }
        let (loc, rec) = if encoded.len() > INLINE_MAX || is_overflow(encoded) {
            match self.data.store_overflow(encoded) {
                Ok(t) => t,
                Err(e) => {
                    return Err(e);
                },
            }
        } else {
            match self.data.store_inline(encoded) {
                Ok(t) => t,
                Err(e) => {
                    return Err(e);
                },
            }
        };
        let ghost h1 = self.data.heap();
        let ghost ids = if encoded@.len() > INLINE_MAX || is_ref(encoded@) {
            choose|ids: Seq<u32>| #[trigger]
                h1.holds(loc, ids) && h1.raw(loc, ids) == encoded@ && fresh_chain(h0, ids)
        } else {
            Seq::<u32>::empty()
        };
        proof {
            lemma_joining(h0, h1, es, chains, loc, ids);
            lemma_be_bytes_len(key.0 as nat, 16);
        }
        match self.btree.insert(key, loc.0, loc.1) {
            Ok(_) => {},
            Err(e) => {
                return Err(e);
            },
        }
        proof {
            let p = rank(es, k);
            lemma_rank(es, k);
            lemma_entry_joins(h1, es, chains, p, (k, loc), ids);
            crate::btree::entries::law_lookup_after_insert(es, k, loc, k);
        }
        self.chains = Ghost(chains.insert(loc, ids));
        let mut records: Vec<PageWriteRecord> = Vec::new();
        records.push(rec);
        Ok((loc, records))
    }

    /// Whether there are page IDs left for a document of `len` bytes.
    fn room_left(&self, len: usize) -> (r: bool)
        requires
            self.wf(),
        ensures
            r == self.has_room(len as nat),
    {
        proof {
            reveal(Collection::wf);
            reveal(Collection::raws);
        }
        let chunks: u64 = if len == 0 {
            0
        } else {
            (len as u64 - 1) / 8160 + 1
        };
        assert(chunks == chunk_count(len as nat));
        self.btree.room_left() && chunks < u32::MAX as u64 && self.data.pool.pm.num_pages() as u64
            + chunks + 1 <= u32::MAX as u64
    }

    /// Retrieves raw encoded bytes by UUID key.
    pub fn get_raw(&mut self, key: &Uuid) -> (r: Result<Option<Vec<u8>>>)
        requires
            old(self).wf(),
        ensures
            match r {
                Ok(Some(v)) => old(self).framed() && raw_lookup(
                    old(self).raws(),
                    key.spec_bytes(),
                ) == Some(v@),
                Ok(None) => raw_lookup(old(self).raws(), key.spec_bytes()) is None,
                Err(e) => e == GrumpyError::BufferPoolExhausted && !old(self).framed()
                    && raw_lookup(old(self).raws(), key.spec_bytes()) is Some,
            },
            same_documents(*old(self), *final(self)),
    {
        proof {
            reveal(Collection::wf);
            reveal(Collection::raws);
        }
        let ghost k = key.spec_bytes();
        let ghost es = self.btree.entries();
        let ghost h0 = self.data.heap();
        let ghost chains = self.chains@;
        proof {
            lemma_entries_sorted(self.btree);
            lemma_kept_rank(h0, es, chains, k);
            lemma_lookup(es, k);
        }
        match self.btree.search(key) {
            Ok(Some(loc)) => {
                let ghost p = rank(es, k);
                assert(es[p].1 == loc);
                if self.data.pool.capacity() == 0 {
                    return Err(GrumpyError::BufferPoolExhausted);
                }
                match self.data.read_tuple(loc, Ghost(chain_of(chains, loc))) {
                    Ok(v) => Ok(Some(v)),
                    Err(e) => Err(e),
                }
            },
            Ok(None) => Ok(None),
            Err(e) => Err(e),
        }
    }

    /// Deletes a document. Returns WAL records for the page modification.
    pub fn delete_raw(&mut self, key: &Uuid) -> (r: Result<Vec<PageWriteRecord>>)
        requires
            old(self).wf(),
        ensures
            final(self).wf(),
            final(self).name == old(self).name,
            final(self).secondary_indexes == old(self).secondary_indexes,
            final(self).data.pool.frames@.len() == old(self).data.pool.frames@.len(),
            final(self).data.pool.pm.count() == old(self).data.pool.pm.count(),
            final(self).btree.pm.count() == old(self).btree.pm.count(),
            final(self).btree.meta.height <= old(self).btree.meta.height,
            final(self).btree.meta.num_entries <= old(self).btree.meta.num_entries,
            r is Ok == (raw_lookup(old(self).raws(), key.spec_bytes()) is Some && old(
                self).framed()),
            match r {
                Ok(recs) => {
                    &&& final(self).raws() == without_raw(old(self).raws(), key.spec_bytes())
                    &&& logged(
                        *old(self),
                        *final(self),
                        (lookup(old(self).btree.entries(), key.spec_bytes())->0).0,
                        recs@,
                    )
                    &&& final(self).data.pool.pm.free_ids() == capped(
                        old(self).data.pool.pm.free_ids() + chain_of(
                            old(self).chains@,
                            lookup(old(self).btree.entries(), key.spec_bytes())->0,
                        ),
                    )
                },
                Err(e) => {
                    &&& *final(self) == *old(self)
                    &&& if raw_lookup(old(self).raws(), key.spec_bytes()) is None {
                        e == GrumpyError::KeyNotFound(*key)
                    } else {
                        e == GrumpyError::BufferPoolExhausted
                    }
                },
            },
    {
        proof {
            reveal(Collection::wf);
            reveal(Collection::raws);
        }
        let ghost k = key.spec_bytes();
        let ghost es = self.btree.entries();
        let ghost h0 = self.data.heap();
        let ghost chains = self.chains@;
        let ghost p = rank(es, k);
        proof {
            lemma_entries_sorted(self.btree);
            lemma_kept_rank(h0, es, chains, k);
            lemma_lookup(es, k);
        }
        match self.btree.search(key) {
            Ok(Some(loc)) => {
                assert(es[p].1 == loc);
                if self.data.pool.capacity() == 0 {
                    return Err(GrumpyError::BufferPoolExhausted);
                }
                let rec: PageWriteRecord = match self.data.delete_tuple(
                    loc,
                    Ghost(chain_of(chains, loc)),
                ) {
                    Ok(r) => r,
                    Err(e) => {
                        return Err(e);
                    },
                };
                proof {
                    lemma_entry_leaves(h0, self.data.heap(), es, chains, p);
                }
                match self.btree.delete(key) {
                    Ok(_) => {},
                    Err(e) => {
                        return Err(e);
                    },
                }
                let mut records: Vec<PageWriteRecord> = Vec::new();
                records.push(rec);
                Ok(records)
            },
            Ok(None) => Err(GrumpyError::KeyNotFound(*key)),
            Err(e) => Err(e),
        }
    }

    /// Scans documents in a UUID key range. Returns raw encoded bytes.
    pub fn scan_raw(&mut self, start: &KeyBound, end: &KeyBound) -> (r: Result<
        Vec<(Uuid, Vec<u8>)>,
    >)
        requires
            old(self).wf(),
        ensures
            r is Ok == (old(self).framed() || selected(old(self).raws(), *start, *end).len() == 0),
            match r {
                Ok(v) => raws::rows_of(v@) == selected(old(self).raws(), *start, *end),
                Err(e) => e == GrumpyError::BufferPoolExhausted,
            },
            same_documents(*old(self), *final(self)),
    {
        proof {
            reveal(Collection::wf);
            reveal(Collection::raws);
        }
        let ghost c0 = *self;
        let ghost es = self.btree.entries();
        let ghost h0 = self.data.heap();
        let ghost chains = self.chains@;
        let ghost all = self.raws();
        proof {
            lemma_entries_sorted(self.btree);
        }
        let from: Option<Uuid> = match start {
            KeyBound::Included(k) => Some(*k),
            KeyBound::Excluded(k) => Some(*k),
            KeyBound::Unbounded => None,
        };
        let entries: Vec<CursorEntry<Uuid>> = match self.btree.range(from.as_ref(), None) {
            Ok(v) => v,
            Err(e) => {
                return Err(e);
            },
        };
        let ghost a = match from {
            Some(k) => rank(es, k.spec_bytes()),
            None => 0,
        };
        proof {
            if from is Some {
                lemma_rank(es, from->0.spec_bytes());
            }
            assert(cursor_model(entries@) == es.subrange(a, es.len() as int));
            assert(entries@.len() == cursor_model(entries@).len());
            assert(keys_ascend(all)) by {
                law_keys_ascend(c0);
            }
            lemma_select_skip(all, *start, *end, a);
        }
        let mut results: Vec<(Uuid, Vec<u8>)> = Vec::new();
        assert(raws::rows_of(results@) =~= selected(all.take(a), *start, *end));
        assert(raws::rows_of(results@).len() == results@.len());
        let mut i: usize = 0;
        let mut more: bool = true;
        while more && i < entries.len()
            invariant
                c0 == *old(self),
                c0.wf(),
                same_documents(c0, *self),
                es == c0.btree.entries(),
                h0 == c0.data.heap(),
                chains == c0.chains@,
                all == c0.raws(),
                keys_ascend(all),
                0 <= a <= es.len(),
                entries@.len() == es.len() - a,
                cursor_model(entries@) == es.subrange(a, es.len() as int),
                i <= entries@.len(),
                more ==> raws::rows_of(results@) == selected(all.take(a + i), *start, *end),
                !more ==> raws::rows_of(results@) == selected(all, *start, *end),
                !c0.framed() ==> results@.len() == 0,
            decreases (if more {
                1nat
            } else {
                0
            }) + (entries@.len() - i) as nat,
        {
            let key: Uuid = entries[i].key;
            let loc: Loc = (entries[i].page_id, entries[i].slot_id);
            proof {
                reveal(Collection::wf);
                reveal(Collection::raws);
                assert(cursor_model(entries@)[i as int] == es[a + i]);
                assert(es[a + i] == (key.spec_bytes(), loc));
                assert(all[a + i].0 == key.spec_bytes());
                assert(all.take(a + i + 1).drop_last() =~= all.take(a + i));
                assert(all.take(a + i + 1).last() == all[a + i]);
            }
            if raws::past_end(&key, end) {
                more = false;
                proof {
                    lemma_select_stop(all, *start, *end, a + i);
                }
            } else {
                if raws::at_or_after_start(&key, start) {
                    assert(h0.holds(es[a + i].1, chain_of(chains, es[a + i].1)));
                    if self.data.pool.capacity() == 0 {
                        proof {
                            raws::lemma_select_prefix(all, *start, *end, a + i + 1);
                        }
                        return Err(GrumpyError::BufferPoolExhausted);
                    }
                    let raw: Vec<u8> = match self.data.read_tuple(
                        loc,
                        Ghost(chain_of(chains, loc)),
                    ) {
                        Ok(v) => v,
                        Err(e) => {
                            return Err(e);
                        },
                    };
                    let ghost before = results@;
                    let ghost row = (key.spec_bytes(), raw@);
                    results.push((key, raw));
                    proof {
                        assert(all[a + i] == row);
                        assert(raws::rows_of(results@) =~= raws::rows_of(before).push(row));
                    }
                }
                i = i + 1;
            }
        }
        proof {
            if more {
                assert(all.take(a + i) =~= all);
            }
        }
        Ok(results)
    }

    // ── Maintenance ─────────────────────────────────────────────────────

    /// Returns the number of documents (O(1) from B+Tree metadata).
    pub fn document_count(&self) -> (r: u64)
        requires
            self.wf(),
        ensures
            r == self.raws().len(),
    {
        proof {
            reveal(Collection::wf);
            reveal(Collection::raws);
        }
        self.btree.len()
    }

    /// Returns buffer pool stats: (reads, writes, cached, capacity).
    pub fn pool_stats(&self) -> (r: (u64, u64, usize, usize))
        ensures
            r.0 == self.data.pool.read_count,
            r.1 == self.data.pool.write_count,
            r.2 == self.data.pool.page_table@.len(),
            r.3 == self.data.pool.frames@.len(),
    {
        (
            self.data.pool.read_count,
            self.data.pool.write_count,
            self.data.pool.cached_count(),
            self.data.pool.capacity(),
        )
    }

    /// Flushes all dirty pages to the data file.
    pub fn flush(&mut self) -> (r: Result<()>)
        requires
            old(self).wf(),
        ensures
            r is Ok,
            same_documents(*old(self), *final(self)),
            contents(final(self).data.pool.pm) == final(self).data.heap().pages,
    {
        proof {
            reveal(Collection::wf);
            reveal(Collection::raws);
        }
        let ghost p0 = self.data.pool;
        proof {
            if p0.cached(0) {
                assert(heap_of(p0).data_page(0));
            }
        }
        let r = self.data.pool.flush_all();
        proof {
            store::lemma_flushed(p0, self.data.pool);
        }
        r
    }

    /// Provides access to the data PageManager (for WAL recovery).
    pub fn data_page_manager(&mut self) -> (r: &mut PageManager)
        ensures
            *r == old(self).data.pool.pm,
            *final(self) == (Collection {
                data: DataFile {
                    pool: BufferPool { pm: *final(r), ..old(self).data.pool },
                    ..old(self).data
                },
                ..*old(self)
            }),
    {
        self.data.pool.page_manager()
    }

    /// Provides access to the index PageManager (for WAL recovery).
    pub fn index_page_manager(&mut self) -> (r: &mut PageManager)
        ensures
            *r == old(self).btree.pm,
            *final(self) == (Collection {
                btree: BTree { pm: *final(r), ..old(self).btree },
                ..*old(self)
            }),
    {
        &mut self.btree.pm
    }
}

/// From `a` to `b` only the cache changed.
pub open spec fn same_documents(a: Collection, b: Collection) -> bool {
    &&& b.wf()
    &&& b.name == a.name
    &&& b.btree == a.btree
    &&& b.secondary_indexes == a.secondary_indexes
    &&& b.chains == a.chains
    &&& b.data.heap() == a.data.heap()
    &&& b.data.current == a.data.current
    &&& b.data.pool.frames@.len() == a.data.pool.frames@.len()
    &&& b.data.pool.pm.count() == a.data.pool.pm.count()
    &&& saved_kept(a.data.pool, b.data.pool, -1)
    &&& b.raws() == a.raws()
}

/// The records name the page of the change and hold it before and after; a page
/// that was no data page counts as zeros before. No other data page changed.
pub open spec fn logged(
    a: Collection,
    b: Collection,
    page_id: u32,
    recs: Seq<PageWriteRecord>,
) -> bool {
    &&& recs.len() == 1
    &&& recs[0].page_id == page_id
    &&& recs[0].after@ == b.data.heap().pages[page_id as int]
    &&& recs[0].before@ == before_image(a.data.heap(), page_id)
    &&& b.data.heap().data_page(page_id)
    &&& only_page_changed(a.data, b.data, page_id)
}

/// A page change stays logged while pages are only read or flushed.
pub proof fn lemma_logged_cached(
    a: Collection,
    b: Collection,
    c: Collection,
    recs: Seq<PageWriteRecord>,
)
    requires
        logged(a, b, recs[0].page_id, recs),
        c.data.heap() == b.data.heap(),
        c.data.pool.pm.count() == b.data.pool.pm.count(),
        saved_kept(b.data.pool, c.data.pool, -1),
    ensures
        logged(a, c, recs[0].page_id, recs),
{
    let x = recs[0].page_id as int;
    assert(saved_kept(a.data.pool, c.data.pool, x)) by {
        assert forall|i: int|
            0 <= i < c.data.pool.pm.count() && i != x && (i < a.data.pool.pm.count()
                ==> a.data.pool.saved(i)) implies #[trigger] c.data.pool.saved(i) by {
            assert(b.data.pool.saved(i));
        }
    }
}

/// The same, of a change of a collection that was only read before.
pub proof fn lemma_cached_logged(
    a: Collection,
    b: Collection,
    c: Collection,
    recs: Seq<PageWriteRecord>,
)
    requires
        b.data.heap() == a.data.heap(),
        b.data.pool.pm.count() == a.data.pool.pm.count(),
        saved_kept(a.data.pool, b.data.pool, -1),
        logged(b, c, recs[0].page_id, recs),
    ensures
        logged(a, c, recs[0].page_id, recs),
{
    let x = recs[0].page_id as int;
    assert(saved_kept(a.data.pool, c.data.pool, x)) by {
        assert forall|i: int|
            0 <= i < c.data.pool.pm.count() && i != x && (i < a.data.pool.pm.count()
                ==> a.data.pool.saved(i)) implies #[trigger] c.data.pool.saved(i) by {
            if i < b.data.pool.pm.count() {
                assert(b.data.pool.saved(i));
            }
        }
    }
}

proof fn lemma_joining(
    h0: Heap,
    h1: Heap,
    es: Seq<Entry>,
    chains: Map<Loc, Seq<u32>>,
    loc: Loc,
    ids: Seq<u32>,
)
    requires
        entries_kept(h0, es, chains),
        nothing_lost(h0, h1),
        !(h0.data_page(loc.0) && h0.live(loc)),
        fresh_chain(h0, ids),
    ensures
        entries_kept(h1, es, chains),
        kept(h1, es, chains) == kept(h0, es, chains),
        forall|i: int| 0 <= i < es.len() ==> (#[trigger] es[i]).1 != loc,
        forall|i: int|
            0 <= i < es.len() ==> heap::apart(chain_of(chains, (#[trigger] es[i]).1), ids),
{
    lemma_nothing_lost(h0, h1, es, chains);
    assert forall|i: int| 0 <= i < es.len() implies (#[trigger] es[i]).1 != loc && heap::apart(
        chain_of(chains, es[i].1),
        ids,
    ) by {
        let c = chain_of(chains, es[i].1);
        assert(h0.holds(es[i].1, c));
        assert forall|x: int, y: int| 0 <= x < c.len() && 0 <= y < ids.len() implies
            #[trigger] c[x] != #[trigger] ids[y] by {
            assert(link_at(h0.pages, c, x));
            assert(!h0.free.contains(c[x] as int));
            assert(ids[y] >= h0.pages.len() || h0.free.contains(ids[y] as int));
        }
    }
}

proof fn lemma_data_page_added(
    pm0: PageManager,
    pm1: PageManager,
    pm2: PageManager,
    id: u32,
    page: SlottedPage,
)
    requires
        pm0.free_ok(),
        typed(file_heap(pm0)),
        pm1.free_ok(),
        pm0.count() <= pm1.count() <= pm0.count() + 1,
        pm1.count() > pm0.count() ==> id == pm0.count(),
        1 <= id < pm1.count(),
        id < pm0.count() ==> pm0.is_free(id as int),
        !pm1.is_free(id as int),
        forall|x: int| pm1.is_free(x) ==> #[trigger] pm0.is_free(x),
        forall|i: int| 1 <= i < pm0.count() ==> #[trigger] pm1.pages@[i] == pm0.pages@[i],
        pm2.pages@ == pm1.pages@.update(id as int, page.data),
        page.wf(),
        PageHeader::parse(page.data@) == PageHeader::fresh(id, PageType::Data),
    ensures
        pm2.free_ok(),
        file_heap(pm2).data_page(id),
        nothing_lost(file_heap(pm0), file_heap(pm2)),
        typed(file_heap(pm2)),
{
    let h0 = file_heap(pm0);
    let h2 = file_heap(pm2);
    assert(pm2.pages@[0] == pm1.pages@[0]);
    crate::buffer::pool::lemma_same_free(pm1, pm2);
    assert forall|x: int| h2.free.contains(x) implies #[trigger] h0.free.contains(x) by {
        assert(pm1.is_free(x));
        assert(pm0.is_free(x));
    }
    assert forall|i: int| 1 <= i < pm0.count() && i != id implies #[trigger] h2.pages[i]
        == h0.pages[i] by {
        assert(pm2.pages@[i] == pm1.pages@[i]);
    }
    assert(!pm2.is_free(id as int));
    assert(h2.data_page(id));
    assert forall|q: u32| #[trigger] h0.data_page(q) implies h2.data_page(q) && h2.pages[q as int]
        == h0.pages[q as int] by {
        assert(!h0.free.contains(q as int));
        assert(!pm0.is_free(q as int));
        assert(h2.pages[q as int] == h0.pages[q as int]);
    }
    assert forall|i: int|
        1 <= i < h0.pages.len() && !h0.free.contains(i) && PageHeader::parse(
            h0.pages[i],
        ).page_type == PageType::Overflow implies #[trigger] h2.pages[i] == h0.pages[i] by {
        if i == id {
            assert(pm0.is_free(i));
        }
        assert(h2.pages[i] == h0.pages[i]);
    }
    assert forall|q: u32|
        1 <= q < h2.pages.len() && PageHeader::parse(#[trigger] h2.pages[q as int]).page_type
            == PageType::Data implies h2.data_page(q) by {
        if q != id {
            assert(h2.pages[q as int] == h0.pages[q as int]);
            assert(h0.data_page(q));
        }
    }
}

/// What was flushed can be opened again: the files of a flushed collection are
/// valid, with the same documents.
pub proof fn law_flushed_files_reopen(c: Collection)
    requires
        c.wf(),
        contents(c.data.pool.pm) == c.data.heap().pages,
    ensures
        valid_files(c.data.pool.pm, c.btree, c.chains@),
        kept(file_heap(c.data.pool.pm), c.btree.entries(), c.chains@) == c.raws(),
{
    reveal(Collection::wf);
    reveal(Collection::raws);
    assert(file_heap(c.data.pool.pm) == c.data.heap());
}

/// What was written to disk is read back from it: a collection opened from the
/// files of a flushed one is in order and holds the same documents.
pub proof fn law_reopened_documents(c: Collection, r: Collection, data: Seq<u8>, index: Seq<u8>)
    requires
        files_of(c, data, index),
        opened_from(r, data, index),
    ensures
        r.wf(),
        r.raws() == c.raws(),
{
    let (pm, t) = choose|pm: PageManager, t: BTree<Uuid>|
        #![trigger data_opened(data, pm), index_opened(index, t)]
        data_opened(data, pm) && index_opened(index, t) && attached(r, pm, t);
    lemma_page_counts(c);
    lemma_one_image(data, pm, c.data.pool.pm);
    lemma_one_image(index, t.pm, c.btree.pm);
    lemma_same_pages(c, pm, t);
}

/// Both files have their first pages.
pub proof fn lemma_page_counts(c: Collection)
    requires
        c.wf(),
    ensures
        c.data.pool.pm.count() >= 1,
        c.btree.pm.count() >= 2,
        c.btree.wf(),
{
    reveal(crate::btree::change::sub_ok);
    reveal(Collection::wf);
}

/// Files with the pages of a collection are valid, with its documents.
pub proof fn lemma_same_pages(c: Collection, pm: PageManager, t: BTree<Uuid>)
    requires
        c.wf(),
        contents(pm) == c.data.heap().pages,
        contents(t.pm) == contents(c.btree.pm),
        t.meta == BTreeMeta::<Uuid>::parse(t.pm.page(1)),
    ensures
        valid_files(pm, t, c.chains@),
        kept(file_heap(pm), t.entries(), c.chains@) == c.raws(),
{
    reveal(crate::btree::change::sub_ok);
    reveal(Collection::wf);
    reveal(Collection::raws);
    let pool = c.data.pool;
    let ct = c.btree;
    lemma_page_counts(c);
    assert(!pool.cached(0)) by {
        if pool.cached(0) {
            assert(heap_of(pool).data_page(0));
        }
    }
    assert(pm.page(0) == contents(pm)[0] && c.data.heap().pages[0] == pool.pm.page(0));
    assert(contents(t.pm).len() == t.pm.count() && contents(ct.pm).len() == ct.pm.count());
    assert(t.pm.page(0) == contents(t.pm)[0] && ct.pm.page(0) == contents(ct.pm)[0]);
    assert(t.pm.page(1) == contents(t.pm)[1] && ct.pm.page(1) == contents(ct.pm)[1]);
    assert(t.meta == ct.meta);
    assert(pm.free_ids() == pool.pm.free_ids());
    assert forall|x: int| pm.is_free(x) == pool.pm.is_free(x) by {
    }
    assert(file_heap(pm).free =~= c.data.heap().free);
    assert(t.pm.free_ids() == ct.pm.free_ids());
    assert(t.nodes() =~= ct.nodes()) by {
        assert forall|i: int| 0 <= i < ct.nodes().len() implies t.nodes()[i] == ct.nodes()[i] by {
            assert(t.pm.page(i) == contents(t.pm)[i]);
            assert(ct.pm.page(i) == contents(ct.pm)[i]);
        }
    }
    assert(t.wf());
    assert(file_heap(pm) == c.data.heap());
}

/// A stored file holds the pages of one manager only.
proof fn lemma_one_image(image: Seq<u8>, a: PageManager, b: PageManager)
    requires
        is_image(image, a),
        is_image(image, b),
    ensures
        contents(a) == contents(b),
{
    assert forall|i: int| 0 <= i < a.count() implies contents(a)[i] == contents(b)[i] by {
        assert(a.page(i) == image.subrange(8192 * i, 8192 * i + 8192));
        assert(b.page(i) == image.subrange(8192 * i, 8192 * i + 8192));
    }
    assert(contents(a) =~= contents(b));
}

/// A document that was inserted is read back, and the others are as they were.
pub proof fn law_read_after_insert(rs: Seq<RawDoc>, k: Seq<u8>, b: Seq<u8>, q: Seq<u8>)
    requires
        raws::keys_ascend(rs),
        raw_lookup(rs, k) is None,
    ensures
        raws::keys_ascend(with_raw(rs, k, b)),
        raw_lookup(with_raw(rs, k, b), k) == Some(b),
        q != k ==> raw_lookup(with_raw(rs, k, b), q) == raw_lookup(rs, q),
{
    raws::lemma_read_after_insert(rs, k, b, q);
}

/// A document that was deleted is gone, and the others are as they were.
pub proof fn law_read_after_delete(rs: Seq<RawDoc>, k: Seq<u8>, q: Seq<u8>)
    requires
        raws::keys_ascend(rs),
        raw_lookup(rs, k) is Some,
    ensures
        raws::keys_ascend(without_raw(rs, k)),
        raw_lookup(without_raw(rs, k), k) is None,
        q != k ==> raw_lookup(without_raw(rs, k), q) == raw_lookup(rs, q),
{
    raws::lemma_read_after_delete(rs, k, q);
}

/// The keys of a collection ascend.
pub proof fn law_keys_ascend(c: Collection)
    requires
        c.wf(),
    ensures
        raws::keys_ascend(c.raws()),
{
    reveal(Collection::wf);
    reveal(Collection::raws);
    lemma_entries_sorted(c.btree);
    let es = c.btree.entries();
    let rs = c.raws();
    assert forall|i: int, j: int| 0 <= i < j < rs.len() implies crate::bytes::lex_lt(
        (#[trigger] rs[i]).0,
        (#[trigger] rs[j]).0,
    ) by {
        assert(rs[i].0 == es[i].0);
        assert(rs[j].0 == es[j].0);
    }
}

} // verus!
