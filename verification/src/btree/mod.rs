//! Generic B+Tree index.
//!
//! Maps keys of type `K: Key` to `(PageId, SlotId)` locations inside a data
//! file. The same implementation backs both:
//!
//! - **Primary indexes** keyed by [`Uuid`] (fixed 16-byte keys, no per-tree
//!   configuration). Open with [`BTree::create`] / [`BTree::open`].
//! - **Secondary indexes** keyed by `Vec<u8>` (variable-length keys, up to a
//!   per-tree `max_key_size`). Open with [`BTree::create_with`] /
//!   [`BTree::open`].
//!
//! The B+Tree is stored in its own file with its own page management.

pub mod change;
pub mod cursor;
pub mod delete;
pub mod entries;
pub mod fill;
pub mod insert;
pub mod key;
pub mod links;
pub mod node;
pub mod ops;
pub mod rebalance;
pub mod tree;
pub mod var_cursor;
pub mod var_node;
pub mod var_tree;

use vstd::prelude::*;

use crate::btree::change::sub_ok;
use crate::btree::entries::{lemma_empty_tree, wf_parts};
use crate::btree::fill::{least, pages_full, tree_full};
use crate::btree::key::{Key, NoConfig};
use crate::btree::links::{back_at, lemma_one_leaf, linked_back, tally};
use crate::btree::node::{
    config_ok, internal_cap, leaf_cap, lemma_leaf_round_trip, padded, Entry, LeafNode,
};
use crate::btree::tree::{flat, next_at, nodes_of, NodeM};
use crate::bytes::{
    field, get_u32, get_u64, le_bytes, lemma_le_round_trip, lemma_pow256_values, push_le, zeros,
};
use crate::error::{GrumpyError, Result};
use crate::page::manager::PageManager;
use crate::page::{lemma_header_len, write_at, Page, PageHeader, PageType, PAGE_SIZE};
use crate::uid::Uuid;

verus! {

/// The page id reserved for B+Tree metadata. Page 0 is the page-manager
/// free-list, page 1 is the meta page, page 2 is the initial root.
pub const META_PAGE_ID: u32 = 1;

/// Metadata stored on the B+Tree's metadata page (page 1 of the index file).
///
/// ```text
/// 0  ..32   PageHeader (type = BTreeInternal, repurposed for the meta page)
/// 32 ..36   root_page_id: u32
/// 36 ..40   height: u32
/// 40 ..48   num_entries: u64
/// 48 ..     per-tree config (e.g. max_key_size)
/// ```
#[derive(Debug, Clone, Copy)]
pub struct BTreeMeta<K: Key> {
    pub root_page_id: u32,
    pub height: u32,
    pub num_entries: u64,
    pub config: K::Config,
}

impl<K: Key> BTreeMeta<K> {
    /// The bytes of the meta page before its zeros.
    pub open spec fn front(self) -> Seq<u8> {
        PageHeader::fresh(META_PAGE_ID, PageType::BTreeInternal).image() + le_bytes(
            self.root_page_id as nat,
            4,
        ) + le_bytes(self.height as nat, 4) + le_bytes(self.num_entries as nat, 8)
            + K::config_image(self.config)
    }

    /// The meta page.
    pub open spec fn image(self) -> Seq<u8> {
        padded(self.front())
    }

    /// The metadata that a meta page holds.
    pub open spec fn parse(p: Seq<u8>) -> BTreeMeta<K> {
        BTreeMeta {
            root_page_id: field(p, 32, 4) as u32,
            height: field(p, 36, 4) as u32,
            num_entries: field(p, 40, 8) as u64,
            config: K::config_parse(p.subrange(48, 48 + K::meta_len() as int)),
        }
    }
}

/// Metadata reads back from its page as it was written.
pub proof fn lemma_meta_round_trip<K: Key>(meta: BTreeMeta<K>)
    ensures
        meta.front().len() == 48 + K::meta_len(),
        meta.image().len() == PAGE_SIZE,
        BTreeMeta::<K>::parse(meta.image()) == meta,
{
    let h = PageHeader::fresh(META_PAGE_ID, PageType::BTreeInternal);
    let p = meta.image();
    lemma_pow256_values();
    lemma_header_len(h);
    lemma_le_round_trip(meta.root_page_id as nat, 4);
    lemma_le_round_trip(meta.height as nat, 4);
    lemma_le_round_trip(meta.num_entries as nat, 8);
    K::lemma_config(meta.config);
    assert(p.subrange(32, 36) =~= le_bytes(meta.root_page_id as nat, 4));
    assert(p.subrange(36, 40) =~= le_bytes(meta.height as nat, 4));
    assert(p.subrange(40, 48) =~= le_bytes(meta.num_entries as nat, 8));
    assert(p.subrange(48, 48 + K::meta_len() as int) =~= K::config_image(meta.config));
}

/// A B+Tree index stored in a separate file.
///
/// O(log n) `search`, `insert`, `delete`, plus ordered range scans through
/// [`BTree::cursor`] / [`BTree::scan_all`] / [`BTree::range`].
pub struct BTree<K: Key> {
    /// The pages of the index file.
    pub pm: PageManager,
    /// The metadata in memory.
    pub meta: BTreeMeta<K>,
}

impl<K: Key> BTree<K> {
    /// The nodes of the index file.
    pub open spec fn nodes(&self) -> Seq<NodeM> {
        nodes_of::<K>(self.pm, self.meta.config)
    }

    /// The most entries of a leaf and the most keys of an internal node.
    pub open spec fn caps(&self) -> (nat, nat) {
        (leaf_cap::<K>(self.meta.config), internal_cap::<K>(self.meta.config))
    }

    /// The entries of the tree in order of their keys.
    pub open spec fn entries(&self) -> Seq<Entry> {
        flat(self.nodes(), self.meta.root_page_id, (self.meta.height - 1) as nat)
    }

    /// The pages form a search tree over keys of the configured size, its
    /// pages are in use, and the metadata counts its entries.
    pub open spec fn tree_wf(&self) -> bool {
        &&& config_ok::<K>(self.meta.config)
        &&& self.meta.height >= 1
        &&& wf_parts::<K>(
            self.pm,
            self.meta.config,
            self.meta.root_page_id,
            (self.meta.height - 1) as nat,
            self.caps(),
        )
        &&& self.meta.num_entries == self.entries().len()
    }

    /// The tree is well-formed and its meta page is up to date.
    pub open spec fn wf(&self) -> bool {
        &&& self.tree_wf()
        &&& BTreeMeta::<K>::parse(self.pm.page(1)) == self.meta
    }

    /// All nodes but the root are full enough.
    pub open spec fn filled(&self) -> bool {
        tree_full(self.nodes(), least::<K>(self.meta.config), self.meta.root_page_id)
    }

    /// Leaves form doubly linked lists, free pages hold no nodes, and nodes are
    /// as many as the root and the children that nodes name.
    pub open spec fn tidy(&self) -> bool {
        &&& linked_back::<K>(self.pm, self.meta.config)
        &&& tally(self.nodes()) == 1
    }

    /// Creates a new B+Tree with the given per-tree configuration.
    ///
    /// For `BTree<Uuid>` the convenience [`BTree::create`] passes the empty
    /// configuration. For `BTree<Vec<u8>>`, `cfg` is the `max_key_size`.
    #[verifier::rlimit(40)]
    pub fn create_with(cfg: K::Config) -> (r: Result<Self>)
        ensures
            r is Ok,
            r->Ok_0.meta == (BTreeMeta::<K> {
                root_page_id: 2,
                height: 1,
                num_entries: 0,
                config: cfg,
            }),
            r->Ok_0.pm.count() == 3,
            BTreeMeta::<K>::parse(r->Ok_0.pm.page(1)) == r->Ok_0.meta,
            r->Ok_0.nodes()[2] == (NodeM::Leaf { pid: 2, next: 0, entries: Seq::empty() }),
            config_ok::<K>(cfg) ==> r->Ok_0.wf() && r->Ok_0.entries() == Seq::<Entry>::empty(),
            r->Ok_0.filled(),
            r->Ok_0.tidy(),
    {
        let mut pm: PageManager = PageManager::new(&[]);
        let meta_page_id: u32 = match pm.allocate_page() {
            Ok(p) => p,
            Err(e) => {
                return Err(e);
            },
        };
        let root_page_id: u32 = match pm.allocate_page() {
            Ok(p) => p,
            Err(e) => {
                return Err(e);
            },
        };
        let root: LeafNode<K> = LeafNode::new(root_page_id, cfg);
        proof {
            assert(root.model() =~= Seq::<Entry>::empty());
            K::lemma_config(cfg);
            lemma_leaf_round_trip::<K>(root_page_id, 0, 0, 0, cfg, Seq::empty());
        }
        let root_page: Page = root.to_bytes();
        match pm.write_page(root_page_id, &root_page) {
            Ok(_) => {},
            Err(e) => {
                return Err(e);
            },
        }
        let meta: BTreeMeta<K> = BTreeMeta {
            root_page_id,
            height: 1,
            num_entries: 0,
            config: cfg,
        };
        let meta_page: Page = Self::meta_to_page(&meta);
        match pm.write_page(meta_page_id, &meta_page) {
            Ok(_) => {},
            Err(e) => {
                return Err(e);
            },
        }
        let r = BTree { pm, meta };
        proof {
            lemma_meta_round_trip(meta);
            let n = r.nodes();
            assert(n[2] == (NodeM::Leaf { pid: 2, next: 0, entries: Seq::empty() }));
            assert(r.pm.free_ids() =~= Seq::<u32>::empty());
            lemma_one_leaf::<K>(r.pm, cfg);
            assert(r.filled()) by {
                reveal(pages_full);
            }
            if config_ok::<K>(cfg) {
                lemma_empty_tree::<K>(r.pm, cfg, 2, r.caps());
            }
        }
        Ok(r)
    }

    /// Opens an existing B+Tree on the pages of its file.
    pub fn open(pm: PageManager) -> (r: Result<Self>)
        ensures
            pm.count() < 2 ==> r == Err::<Self, GrumpyError>(GrumpyError::PageNotFound(1)),
            pm.count() >= 2 ==> r is Ok && r->Ok_0.pm == pm && r->Ok_0.meta == BTreeMeta::<
                K,
            >::parse(pm.page(1)),
    {
        let meta_buf: Page = match pm.read_page(META_PAGE_ID) {
            Ok(b) => b,
            Err(e) => {
                return Err(e);
            },
        };
        let meta: BTreeMeta<K> = Self::page_to_meta(&meta_buf);
        Ok(BTree { pm, meta })
    }

    /// Persists the in-memory metadata to its page.
    pub fn flush_meta(&mut self) -> (r: Result<()>)
        ensures
            old(self).pm.count() < 2 ==> r == Err::<(), GrumpyError>(GrumpyError::PageNotFound(1))
                && *final(self) == *old(self),
            old(self).pm.count() >= 2 ==> {
                &&& r is Ok
                &&& final(self).meta == old(self).meta
                &&& final(self).pm.pages@.len() == old(self).pm.pages@.len()
                &&& final(self).pm.page(1) == old(self).meta.image()
                &&& BTreeMeta::<K>::parse(final(self).pm.page(1)) == old(self).meta
                &&& forall|x: int|
                    0 <= x < old(self).pm.count() && x != 1 ==> #[trigger] final(self).pm.pages@[x]
                        == old(self).pm.pages@[x]
            },
    {
        let page: Page = Self::meta_to_page(&self.meta);
        proof {
            lemma_meta_round_trip(self.meta);
        }
        self.pm.write_page(META_PAGE_ID, &page)
    }

    /// There are page IDs and a count left for one more entry.
    pub open spec fn has_room(&self) -> bool {
        self.pm.count() + self.meta.height < u32::MAX && self.meta.num_entries < u64::MAX
    }

    /// Whether there are page IDs and a count left for one more entry.
    pub fn room_left(&self) -> (r: bool)
        requires
            self.tree_wf(),
        ensures
            r == self.has_room(),
    {
        proof {
            reveal(sub_ok);
        }
        self.pm.num_pages() as u64 + (self.meta.height as u64) < u32::MAX as u64
            && self.meta.num_entries < u64::MAX
    }

    /// Returns the number of entries currently in the tree.
    pub fn len(&self) -> (r: u64)
        ensures
            r == self.meta.num_entries,
            self.wf() ==> r == self.entries().len(),
    {
        self.meta.num_entries
    }

    /// True if the tree contains no entries.
    pub fn is_empty(&self) -> (r: bool)
        ensures
            r == (self.meta.num_entries == 0),
            self.wf() ==> r == (self.entries().len() == 0),
    {
        self.meta.num_entries == 0
    }

    /// Returns the height of the tree (1 = single root leaf).
    pub fn height(&self) -> (r: u32)
        ensures
            r == self.meta.height,
    {
        self.meta.height
    }

    /// Returns the per-tree configuration.
    pub fn config(&self) -> (r: K::Config)
        ensures
            r == self.meta.config,
    {
        self.meta.config
    }

    fn meta_to_page(meta: &BTreeMeta<K>) -> (r: Page)
        ensures
            r@ == meta.image(),
    {
        let mut v: Vec<u8> = PageHeader::new(META_PAGE_ID, PageType::BTreeInternal).to_vec();
        push_le(&mut v, meta.root_page_id as u128, 4);
        push_le(&mut v, meta.height as u128, 4);
        push_le(&mut v, meta.num_entries as u128, 8);
        let mut c: Vec<u8> = K::write_config(meta.config);
        v.append(&mut c);
        let mut buf: Page = [0u8;PAGE_SIZE];
        proof {
            lemma_meta_round_trip(*meta);
            K::lemma_config(meta.config);
            assert(v@ =~= meta.front());
            assert(buf@ =~= zeros(PAGE_SIZE as nat));
        }
        write_at(&mut buf, 0, v.as_slice());
        buf
    }

    fn page_to_meta(buf: &Page) -> (r: BTreeMeta<K>)
        ensures
            r == BTreeMeta::<K>::parse(buf@),
    {
        let s: &[u8] = buf.as_slice();
        let n: usize = K::node_meta_bytes();
        BTreeMeta {
            root_page_id: get_u32(s, 32),
            height: get_u32(s, 36),
            num_entries: get_u64(s, 40),
            config: K::read_config(&buf[48..48 + n]),
        }
    }
}

impl BTree<Uuid> {
    /// Creates a new UUID-keyed B+Tree (primary index).
    pub fn create() -> (r: Result<Self>)
        ensures
            r is Ok,
            r->Ok_0.filled(),
            r->Ok_0.tidy(),
            r->Ok_0.wf(),
            r->Ok_0.entries() == Seq::<Entry>::empty(),
            r->Ok_0.meta.height == 1,
            r->Ok_0.meta.num_entries == 0,
            r->Ok_0.pm.count() == 3,
    {
        proof {
            lemma_uuid_caps();
        }
        BTree::create_with(NoConfig)
    }
}

/// How much a node of a UUID-keyed tree holds.
pub proof fn lemma_uuid_caps()
    ensures
        leaf_cap::<Uuid>(NoConfig) == 370,
        internal_cap::<Uuid>(NoConfig) == 407,
        config_ok::<Uuid>(NoConfig),
{
    let s: nat = <Uuid as Key>::slot_len(NoConfig);
    let m: nat = <Uuid as Key>::meta_len();
    assert(s == 16 && m == 0);
    assert((8160 - 10 - m) / (s + 6) as int == 370) by (nonlinear_arith)
        requires
            s == 16,
            m == 0,
    ;
    assert((8160 - 6 - m) / (s + 4) as int == 407) by (nonlinear_arith)
        requires
            s == 16,
            m == 0,
    ;
}

/// Leaves can be walked both ways: the leaf behind a leaf links back to it, and
/// the leaf before a leaf links to it.
pub proof fn law_leaves_are_doubly_linked<K: Key>(t: BTree<K>, x: u32)
    requires
        t.tidy(),
        2 <= x < t.pm.count(),
        t.nodes()[x as int] is Leaf,
    ensures
        next_at(t.nodes(), x) != 0 ==> t.nodes()[next_at(t.nodes(), x) as int] is Leaf && back_at(
            t.pm,
            next_at(t.nodes(), x) as int,
        ) == x,
        back_at(t.pm, x as int) != 0 ==> t.nodes()[back_at(t.pm, x as int) as int] is Leaf
            && next_at(t.nodes(), back_at(t.pm, x as int)) == x,
{
    reveal(linked_back);
}

/// A tree reopened from its file is the tree it was.
pub proof fn law_reopen<K: Key>(t: BTree<K>)
    requires
        t.wf(),
    ensures
        t.pm.count() >= 2,
        (BTree::<K> { pm: t.pm, meta: BTreeMeta::<K>::parse(t.pm.page(1)) }) == t,
{
    reveal(sub_ok);
}

} // verus!
