//! B+Tree operations: search, insert (with split), delete (with
//! merge/redistribute).
//!
//! Insertion and deletion descend to the leaf and pass splits and merges back
//! up, one level per call.

use vstd::prelude::*;

use crate::btree::change::{base_ok, sub_ok};
use crate::btree::entries::{
    absent_at, lemma_absent, lemma_middle, lemma_present, lookup, present_at, rank,
};
use crate::btree::key::Key;
use crate::btree::links::{
    back_at, lemma_free_blank, lemma_links_same, lemma_recycled_release, lemma_recycled_save, lemma_tally_same, lemma_tally_update,
    linked_back, node_tally, recycled, same_links, tally,
};
use crate::btree::node::{
    internal_cap, internal_fits, leaf_cap, leaf_fits, lemma_capacity, lemma_internal_round_trip,
    lemma_leaf_round_trip, sep_keys, InternalNode, LeafEntry, LeafNode,
};
use crate::btree::tree::{
    above, below, cat, kids_leaves, leaves, lemma_cat_append, kid_hi, kid_lo, kid_next, kids_of,
    lemma_descend, lemma_flat_sorted, lemma_kids_split, lemma_sorted_keys, next_at, node_of, nodes_of,
    one_kid, sorted, tree_ok, Bound, NodeM,
};
use crate::btree::BTree;
use crate::bytes::lex_lt;
use crate::error::{GrumpyError, Result};
use crate::page::manager::{
    capped, empty_page, free_pages_first, lemma_empty_page, PageManager,
};
use crate::page::{Page, PageHeader, PageType};

verus! {

impl<K: Key> LeafNode<K> {
    /// The leaf of a tree with configuration `cfg`: its count is right and
    /// its keys fit.
    pub open spec fn ok(&self, cfg: K::Config) -> bool {
        &&& self.config == cfg
        &&& self.num_entries == self.entries@.len()
        &&& forall|i: int|
            0 <= i < self.entries@.len() ==> K::key_ok(
                (#[trigger] self.entries@[i]).key.kview(),
                cfg,
            )
    }

    /// What the leaf is as a node.
    pub open spec fn node(&self) -> NodeM {
        NodeM::Leaf { pid: self.page_id, next: self.next_leaf, entries: self.model() }
    }
}

impl<K: Key> InternalNode<K> {
    /// The node of a tree with configuration `cfg`: its count is right and
    /// its keys fit.
    pub open spec fn ok(&self, cfg: K::Config) -> bool {
        &&& self.config == cfg
        &&& self.num_keys == self.entries@.len()
        &&& forall|i: int|
            0 <= i < self.entries@.len() ==> K::key_ok(
                (#[trigger] self.entries@[i]).key.kview(),
                cfg,
            )
    }

    /// What the node is as a node of the tree model.
    pub open spec fn node(&self) -> NodeM {
        NodeM::Internal { pid: self.page_id, keys: self.keys(), kids: self.kids() }
    }
}

/// A loaded page of either node kind.
pub enum NodeRef<K: Key> {
    Internal(InternalNode<K>),
    Leaf(LeafNode<K>),
}

impl<K: Key> NodeRef<K> {
    /// The node loaded from a page of a tree with configuration `cfg`.
    pub open spec fn ok(&self, cfg: K::Config) -> bool {
        match self {
            NodeRef::Internal(i) => i.ok(cfg),
            NodeRef::Leaf(l) => l.ok(cfg),
        }
    }

    /// What was loaded, as a node of the tree model.
    pub open spec fn node(&self) -> NodeM {
        match self {
            NodeRef::Internal(i) => i.node(),
            NodeRef::Leaf(l) => l.node(),
        }
    }
}

/// The file after a node page was rewritten.
pub open spec fn saved<K: Key>(
    pm0: PageManager,
    pm1: PageManager,
    cfg: K::Config,
    id: u32,
    node: NodeM,
) -> bool {
    &&& base_ok(pm1)
    &&& pm1.count() == pm0.count()
    &&& pm1.free_ids() == pm0.free_ids()
    &&& nodes_of::<K>(pm1, cfg) == nodes_of::<K>(pm0, cfg).update(id as int, node)
    &&& pm1.pages@[1] == pm0.pages@[1]
    &&& rewritten(pm0, pm1, id)
    &&& tally(nodes_of::<K>(pm1, cfg)) == tally(nodes_of::<K>(pm0, cfg)) + node_tally(node)
        - node_tally(nodes_of::<K>(pm0, cfg)[id as int])
}

/// No page but `id` was touched.
#[verifier::opaque]
pub open spec fn rewritten(pm0: PageManager, pm1: PageManager, id: u32) -> bool {
    &&& pm1.count() == pm0.count()
    &&& forall|x: int|
        0 <= x < pm0.count() && x != id ==> #[trigger] pm1.pages@[x] == pm0.pages@[x]
}

/// Rewriting a page keeps leaves linked where no leaf changes its links.
proof fn lemma_rewritten_links<K: Key>(
    pm0: PageManager,
    pm1: PageManager,
    cfg: K::Config,
    id: u32,
)
    requires
        linked_back::<K>(pm0, cfg),
        base_ok(pm0),
        pm0.count() <= u32::MAX,
        rewritten(pm0, pm1, id),
        pm1.free_ids() == pm0.free_ids(),
        2 <= id < pm0.count(),
        !pm0.is_free(id as int),
        same_links::<K>(pm0, pm1, cfg, id),
    ensures
        linked_back::<K>(pm1, cfg),
{
    reveal(rewritten);
    lemma_free_blank::<K>(pm0, cfg);
    lemma_free_same(pm0, pm1);
    assert forall|x: u32| 2 <= x < pm0.count() implies #[trigger] same_links::<K>(
        pm0,
        pm1,
        cfg,
        x,
    ) by {
        if x != id {
            assert(pm1.pages@[x as int] == pm0.pages@[x as int]);
        }
    }
    assert forall|x: int| 2 <= x < pm1.count() && #[trigger] pm1.is_free(x) implies nodes_of::<K>(
        pm1,
        cfg,
    )[x] is Other by {
        assert(pm0.is_free(x));
        assert(nodes_of::<K>(pm0, cfg)[x] is Other);
        assert(pm1.pages@[x] == pm0.pages@[x]);
    }
    lemma_links_same::<K>(pm0, pm1, cfg);
}

/// Leaves with at most the capacity fit their page.
pub proof fn lemma_leaf_fits<K: Key>(leaf: LeafNode<K>, cfg: K::Config)
    requires
        leaf.ok(cfg),
        leaf.entries@.len() <= leaf_cap::<K>(cfg),
    ensures
        leaf_fits::<K>(leaf.model(), cfg),
{
    K::lemma_config(cfg);
    lemma_capacity(leaf.entries@.len(), K::slot_len(cfg) + 6, 8160 - 10 - K::meta_len());
    assert forall|i: int| 0 <= i < leaf.model().len() implies K::key_ok(
        (#[trigger] leaf.model()[i]).0,
        cfg,
    ) by {
        assert(leaf.model()[i].0 == leaf.entries@[i].key.kview());
    }
}

/// Internal nodes with at most the capacity fit their page.
pub proof fn lemma_internal_fits<K: Key>(node: InternalNode<K>, cfg: K::Config)
    requires
        node.ok(cfg),
        node.entries@.len() <= internal_cap::<K>(cfg),
    ensures
        internal_fits::<K>(node.seps(), cfg),
{
    K::lemma_config(cfg);
    lemma_capacity(node.entries@.len(), K::slot_len(cfg) + 4, 8160 - 6 - K::meta_len());
    assert forall|i: int| 0 <= i < node.seps().len() implies K::key_ok(
        (#[trigger] node.seps()[i]).0,
        cfg,
    ) by {
        assert(node.seps()[i].0 == node.entries@[i].key.kview());
    }
}

/// The free pages depend on page 0 alone.
pub proof fn lemma_free_same(pm0: PageManager, pm1: PageManager)
    requires
        pm0.free_ids() == pm1.free_ids(),
    ensures
        forall|x: int| #[trigger] pm1.is_free(x) == pm0.is_free(x),
{
    assert forall|x: int| #[trigger] pm1.is_free(x) == pm0.is_free(x) by {
        if pm1.is_free(x) {
            let i = choose|i: int|
                0 <= i < pm1.free_ids().len() && #[trigger] pm1.free_ids()[i] == x;
            assert(pm0.free_ids()[i] == x);
        }
        if pm0.is_free(x) {
            let i = choose|i: int|
                0 <= i < pm0.free_ids().len() && #[trigger] pm0.free_ids()[i] == x;
            assert(pm1.free_ids()[i] == x);
        }
    }
}

/// Taking a page keeps leaves linked; it holds no node.
proof fn lemma_allocated<K: Key>(pm0: PageManager, pm1: PageManager, cfg: K::Config, id: u32)
    requires
        base_ok(pm0),
        pm0.count() < u32::MAX,
        forall|x: int| 1 <= x < pm0.count() ==> #[trigger] pm1.pages@[x] == pm0.pages@[x],
        forall|x: int| #[trigger] pm1.is_free(x) ==> pm0.is_free(x),
        if pm0.free_ids().len() > 0 {
            pm1.count() == pm0.count() && id == pm0.free_ids().last()
        } else {
            pm1.count() == pm0.count() + 1 && id == pm0.count() && pm1.page(pm0.count())
                == empty_page(id, PageType::Free)
        },
    ensures
        tally(nodes_of::<K>(pm1, cfg)) == tally(nodes_of::<K>(pm0, cfg)),
        linked_back::<K>(pm0, cfg) ==> linked_back::<K>(pm1, cfg) && nodes_of::<K>(
            pm1,
            cfg,
        )[id as int] is Other,
{
    let n0 = nodes_of::<K>(pm0, cfg);
    let n1 = nodes_of::<K>(pm1, cfg);
    assert forall|x: int| 1 <= x < pm0.count() implies #[trigger] n1[x] == n0[x] by {
        assert(pm1.pages@[x] == pm0.pages@[x]);
    }
    if pm0.free_ids().len() == 0 {
        lemma_empty_page(id, PageType::Free);
        assert(n1.last() == node_of::<K>(pm1.page(pm0.count()), cfg));
        assert(n1.last() is Other);
    } else {
        assert(pm0.free_ids()[pm0.free_ids().len() - 1] == id);
        assert(pm0.is_free(id as int));
    }
    lemma_tally_same(n0, n1);
    if linked_back::<K>(pm0, cfg) {
        lemma_free_blank::<K>(pm0, cfg);
        assert forall|x: u32| 2 <= x < pm0.count() implies #[trigger] same_links::<K>(
            pm0,
            pm1,
            cfg,
            x,
        ) by {
            assert(pm1.pages@[x as int] == pm0.pages@[x as int]);
        }
        assert forall|x: int| 2 <= x < pm1.count() && #[trigger] pm1.is_free(x) implies n1[
            x
        ] is Other by {
            assert(pm0.is_free(x));
            assert(x < pm0.count()) by {
                let i = choose|i: int|
                    0 <= i < pm0.free_ids().len() && #[trigger] pm0.free_ids()[i] == x;
            }
            assert(n0[x] is Other);
        }
        lemma_links_same::<K>(pm0, pm1, cfg);
        if pm0.free_ids().len() > 0 {
            assert(n0[id as int] is Other) by {
                assert(id != 1);
            }
        }
    }
}

proof fn lemma_saved<K: Key>(
    pm0: PageManager,
    pm1: PageManager,
    cfg: K::Config,
    id: u32,
    page: Page,
    node: NodeM,
)
    requires
        base_ok(pm0),
        2 <= id < pm0.count(),
        pm1.pages@ == pm0.pages@.update(id as int, page),
        node_of::<K>(page@, cfg) == node,
    ensures
        saved::<K>(pm0, pm1, cfg, id, node),
{
    assert(pm1.page(0) == pm0.page(0));
    lemma_free_same(pm0, pm1);
    assert(pm1.free_ok()) by {
        assert(pm1.free_ids() == pm0.free_ids());
        assert forall|i: int| 0 <= i < pm1.free_ids().len() implies 1 <= #[trigger] pm1.free_ids()[i]
            < pm1.count() by {
            assert(pm0.free_ids()[i] == pm1.free_ids()[i]);
        }
        assert forall|i: int, j: int| 0 <= i < j < pm1.free_ids().len() implies
            #[trigger] pm1.free_ids()[i] != #[trigger] pm1.free_ids()[j] by {
            assert(pm0.free_ids()[i] != pm0.free_ids()[j]);
        }
    }
    assert(!pm1.is_free(1)) by {
        assert(!pm0.is_free(1));
    }
    assert(nodes_of::<K>(pm1, cfg) =~= nodes_of::<K>(pm0, cfg).update(id as int, node));
    reveal(rewritten);
    lemma_tally_update(nodes_of::<K>(pm0, cfg), id as int, node);
}

impl<K: Key> BTree<K> {
    // ── Helpers ─────────────────────────────────────────────────────────

    /// Loads a node, detecting its kind from the page header.
    pub(crate) fn load_node(&self, page_id: u32) -> (r: Result<NodeRef<K>>)
        requires
            page_id < self.pm.count(),
            !(self.nodes()[page_id as int] is Other),
        ensures
            r is Ok,
            r->Ok_0.ok(self.meta.config),
            r->Ok_0.node() == self.nodes()[page_id as int],
            r->Ok_0 matches NodeRef::Leaf(l) ==> l.prev_leaf == back_at(self.pm, page_id as int),
    {
        let buf: Page = match self.pm.read_page(page_id) {
            Ok(b) => b,
            Err(e) => {
                return Err(e);
            },
        };
        let header: PageHeader = PageHeader::read_from(&buf);
        assert(self.nodes()[page_id as int] == node_of::<K>(buf@, self.meta.config));
        match header.page_type {
            PageType::BTreeInternal => {
                let node: InternalNode<K> = InternalNode::from_bytes(&buf);
                proof {
                    assert(node.entries@.len() == node.seps().len());
                    assert(node.keys() =~= sep_keys(
                        crate::btree::node::internal_entries::<K>(buf@),
                    ));
                    assert(node.kids() =~= kids_of(
                        crate::btree::node::internal_entries::<K>(buf@),
                        crate::bytes::field(buf@, 34, 4) as u32,
                    )) by {
                        assert forall|i: int| 0 <= i < node.entries@.len() implies
                            node.entries@[i].child_page_id == (
                        #[trigger] crate::btree::node::internal_entries::<K>(buf@)[i]).1 by {
                            assert(node.seps()[i] == crate::btree::node::internal_entries::<K>(
                                buf@,
                            )[i]);
                        }
                    }
                }
                Ok(NodeRef::Internal(node))
            },
            PageType::BTreeLeaf => {
                let node: LeafNode<K> = LeafNode::from_bytes(&buf);
                proof {
                    assert(node.entries@.len() == node.model().len());
                }
                Ok(NodeRef::Leaf(node))
            },
            _ => Err(GrumpyError::PageNotFound(page_id)),
        }
    }

    pub(crate) fn load_internal(&self, page_id: u32) -> (r: Result<InternalNode<K>>)
        requires
            page_id < self.pm.count(),
            self.nodes()[page_id as int] is Internal,
        ensures
            r is Ok,
            r->Ok_0.ok(self.meta.config),
            r->Ok_0.node() == self.nodes()[page_id as int],
    {
        match self.load_node(page_id) {
            Ok(NodeRef::Internal(n)) => Ok(n),
            Ok(NodeRef::Leaf(_)) => Err(GrumpyError::PageNotFound(page_id)),
            Err(e) => Err(e),
        }
    }

    pub(crate) fn load_leaf(&self, page_id: u32) -> (r: Result<LeafNode<K>>)
        requires
            page_id < self.pm.count(),
            self.nodes()[page_id as int] is Leaf,
        ensures
            r is Ok,
            r->Ok_0.ok(self.meta.config),
            r->Ok_0.node() == self.nodes()[page_id as int],
            r->Ok_0.prev_leaf == back_at(self.pm, page_id as int),
    {
        match self.load_node(page_id) {
            Ok(NodeRef::Leaf(n)) => Ok(n),
            Ok(NodeRef::Internal(_)) => Err(GrumpyError::PageNotFound(page_id)),
            Err(e) => Err(e),
        }
    }

    pub(crate) fn save_internal(&mut self, node: &InternalNode<K>) -> (r: Result<()>)
        requires
            base_ok(old(self).pm),
            2 <= node.page_id < old(self).pm.count(),
            node.ok(old(self).meta.config),
            node.entries@.len() <= old(self).caps().1,
        ensures
            r is Ok,
            final(self).meta == old(self).meta,
            saved::<K>(
                old(self).pm,
                final(self).pm,
                old(self).meta.config,
                node.page_id,
                node.node(),
            ),
            linked_back::<K>(old(self).pm, old(self).meta.config) && !(
            old(self).nodes()[node.page_id as int] is Leaf) && !old(self).pm.is_free(
                node.page_id as int,
            ) ==> linked_back::<K>(final(self).pm, old(self).meta.config),
            !(old(self).nodes()[node.page_id as int] is Other) ==> recycled::<K>(
                old(self).pm,
                final(self).pm,
                old(self).meta.config,
            ),
    {
        let ghost pm0 = self.pm;
        let ghost cfg = self.meta.config;
        proof {
            lemma_internal_fits(*node, cfg);
            lemma_internal_round_trip::<K>(
                node.page_id,
                node.num_keys,
                node.right_child,
                cfg,
                node.seps(),
            );
        }
        let page: Page = node.to_bytes();
        let r: Result<()> = self.pm.write_page(node.page_id, &page);
        proof {
            assert(node.keys() =~= sep_keys(node.seps()));
            assert(node.kids() =~= kids_of(node.seps(), node.right_child));
            lemma_saved::<K>(pm0, self.pm, cfg, node.page_id, page, node.node());
            if !(nodes_of::<K>(pm0, cfg)[node.page_id as int] is Other) {
                lemma_recycled_save::<K>(pm0, self.pm, cfg, node.page_id, node.node());
            }
            if linked_back::<K>(pm0, cfg) && !(nodes_of::<K>(pm0, cfg)[node.page_id as int] is Leaf)
                && !pm0.is_free(node.page_id as int) {
                lemma_rewritten_links::<K>(pm0, self.pm, cfg, node.page_id);
            }
        }
        r
    }

    pub(crate) fn save_leaf(&mut self, leaf: &LeafNode<K>) -> (r: Result<()>)
        requires
            base_ok(old(self).pm),
            2 <= leaf.page_id < old(self).pm.count(),
            leaf.ok(old(self).meta.config),
            leaf.entries@.len() <= old(self).caps().0,
        ensures
            r is Ok,
            final(self).meta == old(self).meta,
            saved::<K>(
                old(self).pm,
                final(self).pm,
                old(self).meta.config,
                leaf.page_id,
                leaf.node(),
            ),
            back_at(final(self).pm, leaf.page_id as int) == leaf.prev_leaf,
            linked_back::<K>(old(self).pm, old(self).meta.config)
                && old(self).nodes()[leaf.page_id as int] is Leaf && next_at(
                old(self).nodes(),
                leaf.page_id,
            ) == leaf.next_leaf && back_at(old(self).pm, leaf.page_id as int) == leaf.prev_leaf
                && !old(self).pm.is_free(leaf.page_id as int) ==> linked_back::<K>(
                final(self).pm,
                old(self).meta.config,
            ),
            !(old(self).nodes()[leaf.page_id as int] is Other) ==> recycled::<K>(
                old(self).pm,
                final(self).pm,
                old(self).meta.config,
            ),
    {
        let ghost pm0 = self.pm;
        let ghost cfg = self.meta.config;
        proof {
            lemma_leaf_fits(*leaf, cfg);
            lemma_leaf_round_trip::<K>(
                leaf.page_id,
                leaf.num_entries,
                leaf.next_leaf,
                leaf.prev_leaf,
                cfg,
                leaf.model(),
            );
        }
        let page: Page = leaf.to_bytes();
        let r: Result<()> = self.pm.write_page(leaf.page_id, &page);
        proof {
            lemma_saved::<K>(pm0, self.pm, cfg, leaf.page_id, page, leaf.node());
            if !(nodes_of::<K>(pm0, cfg)[leaf.page_id as int] is Other) {
                lemma_recycled_save::<K>(pm0, self.pm, cfg, leaf.page_id, leaf.node());
            }
            if linked_back::<K>(pm0, cfg) && nodes_of::<K>(pm0, cfg)[leaf.page_id as int] is Leaf
                && next_at(nodes_of::<K>(pm0, cfg), leaf.page_id) == leaf.next_leaf && back_at(
                pm0,
                leaf.page_id as int,
            ) == leaf.prev_leaf && !pm0.is_free(leaf.page_id as int) {
                lemma_rewritten_links::<K>(pm0, self.pm, cfg, leaf.page_id);
            }
        }
        r
    }

    pub(crate) fn alloc_page(&mut self) -> (r: Result<u32>)
        requires
            base_ok(old(self).pm),
            old(self).pm.count() < u32::MAX,
        ensures
            r is Ok,
            final(self).meta == old(self).meta,
            base_ok(final(self).pm),
            2 <= r->Ok_0 < final(self).pm.count(),
            old(self).pm.is_free(r->Ok_0 as int) || r->Ok_0 >= old(self).pm.count(),
            !final(self).pm.is_free(r->Ok_0 as int),
            old(self).pm.count() <= final(self).pm.count() <= old(self).pm.count() + 1,
            final(self).pm.count() > old(self).pm.count() ==> r->Ok_0 == old(self).pm.count(),
            forall|x: int| #[trigger] final(self).pm.is_free(x) ==> old(self).pm.is_free(x),
            forall|x: int|
                1 <= x < old(self).pm.count() ==> #[trigger] nodes_of::<K>(
                    final(self).pm,
                    old(self).meta.config,
                )[x] == nodes_of::<K>(old(self).pm, old(self).meta.config)[x],
            final(self).pm.pages@[1] == old(self).pm.pages@[1],
            free_pages_first(old(self).pm, final(self).pm, 1),
            forall|x: int|
                1 <= x < old(self).pm.count() ==> #[trigger] final(self).pm.pages@[x] == old(
                    self).pm.pages@[x],
            tally(final(self).nodes()) == tally(old(self).nodes()),
            linked_back::<K>(old(self).pm, old(self).meta.config) ==> linked_back::<K>(
                final(self).pm,
                old(self).meta.config,
            ) && final(self).nodes()[r->Ok_0 as int] is Other,
    {
        let ghost pm0 = self.pm;
        let ghost cfg = self.meta.config;
        let r: Result<u32> = self.pm.allocate_page();
        proof {
            let free = pm0.free_ids();
            if free.len() > 0 {
                assert(free.drop_last() =~= free.take(free.len() - 1));
            }
            assert forall|x: int| 1 <= x < pm0.count() implies #[trigger] nodes_of::<K>(
                self.pm,
                self.meta.config,
            )[x] == nodes_of::<K>(pm0, self.meta.config)[x] by {
                assert(self.pm.pages@[x] == pm0.pages@[x]);
            }
            assert(self.pm.pages@[1] == pm0.pages@[1]);
            if r->Ok_0 == 1 {
                assert(pm0.is_free(1));
            }
            lemma_allocated::<K>(pm0, self.pm, cfg, r->Ok_0);
        }
        r
    }

    /// Returns a page to the free-list.
    pub(crate) fn release_page(&mut self, page_id: u32) -> (r: Result<()>)
        requires
            base_ok(old(self).pm),
            2 <= page_id < old(self).pm.count(),
            !old(self).pm.is_free(page_id as int),
        ensures
            r is Ok,
            final(self).meta == old(self).meta,
            base_ok(final(self).pm),
            final(self).pm.count() == old(self).pm.count(),
            forall|x: int|
                #[trigger] final(self).pm.is_free(x) ==> old(self).pm.is_free(x) || x == page_id,
            forall|x: int|
                1 <= x < old(self).pm.count() && x != page_id ==> #[trigger] nodes_of::<K>(
                    final(self).pm,
                    old(self).meta.config,
                )[x] == nodes_of::<K>(old(self).pm, old(self).meta.config)[x],
            nodes_of::<K>(final(self).pm, old(self).meta.config)[page_id as int] is Other,
            final(self).pm.free_ids() == capped(old(self).pm.free_ids().push(page_id)),
            forall|x: int|
                1 <= x < old(self).pm.count() && x != page_id ==> #[trigger] final(
                    self).pm.pages@[x] == old(self).pm.pages@[x],
            tally(final(self).nodes()) == tally(old(self).nodes()) - node_tally(
                old(self).nodes()[page_id as int],
            ),
            !(old(self).nodes()[page_id as int] is Other) ==> recycled::<K>(
                old(self).pm,
                final(self).pm,
                old(self).meta.config,
            ),
            linked_back::<K>(old(self).pm, old(self).meta.config) && !(
            old(self).nodes()[page_id as int] is Leaf) ==> linked_back::<K>(
                final(self).pm,
                old(self).meta.config,
            ),
    {
        let ghost pm0 = self.pm;
        let ghost cfg = self.meta.config;
        let r: Result<()> = self.pm.free_page(page_id);
        proof {
            lemma_empty_page(page_id, PageType::Free);
            assert forall|x: int| 1 <= x < pm0.count() && x != page_id implies
                #[trigger] nodes_of::<K>(self.pm, self.meta.config)[x] == nodes_of::<K>(
                pm0,
                self.meta.config,
            )[x] by {
                assert(self.pm.pages@[x] == pm0.pages@[x]);
            }
            let n0 = nodes_of::<K>(pm0, cfg);
            lemma_tally_update(n0, page_id as int, NodeM::Other);
            lemma_tally_same(n0.update(page_id as int, NodeM::Other), self.nodes());
            if !(n0[page_id as int] is Other) {
                lemma_recycled_release::<K>(pm0, self.pm, cfg, page_id);
            }
            if linked_back::<K>(pm0, cfg) && !(n0[page_id as int] is Leaf) {
                lemma_free_blank::<K>(pm0, cfg);
                assert forall|x: u32| 2 <= x < pm0.count() implies #[trigger] same_links::<K>(
                    pm0,
                    self.pm,
                    cfg,
                    x,
                ) by {
                    if x != page_id {
                        assert(self.pm.pages@[x as int] == pm0.pages@[x as int]);
                    }
                }
                assert forall|x: int|
                    2 <= x < self.pm.count() && #[trigger] self.pm.is_free(x) implies nodes_of::<K>(
                    self.pm,
                    cfg,
                )[x] is Other by {
                    if x != page_id {
                        assert(pm0.is_free(x));
                    }
                }
                lemma_links_same::<K>(pm0, self.pm, cfg);
            }
        }
        r
    }

    // ── Search ──────────────────────────────────────────────────────────

    /// Searches for `key` and returns its `(page_id, slot_id)` if present.
    pub fn search(&self, key: &K) -> (r: Result<Option<(u32, u16)>>)
        requires
            self.tree_wf(),
        ensures
            r == Ok::<Option<(u32, u16)>, GrumpyError>(lookup(self.entries(), key.kview())),
    {
        let (leaf, Ghost(fl), Ghost(bl)) = match self.find_leaf(key) {
            Ok(t) => t,
            Err(e) => {
                return Err(e);
            },
        };
        let ghost es = self.entries();
        let ghost k = key.kview();
        let ghost front = cat(self.nodes(), fl);
        let ghost back = cat(self.nodes(), bl);
        proof {
            reveal(sub_ok);
            lemma_around(self.nodes(), fl, leaf.page_id, bl);
            lemma_flat_sorted(
                self.nodes(),
                self.meta.root_page_id,
                (self.meta.height - 1) as nat,
                None,
                None,
                0,
                self.caps(),
            );
            lemma_middle(front, leaf.model(), back, k);
        }
        match leaf.search(key) {
            Some(idx) => {
                proof {
                    assert(leaf.keys()[idx as int] == leaf.model()[idx as int].0);
                    assert(present_at(leaf.model(), k, idx as int));
                    lemma_present(es, k, front.len() + idx);
                    assert(es[front.len() + idx] == leaf.model()[idx as int]);
                }
                let entry: &LeafEntry<K> = &leaf.entries[idx];
                Ok(Some((entry.page_id, entry.slot_id)))
            },
            None => {
                proof {
                    lemma_place(leaf, k);
                    let p = choose|p: int| absent_at(leaf.model(), k, p);
                    lemma_absent(es, k, front.len() + p);
                }
                Ok(None)
            },
        }
    }

    /// Descends the tree to find the leaf node that would contain `key`. The
    /// leaves before it hold only lesser keys, those behind it only greater
    /// ones.
    pub(crate) fn find_leaf(&self, key: &K) -> (r: Result<
        (LeafNode<K>, Ghost<Seq<u32>>, Ghost<Seq<u32>>),
    >)
        requires
            self.tree_wf(),
        ensures
            r is Ok,
            ({
                let (leaf, fl, bl) = r->Ok_0;
                &&& leaf.ok(self.meta.config)
                &&& 2 <= leaf.page_id < self.pm.count()
                &&& leaf.node() == self.nodes()[leaf.page_id as int]
                &&& sorted(leaf.model())
                &&& crate::btree::node::keys_sorted(leaf.keys())
                &&& leaves(
                    self.nodes(),
                    self.meta.root_page_id,
                    (self.meta.height - 1) as nat,
                ) == fl@ + one_kid(leaf.page_id) + bl@
                &&& forall|j: int|
                    0 <= j < cat(self.nodes(), fl@).len() ==> lex_lt(
                        (#[trigger] cat(self.nodes(), fl@)[j]).0,
                        key.kview(),
                    )
                &&& forall|j: int|
                    0 <= j < cat(self.nodes(), bl@).len() ==> lex_lt(
                        key.kview(),
                        (#[trigger] cat(self.nodes(), bl@)[j]).0,
                    )
            }),
    {
        let ghost n = self.nodes();
        let ghost k = key.kview();
        let ghost caps = self.caps();
        let ghost all = leaves(n, self.meta.root_page_id, (self.meta.height - 1) as nat);
        let mut current: u32 = self.meta.root_page_id;
        let ghost mut lvl: nat = (self.meta.height - 1) as nat;
        let ghost mut lo: Bound = None;
        let ghost mut hi: Bound = None;
        let ghost mut nxt: u32 = 0;
        let ghost mut fl: Seq<u32> = Seq::empty();
        let ghost mut bl: Seq<u32> = Seq::empty();
        proof {
            reveal(sub_ok);
            assert(all =~= fl + leaves(n, current, lvl) + bl);
        }
        loop
            invariant
                n == self.nodes(),
                k == key.kview(),
                caps == self.caps(),
                all == leaves(n, self.meta.root_page_id, (self.meta.height - 1) as nat),
                tree_ok(n, current, lvl, lo, hi, nxt, caps),
                above(lo, k),
                below(hi, k),
                all == fl + leaves(n, current, lvl) + bl,
                forall|j: int| 0 <= j < cat(n, fl).len() ==> lex_lt((#[trigger] cat(n, fl)[j]).0, k),
                forall|j: int| 0 <= j < cat(n, bl).len() ==> lex_lt(k, (#[trigger] cat(n, bl)[j]).0),
            decreases lvl,
        {
            match self.load_node(current) {
                Ok(NodeRef::Leaf(leaf)) => {
                    proof {
                        lemma_sorted_keys(leaf.model());
                        assert(leaves(n, current, lvl) =~= one_kid(current));
                    }
                    return Ok((leaf, Ghost(fl), Ghost(bl)));
                },
                Ok(NodeRef::Internal(node)) => {
                    let i: usize = node.find_child_index(key);
                    let child: u32 = node.child_at(i);
                    proof {
                        let keys = node.keys();
                        let kids = node.kids();
                        let l1 = (lvl - 1) as nat;
                        let p = i as int;
                        lemma_descend(n, keys, kids, l1, lo, hi, nxt, caps, k, p);
                        lemma_kids_split(n, kids, l1, p);
                        let a = kids_leaves(n, kids.take(p), l1);
                        let b = kids_leaves(n, kids.skip(p + 1), l1);
                        assert(fl + leaves(n, current, lvl) + bl =~= (fl + a) + leaves(n, child, l1)
                            + (b + bl));
                        lemma_cat_append(n, fl, a);
                        lemma_cat_append(n, b, bl);
                        fl = fl + a;
                        bl = b + bl;
                        nxt = kid_next(n, kids, l1, nxt, p);
                        lo = kid_lo(keys, lo, p);
                        hi = kid_hi(keys, hi, p);
                        lvl = l1;
                    }
                    current = child;
                },
                Err(e) => {
                    return Err(e);
                },
            }
        }
    }
}

/// The entries of leaves around one of them.
pub proof fn lemma_around(n: Seq<NodeM>, fl: Seq<u32>, id: u32, bl: Seq<u32>)
    ensures
        cat(n, fl + one_kid(id) + bl) == cat(n, fl) + crate::btree::tree::leaf_at(n, id) + cat(
            n,
            bl,
        ),
{
    lemma_cat_append(n, fl + one_kid(id), bl);
    lemma_cat_append(n, fl, one_kid(id));
    crate::btree::tree::lemma_cat_one(n, id);
}

/// A key that a sorted leaf does not hold has a place in it.
pub proof fn lemma_place<K: Key>(leaf: LeafNode<K>, k: Seq<u8>)
    requires
        sorted(leaf.model()),
        forall|i: int| 0 <= i < leaf.keys().len() ==> #[trigger] leaf.keys()[i] != k,
    ensures
        exists|p: int| absent_at(leaf.model(), k, p),
{
    let es = leaf.model();
    crate::btree::entries::lemma_lookup(es, k);
    let r = rank(es, k);
    if lookup(es, k) is Some {
        assert(leaf.keys()[r] == es[r].0);
    } else {
        assert(absent_at(es, k, r));
    }
}

} // verus!
