//! Insertion into a B+Tree, with splits on the way back up.

use vstd::prelude::*;

use crate::btree::change::{
    base_ok, changed, lemma_alone, lemma_child_middle, lemma_finish, lemma_finish_cut, 
    lemma_leaf_cut, lemma_leaf_rewrite, lemma_lift_to, lemma_lifted_basic, lemma_meta_frame,
    lemma_new_root, lemma_step_down, lemma_sub_root, lifted, next_ok, sub_ok,
};
use crate::btree::delete::lemma_next_outside;
use crate::btree::entries::{
    absent_at, lemma_absent, lemma_cut_sorted, lemma_insert_sorted, lemma_present, lookup,
    present_at, wf_parts, with_entry,
};
use crate::btree::fill::{
    grown, least, lemma_child_grown, lemma_grown_then, lemma_meta_full, lemma_new_root_full,
    lemma_one_grown, lemma_same_root_full, lemma_split_grown, node_size,
};
use crate::btree::key::Key;
use crate::btree::links::{
    back_at, drawn, lemma_drawn, lemma_drawn_then, lemma_meta_tidy, lemma_none_drawn,
    lemma_split_links,
    linked_back, node_tally, same_page, tally, tended,
};
use crate::btree::node::{
    config_ok, lemma_bounds_unique, lemma_cap_bounds, lower_bound, upper_bound, Entry,
    InternalEntry, InternalNode, LeafEntry, LeafNode,
};
use crate::btree::ops::{lemma_free_same, lemma_place, rewritten, NodeRef};
use crate::btree::tree::{
    above, below, flat, kid_hi, kid_lo, kid_next, kids_distinct, kids_flat, kids_ok, kids_own,
    lemma_sorted_keys, next_at, nodes_of, one_kid, owns, put_keys, put_kids, two_kids, within, Bound, NodeM,
};
use crate::btree::BTree;
use crate::bytes::{lemma_lex_asymmetric, lex_lt};
use crate::error::{GrumpyError, Result};
use crate::page::manager::PageManager;

verus! {

/// What became of a subtree into which `k` was inserted.
#[verifier::opaque]
pub open spec fn inserted<K: Key>(
    pm0: PageManager,
    pm1: PageManager,
    cfg: K::Config,
    id: u32,
    lvl: nat,
    lo: Bound,
    hi: Bound,
    nxt: u32,
    caps: (nat, nat),
    k: Seq<u8>,
    v: (u32, u16),
    rkeys: Seq<Seq<u8>>,
    rk: Seq<u32>,
) -> bool {
    let es = flat(nodes_of::<K>(pm0, cfg), id, lvl);
    &&& pm1.count() <= pm0.count() + lvl + 1
    &&& exists|p: int|
        {
            &&& #[trigger] absent_at(es, k, p)
            &&& changed::<K>(
                pm0,
                pm1,
                cfg,
                lvl,
                one_kid(id),
                lo,
                hi,
                nxt,
                caps,
                rkeys,
                rk,
                es.insert(p, (k, v)),
            )
        }
}

/// The outcome of inserting below a node: the node alone, or the node and a
/// new one on its right behind a promoted key.
pub open spec fn insert_outcome<K: Key>(
    pm0: PageManager,
    pm1: PageManager,
    cfg: K::Config,
    id: u32,
    lvl: nat,
    lo: Bound,
    hi: Bound,
    nxt: u32,
    caps: (nat, nat),
    k: Seq<u8>,
    v: (u32, u16),
    r: Result<Option<(K, u32)>>,
) -> bool {
    match r {
        Ok(None) => inserted::<K>(
            pm0,
            pm1,
            cfg,
            id,
            lvl,
            lo,
            hi,
            nxt,
            caps,
            k,
            v,
            Seq::empty(),
            one_kid(id),
        ),
        Ok(Some(split)) => {
            &&& K::key_ok(split.0.kview(), cfg)
            &&& inserted::<K>(
                pm0,
                pm1,
                cfg,
                id,
                lvl,
                lo,
                hi,
                nxt,
                caps,
                k,
                v,
                seq![split.0.kview()],
                two_kids(id, split.1),
            )
        },
        Err(e) => {
            &&& K::is_duplicate_error(k, e)
            &&& pm1 == pm0
            &&& exists|p: int| present_at(flat(nodes_of::<K>(pm0, cfg), id, lvl), k, p)
        },
    }
}

impl<K: Key> BTree<K> {
    /// Inserts a key → `(page_id, slot_id)` mapping.
    ///
    /// Fails with the key type's duplicate error if the key already exists.
    pub fn insert(&mut self, key: K, page_id: u32, slot_id: u16) -> (r: Result<()>)
        requires
            old(self).tree_wf(),
            K::key_ok(key.kview(), old(self).meta.config),
            old(self).pm.count() + old(self).meta.height < u32::MAX,
            old(self).meta.num_entries < u64::MAX,
        ensures
            final(self).meta.config == old(self).meta.config,
            r is Ok == (lookup(old(self).entries(), key.kview()) is None),
            match r {
                Ok(_) => {
                    &&& final(self).wf()
                    &&& final(self).entries() == with_entry(
                        old(self).entries(),
                        key.kview(),
                        (page_id, slot_id),
                    )
                    &&& final(self).pm.count() <= old(self).pm.count() + old(self).meta.height + 1
                    &&& final(self).meta.height <= old(self).meta.height + 1
                    &&& old(self).filled() ==> final(self).filled()
                    &&& old(self).tidy() ==> final(self).tidy()
                    &&& drawn(old(self).pm, final(self).pm)
                },
                Err(e) => K::is_duplicate_error(key.kview(), e) && *final(self) == *old(self),
            },
    {
        let ghost t0 = *self;
        let ghost cfg = self.meta.config;
        let ghost caps = self.caps();
        let ghost lvl = (self.meta.height - 1) as nat;
        let ghost k = key.kview();
        let root: u32 = self.meta.root_page_id;
        proof {
            lemma_sub_root::<K>(t0.pm, cfg, root, lvl, None, None, 0, caps);
        }
        let ghost es = t0.entries();
        let out: Result<Option<(K, u32)>> = self.insert_below(
            root,
            &key,
            page_id,
            slot_id,
            Ghost(lvl),
            Ghost(None),
            Ghost(None),
            Ghost(0u32),
        );
        let ghost pm1 = self.pm;
        match out {
            Err(e) => {
                proof {
                    let p = choose|p: int| present_at(es, k, p);
                    lemma_present(es, k, p);
                }
                return Err(e);
            },
            Ok(None) => {
                proof {
                    reveal(inserted);
                    let p = choose|p: int|
                        {
                            &&& #[trigger] absent_at(es, k, p)
                            &&& changed::<K>(
                                t0.pm,
                                pm1,
                                cfg,
                                lvl,
                                one_kid(root),
                                None,
                                None,
                                0,
                                caps,
                                Seq::empty(),
                                one_kid(root),
                                es.insert(p, (k, (page_id, slot_id))),
                            )
                        };
                    lemma_absent(es, k, p);
                    lemma_alone::<K>(
                        t0.pm,
                        pm1,
                        cfg,
                        root,
                        lvl,
                        None,
                        None,
                        0,
                        caps,
                        es.insert(p, (k, (page_id, slot_id))),
                    );
                    if t0.filled() {
                        lemma_same_root_full(t0.nodes(), self.nodes(), least::<K>(cfg), root);
                    }
                }
            },
            Ok(Some((promoted, right))) => {
                proof {
                    reveal(inserted);
                    reveal(changed);
                }
                let ghost p = choose|p: int|
                    {
                        &&& #[trigger] absent_at(es, k, p)
                        &&& changed::<K>(
                            t0.pm,
                            pm1,
                            cfg,
                            lvl,
                            one_kid(root),
                            None,
                            None,
                            0,
                            caps,
                            seq![promoted.kview()],
                            two_kids(root, right),
                            es.insert(p, (k, (page_id, slot_id))),
                        )
                    };
                proof {
                    lemma_absent(es, k, p);
                }
                let ghost n1 = self.nodes();
                match self.grow_root(promoted, right) {
                    Ok(_) => {},
                    Err(e) => {
                        return Err(e);
                    },
                }
                proof {
                    lemma_drawn_then(t0.pm, pm1, self.pm);
                    if t0.filled() {
                        lemma_new_root_full(
                            t0.nodes(),
                            n1,
                            self.nodes(),
                            least::<K>(cfg),
                            root,
                            self.meta.root_page_id,
                        );
                    }
                }
            },
        }
        self.meta.num_entries = self.meta.num_entries + 1;
        let ghost pm2 = self.pm;
        let ghost meta2 = self.meta;
        let ghost done = with_entry(es, k, (page_id, slot_id));
        proof {
            assert(flat(nodes_of::<K>(pm2, cfg), meta2.root_page_id, (meta2.height - 1) as nat)
                == done);
            assert(done.len() == es.len() + 1);
            lemma_sub_root::<K>(
                pm2,
                cfg,
                meta2.root_page_id,
                (meta2.height - 1) as nat,
                None,
                None,
                0,
                caps,
            );
        }
        let r: Result<()> = self.flush_meta();
        proof {
            lemma_meta_tidy::<K>(pm2, self.pm, cfg);
            lemma_none_drawn(pm2, self.pm);
            lemma_drawn_then(t0.pm, pm2, self.pm);
            lemma_meta_frame::<K>(
                pm2,
                self.pm,
                cfg,
                meta2.root_page_id,
                (meta2.height - 1) as nat,
                None,
                None,
                0,
                caps,
            );
            if t0.filled() {
                lemma_meta_full::<K>(pm2, self.pm, cfg, meta2.root_page_id);
            }
        }
        r
    }

    /// Grows the tree by one level above its root and the root's new right
    /// neighbour.
    fn grow_root(&mut self, promoted: K, right: u32) -> (r: Result<()>)
        requires
            base_ok(old(self).pm),
            config_ok::<K>(old(self).meta.config),
            old(self).meta.height >= 1,
            old(self).pm.count() < u32::MAX,
            old(self).meta.height < u32::MAX,
            K::key_ok(promoted.kview(), old(self).meta.config),
            kids_ok(
                old(self).nodes(),
                seq![promoted.kview()],
                two_kids(old(self).meta.root_page_id, right),
                (old(self).meta.height - 1) as nat,
                None,
                None,
                0,
                old(self).caps(),
            ),
            kids_distinct(
                old(self).nodes(),
                two_kids(old(self).meta.root_page_id, right),
                (old(self).meta.height - 1) as nat,
            ),
            forall|x: int|
                #[trigger] kids_own(
                    old(self).nodes(),
                    two_kids(old(self).meta.root_page_id, right),
                    (old(self).meta.height - 1) as nat,
                    x,
                ) ==> !old(self).pm.is_free(x),
        ensures
            r is Ok,
            final(self).meta.config == old(self).meta.config,
            final(self).meta.num_entries == old(self).meta.num_entries,
            final(self).meta.height == old(self).meta.height + 1,
            final(self).pm.count() <= old(self).pm.count() + 1,
            wf_parts::<K>(
                final(self).pm,
                final(self).meta.config,
                final(self).meta.root_page_id,
                (final(self).meta.height - 1) as nat,
                final(self).caps(),
            ),
            final(self).entries() == kids_flat(
                old(self).nodes(),
                two_kids(old(self).meta.root_page_id, right),
                (old(self).meta.height - 1) as nat,
            ),
            old(self).pm.count() <= final(self).pm.count(),
            final(self).pm.count() > old(self).pm.count() ==> final(self).meta.root_page_id
                == old(self).pm.count(),
            final(self).meta.root_page_id < final(self).pm.count(),
            forall|x: int|
                2 <= x < old(self).nodes().len() && x != final(self).meta.root_page_id
                    ==> #[trigger] final(self).nodes()[x] == old(self).nodes()[x],
            final(self).nodes()[final(self).meta.root_page_id as int] is Internal,
            node_size(final(self).nodes()[final(self).meta.root_page_id as int]) == 1,
            drawn(old(self).pm, final(self).pm),
            tended::<K>(old(self).pm, final(self).pm, old(self).meta.config, -1),
    {
        let ghost pm1 = self.pm;
        let ghost cfg = self.meta.config;
        let ghost s = promoted.kview();
        let ghost lvl = (self.meta.height - 1) as nat;
        let ghost caps = self.caps();
        let old_root: u32 = self.meta.root_page_id;
        let new_root_id: u32 = match self.alloc_page() {
            Ok(p) => p,
            Err(e) => {
                return Err(e);
            },
        };
        let ghost pm2 = self.pm;
        let mut new_root: InternalNode<K> = InternalNode::new(new_root_id, self.meta.config);
        new_root.entries.push(InternalEntry { key: promoted, child_page_id: old_root });
        new_root.num_keys = 1;
        new_root.right_child = right;
        proof {
            assert(new_root.keys() =~= seq![s]);
            assert(new_root.kids() =~= two_kids(old_root, right));
        }
        match self.save_internal(&new_root) {
            Ok(_) => {},
            Err(e) => {
                return Err(e);
            },
        }
        self.meta.root_page_id = new_root_id;
        self.meta.height = self.meta.height + 1;
        proof {
            lemma_drawn(pm1, pm2, 1);
            lemma_none_drawn(pm2, self.pm);
            lemma_drawn_then(pm1, pm2, self.pm);
            lemma_free_same(pm2, self.pm);
            lemma_new_root::<K>(pm1, self.pm, cfg, new_root_id, old_root, right, s, lvl, caps);
            assert(self.nodes()[new_root_id as int] == new_root.node());
            assert forall|x: int| 2 <= x < pm1.count() && x != new_root_id implies
                #[trigger] self.nodes()[x] == nodes_of::<K>(pm1, cfg)[x] by {
                assert(nodes_of::<K>(pm2, cfg)[x] == nodes_of::<K>(pm1, cfg)[x]);
            }
        }
        Ok(())
    }

    /// Inserts below the node at page `id`. A node that had to be split is
    /// returned as its promoted key and the page of its right half.
    #[verifier::rlimit(60)]
    fn insert_below(
        &mut self,
        id: u32,
        key: &K,
        page_id: u32,
        slot_id: u16,
        Ghost(lvl): Ghost<nat>,
        Ghost(lo): Ghost<Bound>,
        Ghost(hi): Ghost<Bound>,
        Ghost(nxt): Ghost<u32>,
    ) -> (r: Result<Option<(K, u32)>>)
        requires
            config_ok::<K>(old(self).meta.config),
            K::key_ok(key.kview(), old(self).meta.config),
            sub_ok::<K>(
                old(self).pm,
                old(self).meta.config,
                id,
                lvl,
                lo,
                hi,
                nxt,
                old(self).caps(),
            ),
            next_ok::<K>(old(self).pm, old(self).meta.config, nxt, old(self).caps()),
            nxt == 0 || !owns(old(self).nodes(), id, lvl, nxt as int),
            above(lo, key.kview()),
            below(hi, key.kview()),
            old(self).pm.count() + lvl < u32::MAX,
        ensures
            final(self).meta == old(self).meta,
            insert_outcome::<K>(
                old(self).pm,
                final(self).pm,
                old(self).meta.config,
                id,
                lvl,
                lo,
                hi,
                nxt,
                old(self).caps(),
                key.kview(),
                (page_id, slot_id),
                r,
            ),
            r matches Ok(split) ==> grown(
                old(self).nodes(),
                final(self).nodes(),
                least::<K>(old(self).meta.config),
                id,
                split is Some,
            ),
            r matches Ok(split) ==> drawn(old(self).pm, final(self).pm) && tended::<K>(
                old(self).pm,
                final(self).pm,
                old(self).meta.config,
                if split is Some {
                    1
                } else {
                    0
                },
            ),
        decreases lvl,
    {
        let ghost pm0 = self.pm;
        let ghost n0 = self.nodes();
        let ghost cfg = self.meta.config;
        let ghost caps = self.caps();
        let ghost k = key.kview();
        let ghost v = (page_id, slot_id);
        proof {
            lemma_sub_root::<K>(pm0, cfg, id, lvl, lo, hi, nxt, caps);
        }
        match self.load_node(id) {
            Err(e) => Err(e),
            Ok(NodeRef::Leaf(leaf)) => self.insert_in_leaf(
                leaf,
                key,
                page_id,
                slot_id,
                Ghost(lo),
                Ghost(hi),
                Ghost(nxt),
            ),
            Ok(NodeRef::Internal(node)) => {
                let ghost keys = node.keys();
                let ghost kids = node.kids();
                let ghost l1 = (lvl - 1) as nat;
                let i: usize = node.find_child_index(key);
                let child: u32 = node.child_at(i);
                let ghost p = i as int;
                let ghost clo = kid_lo(keys, lo, p);
                let ghost chi = kid_hi(keys, hi, p);
                let ghost cnxt = kid_next(n0, kids, l1, nxt, p);
                proof {
                    lemma_step_down::<K>(
                        pm0,
                        cfg,
                        id,
                        l1,
                        lo,
                        hi,
                        nxt,
                        caps,
                        keys,
                        kids,
                        k,
                        p,
                    );
                    lemma_next_outside::<K>(
                        pm0,
                        cfg,
                        id,
                        l1,
                        lo,
                        hi,
                        nxt,
                        caps,
                        keys,
                        kids,
                        p,
                        p,
                    );
                }
                let out: Result<Option<(K, u32)>> = self.insert_below(
                    child,
                    key,
                    page_id,
                    slot_id,
                    Ghost(l1),
                    Ghost(clo),
                    Ghost(chi),
                    Ghost(cnxt),
                );
                let ghost pm1 = self.pm;
                match out {
                    Err(e) => {
                        proof {
                            lemma_child_middle::<K>(
                                pm0,
                                cfg,
                                id,
                                l1,
                                lo,
                                hi,
                                nxt,
                                caps,
                                keys,
                                kids,
                                k,
                                p,
                            );
                            let w = choose|w: int|
                                present_at(flat(n0, kids[p], l1), k, w);
                            assert(present_at(
                                flat(n0, id, lvl),
                                k,
                                kids_flat(n0, kids.take(p), l1).len() + w,
                            ));
                        }
                        Err(e)
                    },
                    Ok(None) => {
                        proof {
                            lemma_child_kept::<K>(
                                pm0,
                                pm1,
                                cfg,
                                id,
                                l1,
                                lo,
                                hi,
                                nxt,
                                caps,
                                keys,
                                kids,
                                p,
                                k,
                                v,
                            );
                            lemma_child_grown(
                                n0,
                                self.nodes(),
                                least::<K>(cfg),
                                id,
                                child,
                                false,
                            );
                        }
                        Ok(None)
                    },
                    Ok(Some((promoted, right))) => {
                        let ghost nk = put_keys(keys, p, p + 1, seq![promoted.kview()]);
                        let ghost nc = put_kids(kids, p, p + 1, two_kids(child, right));
                        let ghost es = flat(n0, id, lvl);
                        proof {
                            lemma_child_inserted::<K>(
                                pm0,
                                pm1,
                                cfg,
                                id,
                                l1,
                                lo,
                                hi,
                                nxt,
                                caps,
                                keys,
                                kids,
                                p,
                                k,
                                v,
                                seq![promoted.kview()],
                                two_kids(child, right),
                            );
                        }
                        let ghost q = choose|q: int|
                            {
                                &&& #[trigger] absent_at(es, k, q)
                                &&& lifted::<K>(
                                    pm0,
                                    pm1,
                                    cfg,
                                    id,
                                    l1,
                                    lo,
                                    hi,
                                    nxt,
                                    caps,
                                    nk,
                                    nc,
                                    es.insert(q, (k, v)),
                                )
                            };
                        proof {
                            lemma_lifted_basic::<K>(
                                pm0,
                                pm1,
                                cfg,
                                id,
                                l1,
                                lo,
                                hi,
                                nxt,
                                caps,
                                nk,
                                nc,
                                es.insert(q, (k, v)),
                            );
                            lemma_promoted_place(nk, keys, promoted.kview(), p);
                            assert(nc =~= kids.insert(p + 1, right));
                            lemma_inserted_count::<K>(
                                pm0,
                                pm1,
                                cfg,
                                child,
                                l1,
                                clo,
                                chi,
                                cnxt,
                                caps,
                                k,
                                v,
                                seq![promoted.kview()],
                                two_kids(child, right),
                            );
                        }
                        let ghost n1 = self.nodes();
                        let ghost pmx = self.pm;
                        let done: Result<Option<(K, u32)>> = self.absorb_split(
                            node,
                            promoted,
                            right,
                            Ghost(pm0),
                            Ghost(lvl),
                            Ghost(lo),
                            Ghost(hi),
                            Ghost(nxt),
                            Ghost(p),
                            Ghost(k),
                            Ghost(v),
                            Ghost(q),
                        );
                        proof {
                            lemma_drawn_then(pm0, pmx, self.pm);
                            lemma_child_grown(n0, n1, least::<K>(cfg), id, child, true);
                            lemma_grown_then(
                                n0,
                                n1,
                                self.nodes(),
                                least::<K>(cfg),
                                id,
                                done->Ok_0 is Some,
                            );
                        }
                        done
                    },
                }
            },
        }
    }

    /// Adds a promoted key and its right child to a node, splitting the node
    /// further if necessary.
    #[verifier::rlimit(60)]
    fn absorb_split(
        &mut self,
        mut parent: InternalNode<K>,
        promoted: K,
        right: u32,
        Ghost(pm0): Ghost<PageManager>,
        Ghost(lvl): Ghost<nat>,
        Ghost(lo): Ghost<Bound>,
        Ghost(hi): Ghost<Bound>,
        Ghost(nxt): Ghost<u32>,
        Ghost(p): Ghost<int>,
        Ghost(k): Ghost<Seq<u8>>,
        Ghost(v): Ghost<(u32, u16)>,
        Ghost(q): Ghost<int>,
    ) -> (r: Result<Option<(K, u32)>>)
        requires
            config_ok::<K>(old(self).meta.config),
            lvl > 0,
            sub_ok::<K>(
                pm0,
                old(self).meta.config,
                parent.page_id,
                lvl,
                lo,
                hi,
                nxt,
                old(self).caps(),
            ),
            parent.ok(old(self).meta.config),
            parent.entries@.len() <= old(self).caps().1,
            parent.node() == nodes_of::<K>(pm0, old(self).meta.config)[parent.page_id as int],
            crate::btree::node::keys_sorted(parent.keys()),
            lower_bound(parent.keys(), promoted.kview(), p),
            K::key_ok(promoted.kview(), old(self).meta.config),
            pm0.count() + lvl < u32::MAX,
            old(self).pm.count() <= pm0.count() + lvl,
            absent_at(
                flat(nodes_of::<K>(pm0, old(self).meta.config), parent.page_id, lvl),
                k,
                q,
            ),
            lifted::<K>(
                pm0,
                old(self).pm,
                old(self).meta.config,
                parent.page_id,
                (lvl - 1) as nat,
                lo,
                hi,
                nxt,
                old(self).caps(),
                parent.keys().insert(p, promoted.kview()),
                parent.kids().insert(p + 1, right),
                flat(
                    nodes_of::<K>(pm0, old(self).meta.config),
                    parent.page_id,
                    lvl,
                ).insert(q, (k, v)),
            ),
        ensures
            final(self).meta == old(self).meta,
            r is Ok,
            insert_outcome::<K>(
                pm0,
                final(self).pm,
                old(self).meta.config,
                parent.page_id,
                lvl,
                lo,
                hi,
                nxt,
                old(self).caps(),
                k,
                v,
                r,
            ),
            grown(
                old(self).nodes(),
                final(self).nodes(),
                least::<K>(old(self).meta.config),
                parent.page_id,
                r->Ok_0 is Some,
            ),
            drawn(old(self).pm, final(self).pm),
            tended::<K>(
                old(self).pm,
                final(self).pm,
                old(self).meta.config,
                if r->Ok_0 is Some {
                    0
                } else {
                    -1
                },
            ),
    {
        let ghost pm1 = self.pm;
        let ghost cfg = self.meta.config;
        let ghost caps = self.caps();
        let ghost id = parent.page_id;
        let ghost l1 = (lvl - 1) as nat;
        let ghost nk = parent.keys().insert(p, promoted.kview());
        let ghost nc = parent.kids().insert(p + 1, right);
        let ghost es = flat(nodes_of::<K>(pm0, cfg), id, lvl).insert(q, (k, v));
        let ghost parent0 = parent;
        let ghost s0 = promoted.kview();
        proof {
            lemma_cap_bounds::<K>(cfg);
            lemma_sub_root::<K>(pm0, cfg, id, lvl, lo, hi, nxt, caps);
            lemma_lifted_basic::<K>(pm0, pm1, cfg, id, l1, lo, hi, nxt, caps, nk, nc, es);
        }
        parent.insert_entry(promoted, right);
        proof {
            let w = choose|w: int|
                {
                    &&& #[trigger] lower_bound(parent0.keys(), s0, w)
                    &&& parent.keys() == parent0.keys().insert(w, s0)
                    &&& parent.kids() == parent0.kids().insert(w + 1, right)
                };
            lemma_bounds_unique(parent0.keys(), s0, p, w);
            assert(parent.keys() == nk && parent.kids() == nc);
            lemma_keys_fit(parent0, parent, cfg, p, s0);
        }
        if !parent.is_overfull() {
            match self.save_internal(&parent) {
                Ok(_) => {},
                Err(e) => {
                    return Err(e);
                },
            }
            proof {
                lemma_free_same(pm1, self.pm);
                lemma_finish::<K>(
                    pm0,
                    pm1,
                    self.pm,
                    cfg,
                    id,
                    l1,
                    lo,
                    hi,
                    nxt,
                    caps,
                    nk,
                    nc,
                    es,
                );
                reveal(inserted);
                lemma_one_grown(
                    nodes_of::<K>(pm1, cfg),
                    self.nodes(),
                    least::<K>(cfg),
                    id,
                    parent.node(),
                );
                lemma_none_drawn(pm1, self.pm);
            }
            return Ok(None);
        }
        let (left_int, right_int, new_promoted) = match self.split_internal(parent) {
            Ok(t) => t,
            Err(e) => {
                return Err(e);
            },
        };
        let ghost pm2 = self.pm;
        match self.save_internal(&left_int) {
            Ok(_) => {},
            Err(e) => {
                return Err(e);
            },
        }
        let ghost pm3 = self.pm;
        match self.save_internal(&right_int) {
            Ok(_) => {},
            Err(e) => {
                return Err(e);
            },
        }
        proof {
            lemma_free_same(pm2, pm3);
            lemma_free_same(pm3, self.pm);
            let mid = nk.len() as int / 2;
            assert forall|x: int|
                2 <= x < pm1.count() && x != id && x != right_int.page_id implies #[trigger]
                nodes_of::<K>(self.pm, cfg)[x] == nodes_of::<K>(pm1, cfg)[x] by {
                assert(nodes_of::<K>(pm2, cfg)[x] == nodes_of::<K>(pm1, cfg)[x]);
            }
            assert(id != right_int.page_id);
            lemma_finish_cut::<K>(
                pm0,
                pm1,
                self.pm,
                cfg,
                id,
                right_int.page_id,
                l1,
                lo,
                hi,
                nxt,
                caps,
                nk,
                nc,
                es,
                mid,
            );
            reveal(inserted);
            assert(nodes_of::<K>(self.pm, cfg)[id as int] == left_int.node());
            assert(nodes_of::<K>(self.pm, cfg)[right_int.page_id as int] == right_int.node());
            lemma_split_grown(
                nodes_of::<K>(pm1, cfg),
                self.nodes(),
                least::<K>(cfg),
                id,
                right_int.page_id,
            );
            lemma_none_drawn(pm2, self.pm);
            lemma_drawn_then(pm1, pm2, self.pm);
            assert(left_int.kids().len() + right_int.kids().len() == nc.len());
        }
        let right_id: u32 = right_int.page_id;
        Ok(Some((new_promoted, right_id)))
    }

    /// Splits a full internal node in two. The median key is *promoted* (it
    /// remains in neither child).
    fn split_internal(&mut self, full: InternalNode<K>) -> (r: Result<
        (InternalNode<K>, InternalNode<K>, K),
    >)
        requires
            base_ok(old(self).pm),
            old(self).pm.count() < u32::MAX,
            full.ok(old(self).meta.config),
            full.entries@.len() >= 1,
        ensures
            r is Ok,
            final(self).meta == old(self).meta,
            base_ok(final(self).pm),
            old(self).pm.count() <= final(self).pm.count() <= old(self).pm.count() + 1,
            forall|x: int| #[trigger] final(self).pm.is_free(x) ==> old(self).pm.is_free(x),
            forall|x: int|
                1 <= x < old(self).pm.count() ==> #[trigger] nodes_of::<K>(
                    final(self).pm,
                    old(self).meta.config,
                )[x] == nodes_of::<K>(old(self).pm, old(self).meta.config)[x],
            forall|x: int|
                1 <= x < old(self).pm.count() ==> #[trigger] final(self).pm.pages@[x] == old(
                    self).pm.pages@[x],
            drawn(old(self).pm, final(self).pm),
            tally(final(self).nodes()) == tally(old(self).nodes()),
            linked_back::<K>(old(self).pm, old(self).meta.config) ==> linked_back::<K>(
                final(self).pm,
                old(self).meta.config,
            ) && final(self).nodes()[(r->Ok_0.1).page_id as int] is Other,
            ({
                let (left, right, promoted) = r->Ok_0;
                let mid = full.entries@.len() as int / 2;
                &&& 2 <= right.page_id < final(self).pm.count()
                &&& final(self).pm.count() > old(self).pm.count() ==> right.page_id == old(
                    self,
                ).pm.count()
                &&& old(self).pm.is_free(right.page_id as int) || right.page_id >= old(
                    self,
                ).pm.count()
                &&& !final(self).pm.is_free(right.page_id as int)
                &&& left.page_id == full.page_id
                &&& left.ok(full.config)
                &&& right.ok(full.config)
                &&& left.entries@.len() == mid
                &&& right.entries@.len() == full.entries@.len() - mid - 1
                &&& left.keys() == full.keys().take(mid)
                &&& left.kids() == full.kids().take(mid + 1)
                &&& right.keys() == full.keys().skip(mid + 1)
                &&& right.kids() == full.kids().skip(mid + 1)
                &&& promoted.kview() == full.keys()[mid]
                &&& K::key_ok(promoted.kview(), full.config)
            }),
    {
        let ghost f0 = full;
        let mut left: InternalNode<K> = full;
        let mid: usize = left.entries.len() / 2;
        let promoted_key: K = left.entries[mid].key.dup();
        let right_entries: Vec<InternalEntry<K>> = left.entries.split_off(mid + 1);
        let ghost re = right_entries@;
        proof {
            assert(re =~= f0.entries@.subrange(mid + 1, f0.entries@.len() as int));
        }
        let mid_child: u32 = match left.entries.pop() {
            Some(e) => e.child_page_id,
            None => {
                return Err(
                    GrumpyError::Corruption(crate::text::owned("split_internal: empty entries")),
                );
            },
        };
        left.num_keys = left.entries.len() as u16;
        let ghost pm0 = self.pm;
        let right_page_id: u32 = match self.alloc_page() {
            Ok(p) => p,
            Err(e) => {
                return Err(e);
            },
        };
        proof {
            lemma_drawn(pm0, self.pm, 1);
        }
        let mut right: InternalNode<K> = InternalNode::new(right_page_id, left.config);
        right.entries = right_entries;
        right.num_keys = right.entries.len() as u16;
        right.right_child = left.right_child;
        left.right_child = mid_child;
        proof {
            let m = mid as int;
            assert(left.entries@ =~= f0.entries@.take(m));
            assert(left.keys() =~= f0.keys().take(m));
            assert(left.kids() =~= f0.kids().take(m + 1));
            assert(right.keys() =~= f0.keys().skip(m + 1));
            assert(right.kids() =~= f0.kids().skip(m + 1));
            assert(f0.keys()[m] == f0.entries@[m].key.kview());
        }
        Ok((left, right, promoted_key))
    }

    /// Inserts into a leaf, splitting it if it gets too full.
    #[verifier::rlimit(60)]
    fn insert_in_leaf(
        &mut self,
        mut leaf: LeafNode<K>,
        key: &K,
        page_id: u32,
        slot_id: u16,
        Ghost(lo): Ghost<Bound>,
        Ghost(hi): Ghost<Bound>,
        Ghost(nxt): Ghost<u32>,
    ) -> (r: Result<Option<(K, u32)>>)
        requires
            config_ok::<K>(old(self).meta.config),
            K::key_ok(key.kview(), old(self).meta.config),
            leaf.ok(old(self).meta.config),
            leaf.node() == old(self).nodes()[leaf.page_id as int],
            leaf.prev_leaf == back_at(old(self).pm, leaf.page_id as int),
            sub_ok::<K>(
                old(self).pm,
                old(self).meta.config,
                leaf.page_id,
                0,
                lo,
                hi,
                nxt,
                old(self).caps(),
            ),
            next_ok::<K>(old(self).pm, old(self).meta.config, nxt, old(self).caps()),
            nxt == 0 || nxt != leaf.page_id,
            above(lo, key.kview()),
            below(hi, key.kview()),
            old(self).pm.count() < u32::MAX,
        ensures
            final(self).meta == old(self).meta,
            insert_outcome::<K>(
                old(self).pm,
                final(self).pm,
                old(self).meta.config,
                leaf.page_id,
                0,
                lo,
                hi,
                nxt,
                old(self).caps(),
                key.kview(),
                (page_id, slot_id),
                r,
            ),
            r matches Ok(split) ==> grown(
                old(self).nodes(),
                final(self).nodes(),
                least::<K>(old(self).meta.config),
                leaf.page_id,
                split is Some,
            ),
            r matches Ok(split) ==> drawn(old(self).pm, final(self).pm) && tended::<K>(
                old(self).pm,
                final(self).pm,
                old(self).meta.config,
                if split is Some {
                    1
                } else {
                    0
                },
            ),
    {
        let ghost pm0 = self.pm;
        let ghost n0 = self.nodes();
        let ghost cfg = self.meta.config;
        let ghost caps = self.caps();
        let ghost k = key.kview();
        let ghost v = (page_id, slot_id);
        let ghost id = leaf.page_id;
        let ghost leaf0 = leaf;
        let ghost es0 = leaf.model();
        proof {
            lemma_sub_root::<K>(pm0, cfg, id, 0, lo, hi, nxt, caps);
            lemma_sorted_keys(es0);
            lemma_cap_bounds::<K>(cfg);
        }
        match leaf.search(key) {
            Some(i) => {
                proof {
                    assert(leaf.keys()[i as int] == es0[i as int].0);
                    assert(present_at(es0, k, i as int));
                }
                return Err(key.duplicate_key_error());
            },
            None => {},
        }
        proof {
            lemma_place(leaf, k);
        }
        let ghost p = choose|p: int| absent_at(es0, k, p);
        leaf.insert_entry(LeafEntry { key: key.dup(), page_id, slot_id });
        let ghost es = es0.insert(p, (k, v));
        proof {
            let w = choose|w: int|
                {
                    &&& #[trigger] lower_bound(leaf0.keys(), k, w)
                    &&& leaf.model() == leaf0.model().insert(w, (k, v))
                    &&& exists|e: LeafEntry<K>|
                        e.key.kview() == k && leaf.entries@ == #[trigger] leaf0.entries@.insert(
                            w,
                            e,
                        )
                };
            lemma_same_place(es0, leaf0.keys(), k, p, w);
            assert(leaf.model() == es);
            lemma_insert_sorted(es0, k, v, p);
            assert(within(es, lo, hi));
            let e = choose|e: LeafEntry<K>|
                e.key.kview() == k && leaf.entries@ == #[trigger] leaf0.entries@.insert(w, e);
            assert forall|i: int| 0 <= i < leaf.entries@.len() implies K::key_ok(
                (#[trigger] leaf.entries@[i]).key.kview(),
                cfg,
            ) by {
                if i < w {
                    assert(leaf.entries@[i] == leaf0.entries@[i]);
                } else if i > w {
                    assert(leaf.entries@[i] == leaf0.entries@[i - 1]);
                }
            }
        }
        if !leaf.is_overfull() {
            match self.save_leaf(&leaf) {
                Ok(_) => {},
                Err(e) => {
                    return Err(e);
                },
            }
            proof {
                lemma_free_same(pm0, self.pm);
                lemma_leaf_rewrite::<K>(pm0, self.pm, cfg, id, lo, hi, nxt, caps, es);
                reveal(inserted);
                lemma_one_grown(n0, self.nodes(), least::<K>(cfg), id, leaf.node());
                lemma_none_drawn(pm0, self.pm);
            }
            return Ok(None);
        }
        let (left, right, promoted) = match self.split_leaf(leaf) {
            Ok(t) => t,
            Err(e) => {
                return Err(e);
            },
        };
        let ghost pm1 = self.pm;
        proof {
            assert(id != right.page_id);
            if nxt != 0 {
                assert(nodes_of::<K>(pm1, cfg)[nxt as int] == n0[nxt as int]);
                assert(nxt != right.page_id);
            }
        }
        match self.save_halves(&left, &right) {
            Ok(_) => {},
            Err(e) => {
                return Err(e);
            },
        }
        proof {
            lemma_free_same(pm1, self.pm);
        }
        proof {
            let m = es.len() as int / 2;
            lemma_cut_sorted(es, m, lo, hi);
            assert forall|x: int|
                2 <= x < pm0.count() && x != id && x != right.page_id implies #[trigger] nodes_of::<
                K,
            >(self.pm, cfg)[x] == n0[x] by {
                assert(nodes_of::<K>(pm1, cfg)[x] == n0[x]);
            }
            lemma_leaf_cut::<K>(
                pm0,
                self.pm,
                cfg,
                id,
                right.page_id,
                lo,
                hi,
                nxt,
                caps,
                es.take(m),
                es.skip(m),
                es[m].0,
            );
            reveal(inserted);
            lemma_split_grown(n0, self.nodes(), least::<K>(cfg), id, right.page_id);
            lemma_none_drawn(pm1, self.pm);
            lemma_drawn_then(pm0, pm1, self.pm);
            assert(pm1.pages@[id as int] == pm0.pages@[id as int]);
        }
        let right_id: u32 = right.page_id;
        Ok(Some((promoted, right_id)))
    }

    /// Saves the halves of a leaf, and links the leaf behind them back to the
    /// right one.
    fn save_halves(&mut self, left: &LeafNode<K>, right: &LeafNode<K>) -> (r: Result<()>)
        requires
            base_ok(old(self).pm),
            2 <= left.page_id < old(self).pm.count(),
            2 <= right.page_id < old(self).pm.count(),
            left.page_id != right.page_id,
            left.ok(old(self).meta.config),
            right.ok(old(self).meta.config),
            left.entries@.len() <= old(self).caps().0,
            right.entries@.len() <= old(self).caps().0,
            left.next_leaf == right.page_id,
            right.prev_leaf == left.page_id,
            right.next_leaf != 0 ==> {
                &&& 2 <= right.next_leaf < old(self).pm.count()
                &&& right.next_leaf != left.page_id
                &&& right.next_leaf != right.page_id
                &&& old(self).nodes()[right.next_leaf as int] matches NodeM::Leaf {
                    pid,
                    entries,
                    ..
                } && pid == right.next_leaf && entries.len() <= old(self).caps().0
            },
        ensures
            r is Ok,
            final(self).meta == old(self).meta,
            base_ok(final(self).pm),
            final(self).pm.count() == old(self).pm.count(),
            final(self).pm.free_ids() == old(self).pm.free_ids(),
            final(self).pm.pages@[1] == old(self).pm.pages@[1],
            final(self).nodes() == old(self).nodes().update(
                left.page_id as int,
                left.node(),
            ).update(right.page_id as int, right.node()),
            tally(final(self).nodes()) == tally(old(self).nodes()) + 2 - node_tally(
                old(self).nodes()[left.page_id as int],
            ) - node_tally(old(self).nodes()[right.page_id as int]),
            linked_back::<K>(old(self).pm, old(self).meta.config) && old(
                self).nodes()[left.page_id as int] is Leaf && next_at(
                old(self).nodes(),
                left.page_id,
            ) == right.next_leaf && back_at(old(self).pm, left.page_id as int) == left.prev_leaf
                && old(self).nodes()[right.page_id as int] is Other && !old(self).pm.is_free(
                right.page_id as int,
            ) ==> linked_back::<K>(final(self).pm, old(self).meta.config),
    {
        let ghost pm1 = self.pm;
        let ghost cfg = self.meta.config;
        let ghost n1 = self.nodes();
        match self.save_leaf(left) {
            Ok(_) => {},
            Err(e) => {
                return Err(e);
            },
        }
        let ghost pm2 = self.pm;
        match self.save_leaf(right) {
            Ok(_) => {},
            Err(e) => {
                return Err(e);
            },
        }
        let ghost pm3 = self.pm;
        if right.next_leaf != 0 {
            let mut next: LeafNode<K> = match self.load_leaf(right.next_leaf) {
                Ok(l) => l,
                Err(e) => {
                    return Err(e);
                },
            };
            let ghost next0 = next;
            next.prev_leaf = right.page_id;
            proof {
                assert(next.model() =~= next0.model());
                assert(next.entries@.len() == next.model().len());
            }
            match self.save_leaf(&next) {
                Ok(_) => {},
                Err(e) => {
                    return Err(e);
                },
            }
            proof {
                assert(self.nodes() =~= nodes_of::<K>(pm3, cfg));
            }
        }
        proof {
            reveal(rewritten);
            let (l, x, nxt) = (left.page_id, right.page_id, right.next_leaf);
            assert(pm3.pages@[l as int] == pm2.pages@[l as int]);
            assert(self.pm.pages@[l as int] == pm3.pages@[l as int]);
            assert(self.pm.pages@[x as int] == pm3.pages@[x as int]);
            if linked_back::<K>(pm1, cfg) && n1[l as int] is Leaf && next_at(n1, l) == nxt
                && back_at(pm1, l as int) == left.prev_leaf && n1[x as int] is Other
                && !pm1.is_free(x as int) {
                assert forall|y: u32|
                    2 <= y < pm1.count() && y != l && y != x && y != nxt implies #[trigger] same_page(
                    pm1,
                    self.pm,
                    y,
                ) by {
                    assert(pm2.pages@[y as int] == pm1.pages@[y as int]);
                    assert(pm3.pages@[y as int] == pm2.pages@[y as int]);
                    assert(self.pm.pages@[y as int] == pm3.pages@[y as int]);
                }
                lemma_split_links::<K>(pm1, self.pm, cfg, l, x, nxt);
            }
        }
        Ok(())
    }

    /// Splits a full leaf in two. The page id stays with the left
    /// half; a fresh page is allocated for the right. Returns the median key
    /// (== first key of the right half) for promotion.
    fn split_leaf(&mut self, full: LeafNode<K>) -> (r: Result<(LeafNode<K>, LeafNode<K>, K)>)
        requires
            base_ok(old(self).pm),
            old(self).pm.count() < u32::MAX,
            full.ok(old(self).meta.config),
            full.entries@.len() >= 1,
        ensures
            r is Ok,
            final(self).meta == old(self).meta,
            base_ok(final(self).pm),
            old(self).pm.count() <= final(self).pm.count() <= old(self).pm.count() + 1,
            forall|x: int| #[trigger] final(self).pm.is_free(x) ==> old(self).pm.is_free(x),
            forall|x: int|
                1 <= x < old(self).pm.count() ==> #[trigger] nodes_of::<K>(
                    final(self).pm,
                    old(self).meta.config,
                )[x] == nodes_of::<K>(old(self).pm, old(self).meta.config)[x],
            forall|x: int|
                1 <= x < old(self).pm.count() ==> #[trigger] final(self).pm.pages@[x] == old(
                    self).pm.pages@[x],
            drawn(old(self).pm, final(self).pm),
            tally(final(self).nodes()) == tally(old(self).nodes()),
            linked_back::<K>(old(self).pm, old(self).meta.config) ==> linked_back::<K>(
                final(self).pm,
                old(self).meta.config,
            ) && final(self).nodes()[(r->Ok_0.1).page_id as int] is Other,
            ({
                let (left, right, promoted) = r->Ok_0;
                let mid = full.entries@.len() as int / 2;
                &&& 2 <= right.page_id < final(self).pm.count()
                &&& final(self).pm.count() > old(self).pm.count() ==> right.page_id == old(
                    self,
                ).pm.count()
                &&& old(self).pm.is_free(right.page_id as int) || right.page_id >= old(
                    self,
                ).pm.count()
                &&& !final(self).pm.is_free(right.page_id as int)
                &&& left.page_id == full.page_id
                &&& left.ok(full.config)
                &&& right.ok(full.config)
                &&& left.next_leaf == right.page_id
                &&& right.next_leaf == full.next_leaf
                &&& right.prev_leaf == full.page_id
                &&& left.prev_leaf == full.prev_leaf
                &&& left.entries@.len() == mid
                &&& right.entries@.len() == full.entries@.len() - mid
                &&& left.model() == full.model().take(mid)
                &&& right.model() == full.model().skip(mid)
                &&& promoted.kview() == full.model()[mid].0
                &&& K::key_ok(promoted.kview(), full.config)
            }),
    {
        let ghost f0 = full;
        let mut left: LeafNode<K> = full;
        let mid: usize = left.entries.len() / 2;
        let right_entries: Vec<LeafEntry<K>> = left.entries.split_off(mid);
        left.num_entries = left.entries.len() as u16;
        let ghost pm0 = self.pm;
        let right_page_id: u32 = match self.alloc_page() {
            Ok(p) => p,
            Err(e) => {
                return Err(e);
            },
        };
        proof {
            lemma_drawn(pm0, self.pm, 1);
        }
        let mut right: LeafNode<K> = LeafNode::new(right_page_id, left.config);
        right.entries = right_entries;
        right.num_entries = right.entries.len() as u16;
        right.next_leaf = left.next_leaf;
        left.next_leaf = right_page_id;
        right.prev_leaf = left.page_id;
        proof {
            let m = mid as int;
            assert(right.entries@ =~= f0.entries@.skip(m));
            assert(left.model() =~= f0.model().take(m));
            assert(right.model() =~= f0.model().skip(m));
            assert(right.entries@[0] == f0.entries@[m]);
        }
        let promoted_key: K = right.entries[0].key.dup();
        Ok((left, right, promoted_key))
    }
}

/// A key promoted between child `p` and its right half has place `p` among
/// the separators.
proof fn lemma_promoted_place(nk: Seq<Seq<u8>>, keys: Seq<Seq<u8>>, s: Seq<u8>, p: int)
    requires
        0 <= p <= keys.len(),
        nk == put_keys(keys, p, p + 1, seq![s]),
        crate::btree::node::keys_sorted(nk),
    ensures
        nk == keys.insert(p, s),
        lower_bound(keys, s, p),
{
    assert(nk =~= keys.insert(p, s));
    assert forall|i: int| 0 <= i < p implies lex_lt(#[trigger] keys[i], s) by {
        assert(nk[i] == keys[i] && nk[p] == s);
    }
    assert forall|i: int| p <= i < keys.len() implies !lex_lt(#[trigger] keys[i], s) by {
        assert(nk[i + 1] == keys[i] && nk[p] == s);
        lemma_lex_asymmetric(s, keys[i]);
    }
}

proof fn lemma_same_place(es: Seq<Entry>, ks: Seq<Seq<u8>>, k: Seq<u8>, p: int, w: int)
    requires
        ks == crate::btree::node::entry_keys(es),
        absent_at(es, k, p),
        lower_bound(ks, k, w),
    ensures
        p == w,
{
    if p < w {
        assert(lex_lt(ks[p], k));
        assert(lex_lt(k, es[p].0));
        lemma_lex_asymmetric(k, ks[p]);
    } else if w < p {
        assert(!lex_lt(ks[w], k));
        assert(lex_lt(es[w].0, k));
    }
}

/// Adding a fitting key to a fitting node keeps it fitting.
proof fn lemma_keys_fit<K: Key>(
    n0: InternalNode<K>,
    n1: InternalNode<K>,
    cfg: K::Config,
    p: int,
    s: Seq<u8>,
)
    requires
        n0.ok(cfg),
        0 <= p <= n0.entries@.len(),
        n1.keys() == n0.keys().insert(p, s),
        n1.config == n0.config,
        n1.num_keys == n0.num_keys + 1,
        K::key_ok(s, cfg),
    ensures
        n1.ok(cfg),
{
    assert(n1.keys().len() == n1.entries@.len());
    assert forall|i: int| 0 <= i < n1.entries@.len() implies K::key_ok(
        (#[trigger] n1.entries@[i]).key.kview(),
        cfg,
    ) by {
        assert(n1.keys()[i] == n1.entries@[i].key.kview());
        if i < p {
            assert(n0.keys()[i] == n0.entries@[i].key.kview());
        } else if i > p {
            assert(n0.keys()[i - 1] == n0.entries@[i - 1].key.kview());
        }
    }
}

/// An insertion below a child, seen from the node.
proof fn lemma_child_inserted<K: Key>(
    pm0: PageManager,
    pm1: PageManager,
    cfg: K::Config,
    id: u32,
    lvl: nat,
    lo: Bound,
    hi: Bound,
    nxt: u32,
    caps: (nat, nat),
    keys: Seq<Seq<u8>>,
    kids: Seq<u32>,
    p: int,
    k: Seq<u8>,
    v: (u32, u16),
    rkeys: Seq<Seq<u8>>,
    rk: Seq<u32>,
)
    requires
        sub_ok::<K>(pm0, cfg, id, lvl + 1, lo, hi, nxt, caps),
        nodes_of::<K>(pm0, cfg)[id as int] == (NodeM::Internal { pid: id, keys, kids }),
        above(lo, k),
        below(hi, k),
        upper_bound(keys, k, p),
        0 <= p < kids.len(),
        inserted::<K>(
            pm0,
            pm1,
            cfg,
            kids[p],
            lvl,
            kid_lo(keys, lo, p),
            kid_hi(keys, hi, p),
            kid_next(nodes_of::<K>(pm0, cfg), kids, lvl, nxt, p),
            caps,
            k,
            v,
            rkeys,
            rk,
        ),
    ensures
        exists|q: int|
            {
                &&& #[trigger] absent_at(flat(nodes_of::<K>(pm0, cfg), id, lvl + 1), k, q)
                &&& lifted::<K>(
                    pm0,
                    pm1,
                    cfg,
                    id,
                    lvl,
                    lo,
                    hi,
                    nxt,
                    caps,
                    put_keys(keys, p, p + 1, rkeys),
                    put_kids(kids, p, p + 1, rk),
                    flat(nodes_of::<K>(pm0, cfg), id, lvl + 1).insert(q, (k, v)),
                )
            },
{
    reveal(inserted);
    let n0 = nodes_of::<K>(pm0, cfg);
    let ces = flat(n0, kids[p], lvl);
    let es = flat(n0, id, lvl + 1);
    let w = choose|w: int|
        {
            &&& #[trigger] absent_at(ces, k, w)
            &&& changed::<K>(
                pm0,
                pm1,
                cfg,
                lvl,
                one_kid(kids[p]),
                kid_lo(keys, lo, p),
                kid_hi(keys, hi, p),
                kid_next(n0, kids, lvl, nxt, p),
                caps,
                rkeys,
                rk,
                ces.insert(w, (k, v)),
            )
        };
    assert(kids.subrange(p, p + 1) =~= one_kid(kids[p]));
    lemma_lift_to::<K>(
        pm0,
        pm1,
        cfg,
        id,
        lvl,
        lo,
        hi,
        nxt,
        caps,
        keys,
        kids,
        p,
        p + 1,
        rkeys,
        rk,
        ces.insert(w, (k, v)),
    );
    lemma_child_middle::<K>(pm0, cfg, id, lvl, lo, hi, nxt, caps, keys, kids, k, p);
    let a = kids_flat(n0, kids.take(p), lvl);
    let c = kids_flat(n0, kids.skip(p + 1), lvl);
    let q = a.len() + w;
    assert(absent_at(es, k, q));
    assert(es.insert(q, (k, v)) == a + ces.insert(w, (k, v)) + c);
    assert(lifted::<K>(
        pm0,
        pm1,
        cfg,
        id,
        lvl,
        lo,
        hi,
        nxt,
        caps,
        put_keys(keys, p, p + 1, rkeys),
        put_kids(kids, p, p + 1, rk),
        es.insert(q, (k, v)),
    ));
}

proof fn lemma_inserted_count<K: Key>(
    pm0: PageManager,
    pm1: PageManager,
    cfg: K::Config,
    id: u32,
    lvl: nat,
    lo: Bound,
    hi: Bound,
    nxt: u32,
    caps: (nat, nat),
    k: Seq<u8>,
    v: (u32, u16),
    rkeys: Seq<Seq<u8>>,
    rk: Seq<u32>,
)
    requires
        inserted::<K>(pm0, pm1, cfg, id, lvl, lo, hi, nxt, caps, k, v, rkeys, rk),
    ensures
        pm1.count() <= pm0.count() + lvl + 1,
{
    reveal(inserted);
}

/// An insertion below a child that was not split, seen from the node, which
/// stays as it is.
proof fn lemma_child_kept<K: Key>(
    pm0: PageManager,
    pm1: PageManager,
    cfg: K::Config,
    id: u32,
    lvl: nat,
    lo: Bound,
    hi: Bound,
    nxt: u32,
    caps: (nat, nat),
    keys: Seq<Seq<u8>>,
    kids: Seq<u32>,
    p: int,
    k: Seq<u8>,
    v: (u32, u16),
)
    requires
        sub_ok::<K>(pm0, cfg, id, lvl + 1, lo, hi, nxt, caps),
        nodes_of::<K>(pm0, cfg)[id as int] == (NodeM::Internal { pid: id, keys, kids }),
        above(lo, k),
        below(hi, k),
        upper_bound(keys, k, p),
        0 <= p < kids.len(),
        inserted::<K>(
            pm0,
            pm1,
            cfg,
            kids[p],
            lvl,
            kid_lo(keys, lo, p),
            kid_hi(keys, hi, p),
            kid_next(nodes_of::<K>(pm0, cfg), kids, lvl, nxt, p),
            caps,
            k,
            v,
            Seq::empty(),
            one_kid(kids[p]),
        ),
    ensures
        inserted::<K>(
            pm0,
            pm1,
            cfg,
            id,
            lvl + 1,
            lo,
            hi,
            nxt,
            caps,
            k,
            v,
            Seq::empty(),
            one_kid(id),
        ),
        nodes_of::<K>(pm1, cfg)[id as int] == nodes_of::<K>(pm0, cfg)[id as int],
{
    let one = one_kid(kids[p]);
    lemma_sub_root::<K>(pm0, cfg, id, lvl + 1, lo, hi, nxt, caps);
    lemma_child_inserted::<K>(
        pm0,
        pm1,
        cfg,
        id,
        lvl,
        lo,
        hi,
        nxt,
        caps,
        keys,
        kids,
        p,
        k,
        v,
        Seq::empty(),
        one,
    );
    assert(put_keys(keys, p, p + 1, Seq::empty()) =~= keys);
    assert(put_kids(kids, p, p + 1, one) =~= kids);
    let es = flat(nodes_of::<K>(pm0, cfg), id, lvl + 1);
    let q = choose|q: int|
        {
            &&& #[trigger] absent_at(es, k, q)
            &&& lifted::<K>(
                pm0,
                pm1,
                cfg,
                id,
                lvl,
                lo,
                hi,
                nxt,
                caps,
                keys,
                kids,
                es.insert(q, (k, v)),
            )
        };
    lemma_lifted_basic::<K>(
        pm0,
        pm1,
        cfg,
        id,
        lvl,
        lo,
        hi,
        nxt,
        caps,
        keys,
        kids,
        es.insert(q, (k, v)),
    );
    let n1 = nodes_of::<K>(pm1, cfg);
    assert(n1 =~= n1.update(id as int, NodeM::Internal { pid: id, keys, kids }));
    lemma_finish::<K>(
        pm0,
        pm1,
        pm1,
        cfg,
        id,
        lvl,
        lo,
        hi,
        nxt,
        caps,
        keys,
        kids,
        es.insert(q, (k, v)),
    );
    reveal(inserted);
}

} // verus!
