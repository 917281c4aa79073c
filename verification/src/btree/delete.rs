//! Deletion from a B+Tree, with merges and redistribution on the way back up.

use vstd::prelude::*;

use crate::btree::change::{
    base_ok, changed, lemma_alone, lemma_changed_trans, lemma_child_middle, lemma_finish,
    lemma_leaf_rewrite, lemma_lift_to, lemma_lifted_basic, lemma_meta_frame, lemma_open_node,
    lemma_step_down, lemma_sub_root, next_ok, sub_ok,
};
use crate::btree::entries::{
    absent_at, lemma_absent, lemma_present, lemma_remove_sorted, lookup, present_at, wf_parts,
    without,
};
use crate::btree::fill::{
    least, lemma_child_shrunk, lemma_collapsed_full, lemma_leaf_shrunk, lemma_meta_full,
    lemma_repaired_shrunk, lemma_shrunk_root_full, pages_full, shrunk,
};
use crate::btree::key::Key;
use crate::btree::links::{
    kept_tidy, lemma_meta_tidy, lemma_recycled_same, lemma_recycled_then, recycled,
};
use crate::btree::node::{config_ok, upper_bound};
use crate::btree::ops::{lemma_free_same, NodeRef};
use crate::btree::tree::{
    above, below, distinct, first_leaf, flat, kid_hi, kid_lo, kid_next, kids_flat, kids_own,
    lemma_first_leaf, lemma_frame, lemma_frame_ok, lemma_kids_one, nodes_of, one_kid, owns,
    put_keys, put_kids, sorted, tree_ok, within, Bound, NodeM,
};
use crate::btree::BTree;
use crate::error::Result;
use crate::page::manager::PageManager;

verus! {

/// Whether a deletion below took an entry or a child from a node.
#[derive(Clone, Copy, PartialEq, Eq, Structural)]
pub enum Touched {
    /// The node has as many entries or children as before.
    Kept,
    /// The node lost an entry or a child.
    Shrunk,
}

/// What became of a subtree from which `k` was removed.
#[verifier::opaque]
pub open spec fn removed<K: Key>(
    pm0: PageManager,
    pm1: PageManager,
    cfg: K::Config,
    id: u32,
    lvl: nat,
    lo: Bound,
    hi: Bound,
    nxt: u32,
    caps: (nat, nat),
    k: Seq<u8>,
) -> bool {
    let es = flat(nodes_of::<K>(pm0, cfg), id, lvl);
    &&& pm1.count() == pm0.count()
    &&& exists|p: int|
        {
            &&& #[trigger] present_at(es, k, p)
            &&& changed::<K>(
                pm0,
                pm1,
                cfg,
                lvl,
                one_kid(id),
                lo,
                hi,
                nxt,
                caps,
                Seq::empty(),
                one_kid(id),
                es.remove(p),
            )
        }
}

/// The outcome of deleting below a node.
pub open spec fn delete_outcome<K: Key>(
    pm0: PageManager,
    pm1: PageManager,
    cfg: K::Config,
    id: u32,
    lvl: nat,
    lo: Bound,
    hi: Bound,
    nxt: u32,
    caps: (nat, nat),
    k: Seq<u8>,
    r: Result<Touched>,
) -> bool {
    match r {
        Ok(_) => removed::<K>(pm0, pm1, cfg, id, lvl, lo, hi, nxt, caps, k),
        Err(e) => {
            &&& K::is_not_found_error(k, e)
            &&& pm1 == pm0
            &&& exists|p: int| absent_at(flat(nodes_of::<K>(pm0, cfg), id, lvl), k, p)
        },
    }
}

/// A subtree was rearranged without a change of its entries.
pub open spec fn rearranged<K: Key>(
    pm0: PageManager,
    pm1: PageManager,
    cfg: K::Config,
    id: u32,
    lvl: nat,
    lo: Bound,
    hi: Bound,
    nxt: u32,
    caps: (nat, nat),
) -> bool {
    &&& pm1.count() == pm0.count()
    &&& changed::<K>(
        pm0,
        pm1,
        cfg,
        lvl,
        one_kid(id),
        lo,
        hi,
        nxt,
        caps,
        Seq::empty(),
        one_kid(id),
        flat(nodes_of::<K>(pm0, cfg), id, lvl),
    )
}

impl<K: Key> BTree<K> {
    /// Deletes `key` from the tree.
    ///
    /// Fails with the key type's not-found error if the key does not exist.
    pub fn delete(&mut self, key: &K) -> (r: Result<()>)
        requires
            old(self).tree_wf(),
        ensures
            final(self).meta.config == old(self).meta.config,
            final(self).pm.count() == old(self).pm.count(),
            final(self).meta.height <= old(self).meta.height,
            r is Ok == (lookup(old(self).entries(), key.kview()) is Some),
            match r {
                Ok(_) => {
                    &&& final(self).wf()
                    &&& final(self).entries() == without(old(self).entries(), key.kview())
                    &&& old(self).filled() && least::<K>(old(self).meta.config).1 >= 1 ==> final(
                        self).filled()
                    &&& old(self).tidy() ==> final(self).tidy()
                    &&& recycled::<K>(old(self).pm, final(self).pm, old(self).meta.config)
                },
                Err(e) => K::is_not_found_error(key.kview(), e) && *final(self) == *old(self),
            },
    {
        let ghost t0 = *self;
        let ghost cfg = self.meta.config;
        let ghost caps = self.caps();
        let ghost lvl = (self.meta.height - 1) as nat;
        let ghost k = key.kview();
        let root: u32 = self.meta.root_page_id;
        let ghost es = t0.entries();
        proof {
            lemma_sub_root::<K>(t0.pm, cfg, root, lvl, None, None, 0, caps);
        }
        let out: Result<Touched> = self.delete_below(
            root,
            key,
            Ghost(lvl),
            Ghost(None),
            Ghost(None),
            Ghost(0u32),
        );
        let ghost pm1 = self.pm;
        let touched: Touched = match out {
            Err(e) => {
                proof {
                    let p = choose|p: int| absent_at(es, k, p);
                    lemma_absent(es, k, p);
                }
                return Err(e);
            },
            Ok(t) => t,
        };
        proof {
            reveal(removed);
            let p = choose|p: int|
                {
                    &&& #[trigger] present_at(es, k, p)
                    &&& changed::<K>(
                        t0.pm,
                        pm1,
                        cfg,
                        lvl,
                        one_kid(root),
                        None,
                        None,
                        0,
                        caps,
                        Seq::empty(),
                        one_kid(root),
                        es.remove(p),
                    )
                };
            lemma_present(es, k, p);
            lemma_alone::<K>(t0.pm, pm1, cfg, root, lvl, None, None, 0, caps, es.remove(p));
        }
        proof {
            if t0.filled() && least::<K>(cfg).1 >= 1 {
                lemma_shrunk_root_full(
                    t0.nodes(),
                    self.nodes(),
                    least::<K>(cfg),
                    root,
                    lvl,
                    touched,
                );
            }
        }
        self.meta.num_entries = self.meta.num_entries - 1;
        if touched == Touched::Shrunk {
            match self.collapse_root() {
                Ok(_) => {},
                Err(e) => {
                    return Err(e);
                },
            }
            proof {
                lemma_recycled_then::<K>(t0.pm, pm1, self.pm, cfg);
            }
        }
        let ghost pm2 = self.pm;
        let ghost meta2 = self.meta;
        proof {
            lemma_sub_root::<K>(
                pm2,
                cfg,
                meta2.root_page_id,
                (meta2.height - 1) as nat,
                None,
                None,
                0,
                caps,
            );
        }
        let r: Result<()> = self.flush_meta();
        proof {
            lemma_meta_tidy::<K>(pm2, self.pm, cfg);
            lemma_recycled_then::<K>(t0.pm, pm2, self.pm, cfg);
            lemma_meta_frame::<K>(
                pm2,
                self.pm,
                cfg,
                meta2.root_page_id,
                (meta2.height - 1) as nat,
                None,
                None,
                0,
                caps,
            );
            if t0.filled() && least::<K>(cfg).1 >= 1 {
                lemma_meta_full::<K>(pm2, self.pm, cfg, meta2.root_page_id);
            }
        }
        r
    }

    /// Replaces a root without separators by its single child.
    fn collapse_root(&mut self) -> (r: Result<()>)
        requires
            old(self).meta.height >= 1,
            wf_parts::<K>(
                old(self).pm,
                old(self).meta.config,
                old(self).meta.root_page_id,
                (old(self).meta.height - 1) as nat,
                old(self).caps(),
            ),
        ensures
            r is Ok,
            final(self).meta.config == old(self).meta.config,
            final(self).meta.num_entries == old(self).meta.num_entries,
            1 <= final(self).meta.height <= old(self).meta.height,
            final(self).pm.count() == old(self).pm.count(),
            wf_parts::<K>(
                final(self).pm,
                final(self).meta.config,
                final(self).meta.root_page_id,
                (final(self).meta.height - 1) as nat,
                final(self).caps(),
            ),
            final(self).entries() == old(self).entries(),
            pages_full(
                old(self).nodes(),
                least::<K>(old(self).meta.config),
                old(self).meta.root_page_id,
                old(self).meta.root_page_id,
            ) && least::<K>(old(self).meta.config).1 >= 1 ==> final(self).filled(),
            kept_tidy::<K>(old(self).pm, final(self).pm, old(self).meta.config),
    {
        let ghost pm0 = self.pm;
        let ghost cfg = self.meta.config;
        let ghost caps = self.caps();
        let ghost lvl = (self.meta.height - 1) as nat;
        let root: u32 = self.meta.root_page_id;
        proof {
            lemma_sub_root::<K>(pm0, cfg, root, lvl, None, None, 0, caps);
            lemma_recycled_same::<K>(pm0, pm0, cfg);
        }
        match self.load_node(root) {
            Err(e) => Err(e),
            Ok(NodeRef::Leaf(_)) => Ok(()),
            Ok(NodeRef::Internal(node)) => {
                if node.num_keys != 0 {
                    return Ok(());
                }
                match self.release_page(root) {
                    Ok(_) => {},
                    Err(e) => {
                        return Err(e);
                    },
                }
                self.meta.root_page_id = node.right_child;
                if self.meta.height > 1 {
                    self.meta.height = self.meta.height - 1;
                }
                proof {
                    lemma_collapse::<K>(
                        pm0,
                        self.pm,
                        cfg,
                        root,
                        (lvl - 1) as nat,
                        caps,
                        node.keys(),
                        node.kids(),
                    );
                    assert(node.kids()[0] == node.right_child);
                    lemma_child_root::<K>(
                        pm0,
                        cfg,
                        root,
                        (lvl - 1) as nat,
                        None,
                        None,
                        0,
                        caps,
                        node.keys(),
                        node.kids(),
                        0,
                    );
                    lemma_kid_pages::<K>(
                        pm0,
                        cfg,
                        root,
                        (lvl - 1) as nat,
                        None,
                        None,
                        0,
                        caps,
                        node.keys(),
                        node.kids(),
                    );
                    assert(node.right_child != root) by {
                        let n0 = nodes_of::<K>(pm0, cfg);
                        let l1 = (lvl - 1) as nat;
                        assert(owns(n0, node.kids()[0], l1, node.right_child as int));
                        assert(kids_own(n0, node.kids(), l1, node.right_child as int));
                    }
                    if pages_full(nodes_of::<K>(pm0, cfg), least::<K>(cfg), root, root)
                        && least::<K>(cfg).1 >= 1 {
                        lemma_collapsed_full(
                            nodes_of::<K>(pm0, cfg),
                            self.nodes(),
                            least::<K>(cfg),
                            root,
                            node.right_child,
                        );
                    }
                }
                Ok(())
            },
        }
    }

    /// Deletes below the node at page `id`.
    #[verifier::rlimit(60)]
    fn delete_below(
        &mut self,
        id: u32,
        key: &K,
        Ghost(lvl): Ghost<nat>,
        Ghost(lo): Ghost<Bound>,
        Ghost(hi): Ghost<Bound>,
        Ghost(nxt): Ghost<u32>,
    ) -> (r: Result<Touched>)
        requires
            config_ok::<K>(old(self).meta.config),
            sub_ok::<K>(
                old(self).pm,
                old(self).meta.config,
                id,
                lvl,
                lo,
                hi,
                nxt,
                old(self).caps(),
            ),
            next_ok::<K>(old(self).pm, old(self).meta.config, nxt, old(self).caps()),
            nxt == 0 || !owns(old(self).nodes(), id, lvl, nxt as int),
            above(lo, key.kview()),
            below(hi, key.kview()),
        ensures
            final(self).meta == old(self).meta,
            delete_outcome::<K>(
                old(self).pm,
                final(self).pm,
                old(self).meta.config,
                id,
                lvl,
                lo,
                hi,
                nxt,
                old(self).caps(),
                key.kview(),
                r,
            ),
            r matches Ok(t) ==> shrunk(
                old(self).nodes(),
                final(self).nodes(),
                least::<K>(old(self).meta.config),
                id,
                lvl,
                t,
            ),
            r is Ok ==> kept_tidy::<K>(old(self).pm, final(self).pm, old(self).meta.config),
        decreases lvl,
    {
        let ghost pm0 = self.pm;
        let ghost n0 = self.nodes();
        let ghost cfg = self.meta.config;
        let ghost caps = self.caps();
        let ghost k = key.kview();
        proof {
            lemma_sub_root::<K>(pm0, cfg, id, lvl, lo, hi, nxt, caps);
        }
        match self.load_node(id) {
            Err(e) => Err(e),
            Ok(NodeRef::Leaf(mut leaf)) => {
                let ghost es = leaf.model();
                let ghost leaf0 = leaf;
                match leaf.remove_entry(key) {
                    None => {
                        proof {
                            crate::btree::ops::lemma_place(leaf0, k);
                        }
                        Err(key.key_not_found_error())
                    },
                    Some(_) => {
                        let ghost p = choose|p: int|
                            {
                                &&& 0 <= p < leaf0.entries@.len()
                                &&& #[trigger] leaf0.entries@[p].key.kview() == k
                                &&& leaf.entries@ == leaf0.entries@.remove(p)
                                &&& leaf.model() == leaf0.model().remove(p)
                            };
                        proof {
                            assert(es[p].0 == leaf0.entries@[p].key.kview());
                            assert(present_at(es, k, p));
                            lemma_remove_sorted(es, p);
                            assert(within(es.remove(p), lo, hi));
                            assert forall|i: int| 0 <= i < leaf.entries@.len() implies K::key_ok(
                                (#[trigger] leaf.entries@[i]).key.kview(),
                                cfg,
                            ) by {
                                if i < p {
                                    assert(leaf.entries@[i] == leaf0.entries@[i]);
                                } else {
                                    assert(leaf.entries@[i] == leaf0.entries@[i + 1]);
                                }
                            }
                        }
                        match self.save_leaf(&leaf) {
                            Ok(_) => {},
                            Err(e) => {
                                return Err(e);
                            },
                        }
                        proof {
                            lemma_free_same(pm0, self.pm);
                            lemma_leaf_rewrite::<K>(
                                pm0,
                                self.pm,
                                cfg,
                                id,
                                lo,
                                hi,
                                nxt,
                                caps,
                                es.remove(p),
                            );
                            reveal(removed);
                            lemma_leaf_shrunk(n0, self.nodes(), least::<K>(cfg), id, leaf.node());
                        }
                        Ok(Touched::Shrunk)
                    },
                }
            },
            Ok(NodeRef::Internal(node)) => {
                let ghost keys = node.keys();
                let ghost kids = node.kids();
                let ghost l1 = (lvl - 1) as nat;
                let i: usize = node.find_child_index(key);
                let child: u32 = node.child_at(i);
                let ghost p = i as int;
                let ghost clo = kid_lo(keys, lo, p);
                let ghost chi = kid_hi(keys, hi, p);
                let ghost cnxt = kid_next(n0, kids, l1, nxt, p);
                proof {
                    lemma_step_down::<K>(
                        pm0,
                        cfg,
                        id,
                        l1,
                        lo,
                        hi,
                        nxt,
                        caps,
                        keys,
                        kids,
                        k,
                        p,
                    );
                    lemma_next_outside::<K>(
                        pm0,
                        cfg,
                        id,
                        l1,
                        lo,
                        hi,
                        nxt,
                        caps,
                        keys,
                        kids,
                        p,
                        p,
                    );
                }
                let out: Result<Touched> = self.delete_below(
                    child,
                    key,
                    Ghost(l1),
                    Ghost(clo),
                    Ghost(chi),
                    Ghost(cnxt),
                );
                let ghost pm1 = self.pm;
                let touched: Touched = match out {
                    Err(e) => {
                        proof {
                            lemma_child_middle::<K>(
                                pm0,
                                cfg,
                                id,
                                l1,
                                lo,
                                hi,
                                nxt,
                                caps,
                                keys,
                                kids,
                                k,
                                p,
                            );
                            let w = choose|w: int|
                                absent_at(flat(n0, kids[p], l1), k, w);
                            assert(absent_at(
                                flat(n0, id, lvl),
                                k,
                                kids_flat(n0, kids.take(p), l1).len() + w,
                            ));
                        }
                        return Err(e);
                    },
                    Ok(t) => t,
                };
                proof {
                    lemma_child_removed::<K>(
                        pm0,
                        pm1,
                        cfg,
                        id,
                        l1,
                        lo,
                        hi,
                        nxt,
                        caps,
                        keys,
                        kids,
                        p,
                        k,
                    );
                }
                let ghost n1 = self.nodes();
                proof {
                    lemma_kid_pages::<K>(pm0, cfg, id, l1, lo, hi, nxt, caps, keys, kids);
                }
                if touched == Touched::Kept {
                    proof {
                        lemma_child_shrunk(
                            n0,
                            n1,
                            least::<K>(cfg),
                            id,
                            lvl,
                            keys,
                            kids,
                            p,
                            touched,
                        );
                    }
                    return Ok(Touched::Kept);
                }
                proof {
                    lemma_removed_ok::<K>(pm0, pm1, cfg, id, lvl, lo, hi, nxt, caps, k);
                    lemma_child_root::<K>(pm1, cfg, id, l1, lo, hi, nxt, caps, keys, kids, p);
                }
                let ghost pmx = self.pm;
                let done: Result<Touched> = match self.load_node(child) {
                    Err(e) => {
                        return Err(e);
                    },
                    Ok(NodeRef::Leaf(leaf)) => {
                        if !leaf.is_underfull() {
                            proof {
                                lemma_child_shrunk(
                                    n0,
                                    n1,
                                    least::<K>(cfg),
                                    id,
                                    lvl,
                                    keys,
                                    kids,
                                    p,
                                    touched,
                                );
                            }
                            return Ok(Touched::Kept);
                        }
                        self.rebalance_leaf(
                            leaf,
                            node,
                            i,
                            Ghost(lo),
                            Ghost(hi),
                            Ghost(nxt),
                        )
                    },
                    Ok(NodeRef::Internal(inner)) => {
                        if !inner.is_underfull() {
                            proof {
                                lemma_child_shrunk(
                                    n0,
                                    n1,
                                    least::<K>(cfg),
                                    id,
                                    lvl,
                                    keys,
                                    kids,
                                    p,
                                    touched,
                                );
                            }
                            return Ok(Touched::Kept);
                        }
                        self.rebalance_internal(
                            inner,
                            node,
                            i,
                            Ghost((l1 - 1) as nat),
                            Ghost(lo),
                            Ghost(hi),
                            Ghost(nxt),
                        )
                    },
                };
                proof {
                    lemma_recycled_then::<K>(pm0, pmx, self.pm, cfg);
                    lemma_repaired_shrunk(
                        n0,
                        n1,
                        self.nodes(),
                        least::<K>(cfg),
                        id,
                        lvl,
                        keys,
                        kids,
                        p,
                        touched,
                        done->Ok_0,
                    );
                    lemma_removed_then::<K>(
                        pm0,
                        pm1,
                        self.pm,
                        cfg,
                        id,
                        lvl,
                        lo,
                        hi,
                        nxt,
                        caps,
                        k,
                    );
                }
                done
            },
        }
    }
}

// ── Lemmas about the descent ────────────────────────────────────────────

/// The children of a node are pages of the file, each with its own below it.
proof fn lemma_kid_pages<K: Key>(
    pm: PageManager,
    cfg: K::Config,
    id: u32,
    lvl: nat,
    lo: Bound,
    hi: Bound,
    nxt: u32,
    caps: (nat, nat),
    keys: Seq<Seq<u8>>,
    kids: Seq<u32>,
)
    requires
        sub_ok::<K>(pm, cfg, id, lvl + 1, lo, hi, nxt, caps),
        nodes_of::<K>(pm, cfg)[id as int] == (NodeM::Internal { pid: id, keys, kids }),
    ensures
        2 <= id < nodes_of::<K>(pm, cfg).len(),
        distinct(nodes_of::<K>(pm, cfg), id, lvl + 1),
        forall|i: int|
            0 <= i < kids.len() ==> 2 <= (#[trigger] kids[i]) < nodes_of::<K>(pm, cfg).len(),
{
    assert forall|i: int| 0 <= i < kids.len() implies 2 <= (#[trigger] kids[i]) < nodes_of::<K>(
        pm,
        cfg,
    ).len() by {
        lemma_child_root::<K>(pm, cfg, id, lvl, lo, hi, nxt, caps, keys, kids, i);
    }
    reveal(sub_ok);
}

/// What the root node of a child looks like.
pub proof fn lemma_child_root<K: Key>(
    pm: PageManager,
    cfg: K::Config,
    id: u32,
    lvl: nat,
    lo: Bound,
    hi: Bound,
    nxt: u32,
    caps: (nat, nat),
    keys: Seq<Seq<u8>>,
    kids: Seq<u32>,
    i: int,
)
    requires
        sub_ok::<K>(pm, cfg, id, lvl + 1, lo, hi, nxt, caps),
        nodes_of::<K>(pm, cfg)[id as int] == (NodeM::Internal { pid: id, keys, kids }),
        0 <= i < kids.len(),
    ensures
        2 <= kids[i] < pm.count(),
        ({
            let es = flat(nodes_of::<K>(pm, cfg), kids[i], lvl);
            let clo = kid_lo(keys, lo, i);
            let chi = kid_hi(keys, hi, i);
            let cnxt = kid_next(nodes_of::<K>(pm, cfg), kids, lvl, nxt, i);
            match nodes_of::<K>(pm, cfg)[kids[i] as int] {
                NodeM::Leaf { pid, next, entries } => {
                    &&& lvl == 0
                    &&& pid == kids[i]
                    &&& next == cnxt
                    &&& entries == es
                    &&& entries.len() <= caps.0
                    &&& sorted(es)
                    &&& within(es, clo, chi)
                },
                NodeM::Internal { pid, keys: ck, kids: cc } => {
                    &&& lvl > 0
                    &&& pid == kids[i]
                    &&& ck.len() <= caps.1
                    &&& cc.len() == ck.len() + 1
                },
                NodeM::Other => false,
            }
        }),
{
    let n = nodes_of::<K>(pm, cfg);
    lemma_open_node::<K>(pm, cfg, id, lvl, lo, hi, nxt, caps, keys, kids);
    assert(sub_ok::<K>(
        pm,
        cfg,
        kids[i],
        lvl,
        kid_lo(keys, lo, i),
        kid_hi(keys, hi, i),
        kid_next(n, kids, lvl, nxt, i),
        caps,
    ));
    lemma_sub_root::<K>(
        pm,
        cfg,
        kids[i],
        lvl,
        kid_lo(keys, lo, i),
        kid_hi(keys, hi, i),
        kid_next(n, kids, lvl, nxt, i),
        caps,
    );
}

/// The leaf behind child `j` is none of the pages of a child up to it.
pub proof fn lemma_next_outside<K: Key>(
    pm: PageManager,
    cfg: K::Config,
    id: u32,
    lvl: nat,
    lo: Bound,
    hi: Bound,
    nxt: u32,
    caps: (nat, nat),
    keys: Seq<Seq<u8>>,
    kids: Seq<u32>,
    i: int,
    t: int,
)
    requires
        sub_ok::<K>(pm, cfg, id, lvl + 1, lo, hi, nxt, caps),
        nodes_of::<K>(pm, cfg)[id as int] == (NodeM::Internal { pid: id, keys, kids }),
        0 <= i <= t < kids.len(),
        nxt == 0 || !owns(nodes_of::<K>(pm, cfg), id, lvl + 1, nxt as int),
    ensures
        kid_next(nodes_of::<K>(pm, cfg), kids, lvl, nxt, t) == 0 || !owns(
            nodes_of::<K>(pm, cfg),
            kids[i],
            lvl,
            kid_next(nodes_of::<K>(pm, cfg), kids, lvl, nxt, t) as int,
        ),
{
    let n = nodes_of::<K>(pm, cfg);
    lemma_open_node::<K>(pm, cfg, id, lvl, lo, hi, nxt, caps, keys, kids);
    if t + 1 < kids.len() {
        let j = t + 1;
        lemma_first_leaf(
            n,
            kids[j],
            lvl,
            kid_lo(keys, lo, j),
            kid_hi(keys, hi, j),
            kid_next(n, kids, lvl, nxt, j),
            caps,
        );
        let x = first_leaf(n, kids[j], lvl) as int;
        assert(owns(n, kids[j], lvl, x));
        if owns(n, kids[i], lvl, x) {
            assert(!(owns(n, kids[i], lvl, x) && owns(n, kids[j], lvl, x)));
        }
    } else if owns(n, kids[i], lvl, nxt as int) {
        assert(kids_own(n, kids, lvl, nxt as int));
        reveal(sub_ok);
        assert(owns(n, id, lvl + 1, nxt as int));
    }
}

/// A deletion below a child, seen from the node, which stays as it is.
proof fn lemma_child_removed<K: Key>(
    pm0: PageManager,
    pm1: PageManager,
    cfg: K::Config,
    id: u32,
    lvl: nat,
    lo: Bound,
    hi: Bound,
    nxt: u32,
    caps: (nat, nat),
    keys: Seq<Seq<u8>>,
    kids: Seq<u32>,
    p: int,
    k: Seq<u8>,
)
    requires
        sub_ok::<K>(pm0, cfg, id, lvl + 1, lo, hi, nxt, caps),
        nodes_of::<K>(pm0, cfg)[id as int] == (NodeM::Internal { pid: id, keys, kids }),
        above(lo, k),
        below(hi, k),
        upper_bound(keys, k, p),
        0 <= p < kids.len(),
        removed::<K>(
            pm0,
            pm1,
            cfg,
            kids[p],
            lvl,
            kid_lo(keys, lo, p),
            kid_hi(keys, hi, p),
            kid_next(nodes_of::<K>(pm0, cfg), kids, lvl, nxt, p),
            caps,
            k,
        ),
    ensures
        removed::<K>(pm0, pm1, cfg, id, lvl + 1, lo, hi, nxt, caps, k),
        nodes_of::<K>(pm1, cfg)[id as int] == nodes_of::<K>(pm0, cfg)[id as int],
{
    reveal(removed);
    let n0 = nodes_of::<K>(pm0, cfg);
    let n1 = nodes_of::<K>(pm1, cfg);
    let one = one_kid(kids[p]);
    let ces = flat(n0, kids[p], lvl);
    let es = flat(n0, id, lvl + 1);
    let w = choose|w: int|
        {
            &&& #[trigger] present_at(ces, k, w)
            &&& changed::<K>(
                pm0,
                pm1,
                cfg,
                lvl,
                one,
                kid_lo(keys, lo, p),
                kid_hi(keys, hi, p),
                kid_next(n0, kids, lvl, nxt, p),
                caps,
                Seq::empty(),
                one,
                ces.remove(w),
            )
        };
    assert(kids.subrange(p, p + 1) =~= one);
    lemma_sub_root::<K>(pm0, cfg, id, lvl + 1, lo, hi, nxt, caps);
    lemma_lift_to::<K>(
        pm0,
        pm1,
        cfg,
        id,
        lvl,
        lo,
        hi,
        nxt,
        caps,
        keys,
        kids,
        p,
        p + 1,
        Seq::empty(),
        one,
        ces.remove(w),
    );
    lemma_child_middle::<K>(pm0, cfg, id, lvl, lo, hi, nxt, caps, keys, kids, k, p);
    let a = kids_flat(n0, kids.take(p), lvl);
    let c = kids_flat(n0, kids.skip(p + 1), lvl);
    let q = a.len() + w;
    assert(present_at(es, k, q));
    assert(es.remove(q) == a + ces.remove(w) + c);
    assert(put_keys(keys, p, p + 1, Seq::empty()) =~= keys);
    assert(put_kids(kids, p, p + 1, one) =~= kids);
    lemma_lifted_basic::<K>(pm0, pm1, cfg, id, lvl, lo, hi, nxt, caps, keys, kids, es.remove(q));
    assert(n1 =~= n1.update(id as int, NodeM::Internal { pid: id, keys, kids }));
    lemma_finish::<K>(
        pm0,
        pm1,
        pm1,
        cfg,
        id,
        lvl,
        lo,
        hi,
        nxt,
        caps,
        keys,
        kids,
        es.remove(q),
    );
}

/// After a deletion the subtree is still one, and the leaf behind it is still
/// outside.
proof fn lemma_removed_ok<K: Key>(
    pm0: PageManager,
    pm1: PageManager,
    cfg: K::Config,
    id: u32,
    lvl: nat,
    lo: Bound,
    hi: Bound,
    nxt: u32,
    caps: (nat, nat),
    k: Seq<u8>,
)
    requires
        removed::<K>(pm0, pm1, cfg, id, lvl, lo, hi, nxt, caps, k),
        next_ok::<K>(pm0, cfg, nxt, caps),
        nxt == 0 || !owns(nodes_of::<K>(pm0, cfg), id, lvl, nxt as int),
    ensures
        sub_ok::<K>(pm1, cfg, id, lvl, lo, hi, nxt, caps),
        next_ok::<K>(pm1, cfg, nxt, caps),
        nxt == 0 || !owns(nodes_of::<K>(pm1, cfg), id, lvl, nxt as int),
{
    reveal(removed);
    let n0 = nodes_of::<K>(pm0, cfg);
    let n1 = nodes_of::<K>(pm1, cfg);
    let es = flat(n0, id, lvl);
    let p = choose|p: int|
        {
            &&& #[trigger] present_at(es, k, p)
            &&& changed::<K>(
                pm0,
                pm1,
                cfg,
                lvl,
                one_kid(id),
                lo,
                hi,
                nxt,
                caps,
                Seq::empty(),
                one_kid(id),
                es.remove(p),
            )
        };
    lemma_alone::<K>(pm0, pm1, cfg, id, lvl, lo, hi, nxt, caps, es.remove(p));
    reveal(changed);
    if nxt != 0 {
        let x = nxt as int;
        if kids_own(n0, one_kid(id), lvl, x) {
            let i = choose|i: int|
                0 <= i < one_kid(id).len() && owns(n0, #[trigger] one_kid(id)[i], lvl, x);
        }
        assert(!kids_own(n0, one_kid(id), lvl, x));
        assert(n1[x] == n0[x]);
        if owns(n1, id, lvl, x) {
            assert(owns(n1, one_kid(id)[0], lvl, x));
            assert(kids_own(n1, one_kid(id), lvl, x));
        }
    }
}

/// A deletion followed by a rearrangement is a deletion.
proof fn lemma_removed_then<K: Key>(
    pm0: PageManager,
    pm1: PageManager,
    pm2: PageManager,
    cfg: K::Config,
    id: u32,
    lvl: nat,
    lo: Bound,
    hi: Bound,
    nxt: u32,
    caps: (nat, nat),
    k: Seq<u8>,
)
    requires
        removed::<K>(pm0, pm1, cfg, id, lvl, lo, hi, nxt, caps, k),
        rearranged::<K>(pm1, pm2, cfg, id, lvl, lo, hi, nxt, caps),
    ensures
        removed::<K>(pm0, pm2, cfg, id, lvl, lo, hi, nxt, caps, k),
{
    reveal(removed);
    let es = flat(nodes_of::<K>(pm0, cfg), id, lvl);
    let p = choose|p: int|
        {
            &&& #[trigger] present_at(es, k, p)
            &&& changed::<K>(
                pm0,
                pm1,
                cfg,
                lvl,
                one_kid(id),
                lo,
                hi,
                nxt,
                caps,
                Seq::empty(),
                one_kid(id),
                es.remove(p),
            )
        };
    lemma_alone::<K>(pm0, pm1, cfg, id, lvl, lo, hi, nxt, caps, es.remove(p));
    lemma_changed_trans::<K>(
        pm0,
        pm1,
        pm2,
        cfg,
        lvl,
        id,
        lo,
        hi,
        nxt,
        caps,
        Seq::empty(),
        one_kid(id),
        es.remove(p),
        es.remove(p),
    );
}

/// A root with a single child can be dropped.
proof fn lemma_collapse<K: Key>(
    pm0: PageManager,
    pm1: PageManager,
    cfg: K::Config,
    root: u32,
    lvl: nat,
    caps: (nat, nat),
    keys: Seq<Seq<u8>>,
    kids: Seq<u32>,
)
    requires
        sub_ok::<K>(pm0, cfg, root, lvl + 1, None, None, 0, caps),
        nodes_of::<K>(pm0, cfg)[root as int] == (NodeM::Internal { pid: root, keys, kids }),
        keys.len() == 0,
        base_ok(pm1),
        pm1.count() == pm0.count(),
        forall|x: int| #[trigger] pm1.is_free(x) ==> pm0.is_free(x) || x == root,
        forall|x: int|
            1 <= x < pm0.count() && x != root ==> #[trigger] nodes_of::<K>(pm1, cfg)[x]
                == nodes_of::<K>(pm0, cfg)[x],
    ensures
        sub_ok::<K>(pm1, cfg, kids[0], lvl, None, None, 0, caps),
        flat(nodes_of::<K>(pm1, cfg), kids[0], lvl) == flat(
            nodes_of::<K>(pm0, cfg),
            root,
            lvl + 1,
        ),
{
    let n0 = nodes_of::<K>(pm0, cfg);
    let n1 = nodes_of::<K>(pm1, cfg);
    lemma_open_node::<K>(pm0, cfg, root, lvl, None, None, 0, caps, keys, kids);
    assert(kid_lo(keys, None, 0) == None::<Seq<u8>>);
    assert(kid_hi(keys, None, 0) == None::<Seq<u8>>);
    assert(kid_next(n0, kids, lvl, 0, 0) == 0);
    assert(tree_ok(n0, kids[0], lvl, None, None, 0, caps));
    assert(distinct(n0, kids[0], lvl));
    assert forall|x: int| #[trigger] owns(n0, kids[0], lvl, x) implies 0 <= x < n0.len() && x
        < n1.len() && n0[x] == n1[x] && !pm1.is_free(x) by {
        assert(kids_own(n0, kids, lvl, x));
    }
    lemma_frame(n0, n1, kids[0], lvl);
    lemma_frame_ok(n0, n1, kids[0], lvl, None, None, 0, caps);
    assert(kids =~= one_kid(kids[0]));
    lemma_kids_one(n0, kids[0], lvl);
    reveal(sub_ok);
}

} // verus!
