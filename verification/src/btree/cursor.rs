//! B+Tree cursor: forward iteration over leaf entries.
//!
//! The cursor walks the linked list of leaf nodes to provide sequential,
//! sorted access to all entries in a tree.

use vstd::prelude::*;

use crate::btree::change::sub_ok;
use crate::btree::entries::{lemma_rank, rank};
use crate::btree::key::Key;
use crate::btree::node::{leaf_base, leaf_entries, leaf_num, leaf_off, Entry, LeafEntry, LeafNode};
use crate::btree::ops::{lemma_around, NodeRef};
use crate::btree::tree::{
    cat, chained, first_leaf, kid_hi, kid_lo, kid_next, leaf_at, leaves, lemma_cat_append,
    lemma_chain, lemma_flat_sorted, linked, next_at, node_of, nodes_of, one_kid, sorted, tree_ok,
    Bound, NodeM,
};
use crate::btree::BTree;
use crate::bytes::{lemma_lex_asymmetric, lex_lt};
use crate::error::Result;
use crate::page::manager::PageManager;
use crate::page::Page;

verus! {

/// The entries of at most `fuel` leaves along the list from page `id` on.
pub open spec fn list_entries(n: Seq<NodeM>, id: u32, fuel: nat) -> Seq<Entry>
    decreases fuel,
{
    if id == 0 || fuel == 0 {
        Seq::empty()
    } else {
        leaf_at(n, id) + list_entries(n, next_at(n, id), (fuel - 1) as nat)
    }
}

/// The list of leaves from page `id` on ends after at most `fuel` leaves.
pub open spec fn list_ends(n: Seq<NodeM>, id: u32, fuel: nat) -> bool
    decreases fuel,
{
    id == 0 || (fuel > 0 && 2 <= id < n.len() && n[id as int] is Leaf && list_ends(
        n,
        next_at(n, id),
        (fuel - 1) as nat,
    ))
}

/// Chained leaves are a list that ends, with their entries in it.
proof fn lemma_list(n: Seq<NodeM>, ls: Seq<u32>, j: int)
    requires
        chained(n, ls, 0),
        0 <= j <= ls.len(),
    ensures
        ({
            let id = if j < ls.len() {
                ls[j]
            } else {
                0u32
            };
            &&& list_ends(n, id, (ls.len() - j) as nat)
            &&& list_entries(n, id, (ls.len() - j) as nat) == cat(n, ls.skip(j))
        }),
    decreases ls.len() - j,
{
    if j < ls.len() {
        assert(linked(n, ls, 0, j));
        lemma_list(n, ls, j + 1);
        assert(ls.skip(j) =~= one_kid(ls[j]) + ls.skip(j + 1));
        lemma_cat_append(n, one_kid(ls[j]), ls.skip(j + 1));
        crate::btree::tree::lemma_cat_one(n, ls[j]);
    } else {
        assert(ls.skip(j) =~= Seq::<u32>::empty());
        assert(cat(n, ls.skip(j)) =~= Seq::<Entry>::empty());
    }
}

/// The entries with keys in `[start, end)`; an absent bound is open.
pub open spec fn key_range(
    es: Seq<Entry>,
    start: Option<Seq<u8>>,
    end: Option<Seq<u8>>,
) -> Seq<Entry> {
    let a = match start {
        Some(s) => rank(es, s),
        None => 0,
    };
    let b = match end {
        Some(e) => rank(es, e),
        None => es.len() as int,
    };
    if a <= b {
        es.subrange(a, b)
    } else {
        Seq::empty()
    }
}

/// A range holds exactly the entries whose keys lie in it, in order.
pub proof fn law_range_members(
    es: Seq<Entry>,
    start: Option<Seq<u8>>,
    end: Option<Seq<u8>>,
    x: Entry,
)
    requires
        sorted(es),
    ensures
        sorted(key_range(es, start, end)),
        key_range(es, start, end).contains(x) <==> {
            &&& es.contains(x)
            &&& (start is Some ==> !lex_lt(x.0, start->0))
            &&& (end is Some ==> lex_lt(x.0, end->0))
        },
{
    let a = match start {
        Some(s) => rank(es, s),
        None => 0,
    };
    let b = match end {
        Some(e) => rank(es, e),
        None => es.len() as int,
    };
    let r = key_range(es, start, end);
    if start is Some {
        lemma_rank(es, start->0);
    }
    if end is Some {
        lemma_rank(es, end->0);
    }
    assert(sorted(r)) by {
        assert forall|i: int, j: int| 0 <= i < j < r.len() implies lex_lt(
            (#[trigger] r[i]).0,
            (#[trigger] r[j]).0,
        ) by {
            assert(r[i] == es[a + i] && r[j] == es[a + j]);
        }
    }
    if r.contains(x) {
        let i = choose|i: int| 0 <= i < r.len() && r[i] == x;
        assert(es[a + i] == x);
    }
    if es.contains(x) && (start is Some ==> !lex_lt(x.0, start->0)) && (end is Some ==> lex_lt(
        x.0,
        end->0,
    )) {
        let i = choose|i: int| 0 <= i < es.len() && es[i] == x;
        assert(a <= i < b);
        assert(r[i - a] == x);
    }
}

/// A positioned cursor over B+Tree leaf entries.
pub struct BTreeCursor<K: Key> {
    /// Cached entries of the current leaf.
    entries: Vec<LeafEntry<K>>,
    /// Position within `entries`.
    pos: usize,
    /// Page id of the next leaf (`0` = end of list).
    next_leaf_id: u32,
    /// The configuration of the tree.
    config: K::Config,
    /// How many leaves may still follow.
    fuel: Ghost<nat>,
}

/// A key/value pair returned by `range`/`scan_all`.
#[derive(Debug, Clone, PartialEq, Eq)]
pub struct CursorEntry<K: Key> {
    pub key: K,
    pub page_id: u32,
    pub slot_id: u16,
}

/// A single item produced by [`BTreeCursor::next_entry`].
#[derive(Debug)]
pub struct CursorItem<K: Key> {
    pub key: K,
    pub page_id: u32,
    pub slot_id: u16,
}

impl<K: Key> CursorEntry<K> {
    /// The key's bytes and the place of the document.
    pub open spec fn model(self) -> Entry {
        (self.key.kview(), (self.page_id, self.slot_id))
    }
}

impl<K: Key> CursorItem<K> {
    /// The key's bytes and the place of the document.
    pub open spec fn model(self) -> Entry {
        (self.key.kview(), (self.page_id, self.slot_id))
    }
}

/// What cursor entries stand for.
pub open spec fn cursor_model<K: Key>(es: Seq<CursorEntry<K>>) -> Seq<Entry> {
    Seq::new(es.len(), |i: int| es[i].model())
}

impl<K: Key> BTreeCursor<K> {
    /// The cursor belongs to a list of leaves of the file that ends.
    pub closed spec fn wf(&self, pm: PageManager) -> bool {
        &&& self.pos <= self.entries@.len()
        &&& list_ends(nodes_of::<K>(pm, self.config), self.next_leaf_id, self.fuel@)
    }

    /// The entries that the cursor has still to give.
    pub closed spec fn remaining(&self, pm: PageManager) -> Seq<Entry> {
        crate::btree::node::entries_of(self.entries@).skip(self.pos as int) + list_entries(
            nodes_of::<K>(pm, self.config),
            self.next_leaf_id,
            self.fuel@,
        )
    }

    /// Advances the cursor and returns the next entry, or `None` when the
    /// scan is exhausted. The pages are read to load the next leaf when
    /// needed.
    pub fn next_entry(&mut self, pm: &PageManager) -> (r: Result<Option<CursorItem<K>>>)
        requires
            old(self).wf(*pm),
        ensures
            r is Ok,
            final(self).wf(*pm),
            match r->Ok_0 {
                Some(item) => {
                    &&& old(self).remaining(*pm).len() > 0
                    &&& item.model() == old(self).remaining(*pm)[0]
                    &&& final(self).remaining(*pm) == old(self).remaining(*pm).skip(1)
                },
                None => {
                    &&& old(self).remaining(*pm).len() == 0
                    &&& final(self).remaining(*pm) == old(self).remaining(*pm)
                },
            },
    {
        let ghost all = self.remaining(*pm);
        loop
            invariant
                self.wf(*pm),
                self.remaining(*pm) == all,
                all == old(self).remaining(*pm),
            decreases self.fuel@, self.entries@.len() - self.pos,
        {
            let ghost n = nodes_of::<K>(*pm, self.config);
            if self.pos < self.entries.len() {
                let ghost before = *self;
                let e: &LeafEntry<K> = &self.entries[self.pos];
                let item: CursorItem<K> = CursorItem {
                    key: e.key.dup(),
                    page_id: e.page_id,
                    slot_id: e.slot_id,
                };
                self.pos = self.pos + 1;
                proof {
                    let m = crate::btree::node::entries_of(self.entries@);
                    assert(m.skip(before.pos as int)[0] == m[before.pos as int]);
                    assert(self.remaining(*pm) =~= all.skip(1));
                }
                return Ok(Some(item));
            }
            if self.next_leaf_id == 0 {
                assert(all =~= Seq::<Entry>::empty());
                return Ok(None);
            }
            let ghost id = self.next_leaf_id;
            let buf: Page = match pm.read_page(self.next_leaf_id) {
                Ok(b) => b,
                Err(e) => {
                    return Err(e);
                },
            };
            assert(n[id as int] == node_of::<K>(buf@, self.config));
            let leaf: LeafNode<K> = LeafNode::from_bytes(&buf);
            proof {
                assert(leaf.model() == leaf_at(n, id));
                assert(leaf.model().skip(0) =~= leaf.model());
                assert(crate::btree::node::entries_of(self.entries@).skip(self.pos as int)
                    =~= Seq::<Entry>::empty());
            }
            self.entries = leaf.entries;
            self.pos = 0;
            self.next_leaf_id = leaf.next_leaf;
            self.fuel = Ghost((self.fuel@ - 1) as nat);
            assert(self.remaining(*pm) =~= all);
        }
    }
}

impl<K: Key> BTree<K> {
    /// Returns a cursor positioned at the smallest key in the tree.
    pub fn cursor(&self) -> (r: Result<BTreeCursor<K>>)
        requires
            self.tree_wf(),
        ensures
            r is Ok,
            r->Ok_0.wf(self.pm),
            r->Ok_0.remaining(self.pm) == self.entries(),
    {
        let first: LeafNode<K> = match self.find_first_leaf() {
            Ok(l) => l,
            Err(e) => {
                return Err(e);
            },
        };
        let ghost n = self.nodes();
        let ghost all = leaves(n, self.meta.root_page_id, (self.meta.height - 1) as nat);
        proof {
            reveal(sub_ok);
            lemma_chain(
                n,
                self.meta.root_page_id,
                (self.meta.height - 1) as nat,
                None,
                None,
                0,
                self.caps(),
            );
            assert(linked(n, all, 0, 0));
            lemma_list(n, all, 1);
            assert(all =~= Seq::<u32>::empty() + one_kid(all[0]) + all.skip(1));
            lemma_around(n, Seq::empty(), all[0], all.skip(1));
            assert(cat(n, Seq::<u32>::empty()) =~= Seq::<Entry>::empty());
        }
        let r = BTreeCursor {
            entries: first.entries,
            pos: 0,
            next_leaf_id: first.next_leaf,
            config: self.meta.config,
            fuel: Ghost((all.len() - 1) as nat),
        };
        proof {
            assert(r.remaining(self.pm) =~= self.entries());
        }
        Ok(r)
    }

    /// Returns a cursor positioned at the first entry with key `>= start_key`.
    pub fn cursor_from(&self, start_key: &K) -> (r: Result<BTreeCursor<K>>)
        requires
            self.tree_wf(),
        ensures
            r is Ok,
            r->Ok_0.wf(self.pm),
            r->Ok_0.remaining(self.pm) == key_range(
                self.entries(),
                Some(start_key.kview()),
                None,
            ),
    {
        let (leaf, Ghost(fl), Ghost(bl)) = match self.find_leaf(start_key) {
            Ok(t) => t,
            Err(e) => {
                return Err(e);
            },
        };
        let pos: usize = leaf.lower_bound_of(start_key);
        let ghost n = self.nodes();
        let ghost k = start_key.kview();
        let ghost id = leaf.page_id;
        let ghost lvl = (self.meta.height - 1) as nat;
        let ghost all = leaves(n, self.meta.root_page_id, lvl);
        let ghost j = fl.len() as int;
        let ghost m = leaf.model();
        proof {
            reveal(sub_ok);
            lemma_chain(n, self.meta.root_page_id, lvl, None, None, 0, self.caps());
            assert(all[j] == id);
            assert(linked(n, all, 0, j));
            lemma_list(n, all, j + 1);
            assert(all.skip(j + 1) =~= bl);
            lemma_around(n, fl, id, bl);
        }
        let r = BTreeCursor {
            entries: leaf.entries,
            pos,
            next_leaf_id: leaf.next_leaf,
            config: self.meta.config,
            fuel: Ghost((all.len() - j - 1) as nat),
        };
        proof {
            let es = self.entries();
            let a = cat(n, fl);
            let c = cat(n, bl);
            let q = a.len() + pos;
            lemma_flat_sorted(n, self.meta.root_page_id, lvl, None, None, 0, self.caps());
            assert(es == a + m + c);
            lemma_rank(es, k);
            assert(rank(es, k) == q) by {
                let w = rank(es, k);
                if w < q {
                    if w < a.len() {
                        assert(es[w] == a[w]);
                    } else {
                        assert(es[w] == m[w - a.len()]);
                        assert(leaf.keys()[w - a.len()] == m[w - a.len()].0);
                    }
                } else if q < w {
                    if q < a.len() + m.len() {
                        assert(es[q as int] == m[pos as int]);
                        assert(leaf.keys()[pos as int] == m[pos as int].0);
                    } else {
                        assert(es[q as int] == c[0]);
                        lemma_lex_asymmetric(k, c[0].0);
                    }
                }
            }
            assert(r.remaining(self.pm) =~= es.subrange(q as int, es.len() as int));
        }
        Ok(r)
    }

    /// Collects all entries with `start <= key < end`.
    ///
    /// Pass `None` for unbounded start/end.
    pub fn range(&self, start: Option<&K>, end: Option<&K>) -> (r: Result<Vec<CursorEntry<K>>>)
        requires
            self.tree_wf(),
        ensures
            r is Ok,
            cursor_model(r->Ok_0@) == key_range(
                self.entries(),
                match start {
                    Some(s) => Some(s.kview()),
                    None => None,
                },
                match end {
                    Some(e) => Some(e.kview()),
                    None => None,
                },
            ),
    {
        let made: Result<BTreeCursor<K>> = match start {
            Some(s) => self.cursor_from(s),
            None => self.cursor(),
        };
        let mut cursor: BTreeCursor<K> = match made {
            Ok(c) => c,
            Err(e) => {
                return Err(e);
            },
        };
        let ghost es = self.entries();
        let ghost a: int = match start {
            Some(s) => rank(es, s.kview()),
            None => 0,
        };
        let ghost ek: Option<Seq<u8>> = match end {
            Some(e) => Some(e.kview()),
            None => None,
        };
        let ghost b: int = match end {
            Some(e) => rank(es, e.kview()),
            None => es.len() as int,
        };
        proof {
            reveal(sub_ok);
            lemma_flat_sorted(
                self.nodes(),
                self.meta.root_page_id,
                (self.meta.height - 1) as nat,
                None,
                None,
                0,
                self.caps(),
            );
            if start is Some {
                lemma_rank(es, start->0.kview());
            }
            if end is Some {
                lemma_rank(es, end->0.kview());
            }
            assert(cursor.remaining(self.pm) =~= es.subrange(a, es.len() as int));
        }
        let mut results: Vec<CursorEntry<K>> = Vec::new();
        assert(cursor_model(results@) =~= es.subrange(a, a));
        loop
            invariant_except_break
                cursor.wf(self.pm),
                cursor.remaining(self.pm) == es.subrange(a + results@.len(), es.len() as int),
            invariant
                0 <= a <= es.len(),
                a + results@.len() <= es.len(),
                0 <= b <= es.len(),
                ek == (match end {
                    Some(e) => Some(e.kview()),
                    None => None,
                }),
                ek is None ==> b == es.len(),
                ek is Some ==> (forall|i: int| 0 <= i < b ==> lex_lt((#[trigger] es[i]).0, ek->0)),
                ek is Some ==> (forall|i: int|
                    b <= i < es.len() ==> !lex_lt((#[trigger] es[i]).0, ek->0)),
                cursor_model(results@) == es.subrange(a, a + results@.len()),
                a <= b ==> a + results@.len() <= b,
                a > b ==> results@.len() == 0,
            ensures
                a <= b ==> a + results@.len() == b,
                a > b ==> results@.len() == 0,
                cursor_model(results@) == es.subrange(a, a + results@.len()),
            decreases es.len() - a - results@.len(),
        {
            let ghost at = a + results@.len();
            match cursor.next_entry(&self.pm) {
                Err(e) => {
                    return Err(e);
                },
                Ok(None) => {
                    break;
                },
                Ok(Some(item)) => {
                    assert(es.subrange(at, es.len() as int)[0] == es[at]);
                    let past: bool = match end {
                        Some(end_key) => !item.key.key_lt(end_key),
                        None => false,
                    };
                    if past {
                        break;
                    }
                    results.push(
                        CursorEntry {
                            key: item.key,
                            page_id: item.page_id,
                            slot_id: item.slot_id,
                        },
                    );
                    proof {
                        assert(es.subrange(at, es.len() as int).skip(1) =~= es.subrange(
                            at + 1,
                            es.len() as int,
                        ));
                        assert(cursor_model(results@) =~= es.subrange(a, at + 1));
                    }
                },
            }
        }
        proof {
            if a > b {
                assert(cursor_model(results@) =~= Seq::<Entry>::empty());
            }
        }
        Ok(results)
    }

    /// Returns every entry in the tree in sorted order.
    pub fn scan_all(&self) -> (r: Result<Vec<CursorEntry<K>>>)
        requires
            self.tree_wf(),
        ensures
            r is Ok,
            cursor_model(r->Ok_0@) == self.entries(),
            sorted(self.entries()),
    {
        proof {
            lemma_entries_sorted(*self);
            let es = self.entries();
            assert(es.subrange(0, es.len() as int) =~= es);
        }
        self.range(None, None)
    }

    /// Walks down the leftmost spine to the smallest leaf.
    fn find_first_leaf(&self) -> (r: Result<LeafNode<K>>)
        requires
            self.tree_wf(),
        ensures
            r is Ok,
            r->Ok_0.page_id == first_leaf(
                self.nodes(),
                self.meta.root_page_id,
                (self.meta.height - 1) as nat,
            ),
            r->Ok_0.ok(self.meta.config),
            2 <= r->Ok_0.page_id < self.pm.count(),
            r->Ok_0.node() == self.nodes()[r->Ok_0.page_id as int],
    {
        let ghost n = self.nodes();
        let ghost caps = self.caps();
        let ghost goal = first_leaf(n, self.meta.root_page_id, (self.meta.height - 1) as nat);
        let mut current: u32 = self.meta.root_page_id;
        let ghost mut lvl: nat = (self.meta.height - 1) as nat;
        let ghost mut lo: Bound = None;
        let ghost mut hi: Bound = None;
        let ghost mut nxt: u32 = 0;
        proof {
            reveal(sub_ok);
        }
        loop
            invariant
                n == self.nodes(),
                caps == self.caps(),
                tree_ok(n, current, lvl, lo, hi, nxt, caps),
                goal == first_leaf(n, current, lvl),
                goal == first_leaf(
                    n,
                    self.meta.root_page_id,
                    (self.meta.height - 1) as nat,
                ),
            decreases lvl,
        {
            match self.load_node(current) {
                Ok(NodeRef::Leaf(leaf)) => {
                    return Ok(leaf);
                },
                Ok(NodeRef::Internal(node)) => {
                    let child: u32 = node.child_at(0);
                    proof {
                        let keys = node.keys();
                        let kids = node.kids();
                        let l1 = (lvl - 1) as nat;
                        assert(tree_ok(
                            n,
                            kids[0],
                            l1,
                            kid_lo(keys, lo, 0),
                            kid_hi(keys, hi, 0),
                            kid_next(n, kids, l1, nxt, 0),
                            caps,
                        ));
                        nxt = kid_next(n, kids, l1, nxt, 0);
                        lo = kid_lo(keys, lo, 0);
                        hi = kid_hi(keys, hi, 0);
                        lvl = l1;
                    }
                    current = child;
                },
                Err(e) => {
                    return Err(e);
                },
            }
        }
    }
}

/// The entries of a tree are in ascending order of their keys.
pub proof fn lemma_entries_sorted<K: Key>(t: BTree<K>)
    requires
        t.tree_wf(),
    ensures
        sorted(t.entries()),
{
    reveal(sub_ok);
    lemma_flat_sorted(
        t.nodes(),
        t.meta.root_page_id,
        (t.meta.height - 1) as nat,
        None,
        None,
        0,
        t.caps(),
    );
}

/// The entries of a tree hold keys of its configuration.
pub proof fn lemma_entries_keys<K: Key>(t: BTree<K>)
    requires
        t.tree_wf(),
    ensures
        forall|i: int|
            0 <= i < t.entries().len() ==> K::key_ok(
                (#[trigger] t.entries()[i]).0,
                t.meta.config,
            ),
{
    reveal(sub_ok);
    let lvl = (t.meta.height - 1) as nat;
    let ls = leaves(t.nodes(), t.meta.root_page_id, lvl);
    lemma_chain(t.nodes(), t.meta.root_page_id, lvl, None, None, 0, t.caps());
    assert forall|j: int| 0 <= j < ls.len() implies (#[trigger] ls[j]) < t.nodes().len() by {
        assert(linked(t.nodes(), ls, 0, j));
    }
    lemma_leaf_list_keys::<K>(t.pm, t.meta.config, ls);
}

proof fn lemma_leaf_list_keys<K: Key>(pm: PageManager, cfg: K::Config, ls: Seq<u32>)
    requires
        forall|j: int| 0 <= j < ls.len() ==> (#[trigger] ls[j]) < nodes_of::<K>(pm, cfg).len(),
    ensures
        forall|i: int|
            0 <= i < cat(nodes_of::<K>(pm, cfg), ls).len() ==> K::key_ok(
                (#[trigger] cat(nodes_of::<K>(pm, cfg), ls)[i]).0,
                cfg,
            ),
    decreases ls.len(),
{
    let n = nodes_of::<K>(pm, cfg);
    if ls.len() > 0 {
        let f = ls.drop_last();
        assert forall|j: int| 0 <= j < f.len() implies (#[trigger] f[j]) < n.len() by {
            assert(f[j] == ls[j]);
        }
        lemma_leaf_list_keys::<K>(pm, cfg, f);
        assert(ls[ls.len() - 1] == ls.last());
        let x = ls.last();
        let es = leaf_at(n, x);
        assert(n[x as int] == node_of::<K>(pm.page(x as int), cfg));
        lemma_leaf_keys::<K>(pm.page(x as int), cfg);
        assert forall|i: int| 0 <= i < cat(n, ls).len() implies K::key_ok(
            (#[trigger] cat(n, ls)[i]).0,
            cfg,
        ) by {
            if i < cat(n, f).len() {
                assert(cat(n, ls)[i] == cat(n, f)[i]);
            } else {
                assert(cat(n, ls)[i] == es[i - cat(n, f).len()]);
            }
        }
    }
}

proof fn lemma_leaf_keys<K: Key>(p: Seq<u8>, cfg: K::Config)
    ensures
        node_of::<K>(p, cfg) matches NodeM::Leaf { entries, .. } ==> forall|i: int|
            0 <= i < entries.len() ==> K::key_ok((#[trigger] entries[i]).0, cfg),
{
    if node_of::<K>(p, cfg) is Leaf {
        let es = leaf_entries::<K>(p);
        K::lemma_config(cfg);
        assert forall|i: int| 0 <= i < es.len() implies K::key_ok((#[trigger] es[i]).0, cfg) by {
            let o = leaf_off::<K>(cfg, i);
            let s = K::slot_len(cfg) as int;
            assert(o + s <= leaf_off::<K>(cfg, leaf_num(p))) by (nonlinear_arith)
                requires
                    o == leaf_base::<K>() + i * (s + 6),
                    leaf_off::<K>(cfg, leaf_num(p)) == leaf_base::<K>() + leaf_num(p) * (s + 6),
                    0 <= i < leaf_num(p),
                    s >= 0,
            ;
            assert(o >= 0) by (nonlinear_arith)
                requires
                    o == leaf_base::<K>() + i * (s + 6),
                    leaf_base::<K>() >= 0,
                    i >= 0,
                    s >= 0,
            ;
            K::lemma_slot_read(p.subrange(o, o + s), cfg);
        }
    }
}

} // verus!
