//! The shape of a B+Tree on pages.
//!
//! A page file is seen as a sequence of nodes. A tree of height `lvl + 1` is
//! rooted at a node of level `lvl`; leaves are at level zero. All predicates
//! here are over that sequence.

use vstd::prelude::*;

use crate::btree::key::Key;
use crate::btree::node::{
    entry_keys, internal_cfg, internal_entries, internal_readable, keys_sorted, leaf_cfg,
    leaf_entries, leaf_readable, sep_keys, upper_bound, Entry, Sep,
};
use crate::bytes::{field, lemma_lex_transitive, lex_le, lex_lt};
use crate::page::manager::PageManager;
use crate::page::{PageHeader, PageType};

verus! {

/// What a page holds, seen as a tree node. The back links of leaves are not
/// part of it.
pub enum NodeM {
    Leaf { pid: u32, next: u32, entries: Seq<Entry> },
    Internal { pid: u32, keys: Seq<Seq<u8>>, kids: Seq<u32> },
    Other,
}

/// The children named by separators and a right child.
pub open spec fn kids_of(es: Seq<Sep>, right: u32) -> Seq<u32> {
    Seq::new(
        es.len() + 1,
        |i: int|
            if i < es.len() {
                es[i].1
            } else {
                right
            },
    )
}

/// The node on a page of a tree with configuration `cfg`.
pub open spec fn node_of<K: Key>(p: Seq<u8>, cfg: K::Config) -> NodeM {
    let h = PageHeader::parse(p);
    if h.page_type == PageType::BTreeLeaf && leaf_readable::<K>(p) && leaf_cfg::<K>(p) == cfg {
        NodeM::Leaf {
            pid: h.page_id,
            next: field(p, 34, 4) as u32,
            entries: leaf_entries::<K>(p),
        }
    } else if h.page_type == PageType::BTreeInternal && internal_readable::<K>(p) && internal_cfg::<
        K,
    >(p) == cfg {
        NodeM::Internal {
            pid: h.page_id,
            keys: sep_keys(internal_entries::<K>(p)),
            kids: kids_of(internal_entries::<K>(p), field(p, 34, 4) as u32),
        }
    } else {
        NodeM::Other
    }
}

/// The nodes of a page file.
pub open spec fn nodes_of<K: Key>(pm: PageManager, cfg: K::Config) -> Seq<NodeM> {
    Seq::new(pm.pages@.len(), |i: int| node_of::<K>(pm.page(i), cfg))
}

/// A bound on keys, open-ended when absent.
pub type Bound = Option<Seq<u8>>;

/// `k` is at or above the lower bound.
pub open spec fn above(lo: Bound, k: Seq<u8>) -> bool {
    lo is Some ==> lex_le(lo->0, k)
}

/// `k` is below the upper bound.
pub open spec fn below(hi: Bound, k: Seq<u8>) -> bool {
    hi is Some ==> lex_lt(k, hi->0)
}

/// `k` is strictly above the lower bound.
pub open spec fn strictly_above(lo: Bound, k: Seq<u8>) -> bool {
    lo is Some ==> lex_lt(lo->0, k)
}

/// The lower bound of child `i`.
pub open spec fn kid_lo(keys: Seq<Seq<u8>>, lo: Bound, i: int) -> Bound {
    if i == 0 {
        lo
    } else {
        Some(keys[i - 1])
    }
}

/// The upper bound of child `i`.
pub open spec fn kid_hi(keys: Seq<Seq<u8>>, hi: Bound, i: int) -> Bound {
    if i >= keys.len() {
        hi
    } else {
        Some(keys[i])
    }
}

/// The leftmost leaf below a node.
pub open spec fn first_leaf(n: Seq<NodeM>, id: u32, lvl: nat) -> u32
    decreases lvl,
{
    if lvl == 0 {
        id
    } else {
        match n[id as int] {
            NodeM::Internal { keys, kids, .. } => if kids.len() == 0 {
                id
            } else {
                first_leaf(n, kids[0], (lvl - 1) as nat)
            },
            _ => id,
        }
    }
}

/// The leaf that follows the leaves of child `i`; `nxt` follows those of the
/// last child.
pub open spec fn kid_next(n: Seq<NodeM>, kids: Seq<u32>, lvl: nat, nxt: u32, i: int) -> u32 {
    if i + 1 < kids.len() {
        first_leaf(n, kids[i + 1], lvl)
    } else {
        nxt
    }
}

/// The node at page `id` roots a search tree of level `lvl` whose keys lie in
/// `[lo, hi)` and whose last leaf links to `nxt`. `caps` are the most entries
/// of a leaf and the most keys of an internal node.
pub open spec fn tree_ok(
    n: Seq<NodeM>,
    id: u32,
    lvl: nat,
    lo: Bound,
    hi: Bound,
    nxt: u32,
    caps: (nat, nat),
) -> bool
    decreases lvl, 0nat,
{
    &&& 2 <= id < n.len()
    &&& match n[id as int] {
        NodeM::Leaf { pid, next, entries } => {
            &&& lvl == 0
            &&& pid == id
            &&& next == nxt
            &&& entries.len() <= caps.0
            &&& keys_sorted(entry_keys(entries))
            &&& forall|i: int|
                0 <= i < entries.len() ==> above(lo, (#[trigger] entries[i]).0) && below(
                    hi,
                    entries[i].0,
                )
        },
        NodeM::Internal { pid, keys, kids } => {
            &&& lvl > 0
            &&& pid == id
            &&& keys.len() <= caps.1
            &&& kids_ok(n, keys, kids, (lvl - 1) as nat, lo, hi, nxt, caps)
        },
        NodeM::Other => false,
    }
}

/// `kids` root search trees of level `lvl` parted by `keys`.
pub open spec fn kids_ok(
    n: Seq<NodeM>,
    keys: Seq<Seq<u8>>,
    kids: Seq<u32>,
    lvl: nat,
    lo: Bound,
    hi: Bound,
    nxt: u32,
    caps: (nat, nat),
) -> bool
    decreases lvl, 1nat,
{
    &&& kids.len() == keys.len() + 1
    &&& keys_sorted(keys)
    &&& forall|i: int|
        0 <= i < keys.len() ==> strictly_above(lo, #[trigger] keys[i]) && below(hi, keys[i])
    &&& forall|i: int|
        0 <= i < kids.len() ==> tree_ok(
            n,
            #[trigger] kids[i],
            lvl,
            kid_lo(keys, lo, i),
            kid_hi(keys, hi, i),
            kid_next(n, kids, lvl, nxt, i),
            caps,
        )
}

/// Page `x` belongs to the tree below the node at page `id`.
pub open spec fn owns(n: Seq<NodeM>, id: u32, lvl: nat, x: int) -> bool
    decreases lvl, 0nat,
{
    x == id || (lvl > 0 && (n[id as int] matches NodeM::Internal { kids, .. } && kids_own(
        n,
        kids,
        (lvl - 1) as nat,
        x,
    )))
}

/// Page `x` belongs to the tree below one of `kids`.
pub open spec fn kids_own(n: Seq<NodeM>, kids: Seq<u32>, lvl: nat, x: int) -> bool
    decreases lvl, 1nat,
{
    exists|i: int| 0 <= i < kids.len() && owns(n, #[trigger] kids[i], lvl, x)
}

/// No page occurs twice in the tree below the node at page `id`.
pub open spec fn distinct(n: Seq<NodeM>, id: u32, lvl: nat) -> bool
    decreases lvl, 0nat,
{
    lvl > 0 ==> (n[id as int] matches NodeM::Internal { kids, .. } ==> {
        &&& kids_distinct(n, kids, (lvl - 1) as nat)
        &&& !kids_own(n, kids, (lvl - 1) as nat, id as int)
    })
}

/// No page occurs twice in the trees below `kids`.
pub open spec fn kids_distinct(n: Seq<NodeM>, kids: Seq<u32>, lvl: nat) -> bool
    decreases lvl, 1nat,
{
    &&& forall|i: int| 0 <= i < kids.len() ==> distinct(n, #[trigger] kids[i], lvl)
    &&& forall|i: int, j: int, x: int|
        #![trigger owns(n, kids[i], lvl, x), owns(n, kids[j], lvl, x)]
        0 <= i < j < kids.len() ==> !(owns(n, kids[i], lvl, x) && owns(n, kids[j], lvl, x))
}

/// The leaves below a node, from left to right.
pub open spec fn leaves(n: Seq<NodeM>, id: u32, lvl: nat) -> Seq<u32>
    decreases lvl, 0nat,
{
    if lvl == 0 {
        seq![id]
    } else {
        match n[id as int] {
            NodeM::Internal { keys, kids, .. } => kids_leaves(n, kids, (lvl - 1) as nat),
            _ => Seq::empty(),
        }
    }
}

/// The leaves below `kids`, from left to right.
pub open spec fn kids_leaves(n: Seq<NodeM>, kids: Seq<u32>, lvl: nat) -> Seq<u32>
    decreases lvl, kids.len() + 1,
{
    if kids.len() == 0 {
        Seq::empty()
    } else {
        kids_leaves(n, kids.drop_last(), lvl) + leaves(n, kids.last(), lvl)
    }
}

/// The entries of the leaf at page `x`.
pub open spec fn leaf_at(n: Seq<NodeM>, x: u32) -> Seq<Entry> {
    match n[x as int] {
        NodeM::Leaf { entries, .. } => entries,
        _ => Seq::empty(),
    }
}

/// The link of the leaf at page `x`.
pub open spec fn next_at(n: Seq<NodeM>, x: u32) -> u32 {
    match n[x as int] {
        NodeM::Leaf { next, .. } => next,
        _ => 0,
    }
}

/// The entries of leaves, one leaf after another.
pub open spec fn cat(n: Seq<NodeM>, ls: Seq<u32>) -> Seq<Entry>
    decreases ls.len(),
{
    if ls.len() == 0 {
        Seq::empty()
    } else {
        cat(n, ls.drop_last()) + leaf_at(n, ls.last())
    }
}

/// The entries below a node, in order.
pub open spec fn flat(n: Seq<NodeM>, id: u32, lvl: nat) -> Seq<Entry> {
    cat(n, leaves(n, id, lvl))
}

/// The entries below `kids`, in order.
pub open spec fn kids_flat(n: Seq<NodeM>, kids: Seq<u32>, lvl: nat) -> Seq<Entry> {
    cat(n, kids_leaves(n, kids, lvl))
}

// ── Concatenation ───────────────────────────────────────────────────────

pub proof fn lemma_cat_append(n: Seq<NodeM>, a: Seq<u32>, b: Seq<u32>)
    ensures
        cat(n, a + b) == cat(n, a) + cat(n, b),
    decreases b.len(),
{
    if b.len() == 0 {
        assert(a + b =~= a);
        assert(cat(n, a) + cat(n, b) =~= cat(n, a));
    } else {
        lemma_cat_append(n, a, b.drop_last());
        assert((a + b).drop_last() =~= a + b.drop_last());
        assert((a + b).last() == b.last());
        assert(cat(n, a + b) =~= cat(n, a) + cat(n, b));
    }
}

pub proof fn lemma_cat_one(n: Seq<NodeM>, x: u32)
    ensures
        cat(n, seq![x]) == leaf_at(n, x),
{
    assert(seq![x].drop_last() =~= Seq::<u32>::empty());
    assert(cat(n, Seq::<u32>::empty()) =~= Seq::<Entry>::empty());
    assert(cat(n, seq![x]) =~= leaf_at(n, x));
}

pub proof fn lemma_cat_frame(n: Seq<NodeM>, m: Seq<NodeM>, ls: Seq<u32>)
    requires
        forall|j: int| 0 <= j < ls.len() ==> leaf_at(n, #[trigger] ls[j]) == leaf_at(m, ls[j]),
    ensures
        cat(n, ls) == cat(m, ls),
    decreases ls.len(),
{
    if ls.len() > 0 {
        assert forall|j: int| 0 <= j < ls.drop_last().len() implies leaf_at(
            n,
            #[trigger] ls.drop_last()[j],
        ) == leaf_at(m, ls.drop_last()[j]) by {
            assert(ls.drop_last()[j] == ls[j]);
        }
        lemma_cat_frame(n, m, ls.drop_last());
        assert(ls.last() == ls[ls.len() - 1]);
    }
}

pub proof fn lemma_kids_leaves_append(n: Seq<NodeM>, a: Seq<u32>, b: Seq<u32>, lvl: nat)
    ensures
        kids_leaves(n, a + b, lvl) == kids_leaves(n, a, lvl) + kids_leaves(n, b, lvl),
        kids_flat(n, a + b, lvl) == kids_flat(n, a, lvl) + kids_flat(n, b, lvl),
    decreases b.len(),
{
    if b.len() == 0 {
        assert(a + b =~= a);
        assert(kids_leaves(n, a, lvl) + kids_leaves(n, b, lvl) =~= kids_leaves(n, a, lvl));
    } else {
        lemma_kids_leaves_append(n, a, b.drop_last(), lvl);
        assert((a + b).drop_last() =~= a + b.drop_last());
        assert((a + b).last() == b.last());
        assert(kids_leaves(n, a + b, lvl) =~= kids_leaves(n, a, lvl) + kids_leaves(n, b, lvl));
    }
    lemma_cat_append(n, kids_leaves(n, a, lvl), kids_leaves(n, b, lvl));
}

pub proof fn lemma_kids_one(n: Seq<NodeM>, x: u32, lvl: nat)
    ensures
        kids_leaves(n, seq![x], lvl) == leaves(n, x, lvl),
        kids_flat(n, seq![x], lvl) == flat(n, x, lvl),
{
    assert(seq![x].drop_last() =~= Seq::<u32>::empty());
    assert(kids_leaves(n, Seq::<u32>::empty(), lvl) =~= Seq::<u32>::empty());
    assert(kids_leaves(n, seq![x], lvl) =~= leaves(n, x, lvl));
}

/// The entries below `kids` are those below the first ones, then those below
/// child `i`, then those below the others.
pub proof fn lemma_kids_split(n: Seq<NodeM>, kids: Seq<u32>, lvl: nat, i: int)
    requires
        0 <= i < kids.len(),
    ensures
        kids_leaves(n, kids, lvl) == kids_leaves(n, kids.take(i), lvl) + leaves(n, kids[i], lvl)
            + kids_leaves(n, kids.skip(i + 1), lvl),
        kids_flat(n, kids, lvl) == kids_flat(n, kids.take(i), lvl) + flat(n, kids[i], lvl)
            + kids_flat(n, kids.skip(i + 1), lvl),
{
    let a = kids.take(i);
    let b = seq![kids[i]];
    let c = kids.skip(i + 1);
    assert(kids =~= a + b + c);
    lemma_kids_leaves_append(n, a + b, c, lvl);
    lemma_kids_leaves_append(n, a, b, lvl);
    lemma_kids_one(n, kids[i], lvl);
}

// ── Frames ──────────────────────────────────────────────────────────────

/// The pages of the tree below `id` hold the same nodes in `n` and `m`.
pub open spec fn same_below(n: Seq<NodeM>, m: Seq<NodeM>, id: u32, lvl: nat) -> bool {
    forall|x: int|
        #[trigger] owns(n, id, lvl, x) ==> 0 <= x < n.len() && x < m.len() && n[x] == m[x]
}

/// A tree depends only on its own pages.
pub proof fn lemma_frame(n: Seq<NodeM>, m: Seq<NodeM>, id: u32, lvl: nat)
    requires
        same_below(n, m, id, lvl),
    ensures
        forall|x: int| #[trigger] owns(m, id, lvl, x) == owns(n, id, lvl, x),
        first_leaf(m, id, lvl) == first_leaf(n, id, lvl),
        leaves(m, id, lvl) == leaves(n, id, lvl),
        flat(m, id, lvl) == flat(n, id, lvl),
        distinct(m, id, lvl) == distinct(n, id, lvl),
    decreases lvl, 0nat,
{
    assert(owns(n, id, lvl, id as int));
    if lvl == 0 {
        lemma_cat_frame(n, m, leaves(n, id, lvl));
    } else {
        let l1 = (lvl - 1) as nat;
        match n[id as int] {
            NodeM::Internal { keys, kids, .. } => {
                assert forall|i: int| 0 <= i < kids.len() implies same_below(
                    n,
                    m,
                    #[trigger] kids[i],
                    l1,
                ) by {
                    assert forall|x: int| #[trigger] owns(n, kids[i], l1, x) implies 0 <= x
                        < n.len() && x < m.len() && n[x] == m[x] by {
                        assert(kids_own(n, kids, l1, x));
                        assert(owns(n, id, lvl, x));
                    }
                }
                lemma_kids_frame(n, m, kids, l1);
                assert forall|x: int| #[trigger] owns(m, id, lvl, x) == owns(n, id, lvl, x) by {
                    assert(kids_own(m, kids, l1, x) == kids_own(n, kids, l1, x));
                }
                if kids.len() > 0 {
                    lemma_frame(n, m, kids[0], l1);
                }
            },
            _ => {},
        }
    }
}

/// The trees below some nodes depend only on their own pages.
pub proof fn lemma_kids_frame(n: Seq<NodeM>, m: Seq<NodeM>, kids: Seq<u32>, lvl: nat)
    requires
        forall|i: int| 0 <= i < kids.len() ==> same_below(n, m, #[trigger] kids[i], lvl),
    ensures
        forall|x: int| #[trigger] kids_own(m, kids, lvl, x) == kids_own(n, kids, lvl, x),
        kids_leaves(m, kids, lvl) == kids_leaves(n, kids, lvl),
        kids_flat(m, kids, lvl) == kids_flat(n, kids, lvl),
        kids_distinct(m, kids, lvl) == kids_distinct(n, kids, lvl),
    decreases lvl, kids.len() + 1,
{
    assert forall|i: int| 0 <= i < kids.len() implies distinct(m, #[trigger] kids[i], lvl)
        == distinct(n, kids[i], lvl) && (forall|x: int| #[trigger]
        owns(m, kids[i], lvl, x) == owns(n, kids[i], lvl, x)) by {
        lemma_frame(n, m, kids[i], lvl);
    }
    if kids.len() > 0 {
        let front = kids.drop_last();
        assert forall|i: int| 0 <= i < front.len() implies same_below(
            n,
            m,
            #[trigger] front[i],
            lvl,
        ) by {
            assert(front[i] == kids[i]);
        }
        lemma_kids_frame(n, m, front, lvl);
        assert(kids.last() == kids[kids.len() - 1]);
        lemma_frame(n, m, kids.last(), lvl);
        lemma_cat_append(n, kids_leaves(n, front, lvl), leaves(n, kids.last(), lvl));
        lemma_cat_append(m, kids_leaves(m, front, lvl), leaves(m, kids.last(), lvl));
    }
    assert forall|x: int| #[trigger] kids_own(m, kids, lvl, x) == kids_own(n, kids, lvl, x) by {
        if kids_own(m, kids, lvl, x) {
            let i = choose|i: int| 0 <= i < kids.len() && owns(m, #[trigger] kids[i], lvl, x);
            assert(owns(n, kids[i], lvl, x));
        }
        if kids_own(n, kids, lvl, x) {
            let i = choose|i: int| 0 <= i < kids.len() && owns(n, #[trigger] kids[i], lvl, x);
            assert(owns(m, kids[i], lvl, x));
        }
    }
    assert(kids_distinct(m, kids, lvl) == kids_distinct(n, kids, lvl)) by {
        if kids_distinct(n, kids, lvl) {
            assert forall|i: int, j: int, x: int|
                #![trigger owns(m, kids[i], lvl, x), owns(m, kids[j], lvl, x)]
                0 <= i < j < kids.len() implies !(owns(m, kids[i], lvl, x) && owns(
                m,
                kids[j],
                lvl,
                x,
            )) by {
                assert(owns(m, kids[i], lvl, x) == owns(n, kids[i], lvl, x));
                assert(owns(m, kids[j], lvl, x) == owns(n, kids[j], lvl, x));
            }
            assert(kids_distinct(m, kids, lvl));
        }
        if kids_distinct(m, kids, lvl) {
            assert forall|i: int, j: int, x: int|
                #![trigger owns(n, kids[i], lvl, x), owns(n, kids[j], lvl, x)]
                0 <= i < j < kids.len() implies !(owns(n, kids[i], lvl, x) && owns(
                n,
                kids[j],
                lvl,
                x,
            )) by {
                assert(owns(m, kids[i], lvl, x) == owns(n, kids[i], lvl, x));
                assert(owns(m, kids[j], lvl, x) == owns(n, kids[j], lvl, x));
            }
            assert(kids_distinct(n, kids, lvl));
        }
    }
}

/// A search tree stays one while its own pages keep their nodes.
pub proof fn lemma_frame_ok(
    n: Seq<NodeM>,
    m: Seq<NodeM>,
    id: u32,
    lvl: nat,
    lo: Bound,
    hi: Bound,
    nxt: u32,
    caps: (nat, nat),
)
    requires
        same_below(n, m, id, lvl),
        tree_ok(n, id, lvl, lo, hi, nxt, caps),
    ensures
        tree_ok(m, id, lvl, lo, hi, nxt, caps),
    decreases lvl,
{
    assert(owns(n, id, lvl, id as int));
    if lvl > 0 {
        let l1 = (lvl - 1) as nat;
        match n[id as int] {
            NodeM::Internal { keys, kids, .. } => {
                assert forall|i: int| 0 <= i < kids.len() implies same_below(
                    n,
                    m,
                    #[trigger] kids[i],
                    l1,
                ) by {
                    assert forall|x: int| #[trigger] owns(n, kids[i], l1, x) implies 0 <= x
                        < n.len() && x < m.len() && n[x] == m[x] by {
                        assert(kids_own(n, kids, l1, x));
                        assert(owns(n, id, lvl, x));
                    }
                }
                assert forall|i: int| 0 <= i < kids.len() implies tree_ok(
                    m,
                    #[trigger] kids[i],
                    l1,
                    kid_lo(keys, lo, i),
                    kid_hi(keys, hi, i),
                    kid_next(m, kids, l1, nxt, i),
                    caps,
                ) by {
                    if i + 1 < kids.len() {
                        assert(same_below(n, m, kids[i + 1], l1));
                        lemma_frame(n, m, kids[i + 1], l1);
                    }
                    lemma_frame_ok(
                        n,
                        m,
                        kids[i],
                        l1,
                        kid_lo(keys, lo, i),
                        kid_hi(keys, hi, i),
                        kid_next(n, kids, l1, nxt, i),
                        caps,
                    );
                }
            },
            _ => {},
        }
    }
}

// ── Owned pages ─────────────────────────────────────────────────────────

/// The pages of a search tree are pages of the file past the first two.
pub proof fn lemma_owned_range(
    n: Seq<NodeM>,
    id: u32,
    lvl: nat,
    lo: Bound,
    hi: Bound,
    nxt: u32,
    caps: (nat, nat),
    x: int,
)
    requires
        tree_ok(n, id, lvl, lo, hi, nxt, caps),
        owns(n, id, lvl, x),
    ensures
        2 <= x < n.len(),
    decreases lvl,
{
    if x != id {
        let l1 = (lvl - 1) as nat;
        match n[id as int] {
            NodeM::Internal { keys, kids, .. } => {
                let i = choose|i: int| 0 <= i < kids.len() && owns(n, #[trigger] kids[i], l1, x);
                lemma_owned_range(
                    n,
                    kids[i],
                    l1,
                    kid_lo(keys, lo, i),
                    kid_hi(keys, hi, i),
                    kid_next(n, kids, l1, nxt, i),
                    caps,
                    x,
                );
            },
            _ => {},
        }
    }
}

/// The leftmost leaf of a search tree is a leaf of it.
pub proof fn lemma_first_leaf(
    n: Seq<NodeM>,
    id: u32,
    lvl: nat,
    lo: Bound,
    hi: Bound,
    nxt: u32,
    caps: (nat, nat),
)
    requires
        tree_ok(n, id, lvl, lo, hi, nxt, caps),
    ensures
        owns(n, id, lvl, first_leaf(n, id, lvl) as int),
        2 <= first_leaf(n, id, lvl) < n.len(),
        n[first_leaf(n, id, lvl) as int] matches NodeM::Leaf { pid, entries, .. } && pid
            == first_leaf(n, id, lvl) && entries.len() <= caps.0,
    decreases lvl,
{
    if lvl > 0 {
        let l1 = (lvl - 1) as nat;
        match n[id as int] {
            NodeM::Internal { keys, kids, .. } => {
                lemma_first_leaf(
                    n,
                    kids[0],
                    l1,
                    kid_lo(keys, lo, 0),
                    kid_hi(keys, hi, 0),
                    kid_next(n, kids, l1, nxt, 0),
                    caps,
                );
                assert(kids_own(n, kids, l1, first_leaf(n, id, lvl) as int));
            },
            _ => {},
        }
    }
}

// ── The chain of leaves ─────────────────────────────────────────────────

/// The leaf at position `j` of `ls` is linked to the one behind it, the last
/// to `nxt`.
pub open spec fn linked(n: Seq<NodeM>, ls: Seq<u32>, nxt: u32, j: int) -> bool {
    &&& 2 <= ls[j] < n.len()
    &&& n[ls[j] as int] is Leaf
    &&& next_at(n, ls[j]) == if j + 1 < ls.len() {
        ls[j + 1]
    } else {
        nxt
    }
}

/// `ls` are leaves of the file, each linked to the one behind it and the last
/// to `nxt`.
pub open spec fn chained(n: Seq<NodeM>, ls: Seq<u32>, nxt: u32) -> bool {
    forall|j: int| 0 <= j < ls.len() ==> #[trigger] linked(n, ls, nxt, j)
}

proof fn lemma_chained_append(n: Seq<NodeM>, a: Seq<u32>, b: Seq<u32>, nxt: u32)
    requires
        b.len() > 0,
        chained(n, a, b[0]),
        chained(n, b, nxt),
    ensures
        chained(n, a + b, nxt),
{
    let c = a + b;
    assert forall|j: int| 0 <= j < c.len() implies #[trigger] linked(n, c, nxt, j) by {
        if j < a.len() {
            assert(linked(n, a, b[0], j));
            assert(c[j] == a[j]);
            if j + 1 < a.len() {
                assert(c[j + 1] == a[j + 1]);
            } else {
                assert(c[j + 1] == b[0]);
            }
        } else {
            assert(linked(n, b, nxt, j - a.len()));
            assert(c[j] == b[j - a.len()]);
            if j + 1 < c.len() {
                assert(c[j + 1] == b[j + 1 - a.len()]);
            }
        }
    }
}

/// The leaves of a search tree are chained from its leftmost leaf on.
pub proof fn lemma_chain(
    n: Seq<NodeM>,
    id: u32,
    lvl: nat,
    lo: Bound,
    hi: Bound,
    nxt: u32,
    caps: (nat, nat),
)
    requires
        tree_ok(n, id, lvl, lo, hi, nxt, caps),
    ensures
        leaves(n, id, lvl).len() > 0,
        leaves(n, id, lvl)[0] == first_leaf(n, id, lvl),
        chained(n, leaves(n, id, lvl), nxt),
    decreases lvl, 0nat,
{
    if lvl > 0 {
        let l1 = (lvl - 1) as nat;
        match n[id as int] {
            NodeM::Internal { keys, kids, .. } => {
                lemma_kids_chain(n, keys, kids, l1, lo, hi, nxt, caps, kids.len() as int);
                assert(kids.take(kids.len() as int) =~= kids);
                lemma_kids_split(n, kids, l1, 0);
                assert(kids_leaves(n, kids.take(0), l1) =~= Seq::<u32>::empty());
                lemma_chain(
                    n,
                    kids[0],
                    l1,
                    kid_lo(keys, lo, 0),
                    kid_hi(keys, hi, 0),
                    kid_next(n, kids, l1, nxt, 0),
                    caps,
                );
            },
            _ => {},
        }
    }
}

proof fn lemma_kids_chain(
    n: Seq<NodeM>,
    keys: Seq<Seq<u8>>,
    kids: Seq<u32>,
    lvl: nat,
    lo: Bound,
    hi: Bound,
    nxt: u32,
    caps: (nat, nat),
    m: int,
)
    requires
        kids_ok(n, keys, kids, lvl, lo, hi, nxt, caps),
        1 <= m <= kids.len(),
    ensures
        chained(n, kids_leaves(n, kids.take(m), lvl), kid_next(n, kids, lvl, nxt, m - 1)),
        kids_leaves(n, kids.take(m), lvl).len() > 0,
    decreases lvl, m + 1,
{
    let i = m - 1;
    assert(kids.take(m).drop_last() =~= kids.take(i));
    assert(kids.take(m).last() == kids[i]);
    lemma_chain(
        n,
        kids[i],
        lvl,
        kid_lo(keys, lo, i),
        kid_hi(keys, hi, i),
        kid_next(n, kids, lvl, nxt, i),
        caps,
    );
    if m == 1 {
        assert(kids_leaves(n, kids.take(0), lvl) =~= Seq::<u32>::empty());
        assert(kids_leaves(n, kids.take(m), lvl) =~= leaves(n, kids[i], lvl));
    } else {
        lemma_kids_chain(n, keys, kids, lvl, lo, hi, nxt, caps, i);
        lemma_chained_append(
            n,
            kids_leaves(n, kids.take(i), lvl),
            leaves(n, kids[i], lvl),
            kid_next(n, kids, lvl, nxt, i),
        );
    }
}

// ── Order of the entries ────────────────────────────────────────────────

/// All keys of `es` lie in `[lo, hi)`.
pub open spec fn within(es: Seq<Entry>, lo: Bound, hi: Bound) -> bool {
    forall|i: int|
        0 <= i < es.len() ==> above(lo, (#[trigger] es[i]).0) && below(hi, es[i].0)
}

/// Entries in strictly ascending order of their keys.
pub open spec fn sorted(es: Seq<Entry>) -> bool {
    forall|i: int, j: int|
        0 <= i < j < es.len() ==> lex_lt((#[trigger] es[i]).0, (#[trigger] es[j]).0)
}

pub proof fn lemma_sorted_keys(es: Seq<Entry>)
    ensures
        keys_sorted(entry_keys(es)) == sorted(es),
{
    if keys_sorted(entry_keys(es)) {
        assert forall|i: int, j: int| 0 <= i < j < es.len() implies lex_lt(
            (#[trigger] es[i]).0,
            (#[trigger] es[j]).0,
        ) by {
            assert(lex_lt(entry_keys(es)[i], entry_keys(es)[j]));
        }
    }
    if sorted(es) {
        assert forall|i: int, j: int| 0 <= i < j < entry_keys(es).len() implies lex_lt(
            #[trigger] entry_keys(es)[i],
            #[trigger] entry_keys(es)[j],
        ) by {
            assert(lex_lt(es[i].0, es[j].0));
        }
    }
}

/// Sorted entries below a key followed by sorted entries from it on are
/// sorted.
pub proof fn lemma_sorted_append(
    a: Seq<Entry>,
    b: Seq<Entry>,
    lo: Bound,
    k: Seq<u8>,
    hi: Bound,
)
    requires
        sorted(a),
        sorted(b),
        within(a, lo, Some(k)),
        within(b, Some(k), hi),
        strictly_above(lo, k),
        below(hi, k),
    ensures
        sorted(a + b),
        within(a + b, lo, hi),
{
    let c = a + b;
    assert forall|i: int, j: int| 0 <= i < j < c.len() implies lex_lt(
        (#[trigger] c[i]).0,
        (#[trigger] c[j]).0,
    ) by {
        if j < a.len() {
            assert(lex_lt(a[i].0, a[j].0));
        } else if i >= a.len() {
            assert(lex_lt(b[i - a.len()].0, b[j - a.len()].0));
        } else {
            assert(below(Some(k), a[i].0));
            assert(above(Some(k), b[j - a.len()].0));
            if k != b[j - a.len()].0 {
                lemma_lex_transitive(a[i].0, k, b[j - a.len()].0);
            }
        }
    }
    assert forall|i: int| 0 <= i < c.len() implies above(lo, (#[trigger] c[i]).0) && below(
        hi,
        c[i].0,
    ) by {
        if i < a.len() {
            assert(above(lo, a[i].0) && below(Some(k), a[i].0));
            if hi is Some {
                lemma_lex_transitive(a[i].0, k, hi->0);
            }
        } else {
            let e = b[i - a.len()].0;
            assert(above(Some(k), e) && below(hi, e));
            if lo is Some && k != e {
                lemma_lex_transitive(lo->0, k, e);
            }
        }
    }
}

/// The entries of a search tree are sorted and within its bounds.
pub proof fn lemma_flat_sorted(
    n: Seq<NodeM>,
    id: u32,
    lvl: nat,
    lo: Bound,
    hi: Bound,
    nxt: u32,
    caps: (nat, nat),
)
    requires
        tree_ok(n, id, lvl, lo, hi, nxt, caps),
    ensures
        sorted(flat(n, id, lvl)),
        within(flat(n, id, lvl), lo, hi),
    decreases lvl, 0nat,
{
    if lvl == 0 {
        lemma_cat_one(n, id);
        lemma_sorted_keys(leaf_at(n, id));
    } else {
        let l1 = (lvl - 1) as nat;
        match n[id as int] {
            NodeM::Internal { keys, kids, .. } => {
                lemma_kids_sorted(n, keys, kids, l1, lo, hi, nxt, caps, kids.len() as int);
                assert(kids.take(kids.len() as int) =~= kids);
            },
            _ => {},
        }
    }
}

/// The entries below the first children are sorted and below the separator
/// behind them.
pub proof fn lemma_kids_sorted(
    n: Seq<NodeM>,
    keys: Seq<Seq<u8>>,
    kids: Seq<u32>,
    lvl: nat,
    lo: Bound,
    hi: Bound,
    nxt: u32,
    caps: (nat, nat),
    m: int,
)
    requires
        kids_ok(n, keys, kids, lvl, lo, hi, nxt, caps),
        1 <= m <= kids.len(),
    ensures
        sorted(kids_flat(n, kids.take(m), lvl)),
        within(kids_flat(n, kids.take(m), lvl), lo, kid_hi(keys, hi, m - 1)),
    decreases lvl, m + 1,
{
    let i = m - 1;
    assert(kids.take(m) =~= kids.take(i) + seq![kids[i]]);
    lemma_kids_leaves_append(n, kids.take(i), seq![kids[i]], lvl);
    lemma_kids_one(n, kids[i], lvl);
    lemma_flat_sorted(
        n,
        kids[i],
        lvl,
        kid_lo(keys, lo, i),
        kid_hi(keys, hi, i),
        kid_next(n, kids, lvl, nxt, i),
        caps,
    );
    if m == 1 {
        assert(kids_flat(n, kids.take(0), lvl) =~= Seq::<Entry>::empty()) by {
            assert(kids_leaves(n, kids.take(0), lvl) =~= Seq::<u32>::empty());
        }
        assert(kids_flat(n, kids.take(m), lvl) =~= flat(n, kids[i], lvl));
    } else {
        lemma_kids_sorted(n, keys, kids, lvl, lo, hi, nxt, caps, i);
        assert(strictly_above(lo, keys[i - 1]) && below(hi, keys[i - 1]));
        if i < keys.len() {
            assert(lex_lt(keys[i - 1], keys[i]));
        }
        lemma_sorted_append(
            kids_flat(n, kids.take(i), lvl),
            flat(n, kids[i], lvl),
            lo,
            keys[i - 1],
            kid_hi(keys, hi, i),
        );
    }
}

/// The entries below the last children are at or above the separator in
/// front of them.
pub proof fn lemma_kids_tail(
    n: Seq<NodeM>,
    keys: Seq<Seq<u8>>,
    kids: Seq<u32>,
    lvl: nat,
    lo: Bound,
    hi: Bound,
    nxt: u32,
    caps: (nat, nat),
    m: int,
)
    requires
        kids_ok(n, keys, kids, lvl, lo, hi, nxt, caps),
        0 < m <= kids.len(),
    ensures
        m < kids.len() ==> within(kids_flat(n, kids.skip(m), lvl), Some(keys[m - 1]), hi),
        m == kids.len() ==> kids_flat(n, kids.skip(m), lvl) == Seq::<Entry>::empty(),
    decreases kids.len() - m,
{
    if m == kids.len() {
        assert(kids.skip(m) =~= Seq::<u32>::empty());
        assert(kids_leaves(n, kids.skip(m), lvl) =~= Seq::<u32>::empty());
        assert(kids_flat(n, kids.skip(m), lvl) =~= Seq::<Entry>::empty());
    } else {
        lemma_kids_tail(n, keys, kids, lvl, lo, hi, nxt, caps, m + 1);
        assert(kids.skip(m) =~= seq![kids[m]] + kids.skip(m + 1));
        lemma_kids_leaves_append(n, seq![kids[m]], kids.skip(m + 1), lvl);
        lemma_kids_one(n, kids[m], lvl);
        lemma_flat_sorted(
            n,
            kids[m],
            lvl,
            kid_lo(keys, lo, m),
            kid_hi(keys, hi, m),
            kid_next(n, kids, lvl, nxt, m),
            caps,
        );
        let a = flat(n, kids[m], lvl);
        let b = kids_flat(n, kids.skip(m + 1), lvl);
        let c = kids_flat(n, kids.skip(m), lvl);
        assert(c == a + b);
        assert forall|i: int| 0 <= i < c.len() implies above(
            Some(keys[m - 1]),
            (#[trigger] c[i]).0,
        ) && below(hi, c[i].0) by {
            if i < a.len() {
                assert(c[i] == a[i]);
                assert(above(Some(keys[m - 1]), a[i].0));
                if m < keys.len() {
                    assert(below(Some(keys[m]), a[i].0));
                    assert(below(hi, keys[m]));
                    if hi is Some {
                        lemma_lex_transitive(a[i].0, keys[m], hi->0);
                    }
                }
            } else {
                let e = b[i - a.len()].0;
                assert(c[i] == b[i - a.len()]);
                assert(m + 1 < kids.len());
                assert(above(Some(keys[m]), e));
                assert(lex_lt(keys[m - 1], keys[m]));
                if keys[m] != e {
                    lemma_lex_transitive(keys[m - 1], keys[m], e);
                }
            }
        }
    }
}

/// A key above the first `p` separators and below the others can only be
/// under child `p`: what is under the children before it is less, what is
/// under those behind it is greater.
pub proof fn lemma_descend(
    n: Seq<NodeM>,
    keys: Seq<Seq<u8>>,
    kids: Seq<u32>,
    lvl: nat,
    lo: Bound,
    hi: Bound,
    nxt: u32,
    caps: (nat, nat),
    k: Seq<u8>,
    p: int,
)
    requires
        kids_ok(n, keys, kids, lvl, lo, hi, nxt, caps),
        above(lo, k),
        below(hi, k),
        upper_bound(keys, k, p),
    ensures
        above(kid_lo(keys, lo, p), k),
        below(kid_hi(keys, hi, p), k),
        forall|j: int|
            0 <= j < kids_flat(n, kids.take(p), lvl).len() ==> lex_lt(
                (#[trigger] kids_flat(n, kids.take(p), lvl)[j]).0,
                k,
            ),
        forall|j: int|
            0 <= j < kids_flat(n, kids.skip(p + 1), lvl).len() ==> lex_lt(
                k,
                (#[trigger] kids_flat(n, kids.skip(p + 1), lvl)[j]).0,
            ),
{
    if p > 0 {
        assert(lex_le(keys[p - 1], k));
        lemma_kids_sorted(n, keys, kids, lvl, lo, hi, nxt, caps, p);
        let a = kids_flat(n, kids.take(p), lvl);
        assert forall|j: int| 0 <= j < a.len() implies lex_lt((#[trigger] a[j]).0, k) by {
            assert(below(Some(keys[p - 1]), a[j].0));
            if keys[p - 1] != k {
                lemma_lex_transitive(a[j].0, keys[p - 1], k);
            }
        }
    } else {
        assert(kids_flat(n, kids.take(0), lvl) =~= Seq::<Entry>::empty()) by {
            assert(kids_leaves(n, kids.take(0), lvl) =~= Seq::<u32>::empty());
        }
    }
    lemma_kids_tail(n, keys, kids, lvl, lo, hi, nxt, caps, p + 1);
    if p + 1 < kids.len() {
        assert(lex_lt(k, keys[p]));
        let b = kids_flat(n, kids.skip(p + 1), lvl);
        assert forall|j: int| 0 <= j < b.len() implies lex_lt(k, (#[trigger] b[j]).0) by {
            assert(above(Some(keys[p]), b[j].0));
            if keys[p] != b[j].0 {
                lemma_lex_transitive(k, keys[p], b[j].0);
            }
        }
    }
}

// ── Rearranging children ────────────────────────────────────────────────

/// The separators after children `a..b` were replaced by children parted by
/// `rkeys`.
pub open spec fn put_keys(keys: Seq<Seq<u8>>, a: int, b: int, rkeys: Seq<Seq<u8>>) -> Seq<Seq<u8>> {
    keys.take(a) + rkeys + keys.skip(b - 1)
}

/// The children after `a..b` of them were replaced.
pub open spec fn put_kids(kids: Seq<u32>, a: int, b: int, rk: Seq<u32>) -> Seq<u32> {
    kids.take(a) + rk + kids.skip(b)
}

proof fn lemma_put_keys_sorted(
    keys: Seq<Seq<u8>>,
    lo: Bound,
    hi: Bound,
    a: int,
    b: int,
    rkeys: Seq<Seq<u8>>,
)
    requires
        keys_sorted(keys),
        forall|i: int|
            0 <= i < keys.len() ==> strictly_above(lo, #[trigger] keys[i]) && below(hi, keys[i]),
        0 <= a < b <= keys.len() + 1,
        keys_sorted(rkeys),
        forall|i: int|
            0 <= i < rkeys.len() ==> strictly_above(kid_lo(keys, lo, a), #[trigger] rkeys[i])
                && below(kid_hi(keys, hi, b - 1), rkeys[i]),
    ensures
        keys_sorted(put_keys(keys, a, b, rkeys)),
        forall|i: int|
            0 <= i < put_keys(keys, a, b, rkeys).len() ==> strictly_above(
                lo,
                #[trigger] put_keys(keys, a, b, rkeys)[i],
            ) && below(hi, put_keys(keys, a, b, rkeys)[i]),
{
    let nk = put_keys(keys, a, b, rkeys);
    let r = rkeys.len() as int;
    assert forall|i: int| 0 <= i < nk.len() implies strictly_above(lo, #[trigger] nk[i]) && below(
        hi,
        nk[i],
    ) by {
        if i < a {
            assert(nk[i] == keys[i]);
        } else if i < a + r {
            assert(nk[i] == rkeys[i - a]);
            if a > 0 {
                assert(strictly_above(lo, keys[a - 1]));
                if lo is Some {
                    lemma_lex_transitive(lo->0, keys[a - 1], nk[i]);
                }
            }
            if b - 1 < keys.len() {
                assert(below(hi, keys[b - 1]));
                if hi is Some {
                    lemma_lex_transitive(nk[i], keys[b - 1], hi->0);
                }
            }
        } else {
            assert(nk[i] == keys[i - a - r + b - 1]);
        }
    }
    assert forall|i: int, j: int| 0 <= i < j < nk.len() implies lex_lt(
        #[trigger] nk[i],
        #[trigger] nk[j],
    ) by {
        let x = nk[i];
        let y = nk[j];
        if i < a && j < a {
            assert(x == keys[i] && y == keys[j]);
        } else if i < a && j < a + r {
            assert(x == keys[i] && y == rkeys[j - a]);
            assert(lex_lt(keys[a - 1], y));
            if i < a - 1 {
                assert(lex_lt(keys[i], keys[a - 1]));
                lemma_lex_transitive(x, keys[a - 1], y);
            }
        } else if i < a {
            assert(x == keys[i] && y == keys[j - a - r + b - 1]);
        } else if i < a + r && j < a + r {
            assert(x == rkeys[i - a] && y == rkeys[j - a]);
        } else if i < a + r {
            let t = j - a - r + b - 1;
            assert(x == rkeys[i - a] && y == keys[t]);
            assert(lex_lt(x, keys[b - 1]));
            if b - 1 < t {
                assert(lex_lt(keys[b - 1], keys[t]));
                lemma_lex_transitive(x, keys[b - 1], y);
            }
        } else {
            assert(x == keys[i - a - r + b - 1] && y == keys[j - a - r + b - 1]);
        }
    }
}

/// The trees `rk` of `m` can take the place of children `a..b` of `n`.
pub open spec fn replaceable(
    n: Seq<NodeM>,
    m: Seq<NodeM>,
    keys: Seq<Seq<u8>>,
    kids: Seq<u32>,
    lvl: nat,
    lo: Bound,
    hi: Bound,
    nxt: u32,
    caps: (nat, nat),
    a: int,
    b: int,
    rkeys: Seq<Seq<u8>>,
    rk: Seq<u32>,
) -> bool {
    &&& kids_ok(n, keys, kids, lvl, lo, hi, nxt, caps)
    &&& kids_distinct(n, kids, lvl)
    &&& 0 <= a < b <= kids.len()
    &&& kids_ok(
        m,
        rkeys,
        rk,
        lvl,
        kid_lo(keys, lo, a),
        kid_hi(keys, hi, b - 1),
        kid_next(n, kids, lvl, nxt, b - 1),
        caps,
    )
    &&& kids_distinct(m, rk, lvl)
    &&& first_leaf(m, rk[0], lvl) == first_leaf(n, kids[a], lvl)
    &&& forall|j: int|
        0 <= j < kids.len() && !(a <= j < b) ==> same_below(n, m, #[trigger] kids[j], lvl)
    &&& forall|j: int, x: int|
        0 <= j < kids.len() && !(a <= j < b) && #[trigger] owns(n, kids[j], lvl, x) ==> !kids_own(
            m,
            rk,
            lvl,
            x,
        )
}

#[verifier::rlimit(40)]
proof fn lemma_replace_ok(
    n: Seq<NodeM>,
    m: Seq<NodeM>,
    keys: Seq<Seq<u8>>,
    kids: Seq<u32>,
    lvl: nat,
    lo: Bound,
    hi: Bound,
    nxt: u32,
    caps: (nat, nat),
    a: int,
    b: int,
    rkeys: Seq<Seq<u8>>,
    rk: Seq<u32>,
)
    requires
        replaceable(n, m, keys, kids, lvl, lo, hi, nxt, caps, a, b, rkeys, rk),
    ensures
        kids_ok(
            m,
            put_keys(keys, a, b, rkeys),
            put_kids(kids, a, b, rk),
            lvl,
            lo,
            hi,
            nxt,
            caps,
        ),
        first_leaf(m, put_kids(kids, a, b, rk)[0], lvl) == first_leaf(n, kids[0], lvl),
{
    let nk = put_keys(keys, a, b, rkeys);
    let nc = put_kids(kids, a, b, rk);
    let r = rk.len() as int;
    lemma_put_keys_sorted(keys, lo, hi, a, b, rkeys);
    assert forall|j: int| 0 <= j < kids.len() && !(a <= j < b) implies first_leaf(
        m,
        #[trigger] kids[j],
        lvl,
    ) == first_leaf(n, kids[j], lvl) by {
        lemma_frame(n, m, kids[j], lvl);
    }
    assert forall|j: int| 0 <= j < nc.len() implies tree_ok(
        m,
        #[trigger] nc[j],
        lvl,
        kid_lo(nk, lo, j),
        kid_hi(nk, hi, j),
        kid_next(m, nc, lvl, nxt, j),
        caps,
    ) by {
        if j < a {
            assert(nc[j] == kids[j]);
            assert(kid_lo(nk, lo, j) == kid_lo(keys, lo, j));
            assert(kid_hi(nk, hi, j) == kid_hi(keys, hi, j));
            if j + 1 < a {
                assert(nc[j + 1] == kids[j + 1]);
            } else {
                assert(nc[j + 1] == rk[0]);
            }
            assert(kid_next(m, nc, lvl, nxt, j) == kid_next(n, kids, lvl, nxt, j));
            lemma_frame_ok(
                n,
                m,
                kids[j],
                lvl,
                kid_lo(keys, lo, j),
                kid_hi(keys, hi, j),
                kid_next(n, kids, lvl, nxt, j),
                caps,
            );
        } else if j < a + r {
            let t = j - a;
            assert(nc[j] == rk[t]);
            assert(kid_lo(nk, lo, j) == kid_lo(rkeys, kid_lo(keys, lo, a), t));
            assert(kid_hi(nk, hi, j) == kid_hi(rkeys, kid_hi(keys, hi, b - 1), t));
            if t + 1 < r {
                assert(nc[j + 1] == rk[t + 1]);
            } else if b < kids.len() {
                assert(nc[j + 1] == kids[b]);
            }
            assert(kid_next(m, nc, lvl, nxt, j) == kid_next(
                m,
                rk,
                lvl,
                kid_next(n, kids, lvl, nxt, b - 1),
                t,
            ));
        } else {
            let t = j - a - r + b;
            assert(nc[j] == kids[t]);
            assert(kid_lo(nk, lo, j) == kid_lo(keys, lo, t));
            assert(kid_hi(nk, hi, j) == kid_hi(keys, hi, t));
            if t + 1 < kids.len() {
                assert(nc[j + 1] == kids[t + 1]);
            }
            assert(kid_next(m, nc, lvl, nxt, j) == kid_next(n, kids, lvl, nxt, t));
            lemma_frame_ok(
                n,
                m,
                kids[t],
                lvl,
                kid_lo(keys, lo, t),
                kid_hi(keys, hi, t),
                kid_next(n, kids, lvl, nxt, t),
                caps,
            );
        }
    }
    if a > 0 {
        assert(nc[0] == kids[0]);
    } else {
        assert(nc[0] == rk[0]);
    }
}

#[verifier::rlimit(40)]
proof fn lemma_replace_distinct(
    n: Seq<NodeM>,
    m: Seq<NodeM>,
    keys: Seq<Seq<u8>>,
    kids: Seq<u32>,
    lvl: nat,
    lo: Bound,
    hi: Bound,
    nxt: u32,
    caps: (nat, nat),
    a: int,
    b: int,
    rkeys: Seq<Seq<u8>>,
    rk: Seq<u32>,
)
    requires
        replaceable(n, m, keys, kids, lvl, lo, hi, nxt, caps, a, b, rkeys, rk),
    ensures
        kids_distinct(m, put_kids(kids, a, b, rk), lvl),
        forall|x: int|
            #[trigger] kids_own(m, put_kids(kids, a, b, rk), lvl, x) ==> kids_own(m, rk, lvl, x)
                || exists|j: int|
                0 <= j < kids.len() && !(a <= j < b) && #[trigger] owns(n, kids[j], lvl, x),
{
    let nc = put_kids(kids, a, b, rk);
    let r = rk.len() as int;
    assert forall|j: int| 0 <= j < kids.len() && !(a <= j < b) implies distinct(
        m,
        #[trigger] kids[j],
        lvl,
    ) && (forall|x: int| #[trigger] owns(m, kids[j], lvl, x) == owns(n, kids[j], lvl, x)) by {
        lemma_frame(n, m, kids[j], lvl);
        assert(distinct(n, kids[j], lvl));
    }
    assert forall|i: int| 0 <= i < nc.len() implies distinct(m, #[trigger] nc[i], lvl) by {
        if i < a {
            assert(nc[i] == kids[i]);
        } else if i < a + r {
            assert(nc[i] == rk[i - a]);
        } else {
            assert(nc[i] == kids[i - a - r + b]);
        }
    }
    assert forall|i: int, j: int, x: int|
        #![trigger owns(m, nc[i], lvl, x), owns(m, nc[j], lvl, x)]
        0 <= i < j < nc.len() implies !(owns(m, nc[i], lvl, x) && owns(m, nc[j], lvl, x)) by {
        if owns(m, nc[i], lvl, x) && owns(m, nc[j], lvl, x) {
            if a <= i < a + r {
                assert(nc[i] == rk[i - a]);
                assert(kids_own(m, rk, lvl, x));
                if a <= j < a + r {
                    assert(nc[j] == rk[j - a]);
                    assert(owns(m, rk[i - a], lvl, x) && owns(m, rk[j - a], lvl, x));
                } else {
                    let t = j - a - r + b;
                    assert(nc[j] == kids[t]);
                    assert(owns(n, kids[t], lvl, x));
                }
            } else {
                let s = if i < a {
                    i
                } else {
                    i - a - r + b
                };
                assert(nc[i] == kids[s]);
                assert(owns(n, kids[s], lvl, x));
                if a <= j < a + r {
                    assert(nc[j] == rk[j - a]);
                    assert(kids_own(m, rk, lvl, x));
                } else {
                    let t = if j < a {
                        j
                    } else {
                        j - a - r + b
                    };
                    assert(nc[j] == kids[t]);
                    assert(owns(n, kids[t], lvl, x));
                    assert(s < t);
                }
            }
        }
    }
    assert forall|x: int| #[trigger] kids_own(m, nc, lvl, x) implies kids_own(m, rk, lvl, x)
        || exists|j: int|
        0 <= j < kids.len() && !(a <= j < b) && #[trigger] owns(n, kids[j], lvl, x) by {
        let i = choose|i: int| 0 <= i < nc.len() && owns(m, #[trigger] nc[i], lvl, x);
        if a <= i < a + r {
            assert(nc[i] == rk[i - a]);
        } else {
            let s = if i < a {
                i
            } else {
                i - a - r + b
            };
            assert(nc[i] == kids[s]);
            assert(owns(n, kids[s], lvl, x));
        }
    }
}

proof fn lemma_replace_flat(
    n: Seq<NodeM>,
    m: Seq<NodeM>,
    keys: Seq<Seq<u8>>,
    kids: Seq<u32>,
    lvl: nat,
    lo: Bound,
    hi: Bound,
    nxt: u32,
    caps: (nat, nat),
    a: int,
    b: int,
    rkeys: Seq<Seq<u8>>,
    rk: Seq<u32>,
)
    requires
        replaceable(n, m, keys, kids, lvl, lo, hi, nxt, caps, a, b, rkeys, rk),
    ensures
        kids_flat(m, put_kids(kids, a, b, rk), lvl) == kids_flat(n, kids.take(a), lvl) + kids_flat(
            m,
            rk,
            lvl,
        ) + kids_flat(n, kids.skip(b), lvl),
{
    lemma_kids_leaves_append(m, kids.take(a) + rk, kids.skip(b), lvl);
    lemma_kids_leaves_append(m, kids.take(a), rk, lvl);
    assert forall|i: int| 0 <= i < kids.take(a).len() implies same_below(
        n,
        m,
        #[trigger] kids.take(a)[i],
        lvl,
    ) by {
        assert(kids.take(a)[i] == kids[i]);
    }
    lemma_kids_frame(n, m, kids.take(a), lvl);
    assert forall|i: int| 0 <= i < kids.skip(b).len() implies same_below(
        n,
        m,
        #[trigger] kids.skip(b)[i],
        lvl,
    ) by {
        assert(kids.skip(b)[i] == kids[b + i]);
    }
    lemma_kids_frame(n, m, kids.skip(b), lvl);
}

/// Replacing some neighbouring children by search trees for the same range of
/// keys, while the other children keep their pages, gives search trees again.
pub proof fn lemma_kids_replace(
    n: Seq<NodeM>,
    m: Seq<NodeM>,
    keys: Seq<Seq<u8>>,
    kids: Seq<u32>,
    lvl: nat,
    lo: Bound,
    hi: Bound,
    nxt: u32,
    caps: (nat, nat),
    a: int,
    b: int,
    rkeys: Seq<Seq<u8>>,
    rk: Seq<u32>,
)
    requires
        replaceable(n, m, keys, kids, lvl, lo, hi, nxt, caps, a, b, rkeys, rk),
    ensures
        kids_ok(
            m,
            put_keys(keys, a, b, rkeys),
            put_kids(kids, a, b, rk),
            lvl,
            lo,
            hi,
            nxt,
            caps,
        ),
        kids_distinct(m, put_kids(kids, a, b, rk), lvl),
        kids_flat(m, put_kids(kids, a, b, rk), lvl) == kids_flat(n, kids.take(a), lvl) + kids_flat(
            m,
            rk,
            lvl,
        ) + kids_flat(n, kids.skip(b), lvl),
        first_leaf(m, put_kids(kids, a, b, rk)[0], lvl) == first_leaf(n, kids[0], lvl),
        forall|x: int|
            #[trigger] kids_own(m, put_kids(kids, a, b, rk), lvl, x) ==> kids_own(m, rk, lvl, x)
                || exists|j: int|
                0 <= j < kids.len() && !(a <= j < b) && #[trigger] owns(n, kids[j], lvl, x),
{
    lemma_replace_ok(n, m, keys, kids, lvl, lo, hi, nxt, caps, a, b, rkeys, rk);
    lemma_replace_distinct(n, m, keys, kids, lvl, lo, hi, nxt, caps, a, b, rkeys, rk);
    lemma_replace_flat(n, m, keys, kids, lvl, lo, hi, nxt, caps, a, b, rkeys, rk);
}

/// Children parted at a separator are search trees on both sides of it.
pub proof fn lemma_kids_cut(
    n: Seq<NodeM>,
    keys: Seq<Seq<u8>>,
    kids: Seq<u32>,
    lvl: nat,
    lo: Bound,
    hi: Bound,
    nxt: u32,
    caps: (nat, nat),
    p: int,
)
    requires
        kids_ok(n, keys, kids, lvl, lo, hi, nxt, caps),
        kids_distinct(n, kids, lvl),
        0 <= p < keys.len(),
    ensures
        strictly_above(lo, keys[p]),
        below(hi, keys[p]),
        kids_ok(
            n,
            keys.take(p),
            kids.take(p + 1),
            lvl,
            lo,
            Some(keys[p]),
            first_leaf(n, kids[p + 1], lvl),
            caps,
        ),
        kids_ok(n, keys.skip(p + 1), kids.skip(p + 1), lvl, Some(keys[p]), hi, nxt, caps),
        kids_distinct(n, kids.take(p + 1), lvl),
        kids_distinct(n, kids.skip(p + 1), lvl),
        forall|x: int|
            !(#[trigger] kids_own(n, kids.take(p + 1), lvl, x) && kids_own(
                n,
                kids.skip(p + 1),
                lvl,
                x,
            )),
        forall|x: int|
            #[trigger] kids_own(n, kids, lvl, x) == (kids_own(n, kids.take(p + 1), lvl, x)
                || kids_own(n, kids.skip(p + 1), lvl, x)),
        kids_flat(n, kids, lvl) == kids_flat(n, kids.take(p + 1), lvl) + kids_flat(
            n,
            kids.skip(p + 1),
            lvl,
        ),
{
    let lk = keys.take(p);
    let lc = kids.take(p + 1);
    let rkk = keys.skip(p + 1);
    let rc = kids.skip(p + 1);
    let s = keys[p];
    assert(lc + rc =~= kids);
    lemma_kids_leaves_append(n, lc, rc, lvl);
    assert forall|i: int| 0 <= i < lk.len() implies strictly_above(lo, #[trigger] lk[i]) && below(
        Some(s),
        lk[i],
    ) by {
        assert(lk[i] == keys[i]);
    }
    assert forall|i: int| 0 <= i < rkk.len() implies strictly_above(
        Some(s),
        #[trigger] rkk[i],
    ) && below(hi, rkk[i]) by {
        assert(rkk[i] == keys[p + 1 + i]);
    }
    assert(keys_sorted(lk)) by {
        assert forall|i: int, j: int| 0 <= i < j < lk.len() implies lex_lt(
            #[trigger] lk[i],
            #[trigger] lk[j],
        ) by {
            assert(lex_lt(keys[i], keys[j]));
        }
    }
    assert(keys_sorted(rkk)) by {
        assert forall|i: int, j: int| 0 <= i < j < rkk.len() implies lex_lt(
            #[trigger] rkk[i],
            #[trigger] rkk[j],
        ) by {
            assert(lex_lt(keys[p + 1 + i], keys[p + 1 + j]));
        }
    }
    let mid_next = first_leaf(n, kids[p + 1], lvl);
    assert forall|i: int| 0 <= i < lc.len() implies tree_ok(
        n,
        #[trigger] lc[i],
        lvl,
        kid_lo(lk, lo, i),
        kid_hi(lk, Some(s), i),
        kid_next(n, lc, lvl, mid_next, i),
        caps,
    ) by {
        assert(lc[i] == kids[i]);
        assert(kid_lo(lk, lo, i) == kid_lo(keys, lo, i));
        assert(kid_hi(lk, Some(s), i) == kid_hi(keys, hi, i));
        assert(kid_next(n, lc, lvl, mid_next, i) == kid_next(n, kids, lvl, nxt, i));
    }
    assert forall|i: int| 0 <= i < rc.len() implies tree_ok(
        n,
        #[trigger] rc[i],
        lvl,
        kid_lo(rkk, Some(s), i),
        kid_hi(rkk, hi, i),
        kid_next(n, rc, lvl, nxt, i),
        caps,
    ) by {
        let t = p + 1 + i;
        assert(rc[i] == kids[t]);
        assert(kid_lo(rkk, Some(s), i) == kid_lo(keys, lo, t));
        assert(kid_hi(rkk, hi, i) == kid_hi(keys, hi, t));
        assert(kid_next(n, rc, lvl, nxt, i) == kid_next(n, kids, lvl, nxt, t));
    }
    assert(kids_distinct(n, lc, lvl)) by {
        assert forall|i: int| 0 <= i < lc.len() implies distinct(n, #[trigger] lc[i], lvl) by {
            assert(lc[i] == kids[i]);
        }
        assert forall|i: int, j: int, x: int|
            #![trigger owns(n, lc[i], lvl, x), owns(n, lc[j], lvl, x)]
            0 <= i < j < lc.len() implies !(owns(n, lc[i], lvl, x) && owns(n, lc[j], lvl, x)) by {
            assert(lc[i] == kids[i] && lc[j] == kids[j]);
        }
    }
    assert(kids_distinct(n, rc, lvl)) by {
        assert forall|i: int| 0 <= i < rc.len() implies distinct(n, #[trigger] rc[i], lvl) by {
            assert(rc[i] == kids[p + 1 + i]);
        }
        assert forall|i: int, j: int, x: int|
            #![trigger owns(n, rc[i], lvl, x), owns(n, rc[j], lvl, x)]
            0 <= i < j < rc.len() implies !(owns(n, rc[i], lvl, x) && owns(n, rc[j], lvl, x)) by {
            assert(rc[i] == kids[p + 1 + i] && rc[j] == kids[p + 1 + j]);
        }
    }
    lemma_kids_own_append(n, lc, rc, lvl);
    assert forall|x: int|
        !(#[trigger] kids_own(n, lc, lvl, x) && kids_own(n, rc, lvl, x)) by {
        if kids_own(n, lc, lvl, x) && kids_own(n, rc, lvl, x) {
            let i = choose|i: int| 0 <= i < lc.len() && owns(n, #[trigger] lc[i], lvl, x);
            let j = choose|j: int| 0 <= j < rc.len() && owns(n, #[trigger] rc[j], lvl, x);
            assert(lc[i] == kids[i] && rc[j] == kids[p + 1 + j]);
            assert(owns(n, kids[i], lvl, x) && owns(n, kids[p + 1 + j], lvl, x));
        }
    }
}

pub proof fn lemma_kids_own_append(n: Seq<NodeM>, a: Seq<u32>, b: Seq<u32>, lvl: nat)
    ensures
        forall|x: int|
            #[trigger] kids_own(n, a + b, lvl, x) == (kids_own(n, a, lvl, x) || kids_own(
                n,
                b,
                lvl,
                x,
            )),
{
    let c = a + b;
    assert forall|x: int|
        #[trigger] kids_own(n, c, lvl, x) == (kids_own(n, a, lvl, x) || kids_own(n, b, lvl, x)) by {
        if kids_own(n, c, lvl, x) {
            let i = choose|i: int| 0 <= i < c.len() && owns(n, #[trigger] c[i], lvl, x);
            if i < a.len() {
                assert(owns(n, a[i], lvl, x));
            } else {
                assert(owns(n, b[i - a.len()], lvl, x));
            }
        }
        if kids_own(n, a, lvl, x) {
            let i = choose|i: int| 0 <= i < a.len() && owns(n, #[trigger] a[i], lvl, x);
            assert(owns(n, c[i], lvl, x));
        }
        if kids_own(n, b, lvl, x) {
            let i = choose|i: int| 0 <= i < b.len() && owns(n, #[trigger] b[i], lvl, x);
            assert(owns(n, c[a.len() + i], lvl, x));
        }
    }
}

/// Children on both sides of a separator are search trees together.
pub proof fn lemma_kids_join(
    n: Seq<NodeM>,
    lk: Seq<Seq<u8>>,
    lc: Seq<u32>,
    s: Seq<u8>,
    rkk: Seq<Seq<u8>>,
    rc: Seq<u32>,
    lvl: nat,
    lo: Bound,
    hi: Bound,
    nxt: u32,
    caps: (nat, nat),
)
    requires
        rc.len() > 0,
        kids_ok(n, lk, lc, lvl, lo, Some(s), first_leaf(n, rc[0], lvl), caps),
        kids_ok(n, rkk, rc, lvl, Some(s), hi, nxt, caps),
        strictly_above(lo, s),
        below(hi, s),
        kids_distinct(n, lc, lvl),
        kids_distinct(n, rc, lvl),
        forall|x: int| !(#[trigger] kids_own(n, lc, lvl, x) && kids_own(n, rc, lvl, x)),
    ensures
        kids_ok(n, lk + seq![s] + rkk, lc + rc, lvl, lo, hi, nxt, caps),
        kids_distinct(n, lc + rc, lvl),
        forall|x: int|
            #[trigger] kids_own(n, lc + rc, lvl, x) == (kids_own(n, lc, lvl, x) || kids_own(
                n,
                rc,
                lvl,
                x,
            )),
        kids_flat(n, lc + rc, lvl) == kids_flat(n, lc, lvl) + kids_flat(n, rc, lvl),
{
    let k = lk + seq![s] + rkk;
    let c = lc + rc;
    let p = lk.len() as int;
    assert(k[p] == s);
    lemma_kids_leaves_append(n, lc, rc, lvl);
    lemma_kids_own_append(n, lc, rc, lvl);
    assert forall|i: int| 0 <= i < k.len() implies strictly_above(lo, #[trigger] k[i]) && below(
        hi,
        k[i],
    ) by {
        if i < p {
            assert(k[i] == lk[i]);
            if hi is Some {
                lemma_lex_transitive(k[i], s, hi->0);
            }
        } else if i > p {
            assert(k[i] == rkk[i - p - 1]);
            if lo is Some {
                lemma_lex_transitive(lo->0, s, k[i]);
            }
        }
    }
    assert forall|i: int, j: int| 0 <= i < j < k.len() implies lex_lt(
        #[trigger] k[i],
        #[trigger] k[j],
    ) by {
        if j < p {
            assert(k[i] == lk[i] && k[j] == lk[j]);
        } else if i > p {
            assert(k[i] == rkk[i - p - 1] && k[j] == rkk[j - p - 1]);
        } else {
            if i < p {
                assert(k[i] == lk[i]);
                assert(lex_lt(k[i], s));
            }
            if j > p {
                assert(k[j] == rkk[j - p - 1]);
                assert(lex_lt(s, k[j]));
            }
            if i < p && j > p {
                lemma_lex_transitive(k[i], s, k[j]);
            }
        }
    }
    assert forall|i: int| 0 <= i < c.len() implies tree_ok(
        n,
        #[trigger] c[i],
        lvl,
        kid_lo(k, lo, i),
        kid_hi(k, hi, i),
        kid_next(n, c, lvl, nxt, i),
        caps,
    ) by {
        if i <= p {
            assert(c[i] == lc[i]);
            assert(kid_lo(k, lo, i) == kid_lo(lk, lo, i));
            assert(kid_hi(k, hi, i) == kid_hi(lk, Some(s), i));
            assert(kid_next(n, c, lvl, nxt, i) == kid_next(
                n,
                lc,
                lvl,
                first_leaf(n, rc[0], lvl),
                i,
            ));
        } else {
            let t = i - p - 1;
            assert(c[i] == rc[t]);
            assert(kid_lo(k, lo, i) == kid_lo(rkk, Some(s), t));
            assert(kid_hi(k, hi, i) == kid_hi(rkk, hi, t));
            assert(kid_next(n, c, lvl, nxt, i) == kid_next(n, rc, lvl, nxt, t));
        }
    }
    assert(kids_distinct(n, c, lvl)) by {
        assert forall|i: int| 0 <= i < c.len() implies distinct(n, #[trigger] c[i], lvl) by {
            if i <= p {
                assert(c[i] == lc[i]);
            } else {
                assert(c[i] == rc[i - p - 1]);
            }
        }
        assert forall|i: int, j: int, x: int|
            #![trigger owns(n, c[i], lvl, x), owns(n, c[j], lvl, x)]
            0 <= i < j < c.len() implies !(owns(n, c[i], lvl, x) && owns(n, c[j], lvl, x)) by {
            if i <= p && j <= p {
                assert(c[i] == lc[i] && c[j] == lc[j]);
            } else if i > p {
                assert(c[i] == rc[i - p - 1] && c[j] == rc[j - p - 1]);
            } else {
                assert(c[i] == lc[i] && c[j] == rc[j - p - 1]);
                if owns(n, c[i], lvl, x) && owns(n, c[j], lvl, x) {
                    assert(kids_own(n, lc, lvl, x));
                    assert(kids_own(n, rc, lvl, x));
                }
            }
        }
    }
}

/// One child.
pub open spec fn one_kid(id: u32) -> Seq<u32> {
    seq![id]
}

/// Two children.
pub open spec fn two_kids(a: u32, b: u32) -> Seq<u32> {
    seq![a, b]
}

/// A search tree alone, as a list of children.
pub proof fn lemma_single(
    n: Seq<NodeM>,
    id: u32,
    lvl: nat,
    lo: Bound,
    hi: Bound,
    nxt: u32,
    caps: (nat, nat),
)
    requires
        tree_ok(n, id, lvl, lo, hi, nxt, caps),
        distinct(n, id, lvl),
    ensures
        kids_ok(n, Seq::empty(), one_kid(id), lvl, lo, hi, nxt, caps),
        kids_distinct(n, one_kid(id), lvl),
        kids_flat(n, one_kid(id), lvl) == flat(n, id, lvl),
        forall|x: int| #[trigger] kids_own(n, one_kid(id), lvl, x) == owns(n, id, lvl, x),
{
    lemma_kids_one(n, id, lvl);
    assert forall|x: int| #[trigger] kids_own(n, one_kid(id), lvl, x) == owns(n, id, lvl, x) by {
        if owns(n, id, lvl, x) {
            assert(owns(n, one_kid(id)[0], lvl, x));
        }
    }
}

/// Two neighbouring search trees, as a list of children.
pub proof fn lemma_pair(
    n: Seq<NodeM>,
    a: u32,
    s: Seq<u8>,
    b: u32,
    lvl: nat,
    lo: Bound,
    hi: Bound,
    nxt: u32,
    caps: (nat, nat),
)
    requires
        tree_ok(n, a, lvl, lo, Some(s), first_leaf(n, b, lvl), caps),
        tree_ok(n, b, lvl, Some(s), hi, nxt, caps),
        strictly_above(lo, s),
        below(hi, s),
        distinct(n, a, lvl),
        distinct(n, b, lvl),
        forall|x: int| !(#[trigger] owns(n, a, lvl, x) && owns(n, b, lvl, x)),
    ensures
        kids_ok(n, seq![s], two_kids(a, b), lvl, lo, hi, nxt, caps),
        kids_distinct(n, two_kids(a, b), lvl),
        kids_flat(n, two_kids(a, b), lvl) == flat(n, a, lvl) + flat(n, b, lvl),
        forall|x: int|
            #[trigger] kids_own(n, two_kids(a, b), lvl, x) == (owns(n, a, lvl, x) || owns(
                n,
                b,
                lvl,
                x,
            )),
{
    lemma_single(n, a, lvl, lo, Some(s), first_leaf(n, b, lvl), caps);
    lemma_single(n, b, lvl, Some(s), hi, nxt, caps);
    assert forall|x: int|
        !(#[trigger] kids_own(n, one_kid(a), lvl, x) && kids_own(n, one_kid(b), lvl, x)) by {
        assert(!(owns(n, a, lvl, x) && owns(n, b, lvl, x)));
    }
    lemma_kids_join(
        n,
        Seq::empty(),
        one_kid(a),
        s,
        Seq::empty(),
        one_kid(b),
        lvl,
        lo,
        hi,
        nxt,
        caps,
    );
    assert(one_kid(a) + one_kid(b) =~= two_kids(a, b));
    assert(Seq::<Seq<u8>>::empty() + seq![s] + Seq::<Seq<u8>>::empty() =~= seq![s]);
}

} // verus!
