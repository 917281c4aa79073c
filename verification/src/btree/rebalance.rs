//! Repairing underfull nodes: redistribution between neighbours and merges.

use vstd::prelude::*;

use crate::btree::change::{
    base_ok, changed, lemma_cut_nodes, lemma_finish, lemma_internal_ok, lemma_kid_next_ok,
    lemma_kids_keep, lemma_leaf_ok, lemma_lift_to, lemma_lifted_basic, lemma_open_node,
    lemma_sub_root, lifted, next_ok, outside_kept, sub_ok,
};
use crate::btree::delete::{lemma_child_root, lemma_next_outside, rearranged, Touched};
use crate::btree::fill::{
    evened, least, lemma_merged_repaired, lemma_neighbours_repaired, lemma_none_repaired, mended,
    merged, node_size, repaired,
};
use crate::btree::entries::lemma_cut_sorted;
use crate::btree::key::Key;
use crate::btree::links::{
    back_at, kept_tidy, lemma_merge_links, lemma_recycled_same, lemma_recycled_then, linked_back,
    recycled, same_page, tended,
};
use crate::btree::node::{
    internal_cap, internal_min_keys, leaf_cap, leaf_min_entries, lemma_cap_bounds, Entry,
    InternalEntry, InternalNode, LeafEntry, LeafNode,
};
use crate::btree::ops::{lemma_free_same, rewritten};
use crate::btree::tree::{
    below, first_leaf, flat, kid_hi, kid_lo, kid_next, kids_distinct, kids_flat, kids_ok, kids_own,
    lemma_kids_join, lemma_kids_leaves_append, lemma_kids_one, lemma_pair, lemma_single,
    lemma_sorted_append, next_at, nodes_of, one_kid, owns, put_keys, put_kids, sorted, strictly_above,
    two_kids, within, Bound, NodeM,
};
use crate::btree::BTree;
use crate::error::{GrumpyError, Result};
use crate::page::manager::PageManager;
use crate::text::owned;

verus! {

// ── Two neighbouring children ───────────────────────────────────────────

/// The entries below a node around those of two neighbouring children.
proof fn lemma_pair_flat(n: Seq<NodeM>, kids: Seq<u32>, lvl: nat, a: int)
    requires
        0 <= a,
        a + 1 < kids.len(),
    ensures
        kids.subrange(a, a + 2) == two_kids(kids[a], kids[a + 1]),
        kids_flat(n, two_kids(kids[a], kids[a + 1]), lvl) == flat(n, kids[a], lvl) + flat(
            n,
            kids[a + 1],
            lvl,
        ),
        kids_flat(n, kids, lvl) == kids_flat(n, kids.take(a), lvl) + (flat(n, kids[a], lvl) + flat(
            n,
            kids[a + 1],
            lvl,
        )) + kids_flat(n, kids.skip(a + 2), lvl),
{
    let l = kids[a];
    let r = kids[a + 1];
    let x = one_kid(l);
    let y = one_kid(r);
    assert(kids.subrange(a, a + 2) =~= two_kids(l, r));
    assert(two_kids(l, r) =~= x + y);
    lemma_kids_leaves_append(n, x, y, lvl);
    lemma_kids_one(n, l, lvl);
    lemma_kids_one(n, r, lvl);
    assert(kids =~= kids.take(a) + two_kids(l, r) + kids.skip(a + 2));
    lemma_kids_leaves_append(n, kids.take(a) + two_kids(l, r), kids.skip(a + 2), lvl);
    lemma_kids_leaves_append(n, kids.take(a), two_kids(l, r), lvl);
}

/// The pages of two children.
proof fn lemma_two_own(n: Seq<NodeM>, l: u32, r: u32, lvl: nat)
    ensures
        forall|x: int|
            #[trigger] kids_own(n, two_kids(l, r), lvl, x) == (owns(n, l, lvl, x) || owns(
                n,
                r,
                lvl,
                x,
            )),
{
    assert forall|x: int|
        #[trigger] kids_own(n, two_kids(l, r), lvl, x) == (owns(n, l, lvl, x) || owns(
            n,
            r,
            lvl,
            x,
        )) by {
        if owns(n, l, lvl, x) {
            assert(owns(n, two_kids(l, r)[0], lvl, x));
        }
        if owns(n, r, lvl, x) {
            assert(owns(n, two_kids(l, r)[1], lvl, x));
        }
    }
}

/// What is known of two neighbouring leaves of a node.
pub proof fn lemma_leaves_open<K: Key>(
    pm: PageManager,
    cfg: K::Config,
    id: u32,
    lo: Bound,
    hi: Bound,
    nxt: u32,
    caps: (nat, nat),
    keys: Seq<Seq<u8>>,
    kids: Seq<u32>,
    a: int,
)
    requires
        sub_ok::<K>(pm, cfg, id, 1, lo, hi, nxt, caps),
        nodes_of::<K>(pm, cfg)[id as int] == (NodeM::Internal { pid: id, keys, kids }),
        0 <= a,
        a + 1 < kids.len(),
    ensures
        ({
            let n = nodes_of::<K>(pm, cfg);
            let l = kids[a];
            let r = kids[a + 1];
            let es = flat(n, l, 0) + flat(n, r, 0);
            &&& 2 <= l < pm.count()
            &&& 2 <= r < pm.count()
            &&& l != r
            &&& id != l
            &&& id != r
            &&& !pm.is_free(l as int)
            &&& !pm.is_free(r as int)
            &&& sorted(es)
            &&& within(es, kid_lo(keys, lo, a), kid_hi(keys, hi, a + 1))
            &&& keys.len() == kids.len() - 1
            &&& n[l as int] == (NodeM::Leaf { pid: l, next: r, entries: flat(n, l, 0) })
            &&& n[r as int] == (NodeM::Leaf {
                pid: r,
                next: kid_next(n, kids, 0, nxt, a + 1),
                entries: flat(n, r, 0),
            })
        }),
{
    let n = nodes_of::<K>(pm, cfg);
    let l = kids[a];
    let r = kids[a + 1];
    lemma_open_node::<K>(pm, cfg, id, 0, lo, hi, nxt, caps, keys, kids);
    lemma_child_root::<K>(pm, cfg, id, 0, lo, hi, nxt, caps, keys, kids, a);
    lemma_child_root::<K>(pm, cfg, id, 0, lo, hi, nxt, caps, keys, kids, a + 1);
    assert(owns(n, kids[a], 0, l as int));
    assert(owns(n, kids[a + 1], 0, r as int));
    assert(kids_own(n, kids, 0, l as int));
    assert(kids_own(n, kids, 0, r as int));
    assert(!(owns(n, kids[a], 0, l as int) && owns(n, kids[a + 1], 0, l as int)));
    assert(kid_next(n, kids, 0, nxt, a) == r);
    assert(strictly_above(lo, keys[a]) && below(hi, keys[a]));
    assert(strictly_above(kid_lo(keys, lo, a), keys[a])) by {
        if a > 0 {
            assert(crate::bytes::lex_lt(keys[a - 1], keys[a]));
        }
    }
    assert(below(kid_hi(keys, hi, a + 1), keys[a])) by {
        if a + 1 < keys.len() {
            assert(crate::bytes::lex_lt(keys[a], keys[a + 1]));
        }
    }
    lemma_sorted_append(
        flat(n, l, 0),
        flat(n, r, 0),
        kid_lo(keys, lo, a),
        keys[a],
        kid_hi(keys, hi, a + 1),
    );
}

/// Entries moved between two neighbouring leaves.
#[verifier::rlimit(40)]
proof fn lemma_leaves_moved<K: Key>(
    pm0: PageManager,
    pm1: PageManager,
    cfg: K::Config,
    id: u32,
    lo: Bound,
    hi: Bound,
    nxt: u32,
    caps: (nat, nat),
    keys: Seq<Seq<u8>>,
    kids: Seq<u32>,
    a: int,
    m: int,
)
    requires
        sub_ok::<K>(pm0, cfg, id, 1, lo, hi, nxt, caps),
        nodes_of::<K>(pm0, cfg)[id as int] == (NodeM::Internal { pid: id, keys, kids }),
        0 <= a,
        a + 1 < kids.len(),
        base_ok(pm1),
        pm1.count() == pm0.count(),
        forall|x: int| #[trigger] pm1.is_free(x) == pm0.is_free(x),
        ({
            let n0 = nodes_of::<K>(pm0, cfg);
            let es = flat(n0, kids[a], 0) + flat(n0, kids[a + 1], 0);
            &&& 0 < m < es.len()
            &&& m <= caps.0
            &&& es.len() - m <= caps.0
            &&& nodes_of::<K>(pm1, cfg) == n0.update(
                kids[a] as int,
                NodeM::Leaf { pid: kids[a], next: kids[a + 1], entries: es.take(m) },
            ).update(
                kids[a + 1] as int,
                NodeM::Leaf {
                    pid: kids[a + 1],
                    next: kid_next(n0, kids, 0, nxt, a + 1),
                    entries: es.skip(m),
                },
            )
        }),
    ensures
        ({
            let n0 = nodes_of::<K>(pm0, cfg);
            let es = flat(n0, kids[a], 0) + flat(n0, kids[a + 1], 0);
            lifted::<K>(
                pm0,
                pm1,
                cfg,
                id,
                0,
                lo,
                hi,
                nxt,
                caps,
                keys.update(a, es[m].0),
                kids,
                flat(n0, id, 1),
            )
        }),
{
    let n0 = nodes_of::<K>(pm0, cfg);
    let n1 = nodes_of::<K>(pm1, cfg);
    let l = kids[a];
    let r = kids[a + 1];
    let es = flat(n0, l, 0) + flat(n0, r, 0);
    let s = es[m].0;
    let clo = kid_lo(keys, lo, a);
    let chi = kid_hi(keys, hi, a + 1);
    let cn = kid_next(n0, kids, 0, nxt, a + 1);
    lemma_leaves_open::<K>(pm0, cfg, id, lo, hi, nxt, caps, keys, kids, a);
    lemma_cut_sorted(es, m, clo, chi);
    lemma_leaf_ok(n1, l, clo, Some(s), r, caps, es.take(m));
    lemma_leaf_ok(n1, r, Some(s), chi, cn, caps, es.skip(m));
    lemma_pair(n1, l, s, r, 0, clo, chi, cn, caps);
    lemma_two_own(n0, l, r, 0);
    lemma_two_own(n1, l, r, 0);
    lemma_pair_flat(n0, kids, 0, a);
    lemma_sub_root::<K>(pm0, cfg, id, 1, lo, hi, nxt, caps);
    assert(changed::<K>(
        pm0,
        pm1,
        cfg,
        0,
        kids.subrange(a, a + 2),
        clo,
        chi,
        cn,
        caps,
        seq![s],
        two_kids(l, r),
        es,
    )) by {
        reveal(changed);
    }
    lemma_lift_to::<K>(
        pm0,
        pm1,
        cfg,
        id,
        0,
        lo,
        hi,
        nxt,
        caps,
        keys,
        kids,
        a,
        a + 2,
        seq![s],
        two_kids(l, r),
        es,
    );
    assert(put_keys(keys, a, a + 2, seq![s]) =~= keys.update(a, s));
    assert(put_kids(kids, a, a + 2, two_kids(l, r)) =~= kids);
    lemma_open_node::<K>(pm0, cfg, id, 0, lo, hi, nxt, caps, keys, kids);
}

/// Two neighbouring leaves merged into the left one.
#[verifier::rlimit(40)]
proof fn lemma_leaves_merged<K: Key>(
    pm0: PageManager,
    pm1: PageManager,
    cfg: K::Config,
    id: u32,
    lo: Bound,
    hi: Bound,
    nxt: u32,
    caps: (nat, nat),
    keys: Seq<Seq<u8>>,
    kids: Seq<u32>,
    a: int,
)
    requires
        sub_ok::<K>(pm0, cfg, id, 1, lo, hi, nxt, caps),
        nodes_of::<K>(pm0, cfg)[id as int] == (NodeM::Internal { pid: id, keys, kids }),
        0 <= a,
        a + 1 < kids.len(),
        base_ok(pm1),
        pm1.count() == pm0.count(),
        forall|x: int| #[trigger] pm1.is_free(x) ==> pm0.is_free(x) || x == kids[a + 1],
        forall|x: int|
            2 <= x < pm0.count() && x != kids[a] && x != kids[a + 1] ==> #[trigger] nodes_of::<K>(
                pm1,
                cfg,
            )[x] == nodes_of::<K>(pm0, cfg)[x],
        ({
            let n0 = nodes_of::<K>(pm0, cfg);
            let es = flat(n0, kids[a], 0) + flat(n0, kids[a + 1], 0);
            &&& es.len() <= caps.0
            &&& nodes_of::<K>(pm1, cfg)[kids[a] as int] == (NodeM::Leaf {
                pid: kids[a],
                next: kid_next(n0, kids, 0, nxt, a + 1),
                entries: es,
            })
        }),
    ensures
        lifted::<K>(
            pm0,
            pm1,
            cfg,
            id,
            0,
            lo,
            hi,
            nxt,
            caps,
            keys.remove(a),
            kids.remove(a + 1),
            flat(nodes_of::<K>(pm0, cfg), id, 1),
        ),
{
    let n0 = nodes_of::<K>(pm0, cfg);
    let n1 = nodes_of::<K>(pm1, cfg);
    let l = kids[a];
    let r = kids[a + 1];
    let es = flat(n0, l, 0) + flat(n0, r, 0);
    let clo = kid_lo(keys, lo, a);
    let chi = kid_hi(keys, hi, a + 1);
    let cn = kid_next(n0, kids, 0, nxt, a + 1);
    lemma_leaves_open::<K>(pm0, cfg, id, lo, hi, nxt, caps, keys, kids, a);
    lemma_leaf_ok(n1, l, clo, chi, cn, caps, es);
    lemma_single(n1, l, 0, clo, chi, cn, caps);
    lemma_two_own(n0, l, r, 0);
    lemma_pair_flat(n0, kids, 0, a);
    lemma_sub_root::<K>(pm0, cfg, id, 1, lo, hi, nxt, caps);
    assert(changed::<K>(
        pm0,
        pm1,
        cfg,
        0,
        kids.subrange(a, a + 2),
        clo,
        chi,
        cn,
        caps,
        Seq::empty(),
        one_kid(l),
        es,
    )) by {
        reveal(changed);
    }
    lemma_lift_to::<K>(
        pm0,
        pm1,
        cfg,
        id,
        0,
        lo,
        hi,
        nxt,
        caps,
        keys,
        kids,
        a,
        a + 2,
        Seq::empty(),
        one_kid(l),
        es,
    );
    assert(put_keys(keys, a, a + 2, Seq::empty()) =~= keys.remove(a));
    assert(put_kids(kids, a, a + 2, one_kid(l)) =~= kids.remove(a + 1));
    lemma_open_node::<K>(pm0, cfg, id, 0, lo, hi, nxt, caps, keys, kids);
}

/// Search trees of pages of their own, as one fact.
#[verifier::opaque]
pub open spec fn kid_trees(
    n: Seq<NodeM>,
    keys: Seq<Seq<u8>>,
    kids: Seq<u32>,
    lvl: nat,
    lo: Bound,
    hi: Bound,
    nxt: u32,
    caps: (nat, nat),
) -> bool {
    &&& kids_ok(n, keys, kids, lvl, lo, hi, nxt, caps)
    &&& kids_distinct(n, kids, lvl)
}

/// The parts of a change put together.
proof fn lemma_pack<K: Key>(
    pm0: PageManager,
    pm1: PageManager,
    cfg: K::Config,
    lvl: nat,
    ok: Seq<u32>,
    lo: Bound,
    hi: Bound,
    nxt: u32,
    caps: (nat, nat),
    rkeys: Seq<Seq<u8>>,
    rk: Seq<u32>,
    es: Seq<Entry>,
)
    requires
        outside_kept::<K>(pm0, pm1, cfg, lvl, ok),
        kid_trees(nodes_of::<K>(pm1, cfg), rkeys, rk, lvl, lo, hi, nxt, caps),
        first_leaf(nodes_of::<K>(pm1, cfg), rk[0], lvl) == first_leaf(
            nodes_of::<K>(pm0, cfg),
            ok[0],
            lvl,
        ),
        forall|x: int|
            #[trigger] kids_own(nodes_of::<K>(pm1, cfg), rk, lvl, x) ==> !pm1.is_free(x) && (
            kids_own(nodes_of::<K>(pm0, cfg), ok, lvl, x) || pm0.is_free(x) || x >= pm0.count()),
        kids_flat(nodes_of::<K>(pm1, cfg), rk, lvl) == es,
    ensures
        changed::<K>(pm0, pm1, cfg, lvl, ok, lo, hi, nxt, caps, rkeys, rk, es),
{
    reveal(kid_trees);
    reveal(changed);
}

/// The children of two neighbouring internal nodes, taken together.
#[verifier::rlimit(40)]
proof fn lemma_nodes_open<K: Key>(
    pm: PageManager,
    cfg: K::Config,
    id: u32,
    lvl: nat,
    lo: Bound,
    hi: Bound,
    nxt: u32,
    caps: (nat, nat),
    keys: Seq<Seq<u8>>,
    kids: Seq<u32>,
    a: int,
    lk: Seq<Seq<u8>>,
    lc: Seq<u32>,
    rkk: Seq<Seq<u8>>,
    rc: Seq<u32>,
)
    requires
        sub_ok::<K>(pm, cfg, id, lvl + 2, lo, hi, nxt, caps),
        nodes_of::<K>(pm, cfg)[id as int] == (NodeM::Internal { pid: id, keys, kids }),
        0 <= a,
        a + 1 < kids.len(),
        nodes_of::<K>(pm, cfg)[kids[a] as int] == (NodeM::Internal {
            pid: kids[a],
            keys: lk,
            kids: lc,
        }),
        nodes_of::<K>(pm, cfg)[kids[a + 1] as int] == (NodeM::Internal {
            pid: kids[a + 1],
            keys: rkk,
            kids: rc,
        }),
    ensures
        ({
            let n = nodes_of::<K>(pm, cfg);
            let l = kids[a];
            let r = kids[a + 1];
            let jk = lk + seq![keys[a]] + rkk;
            let jc = lc + rc;
            &&& 2 <= l < pm.count()
            &&& 2 <= r < pm.count()
            &&& l != r
            &&& id != l
            &&& id != r
            &&& !pm.is_free(l as int)
            &&& !pm.is_free(r as int)
            &&& keys.len() == kids.len() - 1
            &&& lc.len() == lk.len() + 1
            &&& rc.len() == rkk.len() + 1
            &&& kid_trees(
                n,
                jk,
                jc,
                lvl,
                kid_lo(keys, lo, a),
                kid_hi(keys, hi, a + 1),
                kid_next(n, kids, lvl + 1, nxt, a + 1),
                caps,
            )
            &&& kids_flat(n, jc, lvl) == flat(n, l, lvl + 1) + flat(n, r, lvl + 1)
            &&& first_leaf(n, jc[0], lvl) == first_leaf(n, l, lvl + 1)
            &&& forall|x: int|
                #[trigger] kids_own(n, jc, lvl, x) ==> x != l && x != r && 2 <= x < pm.count()
                    && !pm.is_free(x) && (owns(n, l, lvl + 1, x) || owns(n, r, lvl + 1, x))
        }),
{
    let n = nodes_of::<K>(pm, cfg);
    let l = kids[a];
    let r = kids[a + 1];
    let s = keys[a];
    let l1 = lvl + 1;
    lemma_open_node::<K>(pm, cfg, id, l1, lo, hi, nxt, caps, keys, kids);
    let clo = kid_lo(keys, lo, a);
    let chi = kid_hi(keys, hi, a + 1);
    let cn = kid_next(n, kids, l1, nxt, a + 1);
    assert(sub_ok::<K>(pm, cfg, kids[a], l1, clo, Some(s), kid_next(n, kids, l1, nxt, a), caps));
    assert(sub_ok::<K>(pm, cfg, kids[a + 1], l1, Some(s), chi, cn, caps));
    assert(kid_next(n, kids, l1, nxt, a) == first_leaf(n, r, l1));
    lemma_open_node::<K>(pm, cfg, l, lvl, clo, Some(s), first_leaf(n, r, l1), caps, lk, lc);
    lemma_open_node::<K>(pm, cfg, r, lvl, Some(s), chi, cn, caps, rkk, rc);
    lemma_sub_root::<K>(pm, cfg, l, l1, clo, Some(s), first_leaf(n, r, l1), caps);
    lemma_sub_root::<K>(pm, cfg, r, l1, Some(s), chi, cn, caps);
    assert(owns(n, kids[a], l1, l as int));
    assert(owns(n, kids[a + 1], l1, r as int));
    assert(kids_own(n, kids, l1, l as int));
    assert(kids_own(n, kids, l1, r as int));
    assert(!(owns(n, kids[a], l1, l as int) && owns(n, kids[a + 1], l1, l as int)));
    assert(!(owns(n, kids[a], l1, r as int) && owns(n, kids[a + 1], l1, r as int)));
    assert(strictly_above(clo, s)) by {
        assert(strictly_above(lo, keys[a]));
        if a > 0 {
            assert(crate::bytes::lex_lt(keys[a - 1], keys[a]));
        }
    }
    assert(below(chi, s)) by {
        assert(below(hi, keys[a]));
        if a + 1 < keys.len() {
            assert(crate::bytes::lex_lt(keys[a], keys[a + 1]));
        }
    }
    assert forall|x: int| !(#[trigger] kids_own(n, lc, lvl, x) && kids_own(n, rc, lvl, x)) by {
        if kids_own(n, lc, lvl, x) && kids_own(n, rc, lvl, x) {
            assert(owns(n, kids[a], l1, x) && owns(n, kids[a + 1], l1, x));
        }
    }
    lemma_kids_join(n, lk, lc, s, rkk, rc, lvl, clo, chi, cn, caps);
    reveal(kid_trees);
    let jc = lc + rc;
    assert(jc[0] == lc[0]);
    assert forall|x: int| #[trigger] kids_own(n, jc, lvl, x) implies x != l && x != r && 2 <= x
        < pm.count() && !pm.is_free(x) && (owns(n, l, l1, x) || owns(n, r, l1, x)) by {
        if kids_own(n, lc, lvl, x) {
            assert(owns(n, kids[a], l1, x));
        } else {
            assert(owns(n, kids[a + 1], l1, x));
        }
    }
}

/// As [`lemma_cut_nodes`], in one fact.
proof fn lemma_split_nodes(
    n0: Seq<NodeM>,
    n1: Seq<NodeM>,
    l: u32,
    r: u32,
    lvl: nat,
    lo: Bound,
    hi: Bound,
    nxt: u32,
    caps: (nat, nat),
    jk: Seq<Seq<u8>>,
    jc: Seq<u32>,
    p: int,
)
    requires
        kid_trees(n0, jk, jc, lvl, lo, hi, nxt, caps),
        l != r,
        2 <= l < n1.len(),
        2 <= r < n1.len(),
        forall|x: int|
            #[trigger] kids_own(n0, jc, lvl, x) ==> x != l && x != r && 0 <= x < n0.len() && x
                < n1.len() && n0[x] == n1[x],
        0 <= p < jk.len(),
        n1[l as int] == (NodeM::Internal { pid: l, keys: jk.take(p), kids: jc.take(p + 1) }),
        n1[r as int] == (NodeM::Internal {
            pid: r,
            keys: jk.skip(p + 1),
            kids: jc.skip(p + 1),
        }),
        p <= caps.1,
        jk.len() - p - 1 <= caps.1,
    ensures
        kid_trees(n1, seq![jk[p]], two_kids(l, r), lvl + 1, lo, hi, nxt, caps),
        kids_flat(n1, two_kids(l, r), lvl + 1) == kids_flat(n0, jc, lvl),
        first_leaf(n1, l, lvl + 1) == first_leaf(n0, jc[0], lvl),
        forall|x: int|
            #[trigger] kids_own(n1, two_kids(l, r), lvl + 1, x) == (x == l || x == r || kids_own(
                n0,
                jc,
                lvl,
                x,
            )),
{
    reveal(kid_trees);
    lemma_cut_nodes(n0, n1, l, r, lvl, lo, hi, nxt, caps, jk, jc, p);
}

#[verifier::rlimit(60)]
proof fn lemma_nodes_moved_step<K: Key>(
    pm0: PageManager,
    pm1: PageManager,
    cfg: K::Config,
    id: u32,
    lvl: nat,
    lo: Bound,
    hi: Bound,
    nxt: u32,
    caps: (nat, nat),
    keys: Seq<Seq<u8>>,
    kids: Seq<u32>,
    a: int,
    lk: Seq<Seq<u8>>,
    lc: Seq<u32>,
    rkk: Seq<Seq<u8>>,
    rc: Seq<u32>,
    p: int,
)
    requires
        sub_ok::<K>(pm0, cfg, id, lvl + 2, lo, hi, nxt, caps),
        nodes_of::<K>(pm0, cfg)[id as int] == (NodeM::Internal { pid: id, keys, kids }),
        0 <= a,
        a + 1 < kids.len(),
        nodes_of::<K>(pm0, cfg)[kids[a] as int] == (NodeM::Internal {
            pid: kids[a],
            keys: lk,
            kids: lc,
        }),
        nodes_of::<K>(pm0, cfg)[kids[a + 1] as int] == (NodeM::Internal {
            pid: kids[a + 1],
            keys: rkk,
            kids: rc,
        }),
        base_ok(pm1),
        pm1.count() == pm0.count(),
        forall|x: int| #[trigger] pm1.is_free(x) == pm0.is_free(x),
        ({
            let jk = lk + seq![keys[a]] + rkk;
            let jc = lc + rc;
            &&& 0 <= p < jk.len()
            &&& p <= caps.1
            &&& jk.len() - p - 1 <= caps.1
            &&& nodes_of::<K>(pm1, cfg) == nodes_of::<K>(pm0, cfg).update(
                kids[a] as int,
                NodeM::Internal { pid: kids[a], keys: jk.take(p), kids: jc.take(p + 1) },
            ).update(
                kids[a + 1] as int,
                NodeM::Internal { pid: kids[a + 1], keys: jk.skip(p + 1), kids: jc.skip(p + 1) },
            )
        }),
    ensures
        changed::<K>(
            pm0,
            pm1,
            cfg,
            lvl + 1,
            two_kids(kids[a], kids[a + 1]),
            kid_lo(keys, lo, a),
            kid_hi(keys, hi, a + 1),
            kid_next(nodes_of::<K>(pm0, cfg), kids, lvl + 1, nxt, a + 1),
            caps,
            seq![(lk + seq![keys[a]] + rkk)[p]],
            two_kids(kids[a], kids[a + 1]),
            flat(nodes_of::<K>(pm0, cfg), kids[a], lvl + 1) + flat(
                nodes_of::<K>(pm0, cfg),
                kids[a + 1],
                lvl + 1,
            ),
        ),
{
    let n0 = nodes_of::<K>(pm0, cfg);
    let n1 = nodes_of::<K>(pm1, cfg);
    let l = kids[a];
    let r = kids[a + 1];
    let jk = lk + seq![keys[a]] + rkk;
    let jc = lc + rc;
    let l1 = lvl + 1;
    let clo = kid_lo(keys, lo, a);
    let chi = kid_hi(keys, hi, a + 1);
    let cn = kid_next(n0, kids, l1, nxt, a + 1);
    lemma_nodes_open::<K>(pm0, cfg, id, lvl, lo, hi, nxt, caps, keys, kids, a, lk, lc, rkk, rc);
    assert(n1.len() == n0.len());
    assert forall|x: int| #[trigger] kids_own(n0, jc, lvl, x) implies x != l && x != r && 0 <= x
        < n0.len() && x < n1.len() && n0[x] == n1[x] by {}
    lemma_split_nodes(n0, n1, l, r, lvl, clo, chi, cn, caps, jk, jc, p);
    lemma_two_own(n0, l, r, l1);
    assert(owns(n0, l, l1, l as int));
    assert(owns(n0, r, l1, r as int));
    lemma_moved_kept::<K>(pm0, pm1, cfg, l, r, l1);
    assert forall|x: int| #[trigger] kids_own(n1, two_kids(l, r), l1, x) implies !pm1.is_free(x)
        && (kids_own(n0, two_kids(l, r), l1, x) || pm0.is_free(x) || x >= pm0.count()) by {
        if x != l && x != r {
            assert(kids_own(n0, jc, lvl, x));
        }
    }
    assert(two_kids(l, r)[0] == l);
    lemma_pack::<K>(
        pm0,
        pm1,
        cfg,
        l1,
        two_kids(l, r),
        clo,
        chi,
        cn,
        caps,
        seq![jk[p]],
        two_kids(l, r),
        flat(n0, l, l1) + flat(n0, r, l1),
    );
}

/// Rewriting two nodes in place touches nothing outside their trees.
proof fn lemma_moved_kept<K: Key>(
    pm0: PageManager,
    pm1: PageManager,
    cfg: K::Config,
    l: u32,
    r: u32,
    lvl: nat,
)
    requires
        base_ok(pm1),
        pm1.count() == pm0.count(),
        forall|x: int| #[trigger] pm1.is_free(x) == pm0.is_free(x),
        forall|x: int|
            2 <= x < pm0.count() && x != l && x != r ==> #[trigger] nodes_of::<K>(pm1, cfg)[x]
                == nodes_of::<K>(pm0, cfg)[x],
    ensures
        outside_kept::<K>(pm0, pm1, cfg, lvl, two_kids(l, r)),
{
    let n0 = nodes_of::<K>(pm0, cfg);
    lemma_two_own(n0, l, r, lvl);
    assert(owns(n0, l, lvl, l as int));
    assert(owns(n0, r, lvl, r as int));
    assert(kids_own(n0, two_kids(l, r), lvl, l as int));
    assert(kids_own(n0, two_kids(l, r), lvl, r as int));
}

/// Children moved between two neighbouring internal nodes.
#[verifier::rlimit(40)]
proof fn lemma_nodes_moved<K: Key>(
    pm0: PageManager,
    pm1: PageManager,
    cfg: K::Config,
    id: u32,
    lvl: nat,
    lo: Bound,
    hi: Bound,
    nxt: u32,
    caps: (nat, nat),
    keys: Seq<Seq<u8>>,
    kids: Seq<u32>,
    a: int,
    lk: Seq<Seq<u8>>,
    lc: Seq<u32>,
    rkk: Seq<Seq<u8>>,
    rc: Seq<u32>,
    p: int,
)
    requires
        sub_ok::<K>(pm0, cfg, id, lvl + 2, lo, hi, nxt, caps),
        nodes_of::<K>(pm0, cfg)[id as int] == (NodeM::Internal { pid: id, keys, kids }),
        0 <= a,
        a + 1 < kids.len(),
        nodes_of::<K>(pm0, cfg)[kids[a] as int] == (NodeM::Internal {
            pid: kids[a],
            keys: lk,
            kids: lc,
        }),
        nodes_of::<K>(pm0, cfg)[kids[a + 1] as int] == (NodeM::Internal {
            pid: kids[a + 1],
            keys: rkk,
            kids: rc,
        }),
        base_ok(pm1),
        pm1.count() == pm0.count(),
        forall|x: int| #[trigger] pm1.is_free(x) == pm0.is_free(x),
        ({
            let jk = lk + seq![keys[a]] + rkk;
            let jc = lc + rc;
            &&& 0 <= p < jk.len()
            &&& p <= caps.1
            &&& jk.len() - p - 1 <= caps.1
            &&& nodes_of::<K>(pm1, cfg) == nodes_of::<K>(pm0, cfg).update(
                kids[a] as int,
                NodeM::Internal { pid: kids[a], keys: jk.take(p), kids: jc.take(p + 1) },
            ).update(
                kids[a + 1] as int,
                NodeM::Internal { pid: kids[a + 1], keys: jk.skip(p + 1), kids: jc.skip(p + 1) },
            )
        }),
    ensures
        lifted::<K>(
            pm0,
            pm1,
            cfg,
            id,
            lvl + 1,
            lo,
            hi,
            nxt,
            caps,
            keys.update(a, (lk + seq![keys[a]] + rkk)[p]),
            kids,
            flat(nodes_of::<K>(pm0, cfg), id, lvl + 2),
        ),
{
    let n0 = nodes_of::<K>(pm0, cfg);
    let n1 = nodes_of::<K>(pm1, cfg);
    let l = kids[a];
    let r = kids[a + 1];
    let jk = lk + seq![keys[a]] + rkk;
    let s = jk[p];
    let l1 = lvl + 1;
    let es = flat(n0, l, l1) + flat(n0, r, l1);
    lemma_nodes_moved_step::<K>(
        pm0,
        pm1,
        cfg,
        id,
        lvl,
        lo,
        hi,
        nxt,
        caps,
        keys,
        kids,
        a,
        lk,
        lc,
        rkk,
        rc,
        p,
    );
    lemma_sub_root::<K>(pm0, cfg, id, lvl + 2, lo, hi, nxt, caps);
    lemma_pair_flat(n0, kids, l1, a);
    lemma_lift_to::<K>(
        pm0,
        pm1,
        cfg,
        id,
        l1,
        lo,
        hi,
        nxt,
        caps,
        keys,
        kids,
        a,
        a + 2,
        seq![s],
        two_kids(l, r),
        es,
    );
    assert(put_keys(keys, a, a + 2, seq![s]) =~= keys.update(a, s));
    assert(put_kids(kids, a, a + 2, two_kids(l, r)) =~= kids);
    lemma_open_node::<K>(pm0, cfg, id, l1, lo, hi, nxt, caps, keys, kids);
}

/// Children under one node are the children of its tree.
proof fn lemma_join_nodes(
    n0: Seq<NodeM>,
    n1: Seq<NodeM>,
    l: u32,
    lvl: nat,
    lo: Bound,
    hi: Bound,
    nxt: u32,
    caps: (nat, nat),
    jk: Seq<Seq<u8>>,
    jc: Seq<u32>,
)
    requires
        kid_trees(n0, jk, jc, lvl, lo, hi, nxt, caps),
        2 <= l < n1.len(),
        forall|x: int|
            #[trigger] kids_own(n0, jc, lvl, x) ==> x != l && 0 <= x < n0.len() && x < n1.len()
                && n0[x] == n1[x],
        n1[l as int] == (NodeM::Internal { pid: l, keys: jk, kids: jc }),
        jk.len() <= caps.1,
    ensures
        kid_trees(n1, Seq::empty(), one_kid(l), lvl + 1, lo, hi, nxt, caps),
        kids_flat(n1, one_kid(l), lvl + 1) == kids_flat(n0, jc, lvl),
        first_leaf(n1, l, lvl + 1) == first_leaf(n0, jc[0], lvl),
        forall|x: int|
            #[trigger] kids_own(n1, one_kid(l), lvl + 1, x) == (x == l || kids_own(
                n0,
                jc,
                lvl,
                x,
            )),
{
    reveal(kid_trees);
    lemma_kids_keep(n0, n1, jk, jc, lvl, lo, hi, nxt, caps);
    lemma_internal_ok(n1, l, lvl, lo, hi, nxt, caps, jk, jc);
    lemma_single(n1, l, lvl + 1, lo, hi, nxt, caps);
    assert forall|x: int|
        #[trigger] kids_own(n1, one_kid(l), lvl + 1, x) == (x == l || kids_own(n0, jc, lvl, x)) by {
        assert(owns(n1, l, lvl + 1, x) == (x == l || kids_own(n1, jc, lvl, x)));
        assert(kids_own(n1, jc, lvl, x) == kids_own(n0, jc, lvl, x));
    }
}

/// Rewriting one of two nodes and freeing the other touches nothing outside
/// their trees.
proof fn lemma_merged_kept<K: Key>(
    pm0: PageManager,
    pm1: PageManager,
    cfg: K::Config,
    l: u32,
    r: u32,
    lvl: nat,
)
    requires
        base_ok(pm1),
        pm1.count() == pm0.count(),
        forall|x: int| #[trigger] pm1.is_free(x) ==> pm0.is_free(x) || x == r,
        forall|x: int|
            2 <= x < pm0.count() && x != l && x != r ==> #[trigger] nodes_of::<K>(pm1, cfg)[x]
                == nodes_of::<K>(pm0, cfg)[x],
    ensures
        outside_kept::<K>(pm0, pm1, cfg, lvl, two_kids(l, r)),
{
    let n0 = nodes_of::<K>(pm0, cfg);
    lemma_two_own(n0, l, r, lvl);
    assert(owns(n0, l, lvl, l as int));
    assert(owns(n0, r, lvl, r as int));
    assert(kids_own(n0, two_kids(l, r), lvl, l as int));
    assert(kids_own(n0, two_kids(l, r), lvl, r as int));
}

#[verifier::rlimit(60)]
proof fn lemma_nodes_merged_step<K: Key>(
    pm0: PageManager,
    pm1: PageManager,
    cfg: K::Config,
    id: u32,
    lvl: nat,
    lo: Bound,
    hi: Bound,
    nxt: u32,
    caps: (nat, nat),
    keys: Seq<Seq<u8>>,
    kids: Seq<u32>,
    a: int,
    lk: Seq<Seq<u8>>,
    lc: Seq<u32>,
    rkk: Seq<Seq<u8>>,
    rc: Seq<u32>,
)
    requires
        sub_ok::<K>(pm0, cfg, id, lvl + 2, lo, hi, nxt, caps),
        nodes_of::<K>(pm0, cfg)[id as int] == (NodeM::Internal { pid: id, keys, kids }),
        0 <= a,
        a + 1 < kids.len(),
        nodes_of::<K>(pm0, cfg)[kids[a] as int] == (NodeM::Internal {
            pid: kids[a],
            keys: lk,
            kids: lc,
        }),
        nodes_of::<K>(pm0, cfg)[kids[a + 1] as int] == (NodeM::Internal {
            pid: kids[a + 1],
            keys: rkk,
            kids: rc,
        }),
        base_ok(pm1),
        pm1.count() == pm0.count(),
        forall|x: int| #[trigger] pm1.is_free(x) ==> pm0.is_free(x) || x == kids[a + 1],
        forall|x: int|
            2 <= x < pm0.count() && x != kids[a] && x != kids[a + 1] ==> #[trigger] nodes_of::<K>(
                pm1,
                cfg,
            )[x] == nodes_of::<K>(pm0, cfg)[x],
        lk.len() + 1 + rkk.len() <= caps.1,
        nodes_of::<K>(pm1, cfg)[kids[a] as int] == (NodeM::Internal {
            pid: kids[a],
            keys: lk + seq![keys[a]] + rkk,
            kids: lc + rc,
        }),
    ensures
        changed::<K>(
            pm0,
            pm1,
            cfg,
            lvl + 1,
            two_kids(kids[a], kids[a + 1]),
            kid_lo(keys, lo, a),
            kid_hi(keys, hi, a + 1),
            kid_next(nodes_of::<K>(pm0, cfg), kids, lvl + 1, nxt, a + 1),
            caps,
            Seq::empty(),
            one_kid(kids[a]),
            flat(nodes_of::<K>(pm0, cfg), kids[a], lvl + 1) + flat(
                nodes_of::<K>(pm0, cfg),
                kids[a + 1],
                lvl + 1,
            ),
        ),
{
    let n0 = nodes_of::<K>(pm0, cfg);
    let n1 = nodes_of::<K>(pm1, cfg);
    let l = kids[a];
    let r = kids[a + 1];
    let jk = lk + seq![keys[a]] + rkk;
    let jc = lc + rc;
    let l1 = lvl + 1;
    let clo = kid_lo(keys, lo, a);
    let chi = kid_hi(keys, hi, a + 1);
    let cn = kid_next(n0, kids, l1, nxt, a + 1);
    lemma_nodes_open::<K>(pm0, cfg, id, lvl, lo, hi, nxt, caps, keys, kids, a, lk, lc, rkk, rc);
    assert(n1.len() == n0.len());
    assert forall|x: int| #[trigger] kids_own(n0, jc, lvl, x) implies x != l && 0 <= x < n0.len()
        && x < n1.len() && n0[x] == n1[x] by {}
    lemma_join_nodes(n0, n1, l, lvl, clo, chi, cn, caps, jk, jc);
    lemma_two_own(n0, l, r, l1);
    lemma_merged_kept::<K>(pm0, pm1, cfg, l, r, l1);
    assert(owns(n0, l, l1, l as int));
    assert forall|x: int| #[trigger] kids_own(n1, one_kid(l), l1, x) implies !pm1.is_free(x) && (
    kids_own(n0, two_kids(l, r), l1, x) || pm0.is_free(x) || x >= pm0.count()) by {
        if x != l {
            assert(kids_own(n0, jc, lvl, x));
        }
    }
    assert(two_kids(l, r)[0] == l);
    assert(one_kid(l)[0] == l);
    lemma_pack::<K>(
        pm0,
        pm1,
        cfg,
        l1,
        two_kids(l, r),
        clo,
        chi,
        cn,
        caps,
        Seq::empty(),
        one_kid(l),
        flat(n0, l, l1) + flat(n0, r, l1),
    );
}

/// Two neighbouring internal nodes merged into the left one.
#[verifier::rlimit(40)]
proof fn lemma_nodes_merged<K: Key>(
    pm0: PageManager,
    pm1: PageManager,
    cfg: K::Config,
    id: u32,
    lvl: nat,
    lo: Bound,
    hi: Bound,
    nxt: u32,
    caps: (nat, nat),
    keys: Seq<Seq<u8>>,
    kids: Seq<u32>,
    a: int,
    lk: Seq<Seq<u8>>,
    lc: Seq<u32>,
    rkk: Seq<Seq<u8>>,
    rc: Seq<u32>,
)
    requires
        sub_ok::<K>(pm0, cfg, id, lvl + 2, lo, hi, nxt, caps),
        nodes_of::<K>(pm0, cfg)[id as int] == (NodeM::Internal { pid: id, keys, kids }),
        0 <= a,
        a + 1 < kids.len(),
        nodes_of::<K>(pm0, cfg)[kids[a] as int] == (NodeM::Internal {
            pid: kids[a],
            keys: lk,
            kids: lc,
        }),
        nodes_of::<K>(pm0, cfg)[kids[a + 1] as int] == (NodeM::Internal {
            pid: kids[a + 1],
            keys: rkk,
            kids: rc,
        }),
        base_ok(pm1),
        pm1.count() == pm0.count(),
        forall|x: int| #[trigger] pm1.is_free(x) ==> pm0.is_free(x) || x == kids[a + 1],
        forall|x: int|
            2 <= x < pm0.count() && x != kids[a] && x != kids[a + 1] ==> #[trigger] nodes_of::<K>(
                pm1,
                cfg,
            )[x] == nodes_of::<K>(pm0, cfg)[x],
        lk.len() + 1 + rkk.len() <= caps.1,
        nodes_of::<K>(pm1, cfg)[kids[a] as int] == (NodeM::Internal {
            pid: kids[a],
            keys: lk + seq![keys[a]] + rkk,
            kids: lc + rc,
        }),
    ensures
        lifted::<K>(
            pm0,
            pm1,
            cfg,
            id,
            lvl + 1,
            lo,
            hi,
            nxt,
            caps,
            keys.remove(a),
            kids.remove(a + 1),
            flat(nodes_of::<K>(pm0, cfg), id, lvl + 2),
        ),
{
    let n0 = nodes_of::<K>(pm0, cfg);
    let l = kids[a];
    let r = kids[a + 1];
    let l1 = lvl + 1;
    let es = flat(n0, l, l1) + flat(n0, r, l1);
    lemma_nodes_merged_step::<K>(
        pm0,
        pm1,
        cfg,
        id,
        lvl,
        lo,
        hi,
        nxt,
        caps,
        keys,
        kids,
        a,
        lk,
        lc,
        rkk,
        rc,
    );
    lemma_sub_root::<K>(pm0, cfg, id, lvl + 2, lo, hi, nxt, caps);
    lemma_pair_flat(n0, kids, l1, a);
    lemma_lift_to::<K>(
        pm0,
        pm1,
        cfg,
        id,
        l1,
        lo,
        hi,
        nxt,
        caps,
        keys,
        kids,
        a,
        a + 2,
        Seq::empty(),
        one_kid(l),
        es,
    );
    assert(put_keys(keys, a, a + 2, Seq::empty()) =~= keys.remove(a));
    assert(put_kids(kids, a, a + 2, one_kid(l)) =~= kids.remove(a + 1));
    lemma_open_node::<K>(pm0, cfg, id, l1, lo, hi, nxt, caps, keys, kids);
}

/// A subtree left alone counts as rearranged.
proof fn lemma_unchanged<K: Key>(
    pm: PageManager,
    cfg: K::Config,
    id: u32,
    lvl: nat,
    lo: Bound,
    hi: Bound,
    nxt: u32,
    caps: (nat, nat),
)
    requires
        sub_ok::<K>(pm, cfg, id, lvl, lo, hi, nxt, caps),
    ensures
        rearranged::<K>(pm, pm, cfg, id, lvl, lo, hi, nxt, caps),
{
    reveal(sub_ok);
    reveal(changed);
    lemma_single(nodes_of::<K>(pm, cfg), id, lvl, lo, hi, nxt, caps);
}

impl<K: Key> InternalNode<K> {
    /// Replaces a separator.
    fn set_key(&mut self, idx: usize, key: K)
        requires
            idx < old(self).entries@.len(),
            old(self).ok(old(self).config),
            K::key_ok(key.kview(), old(self).config),
        ensures
            final(self).page_id == old(self).page_id,
            final(self).config == old(self).config,
            final(self).ok(old(self).config),
            final(self).entries@.len() == old(self).entries@.len(),
            final(self).keys() == old(self).keys().update(idx as int, key.kview()),
            final(self).kids() == old(self).kids(),
    {
        let ghost s0 = *self;
        let ghost k = key.kview();
        let child_page_id: u32 = self.entries[idx].child_page_id;
        self.entries.set(idx, InternalEntry { key, child_page_id });
        proof {
            assert(self.keys() =~= s0.keys().update(idx as int, k));
            assert(self.kids() =~= s0.kids());
        }
    }

    /// Removes child `idx + 1` and the separator in front of it.
    fn remove_child(&mut self, idx: usize)
        requires
            idx < old(self).entries@.len(),
            old(self).ok(old(self).config),
        ensures
            final(self).page_id == old(self).page_id,
            final(self).config == old(self).config,
            final(self).ok(old(self).config),
            final(self).entries@.len() == old(self).entries@.len() - 1,
            final(self).keys() == old(self).keys().remove(idx as int),
            final(self).kids() == old(self).kids().remove(idx + 1),
    {
        let ghost s0 = *self;
        let gone: InternalEntry<K> = self.entries.remove(idx);
        if idx < self.entries.len() {
            let behind: InternalEntry<K> = self.entries.remove(idx);
            self.entries.insert(
                idx,
                InternalEntry { key: behind.key, child_page_id: gone.child_page_id },
            );
        } else {
            self.right_child = gone.child_page_id;
        }
        self.num_keys = self.entries.len() as u16;
        proof {
            assert(self.keys() =~= s0.keys().remove(idx as int));
            assert(self.kids() =~= s0.kids().remove(idx + 1));
            assert forall|i: int| 0 <= i < self.entries@.len() implies K::key_ok(
                (#[trigger] self.entries@[i]).key.kview(),
                s0.config,
            ) by {
                if i < idx {
                    assert(self.entries@[i].key == s0.entries@[i].key);
                } else {
                    assert(self.entries@[i].key == s0.entries@[i + 1].key);
                }
            }
        }
    }
}

impl<K: Key> BTree<K> {
    /// Repairs an underfull leaf with the help of a neighbour under the same
    /// parent: the left one if there is one, else the right one.
    #[verifier::rlimit(40)]
    pub(crate) fn rebalance_leaf(
        &mut self,
        leaf: LeafNode<K>,
        parent: InternalNode<K>,
        child_idx: usize,
        Ghost(lo): Ghost<Bound>,
        Ghost(hi): Ghost<Bound>,
        Ghost(nxt): Ghost<u32>,
    ) -> (r: Result<Touched>)
        requires
            sub_ok::<K>(
                old(self).pm,
                old(self).meta.config,
                parent.page_id,
                1,
                lo,
                hi,
                nxt,
                old(self).caps(),
            ),
            parent.ok(old(self).meta.config),
            parent.node() == old(self).nodes()[parent.page_id as int],
            next_ok::<K>(old(self).pm, old(self).meta.config, nxt, old(self).caps()),
            nxt == 0 || !owns(old(self).nodes(), parent.page_id, 1, nxt as int),
            child_idx <= parent.entries@.len(),
            leaf.ok(old(self).meta.config),
            leaf.node() == old(self).nodes()[parent.kids()[child_idx as int] as int],
            leaf.prev_leaf == back_at(old(self).pm, parent.kids()[child_idx as int] as int),
            leaf.entries@.len() < leaf_cap::<K>(old(self).meta.config) * 40 / 100,
        ensures
            r is Ok,
            final(self).meta == old(self).meta,
            rearranged::<K>(
                old(self).pm,
                final(self).pm,
                old(self).meta.config,
                parent.page_id,
                1,
                lo,
                hi,
                nxt,
                old(self).caps(),
            ),
            repaired(
                old(self).nodes(),
                final(self).nodes(),
                least::<K>(old(self).meta.config),
                parent.page_id,
                parent.kids()[child_idx as int],
                parent.kids(),
                r->Ok_0,
            ),
            kept_tidy::<K>(old(self).pm, final(self).pm, old(self).meta.config),
            mended(
                old(self).nodes(),
                final(self).nodes(),
                parent.page_id,
                parent.kids(),
                child_idx as int,
                leaf_cap::<K>(old(self).meta.config) * 40 / 100,
            ),
    {
        let ghost pm0 = self.pm;
        let ghost n0 = self.nodes();
        let ghost cfg = self.meta.config;
        let ghost caps = self.caps();
        let ghost id = parent.page_id;
        let ghost keys = parent.keys();
        let ghost kids = parent.kids();
        let min: usize = leaf_min_entries::<K>(self.meta.config);
        proof {
            lemma_sub_root::<K>(pm0, cfg, id, 1, lo, hi, nxt, caps);
        }
        if child_idx > 0 {
            let left_id: u32 = parent.child_at(child_idx - 1);
            proof {
                lemma_leaves_open::<K>(pm0, cfg, id, lo, hi, nxt, caps, keys, kids, child_idx - 1);
            }
            let left: LeafNode<K> = match self.load_leaf(left_id) {
                Ok(l) => l,
                Err(e) => {
                    return Err(e);
                },
            };
            if left.entries.len() > min {
                return self.redistribute_leaf_from_left(
                    left,
                    leaf,
                    parent,
                    child_idx,
                    Ghost(lo),
                    Ghost(hi),
                    Ghost(nxt),
                );
            }
            return self.merge_leaves(
                left,
                leaf,
                parent,
                child_idx,
                Ghost(lo),
                Ghost(hi),
                Ghost(nxt),
                Ghost(kids[child_idx as int]),
            );
        }
        if child_idx < parent.entries.len() {
            let right_id: u32 = parent.child_at(child_idx + 1);
            proof {
                lemma_leaves_open::<K>(
                    pm0,
                    cfg,
                    id,
                    lo,
                    hi,
                    nxt,
                    caps,
                    keys,
                    kids,
                    child_idx as int,
                );
            }
            let right: LeafNode<K> = match self.load_leaf(right_id) {
                Ok(l) => l,
                Err(e) => {
                    return Err(e);
                },
            };
            if right.entries.len() > min {
                return self.redistribute_leaf_from_right(
                    leaf,
                    right,
                    parent,
                    child_idx,
                    Ghost(lo),
                    Ghost(hi),
                    Ghost(nxt),
                );
            }
            return self.merge_leaves(
                leaf,
                right,
                parent,
                child_idx + 1,
                Ghost(lo),
                Ghost(hi),
                Ghost(nxt),
                Ghost(kids[child_idx as int]),
            );
        }
        proof {
            lemma_unchanged::<K>(pm0, cfg, id, 1, lo, hi, nxt, caps);
        }
        proof {
            lemma_recycled_same::<K>(pm0, self.pm, cfg);
            lemma_none_repaired(
                n0,
                least::<K>(cfg),
                id,
                kids[child_idx as int],
                kids,
            );
        }
        Ok(Touched::Kept)
    }

    /// Moves the last entry of the left neighbour to the front of a leaf.
    #[verifier::rlimit(40)]
    fn redistribute_leaf_from_left(
        &mut self,
        mut left: LeafNode<K>,
        mut leaf: LeafNode<K>,
        mut parent: InternalNode<K>,
        child_idx: usize,
        Ghost(lo): Ghost<Bound>,
        Ghost(hi): Ghost<Bound>,
        Ghost(nxt): Ghost<u32>,
    ) -> (r: Result<Touched>)
        requires
            sub_ok::<K>(
                old(self).pm,
                old(self).meta.config,
                parent.page_id,
                1,
                lo,
                hi,
                nxt,
                old(self).caps(),
            ),
            parent.ok(old(self).meta.config),
            parent.node() == old(self).nodes()[parent.page_id as int],
            1 <= child_idx <= parent.entries@.len(),
            left.ok(old(self).meta.config),
            leaf.ok(old(self).meta.config),
            left.node() == old(self).nodes()[parent.kids()[child_idx - 1] as int],
            leaf.node() == old(self).nodes()[parent.kids()[child_idx as int] as int],
            left.prev_leaf == back_at(old(self).pm, parent.kids()[child_idx - 1] as int),
            leaf.prev_leaf == back_at(old(self).pm, parent.kids()[child_idx as int] as int),
            leaf.entries@.len() < leaf_cap::<K>(old(self).meta.config) * 40 / 100,
            left.entries@.len() > leaf_cap::<K>(old(self).meta.config) * 40 / 100,
            left.entries@.len() >= 2,
        ensures
            r is Ok,
            final(self).meta == old(self).meta,
            rearranged::<K>(
                old(self).pm,
                final(self).pm,
                old(self).meta.config,
                parent.page_id,
                1,
                lo,
                hi,
                nxt,
                old(self).caps(),
            ),
            repaired(
                old(self).nodes(),
                final(self).nodes(),
                least::<K>(old(self).meta.config),
                parent.page_id,
                parent.kids()[child_idx as int],
                parent.kids(),
                r->Ok_0,
            ),
            kept_tidy::<K>(old(self).pm, final(self).pm, old(self).meta.config),
            evened(
                old(self).nodes(),
                final(self).nodes(),
                parent.kids()[child_idx - 1],
                parent.kids()[child_idx as int],
                parent.page_id,
                (left.entries@.len() - 1, leaf.entries@.len() + 1int),
            ),
    {
        let ghost pm0 = self.pm;
        let ghost n0 = self.nodes();
        let ghost cfg = self.meta.config;
        let ghost caps = self.caps();
        let ghost id = parent.page_id;
        let ghost keys = parent.keys();
        let ghost kids = parent.kids();
        let ghost a = child_idx - 1;
        let ghost left0 = left;
        let ghost leaf0 = leaf;
        let ghost es = left.model() + leaf.model();
        let ghost m = left.entries@.len() - 1;
        proof {
            lemma_sub_root::<K>(pm0, cfg, id, 1, lo, hi, nxt, caps);
            lemma_cap_bounds::<K>(cfg);
            lemma_leaves_open::<K>(pm0, cfg, id, lo, hi, nxt, caps, keys, kids, a);
            lemma_child_root::<K>(pm0, cfg, id, 0, lo, hi, nxt, caps, keys, kids, a);
        }
        let moved: LeafEntry<K> = match left.entries.pop() {
            Some(e) => e,
            None => {
                return Err(
                    GrumpyError::Corruption(
                        owned("redistribute_leaf_from_left: empty left sibling"),
                    ),
                );
            },
        };
        left.num_entries = left.num_entries - 1;
        leaf.entries.insert(0, moved);
        leaf.num_entries = leaf.num_entries + 1;
        proof {
            assert(left.entries@ =~= left0.entries@.drop_last());
            assert(leaf.entries@ =~= seq![left0.entries@.last()] + leaf0.entries@);
            assert(left.model() =~= es.take(m));
            assert(leaf.model() =~= es.skip(m));
            assert(left0.entries@.last() == left0.entries@[m]);
            assert forall|i: int| 0 <= i < leaf.entries@.len() implies K::key_ok(
                (#[trigger] leaf.entries@[i]).key.kview(),
                cfg,
            ) by {
                if i > 0 {
                    assert(leaf.entries@[i] == leaf0.entries@[i - 1]);
                }
            }
            assert(leaf.entries@[0].key.kview() == es[m].0);
        }
        let sep: K = leaf.entries[0].key.dup();
        parent.set_key(child_idx - 1, sep);
        match self.save_leaf(&left) {
            Ok(_) => {},
            Err(e) => {
                return Err(e);
            },
        }
        let ghost pm1 = self.pm;
        match self.save_leaf(&leaf) {
            Ok(_) => {},
            Err(e) => {
                return Err(e);
            },
        }
        let ghost pm2 = self.pm;
        proof {
            lemma_free_same(pm0, pm1);
            lemma_free_same(pm1, pm2);
            lemma_leaves_moved::<K>(pm0, pm2, cfg, id, lo, hi, nxt, caps, keys, kids, a, m);
        }
        match self.save_internal(&parent) {
            Ok(_) => {},
            Err(e) => {
                return Err(e);
            },
        }
        proof {
            lemma_free_same(pm2, self.pm);
            lemma_finish::<K>(
                pm0,
                pm2,
                self.pm,
                cfg,
                id,
                0,
                lo,
                hi,
                nxt,
                caps,
                parent.keys(),
                parent.kids(),
                flat(n0, id, 1),
            );
            assert(back_at(pm1, kids[a + 1] as int) == back_at(pm0, kids[a + 1] as int)) by {
                reveal(rewritten);
                assert(pm1.pages@[kids[a + 1] as int] == pm0.pages@[kids[a + 1] as int]);
            }
            lemma_recycled_then::<K>(pm0, pm1, pm2, cfg);
            lemma_recycled_then::<K>(pm0, pm2, self.pm, cfg);
            lemma_neighbours_repaired(
                n0,
                nodes_of::<K>(pm1, cfg),
                nodes_of::<K>(pm2, cfg),
                self.nodes(),
                least::<K>(cfg),
                kids[a],
                left.node(),
                kids[a + 1],
                leaf.node(),
                id,
                parent.node(),
                kids[child_idx as int],
                kids,
            );
        }
        Ok(Touched::Kept)
    }

    /// Moves the first entry of the right neighbour to the end of a leaf.
    #[verifier::rlimit(40)]
    fn redistribute_leaf_from_right(
        &mut self,
        mut leaf: LeafNode<K>,
        mut right: LeafNode<K>,
        mut parent: InternalNode<K>,
        child_idx: usize,
        Ghost(lo): Ghost<Bound>,
        Ghost(hi): Ghost<Bound>,
        Ghost(nxt): Ghost<u32>,
    ) -> (r: Result<Touched>)
        requires
            sub_ok::<K>(
                old(self).pm,
                old(self).meta.config,
                parent.page_id,
                1,
                lo,
                hi,
                nxt,
                old(self).caps(),
            ),
            parent.ok(old(self).meta.config),
            parent.node() == old(self).nodes()[parent.page_id as int],
            child_idx < parent.entries@.len(),
            right.ok(old(self).meta.config),
            leaf.ok(old(self).meta.config),
            leaf.node() == old(self).nodes()[parent.kids()[child_idx as int] as int],
            right.node() == old(self).nodes()[parent.kids()[child_idx + 1] as int],
            leaf.prev_leaf == back_at(old(self).pm, parent.kids()[child_idx as int] as int),
            right.prev_leaf == back_at(old(self).pm, parent.kids()[child_idx + 1] as int),
            leaf.entries@.len() < leaf_cap::<K>(old(self).meta.config) * 40 / 100,
            right.entries@.len() > leaf_cap::<K>(old(self).meta.config) * 40 / 100,
            right.entries@.len() >= 2,
        ensures
            r is Ok,
            final(self).meta == old(self).meta,
            rearranged::<K>(
                old(self).pm,
                final(self).pm,
                old(self).meta.config,
                parent.page_id,
                1,
                lo,
                hi,
                nxt,
                old(self).caps(),
            ),
            repaired(
                old(self).nodes(),
                final(self).nodes(),
                least::<K>(old(self).meta.config),
                parent.page_id,
                parent.kids()[child_idx as int],
                parent.kids(),
                r->Ok_0,
            ),
            kept_tidy::<K>(old(self).pm, final(self).pm, old(self).meta.config),
            evened(
                old(self).nodes(),
                final(self).nodes(),
                parent.kids()[child_idx as int],
                parent.kids()[child_idx + 1],
                parent.page_id,
                (leaf.entries@.len() + 1int, right.entries@.len() - 1),
            ),
    {
        let ghost pm0 = self.pm;
        let ghost n0 = self.nodes();
        let ghost cfg = self.meta.config;
        let ghost caps = self.caps();
        let ghost id = parent.page_id;
        let ghost keys = parent.keys();
        let ghost kids = parent.kids();
        let ghost a = child_idx as int;
        let ghost right0 = right;
        let ghost leaf0 = leaf;
        let ghost es = leaf.model() + right.model();
        let ghost m: int = leaf.entries@.len() + 1int;
        proof {
            lemma_sub_root::<K>(pm0, cfg, id, 1, lo, hi, nxt, caps);
            lemma_cap_bounds::<K>(cfg);
            lemma_leaves_open::<K>(pm0, cfg, id, lo, hi, nxt, caps, keys, kids, a);
            lemma_child_root::<K>(pm0, cfg, id, 0, lo, hi, nxt, caps, keys, kids, a + 1);
        }
        let moved: LeafEntry<K> = right.entries.remove(0);
        right.num_entries = right.num_entries - 1;
        leaf.entries.push(moved);
        leaf.num_entries = leaf.num_entries + 1;
        proof {
            assert(right.entries@ =~= right0.entries@.skip(1));
            assert(leaf.entries@ =~= leaf0.entries@.push(right0.entries@[0]));
            assert(leaf.model() =~= es.take(m));
            assert(right.model() =~= es.skip(m));
            assert forall|i: int| 0 <= i < right.entries@.len() implies K::key_ok(
                (#[trigger] right.entries@[i]).key.kview(),
                cfg,
            ) by {
                assert(right.entries@[i] == right0.entries@[i + 1]);
            }
            assert(right.entries@[0].key.kview() == es[m].0);
        }
        let sep: K = right.entries[0].key.dup();
        parent.set_key(child_idx, sep);
        match self.save_leaf(&leaf) {
            Ok(_) => {},
            Err(e) => {
                return Err(e);
            },
        }
        let ghost pm1 = self.pm;
        match self.save_leaf(&right) {
            Ok(_) => {},
            Err(e) => {
                return Err(e);
            },
        }
        let ghost pm2 = self.pm;
        proof {
            lemma_free_same(pm0, pm1);
            lemma_free_same(pm1, pm2);
            lemma_leaves_moved::<K>(
                pm0,
                pm2,
                cfg,
                id,
                lo,
                hi,
                nxt,
                caps,
                keys,
                kids,
                a,
                m,
            );
        }
        match self.save_internal(&parent) {
            Ok(_) => {},
            Err(e) => {
                return Err(e);
            },
        }
        proof {
            lemma_free_same(pm2, self.pm);
            lemma_finish::<K>(
                pm0,
                pm2,
                self.pm,
                cfg,
                id,
                0,
                lo,
                hi,
                nxt,
                caps,
                parent.keys(),
                parent.kids(),
                flat(n0, id, 1),
            );
            assert(back_at(pm1, kids[a + 1] as int) == back_at(pm0, kids[a + 1] as int)) by {
                reveal(rewritten);
                assert(pm1.pages@[kids[a + 1] as int] == pm0.pages@[kids[a + 1] as int]);
            }
            lemma_recycled_then::<K>(pm0, pm1, pm2, cfg);
            lemma_recycled_then::<K>(pm0, pm2, self.pm, cfg);
            lemma_neighbours_repaired(
                n0,
                nodes_of::<K>(pm1, cfg),
                nodes_of::<K>(pm2, cfg),
                self.nodes(),
                least::<K>(cfg),
                kids[a],
                leaf.node(),
                kids[a + 1],
                right.node(),
                id,
                parent.node(),
                kids[child_idx as int],
                kids,
            );
        }
        Ok(Touched::Kept)
    }

    /// Merges a leaf into its left neighbour and drops it from the parent.
    #[verifier::rlimit(40)]
    fn merge_leaves(
        &mut self,
        mut left: LeafNode<K>,
        mut right: LeafNode<K>,
        mut parent: InternalNode<K>,
        right_child_idx: usize,
        Ghost(lo): Ghost<Bound>,
        Ghost(hi): Ghost<Bound>,
        Ghost(nxt): Ghost<u32>,
        child: Ghost<u32>,
    ) -> (r: Result<Touched>)
        requires
            sub_ok::<K>(
                old(self).pm,
                old(self).meta.config,
                parent.page_id,
                1,
                lo,
                hi,
                nxt,
                old(self).caps(),
            ),
            parent.ok(old(self).meta.config),
            parent.node() == old(self).nodes()[parent.page_id as int],
            child@ == parent.kids()[right_child_idx - 1] || child@
                == parent.kids()[right_child_idx as int],
            next_ok::<K>(old(self).pm, old(self).meta.config, nxt, old(self).caps()),
            nxt == 0 || !owns(old(self).nodes(), parent.page_id, 1, nxt as int),
            1 <= right_child_idx <= parent.entries@.len(),
            left.ok(old(self).meta.config),
            right.ok(old(self).meta.config),
            left.node() == old(self).nodes()[parent.kids()[right_child_idx - 1] as int],
            right.node() == old(self).nodes()[parent.kids()[right_child_idx as int] as int],
            left.prev_leaf == back_at(old(self).pm, parent.kids()[right_child_idx - 1] as int),
            left.entries@.len() + right.entries@.len() <= leaf_cap::<K>(old(self).meta.config),
        ensures
            r is Ok,
            final(self).meta == old(self).meta,
            rearranged::<K>(
                old(self).pm,
                final(self).pm,
                old(self).meta.config,
                parent.page_id,
                1,
                lo,
                hi,
                nxt,
                old(self).caps(),
            ),
            repaired(
                old(self).nodes(),
                final(self).nodes(),
                least::<K>(old(self).meta.config),
                parent.page_id,
                child@,
                parent.kids(),
                r->Ok_0,
            ),
            kept_tidy::<K>(old(self).pm, final(self).pm, old(self).meta.config),
            merged(
                old(self).nodes(),
                final(self).nodes(),
                parent.kids()[right_child_idx - 1],
                parent.kids()[right_child_idx as int],
                parent.page_id,
            ),
    {
        let ghost pm0 = self.pm;
        let ghost n0 = self.nodes();
        let ghost cfg = self.meta.config;
        let ghost caps = self.caps();
        let ghost id = parent.page_id;
        let ghost keys = parent.keys();
        let ghost kids = parent.kids();
        let ghost a = right_child_idx - 1;
        let ghost left0 = left;
        let ghost right0 = right;
        let ghost es = left.model() + right.model();
        let ghost cn = kid_next(n0, kids, 0, nxt, a + 1);
        proof {
            lemma_sub_root::<K>(pm0, cfg, id, 1, lo, hi, nxt, caps);
            lemma_cap_bounds::<K>(cfg);
            lemma_leaves_open::<K>(pm0, cfg, id, lo, hi, nxt, caps, keys, kids, a);
            lemma_next_outside::<K>(
                pm0,
                cfg,
                id,
                0,
                lo,
                hi,
                nxt,
                caps,
                keys,
                kids,
                a,
                a + 1,
            );
            lemma_next_outside::<K>(
                pm0,
                cfg,
                id,
                0,
                lo,
                hi,
                nxt,
                caps,
                keys,
                kids,
                a + 1,
                a + 1,
            );
            lemma_behind_ok::<K>(pm0, cfg, id, lo, hi, nxt, caps, keys, kids, a + 1);
            assert(cn != kids[a] && cn != kids[a + 1]);
        }
        left.entries.append(&mut right.entries);
        left.num_entries = left.entries.len() as u16;
        left.next_leaf = right.next_leaf;
        proof {
            assert(left.entries@ =~= left0.entries@ + right0.entries@);
            assert(left.model() =~= es);
            assert forall|i: int| 0 <= i < left.entries@.len() implies K::key_ok(
                (#[trigger] left.entries@[i]).key.kview(),
                cfg,
            ) by {
                if i < left0.entries@.len() {
                    assert(left.entries@[i] == left0.entries@[i]);
                } else {
                    assert(left.entries@[i] == right0.entries@[i - left0.entries@.len()]);
                }
            }
        }
        match self.join_leaves(&left, right.page_id) {
            Ok(_) => {},
            Err(e) => {
                return Err(e);
            },
        }
        let ghost pm2 = self.pm;
        proof {
            lemma_leaves_merged::<K>(pm0, pm2, cfg, id, lo, hi, nxt, caps, keys, kids, a);
        }
        let done: Result<Touched> = self.remove_from_internal(
            parent,
            right_child_idx,
            Ghost(pm0),
            Ghost(0nat),
            Ghost(lo),
            Ghost(hi),
            Ghost(nxt),
        );
        proof {
            lemma_recycled_then::<K>(pm0, pm2, self.pm, cfg);
            lemma_merged_repaired(
                n0,
                nodes_of::<K>(pm2, cfg),
                self.nodes(),
                least::<K>(cfg),
                kids[a],
                kids[a + 1],
                left.node(),
                id,
                self.nodes()[id as int],
                child@,
                kids,
            );
        }
        done
    }

    /// Saves a leaf that took in the one behind it, at page `gone`: that page is
    /// given back, and the leaf behind links back to the first.
    fn join_leaves(&mut self, left: &LeafNode<K>, gone: u32) -> (r: Result<()>)
        requires
            base_ok(old(self).pm),
            2 <= left.page_id < old(self).pm.count(),
            2 <= gone < old(self).pm.count(),
            left.page_id != gone,
            !old(self).pm.is_free(left.page_id as int),
            !old(self).pm.is_free(gone as int),
            left.ok(old(self).meta.config),
            left.entries@.len() <= old(self).caps().0,
            old(self).nodes()[left.page_id as int] is Leaf,
            old(self).nodes()[gone as int] is Leaf,
            next_at(old(self).nodes(), left.page_id) == gone,
            next_at(old(self).nodes(), gone) == left.next_leaf,
            left.prev_leaf == back_at(old(self).pm, left.page_id as int),
            left.next_leaf != left.page_id,
            left.next_leaf != gone,
            next_ok::<K>(old(self).pm, old(self).meta.config, left.next_leaf, old(self).caps()),
        ensures
            r is Ok,
            final(self).meta == old(self).meta,
            base_ok(final(self).pm),
            final(self).pm.count() == old(self).pm.count(),
            forall|x: int|
                #[trigger] final(self).pm.is_free(x) ==> old(self).pm.is_free(x) || x == gone,
            final(self).nodes()[left.page_id as int] == left.node(),
            final(self).nodes()[gone as int] is Other,
            forall|x: int|
                2 <= x < old(self).pm.count() && x != left.page_id && x != gone
                    ==> #[trigger] final(self).nodes()[x] == old(self).nodes()[x],
            tended::<K>(old(self).pm, final(self).pm, old(self).meta.config, -1),
            recycled::<K>(old(self).pm, final(self).pm, old(self).meta.config),
    {
        let ghost pm0 = self.pm;
        let ghost n0 = self.nodes();
        let ghost cfg = self.meta.config;
        proof {
            lemma_recycled_same::<K>(pm0, pm0, cfg);
        }
        if left.next_leaf != 0 {
            let mut next: LeafNode<K> = match self.load_leaf(left.next_leaf) {
                Ok(l) => l,
                Err(e) => {
                    return Err(e);
                },
            };
            let ghost next0 = next;
            next.prev_leaf = left.page_id;
            proof {
                assert(next.model() =~= next0.model());
                assert(next.entries@.len() == next.model().len());
            }
            match self.save_leaf(&next) {
                Ok(_) => {},
                Err(e) => {
                    return Err(e);
                },
            }
            proof {
                assert(self.nodes() =~= n0);
            }
        }
        let ghost pm1 = self.pm;
        proof {
            lemma_free_same(pm0, pm1);
        }
        match self.release_page(gone) {
            Ok(_) => {},
            Err(e) => {
                return Err(e);
            },
        }
        let ghost pm2 = self.pm;
        match self.save_leaf(left) {
            Ok(_) => {},
            Err(e) => {
                return Err(e);
            },
        }
        proof {
            lemma_free_same(pm2, self.pm);
            lemma_recycled_then::<K>(pm0, pm1, pm2, cfg);
            lemma_recycled_then::<K>(pm0, pm2, self.pm, cfg);
            assert forall|x: int|
                2 <= x < pm0.count() && x != left.page_id && x != gone implies
                #[trigger] self.nodes()[x] == n0[x] by {
                assert(nodes_of::<K>(pm2, cfg)[x] == nodes_of::<K>(pm1, cfg)[x]);
            }
            assert(nodes_of::<K>(pm2, cfg)[left.page_id as int] == n0[left.page_id as int]);
            reveal(rewritten);
            let (a, nxt) = (left.page_id, left.next_leaf);
            if linked_back::<K>(pm0, cfg) {
                assert forall|y: u32|
                    2 <= y < pm0.count() && y != a && y != gone && y != nxt implies
                    #[trigger] same_page(pm0, self.pm, y) by {
                    assert(pm1.pages@[y as int] == pm0.pages@[y as int]);
                    assert(pm2.pages@[y as int] == pm1.pages@[y as int]);
                    assert(self.pm.pages@[y as int] == pm2.pages@[y as int]);
                }
                if nxt != 0 {
                    assert(pm2.pages@[nxt as int] == pm1.pages@[nxt as int]);
                    assert(self.pm.pages@[nxt as int] == pm2.pages@[nxt as int]);
                }
                lemma_merge_links::<K>(pm0, self.pm, cfg, a, gone, nxt);
            }
        }
        Ok(())
    }

    /// Removes a child reference from an internal node after a merge.
    #[verifier::rlimit(40)]
    fn remove_from_internal(
        &mut self,
        mut parent: InternalNode<K>,
        merged_child_idx: usize,
        Ghost(pm0): Ghost<PageManager>,
        Ghost(lvl): Ghost<nat>,
        Ghost(lo): Ghost<Bound>,
        Ghost(hi): Ghost<Bound>,
        Ghost(nxt): Ghost<u32>,
    ) -> (r: Result<Touched>)
        requires
            sub_ok::<K>(
                pm0,
                old(self).meta.config,
                parent.page_id,
                lvl + 1,
                lo,
                hi,
                nxt,
                old(self).caps(),
            ),
            parent.ok(old(self).meta.config),
            parent.entries@.len() <= old(self).caps().1,
            old(self).nodes()[parent.page_id as int] == parent.node(),
            1 <= merged_child_idx <= parent.entries@.len(),
            old(self).pm.count() == pm0.count(),
            lifted::<K>(
                pm0,
                old(self).pm,
                old(self).meta.config,
                parent.page_id,
                lvl,
                lo,
                hi,
                nxt,
                old(self).caps(),
                parent.keys().remove(merged_child_idx - 1),
                parent.kids().remove(merged_child_idx as int),
                flat(
                    nodes_of::<K>(pm0, old(self).meta.config),
                    parent.page_id,
                    lvl + 1,
                ),
            ),
        ensures
            r is Ok,
            final(self).meta == old(self).meta,
            rearranged::<K>(
                pm0,
                final(self).pm,
                old(self).meta.config,
                parent.page_id,
                lvl + 1,
                lo,
                hi,
                nxt,
                old(self).caps(),
            ),
            r == Ok::<Touched, GrumpyError>(Touched::Shrunk),
            final(self).nodes().len() == old(self).nodes().len(),
            node_size(final(self).nodes()[parent.page_id as int]) == parent.entries@.len() - 1,
            final(self).nodes()[parent.page_id as int] is Internal,
            final(self).nodes() == old(self).nodes().update(
                parent.page_id as int,
                final(self).nodes()[parent.page_id as int],
            ),
            tended::<K>(old(self).pm, final(self).pm, old(self).meta.config, 1),
            recycled::<K>(old(self).pm, final(self).pm, old(self).meta.config),
    {
        let ghost pm2 = self.pm;
        let ghost kids0 = parent.kids();
        let ghost cfg = self.meta.config;
        let ghost caps = self.caps();
        let ghost id = parent.page_id;
        let ghost es = flat(nodes_of::<K>(pm0, cfg), id, lvl + 1);
        proof {
            lemma_sub_root::<K>(pm0, cfg, id, lvl + 1, lo, hi, nxt, caps);
            lemma_lifted_basic::<K>(
                pm0,
                pm2,
                cfg,
                id,
                lvl,
                lo,
                hi,
                nxt,
                caps,
                parent.keys().remove(merged_child_idx - 1),
                parent.kids().remove(merged_child_idx as int),
                es,
            );
        }
        parent.remove_child(merged_child_idx - 1);
        match self.save_internal(&parent) {
            Ok(_) => {},
            Err(e) => {
                return Err(e);
            },
        }
        proof {
            lemma_free_same(pm2, self.pm);
            lemma_finish::<K>(
                pm0,
                pm2,
                self.pm,
                cfg,
                id,
                lvl,
                lo,
                hi,
                nxt,
                caps,
                parent.keys(),
                parent.kids(),
                es,
            );
        }
        Ok(Touched::Shrunk)
    }

    /// Repairs an underfull internal node with the help of a neighbour under
    /// the same parent: the left one if there is one, else the right one.
    #[verifier::rlimit(40)]
    pub(crate) fn rebalance_internal(
        &mut self,
        node: InternalNode<K>,
        parent: InternalNode<K>,
        child_idx: usize,
        Ghost(lvl): Ghost<nat>,
        Ghost(lo): Ghost<Bound>,
        Ghost(hi): Ghost<Bound>,
        Ghost(nxt): Ghost<u32>,
    ) -> (r: Result<Touched>)
        requires
            sub_ok::<K>(
                old(self).pm,
                old(self).meta.config,
                parent.page_id,
                lvl + 2,
                lo,
                hi,
                nxt,
                old(self).caps(),
            ),
            parent.ok(old(self).meta.config),
            parent.node() == old(self).nodes()[parent.page_id as int],
            child_idx <= parent.entries@.len(),
            node.ok(old(self).meta.config),
            node.node() == old(self).nodes()[parent.kids()[child_idx as int] as int],
            node.entries@.len() < internal_cap::<K>(old(self).meta.config) * 40 / 100,
        ensures
            r is Ok,
            final(self).meta == old(self).meta,
            rearranged::<K>(
                old(self).pm,
                final(self).pm,
                old(self).meta.config,
                parent.page_id,
                lvl + 2,
                lo,
                hi,
                nxt,
                old(self).caps(),
            ),
            repaired(
                old(self).nodes(),
                final(self).nodes(),
                least::<K>(old(self).meta.config),
                parent.page_id,
                parent.kids()[child_idx as int],
                parent.kids(),
                r->Ok_0,
            ),
            kept_tidy::<K>(old(self).pm, final(self).pm, old(self).meta.config),
            mended(
                old(self).nodes(),
                final(self).nodes(),
                parent.page_id,
                parent.kids(),
                child_idx as int,
                internal_cap::<K>(old(self).meta.config) * 40 / 100,
            ),
    {
        let ghost pm0 = self.pm;
        let ghost n0 = self.nodes();
        let ghost cfg = self.meta.config;
        let ghost caps = self.caps();
        let ghost id = parent.page_id;
        let ghost keys = parent.keys();
        let ghost kids = parent.kids();
        let min: usize = internal_min_keys::<K>(self.meta.config);
        proof {
            lemma_sub_root::<K>(pm0, cfg, id, lvl + 2, lo, hi, nxt, caps);
        }
        if child_idx > 0 {
            let left_id: u32 = parent.child_at(child_idx - 1);
            proof {
                lemma_child_root::<K>(
                    pm0,
                    cfg,
                    id,
                    lvl + 1,
                    lo,
                    hi,
                    nxt,
                    caps,
                    keys,
                    kids,
                    child_idx - 1,
                );
            }
            let left: InternalNode<K> = match self.load_internal(left_id) {
                Ok(l) => l,
                Err(e) => {
                    return Err(e);
                },
            };
            if left.entries.len() > min {
                return self.redistribute_internal_from_left(
                    left,
                    node,
                    parent,
                    child_idx,
                    Ghost(lvl),
                    Ghost(lo),
                    Ghost(hi),
                    Ghost(nxt),
                );
            }
            return self.merge_internal(
                left,
                node,
                parent,
                child_idx,
                Ghost(lvl),
                Ghost(lo),
                Ghost(hi),
                Ghost(nxt),
                Ghost(kids[child_idx as int]),
            );
        }
        if child_idx < parent.entries.len() {
            let right_id: u32 = parent.child_at(child_idx + 1);
            proof {
                lemma_child_root::<K>(
                    pm0,
                    cfg,
                    id,
                    lvl + 1,
                    lo,
                    hi,
                    nxt,
                    caps,
                    keys,
                    kids,
                    child_idx + 1,
                );
            }
            let right: InternalNode<K> = match self.load_internal(right_id) {
                Ok(l) => l,
                Err(e) => {
                    return Err(e);
                },
            };
            if right.entries.len() > min {
                return self.redistribute_internal_from_right(
                    node,
                    right,
                    parent,
                    child_idx,
                    Ghost(lvl),
                    Ghost(lo),
                    Ghost(hi),
                    Ghost(nxt),
                );
            }
            return self.merge_internal(
                node,
                right,
                parent,
                child_idx + 1,
                Ghost(lvl),
                Ghost(lo),
                Ghost(hi),
                Ghost(nxt),
                Ghost(kids[child_idx as int]),
            );
        }
        proof {
            lemma_unchanged::<K>(pm0, cfg, id, lvl + 2, lo, hi, nxt, caps);
        }
        proof {
            lemma_recycled_same::<K>(pm0, self.pm, cfg);
            lemma_none_repaired(
                n0,
                least::<K>(cfg),
                id,
                kids[child_idx as int],
                kids,
            );
        }
        Ok(Touched::Kept)
    }

    /// Moves the last child of the left neighbour to the front of a node, its
    /// key up to the parent and the parent's separator down.
    #[verifier::rlimit(60)]
    fn redistribute_internal_from_left(
        &mut self,
        mut left: InternalNode<K>,
        mut node: InternalNode<K>,
        mut parent: InternalNode<K>,
        child_idx: usize,
        Ghost(lvl): Ghost<nat>,
        Ghost(lo): Ghost<Bound>,
        Ghost(hi): Ghost<Bound>,
        Ghost(nxt): Ghost<u32>,
    ) -> (r: Result<Touched>)
        requires
            sub_ok::<K>(
                old(self).pm,
                old(self).meta.config,
                parent.page_id,
                lvl + 2,
                lo,
                hi,
                nxt,
                old(self).caps(),
            ),
            parent.ok(old(self).meta.config),
            parent.node() == old(self).nodes()[parent.page_id as int],
            1 <= child_idx <= parent.entries@.len(),
            left.ok(old(self).meta.config),
            node.ok(old(self).meta.config),
            left.node() == old(self).nodes()[parent.kids()[child_idx - 1] as int],
            node.node() == old(self).nodes()[parent.kids()[child_idx as int] as int],
            node.entries@.len() < internal_cap::<K>(old(self).meta.config) * 40 / 100,
            left.entries@.len() > internal_cap::<K>(old(self).meta.config) * 40 / 100,
            left.entries@.len() >= 1,
        ensures
            r is Ok,
            final(self).meta == old(self).meta,
            rearranged::<K>(
                old(self).pm,
                final(self).pm,
                old(self).meta.config,
                parent.page_id,
                lvl + 2,
                lo,
                hi,
                nxt,
                old(self).caps(),
            ),
            repaired(
                old(self).nodes(),
                final(self).nodes(),
                least::<K>(old(self).meta.config),
                parent.page_id,
                parent.kids()[child_idx as int],
                parent.kids(),
                r->Ok_0,
            ),
            kept_tidy::<K>(old(self).pm, final(self).pm, old(self).meta.config),
            evened(
                old(self).nodes(),
                final(self).nodes(),
                parent.kids()[child_idx - 1],
                parent.kids()[child_idx as int],
                parent.page_id,
                (left.entries@.len() - 1, node.entries@.len() + 1int),
            ),
    {
        let ghost pm0 = self.pm;
        let ghost n0 = self.nodes();
        let ghost cfg = self.meta.config;
        let ghost caps = self.caps();
        let ghost id = parent.page_id;
        let ghost keys = parent.keys();
        let ghost kids = parent.kids();
        let ghost a = child_idx - 1;
        let ghost left0 = left;
        let ghost node0 = node;
        let ghost jk = left.keys() + seq![keys[a]] + node.keys();
        let ghost jc = left.kids() + node.kids();
        let ghost p = left.entries@.len() - 1;
        proof {
            lemma_sub_root::<K>(pm0, cfg, id, lvl + 2, lo, hi, nxt, caps);
            lemma_cap_bounds::<K>(cfg);
            lemma_child_root::<K>(pm0, cfg, id, lvl + 1, lo, hi, nxt, caps, keys, kids, a);
            lemma_child_root::<K>(pm0, cfg, id, lvl + 1, lo, hi, nxt, caps, keys, kids, a + 1);
            lemma_two_apart::<K>(pm0, cfg, id, lvl + 1, lo, hi, nxt, caps, keys, kids, a);
            assert(keys[a] == parent.entries@[a].key.kview());
        }
        let separator: K = parent.entries[child_idx - 1].key.dup();
        node.entries.insert(
            0,
            InternalEntry { key: separator, child_page_id: left.right_child },
        );
        node.num_keys = node.num_keys + 1;
        let moved_up: InternalEntry<K> = match left.entries.pop() {
            Some(e) => e,
            None => {
                return Err(
                    GrumpyError::Corruption(
                        owned("redistribute_internal_from_left: empty left sibling"),
                    ),
                );
            },
        };
        left.num_keys = left.num_keys - 1;
        left.right_child = moved_up.child_page_id;
        proof {
            assert(left0.entries@.last() == left0.entries@[p]);
            assert(left.entries@ =~= left0.entries@.take(p));
            assert(left.keys() =~= jk.take(p));
            assert(left.kids() =~= jc.take(p + 1));
            assert(node.keys() =~= jk.skip(p + 1));
            assert(node.kids() =~= jc.skip(p + 1));
            assert(jk[p] == moved_up.key.kview());
            assert forall|i: int| 0 <= i < node.entries@.len() implies K::key_ok(
                (#[trigger] node.entries@[i]).key.kview(),
                cfg,
            ) by {
                if i > 0 {
                    assert(node.entries@[i] == node0.entries@[i - 1]);
                }
            }
        }
        parent.set_key(child_idx - 1, moved_up.key);
        match self.save_internal(&left) {
            Ok(_) => {},
            Err(e) => {
                return Err(e);
            },
        }
        let ghost pm1 = self.pm;
        match self.save_internal(&node) {
            Ok(_) => {},
            Err(e) => {
                return Err(e);
            },
        }
        let ghost pm2 = self.pm;
        proof {
            lemma_free_same(pm0, pm1);
            lemma_free_same(pm1, pm2);
            lemma_nodes_moved::<K>(
                pm0,
                pm2,
                cfg,
                id,
                lvl,
                lo,
                hi,
                nxt,
                caps,
                keys,
                kids,
                a,
                left0.keys(),
                left0.kids(),
                node0.keys(),
                node0.kids(),
                p,
            );
        }
        match self.save_internal(&parent) {
            Ok(_) => {},
            Err(e) => {
                return Err(e);
            },
        }
        proof {
            lemma_free_same(pm2, self.pm);
            lemma_finish::<K>(
                pm0,
                pm2,
                self.pm,
                cfg,
                id,
                lvl + 1,
                lo,
                hi,
                nxt,
                caps,
                parent.keys(),
                parent.kids(),
                flat(n0, id, lvl + 2),
            );
            lemma_recycled_then::<K>(pm0, pm1, pm2, cfg);
            lemma_recycled_then::<K>(pm0, pm2, self.pm, cfg);
            lemma_neighbours_repaired(
                n0,
                nodes_of::<K>(pm1, cfg),
                nodes_of::<K>(pm2, cfg),
                self.nodes(),
                least::<K>(cfg),
                kids[a],
                left.node(),
                kids[a + 1],
                node.node(),
                id,
                parent.node(),
                kids[child_idx as int],
                kids,
            );
        }
        Ok(Touched::Kept)
    }

    /// Moves the first child of the right neighbour to the end of a node, its
    /// key up to the parent and the parent's separator down.
    #[verifier::rlimit(60)]
    fn redistribute_internal_from_right(
        &mut self,
        mut node: InternalNode<K>,
        mut right: InternalNode<K>,
        mut parent: InternalNode<K>,
        child_idx: usize,
        Ghost(lvl): Ghost<nat>,
        Ghost(lo): Ghost<Bound>,
        Ghost(hi): Ghost<Bound>,
        Ghost(nxt): Ghost<u32>,
    ) -> (r: Result<Touched>)
        requires
            sub_ok::<K>(
                old(self).pm,
                old(self).meta.config,
                parent.page_id,
                lvl + 2,
                lo,
                hi,
                nxt,
                old(self).caps(),
            ),
            parent.ok(old(self).meta.config),
            parent.node() == old(self).nodes()[parent.page_id as int],
            child_idx < parent.entries@.len(),
            right.ok(old(self).meta.config),
            node.ok(old(self).meta.config),
            node.node() == old(self).nodes()[parent.kids()[child_idx as int] as int],
            right.node() == old(self).nodes()[parent.kids()[child_idx + 1] as int],
            node.entries@.len() < internal_cap::<K>(old(self).meta.config) * 40 / 100,
            right.entries@.len() > internal_cap::<K>(old(self).meta.config) * 40 / 100,
            right.entries@.len() >= 1,
        ensures
            r is Ok,
            final(self).meta == old(self).meta,
            rearranged::<K>(
                old(self).pm,
                final(self).pm,
                old(self).meta.config,
                parent.page_id,
                lvl + 2,
                lo,
                hi,
                nxt,
                old(self).caps(),
            ),
            repaired(
                old(self).nodes(),
                final(self).nodes(),
                least::<K>(old(self).meta.config),
                parent.page_id,
                parent.kids()[child_idx as int],
                parent.kids(),
                r->Ok_0,
            ),
            kept_tidy::<K>(old(self).pm, final(self).pm, old(self).meta.config),
            evened(
                old(self).nodes(),
                final(self).nodes(),
                parent.kids()[child_idx as int],
                parent.kids()[child_idx + 1],
                parent.page_id,
                (node.entries@.len() + 1int, right.entries@.len() - 1),
            ),
    {
        let ghost pm0 = self.pm;
        let ghost n0 = self.nodes();
        let ghost cfg = self.meta.config;
        let ghost caps = self.caps();
        let ghost id = parent.page_id;
        let ghost keys = parent.keys();
        let ghost kids = parent.kids();
        let ghost a = child_idx as int;
        let ghost right0 = right;
        let ghost node0 = node;
        let ghost jk = node.keys() + seq![keys[a]] + right.keys();
        let ghost jc = node.kids() + right.kids();
        let ghost p: int = node.entries@.len() + 1int;
        proof {
            lemma_sub_root::<K>(pm0, cfg, id, lvl + 2, lo, hi, nxt, caps);
            lemma_cap_bounds::<K>(cfg);
            lemma_child_root::<K>(pm0, cfg, id, lvl + 1, lo, hi, nxt, caps, keys, kids, a);
            lemma_child_root::<K>(pm0, cfg, id, lvl + 1, lo, hi, nxt, caps, keys, kids, a + 1);
            lemma_two_apart::<K>(pm0, cfg, id, lvl + 1, lo, hi, nxt, caps, keys, kids, a);
            assert(keys[a] == parent.entries@[a].key.kview());
        }
        let separator: K = parent.entries[child_idx].key.dup();
        node.entries.push(InternalEntry { key: separator, child_page_id: node.right_child });
        node.num_keys = node.num_keys + 1;
        let moved_up: InternalEntry<K> = right.entries.remove(0);
        right.num_keys = right.num_keys - 1;
        node.right_child = moved_up.child_page_id;
        proof {
            assert(right.entries@ =~= right0.entries@.skip(1));
            assert(node.keys() =~= jk.take(p));
            assert(node.kids() =~= jc.take(p + 1));
            assert(right.keys() =~= jk.skip(p + 1));
            assert(right.kids() =~= jc.skip(p + 1));
            assert(jk[p] == moved_up.key.kview());
            assert forall|i: int| 0 <= i < right.entries@.len() implies K::key_ok(
                (#[trigger] right.entries@[i]).key.kview(),
                cfg,
            ) by {
                assert(right.entries@[i] == right0.entries@[i + 1]);
            }
        }
        parent.set_key(child_idx, moved_up.key);
        match self.save_internal(&node) {
            Ok(_) => {},
            Err(e) => {
                return Err(e);
            },
        }
        let ghost pm1 = self.pm;
        match self.save_internal(&right) {
            Ok(_) => {},
            Err(e) => {
                return Err(e);
            },
        }
        let ghost pm2 = self.pm;
        proof {
            lemma_free_same(pm0, pm1);
            lemma_free_same(pm1, pm2);
            lemma_nodes_moved::<K>(
                pm0,
                pm2,
                cfg,
                id,
                lvl,
                lo,
                hi,
                nxt,
                caps,
                keys,
                kids,
                a,
                node0.keys(),
                node0.kids(),
                right0.keys(),
                right0.kids(),
                p,
            );
        }
        match self.save_internal(&parent) {
            Ok(_) => {},
            Err(e) => {
                return Err(e);
            },
        }
        proof {
            lemma_free_same(pm2, self.pm);
            lemma_finish::<K>(
                pm0,
                pm2,
                self.pm,
                cfg,
                id,
                lvl + 1,
                lo,
                hi,
                nxt,
                caps,
                parent.keys(),
                parent.kids(),
                flat(n0, id, lvl + 2),
            );
            lemma_recycled_then::<K>(pm0, pm1, pm2, cfg);
            lemma_recycled_then::<K>(pm0, pm2, self.pm, cfg);
            lemma_neighbours_repaired(
                n0,
                nodes_of::<K>(pm1, cfg),
                nodes_of::<K>(pm2, cfg),
                self.nodes(),
                least::<K>(cfg),
                kids[a],
                node.node(),
                kids[a + 1],
                right.node(),
                id,
                parent.node(),
                kids[child_idx as int],
                kids,
            );
        }
        Ok(Touched::Kept)
    }

    /// Merges an internal node into its left neighbour, with the parent's
    /// separator between them, and drops it from the parent.
    #[verifier::rlimit(60)]
    fn merge_internal(
        &mut self,
        mut left: InternalNode<K>,
        mut right: InternalNode<K>,
        parent: InternalNode<K>,
        right_child_idx: usize,
        Ghost(lvl): Ghost<nat>,
        Ghost(lo): Ghost<Bound>,
        Ghost(hi): Ghost<Bound>,
        Ghost(nxt): Ghost<u32>,
        child: Ghost<u32>,
    ) -> (r: Result<Touched>)
        requires
            sub_ok::<K>(
                old(self).pm,
                old(self).meta.config,
                parent.page_id,
                lvl + 2,
                lo,
                hi,
                nxt,
                old(self).caps(),
            ),
            parent.ok(old(self).meta.config),
            parent.node() == old(self).nodes()[parent.page_id as int],
            child@ == parent.kids()[right_child_idx - 1] || child@
                == parent.kids()[right_child_idx as int],
            1 <= right_child_idx <= parent.entries@.len(),
            left.ok(old(self).meta.config),
            right.ok(old(self).meta.config),
            left.node() == old(self).nodes()[parent.kids()[right_child_idx - 1] as int],
            right.node() == old(self).nodes()[parent.kids()[right_child_idx as int] as int],
            left.entries@.len() + 1 + right.entries@.len() <= internal_cap::<K>(
                old(self).meta.config,
            ),
        ensures
            r is Ok,
            final(self).meta == old(self).meta,
            rearranged::<K>(
                old(self).pm,
                final(self).pm,
                old(self).meta.config,
                parent.page_id,
                lvl + 2,
                lo,
                hi,
                nxt,
                old(self).caps(),
            ),
            repaired(
                old(self).nodes(),
                final(self).nodes(),
                least::<K>(old(self).meta.config),
                parent.page_id,
                child@,
                parent.kids(),
                r->Ok_0,
            ),
            kept_tidy::<K>(old(self).pm, final(self).pm, old(self).meta.config),
            merged(
                old(self).nodes(),
                final(self).nodes(),
                parent.kids()[right_child_idx - 1],
                parent.kids()[right_child_idx as int],
                parent.page_id,
            ),
    {
        let ghost pm0 = self.pm;
        let ghost n0 = self.nodes();
        let ghost cfg = self.meta.config;
        let ghost caps = self.caps();
        let ghost id = parent.page_id;
        let ghost keys = parent.keys();
        let ghost kids = parent.kids();
        let ghost a = right_child_idx - 1;
        let ghost left0 = left;
        let ghost right0 = right;
        let ghost jk = left.keys() + seq![keys[a]] + right.keys();
        let ghost jc = left.kids() + right.kids();
        proof {
            lemma_sub_root::<K>(pm0, cfg, id, lvl + 2, lo, hi, nxt, caps);
            lemma_cap_bounds::<K>(cfg);
            lemma_child_root::<K>(pm0, cfg, id, lvl + 1, lo, hi, nxt, caps, keys, kids, a);
            lemma_child_root::<K>(pm0, cfg, id, lvl + 1, lo, hi, nxt, caps, keys, kids, a + 1);
            lemma_two_apart::<K>(pm0, cfg, id, lvl + 1, lo, hi, nxt, caps, keys, kids, a);
            assert(keys[a] == parent.entries@[a].key.kview());
        }
        let separator: K = parent.entries[right_child_idx - 1].key.dup();
        left.entries.push(InternalEntry { key: separator, child_page_id: left.right_child });
        left.entries.append(&mut right.entries);
        left.num_keys = left.entries.len() as u16;
        left.right_child = right.right_child;
        proof {
            assert(left.keys() =~= jk);
            assert(left.kids() =~= jc);
            assert forall|i: int| 0 <= i < left.entries@.len() implies K::key_ok(
                (#[trigger] left.entries@[i]).key.kview(),
                cfg,
            ) by {
                let n = left0.entries@.len();
                if i < n {
                    assert(left.entries@[i] == left0.entries@[i]);
                } else if i > n {
                    assert(left.entries@[i] == right0.entries@[i - n - 1]);
                }
            }
        }
        match self.release_page(right.page_id) {
            Ok(_) => {},
            Err(e) => {
                return Err(e);
            },
        }
        let ghost pm1 = self.pm;
        match self.save_internal(&left) {
            Ok(_) => {},
            Err(e) => {
                return Err(e);
            },
        }
        let ghost pm2 = self.pm;
        proof {
            lemma_free_same(pm1, pm2);
            assert forall|x: int|
                2 <= x < pm0.count() && x != kids[a] && x != kids[a + 1] implies
                #[trigger] nodes_of::<K>(pm2, cfg)[x] == n0[x] by {
                assert(nodes_of::<K>(pm1, cfg)[x] == n0[x]);
            }
            lemma_nodes_merged::<K>(
                pm0,
                pm2,
                cfg,
                id,
                lvl,
                lo,
                hi,
                nxt,
                caps,
                keys,
                kids,
                a,
                left0.keys(),
                left0.kids(),
                right0.keys(),
                right0.kids(),
            );
        }
        let done: Result<Touched> = self.remove_from_internal(
            parent,
            right_child_idx,
            Ghost(pm0),
            Ghost(lvl + 1),
            Ghost(lo),
            Ghost(hi),
            Ghost(nxt),
        );
        proof {
            lemma_recycled_then::<K>(pm0, pm1, pm2, cfg);
            lemma_recycled_then::<K>(pm0, pm2, self.pm, cfg);
            assert(left.kids().len() == left0.kids().len() + right0.kids().len());
            lemma_merged_repaired(
                n0,
                nodes_of::<K>(pm2, cfg),
                self.nodes(),
                least::<K>(cfg),
                kids[a],
                kids[a + 1],
                left.node(),
                id,
                self.nodes()[id as int],
                child@,
                kids,
            );
        }
        done
    }
}

/// Two neighbouring children have pages of their own, in use and apart from
/// the node's.
proof fn lemma_two_apart<K: Key>(
    pm: PageManager,
    cfg: K::Config,
    id: u32,
    lvl: nat,
    lo: Bound,
    hi: Bound,
    nxt: u32,
    caps: (nat, nat),
    keys: Seq<Seq<u8>>,
    kids: Seq<u32>,
    a: int,
)
    requires
        sub_ok::<K>(pm, cfg, id, lvl + 1, lo, hi, nxt, caps),
        nodes_of::<K>(pm, cfg)[id as int] == (NodeM::Internal { pid: id, keys, kids }),
        0 <= a,
        a + 1 < kids.len(),
    ensures
        kids[a] != kids[a + 1],
        id != kids[a],
        id != kids[a + 1],
        !pm.is_free(kids[a] as int),
        !pm.is_free(kids[a + 1] as int),
{
    let n = nodes_of::<K>(pm, cfg);
    lemma_open_node::<K>(pm, cfg, id, lvl, lo, hi, nxt, caps, keys, kids);
    assert(owns(n, kids[a], lvl, kids[a] as int));
    assert(owns(n, kids[a + 1], lvl, kids[a + 1] as int));
    assert(kids_own(n, kids, lvl, kids[a] as int));
    assert(kids_own(n, kids, lvl, kids[a + 1] as int));
    assert(!(owns(n, kids[a], lvl, kids[a] as int) && owns(n, kids[a + 1], lvl, kids[a] as int)));
}

/// The leaf behind a child can be rewritten.
proof fn lemma_behind_ok<K: Key>(
    pm: PageManager,
    cfg: K::Config,
    id: u32,
    lo: Bound,
    hi: Bound,
    nxt: u32,
    caps: (nat, nat),
    keys: Seq<Seq<u8>>,
    kids: Seq<u32>,
    i: int,
)
    requires
        sub_ok::<K>(pm, cfg, id, 1, lo, hi, nxt, caps),
        nodes_of::<K>(pm, cfg)[id as int] == (NodeM::Internal { pid: id, keys, kids }),
        next_ok::<K>(pm, cfg, nxt, caps),
        0 <= i < kids.len(),
    ensures
        next_ok::<K>(pm, cfg, kid_next(nodes_of::<K>(pm, cfg), kids, 0, nxt, i), caps),
{
    lemma_open_node::<K>(pm, cfg, id, 0, lo, hi, nxt, caps, keys, kids);
    lemma_kid_next_ok::<K>(pm, cfg, keys, kids, 0, lo, hi, nxt, caps, i);
}

} // verus!
