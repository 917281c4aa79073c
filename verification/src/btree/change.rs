//! Changes to a subtree, and what they mean for the tree around it.

use vstd::prelude::*;

use crate::btree::key::Key;
use crate::btree::entries::{absent_at, lemma_middle, present_at};
use crate::btree::node::{entry_keys, keys_sorted, upper_bound, Entry};
use crate::btree::tree::{
    above, below, distinct, first_leaf, flat, kid_hi, kid_lo, kid_next, kids_distinct, kids_flat,
    kids_ok, kids_own, lemma_cat_one, lemma_descend, lemma_frame, lemma_frame_ok, lemma_kids_cut,
    lemma_kids_frame, lemma_kids_one, lemma_kids_replace, lemma_kids_split, lemma_pair,
    lemma_single, lemma_sorted_keys, nodes_of, one_kid, owns, put_keys, put_kids, same_below,
    sorted, strictly_above, tree_ok, two_kids, within, Bound, NodeM,
};
use crate::page::manager::PageManager;

verus! {

/// The file has its free-list and meta page, and the meta page is in use.
pub open spec fn base_ok(pm: PageManager) -> bool {
    &&& pm.free_ok()
    &&& pm.count() >= 2
    &&& !pm.is_free(1)
}

/// The node at page `id` roots a search tree of its own pages, all in use.
#[verifier::opaque]
pub open spec fn sub_ok<K: Key>(
    pm: PageManager,
    cfg: K::Config,
    id: u32,
    lvl: nat,
    lo: Bound,
    hi: Bound,
    nxt: u32,
    caps: (nat, nat),
) -> bool {
    let n = nodes_of::<K>(pm, cfg);
    &&& base_ok(pm)
    &&& tree_ok(n, id, lvl, lo, hi, nxt, caps)
    &&& distinct(n, id, lvl)
    &&& forall|x: int| #[trigger] owns(n, id, lvl, x) ==> !pm.is_free(x)
}

/// Nothing changed outside the trees `ok` of `pm0` and its free pages, and
/// what became free came from there.
pub open spec fn outside_kept<K: Key>(
    pm0: PageManager,
    pm1: PageManager,
    cfg: K::Config,
    lvl: nat,
    ok: Seq<u32>,
) -> bool {
    let n0 = nodes_of::<K>(pm0, cfg);
    let n1 = nodes_of::<K>(pm1, cfg);
    &&& base_ok(pm1)
    &&& pm0.count() <= pm1.count()
    &&& forall|x: int|
        2 <= x < pm0.count() && !kids_own(n0, ok, lvl, x) && !pm0.is_free(x) ==> #[trigger] n1[x]
            == n0[x]
    &&& forall|x: int|
        #[trigger] pm1.is_free(x) ==> pm0.is_free(x) || kids_own(n0, ok, lvl, x) || x
            >= pm0.count()
}

/// From `pm0` to `pm1`, the trees `ok` became the trees `rk` parted by
/// `rkeys`, which hold `es`; nothing else changed.
#[verifier::opaque]
pub open spec fn changed<K: Key>(
    pm0: PageManager,
    pm1: PageManager,
    cfg: K::Config,
    lvl: nat,
    ok: Seq<u32>,
    lo: Bound,
    hi: Bound,
    nxt: u32,
    caps: (nat, nat),
    rkeys: Seq<Seq<u8>>,
    rk: Seq<u32>,
    es: Seq<Entry>,
) -> bool {
    let n0 = nodes_of::<K>(pm0, cfg);
    let n1 = nodes_of::<K>(pm1, cfg);
    &&& outside_kept::<K>(pm0, pm1, cfg, lvl, ok)
    &&& kids_ok(n1, rkeys, rk, lvl, lo, hi, nxt, caps)
    &&& kids_distinct(n1, rk, lvl)
    &&& first_leaf(n1, rk[0], lvl) == first_leaf(n0, ok[0], lvl)
    &&& forall|x: int|
        #[trigger] kids_own(n1, rk, lvl, x) ==> !pm1.is_free(x) && (kids_own(n0, ok, lvl, x)
            || pm0.is_free(x) || x >= pm0.count())
    &&& kids_flat(n1, rk, lvl) == es
}

// ── Single nodes ────────────────────────────────────────────────────────

pub proof fn lemma_leaf_ok(
    n: Seq<NodeM>,
    id: u32,
    lo: Bound,
    hi: Bound,
    nxt: u32,
    caps: (nat, nat),
    es: Seq<Entry>,
)
    requires
        2 <= id < n.len(),
        n[id as int] == (NodeM::Leaf { pid: id, next: nxt, entries: es }),
        es.len() <= caps.0,
        sorted(es),
        within(es, lo, hi),
    ensures
        tree_ok(n, id, 0, lo, hi, nxt, caps),
        flat(n, id, 0) == es,
        first_leaf(n, id, 0) == id,
        distinct(n, id, 0),
        forall|x: int| #[trigger] owns(n, id, 0, x) == (x == id),
{
    lemma_cat_one(n, id);
    lemma_sorted_keys(es);
}

pub proof fn lemma_internal_ok(
    n: Seq<NodeM>,
    id: u32,
    lvl: nat,
    lo: Bound,
    hi: Bound,
    nxt: u32,
    caps: (nat, nat),
    keys: Seq<Seq<u8>>,
    kids: Seq<u32>,
)
    requires
        2 <= id < n.len(),
        n[id as int] == (NodeM::Internal { pid: id, keys, kids }),
        keys.len() <= caps.1,
        kids_ok(n, keys, kids, lvl, lo, hi, nxt, caps),
        kids_distinct(n, kids, lvl),
        !kids_own(n, kids, lvl, id as int),
    ensures
        tree_ok(n, id, lvl + 1, lo, hi, nxt, caps),
        flat(n, id, lvl + 1) == kids_flat(n, kids, lvl),
        first_leaf(n, id, lvl + 1) == first_leaf(n, kids[0], lvl),
        distinct(n, id, lvl + 1),
        forall|x: int|
            #[trigger] owns(n, id, lvl + 1, x) == (x == id || kids_own(n, kids, lvl, x)),
{
}

/// Trees keep what they are when only pages outside them change.
pub proof fn lemma_kids_keep(
    n: Seq<NodeM>,
    m: Seq<NodeM>,
    keys: Seq<Seq<u8>>,
    kids: Seq<u32>,
    lvl: nat,
    lo: Bound,
    hi: Bound,
    nxt: u32,
    caps: (nat, nat),
)
    requires
        kids_ok(n, keys, kids, lvl, lo, hi, nxt, caps),
        kids_distinct(n, kids, lvl),
        forall|x: int|
            #[trigger] kids_own(n, kids, lvl, x) ==> 0 <= x < n.len() && x < m.len() && n[x]
                == m[x],
    ensures
        kids_ok(m, keys, kids, lvl, lo, hi, nxt, caps),
        kids_distinct(m, kids, lvl),
        kids_flat(m, kids, lvl) == kids_flat(n, kids, lvl),
        first_leaf(m, kids[0], lvl) == first_leaf(n, kids[0], lvl),
        forall|x: int| #[trigger] kids_own(m, kids, lvl, x) == kids_own(n, kids, lvl, x),
{
    assert forall|i: int| 0 <= i < kids.len() implies same_below(n, m, #[trigger] kids[i], lvl) by {
        assert forall|x: int| #[trigger] owns(n, kids[i], lvl, x) implies 0 <= x < n.len() && x
            < m.len() && n[x] == m[x] by {
            assert(kids_own(n, kids, lvl, x));
        }
    }
    lemma_kids_frame(n, m, kids, lvl);
    assert forall|i: int| 0 <= i < kids.len() implies tree_ok(
        m,
        #[trigger] kids[i],
        lvl,
        kid_lo(keys, lo, i),
        kid_hi(keys, hi, i),
        kid_next(m, kids, lvl, nxt, i),
        caps,
    ) by {
        if i + 1 < kids.len() {
            assert(same_below(n, m, kids[i + 1], lvl));
            lemma_frame(n, m, kids[i + 1], lvl);
        }
        lemma_frame_ok(
            n,
            m,
            kids[i],
            lvl,
            kid_lo(keys, lo, i),
            kid_hi(keys, hi, i),
            kid_next(n, kids, lvl, nxt, i),
            caps,
        );
    }
    lemma_frame(n, m, kids[0], lvl);
}

/// The pages of children are pages of the file past the first two.
pub proof fn lemma_kids_range(
    n: Seq<NodeM>,
    keys: Seq<Seq<u8>>,
    kids: Seq<u32>,
    lvl: nat,
    lo: Bound,
    hi: Bound,
    nxt: u32,
    caps: (nat, nat),
)
    requires
        kids_ok(n, keys, kids, lvl, lo, hi, nxt, caps),
    ensures
        forall|x: int| #[trigger] kids_own(n, kids, lvl, x) ==> 2 <= x < n.len(),
{
    assert forall|x: int| #[trigger] kids_own(n, kids, lvl, x) implies 2 <= x < n.len() by {
        let i = choose|i: int| 0 <= i < kids.len() && owns(n, #[trigger] kids[i], lvl, x);
        crate::btree::tree::lemma_owned_range(
            n,
            kids[i],
            lvl,
            kid_lo(keys, lo, i),
            kid_hi(keys, hi, i),
            kid_next(n, kids, lvl, nxt, i),
            caps,
            x,
        );
    }
}

/// The children of a node of a subtree form trees of pages in use.
pub proof fn lemma_open_node<K: Key>(
    pm: PageManager,
    cfg: K::Config,
    id: u32,
    lvl: nat,
    lo: Bound,
    hi: Bound,
    nxt: u32,
    caps: (nat, nat),
    keys: Seq<Seq<u8>>,
    kids: Seq<u32>,
)
    requires
        sub_ok::<K>(pm, cfg, id, lvl + 1, lo, hi, nxt, caps),
        nodes_of::<K>(pm, cfg)[id as int] == (NodeM::Internal { pid: id, keys, kids }),
    ensures
        ({
            let n = nodes_of::<K>(pm, cfg);
            &&& kids_ok(n, keys, kids, lvl, lo, hi, nxt, caps)
            &&& kids_distinct(n, kids, lvl)
            &&& !kids_own(n, kids, lvl, id as int)
            &&& !pm.is_free(id as int)
            &&& forall|x: int| #[trigger] kids_own(n, kids, lvl, x) ==> !pm.is_free(x) && 2 <= x
                < pm.count()
            &&& flat(n, id, lvl + 1) == kids_flat(n, kids, lvl)
            &&& first_leaf(n, id, lvl + 1) == first_leaf(n, kids[0], lvl)
            &&& forall|i: int|
                0 <= i < kids.len() ==> #[trigger] sub_ok::<K>(
                    pm,
                    cfg,
                    kids[i],
                    lvl,
                    kid_lo(keys, lo, i),
                    kid_hi(keys, hi, i),
                    kid_next(n, kids, lvl, nxt, i),
                    caps,
                )
        }),
{
    reveal(sub_ok);
    reveal(changed);
    let n = nodes_of::<K>(pm, cfg);
    assert(owns(n, id, lvl + 1, id as int));
    assert forall|x: int| #[trigger] kids_own(n, kids, lvl, x) implies !pm.is_free(x) && 2 <= x
        < pm.count() by {
        assert(owns(n, id, lvl + 1, x));
        lemma_kids_range(n, keys, kids, lvl, lo, hi, nxt, caps);
    }
    assert forall|i: int| 0 <= i < kids.len() implies #[trigger] sub_ok::<K>(
        pm,
        cfg,
        kids[i],
        lvl,
        kid_lo(keys, lo, i),
        kid_hi(keys, hi, i),
        kid_next(n, kids, lvl, nxt, i),
        caps,
    ) by {
        assert(distinct(n, kids[i], lvl));
        assert forall|x: int| #[trigger] owns(n, kids[i], lvl, x) implies !pm.is_free(x) by {
            assert(kids_own(n, kids, lvl, x));
        }
    }
}

/// A change of some children of a node leaves the node alone and makes the
/// other children and the new ones a list of children again.
pub proof fn lemma_lift<K: Key>(
    pm0: PageManager,
    pm1: PageManager,
    cfg: K::Config,
    id: u32,
    lvl: nat,
    lo: Bound,
    hi: Bound,
    nxt: u32,
    caps: (nat, nat),
    keys: Seq<Seq<u8>>,
    kids: Seq<u32>,
    a: int,
    b: int,
    rkeys: Seq<Seq<u8>>,
    rk: Seq<u32>,
    es: Seq<Entry>,
)
    requires
        sub_ok::<K>(pm0, cfg, id, lvl + 1, lo, hi, nxt, caps),
        nodes_of::<K>(pm0, cfg)[id as int] == (NodeM::Internal { pid: id, keys, kids }),
        0 <= a < b <= kids.len(),
        changed::<K>(
            pm0,
            pm1,
            cfg,
            lvl,
            kids.subrange(a, b),
            kid_lo(keys, lo, a),
            kid_hi(keys, hi, b - 1),
            kid_next(nodes_of::<K>(pm0, cfg), kids, lvl, nxt, b - 1),
            caps,
            rkeys,
            rk,
            es,
        ),
    ensures
        ({
            let n0 = nodes_of::<K>(pm0, cfg);
            let n1 = nodes_of::<K>(pm1, cfg);
            let nk = put_keys(keys, a, b, rkeys);
            let nc = put_kids(kids, a, b, rk);
            &&& n1[id as int] == n0[id as int]
            &&& !pm1.is_free(id as int)
            &&& kids_ok(n1, nk, nc, lvl, lo, hi, nxt, caps)
            &&& kids_distinct(n1, nc, lvl)
            &&& !kids_own(n1, nc, lvl, id as int)
            &&& first_leaf(n1, nc[0], lvl) == first_leaf(n0, id, lvl + 1)
            &&& kids_flat(n1, nc, lvl) == kids_flat(n0, kids.take(a), lvl) + es + kids_flat(
                n0,
                kids.skip(b),
                lvl,
            )
            &&& outside_kept::<K>(pm0, pm1, cfg, lvl + 1, one_kid(id))
            &&& forall|x: int|
                #[trigger] kids_own(n1, nc, lvl, x) ==> !pm1.is_free(x) && (owns(
                    n0,
                    id,
                    lvl + 1,
                    x,
                ) || pm0.is_free(x) || x >= pm0.count())
        }),
{
    reveal(sub_ok);
    reveal(changed);
    let n0 = nodes_of::<K>(pm0, cfg);
    let n1 = nodes_of::<K>(pm1, cfg);
    let ok = kids.subrange(a, b);
    let nk = put_keys(keys, a, b, rkeys);
    let nc = put_kids(kids, a, b, rk);
    lemma_open_node::<K>(pm0, cfg, id, lvl, lo, hi, nxt, caps, keys, kids);
    assert forall|x: int| #[trigger] kids_own(n0, ok, lvl, x) implies kids_own(
        n0,
        kids,
        lvl,
        x,
    ) by {
        let i = choose|i: int| 0 <= i < ok.len() && owns(n0, #[trigger] ok[i], lvl, x);
        assert(ok[i] == kids[a + i]);
    }
    assert forall|j: int, x: int|
        0 <= j < kids.len() && !(a <= j < b) && #[trigger] owns(n0, kids[j], lvl, x) implies
        !kids_own(n0, ok, lvl, x) && !pm0.is_free(x) && 2 <= x < pm0.count() && n1[x] == n0[x] by {
        assert(kids_own(n0, kids, lvl, x));
        if kids_own(n0, ok, lvl, x) {
            let i = choose|i: int| 0 <= i < ok.len() && owns(n0, #[trigger] ok[i], lvl, x);
            assert(ok[i] == kids[a + i]);
            if j < a {
                assert(owns(n0, kids[j], lvl, x) && owns(n0, kids[a + i], lvl, x));
            } else {
                assert(owns(n0, kids[a + i], lvl, x) && owns(n0, kids[j], lvl, x));
            }
        }
    }
    assert forall|j: int| 0 <= j < kids.len() && !(a <= j < b) implies same_below(
        n0,
        n1,
        #[trigger] kids[j],
        lvl,
    ) by {}
    assert forall|j: int, x: int|
        0 <= j < kids.len() && !(a <= j < b) && #[trigger] owns(n0, kids[j], lvl, x) implies
        !kids_own(n1, rk, lvl, x) by {
        assert(!kids_own(n0, ok, lvl, x) && !pm0.is_free(x) && x < pm0.count());
    }
    assert(ok[0] == kids[a]);
    lemma_kids_replace(n0, n1, keys, kids, lvl, lo, hi, nxt, caps, a, b, rkeys, rk);
    assert(!kids_own(n0, ok, lvl, id as int));
    assert(n1[id as int] == n0[id as int]);
    assert forall|x: int| #[trigger] kids_own(n1, nc, lvl, x) implies !pm1.is_free(x) && x != id
        && (owns(n0, id, lvl + 1, x) || pm0.is_free(x) || x >= pm0.count()) by {
        if kids_own(n1, rk, lvl, x) {
            if kids_own(n0, ok, lvl, x) {
                assert(kids_own(n0, kids, lvl, x));
            }
        } else {
            let j = choose|j: int|
                0 <= j < kids.len() && !(a <= j < b) && #[trigger] owns(n0, kids[j], lvl, x);
            assert(kids_own(n0, kids, lvl, x));
        }
    }
    assert forall|x: int| #[trigger] owns(n0, one_kid(id)[0], lvl + 1, x) implies kids_own(
        n0,
        one_kid(id),
        lvl + 1,
        x,
    ) by {}
    assert forall|x: int|
        2 <= x < pm0.count() && !kids_own(n0, one_kid(id), lvl + 1, x) && !pm0.is_free(x) implies
        #[trigger] n1[x] == n0[x] by {
        if kids_own(n0, ok, lvl, x) {
            assert(owns(n0, one_kid(id)[0], lvl + 1, x));
        }
    }
    assert forall|x: int| #[trigger] pm1.is_free(x) implies pm0.is_free(x) || kids_own(
        n0,
        one_kid(id),
        lvl + 1,
        x,
    ) || x >= pm0.count() by {
        if kids_own(n0, ok, lvl, x) {
            assert(owns(n0, one_kid(id)[0], lvl + 1, x));
        }
    }
}

/// A node whose children changed and which was then rewritten, alone or cut
/// in two, makes a change of its own tree.
pub proof fn lemma_rewrite<K: Key>(
    pm0: PageManager,
    pm1: PageManager,
    pm2: PageManager,
    cfg: K::Config,
    id: u32,
    lvl: nat,
    lo: Bound,
    hi: Bound,
    nxt: u32,
    caps: (nat, nat),
    nk: Seq<Seq<u8>>,
    nc: Seq<u32>,
    es: Seq<Entry>,
)
    requires
        base_ok(pm0),
        2 <= id < pm0.count(),
        !pm0.is_free(id as int),
        outside_kept::<K>(pm0, pm1, cfg, lvl + 1, one_kid(id)),
        !pm1.is_free(id as int),
        kids_ok(nodes_of::<K>(pm1, cfg), nk, nc, lvl, lo, hi, nxt, caps),
        kids_distinct(nodes_of::<K>(pm1, cfg), nc, lvl),
        !kids_own(nodes_of::<K>(pm1, cfg), nc, lvl, id as int),
        first_leaf(nodes_of::<K>(pm1, cfg), nc[0], lvl) == first_leaf(
            nodes_of::<K>(pm0, cfg),
            id,
            lvl + 1,
        ),
        kids_flat(nodes_of::<K>(pm1, cfg), nc, lvl) == es,
        forall|x: int|
            #[trigger] kids_own(nodes_of::<K>(pm1, cfg), nc, lvl, x) ==> !pm1.is_free(x) && (owns(
                nodes_of::<K>(pm0, cfg),
                id,
                lvl + 1,
                x,
            ) || pm0.is_free(x) || x >= pm0.count()),
        base_ok(pm2),
        pm2.count() == pm1.count(),
        forall|x: int| #[trigger] pm2.is_free(x) == pm1.is_free(x),
        forall|x: int|
            2 <= x < pm1.count() && x != id ==> #[trigger] nodes_of::<K>(pm2, cfg)[x]
                == nodes_of::<K>(pm1, cfg)[x],
        nodes_of::<K>(pm2, cfg)[id as int] == (NodeM::Internal { pid: id, keys: nk, kids: nc }),
        nk.len() <= caps.1,
    ensures
        changed::<K>(
            pm0,
            pm2,
            cfg,
            lvl + 1,
            one_kid(id),
            lo,
            hi,
            nxt,
            caps,
            Seq::empty(),
            one_kid(id),
            es,
        ),
        sub_ok::<K>(pm2, cfg, id, lvl + 1, lo, hi, nxt, caps),
        flat(nodes_of::<K>(pm2, cfg), id, lvl + 1) == es,
{
    reveal(sub_ok);
    reveal(changed);
    let n0 = nodes_of::<K>(pm0, cfg);
    let n1 = nodes_of::<K>(pm1, cfg);
    let n2 = nodes_of::<K>(pm2, cfg);
    lemma_kids_range(n1, nk, nc, lvl, lo, hi, nxt, caps);
    assert forall|x: int| #[trigger] kids_own(n1, nc, lvl, x) implies 0 <= x < n1.len() && x
        < n2.len() && n1[x] == n2[x] by {
        assert(x != id);
    }
    lemma_kids_keep(n1, n2, nk, nc, lvl, lo, hi, nxt, caps);
    lemma_internal_ok(n2, id, lvl, lo, hi, nxt, caps, nk, nc);
    lemma_single(n2, id, lvl + 1, lo, hi, nxt, caps);
    assert(owns(n0, one_kid(id)[0], lvl + 1, id as int));
    assert(kids_own(n0, one_kid(id), lvl + 1, id as int));
    assert forall|x: int| #[trigger] kids_own(n2, one_kid(id), lvl + 1, x) implies !pm2.is_free(x)
        && (kids_own(n0, one_kid(id), lvl + 1, x) || pm0.is_free(x) || x >= pm0.count()) by {
        assert(owns(n2, id, lvl + 1, x));
        if x != id {
            assert(kids_own(n1, nc, lvl, x));
            if owns(n0, id, lvl + 1, x) {
                assert(owns(n0, one_kid(id)[0], lvl + 1, x));
            }
        }
    }
    assert forall|x: int| #[trigger] owns(n2, id, lvl + 1, x) implies !pm2.is_free(x) by {
        assert(kids_own(n2, one_kid(id), lvl + 1, x));
    }
    assert forall|x: int|
        2 <= x < pm0.count() && !kids_own(n0, one_kid(id), lvl + 1, x) && !pm0.is_free(x) implies
        #[trigger] n2[x] == n0[x] by {
        assert(n1[x] == n0[x]);
    }
    assert(outside_kept::<K>(pm0, pm2, cfg, lvl + 1, one_kid(id)));
}

/// Children cut at separator `p` between two nodes are two neighbouring trees.
#[verifier::rlimit(60)]
pub proof fn lemma_cut_nodes(
    n1: Seq<NodeM>,
    n2: Seq<NodeM>,
    id: u32,
    rid: u32,
    lvl: nat,
    lo: Bound,
    hi: Bound,
    nxt: u32,
    caps: (nat, nat),
    nk: Seq<Seq<u8>>,
    nc: Seq<u32>,
    p: int,
)
    requires
        kids_ok(n1, nk, nc, lvl, lo, hi, nxt, caps),
        kids_distinct(n1, nc, lvl),
        id != rid,
        2 <= id < n2.len(),
        2 <= rid < n2.len(),
        forall|x: int|
            #[trigger] kids_own(n1, nc, lvl, x) ==> x != id && x != rid && 0 <= x < n1.len() && x
                < n2.len() && n1[x] == n2[x],
        0 <= p < nk.len(),
        n2[id as int] == (NodeM::Internal { pid: id, keys: nk.take(p), kids: nc.take(p + 1) }),
        n2[rid as int] == (NodeM::Internal {
            pid: rid,
            keys: nk.skip(p + 1),
            kids: nc.skip(p + 1),
        }),
        p <= caps.1,
        nk.len() - p - 1 <= caps.1,
    ensures
        kids_ok(n2, seq![nk[p]], two_kids(id, rid), lvl + 1, lo, hi, nxt, caps),
        kids_distinct(n2, two_kids(id, rid), lvl + 1),
        kids_flat(n2, two_kids(id, rid), lvl + 1) == kids_flat(n1, nc, lvl),
        first_leaf(n2, id, lvl + 1) == first_leaf(n1, nc[0], lvl),
        forall|x: int|
            #[trigger] kids_own(n2, two_kids(id, rid), lvl + 1, x) == (x == id || x == rid
                || kids_own(n1, nc, lvl, x)),
{
    let lc = nc.take(p + 1);
    let rc = nc.skip(p + 1);
    let lk = nk.take(p);
    let rkk = nk.skip(p + 1);
    let s = nk[p];
    let mid_next = first_leaf(n1, nc[p + 1], lvl);
    lemma_kids_cut(n1, nk, nc, lvl, lo, hi, nxt, caps, p);
    assert forall|x: int| #[trigger] kids_own(n1, lc, lvl, x) implies 0 <= x < n1.len() && x
        < n2.len() && n1[x] == n2[x] && x != id && x != rid by {
        assert(kids_own(n1, nc, lvl, x));
    }
    assert forall|x: int| #[trigger] kids_own(n1, rc, lvl, x) implies 0 <= x < n1.len() && x
        < n2.len() && n1[x] == n2[x] && x != id && x != rid by {
        assert(kids_own(n1, nc, lvl, x));
    }
    lemma_kids_keep(n1, n2, lk, lc, lvl, lo, Some(s), mid_next, caps);
    lemma_kids_keep(n1, n2, rkk, rc, lvl, Some(s), hi, nxt, caps);
    assert(rc[0] == nc[p + 1]);
    assert(lc[0] == nc[0]);
    lemma_internal_ok(n2, rid, lvl, Some(s), hi, nxt, caps, rkk, rc);
    lemma_internal_ok(n2, id, lvl, lo, Some(s), mid_next, caps, lk, lc);
    assert forall|x: int| !(#[trigger] owns(n2, id, lvl + 1, x) && owns(n2, rid, lvl + 1, x)) by {
        if owns(n2, id, lvl + 1, x) && owns(n2, rid, lvl + 1, x) {
            if x == id {
                assert(kids_own(n1, rc, lvl, x));
            } else if x == rid {
                assert(kids_own(n1, lc, lvl, x));
            } else {
                assert(kids_own(n1, lc, lvl, x) && kids_own(n1, rc, lvl, x));
            }
        }
    }
    lemma_pair(n2, id, s, rid, lvl + 1, lo, hi, nxt, caps);
    assert forall|x: int|
        #[trigger] kids_own(n2, two_kids(id, rid), lvl + 1, x) == (x == id || x == rid || kids_own(
            n1,
            nc,
            lvl,
            x,
        )) by {
        assert(owns(n2, id, lvl + 1, x) == (x == id || kids_own(n1, lc, lvl, x)));
        assert(owns(n2, rid, lvl + 1, x) == (x == rid || kids_own(n1, rc, lvl, x)));
        assert(kids_own(n1, nc, lvl, x) == (kids_own(n1, lc, lvl, x) || kids_own(
            n1,
            rc,
            lvl,
            x,
        )));
    }
}

/// As [`lemma_rewrite`], with the children cut at separator `p` between the
/// node and a new one on its right.
#[verifier::rlimit(40)]
pub proof fn lemma_rewrite_cut<K: Key>(
    pm0: PageManager,
    pm1: PageManager,
    pm2: PageManager,
    cfg: K::Config,
    id: u32,
    rid: u32,
    lvl: nat,
    lo: Bound,
    hi: Bound,
    nxt: u32,
    caps: (nat, nat),
    nk: Seq<Seq<u8>>,
    nc: Seq<u32>,
    es: Seq<Entry>,
    p: int,
)
    requires
        base_ok(pm0),
        2 <= id < pm0.count(),
        !pm0.is_free(id as int),
        outside_kept::<K>(pm0, pm1, cfg, lvl + 1, one_kid(id)),
        !pm1.is_free(id as int),
        kids_ok(nodes_of::<K>(pm1, cfg), nk, nc, lvl, lo, hi, nxt, caps),
        kids_distinct(nodes_of::<K>(pm1, cfg), nc, lvl),
        !kids_own(nodes_of::<K>(pm1, cfg), nc, lvl, id as int),
        first_leaf(nodes_of::<K>(pm1, cfg), nc[0], lvl) == first_leaf(
            nodes_of::<K>(pm0, cfg),
            id,
            lvl + 1,
        ),
        kids_flat(nodes_of::<K>(pm1, cfg), nc, lvl) == es,
        forall|x: int|
            #[trigger] kids_own(nodes_of::<K>(pm1, cfg), nc, lvl, x) ==> !pm1.is_free(x) && (owns(
                nodes_of::<K>(pm0, cfg),
                id,
                lvl + 1,
                x,
            ) || pm0.is_free(x) || x >= pm0.count()),
        base_ok(pm2),
        pm2.count() >= pm1.count(),
        2 <= rid < pm2.count(),
        pm1.is_free(rid as int) || rid >= pm1.count(),
        !pm2.is_free(rid as int),
        forall|x: int| #[trigger] pm2.is_free(x) ==> pm1.is_free(x),
        forall|x: int|
            2 <= x < pm1.count() && x != id && x != rid ==> #[trigger] nodes_of::<K>(pm2, cfg)[x]
                == nodes_of::<K>(pm1, cfg)[x],
        0 <= p < nk.len(),
        nodes_of::<K>(pm2, cfg)[id as int] == (NodeM::Internal {
            pid: id,
            keys: nk.take(p),
            kids: nc.take(p + 1),
        }),
        nodes_of::<K>(pm2, cfg)[rid as int] == (NodeM::Internal {
            pid: rid,
            keys: nk.skip(p + 1),
            kids: nc.skip(p + 1),
        }),
        p <= caps.1,
        nk.len() - p - 1 <= caps.1,
    ensures
        changed::<K>(
            pm0,
            pm2,
            cfg,
            lvl + 1,
            one_kid(id),
            lo,
            hi,
            nxt,
            caps,
            seq![nk[p]],
            two_kids(id, rid),
            es,
        ),
{
    reveal(sub_ok);
    reveal(changed);
    let n0 = nodes_of::<K>(pm0, cfg);
    let n1 = nodes_of::<K>(pm1, cfg);
    let n2 = nodes_of::<K>(pm2, cfg);
    lemma_kids_range(n1, nk, nc, lvl, lo, hi, nxt, caps);
    assert forall|x: int| #[trigger] kids_own(n1, nc, lvl, x) implies x != id && x != rid && 0 <= x
        < n1.len() && x < n2.len() && n1[x] == n2[x] by {}
    lemma_cut_nodes(n1, n2, id, rid, lvl, lo, hi, nxt, caps, nk, nc, p);
    assert(owns(n0, one_kid(id)[0], lvl + 1, id as int));
    assert(kids_own(n0, one_kid(id), lvl + 1, id as int));
    assert forall|x: int| #[trigger] kids_own(n2, two_kids(id, rid), lvl + 1, x) implies
        !pm2.is_free(x) && (kids_own(n0, one_kid(id), lvl + 1, x) || pm0.is_free(x) || x
        >= pm0.count()) by {
        if x == rid {
            if rid < pm1.count() {
                assert(pm1.is_free(rid as int));
            }
        } else if x != id {
            assert(kids_own(n1, nc, lvl, x));
            if owns(n0, id, lvl + 1, x) {
                assert(owns(n0, one_kid(id)[0], lvl + 1, x));
            }
        }
    }
    assert forall|x: int|
        2 <= x < pm0.count() && !kids_own(n0, one_kid(id), lvl + 1, x) && !pm0.is_free(x) implies
        #[trigger] n2[x] == n0[x] by {
        assert(n1[x] == n0[x]);
        if x == rid {
            assert(pm1.is_free(x));
        }
    }
    assert(outside_kept::<K>(pm0, pm2, cfg, lvl + 1, one_kid(id)));
}

/// One change after another of the same tree.
pub proof fn lemma_changed_trans<K: Key>(
    pm0: PageManager,
    pm1: PageManager,
    pm2: PageManager,
    cfg: K::Config,
    lvl: nat,
    id: u32,
    lo: Bound,
    hi: Bound,
    nxt: u32,
    caps: (nat, nat),
    rkeys: Seq<Seq<u8>>,
    rk: Seq<u32>,
    es1: Seq<Entry>,
    es2: Seq<Entry>,
)
    requires
        changed::<K>(
            pm0,
            pm1,
            cfg,
            lvl,
            one_kid(id),
            lo,
            hi,
            nxt,
            caps,
            Seq::empty(),
            one_kid(id),
            es1,
        ),
        changed::<K>(pm1, pm2, cfg, lvl, one_kid(id), lo, hi, nxt, caps, rkeys, rk, es2),
    ensures
        changed::<K>(pm0, pm2, cfg, lvl, one_kid(id), lo, hi, nxt, caps, rkeys, rk, es2),
{
    reveal(sub_ok);
    reveal(changed);
    let n0 = nodes_of::<K>(pm0, cfg);
    let n1 = nodes_of::<K>(pm1, cfg);
    let n2 = nodes_of::<K>(pm2, cfg);
    assert forall|x: int|
        2 <= x < pm0.count() && !kids_own(n0, one_kid(id), lvl, x) && !pm0.is_free(x) implies
        #[trigger] n2[x] == n0[x] by {
        assert(n1[x] == n0[x]);
        assert(!kids_own(n1, one_kid(id), lvl, x));
        assert(!pm1.is_free(x));
    }
    assert forall|x: int| #[trigger] pm2.is_free(x) implies pm0.is_free(x) || kids_own(
        n0,
        one_kid(id),
        lvl,
        x,
    ) || x >= pm0.count() by {
        if !pm1.is_free(x) && x < pm1.count() {
            assert(kids_own(n1, one_kid(id), lvl, x));
        }
    }
    assert forall|x: int| #[trigger] kids_own(n2, rk, lvl, x) implies !pm2.is_free(x) && (kids_own(
        n0,
        one_kid(id),
        lvl,
        x,
    ) || pm0.is_free(x) || x >= pm0.count()) by {
        if kids_own(n1, one_kid(id), lvl, x) {
        } else if pm1.is_free(x) {
        }
    }
}

// ── Leaves ──────────────────────────────────────────────────────────────

/// The leaf behind a subtree: none, or one that can be rewritten.
pub open spec fn next_ok<K: Key>(
    pm: PageManager,
    cfg: K::Config,
    nxt: u32,
    caps: (nat, nat),
) -> bool {
    nxt == 0 || {
        &&& 2 <= nxt < pm.count()
        &&& !pm.is_free(nxt as int)
        &&& nodes_of::<K>(pm, cfg)[nxt as int] matches NodeM::Leaf { pid, entries, .. } && pid
            == nxt && entries.len() <= caps.0
    }
}

/// The leaf behind child `i` can be rewritten if the one behind all children
/// can.
pub proof fn lemma_kid_next_ok<K: Key>(
    pm: PageManager,
    cfg: K::Config,
    keys: Seq<Seq<u8>>,
    kids: Seq<u32>,
    lvl: nat,
    lo: Bound,
    hi: Bound,
    nxt: u32,
    caps: (nat, nat),
    i: int,
)
    requires
        kids_ok(nodes_of::<K>(pm, cfg), keys, kids, lvl, lo, hi, nxt, caps),
        forall|x: int|
            #[trigger] kids_own(nodes_of::<K>(pm, cfg), kids, lvl, x) ==> !pm.is_free(x),
        next_ok::<K>(pm, cfg, nxt, caps),
        0 <= i < kids.len(),
    ensures
        next_ok::<K>(pm, cfg, kid_next(nodes_of::<K>(pm, cfg), kids, lvl, nxt, i), caps),
{
    let n = nodes_of::<K>(pm, cfg);
    if i + 1 < kids.len() {
        let j = i + 1;
        crate::btree::tree::lemma_first_leaf(
            n,
            kids[j],
            lvl,
            kid_lo(keys, lo, j),
            kid_hi(keys, hi, j),
            kid_next(n, kids, lvl, nxt, j),
            caps,
        );
        assert(kids_own(n, kids, lvl, first_leaf(n, kids[j], lvl) as int));
    }
}

/// A leaf rewritten in place is a change of its tree.
pub proof fn lemma_leaf_rewrite<K: Key>(
    pm0: PageManager,
    pm1: PageManager,
    cfg: K::Config,
    id: u32,
    lo: Bound,
    hi: Bound,
    nxt: u32,
    caps: (nat, nat),
    es: Seq<Entry>,
)
    requires
        sub_ok::<K>(pm0, cfg, id, 0, lo, hi, nxt, caps),
        base_ok(pm1),
        pm1.count() == pm0.count(),
        forall|x: int| #[trigger] pm1.is_free(x) == pm0.is_free(x),
        nodes_of::<K>(pm1, cfg) == nodes_of::<K>(pm0, cfg).update(
            id as int,
            NodeM::Leaf { pid: id, next: nxt, entries: es },
        ),
        es.len() <= caps.0,
        sorted(es),
        within(es, lo, hi),
    ensures
        changed::<K>(
            pm0,
            pm1,
            cfg,
            0,
            one_kid(id),
            lo,
            hi,
            nxt,
            caps,
            Seq::empty(),
            one_kid(id),
            es,
        ),
        sub_ok::<K>(pm1, cfg, id, 0, lo, hi, nxt, caps),
        flat(nodes_of::<K>(pm1, cfg), id, 0) == es,
{
    reveal(sub_ok);
    reveal(changed);
    let n0 = nodes_of::<K>(pm0, cfg);
    let n1 = nodes_of::<K>(pm1, cfg);
    assert(owns(n0, id, 0, id as int));
    lemma_leaf_ok(n1, id, lo, hi, nxt, caps, es);
    lemma_single(n1, id, 0, lo, hi, nxt, caps);
    assert(owns(n0, one_kid(id)[0], 0, id as int));
    assert(kids_own(n0, one_kid(id), 0, id as int));
}

/// A leaf split in two is a change of its tree.
pub proof fn lemma_leaf_cut<K: Key>(
    pm0: PageManager,
    pm1: PageManager,
    cfg: K::Config,
    id: u32,
    rid: u32,
    lo: Bound,
    hi: Bound,
    nxt: u32,
    caps: (nat, nat),
    a: Seq<Entry>,
    b: Seq<Entry>,
    s: Seq<u8>,
)
    requires
        sub_ok::<K>(pm0, cfg, id, 0, lo, hi, nxt, caps),
        base_ok(pm1),
        pm1.count() >= pm0.count(),
        2 <= rid < pm1.count(),
        pm0.is_free(rid as int) || rid >= pm0.count(),
        !pm1.is_free(rid as int),
        forall|x: int| #[trigger] pm1.is_free(x) ==> pm0.is_free(x),
        forall|x: int|
            2 <= x < pm0.count() && x != id && x != rid ==> #[trigger] nodes_of::<K>(pm1, cfg)[x]
                == nodes_of::<K>(pm0, cfg)[x],
        nodes_of::<K>(pm1, cfg)[id as int] == (NodeM::Leaf { pid: id, next: rid, entries: a }),
        nodes_of::<K>(pm1, cfg)[rid as int] == (NodeM::Leaf { pid: rid, next: nxt, entries: b }),
        a.len() <= caps.0,
        b.len() <= caps.0,
        sorted(a),
        sorted(b),
        within(a, lo, Some(s)),
        within(b, Some(s), hi),
        strictly_above(lo, s),
        below(hi, s),
    ensures
        changed::<K>(
            pm0,
            pm1,
            cfg,
            0,
            one_kid(id),
            lo,
            hi,
            nxt,
            caps,
            seq![s],
            two_kids(id, rid),
            a + b,
        ),
{
    reveal(sub_ok);
    reveal(changed);
    let n0 = nodes_of::<K>(pm0, cfg);
    let n1 = nodes_of::<K>(pm1, cfg);
    assert(owns(n0, id, 0, id as int));
    assert(id != rid);
    lemma_leaf_ok(n1, id, lo, Some(s), rid, caps, a);
    lemma_leaf_ok(n1, rid, Some(s), hi, nxt, caps, b);
    lemma_pair(n1, id, s, rid, 0, lo, hi, nxt, caps);
    assert(owns(n0, one_kid(id)[0], 0, id as int));
    assert(kids_own(n0, one_kid(id), 0, id as int));
}

/// A tree of pages past the first two does not depend on the first two.
pub proof fn lemma_meta_frame<K: Key>(
    pm0: PageManager,
    pm1: PageManager,
    cfg: K::Config,
    id: u32,
    lvl: nat,
    lo: Bound,
    hi: Bound,
    nxt: u32,
    caps: (nat, nat),
)
    requires
        sub_ok::<K>(pm0, cfg, id, lvl, lo, hi, nxt, caps),
        pm1.pages@.len() == pm0.pages@.len(),
        forall|x: int|
            0 <= x < pm0.count() && x != 1 ==> #[trigger] pm1.pages@[x] == pm0.pages@[x],
    ensures
        sub_ok::<K>(pm1, cfg, id, lvl, lo, hi, nxt, caps),
        flat(nodes_of::<K>(pm1, cfg), id, lvl) == flat(nodes_of::<K>(pm0, cfg), id, lvl),
{
    reveal(sub_ok);
    reveal(changed);
    let n0 = nodes_of::<K>(pm0, cfg);
    let n1 = nodes_of::<K>(pm1, cfg);
    assert(pm1.pages@[0] == pm0.pages@[0]);
    assert(pm1.free_ids() == pm0.free_ids());
    assert forall|x: int| #[trigger] pm1.is_free(x) == pm0.is_free(x) by {
        if pm1.is_free(x) {
            let i = choose|i: int|
                0 <= i < pm1.free_ids().len() && #[trigger] pm1.free_ids()[i] == x;
            assert(pm0.free_ids()[i] == x);
        }
        if pm0.is_free(x) {
            let i = choose|i: int|
                0 <= i < pm0.free_ids().len() && #[trigger] pm0.free_ids()[i] == x;
            assert(pm1.free_ids()[i] == x);
        }
    }
    assert(pm1.free_ok()) by {
        assert forall|i: int| 0 <= i < pm1.free_ids().len() implies 1 <= #[trigger] pm1.free_ids()[i]
            < pm1.count() by {
            assert(pm0.free_ids()[i] == pm1.free_ids()[i]);
        }
        assert forall|i: int, j: int| 0 <= i < j < pm1.free_ids().len() implies
            #[trigger] pm1.free_ids()[i] != #[trigger] pm1.free_ids()[j] by {
            assert(pm0.free_ids()[i] != pm0.free_ids()[j]);
        }
    }
    assert forall|x: int| #[trigger] owns(n0, id, lvl, x) implies 0 <= x < n0.len() && x < n1.len()
        && n0[x] == n1[x] by {
        crate::btree::tree::lemma_owned_range(n0, id, lvl, lo, hi, nxt, caps, x);
        assert(pm1.pages@[x] == pm0.pages@[x]);
    }
    lemma_frame(n0, n1, id, lvl);
    lemma_frame_ok(n0, n1, id, lvl, lo, hi, nxt, caps);
}

/// Two neighbouring trees under a new root.
pub proof fn lemma_new_root<K: Key>(
    pm1: PageManager,
    pm2: PageManager,
    cfg: K::Config,
    root: u32,
    a: u32,
    b: u32,
    s: Seq<u8>,
    lvl: nat,
    caps: (nat, nat),
)
    requires
        base_ok(pm1),
        base_ok(pm2),
        pm1.count() <= pm2.count(),
        caps.1 >= 1,
        kids_ok(nodes_of::<K>(pm1, cfg), seq![s], two_kids(a, b), lvl, None, None, 0, caps),
        kids_distinct(nodes_of::<K>(pm1, cfg), two_kids(a, b), lvl),
        forall|x: int|
            #[trigger] kids_own(nodes_of::<K>(pm1, cfg), two_kids(a, b), lvl, x) ==> !pm1.is_free(
                x,
            ),
        2 <= root < pm2.count(),
        pm1.is_free(root as int) || root >= pm1.count(),
        !pm2.is_free(root as int),
        forall|x: int| #[trigger] pm2.is_free(x) ==> pm1.is_free(x),
        forall|x: int|
            2 <= x < pm1.count() && x != root ==> #[trigger] nodes_of::<K>(pm2, cfg)[x]
                == nodes_of::<K>(pm1, cfg)[x],
        nodes_of::<K>(pm2, cfg)[root as int] == (NodeM::Internal {
            pid: root,
            keys: seq![s],
            kids: two_kids(a, b),
        }),
    ensures
        sub_ok::<K>(pm2, cfg, root, lvl + 1, None, None, 0, caps),
        flat(nodes_of::<K>(pm2, cfg), root, lvl + 1) == kids_flat(
            nodes_of::<K>(pm1, cfg),
            two_kids(a, b),
            lvl,
        ),
{
    reveal(sub_ok);
    reveal(changed);
    let n1 = nodes_of::<K>(pm1, cfg);
    let n2 = nodes_of::<K>(pm2, cfg);
    let kids = two_kids(a, b);
    lemma_kids_range(n1, seq![s], kids, lvl, None, None, 0, caps);
    assert forall|x: int| #[trigger] kids_own(n1, kids, lvl, x) implies 0 <= x < n1.len() && x
        < n2.len() && n1[x] == n2[x] && x != root by {}
    lemma_kids_keep(n1, n2, seq![s], kids, lvl, None, None, 0, caps);
    lemma_internal_ok(n2, root, lvl, None, None, 0, caps, seq![s], kids);
    assert forall|x: int| #[trigger] owns(n2, root, lvl + 1, x) implies !pm2.is_free(x) by {
        if x != root {
            assert(kids_own(n1, kids, lvl, x));
        }
    }
}

// ── Consequences ────────────────────────────────────────────────────────

/// What the root node of a subtree looks like.
pub proof fn lemma_sub_root<K: Key>(
    pm: PageManager,
    cfg: K::Config,
    id: u32,
    lvl: nat,
    lo: Bound,
    hi: Bound,
    nxt: u32,
    caps: (nat, nat),
)
    requires
        sub_ok::<K>(pm, cfg, id, lvl, lo, hi, nxt, caps),
    ensures
        ({
            let n = nodes_of::<K>(pm, cfg);
            &&& base_ok(pm)
            &&& 2 <= id < pm.count()
            &&& !pm.is_free(id as int)
            &&& sorted(flat(n, id, lvl))
            &&& within(flat(n, id, lvl), lo, hi)
            &&& match n[id as int] {
                NodeM::Leaf { pid, next, entries } => {
                    &&& lvl == 0
                    &&& pid == id
                    &&& next == nxt
                    &&& entries.len() <= caps.0
                    &&& flat(n, id, lvl) == entries
                    &&& keys_sorted(entry_keys(entries))
                },
                NodeM::Internal { pid, keys, kids } => {
                    &&& lvl > 0
                    &&& pid == id
                    &&& keys.len() <= caps.1
                    &&& kids.len() == keys.len() + 1
                    &&& keys_sorted(keys)
                },
                NodeM::Other => false,
            }
        }),
{
    reveal(sub_ok);
    let n = nodes_of::<K>(pm, cfg);
    assert(owns(n, id, lvl, id as int));
    crate::btree::tree::lemma_flat_sorted(n, id, lvl, lo, hi, nxt, caps);
    lemma_cat_one(n, id);
}

/// A changed tree that is still one tree.
pub proof fn lemma_alone<K: Key>(
    pm0: PageManager,
    pm1: PageManager,
    cfg: K::Config,
    id: u32,
    lvl: nat,
    lo: Bound,
    hi: Bound,
    nxt: u32,
    caps: (nat, nat),
    es: Seq<Entry>,
)
    requires
        changed::<K>(
            pm0,
            pm1,
            cfg,
            lvl,
            one_kid(id),
            lo,
            hi,
            nxt,
            caps,
            Seq::empty(),
            one_kid(id),
            es,
        ),
    ensures
        sub_ok::<K>(pm1, cfg, id, lvl, lo, hi, nxt, caps),
        flat(nodes_of::<K>(pm1, cfg), id, lvl) == es,
{
    reveal(sub_ok);
    reveal(changed);
    let n1 = nodes_of::<K>(pm1, cfg);
    let one = one_kid(id);
    assert(one[0] == id);
    assert(kid_lo(Seq::<Seq<u8>>::empty(), lo, 0) == lo);
    assert(kid_hi(Seq::<Seq<u8>>::empty(), hi, 0) == hi);
    assert(kid_next(n1, one, lvl, nxt, 0) == nxt);
    assert(tree_ok(n1, one[0], lvl, lo, hi, nxt, caps));
    assert(distinct(n1, one[0], lvl));
    lemma_kids_one(n1, id, lvl);
    assert forall|x: int| #[trigger] owns(n1, id, lvl, x) implies !pm1.is_free(x) by {
        assert(owns(n1, one[0], lvl, x));
        assert(kids_own(n1, one, lvl, x));
    }
}

/// The state after some children of the node at `id` changed: `nk` and `nc`
/// are what the node's keys and children should become.
#[verifier::opaque]
pub open spec fn lifted<K: Key>(
    pm0: PageManager,
    pm1: PageManager,
    cfg: K::Config,
    id: u32,
    lvl: nat,
    lo: Bound,
    hi: Bound,
    nxt: u32,
    caps: (nat, nat),
    nk: Seq<Seq<u8>>,
    nc: Seq<u32>,
    es: Seq<Entry>,
) -> bool {
    let n0 = nodes_of::<K>(pm0, cfg);
    let n1 = nodes_of::<K>(pm1, cfg);
    &&& n1[id as int] == n0[id as int]
    &&& !pm1.is_free(id as int)
    &&& kids_ok(n1, nk, nc, lvl, lo, hi, nxt, caps)
    &&& kids_distinct(n1, nc, lvl)
    &&& !kids_own(n1, nc, lvl, id as int)
    &&& first_leaf(n1, nc[0], lvl) == first_leaf(n0, id, lvl + 1)
    &&& kids_flat(n1, nc, lvl) == es
    &&& outside_kept::<K>(pm0, pm1, cfg, lvl + 1, one_kid(id))
    &&& forall|x: int|
        #[trigger] kids_own(n1, nc, lvl, x) ==> !pm1.is_free(x) && (owns(n0, id, lvl + 1, x)
            || pm0.is_free(x) || x >= pm0.count())
}

/// As [`lemma_lift`], in one predicate.
pub proof fn lemma_lift_to<K: Key>(
    pm0: PageManager,
    pm1: PageManager,
    cfg: K::Config,
    id: u32,
    lvl: nat,
    lo: Bound,
    hi: Bound,
    nxt: u32,
    caps: (nat, nat),
    keys: Seq<Seq<u8>>,
    kids: Seq<u32>,
    a: int,
    b: int,
    rkeys: Seq<Seq<u8>>,
    rk: Seq<u32>,
    es: Seq<Entry>,
)
    requires
        sub_ok::<K>(pm0, cfg, id, lvl + 1, lo, hi, nxt, caps),
        nodes_of::<K>(pm0, cfg)[id as int] == (NodeM::Internal { pid: id, keys, kids }),
        0 <= a < b <= kids.len(),
        changed::<K>(
            pm0,
            pm1,
            cfg,
            lvl,
            kids.subrange(a, b),
            kid_lo(keys, lo, a),
            kid_hi(keys, hi, b - 1),
            kid_next(nodes_of::<K>(pm0, cfg), kids, lvl, nxt, b - 1),
            caps,
            rkeys,
            rk,
            es,
        ),
    ensures
        lifted::<K>(
            pm0,
            pm1,
            cfg,
            id,
            lvl,
            lo,
            hi,
            nxt,
            caps,
            put_keys(keys, a, b, rkeys),
            put_kids(kids, a, b, rk),
            kids_flat(nodes_of::<K>(pm0, cfg), kids.take(a), lvl) + es + kids_flat(
                nodes_of::<K>(pm0, cfg),
                kids.skip(b),
                lvl,
            ),
        ),
{
    lemma_lift::<K>(pm0, pm1, cfg, id, lvl, lo, hi, nxt, caps, keys, kids, a, b, rkeys, rk, es);
    reveal(lifted);
}

/// What is known of the file and the new keys once children changed.
pub proof fn lemma_lifted_basic<K: Key>(
    pm0: PageManager,
    pm1: PageManager,
    cfg: K::Config,
    id: u32,
    lvl: nat,
    lo: Bound,
    hi: Bound,
    nxt: u32,
    caps: (nat, nat),
    nk: Seq<Seq<u8>>,
    nc: Seq<u32>,
    es: Seq<Entry>,
)
    requires
        lifted::<K>(pm0, pm1, cfg, id, lvl, lo, hi, nxt, caps, nk, nc, es),
    ensures
        base_ok(pm1),
        pm0.count() <= pm1.count(),
        !pm1.is_free(id as int),
        nodes_of::<K>(pm1, cfg)[id as int] == nodes_of::<K>(pm0, cfg)[id as int],
        keys_sorted(nk),
        nc.len() == nk.len() + 1,
{
    reveal(lifted);
}

/// The node rewritten with its new keys and children.
pub proof fn lemma_finish<K: Key>(
    pm0: PageManager,
    pm1: PageManager,
    pm2: PageManager,
    cfg: K::Config,
    id: u32,
    lvl: nat,
    lo: Bound,
    hi: Bound,
    nxt: u32,
    caps: (nat, nat),
    nk: Seq<Seq<u8>>,
    nc: Seq<u32>,
    es: Seq<Entry>,
)
    requires
        sub_ok::<K>(pm0, cfg, id, lvl + 1, lo, hi, nxt, caps),
        lifted::<K>(pm0, pm1, cfg, id, lvl, lo, hi, nxt, caps, nk, nc, es),
        base_ok(pm2),
        pm2.count() == pm1.count(),
        forall|x: int| #[trigger] pm2.is_free(x) == pm1.is_free(x),
        nodes_of::<K>(pm2, cfg) == nodes_of::<K>(pm1, cfg).update(
            id as int,
            NodeM::Internal { pid: id, keys: nk, kids: nc },
        ),
        nk.len() <= caps.1,
    ensures
        changed::<K>(
            pm0,
            pm2,
            cfg,
            lvl + 1,
            one_kid(id),
            lo,
            hi,
            nxt,
            caps,
            Seq::empty(),
            one_kid(id),
            es,
        ),
{
    lemma_sub_root::<K>(pm0, cfg, id, lvl + 1, lo, hi, nxt, caps);
    reveal(lifted);
    lemma_rewrite::<K>(pm0, pm1, pm2, cfg, id, lvl, lo, hi, nxt, caps, nk, nc, es);
}

/// As [`lemma_finish`], with the children cut at separator `p` between the
/// node and a new one.
pub proof fn lemma_finish_cut<K: Key>(
    pm0: PageManager,
    pm1: PageManager,
    pm2: PageManager,
    cfg: K::Config,
    id: u32,
    rid: u32,
    lvl: nat,
    lo: Bound,
    hi: Bound,
    nxt: u32,
    caps: (nat, nat),
    nk: Seq<Seq<u8>>,
    nc: Seq<u32>,
    es: Seq<Entry>,
    p: int,
)
    requires
        sub_ok::<K>(pm0, cfg, id, lvl + 1, lo, hi, nxt, caps),
        lifted::<K>(pm0, pm1, cfg, id, lvl, lo, hi, nxt, caps, nk, nc, es),
        base_ok(pm2),
        pm2.count() >= pm1.count(),
        2 <= rid < pm2.count(),
        pm1.is_free(rid as int) || rid >= pm1.count(),
        !pm2.is_free(rid as int),
        forall|x: int| #[trigger] pm2.is_free(x) ==> pm1.is_free(x),
        forall|x: int|
            2 <= x < pm1.count() && x != id && x != rid ==> #[trigger] nodes_of::<K>(pm2, cfg)[x]
                == nodes_of::<K>(pm1, cfg)[x],
        0 <= p < nk.len(),
        nodes_of::<K>(pm2, cfg)[id as int] == (NodeM::Internal {
            pid: id,
            keys: nk.take(p),
            kids: nc.take(p + 1),
        }),
        nodes_of::<K>(pm2, cfg)[rid as int] == (NodeM::Internal {
            pid: rid,
            keys: nk.skip(p + 1),
            kids: nc.skip(p + 1),
        }),
        p <= caps.1,
        nk.len() - p - 1 <= caps.1,
    ensures
        changed::<K>(
            pm0,
            pm2,
            cfg,
            lvl + 1,
            one_kid(id),
            lo,
            hi,
            nxt,
            caps,
            seq![nk[p]],
            two_kids(id, rid),
            es,
        ),
{
    lemma_sub_root::<K>(pm0, cfg, id, lvl + 1, lo, hi, nxt, caps);
    reveal(lifted);
    lemma_rewrite_cut::<K>(pm0, pm1, pm2, cfg, id, rid, lvl, lo, hi, nxt, caps, nk, nc, es, p);
}

/// Going down to the child that could hold `k`.
pub proof fn lemma_step_down<K: Key>(
    pm: PageManager,
    cfg: K::Config,
    id: u32,
    lvl: nat,
    lo: Bound,
    hi: Bound,
    nxt: u32,
    caps: (nat, nat),
    keys: Seq<Seq<u8>>,
    kids: Seq<u32>,
    k: Seq<u8>,
    p: int,
)
    requires
        sub_ok::<K>(pm, cfg, id, lvl + 1, lo, hi, nxt, caps),
        nodes_of::<K>(pm, cfg)[id as int] == (NodeM::Internal { pid: id, keys, kids }),
        next_ok::<K>(pm, cfg, nxt, caps),
        above(lo, k),
        below(hi, k),
        upper_bound(keys, k, p),
    ensures
        0 <= p < kids.len(),
        sub_ok::<K>(
            pm,
            cfg,
            kids[p],
            lvl,
            kid_lo(keys, lo, p),
            kid_hi(keys, hi, p),
            kid_next(nodes_of::<K>(pm, cfg), kids, lvl, nxt, p),
            caps,
        ),
        next_ok::<K>(pm, cfg, kid_next(nodes_of::<K>(pm, cfg), kids, lvl, nxt, p), caps),
        above(kid_lo(keys, lo, p), k),
        below(kid_hi(keys, hi, p), k),
{
    let n = nodes_of::<K>(pm, cfg);
    lemma_open_node::<K>(pm, cfg, id, lvl, lo, hi, nxt, caps, keys, kids);
    lemma_descend(n, keys, kids, lvl, lo, hi, nxt, caps, k, p);
    lemma_kid_next_ok::<K>(pm, cfg, keys, kids, lvl, lo, hi, nxt, caps, p);
    assert(sub_ok::<K>(
        pm,
        cfg,
        kids[p],
        lvl,
        kid_lo(keys, lo, p),
        kid_hi(keys, hi, p),
        kid_next(n, kids, lvl, nxt, p),
        caps,
    ));
}

/// The entries below a node around those of the child that could hold `k`.
pub proof fn lemma_child_middle<K: Key>(
    pm: PageManager,
    cfg: K::Config,
    id: u32,
    lvl: nat,
    lo: Bound,
    hi: Bound,
    nxt: u32,
    caps: (nat, nat),
    keys: Seq<Seq<u8>>,
    kids: Seq<u32>,
    k: Seq<u8>,
    p: int,
)
    requires
        sub_ok::<K>(pm, cfg, id, lvl + 1, lo, hi, nxt, caps),
        nodes_of::<K>(pm, cfg)[id as int] == (NodeM::Internal { pid: id, keys, kids }),
        above(lo, k),
        below(hi, k),
        upper_bound(keys, k, p),
    ensures
        ({
            let n = nodes_of::<K>(pm, cfg);
            let a = kids_flat(n, kids.take(p), lvl);
            let b = flat(n, kids[p], lvl);
            let c = kids_flat(n, kids.skip(p + 1), lvl);
            let es = flat(n, id, lvl + 1);
            &&& forall|w: int| #[trigger] absent_at(b, k, w) ==> absent_at(es, k, a.len() + w)
            &&& forall|w: int| #[trigger] present_at(b, k, w) ==> present_at(es, k, a.len() + w)
            &&& forall|w: int, v: (u32, u16)|
                0 <= w <= b.len() ==> a + #[trigger] b.insert(w, (k, v)) + c == es.insert(
                    a.len() + w,
                    (k, v),
                )
            &&& forall|w: int|
                0 <= w < b.len() ==> a + #[trigger] b.remove(w) + c == es.remove(a.len() + w)
        }),
{
    let n = nodes_of::<K>(pm, cfg);
    lemma_open_node::<K>(pm, cfg, id, lvl, lo, hi, nxt, caps, keys, kids);
    lemma_descend(n, keys, kids, lvl, lo, hi, nxt, caps, k, p);
    lemma_kids_split(n, kids, lvl, p);
    let a = kids_flat(n, kids.take(p), lvl);
    let c = kids_flat(n, kids.skip(p + 1), lvl);
    lemma_middle(a, flat(n, kids[p], lvl), c, k);
}

} // verus!
