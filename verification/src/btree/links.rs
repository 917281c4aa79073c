//! The pages of a B+Tree file as a whole: leaves form doubly linked lists,
//! nodes are as many as the root and the children that nodes name, and pages
//! that are given up are taken again.

use vstd::prelude::*;

use crate::btree::key::Key;
use crate::btree::tree::{next_at, nodes_of, NodeM};
use crate::bytes::field;
use crate::page::manager::{capped, free_pages_first, PageManager};

verus! {

/// The back link of the leaf on page `x`.
pub open spec fn back_at(pm: PageManager, x: int) -> u32 {
    field(pm.page(x), 38, 4) as u32
}

/// Leaves form doubly linked lists: the leaf after a leaf links back to it, and
/// the leaf before a leaf links to it. Free pages hold no nodes.
#[verifier::opaque]
pub open spec fn linked_back<K: Key>(pm: PageManager, cfg: K::Config) -> bool {
    let n = nodes_of::<K>(pm, cfg);
    &&& forall|x: u32|
        2 <= x < pm.count() && (#[trigger] n[x as int]) is Leaf && next_at(n, x) != 0 ==> 2
            <= next_at(n, x) < pm.count() && n[next_at(n, x) as int] is Leaf && back_at(
            pm,
            next_at(n, x) as int,
        ) == x
    &&& forall|x: u32|
        2 <= x < pm.count() && (#[trigger] n[x as int]) is Leaf && back_at(pm, x as int) != 0
            ==> 2 <= back_at(pm, x as int) < pm.count() && n[back_at(pm, x as int) as int] is Leaf
            && next_at(n, back_at(pm, x as int)) == x
    &&& forall|x: int| 2 <= x < pm.count() && #[trigger] pm.is_free(x) ==> n[x] is Other
}

/// Free pages hold no nodes.
pub proof fn lemma_free_blank<K: Key>(pm: PageManager, cfg: K::Config)
    requires
        linked_back::<K>(pm, cfg),
    ensures
        forall|x: int|
            2 <= x < pm.count() && #[trigger] pm.is_free(x) ==> nodes_of::<K>(pm, cfg)[x] is Other,
{
    reveal(linked_back);
}

/// What a node adds to the tally: itself, less the children that it names.
pub open spec fn node_tally(m: NodeM) -> int {
    match m {
        NodeM::Leaf { .. } => 1,
        NodeM::Internal { kids, .. } => 1 - kids.len(),
        NodeM::Other => 0,
    }
}

/// The tally of the first `k` pages.
pub open spec fn tally_to(n: Seq<NodeM>, k: int) -> int
    decreases k,
{
    if k <= 2 {
        0
    } else {
        tally_to(n, k - 1) + node_tally(n[k - 1])
    }
}

/// The number of nodes in a file less the number of children that they name.
/// It is one in a file whose nodes are those of one tree.
#[verifier::opaque]
pub open spec fn tally(n: Seq<NodeM>) -> int {
    tally_to(n, n.len() as int)
}

/// From `pm0` to `pm1` lists of leaves stayed linked, and the tally grew by
/// `d`.
pub open spec fn tended<K: Key>(pm0: PageManager, pm1: PageManager, cfg: K::Config, d: int) -> bool {
    linked_back::<K>(pm0, cfg) ==> linked_back::<K>(pm1, cfg) && tally(nodes_of::<K>(pm1, cfg))
        == tally(nodes_of::<K>(pm0, cfg)) + d
}

/// From `pm0` to `pm1` no page became a node, and exactly the pages that were
/// nodes and are none any more went to the free-list, as far as it has room.
#[verifier::opaque]
pub open spec fn recycled<K: Key>(pm0: PageManager, pm1: PageManager, cfg: K::Config) -> bool {
    let n0 = nodes_of::<K>(pm0, cfg);
    let n1 = nodes_of::<K>(pm1, cfg);
    &&& pm1.count() == pm0.count()
    &&& forall|x: int| 2 <= x < pm0.count() && n0[x] is Other ==> #[trigger] n1[x] is Other
    &&& exists|ids: Seq<u32>| #[trigger] given_up::<K>(pm0, pm1, cfg, ids)
}

/// The pages `ids` are those that were nodes and are none any more; they went
/// to the free-list.
pub open spec fn given_up<K: Key>(
    pm0: PageManager,
    pm1: PageManager,
    cfg: K::Config,
    ids: Seq<u32>,
) -> bool {
    let n0 = nodes_of::<K>(pm0, cfg);
    let n1 = nodes_of::<K>(pm1, cfg);
    &&& pm1.free_ids() == capped(pm0.free_ids() + ids)
    &&& forall|j: int|
        0 <= j < ids.len() ==> 2 <= (#[trigger] ids[j]) < pm0.count() && !(n0[ids[j] as int] is Other)
            && n1[ids[j] as int] is Other
    &&& forall|x: u32|
        2 <= x < pm0.count() && !((#[trigger] n0[x as int]) is Other) && n1[x as int] is Other
            ==> ids.contains(x)
}

/// From `pm0` to `pm1` pages were taken, free ones first.
#[verifier::opaque]
pub open spec fn drawn(pm0: PageManager, pm1: PageManager) -> bool {
    exists|k: nat| #[trigger] free_pages_first(pm0, pm1, k)
}

pub proof fn lemma_drawn(pm0: PageManager, pm1: PageManager, k: nat)
    requires
        free_pages_first(pm0, pm1, k),
    ensures
        drawn(pm0, pm1),
{
    reveal(drawn);
}

pub proof fn lemma_none_drawn(pm0: PageManager, pm1: PageManager)
    requires
        pm1.free_ids() == pm0.free_ids(),
        pm1.count() == pm0.count(),
    ensures
        drawn(pm0, pm1),
{
    let f = pm0.free_ids();
    assert(f.take(f.len() as int) =~= f);
    lemma_drawn(pm0, pm1, 0);
}

pub proof fn lemma_drawn_then(a: PageManager, b: PageManager, c: PageManager)
    requires
        drawn(a, b),
        drawn(b, c),
    ensures
        drawn(a, c),
{
    reveal(drawn);
    let j = choose|k: nat| #[trigger] free_pages_first(a, b, k);
    let k = choose|k: nat| #[trigger] free_pages_first(b, c, k);
    let f = a.free_ids();
    if j + k <= f.len() {
        assert(f.take(f.len() - j).take(f.len() - j - k) =~= f.take(f.len() - (j + k)));
    }
    assert(free_pages_first(a, c, j + k));
}

/// From `pm0` to `pm1` the file stayed tidy, and pages that were given up went
/// to the free-list.
pub open spec fn kept_tidy<K: Key>(pm0: PageManager, pm1: PageManager, cfg: K::Config) -> bool {
    tended::<K>(pm0, pm1, cfg, 0) && recycled::<K>(pm0, pm1, cfg)
}

proof fn lemma_tally_to_update(n: Seq<NodeM>, i: int, m: NodeM, k: int)
    requires
        2 <= i < n.len(),
        k <= n.len(),
    ensures
        tally_to(n.update(i, m), k) == tally_to(n, k) + (if i < k {
            node_tally(m) - node_tally(n[i])
        } else {
            0
        }),
    decreases k,
{
    if k > 2 {
        lemma_tally_to_update(n, i, m, k - 1);
    }
}

/// Rewriting a page changes the tally by what the page adds.
pub proof fn lemma_tally_update(n: Seq<NodeM>, i: int, m: NodeM)
    requires
        2 <= i < n.len(),
    ensures
        tally(n.update(i, m)) == tally(n) + node_tally(m) - node_tally(n[i]),
{
    reveal(tally);
    lemma_tally_to_update(n, i, m, n.len() as int);
}

proof fn lemma_tally_to_same(n: Seq<NodeM>, m: Seq<NodeM>, k: int)
    requires
        k <= n.len(),
        k <= m.len(),
        forall|x: int| 2 <= x < k ==> #[trigger] m[x] == n[x],
    ensures
        tally_to(m, k) == tally_to(n, k),
    decreases k,
{
    if k > 2 {
        lemma_tally_to_same(n, m, k - 1);
    }
}

/// The tally depends on the pages past the first two; a page without a node
/// adds nothing to it.
pub proof fn lemma_tally_same(n: Seq<NodeM>, m: Seq<NodeM>)
    requires
        m.len() == n.len() || (m.len() == n.len() + 1 && m.last() is Other),
        forall|x: int| 2 <= x < n.len() ==> #[trigger] m[x] == n[x],
    ensures
        tally(m) == tally(n),
{
    reveal(tally);
    lemma_tally_to_same(n, m, n.len() as int);
    if m.len() == n.len() + 1 {
        assert(m.last() == m[n.len() as int]);
    }
}

/// The links of the leaf on a page, or that there is none, are as they were.
pub open spec fn same_links<K: Key>(
    pm0: PageManager,
    pm1: PageManager,
    cfg: K::Config,
    x: u32,
) -> bool {
    let n0 = nodes_of::<K>(pm0, cfg);
    let n1 = nodes_of::<K>(pm1, cfg);
    &&& n1[x as int] is Leaf == n0[x as int] is Leaf
    &&& n0[x as int] is Leaf ==> next_at(n1, x) == next_at(n0, x) && back_at(pm1, x as int)
        == back_at(pm0, x as int)
}

/// Lists stay linked where no leaf changes its links.
pub proof fn lemma_links_same<K: Key>(pm0: PageManager, pm1: PageManager, cfg: K::Config)
    requires
        linked_back::<K>(pm0, cfg),
        pm0.count() <= pm1.count() <= u32::MAX,
        forall|x: u32| 2 <= x < pm0.count() ==> #[trigger] same_links::<K>(pm0, pm1, cfg, x),
        forall|x: int|
            pm0.count() <= x < pm1.count() ==> !((#[trigger] nodes_of::<K>(pm1, cfg)[x]) is Leaf),
        forall|x: int|
            2 <= x < pm1.count() && #[trigger] pm1.is_free(x) ==> nodes_of::<K>(
                pm1,
                cfg,
            )[x] is Other,
    ensures
        linked_back::<K>(pm1, cfg),
{
    reveal(linked_back);
    let n0 = nodes_of::<K>(pm0, cfg);
    let n1 = nodes_of::<K>(pm1, cfg);
    assert forall|x: u32|
        2 <= x < pm1.count() && (#[trigger] n1[x as int]) is Leaf && next_at(n1, x)
            != 0 implies 2 <= next_at(n1, x) < pm1.count() && n1[next_at(n1, x) as int] is Leaf
        && back_at(pm1, next_at(n1, x) as int) == x by {
        assert(same_links::<K>(pm0, pm1, cfg, x));
        assert(n0[x as int] is Leaf);
        assert(same_links::<K>(pm0, pm1, cfg, next_at(n0, x)));
    }
    assert forall|x: u32|
        2 <= x < pm1.count() && (#[trigger] n1[x as int]) is Leaf && back_at(pm1, x as int)
            != 0 implies 2 <= back_at(pm1, x as int) < pm1.count() && n1[back_at(
        pm1,
        x as int,
    ) as int] is Leaf && next_at(n1, back_at(pm1, x as int)) == x by {
        assert(same_links::<K>(pm0, pm1, cfg, x));
        assert(n0[x as int] is Leaf);
        assert(same_links::<K>(pm0, pm1, cfg, back_at(pm0, x as int)));
    }
}

/// A file with one leaf, which links nowhere.
pub proof fn lemma_one_leaf<K: Key>(pm: PageManager, cfg: K::Config)
    requires
        pm.count() == 3,
        pm.free_ids().len() == 0,
        nodes_of::<K>(pm, cfg)[2] is Leaf,
        next_at(nodes_of::<K>(pm, cfg), 2) == 0,
        back_at(pm, 2) == 0,
    ensures
        linked_back::<K>(pm, cfg),
        tally(nodes_of::<K>(pm, cfg)) == 1,
{
    reveal(linked_back);
    reveal(tally);
    reveal_with_fuel(tally_to, 3);
}

/// Writing the meta page touches no node.
pub proof fn lemma_meta_tidy<K: Key>(pm0: PageManager, pm1: PageManager, cfg: K::Config)
    requires
        pm1.count() == pm0.count() <= u32::MAX,
        forall|x: int| 0 <= x < pm0.count() && x != 1 ==> #[trigger] pm1.pages@[x] == pm0.pages@[x],
    ensures
        tended::<K>(pm0, pm1, cfg, 0),
        pm0.count() >= 1 ==> pm1.free_ids() == pm0.free_ids(),
        pm0.count() >= 1 ==> recycled::<K>(pm0, pm1, cfg),
{
    let n0 = nodes_of::<K>(pm0, cfg);
    let n1 = nodes_of::<K>(pm1, cfg);
    assert forall|x: int| 2 <= x < pm0.count() implies #[trigger] n1[x] == n0[x] by {
        assert(pm1.pages@[x] == pm0.pages@[x]);
    }
    lemma_tally_same(n0, n1);
    if pm0.count() >= 1 {
        assert(pm1.pages@[0] == pm0.pages@[0]);
        assert(pm1.free_ids() == pm0.free_ids());
        lemma_recycled_same::<K>(pm0, pm1, cfg);
    }
    if linked_back::<K>(pm0, cfg) {
        lemma_free_blank::<K>(pm0, cfg);
        assert forall|x: u32| 2 <= x < pm0.count() implies #[trigger] same_links::<K>(
            pm0,
            pm1,
            cfg,
            x,
        ) by {
            assert(pm1.pages@[x as int] == pm0.pages@[x as int]);
        }
        if pm0.count() >= 1 {
            lemma_free_list(pm0, pm1);
        }
        lemma_links_same::<K>(pm0, pm1, cfg);
    }
}

/// A leaf was cut in two: the right half took the place behind it in the list.
pub proof fn lemma_split_links<K: Key>(
    pm0: PageManager,
    pm1: PageManager,
    cfg: K::Config,
    l: u32,
    r: u32,
    nxt: u32,
)
    requires
        linked_back::<K>(pm0, cfg),
        pm1.count() == pm0.count() <= u32::MAX,
        pm1.free_ids() == pm0.free_ids(),
        2 <= l < pm0.count(),
        2 <= r < pm0.count(),
        l != r,
        nxt != l,
        !pm0.is_free(r as int),
        nodes_of::<K>(pm0, cfg)[r as int] is Other,
        nodes_of::<K>(pm0, cfg)[l as int] is Leaf,
        next_at(nodes_of::<K>(pm0, cfg), l) == nxt,
        nodes_of::<K>(pm1, cfg)[l as int] is Leaf,
        next_at(nodes_of::<K>(pm1, cfg), l) == r,
        back_at(pm1, l as int) == back_at(pm0, l as int),
        nodes_of::<K>(pm1, cfg)[r as int] is Leaf,
        next_at(nodes_of::<K>(pm1, cfg), r) == nxt,
        back_at(pm1, r as int) == l,
        nxt != 0 ==> nodes_of::<K>(pm1, cfg)[nxt as int] == nodes_of::<K>(pm0, cfg)[nxt as int]
            && back_at(pm1, nxt as int) == r,
        forall|x: u32|
            2 <= x < pm0.count() && x != l && x != r && x != nxt ==> #[trigger] same_page(
                pm0,
                pm1,
                x,
            ),
    ensures
        linked_back::<K>(pm1, cfg),
{
    reveal(linked_back);
    let n0 = nodes_of::<K>(pm0, cfg);
    let n1 = nodes_of::<K>(pm1, cfg);
    assert(n0[l as int] is Leaf);
    let p = back_at(pm0, l as int);
    assert forall|x: u32|
        2 <= x < pm1.count() && (#[trigger] n1[x as int]) is Leaf && next_at(n1, x)
            != 0 implies 2 <= next_at(n1, x) < pm1.count() && n1[next_at(n1, x) as int] is Leaf
        && back_at(pm1, next_at(n1, x) as int) == x by {
        if x != l && x != r {
            if x != nxt {
                assert(same_page(pm0, pm1, x));
            }
            assert(n0[x as int] is Leaf);
            let y = next_at(n0, x);
            assert(n0[y as int] is Leaf && back_at(pm0, y as int) == x);
            if y == nxt {
                assert(back_at(pm0, nxt as int) == l);
            } else if y != l {
                assert(same_page(pm0, pm1, y));
            }
        }
    }
    assert forall|x: u32|
        2 <= x < pm1.count() && (#[trigger] n1[x as int]) is Leaf && back_at(pm1, x as int)
            != 0 implies 2 <= back_at(pm1, x as int) < pm1.count() && n1[back_at(
        pm1,
        x as int,
    ) as int] is Leaf && next_at(n1, back_at(pm1, x as int)) == x by {
        if x != r && !(x == nxt) {
            if x != l {
                assert(same_page(pm0, pm1, x));
            }
            assert(n0[x as int] is Leaf);
            let q = back_at(pm0, x as int);
            assert(n0[q as int] is Leaf && next_at(n0, q) == x);
            assert(q != r && q != l);
            if q != nxt {
                assert(same_page(pm0, pm1, q));
            }
        }
    }
    lemma_free_list(pm0, pm1);
    assert forall|x: int| 2 <= x < pm1.count() && #[trigger] pm1.is_free(x) implies n1[x] is Other by {
        assert(pm0.is_free(x));
        assert(n0[x] is Other);
        if nxt != 0 {
            assert(n0[nxt as int] is Leaf);
        }
        assert(same_page(pm0, pm1, x as u32));
    }
}

/// The page is as it was.
pub open spec fn same_page(pm0: PageManager, pm1: PageManager, x: u32) -> bool {
    pm1.page(x as int) == pm0.page(x as int)
}

/// What is free depends on the free-list alone.
proof fn lemma_free_list(pm0: PageManager, pm1: PageManager)
    requires
        pm1.free_ids() == pm0.free_ids(),
    ensures
        forall|x: int| #[trigger] pm1.is_free(x) == pm0.is_free(x),
{
    assert forall|x: int| #[trigger] pm1.is_free(x) == pm0.is_free(x) by {
        if pm1.is_free(x) {
            let i = choose|i: int|
                0 <= i < pm1.free_ids().len() && #[trigger] pm1.free_ids()[i] == x;
            assert(pm0.free_ids()[i] == x);
        }
        if pm0.is_free(x) {
            let i = choose|i: int|
                0 <= i < pm0.free_ids().len() && #[trigger] pm0.free_ids()[i] == x;
            assert(pm1.free_ids()[i] == x);
        }
    }
}

/// A leaf was merged into the one before it and left the list.
pub proof fn lemma_merge_links<K: Key>(
    pm0: PageManager,
    pm1: PageManager,
    cfg: K::Config,
    a: u32,
    b: u32,
    nxt: u32,
)
    requires
        linked_back::<K>(pm0, cfg),
        pm1.count() == pm0.count() <= u32::MAX,
        forall|x: int| #[trigger] pm1.is_free(x) ==> pm0.is_free(x) || x == b,
        2 <= a < pm0.count(),
        2 <= b < pm0.count(),
        a != b,
        nxt != a,
        nxt != b,
        nodes_of::<K>(pm0, cfg)[a as int] is Leaf,
        next_at(nodes_of::<K>(pm0, cfg), a) == b,
        nodes_of::<K>(pm0, cfg)[b as int] is Leaf,
        next_at(nodes_of::<K>(pm0, cfg), b) == nxt,
        nodes_of::<K>(pm1, cfg)[a as int] is Leaf,
        next_at(nodes_of::<K>(pm1, cfg), a) == nxt,
        back_at(pm1, a as int) == back_at(pm0, a as int),
        nodes_of::<K>(pm1, cfg)[b as int] is Other,
        nxt != 0 ==> nodes_of::<K>(pm1, cfg)[nxt as int] == nodes_of::<K>(pm0, cfg)[nxt as int]
            && back_at(pm1, nxt as int) == a,
        forall|x: u32|
            2 <= x < pm0.count() && x != a && x != b && x != nxt ==> #[trigger] same_page(
                pm0,
                pm1,
                x,
            ),
    ensures
        linked_back::<K>(pm1, cfg),
{
    reveal(linked_back);
    let n0 = nodes_of::<K>(pm0, cfg);
    let n1 = nodes_of::<K>(pm1, cfg);
    assert(n0[a as int] is Leaf);
    assert(n0[b as int] is Leaf);
    assert(back_at(pm0, b as int) == a);
    if nxt != 0 {
        assert(n0[nxt as int] is Leaf && back_at(pm0, nxt as int) == b);
    }
    assert forall|x: u32|
        2 <= x < pm1.count() && (#[trigger] n1[x as int]) is Leaf && next_at(n1, x)
            != 0 implies 2 <= next_at(n1, x) < pm1.count() && n1[next_at(n1, x) as int] is Leaf
        && back_at(pm1, next_at(n1, x) as int) == x by {
        if x != a {
            if x != nxt {
                assert(same_page(pm0, pm1, x));
            }
            assert(n0[x as int] is Leaf);
            let y = next_at(n0, x);
            assert(n0[y as int] is Leaf && back_at(pm0, y as int) == x);
            assert(y != b && y != nxt);
            if y != a {
                assert(same_page(pm0, pm1, y));
            }
        }
    }
    assert forall|x: u32|
        2 <= x < pm1.count() && (#[trigger] n1[x as int]) is Leaf && back_at(pm1, x as int)
            != 0 implies 2 <= back_at(pm1, x as int) < pm1.count() && n1[back_at(
        pm1,
        x as int,
    ) as int] is Leaf && next_at(n1, back_at(pm1, x as int)) == x by {
        if x != nxt {
            if x != a {
                assert(same_page(pm0, pm1, x));
            }
            assert(n0[x as int] is Leaf);
            let q = back_at(pm0, x as int);
            assert(n0[q as int] is Leaf && next_at(n0, q) == x);
            assert(q != a && q != b);
            if q != nxt {
                assert(same_page(pm0, pm1, q));
            }
        }
    }
    assert forall|x: int| 2 <= x < pm1.count() && #[trigger] pm1.is_free(x) implies n1[x] is Other by {
        if x != b {
            assert(pm0.is_free(x));
            assert(n0[x] is Other);
            assert(same_page(pm0, pm1, x as u32));
        }
    }
}

/// Rewriting a node gives nothing up.
pub proof fn lemma_recycled_save<K: Key>(
    pm0: PageManager,
    pm1: PageManager,
    cfg: K::Config,
    id: u32,
    m: NodeM,
)
    requires
        pm1.count() == pm0.count(),
        pm1.free_ids() == pm0.free_ids(),
        nodes_of::<K>(pm1, cfg) == nodes_of::<K>(pm0, cfg).update(id as int, m),
        2 <= id < pm0.count(),
        !(m is Other),
        !(nodes_of::<K>(pm0, cfg)[id as int] is Other),
    ensures
        recycled::<K>(pm0, pm1, cfg),
{
    reveal(recycled);
    let none = Seq::<u32>::empty();
    assert(pm0.free_ids() + none =~= pm0.free_ids());
    assert(capped(pm0.free_ids()) =~= pm0.free_ids());
    assert(given_up::<K>(pm0, pm1, cfg, none));
}

/// Nothing happened.
pub proof fn lemma_recycled_same<K: Key>(pm0: PageManager, pm1: PageManager, cfg: K::Config)
    requires
        pm1.count() == pm0.count(),
        pm1.free_ids() == pm0.free_ids(),
        forall|x: int|
            2 <= x < pm0.count() ==> #[trigger] nodes_of::<K>(pm1, cfg)[x] == nodes_of::<K>(
                pm0,
                cfg,
            )[x],
    ensures
        recycled::<K>(pm0, pm1, cfg),
{
    reveal(recycled);
    let none = Seq::<u32>::empty();
    assert(pm0.free_ids() + none =~= pm0.free_ids());
    assert(capped(pm0.free_ids()) =~= pm0.free_ids());
    assert(given_up::<K>(pm0, pm1, cfg, none));
}

/// A node that is released is given up.
pub proof fn lemma_recycled_release<K: Key>(
    pm0: PageManager,
    pm1: PageManager,
    cfg: K::Config,
    id: u32,
)
    requires
        pm1.count() == pm0.count(),
        pm1.free_ids() == capped(pm0.free_ids().push(id)),
        2 <= id < pm0.count(),
        !(nodes_of::<K>(pm0, cfg)[id as int] is Other),
        nodes_of::<K>(pm1, cfg)[id as int] is Other,
        forall|x: int|
            2 <= x < pm0.count() && x != id ==> #[trigger] nodes_of::<K>(pm1, cfg)[x] == nodes_of::<
                K,
            >(pm0, cfg)[x],
    ensures
        recycled::<K>(pm0, pm1, cfg),
{
    reveal(recycled);
    let one = seq![id];
    assert(pm0.free_ids() + one =~= pm0.free_ids().push(id));
    assert(one[0] == id);
    assert(given_up::<K>(pm0, pm1, cfg, one));
}

/// One change after another.
pub proof fn lemma_recycled_then<K: Key>(
    a: PageManager,
    b: PageManager,
    c: PageManager,
    cfg: K::Config,
)
    requires
        recycled::<K>(a, b, cfg),
        recycled::<K>(b, c, cfg),
    ensures
        recycled::<K>(a, c, cfg),
{
    reveal(recycled);
    let x = choose|ids: Seq<u32>| #[trigger] given_up::<K>(a, b, cfg, ids);
    let y = choose|ids: Seq<u32>| #[trigger] given_up::<K>(b, c, cfg, ids);
    let (n0, n1, n2) = (
        nodes_of::<K>(a, cfg),
        nodes_of::<K>(b, cfg),
        nodes_of::<K>(c, cfg),
    );
    let all = x + y;
    assert(capped(capped(a.free_ids() + x) + y) =~= capped(a.free_ids() + all));
    assert forall|i: int| 2 <= i < a.count() && n0[i] is Other implies #[trigger] n2[i] is Other by {
        assert(n1[i] is Other);
    }
    assert forall|j: int| 0 <= j < all.len() implies 2 <= (#[trigger] all[j]) < a.count() && !(
    n0[all[j] as int] is Other) && n2[all[j] as int] is Other by {
        if j < x.len() {
            assert(all[j] == x[j]);
            assert(n1[x[j] as int] is Other);
            assert(n2[x[j] as int] is Other);
        } else {
            assert(all[j] == y[j - x.len()]);
            assert(!(n1[y[j - x.len()] as int] is Other));
        }
    }
    assert forall|i: u32|
        2 <= i < a.count() && !((#[trigger] n0[i as int]) is Other)
            && n2[i as int] is Other implies all.contains(i) by {
        if n1[i as int] is Other {
            assert(x.contains(i));
            let m = choose|m: int| 0 <= m < x.len() && x[m] == i;
            assert(all[m] == i);
        } else {
            assert(y.contains(i));
            let m = choose|m: int| 0 <= m < y.len() && y[m] == i;
            assert(all[x.len() + m] == i);
        }
    }
    assert(given_up::<K>(a, c, cfg, all));
}

} // verus!
