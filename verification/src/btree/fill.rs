//! How full the nodes of a B+Tree are: all but the root hold at least the
//! least number of entries, so the tree stays shallow.

use vstd::prelude::*;

use crate::btree::change::sub_ok;
use crate::btree::delete::Touched;
use crate::btree::key::Key;
use crate::btree::node::{internal_cap, leaf_cap};
use crate::btree::tree::{
    distinct, flat, kid_hi, kid_lo, kid_next, kids_flat, kids_leaves, kids_own, leaves,
    lemma_cat_append, lemma_cat_one, nodes_of, owns, tree_ok, Bound, NodeM,
};
use crate::btree::BTree;
use crate::page::manager::PageManager;

verus! {

/// The least number of entries of a leaf and of keys of an internal node.
pub open spec fn least<K: Key>(cfg: K::Config) -> (int, int) {
    (leaf_cap::<K>(cfg) as int * 40 / 100, internal_cap::<K>(cfg) as int * 40 / 100)
}

/// How many entries or keys a node has.
pub open spec fn node_size(m: NodeM) -> int {
    match m {
        NodeM::Leaf { entries, .. } => entries.len() as int,
        NodeM::Internal { keys, .. } => keys.len() as int,
        NodeM::Other => 0,
    }
}

/// How many entries or keys a node should have.
pub open spec fn node_least(m: NodeM, least: (int, int)) -> int {
    match m {
        NodeM::Leaf { .. } => least.0,
        NodeM::Internal { .. } => least.1,
        NodeM::Other => 0,
    }
}

/// The node is full enough.
pub open spec fn node_full(m: NodeM, least: (int, int)) -> bool {
    node_size(m) >= node_least(m, least)
}

/// All nodes of a file but those at `a` and `b` are full enough.
#[verifier::opaque]
pub open spec fn pages_full(n: Seq<NodeM>, least: (int, int), a: u32, b: u32) -> bool {
    forall|x: int| 2 <= x < n.len() && x != a && x != b ==> node_full(#[trigger] n[x], least)
}

/// A child of a node lacks at most one entry, and its neighbours none.
pub open spec fn repairable(
    n: Seq<NodeM>,
    least: (int, int),
    parent: u32,
    child: u32,
    kids: Seq<u32>,
) -> bool {
    &&& node_size(n[parent as int]) >= 1
    &&& node_size(n[child as int]) + 1 >= node_least(n[child as int], least)
    &&& forall|i: int|
        0 <= i < kids.len() && kids[i] != child ==> node_full(
            n[(#[trigger] kids[i]) as int],
            least,
        )
}

/// From `n0` to `n1` a child of a node was repaired where that could be; the
/// node lost at most one key.
#[verifier::opaque]
pub open spec fn repaired(
    n0: Seq<NodeM>,
    n1: Seq<NodeM>,
    least: (int, int),
    parent: u32,
    child: u32,
    kids: Seq<u32>,
    r: Touched,
) -> bool {
    &&& n1.len() == n0.len()
    &&& node_size(n1[parent as int]) + 1 >= node_size(n0[parent as int])
    &&& r == Touched::Kept ==> node_size(n1[parent as int]) >= node_size(n0[parent as int])
    &&& n1[parent as int] is Internal
    &&& repairable(n0, least, parent, child, kids) ==> forall|x: int|
        2 <= x < n1.len() && x != parent ==> node_full(#[trigger] n1[x], least) || (n1[x] == n0[x]
            && x != child)
}

/// From `n0` to `n1` no node changed but those on three pages.
pub open spec fn three_changed(n0: Seq<NodeM>, n1: Seq<NodeM>, a: u32, b: u32, c: u32) -> bool {
    &&& n1.len() == n0.len()
    &&& forall|x: int|
        2 <= x < n0.len() && x != a && x != b && x != c ==> #[trigger] n1[x] == n0[x]
}

/// From `n0` to `n1` the neighbours `a` and `b` under a parent were rewritten
/// with that many entries or keys.
#[verifier::opaque]
pub open spec fn evened(
    n0: Seq<NodeM>,
    n1: Seq<NodeM>,
    a: u32,
    b: u32,
    parent: u32,
    sizes: (int, int),
) -> bool {
    &&& three_changed(n0, n1, a, b, parent)
    &&& node_size(n1[a as int]) == sizes.0
    &&& node_size(n1[b as int]) == sizes.1
}

/// From `n0` to `n1` the node `b` was merged into its left neighbour `a` under
/// the same parent.
#[verifier::opaque]
pub open spec fn merged(n0: Seq<NodeM>, n1: Seq<NodeM>, a: u32, b: u32, parent: u32) -> bool {
    &&& three_changed(n0, n1, a, b, parent)
    &&& n1[b as int] is Other
}

/// From `n0` to `n1` child `i` of a node was repaired with its left neighbour
/// or, for the first child, with its right one: where that has more than `min`
/// entries or keys it gives one away, else the two are merged.
pub open spec fn mended(
    n0: Seq<NodeM>,
    n1: Seq<NodeM>,
    parent: u32,
    kids: Seq<u32>,
    i: int,
    min: nat,
) -> bool {
    if i > 0 {
        let (a, b) = (kids[i - 1], kids[i]);
        let (sa, sb) = (node_size(n0[a as int]), node_size(n0[b as int]));
        if sa > min {
            evened(n0, n1, a, b, parent, (sa - 1, sb + 1))
        } else {
            merged(n0, n1, a, b, parent)
        }
    } else if kids.len() > 1 {
        let (a, b) = (kids[0], kids[1]);
        let (sa, sb) = (node_size(n0[a as int]), node_size(n0[b as int]));
        if sb > min {
            evened(n0, n1, a, b, parent, (sa + 1, sb - 1))
        } else {
            merged(n0, n1, a, b, parent)
        }
    } else {
        n1 == n0
    }
}

/// Two neighbours were rewritten, and then their parent.
pub proof fn lemma_neighbours_repaired(
    n0: Seq<NodeM>,
    n1: Seq<NodeM>,
    n2: Seq<NodeM>,
    n3: Seq<NodeM>,
    least: (int, int),
    a: u32,
    am: NodeM,
    b: u32,
    bm: NodeM,
    parent: u32,
    pm: NodeM,
    child: u32,
    kids: Seq<u32>,
)
    requires
        a < n0.len(),
        b < n0.len(),
        parent < n0.len(),
        a != parent,
        b != parent,
        a != b,
        child == a || child == b,
        n1 == n0.update(a as int, am),
        n2 == n1.update(b as int, bm),
        n3 == n2.update(parent as int, pm),
        node_size(pm) == node_size(n0[parent as int]),
        pm is Internal,
        repairable(n0, least, parent, child, kids) ==> node_full(am, least) && node_full(
            bm,
            least,
        ),
    ensures
        repaired(n0, n3, least, parent, child, kids, Touched::Kept),
        evened(n0, n3, a, b, parent, (node_size(am), node_size(bm))),
{
    reveal(repaired);
    reveal(evened);
}

/// A node was merged into its left neighbour, and dropped from its parent.
pub proof fn lemma_merged_repaired(
    n0: Seq<NodeM>,
    n2: Seq<NodeM>,
    n3: Seq<NodeM>,
    least: (int, int),
    a: u32,
    b: u32,
    am: NodeM,
    parent: u32,
    pm: NodeM,
    child: u32,
    kids: Seq<u32>,
)
    requires
        a < n0.len(),
        b < n0.len(),
        parent < n0.len(),
        a != parent,
        b != parent,
        a != b,
        child == a || child == b,
        n2.len() == n0.len(),
        n2[a as int] == am,
        n2[b as int] is Other,
        forall|x: int| 2 <= x < n0.len() && x != a && x != b ==> #[trigger] n2[x] == n0[x],
        n3 == n2.update(parent as int, pm),
        node_size(pm) + 1 == node_size(n0[parent as int]),
        pm is Internal,
        repairable(n0, least, parent, child, kids) ==> node_full(am, least),
    ensures
        repaired(n0, n3, least, parent, child, kids, Touched::Shrunk),
        merged(n0, n3, a, b, parent),
{
    reveal(repaired);
    reveal(merged);
}

/// Nothing could be repaired.
pub proof fn lemma_none_repaired(
    n0: Seq<NodeM>,
    least: (int, int),
    parent: u32,
    child: u32,
    kids: Seq<u32>,
)
    requires
        node_size(n0[parent as int]) == 0,
        n0[parent as int] is Internal,
    ensures
        repaired(n0, n0, least, parent, child, kids, Touched::Kept),
{
    reveal(repaired);
}

/// A repair leaves all nodes full enough but the parent.
pub proof fn lemma_repaired_full(
    n0: Seq<NodeM>,
    n1: Seq<NodeM>,
    least: (int, int),
    root: u32,
    parent: u32,
    child: u32,
    kids: Seq<u32>,
    r: Touched,
)
    requires
        pages_full(n0, least, root, child),
        repaired(n0, n1, least, parent, child, kids, r),
        node_size(n0[parent as int]) >= 1,
        node_size(n0[child as int]) + 1 >= node_least(n0[child as int], least),
        forall|i: int|
            0 <= i < kids.len() ==> (#[trigger] kids[i]) != root && 2 <= kids[i] < n0.len(),
    ensures
        pages_full(n1, least, root, parent),
{
    reveal(pages_full);
    reveal(repaired);
    assert forall|i: int| 0 <= i < kids.len() && kids[i] != child implies node_full(
        n0[(#[trigger] kids[i]) as int],
        least,
    ) by {
        assert(kids[i] != root);
    }
    assert(repairable(n0, least, parent, child, kids));
}

/// One node was rewritten.
pub proof fn lemma_saved_full(
    n0: Seq<NodeM>,
    n1: Seq<NodeM>,
    least: (int, int),
    id: u32,
    m: NodeM,
    a: u32,
    b: u32,
)
    requires
        pages_full(n0, least, a, b),
        id < n0.len(),
        n1 == n0.update(id as int, m),
    ensures
        a == b ==> pages_full(n1, least, a, id),
        node_full(m, least) || id == a || id == b ==> pages_full(n1, least, a, b),
{
    reveal(pages_full);
}

/// A node that is full enough needs no exception.
pub proof fn lemma_fewer_exceptions(n: Seq<NodeM>, least: (int, int), a: u32, b: u32)
    requires
        pages_full(n, least, a, b),
        node_full(n[b as int], least) || a == b,
    ensures
        pages_full(n, least, a, a),
{
    reveal(pages_full);
}

/// More exceptions ask for less.
pub proof fn lemma_more_exceptions(n: Seq<NodeM>, least: (int, int), a: u32, b: u32)
    requires
        pages_full(n, least, a, a),
    ensures
        pages_full(n, least, a, b),
        pages_full(n, least, b, a),
{
    reveal(pages_full);
}

/// Two nodes are of one kind.
pub open spec fn same_kind(a: NodeM, b: NodeM) -> bool {
    (a is Leaf) == (b is Leaf) && (a is Internal) == (b is Internal)
}

/// From `n0` to `n1` an entry was removed below the node at `id`: all nodes
/// stay full enough but that one, which lost at most one entry or key.
#[verifier::opaque]
pub open spec fn shrunk(
    n0: Seq<NodeM>,
    n1: Seq<NodeM>,
    least: (int, int),
    id: u32,
    lvl: nat,
    r: Touched,
) -> bool {
    &&& n1.len() == n0.len()
    &&& same_kind(n0[id as int], n1[id as int])
    &&& node_size(n1[id as int]) + 1 >= node_size(n0[id as int])
    &&& r == Touched::Kept ==> node_size(n1[id as int]) >= node_size(n0[id as int])
    &&& forall|root: u32|
        #![trigger pages_full(n0, least, root, root)]
        #![trigger pages_full(n1, least, root, id)]
        pages_full(n0, least, root, root) && least.1 >= 1 && (root == id || !owns(
            n0,
            id,
            lvl,
            root as int,
        )) && (root == id && lvl > 0 ==> node_size(n0[id as int]) >= 1) ==> pages_full(
            n1,
            least,
            root,
            id,
        )
}

/// A leaf lost an entry.
pub proof fn lemma_leaf_shrunk(n0: Seq<NodeM>, n1: Seq<NodeM>, least: (int, int), id: u32, m: NodeM)
    requires
        id < n0.len(),
        n1 == n0.update(id as int, m),
        n0[id as int] is Leaf,
        m is Leaf,
        node_size(m) + 1 == node_size(n0[id as int]),
    ensures
        shrunk(n0, n1, least, id, 0, Touched::Shrunk),
{
    reveal(shrunk);
    assert forall|root: u32| #[trigger] pages_full(n0, least, root, root) implies pages_full(
        n1,
        least,
        root,
        id,
    ) by {
        lemma_saved_full(n0, n1, least, id, m, root, root);
    }
}

/// The root is not below a child of another node.
proof fn lemma_root_apart(
    n: Seq<NodeM>,
    id: u32,
    lvl: nat,
    keys: Seq<Seq<u8>>,
    kids: Seq<u32>,
    root: u32,
    i: int,
)
    requires
        n[id as int] == (NodeM::Internal { pid: id, keys, kids }),
        lvl > 0,
        distinct(n, id, lvl),
        root == id || !owns(n, id, lvl, root as int),
        0 <= i < kids.len(),
    ensures
        kids[i] != root,
        !owns(n, kids[i], (lvl - 1) as nat, root as int),
{
    if owns(n, kids[i], (lvl - 1) as nat, root as int) {
        assert(kids_own(n, kids, (lvl - 1) as nat, root as int));
    }
    assert(owns(n, kids[i], (lvl - 1) as nat, kids[i] as int));
}

/// An entry was removed below a child, which is still full enough.
pub proof fn lemma_child_shrunk(
    n0: Seq<NodeM>,
    n1: Seq<NodeM>,
    least: (int, int),
    id: u32,
    lvl: nat,
    keys: Seq<Seq<u8>>,
    kids: Seq<u32>,
    p: int,
    touched: Touched,
)
    requires
        lvl > 0,
        n0[id as int] == (NodeM::Internal { pid: id, keys, kids }),
        n1[id as int] == n0[id as int],
        distinct(n0, id, lvl),
        0 <= p < kids.len(),
        2 <= kids[p] < n0.len(),
        shrunk(n0, n1, least, kids[p], (lvl - 1) as nat, touched),
        touched == Touched::Kept || node_full(n1[kids[p] as int], least),
    ensures
        shrunk(n0, n1, least, id, lvl, Touched::Kept),
{
    reveal(shrunk);
    let child = kids[p];
    assert forall|root: u32|
        #[trigger] pages_full(n0, least, root, root) && least.1 >= 1 && (root == id || !owns(
            n0,
            id,
            lvl,
            root as int,
        )) implies pages_full(n1, least, root, id) by {
        lemma_root_apart(n0, id, lvl, keys, kids, root, p);
        assert(node_full(n0[child as int], least)) by {
            reveal(pages_full);
        }
        assert(pages_full(n1, least, root, child));
        lemma_fewer_exceptions(n1, least, root, child);
        lemma_more_exceptions(n1, least, root, id);
    }
}

/// An entry was removed below a child, which was then repaired.
pub proof fn lemma_repaired_shrunk(
    n0: Seq<NodeM>,
    n1: Seq<NodeM>,
    n2: Seq<NodeM>,
    least: (int, int),
    id: u32,
    lvl: nat,
    keys: Seq<Seq<u8>>,
    kids: Seq<u32>,
    p: int,
    touched: Touched,
    r: Touched,
)
    requires
        lvl > 0,
        2 <= id < n0.len(),
        n0[id as int] == (NodeM::Internal { pid: id, keys, kids }),
        n1[id as int] == n0[id as int],
        distinct(n0, id, lvl),
        0 <= p < kids.len(),
        forall|i: int| 0 <= i < kids.len() ==> 2 <= (#[trigger] kids[i]) < n0.len(),
        shrunk(n0, n1, least, kids[p], (lvl - 1) as nat, touched),
        repaired(n1, n2, least, id, kids[p], kids, r),
    ensures
        shrunk(n0, n2, least, id, lvl, r),
{
    reveal(shrunk);
    assert(n2.len() == n0.len() && n2[id as int] is Internal && node_size(n2[id as int]) + 1
        >= node_size(n0[id as int]) && (r == Touched::Kept ==> node_size(n2[id as int])
        >= node_size(n0[id as int]))) by {
        reveal(repaired);
    }
    let child = kids[p];
    assert forall|root: u32|
        #[trigger] pages_full(n0, least, root, root) && least.1 >= 1 && (root == id || !owns(
            n0,
            id,
            lvl,
            root as int,
        )) && (root == id && lvl > 0 ==> node_size(n0[id as int]) >= 1) implies pages_full(
        n2,
        least,
        root,
        id,
    ) by {
        lemma_root_apart(n0, id, lvl, keys, kids, root, p);
        assert(node_full(n0[child as int], least) && (root != id ==> node_full(
            n0[id as int],
            least,
        ))) by {
            reveal(pages_full);
        }
        assert(pages_full(n1, least, root, child));
        assert forall|i: int| 0 <= i < kids.len() implies (#[trigger] kids[i]) != root && 2
            <= kids[i] < n1.len() by {
            lemma_root_apart(n0, id, lvl, keys, kids, root, i);
        }
        lemma_repaired_full(n1, n2, least, root, id, child, kids, r);
    }
}

/// From `n0` to `n1` an entry was added below the node at `id`: nodes that were
/// full enough still are, and so is the node itself where it was split.
#[verifier::opaque]
pub open spec fn grown(
    n0: Seq<NodeM>,
    n1: Seq<NodeM>,
    least: (int, int),
    id: u32,
    split: bool,
) -> bool {
    &&& same_kind(n0[id as int], n1[id as int])
    &&& !split ==> node_size(n1[id as int]) >= node_size(n0[id as int])
    &&& split ==> node_full(n1[id as int], least)
    &&& forall|root: u32|
        #![trigger pages_full(n0, least, root, root)]
        #![trigger pages_full(n1, least, root, root)]
        pages_full(n0, least, root, root) ==> pages_full(n1, least, root, root)
}

/// A node got one more entry or key.
pub proof fn lemma_one_grown(n0: Seq<NodeM>, n1: Seq<NodeM>, least: (int, int), id: u32, m: NodeM)
    requires
        2 <= id < n0.len(),
        n1 == n0.update(id as int, m),
        same_kind(n0[id as int], m),
        node_size(m) >= node_size(n0[id as int]),
    ensures
        grown(n0, n1, least, id, false),
{
    reveal(grown);
    assert forall|root: u32| #[trigger] pages_full(n0, least, root, root) implies pages_full(
        n1,
        least,
        root,
        root,
    ) by {
        reveal(pages_full);
        if id != root {
            assert(node_full(n0[id as int], least));
        }
    }
}

/// A node was split in two.
pub proof fn lemma_split_grown(
    n0: Seq<NodeM>,
    n1: Seq<NodeM>,
    least: (int, int),
    id: u32,
    right: u32,
)
    requires
        2 <= id < n0.len(),
        id != right,
        n0.len() <= n1.len() <= n0.len() + 1,
        n1.len() > n0.len() ==> right == n0.len(),
        right < n1.len(),
        forall|x: int| 2 <= x < n0.len() && x != id && x != right ==> #[trigger] n1[x] == n0[x],
        same_kind(n0[id as int], n1[id as int]),
        node_full(n1[id as int], least),
        node_full(n1[right as int], least),
    ensures
        grown(n0, n1, least, id, true),
{
    reveal(grown);
    reveal(pages_full);
}

/// An entry was added below a child; the node is as it was.
pub proof fn lemma_child_grown(
    n0: Seq<NodeM>,
    n1: Seq<NodeM>,
    least: (int, int),
    id: u32,
    child: u32,
    split: bool,
)
    requires
        grown(n0, n1, least, child, split),
        n1[id as int] == n0[id as int],
    ensures
        grown(n0, n1, least, id, false),
{
    reveal(grown);
}

/// An entry was added below a child, and then a key to the node.
pub proof fn lemma_grown_then(
    n0: Seq<NodeM>,
    n1: Seq<NodeM>,
    n2: Seq<NodeM>,
    least: (int, int),
    id: u32,
    split: bool,
)
    requires
        grown(n0, n1, least, id, false),
        n1[id as int] == n0[id as int],
        grown(n1, n2, least, id, split),
    ensures
        grown(n0, n2, least, id, split),
{
    reveal(grown);
}

/// The nodes of a tree are full enough: all but the root, and the root has a
/// key if it is no leaf.
pub open spec fn tree_full(n: Seq<NodeM>, least: (int, int), root: u32) -> bool {
    &&& pages_full(n, least, root, root)
    &&& n[root as int] is Internal ==> node_size(n[root as int]) >= 1
}

/// A tree that did not grow in height is full enough.
pub proof fn lemma_same_root_full(n0: Seq<NodeM>, n1: Seq<NodeM>, least: (int, int), root: u32)
    requires
        tree_full(n0, least, root),
        grown(n0, n1, least, root, false),
    ensures
        tree_full(n1, least, root),
{
    reveal(grown);
}

/// A tree with a new root above two halves is full enough.
pub proof fn lemma_new_root_full(
    n0: Seq<NodeM>,
    n1: Seq<NodeM>,
    n2: Seq<NodeM>,
    least: (int, int),
    root: u32,
    new_root: u32,
)
    requires
        tree_full(n0, least, root),
        grown(n0, n1, least, root, true),
        n1.len() <= n2.len() <= n1.len() + 1,
        n2.len() > n1.len() ==> new_root == n1.len(),
        new_root < n2.len(),
        forall|x: int| 2 <= x < n1.len() && x != new_root ==> #[trigger] n2[x] == n1[x],
        n2[new_root as int] is Internal,
        node_size(n2[new_root as int]) >= 1,
    ensures
        tree_full(n2, least, new_root),
{
    reveal(grown);
    reveal(pages_full);
}

/// Pages past the first two decide.
pub proof fn lemma_same_nodes_full(n0: Seq<NodeM>, n1: Seq<NodeM>, least: (int, int), root: u32)
    requires
        tree_full(n0, least, root),
        2 <= root < n0.len(),
        n1.len() == n0.len(),
        forall|x: int| 2 <= x < n0.len() ==> #[trigger] n1[x] == n0[x],
    ensures
        tree_full(n1, least, root),
{
    reveal(pages_full);
}

/// The root lost an entry, and has one left if it is no leaf.
pub proof fn lemma_shrunk_root_full(
    n0: Seq<NodeM>,
    n1: Seq<NodeM>,
    least: (int, int),
    root: u32,
    lvl: nat,
    r: Touched,
)
    requires
        tree_full(n0, least, root),
        least.1 >= 1,
        (n0[root as int] is Internal) == (lvl > 0),
        shrunk(n0, n1, least, root, lvl, r),
    ensures
        pages_full(n1, least, root, root),
        r == Touched::Kept ==> tree_full(n1, least, root),
{
    reveal(shrunk);
}

/// A root without keys was replaced by its only child.
pub proof fn lemma_collapsed_full(
    n0: Seq<NodeM>,
    n1: Seq<NodeM>,
    least: (int, int),
    root: u32,
    child: u32,
)
    requires
        pages_full(n0, least, root, root),
        least.1 >= 1,
        n1.len() == n0.len(),
        child != root,
        2 <= child < n0.len(),
        n1[root as int] is Other,
        forall|x: int| 2 <= x < n0.len() && x != root ==> #[trigger] n1[x] == n0[x],
    ensures
        tree_full(n1, least, child),
{
    reveal(pages_full);
    assert(n1[child as int] == n0[child as int]);
    assert(node_full(n0[child as int], least));
}

/// The meta page is no node.
pub proof fn lemma_meta_full<K: Key>(
    pm0: PageManager,
    pm1: PageManager,
    cfg: K::Config,
    root: u32,
)
    requires
        tree_full(nodes_of::<K>(pm0, cfg), least::<K>(cfg), root),
        2 <= root < pm0.count(),
        pm1.pages@.len() == pm0.pages@.len(),
        forall|x: int|
            0 <= x < pm0.count() && x != 1 ==> #[trigger] pm1.pages@[x] == pm0.pages@[x],
    ensures
        tree_full(nodes_of::<K>(pm1, cfg), least::<K>(cfg), root),
{
    let n0 = nodes_of::<K>(pm0, cfg);
    let n1 = nodes_of::<K>(pm1, cfg);
    assert forall|x: int| 2 <= x < n0.len() implies #[trigger] n1[x] == n0[x] by {
        assert(pm1.pages@[x] == pm0.pages@[x]);
    }
    lemma_same_nodes_full(n0, n1, least::<K>(cfg), root);
}

// ── Height ──────────────────────────────────────────────────────────────

/// Two to the power of `n`.
pub open spec fn power(n: nat) -> nat
    decreases n,
{
    if n == 0 {
        1
    } else {
        2 * power((n - 1) as nat)
    }
}

/// The first two children hold no more than all.
proof fn lemma_two_of_all(n: Seq<NodeM>, kids: Seq<u32>, lvl: nat)
    requires
        kids.len() >= 2,
    ensures
        kids_flat(n, kids, lvl).len() >= flat(n, kids[0], lvl).len() + flat(n, kids[1], lvl).len(),
    decreases kids.len(),
{
    let f = kids.drop_last();
    lemma_cat_append(n, kids_leaves(n, f, lvl), leaves(n, kids.last(), lvl));
    if kids.len() > 2 {
        lemma_two_of_all(n, f, lvl);
        assert(f[0] == kids[0] && f[1] == kids[1]);
    } else {
        let g = f.drop_last();
        assert(g.len() == 0);
        lemma_cat_append(n, kids_leaves(n, g, lvl), leaves(n, f.last(), lvl));
        assert(f.last() == kids[0] && kids.last() == kids[1]);
    }
}

/// A subtree of nodes that are full enough holds many entries.
proof fn lemma_full_count(
    n: Seq<NodeM>,
    id: u32,
    lvl: nat,
    lo: Bound,
    hi: Bound,
    nxt: u32,
    caps: (nat, nat),
    least: (int, int),
    root: u32,
)
    requires
        tree_ok(n, id, lvl, lo, hi, nxt, caps),
        pages_full(n, least, root, root),
        !owns(n, id, lvl, root as int),
        least.0 >= 1,
        least.1 >= 1,
    ensures
        flat(n, id, lvl).len() >= power(lvl),
    decreases lvl,
{
    assert(id != root) by {
        assert(owns(n, id, lvl, id as int));
    }
    assert(node_full(n[id as int], least)) by {
        reveal(pages_full);
    }
    if lvl == 0 {
        lemma_cat_one(n, id);
    } else {
        let l1 = (lvl - 1) as nat;
        if let NodeM::Internal { pid, keys, kids } = n[id as int] {
            assert forall|i: int| 0 <= i < kids.len() implies !owns(
                n,
                #[trigger] kids[i],
                l1,
                root as int,
            ) by {
                if owns(n, kids[i], l1, root as int) {
                    assert(kids_own(n, kids, l1, root as int));
                }
            }
            assert(kids.len() >= 2);
            lemma_full_count(
                n,
                kids[0],
                l1,
                kid_lo(keys, lo, 0),
                kid_hi(keys, hi, 0),
                kid_next(n, kids, l1, nxt, 0),
                caps,
                least,
                root,
            );
            lemma_full_count(
                n,
                kids[1],
                l1,
                kid_lo(keys, lo, 1),
                kid_hi(keys, hi, 1),
                kid_next(n, kids, l1, nxt, 1),
                caps,
                least,
                root,
            );
            lemma_two_of_all(n, kids, l1);
        }
    }
}

/// A tree is shallow: with every level above the leaves the least number of
/// its entries doubles, so that a search takes a logarithmic number of steps.
pub proof fn law_tree_is_shallow<K: Key>(t: BTree<K>)
    requires
        t.tree_wf(),
        t.filled(),
        least::<K>(t.meta.config).0 >= 1,
        least::<K>(t.meta.config).1 >= 1,
    ensures
        t.meta.height > 1 ==> t.entries().len() >= power((t.meta.height - 1) as nat),
{
    reveal(sub_ok);
    let n = t.nodes();
    let root = t.meta.root_page_id;
    let lvl = (t.meta.height - 1) as nat;
    let caps = t.caps();
    let l = least::<K>(t.meta.config);
    if lvl > 0 {
        let l1 = (lvl - 1) as nat;
        if let NodeM::Internal { pid, keys, kids } = n[root as int] {
            assert forall|i: int| 0 <= i < kids.len() implies !owns(
                n,
                #[trigger] kids[i],
                l1,
                root as int,
            ) by {
                if owns(n, kids[i], l1, root as int) {
                    assert(kids_own(n, kids, l1, root as int));
                }
            }
            assert(kids.len() >= 2);
            lemma_full_count(
                n,
                kids[0],
                l1,
                kid_lo(keys, None, 0),
                kid_hi(keys, None, 0),
                kid_next(n, kids, l1, 0, 0),
                caps,
                l,
                root,
            );
            lemma_full_count(
                n,
                kids[1],
                l1,
                kid_lo(keys, None, 1),
                kid_hi(keys, None, 1),
                kid_next(n, kids, l1, 0, 1),
                caps,
                l,
                root,
            );
            lemma_two_of_all(n, kids, l1);
        }
    }
}

/// Trees of up to this many entries have few levels and pages enough.
pub const SURE_ENTRIES: usize = 100000000;

/// The most levels of such a tree.
pub const SURE_HEIGHT: u32 = 27;

proof fn lemma_power_grows(a: nat, b: nat)
    requires
        a <= b,
    ensures
        power(a) <= power(b),
    decreases b,
{
    if a < b {
        lemma_power_grows(a, (b - 1) as nat);
    }
}

/// A tree of a moderate number of entries has few levels.
pub proof fn law_few_levels<K: Key>(t: BTree<K>)
    requires
        t.tree_wf(),
        t.filled(),
        least::<K>(t.meta.config).0 >= 1,
        least::<K>(t.meta.config).1 >= 1,
        t.entries().len() <= SURE_ENTRIES,
    ensures
        t.meta.height <= SURE_HEIGHT,
{
    law_tree_is_shallow(t);
    if t.meta.height > SURE_HEIGHT {
        lemma_power_grows(27, (t.meta.height - 1) as nat);
        assert(power(27) == 134217728) by {
            reveal_with_fuel(power, 28);
        }
    }
}

/// A tree that was made by `n` insertions at most.
pub open spec fn small_tree<K: Key>(t: BTree<K>, n: int) -> bool {
    &&& t.filled()
    &&& t.entries().len() <= n
    &&& t.pm.count() <= 3 + 28 * n
}

/// From `a` to `b` a tree grew by at most one path of nodes.
pub open spec fn path_grown<K: Key>(a: BTree<K>, b: BTree<K>) -> bool {
    &&& b.pm.count() <= a.pm.count() + a.meta.height + 1
    &&& b.entries().len() <= a.entries().len() + 1
    &&& a.filled() ==> b.filled()
}

/// A small tree has room, and stays small as it grows.
pub proof fn lemma_small_tree<K: Key>(a: BTree<K>, b: BTree<K>, n: int)
    requires
        a.tree_wf(),
        small_tree(a, n),
        0 <= n < SURE_ENTRIES,
        least::<K>(a.meta.config).0 >= 1,
        least::<K>(a.meta.config).1 >= 1,
        path_grown(a, b),
    ensures
        small_tree(b, n + 1),
        a.has_room(),
{
    law_few_levels(a);
}

} // verus!
