//! Index entries as a sorted sequence.

use vstd::prelude::*;

use crate::btree::change::{lemma_leaf_ok, sub_ok};
use crate::btree::key::Key;
use crate::btree::node::Entry;
use crate::btree::tree::{
    above, below, flat, nodes_of, sorted, strictly_above, within, Bound, NodeM,
};
use crate::bytes::{
    lemma_lex_asymmetric, lemma_lex_irreflexive, lemma_lex_total, lemma_lex_transitive, lex_lt,
};
use crate::page::manager::PageManager;

verus! {

/// The tree at `root` is a search tree over all keys.
pub open spec fn wf_parts<K: Key>(
    pm: PageManager,
    cfg: K::Config,
    root: u32,
    lvl: nat,
    caps: (nat, nat),
) -> bool {
    sub_ok::<K>(pm, cfg, root, lvl, None, None, 0, caps)
}

pub proof fn lemma_empty_tree<K: Key>(pm: PageManager, cfg: K::Config, root: u32, caps: (nat, nat))
    requires
        pm.wf(),
        pm.count() >= 2,
        pm.free_ids().len() == 0,
        2 <= root < pm.count(),
        nodes_of::<K>(pm, cfg)[root as int] == (NodeM::Leaf {
            pid: root,
            next: 0,
            entries: Seq::empty(),
        }),
    ensures
        wf_parts::<K>(pm, cfg, root, 0, caps),
        flat(nodes_of::<K>(pm, cfg), root, 0) == Seq::<Entry>::empty(),
{
    reveal(sub_ok);
    lemma_leaf_ok(nodes_of::<K>(pm, cfg), root, None, None, 0, caps, Seq::empty());
}

/// `k` is absent from `es`, and `p` is its place: what is before is less, what
/// is behind is greater.
pub open spec fn absent_at(es: Seq<Entry>, k: Seq<u8>, p: int) -> bool {
    &&& 0 <= p <= es.len()
    &&& forall|i: int| 0 <= i < p ==> lex_lt((#[trigger] es[i]).0, k)
    &&& forall|i: int| p <= i < es.len() ==> lex_lt(k, (#[trigger] es[i]).0)
}

/// `k` is the key of entry `p`.
pub open spec fn present_at(es: Seq<Entry>, k: Seq<u8>, p: int) -> bool {
    0 <= p < es.len() && es[p].0 == k
}

/// The number of entries with a key less than `k`, as long as they come first.
pub open spec fn rank(es: Seq<Entry>, k: Seq<u8>) -> int
    decreases es.len(),
{
    if es.len() == 0 {
        0
    } else if lex_lt(es[0].0, k) {
        1 + rank(es.skip(1), k)
    } else {
        0
    }
}

/// The value stored under `k`, if any.
pub open spec fn lookup(es: Seq<Entry>, k: Seq<u8>) -> Option<(u32, u16)> {
    let p = rank(es, k);
    if present_at(es, k, p) {
        Some(es[p].1)
    } else {
        None
    }
}

/// The entries with `k` added in its place.
pub open spec fn with_entry(es: Seq<Entry>, k: Seq<u8>, v: (u32, u16)) -> Seq<Entry> {
    es.insert(rank(es, k), (k, v))
}

/// The entries without `k`.
pub open spec fn without(es: Seq<Entry>, k: Seq<u8>) -> Seq<Entry> {
    es.remove(rank(es, k))
}

pub proof fn lemma_rank(es: Seq<Entry>, k: Seq<u8>)
    requires
        sorted(es),
    ensures
        0 <= rank(es, k) <= es.len(),
        forall|i: int| 0 <= i < rank(es, k) ==> lex_lt((#[trigger] es[i]).0, k),
        forall|i: int| rank(es, k) <= i < es.len() ==> !lex_lt((#[trigger] es[i]).0, k),
    decreases es.len(),
{
    if es.len() > 0 {
        let t = es.skip(1);
        assert(sorted(t)) by {
            assert forall|i: int, j: int| 0 <= i < j < t.len() implies lex_lt(
                (#[trigger] t[i]).0,
                (#[trigger] t[j]).0,
            ) by {
                assert(lex_lt(es[i + 1].0, es[j + 1].0));
            }
        }
        lemma_rank(t, k);
        if lex_lt(es[0].0, k) {
            assert forall|i: int| 0 <= i < rank(es, k) implies lex_lt((#[trigger] es[i]).0, k) by {
                if i > 0 {
                    assert(es[i] == t[i - 1]);
                }
            }
            assert forall|i: int| rank(es, k) <= i < es.len() implies !lex_lt(
                (#[trigger] es[i]).0,
                k,
            ) by {
                assert(es[i] == t[i - 1]);
            }
        } else {
            assert forall|i: int| 0 <= i < es.len() implies !lex_lt((#[trigger] es[i]).0, k) by {
                if i > 0 && lex_lt(es[i].0, k) {
                    assert(lex_lt(es[0].0, es[i].0));
                    lemma_lex_transitive(es[0].0, es[i].0, k);
                }
            }
        }
    }
}

/// Absent keys have their rank as place and no value.
pub proof fn lemma_absent(es: Seq<Entry>, k: Seq<u8>, p: int)
    requires
        sorted(es),
        absent_at(es, k, p),
    ensures
        rank(es, k) == p,
        lookup(es, k) is None,
        forall|i: int| 0 <= i < es.len() ==> (#[trigger] es[i]).0 != k,
{
    lemma_rank(es, k);
    lemma_lex_irreflexive(k);
    let r = rank(es, k);
    if r < p {
        assert(lex_lt(es[r].0, k));
    } else if p < r {
        assert(lex_lt(es[p].0, k));
        lemma_lex_asymmetric(k, es[p].0);
    }
}

/// Present keys have their rank as place, and their value is found.
pub proof fn lemma_present(es: Seq<Entry>, k: Seq<u8>, p: int)
    requires
        sorted(es),
        present_at(es, k, p),
    ensures
        rank(es, k) == p,
        lookup(es, k) == Some(es[p].1),
{
    lemma_rank(es, k);
    lemma_lex_irreflexive(k);
    let r = rank(es, k);
    if r < p {
        assert(lex_lt(es[r].0, es[p].0));
    } else if p < r {
        assert(lex_lt(es[p].0, k));
    }
}

/// Either a key has an entry, or its place is its rank.
pub proof fn lemma_lookup(es: Seq<Entry>, k: Seq<u8>)
    requires
        sorted(es),
    ensures
        lookup(es, k) is Some ==> present_at(es, k, rank(es, k)),
        lookup(es, k) is None ==> absent_at(es, k, rank(es, k)),
{
    lemma_rank(es, k);
    let r = rank(es, k);
    if !present_at(es, k, r) {
        assert forall|i: int| r <= i < es.len() implies lex_lt(k, (#[trigger] es[i]).0) by {
            lemma_lex_total(k, es[i].0);
            if es[i].0 == k && i > r {
                assert(lex_lt(es[r].0, es[i].0));
            }
        }
    }
}

/// Adding an absent key keeps the order and the bounds.
pub proof fn lemma_insert_sorted(es: Seq<Entry>, k: Seq<u8>, v: (u32, u16), p: int)
    requires
        sorted(es),
        absent_at(es, k, p),
    ensures
        sorted(es.insert(p, (k, v))),
        forall|lo: Bound, hi: Bound|
            #![trigger within(es.insert(p, (k, v)), lo, hi)]
            within(es, lo, hi) && above(lo, k) && below(hi, k) ==> within(
                es.insert(p, (k, v)),
                lo,
                hi,
            ),
{
    let f = es.insert(p, (k, v));
    assert forall|i: int, j: int| 0 <= i < j < f.len() implies lex_lt(
        (#[trigger] f[i]).0,
        (#[trigger] f[j]).0,
    ) by {
        let a = if i < p {
            i
        } else {
            i - 1
        };
        let b = if j < p {
            j
        } else {
            j - 1
        };
        if i == p {
            assert(f[j] == es[b]);
        } else if j == p {
            assert(f[i] == es[a]);
        } else {
            assert(f[i] == es[a] && f[j] == es[b]);
            assert(lex_lt(es[a].0, es[b].0));
        }
    }
    assert forall|lo: Bound, hi: Bound|
        #![trigger within(es.insert(p, (k, v)), lo, hi)]
        within(es, lo, hi) && above(lo, k) && below(hi, k) implies within(f, lo, hi) by {
        assert forall|i: int| 0 <= i < f.len() implies above(lo, (#[trigger] f[i]).0) && below(
            hi,
            f[i].0,
        ) by {
            if i < p {
                assert(f[i] == es[i]);
            } else if i > p {
                assert(f[i] == es[i - 1]);
            }
        }
    }
}

/// Removing an entry keeps the order and the bounds.
pub proof fn lemma_remove_sorted(es: Seq<Entry>, p: int)
    requires
        sorted(es),
        0 <= p < es.len(),
    ensures
        sorted(es.remove(p)),
        forall|lo: Bound, hi: Bound|
            #![trigger within(es.remove(p), lo, hi)]
            within(es, lo, hi) ==> within(es.remove(p), lo, hi),
{
    let f = es.remove(p);
    assert forall|i: int, j: int| 0 <= i < j < f.len() implies lex_lt(
        (#[trigger] f[i]).0,
        (#[trigger] f[j]).0,
    ) by {
        let a = if i < p {
            i
        } else {
            i + 1
        };
        let b = if j < p {
            j
        } else {
            j + 1
        };
        assert(f[i] == es[a] && f[j] == es[b]);
        assert(lex_lt(es[a].0, es[b].0));
    }
    assert forall|lo: Bound, hi: Bound|
        #![trigger within(es.remove(p), lo, hi)]
        within(es, lo, hi) implies within(f, lo, hi) by {
        assert forall|i: int| 0 <= i < f.len() implies above(lo, (#[trigger] f[i]).0) && below(
            hi,
            f[i].0,
        ) by {
            let a = if i < p {
                i
            } else {
                i + 1
            };
            assert(f[i] == es[a]);
        }
    }
}

/// Entries cut at an entry are sorted and bounded by its key on both sides.
pub proof fn lemma_cut_sorted(es: Seq<Entry>, m: int, lo: Bound, hi: Bound)
    requires
        sorted(es),
        within(es, lo, hi),
        0 < m < es.len(),
    ensures
        sorted(es.take(m)),
        sorted(es.skip(m)),
        within(es.take(m), lo, Some(es[m].0)),
        within(es.skip(m), Some(es[m].0), hi),
        strictly_above(lo, es[m].0),
        below(hi, es[m].0),
        es.take(m) + es.skip(m) == es,
{
    let a = es.take(m);
    let b = es.skip(m);
    assert(a + b =~= es);
    assert forall|i: int, j: int| 0 <= i < j < a.len() implies lex_lt(
        (#[trigger] a[i]).0,
        (#[trigger] a[j]).0,
    ) by {
        assert(lex_lt(es[i].0, es[j].0));
    }
    assert forall|i: int, j: int| 0 <= i < j < b.len() implies lex_lt(
        (#[trigger] b[i]).0,
        (#[trigger] b[j]).0,
    ) by {
        assert(lex_lt(es[m + i].0, es[m + j].0));
    }
    assert forall|i: int| 0 <= i < a.len() implies above(lo, (#[trigger] a[i]).0) && below(
        Some(es[m].0),
        a[i].0,
    ) by {
        assert(a[i] == es[i]);
        assert(lex_lt(es[i].0, es[m].0));
    }
    assert forall|i: int| 0 <= i < b.len() implies above(
        Some(es[m].0),
        (#[trigger] b[i]).0,
    ) && below(hi, b[i].0) by {
        assert(b[i] == es[m + i]);
        if i > 0 {
            assert(lex_lt(es[m].0, es[m + i].0));
        }
    }
    assert(above(lo, es[0].0));
    assert(lex_lt(es[0].0, es[m].0));
    if lo is Some && lo->0 != es[0].0 {
        lemma_lex_transitive(lo->0, es[0].0, es[m].0);
    }
}

/// Places and changes in the middle part carry over to the whole.
pub proof fn lemma_middle(a: Seq<Entry>, b: Seq<Entry>, c: Seq<Entry>, k: Seq<u8>)
    requires
        forall|j: int| 0 <= j < a.len() ==> lex_lt((#[trigger] a[j]).0, k),
        forall|j: int| 0 <= j < c.len() ==> lex_lt(k, (#[trigger] c[j]).0),
    ensures
        forall|p: int| #[trigger]
            absent_at(b, k, p) ==> absent_at(a + b + c, k, a.len() + p),
        forall|p: int| #[trigger]
            present_at(b, k, p) ==> present_at(a + b + c, k, a.len() + p),
        forall|p: int, v: (u32, u16)|
            0 <= p <= b.len() ==> a + #[trigger] b.insert(p, (k, v)) + c == (a + b + c).insert(
                a.len() + p,
                (k, v),
            ),
        forall|p: int|
            0 <= p < b.len() ==> a + #[trigger] b.remove(p) + c == (a + b + c).remove(a.len() + p),
{
    let w = a + b + c;
    assert forall|p: int| #[trigger] absent_at(b, k, p) implies absent_at(w, k, a.len() + p) by {
        assert forall|i: int| 0 <= i < a.len() + p implies lex_lt((#[trigger] w[i]).0, k) by {
            if i < a.len() {
                assert(w[i] == a[i]);
            } else {
                assert(w[i] == b[i - a.len()]);
            }
        }
        assert forall|i: int| a.len() + p <= i < w.len() implies lex_lt(k, (#[trigger] w[i]).0) by {
            if i < a.len() + b.len() {
                assert(w[i] == b[i - a.len()]);
            } else {
                assert(w[i] == c[i - a.len() - b.len()]);
            }
        }
    }
    assert forall|p: int| #[trigger] present_at(b, k, p) implies present_at(w, k, a.len() + p) by {
        assert(w[a.len() + p] == b[p]);
    }
    assert forall|p: int, v: (u32, u16)| 0 <= p <= b.len() implies a + #[trigger] b.insert(
        p,
        (k, v),
    ) + c == w.insert(a.len() + p, (k, v)) by {
        assert(a + b.insert(p, (k, v)) + c =~= w.insert(a.len() + p, (k, v)));
    }
    assert forall|p: int| 0 <= p < b.len() implies a + #[trigger] b.remove(p) + c == w.remove(
        a.len() + p,
    ) by {
        assert(a + b.remove(p) + c =~= w.remove(a.len() + p));
    }
}

// ── Laws ────────────────────────────────────────────────────────────────

/// A key that was just added is found with its value; all other keys keep
/// theirs.
pub proof fn law_lookup_after_insert(es: Seq<Entry>, k: Seq<u8>, v: (u32, u16), q: Seq<u8>)
    requires
        sorted(es),
        lookup(es, k) is None,
    ensures
        sorted(with_entry(es, k, v)),
        lookup(with_entry(es, k, v), k) == Some(v),
        q != k ==> lookup(with_entry(es, k, v), q) == lookup(es, q),
{
    lemma_lookup(es, k);
    let p = rank(es, k);
    let f = with_entry(es, k, v);
    lemma_insert_sorted(es, k, v, p);
    lemma_present(f, k, p);
    lemma_lookup(es, q);
    lemma_lookup(f, q);
    if q != k {
        if lookup(es, q) is Some {
            let r = rank(es, q);
            let t = if r < p {
                r
            } else {
                r + 1
            };
            assert(f[t] == es[r]);
            lemma_present(f, q, t);
        } else if lookup(f, q) is Some {
            let t = rank(f, q);
            let r = if t < p {
                t
            } else {
                t - 1
            };
            assert(f[t] == es[r]);
            lemma_present(es, q, r);
        }
    }
}

/// A removed key is no longer found; all other keys keep their values.
pub proof fn law_lookup_after_delete(es: Seq<Entry>, k: Seq<u8>, q: Seq<u8>)
    requires
        sorted(es),
        lookup(es, k) is Some,
    ensures
        sorted(without(es, k)),
        lookup(without(es, k), k) is None,
        q != k ==> lookup(without(es, k), q) == lookup(es, q),
{
    lemma_lookup(es, k);
    let p = rank(es, k);
    let f = without(es, k);
    lemma_remove_sorted(es, p);
    lemma_lookup(es, q);
    lemma_lookup(f, q);
    lemma_lookup(f, k);
    if lookup(f, k) is Some {
        let t = rank(f, k);
        let r = if t < p {
            t
        } else {
            t + 1
        };
        assert(f[t] == es[r]);
        lemma_present(es, k, r);
    }
    if q != k {
        if lookup(es, q) is Some {
            let r = rank(es, q);
            let t = if r < p {
                r
            } else {
                r - 1
            };
            assert(f[t] == es[r]);
            lemma_present(f, q, t);
        } else if lookup(f, q) is Some {
            let t = rank(f, q);
            let r = if t < p {
                t
            } else {
                t + 1
            };
            assert(f[t] == es[r]);
            lemma_present(es, q, r);
        }
    }
}

/// Deleting what was just inserted gives the entries from before.
pub proof fn law_delete_undoes_insert(es: Seq<Entry>, k: Seq<u8>, v: (u32, u16))
    requires
        sorted(es),
        lookup(es, k) is None,
    ensures
        without(with_entry(es, k, v), k) == es,
{
    lemma_lookup(es, k);
    let p = rank(es, k);
    let f = with_entry(es, k, v);
    lemma_insert_sorted(es, k, v, p);
    lemma_present(f, k, p);
    assert(f.remove(p) =~= es);
}

/// A key is found with a value exactly if the entries hold the two together.
pub proof fn law_lookup_finds_entries(es: Seq<Entry>, k: Seq<u8>, v: (u32, u16))
    requires
        sorted(es),
    ensures
        es.contains((k, v)) == (lookup(es, k) == Some(v)),
{
    if es.contains((k, v)) {
        let p = choose|p: int| 0 <= p < es.len() && es[p] == (k, v);
        lemma_present(es, k, p);
    }
    if lookup(es, k) == Some(v) {
        lemma_lookup(es, k);
        assert(es[rank(es, k)] == (k, v));
    }
}

} // verus!
