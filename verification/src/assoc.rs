//! Lists sorted by a text key, and how two of them are merged.

use vstd::prelude::*;

use crate::document::value::lemma_text_order;
use crate::text::text_lt;

verus! {

/// Keys in strictly ascending order.
pub open spec fn assoc_sorted<V>(l: Seq<(Seq<char>, V)>) -> bool {
    forall|i: int, j: int|
        0 <= i < j < l.len() ==> text_lt((#[trigger] l[i]).0, (#[trigger] l[j]).0)
}

/// The number of entries, from the front, with keys before `k`.
pub open spec fn assoc_rank<V>(l: Seq<(Seq<char>, V)>, k: Seq<char>) -> int
    decreases l.len(),
{
    if l.len() == 0 {
        0
    } else if text_lt(l[0].0, k) {
        1 + assoc_rank(l.skip(1), k)
    } else {
        0
    }
}

/// The value of a key.
pub open spec fn assoc_value<V>(l: Seq<(Seq<char>, V)>, k: Seq<char>) -> Option<V> {
    let p = assoc_rank(l, k);
    if p < l.len() && l[p].0 == k {
        Some(l[p].1)
    } else {
        None
    }
}

/// The list with the value of a key set.
pub open spec fn with_assoc<V>(l: Seq<(Seq<char>, V)>, k: Seq<char>, v: V) -> Seq<
    (Seq<char>, V),
> {
    let p = assoc_rank(l, k);
    if assoc_value(l, k) is Some {
        l.update(p, (k, v))
    } else {
        l.insert(p, (k, v))
    }
}

pub proof fn lemma_assoc_rank<V>(l: Seq<(Seq<char>, V)>, k: Seq<char>)
    requires
        assoc_sorted(l),
    ensures
        0 <= assoc_rank(l, k) <= l.len(),
        forall|i: int| 0 <= i < assoc_rank(l, k) ==> text_lt((#[trigger] l[i]).0, k),
        forall|i: int| assoc_rank(l, k) <= i < l.len() ==> !text_lt((#[trigger] l[i]).0, k),
    decreases l.len(),
{
    if l.len() > 0 {
        let t = l.skip(1);
        assert(assoc_sorted(t)) by {
            assert forall|i: int, j: int| 0 <= i < j < t.len() implies text_lt(
                (#[trigger] t[i]).0,
                (#[trigger] t[j]).0,
            ) by {
                assert(text_lt(l[i + 1].0, l[j + 1].0));
            }
        }
        lemma_assoc_rank(t, k);
        if text_lt(l[0].0, k) {
            assert forall|i: int| 0 <= i < assoc_rank(l, k) implies text_lt(
                (#[trigger] l[i]).0,
                k,
            ) by {
                if i > 0 {
                    assert(l[i] == t[i - 1]);
                }
            }
            assert forall|i: int| assoc_rank(l, k) <= i < l.len() implies !text_lt(
                (#[trigger] l[i]).0,
                k,
            ) by {
                assert(l[i] == t[i - 1]);
            }
        } else {
            assert forall|i: int| 0 <= i < l.len() implies !text_lt((#[trigger] l[i]).0, k) by {
                if i > 0 {
                    assert(text_lt(l[0].0, l[i].0));
                    lemma_text_order(l[0].0, l[i].0, k);
                }
            }
        }
    }
}

/// An entry is found where it stands.
pub proof fn lemma_assoc_at<V>(l: Seq<(Seq<char>, V)>, p: int)
    requires
        assoc_sorted(l),
        0 <= p < l.len(),
    ensures
        assoc_rank(l, l[p].0) == p,
        assoc_value(l, l[p].0) == Some(l[p].1),
{
    let k = l[p].0;
    lemma_assoc_rank(l, k);
    lemma_text_order(k, k, k);
    let r = assoc_rank(l, k);
    if r < p {
        assert(text_lt(l[r].0, l[p].0));
    } else if p < r {
        assert(text_lt(l[p].0, k));
    }
}

/// Setting a value keeps the order, sets that value and no other.
pub proof fn lemma_with_assoc<V>(l: Seq<(Seq<char>, V)>, k: Seq<char>, v: V, q: Seq<char>)
    requires
        assoc_sorted(l),
    ensures
        assoc_sorted(with_assoc(l, k, v)),
        assoc_value(with_assoc(l, k, v), k) == Some(v),
        q != k ==> assoc_value(with_assoc(l, k, v), q) == assoc_value(l, q),
{
    lemma_assoc_rank(l, k);
    let p = assoc_rank(l, k);
    let w = with_assoc(l, k, v);
    let found = assoc_value(l, k) is Some;
    assert forall|i: int| p <= i < l.len() && !found implies text_lt(k, (#[trigger] l[i]).0) by {
        lemma_text_order(k, l[i].0, k);
        if l[i].0 == k {
            lemma_assoc_at(l, i);
        }
    }
    assert forall|i: int, j: int| 0 <= i < j < w.len() implies text_lt(
        (#[trigger] w[i]).0,
        (#[trigger] w[j]).0,
    ) by {
        if found {
            assert(text_lt(l[i].0, l[j].0));
        } else {
            let a = if i < p {
                i
            } else {
                i - 1
            };
            let b = if j < p {
                j
            } else {
                j - 1
            };
            if i != p {
                assert(w[i] == l[a]);
            }
            if j != p {
                assert(w[j] == l[b]);
            }
            if i != p && j != p {
                assert(text_lt(l[a].0, l[b].0));
            }
        }
    }
    assert(w[p] == (k, v));
    lemma_assoc_at(w, p);
    if q != k {
        lemma_assoc_rank(l, q);
        lemma_assoc_rank(w, q);
        if assoc_value(l, q) is Some {
            let r = assoc_rank(l, q);
            let x = if found || r < p {
                r
            } else {
                r + 1
            };
            assert(w[x] == l[r]);
            lemma_assoc_at(w, x);
        } else if assoc_value(w, q) is Some {
            let t = assoc_rank(w, q);
            let x = if found || t < p {
                t
            } else {
                t - 1
            };
            assert(w[t] == l[x]);
            lemma_assoc_at(l, x);
        }
    }
}

proof fn lemma_front_value<V>(l: Seq<(Seq<char>, V)>, q: Seq<char>)
    requires
        assoc_sorted(l),
        l.len() > 0,
    ensures
        assoc_sorted(l.drop_last()),
        assoc_value(l.drop_last(), q) == (if q == l.last().0 {
            None
        } else {
            assoc_value(l, q)
        }),
{
    let f = l.drop_last();
    assert(assoc_sorted(f)) by {
        assert forall|i: int, j: int| 0 <= i < j < f.len() implies text_lt(
            (#[trigger] f[i]).0,
            (#[trigger] f[j]).0,
        ) by {
            assert(text_lt(l[i].0, l[j].0));
        }
    }
    lemma_assoc_rank(l, q);
    lemma_assoc_rank(f, q);
    if assoc_value(f, q) is Some {
        let r = assoc_rank(f, q);
        assert(f[r] == l[r]);
        lemma_assoc_at(l, r);
        assert(text_lt(l[r].0, l[l.len() - 1].0));
        lemma_text_order(l[r].0, l.last().0, q);
    } else if assoc_value(l, q) is Some && q != l.last().0 {
        let r = assoc_rank(l, q);
        assert(r < f.len());
        assert(f[r] == l[r]);
        lemma_assoc_at(f, r);
    }
}

/// Sorted lists with the same values for the same keys are the same.
pub proof fn lemma_assoc_ext<V>(a: Seq<(Seq<char>, V)>, b: Seq<(Seq<char>, V)>)
    requires
        assoc_sorted(a),
        assoc_sorted(b),
        forall|q: Seq<char>| #[trigger] assoc_value(a, q) == assoc_value(b, q),
    ensures
        a == b,
    decreases a.len() + b.len(),
{
    if a.len() == 0 && b.len() == 0 {
        assert(a =~= b);
    } else if a.len() == 0 {
        lemma_assoc_at(b, 0);
        assert(assoc_value(a, b[0].0) == assoc_value(b, b[0].0));
    } else if b.len() == 0 {
        lemma_assoc_at(a, 0);
        assert(assoc_value(a, a[0].0) == assoc_value(b, a[0].0));
    } else {
        let x = a.last().0;
        let y = b.last().0;
        lemma_assoc_at(a, a.len() - 1);
        lemma_assoc_at(b, b.len() - 1);
        assert(assoc_value(a, x) == assoc_value(b, x));
        assert(assoc_value(a, y) == assoc_value(b, y));
        lemma_assoc_rank(a, y);
        lemma_assoc_rank(b, x);
        lemma_text_order(x, y, x);
        if text_lt(x, y) {
            let r = assoc_rank(a, y);
            if r < a.len() - 1 {
                assert(text_lt(a[r].0, a[a.len() - 1].0));
                lemma_text_order(y, x, y);
            }
        } else if text_lt(y, x) {
            let r = assoc_rank(b, x);
            if r < b.len() - 1 {
                assert(text_lt(b[r].0, b[b.len() - 1].0));
                lemma_text_order(x, y, x);
            }
        }
        assert(x == y);
        assert(a.last() == b.last());
        assert forall|q: Seq<char>| #[trigger]
            assoc_value(a.drop_last(), q) == assoc_value(b.drop_last(), q) by {
            lemma_front_value(a, q);
            lemma_front_value(b, q);
            assert(assoc_value(a, q) == assoc_value(b, q));
        }
        lemma_front_value(a, x);
        lemma_front_value(b, x);
        lemma_assoc_ext(a.drop_last(), b.drop_last());
        assert(a =~= a.drop_last().push(a.last()));
        assert(b =~= b.drop_last().push(b.last()));
    }
}

/// One value joined with another, where there is one.
pub open spec fn joined<V>(x: Option<V>, y: Option<V>, join: spec_fn(V, V) -> V) -> Option<V> {
    match (x, y) {
        (Some(a), Some(b)) => Some(join(a, b)),
        (None, b) => b,
        (a, None) => a,
    }
}

/// Two lists merged: where both have a key, the values are joined.
pub open spec fn merged<V>(
    a: Seq<(Seq<char>, V)>,
    b: Seq<(Seq<char>, V)>,
    join: spec_fn(V, V) -> V,
) -> Seq<(Seq<char>, V)>
    decreases b.len(),
{
    if b.len() == 0 {
        a
    } else {
        let m = merged(a, b.drop_last(), join);
        with_assoc(
            m,
            b.last().0,
            match assoc_value(m, b.last().0) {
                Some(v) => join(v, b.last().1),
                None => b.last().1,
            },
        )
    }
}

/// Merging joins the values of every key.
pub proof fn lemma_assoc_merged<V>(
    a: Seq<(Seq<char>, V)>,
    b: Seq<(Seq<char>, V)>,
    join: spec_fn(V, V) -> V,
    q: Seq<char>,
)
    requires
        assoc_sorted(a),
        assoc_sorted(b),
    ensures
        assoc_sorted(merged(a, b, join)),
        assoc_value(merged(a, b, join), q) == joined(assoc_value(a, q), assoc_value(b, q), join),
    decreases b.len(),
{
    if b.len() > 0 {
        let f = b.drop_last();
        let k = b.last().0;
        lemma_front_value(b, q);
        lemma_front_value(b, k);
        lemma_assoc_merged(a, f, join, q);
        lemma_assoc_merged(a, f, join, k);
        lemma_assoc_at(b, b.len() - 1);
        let m = merged(a, f, join);
        lemma_with_assoc(
            m,
            k,
            match assoc_value(m, k) {
                Some(v) => join(v, b.last().1),
                None => b.last().1,
            },
            q,
        );
    }
}

/// Merging does not depend on the order of the lists where joining does not.
pub proof fn lemma_merge_commutes<V>(
    a: Seq<(Seq<char>, V)>,
    b: Seq<(Seq<char>, V)>,
    join: spec_fn(V, V) -> V,
)
    requires
        assoc_sorted(a),
        assoc_sorted(b),
        forall|q: Seq<char>|
            assoc_value(a, q) is Some && #[trigger] assoc_value(b, q) is Some ==> join(
                assoc_value(a, q)->0,
                assoc_value(b, q)->0,
            ) == join(assoc_value(b, q)->0, assoc_value(a, q)->0),
    ensures
        merged(a, b, join) == merged(b, a, join),
{
    let x = merged(a, b, join);
    let y = merged(b, a, join);
    assert forall|q: Seq<char>| #[trigger] assoc_value(x, q) == assoc_value(y, q) by {
        lemma_assoc_merged(a, b, join, q);
        lemma_assoc_merged(b, a, join, q);
        assert(assoc_value(b, q) is Some == assoc_value(b, q) is Some);
    }
    lemma_assoc_merged(a, b, join, Seq::empty());
    lemma_assoc_merged(b, a, join, Seq::empty());
    lemma_assoc_ext(x, y);
}

/// Merging a list with itself changes nothing where joining does not.
pub proof fn lemma_merge_idempotent<V>(a: Seq<(Seq<char>, V)>, join: spec_fn(V, V) -> V)
    requires
        assoc_sorted(a),
        forall|q: Seq<char>| #[trigger]
            assoc_value(a, q) is Some ==> join(assoc_value(a, q)->0, assoc_value(a, q)->0)
                == assoc_value(a, q)->0,
    ensures
        merged(a, a, join) == a,
{
    let x = merged(a, a, join);
    assert forall|q: Seq<char>| #[trigger] assoc_value(x, q) == assoc_value(a, q) by {
        lemma_assoc_merged(a, a, join, q);
        assert(assoc_value(a, q) is Some == assoc_value(a, q) is Some);
    }
    lemma_assoc_merged(a, a, join, Seq::empty());
    lemma_assoc_ext(x, a);
}

/// Merging three lists does not depend on the grouping where joining does not.
pub proof fn lemma_merge_associates<V>(
    a: Seq<(Seq<char>, V)>,
    b: Seq<(Seq<char>, V)>,
    c: Seq<(Seq<char>, V)>,
    join: spec_fn(V, V) -> V,
)
    requires
        assoc_sorted(a),
        assoc_sorted(b),
        assoc_sorted(c),
        forall|q: Seq<char>|
            assoc_value(a, q) is Some && assoc_value(b, q) is Some && #[trigger] assoc_value(
                c,
                q,
            ) is Some ==> join(
                join(assoc_value(a, q)->0, assoc_value(b, q)->0),
                assoc_value(c, q)->0,
            ) == join(
                assoc_value(a, q)->0,
                join(assoc_value(b, q)->0, assoc_value(c, q)->0),
            ),
    ensures
        merged(merged(a, b, join), c, join) == merged(a, merged(b, c, join), join),
{
    let x = merged(merged(a, b, join), c, join);
    let y = merged(a, merged(b, c, join), join);
    lemma_assoc_merged(a, b, join, Seq::empty());
    lemma_assoc_merged(b, c, join, Seq::empty());
    assert forall|q: Seq<char>| #[trigger] assoc_value(x, q) == assoc_value(y, q) by {
        lemma_assoc_merged(a, b, join, q);
        lemma_assoc_merged(b, c, join, q);
        lemma_assoc_merged(merged(a, b, join), c, join, q);
        lemma_assoc_merged(a, merged(b, c, join), join, q);
        assert(assoc_value(c, q) is Some == assoc_value(c, q) is Some);
    }
    lemma_assoc_merged(merged(a, b, join), c, join, Seq::empty());
    lemma_assoc_merged(a, merged(b, c, join), join, Seq::empty());
    lemma_assoc_ext(x, y);
}

/// A key has a value exactly if the list holds the two together.
pub proof fn law_values_are_entries<V>(l: Seq<(Seq<char>, V)>, k: Seq<char>, v: V)
    requires
        assoc_sorted(l),
    ensures
        l.contains((k, v)) == (assoc_value(l, k) == Some(v)),
{
    if l.contains((k, v)) {
        let p = choose|p: int| 0 <= p < l.len() && l[p] == (k, v);
        lemma_assoc_at(l, p);
    }
    if assoc_value(l, k) == Some(v) {
        lemma_assoc_rank(l, k);
        assert(l[assoc_rank(l, k)] == (k, v));
    }
}

} // verus!
