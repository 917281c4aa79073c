//! The documents of a collection as a sorted list of keys and bytes.

use vstd::prelude::*;

use crate::btree::entries::{lookup, rank};
use crate::btree::key::Key;
use crate::btree::node::Entry;
use crate::bytes::{
    be_bytes, lemma_be_order, lemma_lex_asymmetric, lemma_lex_irreflexive, lemma_lex_total, lemma_lex_transitive,
    lemma_pow256_values, lex_lt,
};
use crate::collection::heap::{chain_of, kept, Heap, Loc};
use crate::uid::Uuid;

verus! {

/// The bytes of a key and the bytes that are stored for it.
pub type RawDoc = (Seq<u8>, Seq<u8>);

/// One end of a range of keys.
#[derive(Debug, Clone, Copy, PartialEq, Eq, Structural)]
pub enum KeyBound {
    /// The range ends with this key.
    Included(Uuid),
    /// The range ends just short of this key.
    Excluded(Uuid),
    /// The range has no end.
    Unbounded,
}

/// Keys ascend.
pub open spec fn keys_ascend(rs: Seq<RawDoc>) -> bool {
    forall|i: int, j: int|
        0 <= i < j < rs.len() ==> lex_lt((#[trigger] rs[i]).0, (#[trigger] rs[j]).0)
}

/// The number of keys, from the front, that come before `k`.
pub open spec fn raw_rank(rs: Seq<RawDoc>, k: Seq<u8>) -> int
    decreases rs.len(),
{
    if rs.len() == 0 {
        0
    } else if lex_lt(rs[0].0, k) {
        1 + raw_rank(rs.skip(1), k)
    } else {
        0
    }
}

/// What is stored for a key.
pub open spec fn raw_lookup(rs: Seq<RawDoc>, k: Seq<u8>) -> Option<Seq<u8>> {
    let p = raw_rank(rs, k);
    if p < rs.len() && rs[p].0 == k {
        Some(rs[p].1)
    } else {
        None
    }
}

/// The documents with one more.
pub open spec fn with_raw(rs: Seq<RawDoc>, k: Seq<u8>, b: Seq<u8>) -> Seq<RawDoc> {
    rs.insert(raw_rank(rs, k), (k, b))
}

/// The documents with one less.
pub open spec fn without_raw(rs: Seq<RawDoc>, k: Seq<u8>) -> Seq<RawDoc> {
    rs.remove(raw_rank(rs, k))
}

pub proof fn lemma_raw_rank(rs: Seq<RawDoc>, k: Seq<u8>)
    requires
        keys_ascend(rs),
    ensures
        0 <= raw_rank(rs, k) <= rs.len(),
        forall|i: int| 0 <= i < raw_rank(rs, k) ==> lex_lt((#[trigger] rs[i]).0, k),
        forall|i: int| raw_rank(rs, k) <= i < rs.len() ==> !lex_lt((#[trigger] rs[i]).0, k),
    decreases rs.len(),
{
    if rs.len() > 0 {
        let t = rs.skip(1);
        assert(keys_ascend(t)) by {
            assert forall|i: int, j: int| 0 <= i < j < t.len() implies lex_lt(
                (#[trigger] t[i]).0,
                (#[trigger] t[j]).0,
            ) by {
                assert(lex_lt(rs[i + 1].0, rs[j + 1].0));
            }
        }
        lemma_raw_rank(t, k);
        if lex_lt(rs[0].0, k) {
            assert forall|i: int| 0 <= i < raw_rank(rs, k) implies lex_lt(
                (#[trigger] rs[i]).0,
                k,
            ) by {
                if i > 0 {
                    assert(rs[i] == t[i - 1]);
                }
            }
            assert forall|i: int| raw_rank(rs, k) <= i < rs.len() implies !lex_lt(
                (#[trigger] rs[i]).0,
                k,
            ) by {
                assert(rs[i] == t[i - 1]);
            }
        } else {
            assert forall|i: int| 0 <= i < rs.len() implies !lex_lt((#[trigger] rs[i]).0, k) by {
                if i > 0 {
                    assert(lex_lt(rs[0].0, rs[i].0));
                    if lex_lt(rs[i].0, k) {
                        lemma_lex_transitive(rs[0].0, rs[i].0, k);
                    }
                }
            }
        }
    }
}

/// A key is found where it stands.
pub proof fn lemma_raw_at(rs: Seq<RawDoc>, p: int)
    requires
        keys_ascend(rs),
        0 <= p < rs.len(),
    ensures
        raw_rank(rs, rs[p].0) == p,
        raw_lookup(rs, rs[p].0) == Some(rs[p].1),
{
    let k = rs[p].0;
    lemma_raw_rank(rs, k);
    lemma_lex_irreflexive(k);
    let r = raw_rank(rs, k);
    if r < p {
        assert(lex_lt(rs[r].0, rs[p].0));
    } else if p < r {
        assert(lex_lt(rs[p].0, k));
    }
}

/// The list of documents finds keys as the list of entries does.
pub proof fn lemma_kept_rank(h: Heap, es: Seq<Entry>, chains: Map<Loc, Seq<u32>>, k: Seq<u8>)
    ensures
        raw_rank(kept(h, es, chains), k) == rank(es, k),
        0 <= rank(es, k) <= es.len(),
        raw_lookup(kept(h, es, chains), k) is Some == (lookup(es, k) is Some),
        lookup(es, k) matches Some(loc) ==> raw_lookup(kept(h, es, chains), k) == Some(
            h.raw(loc, chain_of(chains, loc)),
        ) && es[rank(es, k)].1 == loc,
    decreases es.len(),
{
    let rs = kept(h, es, chains);
    if es.len() > 0 {
        assert(rs.skip(1) =~= kept(h, es.skip(1), chains));
        lemma_kept_rank(h, es.skip(1), chains, k);
        assert(rs[0].0 == es[0].0);
    }
    assert(raw_rank(rs, k) == rank(es, k));
    let p = rank(es, k);
    if p < es.len() {
        assert(rs[p].0 == es[p].0);
    }
}

pub proof fn lemma_read_after_insert(rs: Seq<RawDoc>, k: Seq<u8>, b: Seq<u8>, q: Seq<u8>)
    requires
        keys_ascend(rs),
        raw_lookup(rs, k) is None,
    ensures
        keys_ascend(with_raw(rs, k, b)),
        raw_lookup(with_raw(rs, k, b), k) == Some(b),
        q != k ==> raw_lookup(with_raw(rs, k, b), q) == raw_lookup(rs, q),
{
    let p = raw_rank(rs, k);
    let w = with_raw(rs, k, b);
    lemma_raw_rank(rs, k);
    assert forall|i: int| p <= i < rs.len() implies lex_lt(k, (#[trigger] rs[i]).0) by {
        lemma_lex_total(rs[i].0, k);
        if rs[i].0 == k {
            lemma_raw_at(rs, i);
        }
    }
    assert forall|i: int, j: int| 0 <= i < j < w.len() implies lex_lt(
        (#[trigger] w[i]).0,
        (#[trigger] w[j]).0,
    ) by {
        let x = if i < p {
            i
        } else {
            i - 1
        };
        let y = if j < p {
            j
        } else {
            j - 1
        };
        if i != p {
            assert(w[i] == rs[x]);
        }
        if j != p {
            assert(w[j] == rs[y]);
        }
        if i != p && j != p {
            assert(lex_lt(rs[x].0, rs[y].0));
        }
    }
    assert(w[p] == (k, b));
    lemma_raw_at(w, p);
    if q != k {
        lemma_raw_rank(rs, q);
        lemma_raw_rank(w, q);
        if raw_lookup(rs, q) is Some {
            let r = raw_rank(rs, q);
            let x = if r < p {
                r
            } else {
                r + 1
            };
            assert(w[x] == rs[r]);
            lemma_raw_at(w, x);
        } else if raw_lookup(w, q) is Some {
            let t = raw_rank(w, q);
            let x = if t < p {
                t
            } else {
                t - 1
            };
            assert(w[t] == rs[x]);
            lemma_raw_at(rs, x);
        }
    }
}

pub proof fn lemma_read_after_delete(rs: Seq<RawDoc>, k: Seq<u8>, q: Seq<u8>)
    requires
        keys_ascend(rs),
        raw_lookup(rs, k) is Some,
    ensures
        keys_ascend(without_raw(rs, k)),
        raw_lookup(without_raw(rs, k), k) is None,
        q != k ==> raw_lookup(without_raw(rs, k), q) == raw_lookup(rs, q),
{
    let p = raw_rank(rs, k);
    let w = without_raw(rs, k);
    lemma_raw_rank(rs, k);
    assert forall|i: int, j: int| 0 <= i < j < w.len() implies lex_lt(
        (#[trigger] w[i]).0,
        (#[trigger] w[j]).0,
    ) by {
        let x = if i < p {
            i
        } else {
            i + 1
        };
        let y = if j < p {
            j
        } else {
            j + 1
        };
        assert(w[i] == rs[x] && w[j] == rs[y]);
        assert(lex_lt(rs[x].0, rs[y].0));
    }
    lemma_raw_rank(w, k);
    if raw_lookup(w, k) is Some {
        let t = raw_rank(w, k);
        let x = if t < p {
            t
        } else {
            t + 1
        };
        assert(w[t] == rs[x]);
        lemma_raw_at(rs, x);
    }
    if q != k {
        lemma_raw_rank(rs, q);
        lemma_raw_rank(w, q);
        if raw_lookup(rs, q) is Some {
            let r = raw_rank(rs, q);
            assert(r != p);
            let x = if r < p {
                r
            } else {
                r - 1
            };
            assert(w[x] == rs[r]);
            lemma_raw_at(w, x);
        } else if raw_lookup(w, q) is Some {
            let t = raw_rank(w, q);
            let x = if t < p {
                t
            } else {
                t + 1
            };
            assert(w[t] == rs[x]);
            lemma_raw_at(rs, x);
        }
    }
}

// ── Ranges ──────────────────────────────────────────────────────────────

/// A key is not before the start of a range.
pub open spec fn after_start(k: Seq<u8>, start: KeyBound) -> bool {
    match start {
        KeyBound::Included(s) => !lex_lt(k, s.spec_bytes()),
        KeyBound::Excluded(s) => lex_lt(s.spec_bytes(), k),
        KeyBound::Unbounded => true,
    }
}

/// A key is not past the end of a range.
pub open spec fn before_end(k: Seq<u8>, end: KeyBound) -> bool {
    match end {
        KeyBound::Included(e) => !lex_lt(e.spec_bytes(), k),
        KeyBound::Excluded(e) => lex_lt(k, e.spec_bytes()),
        KeyBound::Unbounded => true,
    }
}

/// A key is in a range.
pub open spec fn in_bounds(k: Seq<u8>, start: KeyBound, end: KeyBound) -> bool {
    after_start(k, start) && before_end(k, end)
}

/// The documents with keys in a range.
pub open spec fn selected(rs: Seq<RawDoc>, start: KeyBound, end: KeyBound) -> Seq<RawDoc>
    decreases rs.len(),
{
    if rs.len() == 0 {
        Seq::empty()
    } else {
        let front = selected(rs.drop_last(), start, end);
        if in_bounds(rs.last().0, start, end) {
            front.push(rs.last())
        } else {
            front
        }
    }
}

/// Rows of keys and bytes.
pub open spec fn rows_of(v: Seq<(Uuid, Vec<u8>)>) -> Seq<RawDoc> {
    Seq::new(v.len(), |i: int| (v[i].0.spec_bytes(), v[i].1@))
}

/// Documents before the start of a range are not selected.
pub proof fn lemma_select_skip(rs: Seq<RawDoc>, start: KeyBound, end: KeyBound, n: int)
    requires
        0 <= n <= rs.len(),
        match start {
            KeyBound::Included(s) => forall|i: int|
                0 <= i < n ==> lex_lt((#[trigger] rs[i]).0, s.spec_bytes()),
            KeyBound::Excluded(s) => forall|i: int|
                0 <= i < n ==> lex_lt((#[trigger] rs[i]).0, s.spec_bytes()),
            KeyBound::Unbounded => n == 0,
        },
    ensures
        selected(rs.take(n), start, end) == Seq::<RawDoc>::empty(),
    decreases n,
{
    if n > 0 {
        assert(rs.take(n).drop_last() =~= rs.take(n - 1));
        lemma_select_skip(rs, start, end, n - 1);
        let k = rs[n - 1].0;
        match start {
            KeyBound::Excluded(s) => {
                lemma_lex_asymmetric(k, s.spec_bytes());
            },
            _ => {},
        }
    }
}

/// Past the end of a range nothing is selected.
pub proof fn lemma_select_prefix(rs: Seq<RawDoc>, start: KeyBound, end: KeyBound, n: int)
    requires
        0 <= n <= rs.len(),
    ensures
        selected(rs.take(n), start, end).len() <= selected(rs, start, end).len(),
    decreases rs.len() - n,
{
    if n < rs.len() {
        assert(rs.take(n + 1).drop_last() =~= rs.take(n));
        lemma_select_prefix(rs, start, end, n + 1);
    } else {
        assert(rs.take(n) =~= rs);
    }
}

pub proof fn lemma_select_stop(rs: Seq<RawDoc>, start: KeyBound, end: KeyBound, n: int)
    requires
        keys_ascend(rs),
        0 <= n < rs.len(),
        !before_end(rs[n].0, end),
    ensures
        selected(rs, start, end) == selected(rs.take(n), start, end),
{
    lemma_stop_from(rs, start, end, n, rs.len() as int);
    assert(rs.take(rs.len() as int) =~= rs);
}

proof fn lemma_stop_from(rs: Seq<RawDoc>, start: KeyBound, end: KeyBound, n: int, m: int)
    requires
        keys_ascend(rs),
        0 <= n < rs.len(),
        n <= m <= rs.len(),
        !before_end(rs[n].0, end),
    ensures
        selected(rs.take(m), start, end) == selected(rs.take(n), start, end),
    decreases m,
{
    if m > n {
        lemma_stop_from(rs, start, end, n, m - 1);
        assert(rs.take(m).drop_last() =~= rs.take(m - 1));
        let k = rs[m - 1].0;
        let f = rs[n].0;
        if m - 1 > n {
            assert(lex_lt(f, k));
        }
        match end {
            KeyBound::Included(e) => {
                if m - 1 > n {
                    lemma_lex_transitive(e.spec_bytes(), f, k);
                }
            },
            KeyBound::Excluded(e) => {
                if m - 1 > n && lex_lt(k, e.spec_bytes()) {
                    lemma_lex_transitive(f, k, e.spec_bytes());
                }
            },
            KeyBound::Unbounded => {},
        }
    }
}

/// Whether a key is past the end of a range.
pub fn past_end(key: &Uuid, end: &KeyBound) -> (r: bool)
    ensures
        r == !before_end(key.spec_bytes(), *end),
{
    match end {
        KeyBound::Included(e) => e.key_lt(key),
        KeyBound::Excluded(e) => !key.key_lt(e),
        KeyBound::Unbounded => false,
    }
}

/// Whether a key is not before the start of a range.
pub fn at_or_after_start(key: &Uuid, start: &KeyBound) -> (r: bool)
    ensures
        r == after_start(key.spec_bytes(), *start),
{
    match start {
        KeyBound::Included(s) => !key.key_lt(s),
        KeyBound::Excluded(s) => s.key_lt(key),
        KeyBound::Unbounded => true,
    }
}

// ── Laws ────────────────────────────────────────────────────────────────

/// Keys are in a range as their numbers are: an included end belongs to the
/// range, an excluded one does not.
pub proof fn law_ranges_go_by_number(k: u128, b: u128)
    ensures
        after_start(be_bytes(k as nat, 16), KeyBound::Included(Uuid(b))) == (b <= k),
        after_start(be_bytes(k as nat, 16), KeyBound::Excluded(Uuid(b))) == (b < k),
        after_start(be_bytes(k as nat, 16), KeyBound::Unbounded),
        before_end(be_bytes(k as nat, 16), KeyBound::Included(Uuid(b))) == (k <= b),
        before_end(be_bytes(k as nat, 16), KeyBound::Excluded(Uuid(b))) == (k < b),
        before_end(be_bytes(k as nat, 16), KeyBound::Unbounded),
{
    lemma_pow256_values();
    lemma_be_order(k as nat, b as nat, 16);
    lemma_be_order(b as nat, k as nat, 16);
}

/// The number `k` lies from `start` to `end`.
pub open spec fn key_within(k: u128, start: KeyBound, end: KeyBound) -> bool {
    &&& match start {
        KeyBound::Included(s) => s.0 <= k,
        KeyBound::Excluded(s) => s.0 < k,
        KeyBound::Unbounded => true,
    }
    &&& match end {
        KeyBound::Included(e) => k <= e.0,
        KeyBound::Excluded(e) => k < e.0,
        KeyBound::Unbounded => true,
    }
}

/// A key is in a range exactly if its number lies from the start to the end.
pub proof fn law_range_of_numbers(k: u128, start: KeyBound, end: KeyBound)
    ensures
        in_bounds(be_bytes(k as nat, 16), start, end) == key_within(k, start, end),
{
    match start {
        KeyBound::Included(s) => law_ranges_go_by_number(k, s.0),
        KeyBound::Excluded(s) => law_ranges_go_by_number(k, s.0),
        KeyBound::Unbounded => {},
    }
    match end {
        KeyBound::Included(e) => law_ranges_go_by_number(k, e.0),
        KeyBound::Excluded(e) => law_ranges_go_by_number(k, e.0),
        KeyBound::Unbounded => {},
    }
}

/// A range of documents holds exactly the documents whose keys lie from the
/// start to the end, in the order in which they are stored.
pub proof fn law_selected_documents(
    rs: Seq<RawDoc>,
    start: KeyBound,
    end: KeyBound,
    k: u128,
    b: Seq<u8>,
)
    requires
        keys_ascend(rs),
    ensures
        keys_ascend(selected(rs, start, end)),
        selected(rs, start, end).contains((be_bytes(k as nat, 16), b)) == (rs.contains(
            (be_bytes(k as nat, 16), b),
        ) && match start {
            KeyBound::Included(s) => s.0 <= k,
            KeyBound::Excluded(s) => s.0 < k,
            KeyBound::Unbounded => true,
        } && match end {
            KeyBound::Included(e) => k <= e.0,
            KeyBound::Excluded(e) => k < e.0,
            KeyBound::Unbounded => true,
        }),
{
    law_range_of_numbers(k, start, end);
    lemma_selected(rs, start, end, (be_bytes(k as nat, 16), b));
    lemma_selected_ascend(rs, start, end);
}

proof fn lemma_selected(rs: Seq<RawDoc>, start: KeyBound, end: KeyBound, x: RawDoc)
    ensures
        selected(rs, start, end).contains(x) == (rs.contains(x) && in_bounds(x.0, start, end)),
    decreases rs.len(),
{
    if rs.len() > 0 {
        let f = rs.drop_last();
        let sub = selected(f, start, end);
        lemma_selected(f, start, end, x);
        if f.contains(x) {
            let i = choose|i: int| 0 <= i < f.len() && f[i] == x;
            assert(rs[i] == x);
        }
        assert(rs[rs.len() - 1] == rs.last());
        if rs.contains(x) && x != rs.last() {
            let i = choose|i: int| 0 <= i < rs.len() && rs[i] == x;
            assert(f[i] == x);
        }
        let all = sub.push(rs.last());
        if sub.contains(x) {
            let i = choose|i: int| 0 <= i < sub.len() && sub[i] == x;
            assert(all[i] == x);
        }
        assert(all[sub.len() as int] == rs.last());
        if all.contains(x) && x != rs.last() {
            let i = choose|i: int| 0 <= i < all.len() && all[i] == x;
            assert(sub[i] == x);
        }
    }
}

proof fn lemma_selected_ascend(rs: Seq<RawDoc>, start: KeyBound, end: KeyBound)
    requires
        keys_ascend(rs),
    ensures
        keys_ascend(selected(rs, start, end)),
    decreases rs.len(),
{
    if rs.len() > 0 {
        let f = rs.drop_last();
        let sub = selected(f, start, end);
        assert(keys_ascend(f)) by {
            assert forall|i: int, j: int| 0 <= i < j < f.len() implies lex_lt(
                (#[trigger] f[i]).0,
                (#[trigger] f[j]).0,
            ) by {
                assert(lex_lt(rs[i].0, rs[j].0));
            }
        }
        lemma_selected_ascend(f, start, end);
        let all = sub.push(rs.last());
        assert forall|i: int, j: int| 0 <= i < j < all.len() implies lex_lt(
            (#[trigger] all[i]).0,
            (#[trigger] all[j]).0,
        ) by {
            if j < sub.len() {
                assert(lex_lt(sub[i].0, sub[j].0));
            } else {
                assert(sub.contains(sub[i]));
                lemma_selected(f, start, end, sub[i]);
                let p = choose|p: int| 0 <= p < f.len() && f[p] == sub[i];
                assert(lex_lt(rs[p].0, rs[rs.len() - 1].0));
            }
        }
    }
}

/// What is stored for a key is what the list of documents holds with it.
pub proof fn law_stored_under_a_key(rs: Seq<RawDoc>, k: Seq<u8>, b: Seq<u8>)
    requires
        keys_ascend(rs),
    ensures
        rs.contains((k, b)) == (raw_lookup(rs, k) == Some(b)),
{
    if rs.contains((k, b)) {
        let p = choose|p: int| 0 <= p < rs.len() && rs[p] == (k, b);
        lemma_raw_at(rs, p);
    }
    if raw_lookup(rs, k) == Some(b) {
        lemma_raw_rank(rs, k);
        assert(rs[raw_rank(rs, k)] == (k, b));
    }
}

} // verus!
