//! Scans at a snapshot agree with single reads at it.

use vstd::prelude::*;

use crate::bytes::{be_bytes, lemma_be_order, lemma_be_val_bytes, lemma_pow256_values, lex_lt};
use crate::collection::indexed::{decoded_rows, key_id};
use crate::collection::mirror::{lemma_last_doc, lemma_plain_keys, plain_keys};
use crate::collection::raws::{in_bounds, keys_ascend, raw_lookup, KeyBound, RawDoc};
use crate::collection::{law_keys_ascend, law_read_after_insert};
use crate::database::snapshot::{
    law_row_set, overlaid, rows_ascend, rows_within, seen_at, snapshot_rows, RowsM,
};
use crate::database::tables::{coll_pos, lemma_table_pos, live_rows, DocRead};
use crate::database::versions::{history, history_pos, tracked_keys, visible, HistoryM};
use crate::database::Database;
use crate::document::doc_parse;
use crate::document::value::ValueM;

verus! {

/// What is stored under a key reads as a document.
pub open spec fn stored_as(rs: Seq<RawDoc>, x: (u128, ValueM)) -> bool {
    match raw_lookup(rs, be_bytes(x.0 as nat, 16)) {
        Some(raw) => doc_parse(raw) matches Ok(d) && d.1 == x.1,
        None => false,
    }
}

/// The decoded rows have the keys of the documents.
proof fn lemma_decoded_keys(rs: Seq<RawDoc>, rows: RowsM)
    requires
        decoded_rows(rs) == Ok::<RowsM, Seq<char>>(rows),
    ensures
        rows.len() == rs.len(),
        forall|i: int| 0 <= i < rs.len() ==> (#[trigger] rows[i]).0 == key_id(rs[i].0),
    decreases rs.len(),
{
    if rs.len() > 0 {
        let f = rs.drop_last();
        lemma_decoded_keys(f, decoded_rows(f)->Ok_0);
        assert forall|i: int| 0 <= i < rs.len() implies (#[trigger] rows[i]).0 == key_id(
            rs[i].0,
        ) by {
            if i < f.len() {
                assert(rows[i] == decoded_rows(f)->Ok_0[i]);
                assert(f[i] == rs[i]);
            }
        }
    }
}

pub proof fn lemma_decoded_ascend(rs: Seq<RawDoc>, rows: RowsM)
    requires
        keys_ascend(rs),
        plain_keys(rs),
        decoded_rows(rs) == Ok::<RowsM, Seq<char>>(rows),
    ensures
        rows_ascend(rows),
{
    lemma_decoded_keys(rs, rows);
    lemma_pow256_values();
    assert forall|i: int, j: int| 0 <= i < j < rows.len() implies (#[trigger] rows[i]).0 < (
    #[trigger] rows[j]).0 by {
        assert(lex_lt(rs[i].0, rs[j].0));
        assert(rs[i].0.len() == 16 && rs[j].0.len() == 16);
        lemma_be_val_bytes(rs[i].0);
        lemma_be_val_bytes(rs[j].0);
        lemma_be_order(key_id(rs[i].0) as nat, key_id(rs[j].0) as nat, 16);
    }
}

/// The decoded rows are the documents.
pub proof fn lemma_decoded(rs: Seq<RawDoc>, rows: RowsM, x: (u128, ValueM))
    requires
        keys_ascend(rs),
        plain_keys(rs),
        decoded_rows(rs) == Ok::<RowsM, Seq<char>>(rows),
    ensures
        rows.contains(x) == stored_as(rs, x),
    decreases rs.len(),
{
    if rs.len() > 0 {
        let f = rs.drop_last();
        let fr = decoded_rows(f)->Ok_0;
        let k = rs.last().0;
        let q = be_bytes(x.0 as nat, 16);
        lemma_last_doc(rs);
        lemma_decoded(f, fr, x);
        law_read_after_insert(f, k, rs.last().1, q);
        law_read_after_insert(f, k, rs.last().1, k);
        let last = rows.last();
        assert(rows =~= fr.push(last));
        lemma_push_contains(fr, last, x);
        if x.0 == last.0 {
            assert(q == k);
        } else {
            crate::uid::lemma_uuid_bytes_injective(
                crate::uid::Uuid(x.0),
                crate::uid::Uuid(last.0),
            );
        }
    } else {
        assert(!rows.contains(x));
        assert(rs.len() == 0);
    }
}

pub proof fn lemma_push_contains(rows: RowsM, last: (u128, ValueM), x: (u128, ValueM))
    ensures
        rows.push(last).contains(x) == (rows.contains(x) || x == last),
{
    let all = rows.push(last);
    if rows.contains(x) {
        let i = choose|i: int| 0 <= i < rows.len() && rows[i] == x;
        assert(all[i] == x);
    }
    assert(all[rows.len() as int] == last);
    if all.contains(x) {
        let i = choose|i: int| 0 <= i < all.len() && all[i] == x;
        if i < rows.len() {
            assert(rows[i] == x);
        }
    }
}

/// The last row can follow rows that come from those before it.
proof fn lemma_row_follows(rows: RowsM, sub: RowsM)
    requires
        rows.len() > 0,
        rows_ascend(rows),
        rows_ascend(sub),
        forall|i: int| 0 <= i < sub.len() ==> rows.drop_last().contains(#[trigger] sub[i]),
    ensures
        rows_ascend(sub.push(rows.last())),
{
    let w = sub.push(rows.last());
    assert forall|i: int, j: int| 0 <= i < j < w.len() implies (#[trigger] w[i]).0 < (
    #[trigger] w[j]).0 by {
        if j == sub.len() {
            let f = rows.drop_last();
            assert(f.contains(sub[i]));
            let p = choose|p: int| 0 <= p < f.len() && f[p] == sub[i];
            assert(rows[p].0 < rows[rows.len() - 1].0);
        } else {
            assert(sub[i].0 < sub[j].0);
        }
    }
}

proof fn lemma_front_ascends(rows: RowsM)
    requires
        rows.len() > 0,
        rows_ascend(rows),
    ensures
        rows_ascend(rows.drop_last()),
{
    let f = rows.drop_last();
    assert forall|i: int, j: int| 0 <= i < j < f.len() implies (#[trigger] f[i]).0 < (
    #[trigger] f[j]).0 by {
        assert(rows[i].0 < rows[j].0);
    }
}

/// The rows without tombstones.
pub proof fn lemma_live_rows(rows: RowsM)
    requires
        rows_ascend(rows),
    ensures
        rows_ascend(live_rows(rows)),
        forall|x: (u128, ValueM)| #[trigger]
            live_rows(rows).contains(x) == (rows.contains(x) && !(x.1 is Tombstone)),
    decreases rows.len(),
{
    if rows.len() > 0 {
        let f = rows.drop_last();
        let sub = live_rows(f);
        lemma_front_ascends(rows);
        lemma_live_rows(f);
        assert forall|i: int| 0 <= i < sub.len() implies f.contains(#[trigger] sub[i]) by {
            assert(sub.contains(sub[i]));
        }
        lemma_row_follows(rows, sub);
        assert(rows =~= f.push(rows.last()));
        assert forall|x: (u128, ValueM)| #[trigger]
            live_rows(rows).contains(x) == (rows.contains(x) && !(x.1 is Tombstone)) by {
            lemma_push_contains(f, rows.last(), x);
            lemma_push_contains(sub, rows.last(), x);
            assert(sub.contains(x) == (f.contains(x) && !(x.1 is Tombstone)));
        }
    }
}

/// The rows with keys in a range.
proof fn lemma_rows_within(rows: RowsM, start: KeyBound, end: KeyBound)
    requires
        rows_ascend(rows),
    ensures
        rows_ascend(rows_within(rows, start, end)),
        forall|x: (u128, ValueM)| #[trigger]
            rows_within(rows, start, end).contains(x) == (rows.contains(x) && in_bounds(
                be_bytes(x.0 as nat, 16),
                start,
                end,
            )),
    decreases rows.len(),
{
    if rows.len() > 0 {
        let f = rows.drop_last();
        let sub = rows_within(f, start, end);
        lemma_front_ascends(rows);
        lemma_rows_within(f, start, end);
        assert forall|i: int| 0 <= i < sub.len() implies f.contains(#[trigger] sub[i]) by {
            assert(sub.contains(sub[i]));
        }
        lemma_row_follows(rows, sub);
        assert(rows =~= f.push(rows.last()));
        assert forall|x: (u128, ValueM)| #[trigger]
            rows_within(rows, start, end).contains(x) == (rows.contains(x) && in_bounds(
                be_bytes(x.0 as nat, 16),
                start,
                end,
            )) by {
            lemma_push_contains(f, rows.last(), x);
            lemma_push_contains(sub, rows.last(), x);
            assert(sub.contains(x) == (f.contains(x) && in_bounds(
                be_bytes(x.0 as nat, 16),
                start,
                end,
            )));
        }
    }
}

/// The keys with a history.
proof fn lemma_tracked(hs: Seq<HistoryM>, c: Seq<char>, k: u128)
    ensures
        tracked_keys(hs, c).contains(k) == (history(hs, c, k) is Some),
    decreases hs.len(),
{
    if hs.len() > 0 {
        let f = hs.drop_last();
        lemma_tracked(f, c, k);
        let front = tracked_keys(f, c);
        let last = hs.last();
        if last.0 == c {
            let all = front.push(last.1);
            if front.contains(k) {
                let i = choose|i: int| 0 <= i < front.len() && front[i] == k;
                assert(all[i] == k);
            }
            assert(all[front.len() as int] == last.1);
            if all.contains(k) && !front.contains(k) {
                let i = choose|i: int| 0 <= i < all.len() && all[i] == k;
                if i < front.len() {
                    assert(front[i] == k);
                }
            }
        }
        assert((history(f, c, k) is Some) == (history_pos(f, c, k) is Some));
        assert((history(hs, c, k) is Some) == (history_pos(hs, c, k) is Some));
    } else {
        assert(!tracked_keys(hs, c).contains(k));
    }
}

/// Rows with what a snapshot sees of histories laid over them.
proof fn lemma_overlaid(
    rows: RowsM,
    hs: Seq<HistoryM>,
    c: Seq<char>,
    keys: Seq<u128>,
    s: u64,
    start: KeyBound,
    end: KeyBound,
    x: (u128, ValueM),
)
    requires
        rows_ascend(rows),
    ensures
        rows_ascend(overlaid(rows, hs, c, keys, s, start, end)),
        overlaid(rows, hs, c, keys, s, start, end).contains(x) == (if keys.contains(x.0)
            && in_bounds(be_bytes(x.0 as nat, 16), start, end) && history(hs, c, x.0) is Some {
            visible(history(hs, c, x.0)->0, s) == Some(x.1)
        } else {
            rows.contains(x)
        }),
    decreases keys.len(),
{
    if keys.len() > 0 {
        let f = keys.drop_last();
        let front = overlaid(rows, hs, c, f, s, start, end);
        let k = keys.last();
        lemma_overlaid(rows, hs, c, f, s, start, end, x);
        if in_bounds(be_bytes(k as nat, 16), start, end) && history(hs, c, k) is Some {
            law_row_set(front, k, visible(history(hs, c, k)->0, s), x);
        }
        assert(keys[keys.len() - 1] == k);
        if f.contains(x.0) {
            let i = choose|i: int| 0 <= i < f.len() && f[i] == x.0;
            assert(keys[i] == x.0);
        }
        if keys.contains(x.0) && !f.contains(x.0) {
            let i = choose|i: int| 0 <= i < keys.len() && keys[i] == x.0;
            if i < f.len() {
                assert(f[i] == x.0);
            }
        }
    }
}

/// A scan at a snapshot agrees with single reads at it: it gives the documents
/// of the range that the snapshot sees, in ascending order of their keys.
pub proof fn law_scan_agrees_with_get(
    db: Database,
    c: Seq<char>,
    s: u64,
    start: KeyBound,
    end: KeyBound,
    rows: RowsM,
    x: (u128, ValueM),
)
    requires
        db.wf(),
        coll_pos(db.collections@, c) is Some,
        snapshot_rows(
            db.collections@[coll_pos(db.collections@, c)->0].raws(),
            db.versions.model(),
            c,
            s,
            start,
            end,
        ) == Ok::<RowsM, Seq<char>>(rows),
    ensures
        rows_ascend(rows),
        rows.contains(x) == (in_bounds(be_bytes(x.0 as nat, 16), start, end) && seen_at(
            db,
            c,
            x.0,
            s,
        ) == DocRead::Found(x.1)),
{
    let i = coll_pos(db.collections@, c)->0;
    lemma_table_pos(db.collections@, c);
    let rs = db.collections@[i].raws();
    let hs = db.versions.model();
    let all = decoded_rows(rs)->Ok_0;
    law_keys_ascend(db.collections@[i]);
    lemma_plain_keys(db.collections@[i]);
    lemma_decoded_ascend(rs, all);
    lemma_decoded(rs, all, x);
    lemma_live_rows(all);
    lemma_rows_within(live_rows(all), start, end);
    lemma_tracked(hs, c, x.0);
    let base = rows_within(live_rows(all), start, end);
    lemma_overlaid(base, hs, c, tracked_keys(hs, c), s, start, end, x);
    assert(base.contains(x) == (live_rows(all).contains(x) && in_bounds(
        be_bytes(x.0 as nat, 16),
        start,
        end,
    )));
    assert(live_rows(all).contains(x) == (all.contains(x) && !(x.1 is Tombstone)));
    assert(db.tables()[i].1 == rs);
}

/// Rows in ascending order are given by what they hold.
proof fn lemma_same_rows(a: RowsM, b: RowsM)
    requires
        rows_ascend(a),
        rows_ascend(b),
        forall|x: (u128, ValueM)| #[trigger] a.contains(x) == b.contains(x),
    ensures
        a == b,
    decreases a.len(),
{
    if a.len() == 0 {
        if b.len() > 0 {
            assert(b.contains(b[0]));
            assert(a.contains(b[0]));
        }
        assert(a =~= b);
    } else {
        let x = a.last();
        assert(a.contains(x)) by {
            assert(a[a.len() - 1] == x);
        }
        assert(b.contains(x));
        let y = b.last();
        assert(b.contains(y)) by {
            assert(b[b.len() - 1] == y);
        }
        assert(a.contains(y));
        let p = choose|p: int| 0 <= p < b.len() && b[p] == x;
        let q = choose|q: int| 0 <= q < a.len() && a[q] == y;
        if p < b.len() - 1 {
            assert(b[p].0 < b[b.len() - 1].0);
            if q < a.len() - 1 {
                assert(a[q].0 < a[a.len() - 1].0);
            }
        }
        assert(x == y);
        let (f, g) = (a.drop_last(), b.drop_last());
        lemma_front_ascends(a);
        lemma_front_ascends(b);
        assert(a =~= f.push(x) && b =~= g.push(x));
        assert forall|z: (u128, ValueM)| #[trigger] f.contains(z) == g.contains(z) by {
            lemma_push_contains(f, x, z);
            lemma_push_contains(g, x, z);
            assert(a.contains(z) == b.contains(z));
            if f.contains(z) && z == x {
                let i = choose|i: int| 0 <= i < f.len() && f[i] == z;
                assert(a[i].0 < a[a.len() - 1].0);
            }
            if g.contains(z) && z == x {
                let i = choose|i: int| 0 <= i < g.len() && g[i] == z;
                assert(b[i].0 < b[b.len() - 1].0);
            }
        }
        lemma_same_rows(f, g);
    }
}

/// Where a snapshot sees the same of every document of a collection before and
/// after a change, scans at it give the same.
pub proof fn law_snapshot_scans_are_stable(
    a: Database,
    b: Database,
    c: Seq<char>,
    s: u64,
    start: KeyBound,
    end: KeyBound,
    before: RowsM,
    after: RowsM,
)
    requires
        a.wf(),
        b.wf(),
        coll_pos(a.collections@, c) is Some,
        coll_pos(b.collections@, c) is Some,
        snapshot_rows(
            a.collections@[coll_pos(a.collections@, c)->0].raws(),
            a.versions.model(),
            c,
            s,
            start,
            end,
        ) == Ok::<RowsM, Seq<char>>(before),
        snapshot_rows(
            b.collections@[coll_pos(b.collections@, c)->0].raws(),
            b.versions.model(),
            c,
            s,
            start,
            end,
        ) == Ok::<RowsM, Seq<char>>(after),
        forall|q: u128| #[trigger] seen_at(b, c, q, s) == seen_at(a, c, q, s),
    ensures
        after == before,
{
    let none: (u128, ValueM) = (0, ValueM::Null);
    law_scan_agrees_with_get(a, c, s, start, end, before, none);
    law_scan_agrees_with_get(b, c, s, start, end, after, none);
    assert forall|x: (u128, ValueM)| #[trigger] after.contains(x) == before.contains(x) by {
        law_scan_agrees_with_get(a, c, s, start, end, before, x);
        law_scan_agrees_with_get(b, c, s, start, end, after, x);
        assert(seen_at(b, c, x.0, s) == seen_at(a, c, x.0, s));
    }
    lemma_same_rows(after, before);
}

} // verus!
