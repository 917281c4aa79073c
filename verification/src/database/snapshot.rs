//! Reads at a point-in-time snapshot.

use vstd::prelude::*;

use crate::btree::key::Key;
use crate::bytes::{be_bytes, bytes_lt, lex_lt};
use crate::collection::indexed::{decoded_rows, index_named};
use crate::collection::raws::{
    at_or_after_start, in_bounds, past_end, raw_lookup, selected, with_raw, without_raw, KeyBound,
    RawDoc,
};
use crate::collection::store::PageWriteRecord;
use crate::collection::{law_keys_ascend, law_read_after_delete, law_read_after_insert};
use crate::database::tables::{
    coll_pos, doc_read, lemma_table_pos, live_rows, table_pos, DocRead, TableM,
};
use crate::database::versions::{
    all_pruned, ascending, history, keys_model, law_later_snapshot_sees_the_version,
    law_snapshot_reads_are_stable, law_snapshot_sees_the_baseline, lemma_baseline_kept,
    lemma_committed_later, lemma_pruned_committed, lemma_with_baseline, oldest, shown, tracked_keys,
    value_model, visible, with_baseline, HistoryM, VersionM,
};
use crate::database::{cached_only, exchanged, inserted, no_collection, Database};
use crate::document::doc_image;
use crate::document::equality::{same_value, values_equal};
use crate::document::value::{value_wf, Value, ValueM};
use crate::error::{GrumpyError, Result};
use crate::index::docs_of;
use crate::index::encoding::{encode_sortable_value, extract_field, field_at, sortable};
use crate::text::owned;
use crate::uid::Uuid;
use crate::wal::hlc::Hlc;

verus! {

/// Read-only transaction pinned to a point-in-time HLC snapshot.
#[derive(Debug)]
pub struct ReadTx {
    pub snapshot_hlc: Hlc,
}

/// Rows of keys and documents.
pub type RowsM = Seq<(u128, ValueM)>;

/// The number of rows, from the front, with keys before `k`.
pub open spec fn row_rank(rows: RowsM, k: u128) -> int
    decreases rows.len(),
{
    if rows.len() == 0 {
        0
    } else if rows[0].0 < k {
        1 + row_rank(rows.skip(1), k)
    } else {
        0
    }
}

/// There is a row with key `k`.
pub open spec fn has_row(rows: RowsM, k: u128) -> bool {
    row_rank(rows, k) < rows.len() && rows[row_rank(rows, k)].0 == k
}

/// The rows with the one of key `k` set, or removed.
pub open spec fn with_row(rows: RowsM, k: u128, v: Option<ValueM>) -> RowsM {
    let p = row_rank(rows, k);
    match v {
        Some(m) => if has_row(rows, k) {
            rows.update(p, (k, m))
        } else {
            rows.insert(p, (k, m))
        },
        None => if has_row(rows, k) {
            rows.remove(p)
        } else {
            rows
        },
    }
}

/// Keys ascend.
pub open spec fn rows_ascend(rows: RowsM) -> bool {
    forall|i: int, j: int|
        0 <= i < j < rows.len() ==> (#[trigger] rows[i]).0 < (#[trigger] rows[j]).0
}

proof fn lemma_row_rank(rows: RowsM, k: u128)
    requires
        rows_ascend(rows),
    ensures
        0 <= row_rank(rows, k) <= rows.len(),
        forall|i: int| 0 <= i < row_rank(rows, k) ==> (#[trigger] rows[i]).0 < k,
        forall|i: int| row_rank(rows, k) <= i < rows.len() ==> (#[trigger] rows[i]).0 >= k,
    decreases rows.len(),
{
    if rows.len() > 0 {
        let t = rows.skip(1);
        assert(rows_ascend(t)) by {
            assert forall|i: int, j: int| 0 <= i < j < t.len() implies (#[trigger] t[i]).0 < (
            #[trigger] t[j]).0 by {
                assert(rows[i + 1].0 < rows[j + 1].0);
            }
        }
        lemma_row_rank(t, k);
        if rows[0].0 < k {
            assert forall|i: int| 0 <= i < row_rank(rows, k) implies (#[trigger] rows[i]).0
                < k by {
                if i > 0 {
                    assert(rows[i] == t[i - 1]);
                }
            }
            assert forall|i: int| row_rank(rows, k) <= i < rows.len() implies (
            #[trigger] rows[i]).0 >= k by {
                assert(rows[i] == t[i - 1]);
            }
        }
    }
}

/// Setting or removing a row keeps the order, and concerns that row alone.
#[verifier::rlimit(40)]
pub proof fn law_row_set(rows: RowsM, k: u128, v: Option<ValueM>, x: (u128, ValueM))
    requires
        rows_ascend(rows),
    ensures
        rows_ascend(with_row(rows, k, v)),
        with_row(rows, k, v).contains(x) == (if x.0 == k {
            v == Some(x.1)
        } else {
            rows.contains(x)
        }),
{
    lemma_row_rank(rows, k);
    let p = row_rank(rows, k);
    let w = with_row(rows, k, v);
    let shift: int = if v is Some && !has_row(rows, k) {
        1
    } else if v is None && has_row(rows, k) {
        -1
    } else {
        0
    };
    assert(w.len() == rows.len() + shift);
    assert forall|i: int, j: int| 0 <= i < j < w.len() implies (#[trigger] w[i]).0 < (
    #[trigger] w[j]).0 by {
        let a = if i < p {
            i
        } else {
            i - shift
        };
        let b = if j < p {
            j
        } else {
            j - shift
        };
        if shift == 1 {
            if i != p {
                assert(w[i] == rows[a]);
            }
            if j != p {
                assert(w[j] == rows[b]);
            }
            if i != p && j != p {
                assert(rows[a].0 < rows[b].0);
            }
        } else {
            assert(rows[a].0 < rows[b].0);
        }
    }
    if w.contains(x) {
        let i = choose|i: int| 0 <= i < w.len() && w[i] == x;
        let a = if i < p {
            i
        } else {
            i - shift
        };
        if x.0 == k {
            if v is None {
                assert(w[i] == rows[a]);
                if a < p {
                    assert(rows[a].0 < k);
                } else if has_row(rows, k) {
                    assert(rows[p].0 < rows[a].0);
                } else {
                    assert(rows[a].0 == k);
                    if a > p {
                        assert(rows[p].0 < rows[a].0);
                    }
                }
            } else {
                assert(w[p] == (k, v->0));
                if i < p {
                    assert(w[i].0 < w[p].0);
                } else if p < i {
                    assert(w[p].0 < w[i].0);
                }
            }
        } else {
            if v is Some {
                assert(w[p] == (k, v->0));
                assert(i != p);
            }
            assert(w[i] == rows[a]);
            assert(rows.contains(x));
        }
    }
    if x.0 == k && v == Some(x.1) {
        assert(w[p] == x);
    }
    if x.0 != k && rows.contains(x) {
        let i = choose|i: int| 0 <= i < rows.len() && rows[i] == x;
        if has_row(rows, k) {
            assert(i != p);
        }
        let a = if i < p {
            i
        } else {
            i + shift
        };
        assert(w[a] == x);
    }
}

/// The rows with keys in a range.
pub open spec fn rows_within(rows: RowsM, start: KeyBound, end: KeyBound) -> RowsM
    decreases rows.len(),
{
    if rows.len() == 0 {
        rows
    } else {
        let front = rows_within(rows.drop_last(), start, end);
        if in_bounds(be_bytes(rows.last().0 as nat, 16), start, end) {
            front.push(rows.last())
        } else {
            front
        }
    }
}

/// The rows as a snapshot sees them: for each of `keys` in the range, what it
/// sees of the history takes the place of the row.
pub open spec fn overlaid(
    rows: RowsM,
    hs: Seq<HistoryM>,
    c: Seq<char>,
    keys: Seq<u128>,
    snapshot: u64,
    start: KeyBound,
    end: KeyBound,
) -> RowsM
    decreases keys.len(),
{
    if keys.len() == 0 {
        rows
    } else {
        let front = overlaid(rows, hs, c, keys.drop_last(), snapshot, start, end);
        let k = keys.last();
        if in_bounds(be_bytes(k as nat, 16), start, end) && history(hs, c, k) is Some {
            with_row(front, k, visible(history(hs, c, k)->0, snapshot))
        } else {
            front
        }
    }
}

/// The documents of a collection in a range, as a snapshot sees them.
pub open spec fn snapshot_rows(
    raws: Seq<RawDoc>,
    hs: Seq<HistoryM>,
    c: Seq<char>,
    snapshot: u64,
    start: KeyBound,
    end: KeyBound,
) -> std::result::Result<RowsM, Seq<char>> {
    match decoded_rows(raws) {
        Err(e) => Err(e),
        Ok(rows) => Ok(
            overlaid(
                rows_within(live_rows(rows), start, end),
                hs,
                c,
                tracked_keys(hs, c),
                snapshot,
                start,
                end,
            ),
        ),
    }
}

/// `r` gives rows, or reports the document that cannot be read.
pub open spec fn gives_rows(
    r: Result<Vec<(Uuid, Value)>>,
    rows: std::result::Result<RowsM, Seq<char>>,
) -> bool {
    match r {
        Ok(v) => rows == Ok::<RowsM, Seq<char>>(docs_of(v@)),
        Err(e) => e is Codec && rows == Err::<RowsM, Seq<char>>((e->Codec_0)@),
    }
}

/// The rows with an equal field.
pub open spec fn rows_equal(rows: RowsM, path: Seq<char>, m: ValueM) -> RowsM
    decreases rows.len(),
{
    if rows.len() == 0 {
        rows
    } else {
        let front = rows_equal(rows.drop_last(), path, m);
        match field_at(rows.last().1, path) {
            Some(f) => if same_value(f, m) {
                front.push(rows.last())
            } else {
                front
            },
            None => front,
        }
    }
}

/// The rows with a field in a range of encodings.
pub open spec fn rows_between(rows: RowsM, path: Seq<char>, s: Seq<u8>, e: Seq<u8>) -> RowsM
    decreases rows.len(),
{
    if rows.len() == 0 {
        rows
    } else {
        let front = rows_between(rows.drop_last(), path, s, e);
        match field_at(rows.last().1, path) {
            Some(f) => match sortable(f) {
                Some(b) => if !lex_lt(b, s) && lex_lt(b, e) {
                    front.push(rows.last())
                } else {
                    front
                },
                None => front,
            },
            None => front,
        }
    }
}

/// Sets or removes a row.
fn set_row(rows: &mut Vec<(Uuid, Value)>, key: Uuid, value: Option<Value>)
    requires
        rows_wf(old(rows)@),
        value is Some ==> value_wf(value->0.model()),
    ensures
        rows_wf(final(rows)@),
        docs_of(final(rows)@) == with_row(docs_of(old(rows)@), key.0, value_model(value)),
{
    let ghost all = docs_of(rows@);
    let mut p: usize = 0;
    assert(all.skip(0) =~= all);
    while p < rows.len() && (rows[p].0).0 < key.0
        invariant
            all == docs_of(rows@),
            p <= rows@.len(),
            row_rank(all, key.0) == p + row_rank(all.skip(p as int), key.0),
        decreases rows@.len() - p,
    {
        proof {
            let t = all.skip(p as int);
            assert(t[0] == all[p as int]);
            assert(t.skip(1) =~= all.skip(p + 1));
        }
        p = p + 1;
    }
    proof {
        if p < rows@.len() {
            assert(all.skip(p as int)[0] == all[p as int]);
        }
    }
    let present: bool = p < rows.len() && (rows[p].0).0 == key.0;
    let ghost before = rows@;
    match value {
        Some(v) => {
            if present {
                rows.set(p, (key, v));
            } else {
                rows.insert(p, (key, v));
            }
        },
        None => {
            if present {
                rows.remove(p);
            }
        },
    }
    proof {
        assert(docs_of(rows@) =~= with_row(all, key.0, value_model(value)));
        assert forall|i: int| 0 <= i < rows@.len() implies value_wf(
            (#[trigger] rows@[i]).1.model(),
        ) by {
            if i < p {
                assert(rows@[i] == before[i]);
            } else if value is Some && i == p {
            } else if rows@.len() == before.len() {
                assert(rows@[i] == before[i]);
            } else if rows@.len() > before.len() {
                assert(rows@[i] == before[i - 1]);
            } else {
                assert(rows@[i] == before[i + 1]);
            }
        }
    }
}

/// The documents of rows are in order.
pub open spec fn rows_wf(rows: Seq<(Uuid, Value)>) -> bool {
    forall|i: int| 0 <= i < rows.len() ==> value_wf((#[trigger] rows[i]).1.model())
}

fn within(key: &Uuid, start: &KeyBound, end: &KeyBound) -> (r: bool)
    ensures
        r == in_bounds(be_bytes(key.0 as nat, 16), *start, *end),
{
    at_or_after_start(key, start) && !past_end(key, end)
}

/// Keeps the rows with keys in a range.
fn keep_within(rows: &Vec<(Uuid, Value)>, start: &KeyBound, end: &KeyBound) -> (r: Vec<
    (Uuid, Value),
>)
    requires
        rows_wf(rows@),
    ensures
        rows_wf(r@),
        docs_of(r@) == rows_within(docs_of(rows@), *start, *end),
{
    let ghost all = docs_of(rows@);
    let mut out: Vec<(Uuid, Value)> = Vec::new();
    let mut i: usize = 0;
    assert(all.take(0) =~= Seq::<(u128, ValueM)>::empty());
    assert(docs_of(out@) =~= Seq::<(u128, ValueM)>::empty());
    while i < rows.len()
        invariant
            all == docs_of(rows@),
            rows_wf(rows@),
            i <= rows@.len(),
            rows_wf(out@),
            docs_of(out@) == rows_within(all.take(i as int), *start, *end),
        decreases rows@.len() - i,
    {
        proof {
            assert(all.take(i + 1).drop_last() =~= all.take(i as int));
            assert(all.take(i + 1).last() == all[i as int]);
        }
        if within(&rows[i].0, start, end) {
            let ghost before = out@;
            let v: Value = rows[i].1.dup();
            assert(value_wf(rows@[i as int].1.model()));
            out.push((rows[i].0, v));
            assert(docs_of(out@) =~= docs_of(before).push(all[i as int]));
        }
        i = i + 1;
    }
    assert(all.take(i as int) =~= all);
    out
}

/// Keeps the rows whose field equals a value.
fn keep_equal(rows: &Vec<(Uuid, Value)>, path: &str, value: &Value) -> (r: Vec<(Uuid, Value)>)
    requires
        rows_wf(rows@),
    ensures
        docs_of(r@) == rows_equal(docs_of(rows@), path@, value.model()),
{
    let ghost all = docs_of(rows@);
    let mut out: Vec<(Uuid, Value)> = Vec::new();
    let mut i: usize = 0;
    assert(all.take(0) =~= Seq::<(u128, ValueM)>::empty());
    assert(docs_of(out@) =~= Seq::<(u128, ValueM)>::empty());
    while i < rows.len()
        invariant
            all == docs_of(rows@),
            rows_wf(rows@),
            i <= rows@.len(),
            docs_of(out@) == rows_equal(all.take(i as int), path@, value.model()),
        decreases rows@.len() - i,
    {
        proof {
            assert(all.take(i + 1).drop_last() =~= all.take(i as int));
            assert(all.take(i + 1).last() == all[i as int]);
            assert(value_wf(rows@[i as int].1.model()));
        }
        match extract_field(&rows[i].1, path) {
            Some(f) => {
                if values_equal(f, value) {
                    let ghost before = out@;
                    let v: Value = rows[i].1.dup();
                    out.push((rows[i].0, v));
                    assert(docs_of(out@) =~= docs_of(before).push(all[i as int]));
                }
            },
            None => {},
        }
        i = i + 1;
    }
    assert(all.take(i as int) =~= all);
    out
}

/// Keeps the rows whose field is encoded within a range.
fn keep_between(
    rows: &Vec<(Uuid, Value)>,
    path: &str,
    start: &Vec<u8>,
    end: &Vec<u8>,
) -> (r: Vec<(Uuid, Value)>)
    requires
        rows_wf(rows@),
    ensures
        docs_of(r@) == rows_between(docs_of(rows@), path@, start@, end@),
{
    let ghost all = docs_of(rows@);
    let mut out: Vec<(Uuid, Value)> = Vec::new();
    let mut i: usize = 0;
    assert(all.take(0) =~= Seq::<(u128, ValueM)>::empty());
    assert(docs_of(out@) =~= Seq::<(u128, ValueM)>::empty());
    while i < rows.len()
        invariant
            all == docs_of(rows@),
            rows_wf(rows@),
            i <= rows@.len(),
            docs_of(out@) == rows_between(all.take(i as int), path@, start@, end@),
        decreases rows@.len() - i,
    {
        proof {
            assert(all.take(i + 1).drop_last() =~= all.take(i as int));
            assert(all.take(i + 1).last() == all[i as int]);
            assert(value_wf(rows@[i as int].1.model()));
        }
        match extract_field(&rows[i].1, path) {
            Some(f) => match encode_sortable_value(f) {
                Ok(b) => {
                    if !bytes_lt(b.as_slice(), start.as_slice()) && bytes_lt(
                        b.as_slice(),
                        end.as_slice(),
                    ) {
                        let ghost before = out@;
                        let v: Value = rows[i].1.dup();
                        out.push((rows[i].0, v));
                        assert(docs_of(out@) =~= docs_of(before).push(all[i as int]));
                    }
                },
                Err(_) => {},
            },
            None => {},
        }
        i = i + 1;
    }
    assert(all.take(i as int) =~= all);
    out
}

/// What a snapshot sees of a document: its history decides, or else what is
/// stored.
pub open spec fn seen_at(db: Database, collection: Seq<char>, id: u128, snapshot: u64) -> DocRead {
    match history(db.versions.model(), collection, id) {
        Some(vs) => match visible(vs, snapshot) {
            Some(m) => DocRead::Found(m),
            None => DocRead::Absent,
        },
        None => match doc_read(db.tables(), collection, id) {
            DocRead::Found(m) => if m is Tombstone {
                DocRead::Absent
            } else {
                DocRead::Found(m)
            },
            other => other,
        },
    }
}

/// What reading a document at a snapshot gives.
pub open spec fn got_at(
    r: Result<Option<Value>>,
    db: Database,
    collection: Seq<char>,
    key: Uuid,
    snapshot: Hlc,
) -> bool {
    match seen_at(db, collection, key.0, snapshot.0) {
        DocRead::NoCollection => r is Err && no_collection(r->Err_0, collection),
        DocRead::Unreadable(e) => r is Err && r->Err_0 is Codec && (r->Err_0->Codec_0)@ == e,
        DocRead::Absent => r is Ok && r->Ok_0 is None,
        DocRead::Found(m) => r is Ok && value_model(r->Ok_0) == Some(m),
    }
}

/// Changing the documents of one collection changes what is read of these.
pub proof fn lemma_other_documents(
    ts: Seq<TableM>,
    i: int,
    rs: Seq<RawDoc>,
    k: Seq<u8>,
    d: Seq<char>,
    q: u128,
)
    requires
        0 <= i < ts.len(),
        be_bytes(q as nat, 16) != k ==> raw_lookup(rs, be_bytes(q as nat, 16)) == raw_lookup(
            ts[i].1,
            be_bytes(q as nat, 16),
        ),
        d != ts[i].0 || be_bytes(q as nat, 16) != k,
    ensures
        doc_read(ts.update(i, (ts[i].0, rs)), d, q) == doc_read(ts, d, q),
{
    let us = ts.update(i, (ts[i].0, rs));
    lemma_same_names(ts, us, d);
    lemma_table_named(ts, d);
}

pub proof fn lemma_same_names(a: Seq<TableM>, b: Seq<TableM>, name: Seq<char>)
    requires
        b.len() == a.len(),
        forall|i: int| 0 <= i < a.len() ==> (#[trigger] b[i]).0 == a[i].0,
    ensures
        table_pos(b, name) == table_pos(a, name),
    decreases a.len(),
{
    if a.len() > 0 {
        let (f, g) = (a.drop_last(), b.drop_last());
        assert forall|i: int| 0 <= i < f.len() implies (#[trigger] g[i]).0 == f[i].0 by {
            assert(g[i] == b[i] && f[i] == a[i]);
        }
        lemma_same_names(f, g, name);
        assert(b[b.len() - 1] == b.last() && a[a.len() - 1] == a.last());
    }
}

pub proof fn lemma_table_named(ts: Seq<TableM>, name: Seq<char>)
    ensures
        table_pos(ts, name) matches Some(i) ==> 0 <= i < ts.len() && ts[i].0 == name,
    decreases ts.len(),
{
    if ts.len() > 0 {
        lemma_table_named(ts.drop_last(), name);
    }
}

/// The oldest reader is no younger than any.
proof fn lemma_oldest(readers: Seq<Hlc>, s: Hlc)
    requires
        ascending(readers),
        readers.contains(s),
    ensures
        readers.len() > 0,
        readers[0].0 <= s.0,
{
    let i = choose|i: int| 0 <= i < readers.len() && readers[i] == s;
    assert(readers[0].0 <= readers[i].0);
}

/// A read transaction does not see what is inserted after it began: of every
/// document it sees what it saw before.
pub proof fn law_snapshot_hides_later_insert(
    a: Database,
    b: Database,
    collection: Seq<char>,
    key: Uuid,
    m: ValueM,
    recs: Seq<PageWriteRecord>,
    h: Hlc,
    s: Hlc,
    d: Seq<char>,
    q: u128,
)
    requires
        a.wf(),
        inserted(a, b, collection, key, m, recs, h),
        doc_read(a.tables(), collection, key.0) is Absent,
        a.versions.readers@.contains(s),
        s.0 <= a.wal.clock.state.0,
    ensures
        seen_at(b, d, q, s.0) == seen_at(a, d, q, s.0),
{
    let i = coll_pos(a.collections@, collection)->0;
    let rs = a.collections@[i].raws();
    let k = key.spec_bytes();
    let image = doc_image(key.0, m);
    lemma_table_pos(a.collections@, collection);
    law_keys_ascend(a.collections@[i]);
    law_read_after_insert(rs, k, image, be_bytes(q as nat, 16));
    lemma_oldest(a.versions.readers@, s);
    law_snapshot_reads_are_stable(
        a.versions.model(),
        a.versions.readers@,
        s.0,
        collection,
        key.0,
        (h.0, shown(Some(m))),
        d,
        q,
    );
    if d != collection || q != key.0 {
        crate::uid::lemma_uuid_bytes_injective(key, Uuid(q));
        lemma_other_documents(a.tables(), i, with_raw(rs, k, image), k, d, q);
    }
}

/// A read transaction does not see an update or a deletion after it began: of
/// every document it sees what it saw before.
pub proof fn law_snapshot_hides_later_exchange(
    a: Database,
    b: Database,
    collection: Seq<char>,
    key: Uuid,
    old_m: ValueM,
    new_m: ValueM,
    version: Option<ValueM>,
    recs: Seq<PageWriteRecord>,
    h: Hlc,
    s: Hlc,
    d: Seq<char>,
    q: u128,
)
    requires
        a.wf(),
        exchanged(a, b, collection, key, old_m, new_m, version, recs, h),
        doc_read(a.tables(), collection, key.0) == DocRead::Found(old_m),
        a.versions.readers@.contains(s),
        s.0 <= a.wal.clock.state.0,
    ensures
        seen_at(b, d, q, s.0) == seen_at(a, d, q, s.0),
{
    let i = coll_pos(a.collections@, collection)->0;
    let rs = a.collections@[i].raws();
    let k = key.spec_bytes();
    let hs = a.versions.model();
    let base: VersionM = (0, shown(Some(old_m)));
    let gone = without_raw(rs, k);
    let image = doc_image(key.0, new_m);
    lemma_table_pos(a.collections@, collection);
    law_keys_ascend(a.collections@[i]);
    law_read_after_delete(rs, k, be_bytes(q as nat, 16));
    law_read_after_delete(rs, k, k);
    law_read_after_insert(gone, k, image, be_bytes(q as nat, 16));
    lemma_oldest(a.versions.readers@, s);
    lemma_with_baseline(hs, a.wal.clock.state.0, collection, key.0, base, d, q);
    law_snapshot_reads_are_stable(
        with_baseline(hs, collection, key.0, base),
        a.versions.readers@,
        s.0,
        collection,
        key.0,
        (h.0, shown(version)),
        d,
        q,
    );
    if d != collection || q != key.0 {
        crate::uid::lemma_uuid_bytes_injective(key, Uuid(q));
        lemma_other_documents(a.tables(), i, with_raw(gone, k, image), k, d, q);
    } else if history(hs, collection, key.0) is None {
        law_snapshot_sees_the_baseline(
            hs,
            a.versions.readers@,
            s.0,
            collection,
            key.0,
            shown(Some(old_m)),
            (h.0, shown(version)),
        );
    }
}

/// A read transaction that begins after an insert sees the document.
pub proof fn law_later_snapshot_sees_insert(
    a: Database,
    b: Database,
    collection: Seq<char>,
    key: Uuid,
    m: ValueM,
    recs: Seq<PageWriteRecord>,
    h: Hlc,
    s: Hlc,
)
    requires
        a.wf(),
        inserted(a, b, collection, key, m, recs, h),
        s.0 >= b.wal.clock.state.0,
    ensures
        seen_at(b, collection, key.0, s.0) == (if m is Tombstone {
            DocRead::Absent
        } else {
            DocRead::Found(m)
        }),
{
    let hs = a.versions.model();
    lemma_committed_later(hs, a.wal.clock.state.0, s.0);
    law_later_snapshot_sees_the_version(
        hs,
        oldest(a.versions.readers@),
        collection,
        key.0,
        (h.0, shown(Some(m))),
        s.0,
    );
}

/// A read transaction that begins after an update or a deletion sees the new
/// value, or none.
pub proof fn law_later_snapshot_sees_exchange(
    a: Database,
    b: Database,
    collection: Seq<char>,
    key: Uuid,
    old_m: ValueM,
    new_m: ValueM,
    version: Option<ValueM>,
    recs: Seq<PageWriteRecord>,
    h: Hlc,
    s: Hlc,
)
    requires
        a.wf(),
        exchanged(a, b, collection, key, old_m, new_m, version, recs, h),
        s.0 >= b.wal.clock.state.0,
    ensures
        seen_at(b, collection, key.0, s.0) == (match version {
            Some(m) => if m is Tombstone {
                DocRead::Absent
            } else {
                DocRead::Found(m)
            },
            None => DocRead::Absent,
        }),
{
    let hs = a.versions.model();
    lemma_baseline_kept(hs, collection, key.0, shown(Some(old_m)), a.wal.clock.state.0);
    let base = with_baseline(hs, collection, key.0, (0, shown(Some(old_m))));
    lemma_committed_later(base, a.wal.clock.state.0, s.0);
    law_later_snapshot_sees_the_version(
        base,
        oldest(a.versions.readers@),
        collection,
        key.0,
        (h.0, shown(version)),
        s.0,
    );
}

/// What scanning at a snapshot gives.
pub open spec fn scanned_at(
    r: Result<Vec<(Uuid, Value)>>,
    db: Database,
    collection: Seq<char>,
    start: KeyBound,
    end: KeyBound,
    snapshot: Hlc,
) -> bool {
    match coll_pos(db.collections@, collection) {
        None => r is Err && no_collection(r->Err_0, collection),
        Some(i) => gives_rows(
            r,
            snapshot_rows(
                db.collections@[i].raws(),
                db.versions.model(),
                collection,
                snapshot.0,
                start,
                end,
            ),
        ),
    }
}

/// What querying an index for a value at a snapshot gives.
pub open spec fn queried_at(
    r: Result<Vec<(Uuid, Value)>>,
    db: Database,
    collection: Seq<char>,
    index_name: Seq<char>,
    value: ValueM,
    snapshot: Hlc,
) -> bool {
    match coll_pos(db.collections@, collection) {
        None => r is Err && no_collection(r->Err_0, collection),
        Some(i) => match index_named(
            db.collections@[i].secondary_indexes@,
            index_name,
        ) {
            None => r is Err && r->Err_0 is IndexNotFound && (r->Err_0->IndexNotFound_0)@
                == index_name,
            Some(j) => gives_rows(
                r,
                match snapshot_rows(
                    db.collections@[i].raws(),
                    db.versions.model(),
                    collection,
                    snapshot.0,
                    KeyBound::Unbounded,
                    KeyBound::Unbounded,
                ) {
                    Ok(rows) => Ok(
                        rows_equal(
                            rows,
                            db.collections@[i].secondary_indexes@[j].def.field_path@,
                            value,
                        ),
                    ),
                    Err(e) => Err(e),
                },
            ),
        },
    }
}

/// What querying an index for a range at a snapshot gives.
pub open spec fn ranged_at(
    r: Result<Vec<(Uuid, Value)>>,
    db: Database,
    collection: Seq<char>,
    index_name: Seq<char>,
    start: ValueM,
    end: ValueM,
    snapshot: Hlc,
) -> bool {
    match coll_pos(db.collections@, collection) {
        None => r is Err && no_collection(r->Err_0, collection),
        Some(i) => match index_named(
            db.collections@[i].secondary_indexes@,
            index_name,
        ) {
            None => r is Err && r->Err_0 is IndexNotFound && (r->Err_0->IndexNotFound_0)@
                == index_name,
            Some(j) => if sortable(start) is None || sortable(end) is None {
                r is Err && r->Err_0 == GrumpyError::NotIndexable
            } else {
                gives_rows(
                    r,
                    match snapshot_rows(
                        db.collections@[i].raws(),
                        db.versions.model(),
                        collection,
                        snapshot.0,
                        KeyBound::Unbounded,
                        KeyBound::Unbounded,
                    ) {
                        Ok(rows) => Ok(
                            rows_between(
                                rows,
                                db.collections@[i].secondary_indexes@[j].def.field_path@,
                                sortable(start)->0,
                                sortable(end)->0,
                            ),
                        ),
                        Err(e) => Err(e),
                    },
                )
            },
        },
    }
}

impl Database {
    /// Begins a read transaction pinned to the current HLC snapshot.
    pub fn begin_read(&mut self) -> (r: ReadTx)
        requires
            old(self).wf(),
        ensures
            final(self).wf(),
            r.snapshot_hlc == old(self).wal.clock.state,
            final(self).versions.histories == old(self).versions.histories,
            final(self).versions.readers@.to_multiset() == old(
                self).versions.readers@.to_multiset().insert(r.snapshot_hlc),
            *final(self) == (Database { versions: final(self).versions, ..*old(self) }),
    {
        let snapshot_hlc: Hlc = self.current_hlc();
        self.versions.register_reader_snapshot(snapshot_hlc);
        ReadTx { snapshot_hlc }
    }

    /// Ends a read transaction. Versions that no other reader needs go.
    pub fn end_read(&mut self, tx: ReadTx)
        requires
            old(self).wf(),
        ensures
            final(self).wf(),
            final(self).versions.readers@.to_multiset() == old(
                self).versions.readers@.to_multiset().remove(tx.snapshot_hlc),
            final(self).versions.model() == all_pruned(
                old(self).versions.model(),
                oldest(final(self).versions.readers@),
            ),
            *final(self) == (Database { versions: final(self).versions, ..*old(self) }),
    {
        self.versions.unregister_reader_snapshot(tx.snapshot_hlc);
        proof {
            lemma_pruned_committed(
                old(self).versions.model(),
                oldest(self.versions.readers@),
                self.wal.clock.state.0,
            );
        }
    }

    /// Reads one document at a snapshot.
    pub fn snapshot_get(&mut self, collection: &str, key: &Uuid, snapshot: Hlc) -> (r: Result<
        Option<Value>,
    >)
        requires
            old(self).wf(),
        ensures
            final(self).wf(),
            cached_only(*old(self), *final(self)),
            got_at(r, *old(self), collection@, *key, snapshot),
    {
        match self.versions.lookup_snapshot_version(collection, key, snapshot) {
            Some(value) => {
                proof {
                    crate::database::tables::lemma_same_content(self.collections@);
                }
                Ok(value)
            },
            None => self.get(collection, key),
        }
    }

    /// Scans a key range at a snapshot.
    pub fn snapshot_scan(
        &mut self,
        collection: &str,
        start: &KeyBound,
        end: &KeyBound,
        snapshot: Hlc,
    ) -> (r: Result<Vec<(Uuid, Value)>>)
        requires
            old(self).wf(),
        ensures
            final(self).wf(),
            cached_only(*old(self), *final(self)),
            r matches Ok(v) ==> rows_wf(v@),
            scanned_at(r, *old(self), collection@, *start, *end, snapshot),
    {
        let all: Vec<(Uuid, Value)> = match self.scan(
            collection,
            &KeyBound::Unbounded,
            &KeyBound::Unbounded,
        ) {
            Ok(v) => v,
            Err(e) => {
                proof {
                    if coll_pos(old(self).collections@, collection@) is Some {
                        lemma_scan_all(
                            old(self).collections@[coll_pos(
                                old(self).collections@,
                                collection@,
                            )->0].raws(),
                        );
                    }
                }
                return Err(e);
            },
        };
        proof {
            lemma_scan_all(
                old(self).collections@[coll_pos(old(self).collections@, collection@)->0].raws(),
            );
        }
        let mut rows: Vec<(Uuid, Value)> = keep_within(&all, start, end);
        let ghost base = docs_of(rows@);
        let ghost hs = self.versions.model();
        let keys: Vec<Uuid> = self.versions.keys_of(collection);
        let ghost ks = keys_model(keys@);
        let mut i: usize = 0;
        assert(ks.take(0) =~= Seq::<u128>::empty());
        while i < keys.len()
            invariant
                self.versions.wf(),
                hs == self.versions.model(),
                ks == keys_model(keys@),
                i <= keys@.len(),
                rows_wf(rows@),
                docs_of(rows@) == overlaid(
                    base,
                    hs,
                    collection@,
                    ks.take(i as int),
                    snapshot.0,
                    *start,
                    *end,
                ),
            decreases keys@.len() - i,
        {
            proof {
                assert(ks.take(i + 1).drop_last() =~= ks.take(i as int));
                assert(ks.take(i + 1).last() == ks[i as int]);
            }
            let key: Uuid = keys[i];
            if within(&key, start, end) {
                match self.versions.lookup_snapshot_version(collection, &key, snapshot) {
                    Some(v) => {
                        set_row(&mut rows, key, v);
                    },
                    None => {},
                }
            }
            i = i + 1;
        }
        assert(ks.take(i as int) =~= ks);
        Ok(rows)
    }

    /// The field path of an index of a collection.
    fn index_path(&self, collection: &str, index_name: &str) -> (r: Result<String>)
        ensures
            match coll_pos(self.collections@, collection@) {
                None => r is Err && no_collection(r->Err_0, collection@),
                Some(i) => match index_named(
                    self.collections@[i].secondary_indexes@,
                    index_name@,
                ) {
                    None => r is Err && r->Err_0 is IndexNotFound && (r->Err_0->IndexNotFound_0)@
                        == index_name@,
                    Some(j) => r is Ok && r->Ok_0@
                        == self.collections@[i].secondary_indexes@[j].def.field_path@,
                },
            },
    {
        match self.position(collection) {
            Some(i) => match self.collections[i].find_index(index_name) {
                Some(j) => Ok(
                    owned(self.collections[i].secondary_indexes[j].def.field_path.as_str()),
                ),
                None => Err(GrumpyError::IndexNotFound(owned(index_name))),
            },
            None => Err(GrumpyError::CollectionNotFound(owned(collection))),
        }
    }

    /// Queries a secondary index at a snapshot.
    pub fn snapshot_query(
        &mut self,
        collection: &str,
        index_name: &str,
        value: &Value,
        snapshot: Hlc,
    ) -> (r: Result<Vec<(Uuid, Value)>>)
        requires
            old(self).wf(),
        ensures
            final(self).wf(),
            cached_only(*old(self), *final(self)),
            queried_at(r, *old(self), collection@, index_name@, value.model(), snapshot),
    {
        let path: String = match self.index_path(collection, index_name) {
            Ok(p) => p,
            Err(e) => {
                proof {
                    crate::database::tables::lemma_same_content(self.collections@);
                }
                return Err(e);
            },
        };
        match self.snapshot_scan(
            collection,
            &KeyBound::Unbounded,
            &KeyBound::Unbounded,
            snapshot,
        ) {
            Ok(rows) => Ok(keep_equal(&rows, path.as_str(), value)),
            Err(e) => Err(e),
        }
    }

    /// Range-query on a secondary index at a snapshot.
    pub fn snapshot_query_range(
        &mut self,
        collection: &str,
        index_name: &str,
        start: &Value,
        end: &Value,
        snapshot: Hlc,
    ) -> (r: Result<Vec<(Uuid, Value)>>)
        requires
            old(self).wf(),
        ensures
            final(self).wf(),
            cached_only(*old(self), *final(self)),
            ranged_at(r, *old(self), collection@, index_name@, start.model(), end.model(), snapshot),
    {
        proof {
            crate::database::tables::lemma_same_content(self.collections@);
        }
        let path: String = match self.index_path(collection, index_name) {
            Ok(p) => p,
            Err(e) => {
                return Err(e);
            },
        };
        let start_key: Vec<u8> = match encode_sortable_value(start) {
            Ok(b) => b,
            Err(e) => {
                return Err(e);
            },
        };
        let end_key: Vec<u8> = match encode_sortable_value(end) {
            Ok(b) => b,
            Err(e) => {
                return Err(e);
            },
        };
        match self.snapshot_scan(
            collection,
            &KeyBound::Unbounded,
            &KeyBound::Unbounded,
            snapshot,
        ) {
            Ok(rows) => Ok(keep_between(&rows, path.as_str(), &start_key, &end_key)),
            Err(e) => Err(e),
        }
    }
}

proof fn lemma_scan_all(rs: Seq<RawDoc>)
    ensures
        selected(rs, KeyBound::Unbounded, KeyBound::Unbounded) == rs,
    decreases rs.len(),
{
    if rs.len() > 0 {
        lemma_scan_all(rs.drop_last());
        assert(rs.drop_last().push(rs.last()) =~= rs);
    } else {
        assert(rs =~= Seq::<RawDoc>::empty());
    }
}

impl ReadTx {
    /// HLC value representing this read transaction's snapshot point.
    pub fn snapshot_hlc(&self) -> (r: Hlc)
        ensures
            r == self.snapshot_hlc,
    {
        self.snapshot_hlc
    }

    /// Reads one document at the transaction snapshot.
    pub fn get(&self, db: &mut Database, collection: &str, key: &Uuid) -> (r: Result<Option<Value>>)
        requires
            old(db).wf(),
        ensures
            final(db).wf(),
            cached_only(*old(db), *final(db)),
            got_at(r, *old(db), collection@, *key, self.snapshot_hlc),
    {
        db.snapshot_get(collection, key, self.snapshot_hlc)
    }

    /// Scans a key range at the transaction snapshot.
    pub fn scan(
        &self,
        db: &mut Database,
        collection: &str,
        start: &KeyBound,
        end: &KeyBound,
    ) -> (r: Result<Vec<(Uuid, Value)>>)
        requires
            old(db).wf(),
        ensures
            final(db).wf(),
            cached_only(*old(db), *final(db)),
            scanned_at(r, *old(db), collection@, *start, *end, self.snapshot_hlc),
    {
        db.snapshot_scan(collection, start, end, self.snapshot_hlc)
    }

    /// Queries a secondary index at the transaction snapshot.
    pub fn query(
        &self,
        db: &mut Database,
        collection: &str,
        index_name: &str,
        value: &Value,
    ) -> (r: Result<Vec<(Uuid, Value)>>)
        requires
            old(db).wf(),
        ensures
            final(db).wf(),
            cached_only(*old(db), *final(db)),
            queried_at(
                r,
                *old(db),
                collection@,
                index_name@,
                value.model(),
                self.snapshot_hlc,
            ),
    {
        db.snapshot_query(collection, index_name, value, self.snapshot_hlc)
    }

    /// Range-query on a secondary index at the transaction snapshot.
    pub fn query_range(
        &self,
        db: &mut Database,
        collection: &str,
        index_name: &str,
        start: &Value,
        end: &Value,
    ) -> (r: Result<Vec<(Uuid, Value)>>)
        requires
            old(db).wf(),
        ensures
            final(db).wf(),
            cached_only(*old(db), *final(db)),
            ranged_at(
                r,
                *old(db),
                collection@,
                index_name@,
                start.model(),
                end.model(),
                self.snapshot_hlc,
            ),
    {
        db.snapshot_query_range(collection, index_name, start, end, self.snapshot_hlc)
    }
}

/// A read at a snapshot gives the document that the snapshot sees.
pub proof fn law_snapshot_get_reads_the_document(
    r: Result<Option<Value>>,
    db: Database,
    collection: Seq<char>,
    key: Uuid,
    snapshot: Hlc,
)
    requires
        got_at(r, db, collection, key, snapshot),
    ensures
        seen_at(db, collection, key.0, snapshot.0) matches DocRead::Found(m) ==> r is Ok
            && r->Ok_0 is Some && r->Ok_0->0.model() == m,
        seen_at(db, collection, key.0, snapshot.0) is Absent ==> r is Ok && r->Ok_0 is None,
        r is Ok && r->Ok_0 is Some ==> seen_at(db, collection, key.0, snapshot.0)
            == DocRead::Found(r->Ok_0->0.model()),
{
}

} // verus!
