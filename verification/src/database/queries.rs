//! What queries give: the documents whose field has the value, or lies in the
//! range, that was asked for.

use vstd::prelude::*;

use crate::btree::entries::lemma_present;
use crate::btree::node::Entry;
use crate::bytes::{be_bytes, lex_lt};
use crate::collection::indexed::{answered, fetched, index_named, lemma_index_named};
use crate::collection::mirror::{
    in_sync, indexed_key, law_query_finds_documents, lemma_composite, mirrors,
};
use crate::collection::raws::{law_range_of_numbers, raw_lookup, KeyBound, RawDoc};
use crate::collection::Collection;
use crate::database::scanning::{law_scan_agrees_with_get, lemma_push_contains};
use crate::database::snapshot::{
    queried_at, ranged_at, rows_ascend, rows_between, rows_equal, scanned_at, seen_at,
    snapshot_rows, RowsM,
};
use crate::database::tables::{
    coll_pos, doc_read, lemma_table_pos, live_rows, queried, queried_range, DocRead,
};
use crate::database::Database;
use crate::document::doc_parse;
use crate::document::equality::same_value;
use crate::document::value::{Value, ValueM};
use crate::engine::document_at;
use crate::error::Result;
use crate::index::encoding::{
    comes_before, composite, field_at, law_encodings_keep_the_order,
    law_encodings_tell_values_apart, law_what_is_indexed, sortable, uncut,
};
use crate::index::{between_values, docs_of, equals_value, picked, uuid_part};
use crate::uid::Uuid;
use crate::wal::hlc::Hlc;

verus! {

/// A value that can be indexed.
pub open spec fn indexable(m: ValueM) -> bool {
    !(m is Array || m is Object || m is Tombstone || m is Crdt)
}

/// A document has the value `f` in the field that an index of keys up to 160
/// bytes is on, and its key fits.
pub open spec fn has_field(x: ValueM, path: Seq<char>, f: ValueM) -> bool {
    &&& field_at(x, path) == Some(f)
    &&& sortable(f) is Some
    &&& sortable(f)->0.len() + 16 <= 160
}

/// Picked documents stand in the order of their entries.
proof fn lemma_picked_order(es: Seq<Entry>, f: spec_fn(Seq<u8>) -> bool, i: int, j: int)
    requires
        0 <= i < j < picked(es, f).len(),
    ensures
        exists|a: int, b: int|
            #![trigger es[a], es[b]]
            0 <= a < b < es.len() && es[a].0.len() >= 16 && es[b].0.len() >= 16 && uuid_part(
                es[a].0,
            ) == picked(es, f)[i] && uuid_part(es[b].0) == picked(es, f)[j],
    decreases es.len(),
{
    if es.len() > 0 {
        let g = es.drop_last();
        let front = picked(g, f);
        if j < front.len() {
            lemma_picked_order(g, f, i, j);
            let (a, b) = choose|a: int, b: int|
                #![trigger g[a], g[b]]
                0 <= a < b < g.len() && g[a].0.len() >= 16 && g[b].0.len() >= 16 && uuid_part(
                    g[a].0,
                ) == front[i] && uuid_part(g[b].0) == front[j];
            assert(es[a] == g[a] && es[b] == g[b]);
        } else {
            lemma_picked_at(g, f, i);
            let a = choose|a: int|
                0 <= a < g.len() && (#[trigger] g[a]).0.len() >= 16 && uuid_part(g[a].0)
                    == front[i];
            assert(es[a] == g[a]);
            assert(es[es.len() - 1] == es.last());
        }
    }
}

proof fn lemma_picked_at(es: Seq<Entry>, f: spec_fn(Seq<u8>) -> bool, i: int)
    requires
        0 <= i < picked(es, f).len(),
    ensures
        exists|a: int|
            0 <= a < es.len() && (#[trigger] es[a]).0.len() >= 16 && uuid_part(es[a].0) == picked(
                es,
                f,
            )[i],
    decreases es.len(),
{
    if es.len() > 0 {
        let g = es.drop_last();
        let front = picked(g, f);
        if i < front.len() {
            lemma_picked_at(g, f, i);
            let a = choose|a: int|
                0 <= a < g.len() && (#[trigger] g[a]).0.len() >= 16 && uuid_part(g[a].0)
                    == front[i];
            assert(es[a] == g[a]);
        } else {
            assert(es[es.len() - 1] == es.last());
        }
    }
}

/// The documents of keys that all have one.
proof fn lemma_fetched(rs: Seq<RawDoc>, ids: Seq<u128>)
    requires
        forall|i: int|
            0 <= i < ids.len() ==> raw_lookup(rs, be_bytes(#[trigger] ids[i] as nat, 16)) is Some
                && doc_parse(raw_lookup(rs, be_bytes(ids[i] as nat, 16))->0) is Ok,
    ensures
        fetched(rs, ids) is Ok,
        fetched(rs, ids)->Ok_0.len() == ids.len(),
        forall|i: int|
            0 <= i < ids.len() ==> (#[trigger] fetched(rs, ids)->Ok_0[i]) == (
                ids[i],
                (doc_parse(raw_lookup(rs, be_bytes(ids[i] as nat, 16))->0)->Ok_0).1,
            ),
    decreases ids.len(),
{
    if ids.len() > 0 {
        let f = ids.drop_last();
        assert forall|i: int| 0 <= i < f.len() implies raw_lookup(
            rs,
            be_bytes(#[trigger] f[i] as nat, 16),
        ) is Some && doc_parse(raw_lookup(rs, be_bytes(f[i] as nat, 16))->0) is Ok by {
            assert(f[i] == ids[i]);
        }
        lemma_fetched(rs, f);
        assert(ids.last() == ids[ids.len() - 1]);
        let all = fetched(rs, ids)->Ok_0;
        assert forall|i: int| 0 <= i < ids.len() implies (#[trigger] all[i]) == (
            ids[i],
            (doc_parse(raw_lookup(rs, be_bytes(ids[i] as nat, 16))->0)->Ok_0).1,
        ) by {
            if i < f.len() {
                assert(all[i] == fetched(rs, f)->Ok_0[i]);
            }
        }
    }
}

proof fn lemma_all_live(rows: RowsM)
    requires
        forall|i: int| 0 <= i < rows.len() ==> !((#[trigger] rows[i]).1 is Tombstone),
    ensures
        live_rows(rows) == rows,
    decreases rows.len(),
{
    if rows.len() > 0 {
        let f = rows.drop_last();
        assert forall|i: int| 0 <= i < f.len() implies !((#[trigger] f[i]).1 is Tombstone) by {
            assert(f[i] == rows[i]);
        }
        lemma_all_live(f);
        assert(rows.last() == rows[rows.len() - 1]);
        assert(f.push(rows.last()) =~= rows);
    } else {
        assert(live_rows(rows) =~= rows);
    }
}

/// What an index that mirrors the documents picks: the documents whose field it
/// holds with an encoding that was asked for, in the order of their keys.
proof fn lemma_answer(
    es: Seq<Entry>,
    rs: Seq<RawDoc>,
    path: Seq<char>,
    f: spec_fn(Seq<u8>) -> bool,
    k: u128,
    x: ValueM,
)
    requires
        mirrors(es, rs, path, 160),
    ensures
        fetched(rs, picked(es, f)) is Ok,
        ({
            let rows = live_rows(fetched(rs, picked(es, f))->Ok_0);
            &&& rows.contains((k, x)) == (raw_lookup(rs, be_bytes(k as nat, 16)) is Some
                && doc_parse(raw_lookup(rs, be_bytes(k as nat, 16))->0) is Ok && (doc_parse(
                raw_lookup(rs, be_bytes(k as nat, 16))->0,
            )->Ok_0).1 == x && field_at(x, path) is Some && has_field(
                x,
                path,
                field_at(x, path)->0,
            ) && f(sortable(field_at(x, path)->0)->0))
            &&& forall|i: int, j: int|
                0 <= i < j < rows.len() ==> lex_lt(
                    composite(field_at((#[trigger] rows[i]).1, path)->0, rows[i].0)->0,
                    composite(field_at((#[trigger] rows[j]).1, path)->0, rows[j].0)->0,
                )
        }),
{
    let ids = picked(es, f);
    assert forall|i: int| 0 <= i < ids.len() implies raw_lookup(
        rs,
        be_bytes(#[trigger] ids[i] as nat, 16),
    ) is Some && doc_parse(raw_lookup(rs, be_bytes(ids[i] as nat, 16))->0) is Ok && ({
        let m = (doc_parse(raw_lookup(rs, be_bytes(ids[i] as nat, 16))->0)->Ok_0).1;
        field_at(m, path) is Some && indexed_key(
            raw_lookup(rs, be_bytes(ids[i] as nat, 16)),
            path,
            ids[i],
            160,
        ) == composite(field_at(m, path)->0, ids[i]) && composite(
            field_at(m, path)->0,
            ids[i],
        ) is Some
    }) by {
        law_query_finds_documents(es, rs, path, 160, f, ids[i]);
        assert(ids.contains(ids[i]));
    }
    lemma_fetched(rs, ids);
    let rows = fetched(rs, ids)->Ok_0;
    assert forall|i: int| 0 <= i < rows.len() implies !((#[trigger] rows[i]).1 is Tombstone) by {
        assert(raw_lookup(rs, be_bytes(ids[i] as nat, 16)) is Some);
        assert(field_at(rows[i].1, path) is Some);
    }
    lemma_all_live(rows);
    law_query_finds_documents(es, rs, path, 160, f, k);
    if rows.contains((k, x)) {
        let i = choose|i: int| 0 <= i < rows.len() && rows[i] == (k, x);
        assert(ids[i] == k);
        assert(ids.contains(k));
        lemma_composite(field_at(x, path)->0, k);
    }
    if raw_lookup(rs, be_bytes(k as nat, 16)) is Some {
        let b = raw_lookup(rs, be_bytes(k as nat, 16))->0;
        if doc_parse(b) is Ok && (doc_parse(b)->Ok_0).1 == x && field_at(x, path) is Some
            && has_field(x, path, field_at(x, path)->0) && f(
            sortable(field_at(x, path)->0)->0,
        ) {
            lemma_composite(field_at(x, path)->0, k);
            crate::bytes::lemma_be_bytes_len(k as nat, 16);
            assert(ids.contains(k));
            let i = choose|i: int| 0 <= i < ids.len() && ids[i] == k;
            assert(rows[i] == (k, x));
        }
    }
    assert forall|i: int, j: int| 0 <= i < j < rows.len() implies lex_lt(
        composite(field_at((#[trigger] rows[i]).1, path)->0, rows[i].0)->0,
        composite(field_at((#[trigger] rows[j]).1, path)->0, rows[j].0)->0,
    ) by {
        lemma_picked_order(es, f, i, j);
        let (a, b) = choose|a: int, b: int|
            #![trigger es[a], es[b]]
            0 <= a < b < es.len() && es[a].0.len() >= 16 && es[b].0.len() >= 16 && uuid_part(
                es[a].0,
            ) == ids[i] && uuid_part(es[b].0) == ids[j];
        lemma_present(es, es[a].0, a);
        lemma_present(es, es[b].0, b);
        assert(raw_lookup(rs, be_bytes(ids[i] as nat, 16)) is Some);
        assert(raw_lookup(rs, be_bytes(ids[j] as nat, 16)) is Some);
        assert(lex_lt(es[a].0, es[b].0));
    }
}

/// Rows stand in the order of their fields, and those with the same field in
/// the order of their keys.
pub open spec fn by_field(rows: RowsM, path: Seq<char>) -> bool {
    forall|i: int, j: int|
        0 <= i < j < rows.len() ==> lex_lt(
            composite(field_at((#[trigger] rows[i]).1, path)->0, rows[i].0)->0,
            composite(field_at((#[trigger] rows[j]).1, path)->0, rows[j].0)->0,
        )
}

/// A query for a value that can be indexed succeeds and gives exactly the
/// documents that have that value in the field of the index, each once and in
/// order; where values are cut for the index, those that are cut to the same.
pub proof fn law_query_gives_equal_fields(
    db: Database,
    c: Seq<char>,
    i: int,
    name: Seq<char>,
    j: int,
    v: ValueM,
    r: Result<Vec<(Uuid, Value)>>,
    k: u128,
    x: ValueM,
    f: ValueM,
)
    requires
        db.wf(),
        coll_pos(db.collections@, c) == Some(i),
        index_named(db.collections@[i].secondary_indexes@, name) == Some(j),
        db.collections@[i].secondary_indexes@[j].btree.meta.config == 160,
        in_sync(db.collections@[i]),
        queried(r, db.collections@[i], name, v),
    ensures
        r is Ok == indexable(v),
        r is Ok ==> {
            let path = db.collections@[i].secondary_indexes@[j].def.field_path@;
            let rows = docs_of(r->Ok_0@);
            &&& by_field(rows, path)
            &&& rows.contains((k, x)) == (doc_read(db.tables(), c, k) == DocRead::Found(x)
                && field_at(x, path) is Some && has_field(x, path, field_at(x, path)->0)
                && sortable(field_at(x, path)->0) == sortable(v))
            &&& rows.contains((k, x)) && field_at(x, path) == Some(f) && uncut(f) && uncut(v)
                ==> f == v
            &&& doc_read(db.tables(), c, k) == DocRead::Found(x) && has_field(x, path, v)
                ==> rows.contains((k, x))
        },
{
    let coll = db.collections@[i];
    lemma_table_pos(db.collections@, c);
    lemma_index_named(coll.secondary_indexes@, name);
    law_what_is_indexed(v);
    let idx = coll.secondary_indexes@[j];
    let path = idx.def.field_path@;
    assert(mirrors(idx.entries(), coll.raws(), path, 160));
    assert(db.tables()[i].1 == coll.raws());
    if sortable(v) is Some {
        let g = equals_value(sortable(v)->0);
        lemma_answer(idx.entries(), coll.raws(), path, g, k, x);
        if uncut(f) && uncut(v) && sortable(f) == sortable(v) {
            law_encodings_tell_values_apart(f, v);
        }
    }
}

/// A range query succeeds for bounds that can be indexed and gives exactly the
/// documents whose field lies from the start, which counts in, to the end,
/// which does not, in order.
pub proof fn law_range_query_gives_the_range(
    db: Database,
    c: Seq<char>,
    i: int,
    name: Seq<char>,
    j: int,
    start: ValueM,
    end: ValueM,
    r: Result<Vec<(Uuid, Value)>>,
    k: u128,
    x: ValueM,
    f: ValueM,
)
    requires
        db.wf(),
        coll_pos(db.collections@, c) == Some(i),
        index_named(db.collections@[i].secondary_indexes@, name) == Some(j),
        db.collections@[i].secondary_indexes@[j].btree.meta.config == 160,
        in_sync(db.collections@[i]),
        queried_range(r, db.collections@[i], name, start, end),
    ensures
        r is Ok == (indexable(start) && indexable(end)),
        r is Ok ==> {
            let path = db.collections@[i].secondary_indexes@[j].def.field_path@;
            let rows = docs_of(r->Ok_0@);
            &&& by_field(rows, path)
            &&& rows.contains((k, x)) ==> doc_read(db.tables(), c, k) == DocRead::Found(x)
                && field_at(x, path) is Some && indexable(field_at(x, path)->0)
            &&& doc_read(db.tables(), c, k) == DocRead::Found(x) && has_field(x, path, f)
                && uncut(f) && uncut(start) && uncut(end) ==> rows.contains((k, x)) == (
            !comes_before(f, start) && comes_before(f, end))
            &&& doc_read(db.tables(), c, k) == DocRead::Found(x) && has_field(x, path, f)
                && f is Integer && start is Integer && end is Integer ==> rows.contains((k, x)) == (
            start->Integer_0 <= f->Integer_0 < end->Integer_0)
        },
{
    let coll = db.collections@[i];
    lemma_table_pos(db.collections@, c);
    lemma_index_named(coll.secondary_indexes@, name);
    law_what_is_indexed(start);
    law_what_is_indexed(end);
    let idx = coll.secondary_indexes@[j];
    let path = idx.def.field_path@;
    assert(mirrors(idx.entries(), coll.raws(), path, 160));
    assert(db.tables()[i].1 == coll.raws());
    if sortable(start) is Some && sortable(end) is Some {
        let g = between_values(sortable(start)->0, sortable(end)->0);
        lemma_answer(idx.entries(), coll.raws(), path, g, k, x);
        if field_at(x, path) is Some {
            law_what_is_indexed(field_at(x, path)->0);
        }
        if has_field(x, path, f) && uncut(f) && uncut(start) && uncut(end) {
            law_encodings_keep_the_order(f, start);
            law_encodings_keep_the_order(f, end);
        }
    }
}

// ── Snapshots ───────────────────────────────────────────────────────────

proof fn lemma_rows_equal(rows: RowsM, path: Seq<char>, m: ValueM, x: (u128, ValueM))
    ensures
        rows_equal(rows, path, m).contains(x) == (rows.contains(x) && field_at(x.1, path) is Some
            && same_value(field_at(x.1, path)->0, m)),
    decreases rows.len(),
{
    if rows.len() > 0 {
        let f = rows.drop_last();
        lemma_rows_equal(f, path, m, x);
        lemma_push_contains(f, rows.last(), x);
        lemma_push_contains(rows_equal(f, path, m), rows.last(), x);
        assert(rows =~= f.push(rows.last()));
    }
}

proof fn lemma_rows_between(
    rows: RowsM,
    path: Seq<char>,
    s: Seq<u8>,
    e: Seq<u8>,
    x: (u128, ValueM),
)
    ensures
        rows_between(rows, path, s, e).contains(x) == (rows.contains(x) && field_at(x.1, path) is Some
            && sortable(field_at(x.1, path)->0) is Some && !lex_lt(
            sortable(field_at(x.1, path)->0)->0,
            s,
        ) && lex_lt(sortable(field_at(x.1, path)->0)->0, e)),
    decreases rows.len(),
{
    if rows.len() > 0 {
        let f = rows.drop_last();
        lemma_rows_between(f, path, s, e, x);
        lemma_push_contains(f, rows.last(), x);
        lemma_push_contains(rows_between(f, path, s, e), rows.last(), x);
        assert(rows =~= f.push(rows.last()));
    }
}

/// Rows that come from others in their order.
proof fn lemma_filtered_ascend(rows: RowsM, sub: RowsM, last: (u128, ValueM))
    requires
        rows_ascend(rows.push(last)),
        rows_ascend(sub),
        forall|x: (u128, ValueM)| #[trigger] sub.contains(x) ==> rows.contains(x),
    ensures
        rows_ascend(rows),
        rows_ascend(sub.push(last)),
{
    let all = rows.push(last);
    assert forall|i: int, j: int| 0 <= i < j < rows.len() implies (#[trigger] rows[i]).0 < (
    #[trigger] rows[j]).0 by {
        assert(all[i].0 < all[j].0);
    }
    let w = sub.push(last);
    assert forall|i: int, j: int| 0 <= i < j < w.len() implies (#[trigger] w[i]).0 < (
    #[trigger] w[j]).0 by {
        if j < sub.len() {
            assert(sub[i].0 < sub[j].0);
        } else {
            assert(sub.contains(sub[i]));
            let p = choose|p: int| 0 <= p < rows.len() && rows[p] == sub[i];
            assert(all[p].0 < all[rows.len() as int].0);
        }
    }
}

proof fn lemma_equal_ascend(rows: RowsM, path: Seq<char>, m: ValueM)
    requires
        rows_ascend(rows),
    ensures
        rows_ascend(rows_equal(rows, path, m)),
    decreases rows.len(),
{
    if rows.len() > 0 {
        let f = rows.drop_last();
        let sub = rows_equal(f, path, m);
        assert(rows =~= f.push(rows.last()));
        assert(rows_ascend(f)) by {
            assert forall|i: int, j: int| 0 <= i < j < f.len() implies (#[trigger] f[i]).0 < (
            #[trigger] f[j]).0 by {
                assert(rows[i].0 < rows[j].0);
            }
        }
        lemma_equal_ascend(f, path, m);
        assert forall|x: (u128, ValueM)| #[trigger] sub.contains(x) implies f.contains(x) by {
            lemma_rows_equal(f, path, m, x);
        }
        lemma_filtered_ascend(f, sub, rows.last());
    }
}

proof fn lemma_between_ascend(rows: RowsM, path: Seq<char>, s: Seq<u8>, e: Seq<u8>)
    requires
        rows_ascend(rows),
    ensures
        rows_ascend(rows_between(rows, path, s, e)),
    decreases rows.len(),
{
    if rows.len() > 0 {
        let f = rows.drop_last();
        let sub = rows_between(f, path, s, e);
        assert(rows =~= f.push(rows.last()));
        assert(rows_ascend(f)) by {
            assert forall|i: int, j: int| 0 <= i < j < f.len() implies (#[trigger] f[i]).0 < (
            #[trigger] f[j]).0 by {
                assert(rows[i].0 < rows[j].0);
            }
        }
        lemma_between_ascend(f, path, s, e);
        assert forall|x: (u128, ValueM)| #[trigger] sub.contains(x) implies f.contains(x) by {
            lemma_rows_between(f, path, s, e, x);
        }
        lemma_filtered_ascend(f, sub, rows.last());
    }
}

/// A scan at a snapshot gives exactly the documents that the snapshot sees and
/// whose keys lie in the range, ends counted in or out as the bounds say, in
/// ascending order of their keys.
pub proof fn law_snapshot_scan_gives_the_range(
    db: Database,
    c: Seq<char>,
    start: KeyBound,
    end: KeyBound,
    at: Hlc,
    r: Result<Vec<(Uuid, Value)>>,
    k: u128,
    x: ValueM,
)
    requires
        db.wf(),
        coll_pos(db.collections@, c) is Some,
        scanned_at(r, db, c, start, end, at),
        r is Ok,
    ensures
        rows_ascend(docs_of(r->Ok_0@)),
        docs_of(r->Ok_0@).contains((k, x)) == (seen_at(db, c, k, at.0) == DocRead::Found(x)
            && match start {
            KeyBound::Included(s) => s.0 <= k,
            KeyBound::Excluded(s) => s.0 < k,
            KeyBound::Unbounded => true,
        } && match end {
            KeyBound::Included(e) => k <= e.0,
            KeyBound::Excluded(e) => k < e.0,
            KeyBound::Unbounded => true,
        }),
{
    law_range_of_numbers(k, start, end);
    law_scan_agrees_with_get(db, c, at.0, start, end, docs_of(r->Ok_0@), (k, x));
}

/// A query at a snapshot gives exactly the documents that the snapshot sees with
/// an equal value in the field of the index, in ascending order of their keys.
pub proof fn law_snapshot_query_gives_equal_fields(
    db: Database,
    c: Seq<char>,
    i: int,
    name: Seq<char>,
    j: int,
    v: ValueM,
    at: Hlc,
    r: Result<Vec<(Uuid, Value)>>,
    k: u128,
    x: ValueM,
)
    requires
        db.wf(),
        coll_pos(db.collections@, c) == Some(i),
        index_named(db.collections@[i].secondary_indexes@, name) == Some(j),
        queried_at(r, db, c, name, v, at),
        r is Ok,
    ensures
        rows_ascend(docs_of(r->Ok_0@)),
        docs_of(r->Ok_0@).contains((k, x)) == (seen_at(db, c, k, at.0) == DocRead::Found(x)
            && field_at(x, db.collections@[i].secondary_indexes@[j].def.field_path@) is Some
            && same_value(
            field_at(x, db.collections@[i].secondary_indexes@[j].def.field_path@)->0,
            v,
        )),
{
    let path = db.collections@[i].secondary_indexes@[j].def.field_path@;
    let (a, b) = (KeyBound::Unbounded, KeyBound::Unbounded);
    let all = snapshot_rows(
        db.collections@[i].raws(),
        db.versions.model(),
        c,
        at.0,
        a,
        b,
    )->Ok_0;
    law_range_of_numbers(k, a, b);
    law_scan_agrees_with_get(db, c, at.0, a, b, all, (k, x));
    lemma_rows_equal(all, path, v, (k, x));
    lemma_equal_ascend(all, path, v);
}

/// A range query at a snapshot gives exactly the documents that the snapshot
/// sees and whose field lies from the start, which counts in, to the end, which
/// does not, in ascending order of their keys.
pub proof fn law_snapshot_range_query_gives_the_range(
    db: Database,
    c: Seq<char>,
    i: int,
    name: Seq<char>,
    j: int,
    start: ValueM,
    end: ValueM,
    at: Hlc,
    r: Result<Vec<(Uuid, Value)>>,
    k: u128,
    x: ValueM,
    f: ValueM,
)
    requires
        db.wf(),
        coll_pos(db.collections@, c) == Some(i),
        index_named(db.collections@[i].secondary_indexes@, name) == Some(j),
        ranged_at(r, db, c, name, start, end, at),
    ensures
        !indexable(start) || !indexable(end) ==> r is Err,
        r is Ok ==> {
            let path = db.collections@[i].secondary_indexes@[j].def.field_path@;
            let rows = docs_of(r->Ok_0@);
            &&& rows_ascend(rows)
            &&& rows.contains((k, x)) ==> seen_at(db, c, k, at.0) == DocRead::Found(x) && field_at(
                x,
                path,
            ) is Some && indexable(field_at(x, path)->0)
            &&& seen_at(db, c, k, at.0) == DocRead::Found(x) && field_at(x, path) == Some(f)
                && indexable(f) && uncut(f) && uncut(start) && uncut(end) ==> rows.contains((k, x))
                == (!comes_before(f, start) && comes_before(f, end))
            &&& seen_at(db, c, k, at.0) == DocRead::Found(x) && field_at(x, path) == Some(f)
                && f is Integer && start is Integer && end is Integer ==> rows.contains((k, x)) == (
            start->Integer_0 <= f->Integer_0 < end->Integer_0)
        },
{
    let path = db.collections@[i].secondary_indexes@[j].def.field_path@;
    law_what_is_indexed(start);
    law_what_is_indexed(end);
    if r is Ok {
        let (a, b) = (KeyBound::Unbounded, KeyBound::Unbounded);
        let all = snapshot_rows(
            db.collections@[i].raws(),
            db.versions.model(),
            c,
            at.0,
            a,
            b,
        )->Ok_0;
        let (s, e) = (sortable(start)->0, sortable(end)->0);
        law_range_of_numbers(k, a, b);
        law_scan_agrees_with_get(db, c, at.0, a, b, all, (k, x));
        lemma_rows_between(all, path, s, e, (k, x));
        lemma_between_ascend(all, path, s, e);
        if field_at(x, path) is Some {
            law_what_is_indexed(field_at(x, path)->0);
        }
        if field_at(x, path) == Some(f) && indexable(f) && uncut(f) && uncut(start) && uncut(end) {
            law_encodings_keep_the_order(f, start);
            law_encodings_keep_the_order(f, end);
        }
    }
}

/// Where a snapshot sees of a document what a read gives, a range query at the
/// snapshot and one on the database agree on it.
pub proof fn law_range_queries_agree(
    db: Database,
    c: Seq<char>,
    i: int,
    name: Seq<char>,
    j: int,
    start: ValueM,
    end: ValueM,
    at: Hlc,
    r: Result<Vec<(Uuid, Value)>>,
    q: Result<Vec<(Uuid, Value)>>,
    k: u128,
    x: ValueM,
)
    requires
        db.wf(),
        coll_pos(db.collections@, c) == Some(i),
        index_named(db.collections@[i].secondary_indexes@, name) == Some(j),
        db.collections@[i].secondary_indexes@[j].btree.meta.config == 160,
        in_sync(db.collections@[i]),
        ranged_at(r, db, c, name, start, end, at),
        queried_range(q, db.collections@[i], name, start, end),
        r is Ok,
        (seen_at(db, c, k, at.0) == DocRead::Found(x)) == (doc_read(db.tables(), c, k)
            == DocRead::Found(x) && !(x is Tombstone)),
        ({
            let f = field_at(x, db.collections@[i].secondary_indexes@[j].def.field_path@);
            f is Some && indexable(f->0) ==> sortable(f->0)->0.len() + 16 <= 160
        }),
    ensures
        q is Ok,
        docs_of(r->Ok_0@).contains((k, x)) == docs_of(q->Ok_0@).contains((k, x)),
{
    let coll = db.collections@[i];
    let idx = coll.secondary_indexes@[j];
    let path = idx.def.field_path@;
    lemma_table_pos(db.collections@, c);
    lemma_index_named(coll.secondary_indexes@, name);
    assert(mirrors(idx.entries(), coll.raws(), path, 160));
    assert(db.tables()[i].1 == coll.raws());
    let (s, e) = (sortable(start)->0, sortable(end)->0);
    lemma_answer(idx.entries(), coll.raws(), path, between_values(s, e), k, x);
    let (a, b) = (KeyBound::Unbounded, KeyBound::Unbounded);
    let all = snapshot_rows(coll.raws(), db.versions.model(), c, at.0, a, b)->Ok_0;
    law_range_of_numbers(k, a, b);
    law_scan_agrees_with_get(db, c, at.0, a, b, all, (k, x));
    lemma_rows_between(all, path, s, e, (k, x));
    if field_at(x, path) is Some {
        law_what_is_indexed(field_at(x, path)->0);
    }
}

// ── Collections ─────────────────────────────────────────────────────────

/// A query on a collection with frames gives exactly the documents that the
/// index holds with an encoding that was asked for, each once and in order.
pub proof fn law_collection_query_gives_the_documents(
    c: Collection,
    j: int,
    f: spec_fn(Seq<u8>) -> bool,
    r: Result<Vec<(Uuid, Value)>>,
    k: u128,
    x: ValueM,
)
    requires
        in_sync(c),
        0 <= j < c.secondary_indexes@.len(),
        c.secondary_indexes@[j].btree.meta.config == 160,
        answered(r, c.raws(), picked(c.secondary_indexes@[j].entries(), f), true),
    ensures
        r is Ok,
        ({
            let path = c.secondary_indexes@[j].def.field_path@;
            let rows = docs_of(r->Ok_0@);
            &&& by_field(rows, path)
            &&& rows.contains((k, x)) == (document_at(c.raws(), k) == Some(x) && field_at(
                x,
                path,
            ) is Some && has_field(x, path, field_at(x, path)->0) && f(
                sortable(field_at(x, path)->0)->0,
            ))
        }),
{
    let idx = c.secondary_indexes@[j];
    let path = idx.def.field_path@;
    assert(mirrors(idx.entries(), c.raws(), path, 160));
    lemma_answer(idx.entries(), c.raws(), path, f, k, x);
    let rows = fetched(c.raws(), picked(idx.entries(), f))->Ok_0;
    lemma_answer_live(idx.entries(), c.raws(), path, f);
}

/// Documents with a field are no tombstones.
proof fn lemma_answer_live(
    es: Seq<Entry>,
    rs: Seq<RawDoc>,
    path: Seq<char>,
    f: spec_fn(Seq<u8>) -> bool,
)
    requires
        mirrors(es, rs, path, 160),
    ensures
        fetched(rs, picked(es, f)) is Ok,
        live_rows(fetched(rs, picked(es, f))->Ok_0) == fetched(rs, picked(es, f))->Ok_0,
{
    let ids = picked(es, f);
    assert forall|i: int| 0 <= i < ids.len() implies raw_lookup(
        rs,
        be_bytes(#[trigger] ids[i] as nat, 16),
    ) is Some && doc_parse(raw_lookup(rs, be_bytes(ids[i] as nat, 16))->0) is Ok && field_at(
        (doc_parse(raw_lookup(rs, be_bytes(ids[i] as nat, 16))->0)->Ok_0).1,
        path,
    ) is Some by {
        law_query_finds_documents(es, rs, path, 160, f, ids[i]);
        assert(ids.contains(ids[i]));
    }
    lemma_fetched(rs, ids);
    let rows = fetched(rs, ids)->Ok_0;
    assert forall|i: int| 0 <= i < rows.len() implies !((#[trigger] rows[i]).1 is Tombstone) by {
        assert(raw_lookup(rs, be_bytes(ids[i] as nat, 16)) is Some);
        assert(field_at(rows[i].1, path) is Some);
    }
    lemma_all_live(rows);
}

} // verus!
