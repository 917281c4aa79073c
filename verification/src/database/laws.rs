//! What a user of a database can rely on: how reads, scans and queries relate
//! to what was written.

use vstd::prelude::*;

use crate::bytes::{be_bytes, lemma_le_bytes_len};
use crate::collection::indexed::{compacted, decoded_rows, live_docs};
use crate::collection::mirror::{
    in_sync, law_compaction_keeps_documents, law_insert_keeps_indexes, law_update_keeps_indexes,
    lemma_plain_keys, plain_keys,
};
use crate::collection::raws::{
    keys_ascend, law_selected_documents, law_stored_under_a_key, raw_lookup, selected, with_raw,
    without_raw, KeyBound, RawDoc,
};
use crate::collection::store::PageWriteRecord;
use crate::collection::{
    law_keys_ascend, law_read_after_delete, law_read_after_insert, Collection,
};
use crate::database::scanning::{
    lemma_decoded, lemma_decoded_ascend, lemma_live_rows, stored_as,
};
use crate::database::snapshot::{
    lemma_other_documents, lemma_same_names, lemma_table_named, rows_ascend, seen_at,
};
use crate::database::tables::{
    coll_pos, doc_read, gets, lemma_table_pos, live_rows, rows_read, table_pos, DocRead, TableM,
};
use crate::database::versions::{
    all_pruned, history, law_dropped_histories, law_pruning_gives_up_versions, lemma_all_pruned,
    lemma_history_committed, lemma_visible_last, lemma_with_baseline, lemma_with_version, oldest,
    shown, with_baseline, with_version, without_collection, HistoryM, VersionM,
};
use crate::database::{
    cached_only, counted, exchanged, indexes_took, inserted, other_indexes_same, refused, replaced,
    tombstone, Database,
};
use crate::document::codec::encodable;
use crate::document::value::{Value, ValueM};
use crate::document::{doc_image, doc_parse, law_document_round_trip};
use crate::error::Result;
use crate::index::docs_of;
use crate::uid::Uuid;
use crate::wal::hlc::Hlc;
use crate::wal::vclock::{
    clock_entries_image, clock_image, clock_parse, law_clock_round_trip, VClockError,
};

verus! {

// ── Reading after writing ───────────────────────────────────────────────

/// A document is found in the table of its collection.
proof fn lemma_read_at(db: Database, c: Seq<char>, id: u128)
    requires
        coll_pos(db.collections@, c) is Some,
    ensures
        ({
            let rs = db.collections@[coll_pos(db.collections@, c)->0].raws();
            doc_read(db.tables(), c, id) == (match raw_lookup(rs, be_bytes(id as nat, 16)) {
                None => DocRead::Absent,
                Some(raw) => match doc_parse(raw) {
                    Ok((_, m)) => DocRead::Found(m),
                    Err(e) => DocRead::Unreadable(e),
                },
            })
        }),
{
    lemma_table_pos(db.collections@, c);
}

/// After an insertion the document is read as it was given; every other
/// document is read as before.
pub proof fn law_get_after_insert(
    a: Database,
    b: Database,
    c: Seq<char>,
    key: Uuid,
    m: ValueM,
    recs: Seq<PageWriteRecord>,
    h: Hlc,
    d: Seq<char>,
    q: u128,
)
    requires
        a.wf(),
        encodable(m, 0),
        doc_read(a.tables(), c, key.0) is Absent,
        inserted(a, b, c, key, m, recs, h),
    ensures
        doc_read(b.tables(), c, key.0) == DocRead::Found(m),
        d != c || q != key.0 ==> doc_read(b.tables(), d, q) == doc_read(a.tables(), d, q),
{
    lemma_table_pos(a.collections@, c);
    let i = coll_pos(a.collections@, c)->0;
    let rs = a.collections@[i].raws();
    let k = key.spec_bytes();
    law_keys_ascend(a.collections@[i]);
    law_document_round_trip(key.0, m);
    law_read_after_insert(rs, k, doc_image(key.0, m), be_bytes(q as nat, 16));
    lemma_replaced(a.tables(), i, with_raw(rs, k, doc_image(key.0, m)), key, d, q);
}

/// After an update the document is read as it was given; every other document
/// is read as before.
pub proof fn law_get_after_update(
    a: Database,
    b: Database,
    c: Seq<char>,
    key: Uuid,
    old_m: ValueM,
    new_m: ValueM,
    version: Option<ValueM>,
    recs: Seq<PageWriteRecord>,
    h: Hlc,
    d: Seq<char>,
    q: u128,
)
    requires
        a.wf(),
        encodable(new_m, 0),
        doc_read(a.tables(), c, key.0) == DocRead::Found(old_m),
        exchanged(a, b, c, key, old_m, new_m, version, recs, h),
    ensures
        doc_read(b.tables(), c, key.0) == DocRead::Found(new_m),
        d != c || q != key.0 ==> doc_read(b.tables(), d, q) == doc_read(a.tables(), d, q),
{
    lemma_table_pos(a.collections@, c);
    let i = coll_pos(a.collections@, c)->0;
    let rs = a.collections@[i].raws();
    let k = key.spec_bytes();
    let gone = without_raw(rs, k);
    let image = doc_image(key.0, new_m);
    law_keys_ascend(a.collections@[i]);
    law_document_round_trip(key.0, new_m);
    law_read_after_delete(rs, k, be_bytes(q as nat, 16));
    law_read_after_insert(gone, k, image, be_bytes(q as nat, 16));
    lemma_replaced(a.tables(), i, with_raw(gone, k, image), key, d, q);
}

/// After a deletion there is no document to read; every other document is read
/// as before.
pub proof fn law_get_after_delete(
    a: Database,
    b: Database,
    c: Seq<char>,
    key: Uuid,
    old_m: ValueM,
    node: u128,
    at: Hlc,
    recs: Seq<PageWriteRecord>,
    h: Hlc,
    r: Result<Option<Value>>,
    d: Seq<char>,
    q: u128,
)
    requires
        a.wf(),
        doc_read(a.tables(), c, key.0) == DocRead::Found(old_m),
        exchanged(a, b, c, key, old_m, tombstone(node, at), None, recs, h),
        gets(r, b.tables(), c, key.0),
    ensures
        r is Ok,
        r->Ok_0 is None,
        d != c || q != key.0 ==> doc_read(b.tables(), d, q) == doc_read(a.tables(), d, q),
{
    lemma_tombstone_encodable(node, at);
    law_get_after_update(a, b, c, key, old_m, tombstone(node, at), None, recs, h, d, q);
}

proof fn lemma_tombstone_encodable(node: u128, at: Hlc)
    ensures
        encodable(tombstone(node, at), 0),
{
    let es = seq![(node, at.0)];
    reveal_with_fuel(clock_entries_image, 2);
    lemma_le_bytes_len(1, 2);
    lemma_le_bytes_len(node as nat, 16);
    lemma_le_bytes_len(at.0 as nat, 8);
    assert(clock_image(es).len() <= 26);
}

/// Reading gives the document that is stored, and nothing for a key without
/// one.
pub proof fn law_get_reads_the_document(
    r: Result<Option<Value>>,
    ts: Seq<TableM>,
    c: Seq<char>,
    id: u128,
    m: ValueM,
)
    requires
        gets(r, ts, c, id),
    ensures
        doc_read(ts, c, id) == DocRead::Found(m) && !(m is Tombstone) ==> r is Ok && r->Ok_0 is Some
            && r->Ok_0->0.model() == m,
        doc_read(ts, c, id) is Absent ==> r is Ok && r->Ok_0 is None,
        doc_read(ts, c, id) is NoCollection ==> r is Err && r->Err_0 is CollectionNotFound,
        r is Ok && r->Ok_0 is Some ==> doc_read(ts, c, id) == DocRead::Found(r->Ok_0->0.model()),
{
}

/// One table has other documents under the same name.
proof fn lemma_replaced(
    ts: Seq<TableM>,
    i: int,
    rs: Seq<RawDoc>,
    key: Uuid,
    d: Seq<char>,
    q: u128,
)
    requires
        0 <= i < ts.len(),
        table_pos(ts, ts[i].0) == Some(i),
        be_bytes(q as nat, 16) != key.spec_bytes() ==> raw_lookup(rs, be_bytes(q as nat, 16))
            == raw_lookup(ts[i].1, be_bytes(q as nat, 16)),
    ensures
        table_pos(ts.update(i, (ts[i].0, rs)), ts[i].0) == Some(i),
        d != ts[i].0 || q != key.0 ==> doc_read(ts.update(i, (ts[i].0, rs)), d, q) == doc_read(
            ts,
            d,
            q,
        ),
{
    let us = ts.update(i, (ts[i].0, rs));
    lemma_same_names(ts, us, ts[i].0);
    crate::uid::lemma_uuid_bytes_injective(Uuid(q), key);
    assert(Uuid(q).spec_bytes() == be_bytes(q as nat, 16));
    if d != ts[i].0 || q != key.0 {
        lemma_other_documents(ts, i, rs, key.spec_bytes(), d, q);
    }
}

/// Compaction keeps every document that was not deleted, whatever it holds, and
/// gives up every one that was; it counts what is left and touches no other
/// collection.
pub proof fn law_get_after_compact(
    a: Database,
    b: Database,
    c: Seq<char>,
    i: int,
    n: u64,
    d: Seq<char>,
    q: u128,
    m: ValueM,
)
    requires
        a.wf(),
        coll_pos(a.collections@, c) == Some(i),
        b.tables() == a.tables().update(i, (c, b.collections@[i].raws())),
        compacted(a.collections@[i], b.collections@[i], Ok(n), true),
    ensures
        n == b.collections@[i].raws().len(),
        doc_read(a.tables(), d, q) == DocRead::Found(m) && !(m is Tombstone) ==> doc_read(
            b.tables(),
            d,
            q,
        ) == DocRead::Found(m),
        doc_read(a.tables(), c, q) == DocRead::Found(m) && m is Tombstone ==> doc_read(
            b.tables(),
            c,
            q,
        ) is Absent,
        doc_read(a.tables(), d, q) is Absent ==> doc_read(b.tables(), d, q) is Absent,
        doc_read(a.tables(), d, q) is Unreadable ==> doc_read(b.tables(), d, q) == doc_read(
            a.tables(),
            d,
            q,
        ),
        doc_read(a.tables(), d, q) is NoCollection ==> doc_read(b.tables(), d, q) is NoCollection,
        d != c ==> doc_read(b.tables(), d, q) == doc_read(a.tables(), d, q),
{
    lemma_table_pos(a.collections@, c);
    let ts = a.tables();
    let rs = a.collections@[i].raws();
    law_keys_ascend(a.collections@[i]);
    law_compaction_keeps_documents(rs, be_bytes(q as nat, 16));
    lemma_same_names(ts, b.tables(), d);
    lemma_same_names(ts, b.tables(), c);
    lemma_table_named(ts, d);
    assert(b.collections@[i].raws() == live_docs(rs));
}

/// A scan gives exactly the documents whose keys lie in the range, ends counted
/// in or out as the bounds say, in ascending order of their keys: those that a
/// read would give.
pub proof fn law_scan_gives_the_range(
    db: Database,
    c: Seq<char>,
    start: KeyBound,
    end: KeyBound,
    r: Result<Vec<(Uuid, Value)>>,
    k: u128,
    m: ValueM,
)
    requires
        db.wf(),
        coll_pos(db.collections@, c) is Some,
        rows_read(
            r,
            selected(db.collections@[coll_pos(db.collections@, c)->0].raws(), start, end),
        ),
        r is Ok,
    ensures
        forall|i: int, j: int|
            0 <= i < j < r->Ok_0@.len() ==> ((#[trigger] r->Ok_0@[i]).0).0 < ((
            #[trigger] r->Ok_0@[j]).0).0,
        docs_of(r->Ok_0@).contains((k, m)) == (doc_read(db.tables(), c, k) == DocRead::Found(m)
            && !(m is Tombstone) && match start {
            KeyBound::Included(s) => s.0 <= k,
            KeyBound::Excluded(s) => s.0 < k,
            KeyBound::Unbounded => true,
        } && match end {
            KeyBound::Included(e) => k <= e.0,
            KeyBound::Excluded(e) => k < e.0,
            KeyBound::Unbounded => true,
        }),
{
    let coll = db.collections@[coll_pos(db.collections@, c)->0];
    lemma_table_pos(db.collections@, c);
    lemma_read_at(db, c, k);
    law_keys_ascend(coll);
    lemma_plain_keys(coll);
    lemma_selected_rows(coll.raws(), start, end, k, m);
    let all = decoded_rows(selected(coll.raws(), start, end))->Ok_0;
    lemma_live_rows(all);
    let rows = docs_of(r->Ok_0@);
    assert(rows == live_rows(all));
    assert(rows.contains((k, m)) == (all.contains((k, m)) && !(m is Tombstone)));
    assert forall|i: int, j: int| 0 <= i < j < r->Ok_0@.len() implies ((
    #[trigger] r->Ok_0@[i]).0).0 < ((#[trigger] r->Ok_0@[j]).0).0 by {
        assert(rows[i].0 < rows[j].0);
    }
}

/// The documents of a range read as the rows whose keys lie in it.
pub proof fn lemma_selected_rows(
    rs: Seq<RawDoc>,
    start: KeyBound,
    end: KeyBound,
    k: u128,
    m: ValueM,
)
    requires
        keys_ascend(rs),
        plain_keys(rs),
        decoded_rows(selected(rs, start, end)) is Ok,
    ensures
        ({
            let all = decoded_rows(selected(rs, start, end))->Ok_0;
            &&& rows_ascend(all)
            &&& all.contains((k, m)) == (stored_as(rs, (k, m)) && match start {
                KeyBound::Included(s) => s.0 <= k,
                KeyBound::Excluded(s) => s.0 < k,
                KeyBound::Unbounded => true,
            } && match end {
                KeyBound::Included(e) => k <= e.0,
                KeyBound::Excluded(e) => k < e.0,
                KeyBound::Unbounded => true,
            })
        }),
{
    let kb = be_bytes(k as nat, 16);
    let sub = selected(rs, start, end);
    lemma_selected_plain(rs, start, end);
    law_selected_documents(rs, start, end, k, Seq::empty());
    let all = decoded_rows(sub)->Ok_0;
    lemma_decoded_ascend(sub, all);
    lemma_decoded(sub, all, (k, m));
    if raw_lookup(sub, kb) is Some {
        let b = raw_lookup(sub, kb)->0;
        law_selected_documents(rs, start, end, k, b);
        law_stored_under_a_key(sub, kb, b);
        law_stored_under_a_key(rs, kb, b);
    }
    if raw_lookup(rs, kb) is Some {
        let b = raw_lookup(rs, kb)->0;
        law_selected_documents(rs, start, end, k, b);
        law_stored_under_a_key(sub, kb, b);
        law_stored_under_a_key(rs, kb, b);
    }
}

proof fn lemma_selected_plain(rs: Seq<RawDoc>, start: KeyBound, end: KeyBound)
    requires
        plain_keys(rs),
    ensures
        plain_keys(selected(rs, start, end)),
    decreases rs.len(),
{
    if rs.len() > 0 {
        let f = rs.drop_last();
        assert forall|i: int| 0 <= i < f.len() implies (#[trigger] f[i]).0.len() == 16 by {
            assert(f[i] == rs[i]);
        }
        lemma_selected_plain(f, start, end);
        assert(rs.last() == rs[rs.len() - 1]);
    }
}

// ── New snapshots ───────────────────────────────────────────────────────

/// What a read gives of a document, for which a tombstone stands for none.
pub open spec fn live_read(ts: Seq<TableM>, c: Seq<char>, id: u128) -> DocRead {
    match doc_read(ts, c, id) {
        DocRead::Found(m) => if m is Tombstone {
            DocRead::Absent
        } else {
            DocRead::Found(m)
        },
        other => other,
    }
}

/// The last version of a document is what a read gives of it.
pub open spec fn ends_with(v: Option<ValueM>, ts: Seq<TableM>, c: Seq<char>, id: u128) -> bool {
    match v {
        Some(m) => live_read(ts, c, id) == DocRead::Found(m),
        None => live_read(ts, c, id) is Absent,
    }
}

/// Every history ends with what a read gives of its document.
pub open spec fn histories_agree(db: Database) -> bool {
    forall|c: Seq<char>, k: u128|
        (#[trigger] history(db.versions.model(), c, k)) is Some ==> history(
            db.versions.model(),
            c,
            k,
        )->0.len() > 0 && ends_with(
            history(db.versions.model(), c, k)->0.last().1,
            db.tables(),
            c,
            k,
        )
}

/// A snapshot that is taken now sees of every document what a read gives.
pub proof fn law_new_snapshot_sees_what_is_read(db: Database, c: Seq<char>, k: u128)
    requires
        db.wf(),
        histories_agree(db),
    ensures
        seen_at(db, c, k, db.wal.clock.state.0) == live_read(db.tables(), c, k),
{
    let hs = db.versions.model();
    if history(hs, c, k) is Some {
        lemma_history_committed(hs, db.wal.clock.state.0, c, k);
        lemma_visible_last(history(hs, c, k)->0, db.wal.clock.state.0);
    }
}

/// Histories after a version was added and what no reader needs was given up.
proof fn lemma_version_ends(
    hs: Seq<HistoryM>,
    w: Option<u64>,
    c: Seq<char>,
    k: u128,
    v: VersionM,
    d: Seq<char>,
    q: u128,
)
    requires
        history(hs, d, q) is Some ==> history(hs, d, q)->0.len() > 0,
    ensures
        ({
            let after = history(all_pruned(with_version(hs, c, k, v), w), d, q);
            &&& d == c && q == k ==> after is Some && after->0.len() > 0 && after->0.last() == v
            &&& d != c || q != k ==> (after is Some) == (history(hs, d, q) is Some) && (
            after is Some ==> after->0.len() > 0 && after->0.last() == history(
                hs,
                d,
                q,
            )->0.last())
        }),
{
    lemma_with_version(hs, c, k, v, d, q);
    lemma_all_pruned(with_version(hs, c, k, v), w, d, q);
    if history(with_version(hs, c, k, v), d, q) is Some {
        let vs = history(with_version(hs, c, k, v), d, q)->0;
        law_pruning_gives_up_versions(vs, match w {
            Some(x) => x,
            None => 0,
        });
    }
}

/// An insertion keeps the histories in agreement with what is read.
pub proof fn law_insert_keeps_agreement(
    a: Database,
    b: Database,
    c: Seq<char>,
    key: Uuid,
    m: ValueM,
    recs: Seq<PageWriteRecord>,
    h: Hlc,
)
    requires
        a.wf(),
        histories_agree(a),
        encodable(m, 0),
        doc_read(a.tables(), c, key.0) is Absent,
        inserted(a, b, c, key, m, recs, h),
    ensures
        histories_agree(b),
{
    let hs = a.versions.model();
    assert forall|d: Seq<char>, q: u128|
        (#[trigger] history(b.versions.model(), d, q)) is Some implies history(
        b.versions.model(),
        d,
        q,
    )->0.len() > 0 && ends_with(
        history(b.versions.model(), d, q)->0.last().1,
        b.tables(),
        d,
        q,
    ) by {
        assert(history(hs, d, q) is Some ==> history(hs, d, q)->0.len() > 0);
        lemma_version_ends(
            hs,
            oldest(a.versions.readers@),
            c,
            key.0,
            (h.0, shown(Some(m))),
            d,
            q,
        );
        law_get_after_insert(a, b, c, key, m, recs, h, d, q);
    }
}

/// An update keeps the histories in agreement with what is read, and so does a
/// deletion.
pub proof fn law_update_keeps_agreement(
    a: Database,
    b: Database,
    c: Seq<char>,
    key: Uuid,
    old_m: ValueM,
    new_m: ValueM,
    version: Option<ValueM>,
    recs: Seq<PageWriteRecord>,
    h: Hlc,
)
    requires
        a.wf(),
        histories_agree(a),
        encodable(new_m, 0),
        version == Some(new_m) || (version is None && new_m is Tombstone),
        doc_read(a.tables(), c, key.0) == DocRead::Found(old_m),
        exchanged(a, b, c, key, old_m, new_m, version, recs, h),
    ensures
        histories_agree(b),
{
    let hs = a.versions.model();
    let at = a.wal.clock.state.0;
    let base: VersionM = (0, shown(Some(old_m)));
    let gs = with_baseline(hs, c, key.0, base);
    assert forall|d: Seq<char>, q: u128|
        (#[trigger] history(b.versions.model(), d, q)) is Some implies history(
        b.versions.model(),
        d,
        q,
    )->0.len() > 0 && ends_with(
        history(b.versions.model(), d, q)->0.last().1,
        b.tables(),
        d,
        q,
    ) by {
        assert(history(hs, d, q) is Some ==> history(hs, d, q)->0.len() > 0);
        lemma_with_baseline(hs, at, c, key.0, base, d, q);
        lemma_version_ends(
            gs,
            oldest(a.versions.readers@),
            c,
            key.0,
            (h.0, shown(version)),
            d,
            q,
        );
        law_get_after_update(a, b, c, key, old_m, new_m, version, recs, h, d, q);
    }
}

/// The end of a read transaction keeps the histories in agreement with what is
/// read.
pub proof fn law_end_read_keeps_agreement(a: Database, b: Database, w: Option<u64>)
    requires
        histories_agree(a),
        b.collections == a.collections,
        b.versions.model() == all_pruned(a.versions.model(), w),
    ensures
        histories_agree(b),
{
    let hs = a.versions.model();
    assert forall|d: Seq<char>, q: u128|
        (#[trigger] history(b.versions.model(), d, q)) is Some implies history(
        b.versions.model(),
        d,
        q,
    )->0.len() > 0 && ends_with(
        history(b.versions.model(), d, q)->0.last().1,
        b.tables(),
        d,
        q,
    ) by {
        lemma_all_pruned(hs, w, d, q);
        law_pruning_gives_up_versions(history(hs, d, q)->0, match w {
            Some(x) => x,
            None => 0,
        });
    }
}

// ── Collections ─────────────────────────────────────────────────────────

/// The names of tables differ.
pub open spec fn names_differ(ts: Seq<TableM>) -> bool {
    forall|i: int, j: int| 0 <= i < j < ts.len() ==> (#[trigger] ts[i]).0 != (#[trigger] ts[j]).0
}

proof fn lemma_names_differ(db: Database)
    requires
        db.wf(),
    ensures
        names_differ(db.tables()),
{
    let cs = db.collections@;
    assert forall|i: int, j: int| 0 <= i < j < db.tables().len() implies (
    #[trigger] db.tables()[i]).0 != (#[trigger] db.tables()[j]).0 by {
        assert(crate::text::text_lt(cs[i].name@, cs[j].name@));
        crate::document::value::lemma_text_order(cs[i].name@, cs[i].name@, cs[i].name@);
    }
}

/// A table is found under its name.
proof fn lemma_table_at(ts: Seq<TableM>, i: int)
    requires
        names_differ(ts),
        0 <= i < ts.len(),
    ensures
        table_pos(ts, ts[i].0) == Some(i),
    decreases ts.len(),
{
    let f = ts.drop_last();
    lemma_table_named(f, ts[i].0);
    if i < f.len() {
        assert(f[i] == ts[i]);
        assert(names_differ(f)) by {
            assert forall|x: int, y: int| 0 <= x < y < f.len() implies (#[trigger] f[x]).0 != (
            #[trigger] f[y]).0 by {
                assert(ts[x].0 != ts[y].0);
            }
        }
        lemma_table_at(f, i);
    } else if table_pos(f, ts[i].0) is Some {
        let j = table_pos(f, ts[i].0)->0;
        assert(f[j] == ts[j]);
        assert(ts[j].0 != ts[i].0);
    }
}

proof fn lemma_table_missing(ts: Seq<TableM>, name: Seq<char>)
    ensures
        table_pos(ts, name) is None == (forall|i: int|
            0 <= i < ts.len() ==> (#[trigger] ts[i]).0 != name),
    decreases ts.len(),
{
    if ts.len() > 0 {
        let f = ts.drop_last();
        lemma_table_missing(f, name);
        assert(ts[ts.len() - 1] == ts.last());
        if table_pos(ts, name) is None {
            assert forall|i: int| 0 <= i < ts.len() implies (#[trigger] ts[i]).0 != name by {
                if i < f.len() {
                    assert(f[i] == ts[i]);
                }
            }
        } else if table_pos(f, name) is Some {
            lemma_table_named(f, name);
            let j = table_pos(f, name)->0;
            assert(ts[j] == f[j]);
        }
    }
}

/// A new collection has no documents, and the others keep theirs.
pub proof fn law_new_collection_is_empty(
    a: Database,
    b: Database,
    name: Seq<char>,
    p: int,
    d: Seq<char>,
    q: u128,
)
    requires
        a.wf(),
        b.wf(),
        coll_pos(a.collections@, name) is None,
        0 <= p <= a.tables().len(),
        b.tables() == a.tables().insert(p, (name, Seq::empty())),
    ensures
        doc_read(b.tables(), name, q) is Absent,
        d != name ==> doc_read(b.tables(), d, q) == doc_read(a.tables(), d, q),
{
    let (ts, us) = (a.tables(), b.tables());
    lemma_table_pos(a.collections@, name);
    lemma_names_differ(b);
    lemma_names_differ(a);
    assert(us[p] == (name, Seq::<RawDoc>::empty()));
    lemma_table_at(us, p);
    if d != name {
        lemma_table_named(ts, d);
        lemma_table_missing(ts, d);
        lemma_table_missing(us, d);
        if table_pos(ts, d) is Some {
            let i = table_pos(ts, d)->0;
            let j = if i < p {
                i
            } else {
                i + 1
            };
            assert(us[j] == ts[i]);
            lemma_table_at(us, j);
        } else {
            assert forall|j: int| 0 <= j < us.len() implies (#[trigger] us[j]).0 != d by {
                if j != p {
                    let i = if j < p {
                        j
                    } else {
                        j - 1
                    };
                    assert(us[j] == ts[i]);
                }
            }
        }
    }
}

/// A collection that was dropped is gone with its documents and their
/// histories; the others keep theirs.
pub proof fn law_dropped_collection_is_gone(
    a: Database,
    b: Database,
    name: Seq<char>,
    p: int,
    d: Seq<char>,
    q: u128,
)
    requires
        a.wf(),
        b.wf(),
        coll_pos(a.collections@, name) == Some(p),
        b.tables() == a.tables().remove(p),
        b.versions.model() == without_collection(a.versions.model(), name),
    ensures
        doc_read(b.tables(), name, q) is NoCollection,
        history(b.versions.model(), name, q) is None,
        d != name ==> doc_read(b.tables(), d, q) == doc_read(a.tables(), d, q),
        d != name ==> history(b.versions.model(), d, q) == history(a.versions.model(), d, q),
{
    let (ts, us) = (a.tables(), b.tables());
    lemma_table_pos(a.collections@, name);
    lemma_names_differ(a);
    lemma_names_differ(b);
    law_dropped_histories(a.versions.model(), name, name, q);
    law_dropped_histories(a.versions.model(), name, d, q);
    lemma_table_missing(us, name);
    lemma_table_missing(us, d);
    assert forall|j: int| 0 <= j < us.len() implies (#[trigger] us[j]).0 != name by {
        let i = if j < p {
            j
        } else {
            j + 1
        };
        assert(us[j] == ts[i]);
        assert(ts[p].0 == name);
        assert(ts[i].0 != ts[p].0);
    }
    if d != name {
        lemma_table_named(ts, d);
        lemma_table_missing(ts, d);
        if table_pos(ts, d) is Some {
            let i = table_pos(ts, d)->0;
            let j = if i < p {
                i
            } else {
                i - 1
            };
            assert(us[j] == ts[i]);
            lemma_table_at(us, j);
        } else {
            assert forall|j: int| 0 <= j < us.len() implies (#[trigger] us[j]).0 != d by {
                let i = if j < p {
                    j
                } else {
                    j + 1
                };
                assert(us[j] == ts[i]);
            }
        }
    }
}

/// Compaction keeps the histories in agreement with what is read.
pub proof fn law_compact_keeps_agreement(a: Database, b: Database, c: Seq<char>, i: int, n: u64)
    requires
        a.wf(),
        histories_agree(a),
        b.versions == a.versions,
        coll_pos(a.collections@, c) == Some(i),
        b.tables() == a.tables().update(i, (c, b.collections@[i].raws())),
        compacted(a.collections@[i], b.collections@[i], Ok(n), true),
    ensures
        histories_agree(b),
{
    assert forall|d: Seq<char>, q: u128|
        (#[trigger] history(b.versions.model(), d, q)) is Some implies history(
        b.versions.model(),
        d,
        q,
    )->0.len() > 0 && ends_with(
        history(b.versions.model(), d, q)->0.last().1,
        b.tables(),
        d,
        q,
    ) by {
        let m = match doc_read(a.tables(), d, q) {
            DocRead::Found(m) => m,
            _ => ValueM::Null,
        };
        assert(ends_with(history(a.versions.model(), d, q)->0.last().1, a.tables(), d, q));
        law_get_after_compact(a, b, c, i, n, d, q, m);
    }
}

// ── Writes ──────────────────────────────────────────────────────────────

/// Every hundredth write ends with a checkpoint.
pub proof fn law_checkpoint_every_hundred_writes(writes: u32)
    requires
        writes < 100,
    ensures
        counted(writes) == (if writes == 99 {
            0
        } else {
            writes + 1
        }),
{
}

/// A tombstone holds the time of the deletion and the node that deleted.
pub proof fn law_tombstones_hold_the_deletion(node: u128, at: Hlc)
    ensures
        tombstone(node, at) matches ValueM::Tombstone { deleted_at_hlc, vector_clock }
            && deleted_at_hlc == at.0 && clock_parse(vector_clock) == Ok::<
            (Seq<(u128, u64)>, nat),
            VClockError,
        >((seq![(node, at.0)], vector_clock.len())),
{
    let es = seq![(node, at.0)];
    law_clock_round_trip(es, Seq::empty());
    assert(clock_image(es) + Seq::<u8>::empty() =~= clock_image(es));
}

/// A write that was acknowledged took effect: the document is what was given,
/// and every other document is as it was.
pub proof fn law_replaced_documents_are_read(
    a: Database,
    b: Database,
    r: Result<()>,
    c: Seq<char>,
    key: Uuid,
    old_m: ValueM,
    new_m: ValueM,
    version: Option<ValueM>,
    d: Seq<char>,
    q: u128,
)
    requires
        a.wf(),
        encodable(new_m, 0),
        doc_read(a.tables(), c, key.0) == DocRead::Found(old_m),
        replaced(a, b, r, c, key, old_m, new_m, version),
        r is Ok,
    ensures
        doc_read(b.tables(), c, key.0) == DocRead::Found(new_m),
        d != c || q != key.0 ==> doc_read(b.tables(), d, q) == doc_read(a.tables(), d, q),
{
    let (recs, h) = choose|recs: Seq<PageWriteRecord>, h: Hlc| #[trigger]
        exchanged(a, b, c, key, old_m, new_m, version, recs, h);
    law_get_after_update(a, b, c, key, old_m, new_m, version, recs, h, d, q);
}

/// Reads change nothing that a read can see, and a write that is refused
/// neither.
pub proof fn law_reads_and_refusals_change_nothing(
    a: Database,
    b: Database,
    c: Seq<char>,
    q: u128,
    s: u64,
)
    ensures
        cached_only(a, b) || refused(a, b) ==> {
            &&& doc_read(b.tables(), c, q) == doc_read(a.tables(), c, q)
            &&& seen_at(b, c, q, s) == seen_at(a, c, q, s)
            &&& b.wal.log == a.wal.log
            &&& b.wal.next_lsn == a.wal.next_lsn
            &&& b.versions == a.versions
        },
        cached_only(a, b) ==> b.wal == a.wal,
{
}

/// The secondary indexes of all collections are in step with the documents.
pub open spec fn all_in_sync(db: Database) -> bool {
    forall|i: int| 0 <= i < db.collections@.len() ==> in_sync(#[trigger] db.collections@[i])
}

/// An index that has page IDs left.
pub open spec fn indexes_have_room(c: Collection) -> bool {
    forall|i: int|
        0 <= i < c.secondary_indexes@.len() ==> (#[trigger] c.secondary_indexes@[i]).btree.has_room()
}

proof fn lemma_others_in_sync(a: Database, b: Database, i: int, rs: Seq<RawDoc>)
    requires
        all_in_sync(a),
        0 <= i < a.collections@.len(),
        b.tables() == a.tables().update(i, (a.collections@[i].name@, rs)),
        other_indexes_same(a.collections@, b.collections@, i),
        in_sync(b.collections@[i]),
    ensures
        all_in_sync(b),
{
    assert forall|j: int| 0 <= j < b.collections@.len() implies in_sync(
        #[trigger] b.collections@[j],
    ) by {
        if j != i {
            assert(in_sync(a.collections@[j]));
            assert(b.tables()[j].1 == a.tables()[j].1);
            assert(b.collections@[j].raws() == a.collections@[j].raws());
            assert(b.collections@[j].secondary_indexes == a.collections@[j].secondary_indexes);
        }
    }
}

/// An insertion keeps all secondary indexes in step with the documents, where
/// they have page IDs left.
pub proof fn law_insert_keeps_all_indexes(
    a: Database,
    b: Database,
    c: Seq<char>,
    i: int,
    key: Uuid,
    m: ValueM,
)
    requires
        a.wf(),
        all_in_sync(a),
        coll_pos(a.collections@, c) == Some(i),
        indexes_have_room(a.collections@[i]),
        encodable(m, 0),
        raw_lookup(a.collections@[i].raws(), key.spec_bytes()) is None,
        b.tables() == a.tables().update(
            i,
            (
                c,
                with_raw(a.collections@[i].raws(), key.spec_bytes(), doc_image(key.0, m)),
            ),
        ),
        indexes_took(a, b, i, m, key.0),
    ensures
        all_in_sync(b),
{
    lemma_table_pos(a.collections@, c);
    law_document_round_trip(key.0, m);
    let rs = with_raw(a.collections@[i].raws(), key.spec_bytes(), doc_image(key.0, m));
    assert(b.tables()[i].1 == rs);
    assert(in_sync(a.collections@[i]));
    law_insert_keeps_indexes(
        a.collections@[i],
        b.collections@[i],
        key,
        doc_image(key.0, m),
    );
    lemma_others_in_sync(a, b, i, rs);
}

/// An update keeps all secondary indexes in step with the documents, where they
/// have page IDs left; and so does a deletion.
pub proof fn law_update_keeps_all_indexes(
    a: Database,
    b: Database,
    r: Result<()>,
    c: Seq<char>,
    i: int,
    key: Uuid,
    old_m: ValueM,
    new_m: ValueM,
    version: Option<ValueM>,
)
    requires
        a.wf(),
        all_in_sync(a),
        coll_pos(a.collections@, c) == Some(i),
        indexes_have_room(a.collections@[i]),
        encodable(new_m, 0),
        doc_read(a.tables(), c, key.0) == DocRead::Found(old_m),
        replaced(a, b, r, c, key, old_m, new_m, version),
        r is Ok,
    ensures
        all_in_sync(b),
{
    lemma_table_pos(a.collections@, c);
    lemma_read_at(a, c, key.0);
    law_document_round_trip(key.0, new_m);
    let k = key.spec_bytes();
    let rs = with_raw(without_raw(a.collections@[i].raws(), k), k, doc_image(key.0, new_m));
    let (recs, h) = choose|recs: Seq<PageWriteRecord>, h: Hlc| #[trigger]
        exchanged(a, b, c, key, old_m, new_m, version, recs, h);
    assert(b.tables()[i].1 == rs);
    assert(in_sync(a.collections@[i]));
    law_update_keeps_indexes(
        a.collections@[i],
        b.collections@[i],
        key,
        old_m,
        doc_image(key.0, new_m),
    );
    lemma_others_in_sync(a, b, i, rs);
}

} // verus!
