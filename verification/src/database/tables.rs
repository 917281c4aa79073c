//! The collections of a database as named tables of documents.

use vstd::prelude::*;

use crate::collection::indexed::{decode_rows, decoded_rows, fetched, index_named};
use crate::collection::raws::{raw_lookup, rows_of, RawDoc};
use crate::collection::{same_documents, Collection};
use crate::page::manager::contents;
use crate::document::doc_parse;
use crate::document::value::{value_wf, Value, ValueM};
use crate::error::{GrumpyError, Result};
use crate::index::encoding::sortable;
use crate::index::{between_values, docs_of, equals_value, picked};
use crate::buffer::pool::saved_kept;
use crate::bytes::be_bytes;
use crate::text::text_lt;
use crate::uid::Uuid;

verus! {

/// A collection: its name and its documents.
pub type TableM = (Seq<char>, Seq<RawDoc>);

/// The collections as tables.
pub open spec fn tables_of(cs: Seq<Collection>) -> Seq<TableM> {
    Seq::new(cs.len(), |i: int| (cs[i].name@, cs[i].raws()))
}

/// Names ascend.
pub open spec fn names_ascend(cs: Seq<Collection>) -> bool {
    forall|i: int, j: int|
        0 <= i < j < cs.len() ==> text_lt((#[trigger] cs[i]).name@, (#[trigger] cs[j]).name@)
}

/// The place of a collection.
pub open spec fn coll_pos(cs: Seq<Collection>, name: Seq<char>) -> Option<int>
    decreases cs.len(),
{
    if cs.len() == 0 {
        None
    } else {
        match coll_pos(cs.drop_last(), name) {
            Some(i) => Some(i),
            None => if cs.last().name@ == name {
                Some(cs.len() - 1)
            } else {
                None
            },
        }
    }
}

pub proof fn lemma_coll_pos(cs: Seq<Collection>, name: Seq<char>)
    ensures
        coll_pos(cs, name) matches Some(i) ==> 0 <= i < cs.len() && cs[i].name@ == name,
        coll_pos(cs, name) is None ==> forall|i: int|
            0 <= i < cs.len() ==> (#[trigger] cs[i]).name@ != name,
    decreases cs.len(),
{
    if cs.len() > 0 {
        let f = cs.drop_last();
        lemma_coll_pos(f, name);
        if coll_pos(cs, name) is None {
            assert forall|i: int| 0 <= i < cs.len() implies (#[trigger] cs[i]).name@ != name by {
                if i < f.len() {
                    assert(f[i] == cs[i]);
                }
            }
        }
    }
}

pub proof fn lemma_coll_first(cs: Seq<Collection>, name: Seq<char>, n: int)
    requires
        0 <= n <= cs.len(),
        coll_pos(cs.take(n), name) is Some,
    ensures
        coll_pos(cs, name) == coll_pos(cs.take(n), name),
    decreases cs.len() - n,
{
    if n < cs.len() {
        assert(cs.take(n + 1).drop_last() =~= cs.take(n));
        lemma_coll_first(cs, name, n + 1);
    } else {
        assert(cs.take(n) =~= cs);
    }
}

/// The place of a table.
pub open spec fn table_pos(ts: Seq<TableM>, name: Seq<char>) -> Option<int>
    decreases ts.len(),
{
    if ts.len() == 0 {
        None
    } else {
        match table_pos(ts.drop_last(), name) {
            Some(i) => Some(i),
            None => if ts.last().0 == name {
                Some(ts.len() - 1)
            } else {
                None
            },
        }
    }
}

/// A collection is found where its table is.
pub proof fn lemma_table_pos(cs: Seq<Collection>, name: Seq<char>)
    ensures
        table_pos(tables_of(cs), name) == coll_pos(cs, name),
        coll_pos(cs, name) matches Some(i) ==> 0 <= i < cs.len() && cs[i].name@ == name,
    decreases cs.len(),
{
    if cs.len() > 0 {
        lemma_table_pos(cs.drop_last(), name);
        assert(tables_of(cs).drop_last() =~= tables_of(cs.drop_last()));
        assert(tables_of(cs).last().0 == cs.last().name@);
    }
}

/// What reading a document gives.
pub enum DocRead {
    /// There is no such collection.
    NoCollection,
    /// There is no such document.
    Absent,
    /// The stored bytes are no document; the text says why.
    Unreadable(Seq<char>),
    /// The document.
    Found(ValueM),
}

/// What reading a document gives.
pub open spec fn doc_read(ts: Seq<TableM>, c: Seq<char>, id: u128) -> DocRead {
    match table_pos(ts, c) {
        None => DocRead::NoCollection,
        Some(i) => match raw_lookup(ts[i].1, be_bytes(id as nat, 16)) {
            None => DocRead::Absent,
            Some(raw) => match doc_parse(raw) {
                Ok((_, m)) => DocRead::Found(m),
                Err(e) => DocRead::Unreadable(e),
            },
        },
    }
}

/// What reading the document of a key gives; a tombstone stands for no document.
pub open spec fn gets(
    r: Result<Option<Value>>,
    ts: Seq<TableM>,
    c: Seq<char>,
    id: u128,
) -> bool {
    match doc_read(ts, c, id) {
        DocRead::NoCollection => r is Err && r->Err_0 is CollectionNotFound && (
        r->Err_0->CollectionNotFound_0)@ == c,
        DocRead::Unreadable(e) => r is Err && r->Err_0 is Codec && (r->Err_0->Codec_0)@ == e,
        DocRead::Absent => r is Ok && r->Ok_0 is None,
        DocRead::Found(m) => if m is Tombstone {
            r is Ok && r->Ok_0 is None
        } else {
            r is Ok && r->Ok_0 is Some && r->Ok_0->0.model() == m && value_wf(m)
        },
    }
}

pub proof fn lemma_found(cs: Seq<Collection>, c: Seq<char>, key: Uuid)
    requires
        doc_read(tables_of(cs), c, key.0) is Found,
    ensures
        coll_pos(cs, c) is Some,
        raw_lookup(cs[coll_pos(cs, c)->0].raws(), key.spec_bytes()) is Some,
{
    lemma_table_pos(cs, c);
}

/// From `a` to `b` only caches changed.
pub open spec fn same_content(a: Seq<Collection>, b: Seq<Collection>) -> bool {
    &&& b.len() == a.len()
    &&& forall|i: int|
        0 <= i < a.len() ==> (#[trigger] b[i]).name == a[i].name && b[i].raws() == a[i].raws()
            && b[i].secondary_indexes == a[i].secondary_indexes && b[i].btree == a[i].btree
            && b[i].data.heap() == a[i].data.heap() && b[i].data.current == a[i].data.current
            && b[i].data.pool.pm.count() == a[i].data.pool.pm.count() && saved_kept(
            a[i].data.pool,
            b[i].data.pool,
            -1,
        )
}

pub proof fn lemma_same_content(a: Seq<Collection>)
    ensures
        same_content(a, a),
{
}

/// One collection changed its documents.
pub proof fn lemma_one_changed(a: Seq<Collection>, b: Seq<Collection>, i: int)
    requires
        0 <= i < a.len(),
        b == a.update(i, b[i]),
        b[i].name == a[i].name,
        names_ascend(a),
    ensures
        names_ascend(b),
        tables_of(b) == tables_of(a).update(i, (a[i].name@, b[i].raws())),
        forall|j: int| 0 <= j < a.len() && j != i ==> #[trigger] b[j] == a[j],
{
    assert(tables_of(b) =~= tables_of(a).update(i, (a[i].name@, b[i].raws())));
    assert forall|x: int, y: int| 0 <= x < y < b.len() implies text_lt(
        (#[trigger] b[x]).name@,
        (#[trigger] b[y]).name@,
    ) by {
        assert(text_lt(a[x].name@, a[y].name@));
    }
}

/// One collection was rebuilt under its name.
pub proof fn lemma_renamed(a: Seq<Collection>, b: Seq<Collection>, i: int)
    requires
        0 <= i < a.len(),
        b == a.update(i, b[i]),
        b[i].name@ == a[i].name@,
        names_ascend(a),
    ensures
        names_ascend(b),
        tables_of(b) == tables_of(a).update(i, (a[i].name@, b[i].raws())),
        forall|j: int| 0 <= j < a.len() && j != i ==> #[trigger] b[j] == a[j],
{
    assert(tables_of(b) =~= tables_of(a).update(i, (a[i].name@, b[i].raws())));
    assert forall|x: int, y: int| 0 <= x < y < b.len() implies text_lt(
        (#[trigger] b[x]).name@,
        (#[trigger] b[y]).name@,
    ) by {
        assert(text_lt(a[x].name@, a[y].name@));
    }
}

/// The files of all collections hold their documents.
pub open spec fn all_saved(cs: Seq<Collection>) -> bool {
    forall|i: int|
        0 <= i < cs.len() ==> contents((#[trigger] cs[i]).data.pool.pm)
            == cs[i].data.heap().pages
}

/// What is in the file stays there as caches change.
pub proof fn lemma_still_saved(a: Collection, b: Collection)
    requires
        contents(a.data.pool.pm) == a.data.heap().pages,
        b.data.pool.pm.count() == a.data.pool.pm.count(),
        saved_kept(a.data.pool, b.data.pool, -1),
    ensures
        contents(b.data.pool.pm) == b.data.heap().pages,
{
    let (p, q) = (a.data.pool, b.data.pool);
    assert forall|i: int| 0 <= i < q.pm.count() implies contents(q.pm)[i]
        == b.data.heap().pages[i] by {
        assert(contents(p.pm)[i] == a.data.heap().pages[i]);
        assert(p.saved(i));
        assert(q.saved(i));
    }
    assert(contents(q.pm) =~= b.data.heap().pages);
}

/// One collection changed its cache.
pub proof fn lemma_one_cached(a: Seq<Collection>, b: Seq<Collection>, i: int)
    requires
        0 <= i < a.len(),
        b == a.update(i, b[i]),
        same_documents(a[i], b[i]),
        names_ascend(a),
    ensures
        names_ascend(b),
        same_content(a, b),
        tables_of(b) == tables_of(a),
        all_saved(a) ==> all_saved(b),
        forall|j: int| 0 <= j < a.len() && j != i ==> #[trigger] b[j] == a[j],
{
    lemma_one_changed(a, b, i);
    assert(tables_of(b) =~= tables_of(a));
    if all_saved(a) {
        lemma_still_saved(a[i], b[i]);
    }
}

/// All collections changed their caches.
pub proof fn lemma_all_cached(a: Seq<Collection>, b: Seq<Collection>)
    requires
        b.len() == a.len(),
        forall|i: int| 0 <= i < a.len() ==> same_documents(a[i], #[trigger] b[i]),
        names_ascend(a),
    ensures
        names_ascend(b),
        same_content(a, b),
        tables_of(b) == tables_of(a),
        forall|i: int| 0 <= i < b.len() ==> (#[trigger] b[i]).wf(),
{
    assert forall|i: int| 0 <= i < b.len() implies (#[trigger] b[i]).wf() && b[i].name
        == a[i].name && b[i].raws() == a[i].raws() by {
        assert(same_documents(a[i], b[i]));
    }
    assert(tables_of(b) =~= tables_of(a));
    assert forall|x: int, y: int| 0 <= x < y < b.len() implies text_lt(
        (#[trigger] b[x]).name@,
        (#[trigger] b[y]).name@,
    ) by {
        assert(text_lt(a[x].name@, a[y].name@));
    }
}

/// A new collection keeps the order of names.
pub proof fn lemma_collection_added(cs: Seq<Collection>, c: Collection, p: int)
    requires
        0 <= p <= cs.len(),
        names_ascend(cs),
        c.wf(),
        forall|i: int| 0 <= i < cs.len() ==> (#[trigger] cs[i]).wf(),
        forall|i: int| 0 <= i < p ==> text_lt((#[trigger] cs[i]).name@, c.name@),
        p < cs.len() ==> !text_lt(cs[p].name@, c.name@),
        coll_pos(cs, c.name@) is None,
    ensures
        names_ascend(cs.insert(p, c)),
        forall|i: int| 0 <= i < cs.insert(p, c).len() ==> (#[trigger] cs.insert(p, c)[i]).wf(),
{
    let w = cs.insert(p, c);
    lemma_coll_pos(cs, c.name@);
    assert forall|i: int| p <= i < cs.len() implies text_lt(c.name@, (#[trigger] cs[i]).name@) by {
        crate::document::value::lemma_text_order(cs[p].name@, c.name@, cs[i].name@);
        crate::document::value::lemma_text_order(c.name@, cs[p].name@, cs[i].name@);
        if i > p {
            assert(text_lt(cs[p].name@, cs[i].name@));
        }
    }
    assert forall|x: int, y: int| 0 <= x < y < w.len() implies text_lt(
        (#[trigger] w[x]).name@,
        (#[trigger] w[y]).name@,
    ) by {
        let a = if x < p {
            x
        } else {
            x - 1
        };
        let b = if y < p {
            y
        } else {
            y - 1
        };
        if x != p {
            assert(w[x] == cs[a]);
        }
        if y != p {
            assert(w[y] == cs[b]);
        }
        if x != p && y != p {
            assert(text_lt(cs[a].name@, cs[b].name@));
        }
    }
    assert forall|i: int| 0 <= i < w.len() implies (#[trigger] w[i]).wf() by {
        if i != p {
            let a = if i < p {
                i
            } else {
                i - 1
            };
            assert(w[i] == cs[a]);
        }
    }
}

/// Removing a collection keeps the order of names.
pub proof fn lemma_collection_removed(cs: Seq<Collection>, p: int)
    requires
        0 <= p < cs.len(),
        names_ascend(cs),
        forall|i: int| 0 <= i < cs.len() ==> (#[trigger] cs[i]).wf(),
    ensures
        names_ascend(cs.remove(p)),
        forall|i: int| 0 <= i < cs.remove(p).len() ==> (#[trigger] cs.remove(p)[i]).wf(),
{
    let w = cs.remove(p);
    assert forall|x: int, y: int| 0 <= x < y < w.len() implies text_lt(
        (#[trigger] w[x]).name@,
        (#[trigger] w[y]).name@,
    ) by {
        let a = if x < p {
            x
        } else {
            x + 1
        };
        let b = if y < p {
            y
        } else {
            y + 1
        };
        assert(w[x] == cs[a] && w[y] == cs[b]);
        assert(text_lt(cs[a].name@, cs[b].name@));
    }
    assert forall|i: int| 0 <= i < w.len() implies (#[trigger] w[i]).wf() by {
        let a = if i < p {
            i
        } else {
            i + 1
        };
        assert(w[i] == cs[a]);
    }
}

// ── Rows ────────────────────────────────────────────────────────────────

/// The rows that are not tombstones.
pub open spec fn live_rows(rows: Seq<(u128, ValueM)>) -> Seq<(u128, ValueM)>
    decreases rows.len(),
{
    if rows.len() == 0 {
        Seq::empty()
    } else {
        let front = live_rows(rows.drop_last());
        if rows.last().1 is Tombstone {
            front
        } else {
            front.push(rows.last())
        }
    }
}

/// What reading stored documents gives, without the tombstones.
pub open spec fn rows_read(r: Result<Vec<(Uuid, Value)>>, rs: Seq<RawDoc>) -> bool {
    match r {
        Ok(v) => {
            &&& decoded_rows(rs) is Ok
            &&& docs_of(v@) == live_rows(decoded_rows(rs)->Ok_0)
            &&& forall|i: int| 0 <= i < v@.len() ==> value_wf((#[trigger] v@[i]).1.model())
        },
        Err(e) => e is Codec && decoded_rows(rs) == Err::<Seq<(u128, ValueM)>, Seq<char>>(
            (e->Codec_0)@,
        ),
    }
}

/// Reads stored documents, without the tombstones.
pub fn read_live_rows(rows: &Vec<(Uuid, Vec<u8>)>) -> (r: Result<Vec<(Uuid, Value)>>)
    ensures
        rows_read(r, rows_of(rows@)),
{
    match decode_rows(rows) {
        Ok(docs) => Ok(drop_tombstones(docs)),
        Err(e) => Err(e),
    }
}

/// Removes tombstones from rows.
pub fn drop_tombstones(rows: Vec<(Uuid, Value)>) -> (r: Vec<(Uuid, Value)>)
    ensures
        docs_of(r@) == live_rows(docs_of(rows@)),
        (forall|i: int| 0 <= i < rows@.len() ==> value_wf((#[trigger] rows@[i]).1.model()))
            ==> forall|i: int| 0 <= i < r@.len() ==> value_wf((#[trigger] r@[i]).1.model()),
{
    let ghost all = docs_of(rows@);
    let ghost sound = forall|i: int|
        0 <= i < rows@.len() ==> value_wf((#[trigger] rows@[i]).1.model());
    let mut out: Vec<(Uuid, Value)> = Vec::new();
    let mut i: usize = 0;
    assert(all.take(0) =~= Seq::<(u128, ValueM)>::empty());
    assert(docs_of(out@) =~= Seq::<(u128, ValueM)>::empty());
    while i < rows.len()
        invariant
            all == docs_of(rows@),
            i <= rows@.len(),
            docs_of(out@) == live_rows(all.take(i as int)),
            sound ==> forall|j: int|
                0 <= j < rows@.len() ==> value_wf((#[trigger] rows@[j]).1.model()),
            sound ==> forall|j: int|
                0 <= j < out@.len() ==> value_wf((#[trigger] out@[j]).1.model()),
        decreases rows@.len() - i,
    {
        proof {
            assert(all.take(i + 1).drop_last() =~= all.take(i as int));
            assert(all.take(i + 1).last() == all[i as int]);
        }
        if !rows[i].1.is_tombstone() {
            let ghost before = out@;
            let v: Value = rows[i].1.dup();
            out.push((rows[i].0, v));
            assert(docs_of(out@) =~= docs_of(before).push(all[i as int]));
        }
        i = i + 1;
    }
    assert(all.take(i as int) =~= all);
    out
}

/// What querying an index for a value gives.
pub open spec fn queried(
    r: Result<Vec<(Uuid, Value)>>,
    c: Collection,
    index_name: Seq<char>,
    m: ValueM,
) -> bool {
    match index_named(c.secondary_indexes@, index_name) {
        None => r is Err && r->Err_0 is IndexNotFound && (r->Err_0->IndexNotFound_0)@
            == index_name,
        Some(i) => match sortable(m) {
            None => r is Err && r->Err_0 == GrumpyError::NotIndexable,
            Some(p) => live_answer(
                r,
                c.raws(),
                picked(c.secondary_indexes@[i].entries(), equals_value(p)),
            ),
        },
    }
}

/// What querying an index for a range of values gives.
pub open spec fn queried_range(
    r: Result<Vec<(Uuid, Value)>>,
    c: Collection,
    index_name: Seq<char>,
    start: ValueM,
    end: ValueM,
) -> bool {
    match index_named(c.secondary_indexes@, index_name) {
        None => r is Err && r->Err_0 is IndexNotFound && (r->Err_0->IndexNotFound_0)@
            == index_name,
        Some(i) => if sortable(start) is None || sortable(end) is None {
            r is Err && r->Err_0 == GrumpyError::NotIndexable
        } else {
            live_answer(
                r,
                c.raws(),
                picked(
                    c.secondary_indexes@[i].entries(),
                    between_values(sortable(start)->0, sortable(end)->0),
                ),
            )
        },
    }
}

/// The documents with the keys `ids`, without the tombstones.
pub open spec fn live_answer(
    r: Result<Vec<(Uuid, Value)>>,
    rs: Seq<RawDoc>,
    ids: Seq<u128>,
) -> bool {
    match r {
        Ok(v) => fetched(rs, ids) is Ok && docs_of(v@) == live_rows(fetched(rs, ids)->Ok_0),
        Err(e) => e is Codec && fetched(rs, ids) == Err::<Seq<(u128, ValueM)>, Seq<char>>(
            (e->Codec_0)@,
        ),
    }
}

/// A collection is found exactly if there is one of that name, and it has it.
pub proof fn law_collections_are_found_by_name(cs: Seq<Collection>, name: Seq<char>, i: int)
    ensures
        coll_pos(cs, name) matches Some(j) ==> 0 <= j < cs.len() && cs[j].name@ == name,
        0 <= i < cs.len() && cs[i].name@ == name ==> coll_pos(cs, name) is Some,
        table_pos(tables_of(cs), name) == coll_pos(cs, name),
{
    lemma_coll_pos(cs, name);
    lemma_table_pos(cs, name);
}

/// A read tells apart a collection that does not exist, a key without a
/// document, bytes that are no document, and a document.
pub proof fn law_reads_tell_what_is_stored(ts: Seq<TableM>, c: Seq<char>, id: u128, i: int)
    requires
        0 <= i < ts.len(),
        ts[i].0 == c,
        forall|j: int| 0 <= j < i ==> (#[trigger] ts[j]).0 != c,
    ensures
        doc_read(ts, c, id) == (match raw_lookup(ts[i].1, be_bytes(id as nat, 16)) {
            None => DocRead::Absent,
            Some(raw) => match doc_parse(raw) {
                Ok(d) => DocRead::Found(d.1),
                Err(e) => DocRead::Unreadable(e),
            },
        }),
    decreases ts.len(),
{
    lemma_first_table(ts, c, i);
}

proof fn lemma_first_table(ts: Seq<TableM>, c: Seq<char>, i: int)
    requires
        0 <= i < ts.len(),
        ts[i].0 == c,
        forall|j: int| 0 <= j < i ==> (#[trigger] ts[j]).0 != c,
    ensures
        table_pos(ts, c) == Some(i),
    decreases ts.len(),
{
    let f = ts.drop_last();
    if i < f.len() {
        assert(f[i] == ts[i]);
        lemma_first_table(f, c, i);
    } else {
        lemma_no_table(f, c);
    }
}

proof fn lemma_no_table(ts: Seq<TableM>, c: Seq<char>)
    requires
        forall|j: int| 0 <= j < ts.len() ==> (#[trigger] ts[j]).0 != c,
    ensures
        table_pos(ts, c) is None,
    decreases ts.len(),
{
    if ts.len() > 0 {
        assert(ts.last() == ts[ts.len() - 1]);
        assert forall|j: int| 0 <= j < ts.drop_last().len() implies (
        #[trigger] ts.drop_last()[j]).0 != c by {
            assert(ts.drop_last()[j] == ts[j]);
        }
        lemma_no_table(ts.drop_last(), c);
    }
}

/// A read reports a collection that does not exist.
pub proof fn law_missing_collections_are_reported(ts: Seq<TableM>, c: Seq<char>, id: u128)
    requires
        forall|j: int| 0 <= j < ts.len() ==> (#[trigger] ts[j]).0 != c,
    ensures
        doc_read(ts, c, id) is NoCollection,
{
    lemma_no_table(ts, c);
}

} // verus!
