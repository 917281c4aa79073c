//! Secondary indexes mirror the documents: what an index holds is what the
//! documents say, and so a query finds the documents it should.

use vstd::prelude::*;

use crate::btree::cursor::lemma_entries_keys;
use crate::btree::entries::{
    law_lookup_after_delete, law_lookup_after_insert, lemma_lookup, lemma_present, lookup, rank,
};
use crate::btree::node::Entry;
use crate::btree::tree::sorted;
use crate::bytes::{
    be_bytes, lemma_be_bytes_len, lemma_be_round_trip, lemma_be_val_bytes, lemma_lex_transitive,
    lemma_pow256_values, lex_lt,
};
use crate::collection::indexed::{
    built_index, is_tombstone_raw, key_id, lemma_append_raw, lemma_live_docs, live_docs,
    readable_docs, reindexed, unindexed,
};
use crate::collection::raws::{
    keys_ascend, lemma_read_after_delete, lemma_read_after_insert, raw_lookup, with_raw,
    without_raw, RawDoc,
};
use crate::collection::{law_keys_ascend, Collection};
use crate::database::{index_moved, moved};
use crate::document::doc_parse;
use crate::document::value::ValueM;
use crate::index::encoding::{composite, field_at, sortable};
use crate::index::{
    after_indexing, after_unindexing, index_entries, picked, uuid_part, value_part,
    SecondaryIndex, INDEX_MAX_KEY_SIZE,
};
use crate::uid::Uuid;

verus! {

/// The key under which an index on `path` holds a stored document; `None` for
/// a document without the field or with a value that is not indexed.
pub open spec fn indexed_key(
    raw: Option<Seq<u8>>,
    path: Seq<char>,
    id: u128,
    max_key: u16,
) -> Option<Seq<u8>> {
    match raw {
        None => None,
        Some(b) => match doc_parse(b) {
            Err(_) => None,
            Ok((_, m)) => match field_at(m, path) {
                None => None,
                Some(v) => match composite(v, id) {
                    None => None,
                    Some(k) => if k.len() <= max_key {
                        Some(k)
                    } else {
                        None
                    },
                },
            },
        },
    }
}

/// The entries of an index are those that the documents ask for.
pub open spec fn mirrors(
    es: Seq<Entry>,
    rs: Seq<RawDoc>,
    path: Seq<char>,
    max_key: u16,
) -> bool {
    &&& sorted(es)
    &&& forall|k: Seq<u8>|
        (#[trigger] lookup(es, k) is Some) == (k.len() >= 16 && indexed_key(
            raw_lookup(rs, be_bytes(uuid_part(k) as nat, 16)),
            path,
            uuid_part(k),
            max_key,
        ) == Some(k))
}

/// A composite key names its document.
pub proof fn lemma_composite(v: ValueM, id: u128)
    requires
        composite(v, id) is Some,
    ensures
        composite(v, id)->0.len() >= 16,
        uuid_part(composite(v, id)->0) == id,
        value_part(composite(v, id)->0) == sortable(v)->0,
{
    let k = composite(v, id)->0;
    lemma_be_bytes_len(id as nat, 16);
    lemma_pow256_values();
    lemma_be_round_trip(id as nat, 16);
    assert(k.skip(k.len() - 16) =~= be_bytes(id as nat, 16));
    assert(k.take(k.len() - 16) =~= sortable(v)->0);
}

/// Different documents have different keys.
proof fn lemma_key_bytes(a: u128, b: u128)
    ensures
        (be_bytes(a as nat, 16) == be_bytes(b as nat, 16)) == (a == b),
{
    lemma_pow256_values();
    lemma_be_round_trip(a as nat, 16);
    lemma_be_round_trip(b as nat, 16);
}

/// An index that mirrors the documents mirrors them after a document was added
/// and indexed.
pub proof fn law_insert_keeps_mirror(
    es: Seq<Entry>,
    rs: Seq<RawDoc>,
    path: Seq<char>,
    max_key: u16,
    id: u128,
    raw: Seq<u8>,
)
    requires
        mirrors(es, rs, path, max_key),
        keys_ascend(rs),
        raw_lookup(rs, be_bytes(id as nat, 16)) is None,
        doc_parse(raw) is Ok,
    ensures
        mirrors(
            match after_indexing(es, (doc_parse(raw)->Ok_0).1, path, id, max_key) {
                Some(after) => after,
                None => es,
            },
            with_raw(rs, be_bytes(id as nat, 16), raw),
            path,
            max_key,
        ),
{
    let m = (doc_parse(raw)->Ok_0).1;
    let kb = be_bytes(id as nat, 16);
    let new_rs = with_raw(rs, kb, raw);
    let after = after_indexing(es, m, path, id, max_key);
    let new_es = match after {
        Some(x) => x,
        None => es,
    };
    let own = indexed_key(Some(raw), path, id, max_key);
    lemma_read_after_insert(rs, kb, raw, kb);
    if own is Some {
        let k = own->0;
        lemma_composite(field_at(m, path)->0, id);
        assert(lookup(es, k) is None);
        law_lookup_after_insert(es, k, (0, 0), k);
    }
    assert forall|k: Seq<u8>|
        (#[trigger] lookup(new_es, k) is Some) == (k.len() >= 16 && indexed_key(
            raw_lookup(new_rs, be_bytes(uuid_part(k) as nat, 16)),
            path,
            uuid_part(k),
            max_key,
        ) == Some(k)) by {
        let u = uuid_part(k);
        lemma_key_bytes(u, id);
        lemma_read_after_insert(rs, kb, raw, be_bytes(u as nat, 16));
        assert(lookup(es, k) is Some == (k.len() >= 16 && indexed_key(
            raw_lookup(rs, be_bytes(u as nat, 16)),
            path,
            u,
            max_key,
        ) == Some(k)));
        if own is Some {
            law_lookup_after_insert(es, own->0, (0, 0), k);
        }
    }
}

/// An index that mirrors the documents mirrors them after a document was
/// removed from the index and deleted.
pub proof fn law_delete_keeps_mirror(
    es: Seq<Entry>,
    rs: Seq<RawDoc>,
    path: Seq<char>,
    max_key: u16,
    id: u128,
)
    requires
        mirrors(es, rs, path, max_key),
        keys_ascend(rs),
        raw_lookup(rs, be_bytes(id as nat, 16)) is Some,
        doc_parse(raw_lookup(rs, be_bytes(id as nat, 16))->0) is Ok,
    ensures
        mirrors(
            after_unindexing(
                es,
                (doc_parse(raw_lookup(rs, be_bytes(id as nat, 16))->0)->Ok_0).1,
                path,
                id,
            ),
            without_raw(rs, be_bytes(id as nat, 16)),
            path,
            max_key,
        ),
{
    let kb = be_bytes(id as nat, 16);
    let raw = raw_lookup(rs, kb)->0;
    let m = (doc_parse(raw)->Ok_0).1;
    let new_rs = without_raw(rs, kb);
    let new_es = after_unindexing(es, m, path, id);
    let own = indexed_key(Some(raw), path, id, max_key);
    if field_at(m, path) is Some && composite(field_at(m, path)->0, id) is Some {
        let k = composite(field_at(m, path)->0, id)->0;
        lemma_composite(field_at(m, path)->0, id);
        assert(lookup(es, k) is Some == (own == Some(k)));
        if lookup(es, k) is Some {
            law_lookup_after_delete(es, k, k);
        }
    }
    assert forall|k: Seq<u8>|
        (#[trigger] lookup(new_es, k) is Some) == (k.len() >= 16 && indexed_key(
            raw_lookup(new_rs, be_bytes(uuid_part(k) as nat, 16)),
            path,
            uuid_part(k),
            max_key,
        ) == Some(k)) by {
        let u = uuid_part(k);
        lemma_key_bytes(u, id);
        lemma_read_after_delete(rs, kb, be_bytes(u as nat, 16));
        assert(lookup(es, k) is Some == (k.len() >= 16 && indexed_key(
            raw_lookup(rs, be_bytes(u as nat, 16)),
            path,
            u,
            max_key,
        ) == Some(k)));
        if own is Some {
            law_lookup_after_delete(es, own->0, k);
        }
    }
}

/// A document that cannot be read does not concern an index.
proof fn lemma_unreadable_keeps_mirror(
    es: Seq<Entry>,
    rs: Seq<RawDoc>,
    path: Seq<char>,
    max_key: u16,
    id: u128,
    raw: Seq<u8>,
)
    requires
        mirrors(es, rs, path, max_key),
        keys_ascend(rs),
        raw_lookup(rs, be_bytes(id as nat, 16)) is None,
        doc_parse(raw) is Err,
    ensures
        mirrors(es, with_raw(rs, be_bytes(id as nat, 16), raw), path, max_key),
{
    let kb = be_bytes(id as nat, 16);
    let new_rs = with_raw(rs, kb, raw);
    assert forall|k: Seq<u8>|
        (#[trigger] lookup(es, k) is Some) == (k.len() >= 16 && indexed_key(
            raw_lookup(new_rs, be_bytes(uuid_part(k) as nat, 16)),
            path,
            uuid_part(k),
            max_key,
        ) == Some(k)) by {
        let u = uuid_part(k);
        lemma_key_bytes(u, id);
        lemma_read_after_insert(rs, kb, raw, be_bytes(u as nat, 16));
        lemma_read_after_insert(rs, kb, raw, kb);
    }
}

/// Keys of sixteen bytes.
pub open spec fn plain_keys(rs: Seq<RawDoc>) -> bool {
    forall|i: int| 0 <= i < rs.len() ==> (#[trigger] rs[i]).0.len() == 16
}

/// All but the last document, with what is needed to add that.
pub proof fn lemma_last_doc(rs: Seq<RawDoc>)
    requires
        rs.len() > 0,
        keys_ascend(rs),
        plain_keys(rs),
    ensures
        keys_ascend(rs.drop_last()),
        plain_keys(rs.drop_last()),
        be_bytes(key_id(rs.last().0) as nat, 16) == rs.last().0,
        raw_lookup(rs.drop_last(), rs.last().0) is None,
        with_raw(rs.drop_last(), rs.last().0, rs.last().1) == rs,
{
    let f = rs.drop_last();
    let k = rs.last().0;
    lemma_front(rs);
    assert(rs[rs.len() - 1] == rs.last());
    assert forall|i: int| 0 <= i < f.len() implies (#[trigger] f[i]).0.len() == 16 by {
        assert(f[i] == rs[i]);
    }
    lemma_be_val_bytes(k);
    lemma_pow256_values();
}

/// An empty index mirrors no documents.
proof fn lemma_empty_mirror(path: Seq<char>, max_key: u16)
    ensures
        mirrors(Seq::empty(), Seq::empty(), path, max_key),
{
}

/// A new index mirrors the documents it was built over.
pub proof fn law_built_index_mirrors(rs: Seq<RawDoc>, path: Seq<char>, max_key: u16)
    requires
        keys_ascend(rs),
        plain_keys(rs),
        built_index(rs, path, max_key) is Some,
    ensures
        mirrors(built_index(rs, path, max_key)->0, rs, path, max_key),
    decreases rs.len(),
{
    if rs.len() == 0 {
        lemma_empty_mirror(path, max_key);
        assert(rs =~= Seq::<RawDoc>::empty());
    } else {
        let f = rs.drop_last();
        lemma_last_doc(rs);
        law_built_index_mirrors(f, path, max_key);
        law_insert_keeps_mirror(
            built_index(f, path, max_key)->0,
            f,
            path,
            max_key,
            key_id(rs.last().0),
            rs.last().1,
        );
    }
}

/// An index that was rebuilt mirrors the documents.
pub proof fn law_rebuilt_index_mirrors(rs: Seq<RawDoc>, path: Seq<char>, max_key: u16)
    requires
        keys_ascend(rs),
        plain_keys(rs),
        index_entries(readable_docs(rs), path, max_key) is Some,
    ensures
        mirrors(index_entries(readable_docs(rs), path, max_key)->0, rs, path, max_key),
    decreases rs.len(),
{
    if rs.len() == 0 {
        lemma_empty_mirror(path, max_key);
        assert(rs =~= Seq::<RawDoc>::empty());
    } else {
        let f = rs.drop_last();
        let id = key_id(rs.last().0);
        lemma_last_doc(rs);
        match doc_parse(rs.last().1) {
            Ok(d) => {
                let docs = readable_docs(rs);
                assert(docs.drop_last() =~= readable_docs(f));
                assert(docs.last() == (id, d.1));
                law_rebuilt_index_mirrors(f, path, max_key);
                law_insert_keeps_mirror(
                    index_entries(readable_docs(f), path, max_key)->0,
                    f,
                    path,
                    max_key,
                    id,
                    rs.last().1,
                );
            },
            Err(_) => {
                law_rebuilt_index_mirrors(f, path, max_key);
                lemma_unreadable_keeps_mirror(
                    index_entries(readable_docs(f), path, max_key)->0,
                    f,
                    path,
                    max_key,
                    id,
                    rs.last().1,
                );
            },
        }
    }
}

proof fn lemma_picked(es: Seq<Entry>, f: spec_fn(Seq<u8>) -> bool, id: u128)
    ensures
        picked(es, f).contains(id) == exists|i: int|
            0 <= i < es.len() && (#[trigger] es[i]).0.len() >= 16 && f(value_part(es[i].0))
                && uuid_part(es[i].0) == id,
    decreases es.len(),
{
    if es.len() > 0 {
        let g = es.drop_last();
        let front = picked(g, f);
        lemma_picked(g, f, id);
        let k = es.last().0;
        let hit = k.len() >= 16 && f(value_part(k));
        if picked(es, f).contains(id) {
            let j = choose|j: int| 0 <= j < picked(es, f).len() && picked(es, f)[j] == id;
            if hit && j == front.len() {
                assert(es[es.len() - 1].0 == k);
            } else {
                assert(front[j] == id);
                assert(front.contains(id));
                let i = choose|i: int|
                    0 <= i < g.len() && (#[trigger] g[i]).0.len() >= 16 && f(value_part(g[i].0))
                        && uuid_part(g[i].0) == id;
                assert(es[i] == g[i]);
            }
        }
        if exists|i: int|
            0 <= i < es.len() && (#[trigger] es[i]).0.len() >= 16 && f(value_part(es[i].0))
                && uuid_part(es[i].0) == id {
            let i = choose|i: int|
                0 <= i < es.len() && (#[trigger] es[i]).0.len() >= 16 && f(value_part(es[i].0))
                    && uuid_part(es[i].0) == id;
            if i < g.len() {
                assert(g[i] == es[i]);
                assert(front.contains(id));
                let j = choose|j: int| 0 <= j < front.len() && front[j] == id;
                assert(picked(es, f)[j] == id);
            } else {
                assert(picked(es, f)[front.len() as int] == id);
            }
        }
    }
}

/// A query on an index that mirrors the documents picks a document exactly if
/// its field is indexed with an encoded value that the query asks for.
pub proof fn law_query_finds_documents(
    es: Seq<Entry>,
    rs: Seq<RawDoc>,
    path: Seq<char>,
    max_key: u16,
    f: spec_fn(Seq<u8>) -> bool,
    id: u128,
)
    requires
        mirrors(es, rs, path, max_key),
    ensures
        picked(es, f).contains(id) == (indexed_key(
            raw_lookup(rs, be_bytes(id as nat, 16)),
            path,
            id,
            max_key,
        ) matches Some(k) && f(value_part(k))),
{
    lemma_picked(es, f, id);
    let own = indexed_key(raw_lookup(rs, be_bytes(id as nat, 16)), path, id, max_key);
    if own is Some && f(value_part(own->0)) {
        let k = own->0;
        let m = (doc_parse(raw_lookup(rs, be_bytes(id as nat, 16))->0)->Ok_0).1;
        lemma_composite(field_at(m, path)->0, id);
        assert(lookup(es, k) is Some);
        lemma_lookup(es, k);
        assert(es[rank(es, k)].0 == k);
    }
    if exists|i: int|
        0 <= i < es.len() && (#[trigger] es[i]).0.len() >= 16 && f(value_part(es[i].0))
            && uuid_part(es[i].0) == id {
        let i = choose|i: int|
            0 <= i < es.len() && (#[trigger] es[i]).0.len() >= 16 && f(value_part(es[i].0))
                && uuid_part(es[i].0) == id;
        lemma_present(es, es[i].0, i);
        assert(lookup(es, es[i].0) is Some);
    }
}

// ── Collections ─────────────────────────────────────────────────────────

/// All secondary indexes of a collection mirror its documents.
pub open spec fn in_sync(c: Collection) -> bool {
    forall|i: int|
        0 <= i < c.secondary_indexes@.len() ==> mirrors(
            (#[trigger] c.secondary_indexes@[i]).entries(),
            c.raws(),
            c.secondary_indexes@[i].def.field_path@,
            c.secondary_indexes@[i].btree.meta.config,
        )
}

/// Inserting a document keeps the secondary indexes in step, where they have
/// page IDs left.
pub proof fn law_insert_keeps_indexes(a: Collection, b: Collection, key: Uuid, raw: Seq<u8>)
    requires
        a.wf(),
        in_sync(a),
        doc_parse(raw) is Ok,
        raw_lookup(a.raws(), key.spec_bytes()) is None,
        b.raws() == with_raw(a.raws(), key.spec_bytes(), raw),
        b.secondary_indexes@.len() == a.secondary_indexes@.len(),
        forall|i: int|
            0 <= i < a.secondary_indexes@.len() ==> reindexed(
                a.secondary_indexes@[i],
                #[trigger] b.secondary_indexes@[i],
                (doc_parse(raw)->Ok_0).1,
                key.0,
            ),
        forall|i: int|
            0 <= i < a.secondary_indexes@.len() ==> (
            #[trigger] a.secondary_indexes@[i]).btree.has_room(),
    ensures
        in_sync(b),
{
    law_keys_ascend(a);
    assert forall|i: int| 0 <= i < b.secondary_indexes@.len() implies mirrors(
        (#[trigger] b.secondary_indexes@[i]).entries(),
        b.raws(),
        b.secondary_indexes@[i].def.field_path@,
        b.secondary_indexes@[i].btree.meta.config,
    ) by {
        let x = a.secondary_indexes@[i];
        assert(reindexed(x, b.secondary_indexes@[i], (doc_parse(raw)->Ok_0).1, key.0));
        law_insert_keeps_mirror(
            x.entries(),
            a.raws(),
            x.def.field_path@,
            x.btree.meta.config,
            key.0,
            raw,
        );
    }
}

/// Deleting a document keeps the secondary indexes in step.
pub proof fn law_delete_keeps_indexes(a: Collection, b: Collection, key: Uuid, m: ValueM)
    requires
        a.wf(),
        in_sync(a),
        raw_lookup(a.raws(), key.spec_bytes()) is Some,
        doc_parse(raw_lookup(a.raws(), key.spec_bytes())->0) is Ok,
        (doc_parse(raw_lookup(a.raws(), key.spec_bytes())->0)->Ok_0).1 == m,
        b.raws() == without_raw(a.raws(), key.spec_bytes()),
        b.secondary_indexes@.len() == a.secondary_indexes@.len(),
        forall|i: int|
            0 <= i < a.secondary_indexes@.len() ==> unindexed(
                a.secondary_indexes@[i],
                #[trigger] b.secondary_indexes@[i],
                m,
                key.0,
            ),
    ensures
        in_sync(b),
{
    law_keys_ascend(a);
    assert forall|i: int| 0 <= i < b.secondary_indexes@.len() implies mirrors(
        (#[trigger] b.secondary_indexes@[i]).entries(),
        b.raws(),
        b.secondary_indexes@[i].def.field_path@,
        b.secondary_indexes@[i].btree.meta.config,
    ) by {
        let x = a.secondary_indexes@[i];
        assert(unindexed(x, b.secondary_indexes@[i], m, key.0));
        law_delete_keeps_mirror(
            x.entries(),
            a.raws(),
            x.def.field_path@,
            x.btree.meta.config,
            key.0,
        );
    }
}

/// The keys of a collection are identifiers of sixteen bytes.
pub proof fn lemma_plain_keys(c: Collection)
    requires
        c.wf(),
    ensures
        plain_keys(c.raws()),
{
    reveal(Collection::wf);
    reveal(Collection::raws);
    lemma_entries_keys(c.btree);
    assert forall|i: int| 0 <= i < c.raws().len() implies (#[trigger] c.raws()[i]).0.len() == 16 by {
        assert(c.raws()[i].0 == c.btree.entries()[i].0);
    }
}

/// A new index is in step with the documents of its collection.
pub proof fn law_new_index_in_step(a: Collection, b: Collection, path: Seq<char>)
    requires
        a.wf(),
        in_sync(a),
        b.raws() == a.raws(),
        b.secondary_indexes@.len() == a.secondary_indexes@.len() + 1,
        b.secondary_indexes@.drop_last() == a.secondary_indexes@,
        b.secondary_indexes@.last().def.field_path@ == path,
        b.secondary_indexes@.last().btree.meta.config == INDEX_MAX_KEY_SIZE,
        built_index(a.raws(), path, INDEX_MAX_KEY_SIZE) == Some(
            b.secondary_indexes@.last().entries(),
        ),
    ensures
        in_sync(b),
{
    law_keys_ascend(a);
    lemma_plain_keys(a);
    law_built_index_mirrors(a.raws(), path, INDEX_MAX_KEY_SIZE);
    assert forall|i: int| 0 <= i < b.secondary_indexes@.len() implies mirrors(
        (#[trigger] b.secondary_indexes@[i]).entries(),
        b.raws(),
        b.secondary_indexes@[i].def.field_path@,
        b.secondary_indexes@[i].btree.meta.config,
    ) by {
        if i < a.secondary_indexes@.len() {
            assert(b.secondary_indexes@.drop_last()[i] == b.secondary_indexes@[i]);
            assert(mirrors(
                a.secondary_indexes@[i].entries(),
                a.raws(),
                a.secondary_indexes@[i].def.field_path@,
                a.secondary_indexes@[i].btree.meta.config,
            ));
        } else {
            assert(b.secondary_indexes@[i] == b.secondary_indexes@.last());
        }
    }
}

/// Compaction leaves the secondary indexes in step with the documents.
pub proof fn law_compacted_indexes_in_step(a: Collection, b: Collection)
    requires
        b.wf(),
        b.secondary_indexes@.len() == a.secondary_indexes@.len(),
        forall|i: int|
            0 <= i < a.secondary_indexes@.len() ==> (#[trigger] b.secondary_indexes@[i]).def
                == a.secondary_indexes@[i].def && b.secondary_indexes@[i].btree.meta.config
                == INDEX_MAX_KEY_SIZE && index_entries(
                readable_docs(b.raws()),
                a.secondary_indexes@[i].def.field_path@,
                INDEX_MAX_KEY_SIZE,
            ) == Some(b.secondary_indexes@[i].entries()),
    ensures
        in_sync(b),
{
    law_keys_ascend(b);
    lemma_plain_keys(b);
    assert forall|i: int| 0 <= i < b.secondary_indexes@.len() implies mirrors(
        (#[trigger] b.secondary_indexes@[i]).entries(),
        b.raws(),
        b.secondary_indexes@[i].def.field_path@,
        b.secondary_indexes@[i].btree.meta.config,
    ) by {
        law_rebuilt_index_mirrors(
            b.raws(),
            b.secondary_indexes@[i].def.field_path@,
            INDEX_MAX_KEY_SIZE,
        );
    }
}

/// Compaction keeps the documents: what is read by a key is the same before
/// and after, but for tombstones, which are gone.
pub proof fn law_compaction_keeps_documents(rs: Seq<RawDoc>, k: Seq<u8>)
    requires
        keys_ascend(rs),
    ensures
        raw_lookup(live_docs(rs), k) == (match raw_lookup(rs, k) {
            Some(b) => if is_tombstone_raw(b) {
                None
            } else {
                Some(b)
            },
            None => None,
        }),
    decreases rs.len(),
{
    if rs.len() > 0 {
        let f = rs.drop_last();
        let last = rs.last();
        lemma_front(rs);
        law_compaction_keeps_documents(f, k);
        lemma_live_docs(f);
        lemma_read_after_insert(f, last.0, last.1, k);
        lemma_read_after_insert(f, last.0, last.1, last.0);
        let lf = live_docs(f);
        if lf.len() > 0 {
            assert(f.last() == rs[rs.len() - 2]);
            assert(lex_lt(rs[rs.len() - 2].0, rs[rs.len() - 1].0));
            if lf.last().0 != f.last().0 {
                lemma_lex_transitive(lf.last().0, f.last().0, last.0);
            }
        }
        lemma_append_raw(lf, last.0, last.1);
        lemma_read_after_insert(lf, last.0, last.1, k);
        lemma_read_after_insert(lf, last.0, last.1, last.0);
    }
}

/// All but the last document, which comes last.
proof fn lemma_front(rs: Seq<RawDoc>)
    requires
        rs.len() > 0,
        keys_ascend(rs),
    ensures
        keys_ascend(rs.drop_last()),
        raw_lookup(rs.drop_last(), rs.last().0) is None,
        with_raw(rs.drop_last(), rs.last().0, rs.last().1) == rs,
{
    let f = rs.drop_last();
    assert forall|i: int, j: int| 0 <= i < j < f.len() implies lex_lt(
        (#[trigger] f[i]).0,
        (#[trigger] f[j]).0,
    ) by {
        assert(lex_lt(rs[i].0, rs[j].0));
    }
    if f.len() > 0 {
        assert(lex_lt(rs[rs.len() - 2].0, rs[rs.len() - 1].0));
    }
    lemma_append_raw(f, rs.last().0, rs.last().1);
    assert(f.push(rs.last()) =~= rs);
}

/// Updating a document keeps the secondary indexes in step, where they have
/// page IDs left.
pub proof fn law_update_keeps_indexes(
    a: Collection,
    b: Collection,
    key: Uuid,
    old_m: ValueM,
    raw: Seq<u8>,
)
    requires
        a.wf(),
        in_sync(a),
        doc_parse(raw) is Ok,
        raw_lookup(a.raws(), key.spec_bytes()) is Some,
        doc_parse(raw_lookup(a.raws(), key.spec_bytes())->0) is Ok,
        (doc_parse(raw_lookup(a.raws(), key.spec_bytes())->0)->Ok_0).1 == old_m,
        b.raws() == with_raw(without_raw(a.raws(), key.spec_bytes()), key.spec_bytes(), raw),
        moved(a, b, old_m, (doc_parse(raw)->Ok_0).1, key.0),
        forall|i: int|
            0 <= i < a.secondary_indexes@.len() ==> (
            #[trigger] a.secondary_indexes@[i]).btree.has_room(),
    ensures
        in_sync(b),
{
    let new_m = (doc_parse(raw)->Ok_0).1;
    let gone = without_raw(a.raws(), key.spec_bytes());
    law_keys_ascend(a);
    lemma_read_after_delete(a.raws(), key.spec_bytes(), key.spec_bytes());
    assert forall|i: int| 0 <= i < b.secondary_indexes@.len() implies mirrors(
        (#[trigger] b.secondary_indexes@[i]).entries(),
        b.raws(),
        b.secondary_indexes@[i].def.field_path@,
        b.secondary_indexes@[i].btree.meta.config,
    ) by {
        let x = a.secondary_indexes@[i];
        let y = b.secondary_indexes@[i];
        assert(index_moved(x, y, old_m, new_m, key.0));
        let mid = choose|mid: SecondaryIndex| #[trigger]
            unindexed(x, mid, old_m, key.0) && reindexed(mid, y, new_m, key.0);
        law_delete_keeps_mirror(
            x.entries(),
            a.raws(),
            x.def.field_path@,
            x.btree.meta.config,
            key.0,
        );
        law_insert_keeps_mirror(
            mid.entries(),
            gone,
            x.def.field_path@,
            x.btree.meta.config,
            key.0,
            raw,
        );
    }
}

} // verus!
