//! Documents and secondary indexes of a collection.

use vstd::prelude::*;

use crate::btree::entries::lookup;
use crate::btree::fill::{least, lemma_small_tree, path_grown, small_tree, SURE_ENTRIES};
use crate::btree::key::{Key, NoConfig};
use crate::btree::node::{internal_cap, leaf_cap, Entry};
use crate::btree::BTree;
use crate::buffer::pool::saved_kept;
use crate::bytes::{be_bytes, be_val, lex_lt};
use crate::collection::heap::{chain_of, Loc};
use crate::collection::packing::{defragmented, dense, lemma_dense_step};
use crate::collection::raws::{
    keys_ascend, lemma_raw_rank, raw_lookup, raw_rank, rows_of, selected, with_raw, without_raw,
    KeyBound, RawDoc,
};
use crate::collection::store::{stored, PageWriteRecord};
use crate::collection::{
    file_heap, law_flushed_files_reopen, law_keys_ascend, lemma_page_counts, logged,
    same_documents, valid_files, Collection,
};
use crate::document::value::{value_wf, Value, ValueM};
use crate::document::{doc_parse, Document};
use crate::error::{GrumpyError, Result};
use crate::index::encoding::sortable;
use crate::index::{
    after_indexing, after_unindexing, between_values, docs_of, equals_value, ids_of, index_entries,
    lemma_index_least, picked, rebuild_stopped, refuses, IndexDefinition, SecondaryIndex, INDEX_MAX_KEY_SIZE,
};
use crate::page::manager::{capped, contents};
use crate::page::overflow::chunk_count;
use crate::text::{owned, str_eq};
use crate::uid::Uuid;

verus! {

/// The index with a given name.
pub open spec fn index_named(idxs: Seq<SecondaryIndex>, name: Seq<char>) -> Option<int>
    decreases idxs.len(),
{
    if idxs.len() == 0 {
        None
    } else {
        match index_named(idxs.drop_last(), name) {
            Some(i) => Some(i),
            None => if idxs.last().def.name@ == name {
                Some(idxs.len() - 1)
            } else {
                None
            },
        }
    }
}

/// The index is one that has that name.
pub proof fn lemma_index_named(idxs: Seq<SecondaryIndex>, name: Seq<char>)
    ensures
        index_named(idxs, name) matches Some(i) ==> 0 <= i < idxs.len() && idxs[i].def.name@
            == name,
        index_named(idxs, name) is None ==> forall|i: int|
            0 <= i < idxs.len() ==> (#[trigger] idxs[i]).def.name@ != name,
    decreases idxs.len(),
{
    if idxs.len() > 0 {
        let f = idxs.drop_last();
        lemma_index_named(f, name);
        if index_named(idxs, name) is None {
            assert forall|i: int| 0 <= i < idxs.len() implies (
            #[trigger] idxs[i]).def.name@ != name by {
                if i < f.len() {
                    assert(f[i] == idxs[i]);
                }
            }
        }
    }
}

/// The key that bytes stand for.
pub open spec fn key_id(k: Seq<u8>) -> u128 {
    be_val(k) as u128
}

/// The entries of a new index on `path` over stored documents; `None` if one
/// of them cannot be read or indexed.
pub open spec fn built_index(rs: Seq<RawDoc>, path: Seq<char>, max_key: u16) -> Option<Seq<Entry>>
    decreases rs.len(),
{
    if rs.len() == 0 {
        Some(Seq::empty())
    } else {
        match built_index(rs.drop_last(), path, max_key) {
            None => None,
            Some(es) => match doc_parse(rs.last().1) {
                Err(_) => None,
                Ok((_, m)) => after_indexing(es, m, path, key_id(rs.last().0), max_key),
            },
        }
    }
}

/// The tree `t` of an index on `path` holds the first `n` of stored documents.
pub open spec fn built_from(t: BTree<Vec<u8>>, rs: Seq<RawDoc>, path: Seq<char>, n: int) -> bool {
    &&& 0 <= n <= rs.len()
    &&& t.wf()
    &&& t.filled()
    &&& t.meta.config == INDEX_MAX_KEY_SIZE
    &&& built_index(rs.take(n), path, INDEX_MAX_KEY_SIZE) == Some(t.entries())
}

/// A new index on `path` took stored documents in order up to one that cannot
/// be read, or that its tree refuses. Page IDs last for a moderate number of
/// documents.
pub open spec fn build_stopped(rs: Seq<RawDoc>, path: Seq<char>, e: GrumpyError) -> bool {
    &&& e is PageFull ==> rs.len() > SURE_ENTRIES
    &&& !(e is PageFull) ==> built_index(rs, path, INDEX_MAX_KEY_SIZE) is None
    &&& exists|t: BTree<Vec<u8>>, n: int|
        {
            &&& #[trigger] built_from(t, rs, path, n)
            &&& n < rs.len()
            &&& match doc_parse(rs[n].1) {
                Err(text) => e is Codec && (e->Codec_0)@ == text,
                Ok((_, m)) => refuses(t, m, path, key_id(rs[n].0), e),
            }
        }
}

proof fn lemma_unbuildable(rs: Seq<RawDoc>, path: Seq<char>, max_key: u16, n: int)
    requires
        0 <= n <= rs.len(),
        built_index(rs.take(n), path, max_key) is None,
    ensures
        built_index(rs, path, max_key) is None,
    decreases rs.len() - n,
{
    if n < rs.len() {
        assert(rs.take(n + 1).drop_last() =~= rs.take(n));
        lemma_unbuildable(rs, path, max_key, n + 1);
    } else {
        assert(rs.take(n) =~= rs);
    }
}

/// From `a` to `b` an index took in a document, as far as it could.
pub open spec fn reindexed(a: SecondaryIndex, b: SecondaryIndex, doc: ValueM, id: u128) -> bool {
    &&& b.wf()
    &&& b.def == a.def
    &&& b.btree.meta.config == a.btree.meta.config
    &&& match after_indexing(
        a.entries(),
        doc,
        a.def.field_path@,
        id,
        a.btree.meta.config,
    ) {
        Some(es) => if a.btree.has_room() {
            b.entries() == es
        } else {
            b == a
        },
        None => b == a,
    }
}

/// From `a` to `b` an index let go of a document.
pub open spec fn unindexed(a: SecondaryIndex, b: SecondaryIndex, doc: ValueM, id: u128) -> bool {
    &&& b.wf()
    &&& b.def == a.def
    &&& b.btree.meta.config == a.btree.meta.config
    &&& a.btree.has_room() ==> b.btree.has_room()
    &&& b.entries() == after_unindexing(a.entries(), doc, a.def.field_path@, id)
}

/// The documents with given keys, in order; keys without a document are passed
/// over. `Err` with the text of the first document that cannot be read.
pub open spec fn fetched(rs: Seq<RawDoc>, ids: Seq<u128>) -> std::result::Result<
    Seq<(u128, ValueM)>,
    Seq<char>,
>
    decreases ids.len(),
{
    if ids.len() == 0 {
        Ok(Seq::empty())
    } else {
        match fetched(rs, ids.drop_last()) {
            Err(e) => Err(e),
            Ok(front) => match raw_lookup(rs, be_bytes(ids.last() as nat, 16)) {
                None => Ok(front),
                Some(raw) => match doc_parse(raw) {
                    Err(e) => Err(e),
                    Ok((_, m)) => Ok(front.push((ids.last(), m))),
                },
            },
        }
    }
}

proof fn lemma_fetch_fails(rs: Seq<RawDoc>, ids: Seq<u128>, n: int, e: Seq<char>)
    requires
        0 <= n <= ids.len(),
        fetched(rs, ids.take(n)) == Err::<Seq<(u128, ValueM)>, Seq<char>>(e),
    ensures
        fetched(rs, ids) == Err::<Seq<(u128, ValueM)>, Seq<char>>(e),
    decreases ids.len() - n,
{
    if n < ids.len() {
        assert(ids.take(n + 1).drop_last() =~= ids.take(n));
        lemma_fetch_fails(rs, ids, n + 1, e);
    } else {
        assert(ids.take(n) =~= ids);
    }
}

/// The stored bytes are a tombstone.
pub open spec fn is_tombstone_raw(raw: Seq<u8>) -> bool {
    doc_parse(raw) matches Ok(d) && d.1 is Tombstone
}

/// The documents that are not tombstones.
pub open spec fn live_docs(rs: Seq<RawDoc>) -> Seq<RawDoc>
    decreases rs.len(),
{
    if rs.len() == 0 {
        Seq::empty()
    } else {
        let front = live_docs(rs.drop_last());
        if is_tombstone_raw(rs.last().1) {
            front
        } else {
            front.push(rs.last())
        }
    }
}

/// The documents that compaction keeps: all, or with `purge` those that are no
/// tombstones.
pub open spec fn kept_docs(rs: Seq<RawDoc>, purge: bool) -> Seq<RawDoc> {
    if purge {
        live_docs(rs)
    } else {
        rs
    }
}

/// The documents that can be read.
pub open spec fn readable_docs(rs: Seq<RawDoc>) -> Seq<(u128, ValueM)>
    decreases rs.len(),
{
    if rs.len() == 0 {
        Seq::empty()
    } else {
        let front = readable_docs(rs.drop_last());
        match doc_parse(rs.last().1) {
            Ok((_, m)) => front.push((key_id(rs.last().0), m)),
            Err(_) => front,
        }
    }
}

/// Indexes can be built over all documents.
#[verifier::opaque]
pub open spec fn all_indexable(idxs: Seq<SecondaryIndex>, docs: Seq<(u128, ValueM)>) -> bool {
    forall|i: int|
        0 <= i < idxs.len() ==> index_entries(
            docs,
            (#[trigger] idxs[i]).def.field_path@,
            INDEX_MAX_KEY_SIZE,
        ) is Some
}

/// How many pages documents take at most.
pub open spec fn pages_needed(rs: Seq<RawDoc>) -> int
    decreases rs.len(),
{
    if rs.len() == 0 {
        0
    } else {
        pages_needed(rs.drop_last()) + chunk_count(rs.last().1.len()) + 1
    }
}

pub proof fn lemma_live_docs(rs: Seq<RawDoc>)
    requires
        keys_ascend(rs),
    ensures
        keys_ascend(live_docs(rs)),
        live_docs(rs).len() <= rs.len(),
        live_docs(rs).len() > 0 ==> rs.len() > 0 && !lex_lt(
            rs.last().0,
            live_docs(rs).last().0,
        ) && (live_docs(rs).last().0 == rs.last().0 || lex_lt(
            live_docs(rs).last().0,
            rs.last().0,
        )),
        pages_needed(live_docs(rs)) <= pages_needed(rs),
    decreases rs.len(),
{
    if rs.len() > 0 {
        let f = rs.drop_last();
        assert(keys_ascend(f)) by {
            assert forall|i: int, j: int| 0 <= i < j < f.len() implies lex_lt(
                (#[trigger] f[i]).0,
                (#[trigger] f[j]).0,
            ) by {
                assert(lex_lt(rs[i].0, rs[j].0));
            }
        }
        lemma_live_docs(f);
        let lf = live_docs(f);
        let k = rs.last().0;
        if lf.len() > 0 {
            assert(lex_lt(rs[rs.len() - 2].0, rs[rs.len() - 1].0));
            assert(f.last() == rs[rs.len() - 2]);
            if lex_lt(lf.last().0, f.last().0) {
                crate::bytes::lemma_lex_transitive(lf.last().0, f.last().0, k);
            }
            crate::bytes::lemma_lex_asymmetric(lf.last().0, k);
        }
        crate::bytes::lemma_lex_irreflexive(k);
        let l = live_docs(rs);
        if !is_tombstone_raw(rs.last().1) {
            assert(l.drop_last() =~= lf);
            assert forall|i: int, j: int| 0 <= i < j < l.len() implies lex_lt(
                (#[trigger] l[i]).0,
                (#[trigger] l[j]).0,
            ) by {
                if j < lf.len() {
                    assert(lex_lt(lf[i].0, lf[j].0));
                } else if i < lf.len() - 1 {
                    assert(lex_lt(lf[i].0, lf[lf.len() - 1].0));
                    crate::bytes::lemma_lex_transitive(lf[i].0, lf.last().0, k);
                }
            }
        }
    }
}

/// The documents that compaction keeps are in order.
pub proof fn lemma_kept_docs(rs: Seq<RawDoc>, purge: bool)
    requires
        keys_ascend(rs),
    ensures
        keys_ascend(kept_docs(rs, purge)),
        kept_docs(rs, purge).len() <= rs.len(),
        kept_docs(rs, purge).len() > 0 ==> rs.len() > 0 && (kept_docs(rs, purge).last().0
            == rs.last().0 || lex_lt(kept_docs(rs, purge).last().0, rs.last().0)),
{
    lemma_live_docs(rs);
}

/// A key past all others goes to the end.
pub proof fn lemma_append_raw(rs: Seq<RawDoc>, k: Seq<u8>, b: Seq<u8>)
    requires
        keys_ascend(rs),
        rs.len() > 0 ==> lex_lt(rs.last().0, k),
    ensures
        raw_lookup(rs, k) is None,
        with_raw(rs, k, b) == rs.push((k, b)),
{
    lemma_raw_rank(rs, k);
    let p = raw_rank(rs, k);
    if p < rs.len() {
        assert(!lex_lt(rs[p].0, k));
        if p < rs.len() - 1 {
            assert(lex_lt(rs[p].0, rs[rs.len() - 1].0));
            crate::bytes::lemma_lex_transitive(rs[p].0, rs.last().0, k);
        }
    }
    assert(rs.insert(rs.len() as int, (k, b)) =~= rs.push((k, b)));
}

proof fn lemma_select_all(rs: Seq<RawDoc>)
    ensures
        selected(rs, KeyBound::Unbounded, KeyBound::Unbounded) == rs,
    decreases rs.len(),
{
    if rs.len() > 0 {
        lemma_select_all(rs.drop_last());
        assert(rs.drop_last().push(rs.last()) =~= rs);
    } else {
        assert(rs =~= Seq::<RawDoc>::empty());
    }
}

impl Collection {
    /// Inserts a document and updates all secondary indexes.
    pub fn insert_doc(&mut self, key: Uuid, value: &Value, encoded: &[u8]) -> (r: Result<
        (Loc, Vec<PageWriteRecord>),
    >)
        requires
            old(self).wf(),
            value_wf(value.model()),
        ensures
            final(self).wf(),
            final(self).name == old(self).name,
            final(self).data.pool.frames@.len() == old(self).data.pool.frames@.len(),
            r is Ok == (raw_lookup(old(self).raws(), key.spec_bytes()) is None && old(
                self).has_room(encoded@.len()) && old(self).framed()),
            match r {
                Ok(t) => {
                    &&& final(self).raws() == with_raw(
                        old(self).raws(),
                        key.spec_bytes(),
                        encoded@,
                    )
                    &&& logged(*old(self), *final(self), t.0.0, t.1@)
                    &&& stored(old(self).data, final(self).data, encoded@, t.0)
                    &&& final(self).secondary_indexes@.len() == old(
                        self).secondary_indexes@.len()
                    &&& forall|i: int|
                        0 <= i < old(self).secondary_indexes@.len() ==> reindexed(
                            old(self).secondary_indexes@[i],
                            #[trigger] final(self).secondary_indexes@[i],
                            value.model(),
                            key.0,
                        )
                },
                Err(e) => {
                    &&& *final(self) == *old(self)
                    &&& if raw_lookup(old(self).raws(), key.spec_bytes()) is Some {
                        e == GrumpyError::DuplicateKey(key)
                    } else if !old(self).has_room(encoded@.len()) {
                        e == GrumpyError::PageFull(old(self).data.current)
                    } else {
                        e == GrumpyError::BufferPoolExhausted
                    }
                },
            },
    {
        proof {
            reveal(Collection::wf);
            reveal(Collection::raws);
        }
        match self.insert_raw(key, encoded) {
            Ok(t) => {
                self.index_doc_in_secondaries(&key, value);
                Ok(t)
            },
            Err(e) => Err(e),
        }
    }

    /// Deletes a document and removes it from all secondary indexes.
    pub fn delete_doc(&mut self, key: &Uuid, value: &Value) -> (r: Result<Vec<PageWriteRecord>>)
        requires
            old(self).wf(),
            value_wf(value.model()),
        ensures
            final(self).wf(),
            final(self).name == old(self).name,
            final(self).data.pool.frames@.len() == old(self).data.pool.frames@.len(),
            final(self).data.pool.pm.count() == old(self).data.pool.pm.count(),
            final(self).btree.pm.count() == old(self).btree.pm.count(),
            final(self).btree.meta.height <= old(self).btree.meta.height,
            final(self).btree.meta.num_entries <= old(self).btree.meta.num_entries,
            final(self).secondary_indexes@.len() == old(self).secondary_indexes@.len(),
            forall|i: int|
                0 <= i < old(self).secondary_indexes@.len() ==> unindexed(
                    old(self).secondary_indexes@[i],
                    #[trigger] final(self).secondary_indexes@[i],
                    value.model(),
                    key.0,
                ),
            r is Ok == (raw_lookup(old(self).raws(), key.spec_bytes()) is Some && old(
                self).framed()),
            match r {
                Ok(recs) => {
                    &&& final(self).raws() == without_raw(old(self).raws(), key.spec_bytes())
                    &&& logged(
                        *old(self),
                        *final(self),
                        (lookup(old(self).btree.entries(), key.spec_bytes())->0).0,
                        recs@,
                    )
                    &&& final(self).data.pool.pm.free_ids() == capped(
                        old(self).data.pool.pm.free_ids() + chain_of(
                            old(self).chains@,
                            lookup(old(self).btree.entries(), key.spec_bytes())->0,
                        ),
                    )
                },
                Err(e) => {
                    &&& final(self).raws() == old(self).raws()
                    &&& if raw_lookup(old(self).raws(), key.spec_bytes()) is None {
                        e == GrumpyError::KeyNotFound(*key)
                    } else {
                        e == GrumpyError::BufferPoolExhausted
                    }
                },
            },
    {
        proof {
            reveal(Collection::wf);
            reveal(Collection::raws);
        }
        self.unindex_doc_from_secondaries(key, value);
        self.delete_raw(key)
    }

    /// Updates all secondary indexes after an insert.
    fn index_doc_in_secondaries(&mut self, key: &Uuid, value: &Value)
        requires
            old(self).wf(),
            value_wf(value.model()),
        ensures
            *final(self) == (Collection {
                secondary_indexes: final(self).secondary_indexes,
                ..*old(self)
            }),
            final(self).wf(),
            final(self).secondary_indexes@.len() == old(self).secondary_indexes@.len(),
            forall|i: int|
                0 <= i < old(self).secondary_indexes@.len() ==> reindexed(
                    old(self).secondary_indexes@[i],
                    #[trigger] final(self).secondary_indexes@[i],
                    value.model(),
                    key.0,
                ),
    {
        proof {
            reveal(Collection::wf);
            reveal(Collection::raws);
        }
        let ghost c0 = *self;
        let mut i: usize = 0;
        while i < self.secondary_indexes.len()
            invariant
                c0.wf(),
                *self == (Collection { secondary_indexes: self.secondary_indexes, ..c0 }),
                self.secondary_indexes@.len() == c0.secondary_indexes@.len(),
                i <= self.secondary_indexes@.len(),
                value_wf(value.model()),
                forall|j: int|
                    0 <= j < i ==> reindexed(
                        c0.secondary_indexes@[j],
                        #[trigger] self.secondary_indexes@[j],
                        value.model(),
                        key.0,
                    ),
                forall|j: int|
                    i <= j < c0.secondary_indexes@.len() ==> #[trigger] self.secondary_indexes@[j]
                        == c0.secondary_indexes@[j],
            decreases c0.secondary_indexes@.len() - i,
        {
            proof {
                reveal(Collection::wf);
                assert(self.secondary_indexes@[i as int] == c0.secondary_indexes@[i as int]);
                assert(c0.secondary_indexes@[i as int].wf());
            }
            let idx: &mut SecondaryIndex = &mut self.secondary_indexes[i];
            let _ = idx.index_document(key, value);
            i = i + 1;
        }
    }

    /// Removes a document from all secondary indexes.
    fn unindex_doc_from_secondaries(&mut self, key: &Uuid, value: &Value)
        requires
            old(self).wf(),
            value_wf(value.model()),
        ensures
            *final(self) == (Collection {
                secondary_indexes: final(self).secondary_indexes,
                ..*old(self)
            }),
            final(self).wf(),
            final(self).secondary_indexes@.len() == old(self).secondary_indexes@.len(),
            forall|i: int|
                0 <= i < old(self).secondary_indexes@.len() ==> unindexed(
                    old(self).secondary_indexes@[i],
                    #[trigger] final(self).secondary_indexes@[i],
                    value.model(),
                    key.0,
                ),
    {
        proof {
            reveal(Collection::wf);
            reveal(Collection::raws);
        }
        let ghost c0 = *self;
        let mut i: usize = 0;
        while i < self.secondary_indexes.len()
            invariant
                c0.wf(),
                *self == (Collection { secondary_indexes: self.secondary_indexes, ..c0 }),
                self.secondary_indexes@.len() == c0.secondary_indexes@.len(),
                i <= self.secondary_indexes@.len(),
                value_wf(value.model()),
                forall|j: int|
                    0 <= j < i ==> unindexed(
                        c0.secondary_indexes@[j],
                        #[trigger] self.secondary_indexes@[j],
                        value.model(),
                        key.0,
                    ),
                forall|j: int|
                    i <= j < c0.secondary_indexes@.len() ==> #[trigger] self.secondary_indexes@[j]
                        == c0.secondary_indexes@[j],
            decreases c0.secondary_indexes@.len() - i,
        {
            proof {
                reveal(Collection::wf);
                assert(self.secondary_indexes@[i as int] == c0.secondary_indexes@[i as int]);
                assert(c0.secondary_indexes@[i as int].wf());
            }
            let idx: &mut SecondaryIndex = &mut self.secondary_indexes[i];
            let _ = idx.unindex_document(key, value);
            i = i + 1;
        }
    }

    /// The place of the index with a given name.
    pub(crate) fn find_index(&self, name: &str) -> (r: Option<usize>)
        ensures
            match r {
                Some(i) => i < self.secondary_indexes@.len() && index_named(
                    self.secondary_indexes@,
                    name@,
                ) == Some(i as int),
                None => index_named(self.secondary_indexes@, name@) is None,
            },
    {
        let ghost all = self.secondary_indexes@;
        let mut i: usize = 0;
        assert(all.take(0) =~= Seq::<SecondaryIndex>::empty());
        while i < self.secondary_indexes.len()
            invariant
                all == self.secondary_indexes@,
                i <= all.len(),
                index_named(all.take(i as int), name@) is None,
            decreases all.len() - i,
        {
            proof {
                assert(all.take(i + 1).drop_last() =~= all.take(i as int));
                assert(all.take(i + 1).last() == all[i as int]);
            }
            if str_eq(self.secondary_indexes[i].def.name.as_str(), name) {
                proof {
                    lemma_named_first(all, name@, i + 1);
                }
                return Some(i);
            }
            i = i + 1;
        }
        assert(all.take(i as int) =~= all);
        None
    }

    /// Creates a secondary index on a field path and rebuilds it from existing
    /// docs.
    pub fn create_index(&mut self, name: &str, field_path: &str) -> (r: Result<()>)
        requires
            old(self).wf(),
        ensures
            final(self).wf(),
            final(self).name == old(self).name,
            final(self).raws() == old(self).raws(),
            final(self).data.pool.frames@.len() == old(self).data.pool.frames@.len(),
            final(self).data.pool.pm.count() == old(self).data.pool.pm.count(),
            saved_kept(old(self).data.pool, final(self).data.pool, -1),
            index_named(old(self).secondary_indexes@, name@) is Some ==> r is Err && r->Err_0 is IndexAlreadyExists
                && (r->Err_0->IndexAlreadyExists_0)@ == name@ && *final(self) == *old(self),
            index_named(old(self).secondary_indexes@, name@) is None ==> match r {
                Ok(_) => {
                    &&& final(self).secondary_indexes@.len() == old(
                        self).secondary_indexes@.len() + 1
                    &&& final(self).secondary_indexes@.drop_last() == old(self).secondary_indexes@
                    &&& final(self).secondary_indexes@.last().def.name@ == name@
                    &&& final(self).secondary_indexes@.last().def.field_path@ == field_path@
                    &&& final(self).secondary_indexes@.last().btree.meta.config
                        == INDEX_MAX_KEY_SIZE
                    &&& built_index(old(self).raws(), field_path@, INDEX_MAX_KEY_SIZE) == Some(
                        final(self).secondary_indexes@.last().entries(),
                    )
                },
                Err(e) => {
                    &&& final(self).secondary_indexes == old(self).secondary_indexes
                    &&& if !old(self).framed() && old(self).raws().len() > 0 {
                        e == GrumpyError::BufferPoolExhausted
                    } else {
                        build_stopped(old(self).raws(), field_path@, e)
                    }
                },
            },
            r is Ok ==> old(self).framed() || old(self).raws().len() == 0,
    {
        proof {
            reveal(Collection::wf);
            reveal(Collection::raws);
        }
        let ghost c0 = *self;
        let ghost path = field_path@;
        if self.find_index(name).is_some() {
            return Err(GrumpyError::IndexAlreadyExists(owned(name)));
        }
        let def: IndexDefinition = IndexDefinition {
            name: owned(name),
            field_path: owned(field_path),
        };
        proof {
            lemma_select_all(c0.raws());
        }
        let rows: Vec<(Uuid, Vec<u8>)> = match self.scan_raw(
            &KeyBound::Unbounded,
            &KeyBound::Unbounded,
        ) {
            Ok(v) => v,
            Err(e) => {
                return Err(e);
            },
        };
        let idx: SecondaryIndex = match build_index(def, &rows) {
            Ok(x) => x,
            Err(e) => {
                return Err(e);
            },
        };
        let ghost olds = self.secondary_indexes@;
        self.secondary_indexes.push(idx);
        assert(self.secondary_indexes@.drop_last() =~= olds);
        Ok(())
    }

    /// Drops a secondary index by name.
    pub fn drop_index(&mut self, name: &str) -> (r: Result<()>)
        requires
            old(self).wf(),
        ensures
            final(self).wf(),
            final(self).name == old(self).name,
            final(self).raws() == old(self).raws(),
            final(self).data == old(self).data,
            final(self).btree == old(self).btree,
            match index_named(old(self).secondary_indexes@, name@) {
                Some(i) => r is Ok && final(self).secondary_indexes@ == old(
                    self).secondary_indexes@.remove(i),
                None => r is Err && r->Err_0 is IndexNotFound && (r->Err_0->IndexNotFound_0)@
                    == name@ && *final(self) == *old(self),
            },
    {
        proof {
            reveal(Collection::wf);
            reveal(Collection::raws);
        }
        match self.find_index(name) {
            Some(i) => {
                let ghost olds = self.secondary_indexes@;
                self.secondary_indexes.remove(i);
                assert forall|j: int| 0 <= j < self.secondary_indexes@.len() implies (
                #[trigger] self.secondary_indexes@[j]).wf() by {
                    let m = if j < i {
                        j
                    } else {
                        j + 1
                    };
                    assert(olds[m].wf());
                }
                Ok(())
            },
            None => Err(GrumpyError::IndexNotFound(owned(name))),
        }
    }

    /// Returns the list of index definitions.
    pub fn list_indexes(&self) -> (r: Vec<IndexDefinition>)
        ensures
            r@.len() == self.secondary_indexes@.len(),
            forall|i: int|
                0 <= i < r@.len() ==> (#[trigger] r@[i]).name@
                    == self.secondary_indexes@[i].def.name@ && r@[i].field_path@
                    == self.secondary_indexes@[i].def.field_path@,
    {
        let mut out: Vec<IndexDefinition> = Vec::new();
        let mut i: usize = 0;
        while i < self.secondary_indexes.len()
            invariant
                i <= self.secondary_indexes@.len(),
                out@.len() == i,
                forall|j: int|
                    0 <= j < i ==> (#[trigger] out@[j]).name@
                        == self.secondary_indexes@[j].def.name@ && out@[j].field_path@
                        == self.secondary_indexes@[j].def.field_path@,
            decreases self.secondary_indexes@.len() - i,
        {
            out.push(self.secondary_indexes[i].def.dup());
            i = i + 1;
        }
        out
    }

    /// Queries a secondary index by exact value match.
    pub fn query_index(&mut self, index_name: &str, value: &Value) -> (r: Result<
        Vec<(Uuid, Value)>,
    >)
        requires
            old(self).wf(),
        ensures
            same_documents(*old(self), *final(self)),
            match index_named(old(self).secondary_indexes@, index_name@) {
                None => r is Err && r->Err_0 is IndexNotFound && (r->Err_0->IndexNotFound_0)@
                    == index_name@,
                Some(i) => match sortable(value.model()) {
                    None => r is Err && r->Err_0 == GrumpyError::NotIndexable,
                    Some(p) => answered(
                        r,
                        old(self).raws(),
                        picked(old(self).secondary_indexes@[i].entries(), equals_value(p)),
                        old(self).framed(),
                    ),
                },
            },
    {
        proof {
            reveal(Collection::wf);
            reveal(Collection::raws);
        }
        let i: usize = match self.find_index(index_name) {
            Some(i) => i,
            None => {
                return Err(GrumpyError::IndexNotFound(owned(index_name)));
            },
        };
        assert(self.secondary_indexes@[i as int].wf());
        match self.secondary_indexes[i].lookup(value) {
            Ok(uuids) => self.fetch_all(&uuids),
            Err(e) => Err(e),
        }
    }

    /// Queries a secondary index by range [start, end).
    pub fn query_index_range(&mut self, index_name: &str, start: &Value, end: &Value) -> (r: Result<
        Vec<(Uuid, Value)>,
    >)
        requires
            old(self).wf(),
        ensures
            same_documents(*old(self), *final(self)),
            match index_named(old(self).secondary_indexes@, index_name@) {
                None => r is Err && r->Err_0 is IndexNotFound && (r->Err_0->IndexNotFound_0)@
                    == index_name@,
                Some(i) => if sortable(start.model()) is None || sortable(end.model()) is None {
                    r is Err && r->Err_0 == GrumpyError::NotIndexable
                } else {
                    answered(
                        r,
                        old(self).raws(),
                        picked(
                            old(self).secondary_indexes@[i].entries(),
                            between_values(
                                sortable(start.model())->0,
                                sortable(end.model())->0,
                            ),
                        ),
                        old(self).framed(),
                    )
                },
            },
    {
        proof {
            reveal(Collection::wf);
            reveal(Collection::raws);
        }
        let i: usize = match self.find_index(index_name) {
            Some(i) => i,
            None => {
                return Err(GrumpyError::IndexNotFound(owned(index_name)));
            },
        };
        assert(self.secondary_indexes@[i as int].wf());
        match self.secondary_indexes[i].range_query(start, end) {
            Ok(uuids) => self.fetch_all(&uuids),
            Err(e) => Err(e),
        }
    }

    /// Reads the documents with given keys.
    fn fetch_all(&mut self, uuids: &Vec<Uuid>) -> (r: Result<Vec<(Uuid, Value)>>)
        requires
            old(self).wf(),
        ensures
            same_documents(*old(self), *final(self)),
            answered(r, old(self).raws(), ids_of(uuids@), old(self).framed()),
    {
        proof {
            reveal(Collection::wf);
            reveal(Collection::raws);
        }
        let ghost c0 = *self;
        let ghost rs = c0.raws();
        let ghost ids = ids_of(uuids@);
        let mut results: Vec<(Uuid, Value)> = Vec::new();
        let mut i: usize = 0;
        assert(ids.take(0) =~= Seq::<u128>::empty());
        assert(docs_of(results@) =~= Seq::<(u128, ValueM)>::empty());
        while i < uuids.len()
            invariant
                c0 == *old(self),
                c0.wf(),
                same_documents(c0, *self),
                rs == c0.raws(),
                ids == ids_of(uuids@),
                i <= uuids@.len(),
                fetched(rs, ids.take(i as int)) == Ok::<Seq<(u128, ValueM)>, Seq<char>>(
                    docs_of(results@),
                ),
                forall|j: int|
                    0 <= j < results@.len() ==> value_wf((#[trigger] results@[j]).1.model()),
                !c0.framed() ==> forall|j: int|
                    0 <= j < i ==> raw_lookup(rs, be_bytes(#[trigger] ids[j] as nat, 16)) is None,
            decreases uuids@.len() - i,
        {
            proof {
                assert(ids[i as int] == uuids@[i as int].0);
                assert(ids.take(i + 1).drop_last() =~= ids.take(i as int));
                assert(ids.take(i + 1).last() == ids[i as int]);
            }
            let id: Uuid = uuids[i];
            match self.get_raw(&id) {
                Ok(Some(raw)) => {
                    let doc: Document = match Document::decode(raw.as_slice()) {
                        Ok(d) => d,
                        Err(e) => {
                            proof {
                                lemma_fetch_fails(rs, ids, i + 1, (e->Codec_0)@);
                            }
                            return Err(e);
                        },
                    };
                    let ghost before = results@;
                    let ghost row = (id.0, doc.value.model());
                    results.push((id, doc.value));
                    assert(docs_of(results@) =~= docs_of(before).push(row));
                },
                Ok(None) => {},
                Err(e) => {
                    return Err(e);
                },
            }
            i = i + 1;
        }
        assert(ids.take(i as int) =~= ids);
        Ok(results)
    }

    /// Compacts: defragments data pages and rebuilds the primary index and the
    /// secondary ones. Returns how many documents there are.
    pub fn compact(&mut self) -> (r: Result<u64>)
        requires
            old(self).wf(),
        ensures
            compacted(*old(self), *final(self), r, false),
    {
        self.compact_kept(false)
    }

    /// Compacts and drops tombstones on the way. Returns how many documents
    /// are left.
    pub fn compact_live(&mut self) -> (r: Result<u64>)
        requires
            old(self).wf(),
        ensures
            compacted(*old(self), *final(self), r, true),
    {
        self.compact_kept(true)
    }

    fn compact_kept(&mut self, purge: bool) -> (r: Result<u64>)
        requires
            old(self).wf(),
        ensures
            compacted(*old(self), *final(self), r, purge),
    {
        proof {
            reveal(Collection::wf);
            reveal(Collection::raws);
        }
        let ghost c0 = *self;
        let ghost rs = c0.raws();
        let capacity: usize = self.data.pool.capacity();
        proof {
            lemma_select_all(rs);
            law_keys_ascend(c0);
        }
        let rows: Vec<(Uuid, Vec<u8>)> = match self.scan_raw(
            &KeyBound::Unbounded,
            &KeyBound::Unbounded,
        ) {
            Ok(v) => v,
            Err(e) => {
                return Err(e);
            },
        };
        let rebuilt: Collection = match Collection::rebuilt(
            self.name.as_str(),
            &rows,
            capacity,
            purge,
        ) {
            Ok(c) => c,
            Err(e) => {
                return Err(e);
            },
        };
        self.data = rebuilt.data;
        self.btree = rebuilt.btree;
        self.chains = rebuilt.chains;
        proof {
            assert(self.raws() == kept_docs(rs, purge));
        }
        let count: u64 = self.btree.len();
        let docs: Vec<(Uuid, Value)> = decoded_kept(&rows, purge);
        match rebuild_indexes(&mut self.secondary_indexes, &docs) {
            Ok(_) => Ok(count),
            Err(e) => Err(e),
        }
    }

    /// A new collection of the documents that are kept.
    #[verifier::rlimit(40)]
    fn rebuilt(name: &str, rows: &Vec<(Uuid, Vec<u8>)>, capacity: usize, purge: bool) -> (r: Result<
        Self,
    >)
        requires
            capacity >= 1 || rows@.len() == 0,
            keys_ascend(rows_of(rows@)),
        ensures
            match r {
                Ok(c) => c.wf() && c.raws() == kept_docs(rows_of(rows@), purge) && c.name@ == name@
                    && c.data.pool.frames@.len() == capacity && c.secondary_indexes@.len() == 0
                    && contents(c.data.pool.pm) == c.data.heap().pages && defragmented(
                    c.data,
                    c.raws(),
                ),
                Err(e) => out_of_pages(kept_docs(rows_of(rows@), purge), e),
            },
            rows@.len() <= SURE_ENTRIES && pages_needed(rows_of(rows@)) < 0xffff_0000 ==> r is Ok,
    {
        proof {
            reveal(Collection::wf);
            reveal(Collection::raws);
        }
        let ghost rs = rows_of(rows@);
        let none: Vec<u8> = Vec::new();
        let mut fresh: Collection = match Collection::open(
            name,
            none.as_slice(),
            none.as_slice(),
            capacity,
        ) {
            Ok(c) => c,
            Err(e) => {
                return Err(e);
            },
        };
        let mut i: usize = 0;
        let ghost mut n: int = 0;
        assert(rs.take(0) =~= Seq::<RawDoc>::empty());
        while i < rows.len()
            invariant
                rs == rows_of(rows@),
                capacity >= 1 || rows@.len() == 0,
                keys_ascend(rs),
                i <= rows@.len(),
                0 <= n <= i,
                n == fresh.raws().len(),
                fresh.wf(),
                fresh.name@ == name@,
                fresh.secondary_indexes@.len() == 0,
                fresh.data.pool.frames@.len() == capacity,
                fresh.raws() == kept_docs(rs.take(i as int), purge),
                fresh.data.pool.pm.count() <= 2 + pages_needed(rs.take(i as int)),
                rows@.len() <= SURE_ENTRIES ==> small_tree(fresh.btree, n),
                fresh.btree.filled(),
                dense(fresh.data, fresh.raws()),
            decreases rows@.len() - i,
        {
            let ghost before = fresh;
            proof {
                let t = rs.take(i as int);
                assert(rs.take(i + 1).drop_last() =~= t);
                assert(rs.take(i + 1).last() == rs[i as int]);
                assert(rs[i as int] == (rows@[i as int].0.spec_bytes(), rows@[i as int].1@));
                assert(keys_ascend(t)) by {
                    assert forall|x: int, y: int| 0 <= x < y < t.len() implies lex_lt(
                        (#[trigger] t[x]).0,
                        (#[trigger] t[y]).0,
                    ) by {
                        assert(lex_lt(rs[x].0, rs[y].0));
                    }
                }
                lemma_kept_docs(t, purge);
                let l = kept_docs(t, purge);
                assert(rs.take(i + 1) =~= t.push(rs[i as int]));
                if l.len() > 0 {
                    assert(t.last() == rs[i - 1]);
                    assert(lex_lt(rs[i - 1].0, rs[i as int].0));
                    if lex_lt(l.last().0, t.last().0) {
                        crate::bytes::lemma_lex_transitive(
                            l.last().0,
                            t.last().0,
                            rs[i as int].0,
                        );
                    }
                }
                lemma_append_raw(l, rs[i as int].0, rs[i as int].1);
            }
            if !purge || !is_tombstone_bytes(rows[i].1.as_slice()) {
                match fresh.insert_raw(rows[i].0, rows[i].1.as_slice()) {
                    Ok((loc, _)) => {
                        proof {
                            lemma_dense_step(
                                before.data,
                                fresh.data,
                                before.raws(),
                                rs[i as int],
                                loc,
                            );
                            lemma_uuid_least();
                            lemma_page_counts(before);
                            if rows@.len() <= SURE_ENTRIES {
                                lemma_small_tree(before.btree, fresh.btree, n);
                            }
                            n = n + 1;
                        }
                    },
                    Err(e) => {
                        proof {
                            lemma_room(before, rs, i as int, n);
                            let docs = kept_docs(rs, purge);
                            lemma_kept_prefix(rs, purge, i as int);
                            lemma_kept_prefix(rs, purge, i + 1);
                            let u = kept_docs(rs.take(i + 1), purge);
                            assert(u =~= kept_docs(rs.take(i as int), purge).push(rs[i as int]));
                            assert(docs[n] == u[n]);
                            assert(filled_with(before, docs, n));
                        }
                        return Err(e);
                    },
                }
            }
            i = i + 1;
        }
        assert(rs.take(i as int) =~= rs);
        proof {
            assert forall|x: int| !(#[trigger] fresh.data.heap().free.contains(x)) by {}
        }
        let ghost full = fresh;
        let _ = fresh.flush();
        let ghost flushed = fresh;
        proof {
            law_flushed_files_reopen(flushed);
            assert(file_heap(flushed.data.pool.pm) == flushed.data.heap());
            assert(file_heap(flushed.data.pool.pm).data_page(flushed.data.current));
        }
        if fresh.data.pool.pm.num_pages() == u32::MAX {
            proof {
                let docs = kept_docs(rs, purge);
                assert(docs.take(n) =~= docs);
                assert(filled_with(full, docs, n));
            }
            return Err(GrumpyError::PageFull(fresh.data.current));
        }
        let reopened: Result<Collection> = Collection::attach(
            name,
            fresh.data.pool.pm,
            fresh.btree,
            capacity,
        );
        proof {
            let c = reopened->Ok_0;
            assert(valid_files(flushed.data.pool.pm, flushed.btree, flushed.chains@));
            assert(c.data.heap().free =~= flushed.data.heap().free);
        }
        reopened
    }
}

/// What is kept of the first documents comes first in what is kept of all.
proof fn lemma_kept_prefix(rs: Seq<RawDoc>, purge: bool, i: int)
    requires
        0 <= i <= rs.len(),
    ensures
        kept_docs(rs.take(i), purge).len() <= kept_docs(rs, purge).len(),
        kept_docs(rs.take(i), purge) == kept_docs(rs, purge).take(
            kept_docs(rs.take(i), purge).len() as int,
        ),
    decreases rs.len() - i,
{
    let t = kept_docs(rs.take(i), purge);
    if i < rs.len() {
        lemma_kept_prefix(rs, purge, i + 1);
        let u = kept_docs(rs.take(i + 1), purge);
        assert(rs.take(i + 1).drop_last() =~= rs.take(i));
        assert(rs.take(i + 1).last() == rs[i]);
        assert(t =~= u.take(t.len() as int)) by {
            assert(rs.take(i + 1) =~= rs.take(i).push(rs[i]));
        }
        assert(t =~= kept_docs(rs, purge).take(t.len() as int));
    } else {
        assert(rs.take(i) =~= rs);
        assert(t =~= kept_docs(rs, purge).take(t.len() as int));
    }
}

/// There is room for the next of few enough documents.
proof fn lemma_room(c: Collection, rs: Seq<RawDoc>, i: int, n: int)
    requires
        0 <= n <= i < rs.len(),
        c.wf(),
        c.raws().len() == n,
        c.data.pool.pm.count() <= 2 + pages_needed(rs.take(i)),
        rs.len() <= SURE_ENTRIES ==> small_tree(c.btree, n),
    ensures
        rs.len() <= SURE_ENTRIES && pages_needed(rs) < 0xffff_0000 ==> c.has_room(rs[i].1.len()),
{
    reveal(Collection::wf);
    reveal(Collection::raws);
    if rs.len() <= SURE_ENTRIES && pages_needed(rs) < 0xffff_0000 {
        lemma_pages_prefix(rs, i + 1);
        assert(rs.take(i + 1).drop_last() =~= rs.take(i));
        assert(rs.take(i + 1).last() == rs[i]);
        lemma_uuid_least();
        lemma_page_counts(c);
        assert(path_grown(c.btree, c.btree));
        lemma_small_tree(c.btree, c.btree, n);
    }
}

/// Nodes of a primary index hold several keys.
proof fn lemma_uuid_least()
    ensures
        least::<Uuid>(NoConfig).0 >= 1,
        least::<Uuid>(NoConfig).1 >= 1,
{
    assert(<Uuid as Key>::meta_len() == 0);
    assert(<Uuid as Key>::slot_len(NoConfig) == 16);
    assert(8150int / 22 == 370) by (nonlinear_arith);
    assert(8154int / 20 == 407) by (nonlinear_arith);
    assert(leaf_cap::<Uuid>(NoConfig) == 370);
    assert(internal_cap::<Uuid>(NoConfig) == 407);
}

proof fn lemma_pages_prefix(rs: Seq<RawDoc>, n: int)
    requires
        0 <= n <= rs.len(),
    ensures
        pages_needed(rs.take(n)) <= pages_needed(rs),
    decreases rs.len() - n,
{
    if n < rs.len() {
        lemma_pages_prefix(rs, n + 1);
        assert(rs.take(n + 1).drop_last() =~= rs.take(n));
    } else {
        assert(rs.take(n) =~= rs);
    }
}

/// Builds a new index over stored documents.
fn build_index(def: IndexDefinition, rows: &Vec<(Uuid, Vec<u8>)>) -> (r: Result<SecondaryIndex>)
    ensures
        match r {
            Ok(idx) => idx.wf() && idx.def == def && idx.btree.meta.config == INDEX_MAX_KEY_SIZE
                && built_index(
                rows_of(rows@),
                def.field_path@,
                INDEX_MAX_KEY_SIZE,
            ) == Some(idx.entries()),
            Err(e) => build_stopped(rows_of(rows@), def.field_path@, e),
        },
{
    let ghost path = def.field_path@;
    let ghost rs = rows_of(rows@);
    let ghost def0 = def;
    let mut idx: SecondaryIndex = match SecondaryIndex::create(def) {
        Ok(x) => x,
        Err(e) => {
            return Err(e);
        },
    };
    let mut i: usize = 0;
    assert(rs.take(0) =~= Seq::<RawDoc>::empty());
    while i < rows.len()
        invariant
            rows_of(rows@) == rs,
            rows@.len() == rs.len(),
            i <= rows@.len(),
            path == def0.field_path@,
            def0 == def,
            idx.wf(),
            idx.def == def0,
            idx.btree.meta.config == INDEX_MAX_KEY_SIZE,
            idx.btree.filled(),
            rows@.len() <= SURE_ENTRIES ==> small_tree(idx.btree, i as int),
            built_index(rs.take(i as int), path, INDEX_MAX_KEY_SIZE) == Some(idx.entries()),
        decreases rows@.len() - i,
    {
        proof {
            assert(rs.take(i + 1).drop_last() =~= rs.take(i as int));
            assert(rs.take(i + 1).last() == rs[i as int]);
            assert(rs[i as int] == (rows@[i as int].0.spec_bytes(), rows@[i as int].1@));
            lemma_key_id(rows@[i as int].0);
        }
        let doc: Document = match Document::decode(rows[i].1.as_slice()) {
            Ok(d) => d,
            Err(e) => {
                proof {
                    lemma_unbuildable(rs, path, INDEX_MAX_KEY_SIZE, i + 1);
                    assert(built_from(idx.btree, rs, path, i as int));
                }
                return Err(e);
            },
        };
        let ghost before = idx.btree;
        let done = idx.index_document(&rows[i].0, &doc.value);
        proof {
            lemma_index_least();
            if rows@.len() <= SURE_ENTRIES {
                lemma_small_tree(before, idx.btree, i as int);
            }
        }
        match done {
            Ok(_) => {},
            Err(e) => {
                proof {
                    if !(e is PageFull) {
                        lemma_unbuildable(rs, path, INDEX_MAX_KEY_SIZE, i + 1);
                    }
                    assert(built_from(before, rs, path, i as int));
                }
                return Err(e);
            },
        }
        i = i + 1;
    }
    assert(rs.take(i as int) =~= rs);
    Ok(idx)
}

/// Rebuilds indexes from documents.
fn rebuild_indexes(idxs: &mut Vec<SecondaryIndex>, docs: &Vec<(Uuid, Value)>) -> (r: Result<()>)
    requires
        forall|j: int| 0 <= j < docs@.len() ==> value_wf((#[trigger] docs@[j]).1.model()),
        forall|j: int| 0 <= j < old(idxs)@.len() ==> (#[trigger] old(idxs)@[j]).wf(),
    ensures
        final(idxs)@.len() == old(idxs)@.len(),
        forall|j: int| 0 <= j < old(idxs)@.len() ==> (#[trigger] final(idxs)@[j]).wf(),
        forall|j: int|
            0 <= j < old(idxs)@.len() ==> (#[trigger] final(idxs)@[j]).def == old(idxs)@[j].def,
        match r {
            Ok(_) => first_rebuilt(
                old(idxs)@,
                final(idxs)@,
                docs_of(docs@),
                old(idxs)@.len() as int,
            ),
            Err(e) => rebuilding_stopped(old(idxs)@, final(idxs)@, docs_of(docs@), e) && (
            e is PageFull || !all_indexable(old(idxs)@, docs_of(docs@))),
        },
{
    let ghost old_idxs = idxs@;
    let mut i: usize = 0;
    while i < idxs.len()
        invariant
            idxs@.len() == old_idxs.len(),
            i <= idxs@.len(),
            forall|j: int| 0 <= j < docs@.len() ==> value_wf((#[trigger] docs@[j]).1.model()),
            forall|j: int| 0 <= j < old_idxs.len() ==> (#[trigger] idxs@[j]).wf(),
            forall|j: int| 0 <= j < old_idxs.len() ==> (#[trigger] idxs@[j]).def == old_idxs[j].def,
            first_rebuilt(old_idxs, idxs@, docs_of(docs@), i as int),
            forall|j: int| i <= j < old_idxs.len() ==> #[trigger] idxs@[j] == old_idxs[j],
            old_idxs == old(idxs)@,
        decreases old_idxs.len() - i,
    {
        assert(idxs@[i as int].def == old_idxs[i as int].def);
        let idx: &mut SecondaryIndex = &mut idxs[i];
        match idx.rebuild(docs) {
            Ok(_) => {},
            Err(e) => {
                proof {
                    reveal(all_indexable);
                    if !(e is PageFull) {
                        assert(index_entries(
                            docs_of(docs@),
                            old_idxs[i as int].def.field_path@,
                            INDEX_MAX_KEY_SIZE,
                        ) is None);
                    }
                    assert(stopped_at(old_idxs, idxs@, docs_of(docs@), e, i as int));
                }
                return Err(e);
            },
        }
        i = i + 1;
    }
    Ok(())
}

/// From `a` to `b` the first `k` indexes were rebuilt from documents.
pub open spec fn first_rebuilt(
    a: Seq<SecondaryIndex>,
    b: Seq<SecondaryIndex>,
    docs: Seq<(u128, ValueM)>,
    k: int,
) -> bool {
    forall|i: int|
        0 <= i < k ==> (#[trigger] b[i]).btree.meta.config == INDEX_MAX_KEY_SIZE && index_entries(
            docs,
            a[i].def.field_path@,
            INDEX_MAX_KEY_SIZE,
        ) == Some(b[i].entries())
}

/// From `a` to `b` the indexes before `k` were rebuilt, and that of index `k`
/// stopped at a document that its tree refuses with `e`. Later ones stayed.
pub open spec fn stopped_at(
    a: Seq<SecondaryIndex>,
    b: Seq<SecondaryIndex>,
    docs: Seq<(u128, ValueM)>,
    e: GrumpyError,
    k: int,
) -> bool {
    &&& 0 <= k < a.len()
    &&& first_rebuilt(a, b, docs, k)
    &&& rebuild_stopped(b[k].btree, docs, a[k].def.field_path@, e)
    &&& forall|i: int| k < i < a.len() ==> #[trigger] b[i] == a[i]
}

/// From `a` to `b` indexes were rebuilt from documents up to one that could
/// not be, for the reason `e`.
pub open spec fn rebuilding_stopped(
    a: Seq<SecondaryIndex>,
    b: Seq<SecondaryIndex>,
    docs: Seq<(u128, ValueM)>,
    e: GrumpyError,
) -> bool {
    exists|k: int| #[trigger] stopped_at(a, b, docs, e, k)
}

/// The new collection `c` was filled with the first `n` documents.
pub open spec fn filled_with(c: Collection, docs: Seq<RawDoc>, n: int) -> bool {
    &&& 0 <= n <= docs.len()
    &&& c.wf()
    &&& c.raws() == docs.take(n)
    &&& dense(c.data, c.raws())
    &&& c.btree.filled()
}

/// A new collection that is filled with documents uses up its page IDs.
pub open spec fn out_of_pages(docs: Seq<RawDoc>, e: GrumpyError) -> bool {
    exists|c: Collection, n: int|
        {
            &&& #[trigger] filled_with(c, docs, n)
            &&& if n < docs.len() {
                !c.has_room(docs[n].1.len())
            } else {
                c.data.pool.pm.count() == u32::MAX
            }
            &&& e == GrumpyError::PageFull(c.data.current)
        }
}

/// The collection holds the documents in new files, packed one after the other.
pub open spec fn repacked(b: Collection, docs: Seq<RawDoc>) -> bool {
    &&& b.raws() == docs
    &&& defragmented(b.data, docs)
    &&& contents(b.data.pool.pm) == b.data.heap().pages
}

/// From `a` to `b` a collection was compacted, without its tombstones where
/// `purge` says so. A collection whose documents could not be read, or whose
/// new files could not be filled, is as it was; an index that could not be
/// rebuilt is reported when the documents have been packed.
pub open spec fn compacted(a: Collection, b: Collection, r: Result<u64>, purge: bool) -> bool {
    let docs = kept_docs(a.raws(), purge);
    &&& b.wf()
    &&& b.name@ == a.name@
    &&& b.data.pool.frames@.len() == a.data.pool.frames@.len()
    &&& b.secondary_indexes@.len() == a.secondary_indexes@.len()
    &&& forall|i: int|
        0 <= i < a.secondary_indexes@.len() ==> (#[trigger] b.secondary_indexes@[i]).def
            == a.secondary_indexes@[i].def
    &&& match r {
        Ok(n) => {
            &&& a.framed() || a.raws().len() == 0
            &&& repacked(b, docs)
            &&& n == docs.len()
            &&& first_rebuilt(
                a.secondary_indexes@,
                b.secondary_indexes@,
                readable_docs(docs),
                a.secondary_indexes@.len() as int,
            )
        },
        Err(e) => if !a.framed() && a.raws().len() > 0 {
            e == GrumpyError::BufferPoolExhausted && same_documents(a, b)
        } else {
            ||| out_of_pages(docs, e) && same_documents(a, b)
            ||| repacked(b, docs) && rebuilding_stopped(
                a.secondary_indexes@,
                b.secondary_indexes@,
                readable_docs(docs),
                e,
            )
        },
    }
    &&& all_indexable(a.secondary_indexes@, readable_docs(docs)) && a.framed() && a.raws().len()
        <= SURE_ENTRIES && pages_needed(a.raws()) < 0xffff_0000 ==> r is Ok
}

/// There is a document with one of these keys.
pub open spec fn any_stored(rs: Seq<RawDoc>, ids: Seq<u128>) -> bool {
    exists|i: int|
        0 <= i < ids.len() && raw_lookup(rs, be_bytes(#[trigger] ids[i] as nat, 16)) is Some
}

/// The query gave the documents with the keys `ids`. Without a frame none can
/// be read.
pub open spec fn answered(
    r: Result<Vec<(Uuid, Value)>>,
    rs: Seq<RawDoc>,
    ids: Seq<u128>,
    framed: bool,
) -> bool {
    if !framed && any_stored(rs, ids) {
        r == Err::<Vec<(Uuid, Value)>, GrumpyError>(GrumpyError::BufferPoolExhausted)
    } else {
        read_by_keys(r, rs, ids)
    }
}

/// The documents with the keys `ids` were read.
pub open spec fn read_by_keys(
    r: Result<Vec<(Uuid, Value)>>,
    rs: Seq<RawDoc>,
    ids: Seq<u128>,
) -> bool {
    match r {
        Ok(v) => {
            &&& fetched(rs, ids) == Ok::<Seq<(u128, ValueM)>, Seq<char>>(docs_of(v@))
            &&& forall|i: int| 0 <= i < v@.len() ==> value_wf((#[trigger] v@[i]).1.model())
        },
        Err(e) => e is Codec && fetched(rs, ids) == Err::<Seq<(u128, ValueM)>, Seq<char>>(
            (e->Codec_0)@,
        ),
    }
}

proof fn lemma_named_first(idxs: Seq<SecondaryIndex>, name: Seq<char>, n: int)
    requires
        0 <= n <= idxs.len(),
        index_named(idxs.take(n), name) is Some,
    ensures
        index_named(idxs, name) == index_named(idxs.take(n), name),
    decreases idxs.len() - n,
{
    if n < idxs.len() {
        assert(idxs.take(n + 1).drop_last() =~= idxs.take(n));
        lemma_named_first(idxs, name, n + 1);
    } else {
        assert(idxs.take(n) =~= idxs);
    }
}

/// The bytes of a key stand for it.
pub proof fn lemma_key_id(k: Uuid)
    ensures
        key_id(k.spec_bytes()) == k.0,
{
    crate::bytes::lemma_pow256_values();
    crate::bytes::lemma_be_round_trip(k.0 as nat, 16);
}

/// Whether stored bytes are a tombstone.
fn is_tombstone_bytes(raw: &[u8]) -> (r: bool)
    ensures
        r == is_tombstone_raw(raw@),
{
    match Document::decode(raw) {
        Ok(d) => d.value.is_tombstone(),
        Err(_) => false,
    }
}

/// The documents that can be read and are not tombstones.
fn decoded_kept(rows: &Vec<(Uuid, Vec<u8>)>, purge: bool) -> (r: Vec<(Uuid, Value)>)
    ensures
        docs_of(r@) == readable_docs(kept_docs(rows_of(rows@), purge)),
        r@.len() <= rows@.len(),
        forall|j: int| 0 <= j < r@.len() ==> value_wf((#[trigger] r@[j]).1.model()),
{
    let ghost rs = rows_of(rows@);
    let mut docs: Vec<(Uuid, Value)> = Vec::new();
    let mut i: usize = 0;
    assert(rs.take(0) =~= Seq::<RawDoc>::empty());
    assert(docs_of(docs@) =~= Seq::<(u128, ValueM)>::empty());
    while i < rows.len()
        invariant
            rs == rows_of(rows@),
            i <= rows@.len(),
            docs@.len() <= i,
            docs_of(docs@) == readable_docs(kept_docs(rs.take(i as int), purge)),
            forall|j: int| 0 <= j < docs@.len() ==> value_wf((#[trigger] docs@[j]).1.model()),
        decreases rows@.len() - i,
    {
        let ghost live = kept_docs(rs.take(i as int), purge);
        proof {
            assert(rs.take(i + 1).drop_last() =~= rs.take(i as int));
            assert(rs.take(i + 1).last() == rs[i as int]);
            assert(rs[i as int] == (rows@[i as int].0.spec_bytes(), rows@[i as int].1@));
            lemma_key_id(rows@[i as int].0);
            assert(live.push(rs[i as int]).drop_last() =~= live);
            assert(rs.take(i + 1) =~= rs.take(i as int).push(rs[i as int]));
        }
        match Document::decode(rows[i].1.as_slice()) {
            Ok(d) => {
                if !purge || !d.value.is_tombstone() {
                    let ghost before = docs@;
                    let ghost row = ((rows@[i as int].0).0, d.value.model());
                    docs.push((rows[i].0, d.value));
                    assert(docs_of(docs@) =~= docs_of(before).push(row));
                }
            },
            Err(_) => {},
        }
        i = i + 1;
    }
    assert(rs.take(i as int) =~= rs);
    docs
}

/// Stored documents read in order, or the text of the first that cannot be
/// read.
pub open spec fn decoded_rows(rs: Seq<RawDoc>) -> std::result::Result<
    Seq<(u128, ValueM)>,
    Seq<char>,
>
    decreases rs.len(),
{
    if rs.len() == 0 {
        Ok(Seq::empty())
    } else {
        match decoded_rows(rs.drop_last()) {
            Err(e) => Err(e),
            Ok(front) => match doc_parse(rs.last().1) {
                Ok((_, m)) => Ok(front.push((key_id(rs.last().0), m))),
                Err(e) => Err(e),
            },
        }
    }
}

proof fn lemma_decode_fails(rs: Seq<RawDoc>, n: int, e: Seq<char>)
    requires
        0 <= n <= rs.len(),
        decoded_rows(rs.take(n)) == Err::<Seq<(u128, ValueM)>, Seq<char>>(e),
    ensures
        decoded_rows(rs) == Err::<Seq<(u128, ValueM)>, Seq<char>>(e),
    decreases rs.len() - n,
{
    if n < rs.len() {
        assert(rs.take(n + 1).drop_last() =~= rs.take(n));
        lemma_decode_fails(rs, n + 1, e);
    } else {
        assert(rs.take(n) =~= rs);
    }
}

/// Reads stored documents.
pub fn decode_rows(rows: &Vec<(Uuid, Vec<u8>)>) -> (r: Result<Vec<(Uuid, Value)>>)
    ensures
        match r {
            Ok(v) => {
                &&& decoded_rows(rows_of(rows@)) == Ok::<Seq<(u128, ValueM)>, Seq<char>>(
                    docs_of(v@),
                )
                &&& forall|i: int| 0 <= i < v@.len() ==> value_wf((#[trigger] v@[i]).1.model())
            },
            Err(e) => e is Codec && decoded_rows(rows_of(rows@)) == Err::<
                Seq<(u128, ValueM)>,
                Seq<char>,
            >((e->Codec_0)@),
        },
{
    let ghost rs = rows_of(rows@);
    let mut docs: Vec<(Uuid, Value)> = Vec::new();
    let mut i: usize = 0;
    assert(rs.take(0) =~= Seq::<RawDoc>::empty());
    assert(docs_of(docs@) =~= Seq::<(u128, ValueM)>::empty());
    while i < rows.len()
        invariant
            rs == rows_of(rows@),
            i <= rows@.len(),
            decoded_rows(rs.take(i as int)) == Ok::<Seq<(u128, ValueM)>, Seq<char>>(
                docs_of(docs@),
            ),
            forall|j: int| 0 <= j < docs@.len() ==> value_wf((#[trigger] docs@[j]).1.model()),
        decreases rows@.len() - i,
    {
        proof {
            assert(rs.take(i + 1).drop_last() =~= rs.take(i as int));
            assert(rs.take(i + 1).last() == rs[i as int]);
            assert(rs[i as int] == (rows@[i as int].0.spec_bytes(), rows@[i as int].1@));
            lemma_key_id(rows@[i as int].0);
        }
        match Document::decode(rows[i].1.as_slice()) {
            Ok(d) => {
                let ghost before = docs@;
                let ghost row = ((rows@[i as int].0).0, d.value.model());
                docs.push((rows[i].0, d.value));
                assert(docs_of(docs@) =~= docs_of(before).push(row));
            },
            Err(e) => {
                proof {
                    lemma_decode_fails(rs, i + 1, (e->Codec_0)@);
                }
                return Err(e);
            },
        }
        i = i + 1;
    }
    assert(rs.take(i as int) =~= rs);
    Ok(docs)
}

/// An index is found exactly if there is one of that name, and it has it.
pub proof fn law_indexes_are_found_by_name(idxs: Seq<SecondaryIndex>, name: Seq<char>, i: int)
    ensures
        index_named(idxs, name) matches Some(j) ==> 0 <= j < idxs.len() && idxs[j].def.name@
            == name,
        0 <= i < idxs.len() && idxs[i].def.name@ == name ==> index_named(idxs, name) is Some,
{
    lemma_index_named(idxs, name);
}

/// Documents are read all or not at all: the first that cannot be read is
/// reported.
pub proof fn law_unreadable_documents_are_reported(rs: Seq<RawDoc>, i: int)
    ensures
        (forall|j: int| 0 <= j < rs.len() ==> doc_parse((#[trigger] rs[j]).1) is Ok)
            ==> decoded_rows(rs) is Ok && decoded_rows(rs)->Ok_0.len() == rs.len(),
        0 <= i < rs.len() && doc_parse(rs[i].1) is Err && (forall|j: int|
            0 <= j < i ==> doc_parse((#[trigger] rs[j]).1) is Ok) ==> decoded_rows(rs) == Err::<
            Seq<(u128, ValueM)>,
            Seq<char>,
        >(doc_parse(rs[i].1)->Err_0),
    decreases rs.len(),
{
    if rs.len() > 0 {
        let f = rs.drop_last();
        law_unreadable_documents_are_reported(f, i);
        assert(rs.last() == rs[rs.len() - 1]);
        assert forall|j: int| 0 <= j < f.len() implies #[trigger] f[j] == rs[j] by {}
    }
}

} // verus!
