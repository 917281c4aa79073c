//! Secondary index: maps field values to document UUIDs via a `BTree<Vec<u8>>`.
//!
//! A secondary index stores composite keys `(encoded_field_value, uuid)` in a
//! variable-key B+Tree. This enables fast exact-match lookups and range queries
//! on document fields.

pub mod encoding;

use vstd::prelude::*;
use vstd::slice::*;

use crate::btree::cursor::{
    cursor_model, key_range, lemma_entries_sorted, CursorEntry,
};
use crate::btree::entries::{lemma_rank, lookup, rank, with_entry, without};
use crate::btree::fill::{least, lemma_small_tree, path_grown, small_tree, SURE_ENTRIES};
use crate::btree::key::Key;
use crate::btree::node::{internal_cap, leaf_cap, Entry};
use crate::btree::tree::sorted;
use crate::btree::var_tree::lemma_var_config;
use crate::btree::BTree;
use crate::bytes::{be_val, bytes_eq, bytes_lt, lemma_lex_common_prefix, lex_lt, zeros};
use crate::document::value::{value_wf, Value, ValueM};
use crate::error::{GrumpyError, Result};
use crate::index::encoding::{
    composite, encode_composite_key, encode_sortable_value, extract_field, field_at, sortable,
};
use crate::page::manager::PageManager;
use crate::text::owned;
use crate::uid::Uuid;

verus! {

/// Maximum key size for secondary index B+Trees.
pub const INDEX_MAX_KEY_SIZE: u16 = 160;

/// Definition of a secondary index.
#[derive(Debug)]
pub struct IndexDefinition {
    /// Index name (e.g., "by_email").
    pub name: String,
    /// Dot-separated field path (e.g., "email" or "address.city").
    pub field_path: String,
}

impl IndexDefinition {
    /// A copy of the definition.
    pub fn dup(&self) -> (r: Self)
        ensures
            r.name@ == self.name@,
            r.field_path@ == self.field_path@,
    {
        IndexDefinition {
            name: owned(self.name.as_str()),
            field_path: owned(self.field_path.as_str()),
        }
    }
}

impl Clone for IndexDefinition {
    fn clone(&self) -> (r: Self)
        ensures
            r.name@ == self.name@,
            r.field_path@ == self.field_path@,
    {
        self.dup()
    }
}

/// The encoded value in a composite key.
pub open spec fn value_part(key: Seq<u8>) -> Seq<u8> {
    key.take(key.len() - 16)
}

/// The document in a composite key.
pub open spec fn uuid_part(key: Seq<u8>) -> u128 {
    be_val(key.skip(key.len() - 16)) as u128
}

/// The documents of the entries whose encoded value `f` picks, in the order of
/// the entries.
pub open spec fn picked(es: Seq<Entry>, f: spec_fn(Seq<u8>) -> bool) -> Seq<u128>
    decreases es.len(),
{
    if es.len() == 0 {
        Seq::empty()
    } else {
        let k = es.last().0;
        let front = picked(es.drop_last(), f);
        if k.len() >= 16 && f(value_part(k)) {
            front.push(uuid_part(k))
        } else {
            front
        }
    }
}

/// Nodes of an index hold several keys.
pub proof fn lemma_index_least()
    ensures
        least::<Vec<u8>>(INDEX_MAX_KEY_SIZE).0 >= 1,
        least::<Vec<u8>>(INDEX_MAX_KEY_SIZE).1 >= 1,
{
    assert(<Vec<u8> as Key>::meta_len() == 2);
    assert(<Vec<u8> as Key>::slot_len(INDEX_MAX_KEY_SIZE) == 162);
    assert(8148int / 168 == 48) by (nonlinear_arith);
    assert(8152int / 166 == 49) by (nonlinear_arith);
    assert(leaf_cap::<Vec<u8>>(INDEX_MAX_KEY_SIZE) == 48);
    assert(internal_cap::<Vec<u8>>(INDEX_MAX_KEY_SIZE) == 49);
}

/// What indexing a document does to the entries of an index on `path`; `None`
/// for a document that cannot be indexed.
pub open spec fn after_indexing(
    es: Seq<Entry>,
    doc: ValueM,
    path: Seq<char>,
    id: u128,
    max_key: u16,
) -> Option<Seq<Entry>> {
    match field_at(doc, path) {
        None => Some(es),
        Some(v) => match composite(v, id) {
            None => None,
            Some(k) => if k.len() > max_key || lookup(es, k) is Some {
                None
            } else {
                Some(with_entry(es, k, (0, 0)))
            },
        },
    }
}

/// `e` says why the tree `t` of an index on `path` does not take a document: its
/// value has no key, or one that is too long; the tree has used up its page
/// IDs; or the key is there already.
pub open spec fn refuses(
    t: BTree<Vec<u8>>,
    doc: ValueM,
    path: Seq<char>,
    id: u128,
    e: GrumpyError,
) -> bool {
    match field_at(doc, path) {
        None => false,
        Some(v) => match composite(v, id) {
            None => e == GrumpyError::NotIndexable,
            Some(k) => if k.len() > t.meta.config {
                e == GrumpyError::NotIndexable
            } else if !t.has_room() {
                e == GrumpyError::PageFull(t.meta.root_page_id)
            } else {
                lookup(t.entries(), k) is Some && <Vec<u8> as Key>::is_duplicate_error(k, e)
            },
        },
    }
}

/// A new index on `path` took the first documents in order up to one that its
/// tree `t` refuses with `e`. Page IDs last for a moderate number of documents.
pub open spec fn rebuild_stopped(
    t: BTree<Vec<u8>>,
    docs: Seq<(u128, ValueM)>,
    path: Seq<char>,
    e: GrumpyError,
) -> bool {
    &&& t.meta.config == INDEX_MAX_KEY_SIZE
    &&& e is PageFull ==> docs.len() > SURE_ENTRIES
    &&& !(e is PageFull) ==> index_entries(docs, path, INDEX_MAX_KEY_SIZE) is None
    &&& exists|n: int|
        0 <= n < docs.len() && index_entries(docs.take(n), path, INDEX_MAX_KEY_SIZE) == Some(
            t.entries(),
        ) && refuses(t, (#[trigger] docs[n]).1, path, docs[n].0, e)
}

/// What removing a document does to the entries of an index on `path`.
pub open spec fn after_unindexing(
    es: Seq<Entry>,
    doc: ValueM,
    path: Seq<char>,
    id: u128,
) -> Seq<Entry> {
    match field_at(doc, path) {
        None => es,
        Some(v) => match composite(v, id) {
            None => es,
            Some(k) => if lookup(es, k) is Some {
                without(es, k)
            } else {
                es
            },
        },
    }
}

/// Documents with their keys.
pub open spec fn docs_of(docs: Seq<(Uuid, Value)>) -> Seq<(u128, ValueM)> {
    Seq::new(docs.len(), |i: int| ((docs[i].0).0, docs[i].1.model()))
}

/// The entries of a new index on `path` over documents; `None` if one of them
/// cannot be indexed.
pub open spec fn index_entries(
    docs: Seq<(u128, ValueM)>,
    path: Seq<char>,
    max_key: u16,
) -> Option<Seq<Entry>>
    decreases docs.len(),
{
    if docs.len() == 0 {
        Some(Seq::empty())
    } else {
        match index_entries(docs.drop_last(), path, max_key) {
            None => None,
            Some(es) => after_indexing(es, docs.last().1, path, docs.last().0, max_key),
        }
    }
}

/// A secondary index backed by a `BTree<Vec<u8>>`.
pub struct SecondaryIndex {
    /// Index definition.
    pub def: IndexDefinition,
    /// The underlying variable-key B+Tree.
    pub btree: BTree<Vec<u8>>,
}

impl SecondaryIndex {
    /// The tree is in order.
    pub open spec fn wf(&self) -> bool {
        self.btree.wf()
    }

    /// The entries of the tree.
    pub open spec fn entries(&self) -> Seq<Entry> {
        self.btree.entries()
    }

    /// Creates a new secondary index.
    pub fn create(def: IndexDefinition) -> (r: Result<Self>)
        ensures
            r is Ok,
            r->Ok_0.wf(),
            r->Ok_0.def == def,
            r->Ok_0.entries() == Seq::<Entry>::empty(),
            r->Ok_0.btree.meta.config == INDEX_MAX_KEY_SIZE,
            r->Ok_0.btree.has_room(),
            small_tree(r->Ok_0.btree, 0),
    {
        proof {
            lemma_var_config(INDEX_MAX_KEY_SIZE);
        }
        match BTree::create_with(INDEX_MAX_KEY_SIZE) {
            Ok(btree) => Ok(SecondaryIndex { def, btree }),
            Err(e) => Err(e),
        }
    }

    /// Opens an existing secondary index from its file.
    pub fn open(pm: PageManager, def: IndexDefinition) -> (r: Result<Self>)
        ensures
            pm.count() < 2 ==> r == Err::<Self, GrumpyError>(GrumpyError::PageNotFound(1)),
            pm.count() >= 2 ==> r is Ok && r->Ok_0.def == def && r->Ok_0.btree.pm == pm
                && r->Ok_0.btree.meta == crate::btree::BTreeMeta::<Vec<u8>>::parse(pm.page(1)),
    {
        match BTree::open(pm) {
            Ok(btree) => Ok(SecondaryIndex { def, btree }),
            Err(e) => Err(e),
        }
    }

    /// Indexes a document: extracts the field and inserts the composite key. A
    /// missing field is not an error: the document is not indexed.
    ///
    /// A value that cannot be indexed, or whose key is longer than the tree
    /// takes, is reported as `NotIndexable`; a key that is present already, as
    /// the tree reports it; a tree that has used up its page IDs, as
    /// `PageFull`.
    pub fn index_document(&mut self, uuid: &Uuid, doc: &Value) -> (r: Result<()>)
        requires
            old(self).wf(),
            value_wf(doc.model()),
        ensures
            final(self).wf(),
            final(self).def == old(self).def,
            final(self).btree.meta.config == old(self).btree.meta.config,
            path_grown(old(self).btree, final(self).btree),
            match r {
                Ok(_) => {
                    &&& after_indexing(
                        old(self).entries(),
                        doc.model(),
                        old(self).def.field_path@,
                        uuid.0,
                        old(self).btree.meta.config,
                    ) == Some(final(self).entries())
                    &&& if field_at(doc.model(), old(self).def.field_path@) is None {
                        *final(self) == *old(self)
                    } else {
                        old(self).btree.has_room()
                    }
                },
                Err(e) => *final(self) == *old(self) && refuses(
                    old(self).btree,
                    doc.model(),
                    old(self).def.field_path@,
                    uuid.0,
                    e,
                ),
            },
    {
        match extract_field(doc, self.def.field_path.as_str()) {
            Some(field_val) => {
                let key: Vec<u8> = match encode_composite_key(field_val, uuid) {
                    Ok(k) => k,
                    Err(e) => {
                        return Err(e);
                    },
                };
                if key.len() > self.btree.max_key_size() as usize {
                    return Err(GrumpyError::NotIndexable);
                }
                if !self.btree.room_left() {
                    return Err(GrumpyError::PageFull(self.btree.meta.root_page_id));
                }
                proof {
                    lemma_entries_sorted(self.btree);
                    lemma_rank(self.entries(), key@);
                }
                self.btree.insert(key, 0, 0)
            },
            None => Ok(()),
        }
    }

    /// Removes a document from the index.
    pub fn unindex_document(&mut self, uuid: &Uuid, doc: &Value) -> (r: Result<()>)
        requires
            old(self).wf(),
            value_wf(doc.model()),
        ensures
            final(self).wf(),
            final(self).def == old(self).def,
            final(self).btree.meta.config == old(self).btree.meta.config,
            old(self).btree.has_room() ==> final(self).btree.has_room(),
            final(self).entries() == after_unindexing(
                old(self).entries(),
                doc.model(),
                old(self).def.field_path@,
                uuid.0,
            ),
            match r {
                Ok(_) => field_at(doc.model(), old(self).def.field_path@) is Some ==> composite(
                    field_at(doc.model(), old(self).def.field_path@)->0,
                    uuid.0,
                ) is Some,
                Err(e) => {
                    &&& field_at(doc.model(), old(self).def.field_path@) is Some
                    &&& composite(
                        field_at(doc.model(), old(self).def.field_path@)->0,
                        uuid.0,
                    ) is None
                    &&& e == GrumpyError::NotIndexable
                },
            },
    {
        match extract_field(doc, self.def.field_path.as_str()) {
            Some(field_val) => {
                let key: Vec<u8> = match encode_composite_key(field_val, uuid) {
                    Ok(k) => k,
                    Err(e) => {
                        return Err(e);
                    },
                };
                let _ = self.btree.delete(&key);
                Ok(())
            },
            None => Ok(()),
        }
    }

    /// Looks up all document UUIDs with an exact field value match.
    pub fn lookup(&self, value: &Value) -> (r: Result<Vec<Uuid>>)
        requires
            self.wf(),
        ensures
            match r {
                Ok(v) => sortable(value.model()) is Some && ids_of(v@) == picked(
                    self.entries(),
                    equals_value(sortable(value.model())->0),
                ),
                Err(e) => sortable(value.model()) is None && e == GrumpyError::NotIndexable,
            },
    {
        let prefix: Vec<u8> = match encode_sortable_value(value) {
            Ok(p) => p,
            Err(e) => {
                return Err(e);
            },
        };
        let ghost p = prefix@;
        let mut end_key: Vec<u8> = crate::bytes::to_vec(prefix.as_slice());
        increment_bytes(&mut end_key);
        let entries: Vec<CursorEntry<Vec<u8>>> = match self.btree.range(
            Some(&prefix),
            Some(&end_key),
        ) {
            Ok(v) => v,
            Err(e) => {
                return Err(e);
            },
        };
        let ghost es = self.entries();
        let ghost f = equals_value(p);
        let ghost sub = cursor_model(entries@);
        proof {
            lemma_entries_sorted(self.btree);
            assert(p[0] < 0xFF);
            lemma_outside(es, p, end_key@);
        }
        let mut out: Vec<Uuid> = Vec::new();
        let mut i: usize = 0;
        assert(sub.take(0) =~= Seq::<Entry>::empty());
        assert(ids_of(out@) =~= Seq::<u128>::empty());
        while i < entries.len()
            invariant
                p == prefix@,
                f == equals_value(p),
                sub == cursor_model(entries@),
                i <= entries@.len(),
                ids_of(out@) == picked(sub.take(i as int), f),
            decreases entries@.len() - i,
        {
            proof {
                assert(sub.take(i + 1).drop_last() =~= sub.take(i as int));
                assert(sub.take(i + 1).last() == sub[i as int]);
            }
            let key: &[u8] = entries[i].key.as_slice();
            assert(sub[i as int].0 == key@);
            if key.len() >= 16 {
                let (v, id) = split_key(key);
                if bytes_eq(v, prefix.as_slice()) {
                    let ghost before = out@;
                    out.push(id);
                    assert(ids_of(out@) =~= ids_of(before).push(id.0));
                }
            }
            i = i + 1;
        }
        assert(sub.take(i as int) =~= sub);
        Ok(out)
    }

    /// Range query: returns UUIDs where field value is in [start, end).
    pub fn range_query(&self, start: &Value, end: &Value) -> (r: Result<Vec<Uuid>>)
        requires
            self.wf(),
        ensures
            match r {
                Ok(v) => sortable(start.model()) is Some && sortable(end.model()) is Some && ids_of(
                    v@,
                ) == picked(
                    self.entries(),
                    between_values(sortable(start.model())->0, sortable(end.model())->0),
                ),
                Err(e) => (sortable(start.model()) is None || sortable(end.model()) is None) && e
                    == GrumpyError::NotIndexable,
            },
    {
        let start_key: Vec<u8> = match encode_sortable_value(start) {
            Ok(p) => p,
            Err(e) => {
                return Err(e);
            },
        };
        let end_key: Vec<u8> = match encode_sortable_value(end) {
            Ok(p) => p,
            Err(e) => {
                return Err(e);
            },
        };
        let entries: Vec<CursorEntry<Vec<u8>>> = match self.btree.range(Some(&start_key), None) {
            Ok(v) => v,
            Err(e) => {
                return Err(e);
            },
        };
        let ghost es = self.entries();
        let ghost s = start_key@;
        let ghost e = end_key@;
        let ghost f = between_values(s, e);
        let ghost sub = cursor_model(entries@);
        proof {
            lemma_entries_sorted(self.btree);
            lemma_below(es, s, e);
        }
        let mut out: Vec<Uuid> = Vec::new();
        let mut i: usize = 0;
        assert(sub.take(0) =~= Seq::<Entry>::empty());
        assert(ids_of(out@) =~= Seq::<u128>::empty());
        while i < entries.len()
            invariant
                s == start_key@,
                e == end_key@,
                f == between_values(s, e),
                sub == cursor_model(entries@),
                i <= entries@.len(),
                ids_of(out@) == picked(sub.take(i as int), f),
            decreases entries@.len() - i,
        {
            proof {
                assert(sub.take(i + 1).drop_last() =~= sub.take(i as int));
                assert(sub.take(i + 1).last() == sub[i as int]);
            }
            let key: &[u8] = entries[i].key.as_slice();
            assert(sub[i as int].0 == key@);
            if key.len() >= 16 {
                let (v, id) = split_key(key);
                if !bytes_lt(v, start_key.as_slice()) && bytes_lt(v, end_key.as_slice()) {
                    let ghost before = out@;
                    out.push(id);
                    assert(ids_of(out@) =~= ids_of(before).push(id.0));
                }
            }
            i = i + 1;
        }
        assert(sub.take(i as int) =~= sub);
        Ok(out)
    }

    /// Returns the number of indexed entries.
    pub fn count(&self) -> (r: u64)
        requires
            self.wf(),
        ensures
            r == self.entries().len(),
    {
        self.btree.len()
    }

    /// Rebuilds the index from a set of documents.
    pub fn rebuild(&mut self, docs: &Vec<(Uuid, Value)>) -> (r: Result<()>)
        requires
            forall|i: int| 0 <= i < docs@.len() ==> value_wf((#[trigger] docs@[i]).1.model()),
        ensures
            final(self).wf(),
            final(self).def == old(self).def,
            final(self).btree.meta.config == INDEX_MAX_KEY_SIZE,
            match r {
                Ok(_) => index_entries(
                    docs_of(docs@),
                    old(self).def.field_path@,
                    INDEX_MAX_KEY_SIZE,
                ) == Some(final(self).entries()),
                Err(e) => rebuild_stopped(
                    final(self).btree,
                    docs_of(docs@),
                    old(self).def.field_path@,
                    e,
                ),
            },
    {
        proof {
            lemma_var_config(INDEX_MAX_KEY_SIZE);
        }
        match BTree::create_with(INDEX_MAX_KEY_SIZE) {
            Ok(btree) => {
                self.btree = btree;
            },
            Err(e) => {
                return Err(e);
            },
        }
        let ghost path = self.def.field_path@;
        let ghost all = docs_of(docs@);
        let mut i: usize = 0;
        assert(all.take(0) =~= Seq::<(u128, ValueM)>::empty());
        while i < docs.len()
            invariant
                all == docs_of(docs@),
                path == self.def.field_path@,
                self.def == old(self).def,
                self.wf(),
                self.btree.meta.config == INDEX_MAX_KEY_SIZE,
                docs@.len() <= SURE_ENTRIES ==> small_tree(self.btree, i as int),
                i <= docs@.len(),
                forall|j: int| 0 <= j < docs@.len() ==> value_wf((#[trigger] docs@[j]).1.model()),
                index_entries(all.take(i as int), path, INDEX_MAX_KEY_SIZE) == Some(
                    self.entries(),
                ),
            decreases docs@.len() - i,
        {
            proof {
                assert(all.take(i + 1).drop_last() =~= all.take(i as int));
                assert(all.take(i + 1).last() == all[i as int]);
                lemma_index_least();
            }
            let ghost before = self.btree;
            let done = self.index_document(&docs[i].0, &docs[i].1);
            proof {
                if docs@.len() <= SURE_ENTRIES {
                    lemma_small_tree(before, self.btree, i as int);
                }
            }
            match done {
                Ok(_) => {},
                Err(e) => {
                    proof {
                        assert(refuses(self.btree, all[i as int].1, path, all[i as int].0, e));
                        if !(e is PageFull) {
                            lemma_unindexable(all, path, INDEX_MAX_KEY_SIZE, i + 1);
                        }
                    }
                    return Err(e);
                },
            }
            i = i + 1;
        }
        assert(all.take(i as int) =~= all);
        Ok(())
    }
}

/// Documents that cannot be indexed stay so when more follow.
proof fn lemma_unindexable(docs: Seq<(u128, ValueM)>, path: Seq<char>, max_key: u16, n: int)
    requires
        0 <= n <= docs.len(),
        index_entries(docs.take(n), path, max_key) is None,
    ensures
        index_entries(docs, path, max_key) is None,
    decreases docs.len() - n,
{
    if n < docs.len() {
        assert(docs.take(n + 1).drop_last() =~= docs.take(n));
        lemma_unindexable(docs, path, max_key, n + 1);
    } else {
        assert(docs.take(n) =~= docs);
    }
}

/// The keys of documents.
pub open spec fn ids_of(v: Seq<Uuid>) -> Seq<u128> {
    Seq::new(v.len(), |i: int| v[i].0)
}

/// Picks an encoded value.
pub open spec fn equals_value(p: Seq<u8>) -> spec_fn(Seq<u8>) -> bool {
    |v: Seq<u8>| v == p
}

/// Picks the encoded values from `s` up to `e`.
pub open spec fn between_values(s: Seq<u8>, e: Seq<u8>) -> spec_fn(Seq<u8>) -> bool {
    |v: Seq<u8>| !lex_lt(v, s) && lex_lt(v, e)
}

/// Splits a composite key into the encoded value and the document.
fn split_key(key: &[u8]) -> (r: (&[u8], Uuid))
    requires
        key@.len() >= 16,
    ensures
        r.0@ == value_part(key@),
        (r.1).0 == uuid_part(key@),
{
    let n: usize = key.len();
    let v: &[u8] = slice_subrange(key, 0, n - 16);
    let u: &[u8] = slice_subrange(key, n - 16, n);
    assert(v@ =~= value_part(key@));
    assert(u@ =~= key@.skip(n - 16));
    (v, Uuid::from_bytes(u))
}

/// `q` comes after everything that starts with `p`.
pub open spec fn past_prefix(p: Seq<u8>, q: Seq<u8>) -> bool {
    forall|x: Seq<u8>| p.len() <= x.len() && x.take(p.len() as int) == p ==> #[trigger] lex_lt(x, q)
}

/// One more than a byte string as a big-endian integer; one byte longer where
/// every byte is 0xFF.
pub open spec fn incremented(p: Seq<u8>) -> Seq<u8>
    decreases p.len(),
{
    if p.len() == 0 {
        seq![1u8]
    } else if p.last() < 0xFF {
        p.drop_last().push((p.last() + 1) as u8)
    } else {
        incremented(p.drop_last()).push(0)
    }
}

/// Trailing bytes 0xFF become zeros.
proof fn lemma_carry(p: Seq<u8>, k: int)
    requires
        0 <= k <= p.len(),
        forall|j: int| k <= j < p.len() ==> #[trigger] p[j] == 0xFF,
    ensures
        incremented(p) == incremented(p.take(k)) + zeros((p.len() - k) as nat),
    decreases p.len() - k,
{
    if k == p.len() {
        assert(p.take(k) =~= p);
        assert(incremented(p) + zeros(0) =~= incremented(p));
    } else {
        let q = p.drop_last();
        lemma_carry(q, k);
        assert(q.take(k) =~= p.take(k));
        assert(p[p.len() - 1] == 0xFF);
        assert(zeros((q.len() - k) as nat).push(0) =~= zeros((p.len() - k) as nat));
        assert(incremented(p) =~= incremented(p.take(k)) + zeros((p.len() - k) as nat));
    }
}

/// Incrementing a byte string adds one to the number it denotes.
pub proof fn law_increment_adds_one(p: Seq<u8>)
    ensures
        be_val(incremented(p)) == be_val(p) + 1,
    decreases p.len(),
{
    reveal_with_fuel(be_val, 2);
    if p.len() > 0 {
        let q = p.drop_last();
        if p.last() < 0xFF {
            assert(incremented(p).drop_last() =~= q);
        } else {
            law_increment_adds_one(q);
            assert(incremented(p).drop_last() =~= incremented(q));
        }
    } else {
        assert(incremented(p).drop_last() =~= Seq::<u8>::empty());
    }
}

/// Increments a byte vector as a big-endian integer (for range upper bounds).
pub fn increment_bytes(bytes: &mut Vec<u8>)
    ensures
        final(bytes)@ == incremented(old(bytes)@),
        be_val(final(bytes)@) == be_val(old(bytes)@) + 1,
        (forall|i: int| 0 <= i < old(bytes)@.len() ==> #[trigger] old(bytes)@[i] == 0xFF)
            ==> final(bytes)@ == seq![1u8] + zeros(old(bytes)@.len()),
        (exists|i: int| 0 <= i < old(bytes)@.len() && #[trigger] old(bytes)@[i] < 0xFF)
            ==> past_prefix(old(bytes)@, final(bytes)@),
{
    let ghost p = bytes@;
    let mut i: usize = bytes.len();
    while i > 0
        invariant
            p == old(bytes)@,
            i <= p.len(),
            bytes@.len() == p.len(),
            forall|j: int| 0 <= j < i ==> #[trigger] bytes@[j] == p[j],
            forall|j: int| i <= j < p.len() ==> #[trigger] p[j] == 0xFF,
            forall|j: int| i <= j < p.len() ==> #[trigger] bytes@[j] == 0,
        decreases i,
    {
        i = i - 1;
        assert(bytes@[i as int] == p[i as int]);
        if bytes[i] < 0xFF {
            let b: u8 = bytes[i] + 1;
            bytes.set(i, b);
            proof {
                law_increment_adds_one(p);
                lemma_carry(p, i + 1);
                assert(p.take(i + 1).drop_last() =~= p.take(i as int));
                assert(p.take(i + 1).last() == p[i as int]);
                assert(bytes@ =~= incremented(p));
                assert forall|x: Seq<u8>|
                    p.len() <= x.len() && x.take(p.len() as int) == p implies #[trigger] lex_lt(
                    x,
                    bytes@,
                ) by {
                    assert(x.take(i as int) =~= bytes@.take(i as int)) by {
                        assert forall|j: int| 0 <= j < i implies x[j] == bytes@[j] by {
                            assert(x.take(p.len() as int)[j] == x[j]);
                            assert(bytes@[j] == p[j]);
                        }
                    }
                    lemma_lex_common_prefix(x, bytes@, i as nat);
                    assert(x.take(p.len() as int)[i as int] == x[i as int]);
                    assert(x.skip(i as int)[0] == p[i as int]);
                    assert(bytes@.skip(i as int)[0] == b);
                }
            }
            return;
        }
        bytes.set(i, 0);
    }
    bytes.insert(0, 1);
    proof {
        law_increment_adds_one(p);
        lemma_carry(p, 0);
        assert(p.take(0) =~= Seq::<u8>::empty());
        assert(bytes@ =~= incremented(p));
    }
}

/// A prefix comes before what it starts.
proof fn lemma_prefix_first(p: Seq<u8>, x: Seq<u8>)
    requires
        p.len() <= x.len(),
        x.take(p.len() as int) == p,
    ensures
        !lex_lt(x, p),
    decreases p.len(),
{
    if p.len() > 0 {
        assert(x.take(p.len() as int)[0] == x[0]);
        let a = p.skip(1);
        let b = x.skip(1);
        assert(b.take(a.len() as int) =~= a) by {
            assert forall|i: int| 0 <= i < a.len() implies b[i] == a[i] by {
                assert(x.take(p.len() as int)[i + 1] == x[i + 1]);
            }
        }
        lemma_prefix_first(a, b);
    }
}

/// What is at least `s` stays so with bytes appended.
proof fn lemma_longer(v: Seq<u8>, x: Seq<u8>, s: Seq<u8>)
    requires
        v.len() <= x.len(),
        x.take(v.len() as int) == v,
        !lex_lt(v, s),
    ensures
        !lex_lt(x, s),
    decreases s.len(),
{
    if s.len() > 0 && x.len() > 0 && v.len() > 0 {
        assert(x.take(v.len() as int)[0] == x[0]);
        if v[0] == s[0] {
            let a = v.skip(1);
            let b = x.skip(1);
            assert(b.take(a.len() as int) =~= a) by {
                assert forall|i: int| 0 <= i < a.len() implies b[i] == a[i] by {
                    assert(x.take(v.len() as int)[i + 1] == x[i + 1]);
                }
            }
            lemma_longer(a, b, s.skip(1));
        }
    }
}

proof fn lemma_picked_none(es: Seq<Entry>, f: spec_fn(Seq<u8>) -> bool)
    requires
        forall|i: int|
            0 <= i < es.len() ==> (#[trigger] es[i]).0.len() < 16 || !f(value_part(es[i].0)),
    ensures
        picked(es, f) == Seq::<u128>::empty(),
    decreases es.len(),
{
    if es.len() > 0 {
        let t = es.drop_last();
        assert forall|i: int| 0 <= i < t.len() implies (#[trigger] t[i]).0.len() < 16 || !f(
            value_part(t[i].0),
        ) by {
            assert(t[i] == es[i]);
        }
        lemma_picked_none(t, f);
        assert(es[es.len() - 1] == es.last());
    }
}

proof fn lemma_picked_join(a: Seq<Entry>, b: Seq<Entry>, f: spec_fn(Seq<u8>) -> bool)
    ensures
        picked(a + b, f) == picked(a, f) + picked(b, f),
    decreases b.len(),
{
    if b.len() == 0 {
        assert(a + b =~= a);
        assert(picked(a, f) + picked(b, f) =~= picked(a, f));
    } else {
        let w = a + b;
        assert(w.drop_last() =~= a + b.drop_last());
        assert(w.last() == b.last());
        lemma_picked_join(a, b.drop_last(), f);
        assert(picked(w, f) =~= picked(a, f) + picked(b, f));
    }
}

/// Entries outside the range of a prefix do not have that value.
proof fn lemma_outside(es: Seq<Entry>, p: Seq<u8>, q: Seq<u8>)
    requires
        sorted(es),
        past_prefix(p, q),
    ensures
        picked(key_range(es, Some(p), Some(q)), equals_value(p)) == picked(es, equals_value(p)),
{
    let f = equals_value(p);
    let a = rank(es, p);
    let b = rank(es, q);
    lemma_rank(es, p);
    lemma_rank(es, q);
    let lo = es.take(a);
    assert forall|i: int| 0 <= i < es.len() && (i < a || i >= b) implies (
    #[trigger] es[i]).0.len() < 16 || !f(value_part(es[i].0)) by {
        let k = es[i].0;
        if k.len() >= 16 && value_part(k) == p {
            assert(k.take(p.len() as int) =~= p);
            lemma_prefix_first(p, k);
            assert(lex_lt(k, q));
        }
    }
    if a <= b {
        let mid = es.subrange(a, b);
        let hi = es.skip(b);
        assert(es =~= lo + mid + hi);
        lemma_picked_join(lo + mid, hi, f);
        lemma_picked_join(lo, mid, f);
        assert forall|i: int| 0 <= i < lo.len() implies (#[trigger] lo[i]).0.len() < 16 || !f(
            value_part(lo[i].0),
        ) by {
            assert(lo[i] == es[i]);
        }
        assert forall|i: int| 0 <= i < hi.len() implies (#[trigger] hi[i]).0.len() < 16 || !f(
            value_part(hi[i].0),
        ) by {
            assert(hi[i] == es[i + b]);
        }
        lemma_picked_none(lo, f);
        lemma_picked_none(hi, f);
        assert(picked(es, f) =~= picked(mid, f));
    } else {
        lemma_picked_none(es, f);
        lemma_picked_none(Seq::empty(), f);
    }
}

/// Entries before the start of a range do not have a value in it.
proof fn lemma_below(es: Seq<Entry>, s: Seq<u8>, e: Seq<u8>)
    requires
        sorted(es),
    ensures
        picked(key_range(es, Some(s), None), between_values(s, e)) == picked(
            es,
            between_values(s, e),
        ),
{
    let f = between_values(s, e);
    let a = rank(es, s);
    lemma_rank(es, s);
    let lo = es.take(a);
    let hi = es.subrange(a, es.len() as int);
    assert(es =~= lo + hi);
    lemma_picked_join(lo, hi, f);
    assert forall|i: int| 0 <= i < lo.len() implies (#[trigger] lo[i]).0.len() < 16 || !f(
        value_part(lo[i].0),
    ) by {
        assert(lo[i] == es[i]);
        let k = es[i].0;
        if k.len() >= 16 && !lex_lt(value_part(k), s) {
            assert(k.take(value_part(k).len() as int) =~= value_part(k));
            lemma_longer(value_part(k), k, s);
        }
    }
    lemma_picked_none(lo, f);
    assert(picked(es, f) =~= picked(hi, f));
}

} // verus!
