//! Storage engine: one collection with a write-ahead log.
//!
//! [`GrumpyDb`] orchestrates the collection (data pages and primary index) and
//! the WAL. The engine works on the contents of the three files; reading and
//! writing the files is left to its user.

use vstd::prelude::*;

use crate::btree::BTree;
use crate::btree::BTreeMeta;
use crate::buffer::pool::saved_kept;
use crate::bytes::be_bytes;
use crate::collection::indexed::{compacted, decode_rows, decoded_rows};
use crate::collection::mirror::lemma_plain_keys;
use crate::collection::packing::defragmented;
use crate::collection::raws::{
    keys_ascend, raw_lookup, selected, with_raw, without_raw, KeyBound, RawDoc,
};
use crate::collection::store::PageWriteRecord;
use crate::collection::{
    attached, files_of, fresh_files, is_image, law_keys_ascend, law_read_after_delete,
    law_read_after_insert, law_reopened_documents,
    lemma_cached_logged, lemma_logged_cached, lemma_page_counts, lemma_same_pages, logged,
    opened_from, same_documents, unopenable, Collection, DEFAULT_POOL_CAPACITY,
};
use crate::database::laws::lemma_selected_rows;
use crate::document::codec::encodable;
use crate::document::value::{value_wf, Value, ValueM};
use crate::document::{doc_image, doc_parse, law_document_round_trip, Document};
use crate::error::{GrumpyError, Result};
use crate::index::docs_of;
use crate::page::manager::{contents, empty_page, PageManager};
use crate::page::PageType;
use crate::uid::Uuid;
use crate::wal::durability::{
    durable, law_recovery_restores_pages, lemma_change_durable, lemma_checkpoint_durable,
    lemma_own_log, lemma_read_durable,
};
use crate::wal::hlc::{ticked, Hlc, HlcError, DEFAULT_MAX_SKEW_MS};
use crate::wal::record::{
    records_of, wal_header, RecordM, WalRecord, NIL_NODE_ID, WAL_VERSION_CURRENT,
};
use crate::wal::recovery::{recover, recovered, Files, INDEX_PAGE_FLAG};
use crate::wal::transaction::{
    lemma_clock_moved, log_transaction, same_writer, transaction_logged, writes_cut,
};
use crate::wal::writer::{
    following, log_failed, log_records, max_lsn, max_tx, opened_log, stored_records, stored_version,
    tick_failed, WalWriter,
};

verus! {

/// Number of writes between automatic checkpoints.
pub const CHECKPOINT_INTERVAL: u32 = 100;

/// Result of a compaction operation.
#[derive(Debug, Clone, Copy, PartialEq, Eq, Structural)]
pub struct CompactResult {
    /// Number of documents preserved.
    pub documents: u64,
}

/// The main database engine.
pub struct GrumpyDb {
    /// The underlying collection (data pages + primary index).
    pub collection: Collection,
    /// Write-Ahead Log for durability.
    pub wal: WalWriter,
    /// Write counter for periodic checkpointing.
    pub writes_since_checkpoint: u32,
}

/// A database that was closed is opened again with the documents it had.
pub proof fn law_reopened_database(
    db: GrumpyDb,
    r: Result<GrumpyDb>,
    data: Seq<u8>,
    index: Seq<u8>,
    pool_capacity: usize,
)
    requires
        files_of(db.collection, data, index),
        opened(r, data, index, wal_header(WAL_VERSION_CURRENT), pool_capacity),
    ensures
        r is Ok,
        r->Ok_0.wf(),
        r->Ok_0.docs() == db.docs(),
{
    crate::wal::writer::law_empty_log();
    lemma_page_counts(db.collection);
    law_reopened_documents(db.collection, r->Ok_0.collection, data, index);
}

/// What was acknowledged survives a crash: a durable engine whose data file,
/// index and log are opened again, without a flush, has the same documents.
pub proof fn law_documents_survive_a_crash(
    db: GrumpyDb,
    r: Result<GrumpyDb>,
    data: Seq<u8>,
    index: Seq<u8>,
    pool_capacity: usize,
)
    requires
        db.wf(),
        db.durable(),
        db.few_pages(),
        data.len() == 8192 * db.collection.data.pool.pm.count(),
        index.len() == 8192 * db.collection.btree.pm.count(),
        is_image(data, db.collection.data.pool.pm),
        is_image(index, db.collection.btree.pm),
        opened(r, data, index, db.wal.log@, pool_capacity),
        r is Ok,
    ensures
        r->Ok_0.wf(),
        r->Ok_0.docs() == db.docs(),
{
    let c = db.collection;
    let log = db.wal.log@;
    let recs = log_records(opened_log(log));
    lemma_page_counts(c);
    lemma_own_log(db.wal, c.data);
    law_recovery_restores_pages(db.wal, c.data, contents(c.btree.pm));
    lemma_pages(data, c.data.pool.pm);
    lemma_pages(index, c.btree.pm);
    if recs.len() == 0 {
        lemma_nothing_replayed(
            recs,
            Files { data: contents(c.data.pool.pm), index: contents(c.btree.pm) },
        );
        law_reopened_documents(c, r->Ok_0.collection, data, index);
    } else {
        reveal(replayed);
        let o = r->Ok_0.collection;
        let (pm, t) = choose|pm: PageManager, t: BTree<Uuid>|
            {
                &&& #[trigger] attached(o, pm, t)
                &&& t.meta == BTreeMeta::<Uuid>::parse(t.pm.page(1))
                &&& (Files { data: contents(pm), index: contents(t.pm) }) == recovered(
                    recs,
                    false,
                    Files { data: pages_of(data), index: pages_of(index) },
                    Seq::empty(),
                )
            };
        lemma_same_pages(c, pm, t);
    }
}

/// Recovery without records leaves the files alone.
proof fn lemma_nothing_replayed(recs: Seq<RecordM>, files: Files)
    requires
        recs.len() == 0,
    ensures
        recovered(recs, false, files, Seq::empty()) == files,
{
    assert(recs =~= Seq::<RecordM>::empty());
}

/// Reading back a document that was inserted gives its value, and the other
/// documents are as they were.
pub proof fn law_get_after_insert(rs: Seq<RawDoc>, key: Uuid, m: ValueM, other: Uuid)
    requires
        keys_ascend(rs),
        raw_lookup(rs, key.spec_bytes()) is None,
        encodable(m, 0),
    ensures
        ({
            let after = with_raw(rs, key.spec_bytes(), doc_image(key.0, m));
            &&& raw_lookup(after, key.spec_bytes()) == Some(doc_image(key.0, m))
            &&& doc_parse(doc_image(key.0, m)) == Ok::<(u128, ValueM), Seq<char>>((key.0, m))
            &&& other != key ==> raw_lookup(after, other.spec_bytes()) == raw_lookup(
                rs,
                other.spec_bytes(),
            )
        }),
{
    law_document_round_trip(key.0, m);
    law_read_after_insert(rs, key.spec_bytes(), doc_image(key.0, m), other.spec_bytes());
    crate::uid::lemma_uuid_bytes_injective(key, other);
}

/// What a read gives for the bytes that are stored under a key.
pub open spec fn read_value(r: Result<Option<Value>>, raw: Option<Seq<u8>>) -> bool {
    match raw {
        None => r is Ok && r->Ok_0 is None,
        Some(b) => match doc_parse(b) {
            Ok((_, m)) => r is Ok && r->Ok_0 is Some && r->Ok_0->0.model() == m && value_wf(m),
            Err(e) => r is Err && r->Err_0 is Codec && (r->Err_0->Codec_0)@ == e,
        },
    }
}

/// What a scan gives for stored documents.
pub open spec fn read_rows(r: Result<Vec<(Uuid, Value)>>, rs: Seq<RawDoc>) -> bool {
    match r {
        Ok(v) => decoded_rows(rs) == Ok::<Seq<(u128, ValueM)>, Seq<char>>(docs_of(v@)),
        Err(e) => e is Codec && decoded_rows(rs) == Err::<Seq<(u128, ValueM)>, Seq<char>>(
            (e->Codec_0)@,
        ),
    }
}

/// The page write of a change from `c` to `d` was logged, with the page before
/// and after it, and committed; the log then went on, or was cut at a
/// checkpoint.
#[verifier::opaque]
pub open spec fn change_logged(
    a: WalWriter,
    b: WalWriter,
    tx_id: u64,
    c: Collection,
    d: Collection,
    writes: u32,
) -> bool {
    exists|recs: Seq<PageWriteRecord>, h: Hlc|
        {
            &&& logged(c, d, recs[0].page_id, recs)
            &&& #[trigger] recorded(a, b, tx_id, recs, h, writes)
        }
}

/// A transaction of these page writes was logged, and committed at `h`; the log
/// then went on, or was cut at a checkpoint.
pub open spec fn recorded(
    a: WalWriter,
    b: WalWriter,
    tx_id: u64,
    recs: Seq<PageWriteRecord>,
    h: Hlc,
    writes: u32,
) -> bool {
    let begun = WalWriter { next_tx_id: (tx_id + 1) as u64, ..a };
    &&& a.clock.state.0 < h.0 <= b.clock.state.0
    &&& same_writer(begun, b)
    &&& if writes + 1 >= CHECKPOINT_INTERVAL {
        b.log@ == wal_header(WAL_VERSION_CURRENT) && b.next_lsn == a.next_lsn + recs.len() + 2
    } else {
        transaction_logged(begun, b, tx_id, recs, h)
    }
}

/// The page write of a change from `c` to `d` came to the log, or not; then the
/// clock gave no time: for a record of it, or for the checkpoint after it.
#[verifier::opaque]
pub open spec fn change_cut(
    a: WalWriter,
    b: WalWriter,
    tx_id: u64,
    c: Collection,
    d: Collection,
    e: GrumpyError,
) -> bool {
    let begun = WalWriter { next_tx_id: (tx_id + 1) as u64, ..a };
    exists|recs: Seq<PageWriteRecord>|
        {
            &&& #[trigger] logged(c, d, recs[0].page_id, recs)
            &&& {
                ||| writes_cut(begun, b, tx_id, recs, e)
                ||| exists|mid: WalWriter, h: Hlc| #[trigger]
                    transaction_logged(begun, mid, tx_id, recs, h) && log_failed(mid, b, e)
            }
        }
}

/// The number of writes since the last checkpoint after one more write.
pub open spec fn counted(writes: u32) -> u32 {
    if writes + 1 >= CHECKPOINT_INTERVAL {
        0
    } else {
        (writes + 1) as u32
    }
}

/// From `a` to `b` two changes were logged, each as a transaction of its own.
#[verifier::opaque]
pub open spec fn logged_in_two(a: GrumpyDb, b: GrumpyDb) -> bool {
    exists|mid: GrumpyDb|
        {
            &&& #[trigger] change_logged(
                a.wal,
                mid.wal,
                a.wal.next_tx_id,
                a.collection,
                mid.collection,
                a.writes_since_checkpoint,
            )
            &&& mid.writes_since_checkpoint == counted(a.writes_since_checkpoint)
            &&& change_logged(
                mid.wal,
                b.wal,
                mid.wal.next_tx_id,
                mid.collection,
                b.collection,
                mid.writes_since_checkpoint,
            )
        }
}

/// From `a` to `b` a first change was logged; a second one was refused, or came
/// as far as the clock gave times.
#[verifier::opaque]
pub open spec fn half_logged(a: GrumpyDb, b: GrumpyDb, e: GrumpyError) -> bool {
    exists|mid: GrumpyDb|
        {
            &&& #[trigger] change_logged(
                a.wal,
                mid.wal,
                a.wal.next_tx_id,
                a.collection,
                mid.collection,
                a.writes_since_checkpoint,
            )
            &&& mid.writes_since_checkpoint == counted(a.writes_since_checkpoint)
            &&& b.writes_since_checkpoint == mid.writes_since_checkpoint
            &&& refused(mid, b) || change_cut(
                mid.wal,
                b.wal,
                mid.wal.next_tx_id,
                mid.collection,
                b.collection,
                e,
            )
        }
}

/// A write that was refused uses up a transaction number.
pub open spec fn refused(a: GrumpyDb, b: GrumpyDb) -> bool {
    b == (GrumpyDb {
        wal: WalWriter { next_tx_id: (a.wal.next_tx_id + 1) as u64, ..a.wal },
        ..a
    })
}

/// From `a` to `b` only the cache changed.
pub open spec fn only_read(a: GrumpyDb, b: GrumpyDb) -> bool {
    &&& b.docs() == a.docs()
    &&& same_files(a.collection, b.collection)
    &&& b.wal == a.wal
    &&& b.writes_since_checkpoint == a.writes_since_checkpoint
}

impl GrumpyDb {
    /// The engine is in order.
    pub open spec fn wf(&self) -> bool {
        &&& self.collection.wf()
        &&& self.writes_since_checkpoint < CHECKPOINT_INTERVAL
    }

    /// The stored documents.
    pub open spec fn docs(&self) -> Seq<RawDoc> {
        self.collection.raws()
    }

    /// What was acknowledged survives a crash: the log and the data file
    /// together hold it.
    pub open spec fn durable(&self) -> bool {
        durable(self.wal, self.collection.data)
    }

    /// Page IDs are below the flag that marks index pages in the log.
    pub open spec fn few_pages(&self) -> bool {
        self.collection.data.pool.pm.count() <= INDEX_PAGE_FLAG
    }

    /// There are sequence numbers left for `n` operations.
    pub open spec fn wal_room(&self, n: int) -> bool {
        self.wal.next_lsn + 4 * n < u64::MAX && self.wal.next_tx_id + n < u64::MAX
    }

    /// Opens or creates a database from the stored bytes of its data file, its
    /// index and its log. If they hold something, the engine resumes.
    pub fn open(data: &[u8], index: &[u8], wal: &[u8]) -> (r: Result<Self>)
        requires
            data@.len() / 8192 < u32::MAX,
            index@.len() / 8192 <= u32::MAX,
        ensures
            opened(r, data@, index@, wal@, DEFAULT_POOL_CAPACITY),
    {
        GrumpyDb::open_with_pool_capacity(data, index, wal, DEFAULT_POOL_CAPACITY)
    }

    /// Opens a database with a custom buffer pool capacity (number of frames).
    pub fn open_with_pool_capacity(
        data: &[u8],
        index: &[u8],
        wal: &[u8],
        pool_capacity: usize,
    ) -> (r: Result<Self>)
        requires
            data@.len() / 8192 < u32::MAX,
            index@.len() / 8192 <= u32::MAX,
        ensures
            opened(r, data@, index@, wal@, pool_capacity),
    {
        let mut log: WalWriter = match WalWriter::new(wal) {
            Ok(w) => w,
            Err(e) => {
                return Err(e);
            },
        };
        let records: Vec<WalRecord> = match log.read_all_records() {
            Ok(v) => v,
            Err(e) => {
                return Err(e);
            },
        };
        if records.len() > 0 {
            let collection: Collection = match open_recovered(
                data,
                index,
                &records,
                pool_capacity,
            ) {
                Ok(c) => c,
                Err(e) => {
                    return Err(e);
                },
            };
            if log.next_lsn == u64::MAX {
                return Err(GrumpyError::WalCorrupted(u64::MAX));
            }
            match log.log_checkpoint() {
                Ok(_) => {},
                Err(e) => {
                    return Err(e);
                },
            }
            let _ = log.truncate();
            proof {
                lemma_checkpoint_durable(log, collection.data);
            }
            Ok(GrumpyDb { collection, wal: log, writes_since_checkpoint: 0 })
        } else {
            proof {
                assert(records_of(records@).len() == 0);
            }
            match Collection::open("_default", data, index, pool_capacity) {
                Ok(collection) => {
                    proof {
                        if log.log@ == wal_header(WAL_VERSION_CURRENT) && log.next_lsn >= 1 {
                            lemma_checkpoint_durable(log, collection.data);
                        }
                    }
                    Ok(GrumpyDb { collection, wal: log, writes_since_checkpoint: 0 })
                },
                Err(e) => Err(e),
            }
        }
    }

    /// Inserts a document with the given UUID key.
    ///
    /// Returns `DuplicateKey` if the key already exists.
    pub fn insert(&mut self, key: Uuid, value: Value) -> (r: Result<()>)
        requires
            old(self).wf(),
            old(self).wal_room(1),
        ensures
            final(self).wf(),
            old(self).wal.next_lsn <= final(self).wal.next_lsn <= old(self).wal.next_lsn + 3,
            final(self).wal.next_tx_id == old(self).wal.next_tx_id + 1,
            final(self).collection.secondary_indexes == old(self).collection.secondary_indexes,
            final(self).collection.data.pool.frames@.len() == old(
                self).collection.data.pool.frames@.len(),
            final(self).writes_since_checkpoint == (if r is Ok {
                counted(old(self).writes_since_checkpoint)
            } else {
                old(self).writes_since_checkpoint
            }),
            final(self).collection.data.pool.pm.count() >= old(
                self).collection.data.pool.pm.count(),
            old(self).durable() && final(self).few_pages() && (r matches Err(e) ==> !(e is Hlc))
                ==> final(self).durable(),
            ({
                let image = doc_image(key.0, value.model());
                let k = key.spec_bytes();
                if raw_lookup(old(self).docs(), k) is Some {
                    r == Err::<(), GrumpyError>(GrumpyError::DuplicateKey(key)) && refused(
                        *old(self),
                        *final(self),
                    )
                } else if !old(self).collection.has_room(image.len()) {
                    r == Err::<(), GrumpyError>(
                        GrumpyError::PageFull(old(self).collection.data.current),
                    ) && refused(*old(self), *final(self))
                } else if !old(self).collection.framed() {
                    r == Err::<(), GrumpyError>(GrumpyError::BufferPoolExhausted) && refused(
                        *old(self),
                        *final(self),
                    )
                } else {
                    &&& final(self).docs() == with_raw(old(self).docs(), k, image)
                    &&& r matches Err(e) ==> tick_failed(final(self).wal.clock.state, e) && change_cut(
                        old(self).wal,
                        final(self).wal,
                        old(self).wal.next_tx_id,
                        old(self).collection,
                        final(self).collection,
                        e,
                    )
                    &&& r is Ok ==> change_logged(
                        old(self).wal,
                        final(self).wal,
                        old(self).wal.next_tx_id,
                        old(self).collection,
                        final(self).collection,
                        old(self).writes_since_checkpoint,
                    )
                }
            }),
    {
        let doc: Document = Document::new(key, value);
        let encoded: Vec<u8> = doc.encode();
        let ghost w0 = self.wal;
        let ghost d0 = self.collection.data;
        let ghost c0 = self.collection;
        let tx_id: u64 = self.wal.begin_tx();
        assert(w0 == (WalWriter { next_tx_id: tx_id, ..self.wal }));
        proof {
            if durable(w0, d0) {
                lemma_read_durable(w0, self.wal, d0, d0);
            }
        }
        match self.collection.insert_raw(key, encoded.as_slice()) {
            Ok((_, records)) => self.commit_change(tx_id, &records, Ghost(c0)),
            Err(e) => Err(e),
        }
    }

    /// Logs a change and checkpoints when it is time.
    fn commit_change(
        &mut self,
        tx_id: u64,
        records: &Vec<PageWriteRecord>,
        before: Ghost<Collection>,
    ) -> (r: Result<()>)
        requires
            old(self).wf(),
            logged(before@, old(self).collection, records@[0].page_id, records@),
            old(self).wal.next_lsn + 4 < u64::MAX,
            old(self).wal.next_tx_id == tx_id + 1,
        ensures
            final(self).wf(),
            final(self).docs() == old(self).docs(),
            old(self).wal.next_lsn <= final(self).wal.next_lsn <= old(self).wal.next_lsn + 3,
            final(self).wal.next_tx_id == old(self).wal.next_tx_id,
            same_files(old(self).collection, final(self).collection),
            r matches Err(e) ==> tick_failed(final(self).wal.clock.state, e) && change_cut(
                WalWriter { next_tx_id: tx_id, ..old(self).wal },
                final(self).wal,
                tx_id,
                before@,
                final(self).collection,
                e,
            ),
            final(self).writes_since_checkpoint == (if r is Ok {
                counted(old(self).writes_since_checkpoint)
            } else {
                old(self).writes_since_checkpoint
            }),
            r is Ok && old(self).few_pages() && durable(old(self).wal, before@.data) ==> final(
                self).durable(),
            r is Ok ==> change_logged(
                WalWriter { next_tx_id: tx_id, ..old(self).wal },
                final(self).wal,
                tx_id,
                before@,
                final(self).collection,
                old(self).writes_since_checkpoint,
            ),
    {
        proof {
            reveal(change_logged);
            reveal(change_cut);
        }
        let ghost w0 = self.wal;
        let ghost c1 = self.collection;
        match log_transaction(&mut self.wal, tx_id, records) {
            Ok(h) => {
                proof {
                    let w1 = WalWriter { next_tx_id: tx_id, ..w0 };
                    assert(w0 == (WalWriter { next_tx_id: (tx_id + 1) as u64, ..w1 }));
                    assert(transaction_logged(
                        WalWriter { next_tx_id: (tx_id + 1) as u64, ..w1 },
                        self.wal,
                        tx_id,
                        records@,
                        h,
                    ));
                    if self.few_pages() && durable(w0, before@.data) {
                        lemma_change_durable(
                            w0,
                            self.wal,
                            before@.data,
                            self.collection.data,
                            tx_id,
                            records@,
                            h,
                        );
                    }
                }
                let ghost mid = self.wal;
                let done = self.maybe_checkpoint();
                proof {
                    lemma_logged_cached(before@, c1, self.collection, records@);
                    if done is Err {
                        assert(transaction_logged(w0, mid, tx_id, records@, h) && log_failed(
                            mid,
                            self.wal,
                            done->Err_0,
                        ));
                    }
                    if done is Ok {
                        assert(recorded(
                            WalWriter { next_tx_id: tx_id, ..w0 },
                            self.wal,
                            tx_id,
                            records@,
                            h,
                            old(self).writes_since_checkpoint,
                        ));
                    }
                }
                done
            },
            Err(e) => Err(e),
        }
    }

    /// Retrieves a document by its UUID key.
    ///
    /// Returns `None` if the key does not exist.
    pub fn get(&mut self, key: &Uuid) -> (r: Result<Option<Value>>)
        requires
            old(self).wf(),
        ensures
            final(self).wf(),
            final(self).wal == old(self).wal,
            final(self).writes_since_checkpoint == old(self).writes_since_checkpoint,
            same_documents(old(self).collection, final(self).collection),
            old(self).durable() ==> final(self).durable(),
            if raw_lookup(old(self).docs(), key.spec_bytes()) is Some && !old(
                self).collection.framed() {
                r == Err::<Option<Value>, GrumpyError>(GrumpyError::BufferPoolExhausted)
            } else {
                read_value(r, raw_lookup(old(self).docs(), key.spec_bytes()))
            },
    {
        let ghost old_db = *self;
        let found = self.collection.get_raw(key);
        proof {
            lemma_read_keeps(old_db, *self);
        }
        match found {
            Ok(Some(raw)) => match Document::decode(raw.as_slice()) {
                Ok(doc) => Ok(Some(doc.value)),
                Err(e) => Err(e),
            },
            Ok(None) => Ok(None),
            Err(e) => Err(e),
        }
    }

    /// Updates an existing document.
    ///
    /// Returns `KeyNotFound` if the key does not exist.
    pub fn update(&mut self, key: &Uuid, value: Value) -> (r: Result<()>)
        requires
            old(self).wf(),
            old(self).wal_room(2),
        ensures
            final(self).wf(),
            old(self).wal.next_lsn <= final(self).wal.next_lsn <= old(self).wal.next_lsn + 6,
            old(self).wal.next_tx_id <= final(self).wal.next_tx_id <= old(self).wal.next_tx_id + 2,
            final(self).collection.secondary_indexes == old(self).collection.secondary_indexes,
            old(self).durable() && final(self).few_pages() && (r matches Err(e) ==> !(e is Hlc))
                ==> final(self).durable(),
            ({
                let k = key.spec_bytes();
                let image = doc_image(key.0, value.model());
                let gone = without_raw(old(self).docs(), k);
                if raw_lookup(old(self).docs(), k) is None {
                    r == Err::<(), GrumpyError>(GrumpyError::KeyNotFound(*key)) && only_read(
                        *old(self),
                        *final(self),
                    )
                } else if !old(self).collection.framed() {
                    r == Err::<(), GrumpyError>(GrumpyError::BufferPoolExhausted) && only_read(
                        *old(self),
                        *final(self),
                    )
                } else {
                    match r {
                        Ok(_) => final(self).docs() == with_raw(gone, k, image) && final(
                            self).writes_since_checkpoint == counted(
                            counted(old(self).writes_since_checkpoint),
                        ) && logged_in_two(*old(self), *final(self)),
                        Err(e) => {
                            ||| e is PageFull && final(self).docs() == gone && !old(
                                self).collection.has_room(image.len()) && half_logged(
                                *old(self),
                                *final(self),
                                e,
                            )
                            ||| tick_failed(final(self).wal.clock.state, e) && final(self).docs()
                                == gone && change_cut(
                                old(self).wal,
                                final(self).wal,
                                old(self).wal.next_tx_id,
                                old(self).collection,
                                final(self).collection,
                                e,
                            )
                            ||| tick_failed(final(self).wal.clock.state, e) && final(self).docs()
                                == with_raw(gone, k, image) && half_logged(
                                *old(self),
                                *final(self),
                                e,
                            )
                        },
                    }
                }
            }),
    {
        match self.contains(key) {
            Ok(found) => {
                if !found {
                    return Err(GrumpyError::KeyNotFound(*key));
                }
            },
            Err(e) => {
                return Err(e);
            },
        }
        let ghost found = *self;
        proof {
            lemma_deleted(*self, *key);
        }
        match self.delete(key) {
            Ok(_) => {},
            Err(e) => {
                proof {
                    lemma_read_then_cut(*old(self), found, *self, e);
                }
                return Err(e);
            },
        }
        let ghost mid = *self;
        let r = self.insert(*key, value);
        proof {
            lemma_read_then_changed(*old(self), found, mid);
            if r is Ok {
                reveal(logged_in_two);
                assert(logged_in_two(*old(self), *self));
            } else {
                reveal(half_logged);
                assert(half_logged(*old(self), *self, r->Err_0));
            }
        }
        r
    }

    /// Whether there is a document with a key.
    fn contains(&mut self, key: &Uuid) -> (r: Result<bool>)
        requires
            old(self).wf(),
        ensures
            final(self).wf(),
            final(self).wal == old(self).wal,
            final(self).writes_since_checkpoint == old(self).writes_since_checkpoint,
            final(self).docs() == old(self).docs(),
            same_files(old(self).collection, final(self).collection),
            old(self).durable() ==> final(self).durable(),
            match r {
                Ok(found) => found == (raw_lookup(old(self).docs(), key.spec_bytes()) is Some) && (
                found ==> old(self).collection.framed()),
                Err(e) => e == GrumpyError::BufferPoolExhausted && !old(self).collection.framed()
                    && raw_lookup(old(self).docs(), key.spec_bytes()) is Some,
            },
    {
        let ghost old_db = *self;
        let found = self.collection.get_raw(key);
        proof {
            lemma_read_keeps(old_db, *self);
        }
        match found {
            Ok(Some(_)) => Ok(true),
            Ok(None) => Ok(false),
            Err(e) => Err(e),
        }
    }

    /// Deletes a document by its UUID key.
    ///
    /// Returns `KeyNotFound` if the key does not exist.
    pub fn delete(&mut self, key: &Uuid) -> (r: Result<()>)
        requires
            old(self).wf(),
            old(self).wal_room(1),
        ensures
            final(self).wf(),
            old(self).wal.next_lsn <= final(self).wal.next_lsn <= old(self).wal.next_lsn + 3,
            final(self).wal.next_tx_id == old(self).wal.next_tx_id + 1,
            final(self).collection.secondary_indexes == old(self).collection.secondary_indexes,
            final(self).collection.data.pool.frames@.len() == old(
                self).collection.data.pool.frames@.len(),
            final(self).writes_since_checkpoint == (if r is Ok {
                counted(old(self).writes_since_checkpoint)
            } else {
                old(self).writes_since_checkpoint
            }),
            final(self).collection.data.pool.pm.count() == old(
                self).collection.data.pool.pm.count(),
            final(self).collection.btree.pm.count() == old(self).collection.btree.pm.count(),
            final(self).collection.btree.meta.height <= old(self).collection.btree.meta.height,
            final(self).collection.btree.meta.num_entries <= old(
                self).collection.btree.meta.num_entries,
            old(self).durable() && final(self).few_pages() && (r matches Err(e) ==> !(e is Hlc))
                ==> final(self).durable(),
            if raw_lookup(old(self).docs(), key.spec_bytes()) is None {
                r == Err::<(), GrumpyError>(GrumpyError::KeyNotFound(*key)) && refused(
                    *old(self),
                    *final(self),
                )
            } else if !old(self).collection.framed() {
                r == Err::<(), GrumpyError>(GrumpyError::BufferPoolExhausted) && refused(
                    *old(self),
                    *final(self),
                )
            } else {
                &&& final(self).docs() == without_raw(old(self).docs(), key.spec_bytes())
                &&& r matches Err(e) ==> tick_failed(final(self).wal.clock.state, e) && change_cut(
                    old(self).wal,
                    final(self).wal,
                    old(self).wal.next_tx_id,
                    old(self).collection,
                    final(self).collection,
                    e,
                )
                &&& r is Ok ==> change_logged(
                    old(self).wal,
                    final(self).wal,
                    old(self).wal.next_tx_id,
                    old(self).collection,
                    final(self).collection,
                    old(self).writes_since_checkpoint,
                )
            },
    {
        let ghost w0 = self.wal;
        let ghost d0 = self.collection.data;
        let ghost c0 = self.collection;
        let tx_id: u64 = self.wal.begin_tx();
        assert(w0 == (WalWriter { next_tx_id: tx_id, ..self.wal }));
        proof {
            if durable(w0, d0) {
                lemma_read_durable(w0, self.wal, d0, d0);
            }
        }
        match self.collection.delete_raw(key) {
            Ok(records) => self.commit_change(tx_id, &records, Ghost(c0)),
            Err(e) => Err(e),
        }
    }

    /// Scans documents in a UUID key range.
    ///
    /// Returns all documents whose keys fall within the given range, sorted by
    /// key.
    pub fn scan(&mut self, start: &KeyBound, end: &KeyBound) -> (r: Result<Vec<(Uuid, Value)>>)
        requires
            old(self).wf(),
        ensures
            final(self).wf(),
            final(self).wal == old(self).wal,
            final(self).writes_since_checkpoint == old(self).writes_since_checkpoint,
            same_documents(old(self).collection, final(self).collection),
            old(self).durable() ==> final(self).durable(),
            if selected(old(self).docs(), *start, *end).len() > 0 && !old(
                self).collection.framed() {
                r == Err::<Vec<(Uuid, Value)>, GrumpyError>(GrumpyError::BufferPoolExhausted)
            } else {
                read_rows(r, selected(old(self).docs(), *start, *end))
            },
    {
        let ghost old_db = *self;
        let found = self.collection.scan_raw(start, end);
        proof {
            lemma_read_keeps(old_db, *self);
        }
        match found {
            Ok(rows) => decode_rows(&rows),
            Err(e) => Err(e),
        }
    }

    /// Flushes all data to the data file and writes a WAL checkpoint.
    pub fn flush(&mut self) -> (r: Result<()>)
        requires
            old(self).wf(),
            old(self).wal.next_lsn < u64::MAX,
        ensures
            final(self).wf(),
            final(self).docs() == old(self).docs(),
            same_files(old(self).collection, final(self).collection),
            contents(final(self).collection.data.pool.pm) == final(
                self).collection.data.heap().pages,
            same_writer(old(self).wal, final(self).wal),
            final(self).wal.next_lsn == old(self).wal.next_lsn + 1,
            final(self).wal.clock.state.0 >= old(self).wal.clock.state.0,
            old(self).durable() || r is Ok ==> final(self).durable(),
            match r {
                Ok(_) => final(self).wal.log@ == wal_header(WAL_VERSION_CURRENT) && final(
                    self).writes_since_checkpoint == 0,
                Err(e) => log_failed(old(self).wal, final(self).wal, e) && final(
                    self).writes_since_checkpoint == old(self).writes_since_checkpoint,
            },
    {
        let ghost old_db = *self;
        let _ = self.collection.flush();
        match self.wal.log_checkpoint() {
            Ok((_, h)) => {
                proof {
                    lemma_clock_moved(old_db.wal, self.wal, h);
                }
            },
            Err(e) => {
                proof {
                    lemma_read_keeps(old_db, *self);
                }
                return Err(e);
            },
        }
        let _ = self.wal.truncate();
        self.writes_since_checkpoint = 0;
        proof {
            lemma_checkpoint_durable(self.wal, self.collection.data);
        }
        Ok(())
    }

    /// Closes the database, flushing all pending data. Gives the engine back,
    /// whose files are then complete.
    pub fn close(self) -> (r: Result<Self>)
        requires
            self.wf(),
            self.wal.next_lsn < u64::MAX,
        ensures
            match r {
                Ok(db) => {
                    &&& db.wf()
                    &&& db.docs() == self.docs()
                    &&& contents(db.collection.data.pool.pm) == db.collection.data.heap().pages
                    &&& db.wal.log@ == wal_header(WAL_VERSION_CURRENT)
                    &&& db.durable()
                },
                Err(e) => tick_failed(self.wal.clock.state, e),
            },
    {
        let mut db: GrumpyDb = self;
        match db.flush() {
            Ok(_) => Ok(db),
            Err(e) => Err(e),
        }
    }

    /// Returns the number of documents in the database.
    pub fn document_count(&self) -> (r: u64)
        requires
            self.wf(),
        ensures
            r == self.docs().len(),
    {
        self.collection.document_count()
    }

    /// Compacts the database: defragments data pages and rebuilds the B+Tree
    /// index.
    pub fn compact(&mut self) -> (r: Result<CompactResult>)
        requires
            old(self).wf(),
            old(self).wal.next_lsn < u64::MAX,
        ensures
            final(self).wf(),
            same_writer(old(self).wal, final(self).wal),
            match r {
                Ok(c) => {
                    &&& final(self).docs() == old(self).docs()
                    &&& c.documents == final(self).docs().len()
                    &&& defragmented(final(self).collection.data, final(self).docs())
                    &&& final(self).durable()
                    &&& final(self).wal.log@ == wal_header(WAL_VERSION_CURRENT)
                    &&& final(self).writes_since_checkpoint == 0
                },
                Err(_) => {
                    &&& final(self).docs() == old(self).docs()
                    &&& final(self).writes_since_checkpoint == old(self).writes_since_checkpoint
                },
            },
            exists|cr: Result<u64>| #[trigger]
                compacted(old(self).collection, final(self).collection, cr, false) && match cr {
                    Err(e) => r == Err::<CompactResult, GrumpyError>(e) && final(self).wal == old(
                        self).wal,
                    Ok(n) => (r is Ok && r->Ok_0.documents == n) || (r is Err && log_failed(
                        old(self).wal,
                        final(self).wal,
                        r->Err_0,
                    )),
                },
    {
        let done: Result<u64> = self.collection.compact();
        assert(compacted(old(self).collection, self.collection, done, false));
        let documents: u64 = match done {
            Ok(n) => n,
            Err(e) => {
                return Err(e);
            },
        };
        match self.wal.log_checkpoint() {
            Ok(_) => {},
            Err(e) => {
                return Err(e);
            },
        }
        let _ = self.wal.truncate();
        self.writes_since_checkpoint = 0;
        proof {
            lemma_checkpoint_durable(self.wal, self.collection.data);
        }
        Ok(CompactResult { documents })
    }

    /// Returns buffer pool statistics: `(read_count, write_count,
    /// cached_count, capacity)`.
    pub fn pool_stats(&self) -> (r: (u64, u64, usize, usize))
        ensures
            r.0 == self.collection.data.pool.read_count,
            r.1 == self.collection.data.pool.write_count,
            r.2 == self.collection.data.pool.page_table@.len(),
            r.3 == self.collection.data.pool.frames@.len(),
    {
        self.collection.pool_stats()
    }

    /// Periodic checkpoint: flush + truncate WAL every N writes.
    fn maybe_checkpoint(&mut self) -> (r: Result<()>)
        requires
            old(self).wf(),
            old(self).wal.next_lsn < u64::MAX,
        ensures
            final(self).wf(),
            final(self).docs() == old(self).docs(),
            same_files(old(self).collection, final(self).collection),
            same_writer(old(self).wal, final(self).wal),
            old(self).wal.next_lsn <= final(self).wal.next_lsn <= old(self).wal.next_lsn + 1,
            final(self).wal.clock.state.0 >= old(self).wal.clock.state.0,
            old(self).durable() ==> final(self).durable(),
            r matches Err(e) ==> log_failed(old(self).wal, final(self).wal, e),
            final(self).writes_since_checkpoint == (if r is Ok {
                counted(old(self).writes_since_checkpoint)
            } else {
                old(self).writes_since_checkpoint
            }),
            old(self).writes_since_checkpoint + 1 < CHECKPOINT_INTERVAL ==> r is Ok && final(
                self).wal == old(self).wal && final(self).collection == old(self).collection,
            old(self).writes_since_checkpoint + 1 >= CHECKPOINT_INTERVAL && r is Ok ==> final(
                self).wal.log@ == wal_header(WAL_VERSION_CURRENT) && final(self).wal.next_lsn
                == old(self).wal.next_lsn + 1,
    {
        let n: u32 = self.writes_since_checkpoint + 1;
        if n >= CHECKPOINT_INTERVAL {
            self.flush()
        } else {
            self.writes_since_checkpoint = n;
            Ok(())
        }
    }
}

/// Where only the cache changed, a durable engine stays so.
proof fn lemma_read_keeps(a: GrumpyDb, b: GrumpyDb)
    requires
        same_documents(a.collection, b.collection),
        b.wal.log@ == a.wal.log@,
        b.wal.next_lsn >= a.wal.next_lsn,
        b.wal.next_tx_id >= a.wal.next_tx_id,
    ensures
        a.durable() ==> b.durable(),
{
    if a.durable() {
        lemma_read_durable(a.wal, b.wal, a.collection.data, b.collection.data);
    }
}

/// A change is logged as well from before a read.
proof fn lemma_read_then_changed(a: GrumpyDb, b: GrumpyDb, c: GrumpyDb)
    requires
        b.wal == a.wal,
        b.writes_since_checkpoint == a.writes_since_checkpoint,
        same_files(a.collection, b.collection),
        change_logged(
            b.wal,
            c.wal,
            b.wal.next_tx_id,
            b.collection,
            c.collection,
            b.writes_since_checkpoint,
        ),
    ensures
        change_logged(
            a.wal,
            c.wal,
            a.wal.next_tx_id,
            a.collection,
            c.collection,
            a.writes_since_checkpoint,
        ),
{
    reveal(change_logged);
    let (recs, h) = choose|recs: Seq<PageWriteRecord>, h: Hlc|
        {
            &&& logged(b.collection, c.collection, recs[0].page_id, recs)
            &&& #[trigger] recorded(
                b.wal,
                c.wal,
                b.wal.next_tx_id,
                recs,
                h,
                b.writes_since_checkpoint,
            )
        };
    lemma_cached_logged(a.collection, b.collection, c.collection, recs);
}

/// The same of a change that was cut.
proof fn lemma_read_then_cut(a: GrumpyDb, b: GrumpyDb, c: GrumpyDb, e: GrumpyError)
    requires
        b.wal == a.wal,
        same_files(a.collection, b.collection),
        change_cut(b.wal, c.wal, b.wal.next_tx_id, b.collection, c.collection, e),
    ensures
        change_cut(a.wal, c.wal, a.wal.next_tx_id, a.collection, c.collection, e),
{
    reveal(change_cut);
    let tx = b.wal.next_tx_id;
    let begun = WalWriter { next_tx_id: (tx + 1) as u64, ..b.wal };
    let recs = choose|recs: Seq<PageWriteRecord>|
        {
            &&& #[trigger] logged(b.collection, c.collection, recs[0].page_id, recs)
            &&& {
                ||| writes_cut(begun, c.wal, tx, recs, e)
                ||| exists|mid: WalWriter, h: Hlc| #[trigger]
                    transaction_logged(begun, mid, tx, recs, h) && log_failed(mid, c.wal, e)
            }
        };
    lemma_cached_logged(a.collection, b.collection, c.collection, recs);
}

proof fn lemma_deleted(db: GrumpyDb, key: Uuid)
    requires
        db.wf(),
        raw_lookup(db.docs(), key.spec_bytes()) is Some,
    ensures
        raw_lookup(without_raw(db.docs(), key.spec_bytes()), key.spec_bytes()) is None,
{
    crate::collection::law_keys_ascend(db.collection);
    crate::collection::law_read_after_delete(db.docs(), key.spec_bytes(), key.spec_bytes());
}

/// From `a` to `b` the documents and the sizes of the files are the same.
pub open spec fn same_files(a: Collection, b: Collection) -> bool {
    &&& b.name == a.name
    &&& b.btree == a.btree
    &&& b.secondary_indexes == a.secondary_indexes
    &&& b.data.heap() == a.data.heap()
    &&& b.data.current == a.data.current
    &&& b.data.pool.pm.count() == a.data.pool.pm.count()
    &&& b.data.pool.frames@.len() == a.data.pool.frames@.len()
    &&& saved_kept(a.data.pool, b.data.pool, -1)
}

/// What opening a database gives: a log that cannot be read is reported; an
/// empty log leaves the files as they are, and the log of a database that was
/// not closed is replayed first and cut.
pub open spec fn opened(
    r: Result<GrumpyDb>,
    data: Seq<u8>,
    index: Seq<u8>,
    wal: Seq<u8>,
    pool_capacity: usize,
) -> bool {
    let recs = log_records(opened_log(wal));
    if wal.len() > 0 && stored_version(wal) is Err {
        r is Err && r->Err_0 == stored_version(wal)->Err_0
    } else {
        &&& r matches Ok(db) ==> {
            &&& db.writes_since_checkpoint == 0
            &&& db.wal.file_version == WAL_VERSION_CURRENT
            &&& db.wal.node_id == NIL_NODE_ID
            &&& db.wal.clock.max_skew_ms == DEFAULT_MAX_SKEW_MS
            &&& db.wal.next_tx_id == following(max_tx(stored_records(wal)))
        }
        &&& recs.len() == 0 ==> {
            &&& match unopenable(data.len(), index.len()) {
                Some(e) => r == Err::<GrumpyDb, GrumpyError>(e),
                None => r is Ok,
            }
            &&& r matches Ok(db) ==> {
                &&& db.wal.log@ == opened_log(wal)
                &&& db.wal.next_lsn == following(max_lsn(stored_records(wal)))
                &&& wal.len() == 0 ==> db.wal.next_lsn == 1 && db.wal.next_tx_id == 1
                &&& db.wal.clock.state.log() == 0
                &&& db.collection.data.pool.frames@.len() == pool_capacity
                &&& db.collection.secondary_indexes@.len() == 0
                &&& opened_from(db.collection, data, index)
                &&& opened_log(wal) == wal_header(WAL_VERSION_CURRENT) && db.wal.next_lsn >= 1
                    ==> db.durable()
                &&& data.len() == 0 && index.len() == 0 ==> db.wf() && db.docs() == Seq::<
                    RawDoc,
                >::empty() && fresh_files(db.collection)
            }
        }
        &&& recs.len() > 0 ==> {
            let unusable = unreplayable(pages_of(data), pages_of(index));
            &&& unusable is Some ==> r == Err::<GrumpyDb, GrumpyError>(unusable->0)
            &&& unusable is None && following(max_lsn(stored_records(wal))) == u64::MAX ==> r
                == Err::<GrumpyDb, GrumpyError>(GrumpyError::WalCorrupted(u64::MAX))
            &&& match r {
                Ok(db) => {
                    &&& db.wal.log@ == wal_header(WAL_VERSION_CURRENT)
                    &&& db.wal.next_lsn == following(max_lsn(stored_records(wal))) + 1
                    &&& exists|at: Hlc, wall: u64|
                        at.log() == 0 && #[trigger] ticked(at, wall) == Ok::<Hlc, HlcError>(
                            db.wal.clock.state,
                        )
                    &&& db.durable()
                    &&& db.collection.data.pool.frames@.len() == pool_capacity
                    &&& db.collection.secondary_indexes@.len() == 0
                    &&& replayed(db.collection, recs, pages_of(data), pages_of(index))
                },
                Err(e) => unusable is None && following(max_lsn(stored_records(wal))) < u64::MAX
                    ==> exists|at: Hlc| at.log() == 0 && #[trigger] tick_failed(at, e),
            }
        }
    }
}

/// The whole pages of a stored file; a new file has its free-list page.
pub open spec fn pages_of(image: Seq<u8>) -> Seq<Seq<u8>> {
    if image.len() == 0 {
        seq![empty_page(0, PageType::FreeList)]
    } else {
        Seq::new(image.len() / 8192, |i: int| image.subrange(8192 * i, 8192 * i + 8192))
    }
}

/// Why files with these pages cannot be opened after recovery: an index without
/// its meta page, or a data file without its first page.
pub open spec fn unreplayable(data: Seq<Seq<u8>>, index: Seq<Seq<u8>>) -> Option<GrumpyError> {
    if index.len() < 2 {
        Some(GrumpyError::PageNotFound(1))
    } else if data.len() < 1 {
        Some(GrumpyError::PageNotFound(0))
    } else {
        None
    }
}

/// `c` was opened from what recovery made of two files.
#[verifier::opaque]
pub open spec fn replayed(
    c: Collection,
    recs: Seq<RecordM>,
    data: Seq<Seq<u8>>,
    index: Seq<Seq<u8>>,
) -> bool {
    exists|pm: PageManager, t: BTree<Uuid>|
        {
            &&& #[trigger] attached(c, pm, t)
            &&& t.meta == BTreeMeta::<Uuid>::parse(t.pm.page(1))
            &&& (Files { data: contents(pm), index: contents(t.pm) }) == recovered(
                recs,
                false,
                Files { data, index },
                Seq::empty(),
            )
        }
}

/// Replays records on two files and opens what that gives.
fn open_recovered(
    data: &[u8],
    index: &[u8],
    records: &Vec<WalRecord>,
    pool_capacity: usize,
) -> (r: Result<Collection>)
    requires
        data@.len() / 8192 < u32::MAX,
        index@.len() / 8192 <= u32::MAX,
    ensures
        match unreplayable(pages_of(data@), pages_of(index@)) {
            Some(e) => r == Err::<Collection, GrumpyError>(e),
            None => r is Ok && r->Ok_0.data.pool.frames@.len() == pool_capacity
                && contents(r->Ok_0.data.pool.pm) == r->Ok_0.data.heap().pages
                && r->Ok_0.secondary_indexes@.len() == 0 && replayed(
                r->Ok_0,
                records_of(records@),
                pages_of(data@),
                pages_of(index@),
            ),
        },
{
    let mut data_pm: PageManager = PageManager::new(data);
    let mut index_pm: PageManager = PageManager::new(index);
    proof {
        lemma_pages(data@, data_pm);
        lemma_pages(index@, index_pm);
    }
    let _ = recover(records.as_slice(), &mut data_pm, &mut index_pm);
    let ghost pm = data_pm;
    let btree: BTree<Uuid> = match BTree::open(index_pm) {
        Ok(t) => t,
        Err(e) => {
            return Err(e);
        },
    };
    let r = Collection::attach("_default", data_pm, btree, pool_capacity);
    proof {
        reveal(replayed);
        if r is Ok {
            assert(attached(r->Ok_0, pm, btree));
        }
    }
    r
}

/// Opening a stored file gives its pages.
proof fn lemma_pages(image: Seq<u8>, pm: PageManager)
    requires
        image.len() == 0 ==> pm.count() == 1 && pm.page(0) == empty_page(0, PageType::FreeList),
        image.len() != 0 ==> is_image(image, pm),
    ensures
        contents(pm) == pages_of(image),
{
    assert forall|i: int| 0 <= i < pm.count() implies contents(pm)[i] == pages_of(image)[i] by {
        assert(pm.page(i) == contents(pm)[i]);
    }
    assert(contents(pm) =~= pages_of(image));
}

// ── Reads ───────────────────────────────────────────────────────────────

/// The document under a key, as it is stored.
pub open spec fn document_at(rs: Seq<RawDoc>, k: u128) -> Option<ValueM> {
    match raw_lookup(rs, be_bytes(k as nat, 16)) {
        Some(b) => match doc_parse(b) {
            Ok((_, m)) => Some(m),
            Err(_) => None,
        },
        None => None,
    }
}

/// A read gives the document under its key as it was inserted, updated or left
/// alone, and none after it was deleted.
pub proof fn law_engine_reads_what_was_written(
    rs: Seq<RawDoc>,
    key: Uuid,
    m: ValueM,
    q: Uuid,
    r: Result<Option<Value>>,
)
    requires
        keys_ascend(rs),
        encodable(m, 0),
    ensures
        raw_lookup(rs, key.spec_bytes()) is None && read_value(
            r,
            raw_lookup(with_raw(rs, key.spec_bytes(), doc_image(key.0, m)), key.spec_bytes()),
        ) ==> r is Ok && r->Ok_0 is Some && r->Ok_0->0.model() == m,
        raw_lookup(rs, key.spec_bytes()) is Some && read_value(
            r,
            raw_lookup(
                with_raw(
                    without_raw(rs, key.spec_bytes()),
                    key.spec_bytes(),
                    doc_image(key.0, m),
                ),
                key.spec_bytes(),
            ),
        ) ==> r is Ok && r->Ok_0 is Some && r->Ok_0->0.model() == m,
        raw_lookup(rs, key.spec_bytes()) is Some && read_value(
            r,
            raw_lookup(without_raw(rs, key.spec_bytes()), key.spec_bytes()),
        ) ==> r is Ok && r->Ok_0 is None,
        q != key && raw_lookup(rs, key.spec_bytes()) is Some ==> document_at(
            without_raw(rs, key.spec_bytes()),
            q.0,
        ) == document_at(rs, q.0) && document_at(
            with_raw(without_raw(rs, key.spec_bytes()), key.spec_bytes(), doc_image(key.0, m)),
            q.0,
        ) == document_at(rs, q.0),
        q != key && raw_lookup(rs, key.spec_bytes()) is None ==> document_at(
            with_raw(rs, key.spec_bytes(), doc_image(key.0, m)),
            q.0,
        ) == document_at(rs, q.0),
{
    let k = key.spec_bytes();
    law_document_round_trip(key.0, m);
    crate::uid::lemma_uuid_bytes_injective(key, q);
    if raw_lookup(rs, k) is None {
        law_read_after_insert(rs, k, doc_image(key.0, m), q.spec_bytes());
    } else {
        law_read_after_delete(rs, k, q.spec_bytes());
        law_read_after_delete(rs, k, k);
        law_read_after_insert(without_raw(rs, k), k, doc_image(key.0, m), q.spec_bytes());
    }
}

/// A scan gives exactly the documents whose keys lie in the range, ends counted
/// in or out as the bounds say, in ascending order of their keys.
pub proof fn law_engine_scan_gives_the_range(
    db: GrumpyDb,
    start: KeyBound,
    end: KeyBound,
    r: Result<Vec<(Uuid, Value)>>,
    k: u128,
    m: ValueM,
)
    requires
        db.wf(),
        read_rows(r, selected(db.docs(), start, end)),
        r is Ok,
    ensures
        forall|i: int, j: int|
            0 <= i < j < r->Ok_0@.len() ==> ((#[trigger] r->Ok_0@[i]).0).0 < ((
            #[trigger] r->Ok_0@[j]).0).0,
        docs_of(r->Ok_0@).contains((k, m)) == (document_at(db.docs(), k) == Some(m) && match start {
            KeyBound::Included(s) => s.0 <= k,
            KeyBound::Excluded(s) => s.0 < k,
            KeyBound::Unbounded => true,
        } && match end {
            KeyBound::Included(e) => k <= e.0,
            KeyBound::Excluded(e) => k < e.0,
            KeyBound::Unbounded => true,
        }),
{
    law_keys_ascend(db.collection);
    lemma_plain_keys(db.collection);
    lemma_selected_rows(db.docs(), start, end, k, m);
    let rows = docs_of(r->Ok_0@);
    assert forall|i: int, j: int| 0 <= i < j < r->Ok_0@.len() implies ((
    #[trigger] r->Ok_0@[i]).0).0 < ((#[trigger] r->Ok_0@[j]).0).0 by {
        assert(rows[i].0 < rows[j].0);
    }
}

/// Every hundredth write ends with a checkpoint.
pub proof fn law_checkpoint_every_hundred_writes(writes: u32)
    requires
        writes < 100,
    ensures
        counted(writes) == (if writes == 99 {
            0
        } else {
            writes + 1
        }),
{
}

} // verus!
