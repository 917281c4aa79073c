//! Database: manages multiple named collections with a shared WAL.
//!
//! A database is the unit of transaction — all CRUD operations are scoped to a
//! single database. Each database has its own WAL and collections. The database
//! works on the contents of its files; reading and writing the files is left to
//! its user.

pub mod laws;
pub mod queries;
pub mod refs;
pub mod scanning;
pub mod snapshot;
pub mod tables;
pub mod versions;

use vstd::prelude::*;
use vstd::string::*;

use crate::buffer::pool::saved_kept;
use crate::collection::indexed::{
    build_stopped, built_index, compacted, index_named, live_docs, readable_docs, reindexed,
    unindexed,
};
use crate::collection::packing::defragmented;
use crate::collection::raws::{
    raw_lookup, selected, with_raw, without_raw, KeyBound, RawDoc,
};
use crate::collection::store::PageWriteRecord;
use crate::collection::{
    files_of, fresh_files, is_image, law_keys_ascend, law_read_after_delete, law_reopened_documents,
    lemma_cached_logged, lemma_logged_cached, lemma_page_counts, logged, opened_from,
    same_documents, unopenable, Collection, DEFAULT_POOL_CAPACITY,
};
use crate::database::tables::{
    all_saved, coll_pos, doc_read, names_ascend, same_content, tables_of, DocRead, TableM,
};
use crate::database::versions::{
    all_pruned, committed_by, lemma_baseline_kept, lemma_committed_later, lemma_none_committed,
    lemma_version_kept, lemma_without_committed, oldest, shown, with_baseline, with_version,
    without_collection, HistoryM, VersionStore,
};
use crate::document::value::{value_wf, Value, ValueM};
use crate::document::{doc_image, encode_document, Document};
use crate::error::{GrumpyError, Result};
use crate::index::{index_entries, SecondaryIndex, INDEX_MAX_KEY_SIZE};
use crate::naming::{name_error, valid_name, validate_name};
use crate::page::manager::contents;
use crate::text::{owned, str_eq, str_lt, text_lt};
use crate::uid::Uuid;
use crate::wal::applied_set::AppliedSet;
use crate::wal::hlc::{
    blended, law_blend_advances, law_tick_advances, ticked, Hlc, HlcClock, HlcError,
};
use crate::wal::record::{wal_header, WAL_VERSION_CURRENT, WAL_VERSION_V2};
use crate::wal::transaction::{
    lemma_clock_moved, lemma_log_grows, lemma_longer_still, lemma_transaction_join, log_transaction,
    log_writes, same_writer, transaction_logged,
};
use crate::wal::vclock::{clock_image, VectorClock};
use crate::wal::writer::{
    following, log_failed, max_lsn, max_tx, opened_log, stored_records, stored_version,
    tick_failed, WalWriter,
};

verus! {

/// Number of writes between automatic checkpoints.
pub const CHECKPOINT_INTERVAL: u32 = 100;

/// A database containing multiple named collections.
pub struct Database {
    /// Collections in ascending order of their names.
    pub collections: Vec<Collection>,
    /// Shared Write-Ahead Log, with the clock that stamps its records.
    pub wal: WalWriter,
    /// Write counter for periodic checkpointing.
    pub writes_since_checkpoint: u32,
    /// Engine-side node identifier.
    pub node_id: u128,
    /// Per-origin "highest applied HLC" tracker.
    pub applied_set: AppliedSet,
    /// Document histories and active readers, for snapshot reads.
    pub versions: VersionStore,
    /// Optional default read concern.
    pub read_concern_default: Option<u16>,
    /// Optional default write concern.
    pub write_concern_default: Option<u16>,
}

/// The stored files of a collection.
pub struct CollectionFiles {
    pub name: String,
    pub data: Vec<u8>,
    pub index: Vec<u8>,
}

/// `c` was opened from the files of a collection.
pub open spec fn file_opened(c: Collection, f: CollectionFiles) -> bool {
    &&& c.name@ == f.name@
    &&& c.secondary_indexes@.len() == 0
    &&& c.data.pool.frames@.len() == DEFAULT_POOL_CAPACITY
    &&& contents(c.data.pool.pm) == c.data.heap().pages
    &&& opened_from(c, f.data@, f.index@)
}

/// Why a stored log cannot be opened.
pub open spec fn stored_log_error(wal: Seq<u8>) -> Option<GrumpyError> {
    if wal.len() == 0 {
        None
    } else {
        match stored_version(wal) {
            Ok(_) => None,
            Err(e) => Some(e),
        }
    }
}

/// Why the first of the files that cannot be opened cannot.
pub open spec fn files_error(files: Seq<CollectionFiles>) -> Option<GrumpyError>
    decreases files.len(),
{
    if files.len() == 0 {
        None
    } else {
        match files_error(files.drop_last()) {
            Some(e) => Some(e),
            None => unopenable(files.last().data@.len(), files.last().index@.len()),
        }
    }
}

proof fn lemma_files_error(files: Seq<CollectionFiles>, n: int)
    requires
        0 <= n <= files.len(),
        files_error(files.take(n)) is Some,
    ensures
        files_error(files) == files_error(files.take(n)),
    decreases files.len() - n,
{
    if n < files.len() {
        assert(files.take(n + 1).drop_last() =~= files.take(n));
        lemma_files_error(files, n + 1);
    } else {
        assert(files.take(n) =~= files);
    }
}

proof fn lemma_files_whole(files: Seq<CollectionFiles>)
    requires
        forall|i: int|
            0 <= i < files.len() ==> (#[trigger] files[i]).data@.len() >= 8192
                && files[i].index@.len() >= 16384,
    ensures
        files_error(files) is None,
    decreases files.len(),
{
    if files.len() > 0 {
        assert forall|i: int| 0 <= i < files.drop_last().len() implies (
        #[trigger] files.drop_last()[i]).data@.len() >= 8192 && files.drop_last()[i].index@.len()
            >= 16384 by {
            assert(files.drop_last()[i] == files[i]);
        }
        lemma_files_whole(files.drop_last());
        assert(files.last() == files[files.len() - 1]);
    }
}

/// The files hold the pages of a database.
pub open spec fn files_stored(db: Database, files: Seq<CollectionFiles>) -> bool {
    &&& files.len() == db.collections@.len()
    &&& forall|i: int|
        0 <= i < files.len() ==> (#[trigger] files[i]).name@ == db.collections@[i].name@
            && files[i].data@.len() == 8192 * db.collections@[i].data.pool.pm.count()
            && files[i].index@.len() == 8192 * db.collections@[i].btree.pm.count() && is_image(
            files[i].data@,
            db.collections@[i].data.pool.pm,
        ) && is_image(files[i].index@, db.collections@[i].btree.pm)
}

/// What was acknowledged survives a crash, and what was closed can be opened:
/// the files of a database whose last write succeeded can all be opened,
/// without a flush, and the collections opened from them form a database with
/// the same documents.
pub proof fn law_reopened_tables(
    db: Database,
    files: Seq<CollectionFiles>,
    opened: Database,
)
    requires
        db.wf(),
        db.saved(),
        files_stored(db, files),
        opened.versions.wf(),
        opened.versions.model() == Seq::<HistoryM>::empty(),
        opened.writes_since_checkpoint == 0,
        opened.collections@.len() == files.len(),
        forall|i: int|
            0 <= i < files.len() ==> file_opened(#[trigger] opened.collections@[i], files[i]),
    ensures
        files_error(files) is None,
        stored_log_error(wal_header(WAL_VERSION_CURRENT)) is None,
        opened.wf(),
        opened.tables() == db.tables(),
{
    crate::wal::writer::law_empty_log();
    assert forall|i: int| 0 <= i < files.len() implies (#[trigger] files[i]).data@.len() >= 8192
        && files[i].index@.len() >= 16384 by {
        assert(db.collections@[i].wf());
        lemma_page_counts(db.collections@[i]);
    }
    lemma_files_whole(files);
    lemma_none_committed(opened.wal.clock.state.0);
    assert forall|i: int| 0 <= i < files.len() implies (#[trigger] opened.collections@[i]).wf()
        && opened.collections@[i].raws() == db.collections@[i].raws()
        && opened.collections@[i].name@ == db.collections@[i].name@ by {
        assert(files[i].name@ == db.collections@[i].name@);
        assert(files_of(db.collections@[i], files[i].data@, files[i].index@));
        law_reopened_documents(
            db.collections@[i],
            opened.collections@[i],
            files[i].data@,
            files[i].index@,
        );
    }
    assert(opened.tables() =~= db.tables());
}

/// The histories after a commit of a version at `h`.
pub open spec fn versions_after(
    vs: VersionStore,
    c: Seq<char>,
    k: u128,
    h: Hlc,
    v: Option<ValueM>,
) -> Seq<HistoryM> {
    all_pruned(with_version(vs.model(), c, k, (h.0, shown(v))), oldest(vs.readers@))
}

/// The page writes `recs` were logged as one transaction, which committed at
/// `h`; the log then went on, or was cut at a checkpoint.
#[verifier::opaque]
pub open spec fn committed(
    a: WalWriter,
    b: WalWriter,
    recs: Seq<PageWriteRecord>,
    h: Hlc,
    writes: u32,
) -> bool {
    &&& a.clock.state.0 < h.0 <= b.clock.state.0
    &&& same_writer(begun(a), b)
    &&& if writes + 1 >= CHECKPOINT_INTERVAL {
        &&& b.log@ == wal_header(WAL_VERSION_CURRENT)
        &&& b.next_lsn == a.next_lsn + recs.len() + 2
    } else {
        transaction_logged(begun(a), b, a.next_tx_id, recs, h)
    }
}

/// The writer after a transaction began.
pub open spec fn begun(a: WalWriter) -> WalWriter {
    WalWriter { next_tx_id: (a.next_tx_id + 1) as u64, ..a }
}

/// The number of writes since the last checkpoint after one more write.
pub open spec fn counted(writes: u32) -> u32 {
    if writes + 1 >= CHECKPOINT_INTERVAL {
        0
    } else {
        (writes + 1) as u32
    }
}

/// From `a` to `b` the identity, the replication state, the settings and the
/// readers are as they were.
pub open spec fn settings_kept(a: Database, b: Database) -> bool {
    &&& b == (Database {
        collections: b.collections,
        wal: b.wal,
        versions: b.versions,
        writes_since_checkpoint: b.writes_since_checkpoint,
        ..a
    })
    &&& b.versions.readers == a.versions.readers
}

/// What a write leaves besides the document: its page writes `recs` are logged
/// as a transaction that committed at `h`, all pages are in the files, and it
/// counts towards the next checkpoint.
pub open spec fn written(a: Database, b: Database, recs: Seq<PageWriteRecord>, h: Hlc) -> bool {
    &&& settings_kept(a, b)
    &&& b.saved()
    &&& b.writes_since_checkpoint == counted(a.writes_since_checkpoint)
    &&& a.wal.clock.state.0 < h.0 <= b.wal.clock.state.0
    &&& committed(a.wal, b.wal, recs, h, a.writes_since_checkpoint)
}

/// What a write leaves that did not come to its end: it does not count, and
/// nothing that was logged before is lost.
pub open spec fn unfinished(a: Database, b: Database) -> bool {
    &&& settings_kept(a, b)
    &&& b.writes_since_checkpoint == a.writes_since_checkpoint
    &&& same_writer(begun(a.wal), b.wal)
    &&& b.wal.clock.state.0 >= a.wal.clock.state.0
    &&& a.wal.next_lsn <= b.wal.next_lsn <= a.wal.next_lsn + 4
    &&& a.wal.log@.is_prefix_of(b.wal.log@)
}

/// A write that was refused uses up a transaction number.
pub open spec fn refused(a: Database, b: Database) -> bool {
    &&& b == (Database { collections: b.collections, wal: b.wal, ..a })
    &&& b.collections@ == a.collections@
    &&& b.wal == begun(a.wal)
}

proof fn lemma_committed(
    a: WalWriter,
    mid: WalWriter,
    b: WalWriter,
    recs: Seq<PageWriteRecord>,
    h: Hlc,
    writes: u32,
)
    requires
        transaction_logged(begun(a), mid, a.next_tx_id, recs, h),
        writes + 1 < CHECKPOINT_INTERVAL ==> b == mid,
        writes + 1 >= CHECKPOINT_INTERVAL ==> b.log@ == wal_header(WAL_VERSION_CURRENT)
            && same_writer(mid, b) && b.next_lsn == mid.next_lsn + 1 && b.clock.state.0
            >= mid.clock.state.0,
    ensures
        committed(a, b, recs, h, writes),
        a.clock.state.0 < h.0 <= b.clock.state.0,
{
    reveal(committed);
}

/// What was logged does not depend on how the clock stood before.
proof fn lemma_committed_clock(
    a: WalWriter,
    c: WalWriter,
    b: WalWriter,
    recs: Seq<PageWriteRecord>,
    h: Hlc,
    writes: u32,
)
    requires
        committed(a, b, recs, h, writes),
        a == (WalWriter { clock: a.clock, ..c }),
        a.clock.max_skew_ms == c.clock.max_skew_ms,
        c.clock.state.0 <= a.clock.state.0,
    ensures
        committed(c, b, recs, h, writes),
{
    reveal(committed);
    if writes + 1 < CHECKPOINT_INTERVAL {
        let stamps = choose|stamps: Seq<Hlc>|
            stamps.len() == recs.len() && b.log@ == begun(a).log@
                + #[trigger] crate::wal::transaction::transaction_image(
                begun(a),
                a.next_tx_id,
                recs,
                stamps,
                h,
            );
        crate::wal::transaction::lemma_writer_parts(
            begun(a),
            begun(c),
            a.next_tx_id,
            recs,
            stamps,
            h,
        );
    }
}

/// A document of a collection was inserted, with its first version at `h`.
pub open spec fn inserted(
    a: Database,
    b: Database,
    collection: Seq<char>,
    key: Uuid,
    m: ValueM,
    recs: Seq<PageWriteRecord>,
    h: Hlc,
) -> bool {
    let i = coll_pos(a.collections@, collection)->0;
    let image = doc_image(key.0, m);
    &&& written(a, b, recs, h)
    &&& b.tables() == a.tables().update(
        i,
        (collection, with_raw(a.collections@[i].raws(), key.spec_bytes(), image)),
    )
    &&& logged(a.collections@[i], b.collections@[i], recs[0].page_id, recs)
    &&& b.versions.model() == versions_after(a.versions, collection, key.0, h, Some(m))
}

/// From `a` to `b` two pages changed, one after the other, and the records say
/// how.
#[verifier::opaque]
pub open spec fn logged_in_turn(a: Collection, b: Collection, recs: Seq<PageWriteRecord>) -> bool {
    &&& recs.len() == 2
    &&& exists|mid: Collection| #[trigger]
        logged(a, mid, recs[0].page_id, recs.take(1)) && logged(
            mid,
            b,
            recs[1].page_id,
            recs.skip(1),
        )
}

/// A document of a collection was exchanged for another, with its next version
/// at `h`.
pub open spec fn exchanged(
    a: Database,
    b: Database,
    collection: Seq<char>,
    key: Uuid,
    old_m: ValueM,
    new_m: ValueM,
    version: Option<ValueM>,
    recs: Seq<PageWriteRecord>,
    h: Hlc,
) -> bool {
    let i = coll_pos(a.collections@, collection)->0;
    let k = key.spec_bytes();
    let gone = without_raw(a.collections@[i].raws(), k);
    &&& written(a, b, recs, h)
    &&& b.tables() == a.tables().update(
        i,
        (collection, with_raw(gone, k, doc_image(key.0, new_m))),
    )
    &&& logged_in_turn(a.collections@[i], b.collections@[i], recs)
    &&& b.versions.model() == versions_replaced(
        a.versions,
        collection,
        key.0,
        old_m,
        h,
        version,
    )
}

proof fn lemma_in_turn_cached(
    a: Collection,
    b: Collection,
    c: Collection,
    d: Collection,
    recs: Seq<PageWriteRecord>,
)
    requires
        b.data.heap() == a.data.heap(),
        b.data.pool.pm.count() == a.data.pool.pm.count(),
        saved_kept(a.data.pool, b.data.pool, -1),
        logged_in_turn(b, c, recs),
        d.data.heap() == c.data.heap(),
        d.data.pool.pm.count() == c.data.pool.pm.count(),
        saved_kept(c.data.pool, d.data.pool, -1),
    ensures
        logged_in_turn(a, d, recs),
{
    reveal(logged_in_turn);
    let mid = choose|mid: Collection| #[trigger]
        logged(b, mid, recs[0].page_id, recs.take(1)) && logged(
            mid,
            c,
            recs[1].page_id,
            recs.skip(1),
        );
    lemma_cached_logged(a, b, mid, recs.take(1));
    lemma_logged_cached(mid, c, d, recs.skip(1));
    assert(logged(a, mid, recs[0].page_id, recs.take(1)));
}

/// Checks stored consistency defaults: neither concern may be zero.
pub fn check_stored_defaults(read_concern: Option<u16>, write_concern: Option<u16>) -> (r: Result<
    (Option<u16>, Option<u16>),
>)
    ensures
        match r {
            Ok(d) => read_concern != Some(0u16) && write_concern != Some(0u16) && d == (
                read_concern,
                write_concern,
            ),
            Err(e) => (read_concern == Some(0u16) || write_concern == Some(0u16))
                && e is Corruption && (e->Corruption_0)@ == (if read_concern == Some(0u16) {
                "invalid consistency default: read_concern must be >= 1"@
            } else {
                "invalid consistency default: write_concern must be >= 1"@
            }),
        },
{
    if is_zero(read_concern) {
        return Err(
            GrumpyError::Corruption(
                owned("invalid consistency default: read_concern must be >= 1"),
            ),
        );
    }
    if is_zero(write_concern) {
        return Err(
            GrumpyError::Corruption(
                owned("invalid consistency default: write_concern must be >= 1"),
            ),
        );
    }
    Ok((read_concern, write_concern))
}

/// `e` reports that there is no collection `name`.
pub open spec fn no_collection(e: GrumpyError, name: Seq<char>) -> bool {
    e is CollectionNotFound && (e->CollectionNotFound_0)@ == name
}

impl Database {
    /// The database is in order.
    pub open spec fn wf(&self) -> bool {
        &&& forall|i: int|
            0 <= i < self.collections@.len() ==> (#[trigger] self.collections@[i]).wf()
                && self.collections@[i].framed()
        &&& names_ascend(self.collections@)
        &&& self.versions.wf()
        &&& committed_by(self.versions.model(), self.wal.clock.state.0)
        &&& self.writes_since_checkpoint < CHECKPOINT_INTERVAL
    }

    /// The collections with their documents.
    pub open spec fn tables(&self) -> Seq<TableM> {
        tables_of(self.collections@)
    }

    /// The files of all collections hold their documents, without a flush.
    pub open spec fn saved(&self) -> bool {
        all_saved(self.collections@)
    }

    /// The consistency defaults.
    pub open spec fn consistency(&self) -> (Option<u16>, Option<u16>) {
        (self.read_concern_default, self.write_concern_default)
    }

    /// There are sequence numbers left for an operation.
    pub open spec fn wal_room(&self) -> bool {
        self.wal.next_lsn + 8 < u64::MAX && self.wal.next_tx_id < u64::MAX
    }

    /// Opens a database from what is stored of it: its log, its collections in
    /// ascending order of their names, the replication state and the
    /// consistency defaults.
    pub fn open_with(
        node_id: u128,
        clock: HlcClock,
        wal: &[u8],
        files: Vec<CollectionFiles>,
        applied_set: AppliedSet,
        read_concern_default: Option<u16>,
        write_concern_default: Option<u16>,
    ) -> (r: Result<Self>)
        requires
            forall|i: int|
                0 <= i < files@.len() ==> (#[trigger] files@[i]).data@.len() / 8192 < u32::MAX
                    && files@[i].index@.len() / 8192 <= u32::MAX,
        ensures
            r matches Ok(db) ==> {
                &&& db.node_id == node_id
                &&& db.wal.node_id == node_id
                &&& db.wal.clock == clock
                &&& db.wal.log@ == opened_log(wal@)
                &&& db.wal.next_lsn == following(max_lsn(stored_records(wal@)))
                &&& db.wal.next_tx_id == following(max_tx(stored_records(wal@)))
                &&& db.wal.file_version == WAL_VERSION_V2
                &&& db.writes_since_checkpoint == 0
                &&& db.applied_set == applied_set
                &&& db.read_concern_default == read_concern_default
                &&& db.write_concern_default == write_concern_default
                &&& db.versions.wf()
                &&& db.versions.model() == Seq::<HistoryM>::empty()
                &&& db.versions.readers@.len() == 0
                &&& db.collections@.len() == files@.len()
                &&& forall|i: int|
                    0 <= i < files@.len() ==> file_opened(#[trigger] db.collections@[i], files@[i])
                &&& db.saved()
                &&& files@.len() == 0 ==> db.wf()
            },
            match stored_log_error(wal@) {
                Some(e) => r == Err::<Self, GrumpyError>(e),
                None => match files_error(files@) {
                    Some(e) => r == Err::<Self, GrumpyError>(e),
                    None => r is Ok,
                },
            },
    {
        let log: WalWriter = match WalWriter::new_with_identity(wal, node_id, clock) {
            Ok(w) => w,
            Err(e) => {
                return Err(e);
            },
        };
        let mut collections: Vec<Collection> = Vec::new();
        let mut i: usize = 0;
        assert(files@.take(0) =~= Seq::<CollectionFiles>::empty());
        while i < files.len()
            invariant
                i <= files@.len(),
                collections@.len() == i,
                forall|j: int|
                    0 <= j < files@.len() ==> (#[trigger] files@[j]).data@.len() / 8192 < u32::MAX
                        && files@[j].index@.len() / 8192 <= u32::MAX,
                forall|j: int|
                    0 <= j < i ==> file_opened(#[trigger] collections@[j], files@[j]),
                stored_log_error(wal@) is None,
                files_error(files@.take(i as int)) is None,
            decreases files@.len() - i,
        {
            proof {
                assert(files@.take(i + 1).drop_last() =~= files@.take(i as int));
                assert(files@.take(i + 1).last() == files@[i as int]);
                if files_error(files@.take(i + 1)) is Some {
                    lemma_files_error(files@, i + 1);
                }
            }
            match Collection::open(
                files[i].name.as_str(),
                files[i].data.as_slice(),
                files[i].index.as_slice(),
                DEFAULT_POOL_CAPACITY,
            ) {
                Ok(c) => {
                    collections.push(c);
                },
                Err(e) => {
                    return Err(e);
                },
            }
            i = i + 1;
        }
        assert(files@.take(i as int) =~= files@);
        proof {
            lemma_none_committed(clock.state.0);
        }
        Ok(
            Database {
                collections,
                wal: log,
                writes_since_checkpoint: 0,
                node_id,
                applied_set,
                versions: VersionStore::new(),
                read_concern_default,
                write_concern_default,
            },
        )
    }

    /// The place of a collection.
    pub(crate) fn position(&self, name: &str) -> (r: Option<usize>)
        ensures
            match r {
                Some(i) => i < self.collections@.len() && coll_pos(self.collections@, name@)
                    == Some(i as int) && self.collections@[i as int].name@ == name@,
                None => coll_pos(self.collections@, name@) is None,
            },
    {
        let ghost all = self.collections@;
        let mut i: usize = 0;
        assert(all.take(0) =~= Seq::<Collection>::empty());
        while i < self.collections.len()
            invariant
                all == self.collections@,
                i <= all.len(),
                coll_pos(all.take(i as int), name@) is None,
            decreases all.len() - i,
        {
            proof {
                assert(all.take(i + 1).drop_last() =~= all.take(i as int));
                assert(all.take(i + 1).last() == all[i as int]);
            }
            if str_eq(self.collections[i].name.as_str(), name) {
                proof {
                    tables::lemma_coll_first(all, name@, i + 1);
                }
                return Some(i);
            }
            i = i + 1;
        }
        assert(all.take(i as int) =~= all);
        None
    }

    // ── Collection management ───────────────────────────────────────────

    /// Creates a new collection.
    pub fn create_collection(&mut self, name: &str) -> (r: Result<()>)
        requires
            old(self).wf(),
        ensures
            final(self).wf(),
            r is Ok == (valid_name(name@) && coll_pos(old(self).collections@, name@) is None),
            match r {
                Ok(_) => {
                    &&& exists|p: int|
                        0 <= p <= old(self).collections@.len() && final(self).tables() == #[trigger] old(
                            self).tables().insert(p, (name@, Seq::empty()))
                    &&& exists|p: int, c: Collection|
                        0 <= p <= old(self).collections@.len() && final(self).collections@
                            == #[trigger] old(self).collections@.insert(p, c) && c.name@ == name@
                            && c.secondary_indexes@.len() == 0 && c.data.pool.frames@.len()
                            == DEFAULT_POOL_CAPACITY && fresh_files(c)
                    &&& *final(self) == (Database {
                        collections: final(self).collections,
                        ..*old(self)
                    })
                    &&& old(self).saved() ==> final(self).saved()
                },
                Err(e) => {
                    &&& *final(self) == *old(self)
                    &&& if !valid_name(name@) {
                        e is InvalidName && (e->InvalidName_0)@ == name_error(name@)
                    } else {
                        no_collection(e, "collection '"@ + name@ + "' already exists"@)
                    }
                },
            },
    {
        match validate_name(name) {
            Ok(_) => {},
            Err(e) => {
                return Err(e);
            },
        }
        if self.position(name).is_some() {
            let mut m: String = owned("collection '");
            m.append(name);
            m.append("' already exists");
            return Err(GrumpyError::CollectionNotFound(m));
        }
        let none: Vec<u8> = Vec::new();
        let coll: Collection = match Collection::open(
            name,
            none.as_slice(),
            none.as_slice(),
            DEFAULT_POOL_CAPACITY,
        ) {
            Ok(c) => c,
            Err(e) => {
                return Err(e);
            },
        };
        let ghost cs = self.collections@;
        let mut p: usize = 0;
        while p < self.collections.len() && str_lt(self.collections[p].name.as_str(), name)
            invariant
                cs == self.collections@,
                p <= cs.len(),
                forall|j: int| 0 <= j < p ==> text_lt((#[trigger] cs[j]).name@, name@),
            decreases cs.len() - p,
        {
            p = p + 1;
        }
        self.collections.insert(p, coll);
        proof {
            tables::lemma_collection_added(cs, coll, p as int);
            assert(self.tables() =~= old(self).tables().insert(
                p as int,
                (name@, Seq::<RawDoc>::empty()),
            ));
            assert(self.collections@ == old(self).collections@.insert(p as int, coll));
        }
        Ok(())
    }

    /// Drops a collection and the histories of its documents.
    pub fn drop_collection(&mut self, name: &str) -> (r: Result<()>)
        requires
            old(self).wf(),
        ensures
            final(self).wf(),
            *final(self) == (Database {
                collections: final(self).collections,
                versions: final(self).versions,
                ..*old(self)
            }),
            old(self).saved() ==> final(self).saved(),
            match coll_pos(old(self).collections@, name@) {
                Some(i) => r is Ok && final(self).tables() == old(self).tables().remove(i) && final(
                    self).collections@ == old(self).collections@.remove(i) && final(
                    self).versions.readers == old(self).versions.readers && final(
                    self).versions.model() == without_collection(
                    old(self).versions.model(),
                    name@,
                ),
                None => r is Err && no_collection(r->Err_0, name@) && *final(self) == *old(self),
            },
    {
        let i: usize = match self.position(name) {
            Some(i) => i,
            None => {
                return Err(GrumpyError::CollectionNotFound(owned(name)));
            },
        };
        let ghost cs = self.collections@;
        self.collections.remove(i);
        proof {
            tables::lemma_collection_removed(cs, i as int);
            assert(tables_of(self.collections@) =~= tables_of(cs).remove(i as int));
        }
        proof {
            lemma_without_committed(self.versions.model(), name@, self.wal.clock.state.0);
        }
        self.versions.forget_collection(name);
        Ok(())
    }

    /// Lists all collection names, in ascending order.
    pub fn list_collections(&self) -> (r: Vec<String>)
        ensures
            r@.len() == self.collections@.len(),
            forall|i: int| 0 <= i < r@.len() ==> (#[trigger] r@[i])@ == self.collections@[i].name@,
    {
        let mut out: Vec<String> = Vec::new();
        let mut i: usize = 0;
        while i < self.collections.len()
            invariant
                i <= self.collections@.len(),
                out@.len() == i,
                forall|j: int|
                    0 <= j < i ==> (#[trigger] out@[j])@ == self.collections@[j].name@,
            decreases self.collections@.len() - i,
        {
            out.push(owned(self.collections[i].name.as_str()));
            i = i + 1;
        }
        out
    }

    /// Returns a mutable reference to a collection.
    pub fn collection(&mut self, name: &str) -> (r: Result<&mut Collection>)
        ensures
            match coll_pos(old(self).collections@, name@) {
                Some(i) => {
                    &&& r is Ok
                    &&& *(r->Ok_0) == old(self).collections@[i]
                    &&& final(self).collections@ == old(self).collections@.update(
                        i,
                        *final(r->Ok_0),
                    )
                },
                None => r is Err && no_collection(r->Err_0, name@) && final(self).collections@
                    == old(self).collections@,
            },
            *final(self) == (Database { collections: final(self).collections, ..*old(self) }),
    {
        match self.position(name) {
            Some(i) => Ok(&mut self.collections[i]),
            None => Err(GrumpyError::CollectionNotFound(owned(name))),
        }
    }

    // ── CRUD ────────────────────────────────────────────────────────────

    /// Inserts a document into a collection.
    pub fn insert(&mut self, collection: &str, key: Uuid, value: Value) -> (r: Result<()>)
        requires
            old(self).wf(),
            old(self).wal_room(),
            value_wf(value.model()),
        ensures
            final(self).wf(),
            match coll_pos(old(self).collections@, collection@) {
                None => r is Err && no_collection(r->Err_0, collection@) && refused(
                    *old(self),
                    *final(self),
                ),
                Some(i) => {
                    let rs = old(self).collections@[i].raws();
                    let k = key.spec_bytes();
                    let image = doc_image(key.0, value.model());
                    if raw_lookup(rs, k) is Some {
                        r == Err::<(), GrumpyError>(GrumpyError::DuplicateKey(key)) && refused(
                            *old(self),
                            *final(self),
                        )
                    } else if !old(self).collections@[i].has_room(image.len()) {
                        r is Err && r->Err_0 is PageFull && refused(*old(self), *final(self))
                    } else {
                        &&& final(self).tables() == old(self).tables().update(
                            i,
                            (collection@, with_raw(rs, k, image)),
                        )
                        &&& indexes_took(*old(self), *final(self), i, value.model(), key.0)
                        &&& r is Ok ==> exists|recs: Seq<PageWriteRecord>, h: Hlc| #[trigger]
                            inserted(
                                *old(self),
                                *final(self),
                                collection@,
                                key,
                                value.model(),
                                recs,
                                h,
                            )
                        &&& r matches Err(e) ==> tick_failed(final(self).wal.clock.state, e)
                            && unfinished(*old(self), *final(self))
                            && (final(self).versions == old(self).versions || exists|h: Hlc|
                            old(self).wal.clock.state.0 < h.0 <= final(self).wal.clock.state.0
                                && final(self).versions.model() == #[trigger] versions_after(
                                old(self).versions,
                                collection@,
                                key.0,
                                h,
                                Some(value.model()),
                            ))
                    }
                },
            },
    {
        let encoded: Vec<u8> = encode_document(&key, &value);
        let tx_id: u64 = self.wal.begin_tx();
        let i: usize = match self.position(collection) {
            Some(i) => i,
            None => {
                return Err(GrumpyError::CollectionNotFound(owned(collection)));
            },
        };
        let ghost cs = self.collections@;
        let records: Vec<PageWriteRecord> = {
            let coll: &mut Collection = &mut self.collections[i];
            match coll.insert_doc(key, &value, encoded.as_slice()) {
                Ok((_, recs)) => recs,
                Err(e) => {
                    assert(self.collections@ =~= cs);
                    return Err(e);
                },
            }
        };
        proof {
            tables::lemma_one_changed(cs, self.collections@, i as int);
        }
        let ghost vs = self.versions;
        let ghost m = value.model();
        let ghost c1 = self.collections@[i as int];
        assert(self.wal == begun(old(self).wal));
        match log_transaction(&mut self.wal, tx_id, &records) {
            Ok(h) => {
                self.versions.append_version(collection, key, h, Some(value));
                proof {
                    lemma_version_kept(
                        vs.model(),
                        collection@,
                        key.0,
                        (h.0, shown(Some(m))),
                        oldest(vs.readers@),
                        old(self).wal.clock.state.0,
                        self.wal.clock.state.0,
                    );
                }
                assert(self.versions.model() == versions_after(
                    vs,
                    collection@,
                    key.0,
                    h,
                    Some(m),
                ));
                let ghost mid = self.wal;
                let done = self.maybe_checkpoint();
                proof {
                    lemma_log_grows(begun(old(self).wal), mid, tx_id, records@, h);
                    lemma_logged_cached(
                        old(self).collections@[i as int],
                        c1,
                        self.collections@[i as int],
                        records@,
                    );
                    if done is Ok {
                        lemma_committed(
                            old(self).wal,
                            mid,
                            self.wal,
                            records@,
                            h,
                            old(self).writes_since_checkpoint,
                        );
                        assert(inserted(
                            *old(self),
                            *self,
                            collection@,
                            key,
                            m,
                            records@,
                            h,
                        ));
                    }
                }
                done
            },
            Err(e) => {
                proof {
                    lemma_committed_later(
                        vs.model(),
                        old(self).wal.clock.state.0,
                        self.wal.clock.state.0,
                    );
                }
                Err(e)
            },
        }
    }

    /// Retrieves a document from a collection. A deleted one is not seen.
    pub fn get(&mut self, collection: &str, key: &Uuid) -> (r: Result<Option<Value>>)
        requires
            old(self).wf(),
        ensures
            final(self).wf(),
            cached_only(*old(self), *final(self)),
            tables::gets(r, old(self).tables(), collection@, key.0),
    {
        match self.get_including_tombstone(collection, key) {
            Ok(Some(value)) => if value.is_tombstone() {
                Ok(None)
            } else {
                Ok(Some(value))
            },
            Ok(None) => Ok(None),
            Err(e) => Err(e),
        }
    }

    /// Retrieves a document without applying tombstone visibility rules.
    fn get_including_tombstone(&mut self, collection: &str, key: &Uuid) -> (r: Result<
        Option<Value>,
    >)
        requires
            old(self).wf(),
        ensures
            final(self).wf(),
            cached_only(*old(self), *final(self)),
            match doc_read(old(self).tables(), collection@, key.0) {
                DocRead::NoCollection => r is Err && no_collection(r->Err_0, collection@),
                DocRead::Unreadable(e) => r is Err && r->Err_0 is Codec && (r->Err_0->Codec_0)@
                    == e,
                DocRead::Absent => r is Ok && r->Ok_0 is None,
                DocRead::Found(m) => r is Ok && r->Ok_0 is Some && r->Ok_0->0.model() == m
                    && value_wf(m),
            },
    {
        let ghost cs = self.collections@;
        proof {
            tables::lemma_table_pos(cs, collection@);
        }
        let i: usize = match self.position(collection) {
            Some(i) => i,
            None => {
                return Err(GrumpyError::CollectionNotFound(owned(collection)));
            },
        };
        let raw: Option<Vec<u8>> = {
            let coll: &mut Collection = &mut self.collections[i];
            match coll.get_raw(key) {
                Ok(v) => v,
                Err(e) => {
                    return Err(e);
                },
            }
        };
        proof {
            tables::lemma_one_cached(cs, self.collections@, i as int);
        }
        match raw {
            Some(bytes) => match Document::decode(bytes.as_slice()) {
                Ok(doc) => Ok(Some(doc.value)),
                Err(e) => Err(e),
            },
            None => Ok(None),
        }
    }

    /// Replaces a document within one transaction: the old value leaves the
    /// indexes and the store, the new one enters.
    #[verifier::rlimit(60)]
    fn replace_doc(
        &mut self,
        i: usize,
        key: &Uuid,
        old_value: &Value,
        new_value: &Value,
    ) -> (r: Result<Hlc>)
        requires
            old(self).wf(),
            old(self).wal_room(),
            i < old(self).collections@.len(),
            raw_lookup(old(self).collections@[i as int].raws(), key.spec_bytes()) is Some,
            value_wf(old_value.model()),
            value_wf(new_value.model()),
        ensures
            final(self).wf(),
            final(self).versions == old(self).versions,
            unfinished(*old(self), *final(self)),
            final(self).wal.next_lsn <= old(self).wal.next_lsn + 3,
            final(self).collections@.len() == old(self).collections@.len(),
            ({
                let name = old(self).collections@[i as int].name@;
                let rs = old(self).collections@[i as int].raws();
                let k = key.spec_bytes();
                let image = doc_image(key.0, new_value.model());
                let gone = without_raw(rs, k);
                match r {
                    Ok(h) => {
                        &&& final(self).tables() == old(self).tables().update(
                            i as int,
                            (name, with_raw(gone, k, image)),
                        )
                        &&& indexes_moved(
                            *old(self),
                            *final(self),
                            i as int,
                            old_value.model(),
                            new_value.model(),
                            key.0,
                        )
                        &&& exists|recs: Seq<PageWriteRecord>|
                            logged_in_turn(
                                old(self).collections@[i as int],
                                final(self).collections@[i as int],
                                recs,
                            ) && #[trigger] transaction_logged(
                                begun(old(self).wal),
                                final(self).wal,
                                old(self).wal.next_tx_id,
                                recs,
                                h,
                            )
                    },
                    Err(e) => {
                        let left = final(self).tables() == old(self).tables().update(
                            i as int,
                            (name, gone),
                        ) && indexes_left(
                            *old(self),
                            *final(self),
                            i as int,
                            old_value.model(),
                            key.0,
                        );
                        let came = final(self).tables() == old(self).tables().update(
                            i as int,
                            (name, with_raw(gone, k, image)),
                        ) && indexes_moved(
                            *old(self),
                            *final(self),
                            i as int,
                            old_value.model(),
                            new_value.model(),
                            key.0,
                        );
                        ||| e is PageFull && !old(self).collections@[i as int].has_room(
                            image.len(),
                        ) && left
                        ||| tick_failed(final(self).wal.clock.state, e) && (left || came)
                    },
                }
            }),
    {
        let ghost cs = self.collections@;
        let ghost c0 = cs[i as int];
        let ghost k = key.spec_bytes();
        proof {
            law_keys_ascend(c0);
            law_read_after_delete(c0.raws(), k, k);
        }
        let tx_id: u64 = self.wal.begin_tx();
        let del_records: Vec<PageWriteRecord> = {
            let coll: &mut Collection = &mut self.collections[i];
            match coll.delete_doc(key, old_value) {
                Ok(recs) => recs,
                Err(e) => {
                    return Err(e);
                },
            }
        };
        let ghost cs1 = self.collections@;
        proof {
            tables::lemma_one_changed(cs, cs1, i as int);
        }
        assert(self.wal == begun(old(self).wal));
        let writes = log_writes(&mut self.wal, tx_id, &del_records);
        proof {
            lemma_committed_later(
                old(self).versions.model(),
                old(self).wal.clock.state.0,
                self.wal.clock.state.0,
            );
        }
        proof {
            lemma_log_grows(begun(old(self).wal), self.wal, tx_id, del_records@, Hlc(0));
        }
        match writes {
            Ok(_) => {},
            Err(e) => {
                return Err(e);
            },
        }
        let encoded: Vec<u8> = encode_document(key, new_value);
        let ins_records: Vec<PageWriteRecord> = {
            let coll: &mut Collection = &mut self.collections[i];
            match coll.insert_doc(*key, new_value, encoded.as_slice()) {
                Ok((_, recs)) => recs,
                Err(e) => {
                    assert(self.collections@ =~= cs1);
                    return Err(e);
                },
            }
        };
        let ghost cs2 = self.collections@;
        proof {
            tables::lemma_one_changed(cs1, cs2, i as int);
            let a = tables_of(cs);
            let b = tables_of(cs1);
            assert(tables_of(cs2) =~= a.update(i as int, tables_of(cs2)[i as int]));
            lemma_moved(
                cs[i as int],
                cs1[i as int],
                cs2[i as int],
                old_value.model(),
                new_value.model(),
                key.0,
            );
        }
        let ghost w1 = self.wal;
        let done = log_transaction(&mut self.wal, tx_id, &ins_records);
        proof {
            if done is Ok {
                lemma_log_grows(w1, self.wal, tx_id, ins_records@, done->Ok_0);
            }
            lemma_longer_still(old(self).wal.log@, w1.log@, self.wal.log@);
            if done is Ok {
                lemma_transaction_join(
                    begun(old(self).wal),
                    w1,
                    self.wal,
                    tx_id,
                    del_records@,
                    ins_records@,
                    done->Ok_0,
                );
                let recs = del_records@ + ins_records@;
                assert(recs.len() == 2);
                assert(recs.take(1) =~= del_records@);
                assert(recs.skip(1) =~= ins_records@);
                assert(logged(cs[i as int], cs1[i as int], recs[0].page_id, recs.take(1)));
                assert(logged_in_turn(cs[i as int], cs2[i as int], recs)) by {
                    reveal(logged_in_turn);
                }
            }
            lemma_committed_later(
                old(self).versions.model(),
                old(self).wal.clock.state.0,
                self.wal.clock.state.0,
            );
        }
        done
    }

    /// Updates a document in a collection.
    #[verifier::rlimit(60)]
    pub fn update(&mut self, collection: &str, key: &Uuid, value: Value) -> (r: Result<()>)
        requires
            old(self).wf(),
            old(self).wal_room(),
            value_wf(value.model()),
        ensures
            final(self).wf(),
            match doc_read(old(self).tables(), collection@, key.0) {
                DocRead::NoCollection => r is Err && no_collection(r->Err_0, collection@)
                    && cached_only(*old(self), *final(self)),
                DocRead::Unreadable(e) => r is Err && r->Err_0 is Codec && (r->Err_0->Codec_0)@
                    == e && cached_only(*old(self), *final(self)),
                DocRead::Absent => r == Err::<(), GrumpyError>(GrumpyError::KeyNotFound(*key))
                    && cached_only(*old(self), *final(self)),
                DocRead::Found(m) => replaced(
                    *old(self),
                    *final(self),
                    r,
                    collection@,
                    *key,
                    m,
                    value.model(),
                    Some(value.model()),
                ),
            },
    {
        let old_value: Value = match self.get_including_tombstone(collection, key) {
            Ok(Some(v)) => v,
            Ok(None) => {
                return Err(GrumpyError::KeyNotFound(*key));
            },
            Err(e) => {
                return Err(e);
            },
        };
        let ghost d1 = *self;
        proof {
            tables::lemma_table_pos(d1.collections@, collection@);
            tables::lemma_table_pos(old(self).collections@, collection@);
            tables::lemma_found(d1.collections@, collection@, *key);
        }
        let i: usize = match self.position(collection) {
            Some(i) => i,
            None => {
                return Err(GrumpyError::CollectionNotFound(owned(collection)));
            },
        };
        let ghost m = value.model();
        assert(d1.collections@[i as int].secondary_indexes == old(
            self).collections@[i as int].secondary_indexes);
        self.versions.ensure_baseline_version(collection, *key, old_value.dup());
        let ghost before = self.wal;
        let ghost base = self.versions;
        let ghost d2 = *self;
        proof {
            lemma_baseline_kept(
                d1.versions.model(),
                collection@,
                key.0,
                shown(Some(old_value.model())),
                d1.wal.clock.state.0,
            );
        }
        match self.replace_doc(i, key, &old_value, &value) {
            Ok(h) => {
                self.versions.append_version(collection, *key, h, Some(value));
                proof {
                    lemma_version_kept(
                        base.model(),
                        collection@,
                        key.0,
                        (h.0, shown(Some(m))),
                        oldest(base.readers@),
                        before.clock.state.0,
                        self.wal.clock.state.0,
                    );
                }
                assert(self.versions.model() == versions_replaced(
                    d1.versions,
                    collection@,
                    key.0,
                    old_value.model(),
                    h,
                    Some(m),
                ));
                let ghost mid = *self;
                let done = self.maybe_checkpoint();
                proof {
                    assert(self.collections@[i as int].secondary_indexes
                        == mid.collections@[i as int].secondary_indexes);
                    if done is Ok {
                        let recs = choose|recs: Seq<PageWriteRecord>|
                            logged_in_turn(
                                d2.collections@[i as int],
                                mid.collections@[i as int],
                                recs,
                            ) && #[trigger] transaction_logged(
                                begun(before),
                                mid.wal,
                                before.next_tx_id,
                                recs,
                                h,
                            );
                        lemma_committed(
                            before,
                            mid.wal,
                            self.wal,
                            recs,
                            h,
                            mid.writes_since_checkpoint,
                        );
                        lemma_committed_clock(
                            before,
                            old(self).wal,
                            self.wal,
                            recs,
                            h,
                            mid.writes_since_checkpoint,
                        );
                        lemma_in_turn_cached(
                            old(self).collections@[i as int],
                            d2.collections@[i as int],
                            mid.collections@[i as int],
                            self.collections@[i as int],
                            recs,
                        );
                        assert(exchanged(
                            *old(self),
                            *self,
                            collection@,
                            *key,
                            old_value.model(),
                            m,
                            Some(m),
                            recs,
                            h,
                        ));
                    }
                }
                done
            },
            Err(e) => Err(e),
        }
    }

    /// Deletes a document from a collection: a tombstone takes its place.
    #[verifier::rlimit(60)]
    pub fn delete(&mut self, collection: &str, key: &Uuid) -> (r: Result<()>)
        requires
            old(self).wf(),
            old(self).wal_room(),
        ensures
            final(self).wf(),
            match doc_read(old(self).tables(), collection@, key.0) {
                DocRead::NoCollection => r is Err && no_collection(r->Err_0, collection@)
                    && cached_only(*old(self), *final(self)),
                DocRead::Unreadable(e) => r is Err && r->Err_0 is Codec && (r->Err_0->Codec_0)@
                    == e && cached_only(*old(self), *final(self)),
                DocRead::Absent => r == Err::<(), GrumpyError>(GrumpyError::KeyNotFound(*key))
                    && cached_only(*old(self), *final(self)),
                DocRead::Found(m) => if m is Tombstone {
                    r == Err::<(), GrumpyError>(GrumpyError::KeyNotFound(*key)) && cached_only(
                        *old(self),
                        *final(self),
                    )
                } else {
                    ||| r is Err && tick_failed(old(self).wal.clock.state, r->Err_0) && final(self).tables() == old(self).tables()
                        && settings_kept(*old(self), *final(self)) && final(self).wal == old(
                        self).wal && final(self).writes_since_checkpoint == old(
                        self).writes_since_checkpoint && final(self).versions.model()
                        == with_baseline(
                        old(self).versions.model(),
                        collection@,
                        key.0,
                        (0, shown(Some(m))),
                    )
                    ||| exists|h: Hlc|
                        old(self).wal.clock.state.0 < h.0 <= final(self).wal.clock.state.0
                            && replaced(
                            *old(self),
                            *final(self),
                            r,
                            collection@,
                            *key,
                            m,
                            #[trigger] tombstone(old(self).node_id, h),
                            None,
                        )
                },
            },
    {
        let value: Value = match self.get(collection, key) {
            Ok(Some(v)) => v,
            Ok(None) => {
                return Err(GrumpyError::KeyNotFound(*key));
            },
            Err(e) => {
                return Err(e);
            },
        };
        let ghost d1 = *self;
        proof {
            tables::lemma_table_pos(d1.collections@, collection@);
            tables::lemma_table_pos(old(self).collections@, collection@);
            tables::lemma_found(d1.collections@, collection@, *key);
        }
        let i: usize = match self.position(collection) {
            Some(i) => i,
            None => {
                return Err(GrumpyError::CollectionNotFound(owned(collection)));
            },
        };
        assert(d1.collections@[i as int].secondary_indexes == old(
            self).collections@[i as int].secondary_indexes);
        self.versions.ensure_baseline_version(collection, *key, value.dup());
        proof {
            lemma_baseline_kept(
                d1.versions.model(),
                collection@,
                key.0,
                shown(Some(value.model())),
                d1.wal.clock.state.0,
            );
        }
        let deleted_at: Hlc = match self.wal.clock.now() {
            Ok(h) => h,
            Err(e) => {
                return Err(GrumpyError::Hlc(e.message()));
            },
        };
        let grave: Value = make_tombstone(self.node_id, deleted_at);
        let ghost before = self.wal;
        let ghost base = self.versions;
        let ghost d2 = *self;
        proof {
            let wall = choose|wall: u64| #[trigger]
                ticked(d1.wal.clock.state, wall) == Ok::<Hlc, HlcError>(deleted_at);
            law_tick_advances(d1.wal.clock.state, wall);
            lemma_committed_later(
                base.model(),
                d1.wal.clock.state.0,
                deleted_at.0,
            );
        }
        let r: Result<()> = match self.replace_doc(i, key, &value, &grave) {
            Ok(h) => {
                self.versions.append_version(collection, *key, h, None);
                proof {
                    lemma_version_kept(
                        base.model(),
                        collection@,
                        key.0,
                        (h.0, None),
                        oldest(base.readers@),
                        before.clock.state.0,
                        self.wal.clock.state.0,
                    );
                }
                assert(self.versions.model() == versions_replaced(
                    d1.versions,
                    collection@,
                    key.0,
                    value.model(),
                    h,
                    None,
                ));
                let ghost mid = *self;
                let done = self.maybe_checkpoint();
                proof {
                    assert(self.collections@[i as int].secondary_indexes
                        == mid.collections@[i as int].secondary_indexes);
                    if done is Ok {
                        let recs = choose|recs: Seq<PageWriteRecord>|
                            logged_in_turn(
                                d2.collections@[i as int],
                                mid.collections@[i as int],
                                recs,
                            ) && #[trigger] transaction_logged(
                                begun(before),
                                mid.wal,
                                before.next_tx_id,
                                recs,
                                h,
                            );
                        lemma_committed(
                            before,
                            mid.wal,
                            self.wal,
                            recs,
                            h,
                            mid.writes_since_checkpoint,
                        );
                        lemma_committed_clock(
                            before,
                            old(self).wal,
                            self.wal,
                            recs,
                            h,
                            mid.writes_since_checkpoint,
                        );
                        lemma_in_turn_cached(
                            old(self).collections@[i as int],
                            d2.collections@[i as int],
                            mid.collections@[i as int],
                            self.collections@[i as int],
                            recs,
                        );
                        assert(exchanged(
                            *old(self),
                            *self,
                            collection@,
                            *key,
                            value.model(),
                            tombstone(old(self).node_id, deleted_at),
                            None,
                            recs,
                            h,
                        ));
                    }
                }
                done
            },
            Err(e) => Err(e),
        };
        assert(replaced(
            *old(self),
            *self,
            r,
            collection@,
            *key,
            value.model(),
            tombstone(old(self).node_id, deleted_at),
            None,
        ));
        r
    }

    /// Scans documents in a collection. Deleted ones are not seen.
    pub fn scan(&mut self, collection: &str, start: &KeyBound, end: &KeyBound) -> (r: Result<
        Vec<(Uuid, Value)>,
    >)
        requires
            old(self).wf(),
        ensures
            final(self).wf(),
            cached_only(*old(self), *final(self)),
            match coll_pos(old(self).collections@, collection@) {
                None => r is Err && no_collection(r->Err_0, collection@),
                Some(i) => tables::rows_read(
                    r,
                    selected(old(self).collections@[i].raws(), *start, *end),
                ),
            },
    {
        let ghost cs = self.collections@;
        let i: usize = match self.position(collection) {
            Some(i) => i,
            None => {
                return Err(GrumpyError::CollectionNotFound(owned(collection)));
            },
        };
        let rows: Vec<(Uuid, Vec<u8>)> = {
            let coll: &mut Collection = &mut self.collections[i];
            match coll.scan_raw(start, end) {
                Ok(v) => v,
                Err(e) => {
                    return Err(e);
                },
            }
        };
        proof {
            tables::lemma_one_cached(cs, self.collections@, i as int);
        }
        tables::read_live_rows(&rows)
    }

    // ── Index management ────────────────────────────────────────────────

    /// Creates a secondary index on a collection field.
    pub fn create_index(&mut self, collection: &str, index_name: &str, field_path: &str) -> (r:
        Result<()>)
        requires
            old(self).wf(),
        ensures
            final(self).wf(),
            final(self).tables() == old(self).tables(),
            !valid_name(index_name@) ==> r is Err && r->Err_0 is InvalidName && (
            r->Err_0->InvalidName_0)@ == name_error(index_name@) && *final(self) == *old(self),
            *final(self) == (Database { collections: final(self).collections, ..*old(self) }),
            old(self).saved() ==> final(self).saved(),
            valid_name(index_name@) ==> match coll_pos(old(self).collections@, collection@) {
                None => r is Err && no_collection(r->Err_0, collection@) && *final(self) == *old(
                    self),
                Some(i) => {
                    let a = old(self).collections@[i];
                    let b = final(self).collections@[i];
                    &&& final(self).collections@ == old(self).collections@.update(i, b)
                    &&& match r {
                        Ok(_) => {
                            &&& index_named(a.secondary_indexes@, index_name@) is None
                            &&& b.secondary_indexes@.len() == a.secondary_indexes@.len() + 1
                            &&& b.secondary_indexes@.drop_last() == a.secondary_indexes@
                            &&& b.secondary_indexes@.last().def.name@ == index_name@
                            &&& b.secondary_indexes@.last().def.field_path@ == field_path@
                            &&& b.secondary_indexes@.last().btree.meta.config
                                == INDEX_MAX_KEY_SIZE
                            &&& built_index(
                                a.raws(),
                                field_path@,
                                INDEX_MAX_KEY_SIZE,
                            ) == Some(b.secondary_indexes@.last().entries())
                        },
                        Err(e) => {
                            &&& b.secondary_indexes == a.secondary_indexes
                            &&& if index_named(a.secondary_indexes@, index_name@) is Some {
                                e is IndexAlreadyExists && (e->IndexAlreadyExists_0)@
                                    == index_name@
                            } else {
                                build_stopped(a.raws(), field_path@, e)
                            }
                        },
                    }
                },
            },
    {
        match validate_name(index_name) {
            Ok(_) => {},
            Err(e) => {
                return Err(e);
            },
        }
        let ghost cs = self.collections@;
        match self.position(collection) {
            Some(i) => {
                let r = {
                    let coll: &mut Collection = &mut self.collections[i];
                    coll.create_index(index_name, field_path)
                };
                proof {
                    if all_saved(cs) {
                        tables::lemma_still_saved(cs[i as int], self.collections@[i as int]);
                    }
                    tables::lemma_one_changed(cs, self.collections@, i as int);
                    assert(tables_of(self.collections@) =~= tables_of(cs));
                }
                r
            },
            None => Err(GrumpyError::CollectionNotFound(owned(collection))),
        }
    }

    /// Drops a secondary index.
    pub fn drop_index(&mut self, collection: &str, index_name: &str) -> (r: Result<()>)
        requires
            old(self).wf(),
        ensures
            final(self).wf(),
            final(self).tables() == old(self).tables(),
            *final(self) == (Database { collections: final(self).collections, ..*old(self) }),
            old(self).saved() ==> final(self).saved(),
            match coll_pos(old(self).collections@, collection@) {
                None => r is Err && no_collection(r->Err_0, collection@) && *final(self) == *old(
                    self),
                Some(i) => match index_named(
                    old(self).collections@[i].secondary_indexes@,
                    index_name@,
                ) {
                    Some(j) => r is Ok && final(self).collections@[i].secondary_indexes@ == old(
                        self).collections@[i].secondary_indexes@.remove(j) && final(
                        self).collections@ == old(self).collections@.update(
                        i,
                        final(self).collections@[i],
                    ),
                    None => r is Err && r->Err_0 is IndexNotFound && (r->Err_0->IndexNotFound_0)@
                        == index_name@ && final(self).collections@ == old(self).collections@,
                },
            },
    {
        let ghost cs = self.collections@;
        match self.position(collection) {
            Some(i) => {
                let r = {
                    let coll: &mut Collection = &mut self.collections[i];
                    coll.drop_index(index_name)
                };
                proof {
                    tables::lemma_one_changed(cs, self.collections@, i as int);
                    assert(tables_of(self.collections@) =~= tables_of(cs));
                }
                r
            },
            None => Err(GrumpyError::CollectionNotFound(owned(collection))),
        }
    }

    /// Queries a secondary index by exact value. Deleted documents are not
    /// seen.
    pub fn query(&mut self, collection: &str, index_name: &str, value: &Value) -> (r: Result<
        Vec<(Uuid, Value)>,
    >)
        requires
            old(self).wf(),
        ensures
            final(self).wf(),
            cached_only(*old(self), *final(self)),
            match coll_pos(old(self).collections@, collection@) {
                None => r is Err && no_collection(r->Err_0, collection@),
                Some(i) => tables::queried(
                    r,
                    old(self).collections@[i],
                    index_name@,
                    value.model(),
                ),
            },
    {
        let ghost cs = self.collections@;
        match self.position(collection) {
            Some(i) => {
                let r = {
                    let coll: &mut Collection = &mut self.collections[i];
                    coll.query_index(index_name, value)
                };
                proof {
                    tables::lemma_one_cached(cs, self.collections@, i as int);
                }
                match r {
                    Ok(rows) => Ok(tables::drop_tombstones(rows)),
                    Err(e) => Err(e),
                }
            },
            None => Err(GrumpyError::CollectionNotFound(owned(collection))),
        }
    }

    /// Queries a secondary index by range [start, end). Deleted documents are
    /// not seen.
    pub fn query_range(
        &mut self,
        collection: &str,
        index_name: &str,
        start: &Value,
        end: &Value,
    ) -> (r: Result<Vec<(Uuid, Value)>>)
        requires
            old(self).wf(),
        ensures
            final(self).wf(),
            cached_only(*old(self), *final(self)),
            match coll_pos(old(self).collections@, collection@) {
                None => r is Err && no_collection(r->Err_0, collection@),
                Some(i) => tables::queried_range(
                    r,
                    old(self).collections@[i],
                    index_name@,
                    start.model(),
                    end.model(),
                ),
            },
    {
        let ghost cs = self.collections@;
        match self.position(collection) {
            Some(i) => {
                let r = {
                    let coll: &mut Collection = &mut self.collections[i];
                    coll.query_index_range(index_name, start, end)
                };
                proof {
                    tables::lemma_one_cached(cs, self.collections@, i as int);
                }
                match r {
                    Ok(rows) => Ok(tables::drop_tombstones(rows)),
                    Err(e) => Err(e),
                }
            },
            None => Err(GrumpyError::CollectionNotFound(owned(collection))),
        }
    }

    // ── Maintenance ─────────────────────────────────────────────────────

    /// Returns the document count for a collection, tombstones included.
    pub fn document_count(&self, collection: &str) -> (r: Result<u64>)
        requires
            self.wf(),
        ensures
            match coll_pos(self.collections@, collection@) {
                Some(i) => r is Ok && r->Ok_0 == self.collections@[i].raws().len(),
                None => r is Err && no_collection(r->Err_0, collection@),
            },
    {
        match self.position(collection) {
            Some(i) => Ok(self.collections[i].document_count()),
            None => Err(GrumpyError::CollectionNotFound(owned(collection))),
        }
    }

    /// Flushes all collections and writes a WAL checkpoint.
    pub fn flush(&mut self) -> (r: Result<()>)
        requires
            old(self).wf(),
            old(self).wal.next_lsn < u64::MAX,
        ensures
            final(self).wf(),
            same_content(old(self).collections@, final(self).collections@),
            final(self).tables() == old(self).tables(),
            final(self).saved(),
            *final(self) == (Database {
                collections: final(self).collections,
                wal: final(self).wal,
                writes_since_checkpoint: final(self).writes_since_checkpoint,
                ..*old(self)
            }),
            same_writer(old(self).wal, final(self).wal),
            final(self).wal.next_lsn == old(self).wal.next_lsn + 1,
            match r {
                Ok(_) => final(self).wal.log@ == wal_header(WAL_VERSION_CURRENT) && final(
                    self).writes_since_checkpoint == 0 && final(self).wal.clock.state.0 > old(
                    self).wal.clock.state.0,
                Err(e) => log_failed(old(self).wal, final(self).wal, e) && final(
                    self).writes_since_checkpoint == old(self).writes_since_checkpoint,
            },
    {
        self.flush_collections();
        match self.wal.log_checkpoint() {
            Ok((_, h)) => {
                proof {
                    lemma_clock_moved(old(self).wal, self.wal, h);
                    lemma_committed_later(
                        self.versions.model(),
                        old(self).wal.clock.state.0,
                        h.0,
                    );
                }
            },
            Err(e) => {
                return Err(e);
            },
        }
        let _ = self.wal.truncate();
        self.writes_since_checkpoint = 0;
        Ok(())
    }

    fn flush_collections(&mut self)
        requires
            old(self).wf(),
        ensures
            final(self).wf(),
            *final(self) == (Database { collections: final(self).collections, ..*old(self) }),
            same_content(old(self).collections@, final(self).collections@),
            final(self).tables() == old(self).tables(),
            final(self).saved(),
    {
        let ghost d0 = *self;
        let ghost cs = self.collections@;
        let mut i: usize = 0;
        while i < self.collections.len()
            invariant
                d0.wf(),
                cs == d0.collections@,
                *self == (Database { collections: self.collections, ..d0 }),
                i <= self.collections@.len(),
                self.collections@.len() == cs.len(),
                forall|j: int|
                    0 <= j < i ==> same_documents(cs[j], #[trigger] self.collections@[j])
                        && contents(self.collections@[j].data.pool.pm)
                        == self.collections@[j].data.heap().pages,
                forall|j: int| i <= j < cs.len() ==> #[trigger] self.collections@[j] == cs[j],
            decreases cs.len() - i,
        {
            assert(self.collections@[i as int] == cs[i as int]);
            let coll: &mut Collection = &mut self.collections[i];
            let _ = coll.flush();
            i = i + 1;
        }
        proof {
            tables::lemma_all_cached(cs, self.collections@);
        }
    }

    /// Compacts a specific collection.
    pub fn compact(&mut self, collection: &str) -> (r: Result<u64>)
        requires
            old(self).wf(),
            old(self).wal.next_lsn < u64::MAX,
        ensures
            final(self).wf(),
            *final(self) == (Database {
                collections: final(self).collections,
                wal: final(self).wal,
                writes_since_checkpoint: final(self).writes_since_checkpoint,
                ..*old(self)
            }),
            same_writer(old(self).wal, final(self).wal),
            match coll_pos(old(self).collections@, collection@) {
                None => r is Err && no_collection(r->Err_0, collection@) && *final(self) == *old(
                    self),
                Some(i) => {
                    let rs = old(self).collections@[i].raws();
                    &&& final(self).collections@ == old(self).collections@.update(
                        i,
                        final(self).collections@[i],
                    )
                    &&& exists|cr: Result<u64>| #[trigger]
                        compacted(
                            old(self).collections@[i],
                            final(self).collections@[i],
                            cr,
                            true,
                        ) && match cr {
                            Err(e) => r == Err::<u64, GrumpyError>(e) && final(self).wal == old(
                                self).wal,
                            Ok(n) => r == Ok::<u64, GrumpyError>(n) || (r is Err && log_failed(
                                old(self).wal,
                                final(self).wal,
                                r->Err_0,
                            )),
                        }
                    &&& match r {
                        Ok(n) => {
                            &&& final(self).tables() == old(self).tables().update(
                                i,
                                (collection@, live_docs(rs)),
                            )
                            &&& n == live_docs(rs).len()
                            &&& defragmented(final(self).collections@[i].data, live_docs(rs))
                            &&& final(self).wal.log@ == wal_header(WAL_VERSION_CURRENT)
                            &&& final(self).writes_since_checkpoint == 0
                            &&& other_indexes_same(old(self).collections@, final(self).collections@, i)
                            &&& old(self).saved() ==> final(self).saved()
                            &&& indexes_rebuilt(
                                old(self).collections@[i].secondary_indexes@,
                                final(self).collections@[i].secondary_indexes@,
                                readable_docs(live_docs(rs)),
                            )
                        },
                        Err(_) => final(self).tables() == old(self).tables().update(
                            i,
                            (collection@, final(self).collections@[i].raws()),
                        ) && final(self).writes_since_checkpoint == old(
                            self).writes_since_checkpoint,
                    }
                },
            },
    {
        let ghost cs = self.collections@;
        let i: usize = match self.position(collection) {
            Some(i) => i,
            None => {
                return Err(GrumpyError::CollectionNotFound(owned(collection)));
            },
        };
        let r = {
            let coll: &mut Collection = &mut self.collections[i];
            coll.compact_live()
        };
        let ghost cr = r;
        proof {
            assert(compacted(cs[i as int], self.collections@[i as int], cr, true));
            assert(self.collections@ =~= cs.update(i as int, self.collections@[i as int]));
            tables::lemma_renamed(cs, self.collections@, i as int);
            assert(tables_of(cs).update(i as int, tables_of(cs)[i as int]) =~= tables_of(cs));
        }
        let count: u64 = match r {
            Ok(n) => n,
            Err(e) => {
                return Err(e);
            },
        };
        match self.wal.log_checkpoint() {
            Ok((_, h)) => {
                proof {
                    lemma_clock_moved(old(self).wal, self.wal, h);
                    lemma_committed_later(
                        self.versions.model(),
                        old(self).wal.clock.state.0,
                        h.0,
                    );
                }
            },
            Err(e) => {
                return Err(e);
            },
        }
        let _ = self.wal.truncate();
        self.writes_since_checkpoint = 0;
        Ok(count)
    }

    /// Returns database-level consistency defaults.
    pub fn consistency_defaults(&self) -> (r: (Option<u16>, Option<u16>))
        ensures
            r == (self.read_concern_default, self.write_concern_default),
    {
        (self.read_concern_default, self.write_concern_default)
    }

    /// Sets database-level consistency defaults.
    pub fn set_consistency_defaults(
        &mut self,
        read_concern: Option<u16>,
        write_concern: Option<u16>,
    ) -> (r: Result<()>)
        ensures
            r is Ok == (read_concern != Some(0u16) && write_concern != Some(0u16)),
            match r {
                Ok(_) => *final(self) == (Database {
                    read_concern_default: read_concern,
                    write_concern_default: write_concern,
                    ..*old(self)
                }),
                Err(e) => *final(self) == *old(self) && e is InvalidArgument && (
                e->InvalidArgument_0)@ == (if read_concern == Some(0u16) {
                    "read_concern must be >= 1"@
                } else {
                    "write_concern must be >= 1"@
                }),
            },
    {
        if is_zero(read_concern) {
            return Err(GrumpyError::InvalidArgument(owned("read_concern must be >= 1")));
        }
        if is_zero(write_concern) {
            return Err(GrumpyError::InvalidArgument(owned("write_concern must be >= 1")));
        }
        self.read_concern_default = read_concern;
        self.write_concern_default = write_concern;
        Ok(())
    }

    /// Resets database-level consistency defaults to engine fallbacks.
    pub fn reset_consistency_defaults(&mut self) -> (r: Result<()>)
        ensures
            r is Ok,
            *final(self) == (Database {
                read_concern_default: None,
                write_concern_default: None,
                ..*old(self)
            }),
    {
        self.set_consistency_defaults(None, None)
    }

    /// Closes the database, flushing all data. Gives the database back, whose
    /// files are then complete.
    pub fn close(self) -> (r: Result<Self>)
        requires
            self.wf(),
            self.wal.next_lsn < u64::MAX,
        ensures
            match r {
                Ok(db) => {
                    &&& db.wf()
                    &&& db.tables() == self.tables()
                    &&& db.saved()
                    &&& db.wal.log@ == wal_header(WAL_VERSION_CURRENT)
                    &&& db.node_id == self.node_id
                    &&& db.applied_set == self.applied_set
                    &&& db.read_concern_default == self.read_concern_default
                    &&& db.write_concern_default == self.write_concern_default
                },
                Err(e) => tick_failed(self.wal.clock.state, e),
            },
    {
        let mut db: Database = self;
        match db.flush() {
            Ok(_) => Ok(db),
            Err(e) => Err(e),
        }
    }

    /// Returns the engine-side node identifier.
    pub fn node_id(&self) -> (r: u128)
        ensures
            r == self.node_id,
    {
        self.node_id
    }

    /// Returns the last issued HLC value.
    pub fn current_hlc(&self) -> (r: Hlc)
        ensures
            r == self.wal.clock.state,
    {
        self.wal.clock.read()
    }

    /// Blends a remote HLC into the local clock state. Returns the new local
    /// HLC after the merge.
    pub fn record_remote_hlc(&mut self, hlc: Hlc) -> (r: Result<Hlc>)
        ensures
            *final(self) == (Database {
                wal: WalWriter { clock: final(self).wal.clock, ..old(self).wal },
                ..*old(self)
            }),
            match r {
                Ok(h) => final(self).wal.clock.state == h && exists|wall: u64|
                    #[trigger] blended(
                        old(self).wal.clock.state,
                        hlc,
                        wall,
                        old(self).wal.clock.max_skew_ms,
                    ) == Ok::<Hlc, HlcError>(h),
                Err(e) => {
                    &&& final(self).wal.clock == old(self).wal.clock
                    &&& e is Hlc
                    &&& exists|c: HlcError| e->Hlc_0@ == #[trigger] c.message_text() && (
                    c is BeforeEpoch || exists|wall: u64|
                        #[trigger] blended(
                            old(self).wal.clock.state,
                            hlc,
                            wall,
                            old(self).wal.clock.max_skew_ms,
                        ) == Err::<Hlc, HlcError>(c))
                },
            },
            final(self).wal.clock.max_skew_ms == old(self).wal.clock.max_skew_ms,
            old(self).wf() ==> final(self).wf(),
    {
        match self.wal.clock.update(hlc) {
            Ok(h) => {
                proof {
                    let clock = old(self).wal.clock;
                    let wall = choose|wall: u64| #[trigger]
                        blended(clock.state, hlc, wall, clock.max_skew_ms) == Ok::<Hlc, HlcError>(
                            h,
                        );
                    law_blend_advances(clock.state, hlc, wall, clock.max_skew_ms);
                    if old(self).wf() {
                        lemma_committed_later(self.versions.model(), clock.state.0, h.0);
                    }
                }
                Ok(h)
            },
            Err(e) => Err(GrumpyError::Hlc(e.message())),
        }
    }

    /// Returns the HLC clock as it stands.
    pub fn clock(&self) -> (r: HlcClock)
        ensures
            r == self.wal.clock,
    {
        self.wal.clock
    }

    /// Ends a write: its pages go to the files, so that it survives a crash,
    /// and every N writes the log is cut at a checkpoint.
    fn maybe_checkpoint(&mut self) -> (r: Result<()>)
        requires
            old(self).wf(),
            old(self).wal.next_lsn < u64::MAX,
        ensures
            final(self).wf(),
            same_content(old(self).collections@, final(self).collections@),
            final(self).tables() == old(self).tables(),
            final(self).saved(),
            *final(self) == (Database {
                collections: final(self).collections,
                wal: final(self).wal,
                writes_since_checkpoint: final(self).writes_since_checkpoint,
                ..*old(self)
            }),
            final(self).writes_since_checkpoint == (if r is Ok {
                counted(old(self).writes_since_checkpoint)
            } else {
                old(self).writes_since_checkpoint
            }),
            same_writer(old(self).wal, final(self).wal),
            final(self).wal.clock.state.0 >= old(self).wal.clock.state.0,
            if old(self).writes_since_checkpoint + 1 < CHECKPOINT_INTERVAL {
                r is Ok && final(self).wal == old(self).wal
            } else {
                &&& final(self).wal.next_lsn == old(self).wal.next_lsn + 1
                &&& match r {
                    Ok(_) => final(self).wal.log@ == wal_header(WAL_VERSION_CURRENT),
                    Err(e) => log_failed(old(self).wal, final(self).wal, e),
                }
            },
    {
        let n: u32 = self.writes_since_checkpoint + 1;
        if n >= CHECKPOINT_INTERVAL {
            self.flush()
        } else {
            self.flush_collections();
            self.writes_since_checkpoint = n;
            Ok(())
        }
    }
}

fn is_zero(x: Option<u16>) -> (r: bool)
    ensures
        r == (x == Some(0u16)),
{
    match x {
        Some(n) => n == 0,
        None => false,
    }
}

/// The tombstone that a node writes at a time.
pub open spec fn tombstone(node_id: u128, h: Hlc) -> ValueM {
    ValueM::Tombstone { deleted_at_hlc: h.0, vector_clock: clock_image(seq![(node_id, h.0)]) }
}

fn make_tombstone(node_id: u128, h: Hlc) -> (r: Value)
    ensures
        r.model() == tombstone(node_id, h),
        value_wf(r.model()),
{
    let mut vector_clock: Vec<u8> = Vec::new();
    VectorClock::singleton(node_id, h.0).encode_to(&mut vector_clock);
    assert(vector_clock@ =~= clock_image(seq![(node_id, h.0)]));
    Value::Tombstone { deleted_at_hlc: h.0, vector_clock }
}

/// From `a` to `b` only caches changed.
pub open spec fn cached_only(a: Database, b: Database) -> bool {
    &&& b == (Database { collections: b.collections, ..a })
    &&& same_content(a.collections@, b.collections@)
    &&& b.tables() == a.tables()
    &&& a.saved() ==> b.saved()
}

/// The indexes of collection `i` took in a document.
pub open spec fn indexes_took(a: Database, b: Database, i: int, m: ValueM, id: u128) -> bool {
    let x = a.collections@[i].secondary_indexes@;
    let y = b.collections@[i].secondary_indexes@;
    &&& y.len() == x.len()
    &&& forall|j: int| 0 <= j < x.len() ==> reindexed(x[j], #[trigger] y[j], m, id)
    &&& other_indexes_same(a.collections@, b.collections@, i)
}

/// The indexes of collection `i` let go of a document.
pub open spec fn indexes_left(a: Database, b: Database, i: int, m: ValueM, id: u128) -> bool {
    let x = a.collections@[i].secondary_indexes@;
    let y = b.collections@[i].secondary_indexes@;
    &&& y.len() == x.len()
    &&& forall|j: int| 0 <= j < x.len() ==> unindexed(x[j], #[trigger] y[j], m, id)
    &&& other_indexes_same(a.collections@, b.collections@, i)
}

/// From `a` to `b` indexes were built again over documents.
pub open spec fn indexes_rebuilt(
    a: Seq<SecondaryIndex>,
    b: Seq<SecondaryIndex>,
    docs: Seq<(u128, ValueM)>,
) -> bool {
    &&& b.len() == a.len()
    &&& forall|j: int|
        0 <= j < a.len() ==> (#[trigger] b[j]).def == a[j].def && b[j].btree.meta.config
            == INDEX_MAX_KEY_SIZE && index_entries(docs, a[j].def.field_path@, INDEX_MAX_KEY_SIZE)
            == Some(b[j].entries())
}

/// The indexes of all collections but `i` are as they were.
pub open spec fn other_indexes_same(a: Seq<Collection>, b: Seq<Collection>, i: int) -> bool {
    &&& b.len() == a.len()
    &&& forall|j: int|
        0 <= j < a.len() && j != i ==> (#[trigger] b[j]).secondary_indexes
            == a[j].secondary_indexes
}

/// The indexes of collection `i` exchanged a document.
pub open spec fn indexes_moved(
    a: Database,
    b: Database,
    i: int,
    old_m: ValueM,
    new_m: ValueM,
    id: u128,
) -> bool {
    &&& moved(a.collections@[i], b.collections@[i], old_m, new_m, id)
    &&& other_indexes_same(a.collections@, b.collections@, i)
}

/// The indexes of a collection exchanged a document.
pub open spec fn moved(
    a: Collection,
    b: Collection,
    old_m: ValueM,
    new_m: ValueM,
    id: u128,
) -> bool {
    let x = a.secondary_indexes@;
    let y = b.secondary_indexes@;
    &&& y.len() == x.len()
    &&& forall|j: int| 0 <= j < x.len() ==> index_moved(x[j], #[trigger] y[j], old_m, new_m, id)
}

/// An index exchanged a document.
pub open spec fn index_moved(
    x: SecondaryIndex,
    y: SecondaryIndex,
    old_m: ValueM,
    new_m: ValueM,
    id: u128,
) -> bool {
    exists|mid: SecondaryIndex| #[trigger]
        unindexed(x, mid, old_m, id) && reindexed(mid, y, new_m, id)
}

proof fn lemma_moved(
    a: Collection,
    b: Collection,
    c: Collection,
    old_m: ValueM,
    new_m: ValueM,
    id: u128,
)
    requires
        b.secondary_indexes@.len() == a.secondary_indexes@.len(),
        c.secondary_indexes@.len() == b.secondary_indexes@.len(),
        forall|j: int|
            0 <= j < a.secondary_indexes@.len() ==> unindexed(
                a.secondary_indexes@[j],
                #[trigger] b.secondary_indexes@[j],
                old_m,
                id,
            ),
        forall|j: int|
            0 <= j < b.secondary_indexes@.len() ==> reindexed(
                b.secondary_indexes@[j],
                #[trigger] c.secondary_indexes@[j],
                new_m,
                id,
            ),
    ensures
        moved(a, c, old_m, new_m, id),
{
    let x = a.secondary_indexes@;
    let y = c.secondary_indexes@;
    assert forall|j: int| 0 <= j < x.len() implies index_moved(
        x[j],
        #[trigger] y[j],
        old_m,
        new_m,
        id,
    ) by {
        let mid = b.secondary_indexes@[j];
        assert(unindexed(x[j], mid, old_m, id) && reindexed(mid, y[j], new_m, id));
    }
}

/// The document `key`, which was `old_m`, was replaced by `new_m`, with
/// `version` as its next version; where that failed, how far it came.
pub open spec fn replaced(
    a: Database,
    b: Database,
    r: Result<()>,
    collection: Seq<char>,
    key: Uuid,
    old_m: ValueM,
    new_m: ValueM,
    version: Option<ValueM>,
) -> bool {
    let i = coll_pos(a.collections@, collection)->0;
    let rs = a.collections@[i].raws();
    let k = key.spec_bytes();
    let image = doc_image(key.0, new_m);
    let gone = without_raw(rs, k);
    match r {
        Ok(_) => {
            &&& indexes_moved(a, b, i, old_m, new_m, key.0)
            &&& exists|recs: Seq<PageWriteRecord>, h: Hlc| #[trigger]
                exchanged(a, b, collection, key, old_m, new_m, version, recs, h)
        },
        Err(e) => {
            &&& unfinished(a, b)
            &&& b.versions.model() == with_baseline(
                a.versions.model(),
                collection,
                key.0,
                (0, shown(Some(old_m))),
            ) || e is Hlc && exists|h: Hlc|
                a.wal.clock.state.0 < h.0 <= b.wal.clock.state.0 && b.versions.model()
                    == #[trigger] versions_replaced(
                    a.versions,
                    collection,
                    key.0,
                    old_m,
                    h,
                    version,
                )
            &&& {
                let left = b.tables() == a.tables().update(i, (collection, gone)) && indexes_left(
                    a,
                    b,
                    i,
                    old_m,
                    key.0,
                );
                let came = b.tables() == a.tables().update(
                    i,
                    (collection, with_raw(gone, k, image)),
                ) && indexes_moved(a, b, i, old_m, new_m, key.0);
                ||| e is PageFull && !a.collections@[i].has_room(image.len()) && left
                ||| tick_failed(b.wal.clock.state, e) && (left || came)
            }
        },
    }
}

/// The histories after a document that was `old_m` got a next version at `h`.
pub open spec fn versions_replaced(
    vs: VersionStore,
    c: Seq<char>,
    k: u128,
    old_m: ValueM,
    h: Hlc,
    v: Option<ValueM>,
) -> Seq<HistoryM> {
    all_pruned(
        with_version(
            with_baseline(vs.model(), c, k, (0, shown(Some(old_m)))),
            c,
            k,
            (h.0, shown(v)),
        ),
        oldest(vs.readers@),
    )
}

} // verus!
