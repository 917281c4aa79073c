//! WAL writer: append-only log writer.
//!
//! v2 layout: the log starts with an 8 KiB header page carrying the magic and
//! format version, followed by zero or more v2 record frames. v1 logs (no
//! header) are detected on open and migrated eagerly to v2 before any new
//! writes happen — see [`WalWriter::new`].

use vstd::prelude::*;
use vstd::slice::*;

use crate::bytes::{bytes_eq, to_vec};
use crate::error::{GrumpyError, Result};
use crate::wal::hlc::{ticked, Hlc, HlcClock, HlcError, DEFAULT_MAX_SKEW_MS};
use crate::wal::record::{
    build_wal_header, frames_v1, frames_v2, has_magic, header_version, law_log_round_trip,
    lemma_no_frames, lemma_one_record, lemma_wal_header, parse_wal_header, read_v1_records,
    read_v2_records, records_image, records_of, wal_header, wal_magic, RecordM, WalOpType,
    WalRecord, NIL_NODE_ID, WAL_HEADER_SIZE, WAL_VERSION_CURRENT, WAL_VERSION_V1, WAL_VERSION_V2,
};
use crate::wal::vclock::VectorClock;

verus! {

/// The largest LSN among records, zero for none.
pub open spec fn max_lsn(recs: Seq<RecordM>) -> u64
    decreases recs.len(),
{
    if recs.len() == 0 {
        0
    } else if recs.last().lsn > max_lsn(recs.drop_last()) {
        recs.last().lsn
    } else {
        max_lsn(recs.drop_last())
    }
}

/// The largest transaction ID among records, zero for none.
pub open spec fn max_tx(recs: Seq<RecordM>) -> u64
    decreases recs.len(),
{
    if recs.len() == 0 {
        0
    } else if recs.last().tx_id > max_tx(recs.drop_last()) {
        recs.last().tx_id
    } else {
        max_tx(recs.drop_last())
    }
}

/// The largest LSN is at least every LSN.
pub proof fn lemma_max_lsn(recs: Seq<RecordM>, i: int)
    requires
        0 <= i < recs.len(),
    ensures
        recs[i].lsn <= max_lsn(recs),
        recs[i].tx_id <= max_tx(recs),
    decreases recs.len(),
{
    if i < recs.len() - 1 {
        lemma_max_lsn(recs.drop_last(), i);
    }
}

/// The number after `n`, going round after the largest.
pub open spec fn following(n: u64) -> u64 {
    if n == u64::MAX {
        0
    } else {
        (n + 1) as u64
    }
}

/// The v2 records of a log, read from behind its header.
pub open spec fn log_records(log: Seq<u8>) -> Seq<RecordM> {
    if log.len() <= WAL_HEADER_SIZE {
        Seq::empty()
    } else {
        frames_v2(log.skip(WAL_HEADER_SIZE as int))
    }
}

/// The format version of stored bytes.
pub open spec fn stored_version(image: Seq<u8>) -> Result<u16> {
    if has_magic(image) {
        header_version(image)
    } else {
        Ok(WAL_VERSION_V1)
    }
}

/// The records of stored bytes.
pub open spec fn stored_records(image: Seq<u8>) -> Seq<RecordM> {
    if image.len() == 0 {
        Seq::empty()
    } else if stored_version(image) == Ok::<u16, GrumpyError>(WAL_VERSION_V2) {
        log_records(image)
    } else {
        frames_v1(image)
    }
}

/// The log that stored bytes are opened as: a fresh one for no bytes, the
/// bytes themselves for a v2 log, the migrated records for a v1 log.
pub open spec fn opened_log(image: Seq<u8>) -> Seq<u8> {
    if image.len() == 0 {
        wal_header(WAL_VERSION_CURRENT)
    } else if stored_version(image) == Ok::<u16, GrumpyError>(WAL_VERSION_V2) {
        image
    } else {
        wal_header(WAL_VERSION_V2) + records_image(frames_v1(image))
    }
}

/// Append-only WAL writer.
///
/// Writes records sequentially. Each record is self-contained with its own
/// checksum. The LSN (Log Sequence Number) increases monotonically.
///
/// Every record carries an `origin_node_id`, an HLC, and a vector clock. The
/// writer stamps the origin from `node_id` and pulls the HLC from its clock at
/// every `log_*` call. The vector clock is the single-writer singleton
/// `{ node_id: hlc }`.
#[derive(Debug)]
pub struct WalWriter {
    /// The bytes of the log.
    pub log: Vec<u8>,
    /// Next LSN to assign.
    pub next_lsn: u64,
    /// Current transaction ID counter.
    pub next_tx_id: u64,
    /// Format version of the log.
    pub file_version: u16,
    /// Origin node identifier stamped on every record.
    pub node_id: u128,
    /// HLC source.
    pub clock: HlcClock,
}

/// The record of a page write, as the writer stamps it.
pub open spec fn page_write_record(
    w: WalWriter,
    tx_id: u64,
    page_id: u32,
    before: Seq<u8>,
    after: Seq<u8>,
    hlc: Hlc,
) -> RecordM {
    (RecordM {
        record_len: 0,
        lsn: w.next_lsn,
        tx_id,
        op: WalOpType::PageWrite,
        origin: w.node_id,
        hlc,
        clock: seq![(w.node_id, hlc.0)],
        page_id,
        data: after + before,
        checksum: 0,
    }).sealed()
}

/// The record of a commit or a checkpoint, as the writer stamps it.
pub open spec fn mark_record(w: WalWriter, tx_id: u64, op: WalOpType, hlc: Hlc) -> RecordM {
    (RecordM {
        record_len: 0,
        lsn: w.next_lsn,
        tx_id,
        op,
        origin: w.node_id,
        hlc,
        clock: seq![(w.node_id, hlc.0)],
        page_id: 0,
        data: Seq::empty(),
        checksum: 0,
    }).sealed()
}

/// `w` has become `v` by appending `rec`.
pub open spec fn appended(w: WalWriter, v: WalWriter, rec: RecordM) -> bool {
    &&& v.log@ == w.log@ + rec.image()
    &&& v.next_lsn == w.next_lsn + 1
    &&& v.next_tx_id == w.next_tx_id
    &&& v.file_version == w.file_version
    &&& v.node_id == w.node_id
    &&& v.clock.max_skew_ms == w.clock.max_skew_ms
}

/// `e` reports that a clock which stood at `at` gave no time: the host's time
/// lies before the epoch, or a local event cannot be counted.
pub open spec fn tick_failed(at: Hlc, e: GrumpyError) -> bool {
    &&& e is Hlc
    &&& exists|c: HlcError| e->Hlc_0@ == #[trigger] c.message_text() && (c is BeforeEpoch || exists|
        wall: u64,
    |
        #[trigger] ticked(at, wall) == Err::<Hlc, HlcError>(c))
}

/// A log call that could not read the clock: an LSN is used up and nothing is
/// written.
pub open spec fn log_failed(w: WalWriter, v: WalWriter, e: GrumpyError) -> bool {
    &&& v.log@ == w.log@
    &&& v.next_lsn == w.next_lsn + 1
    &&& v.next_tx_id == w.next_tx_id
    &&& v.file_version == w.file_version
    &&& v.node_id == w.node_id
    &&& v.clock == w.clock
    &&& tick_failed(w.clock.state, e)
}

/// The clock of `v` moved from that of `w` to `h` by a local event.
pub open spec fn clock_moved(w: WalWriter, v: WalWriter, h: Hlc) -> bool {
    &&& v.clock.state == h
    &&& exists|wall: u64| #[trigger] ticked(w.clock.state, wall) == Ok::<Hlc, HlcError>(h)
}

proof fn lemma_behind_header(h: Seq<u8>, a: Seq<u8>)
    requires
        h.len() == WAL_HEADER_SIZE,
    ensures
        log_records(h + a) == frames_v2(a),
{
    assert((h + a).skip(WAL_HEADER_SIZE as int) =~= a);
    if a.len() == 0 {
        lemma_no_frames(a);
    }
}

/// Records appended to a log are read back after those that were in it.
pub proof fn law_appended_records_are_read(version: u16, recs: Seq<RecordM>, rec: RecordM)
    requires
        forall|i: int| 0 <= i < recs.len() ==> (#[trigger] recs[i]).intact(),
        rec.intact(),
    ensures
        log_records(wal_header(version) + records_image(recs)) == recs,
        log_records(wal_header(version) + records_image(recs) + rec.image()) == recs.push(rec),
{
    lemma_wal_header(version);
    lemma_appended(wal_header(version), recs, rec);
}

proof fn lemma_appended(h: Seq<u8>, recs: Seq<RecordM>, rec: RecordM)
    requires
        h.len() == WAL_HEADER_SIZE,
        forall|i: int| 0 <= i < recs.len() ==> (#[trigger] recs[i]).intact(),
        rec.intact(),
    ensures
        log_records(h + records_image(recs)) == recs,
        log_records(h + records_image(recs) + rec.image()) == recs.push(rec),
{
    let img = rec.image();
    let none = Seq::<u8>::empty();
    law_log_round_trip(recs, none);
    law_log_round_trip(recs, img);
    lemma_one_record(rec);
    lemma_no_frames(none);
    lemma_joined(h, recs, records_image(recs), rec, img);
}

proof fn lemma_joined(h: Seq<u8>, recs: Seq<RecordM>, a: Seq<u8>, rec: RecordM, img: Seq<u8>)
    requires
        h.len() == WAL_HEADER_SIZE,
        frames_v2(a + Seq::<u8>::empty()) == recs + Seq::<RecordM>::empty(),
        frames_v2(a + img) == recs + seq![rec],
    ensures
        log_records(h + a) == recs,
        log_records(h + a + img) == recs.push(rec),
{
    lemma_behind_header(h, a);
    lemma_behind_header(h, a + img);
    assert(a + Seq::<u8>::empty() =~= a);
    assert(h + a + img =~= h + (a + img));
    assert(recs + Seq::<RecordM>::empty() =~= recs);
    assert(recs + seq![rec] =~= recs.push(rec));
}

/// Opening stored bytes keeps the records that they hold, of a v1 log those
/// that the v2 format can carry.
pub proof fn law_open_keeps_records(image: Seq<u8>)
    requires
        image.len() > 0,
        stored_version(image) == Ok::<u16, GrumpyError>(WAL_VERSION_V2) || (forall|i: int|
            0 <= i < frames_v1(image).len() ==> (#[trigger] frames_v1(image)[i]).intact()),
    ensures
        log_records(opened_log(image)) == stored_records(image),
{
    if stored_version(image) != Ok::<u16, GrumpyError>(WAL_VERSION_V2) {
        let recs = frames_v1(image);
        lemma_wal_header(WAL_VERSION_V2);
        law_log_round_trip(recs, Seq::empty());
        lemma_no_frames(Seq::empty());
        lemma_whole(wal_header(WAL_VERSION_V2), recs, records_image(recs));
    }
}

/// A log that was cut at a checkpoint is opened as it is, without records.
pub proof fn law_empty_log()
    ensures
        stored_version(wal_header(WAL_VERSION_CURRENT)) == Ok::<u16, GrumpyError>(WAL_VERSION_V2),
        opened_log(wal_header(WAL_VERSION_CURRENT)) == wal_header(WAL_VERSION_CURRENT),
        log_records(wal_header(WAL_VERSION_CURRENT)) == Seq::<RecordM>::empty(),
{
    lemma_wal_header(WAL_VERSION_CURRENT);
    crate::wal::record::law_header_round_trip(WAL_VERSION_CURRENT);
}

proof fn lemma_whole(h: Seq<u8>, recs: Seq<RecordM>, a: Seq<u8>)
    requires
        h.len() == WAL_HEADER_SIZE,
        frames_v2(a + Seq::<u8>::empty()) == recs + Seq::<RecordM>::empty(),
    ensures
        log_records(h + a) == recs,
{
    lemma_behind_header(h, a);
    assert(a + Seq::<u8>::empty() =~= a);
    assert(recs + Seq::<RecordM>::empty() =~= recs);
}

/// The LSN that a reopened log assigns next is larger than every LSN in it.
pub proof fn law_next_lsn_is_fresh(recs: Seq<RecordM>, i: int)
    requires
        0 <= i < recs.len(),
        max_lsn(recs) < u64::MAX,
    ensures
        recs[i].lsn < following(max_lsn(recs)),
{
    lemma_max_lsn(recs, i);
}

/// The largest LSN and transaction ID of records.
fn maxima(records: &Vec<WalRecord>) -> (r: (u64, u64))
    ensures
        r.0 == max_lsn(records_of(records@)),
        r.1 == max_tx(records_of(records@)),
{
    let ghost all = records_of(records@);
    let mut lsn: u64 = 0;
    let mut tx: u64 = 0;
    let mut i: usize = 0;
    assert(all.take(0) =~= Seq::<RecordM>::empty());
    while i < records.len()
        invariant
            all == records_of(records@),
            i <= records@.len(),
            lsn == max_lsn(all.take(i as int)),
            tx == max_tx(all.take(i as int)),
        decreases records@.len() - i,
    {
        proof {
            assert(all.take(i + 1).drop_last() =~= all.take(i as int));
            assert(all.take(i + 1).last() == all[i as int]);
        }
        if records[i].lsn > lsn {
            lsn = records[i].lsn;
        }
        if records[i].tx_id > tx {
            tx = records[i].tx_id;
        }
        i = i + 1;
    }
    assert(all.take(i as int) =~= all);
    (lsn, tx)
}

fn next_of(n: u64) -> (r: u64)
    ensures
        r == following(n),
{
    if n == u64::MAX {
        0
    } else {
        n + 1
    }
}

impl WalWriter {
    /// Opens the log with the given stored bytes. Equivalent to
    /// [`Self::new_with_identity`] using a fresh embedded identity:
    /// `NIL_NODE_ID` for the origin and a brand-new [`HlcClock`].
    pub fn new(image: &[u8]) -> (r: Result<Self>)
        ensures
            match r {
                Ok(w) => {
                    &&& image@.len() == 0 || stored_version(image@) is Ok
                    &&& w.log@ == opened_log(image@)
                    &&& w.next_lsn == following(max_lsn(stored_records(image@)))
                    &&& w.next_tx_id == following(max_tx(stored_records(image@)))
                    &&& w.file_version == WAL_VERSION_V2
                    &&& w.node_id == NIL_NODE_ID
                    &&& w.clock.max_skew_ms == DEFAULT_MAX_SKEW_MS
                    &&& w.clock.state.log() == 0
                },
                Err(e) => image@.len() > 0 && stored_version(image@) == Err::<u16, GrumpyError>(e),
            },
    {
        WalWriter::new_with_identity(image, NIL_NODE_ID, HlcClock::new())
    }

    /// Opens the log with the given stored bytes, stamping records with the
    /// given `node_id` and HLC source.
    pub fn new_with_identity(image: &[u8], node_id: u128, clock: HlcClock) -> (r: Result<Self>)
        ensures
            match r {
                Ok(w) => {
                    &&& image@.len() == 0 || stored_version(image@) is Ok
                    &&& w.log@ == opened_log(image@)
                    &&& w.next_lsn == following(max_lsn(stored_records(image@)))
                    &&& w.next_tx_id == following(max_tx(stored_records(image@)))
                    &&& w.file_version == WAL_VERSION_V2
                    &&& w.node_id == node_id
                    &&& w.clock == clock
                },
                Err(e) => image@.len() > 0 && stored_version(image@) == Err::<u16, GrumpyError>(e),
            },
    {
        assert(image.len() == image@.len());
        if image.len() == 0 {
            let hdr = build_wal_header(WAL_VERSION_CURRENT);
            return Ok(
                WalWriter {
                    log: to_vec(hdr.as_slice()),
                    next_lsn: 1,
                    next_tx_id: 1,
                    file_version: WAL_VERSION_CURRENT,
                    node_id,
                    clock,
                },
            );
        }
        let magic: [u8; 8] = wal_magic();
        let detected: u16 = if image.len() >= 8 && bytes_eq(&image[0..8], magic.as_slice()) {
            match parse_wal_header(image) {
                Ok(v) => v,
                Err(e) => {
                    return Err(e);
                },
            }
        } else {
            WAL_VERSION_V1
        };
        if detected == WAL_VERSION_V2 {
            let log: Vec<u8> = to_vec(image);
            let records: Vec<WalRecord> = WalWriter::records_behind_header(&log);
            let (lsn, tx) = maxima(&records);
            return Ok(
                WalWriter {
                    log,
                    next_lsn: next_of(lsn),
                    next_tx_id: next_of(tx),
                    file_version: WAL_VERSION_V2,
                    node_id,
                    clock,
                },
            );
        }
        let records: Vec<WalRecord> = read_v1_records(image);
        let (lsn, tx) = maxima(&records);
        Ok(
            WalWriter {
                log: WalWriter::migrate_v1_to_v2(&records),
                next_lsn: next_of(lsn),
                next_tx_id: next_of(tx),
                file_version: WAL_VERSION_V2,
                node_id,
                clock,
            },
        )
    }

    /// The v2 log of the same records.
    fn migrate_v1_to_v2(records: &Vec<WalRecord>) -> (r: Vec<u8>)
        ensures
            r@ == wal_header(WAL_VERSION_V2) + records_image(records_of(records@)),
    {
        let hdr = build_wal_header(WAL_VERSION_V2);
        let mut log: Vec<u8> = to_vec(hdr.as_slice());
        let ghost h = log@;
        let ghost all = records_of(records@);
        let mut i: usize = 0;
        assert(all.skip(0) =~= all);
        assert(h + records_image(all) == log@ + records_image(all.skip(0)));
        while i < records.len()
            invariant
                all == records_of(records@),
                i <= records@.len(),
                log@ + records_image(all.skip(i as int)) == h + records_image(all),
            decreases records@.len() - i,
        {
            let bytes: Vec<u8> = records[i].to_bytes();
            let ghost before = log@;
            log.extend_from_slice(bytes.as_slice());
            proof {
                let rest = all.skip(i as int);
                assert(rest[0] == all[i as int]);
                assert(rest.skip(1) =~= all.skip(i + 1));
                assert(log@ + records_image(all.skip(i + 1)) =~= before + records_image(rest));
            }
            i = i + 1;
        }
        assert(all.skip(i as int) =~= Seq::<RecordM>::empty());
        assert(log@ + records_image(all.skip(i as int)) =~= log@);
        log
    }

    fn records_behind_header(log: &Vec<u8>) -> (r: Vec<WalRecord>)
        ensures
            records_of(r@) == log_records(log@),
            forall|i: int| 0 <= i < r@.len() ==> (#[trigger] r@[i]).vector_clock.wf(),
    {
        if log.len() <= WAL_HEADER_SIZE {
            let none: Vec<WalRecord> = Vec::new();
            assert(records_of(none@) =~= Seq::<RecordM>::empty());
            return none;
        }
        let tail: &[u8] = slice_subrange(log.as_slice(), WAL_HEADER_SIZE, log.len());
        assert(tail@ =~= log@.skip(WAL_HEADER_SIZE as int));
        read_v2_records(tail)
    }

    /// Begins a new transaction. Returns the transaction ID.
    pub fn begin_tx(&mut self) -> (r: u64)
        requires
            old(self).next_tx_id < u64::MAX,
        ensures
            r == old(self).next_tx_id,
            *final(self) == (WalWriter {
                next_tx_id: (old(self).next_tx_id + 1) as u64,
                ..*old(self)
            }),
    {
        let tx_id: u64 = self.next_tx_id;
        self.next_tx_id = tx_id + 1;
        tx_id
    }

    /// Returns the configured node identifier (origin stamp).
    pub fn node_id(&self) -> (r: u128)
        ensures
            r == self.node_id,
    {
        self.node_id
    }

    /// Returns the HLC clock as it stands.
    pub fn clock(&self) -> (r: HlcClock)
        ensures
            r == self.clock,
    {
        self.clock
    }

    /// Returns the format version of the log.
    pub fn file_version(&self) -> (r: u16)
        ensures
            r == self.file_version,
    {
        self.file_version
    }

    /// Logs a page write (before + after images). Returns `(lsn, hlc)` for
    /// downstream tracking.
    pub fn log_page_write(
        &mut self,
        tx_id: u64,
        page_id: u32,
        before: &[u8],
        after: &[u8],
    ) -> (r: Result<(u64, Hlc)>)
        requires
            old(self).next_lsn < u64::MAX,
            83 + before@.len() + after@.len() <= usize::MAX,
        ensures
            match r {
                Ok(t) => {
                    &&& t.0 == old(self).next_lsn
                    &&& appended(
                        *old(self),
                        *final(self),
                        page_write_record(*old(self), tx_id, page_id, before@, after@, t.1),
                    )
                    &&& clock_moved(*old(self), *final(self), t.1)
                },
                Err(e) => log_failed(*old(self), *final(self), e),
            },
    {
        match self.clock.now() {
            Ok(hlc) => {
                let lsn: u64 = self.log_page_write_at(tx_id, page_id, before, after, hlc);
                Ok((lsn, hlc))
            },
            Err(e) => {
                self.next_lsn = self.next_lsn + 1;
                Err(GrumpyError::Hlc(e.message()))
            },
        }
    }

    /// Logs a page write stamped with a given HLC. Returns its LSN.
    pub fn log_page_write_at(
        &mut self,
        tx_id: u64,
        page_id: u32,
        before: &[u8],
        after: &[u8],
        hlc: Hlc,
    ) -> (lsn: u64)
        requires
            old(self).next_lsn < u64::MAX,
            83 + before@.len() + after@.len() <= usize::MAX,
        ensures
            lsn == old(self).next_lsn,
            final(self).clock == old(self).clock,
            appended(
                *old(self),
                *final(self),
                page_write_record(*old(self), tx_id, page_id, before@, after@, hlc),
            ),
    {
        let lsn: u64 = self.alloc_lsn();
        let vc: VectorClock = VectorClock::singleton(self.node_id, hlc.0);
        let record: WalRecord = WalRecord::page_write(
            lsn,
            tx_id,
            self.node_id,
            hlc,
            vc,
            page_id,
            before,
            after,
        );
        self.append_record(&record);
        lsn
    }

    /// Logs a commit record.
    pub fn log_commit(&mut self, tx_id: u64) -> (r: Result<(u64, Hlc)>)
        requires
            old(self).next_lsn < u64::MAX,
        ensures
            match r {
                Ok(t) => {
                    &&& t.0 == old(self).next_lsn
                    &&& appended(
                        *old(self),
                        *final(self),
                        mark_record(*old(self), tx_id, WalOpType::Commit, t.1),
                    )
                    &&& clock_moved(*old(self), *final(self), t.1)
                },
                Err(e) => log_failed(*old(self), *final(self), e),
            },
    {
        match self.clock.now() {
            Ok(hlc) => {
                let lsn: u64 = self.log_commit_at(tx_id, hlc);
                Ok((lsn, hlc))
            },
            Err(e) => {
                self.next_lsn = self.next_lsn + 1;
                Err(GrumpyError::Hlc(e.message()))
            },
        }
    }

    /// Logs a commit record stamped with a given HLC. Returns its LSN.
    pub fn log_commit_at(&mut self, tx_id: u64, hlc: Hlc) -> (lsn: u64)
        requires
            old(self).next_lsn < u64::MAX,
        ensures
            lsn == old(self).next_lsn,
            final(self).clock == old(self).clock,
            appended(
                *old(self),
                *final(self),
                mark_record(*old(self), tx_id, WalOpType::Commit, hlc),
            ),
    {
        let lsn: u64 = self.alloc_lsn();
        let vc: VectorClock = VectorClock::singleton(self.node_id, hlc.0);
        let record: WalRecord = WalRecord::commit(lsn, tx_id, self.node_id, hlc, vc);
        self.append_record(&record);
        lsn
    }

    /// Logs a checkpoint record.
    pub fn log_checkpoint(&mut self) -> (r: Result<(u64, Hlc)>)
        requires
            old(self).next_lsn < u64::MAX,
        ensures
            match r {
                Ok(t) => {
                    &&& t.0 == old(self).next_lsn
                    &&& appended(
                        *old(self),
                        *final(self),
                        mark_record(*old(self), 0, WalOpType::Checkpoint, t.1),
                    )
                    &&& clock_moved(*old(self), *final(self), t.1)
                },
                Err(e) => log_failed(*old(self), *final(self), e),
            },
    {
        match self.clock.now() {
            Ok(hlc) => {
                let lsn: u64 = self.log_checkpoint_at(hlc);
                Ok((lsn, hlc))
            },
            Err(e) => {
                self.next_lsn = self.next_lsn + 1;
                Err(GrumpyError::Hlc(e.message()))
            },
        }
    }

    /// Logs a checkpoint record stamped with a given HLC. Returns its LSN.
    pub fn log_checkpoint_at(&mut self, hlc: Hlc) -> (lsn: u64)
        requires
            old(self).next_lsn < u64::MAX,
        ensures
            lsn == old(self).next_lsn,
            final(self).clock == old(self).clock,
            appended(
                *old(self),
                *final(self),
                mark_record(*old(self), 0, WalOpType::Checkpoint, hlc),
            ),
    {
        let lsn: u64 = self.alloc_lsn();
        let vc: VectorClock = VectorClock::singleton(self.node_id, hlc.0);
        let record: WalRecord = WalRecord::checkpoint(lsn, self.node_id, hlc, vc);
        self.append_record(&record);
        lsn
    }

    /// Returns the current (next) LSN without incrementing.
    pub fn current_lsn(&self) -> (r: u64)
        ensures
            r == self.next_lsn,
    {
        self.next_lsn
    }

    /// Truncates the log (after a checkpoint). Re-writes the v2 header so the
    /// log always starts with the magic.
    pub fn truncate(&mut self) -> (r: Result<()>)
        ensures
            r is Ok,
            final(self).log@ == wal_header(WAL_VERSION_CURRENT),
            final(self).next_lsn == old(self).next_lsn,
            final(self).next_tx_id == old(self).next_tx_id,
            final(self).file_version == old(self).file_version,
            final(self).node_id == old(self).node_id,
            final(self).clock == old(self).clock,
    {
        let hdr = build_wal_header(WAL_VERSION_CURRENT);
        self.log = to_vec(hdr.as_slice());
        Ok(())
    }

    /// Reads all valid records from the log.
    pub fn read_all_records(&self) -> (r: Result<Vec<WalRecord>>)
        ensures
            r is Ok,
            records_of(r->Ok_0@) == log_records(self.log@),
            forall|i: int| 0 <= i < r->Ok_0@.len() ==> (#[trigger] r->Ok_0@[i]).vector_clock.wf(),
    {
        Ok(WalWriter::records_behind_header(&self.log))
    }

    fn alloc_lsn(&mut self) -> (r: u64)
        requires
            old(self).next_lsn < u64::MAX,
        ensures
            r == old(self).next_lsn,
            *final(self) == (WalWriter { next_lsn: (old(self).next_lsn + 1) as u64, ..*old(self) }),
    {
        let lsn: u64 = self.next_lsn;
        self.next_lsn = lsn + 1;
        lsn
    }

    fn append_record(&mut self, record: &WalRecord)
        ensures
            final(self).log@ == old(self).log@ + record.model().image(),
            final(self).next_lsn == old(self).next_lsn,
            final(self).next_tx_id == old(self).next_tx_id,
            final(self).file_version == old(self).file_version,
            final(self).node_id == old(self).node_id,
            final(self).clock == old(self).clock,
    {
        let bytes: Vec<u8> = record.to_bytes();
        self.log.extend_from_slice(bytes.as_slice());
    }
}

/// A record that was appended to a log is read behind those that were in it,
/// and uses up one LSN.
pub proof fn law_appended_record_is_the_last(
    w: WalWriter,
    v: WalWriter,
    version: u16,
    recs: Seq<RecordM>,
    rec: RecordM,
)
    requires
        w.log@ == wal_header(version) + records_image(recs),
        forall|i: int| 0 <= i < recs.len() ==> (#[trigger] recs[i]).intact(),
        rec.intact(),
        appended(w, v, rec),
    ensures
        log_records(w.log@) == recs,
        log_records(v.log@) == recs.push(rec),
        v.next_lsn == w.next_lsn + 1,
{
    law_appended_records_are_read(version, recs, rec);
}

/// Marks of a transaction hold the next LSN, the transaction, the node and the
/// time.
pub proof fn law_marks_name_their_transaction(w: WalWriter, tx_id: u64, op: WalOpType, hlc: Hlc)
    ensures
        mark_record(w, tx_id, op, hlc).lsn == w.next_lsn,
        mark_record(w, tx_id, op, hlc).tx_id == tx_id,
        mark_record(w, tx_id, op, hlc).op == op,
        mark_record(w, tx_id, op, hlc).origin == w.node_id,
        mark_record(w, tx_id, op, hlc).hlc == hlc,
        mark_record(w, tx_id, op, hlc).clock == seq![(w.node_id, hlc.0)],
{
}

} // verus!
