//! Crash recovery: redo committed transactions, undo uncommitted ones.
//!
//! At startup, the recovery module reads the WAL and:
//! 1. **Redo**: replays page writes from committed transactions
//! 2. **Undo**: reverts page writes from uncommitted transactions

use std::collections::HashSet;

use vstd::prelude::*;
use vstd::slice::*;

use crate::error::Result;
use crate::page::manager::{contents, PageManager};
use crate::page::{write_at, Page, PAGE_SIZE};
use crate::wal::applied_set::{beyond, observed, AppliedSet, ObserveOutcome};
use crate::wal::record::{records_of, RecordM, WalOpType, WalRecord};
use crate::wal::vclock::counter;

verus! {

/// Flag to mark a page_id as belonging to the index file.
pub const INDEX_PAGE_FLAG: u32 = 0x8000_0000;

/// Result of a recovery operation.
#[derive(Debug, Clone, Copy, PartialEq, Eq, Structural)]
pub struct RecoveryResult {
    /// Number of page writes redone (committed TXs).
    pub redo_count: usize,
    /// Number of page writes undone (uncommitted TXs).
    pub undo_count: usize,
    /// Number of committed transactions found.
    pub committed_txs: usize,
    /// Total records processed.
    pub records_processed: usize,
    /// Number of records dropped because their `(origin, hlc)` had already
    /// been applied.
    pub skipped_duplicate: usize,
}

/// The pages of the data file and of the index file.
#[verifier::ext_equal]
pub struct Files {
    pub data: Seq<Seq<u8>>,
    pub index: Seq<Seq<u8>>,
}

impl Files {
    /// Where a flagged page ID points, in its file.
    pub open spec fn slot(id: u32) -> int {
        if id >= INDEX_PAGE_FLAG {
            id - INDEX_PAGE_FLAG
        } else {
            id as int
        }
    }

    /// The file that a flagged page ID points to.
    pub open spec fn file(self, id: u32) -> Seq<Seq<u8>> {
        if id >= INDEX_PAGE_FLAG {
            self.index
        } else {
            self.data
        }
    }

    /// The page that a flagged page ID points to exists.
    pub open spec fn has(self, id: u32) -> bool {
        Files::slot(id) < self.file(id).len()
    }

    /// The page that a flagged page ID points to.
    pub open spec fn page(self, id: u32) -> Seq<u8> {
        self.file(id)[Files::slot(id)]
    }

    /// The files with a page replaced, where it exists.
    pub open spec fn put(self, id: u32, bytes: Seq<u8>) -> Files {
        if !self.has(id) {
            self
        } else if id >= INDEX_PAGE_FLAG {
            Files { data: self.data, index: self.index.update(Files::slot(id), bytes) }
        } else {
            Files { data: self.data.update(Files::slot(id), bytes), index: self.index }
        }
    }
}

/// Putting a page changes that page and no other.
proof fn lemma_put(f: Files, id: u32, bytes: Seq<u8>, q: u32)
    ensures
        f.put(id, bytes).has(q) == f.has(q),
        f.has(q) ==> f.put(id, bytes).page(q) == (if q == id {
            bytes
        } else {
            f.page(q)
        }),
        f.put(id, bytes).data.len() == f.data.len(),
        f.put(id, bytes).index.len() == f.index.len(),
{
}

/// The page write carries two whole page images.
pub open spec fn whole(rec: RecordM) -> bool {
    rec.data.len() >= 16384
}

/// The page as the write left it.
pub open spec fn after_of(rec: RecordM) -> Seq<u8> {
    rec.data.subrange(0, 8192)
}

/// The page as the write found it.
pub open spec fn before_of(rec: RecordM) -> Seq<u8> {
    rec.data.subrange(8192, 16384)
}

/// The LSN of the last checkpoint, zero without one.
pub open spec fn checkpoint_lsn(recs: Seq<RecordM>) -> u64
    decreases recs.len(),
{
    if recs.len() == 0 {
        0
    } else {
        let m = checkpoint_lsn(recs.drop_last());
        if recs.last().op == WalOpType::Checkpoint && recs.last().lsn > m {
            recs.last().lsn
        } else {
            m
        }
    }
}

/// The records after a checkpoint.
pub open spec fn active(recs: Seq<RecordM>, from: u64) -> Seq<RecordM>
    decreases recs.len(),
{
    if recs.len() == 0 {
        recs
    } else if recs.last().lsn > from {
        active(recs.drop_last(), from).push(recs.last())
    } else {
        active(recs.drop_last(), from)
    }
}

/// The transactions with a commit record.
pub open spec fn committed(recs: Seq<RecordM>) -> Set<u64>
    decreases recs.len(),
{
    if recs.len() == 0 {
        Set::empty()
    } else if recs.last().op == WalOpType::Commit {
        committed(recs.drop_last()).insert(recs.last().tx_id)
    } else {
        committed(recs.drop_last())
    }
}

/// How far the redo phase has come.
#[verifier::ext_equal]
pub struct Redone {
    pub files: Files,
    pub marks: Seq<(u128, u64)>,
    pub applied: nat,
    pub skipped: nat,
}

/// The redo phase: the after-images of committed page writes, in order. With
/// `gate`, writes that were already applied are skipped.
pub open spec fn redo(
    recs: Seq<RecordM>,
    txs: Set<u64>,
    gate: bool,
    start: Redone,
) -> Redone
    decreases recs.len(),
{
    if recs.len() == 0 {
        start
    } else {
        redo_step(redo(recs.drop_last(), txs, gate, start), recs.last(), txs, gate)
    }
}

/// The redo phase at one record.
pub open spec fn redo_step(st: Redone, rec: RecordM, txs: Set<u64>, gate: bool) -> Redone {
    if rec.op != WalOpType::PageWrite || !txs.contains(rec.tx_id) {
        st
    } else {
        let marks = if gate {
            observed(st.marks, rec.origin, rec.hlc.0)
        } else {
            st.marks
        };
        if gate && !beyond(st.marks, rec.origin, rec.hlc.0) {
            Redone { marks, skipped: st.skipped + 1, ..st }
        } else {
            Redone {
                files: if whole(rec) {
                    st.files.put(rec.page_id, after_of(rec))
                } else {
                    st.files
                },
                marks,
                applied: st.applied + 1,
                skipped: st.skipped,
            }
        }
    }
}

/// The undo phase: the before-images of uncommitted page writes, in reverse
/// order.
pub open spec fn undo(recs: Seq<RecordM>, txs: Set<u64>, files: Files) -> Files
    decreases recs.len(),
{
    if recs.len() == 0 {
        files
    } else {
        undo(recs.drop_last(), txs, undo_step(files, recs.last(), txs))
    }
}

/// The undo phase at one record.
pub open spec fn undo_step(files: Files, rec: RecordM, txs: Set<u64>) -> Files {
    if rec.op == WalOpType::PageWrite && !txs.contains(rec.tx_id) && whole(rec) {
        files.put(rec.page_id, before_of(rec))
    } else {
        files
    }
}

/// How many page writes the undo phase reverts.
pub open spec fn undo_count(recs: Seq<RecordM>, txs: Set<u64>) -> nat
    decreases recs.len(),
{
    if recs.len() == 0 {
        0
    } else {
        undo_count(recs.drop_last(), txs) + (if recs.last().op == WalOpType::PageWrite
            && !txs.contains(recs.last().tx_id) {
            1nat
        } else {
            0
        })
    }
}

/// The state that the redo phase of a log leaves.
pub open spec fn redone(
    recs: Seq<RecordM>,
    gate: bool,
    files: Files,
    marks: Seq<(u128, u64)>,
) -> Redone {
    let live = active(recs, checkpoint_lsn(recs));
    redo(live, committed(live), gate, Redone { files, marks, applied: 0, skipped: 0 })
}

/// The files after recovery.
pub open spec fn recovered(
    recs: Seq<RecordM>,
    gate: bool,
    files: Files,
    marks: Seq<(u128, u64)>,
) -> Files {
    let live = active(recs, checkpoint_lsn(recs));
    undo(live, committed(live), redone(recs, gate, files, marks).files)
}

// ── Laws ────────────────────────────────────────────────────────────────

/// `rec` is a page write to `id` that recovery looks at, with whole images.
pub open spec fn writes_to(rec: RecordM, id: u32) -> bool {
    rec.op == WalOpType::PageWrite && rec.page_id == id && whole(rec)
}

pub proof fn lemma_redo_page(
    recs: Seq<RecordM>,
    txs: Set<u64>,
    start: Redone,
    id: u32,
    k: int,
)
    requires
        -1 <= k < recs.len(),
        start.files.has(id),
        0 <= k ==> writes_to(recs[k], id) && txs.contains(recs[k].tx_id),
        forall|i: int|
            k < i < recs.len() && txs.contains((#[trigger] recs[i]).tx_id) ==> !writes_to(
                recs[i],
                id,
            ),
    ensures
        redo(recs, txs, false, start).files.has(id),
        redo(recs, txs, false, start).files.page(id) == (if k < 0 {
            start.files.page(id)
        } else {
            after_of(recs[k])
        }),
    decreases recs.len(),
{
    if recs.len() > 0 {
        let f = recs.drop_last();
        let last = recs.last();
        let st = redo(f, txs, false, start);
        if k == recs.len() - 1 {
            lemma_redo_has(f, txs, start, id);
        } else {
            assert forall|i: int|
                k < i < f.len() && txs.contains((#[trigger] f[i]).tx_id) implies !writes_to(
                f[i],
                id,
            ) by {
                assert(f[i] == recs[i]);
            }
            lemma_redo_page(f, txs, start, id, k);
        }
        lemma_put(st.files, last.page_id, after_of(last), id);
        assert(recs[recs.len() - 1] == last);
    }
}

pub proof fn lemma_redo_has(recs: Seq<RecordM>, txs: Set<u64>, start: Redone, id: u32)
    ensures
        redo(recs, txs, false, start).files.has(id) == start.files.has(id),
    decreases recs.len(),
{
    if recs.len() > 0 {
        let f = recs.drop_last();
        lemma_redo_has(f, txs, start, id);
        lemma_put(
            redo(f, txs, false, start).files,
            recs.last().page_id,
            after_of(recs.last()),
            id,
        );
    }
}

pub proof fn lemma_undo_page(recs: Seq<RecordM>, txs: Set<u64>, files: Files, id: u32, k: int)
    requires
        0 <= k <= recs.len(),
        files.has(id),
        k < recs.len() ==> writes_to(recs[k], id) && !txs.contains(recs[k].tx_id),
        forall|i: int|
            0 <= i < k && !txs.contains((#[trigger] recs[i]).tx_id) ==> !writes_to(recs[i], id),
    ensures
        undo(recs, txs, files).has(id),
        undo(recs, txs, files).page(id) == (if k == recs.len() {
            files.page(id)
        } else {
            before_of(recs[k])
        }),
    decreases recs.len(),
{
    if recs.len() > 0 {
        let f = recs.drop_last();
        let last = recs.last();
        let next = undo_step(files, last, txs);
        lemma_put(files, last.page_id, before_of(last), id);
        assert(recs[recs.len() - 1] == last);
        assert forall|i: int|
            0 <= i < k && i < f.len() && !txs.contains((#[trigger] f[i]).tx_id) implies !writes_to(
            f[i],
            id,
        ) by {
            assert(f[i] == recs[i]);
        }
        if k >= f.len() {
            lemma_undo_page(f, txs, next, id, f.len() as int);
        } else {
            lemma_undo_page(f, txs, next, id, k);
        }
    }
}

/// Committed writes survive: after recovery a page holds the after-image of
/// the last committed write to it, if no uncommitted transaction wrote it.
pub proof fn law_committed_writes_survive(recs: Seq<RecordM>, files: Files, id: u32, k: int)
    requires
        files.has(id),
        ({
            let live = active(recs, checkpoint_lsn(recs));
            let txs = committed(live);
            &&& 0 <= k < live.len()
            &&& writes_to(live[k], id)
            &&& txs.contains(live[k].tx_id)
            &&& forall|i: int|
                k < i < live.len() && txs.contains((#[trigger] live[i]).tx_id) ==> !writes_to(
                    live[i],
                    id,
                )
            &&& forall|i: int|
                0 <= i < live.len() && !txs.contains((#[trigger] live[i]).tx_id) ==> !writes_to(
                    live[i],
                    id,
                )
        }),
    ensures
        recovered(recs, false, files, Seq::empty()).page(id) == after_of(
            active(recs, checkpoint_lsn(recs))[k],
        ),
{
    let live = active(recs, checkpoint_lsn(recs));
    let txs = committed(live);
    let start = Redone { files, marks: Seq::empty(), applied: 0, skipped: 0 };
    lemma_redo_page(live, txs, start, id, k);
    lemma_undo_page(live, txs, redo(live, txs, false, start).files, id, live.len() as int);
}

/// Uncommitted writes are rolled back: after recovery a page that uncommitted
/// transactions wrote holds the before-image of the first such write.
pub proof fn law_uncommitted_writes_are_undone(
    recs: Seq<RecordM>,
    files: Files,
    id: u32,
    k: int,
)
    requires
        files.has(id),
        ({
            let live = active(recs, checkpoint_lsn(recs));
            let txs = committed(live);
            &&& 0 <= k < live.len()
            &&& writes_to(live[k], id)
            &&& !txs.contains(live[k].tx_id)
            &&& forall|i: int|
                0 <= i < k && !txs.contains((#[trigger] live[i]).tx_id) ==> !writes_to(
                    live[i],
                    id,
                )
        }),
    ensures
        recovered(recs, false, files, Seq::empty()).page(id) == before_of(
            active(recs, checkpoint_lsn(recs))[k],
        ),
{
    let live = active(recs, checkpoint_lsn(recs));
    let txs = committed(live);
    let start = Redone { files, marks: Seq::empty(), applied: 0, skipped: 0 };
    lemma_redo_has(live, txs, start, id);
    lemma_undo_page(live, txs, redo(live, txs, false, start).files, id, k);
}

/// Where two runs of the redo phase start with files of the same size, a page
/// comes out the same in both or is left alone by both.
proof fn lemma_redo_agree(
    recs: Seq<RecordM>,
    txs: Set<u64>,
    a: Redone,
    b: Redone,
    id: u32,
)
    requires
        a.files.has(id),
        b.files.has(id),
    ensures
        ({
            let x = redo(recs, txs, false, a).files;
            let y = redo(recs, txs, false, b).files;
            &&& x.has(id)
            &&& y.has(id)
            &&& x.page(id) == y.page(id) || (x.page(id) == a.files.page(id) && y.page(id)
                == b.files.page(id))
        }),
    decreases recs.len(),
{
    if recs.len() > 0 {
        let f = recs.drop_last();
        let last = recs.last();
        lemma_redo_agree(f, txs, a, b, id);
        lemma_put(redo(f, txs, false, a).files, last.page_id, after_of(last), id);
        lemma_put(redo(f, txs, false, b).files, last.page_id, after_of(last), id);
    }
}

proof fn lemma_undo_agree(recs: Seq<RecordM>, txs: Set<u64>, a: Files, b: Files, id: u32)
    requires
        a.has(id),
        b.has(id),
    ensures
        ({
            let x = undo(recs, txs, a);
            let y = undo(recs, txs, b);
            &&& x.has(id)
            &&& y.has(id)
            &&& x.page(id) == y.page(id) || (x.page(id) == a.page(id) && y.page(id) == b.page(id))
        }),
    decreases recs.len(),
{
    if recs.len() > 0 {
        let f = recs.drop_last();
        let last = recs.last();
        lemma_put(a, last.page_id, before_of(last), id);
        lemma_put(b, last.page_id, before_of(last), id);
        lemma_undo_agree(f, txs, undo_step(a, last, txs), undo_step(b, last, txs), id);
    }
}

pub proof fn lemma_undo_has(recs: Seq<RecordM>, txs: Set<u64>, files: Files, id: u32)
    ensures
        undo(recs, txs, files).has(id) == files.has(id),
    decreases recs.len(),
{
    if recs.len() > 0 {
        lemma_put(files, recs.last().page_id, before_of(recs.last()), id);
        lemma_undo_has(recs.drop_last(), txs, undo_step(files, recs.last(), txs), id);
    }
}

/// Recovery can be repeated: running it again on what it left changes no page.
pub proof fn law_recovery_is_idempotent(recs: Seq<RecordM>, files: Files, id: u32)
    requires
        files.has(id),
    ensures
        ({
            let once = recovered(recs, false, files, Seq::empty());
            recovered(recs, false, once, Seq::empty()).page(id) == once.page(id)
        }),
{
    let live = active(recs, checkpoint_lsn(recs));
    let txs = committed(live);
    let once = recovered(recs, false, files, Seq::empty());
    let a = Redone { files, marks: Seq::empty(), applied: 0, skipped: 0 };
    let b = Redone { files: once, marks: Seq::empty(), applied: 0, skipped: 0 };
    let ra = redo(live, txs, false, a).files;
    let rb = redo(live, txs, false, b).files;
    lemma_redo_has(live, txs, a, id);
    lemma_undo_has(live, txs, ra, id);
    lemma_redo_agree(live, txs, a, b, id);
    lemma_undo_agree(live, txs, ra, rb, id);
}

// ── Recovery ────────────────────────────────────────────────────────────

/// Performs crash recovery by replaying the WAL.
///
/// - Committed transactions: their after-images are applied (redo).
/// - Uncommitted transactions: their before-images are applied (undo).
///
/// Returns how many records were processed, redone and undone, and how many
/// transactions had committed.
pub fn recover(
    records: &[WalRecord],
    data_pm: &mut PageManager,
    index_pm: &mut PageManager,
) -> (r: Result<RecoveryResult>)
    requires
        old(data_pm).wf(),
        old(index_pm).wf(),
    ensures
        final(data_pm).wf(),
        final(index_pm).wf(),
        final(data_pm).count() == old(data_pm).count(),
        final(index_pm).count() == old(index_pm).count(),
        recovery_ok(
            r,
            records_of(records@),
            false,
            Files { data: contents(*old(data_pm)), index: contents(*old(index_pm)) },
            Files { data: contents(*final(data_pm)), index: contents(*final(index_pm)) },
            Seq::empty(),
        ),
{
    let mut marks: AppliedSet = AppliedSet::default();
    replay(records, data_pm, index_pm, &mut marks, false)
}

/// Same as [`recover`] but consults an [`AppliedSet`] to drop records whose
/// `(origin, hlc)` pair has already been applied. Updates the set in place
/// when records are applied.
pub fn recover_with_applied_set(
    records: &[WalRecord],
    data_pm: &mut PageManager,
    index_pm: &mut PageManager,
    applied: &mut AppliedSet,
) -> (r: Result<RecoveryResult>)
    requires
        old(data_pm).wf(),
        old(index_pm).wf(),
        old(applied).wf(),
    ensures
        final(data_pm).wf(),
        final(index_pm).wf(),
        final(applied).wf(),
        final(data_pm).count() == old(data_pm).count(),
        final(index_pm).count() == old(index_pm).count(),
        final(applied).schema_version == old(applied).schema_version,
        final(applied).marks() == redone(
            records_of(records@),
            true,
            Files { data: contents(*old(data_pm)), index: contents(*old(index_pm)) },
            old(applied).marks(),
        ).marks,
        recovery_ok(
            r,
            records_of(records@),
            true,
            Files { data: contents(*old(data_pm)), index: contents(*old(index_pm)) },
            Files { data: contents(*final(data_pm)), index: contents(*final(index_pm)) },
            old(applied).marks(),
        ),
{
    replay(records, data_pm, index_pm, applied, true)
}

/// Recovery succeeded, took `before` to `after` and counted what it did.
pub open spec fn recovery_ok(
    r: Result<RecoveryResult>,
    recs: Seq<RecordM>,
    gate: bool,
    before: Files,
    after: Files,
    marks: Seq<(u128, u64)>,
) -> bool {
    let live = active(recs, checkpoint_lsn(recs));
    let txs = committed(live);
    let st = redone(recs, gate, before, marks);
    &&& r is Ok
    &&& r->Ok_0.redo_count == st.applied
    &&& r->Ok_0.skipped_duplicate == st.skipped
    &&& r->Ok_0.undo_count == undo_count(live, txs)
    &&& r->Ok_0.committed_txs == txs.len()
    &&& r->Ok_0.records_processed == live.len()
    &&& after == recovered(recs, gate, before, marks)
}

fn replay(
    records: &[WalRecord],
    data_pm: &mut PageManager,
    index_pm: &mut PageManager,
    applied: &mut AppliedSet,
    gate: bool,
) -> (r: Result<RecoveryResult>)
    requires
        old(data_pm).wf(),
        old(index_pm).wf(),
        old(applied).wf(),
    ensures
        final(data_pm).wf(),
        final(index_pm).wf(),
        final(applied).wf(),
        final(data_pm).count() == old(data_pm).count(),
        final(index_pm).count() == old(index_pm).count(),
        final(applied).schema_version == old(applied).schema_version,
        final(applied).marks() == redone(
            records_of(records@),
            gate,
            Files { data: contents(*old(data_pm)), index: contents(*old(index_pm)) },
            old(applied).marks(),
        ).marks,
        recovery_ok(
            r,
            records_of(records@),
            gate,
            Files { data: contents(*old(data_pm)), index: contents(*old(index_pm)) },
            Files { data: contents(*final(data_pm)), index: contents(*final(index_pm)) },
            old(applied).marks(),
        ),
{
    broadcast use vstd::std_specs::hash::group_hash_axioms;

    let ghost recs = records_of(records@);
    let ghost files = Files { data: contents(*data_pm), index: contents(*index_pm) };
    let ghost start = Redone { files, marks: applied.marks(), applied: 0, skipped: 0 };
    let from: u64 = last_checkpoint(records);
    let live: Vec<usize> = active_records(records, from);
    let ghost lrecs = active(recs, from);
    let txs: HashSet<u64> = committed_txs(records, &live);
    let ghost ctx = txs@;
    let mut redo_n: usize = 0;
    let mut skip_n: usize = 0;
    let mut i: usize = 0;
    assert(lrecs.take(0) =~= Seq::<RecordM>::empty());
    while i < live.len()
        invariant
            picks(live@, records@, lrecs),
            i <= live@.len(),
            ctx == txs@,
            data_pm.wf(),
            index_pm.wf(),
            applied.wf(),
            data_pm.count() == old(data_pm).count(),
            index_pm.count() == old(index_pm).count(),
            applied.schema_version == old(applied).schema_version,
            redo(lrecs.take(i as int), ctx, gate, start) == (Redone {
                files: Files { data: contents(*data_pm), index: contents(*index_pm) },
                marks: applied.marks(),
                applied: redo_n as nat,
                skipped: skip_n as nat,
            }),
            redo_n + skip_n <= i,
        decreases live@.len() - i,
    {
        proof {
            assert(lrecs.take(i + 1).drop_last() =~= lrecs.take(i as int));
            assert(lrecs.take(i + 1).last() == lrecs[i as int]);
        }
        let record: &WalRecord = &records[live[i]];
        assert(record.model() == lrecs[i as int]);
        if is_page_write(record) && txs.contains(&record.tx_id) {
            let mut dup: bool = false;
            if gate {
                match applied.observe(record.origin_node_id, record.hlc) {
                    ObserveOutcome::New => {},
                    ObserveOutcome::AlreadyApplied => {
                        dup = true;
                    },
                }
            }
            if dup {
                skip_n = skip_n + 1;
            } else {
                apply_image(record, 0, data_pm, index_pm);
                redo_n = redo_n + 1;
            }
        }
        i = i + 1;
    }
    assert(lrecs.take(i as int) =~= lrecs);
    let ghost mid = Files { data: contents(*data_pm), index: contents(*index_pm) };
    let mut undo_n: usize = 0;
    let n: usize = live.len();
    let mut j: usize = n;
    assert(lrecs.take(j as int) =~= lrecs);
    while j > 0
        invariant
            picks(live@, records@, lrecs),
            j <= n,
            n == live@.len(),
            ctx == txs@,
            data_pm.wf(),
            index_pm.wf(),
            data_pm.count() == old(data_pm).count(),
            index_pm.count() == old(index_pm).count(),
            undo(
                lrecs.take(j as int),
                ctx,
                Files { data: contents(*data_pm), index: contents(*index_pm) },
            ) == undo(lrecs, ctx, mid),
            undo_count(lrecs.take(j as int), ctx) + undo_n == undo_count(lrecs, ctx),
            undo_n + j <= n,
        decreases j,
    {
        proof {
            assert(lrecs.take(j as int).drop_last() =~= lrecs.take(j - 1));
            assert(lrecs.take(j as int).last() == lrecs[j - 1]);
        }
        j = j - 1;
        let record: &WalRecord = &records[live[j]];
        assert(record.model() == lrecs[j as int]);
        if is_page_write(record) && !txs.contains(&record.tx_id) {
            apply_image(record, PAGE_SIZE, data_pm, index_pm);
            undo_n = undo_n + 1;
        }
    }
    Ok(
        RecoveryResult {
            redo_count: redo_n,
            undo_count: undo_n,
            committed_txs: txs.len(),
            records_processed: live.len(),
            skipped_duplicate: skip_n,
        },
    )
}

fn is_page_write(rec: &WalRecord) -> (r: bool)
    ensures
        r == (rec.op_type == WalOpType::PageWrite),
{
    match rec.op_type {
        WalOpType::PageWrite => true,
        _ => false,
    }
}

fn last_checkpoint(records: &[WalRecord]) -> (r: u64)
    ensures
        r == checkpoint_lsn(records_of(records@)),
{
    let ghost all = records_of(records@);
    let mut lsn: u64 = 0;
    let mut i: usize = 0;
    assert(all.take(0) =~= Seq::<RecordM>::empty());
    while i < records.len()
        invariant
            all == records_of(records@),
            i <= records@.len(),
            lsn == checkpoint_lsn(all.take(i as int)),
        decreases records@.len() - i,
    {
        proof {
            assert(all.take(i + 1).drop_last() =~= all.take(i as int));
            assert(all.take(i + 1).last() == all[i as int]);
        }
        match records[i].op_type {
            WalOpType::Checkpoint => {
                if records[i].lsn > lsn {
                    lsn = records[i].lsn;
                }
            },
            _ => {},
        }
        i = i + 1;
    }
    assert(all.take(i as int) =~= all);
    lsn
}

/// `live` lists where the records `lrecs` stand among `records`.
spec fn picks(live: Seq<usize>, records: Seq<WalRecord>, lrecs: Seq<RecordM>) -> bool {
    &&& live.len() == lrecs.len()
    &&& forall|i: int|
        0 <= i < live.len() ==> (#[trigger] live[i]) < records.len() && records[live[i] as int].model()
            == lrecs[i]
}

fn active_records(records: &[WalRecord], from: u64) -> (r: Vec<usize>)
    ensures
        picks(r@, records@, active(records_of(records@), from)),
{
    let ghost all = records_of(records@);
    let mut live: Vec<usize> = Vec::new();
    let mut i: usize = 0;
    assert(all.take(0) =~= Seq::<RecordM>::empty());
    while i < records.len()
        invariant
            all == records_of(records@),
            i <= records@.len(),
            picks(live@, records@, active(all.take(i as int), from)),
        decreases records@.len() - i,
    {
        proof {
            assert(all.take(i + 1).drop_last() =~= all.take(i as int));
            assert(all.take(i + 1).last() == all[i as int]);
        }
        if records[i].lsn > from {
            live.push(i);
        }
        i = i + 1;
    }
    assert(all.take(i as int) =~= all);
    live
}

fn committed_txs(records: &[WalRecord], live: &Vec<usize>) -> (r: HashSet<u64>)
    requires
        exists|lrecs: Seq<RecordM>| picks(live@, records@, lrecs),
    ensures
        forall|lrecs: Seq<RecordM>|
            #[trigger] picks(live@, records@, lrecs) ==> r@ == committed(lrecs),
{
    broadcast use vstd::std_specs::hash::group_hash_axioms;

    let ghost lrecs = choose|lrecs: Seq<RecordM>| picks(live@, records@, lrecs);
    let mut txs: HashSet<u64> = HashSet::new();
    let mut i: usize = 0;
    assert(lrecs.take(0) =~= Seq::<RecordM>::empty());
    while i < live.len()
        invariant
            picks(live@, records@, lrecs),
            i <= live@.len(),
            txs@ == committed(lrecs.take(i as int)),
        decreases live@.len() - i,
    {
        proof {
            assert(lrecs.take(i + 1).drop_last() =~= lrecs.take(i as int));
            assert(lrecs.take(i + 1).last() == lrecs[i as int]);
        }
        let record: &WalRecord = &records[live[i]];
        assert(record.model() == lrecs[i as int]);
        match record.op_type {
            WalOpType::Commit => {
                txs.insert(record.tx_id);
            },
            _ => {},
        }
        i = i + 1;
    }
    proof {
        assert(lrecs.take(i as int) =~= lrecs);
        assert forall|other: Seq<RecordM>| #[trigger] picks(live@, records@, other) implies txs@
            == committed(other) by {
            assert(other =~= lrecs) by {
                assert forall|k: int| 0 <= k < other.len() implies other[k] == lrecs[k] by {
                    assert(live@[k] < records@.len());
                }
            }
        }
    }
    txs
}

/// Writes the page image at `off` of the record's data to the page that the
/// record names. A record without whole images, and a page that does not
/// exist, are passed over.
fn apply_image(
    record: &WalRecord,
    off: usize,
    data_pm: &mut PageManager,
    index_pm: &mut PageManager,
)
    requires
        off == 0 || off == 8192,
        old(data_pm).wf(),
        old(index_pm).wf(),
    ensures
        final(data_pm).wf(),
        final(index_pm).wf(),
        final(data_pm).count() == old(data_pm).count(),
        final(index_pm).count() == old(index_pm).count(),
        (Files { data: contents(*final(data_pm)), index: contents(*final(index_pm)) }) == ({
            let files = Files { data: contents(*old(data_pm)), index: contents(*old(index_pm)) };
            if whole(record.model()) {
                files.put(record.page_id, record.data@.subrange(off as int, off + 8192))
            } else {
                files
            }
        }),
{
    if record.data.len() < 16384 {
        return;
    }
    let mut page_buf: Page = [0u8;PAGE_SIZE];
    let image: &[u8] = slice_subrange(record.data.as_slice(), off, off + PAGE_SIZE);
    write_at(&mut page_buf, 0, image);
    assert(page_buf@ =~= record.data@.subrange(off as int, off + 8192));
    let ghost d0 = contents(*data_pm);
    let ghost x0 = contents(*index_pm);
    if record.page_id >= INDEX_PAGE_FLAG {
        let real_id: u32 = record.page_id - INDEX_PAGE_FLAG;
        if real_id < index_pm.num_pages() {
            let _ = index_pm.write_page(real_id, &page_buf);
            assert(contents(*index_pm) =~= x0.update(real_id as int, page_buf@));
        }
    } else {
        let real_id: u32 = record.page_id;
        if real_id < data_pm.num_pages() {
            let _ = data_pm.write_page(real_id, &page_buf);
            assert(contents(*data_pm) =~= d0.update(real_id as int, page_buf@));
        }
    }
}

// ── What counts ─────────────────────────────────────────────────────────

/// The last checkpoint is the largest LSN of a checkpoint record.
pub proof fn law_last_checkpoint(recs: Seq<RecordM>, i: int)
    ensures
        0 <= i < recs.len() && recs[i].op == WalOpType::Checkpoint ==> recs[i].lsn
            <= checkpoint_lsn(recs),
        checkpoint_lsn(recs) == 0 || exists|j: int|
            0 <= j < recs.len() && (#[trigger] recs[j]).op == WalOpType::Checkpoint && recs[j].lsn
                == checkpoint_lsn(recs),
    decreases recs.len(),
{
    if recs.len() > 0 {
        let f = recs.drop_last();
        law_last_checkpoint(f, i);
        assert(recs[recs.len() - 1] == recs.last());
        if checkpoint_lsn(f) != 0 {
            let j = choose|j: int|
                0 <= j < f.len() && (#[trigger] f[j]).op == WalOpType::Checkpoint && f[j].lsn
                    == checkpoint_lsn(f);
            assert(recs[j] == f[j]);
        }
        if 0 <= i < f.len() {
            assert(f[i] == recs[i]);
        }
    }
}

/// Recovery looks at exactly the records behind the last checkpoint, in their
/// order.
pub proof fn law_records_behind_the_checkpoint(recs: Seq<RecordM>, rec: RecordM)
    ensures
        active(recs, checkpoint_lsn(recs)).contains(rec) == (recs.contains(rec) && rec.lsn
            > checkpoint_lsn(recs)),
{
    lemma_active(recs, checkpoint_lsn(recs), rec);
}

proof fn lemma_active(recs: Seq<RecordM>, from: u64, rec: RecordM)
    ensures
        active(recs, from).contains(rec) == (recs.contains(rec) && rec.lsn > from),
    decreases recs.len(),
{
    if recs.len() > 0 {
        let f = recs.drop_last();
        let sub = active(f, from);
        let last = recs.last();
        lemma_active(f, from, rec);
        assert(recs[recs.len() - 1] == last);
        if f.contains(rec) {
            let i = choose|i: int| 0 <= i < f.len() && f[i] == rec;
            assert(recs[i] == rec);
        }
        if recs.contains(rec) && rec != last {
            let i = choose|i: int| 0 <= i < recs.len() && recs[i] == rec;
            assert(f[i] == rec);
        }
        let all = sub.push(last);
        assert(all[sub.len() as int] == last);
        if sub.contains(rec) {
            let i = choose|i: int| 0 <= i < sub.len() && sub[i] == rec;
            assert(all[i] == rec);
        }
        if all.contains(rec) && rec != last {
            let i = choose|i: int| 0 <= i < all.len() && all[i] == rec;
            assert(sub[i] == rec);
        }
    }
}

/// A transaction counts as committed exactly if there is a commit record of it.
pub proof fn law_committed_transactions(recs: Seq<RecordM>, tx: u64)
    ensures
        committed(recs).contains(tx) == exists|i: int|
            0 <= i < recs.len() && (#[trigger] recs[i]).op == WalOpType::Commit && recs[i].tx_id
                == tx,
    decreases recs.len(),
{
    if recs.len() > 0 {
        let f = recs.drop_last();
        law_committed_transactions(f, tx);
        assert(recs[recs.len() - 1] == recs.last());
        if committed(f).contains(tx) {
            let i = choose|i: int|
                0 <= i < f.len() && (#[trigger] f[i]).op == WalOpType::Commit && f[i].tx_id == tx;
            assert(recs[i] == f[i]);
        }
        if exists|i: int|
            0 <= i < recs.len() && (#[trigger] recs[i]).op == WalOpType::Commit && recs[i].tx_id
                == tx {
            let i = choose|i: int|
                0 <= i < recs.len() && (#[trigger] recs[i]).op == WalOpType::Commit
                    && recs[i].tx_id == tx;
            if i < f.len() {
                assert(f[i] == recs[i]);
            }
        }
    }
}

/// A page that no transaction wrote behind the last checkpoint is left alone.
pub proof fn law_unwritten_pages_stay(recs: Seq<RecordM>, files: Files, id: u32)
    requires
        files.has(id),
        forall|i: int|
            0 <= i < recs.len() && (#[trigger] recs[i]).op == WalOpType::PageWrite
                && recs[i].page_id == id ==> recs[i].lsn <= checkpoint_lsn(recs),
    ensures
        recovered(recs, false, files, Seq::empty()).has(id),
        recovered(recs, false, files, Seq::empty()).page(id) == files.page(id),
{
    let live = active(recs, checkpoint_lsn(recs));
    let txs = committed(live);
    let start = Redone { files, marks: Seq::empty(), applied: 0, skipped: 0 };
    assert forall|i: int| 0 <= i < live.len() implies !writes_to(#[trigger] live[i], id) by {
        assert(live.contains(live[i]));
        lemma_active(recs, checkpoint_lsn(recs), live[i]);
        let j = choose|j: int| 0 <= j < recs.len() && recs[j] == live[i];
        assert(recs[j].lsn > checkpoint_lsn(recs));
    }
    lemma_redo_page(live, txs, start, id, -1);
    lemma_undo_page(live, txs, redo(live, txs, false, start).files, id, live.len() as int);
    lemma_undo_has(live, txs, redo(live, txs, false, start).files, id);
}

/// A replay that tracks what was applied skips a committed page write that is
/// no later than what was applied from its origin, and applies one that is.
pub proof fn law_replay_skips_what_was_applied(
    recs: Seq<RecordM>,
    rec: RecordM,
    txs: Set<u64>,
    start: Redone,
)
    requires
        rec.op == WalOpType::PageWrite,
        txs.contains(rec.tx_id),
        whole(rec),
    ensures
        ({
            let before = redo(recs, txs, true, start);
            let after = redo(recs.push(rec), txs, true, start);
            if rec.hlc.0 <= counter(before.marks, rec.origin) {
                after.files == before.files && after.skipped == before.skipped + 1 && after.applied
                    == before.applied
            } else {
                after.files == before.files.put(rec.page_id, rec.data.subrange(0, 8192))
                    && after.skipped == before.skipped && after.applied == before.applied + 1
            }
        }),
{
    assert(recs.push(rec).drop_last() =~= recs);
}

/// Recovery counts the page writes of transactions that did not commit.
pub proof fn law_undone_writes_are_counted(recs: Seq<RecordM>, rec: RecordM, txs: Set<u64>)
    ensures
        undo_count(Seq::empty(), txs) == 0,
        undo_count(recs.push(rec), txs) == undo_count(recs, txs) + (if rec.op
            == WalOpType::PageWrite && !txs.contains(rec.tx_id) {
            1int
        } else {
            0
        }),
{
    assert(recs.push(rec).drop_last() =~= recs);
}

} // verus!
