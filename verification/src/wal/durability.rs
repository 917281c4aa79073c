//! Durability: what the log owes a data file, so that a crash loses nothing.
//!
//! Data pages reach the file when the buffer pool evicts or flushes them. Until
//! then the log holds them: the last committed write of every page that is not
//! in the file as the pool shows it.

use vstd::prelude::*;

use crate::buffer::pool::saved_kept;
use crate::collection::store::{before_image, only_page_changed, DataFile, PageWriteRecord};
use crate::page::manager::contents;
use crate::error::GrumpyError;
use crate::wal::hlc::Hlc;
use crate::wal::record::{
    lemma_wal_header, records_image, wal_header, RecordM, WalOpType, WAL_HEADER_SIZE,
    WAL_VERSION_CURRENT, WAL_VERSION_V2,
};
use crate::wal::recovery::{
    active, after_of, before_of, checkpoint_lsn, committed, lemma_redo_has, lemma_redo_page,
    lemma_undo_page, recovered, redo, undo, whole, writes_to, Files, Redone, INDEX_PAGE_FLAG,
};
use crate::wal::transaction::{later, transaction_image, transaction_logged, writes_image};
use crate::wal::writer::{
    law_appended_records_are_read, log_records, mark_record, opened_log, page_write_record,
    stored_version, WalWriter,
};

verus! {

/// The log holds these records and nothing else.
pub open spec fn log_holds(log: Seq<u8>, recs: Seq<RecordM>) -> bool {
    &&& log == wal_header(WAL_VERSION_CURRENT) + records_image(recs)
    &&& forall|i: int| 0 <= i < recs.len() ==> (#[trigger] recs[i]).intact()
}

/// What the last write to a page left there.
pub open spec fn last_image(recs: Seq<RecordM>, id: u32) -> Option<Seq<u8>>
    decreases recs.len(),
{
    if recs.len() == 0 {
        None
    } else if writes_to(recs.last(), id) {
        Some(after_of(recs.last()))
    } else {
        last_image(recs.drop_last(), id)
    }
}

/// A record of a page of the data file, or a commit.
pub open spec fn covering(rec: RecordM, d: DataFile, txs: Set<u64>) -> bool {
    &&& rec.lsn > 0
    &&& rec.op == WalOpType::Commit || (rec.op == WalOpType::PageWrite && whole(rec)
        && rec.page_id < INDEX_PAGE_FLAG && d.heap().data_page(rec.page_id) && txs.contains(
        rec.tx_id,
    ))
}

/// Every page of the data file is what the log last left there, or else in the
/// file. All writes belong to `txs`.
#[verifier::opaque]
pub open spec fn covered_by(recs: Seq<RecordM>, d: DataFile, txs: Set<u64>) -> bool {
    &&& forall|i: int| 0 <= i < recs.len() ==> covering(#[trigger] recs[i], d, txs)
    &&& forall|p: u32|
        p < d.pool.pm.count() ==> match #[trigger] last_image(recs, p) {
            Some(a) => a == d.pool.page(p as int),
            None => d.pool.saved(p as int),
        }
}

/// All records belong to transactions with numbers below `n`.
pub open spec fn numbered(recs: Seq<RecordM>, n: u64) -> bool {
    forall|i: int| 0 <= i < recs.len() ==> (#[trigger] recs[i]).tx_id < n
}

/// The log and the file together hold the data: what the pool shows of every
/// page is in the file, or in the log as the last committed write.
#[verifier::opaque]
pub open spec fn durable(w: WalWriter, d: DataFile) -> bool {
    &&& w.next_lsn >= 1
    &&& exists|recs: Seq<RecordM>| #[trigger]
        log_holds(w.log@, recs) && covered_by(recs, d, committed(recs)) && numbered(
            recs,
            w.next_tx_id,
        )
}

proof fn lemma_last_image(recs: Seq<RecordM>, id: u32) -> (k: int)
    ensures
        last_image(recs, id) is None ==> k == -1,
        last_image(recs, id) is Some ==> 0 <= k < recs.len() && writes_to(recs[k], id)
            && last_image(recs, id) == Some(after_of(recs[k])),
        forall|i: int| k < i < recs.len() ==> !writes_to(#[trigger] recs[i], id),
    decreases recs.len(),
{
    if recs.len() == 0 {
        -1
    } else if writes_to(recs.last(), id) {
        recs.len() - 1
    } else {
        let f = recs.drop_last();
        let k = lemma_last_image(f, id);
        assert forall|i: int| k < i < recs.len() implies !writes_to(#[trigger] recs[i], id) by {
            if i < f.len() {
                assert(f[i] == recs[i]);
            }
        }
        k
    }
}

/// Reading keeps what is covered.
proof fn lemma_read_covered(recs: Seq<RecordM>, a: DataFile, b: DataFile, txs: Set<u64>)
    requires
        covered_by(recs, a, txs),
        b.heap() == a.heap(),
        b.pool.pm.count() == a.pool.pm.count(),
        saved_kept(a.pool, b.pool, -1),
    ensures
        covered_by(recs, b, txs),
{
    reveal(covered_by);
    assert forall|i: int| 0 <= i < recs.len() implies covering(#[trigger] recs[i], b, txs) by {
        assert(covering(recs[i], a, txs));
    }
    assert forall|p: u32| p < b.pool.pm.count() implies match #[trigger] last_image(recs, p) {
        Some(x) => x == b.pool.page(p as int),
        None => b.pool.saved(p as int),
    } by {
        assert(a.heap().pages[p as int] == a.pool.page(p as int));
        assert(b.heap().pages[p as int] == b.pool.page(p as int));
    }
}

/// A change of one page is covered once its record is in the log.
proof fn lemma_write_covered(
    recs: Seq<RecordM>,
    rec: RecordM,
    a: DataFile,
    b: DataFile,
    x: u32,
    txs: Set<u64>,
)
    requires
        covered_by(recs, a, txs),
        only_page_changed(a, b, x),
        b.heap().data_page(x),
        x < INDEX_PAGE_FLAG,
        rec.lsn > 0,
        writes_to(rec, x),
        txs.contains(rec.tx_id),
        after_of(rec) == b.heap().pages[x as int],
    ensures
        covered_by(recs.push(rec), b, txs),
{
    reveal(covered_by);
    let all = recs.push(rec);
    assert(all.drop_last() =~= recs);
    assert forall|i: int| 0 <= i < all.len() implies covering(#[trigger] all[i], b, txs) by {
        if i < recs.len() {
            assert(covering(recs[i], a, txs));
            assert(all[i] == recs[i]);
        }
    }
    assert forall|p: u32| p < b.pool.pm.count() implies match #[trigger] last_image(all, p) {
        Some(y) => y == b.pool.page(p as int),
        None => b.pool.saved(p as int),
    } by {
        assert(b.heap().pages[p as int] == b.pool.page(p as int));
        if p != x {
            assert(last_image(all, p) == last_image(recs, p));
            let k = lemma_last_image(recs, p);
            if last_image(recs, p) is Some {
                assert(covering(recs[k], a, txs));
                assert(a.heap().data_page(p));
                assert(a.heap().pages[p as int] == a.pool.page(p as int));
            } else {
                assert(p < a.pool.pm.count() ==> a.pool.saved(p as int));
                assert(b.pool.saved(p as int));
            }
        }
    }
}

/// More transactions cover as well.
proof fn lemma_more_txs(recs: Seq<RecordM>, d: DataFile, a: Set<u64>, b: Set<u64>)
    requires
        covered_by(recs, d, a),
        a.subset_of(b),
    ensures
        covered_by(recs, d, b),
{
    reveal(covered_by);
    assert forall|i: int| 0 <= i < recs.len() implies covering(#[trigger] recs[i], d, b) by {
        assert(covering(recs[i], d, a));
    }
}

/// A commit leaves the pages alone.
proof fn lemma_commit_covered(recs: Seq<RecordM>, rec: RecordM, d: DataFile, txs: Set<u64>)
    requires
        covered_by(recs, d, txs),
        rec.op == WalOpType::Commit,
        rec.lsn > 0,
    ensures
        covered_by(recs.push(rec), d, txs),
        committed(recs.push(rec)) == committed(recs).insert(rec.tx_id),
{
    reveal(covered_by);
    let all = recs.push(rec);
    assert(all.drop_last() =~= recs);
    assert forall|i: int| 0 <= i < all.len() implies covering(#[trigger] all[i], d, txs) by {
        if i < recs.len() {
            assert(covering(recs[i], d, txs));
            assert(all[i] == recs[i]);
        }
    }
    assert forall|p: u32| p < d.pool.pm.count() implies match #[trigger] last_image(all, p) {
        Some(y) => y == d.pool.page(p as int),
        None => d.pool.saved(p as int),
    } by {
        assert(last_image(all, p) == last_image(recs, p));
    }
}

/// The bytes of one more record come last.
proof fn lemma_image_push(recs: Seq<RecordM>, rec: RecordM)
    ensures
        records_image(recs.push(rec)) == records_image(recs) + rec.image(),
    decreases recs.len(),
{
    let all = recs.push(rec);
    if recs.len() == 0 {
        assert(all.skip(1) =~= Seq::<RecordM>::empty());
        assert(records_image(all.skip(1)) =~= Seq::<u8>::empty());
        assert(records_image(all) =~= records_image(recs) + rec.image());
    } else {
        lemma_image_push(recs.skip(1), rec);
        assert(all.skip(1) =~= recs.skip(1).push(rec));
        assert(records_image(all) =~= records_image(recs) + rec.image());
    }
}

proof fn lemma_log_push(log: Seq<u8>, recs: Seq<RecordM>, rec: RecordM)
    requires
        log_holds(log, recs),
        rec.intact(),
    ensures
        log_holds(log + rec.image(), recs.push(rec)),
{
    lemma_image_push(recs, rec);
    assert(log + rec.image() =~= wal_header(WAL_VERSION_CURRENT) + (records_image(recs)
        + rec.image()));
}

/// The records that the writer makes can be read back.
proof fn lemma_writer_records(
    w: WalWriter,
    tx_id: u64,
    page_id: u32,
    before: Seq<u8>,
    after: Seq<u8>,
    h: Hlc,
)
    requires
        before.len() == 8192,
        after.len() == 8192,
    ensures
        page_write_record(w, tx_id, page_id, before, after, h).intact(),
        writes_to(page_write_record(w, tx_id, page_id, before, after, h), page_id),
        after_of(page_write_record(w, tx_id, page_id, before, after, h)) == after,
        mark_record(w, tx_id, WalOpType::Commit, h).intact(),
{
    assert((after + before).subrange(0, 8192) =~= after);
    let c = seq![(w.node_id, h.0)];
    assert(crate::wal::vclock::nodes_sorted(c));
}

/// The log without records.
proof fn lemma_empty_covers(d: DataFile)
    requires
        forall|i: int| 0 <= i < d.pool.pm.count() ==> #[trigger] d.pool.saved(i),
    ensures
        covered_by(Seq::empty(), d, committed(Seq::empty())),
        log_holds(wal_header(WAL_VERSION_CURRENT), Seq::empty()),
{
    reveal(covered_by);
    assert(wal_header(WAL_VERSION_CURRENT) + records_image(Seq::empty()) =~= wal_header(
        WAL_VERSION_CURRENT,
    ));
}

/// After a checkpoint everything is in the file.
pub proof fn lemma_checkpoint_durable(w: WalWriter, d: DataFile)
    requires
        w.log@ == wal_header(WAL_VERSION_CURRENT),
        w.next_lsn >= 1,
        contents(d.pool.pm) == d.heap().pages,
    ensures
        durable(w, d),
{
    reveal(durable);
    assert forall|i: int| 0 <= i < d.pool.pm.count() implies #[trigger] d.pool.saved(i) by {
        assert(contents(d.pool.pm)[i] == d.heap().pages[i]);
    }
    lemma_empty_covers(d);
    assert(log_holds(w.log@, Seq::empty()));
}

/// Reading keeps a file durable.
pub proof fn lemma_read_durable(v: WalWriter, w: WalWriter, a: DataFile, b: DataFile)
    requires
        durable(v, a),
        w.log@ == v.log@,
        w.next_lsn >= v.next_lsn,
        w.next_tx_id >= v.next_tx_id,
        b.heap() == a.heap(),
        b.pool.pm.count() == a.pool.pm.count(),
        saved_kept(a.pool, b.pool, -1),
    ensures
        durable(w, b),
{
    reveal(durable);
    let recs = choose|recs: Seq<RecordM>| #[trigger]
        log_holds(v.log@, recs) && covered_by(recs, a, committed(recs)) && numbered(
            recs,
            v.next_tx_id,
        );
    lemma_read_covered(recs, a, b, committed(recs));
    assert(log_holds(w.log@, recs));
}

/// A change is durable once its page write and its commit are in the log.
pub proof fn lemma_change_durable(
    v: WalWriter,
    w: WalWriter,
    a: DataFile,
    b: DataFile,
    tx_id: u64,
    prs: Seq<PageWriteRecord>,
    commit: Hlc,
)
    requires
        durable(v, a),
        prs.len() == 1,
        tx_id < v.next_tx_id,
        transaction_logged(v, w, tx_id, prs, commit),
        only_page_changed(a, b, prs[0].page_id),
        b.heap().data_page(prs[0].page_id),
        prs[0].page_id < INDEX_PAGE_FLAG,
        prs[0].after@ == b.heap().pages[prs[0].page_id as int],
    ensures
        durable(w, b),
{
    reveal(durable);
    let recs = choose|recs: Seq<RecordM>| #[trigger]
        log_holds(v.log@, recs) && covered_by(recs, a, committed(recs)) && numbered(
            recs,
            v.next_tx_id,
        );
    let stamps = choose|stamps: Seq<Hlc>|
        stamps.len() == prs.len() && w.log@ == v.log@ + #[trigger] transaction_image(
            v,
            tx_id,
            prs,
            stamps,
            commit,
        );
    let p = prs[0];
    let pw = page_write_record(later(v, 0), tx_id, p.page_id, p.before@, p.after@, stamps[0]);
    let mark = mark_record(later(v, 1), tx_id, WalOpType::Commit, commit);
    lemma_writer_records(later(v, 0), tx_id, p.page_id, p.before@, p.after@, stamps[0]);
    lemma_writer_records(later(v, 1), tx_id, p.page_id, p.before@, p.after@, commit);
    reveal_with_fuel(writes_image, 2);
    assert(writes_image(v, tx_id, prs.drop_last(), stamps) =~= Seq::<u8>::empty());
    assert(writes_image(v, tx_id, prs, stamps) =~= pw.image());
    assert(w.log@ =~= v.log@ + pw.image() + mark.image());
    lemma_log_push(v.log@, recs, pw);
    lemma_log_push(v.log@ + pw.image(), recs.push(pw), mark);
    let txs = committed(recs).insert(tx_id);
    assert(recs.push(pw).drop_last() =~= recs);
    assert(committed(recs.push(pw)) == committed(recs));
    lemma_more_txs(recs, a, committed(recs), txs);
    lemma_write_covered(recs, pw, a, b, p.page_id, txs);
    lemma_commit_covered(recs.push(pw), mark, b, txs);
    assert(log_holds(w.log@, recs.push(pw).push(mark)));
}

/// Without checkpoints all records count.
proof fn lemma_all_active(recs: Seq<RecordM>)
    requires
        forall|i: int|
            0 <= i < recs.len() ==> (#[trigger] recs[i]).lsn > 0 && recs[i].op
                != WalOpType::Checkpoint,
    ensures
        checkpoint_lsn(recs) == 0,
        active(recs, 0) == recs,
    decreases recs.len(),
{
    if recs.len() > 0 {
        let f = recs.drop_last();
        assert forall|i: int| 0 <= i < f.len() implies (#[trigger] f[i]).lsn > 0 && f[i].op
            != WalOpType::Checkpoint by {
            assert(f[i] == recs[i]);
        }
        lemma_all_active(f);
        assert(recs[recs.len() - 1] == recs.last());
        assert(f.push(recs.last()) =~= recs);
    }
}

/// A crash loses nothing: recovery from the log gives, of a durable data file,
/// the pages as they were in memory, and leaves the index alone.
pub proof fn law_recovery_restores_pages(w: WalWriter, d: DataFile, index: Seq<Seq<u8>>)
    requires
        durable(w, d),
        d.pool.pm.count() <= INDEX_PAGE_FLAG,
    ensures
        recovered(
            log_records(w.log@),
            false,
            Files { data: contents(d.pool.pm), index },
            Seq::empty(),
        ) == (Files { data: d.heap().pages, index }),
{
    reveal(durable);
    reveal(covered_by);
    let recs = choose|recs: Seq<RecordM>| #[trigger]
        log_holds(w.log@, recs) && covered_by(recs, d, committed(recs)) && numbered(
            recs,
            w.next_tx_id,
        );
    let files = Files { data: contents(d.pool.pm), index };
    let txs = committed(recs);
    let some = mark_record(w, 0, WalOpType::Commit, Hlc(0));
    lemma_writer_records(
        w,
        0,
        0,
        crate::bytes::zeros(8192),
        crate::bytes::zeros(8192),
        Hlc(0),
    );
    law_appended_records_are_read(WAL_VERSION_CURRENT, recs, some);
    assert forall|i: int| 0 <= i < recs.len() implies (#[trigger] recs[i]).lsn > 0 && recs[i].op
        != WalOpType::Checkpoint by {
        assert(covering(recs[i], d, txs));
    }
    lemma_all_active(recs);
    let start = Redone { files, marks: Seq::empty(), applied: 0, skipped: 0 };
    let mid = redo(recs, txs, false, start).files;
    let end = undo(recs, txs, mid);
    assert(end == recovered(log_records(w.log@), false, files, Seq::empty()));
    assert forall|i: int| 0 <= i < recs.len() implies txs.contains((#[trigger] recs[i]).tx_id)
        || recs[i].op != WalOpType::PageWrite by {
        assert(covering(recs[i], d, txs));
    }
    lemma_sizes(recs, txs, start);
    assert forall|p: int| 0 <= p < files.data.len() implies end.data[p] == d.heap().pages[p] by {
        let id = p as u32;
        assert(files.has(id));
        let k = lemma_last_image(recs, id);
        if k >= 0 {
            assert(covering(recs[k], d, txs));
        }
        lemma_redo_page(recs, txs, start, id, k);
        lemma_undo_page(recs, txs, mid, id, recs.len() as int);
        assert(end.page(id) == end.data[p]);
        assert(files.page(id) == contents(d.pool.pm)[p]);
        assert(d.heap().pages[p] == d.pool.page(p));
    }
    assert forall|p: int| 0 <= p < index.len() implies end.index[p] == index[p] by {
        if p < INDEX_PAGE_FLAG {
            let id = (p + INDEX_PAGE_FLAG) as u32;
            assert(files.has(id));
            assert forall|i: int| 0 <= i < recs.len() implies !writes_to(#[trigger] recs[i], id) by {
                assert(covering(recs[i], d, txs));
            }
            lemma_redo_page(recs, txs, start, id, -1);
            lemma_undo_page(recs, txs, mid, id, recs.len() as int);
            assert(end.page(id) == end.index[p]);
        } else {
            lemma_past_flag(recs, txs, start, p);
        }
    }
    assert(end.data =~= d.heap().pages);
    assert(end.index =~= index);
}

/// The committed transactions are those of records.
proof fn lemma_committed_numbered(recs: Seq<RecordM>, n: u64, t: u64)
    requires
        numbered(recs, n),
        committed(recs).contains(t),
    ensures
        t < n,
    decreases recs.len(),
{
    if recs.len() > 0 {
        let f = recs.drop_last();
        assert(numbered(f, n)) by {
            assert forall|i: int| 0 <= i < f.len() implies (#[trigger] f[i]).tx_id < n by {
                assert(f[i] == recs[i]);
            }
        }
        assert(recs[recs.len() - 1] == recs.last());
        if committed(f).contains(t) {
            lemma_committed_numbered(f, n, t);
        }
    }
}

/// Recovery of a log that ends with a page write without its commit.
pub open spec fn torn(recs: Seq<RecordM>, pw: RecordM, b: DataFile, index: Seq<Seq<u8>>) -> Files {
    let all = recs.push(pw);
    let files = Files { data: contents(b.pool.pm), index };
    let start = Redone { files, marks: Seq::empty(), applied: 0, skipped: 0 };
    undo(all, committed(recs), redo(all, committed(recs), false, start).files)
}

/// A page write without its commit, after records that cover a data file.
pub open spec fn tears(recs: Seq<RecordM>, pw: RecordM, a: DataFile, b: DataFile) -> bool {
    &&& covered_by(recs, a, committed(recs))
    &&& only_page_changed(a, b, pw.page_id)
    &&& writes_to(pw, pw.page_id)
    &&& pw.page_id < INDEX_PAGE_FLAG
    &&& !committed(recs).contains(pw.tx_id)
    &&& b.pool.pm.count() <= INDEX_PAGE_FLAG
}

proof fn lemma_torn_page(
    recs: Seq<RecordM>,
    pw: RecordM,
    a: DataFile,
    b: DataFile,
    index: Seq<Seq<u8>>,
    p: int,
)
    requires
        tears(recs, pw, a, b),
        0 <= p < b.pool.pm.count(),
    ensures
        torn(recs, pw, b, index).data[p] == (if p == pw.page_id {
            before_of(pw)
        } else {
            b.heap().pages[p]
        }),
{
    reveal(covered_by);
    let all = recs.push(pw);
    let txs = committed(recs);
    let files = Files { data: contents(b.pool.pm), index };
    let start = Redone { files, marks: Seq::empty(), applied: 0, skipped: 0 };
    let mid = redo(all, txs, false, start).files;
    let id = p as u32;
    assert(files.has(id));
    lemma_redo_has(all, txs, start, id);
    lemma_sizes(all, txs, start);
    let end = undo(all, txs, mid);
    assert forall|i: int|
        0 <= i < recs.len() && !txs.contains((#[trigger] all[i]).tx_id) implies !writes_to(
        all[i],
        id,
    ) by {
        assert(covering(recs[i], a, txs));
        assert(all[i] == recs[i]);
    }
    assert(all[recs.len() as int] == pw);
    if p == pw.page_id {
        lemma_undo_page(all, txs, mid, id, recs.len() as int);
    } else {
        let k = lemma_last_image(recs, id);
        if k >= 0 {
            assert(covering(recs[k], a, txs));
            assert(all[k] == recs[k]);
        }
        assert forall|i: int|
            k < i < all.len() && txs.contains((#[trigger] all[i]).tx_id) implies !writes_to(
            all[i],
            id,
        ) by {
            if i < recs.len() {
                assert(all[i] == recs[i]);
            }
        }
        lemma_redo_page(all, txs, start, id, k);
        lemma_undo_page(all, txs, mid, id, all.len() as int);
        assert(b.heap().pages[p] == b.pool.page(p));
        if k >= 0 {
            assert(a.heap().data_page(id));
            assert(a.heap().pages[p] == a.pool.page(p));
        } else {
            assert(p < a.pool.pm.count() ==> last_image(recs, id) is None && a.pool.saved(p));
            assert(b.pool.saved(p));
        }
    }
    assert(end.page(id) == end.data[p]);
    assert(files.page(id) == contents(b.pool.pm)[p]);
}

proof fn lemma_torn_index(
    recs: Seq<RecordM>,
    pw: RecordM,
    a: DataFile,
    b: DataFile,
    index: Seq<Seq<u8>>,
    p: int,
)
    requires
        tears(recs, pw, a, b),
        0 <= p < index.len(),
    ensures
        torn(recs, pw, b, index).index[p] == index[p],
{
    reveal(covered_by);
    let all = recs.push(pw);
    let txs = committed(recs);
    let files = Files { data: contents(b.pool.pm), index };
    let start = Redone { files, marks: Seq::empty(), applied: 0, skipped: 0 };
    let mid = redo(all, txs, false, start).files;
    if p < INDEX_PAGE_FLAG {
        let id = (p + INDEX_PAGE_FLAG) as u32;
        assert(files.has(id));
        assert forall|i: int| 0 <= i < all.len() implies !writes_to(#[trigger] all[i], id) by {
            if i < recs.len() {
                assert(covering(recs[i], a, txs));
                assert(all[i] == recs[i]);
            }
        }
        lemma_redo_page(all, txs, start, id, -1);
        lemma_undo_page(all, txs, mid, id, all.len() as int);
        let end = undo(all, txs, mid);
        assert(end.page(id) == end.index[p]);
    } else {
        lemma_past_flag(all, txs, start, p);
    }
}

proof fn lemma_torn(
    recs: Seq<RecordM>,
    pw: RecordM,
    a: DataFile,
    b: DataFile,
    index: Seq<Seq<u8>>,
)
    requires
        tears(recs, pw, a, b),
        pw.lsn > 0,
        pw.intact(),
        forall|i: int| 0 <= i < recs.len() ==> (#[trigger] recs[i]).intact(),
    ensures
        recovered(
            log_records(wal_header(WAL_VERSION_CURRENT) + records_image(recs.push(pw))),
            false,
            Files { data: contents(b.pool.pm), index },
            Seq::empty(),
        ) == torn(recs, pw, b, index),
{
    reveal(covered_by);
    let all = recs.push(pw);
    assert(all.drop_last() =~= recs);
    assert(committed(all) == committed(recs));
    assert forall|i: int| 0 <= i < all.len() implies (#[trigger] all[i]).intact() by {
        if i < recs.len() {
            assert(all[i] == recs[i]);
        }
    }
    law_appended_records_are_read(WAL_VERSION_CURRENT, all, pw);
    assert forall|i: int| 0 <= i < all.len() implies (#[trigger] all[i]).lsn > 0 && all[i].op
        != WalOpType::Checkpoint by {
        if i < recs.len() {
            assert(covering(recs[i], a, committed(recs)));
            assert(all[i] == recs[i]);
        }
    }
    lemma_all_active(all);
}

/// A crash in the middle of a write leaves nothing of it: where the log ends
/// before the commit record, recovery gives of the changed page what it was
/// before, and every other page as it was in memory. So all data pages are as
/// they were before the write.
pub proof fn law_torn_write_is_undone(
    w: WalWriter,
    a: DataFile,
    b: DataFile,
    rec: PageWriteRecord,
    stamp: Hlc,
    log: Seq<u8>,
    index: Seq<Seq<u8>>,
)
    requires
        durable(w, a),
        only_page_changed(a, b, rec.page_id),
        b.heap().data_page(rec.page_id),
        rec.before@ == before_image(a.heap(), rec.page_id),
        log == w.log@ + writes_image(w, w.next_tx_id, seq![rec], seq![stamp]),
        b.pool.pm.count() <= INDEX_PAGE_FLAG,
    ensures
        ({
            let end = recovered(
                log_records(log),
                false,
                Files { data: contents(b.pool.pm), index },
                Seq::empty(),
            );
            &&& end == (Files {
                data: b.heap().pages.update(rec.page_id as int, rec.before@),
                index,
            })
            &&& forall|p: u32| #[trigger]
                a.heap().data_page(p) ==> end.data[p as int] == a.heap().pages[p as int]
        }),
{
    reveal(durable);
    let recs = choose|recs: Seq<RecordM>| #[trigger]
        log_holds(w.log@, recs) && covered_by(recs, a, committed(recs)) && numbered(
            recs,
            w.next_tx_id,
        );
    let x = rec.page_id;
    let tx = w.next_tx_id;
    let pw = page_write_record(later(w, 0), tx, x, rec.before@, rec.after@, stamp);
    lemma_writer_records(later(w, 0), tx, x, rec.before@, rec.after@, stamp);
    assert((rec.after@ + rec.before@).subrange(8192, 16384) =~= rec.before@);
    let one = seq![rec];
    reveal_with_fuel(writes_image, 2);
    assert(writes_image(w, tx, one.drop_last(), seq![stamp]) =~= Seq::<u8>::empty());
    assert(writes_image(w, tx, one, seq![stamp]) =~= pw.image());
    lemma_log_push(w.log@, recs, pw);
    if committed(recs).contains(tx) {
        lemma_committed_numbered(recs, tx, tx);
    }
    assert(tears(recs, pw, a, b));
    lemma_torn(recs, pw, a, b, index);
    let end = torn(recs, pw, b, index);
    let start = Redone {
        files: Files { data: contents(b.pool.pm), index },
        marks: Seq::empty(),
        applied: 0,
        skipped: 0,
    };
    lemma_sizes(recs.push(pw), committed(recs), start);
    let want = b.heap().pages.update(x as int, rec.before@);
    assert forall|p: int| 0 <= p < want.len() implies end.data[p] == want[p] by {
        lemma_torn_page(recs, pw, a, b, index, p);
    }
    assert forall|p: int| 0 <= p < index.len() implies end.index[p] == index[p] by {
        lemma_torn_index(recs, pw, a, b, index, p);
    }
    assert(end.data =~= want);
    assert(end.index =~= index);
}

/// A durable log is opened as it is.
pub proof fn lemma_own_log(w: WalWriter, d: DataFile)
    requires
        durable(w, d),
    ensures
        w.log@.len() > 0,
        stored_version(w.log@) == Ok::<u16, GrumpyError>(WAL_VERSION_V2),
        opened_log(w.log@) == w.log@,
{
    reveal(durable);
    let recs = choose|recs: Seq<RecordM>| #[trigger]
        log_holds(w.log@, recs) && covered_by(recs, d, committed(recs)) && numbered(
            recs,
            w.next_tx_id,
        );
    crate::wal::writer::law_empty_log();
    lemma_wal_header(WAL_VERSION_CURRENT);
    let h = wal_header(WAL_VERSION_CURRENT);
    lemma_header_first(h, records_image(recs));
}

/// What stands behind a header does not change what the header says.
proof fn lemma_header_first(h: Seq<u8>, a: Seq<u8>)
    requires
        h.len() == WAL_HEADER_SIZE,
        stored_version(h) == Ok::<u16, GrumpyError>(WAL_VERSION_V2),
    ensures
        stored_version(h + a) == Ok::<u16, GrumpyError>(WAL_VERSION_V2),
{
    assert((h + a).subrange(0, 8) =~= h.subrange(0, 8));
    assert((h + a).subrange(8, 10) =~= h.subrange(8, 10));
}

/// Recovery keeps the sizes of the files.
proof fn lemma_sizes(recs: Seq<RecordM>, txs: Set<u64>, start: Redone)
    ensures
        redo(recs, txs, false, start).files.data.len() == start.files.data.len(),
        redo(recs, txs, false, start).files.index.len() == start.files.index.len(),
        undo(recs, txs, redo(recs, txs, false, start).files).data.len()
            == start.files.data.len(),
        undo(recs, txs, redo(recs, txs, false, start).files).index.len()
            == start.files.index.len(),
{
    lemma_redo_size(recs, txs, start);
    lemma_undo_size(recs, txs, redo(recs, txs, false, start).files);
}

proof fn lemma_redo_size(recs: Seq<RecordM>, txs: Set<u64>, start: Redone)
    ensures
        redo(recs, txs, false, start).files.data.len() == start.files.data.len(),
        redo(recs, txs, false, start).files.index.len() == start.files.index.len(),
        forall|p: int|
            INDEX_PAGE_FLAG <= p < start.files.index.len() ==> #[trigger] redo(
                recs,
                txs,
                false,
                start,
            ).files.index[p] == start.files.index[p],
    decreases recs.len(),
{
    if recs.len() > 0 {
        lemma_redo_size(recs.drop_last(), txs, start);
    }
}

proof fn lemma_undo_size(recs: Seq<RecordM>, txs: Set<u64>, files: Files)
    ensures
        undo(recs, txs, files).data.len() == files.data.len(),
        undo(recs, txs, files).index.len() == files.index.len(),
        forall|p: int|
            INDEX_PAGE_FLAG <= p < files.index.len() ==> #[trigger] undo(
                recs,
                txs,
                files,
            ).index[p] == files.index[p],
    decreases recs.len(),
{
    if recs.len() > 0 {
        lemma_undo_size(
            recs.drop_last(),
            txs,
            crate::wal::recovery::undo_step(files, recs.last(), txs),
        );
    }
}

/// Index pages past the flag cannot be named by a record.
proof fn lemma_past_flag(recs: Seq<RecordM>, txs: Set<u64>, start: Redone, p: int)
    requires
        INDEX_PAGE_FLAG <= p < start.files.index.len(),
    ensures
        undo(recs, txs, redo(recs, txs, false, start).files).index[p] == start.files.index[p],
{
    lemma_redo_size(recs, txs, start);
    lemma_undo_size(recs, txs, redo(recs, txs, false, start).files);
}

} // verus!
