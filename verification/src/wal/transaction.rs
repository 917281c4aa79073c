//! Transactions in the WAL: the page writes of one, then its commit.

use vstd::prelude::*;

use crate::collection::store::PageWriteRecord;
use crate::error::{GrumpyError, Result};
use crate::wal::hlc::{law_tick_advances, ticked, Hlc, HlcError};
use crate::wal::record::WalOpType;
use crate::wal::writer::{
    clock_moved, log_failed, mark_record, page_write_record, tick_failed, WalWriter,
};

verus! {

/// The writer after `n` more records.
pub open spec fn later(w: WalWriter, n: int) -> WalWriter {
    WalWriter { next_lsn: (w.next_lsn + n) as u64, ..w }
}

/// The bytes that logging page writes adds, with the HLCs that stamp them.
pub open spec fn writes_image(
    w: WalWriter,
    tx_id: u64,
    recs: Seq<PageWriteRecord>,
    stamps: Seq<Hlc>,
) -> Seq<u8>
    decreases recs.len(),
{
    if recs.len() == 0 {
        Seq::empty()
    } else {
        let n = recs.len() - 1;
        writes_image(w, tx_id, recs.drop_last(), stamps) + page_write_record(
            later(w, n),
            tx_id,
            recs.last().page_id,
            recs.last().before@,
            recs.last().after@,
            stamps[n],
        ).image()
    }
}

/// The bytes that logging a transaction adds.
pub open spec fn transaction_image(
    w: WalWriter,
    tx_id: u64,
    recs: Seq<PageWriteRecord>,
    stamps: Seq<Hlc>,
    commit: Hlc,
) -> Seq<u8> {
    writes_image(w, tx_id, recs, stamps) + mark_record(
        later(w, recs.len() as int),
        tx_id,
        WalOpType::Commit,
        commit,
    ).image()
}

/// The stamps do not matter past the page writes.
proof fn lemma_more_stamps(
    w: WalWriter,
    tx_id: u64,
    recs: Seq<PageWriteRecord>,
    stamps: Seq<Hlc>,
    h: Hlc,
)
    requires
        stamps.len() == recs.len(),
    ensures
        writes_image(w, tx_id, recs, stamps.push(h)) == writes_image(w, tx_id, recs, stamps),
{
    lemma_same_stamps(w, tx_id, recs, stamps, stamps.push(h));
}

proof fn lemma_same_stamps(
    w: WalWriter,
    tx_id: u64,
    recs: Seq<PageWriteRecord>,
    a: Seq<Hlc>,
    b: Seq<Hlc>,
)
    requires
        recs.len() <= a.len(),
        recs.len() <= b.len(),
        forall|i: int| 0 <= i < recs.len() ==> a[i] == b[i],
    ensures
        writes_image(w, tx_id, recs, a) == writes_image(w, tx_id, recs, b),
    decreases recs.len(),
{
    if recs.len() > 0 {
        lemma_same_stamps(w, tx_id, recs.drop_last(), a, b);
    }
}

/// What logging leaves as it was.
pub open spec fn same_writer(a: WalWriter, b: WalWriter) -> bool {
    &&& b.next_tx_id == a.next_tx_id
    &&& b.file_version == a.file_version
    &&& b.node_id == a.node_id
    &&& b.clock.max_skew_ms == a.clock.max_skew_ms
}

/// The transaction was logged in full.
pub open spec fn transaction_logged(
    a: WalWriter,
    b: WalWriter,
    tx_id: u64,
    recs: Seq<PageWriteRecord>,
    commit: Hlc,
) -> bool {
    &&& same_writer(a, b)
    &&& b.next_lsn == a.next_lsn + recs.len() + 1
    &&& b.clock.state == commit
    &&& commit.0 > a.clock.state.0
    &&& exists|stamps: Seq<Hlc>|
        stamps.len() == recs.len() && b.log@ == a.log@ + #[trigger] transaction_image(
            a,
            tx_id,
            recs,
            stamps,
            commit,
        )
}

/// Page writes were logged.
pub open spec fn writes_logged(
    a: WalWriter,
    b: WalWriter,
    tx_id: u64,
    recs: Seq<PageWriteRecord>,
) -> bool {
    &&& same_writer(a, b)
    &&& b.next_lsn == a.next_lsn + recs.len()
    &&& b.clock.state.0 >= a.clock.state.0
    &&& exists|stamps: Seq<Hlc>|
        stamps.len() == recs.len() && b.log@ == a.log@ + #[trigger] writes_image(
            a,
            tx_id,
            recs,
            stamps,
        )
}

/// The clock gave no time after the first of some records had been logged:
/// these stand in the log, and one LSN more is used up.
pub open spec fn writes_cut(
    a: WalWriter,
    b: WalWriter,
    tx_id: u64,
    recs: Seq<PageWriteRecord>,
    e: GrumpyError,
) -> bool {
    exists|mid: WalWriter, n: int|
        0 <= n <= recs.len() && #[trigger] writes_logged(a, mid, tx_id, recs.take(n))
            && log_failed(mid, b, e)
}

proof fn lemma_writes_cut(
    a: WalWriter,
    mid: WalWriter,
    b: WalWriter,
    tx_id: u64,
    recs: Seq<PageWriteRecord>,
    n: int,
    e: GrumpyError,
)
    requires
        0 <= n <= recs.len(),
        writes_logged(a, mid, tx_id, recs.take(n)),
        log_failed(mid, b, e),
    ensures
        writes_cut(a, b, tx_id, recs, e),
        tick_failed(b.clock.state, e),
        same_writer(a, b),
        a.next_lsn < b.next_lsn <= a.next_lsn + n + 1,
        b.clock.state.0 >= a.clock.state.0,
        a.log@.is_prefix_of(b.log@),
{
    let stamps = choose|stamps: Seq<Hlc>|
        stamps.len() == recs.take(n).len() && mid.log@ == a.log@ + #[trigger] writes_image(
            a,
            tx_id,
            recs.take(n),
            stamps,
        );
    lemma_longer(a.log@, writes_image(a, tx_id, recs.take(n), stamps));
}

proof fn lemma_longer(a: Seq<u8>, b: Seq<u8>)
    ensures
        a.is_prefix_of(a + b),
{
    assert(a =~= (a + b).subrange(0, a.len() as int));
}

/// Logging only adds to the log.
pub proof fn lemma_log_grows(
    a: WalWriter,
    b: WalWriter,
    tx_id: u64,
    recs: Seq<PageWriteRecord>,
    commit: Hlc,
)
    ensures
        writes_logged(a, b, tx_id, recs) ==> a.log@.is_prefix_of(b.log@),
        transaction_logged(a, b, tx_id, recs, commit) ==> a.log@.is_prefix_of(b.log@),
{
    if writes_logged(a, b, tx_id, recs) {
        let stamps = choose|stamps: Seq<Hlc>|
            stamps.len() == recs.len() && b.log@ == a.log@ + #[trigger] writes_image(
                a,
                tx_id,
                recs,
                stamps,
            );
        lemma_longer(a.log@, writes_image(a, tx_id, recs, stamps));
    }
    if transaction_logged(a, b, tx_id, recs, commit) {
        let stamps = choose|stamps: Seq<Hlc>|
            stamps.len() == recs.len() && b.log@ == a.log@ + #[trigger] transaction_image(
                a,
                tx_id,
                recs,
                stamps,
                commit,
            );
        lemma_longer(a.log@, transaction_image(a, tx_id, recs, stamps, commit));
    }
}

pub proof fn lemma_longer_still(a: Seq<u8>, b: Seq<u8>, c: Seq<u8>)
    requires
        a.is_prefix_of(b),
        b.is_prefix_of(c),
    ensures
        a.is_prefix_of(c),
{
    assert(a =~= c.subrange(0, a.len() as int)) by {
        assert forall|i: int| 0 <= i < a.len() implies a[i] == c.subrange(0, a.len() as int)[i] by {
            assert(a[i] == b.subrange(0, a.len() as int)[i]);
            assert(b[i] == c.subrange(0, b.len() as int)[i]);
        }
    }
}

/// Logs page writes of a transaction. Fails where the clock fails.
pub fn log_writes(wal: &mut WalWriter, tx_id: u64, recs: &Vec<PageWriteRecord>) -> (r: Result<()>)
    requires
        old(wal).next_lsn + recs@.len() < u64::MAX,
    ensures
        match r {
            Ok(_) => writes_logged(*old(wal), *final(wal), tx_id, recs@),
            Err(e) => {
                &&& writes_cut(*old(wal), *final(wal), tx_id, recs@, e)
                &&& tick_failed(final(wal).clock.state, e)
                &&& same_writer(*old(wal), *final(wal))
                &&& old(wal).next_lsn <= final(wal).next_lsn <= old(wal).next_lsn + recs@.len()
                &&& final(wal).clock.state.0 >= old(wal).clock.state.0
                &&& old(wal).log@.is_prefix_of(final(wal).log@)
            },
        },
{
    let ghost w0 = *wal;
    let ghost mut stamps: Seq<Hlc> = Seq::empty();
    let mut i: usize = 0;
    assert(recs@.take(0) =~= Seq::<PageWriteRecord>::empty());
    assert(wal.log@ =~= w0.log@ + writes_image(w0, tx_id, recs@.take(0), stamps));
    while i < recs.len()
        invariant
            w0 == *old(wal),
            i <= recs@.len(),
            w0.next_lsn + recs@.len() < u64::MAX,
            stamps.len() == i,
            same_writer(w0, *wal),
            wal.next_lsn == w0.next_lsn + i,
            wal.clock.state.0 >= w0.clock.state.0,
            wal.log@ == w0.log@ + writes_image(w0, tx_id, recs@.take(i as int), stamps),
        decreases recs@.len() - i,
    {
        let ghost before = *wal;
        match wal.log_page_write(
            tx_id,
            recs[i].page_id,
            recs[i].before.as_slice(),
            recs[i].after.as_slice(),
        ) {
            Ok((_, h)) => {
                proof {
                    lemma_clock_moved(before, *wal, h);
                    let t = recs@.take(i as int);
                    lemma_more_stamps(w0, tx_id, t, stamps, h);
                    assert(recs@.take(i + 1).drop_last() =~= t);
                    assert(recs@.take(i + 1).last() == recs@[i as int]);
                    let rec = page_write_record(
                        before,
                        tx_id,
                        recs@[i as int].page_id,
                        recs@[i as int].before@,
                        recs@[i as int].after@,
                        h,
                    );
                    assert(rec == page_write_record(
                        later(w0, i as int),
                        tx_id,
                        recs@[i as int].page_id,
                        recs@[i as int].before@,
                        recs@[i as int].after@,
                        h,
                    ));
                    stamps = stamps.push(h);
                    lemma_join(
                        w0.log@,
                        writes_image(w0, tx_id, t, stamps),
                        rec.image(),
                        wal.log@,
                    );
                }
            },
            Err(e) => {
                proof {
                    assert(writes_logged(w0, before, tx_id, recs@.take(i as int)));
                    lemma_writes_cut(w0, before, *wal, tx_id, recs@, i as int, e);
                }
                return Err(e);
            },
        }
        i = i + 1;
    }
    assert(recs@.take(i as int) =~= recs@);
    Ok(())
}

/// Logs the page writes of a transaction and its commit. Fails where the clock
/// fails.
pub fn log_transaction(wal: &mut WalWriter, tx_id: u64, recs: &Vec<PageWriteRecord>) -> (r: Result<
    Hlc,
>)
    requires
        old(wal).next_lsn + recs@.len() + 1 <= u64::MAX,
    ensures
        match r {
            Ok(h) => transaction_logged(*old(wal), *final(wal), tx_id, recs@, h),
            Err(e) => {
                &&& writes_cut(*old(wal), *final(wal), tx_id, recs@, e)
                &&& tick_failed(final(wal).clock.state, e)
                &&& same_writer(*old(wal), *final(wal))
                &&& old(wal).next_lsn <= final(wal).next_lsn <= old(wal).next_lsn + recs@.len()
                    + 1
                &&& final(wal).clock.state.0 >= old(wal).clock.state.0
                &&& old(wal).log@.is_prefix_of(final(wal).log@)
            },
        },
{
    let ghost w0 = *wal;
    match log_writes(wal, tx_id, recs) {
        Ok(_) => {},
        Err(e) => {
            return Err(e);
        },
    }
    let ghost w1 = *wal;
    let ghost stamps = choose|stamps: Seq<Hlc>|
        stamps.len() == recs@.len() && w1.log@ == w0.log@ + #[trigger] writes_image(
            w0,
            tx_id,
            recs@,
            stamps,
        );
    match wal.log_commit(tx_id) {
        Ok((_, h)) => {
            proof {
                lemma_clock_moved(w1, *wal, h);
                let m = mark_record(w1, tx_id, WalOpType::Commit, h);
                assert(m == mark_record(
                    later(w0, recs@.len() as int),
                    tx_id,
                    WalOpType::Commit,
                    h,
                ));
                lemma_join(w0.log@, writes_image(w0, tx_id, recs@, stamps), m.image(), wal.log@);
                assert(wal.log@ == w0.log@ + transaction_image(w0, tx_id, recs@, stamps, h));
            }
            Ok(h)
        },
        Err(e) => {
            proof {
                assert(recs@.take(recs@.len() as int) =~= recs@);
                lemma_writes_cut(w0, w1, *wal, tx_id, recs@, recs@.len() as int, e);
            }
            Err(e)
        },
    }
}

/// The clock moves forward.
pub proof fn lemma_clock_moved(a: WalWriter, b: WalWriter, h: Hlc)
    requires
        clock_moved(a, b, h),
    ensures
        h.0 > a.clock.state.0,
        b.clock.state == h,
{
    let wall = choose|wall: u64| #[trigger]
        ticked(a.clock.state, wall) == Ok::<Hlc, HlcError>(h);
    law_tick_advances(a.clock.state, wall);
}

/// Page writes that are logged in two steps are logged as if in one.
pub proof fn lemma_writes_join(
    w: WalWriter,
    tx_id: u64,
    a: Seq<PageWriteRecord>,
    b: Seq<PageWriteRecord>,
    s: Seq<Hlc>,
    t: Seq<Hlc>,
)
    requires
        s.len() == a.len(),
        t.len() == b.len(),
        w.next_lsn + a.len() + b.len() < u64::MAX,
    ensures
        writes_image(w, tx_id, a + b, s + t) == writes_image(w, tx_id, a, s) + writes_image(
            later(w, a.len() as int),
            tx_id,
            b,
            t,
        ),
    decreases b.len(),
{
    if b.len() == 0 {
        assert(a + b =~= a);
        assert(s + t =~= s);
        assert(writes_image(w, tx_id, a, s) + Seq::<u8>::empty() =~= writes_image(w, tx_id, a, s));
    } else {
        let n = b.len() - 1;
        let f = b.drop_last();
        let u = t.drop_last();
        lemma_writes_join(w, tx_id, a, f, s, u);
        assert((a + b).drop_last() =~= a + f);
        assert((a + b).last() == b.last());
        lemma_same_stamps(w, tx_id, a + f, s + t, s + u);
        lemma_same_stamps(later(w, a.len() as int), tx_id, f, t, u);
        assert((s + t)[a.len() + n] == t[n]);
        assert(later(later(w, a.len() as int), n as int) == later(w, a.len() + n));
        let last = page_write_record(
            later(w, a.len() + n),
            tx_id,
            b.last().page_id,
            b.last().before@,
            b.last().after@,
            t[n],
        ).image();
        lemma_regroup(
            writes_image(w, tx_id, a, s),
            writes_image(later(w, a.len() as int), tx_id, f, t),
            last,
        );
    }
}

proof fn lemma_regroup(a: Seq<u8>, b: Seq<u8>, c: Seq<u8>)
    ensures
        (a + b) + c == a + (b + c),
{
    assert((a + b) + c =~= a + (b + c));
}

/// A transaction that is logged in two steps is logged as if in one.
pub proof fn lemma_transaction_join(
    w0: WalWriter,
    w1: WalWriter,
    w2: WalWriter,
    tx_id: u64,
    a: Seq<PageWriteRecord>,
    b: Seq<PageWriteRecord>,
    commit: Hlc,
)
    requires
        writes_logged(w0, w1, tx_id, a),
        transaction_logged(w1, w2, tx_id, b, commit),
        w0.next_lsn + a.len() + b.len() + 1 < u64::MAX,
    ensures
        transaction_logged(w0, w2, tx_id, a + b, commit),
{
    let s = choose|s: Seq<Hlc>|
        s.len() == a.len() && w1.log@ == w0.log@ + #[trigger] writes_image(w0, tx_id, a, s);
    let t = choose|t: Seq<Hlc>|
        t.len() == b.len() && w2.log@ == w1.log@ + #[trigger] transaction_image(
            w1,
            tx_id,
            b,
            t,
            commit,
        );
    lemma_writes_join(w0, tx_id, a, b, s, t);
    let x = writes_image(w0, tx_id, a, s);
    let mid = later(w0, a.len() as int);
    let y = writes_image(mid, tx_id, b, t);
    lemma_writer_parts(w1, mid, tx_id, b, t, commit);
    let z = mark_record(later(mid, b.len() as int), tx_id, WalOpType::Commit, commit).image();
    assert(mark_record(later(mid, b.len() as int), tx_id, WalOpType::Commit, commit)
        == mark_record(later(w0, (a + b).len() as int), tx_id, WalOpType::Commit, commit));
    assert(w2.log@ == (w0.log@ + x) + (y + z));
    lemma_four(w0.log@, x, y, z);
    assert((s + t).len() == (a + b).len());
    assert(w2.log@ == w0.log@ + transaction_image(w0, tx_id, a + b, s + t, commit));
}

proof fn lemma_four(l: Seq<u8>, x: Seq<u8>, y: Seq<u8>, z: Seq<u8>)
    ensures
        (l + x) + (y + z) == l + ((x + y) + z),
{
    assert((l + x) + (y + z) =~= l + ((x + y) + z));
}

/// What is logged depends on the writer's numbers alone.
pub proof fn lemma_writer_parts(
    v: WalWriter,
    w: WalWriter,
    tx_id: u64,
    recs: Seq<PageWriteRecord>,
    stamps: Seq<Hlc>,
    commit: Hlc,
)
    requires
        v.next_lsn == w.next_lsn,
        v.node_id == w.node_id,
    ensures
        writes_image(v, tx_id, recs, stamps) == writes_image(w, tx_id, recs, stamps),
        transaction_image(v, tx_id, recs, stamps, commit) == transaction_image(
            w,
            tx_id,
            recs,
            stamps,
            commit,
        ),
    decreases recs.len(),
{
    if recs.len() > 0 {
        lemma_writer_parts(v, w, tx_id, recs.drop_last(), stamps, commit);
        let n = recs.len() - 1;
        assert(page_write_record(
            later(v, n),
            tx_id,
            recs.last().page_id,
            recs.last().before@,
            recs.last().after@,
            stamps[n],
        ) == page_write_record(
            later(w, n),
            tx_id,
            recs.last().page_id,
            recs.last().before@,
            recs.last().after@,
            stamps[n],
        ));
    }
    assert(mark_record(later(v, recs.len() as int), tx_id, WalOpType::Commit, commit)
        == mark_record(later(w, recs.len() as int), tx_id, WalOpType::Commit, commit));
}

proof fn lemma_join(a: Seq<u8>, b: Seq<u8>, c: Seq<u8>, d: Seq<u8>)
    requires
        d == (a + b) + c,
    ensures
        d == a + (b + c),
{
    assert(d =~= a + (b + c));
}

} // verus!
