//! How documents are packed into a data file that is filled in one go: each
//! goes on the current page where it fits there, or else on a new one.

use vstd::prelude::*;

use crate::collection::raws::RawDoc;
use crate::collection::store::{chained, placed, stored, DataFile};
use crate::collection::heap::Loc;
use crate::page::overflow::chunk_count;
use crate::page::slotted::{first_free, lemma_first_free, page_room};

verus! {

/// What a document takes of a data page: its slot entry, and itself or the
/// reference to its chain.
pub open spec fn slot_cost(raw: Seq<u8>) -> int {
    4 + if chained(raw) {
        9int
    } else {
        raw.len() as int
    }
}

/// The number of overflow pages of a document.
pub open spec fn chain_cost(raw: Seq<u8>) -> int {
    if chained(raw) {
        chunk_count(raw.len()) as int
    } else {
        0
    }
}

/// The number of data pages that documents take, and the room on the last.
pub open spec fn packing(rs: Seq<RawDoc>) -> (int, int)
    decreases rs.len(),
{
    if rs.len() == 0 {
        (1, 8160)
    } else {
        let (pages, room) = packing(rs.drop_last());
        let n = slot_cost(rs.last().1);
        if n <= room {
            (pages, room - n)
        } else {
            (pages + 1, 8160 - n)
        }
    }
}

/// The number of overflow pages of documents.
pub open spec fn chain_pages(rs: Seq<RawDoc>) -> int
    decreases rs.len(),
{
    if rs.len() == 0 {
        0
    } else {
        chain_pages(rs.drop_last()) + chain_cost(rs.last().1)
    }
}

/// What documents take of data pages.
pub open spec fn slot_bytes(rs: Seq<RawDoc>) -> int
    decreases rs.len(),
{
    if rs.len() == 0 {
        0
    } else {
        slot_bytes(rs.drop_last()) + slot_cost(rs.last().1)
    }
}

/// The file has as many pages as its documents take, packed one after the
/// other: the free-list page, the data pages and the chains. None is free.
pub open spec fn defragmented(d: DataFile, rs: Seq<RawDoc>) -> bool {
    &&& d.pool.pm.count() == 1 + packing(rs).0 + chain_pages(rs)
    &&& forall|x: int| !(#[trigger] d.heap().free.contains(x))
}

/// The file was filled with documents in one go.
pub open spec fn dense(d: DataFile, rs: Seq<RawDoc>) -> bool {
    &&& d.pool.pm.count() == 1 + packing(rs).0 + chain_pages(rs)
    &&& d.pool.pm.free_ids().len() == 0
    &&& page_room(d.heap().pages[d.current as int]) == packing(rs).1
    &&& forall|i: int|
        0 <= i < d.heap().slots(d.current).len() ==> (#[trigger] d.heap().slots(d.current)[i]) is Some
}

/// Packing wastes little: all data pages but the last are at least half full
/// on average.
pub proof fn law_packed_pages_are_full(rs: Seq<RawDoc>)
    ensures
        8160 * (packing(rs).0 - 1) <= 2 * slot_bytes(rs),
{
    lemma_packed(rs);
}

proof fn lemma_packed(rs: Seq<RawDoc>)
    ensures
        packing(rs).0 >= 1,
        packing(rs).1 <= 8160,
        8160 * (packing(rs).0 - 1) + (8160 - packing(rs).1) <= 2 * slot_bytes(rs),
    decreases rs.len(),
{
    if rs.len() > 0 {
        lemma_packed(rs.drop_last());
    }
}

proof fn lemma_all_taken(slots: Seq<Option<Seq<u8>>>)
    requires
        forall|i: int| 0 <= i < slots.len() ==> (#[trigger] slots[i]) is Some,
    ensures
        first_free(slots) == slots.len(),
{
    lemma_first_free(slots);
}

proof fn lemma_placed(a: DataFile, b: DataFile, t: Seq<u8>, loc: Loc)
    requires
        placed(a, b, t, loc),
        a.pool.pm.free_ids().len() == 0,
        forall|i: int|
            0 <= i < a.heap().slots(a.current).len() ==> (#[trigger] a.heap().slots(
                a.current,
            )[i]) is Some,
    ensures
        b.pool.pm.free_ids().len() == 0,
        forall|i: int|
            0 <= i < b.heap().slots(b.current).len() ==> (#[trigger] b.heap().slots(
                b.current,
            )[i]) is Some,
        ({
            let room = page_room(a.heap().pages[a.current as int]);
            let n = t.len() + 4;
            if n <= room {
                b.pool.pm.count() == a.pool.pm.count() && page_room(
                    b.heap().pages[b.current as int],
                ) == room - n
            } else {
                b.pool.pm.count() == a.pool.pm.count() + 1 && page_room(
                    b.heap().pages[b.current as int],
                ) == 8160 - n
            }
        }),
{
    lemma_all_taken(a.heap().slots(a.current));
}

/// Storing one more document in a file that is filled keeps it packed.
pub proof fn lemma_dense_step(
    a: DataFile,
    b: DataFile,
    rs: Seq<RawDoc>,
    doc: RawDoc,
    loc: Loc,
)
    requires
        dense(a, rs),
        stored(a, b, doc.1, loc),
    ensures
        dense(b, rs.push(doc)),
{
    let all = rs.push(doc);
    assert(all.drop_last() =~= rs);
    if chained(doc.1) {
        let (mid, tuple) = choose|mid: DataFile, tuple: Seq<u8>|
            {
                &&& mid.current == a.current
                &&& mid.heap().pages[a.current as int] == a.heap().pages[a.current as int]
                &&& crate::page::manager::free_pages_first(
                    a.pool.pm,
                    mid.pool.pm,
                    chunk_count(doc.1.len()),
                )
                &&& tuple.len() == 9
                &&& #[trigger] placed(mid, b, tuple, loc)
            };
        assert(mid.heap().slots(mid.current) == a.heap().slots(a.current));
        lemma_placed(mid, b, tuple, loc);
    } else {
        lemma_placed(a, b, doc.1, loc);
    }
}

} // verus!
