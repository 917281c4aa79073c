//! The data file of a collection: slotted pages read and written through the
//! buffer pool, overflow pages beside it.

use vstd::prelude::*;

use crate::buffer::frame::BufferFrame;
use crate::buffer::pool::{law_unpinned_frame_is_available, lemma_same_free, saved_kept, BufferPool};
use crate::bytes::{to_vec, zeros};
use crate::collection::heap::{
    lemma_not_in_chain, nothing_lost, typed, Heap, Loc,
};
use crate::error::Result;
use crate::page::manager::{
    capped, contents, empty_page, free_pages_first, lemma_empty_page,
};
use crate::page::overflow::{
    chain_data, chain_ends, chain_to_free, chunk_count, decode_overflow_ref, encode_overflow_ref,
    free_overflow, is_overflow, is_ref, law_ref_round_trip, lemma_chain_frame, lemma_linked,
    link_at, linked, no_repeats, read_overflow, ref_parse, released, taken, write_overflow,
};
use crate::page::slotted::{
    first_free, page_room, same_identity, slotted_wf, with_tuple, SlottedPage,
};
use crate::page::{Page, PageHeader, PageType, PAGE_SIZE};

verus! {

/// Maximum document size that fits in a single slotted page (without overflow).
pub const INLINE_MAX: usize = 8156;

/// Before/after page images returned for WAL logging.
#[derive(Debug)]
pub struct PageWriteRecord {
    pub page_id: u32,
    pub before: Page,
    pub after: Page,
}

/// The data file of a collection.
pub struct DataFile {
    /// Buffer pool wrapping the data page manager (LRU cache).
    pub pool: BufferPool,
    /// Page ID of the current data page being filled.
    pub current: u32,
}

/// The pages that a pool shows, and which are free.
pub open spec fn heap_of(pool: BufferPool) -> Heap {
    Heap { pages: pool.pages(), free: Set::new(|x: int| pool.pm.is_free(x)) }
}

/// The pool is in order, and caches only data pages in use.
pub open spec fn pool_ok(pool: BufferPool) -> bool {
    &&& pool.wf()
    &&& pool.pm.free_ok()
    &&& forall|id: u32| #[trigger] pool.cached(id) ==> heap_of(pool).data_page(id)
}

/// No frame is pinned.
pub open spec fn unpinned(pool: BufferPool) -> bool {
    forall|f: int| 0 <= f < pool.frames@.len() ==> (#[trigger] pool.frames@[f]).pin_count == 0
}

/// No frame but `f` is pinned.
pub open spec fn only_pinned(pool: BufferPool, f: int) -> bool {
    &&& 0 <= f < pool.frames@.len()
    &&& pool.frames@[f].pin_count == 1
    &&& forall|g: int|
        0 <= g < pool.frames@.len() && g != f ==> (#[trigger] pool.frames@[g]).pin_count == 0
}

/// From `a` to `b` every data page but `x` is as it was, and pages but `x` that
/// were in the file still are, the new ones too.
pub open spec fn only_page_changed(a: DataFile, b: DataFile, x: u32) -> bool {
    &&& a.pool.pm.count() <= b.pool.pm.count()
    &&& saved_kept(a.pool, b.pool, x as int)
    &&& forall|q: u32|
        q != x && #[trigger] a.heap().data_page(q) ==> b.heap().data_page(q)
            && b.heap().pages[q as int] == a.heap().pages[q as int]
}

/// From `a` to `b` the tuple `t` was stored at `loc`: on the current page where
/// it fits there, or else on a page that was free, or a new one.
pub open spec fn placed(a: DataFile, b: DataFile, t: Seq<u8>, loc: Loc) -> bool {
    let cur = a.current;
    &&& b.current == loc.0
    &&& if t.len() + 4 <= page_room(a.heap().pages[cur as int]) {
        let slots = a.heap().slots(cur);
        &&& loc == (cur, first_free(slots) as u16)
        &&& b.heap().slots(cur) == with_tuple(slots, first_free(slots), t)
        &&& page_room(b.heap().pages[cur as int]) == page_room(a.heap().pages[cur as int])
            - t.len() - 4 * (b.heap().slots(cur).len() - slots.len())
        &&& b.pool.pm.count() == a.pool.pm.count()
        &&& b.pool.pm.free_ids() == a.pool.pm.free_ids()
    } else {
        &&& !a.heap().data_page(loc.0)
        &&& loc.1 == 0
        &&& b.heap().slots(loc.0) == seq![Some(t)]
        &&& page_room(b.heap().pages[loc.0 as int]) == 8160 - t.len() - 4
        &&& free_pages_first(a.pool.pm, b.pool.pm, 1)
    }
}

/// The document goes to a chain of overflow pages.
pub open spec fn chained(raw: Seq<u8>) -> bool {
    raw.len() > INLINE_MAX || is_ref(raw)
}

/// From `a` to `b` a document was stored, with its slot at `loc`: as it is, or
/// in a chain of overflow pages with a reference in the slot.
pub open spec fn stored(a: DataFile, b: DataFile, raw: Seq<u8>, loc: Loc) -> bool {
    if chained(raw) {
        exists|mid: DataFile, tuple: Seq<u8>|
            {
                &&& mid.current == a.current
                &&& mid.heap().pages[a.current as int] == a.heap().pages[a.current as int]
                &&& free_pages_first(a.pool.pm, mid.pool.pm, chunk_count(raw.len()))
                &&& tuple.len() == 9
                &&& #[trigger] placed(mid, b, tuple, loc)
            }
    } else {
        placed(a, b, raw, loc)
    }
}

/// What the log says a page was before a change: the data page that it was, or
/// zeros for a page that was none.
pub open spec fn before_image(h: Heap, p: u32) -> Seq<u8> {
    if h.data_page(p) {
        h.pages[p as int]
    } else {
        zeros(8192)
    }
}

/// Writing to the file past the pool keeps what is saved, where it leaves the
/// cached pages alone.
proof fn lemma_direct_saved(p0: BufferPool, p1: BufferPool)
    requires
        p1.page_table == p0.page_table,
        p1.frames == p0.frames,
        forall|q: u32| #[trigger]
            p0.cached(q) ==> q < p0.pm.count() && p1.pm.pages@[q as int] == p0.pm.pages@[q as int],
    ensures
        saved_kept(p0, p1, -1),
{
    assert forall|i: int| 0 <= i < p1.pm.count() && (i < p0.pm.count() ==> p0.saved(i)) implies
        #[trigger] p1.saved(i) by {
        if i <= u32::MAX && p0.page_table@.contains_key(i as u32) {
            assert(p0.cached(i as u32));
            assert(p0.saved(i));
        }
    }
}

impl DataFile {
    /// The documents of the file.
    pub open spec fn heap(&self) -> Heap {
        heap_of(self.pool)
    }

    /// The file is in order between operations.
    pub open spec fn ok(&self) -> bool {
        &&& pool_ok(self.pool)
        &&& unpinned(self.pool)
        &&& self.heap().data_page(self.current)
        &&& typed(self.heap())
    }

    /// There are page IDs left for `n` more pages.
    pub open spec fn room_for(&self, n: int) -> bool {
        self.pool.pm.count() + n <= u32::MAX
    }
}

proof fn lemma_heap_same(a: BufferPool, b: BufferPool)
    requires
        a.pm.free_ok(),
        b.pages() == a.pages(),
        b.pm.count() == a.pm.count(),
        b.pm.pages@[0] == a.pm.pages@[0],
    ensures
        heap_of(b) == heap_of(a),
        b.pm.free_ok(),
{
    lemma_same_free(a.pm, b.pm);
    assert(heap_of(b).free =~= heap_of(a).free);
}

/// A chain reads the same from the file as through the pool.
proof fn lemma_chain_uncached(pool: BufferPool, loc: Loc, ids: Seq<u32>)
    requires
        pool_ok(pool),
        heap_of(pool).holds(loc, ids),
    ensures
        linked(contents(pool.pm), ids),
        chain_data(contents(pool.pm), ids) == chain_data(pool.pages(), ids),
        forall|j: int| 0 <= j < ids.len() ==> !pool.cached(#[trigger] ids[j]),
{
    let h = heap_of(pool);
    assert forall|j: int| 0 <= j < ids.len() implies !pool.cached(#[trigger] ids[j]) by {
        assert(link_at(h.pages, ids, j));
        if pool.cached(ids[j]) {
            assert(h.data_page(ids[j]));
        }
    }
    assert forall|j: int| 0 <= j < ids.len() implies (#[trigger] ids[j]) < contents(pool.pm).len()
        && contents(pool.pm)[ids[j] as int] == h.pages[ids[j] as int] by {
        assert(link_at(h.pages, ids, j));
        assert(!pool.cached(ids[j]));
    }
    lemma_chain_frame(h.pages, contents(pool.pm), ids);
}

/// Writing a frame and unpinning it as dirty replaces its page.
proof fn lemma_page_written(a: BufferPool, b: BufferPool, id: u32, f: int, d: Page)
    requires
        a.wf(),
        a.cached(id),
        a.page_table@[id] == f,
        0 <= f < a.frames@.len(),
        b.pm == a.pm,
        b.page_table == a.page_table,
        b.frames@ == a.frames@.update(
            f,
            BufferFrame {
                data: d,
                pin_count: (a.frames@[f].pin_count - 1) as u32,
                dirty: true,
                ..a.frames@[f]
            },
        ),
    ensures
        b.wf(),
        b.pages() == a.pages().update(id as int, d@),
{
    assert(a.page_table@.contains_key(id));
    assert forall|q: u32| #[trigger] b.page_table@.contains_key(q) implies b.page_table@[q]
        < b.frames@.len() && b.frames@[b.page_table@[q] as int].page_id == Some(q) && q
        < b.pm.count() by {
        assert(a.page_table@.contains_key(q));
    }
    assert forall|g: int| 0 <= g < b.frames@.len() && (#[trigger] b.frames@[g]).page_id is Some
        implies b.page_table@.contains_key(b.frames@[g].page_id->0)
        && b.page_table@[b.frames@[g].page_id->0] == g by {
        assert(a.frames@[g].page_id == b.frames@[g].page_id);
    }
    assert forall|g: int|
        0 <= g < b.frames@.len() && (#[trigger] b.frames@[g]).page_id is Some && !b.frames@[g].dirty
        implies b.frames@[g].data == b.pm.pages@[b.frames@[g].page_id->0 as int] by {
        assert(g != f);
        assert(a.frames@[g] == b.frames@[g]);
    }
    assert forall|i: int| 0 <= i < a.pages().len() implies #[trigger] b.pages()[i]
        == a.pages().update(id as int, d@)[i] by {
        if a.page_table@.contains_key(i as u32) {
            if a.page_table@[i as u32] == f {
                assert(a.frames@[f].page_id == Some(i as u32));
                assert(a.frames@[f].page_id == Some(id));
            }
        }
    }
    assert(b.pages() =~= a.pages().update(id as int, d@));
}

/// Pages with the same identity have the same kind and ID.
proof fn lemma_identity(a: Seq<u8>, b: Seq<u8>)
    requires
        a.len() >= 32,
        same_identity(b, a),
    ensures
        PageHeader::parse(b).page_type == PageHeader::parse(a).page_type,
        PageHeader::parse(b).page_id == PageHeader::parse(a).page_id,
{
    assert(a.subrange(0, 4) =~= b.subrange(0, 4)) by {
        assert forall|i: int| 0 <= i < 4 implies a[i] == b[i] by {
            assert(b[i] == a[i]);
        }
    }
    assert(b[4] == a[4]);
}

impl DataFile {
    /// Fetches a data page and pins its frame.
    fn pinned(&mut self, page_id: u32) -> (r: Result<usize>)
        requires
            old(self).ok(),
            old(self).pool.frames@.len() >= 1,
            old(self).heap().data_page(page_id),
        ensures
            r is Ok,
            pool_ok(final(self).pool),
            only_pinned(final(self).pool, r->Ok_0 as int),
            final(self).pool.cached(page_id),
            final(self).pool.page_table@[page_id] == r->Ok_0,
            final(self).pool.frames@[r->Ok_0 as int].data@ == old(self).heap().pages[page_id as int],
            final(self).pool.frames@.len() == old(self).pool.frames@.len(),
            final(self).heap() == old(self).heap(),
            final(self).pool.pages() == old(self).pool.pages(),
            final(self).pool.pm.count() == old(self).pool.pm.count(),
            final(self).pool.pm.free_ids() == old(self).pool.pm.free_ids(),
            saved_kept(old(self).pool, final(self).pool, -1),
            final(self).current == old(self).current,
    {
        let ghost p0 = self.pool;
        proof {
            assert(p0.frames@[0].pin_count == 0);
            law_unpinned_frame_is_available(p0.frames@, 0);
            if p0.cached(0) {
                assert(heap_of(p0).data_page(0));
            }
            if p0.cached(page_id) {
                assert(p0.page_table@.contains_key(page_id));
                assert(p0.frames@[p0.page_table@[page_id] as int].pin_count == 0);
            }
            assert(p0.pages().len() == p0.pm.count());
        }
        let r = self.pool.fetch_page(page_id);
        proof {
            lemma_heap_same(p0, self.pool);
            assert forall|id: u32| #[trigger] self.pool.cached(id) implies heap_of(
                self.pool,
            ).data_page(id) by {
                if id != page_id {
                    assert(p0.cached(id));
                }
            }
            if p0.cached(page_id) {
                let f = p0.page_table@[page_id] as int;
                assert(p0.frames@[f].pin_count == 0);
            }
            assert forall|g: int|
                0 <= g < self.pool.frames@.len() && r is Ok && g != r->Ok_0 implies (
            #[trigger] self.pool.frames@[g]).pin_count == 0 by {
                assert(self.pool.frames@[g] == p0.frames@[g]);
            }
        }
        r
    }

    /// Unpins a page that was only read.
    fn release(&mut self, page_id: u32, frame_idx: usize) -> (r: Result<()>)
        requires
            pool_ok(old(self).pool),
            only_pinned(old(self).pool, frame_idx as int),
            old(self).pool.cached(page_id),
            old(self).pool.page_table@[page_id] == frame_idx,
            old(self).heap().data_page(old(self).current),
            typed(old(self).heap()),
        ensures
            r is Ok,
            final(self).ok(),
            final(self).heap() == old(self).heap(),
            final(self).pool.pm == old(self).pool.pm,
            saved_kept(old(self).pool, final(self).pool, -1),
            final(self).pool.frames@.len() == old(self).pool.frames@.len(),
            final(self).current == old(self).current,
    {
        let ghost p0 = self.pool;
        let r = self.pool.unpin(page_id, false);
        proof {
            let p1 = self.pool;
            assert forall|q: u32| #[trigger] p1.page_table@.contains_key(q) implies p1.page_table@[q]
                < p1.frames@.len() && p1.frames@[p1.page_table@[q] as int].page_id == Some(q) && q
                < p1.pm.count() by {
                assert(p0.page_table@.contains_key(q));
            }
            assert forall|g: int|
                0 <= g < p1.frames@.len() && (#[trigger] p1.frames@[g]).page_id is Some implies
                p1.page_table@.contains_key(p1.frames@[g].page_id->0)
                && p1.page_table@[p1.frames@[g].page_id->0] == g by {
                assert(p0.frames@[g].page_id == p1.frames@[g].page_id);
            }
            assert forall|g: int|
                0 <= g < p1.frames@.len() && (#[trigger] p1.frames@[g]).page_id is Some
                    && !p1.frames@[g].dirty implies p1.frames@[g].data
                == p1.pm.pages@[p1.frames@[g].page_id->0 as int] by {
                assert(p0.frames@[g].page_id == p1.frames@[g].page_id);
                assert(p0.frames@[g].dirty == p1.frames@[g].dirty);
            }
            assert(p1.pages() =~= p0.pages());
            assert forall|i: int| 0 <= i < p1.pm.count() && p0.saved(i) implies #[trigger] p1.saved(
                i,
            ) by {
                assert(p1.pages()[i] == p1.page(i) && p0.pages()[i] == p0.page(i));
            }
            lemma_heap_same(p0, p1);
            assert forall|id: u32| #[trigger] p1.cached(id) implies heap_of(p1).data_page(id) by {
                assert(p0.cached(id));
            }
        }
        r
    }

    /// Replaces the page in a pinned frame and unpins it.
    fn replace(&mut self, page_id: u32, frame_idx: usize, page: &SlottedPage) -> (r: Result<()>)
        requires
            pool_ok(old(self).pool),
            only_pinned(old(self).pool, frame_idx as int),
            old(self).pool.cached(page_id),
            old(self).pool.page_table@[page_id] == frame_idx,
            page.wf(),
            PageHeader::parse(page.data@).page_type == PageType::Data,
            PageHeader::parse(page.data@).page_id == page_id,
            old(self).heap().data_page(old(self).current),
            typed(old(self).heap()),
        ensures
            r is Ok,
            final(self).ok(),
            final(self).heap().pages == old(self).heap().pages.update(page_id as int, page.data@),
            final(self).heap().free == old(self).heap().free,
            final(self).heap().data_page(page_id),
            final(self).pool.pm == old(self).pool.pm,
            saved_kept(old(self).pool, final(self).pool, page_id as int),
            final(self).pool.frames@.len() == old(self).pool.frames@.len(),
            final(self).current == old(self).current,
    {
        let ghost p0 = self.pool;
        let ghost h0 = self.heap();
        let frame: &mut BufferFrame = self.pool.get_frame_mut(frame_idx);
        frame.data = page.data;
        let ghost p1 = self.pool;
        proof {
            assert(p0.page_table@.contains_key(page_id));
            assert(p0.cached(page_id));
            assert forall|q: u32| #[trigger] p1.page_table@.contains_key(q) implies p1.page_table@[q]
                < p1.frames@.len() && p1.frames@[p1.page_table@[q] as int].page_id == Some(q) && q
                < p1.pm.count() by {
                assert(p0.page_table@.contains_key(q));
            }
            assert forall|g: int|
                0 <= g < p1.frames@.len() && (#[trigger] p1.frames@[g]).page_id is Some implies
                p1.page_table@.contains_key(p1.frames@[g].page_id->0)
                && p1.page_table@[p1.frames@[g].page_id->0] == g by {
                assert(p0.frames@[g].page_id == p1.frames@[g].page_id);
            }
        }
        let r = self.pool.unpin(page_id, true);
        proof {
            let p2 = self.pool;
            assert(p2.frames@ =~= p0.frames@.update(
                frame_idx as int,
                BufferFrame {
                    data: page.data,
                    pin_count: (p0.frames@[frame_idx as int].pin_count - 1) as u32,
                    dirty: true,
                    ..p0.frames@[frame_idx as int]
                },
            ));
            lemma_page_written(p0, p2, page_id, frame_idx as int, page.data);
            assert forall|i: int|
                0 <= i < p2.pm.count() && i != page_id && p0.saved(i) implies #[trigger] p2.saved(
                i,
            ) by {
                assert(p2.pages()[i] == p2.page(i) && p0.pages()[i] == p0.page(i));
            }
            assert(heap_of(p2).free =~= h0.free);
            assert(h0.data_page(page_id));
            assert(self.heap().data_page(page_id));
            assert forall|id: u32| #[trigger] p2.cached(id) implies heap_of(p2).data_page(id) by {
                assert(p0.cached(id));
                assert(h0.data_page(id));
            }
            assert(self.heap().data_page(self.current));
            assert(typed(self.heap())) by {
                let h2 = self.heap();
                assert forall|q: u32|
                    1 <= q < h2.pages.len() && PageHeader::parse(
                        #[trigger] h2.pages[q as int],
                    ).page_type == PageType::Data implies h2.data_page(q) by {
                    if q != page_id {
                        assert(h2.pages[q as int] == h0.pages[q as int]);
                        assert(h0.data_page(q));
                    }
                }
            }
        }
        r
    }

    /// Reads the document at a location.
    pub fn read_tuple(&mut self, loc: Loc, ids: Ghost<Seq<u32>>) -> (r: Result<Vec<u8>>)
        requires
            old(self).ok(),
            old(self).pool.frames@.len() >= 1,
            old(self).heap().holds(loc, ids@),
        ensures
            r is Ok,
            r->Ok_0@ == old(self).heap().raw(loc, ids@),
            final(self).ok(),
            final(self).heap() == old(self).heap(),
            final(self).pool.pm.count() == old(self).pool.pm.count(),
            saved_kept(old(self).pool, final(self).pool, -1),
            final(self).pool.frames@.len() == old(self).pool.frames@.len(),
            final(self).current == old(self).current,
    {
        let ghost h = self.heap();
        let frame_idx: usize = match self.pinned(loc.0) {
            Ok(f) => f,
            Err(e) => {
                return Err(e);
            },
        };
        let page: SlottedPage = SlottedPage::from_bytes(self.pool.get_frame(frame_idx).data);
        let slot_data: Vec<u8> = match page.get(loc.1) {
            Ok(t) => to_vec(t),
            Err(e) => {
                return Err(e);
            },
        };
        assert(slot_data@ == h.tuple(loc));
        match self.release(loc.0, frame_idx) {
            Ok(_) => {},
            Err(e) => {
                return Err(e);
            },
        }
        if is_overflow(slot_data.as_slice()) {
            let (first, _) = match decode_overflow_ref(slot_data.as_slice()) {
                Some(t) => t,
                None => {
                    return Ok(slot_data);
                },
            };
            proof {
                lemma_chain_uncached(self.pool, loc, ids@);
                lemma_linked(contents(self.pool.pm), ids@);
            }
            assert(chain_ends(contents(self.pool.pm), first, ids@.len()));
            read_overflow(&self.pool.pm, first)
        } else {
            Ok(slot_data)
        }
    }

    /// Stores a tuple that fits in a page.
    pub fn store_inline(&mut self, encoded: &[u8]) -> (r: Result<(Loc, PageWriteRecord)>)
        requires
            old(self).ok(),
            old(self).pool.frames@.len() >= 1,
            encoded@.len() <= INLINE_MAX,
            old(self).room_for(1),
        ensures
            r is Ok,
            final(self).ok(),
            nothing_lost(old(self).heap(), final(self).heap()),
            final(self).pool.pm.count() <= old(self).pool.pm.count() + 1,
            final(self).pool.frames@.len() == old(self).pool.frames@.len(),
            ({
                let (loc, rec) = r->Ok_0;
                &&& only_page_changed(*old(self), *final(self), loc.0)
                &&& final(self).heap().data_page(loc.0)
                &&& final(self).heap().live(loc)
                &&& final(self).heap().tuple(loc) == encoded@
                &&& !(old(self).heap().data_page(loc.0) && old(self).heap().live(loc))
                &&& final(self).current == loc.0
                &&& rec.page_id == loc.0
                &&& rec.after@ == final(self).heap().pages[loc.0 as int]
                &&& rec.before@ == before_image(old(self).heap(), loc.0)
                &&& placed(*old(self), *final(self), encoded@, loc)
            }),
    {
        let ghost h0 = self.heap();
        let cur: u32 = self.current;
        let frame_idx: usize = match self.pinned(cur) {
            Ok(f) => f,
            Err(e) => {
                return Err(e);
            },
        };
        let before: Page = self.pool.get_frame(frame_idx).data;
        let mut page: SlottedPage = SlottedPage::from_bytes(before);
        assert(page.data@ == h0.pages[cur as int]);
        match page.insert(encoded) {
            Ok(slot_id) => {
                proof {
                    lemma_identity(before@, page.data@);
                }
                match self.replace(cur, frame_idx, &page) {
                    Ok(_) => {},
                    Err(e) => {
                        return Err(e);
                    },
                }
                proof {
                    lemma_inline_kept(h0, self.heap(), cur, slot_id, encoded@);
                }
                Ok(((cur, slot_id), PageWriteRecord { page_id: cur, before, after: page.data }))
            },
            Err(_) => {
                match self.release(cur, frame_idx) {
                    Ok(_) => {},
                    Err(e) => {
                        return Err(e);
                    },
                }
                let ghost d1 = *self;
                let r = self.store_on_new_page(encoded);
                proof {
                    assert(d1.heap() == h0);
                    assert(free_pages_first(old(self).pool.pm, self.pool.pm, 1));
                }
                r
            },
        }
    }

    /// Stores a tuple on a new page, which becomes the current one.
    fn store_on_new_page(&mut self, encoded: &[u8]) -> (r: Result<(Loc, PageWriteRecord)>)
        requires
            old(self).ok(),
            old(self).pool.frames@.len() >= 1,
            encoded@.len() <= INLINE_MAX,
            old(self).room_for(1),
        ensures
            r is Ok,
            final(self).ok(),
            nothing_lost(old(self).heap(), final(self).heap()),
            final(self).pool.pm.count() <= old(self).pool.pm.count() + 1,
            final(self).pool.frames@.len() == old(self).pool.frames@.len(),
            ({
                let (loc, rec) = r->Ok_0;
                &&& only_page_changed(*old(self), *final(self), loc.0)
                &&& final(self).heap().data_page(loc.0)
                &&& final(self).heap().live(loc)
                &&& final(self).heap().tuple(loc) == encoded@
                &&& !old(self).heap().data_page(loc.0)
                &&& final(self).current == loc.0
                &&& rec.page_id == loc.0
                &&& rec.after@ == final(self).heap().pages[loc.0 as int]
                &&& rec.before@ == zeros(8192)
                &&& loc.1 == 0
                &&& final(self).heap().slots(loc.0) == seq![Some(encoded@)]
                &&& page_room(final(self).heap().pages[loc.0 as int]) == 8160 - encoded@.len() - 4
                &&& free_pages_first(old(self).pool.pm, final(self).pool.pm, 1)
            }),
    {
        let ghost p0 = self.pool;
        let ghost h0 = self.heap();
        proof {
            assert(p0.frames@[0].pin_count == 0);
            law_unpinned_frame_is_available(p0.frames@, 0);
            assert forall|id: u32| #[trigger] p0.cached(id) implies id != 0 && !p0.pm.is_free(
                id as int,
            ) by {
                assert(h0.data_page(id));
                assert(!h0.free.contains(id as int));
            }
        }
        let (new_page_id, new_fidx) = match self.pool.new_page() {
            Ok(t) => t,
            Err(e) => {
                return Err(e);
            },
        };
        let ghost p1 = self.pool;
        let before_new: Page = [0u8;PAGE_SIZE];
        assert(before_new@ =~= zeros(8192));
        let mut new_page: SlottedPage = SlottedPage::new(new_page_id);
        let slot_id: u16 = match new_page.insert(encoded) {
            Ok(s) => s,
            Err(e) => {
                return Err(e);
            },
        };
        let after: Page = new_page.data;
        proof {
            let fresh = SlottedPage { data: new_page.data };
            assert(!h0.data_page(new_page_id)) by {
                if new_page_id < p0.pm.count() {
                    assert(p0.pm.is_free(new_page_id as int));
                    assert(h0.free.contains(new_page_id as int));
                }
            }
        }
        let frame: &mut BufferFrame = self.pool.get_frame_mut(new_fidx);
        frame.data = after;
        let ghost p2 = self.pool;
        proof {
            lemma_frame_data(p1, p2, new_fidx as int);
        }
        match self.pool.unpin(new_page_id, true) {
            Ok(_) => {},
            Err(e) => {
                return Err(e);
            },
        }
        self.current = new_page_id;
        proof {
            let p3 = self.pool;
            assert(p3.frames@ =~= p1.frames@.update(
                new_fidx as int,
                BufferFrame {
                    data: after,
                    pin_count: (p1.frames@[new_fidx as int].pin_count - 1) as u32,
                    dirty: true,
                    ..p1.frames@[new_fidx as int]
                },
            ));
            lemma_page_written(p1, p3, new_page_id, new_fidx as int, after);
            lemma_new_page_kept(p0, p1, p3, new_page_id, new_fidx as int, after);
            assert forall|i: int|
                0 <= i < p3.pm.count() && i != new_page_id && (i < p0.pm.count() ==> p0.saved(i))
                implies #[trigger] p3.saved(i) by {
                assert(p1.saved(i));
                assert(p3.pages()[i] == p3.page(i) && p1.pages()[i] == p1.page(i));
            }
            assert(self.heap().slots(new_page_id) == with_tuple(
                Seq::empty(),
                slot_id as int,
                encoded@,
            ));
            assert(self.heap().slots(new_page_id) =~= seq![Some(encoded@)]);
        }
        Ok(
            (
                (new_page_id, slot_id),
                PageWriteRecord { page_id: new_page_id, before: before_new, after },
            ),
        )
    }

    /// Stores a document in a chain of overflow pages, with a reference to it
    /// in a slot.
    pub fn store_overflow(&mut self, encoded: &[u8]) -> (r: Result<(Loc, PageWriteRecord)>)
        requires
            old(self).ok(),
            old(self).pool.frames@.len() >= 1,
            encoded@.len() > 0,
            old(self).room_for(chunk_count(encoded@.len()) as int + 1),
        ensures
            r is Ok,
            final(self).ok(),
            nothing_lost(old(self).heap(), final(self).heap()),
            final(self).pool.pm.count() <= old(self).pool.pm.count() + chunk_count(encoded@.len())
                + 1,
            final(self).pool.frames@.len() == old(self).pool.frames@.len(),
            ({
                let (loc, rec) = r->Ok_0;
                &&& only_page_changed(*old(self), *final(self), loc.0)
                &&& final(self).heap().data_page(loc.0)
                &&& !(old(self).heap().data_page(loc.0) && old(self).heap().live(loc))
                &&& final(self).current == loc.0
                &&& rec.page_id == loc.0
                &&& rec.after@ == final(self).heap().pages[loc.0 as int]
                &&& rec.before@ == before_image(old(self).heap(), loc.0)
                &&& chained(encoded@) ==> stored(*old(self), *final(self), encoded@, loc)
                &&& exists|ids: Seq<u32>| #[trigger]
                    final(self).heap().holds(loc, ids) && final(self).heap().raw(loc, ids)
                        == encoded@ && fresh_chain(old(self).heap(), ids)
            }),
    {
        let ghost p0 = self.pool;
        let ghost h0 = self.heap();
        let first: u32 = match write_overflow(&mut self.pool.pm, encoded) {
            Ok(id) => id,
            Err(e) => {
                return Err(e);
            },
        };
        let ghost p1 = self.pool;
        let ghost ids = choose|ids: Seq<u32>|
            {
                &&& #[trigger] no_repeats(ids)
                &&& ids.len() == chunk_count(encoded@.len())
                &&& ids[0] == first
                &&& taken(p0.pm, p1.pm, ids)
                &&& linked(contents(p1.pm), ids)
                &&& chain_data(contents(p1.pm), ids) == encoded@
            };
        proof {
            lemma_chain_added(p0, p1, ids);
            assert(self.heap().data_page(self.current));
        }
        let ghost h1 = self.heap();
        let ref_data: Vec<u8> = encode_overflow_ref(
            first,
            (encoded.len() as u64 % 0x1_0000_0000) as u32,
        );
        proof {
            law_ref_round_trip(first, (encoded@.len() as u64 % 0x1_0000_0000) as u32);
            assert(is_ref(ref_data@));
        }
        let ghost mid = *self;
        let r = self.store_inline(ref_data.as_slice());
        proof {
            let (loc, rec) = r->Ok_0;
            let h2 = self.heap();
            assert(h0.data_page(old(self).current));
            assert(placed(mid, *self, ref_data@, loc));
            lemma_overflow_stored(h0, h1, h2, loc, ids, encoded@);
            assert(h2.holds(loc, ids) && h2.raw(loc, ids) == encoded@ && fresh_chain(h0, ids));
        }
        r
    }

    /// Removes the document at a location: frees its chain and empties its
    /// slot.
    pub fn delete_tuple(&mut self, loc: Loc, ids: Ghost<Seq<u32>>) -> (r: Result<PageWriteRecord>)
        requires
            old(self).ok(),
            old(self).pool.frames@.len() >= 1,
            old(self).heap().holds(loc, ids@),
        ensures
            r is Ok,
            final(self).ok(),
            final(self).current == old(self).current,
            final(self).pool.pm.count() == old(self).pool.pm.count(),
            final(self).pool.frames@.len() == old(self).pool.frames@.len(),
            final(self).heap().pages.len() == old(self).heap().pages.len(),
            forall|x: int|
                final(self).heap().free.contains(x) ==> #[trigger] old(self).heap().free.contains(x)
                    || (0 <= x <= u32::MAX && ids@.contains(x as u32)),
            forall|i: int|
                1 <= i < old(self).heap().pages.len() && i != loc.0 && !ids@.contains(i as u32)
                    ==> #[trigger] final(self).heap().pages[i] == old(self).heap().pages[i],
            only_page_changed(*old(self), *final(self), loc.0),
            final(self).heap().data_page(loc.0),
            final(self).heap().slots(loc.0) == old(self).heap().slots(loc.0).update(
                loc.1 as int,
                None,
            ),
            final(self).pool.pm.free_ids() == capped(old(self).pool.pm.free_ids() + ids@),
            r->Ok_0.page_id == loc.0,
            r->Ok_0.before@ == old(self).heap().pages[loc.0 as int],
            r->Ok_0.after@ == final(self).heap().pages[loc.0 as int],
    {
        let ghost h0 = self.heap();
        let frame_idx: usize = match self.pinned(loc.0) {
            Ok(f) => f,
            Err(e) => {
                return Err(e);
            },
        };
        let before: Page = self.pool.get_frame(frame_idx).data;
        let mut page: SlottedPage = SlottedPage::from_bytes(before);
        let slot_data: Vec<u8> = match page.get(loc.1) {
            Ok(t) => to_vec(t),
            Err(e) => {
                return Err(e);
            },
        };
        assert(slot_data@ == h0.tuple(loc));
        let ghost p1 = self.pool;
        if is_overflow(slot_data.as_slice()) {
            let first: u32 = match decode_overflow_ref(slot_data.as_slice()) {
                Some((id, _)) => id,
                None => 0,
            };
            proof {
                lemma_chain_uncached(p1, loc, ids@);
                assert forall|j: int| 0 <= j < ids@.len() implies !p1.pm.is_free(
                    (#[trigger] ids@[j]) as int,
                ) by {
                    assert(!h0.free.contains(ids@[j] as int));
                }
                assert(chain_to_free(p1.pm, ids@, first));
            }
            match free_overflow(&mut self.pool.pm, first) {
                Ok(_) => {},
                Err(e) => {
                    return Err(e);
                },
            }
            proof {
                assert(released(p1.pm, self.pool.pm, ids@));
                lemma_chain_freed(p1, self.pool, loc, ids@);
            }
        }
        let ghost h1 = self.heap();
        proof {
            if !is_ref(slot_data@) {
                assert(ids@.len() == 0);
                assert(p1.pm.free_ids() + ids@ =~= p1.pm.free_ids());
                assert(capped(p1.pm.free_ids()) =~= p1.pm.free_ids());
            }
            assert(h1.data_page(loc.0) && h1.pages[loc.0 as int] == h0.pages[loc.0 as int]) by {
                lemma_not_in_chain(h0, loc, ids@, loc.0);
            }
            lemma_not_in_chain(h0, loc, ids@, self.current);
            assert(h1.data_page(self.current));
        }
        match page.delete(loc.1) {
            Ok(_) => {},
            Err(e) => {
                return Err(e);
            },
        }
        proof {
            lemma_identity(before@, page.data@);
        }
        match self.replace(loc.0, frame_idx, &page) {
            Ok(_) => {},
            Err(e) => {
                return Err(e);
            },
        }
        Ok(PageWriteRecord { page_id: loc.0, before, after: page.data })
    }
}

/// The pages of a chain were not in use.
pub open spec fn fresh_chain(h: Heap, ids: Seq<u32>) -> bool {
    forall|j: int|
        0 <= j < ids.len() ==> (#[trigger] ids[j]) >= h.pages.len() || h.free.contains(
            ids[j] as int,
        )
}

proof fn lemma_frame_data(p1: BufferPool, p2: BufferPool, f: int)
    requires
        p1.wf(),
        0 <= f < p1.frames@.len(),
        p2.page_table == p1.page_table,
        p2.pm == p1.pm,
        p2.frames@ == p1.frames@.update(f, p2.frames@[f]),
        p2.frames@[f].page_id == p1.frames@[f].page_id,
    ensures
        p2.table_ok(),
{
    assert forall|q: u32| #[trigger] p2.page_table@.contains_key(q) implies p2.page_table@[q]
        < p2.frames@.len() && p2.frames@[p2.page_table@[q] as int].page_id == Some(q) && q
        < p2.pm.count() by {
        assert(p1.page_table@.contains_key(q));
    }
    assert forall|g: int| 0 <= g < p2.frames@.len() && (#[trigger] p2.frames@[g]).page_id is Some
        implies p2.page_table@.contains_key(p2.frames@[g].page_id->0)
        && p2.page_table@[p2.frames@[g].page_id->0] == g by {
        assert(p1.frames@[g].page_id == p2.frames@[g].page_id);
    }
}

proof fn lemma_inline_kept(h0: Heap, h1: Heap, p: u32, s: u16, t: Seq<u8>)
    requires
        h0.data_page(p),
        h1.data_page(p),
        h1.free == h0.free,
        h1.pages == h0.pages.update(p as int, h1.pages[p as int]),
        s == first_free(h0.slots(p)),
        h1.slots(p) == with_tuple(h0.slots(p), s as int, t),
    ensures
        nothing_lost(h0, h1),
        h1.live((p, s)),
        h1.tuple((p, s)) == t,
        !h0.live((p, s)),
{
    lemma_first_free_slot(h0.slots(p));
    assert forall|q: u32| #[trigger] h0.data_page(q) implies h1.data_page(q) && forall|x: u16|
        #[trigger] h0.live((q, x)) ==> h1.live((q, x)) && h1.tuple((q, x)) == h0.tuple((q, x)) by {
        if q == p {
            assert forall|x: u16| #[trigger] h0.live((q, x)) implies h1.live((q, x)) && h1.tuple(
                (q, x),
            ) == h0.tuple((q, x)) by {
                assert(x != s);
            }
        }
    }
    assert forall|i: int|
        1 <= i < h0.pages.len() && !h0.free.contains(i) && PageHeader::parse(
            h0.pages[i],
        ).page_type == PageType::Overflow implies #[trigger] h1.pages[i] == h0.pages[i] by {
        assert(i != p);
    }
}

proof fn lemma_first_free_slot(slots: Seq<Option<Seq<u8>>>)
    ensures
        0 <= first_free(slots) <= slots.len(),
        first_free(slots) < slots.len() ==> slots[first_free(slots)] is None,
    decreases slots.len(),
{
    if slots.len() > 0 {
        lemma_first_free_slot(slots.skip(1));
    }
}

proof fn lemma_new_page_kept(
    p0: BufferPool,
    p1: BufferPool,
    p3: BufferPool,
    id: u32,
    f: int,
    d: Page,
)
    requires
        pool_ok(p0),
        unpinned(p0),
        typed(heap_of(p0)),
        p1.pm.free_ok(),
        p1.frames@.len() == p0.frames@.len(),
        p0.pm.count() <= p1.pm.count() <= p0.pm.count() + 1,
        p1.pm.count() > p0.pm.count() ==> id == p0.pm.count(),
        p0.pm.is_free(id as int) || id >= p0.pm.count(),
        1 <= id < p1.pm.count(),
        !p1.pm.is_free(id as int),
        forall|x: int| p1.pm.is_free(x) ==> #[trigger] p0.pm.is_free(x),
        forall|i: int|
            1 <= i < p0.pm.count() && i != id ==> #[trigger] p1.pages()[i] == p0.pages()[i],
        forall|q: u32| p1.cached(q) ==> #[trigger] p0.cached(q) || q == id,
        forall|g: int|
            0 <= g < p0.frames@.len() && g != f ==> #[trigger] p1.frames@[g] == p0.frames@[g],
        0 <= f < p1.frames@.len(),
        p1.frames@[f].pin_count == 1,
        p3.wf(),
        p3.pm == p1.pm,
        p3.page_table == p1.page_table,
        p3.pages() == p1.pages().update(id as int, d@),
        p3.frames@ == p1.frames@.update(
            f,
            BufferFrame { data: d, pin_count: 0, dirty: true, ..p1.frames@[f] },
        ),
        slotted_wf(d@),
        PageHeader::parse(d@).page_type == PageType::Data,
        PageHeader::parse(d@).page_id == id,
    ensures
        pool_ok(p3),
        unpinned(p3),
        heap_of(p3).data_page(id),
        heap_of(p3).pages[id as int] == d@,
        nothing_lost(heap_of(p0), heap_of(p3)),
        forall|q: u32| #[trigger]
            heap_of(p0).data_page(q) ==> heap_of(p3).data_page(q) && heap_of(p3).pages[q as int]
                == heap_of(p0).pages[q as int],
        typed(heap_of(p3)),
{
    let h0 = heap_of(p0);
    let h3 = heap_of(p3);
    assert(h3.data_page(id));
    assert forall|q: u32| #[trigger] h0.data_page(q) implies h3.data_page(q) && h3.pages[q as int]
        == h0.pages[q as int] by {
        assert(!h0.free.contains(q as int));
        assert(!p0.pm.is_free(q as int));
        assert(q != id);
        assert(p1.pages()[q as int] == p0.pages()[q as int]);
    }
    assert forall|q: u32| #[trigger] p3.cached(q) implies h3.data_page(q) by {
        assert(p1.cached(q));
        if q != id {
            assert(p0.cached(q));
            assert(h0.data_page(q));
        }
    }
    assert forall|x: int| h3.free.contains(x) implies #[trigger] h0.free.contains(x) by {
        assert(p1.pm.is_free(x));
        assert(p0.pm.is_free(x));
    }
    assert forall|i: int|
        1 <= i < h0.pages.len() && !h0.free.contains(i) && PageHeader::parse(
            h0.pages[i],
        ).page_type == PageType::Overflow implies #[trigger] h3.pages[i] == h0.pages[i] by {
        assert(i != id);
        assert(p1.pages()[i] == p0.pages()[i]);
    }
    assert forall|g: int| 0 <= g < p3.frames@.len() implies (
    #[trigger] p3.frames@[g]).pin_count == 0 by {
        if g != f {
            assert(p1.frames@[g] == p0.frames@[g]);
        }
    }
    assert forall|q: u32|
        1 <= q < h3.pages.len() && PageHeader::parse(#[trigger] h3.pages[q as int]).page_type
            == PageType::Data implies h3.data_page(q) by {
        if q != id {
            assert(p1.pages()[q as int] == p0.pages()[q as int]);
            assert(h3.pages[q as int] == h0.pages[q as int]);
            assert(h0.data_page(q));
        }
    }
}

proof fn lemma_chain_added(p0: BufferPool, p1: BufferPool, ids: Seq<u32>)
    requires
        pool_ok(p0),
        p1 == (BufferPool { pm: p1.pm, ..p0 }),
        taken(p0.pm, p1.pm, ids),
        linked(contents(p1.pm), ids),
        typed(heap_of(p0)),
    ensures
        pool_ok(p1),
        typed(heap_of(p1)),
        nothing_lost(heap_of(p0), heap_of(p1)),
        fresh_chain(heap_of(p0), ids),
        forall|q: u32| #[trigger]
            heap_of(p0).data_page(q) ==> heap_of(p1).data_page(q) && heap_of(p1).pages[q as int]
                == heap_of(p0).pages[q as int],
        linked(heap_of(p1).pages, ids),
        chain_data(heap_of(p1).pages, ids) == chain_data(contents(p1.pm), ids),
        forall|j: int|
            0 <= j < ids.len() ==> !heap_of(p1).free.contains((#[trigger] ids[j]) as int),
        forall|q: u32| #[trigger] heap_of(p1).data_page(q) ==> heap_of(p0).data_page(q),
        saved_kept(p0, p1, -1),
{
    let h0 = heap_of(p0);
    let h1 = heap_of(p1);
    assert forall|q: u32| #[trigger] p0.cached(q) implies !ids.contains(q) && q != 0 && q
        < p0.pm.count() by {
        assert(h0.data_page(q));
        if ids.contains(q) {
            let m = choose|m: int| 0 <= m < ids.len() && ids[m] == q;
            assert(p0.pm.is_free(ids[m] as int));
            assert(h0.free.contains(q as int));
        }
    }
    assert forall|q: u32| #[trigger] p1.page_table@.contains_key(q) implies p1.page_table@[q]
        < p1.frames@.len() && p1.frames@[p1.page_table@[q] as int].page_id == Some(q) && q
        < p1.pm.count() by {
        assert(p0.page_table@.contains_key(q));
    }
    assert forall|g: int| 0 <= g < p1.frames@.len() && (#[trigger] p1.frames@[g]).page_id is Some
        implies p1.page_table@.contains_key(p1.frames@[g].page_id->0)
        && p1.page_table@[p1.frames@[g].page_id->0] == g by {
        assert(p0.frames@[g].page_id == p1.frames@[g].page_id);
    }
    assert forall|g: int|
        0 <= g < p1.frames@.len() && (#[trigger] p1.frames@[g]).page_id is Some && !p1.frames@[g].dirty
        implies p1.frames@[g].data == p1.pm.pages@[p1.frames@[g].page_id->0 as int] by {
        let q = p0.frames@[g].page_id->0;
        assert(p0.page_table@.contains_key(q));
        assert(p0.cached(q));
        assert(p1.pm.pages@[q as int] == p0.pm.pages@[q as int]);
    }
    assert(p1.wf());
    lemma_direct_saved(p0, p1);
    assert forall|i: int| 1 <= i < p0.pm.count() && !ids.contains(i as u32) implies h1.pages[i]
        == #[trigger] h0.pages[i] by {
        assert(p1.pm.pages@[i] == p0.pm.pages@[i]);
    }
    assert forall|i: int| 1 <= i < p0.pm.count() && !h0.free.contains(i) implies !ids.contains(
        i as u32,
    ) by {
        if ids.contains(i as u32) {
            let m = choose|m: int| 0 <= m < ids.len() && ids[m] == i as u32;
            assert(p0.pm.is_free(ids[m] as int));
        }
    }
    assert forall|x: int| h1.free.contains(x) implies #[trigger] h0.free.contains(x) by {
        assert(p0.pm.is_free(x));
    }
    assert forall|q: u32| #[trigger] h0.data_page(q) implies h1.data_page(q) && h1.pages[q as int]
        == h0.pages[q as int] by {
        assert(!ids.contains(q));
        assert(h1.pages[q as int] == h0.pages[q as int]);
        assert(!h0.free.contains(q as int));
    }
    assert forall|q: u32| #[trigger] p1.cached(q) implies h1.data_page(q) by {
        assert(p0.cached(q));
        assert(h0.data_page(q));
    }
    assert forall|j: int| 0 <= j < ids.len() implies (#[trigger] ids[j]) < h1.pages.len()
        && h1.pages[ids[j] as int] == contents(p1.pm)[ids[j] as int] by {
        assert(ids.contains(ids[j]));
        assert(!p0.cached(ids[j]));
    }
    lemma_chain_frame(contents(p1.pm), h1.pages, ids);
    assert forall|q: u32| #[trigger] h1.data_page(q) implies h0.data_page(q) by {
        if ids.contains(q) {
            let m = choose|m: int| 0 <= m < ids.len() && ids[m] == q;
            assert(link_at(h1.pages, ids, m));
        } else {
            assert(q < p0.pm.count());
            assert(h1.pages[q as int] == h0.pages[q as int]);
        }
    }
    assert forall|j: int| 0 <= j < ids.len() implies (#[trigger] ids[j]) >= h0.pages.len()
        || h0.free.contains(ids[j] as int) by {
        assert(ids[j] >= p0.pm.count() || p0.pm.is_free(ids[j] as int));
    }
    assert forall|j: int| 0 <= j < ids.len() implies !h1.free.contains(
        (#[trigger] ids[j]) as int,
    ) by {
        assert(!p1.pm.is_free(ids[j] as int));
    }
    assert forall|i: int|
        1 <= i < h0.pages.len() && !h0.free.contains(i) && PageHeader::parse(
            h0.pages[i],
        ).page_type == PageType::Overflow implies #[trigger] h1.pages[i] == h0.pages[i] by {
        assert(!ids.contains(i as u32));
        assert(h1.pages[i] == h0.pages[i]);
    }
    assert forall|q: u32|
        1 <= q < h1.pages.len() && PageHeader::parse(#[trigger] h1.pages[q as int]).page_type
            == PageType::Data implies h1.data_page(q) by {
        if ids.contains(q) {
            let m = choose|m: int| 0 <= m < ids.len() && ids[m] == q;
            assert(link_at(h1.pages, ids, m));
        } else {
            assert(q < p0.pm.count());
            assert(h1.pages[q as int] == h0.pages[q as int]);
            assert(h0.data_page(q));
        }
    }
}

proof fn lemma_overflow_stored(
    h0: Heap,
    h1: Heap,
    h2: Heap,
    loc: Loc,
    ids: Seq<u32>,
    data: Seq<u8>,
)
    requires
        nothing_lost(h0, h1),
        nothing_lost(h1, h2),
        forall|q: u32| #[trigger]
            h0.data_page(q) ==> h1.data_page(q) && h1.pages[q as int] == h0.pages[q as int],
        h2.data_page(loc.0),
        h2.live(loc),
        is_ref(h2.tuple(loc)),
        ids.len() > 0,
        (ref_parse(h2.tuple(loc))->0).0 == ids[0],
        !(h1.data_page(loc.0) && h1.live(loc)),
        linked(h1.pages, ids),
        no_repeats(ids),
        chain_data(h1.pages, ids) == data,
        forall|j: int| 0 <= j < ids.len() ==> !h1.free.contains((#[trigger] ids[j]) as int),
    ensures
        nothing_lost(h0, h2),
        h2.holds(loc, ids),
        h2.raw(loc, ids) == data,
        !(h0.data_page(loc.0) && h0.live(loc)),
{
    assert forall|j: int| 0 <= j < ids.len() implies (#[trigger] ids[j]) < h2.pages.len()
        && h2.pages[ids[j] as int] == h1.pages[ids[j] as int] by {
        assert(link_at(h1.pages, ids, j));
        assert(!h1.free.contains(ids[j] as int));
        assert(h2.pages[ids[j] as int] == h1.pages[ids[j] as int]);
    }
    lemma_chain_frame(h1.pages, h2.pages, ids);
    assert forall|j: int| 0 <= j < ids.len() implies !h2.free.contains(
        (#[trigger] ids[j]) as int,
    ) by {
        assert(!h1.free.contains(ids[j] as int));
    }
    assert forall|q: u32| #[trigger] h0.data_page(q) implies h2.data_page(q) && forall|x: u16|
        #[trigger] h0.live((q, x)) ==> h2.live((q, x)) && h2.tuple((q, x)) == h0.tuple((q, x)) by {
        assert(h1.data_page(q));
        assert forall|x: u16| #[trigger] h0.live((q, x)) implies h2.live((q, x)) && h2.tuple(
            (q, x),
        ) == h0.tuple((q, x)) by {
            assert(h1.live((q, x)));
        }
    }
    assert forall|x: int| h2.free.contains(x) implies #[trigger] h0.free.contains(x) by {
        assert(h1.free.contains(x));
    }
    assert forall|i: int|
        1 <= i < h0.pages.len() && !h0.free.contains(i) && PageHeader::parse(
            h0.pages[i],
        ).page_type == PageType::Overflow implies #[trigger] h2.pages[i] == h0.pages[i] by {
        assert(h1.pages[i] == h0.pages[i]);
        assert(!h1.free.contains(i)) by {
            if h1.free.contains(i) {
                assert(h0.free.contains(i));
            }
        }
    }
    if h0.data_page(loc.0) {
        assert(h1.data_page(loc.0));
        assert(h1.slots(loc.0) == h0.slots(loc.0));
    }
}

proof fn lemma_chain_freed(p0: BufferPool, p1: BufferPool, loc: Loc, ids: Seq<u32>)
    requires
        pool_ok(p0),
        heap_of(p0).holds(loc, ids),
        p1 == (BufferPool { pm: p1.pm, ..p0 }),
        released(p0.pm, p1.pm, ids),
        typed(heap_of(p0)),
    ensures
        pool_ok(p1),
        typed(heap_of(p1)),
        heap_of(p1).pages.len() == heap_of(p0).pages.len(),
        forall|x: int|
            heap_of(p1).free.contains(x) ==> #[trigger] heap_of(p0).free.contains(x) || (0 <= x
                <= u32::MAX && ids.contains(x as u32)),
        forall|i: int|
            1 <= i < heap_of(p0).pages.len() && !ids.contains(i as u32)
                ==> #[trigger] heap_of(p1).pages[i] == heap_of(p0).pages[i],
        forall|q: u32| #[trigger]
            heap_of(p0).data_page(q) ==> heap_of(p1).data_page(q) && heap_of(p1).pages[q as int]
                == heap_of(p0).pages[q as int],
        saved_kept(p0, p1, -1),
{
    let h0 = heap_of(p0);
    let h1 = heap_of(p1);
    assert forall|q: u32| #[trigger] h0.data_page(q) implies !ids.contains(q) by {
        lemma_not_in_chain(h0, loc, ids, q);
    }
    assert forall|q: u32| #[trigger] p1.page_table@.contains_key(q) implies p1.page_table@[q]
        < p1.frames@.len() && p1.frames@[p1.page_table@[q] as int].page_id == Some(q) && q
        < p1.pm.count() by {
        assert(p0.page_table@.contains_key(q));
    }
    assert forall|g: int| 0 <= g < p1.frames@.len() && (#[trigger] p1.frames@[g]).page_id is Some
        implies p1.page_table@.contains_key(p1.frames@[g].page_id->0)
        && p1.page_table@[p1.frames@[g].page_id->0] == g by {
        assert(p0.frames@[g].page_id == p1.frames@[g].page_id);
    }
    assert forall|g: int|
        0 <= g < p1.frames@.len() && (#[trigger] p1.frames@[g]).page_id is Some && !p1.frames@[g].dirty
        implies p1.frames@[g].data == p1.pm.pages@[p1.frames@[g].page_id->0 as int] by {
        let q = p0.frames@[g].page_id->0;
        assert(p0.page_table@.contains_key(q));
        assert(p0.cached(q));
        assert(h0.data_page(q));
        assert(p1.pm.pages@[q as int] == p0.pm.pages@[q as int]);
    }
    assert(p1.wf());
    assert forall|q: u32| #[trigger] p0.cached(q) implies q < p0.pm.count()
        && p1.pm.pages@[q as int] == p0.pm.pages@[q as int] by {
        assert(h0.data_page(q));
        assert(!ids.contains(q));
    }
    lemma_direct_saved(p0, p1);
    assert forall|i: int| 1 <= i < h0.pages.len() && !ids.contains(i as u32) implies
        #[trigger] h1.pages[i] == h0.pages[i] by {
        assert(p1.pm.pages@[i] == p0.pm.pages@[i]);
    }
    assert forall|x: int| h1.free.contains(x) implies #[trigger] h0.free.contains(x) || (0 <= x
        <= u32::MAX && ids.contains(x as u32)) by {
        assert(p1.pm.is_free(x));
        assert(p0.pm.is_free(x) || (0 <= x <= u32::MAX && ids.contains(x as u32)));
    }
    assert forall|q: u32| #[trigger] h0.data_page(q) implies h1.data_page(q) && h1.pages[q as int]
        == h0.pages[q as int] by {
        assert(!ids.contains(q));
        assert(h1.pages[q as int] == h0.pages[q as int]);
        assert(!h0.free.contains(q as int));
    }
    assert forall|q: u32| #[trigger] p1.cached(q) implies h1.data_page(q) by {
        assert(p0.cached(q));
        assert(h0.data_page(q));
    }
    assert forall|q: u32|
        1 <= q < h1.pages.len() && PageHeader::parse(#[trigger] h1.pages[q as int]).page_type
            == PageType::Data implies h1.data_page(q) by {
        if ids.contains(q) {
            let m = choose|m: int| 0 <= m < ids.len() && ids[m] == q;
            lemma_chain_uncached(p0, loc, ids);
            assert(!p0.cached(ids[m]));
            assert(p1.pm.page(ids[m] as int) == empty_page(ids[m], PageType::Free));
            lemma_empty_page(q, PageType::Free);
        } else {
            assert(h1.pages[q as int] == h0.pages[q as int]);
            assert(h0.data_page(q));
        }
    }
}

/// Flushing changes no page that a reader of the pool sees.
pub proof fn lemma_flushed(p0: BufferPool, p1: BufferPool)
    requires
        pool_ok(p0),
        unpinned(p0),
        p1.wf(),
        p1.pages() == p0.pages(),
        p1.pm.count() == p0.pm.count(),
        p1.pm.pages@[0] == p0.pm.pages@[0],
        p1.page_table == p0.page_table,
        p1.frames@.len() == p0.frames@.len(),
        forall|f: int|
            0 <= f < p0.frames@.len() ==> (#[trigger] p1.frames@[f]).pin_count
                == p0.frames@[f].pin_count,
    ensures
        pool_ok(p1),
        unpinned(p1),
        heap_of(p1) == heap_of(p0),
{
    lemma_heap_same(p0, p1);
    assert forall|id: u32| #[trigger] p1.cached(id) implies heap_of(p1).data_page(id) by {
        assert(p0.cached(id));
    }
    assert forall|f: int| 0 <= f < p1.frames@.len() implies (
    #[trigger] p1.frames@[f]).pin_count == 0 by {
        assert(p0.frames@[f].pin_count == 0);
    }
}

} // verus!
