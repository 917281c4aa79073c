//! Buffer pool: LRU page cache with pin/unpin and dirty tracking.
//!
//! The buffer pool sits between the engine and the page file, caching
//! frequently accessed pages in memory to reduce I/O operations.

use std::collections::HashMap;

use vstd::prelude::*;

use crate::buffer::frame::BufferFrame;
use crate::bytes::zeros;
use crate::error::{GrumpyError, Result};
use crate::page::manager::{empty_page, free_pages_first, is_free_list_page, PageManager};
use crate::page::{Page, PageType, PAGE_SIZE};

verus! {

/// The index of the first free frame, the number of frames for none.
pub open spec fn free_frame(frames: Seq<BufferFrame>) -> int
    decreases frames.len(),
{
    if frames.len() == 0 {
        0
    } else if frames[0].page_id is None {
        0
    } else {
        1 + free_frame(frames.skip(1))
    }
}

/// The index of the least recently accessed frame that holds a page and is not
/// pinned, the first of several.
pub open spec fn lru_frame(frames: Seq<BufferFrame>) -> Option<int>
    decreases frames.len(),
{
    if frames.len() == 0 {
        None
    } else {
        let best = lru_frame(frames.drop_last());
        let last = frames.last();
        if last.pin_count > 0 || last.page_id is None {
            best
        } else {
            match best {
                None => Some(frames.len() - 1),
                Some(b) => if last.last_accessed < frames[b].last_accessed {
                    Some(frames.len() - 1)
                } else {
                    Some(b)
                },
            }
        }
    }
}

/// The frame that the next page is loaded into: a free one, or else the least
/// recently accessed that is not pinned.
pub open spec fn victim(frames: Seq<BufferFrame>) -> Option<int> {
    if free_frame(frames) < frames.len() {
        Some(free_frame(frames))
    } else {
        lru_frame(frames)
    }
}

proof fn lemma_free_frame(frames: Seq<BufferFrame>)
    ensures
        0 <= free_frame(frames) <= frames.len(),
        free_frame(frames) < frames.len() ==> frames[free_frame(frames)].page_id is None,
        forall|i: int|
            0 <= i < free_frame(frames) ==> (#[trigger] frames[i]).page_id is Some,
    decreases frames.len(),
{
    if frames.len() > 0 {
        let t = frames.skip(1);
        lemma_free_frame(t);
        assert forall|i: int| 0 <= i < free_frame(frames) implies (
        #[trigger] frames[i]).page_id is Some by {
            if i > 0 {
                assert(frames[i] == t[i - 1]);
            }
        }
    }
}

/// The victim is a frame that is not pinned.
pub proof fn lemma_lru_frame(frames: Seq<BufferFrame>)
    ensures
        lru_frame(frames) matches Some(b) ==> 0 <= b < frames.len() && frames[b].pin_count == 0
            && frames[b].page_id is Some,
        lru_frame(frames) is None ==> forall|i: int|
            0 <= i < frames.len() ==> (#[trigger] frames[i]).pin_count > 0
                || frames[i].page_id is None,
    decreases frames.len(),
{
    if frames.len() > 0 {
        let f = frames.drop_last();
        lemma_lru_frame(f);
        if lru_frame(frames) is None {
            assert forall|i: int| 0 <= i < frames.len() implies (#[trigger] frames[i]).pin_count > 0
                || frames[i].page_id is None by {
                if i < f.len() {
                    assert(f[i] == frames[i]);
                }
            }
        }
    }
}

/// There is a victim wherever some frame is not pinned.
pub proof fn law_unpinned_frame_is_available(frames: Seq<BufferFrame>, i: int)
    requires
        0 <= i < frames.len(),
        frames[i].pin_count == 0,
    ensures
        victim(frames) is Some,
        0 <= victim(frames)->0 < frames.len(),
{
    lemma_free_frame(frames);
    lemma_lru_frame(frames);
    if frames[i].page_id is None {
        if free_frame(frames) == frames.len() {
            assert(frames[i].page_id is Some);
        }
    }
}

/// The number after `n`, going round after the largest.
pub open spec fn next_tick(n: u64) -> u64 {
    if n == u64::MAX {
        0
    } else {
        (n + 1) as u64
    }
}

/// The number of frames that hold a page with changes.
pub open spec fn dirty_pages(frames: Seq<BufferFrame>) -> nat
    decreases frames.len(),
{
    if frames.len() == 0 {
        0
    } else {
        dirty_pages(frames.drop_last()) + (if frames.last().dirty && frames.last().page_id is Some {
            1nat
        } else {
            0
        })
    }
}

fn tick(n: u64) -> (r: u64)
    ensures
        r == next_tick(n),
{
    if n == u64::MAX {
        0
    } else {
        n + 1
    }
}

/// An LRU buffer pool that caches pages in memory.
///
/// Pages are loaded into fixed-size frames. When the pool is full, the least
/// recently accessed unpinned frame is evicted to make room.
pub struct BufferPool {
    /// All frames in the pool.
    pub frames: Vec<BufferFrame>,
    /// Mapping from page_id → frame index.
    pub page_table: HashMap<u32, usize>,
    /// The underlying page manager.
    pub pm: PageManager,
    /// Monotonic counter for LRU ordering.
    pub clock: u64,
    /// Number of page reads (for performance monitoring).
    pub read_count: u64,
    /// Number of page writes (for performance monitoring).
    pub write_count: u64,
}

/// From `a` to `b` every page but `x` that was in the file still is, and so is
/// every new one.
pub open spec fn saved_kept(a: BufferPool, b: BufferPool, x: int) -> bool {
    forall|i: int|
        0 <= i < b.pm.count() && i != x && (i < a.pm.count() ==> a.saved(i)) ==> #[trigger] b.saved(
            i,
        )
}

/// The page that is taken next: the last of the free-list, else a new one.
pub open spec fn next_page(pm: PageManager) -> u32 {
    if pm.free_ids().len() > 0 {
        pm.free_ids().last()
    } else {
        pm.count() as u32
    }
}

/// From `a` to `b` the next page was taken from a file.
pub open spec fn page_taken(a: PageManager, b: PageManager) -> bool {
    let free = a.free_ids();
    if free.len() > 0 {
        &&& b.count() == a.count()
        &&& b.free_ids() == free.drop_last()
        &&& is_free_list_page(b.page(0), free.drop_last())
        &&& forall|i: int| 1 <= i < a.count() ==> #[trigger] b.pages@[i] == a.pages@[i]
    } else {
        &&& b.count() == a.count() + 1
        &&& b.page(a.count()) == empty_page(a.count() as u32, PageType::Free)
        &&& forall|i: int| 0 <= i < a.count() ==> #[trigger] b.pages@[i] == a.pages@[i]
    }
}

/// The table without the page of a frame.
pub open spec fn table_without(table: Map<u32, usize>, frame: BufferFrame) -> Map<u32, usize> {
    match frame.page_id {
        Some(id) => table.remove(id),
        None => table,
    }
}

/// Whether a frame holds a page with changes.
pub open spec fn holds_changes(frame: BufferFrame) -> bool {
    frame.dirty && frame.page_id is Some
}

/// The file with the page of a frame, where that has changes.
pub open spec fn with_changes(pages: Seq<Page>, frame: BufferFrame) -> Seq<Page> {
    if holds_changes(frame) {
        pages.update(frame.page_id->0 as int, frame.data)
    } else {
        pages
    }
}

/// The frame when its page has left it.
pub open spec fn emptied(frame: BufferFrame) -> BufferFrame {
    if frame.page_id is Some {
        BufferFrame { page_id: None, pin_count: 0, dirty: false, last_accessed: 0, ..frame }
    } else {
        frame
    }
}

/// From `a` to `b` frame `f` was emptied; changes in it went to the file.
pub open spec fn evicted(a: BufferPool, b: BufferPool, f: int) -> bool {
    &&& 0 <= f < a.frames@.len()
    &&& b.frames@ == a.frames@.update(f, emptied(a.frames@[f]))
    &&& b.page_table@ == table_without(a.page_table@, a.frames@[f])
    &&& b.pm.pages@ == with_changes(a.pm.pages@, a.frames@[f])
    &&& b.write_count == (if holds_changes(a.frames@[f]) {
        next_tick(a.write_count)
    } else {
        a.write_count
    })
    &&& b.read_count == a.read_count
    &&& b.clock == a.clock
}

impl BufferPool {
    /// Neither the free-list page nor a free page is cached.
    pub open spec fn apart(&self) -> bool {
        forall|id: u32| #[trigger]
            self.cached(id) ==> id != 0 && !self.pm.is_free(id as int)
    }

    /// Page `id` is cached.
    pub open spec fn cached(&self, id: u32) -> bool {
        self.page_table@.contains_key(id)
    }

    /// The table and the frames agree, and every cached page exists.
    pub open spec fn table_ok(&self) -> bool {
        &&& self.pm.wf()
        &&& forall|id: u32| #[trigger]
            self.page_table@.contains_key(id) ==> self.page_table@[id] < self.frames@.len()
                && self.frames@[self.page_table@[id] as int].page_id == Some(id) && id
                < self.pm.count()
        &&& forall|f: int|
            0 <= f < self.frames@.len() && (#[trigger] self.frames@[f]).page_id is Some
                ==> self.page_table@.contains_key(self.frames@[f].page_id->0)
                && self.page_table@[self.frames@[f].page_id->0] == f
    }

    /// A page that is not dirty is in its frame as it is in the file.
    pub open spec fn coherent(&self) -> bool {
        forall|f: int|
            0 <= f < self.frames@.len() && (#[trigger] self.frames@[f]).page_id is Some
                && !self.frames@[f].dirty ==> self.frames@[f].data
                == self.pm.pages@[self.frames@[f].page_id->0 as int]
    }

    /// The pool is in order.
    pub open spec fn wf(&self) -> bool {
        self.table_ok() && self.coherent()
    }

    /// The bytes of page `i` as a reader of the pool sees them.
    pub open spec fn page(&self, i: int) -> Seq<u8> {
        if 0 <= i <= u32::MAX && self.page_table@.contains_key(i as u32) {
            self.frames@[self.page_table@[i as u32] as int].data@
        } else {
            self.pm.page(i)
        }
    }

    /// The pages as a reader of the pool sees them.
    pub open spec fn pages(&self) -> Seq<Seq<u8>> {
        Seq::new(self.pm.pages@.len(), |i: int| self.page(i))
    }

    /// Page `i` is in the file as a reader of the pool sees it.
    pub open spec fn saved(&self, i: int) -> bool {
        self.page(i) == self.pm.page(i)
    }

    /// Creates a new buffer pool with the given capacity (number of frames).
    pub fn new(capacity: usize, pm: PageManager) -> (r: Self)
        requires
            pm.wf(),
        ensures
            r.wf(),
            r.pm == pm,
            r.frames@.len() == capacity,
            forall|f: int|
                0 <= f < capacity ==> (#[trigger] r.frames@[f]).page_id is None
                    && r.frames@[f].pin_count == 0,
            r.page_table@ == Map::<u32, usize>::empty(),
            r.clock == 0,
            r.read_count == 0,
            r.write_count == 0,
    {
        broadcast use vstd::std_specs::hash::group_hash_axioms;

        let mut frames: Vec<BufferFrame> = Vec::new();
        let mut i: usize = 0;
        while i < capacity
            invariant
                i <= capacity,
                frames@.len() == i,
                forall|f: int|
                    0 <= f < i ==> (#[trigger] frames@[f]).page_id is None
                        && frames@[f].pin_count == 0,
            decreases capacity - i,
        {
            frames.push(BufferFrame::new());
            i = i + 1;
        }
        BufferPool {
            frames,
            page_table: HashMap::new(),
            pm,
            clock: 0,
            read_count: 0,
            write_count: 0,
        }
    }

    /// Fetches a page into the pool. If already cached, returns the cached
    /// frame. Otherwise, loads it (evicting an LRU frame if needed).
    ///
    /// The frame is **pinned** — the caller MUST call `unpin()` when done.
    ///
    /// Returns the frame index.
    pub fn fetch_page(&mut self, page_id: u32) -> (r: Result<usize>)
        requires
            old(self).wf(),
            old(self).cached(page_id) ==> old(self).frames@[old(self).page_table@[page_id] as int].pin_count
                < u32::MAX,
        ensures
            final(self).wf(),
            final(self).pages() == old(self).pages(),
            final(self).pm.count() == old(self).pm.count(),
            final(self).frames@.len() == old(self).frames@.len(),
            !old(self).cached(0) ==> final(self).pm.pages@[0] == old(self).pm.pages@[0],
            saved_kept(*old(self), *final(self), -1),
            forall|id: u32|
                final(self).cached(id) ==> #[trigger] old(self).cached(id) || id == page_id,
            match r {
                Ok(f) => {
                    &&& page_id < old(self).pm.count()
                    &&& final(self).cached(page_id)
                    &&& final(self).page_table@[page_id] == f
                    &&& f < final(self).frames@.len()
                    &&& final(self).clock == next_tick(old(self).clock)
                    &&& final(self).frames@[f as int].page_id == Some(page_id)
                    &&& final(self).frames@[f as int].last_accessed == final(self).clock
                    &&& final(self).frames@[f as int].data@ == old(self).pages()[page_id as int]
                    &&& forall|g: int|
                        0 <= g < old(self).frames@.len() && g != f ==> #[trigger] final(self).frames@[g] == old(self).frames@[g]
                    &&& old(self).cached(page_id) ==> {
                        &&& f == old(self).page_table@[page_id]
                        &&& final(self).frames@[f as int].pin_count == old(self).frames@[f as int].pin_count + 1
                        &&& final(self).frames@[f as int].dirty == old(self).frames@[f as int].dirty
                        &&& final(self).page_table == old(self).page_table
                        &&& final(self).pm == old(self).pm
                        &&& final(self).read_count == old(self).read_count
                        &&& final(self).write_count == old(self).write_count
                    }
                    &&& !old(self).cached(page_id) ==> {
                        &&& victim(old(self).frames@) == Some(f as int)
                        &&& final(self).frames@[f as int].pin_count == 1
                        &&& !final(self).frames@[f as int].dirty
                        &&& final(self).page_table@ == table_without(
                            old(self).page_table@,
                            old(self).frames@[f as int],
                        ).insert(page_id, f)
                        &&& final(self).pm.pages@ == with_changes(
                            old(self).pm.pages@,
                            old(self).frames@[f as int],
                        )
                        &&& final(self).read_count == next_tick(old(self).read_count)
                        &&& final(self).write_count == (if holds_changes(
                            old(self).frames@[f as int],
                        ) {
                            next_tick(old(self).write_count)
                        } else {
                            old(self).write_count
                        })
                    }
                },
                Err(e) => {
                    &&& !old(self).cached(page_id)
                    &&& match victim(old(self).frames@) {
                        None => e == GrumpyError::BufferPoolExhausted && *final(self) == *old(self),
                        Some(f) => page_id >= old(self).pm.count() && e
                            == GrumpyError::PageNotFound(page_id) && evicted(
                            *old(self),
                            *final(self),
                            f,
                        ),
                    }
                },
            },
    {
        broadcast use vstd::std_specs::hash::group_hash_axioms;

        let hit: Option<usize> = match self.page_table.get(&page_id) {
            Some(f) => Some(*f),
            None => None,
        };
        match hit {
            Some(frame_idx) => {
                let ghost before = *self;
                self.clock = tick(self.clock);
                let now: u64 = self.clock;
                let frame: &mut BufferFrame = &mut self.frames[frame_idx];
                frame.pin();
                frame.last_accessed = now;
                proof {
                    assert forall|i: int| 0 <= i < before.pages().len() implies self.pages()[i]
                        == before.pages()[i] by {}
                    assert(self.pages() =~= before.pages());
                    assert forall|i: int|
                        0 <= i < self.pm.count() && before.saved(i) implies #[trigger] self.saved(
                        i,
                    ) by {
                        assert(self.pages()[i] == self.page(i));
                        assert(before.pages()[i] == before.page(i));
                    }
                }
                Ok(frame_idx)
            },
            None => {
                let ghost p0 = *self;
                let frame_idx: usize = match self.find_free_frame() {
                    Ok(f) => f,
                    Err(e) => {
                        return Err(e);
                    },
                };
                let ghost p1 = *self;
                let data: Page = match self.pm.read_page(page_id) {
                    Ok(d) => d,
                    Err(e) => {
                        return Err(e);
                    },
                };
                self.read_count = tick(self.read_count);
                self.clock = tick(self.clock);
                let now: u64 = self.clock;
                let frame: &mut BufferFrame = &mut self.frames[frame_idx];
                frame.data = data;
                frame.page_id = Some(page_id);
                frame.pin_count = 1;
                frame.dirty = false;
                frame.last_accessed = now;
                self.page_table.insert(page_id, frame_idx);
                proof {
                    assert(!p1.cached(page_id));
                    lemma_loaded(p1, *self, page_id, frame_idx as int);
                    assert(p1.pages()[page_id as int] == p1.page(page_id as int));
                    assert(self.pages() =~= p1.pages()) by {
                        assert forall|i: int| 0 <= i < p1.pages().len() implies self.pages()[i]
                            == p1.pages()[i] by {
                            if i != page_id {
                                assert(self.page(i) == p1.page(i));
                            }
                        }
                    }
                    assert forall|i: int|
                        0 <= i < self.pm.count() && p0.saved(i) implies #[trigger] self.saved(i) by {
                        assert(p1.saved(i));
                        if i != page_id {
                            assert(self.page(i) == p1.page(i));
                        }
                    }
                }
                Ok(frame_idx)
            },
        }
    }

    /// Allocates a new page and loads it into the pool (pinned).
    ///
    /// Returns `(page_id, frame_index)`.
    pub fn new_page(&mut self) -> (r: Result<(u32, usize)>)
        requires
            old(self).wf(),
            old(self).pm.free_ok(),
            old(self).pm.free_ids().len() > 0 || old(self).pm.count() < u32::MAX,
        ensures
            final(self).frames@.len() == old(self).frames@.len(),
            r is Ok == (victim(old(self).frames@) is Some),
            match r {
                Ok(t) => {
                    &&& t.0 == next_page(old(self).pm)
                    &&& victim(old(self).frames@) == Some(t.1 as int)
                    &&& t.1 < final(self).frames@.len()
                    &&& exists|pm: PageManager| #[trigger]
                        page_taken(old(self).pm, pm) && final(self).pm.pages@ == with_changes(
                            pm.pages@,
                            old(self).frames@[t.1 as int],
                        )
                    &&& final(self).page_table@ == table_without(
                        old(self).page_table@,
                        old(self).frames@[t.1 as int],
                    ).insert(t.0, t.1)
                    &&& final(self).clock == next_tick(old(self).clock)
                    &&& final(self).read_count == old(self).read_count
                    &&& final(self).write_count == (if holds_changes(old(self).frames@[t.1 as int]) {
                        next_tick(old(self).write_count)
                    } else {
                        old(self).write_count
                    })
                    &&& final(self).frames@[t.1 as int].page_id == Some(t.0)
                    &&& final(self).frames@[t.1 as int].pin_count == 1
                    &&& final(self).frames@[t.1 as int].dirty
                    &&& final(self).frames@[t.1 as int].last_accessed == final(self).clock
                    &&& final(self).frames@[t.1 as int].data@ == zeros(8192)
                    &&& forall|g: int|
                        0 <= g < old(self).frames@.len() && g != t.1 ==> #[trigger] final(self).frames@[g] == old(self).frames@[g]
                },
                Err(e) => {
                    &&& e == GrumpyError::BufferPoolExhausted
                    &&& *final(self) == (BufferPool { pm: final(self).pm, ..*old(self) })
                    &&& page_taken(old(self).pm, final(self).pm)
                },
            },
            old(self).apart() ==> {
                &&& final(self).wf()
                &&& final(self).pm.free_ok()
                &&& free_pages_first(old(self).pm, final(self).pm, 1)
                &&& old(self).pm.count() <= final(self).pm.count() <= old(self).pm.count() + 1
                &&& forall|x: int| final(self).pm.is_free(x) ==> #[trigger] old(self).pm.is_free(x)
                &&& match r {
                    Ok(t) => {
                        &&& 1 <= t.0 < final(self).pm.count()
                        &&& t.0 < old(self).pm.count() ==> old(self).pm.is_free(t.0 as int)
                        &&& !final(self).pm.is_free(t.0 as int)
                        &&& final(self).cached(t.0)
                        &&& final(self).page_table@[t.0] == t.1
                        &&& final(self).pages()[t.0 as int] == zeros(8192)
                        &&& saved_kept(*old(self), *final(self), t.0 as int)
                        &&& forall|i: int|
                            1 <= i < old(self).pm.count() && i != t.0 ==> #[trigger] final(self).pages()[i] == old(self).pages()[i]
                        &&& forall|id: u32|
                            final(self).cached(id) ==> #[trigger] old(self).cached(id) || id == t.0
                    },
                    Err(_) => forall|i: int|
                        1 <= i < old(self).pm.count() ==> #[trigger] final(self).pages()[i] == old(self).pages()[i],
                }
            },
    {
        broadcast use vstd::std_specs::hash::group_hash_axioms;

        let ghost p0 = *self;
        let page_id: u32 = match self.pm.allocate_page() {
            Ok(id) => id,
            Err(e) => {
                return Err(e);
            },
        };
        let ghost p1 = *self;
        proof {
            assert(page_taken(p0.pm, p1.pm));
            assert(p1.table_ok()) by {
                assert forall|id: u32| #[trigger] p1.page_table@.contains_key(id) implies
                    p1.page_table@[id] < p1.frames@.len()
                    && p1.frames@[p1.page_table@[id] as int].page_id == Some(id) && id
                    < p1.pm.count() by {
                    assert(p0.page_table@.contains_key(id));
                }
            }
            if p0.apart() {
                assert(!p0.cached(page_id)) by {
                    if p0.cached(page_id) {
                        assert(page_id < p0.pm.count());
                        assert(p0.pm.is_free(page_id as int));
                    }
                }
                assert forall|id: u32| #[trigger] p1.page_table@.contains_key(id) implies id != 0
                    && id != page_id && p1.pm.pages@[id as int] == p0.pm.pages@[id as int] by {
                    assert(p0.cached(id));
                    assert(id < p0.pm.count());
                }
                assert(p1.coherent()) by {
                    assert forall|f: int|
                        0 <= f < p1.frames@.len() && (#[trigger] p1.frames@[f]).page_id is Some
                            && !p1.frames@[f].dirty implies p1.frames@[f].data
                        == p1.pm.pages@[p1.frames@[f].page_id->0 as int] by {
                        let id = p0.frames@[f].page_id->0;
                        assert(p0.page_table@.contains_key(id));
                        assert(p1.page_table@.contains_key(id));
                    }
                }
                assert forall|i: int| 1 <= i < p0.pm.count() && i != page_id implies
                    #[trigger] p1.pages()[i] == p0.pages()[i] by {}
            }
        }
        let frame_idx: usize = match self.find_free_frame() {
            Ok(f) => f,
            Err(e) => {
                return Err(e);
            },
        };
        let ghost p2 = *self;
        proof {
            if p0.apart() {
                assert(!p0.cached(0));
                assert(!p1.cached(0));
                assert(p2.pm.pages@[0] == p1.pm.pages@[0]);
                assert(p2.pm.free_ids() == p1.pm.free_ids());
                let free = p0.pm.free_ids();
                if free.len() > 0 {
                    assert(free.drop_last() =~= free.take(free.len() - 1));
                }
                assert forall|x: int| p2.pm.is_free(x) == p1.pm.is_free(x) by {}
                lemma_same_free(p1.pm, p2.pm);
            }
        }
        self.clock = tick(self.clock);
        let now: u64 = self.clock;
        let frame: &mut BufferFrame = &mut self.frames[frame_idx];
        frame.data = [0u8;PAGE_SIZE];
        frame.page_id = Some(page_id);
        frame.pin_count = 1;
        frame.dirty = true;
        frame.last_accessed = now;
        self.page_table.insert(page_id, frame_idx);
        proof {
            assert(self.frames@[frame_idx as int].data@ =~= zeros(8192));
            if p0.apart() {
                assert(!p2.cached(page_id));
                lemma_loaded(p2, *self, page_id, frame_idx as int);
                assert forall|i: int| 1 <= i < p0.pm.count() && i != page_id implies
                    #[trigger] self.pages()[i] == p0.pages()[i] by {
                    assert(self.page(i) == p2.page(i));
                    assert(p2.pages()[i] == p1.pages()[i]);
                }
                assert forall|i: int|
                    0 <= i < self.pm.count() && i != page_id && (i < p0.pm.count() ==> p0.saved(i))
                    implies #[trigger] self.saved(i) by {
                    assert(p1.saved(i)) by {
                        if 0 < i < p0.pm.count() {
                            assert(p1.pages()[i] == p0.pages()[i]);
                            assert(p1.pm.pages@[i] == p0.pm.pages@[i]);
                        }
                    }
                    assert(p2.saved(i));
                    assert(self.page(i) == p2.page(i));
                }
            }
        }
        Ok((page_id, frame_idx))
    }

    /// Unpins a frame, optionally marking it dirty.
    pub fn unpin(&mut self, page_id: u32, dirty: bool) -> (r: Result<()>)
        requires
            old(self).table_ok(),
            old(self).cached(page_id) ==> old(self).frames@[old(self).page_table@[page_id] as int].pin_count
                > 0,
        ensures
            r is Ok == old(self).cached(page_id),
            match r {
                Ok(_) => {
                    let f = old(self).page_table@[page_id] as int;
                    &&& final(self).frames@ == old(self).frames@.update(
                        f,
                        BufferFrame {
                            pin_count: (old(self).frames@[f].pin_count - 1) as u32,
                            dirty: old(self).frames@[f].dirty || dirty,
                            ..old(self).frames@[f]
                        },
                    )
                    &&& final(self).page_table == old(self).page_table
                    &&& final(self).pm == old(self).pm
                    &&& final(self).clock == old(self).clock
                    &&& final(self).read_count == old(self).read_count
                    &&& final(self).write_count == old(self).write_count
                },
                Err(e) => e == GrumpyError::PageNotFound(page_id) && *final(self) == *old(self),
            },
    {
        broadcast use vstd::std_specs::hash::group_hash_axioms;

        let frame_idx: usize = match self.page_table.get(&page_id) {
            Some(f) => *f,
            None => {
                return Err(GrumpyError::PageNotFound(page_id));
            },
        };
        let frame: &mut BufferFrame = &mut self.frames[frame_idx];
        frame.unpin(dirty);
        Ok(())
    }

    /// Flushes a specific dirty page.
    pub fn flush_page(&mut self, page_id: u32) -> (r: Result<()>)
        requires
            old(self).table_ok(),
        ensures
            r is Ok == old(self).cached(page_id),
            match r {
                Ok(_) => {
                    let f = old(self).page_table@[page_id] as int;
                    let frame = old(self).frames@[f];
                    &&& final(self).frames@ == old(self).frames@.update(
                        f,
                        BufferFrame { dirty: false, ..frame },
                    )
                    &&& final(self).pm.pages@ == (if frame.dirty {
                        old(self).pm.pages@.update(page_id as int, frame.data)
                    } else {
                        old(self).pm.pages@
                    })
                    &&& final(self).write_count == (if frame.dirty {
                        next_tick(old(self).write_count)
                    } else {
                        old(self).write_count
                    })
                    &&& final(self).page_table == old(self).page_table
                    &&& final(self).clock == old(self).clock
                    &&& final(self).read_count == old(self).read_count
                    &&& final(self).table_ok()
                    &&& old(self).coherent() ==> final(self).coherent()
                    &&& final(self).pages() == old(self).pages()
                },
                Err(e) => e == GrumpyError::PageNotFound(page_id) && *final(self) == *old(self),
            },
    {
        broadcast use vstd::std_specs::hash::group_hash_axioms;

        let ghost p0 = *self;
        let frame_idx: usize = match self.page_table.get(&page_id) {
            Some(f) => *f,
            None => {
                return Err(GrumpyError::PageNotFound(page_id));
            },
        };
        if self.frames[frame_idx].dirty {
            let data: Page = self.frames[frame_idx].data;
            match self.pm.write_page(page_id, &data) {
                Ok(_) => {},
                Err(e) => {
                    return Err(e);
                },
            }
            self.write_count = tick(self.write_count);
            let frame: &mut BufferFrame = &mut self.frames[frame_idx];
            frame.dirty = false;
        }
        proof {
            assert(self.frames@ =~= p0.frames@.update(
                frame_idx as int,
                BufferFrame { dirty: false, ..p0.frames@[frame_idx as int] },
            ));
            assert(self.pages() =~= p0.pages()) by {
                assert forall|i: int| 0 <= i < p0.pages().len() implies self.pages()[i]
                    == p0.pages()[i] by {
                    if i == page_id {
                        assert(p0.cached(page_id));
                    }
                }
            }
        }
        Ok(())
    }

    /// Flushes all dirty pages.
    pub fn flush_all(&mut self) -> (r: Result<()>)
        requires
            old(self).wf(),
        ensures
            r is Ok,
            final(self).wf(),
            final(self).pages() == old(self).pages(),
            crate::page::manager::contents(final(self).pm) == old(self).pages(),
            final(self).pm.count() == old(self).pm.count(),
            final(self).page_table == old(self).page_table,
            final(self).clock == old(self).clock,
            final(self).read_count == old(self).read_count,
            final(self).write_count == (old(self).write_count + dirty_pages(old(self).frames@))
                % 0x1_0000_0000_0000_0000,
            final(self).frames@.len() == old(self).frames@.len(),
            forall|f: int|
                0 <= f < old(self).frames@.len() ==> #[trigger] final(self).frames@[f] == (
                BufferFrame {
                    dirty: old(self).frames@[f].dirty && old(self).frames@[f].page_id is None,
                    ..old(self).frames@[f]
                }),
            !old(self).cached(0) ==> final(self).pm.pages@[0] == old(self).pm.pages@[0],
    {
        let ghost p0 = *self;
        let mut i: usize = 0;
        while i < self.frames.len()
            invariant
                i <= self.frames@.len(),
                p0.wf(),
                self.wf(),
                self.pages() == p0.pages(),
                self.pm.count() == p0.pm.count(),
                self.page_table == p0.page_table,
                self.clock == p0.clock,
                self.read_count == p0.read_count,
                self.write_count == (p0.write_count + dirty_pages(p0.frames@.take(i as int)))
                    % 0x1_0000_0000_0000_0000,
                self.frames@.len() == p0.frames@.len(),
                forall|f: int|
                    0 <= f < i ==> #[trigger] self.frames@[f] == (BufferFrame {
                        dirty: p0.frames@[f].dirty && p0.frames@[f].page_id is None,
                        ..p0.frames@[f]
                    }),
                forall|f: int|
                    i <= f < p0.frames@.len() ==> #[trigger] self.frames@[f] == p0.frames@[f],
                !p0.cached(0) ==> self.pm.pages@[0] == p0.pm.pages@[0],
            decreases p0.frames@.len() - i,
        {
            let ghost before = *self;
            assert(self.frames@[i as int] == p0.frames@[i as int]);
            assert(p0.frames@.take(i + 1).drop_last() =~= p0.frames@.take(i as int));
            match self.frames[i].page_id {
                Some(pid) => {
                    assert(self.page_table@.contains_key(pid) && self.page_table@[pid] == i);
                    match self.flush_page(pid) {
                        Ok(_) => {},
                        Err(e) => {
                            return Err(e);
                        },
                    }
                    proof {
                        if !p0.cached(0) {
                            assert(pid != 0);
                        }
                    }
                },
                None => {
                    assert(self.frames@[i as int] == (BufferFrame {
                        dirty: p0.frames@[i as int].dirty && p0.frames@[i as int].page_id is None,
                        ..p0.frames@[i as int]
                    }));
                },
            }
            i = i + 1;
        }
        proof {
            assert(p0.frames@.take(i as int) =~= p0.frames@);
            assert(crate::page::manager::contents(self.pm) =~= p0.pages()) by {
                assert forall|k: int| 0 <= k < p0.pages().len() implies
                    crate::page::manager::contents(self.pm)[k] == p0.pages()[k] by {
                    assert(self.pages()[k] == p0.pages()[k]);
                    if self.page_table@.contains_key(k as u32) {
                        let f = self.page_table@[k as u32] as int;
                        assert(!self.frames@[f].dirty);
                        assert(self.frames@[f].data == self.pm.pages@[k]);
                    }
                }
            }
        }
        Ok(())
    }

    /// Returns a reference to a frame's data.
    pub fn get_frame(&self, frame_idx: usize) -> (r: &BufferFrame)
        requires
            frame_idx < self.frames@.len(),
        ensures
            *r == self.frames@[frame_idx as int],
    {
        &self.frames[frame_idx]
    }

    /// Returns a mutable reference to a frame's data.
    pub fn get_frame_mut(&mut self, frame_idx: usize) -> (r: &mut BufferFrame)
        requires
            frame_idx < old(self).frames@.len(),
        ensures
            *r == old(self).frames@[frame_idx as int],
            final(self).frames@ == old(self).frames@.update(frame_idx as int, *final(r)),
            final(self).page_table == old(self).page_table,
            final(self).pm == old(self).pm,
            final(self).clock == old(self).clock,
            final(self).read_count == old(self).read_count,
            final(self).write_count == old(self).write_count,
    {
        &mut self.frames[frame_idx]
    }

    /// Provides direct access to the underlying PageManager. Used for
    /// operations that bypass the buffer pool (e.g., overflow pages).
    pub fn page_manager(&mut self) -> (r: &mut PageManager)
        ensures
            *r == old(self).pm,
            *final(self) == (BufferPool { pm: *final(r), ..*old(self) }),
    {
        &mut self.pm
    }

    /// Returns the pool capacity.
    pub fn capacity(&self) -> (r: usize)
        ensures
            r == self.frames@.len(),
    {
        self.frames.len()
    }

    /// Returns the number of pages currently cached.
    pub fn cached_count(&self) -> (r: usize)
        ensures
            r == self.page_table@.len(),
    {
        broadcast use vstd::std_specs::hash::group_hash_axioms;

        self.page_table.len()
    }

    /// Finds a free frame: first checks for empty frames, then evicts LRU.
    fn find_free_frame(&mut self) -> (r: Result<usize>)
        requires
            old(self).table_ok(),
        ensures
            final(self).table_ok(),
            final(self).pm.count() == old(self).pm.count(),
            old(self).coherent() ==> final(self).coherent() && final(self).pages() == old(
                self).pages() && saved_kept(*old(self), *final(self), -1),
            !old(self).cached(0) ==> final(self).pm.pages@[0] == old(self).pm.pages@[0],
            final(self).frames@.len() == old(self).frames@.len(),
            forall|id: u32| final(self).cached(id) ==> #[trigger] old(self).cached(id),
            r is Ok == (victim(old(self).frames@) is Some),
            match r {
                Ok(f) => victim(old(self).frames@) == Some(f as int) && f < old(self).frames@.len()
                    && evicted(*old(self), *final(self), f as int),
                Err(e) => e == GrumpyError::BufferPoolExhausted && *final(self) == *old(self),
            },
    {
        broadcast use vstd::std_specs::hash::group_hash_axioms;

        let ghost p0 = *self;
        let n: usize = self.frames.len();
        let free: usize = first_free(&self.frames);
        proof {
            lemma_free_frame(p0.frames@);
        }
        if free < n {
            assert(p0.frames@.update(free as int, p0.frames@[free as int]) =~= p0.frames@);
            return Ok(free);
        }
        let victim_idx: usize = match least_recent(&self.frames) {
            Some(i) => i,
            None => {
                return Err(GrumpyError::BufferPoolExhausted);
            },
        };
        proof {
            lemma_lru_frame(p0.frames@);
        }
        let pid: u32 = match self.frames[victim_idx].page_id {
            Some(p) => p,
            None => 0,
        };
        match self.flush_page(pid) {
            Ok(_) => {},
            Err(e) => {
                return Err(e);
            },
        }
        let ghost p1 = *self;
        self.page_table.remove(&pid);
        let frame: &mut BufferFrame = &mut self.frames[victim_idx];
        frame.reset();
        proof {
            lemma_dropped(p1, *self, pid, victim_idx as int);
            assert(self.frames@ =~= p0.frames@.update(
                victim_idx as int,
                emptied(p0.frames@[victim_idx as int]),
            ));
            if p0.coherent() {
                assert forall|i: int| 0 <= i < self.pm.count() && p0.saved(i) implies #[trigger] self.saved(
                    i,
                ) by {
                    assert(self.pages()[i] == self.page(i));
                    assert(p0.pages()[i] == p0.page(i));
                }
            }
        }
        Ok(victim_idx)
    }
}

fn first_free(frames: &Vec<BufferFrame>) -> (r: usize)
    ensures
        r == free_frame(frames@),
        r <= frames@.len(),
{
    let mut i: usize = 0;
    proof {
        lemma_free_frame(frames@);
    }
    while i < frames.len() && !frames[i].is_free()
        invariant
            i <= frames@.len(),
            forall|j: int| 0 <= j < i ==> (#[trigger] frames@[j]).page_id is Some,
        decreases frames@.len() - i,
    {
        i = i + 1;
    }
    proof {
        let f = free_frame(frames@);
        if f < i {
            assert(frames@[f].page_id is Some);
        } else if i < f {
            assert(frames@[i as int].page_id is Some);
        }
    }
    i
}

fn least_recent(frames: &Vec<BufferFrame>) -> (r: Option<usize>)
    ensures
        match r {
            Some(i) => lru_frame(frames@) == Some(i as int),
            None => lru_frame(frames@) is None,
        },
{
    let ghost all = frames@;
    let mut best: Option<usize> = None;
    let mut i: usize = 0;
    assert(all.take(0) =~= Seq::<BufferFrame>::empty());
    while i < frames.len()
        invariant
            all == frames@,
            i <= all.len(),
            match best {
                Some(b) => b < i && lru_frame(all.take(i as int)) == Some(b as int),
                None => lru_frame(all.take(i as int)) is None,
            },
        decreases all.len() - i,
    {
        proof {
            assert(all.take(i + 1).drop_last() =~= all.take(i as int));
            assert(all.take(i + 1).last() == all[i as int]);
        }
        if !frames[i].is_pinned() && !frames[i].is_free() {
            match best {
                None => {
                    best = Some(i);
                },
                Some(b) => {
                    if frames[i].last_accessed < frames[b].last_accessed {
                        best = Some(i);
                    }
                },
            }
        }
        i = i + 1;
    }
    assert(all.take(i as int) =~= all);
    best
}

/// Loading a page into an empty frame keeps the pool in order.
proof fn lemma_loaded(a: BufferPool, b: BufferPool, id: u32, f: int)
    requires
        a.wf(),
        !a.cached(id),
        id < a.pm.count(),
        0 <= f < a.frames@.len(),
        a.frames@[f].page_id is None,
        b.pm == a.pm,
        b.page_table@ == a.page_table@.insert(id, f as usize),
        b.frames@.len() == a.frames@.len(),
        f <= usize::MAX,
        b.frames@[f].page_id == Some(id),
        b.frames@[f].dirty || b.frames@[f].data == a.pm.pages@[id as int],
        forall|g: int| 0 <= g < a.frames@.len() && g != f ==> #[trigger] b.frames@[g] == a.frames@[g],
    ensures
        b.wf(),
        forall|i: int| i != id ==> #[trigger] b.page(i) == a.page(i),
        b.page(id as int) == b.frames@[f].data@,
{
    assert forall|q: u32| #[trigger] b.page_table@.contains_key(q) implies b.page_table@[q]
        < b.frames@.len() && b.frames@[b.page_table@[q] as int].page_id == Some(q) && q
        < b.pm.count() by {
        if q != id {
            assert(a.page_table@.contains_key(q));
            assert(a.page_table@[q] != f);
        }
    }
    assert forall|g: int| 0 <= g < b.frames@.len() && (#[trigger] b.frames@[g]).page_id is Some
        implies b.page_table@.contains_key(b.frames@[g].page_id->0)
        && b.page_table@[b.frames@[g].page_id->0] == g by {
        if g != f {
            assert(b.frames@[g] == a.frames@[g]);
        }
    }
    assert forall|g: int|
        0 <= g < b.frames@.len() && (#[trigger] b.frames@[g]).page_id is Some && !b.frames@[g].dirty
        implies b.frames@[g].data == b.pm.pages@[b.frames@[g].page_id->0 as int] by {
        if g != f {
            assert(b.frames@[g] == a.frames@[g]);
        }
    }
    assert forall|i: int| i != id implies #[trigger] b.page(i) == a.page(i) by {
        if 0 <= i <= u32::MAX && a.page_table@.contains_key(i as u32) {
            assert(a.page_table@[i as u32] != f);
        }
    }
}

/// Dropping a clean page from the table keeps the pool in order.
proof fn lemma_dropped(a: BufferPool, b: BufferPool, id: u32, f: int)
    requires
        a.table_ok(),
        a.cached(id),
        a.page_table@[id] == f,
        0 <= f < a.frames@.len(),
        !a.frames@[f].dirty,
        b.pm == a.pm,
        b.page_table@ == a.page_table@.remove(id),
        b.frames@.len() == a.frames@.len(),
        b.frames@[f].page_id is None,
        forall|g: int| 0 <= g < a.frames@.len() && g != f ==> #[trigger] b.frames@[g] == a.frames@[g],
    ensures
        b.table_ok(),
        a.coherent() ==> b.coherent() && b.pages() == a.pages(),
{
    assert forall|q: u32| #[trigger] b.page_table@.contains_key(q) implies b.page_table@[q]
        < b.frames@.len() && b.frames@[b.page_table@[q] as int].page_id == Some(q) && q
        < b.pm.count() by {
        assert(a.page_table@.contains_key(q));
        if a.page_table@[q] == f {
            assert(a.frames@[f].page_id == Some(q));
        }
    }
    assert forall|g: int| 0 <= g < b.frames@.len() && (#[trigger] b.frames@[g]).page_id is Some
        implies b.page_table@.contains_key(b.frames@[g].page_id->0)
        && b.page_table@[b.frames@[g].page_id->0] == g by {
        assert(b.frames@[g] == a.frames@[g]);
    }
    if a.coherent() {
        assert forall|g: int|
            0 <= g < b.frames@.len() && (#[trigger] b.frames@[g]).page_id is Some && !b.frames@[g].dirty
            implies b.frames@[g].data == b.pm.pages@[b.frames@[g].page_id->0 as int] by {
            assert(b.frames@[g] == a.frames@[g]);
        }
        assert forall|i: int| 0 <= i < a.pages().len() implies #[trigger] b.pages()[i]
            == a.pages()[i] by {
            if a.page_table@.contains_key(i as u32) {
                if i == id {
                    assert(a.frames@[f].data == a.pm.pages@[id as int]);
                } else {
                    assert(a.page_table@[i as u32] != f) by {
                        if a.page_table@[i as u32] == f {
                            assert(a.frames@[f].page_id == Some(i as u32));
                        }
                    }
                    assert(b.page_table@.contains_key(i as u32));
                }
            }
        }
        assert(b.pages() =~= a.pages());
    }
}

/// Two files with the same first page and size have the same free-list.
pub proof fn lemma_same_free(a: PageManager, b: PageManager)
    requires
        a.free_ok(),
        b.count() == a.count(),
        b.pages@[0] == a.pages@[0],
    ensures
        b.free_ok(),
        forall|x: int| #[trigger] b.is_free(x) == a.is_free(x),
{
    assert(b.free_ids() == a.free_ids());
    assert forall|i: int| 0 <= i < b.free_ids().len() implies 1 <= #[trigger] b.free_ids()[i]
        < b.count() by {
        assert(1 <= a.free_ids()[i] < a.count());
    }
    assert forall|i: int, j: int| 0 <= i < j < b.free_ids().len() implies #[trigger] b.free_ids()[i]
        != #[trigger] b.free_ids()[j] by {
        assert(a.free_ids()[i] != a.free_ids()[j]);
    }
    assert forall|x: int| #[trigger] b.is_free(x) == a.is_free(x) by {}
}

/// A frame is taken for a page only if it is free or, where none is, if it is
/// not pinned and no other such frame was left untouched for longer.
pub proof fn law_least_recent_frame_goes(frames: Seq<BufferFrame>, i: int)
    requires
        victim(frames) is Some,
        0 <= i < frames.len(),
    ensures
        0 <= victim(frames)->0 < frames.len(),
        frames[i].page_id is None ==> frames[victim(frames)->0].page_id is None && victim(
            frames,
        )->0 <= i,
        frames[victim(frames)->0].page_id is Some ==> {
            &&& frames[victim(frames)->0].pin_count == 0
            &&& frames[i].pin_count == 0 ==> frames[victim(frames)->0].last_accessed
                <= frames[i].last_accessed
        },
{
    lemma_free_frame(frames);
    lemma_lru_frame(frames);
    if frames[i].pin_count == 0 && frames[i].page_id is Some {
        lemma_least_recent(frames, i);
    }
}

proof fn lemma_least_recent(frames: Seq<BufferFrame>, i: int)
    requires
        0 <= i < frames.len(),
        frames[i].pin_count == 0,
        frames[i].page_id is Some,
    ensures
        lru_frame(frames) is Some,
        frames[lru_frame(frames)->0].last_accessed <= frames[i].last_accessed,
    decreases frames.len(),
{
    let f = frames.drop_last();
    lemma_lru_frame(f);
    lemma_lru_frame(frames);
    if i < f.len() {
        assert(f[i] == frames[i]);
        lemma_least_recent(f, i);
        let b = lru_frame(f)->0;
        assert(f[b] == frames[b]);
    } else if lru_frame(f) is Some {
        let b = lru_frame(f)->0;
        assert(f[b] == frames[b]);
    }
}

} // verus!
