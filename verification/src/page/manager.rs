//! Page manager: the pages of one file, and the free-list on its first page.
//!
//! The manager holds the image of a page file. Page 0 is reserved for the
//! free-list, which tracks deallocated pages available for reuse. User pages
//! start at page ID 1.

use vstd::prelude::*;

use crate::bytes::{
    field, get_u32, lemma_field_frame, lemma_field_written, lemma_le_bytes_len,
    lemma_pow256_values, splice, u32_le, zeros,
};
use crate::error::{GrumpyError, Result};
use crate::page::{
    lemma_header_frame, write_at, Page, PageHeader, PageType, PAGE_HEADER_SIZE, PAGE_SIZE,
};

verus! {

/// How many page IDs the free-list page can hold.
pub const FREE_LIST_CAPACITY: usize = 2039;

/// The smaller of two numbers.
pub open spec fn min_int(a: int, b: int) -> int {
    if a <= b {
        a
    } else {
        b
    }
}

/// The free page IDs that a free-list page records.
pub open spec fn free_list(p: Seq<u8>) -> Seq<u32> {
    Seq::new(
        min_int(field(p, 32, 4) as int, FREE_LIST_CAPACITY as int) as nat,
        |i: int| field(p, 36 + 4 * i, 4) as u32,
    )
}

/// `p` is the free-list page written for `ids`: IDs past the capacity are
/// counted but not stored, and the rest of the page is zero.
pub open spec fn is_free_list_page(p: Seq<u8>, ids: Seq<u32>) -> bool {
    let stored = min_int(ids.len() as int, FREE_LIST_CAPACITY as int);
    &&& p.len() == PAGE_SIZE
    &&& PageHeader::parse(p) == PageHeader::fresh(0, PageType::FreeList)
    &&& field(p, 32, 4) == ids.len()
    &&& forall|i: int| 0 <= i < stored ==> #[trigger] field(p, 36 + 4 * i, 4) == ids[i]
    &&& forall|i: int| 36 + 4 * stored <= i < PAGE_SIZE ==> #[trigger] p[i] == 0
}

/// The list with everything past the free-list capacity dropped.
pub open spec fn capped(ids: Seq<u32>) -> Seq<u32> {
    ids.take(min_int(ids.len() as int, FREE_LIST_CAPACITY as int))
}

/// `n` pages were taken: free ones as far as there were any, then new ones.
pub open spec fn free_pages_first(old_pm: PageManager, new_pm: PageManager, n: nat) -> bool {
    let f = old_pm.free_ids().len();
    if n <= f {
        &&& new_pm.free_ids() == old_pm.free_ids().take(f - n)
        &&& new_pm.count() == old_pm.count()
    } else {
        &&& new_pm.free_ids().len() == 0
        &&& new_pm.count() == old_pm.count() + n - f
    }
}

proof fn lemma_free_list_page(p: Seq<u8>, ids: Seq<u32>)
    requires
        is_free_list_page(p, ids),
    ensures
        free_list(p) == capped(ids),
{
    assert forall|i: int| 0 <= i < capped(ids).len() implies #[trigger] free_list(p)[i] == capped(
        ids,
    )[i] by {
        assert(field(p, 36 + 4 * i, 4) == ids[i]);
    }
    assert(free_list(p) =~= capped(ids));
}

/// An empty page of the given kind: its header and zeros.
pub open spec fn empty_page(page_id: u32, page_type: PageType) -> Seq<u8> {
    splice(zeros(PAGE_SIZE as nat), 0, PageHeader::fresh(page_id, page_type).image())
}

/// Builds an empty page of the given kind.
pub fn make_empty_page(page_id: u32, page_type: PageType) -> (r: Page)
    ensures
        r@ == empty_page(page_id, page_type),
        PageHeader::parse(r@) == PageHeader::fresh(page_id, page_type),
        r@.skip(32) == zeros(8160),
{
    let mut buf: Page = [0u8;PAGE_SIZE];
    proof {
        assert(buf@ =~= zeros(PAGE_SIZE as nat));
        assert(buf@.skip(32) =~= zeros(8160));
    }
    PageHeader::new(page_id, page_type).write_to(&mut buf);
    buf
}

pub proof fn lemma_empty_page(page_id: u32, page_type: PageType)
    ensures
        empty_page(page_id, page_type).len() == PAGE_SIZE,
        PageHeader::parse(empty_page(page_id, page_type)) == PageHeader::fresh(page_id, page_type),
{
    crate::page::lemma_header_round_trip(
        PageHeader::fresh(page_id, page_type),
        zeros(PAGE_SIZE as nat),
    );
}

/// Manages the pages of a single database file.
pub struct PageManager {
    /// The pages of the file, page 0 included.
    pub pages: Vec<Page>,
}

/// The bytes of the pages of a file.
pub open spec fn contents(pm: PageManager) -> Seq<Seq<u8>> {
    Seq::new(pm.pages@.len(), |i: int| pm.pages@[i]@)
}

impl PageManager {
    /// Page IDs fit in 32 bits.
    pub open spec fn wf(&self) -> bool {
        self.pages@.len() <= u32::MAX
    }

    /// The number of pages.
    pub open spec fn count(&self) -> int {
        self.pages@.len() as int
    }

    /// The bytes of page `i`.
    pub open spec fn page(&self, i: int) -> Seq<u8> {
        self.pages@[i]@
    }

    /// The pages available for reuse; the last is handed out first.
    pub open spec fn free_ids(&self) -> Seq<u32> {
        free_list(self.page(0))
    }

    /// The free-list names pages of the file other than page 0, each once.
    pub open spec fn free_ok(&self) -> bool {
        &&& self.wf()
        &&& 1 <= self.count()
        &&& forall|i: int|
            0 <= i < self.free_ids().len() ==> 1 <= #[trigger] self.free_ids()[i] < self.count()
        &&& forall|i: int, j: int|
            0 <= i < j < self.free_ids().len() ==> #[trigger] self.free_ids()[i]
                != #[trigger] self.free_ids()[j]
    }

    /// Page `id` is on the free-list.
    pub open spec fn is_free(&self, id: int) -> bool {
        exists|i: int| 0 <= i < self.free_ids().len() && #[trigger] self.free_ids()[i] == id
    }

    /// Opens the pages of a file image.
    ///
    /// An empty image gets page 0 initialized as the free-list page; bytes
    /// after the last full page are ignored.
    pub fn new(image: &[u8]) -> (r: Self)
        requires
            image@.len() / 8192 <= u32::MAX,
        ensures
            r.wf(),
            image@.len() == 0 ==> {
                &&& r.count() == 1
                &&& r.page(0) == empty_page(0, PageType::FreeList)
                &&& is_free_list_page(r.page(0), Seq::empty())
                &&& r.free_ids() == Seq::<u32>::empty()
                &&& r.free_ok()
            },
            image@.len() != 0 ==> {
                &&& r.count() == image@.len() as int / 8192
                &&& forall|i: int|
                    0 <= i < r.count() ==> #[trigger] r.page(i) == image@.subrange(
                        8192 * i,
                        8192 * i + 8192,
                    )
            },
    {
        let mut pages: Vec<Page> = Vec::new();
        if image.len() == 0 {
            let buf: Page = make_empty_page(0, PageType::FreeList);
            proof {
                assert(buf@.subrange(32, 36) =~= zeros(4)) by {
                    assert forall|i: int| 0 <= i < 4 implies buf@.subrange(32, 36)[i] == zeros(
                        4,
                    )[i] by {
                        assert(buf@.skip(32)[i] == zeros(8160)[i]);
                    }
                }
                lemma_le_zero();
                assert forall|i: int| 36 <= i < PAGE_SIZE implies #[trigger] buf@[i] == 0 by {
                    assert(buf@.skip(32)[i - 32] == zeros(8160)[i - 32]);
                }
                lemma_free_list_page(buf@, Seq::empty());
                assert(capped(Seq::empty()) =~= Seq::<u32>::empty());
            }
            pages.push(buf);
            return PageManager { pages };
        }
        let n: usize = image.len() / PAGE_SIZE;
        let mut i: usize = 0;
        while i < n
            invariant
                n == image@.len() as int / 8192,
                i <= n,
                pages@.len() == i,
                forall|j: int|
                    0 <= j < i ==> (#[trigger] pages@[j])@ == image@.subrange(
                        8192 * j,
                        8192 * j + 8192,
                    ),
            decreases n - i,
        {
            let mut buf: Page = [0u8;PAGE_SIZE];
            assert(image.len() == image@.len());
            write_at(&mut buf, 0, &image[i * PAGE_SIZE..i * PAGE_SIZE + PAGE_SIZE]);
            assert(buf@ =~= image@.subrange(8192 * i, 8192 * i + 8192));
            pages.push(buf);
            i = i + 1;
        }
        PageManager { pages }
    }

    /// The bytes of the file: all pages in order.
    pub fn image(&self) -> (r: Vec<u8>)
        ensures
            r@.len() == 8192 * self.count(),
            forall|i: int|
                0 <= i < self.count() ==> #[trigger] self.page(i) == r@.subrange(
                    8192 * i,
                    8192 * i + 8192,
                ),
    {
        let mut v: Vec<u8> = Vec::new();
        let mut i: usize = 0;
        while i < self.pages.len()
            invariant
                i <= self.pages@.len(),
                v@.len() == 8192 * i,
                forall|j: int|
                    0 <= j < i ==> #[trigger] self.page(j) == v@.subrange(
                        8192 * j,
                        8192 * j + 8192,
                    ),
            decreases self.pages@.len() - i,
        {
            let ghost before = v@;
            v.extend_from_slice(self.pages[i].as_slice());
            proof {
                assert(v@ =~= before + self.page(i as int));
                assert forall|j: int| 0 <= j < i + 1 implies #[trigger] self.page(j)
                    == v@.subrange(8192 * j, 8192 * j + 8192) by {
                    if j < i {
                        assert(v@.subrange(8192 * j, 8192 * j + 8192) =~= before.subrange(
                            8192 * j,
                            8192 * j + 8192,
                        ));
                    } else {
                        assert(v@.subrange(8192 * j, 8192 * j + 8192) =~= self.page(i as int));
                    }
                }
            }
            i = i + 1;
        }
        v
    }

    /// Allocates a new page. Reuses a freed page if available, otherwise
    /// extends the file with a blank page.
    ///
    /// Returns the page ID of the newly allocated page.
    pub fn allocate_page(&mut self) -> (r: Result<u32>)
        requires
            old(self).wf(),
            old(self).count() == 0 || old(self).free_ids().len() > 0 || old(self).count()
                < u32::MAX,
        ensures
            final(self).wf(),
            old(self).count() == 0 ==> r == Err::<u32, GrumpyError>(GrumpyError::PageNotFound(0))
                && *final(self) == *old(self),
            old(self).count() > 0 && old(self).free_ids().len() > 0 ==> {
                &&& r == Ok::<u32, GrumpyError>(old(self).free_ids().last())
                &&& final(self).free_ids() == old(self).free_ids().drop_last()
                &&& is_free_list_page(final(self).page(0), old(self).free_ids().drop_last())
                &&& final(self).pages@.len() == old(self).pages@.len()
                &&& forall|i: int|
                    1 <= i < old(self).count() ==> #[trigger] final(self).pages@[i] == old(
                        self,
                    ).pages@[i]
            },
            old(self).count() > 0 && old(self).free_ids().len() == 0 ==> {
                &&& r == Ok::<u32, GrumpyError>(old(self).count() as u32)
                &&& final(self).pages@.len() == old(self).pages@.len() + 1
                &&& final(self).page(old(self).count()) == empty_page(
                    old(self).count() as u32,
                    PageType::Free,
                )
                &&& forall|i: int|
                    0 <= i < old(self).count() ==> #[trigger] final(self).pages@[i] == old(
                        self,
                    ).pages@[i]
                &&& final(self).free_ids() == old(self).free_ids()
            },
            old(self).free_ok() ==> {
                &&& r is Ok
                &&& final(self).free_ok()
                &&& 1 <= r->Ok_0 < final(self).count()
                &&& r->Ok_0 < old(self).count() ==> old(self).is_free(r->Ok_0 as int)
                &&& !final(self).is_free(r->Ok_0 as int)
                &&& forall|x: int| final(self).is_free(x) ==> #[trigger] old(self).is_free(x)
            },
    {
        match self.pop_free_list() {
            Ok(Some(page_id)) => {
                return Ok(page_id);
            },
            Ok(None) => {},
            Err(e) => {
                return Err(e);
            },
        }
        let page_id: u32 = self.pages.len() as u32;
        let buf: Page = make_empty_page(page_id, PageType::Free);
        self.pages.push(buf);
        Ok(page_id)
    }

    /// Reads a full page.
    ///
    /// Returns `PageNotFound` if the page ID is out of range.
    pub fn read_page(&self, page_id: u32) -> (r: Result<Page>)
        ensures
            page_id < self.count() ==> r == Ok::<Page, GrumpyError>(self.pages@[page_id as int]),
            page_id >= self.count() ==> r == Err::<Page, GrumpyError>(
                GrumpyError::PageNotFound(page_id),
            ),
    {
        if page_id as usize >= self.pages.len() {
            return Err(GrumpyError::PageNotFound(page_id));
        }
        Ok(self.pages[page_id as usize])
    }

    /// Writes a full page.
    ///
    /// Returns `PageNotFound` if the page ID is out of range.
    pub fn write_page(&mut self, page_id: u32, data: &Page) -> (r: Result<()>)
        ensures
            page_id < old(self).count() ==> r is Ok && final(self).pages@ == old(
                self,
            ).pages@.update(page_id as int, *data),
            page_id >= old(self).count() ==> r == Err::<(), GrumpyError>(
                GrumpyError::PageNotFound(page_id),
            ) && *final(self) == *old(self),
    {
        if page_id as usize >= self.pages.len() {
            return Err(GrumpyError::PageNotFound(page_id));
        }
        self.pages.set(page_id as usize, *data);
        Ok(())
    }

    /// Frees a page, adding it to the free-list for later reuse.
    ///
    /// The page content is zeroed and its type set to `Free`. Past the
    /// capacity of the free-list page the page is not remembered.
    pub fn free_page(&mut self, page_id: u32) -> (r: Result<()>)
        requires
            old(self).wf(),
        ensures
            final(self).wf(),
            page_id == 0 || page_id >= old(self).count() ==> r == Err::<(), GrumpyError>(
                GrumpyError::PageNotFound(page_id),
            ) && *final(self) == *old(self),
            1 <= page_id < old(self).count() ==> {
                &&& r is Ok
                &&& final(self).pages@.len() == old(self).pages@.len()
                &&& final(self).page(page_id as int) == empty_page(page_id, PageType::Free)
                &&& final(self).free_ids() == capped(old(self).free_ids().push(page_id))
                &&& is_free_list_page(final(self).page(0), old(self).free_ids().push(page_id))
                &&& forall|i: int|
                    1 <= i < old(self).count() && i != page_id ==> #[trigger] final(self).pages@[i]
                        == old(self).pages@[i]
            },
            1 <= page_id < old(self).count() && old(self).free_ok() && !old(self).is_free(
                page_id as int,
            ) ==> {
                &&& final(self).free_ok()
                &&& forall|x: int| final(self).is_free(x) ==> x == page_id || #[trigger] old(
                    self,
                ).is_free(x)
            },
    {
        if page_id == 0 || page_id as usize >= self.pages.len() {
            return Err(GrumpyError::PageNotFound(page_id));
        }
        let ghost p0 = *self;
        let buf: Page = make_empty_page(page_id, PageType::Free);
        self.pages.set(page_id as usize, buf);
        assert(self.free_ids() == p0.free_ids());
        match self.push_free_list(page_id) {
            Ok(_) => {
                proof {
                    let ids = p0.free_ids().push(page_id);
                    assert forall|i: int| 0 <= i < self.free_ids().len() implies #[trigger]
                        self.free_ids()[i] == ids[i] by {
                        assert(self.free_ids()[i] == capped(ids)[i]);
                    }
                    if p0.free_ok() && !p0.is_free(page_id as int) {
                        assert forall|i: int| 0 <= i < self.free_ids().len() implies 1
                            <= #[trigger] self.free_ids()[i] < self.count() by {
                            if i < p0.free_ids().len() {
                                assert(self.free_ids()[i] == p0.free_ids()[i]);
                            }
                        }
                        assert forall|i: int, j: int| 0 <= i < j < self.free_ids().len() implies
                            #[trigger] self.free_ids()[i] != #[trigger] self.free_ids()[j] by {
                            assert(self.free_ids()[i] == p0.free_ids()[i]);
                            if j < p0.free_ids().len() {
                                assert(self.free_ids()[j] == p0.free_ids()[j]);
                            }
                        }
                        assert forall|x: int| self.is_free(x) implies x == page_id
                            || #[trigger] p0.is_free(x) by {
                            let i = choose|i: int|
                                0 <= i < self.free_ids().len() && #[trigger] self.free_ids()[i]
                                    == x;
                            if i < p0.free_ids().len() {
                                assert(p0.free_ids()[i] == x);
                            }
                        }
                    }
                }
                Ok(())
            },
            Err(e) => Err(e),
        }
    }

    /// Returns the total number of pages in the file.
    pub fn num_pages(&self) -> (r: u32)
        requires
            self.wf(),
        ensures
            r == self.count(),
    {
        self.pages.len() as u32
    }

    // ── Free-list helpers ──────────────────────────────────────────────

    fn read_free_list(&self) -> (r: Result<Vec<u32>>)
        ensures
            self.count() == 0 ==> r == Err::<Vec<u32>, GrumpyError>(GrumpyError::PageNotFound(0)),
            self.count() > 0 ==> r is Ok && r->Ok_0@ == self.free_ids(),
    {
        let buf: Page = match self.read_page(0) {
            Ok(b) => b,
            Err(e) => {
                return Err(e);
            },
        };
        let num_free: usize = get_u32(buf.as_slice(), PAGE_HEADER_SIZE) as usize;
        let n: usize = if num_free <= FREE_LIST_CAPACITY {
            num_free
        } else {
            FREE_LIST_CAPACITY
        };
        let mut ids: Vec<u32> = Vec::new();
        let mut i: usize = 0;
        while i < n
            invariant
                i <= n,
                n <= FREE_LIST_CAPACITY,
                ids@.len() == i,
                forall|j: int| 0 <= j < i ==> #[trigger] ids@[j] == field(buf@, 36 + 4 * j, 4),
            decreases n - i,
        {
            let pid: u32 = get_u32(buf.as_slice(), PAGE_HEADER_SIZE + 4 + i * 4);
            ids.push(pid);
            i = i + 1;
        }
        assert(ids@ =~= free_list(buf@));
        Ok(ids)
    }

    fn write_free_list(&mut self, ids: &Vec<u32>) -> (r: Result<()>)
        requires
            old(self).count() > 0,
            ids@.len() <= FREE_LIST_CAPACITY + 1,
        ensures
            r is Ok,
            final(self).pages@.len() == old(self).pages@.len(),
            is_free_list_page(final(self).page(0), ids@),
            final(self).free_ids() == capped(ids@),
            forall|i: int|
                1 <= i < old(self).count() ==> #[trigger] final(self).pages@[i] == old(
                    self,
                ).pages@[i],
    {
        let mut buf: Page = make_empty_page(0, PageType::FreeList);
        let ghost b0 = buf@;
        write_at(&mut buf, PAGE_HEADER_SIZE, u32_le(ids.len() as u32).as_slice());
        proof {
            lemma_pow256_values();
            lemma_field_written(b0, 32, ids@.len(), 4);
            lemma_le_bytes_len(ids@.len(), 4);
            lemma_header_frame(buf@, b0);
            assert forall|i: int| 36 <= i < PAGE_SIZE implies #[trigger] buf@[i] == 0 by {
                assert(b0.skip(32)[i - 32] == zeros(8160)[i - 32]);
            }
        }
        let n: usize = if ids.len() <= FREE_LIST_CAPACITY {
            ids.len()
        } else {
            FREE_LIST_CAPACITY
        };
        let mut i: usize = 0;
        while i < n
            invariant
                i <= n,
                n == min_int(ids@.len() as int, FREE_LIST_CAPACITY as int),
                PageHeader::parse(buf@) == PageHeader::fresh(0, PageType::FreeList),
                field(buf@, 32, 4) == ids@.len(),
                forall|j: int| 0 <= j < i ==> #[trigger] field(buf@, 36 + 4 * j, 4) == ids@[j],
                forall|j: int| 36 + 4 * i <= j < PAGE_SIZE ==> #[trigger] buf@[j] == 0,
            decreases n - i,
        {
            let ghost b1 = buf@;
            let off: usize = PAGE_HEADER_SIZE + 4 + i * 4;
            write_at(&mut buf, off, u32_le(ids[i]).as_slice());
            proof {
                lemma_pow256_values();
                lemma_le_bytes_len(ids@[i as int] as nat, 4);
                lemma_field_written(b1, off as int, ids@[i as int] as nat, 4);
                lemma_header_frame(buf@, b1);
                lemma_field_frame(buf@, b1, 32, 4);
                assert forall|j: int| 0 <= j < i implies #[trigger] field(buf@, 36 + 4 * j, 4)
                    == ids@[j] by {
                    assert(field(b1, 36 + 4 * j, 4) == ids@[j]);
                    lemma_field_frame(buf@, b1, 36 + 4 * j, 4);
                }
            }
            i = i + 1;
        }
        proof {
            lemma_free_list_page(buf@, ids@);
        }
        self.write_page(0, &buf)
    }

    fn pop_free_list(&mut self) -> (r: Result<Option<u32>>)
        ensures
            old(self).count() == 0 ==> r == Err::<Option<u32>, GrumpyError>(
                GrumpyError::PageNotFound(0),
            ) && *final(self) == *old(self),
            old(self).count() > 0 && old(self).free_ids().len() == 0 ==> r == Ok::<
                Option<u32>,
                GrumpyError,
            >(None) && *final(self) == *old(self),
            old(self).count() > 0 && old(self).free_ids().len() > 0 ==> {
                &&& r == Ok::<Option<u32>, GrumpyError>(Some(old(self).free_ids().last()))
                &&& final(self).pages@.len() == old(self).pages@.len()
                &&& final(self).free_ids() == old(self).free_ids().drop_last()
                &&& is_free_list_page(final(self).page(0), old(self).free_ids().drop_last())
                &&& forall|i: int|
                    1 <= i < old(self).count() ==> #[trigger] final(self).pages@[i] == old(
                        self,
                    ).pages@[i]
            },
    {
        let mut ids: Vec<u32> = match self.read_free_list() {
            Ok(v) => v,
            Err(e) => {
                return Err(e);
            },
        };
        let ghost all = ids@;
        match ids.pop() {
            Some(page_id) => {
                assert(ids@ =~= all.drop_last());
                assert(capped(ids@) =~= ids@);
                match self.write_free_list(&ids) {
                    Ok(_) => Ok(Some(page_id)),
                    Err(e) => Err(e),
                }
            },
            None => Ok(None),
        }
    }

    fn push_free_list(&mut self, page_id: u32) -> (r: Result<()>)
        requires
            old(self).count() > 0,
        ensures
            r is Ok,
            final(self).pages@.len() == old(self).pages@.len(),
            is_free_list_page(final(self).page(0), old(self).free_ids().push(page_id)),
            final(self).free_ids() == capped(old(self).free_ids().push(page_id)),
            forall|i: int|
                1 <= i < old(self).count() ==> #[trigger] final(self).pages@[i] == old(
                    self,
                ).pages@[i],
    {
        let mut ids: Vec<u32> = match self.read_free_list() {
            Ok(v) => v,
            Err(e) => {
                return Err(e);
            },
        };
        ids.push(page_id);
        self.write_free_list(&ids)
    }

    /// Maximum number of page IDs that can be stored in the free-list page.
    pub fn free_list_capacity() -> (r: usize)
        ensures
            r == FREE_LIST_CAPACITY,
    {
        (PAGE_SIZE - PAGE_HEADER_SIZE - 4) / 4
    }
}

proof fn lemma_le_zero()
    ensures
        crate::bytes::le_val(zeros(4)) == 0,
{
    reveal_with_fuel(crate::bytes::le_val, 5);
    assert(zeros(4).skip(1) =~= zeros(3));
    assert(zeros(3).skip(1) =~= zeros(2));
    assert(zeros(2).skip(1) =~= zeros(1));
    assert(zeros(1).skip(1) =~= zeros(0));
}

/// Pages freed in some order are handed out again in the reverse order, as
/// long as the free-list page has room.
pub proof fn law_free_list_is_lifo(free: Seq<u32>, a: u32, b: u32)
    requires
        free.len() + 2 <= FREE_LIST_CAPACITY,
    ensures
        capped(capped(free.push(a)).push(b)).last() == b,
        capped(capped(free.push(a)).push(b)).drop_last().last() == a,
        capped(capped(free.push(a)).push(b)).drop_last().drop_last() == free,
{
    assert(capped(free.push(a)) =~= free.push(a));
    assert(capped(free.push(a).push(b)) =~= free.push(a).push(b));
    assert(free.push(a).push(b).drop_last() =~= free.push(a));
    assert(free.push(a).drop_last() =~= free);
}

} // verus!
