//! Overflow pages: chained pages for documents larger than a single page.
//!
//! When a tuple is too large to fit in a slotted page, it is split across a
//! chain of overflow pages linked via `next_page_id` in the page header. The
//! `num_slots` field of the header holds the length of a page's chunk.

use vstd::prelude::*;
use vstd::slice::*;

use crate::bytes::{
    field, get_u32, le_bytes, lemma_le_bytes_len, lemma_le_round_trip, lemma_pow256_values, push_le,
    splice,
};
use crate::error::{GrumpyError, Result};
use crate::page::manager::{capped, contents, empty_page, free_pages_first, PageManager};
use crate::page::{
    lemma_header_frame, write_at, Page, PageHeader, PageType, OVERFLOW_MARKER, PAGE_SIZE,
    PAGE_USABLE_SPACE,
};

verus! {

/// Size of the overflow reference stored in the main slotted page.
/// `OVERFLOW_MARKER (1) + first_overflow_page_id (4) + total_data_len (4)`
pub const OVERFLOW_REF_SIZE: usize = 9;

// ── References ──────────────────────────────────────────────────────────

/// The bytes of an overflow reference.
pub open spec fn ref_image(first_page_id: u32, total_len: u32) -> Seq<u8> {
    seq![OVERFLOW_MARKER] + le_bytes(first_page_id as nat, 4) + le_bytes(total_len as nat, 4)
}

/// The reference that bytes start with.
pub open spec fn ref_parse(s: Seq<u8>) -> Option<(u32, u32)> {
    if s.len() < OVERFLOW_REF_SIZE || s[0] != OVERFLOW_MARKER {
        None
    } else {
        Some((field(s, 1, 4) as u32, field(s, 5, 4) as u32))
    }
}

/// The bytes are an overflow reference.
pub open spec fn is_ref(s: Seq<u8>) -> bool {
    s.len() == OVERFLOW_REF_SIZE && s[0] == OVERFLOW_MARKER
}

/// Encodes an overflow reference to be stored in a slotted page slot.
pub fn encode_overflow_ref(first_page_id: u32, total_len: u32) -> (r: Vec<u8>)
    ensures
        r@ == ref_image(first_page_id, total_len),
        r@.len() == OVERFLOW_REF_SIZE,
{
    let mut buf: Vec<u8> = Vec::new();
    buf.push(OVERFLOW_MARKER);
    push_le(&mut buf, first_page_id as u128, 4);
    push_le(&mut buf, total_len as u128, 4);
    proof {
        lemma_le_bytes_len(first_page_id as nat, 4);
        lemma_le_bytes_len(total_len as nat, 4);
        assert(buf@ =~= ref_image(first_page_id, total_len));
    }
    buf
}

/// Decodes an overflow reference from a slotted page slot.
///
/// Returns `(first_page_id, total_data_len)` or `None` if not an overflow ref.
pub fn decode_overflow_ref(data: &[u8]) -> (r: Option<(u32, u32)>)
    ensures
        r == ref_parse(data@),
{
    if data.len() < OVERFLOW_REF_SIZE || data[0] != OVERFLOW_MARKER {
        return None;
    }
    let page_id: u32 = get_u32(data, 1);
    let total_len: u32 = get_u32(data, 5);
    Some((page_id, total_len))
}

/// Returns `true` if the given slot data is an overflow reference.
pub fn is_overflow(data: &[u8]) -> (r: bool)
    ensures
        r == is_ref(data@),
{
    data.len() == OVERFLOW_REF_SIZE && data[0] == OVERFLOW_MARKER
}

/// An overflow reference is recognised, and read back as it was written.
pub proof fn law_ref_round_trip(first_page_id: u32, total_len: u32)
    ensures
        is_ref(ref_image(first_page_id, total_len)),
        ref_parse(ref_image(first_page_id, total_len)) == Some((first_page_id, total_len)),
{
    lemma_pow256_values();
    lemma_le_round_trip(first_page_id as nat, 4);
    lemma_le_round_trip(total_len as nat, 4);
    let s = ref_image(first_page_id, total_len);
    assert(s.subrange(1, 5) =~= le_bytes(first_page_id as nat, 4));
    assert(s.subrange(5, 9) =~= le_bytes(total_len as nat, 4));
}

// ── Chains ──────────────────────────────────────────────────────────────

/// The length of the chunk of a page.
pub open spec fn chunk_len(p: Seq<u8>) -> int {
    PageHeader::parse(p).num_slots as int
}

/// The chunk of a page.
pub open spec fn chunk_of(p: Seq<u8>) -> Seq<u8> {
    p.subrange(32, 32 + chunk_len(p))
}

/// The page after a page.
pub open spec fn next_of(p: Seq<u8>) -> u32 {
    PageHeader::parse(p).next_page_id
}

/// Following the chain from `id` takes at most `fuel` pages to reach its end
/// or a page that does not exist, and no chunk runs past its page.
pub open spec fn chain_ends(pages: Seq<Seq<u8>>, id: u32, fuel: nat) -> bool
    decreases fuel,
{
    id == 0 || id >= pages.len() || (fuel > 0 && chunk_len(pages[id as int]) <= 8160 && chain_ends(
        pages,
        next_of(pages[id as int]),
        (fuel - 1) as nat,
    ))
}

/// What following the chain from `id` gives: its bytes, or the page that does
/// not exist.
pub open spec fn chain_bytes(pages: Seq<Seq<u8>>, id: u32, fuel: nat) -> std::result::Result<
    Seq<u8>,
    u32,
>
    decreases fuel,
{
    if id == 0 {
        Ok(Seq::empty())
    } else if id >= pages.len() || fuel == 0 {
        Err(id)
    } else {
        match chain_bytes(pages, next_of(pages[id as int]), (fuel - 1) as nat) {
            Ok(rest) => Ok(chunk_of(pages[id as int]) + rest),
            Err(e) => Err(e),
        }
    }
}

/// Page `j` of a chain is an overflow page that links to the next one.
pub open spec fn link_at(pages: Seq<Seq<u8>>, ids: Seq<u32>, j: int) -> bool {
    &&& 1 <= ids[j] < pages.len()
    &&& PageHeader::parse(pages[ids[j] as int]).page_type == PageType::Overflow
    &&& chunk_len(pages[ids[j] as int]) <= 8160
    &&& next_of(pages[ids[j] as int]) == (if j + 1 < ids.len() {
        ids[j + 1]
    } else {
        0
    })
}

/// The pages `ids` form a chain.
pub open spec fn linked(pages: Seq<Seq<u8>>, ids: Seq<u32>) -> bool {
    forall|j: int| 0 <= j < ids.len() ==> #[trigger] link_at(pages, ids, j)
}

/// No page occurs twice.
pub open spec fn no_repeats(ids: Seq<u32>) -> bool {
    forall|i: int, j: int| 0 <= i < j < ids.len() ==> #[trigger] ids[i] != #[trigger] ids[j]
}

/// The chunks of pages, one after another.
pub open spec fn chain_data(pages: Seq<Seq<u8>>, ids: Seq<u32>) -> Seq<u8>
    decreases ids.len(),
{
    if ids.len() == 0 {
        Seq::empty()
    } else {
        chunk_of(pages[ids[0] as int]) + chain_data(pages, ids.skip(1))
    }
}

/// The first page of a chain, zero for none.
pub open spec fn chain_head(ids: Seq<u32>) -> u32 {
    if ids.len() == 0 {
        0
    } else {
        ids[0]
    }
}

/// Following a chain gives its chunks.
pub proof fn lemma_linked(pages: Seq<Seq<u8>>, ids: Seq<u32>)
    requires
        linked(pages, ids),
    ensures
        chain_ends(pages, chain_head(ids), ids.len()),
        chain_bytes(pages, chain_head(ids), ids.len()) == Ok::<Seq<u8>, u32>(
            chain_data(pages, ids),
        ),
    decreases ids.len(),
{
    if ids.len() > 0 {
        let rest = ids.skip(1);
        assert(link_at(pages, ids, 0));
        assert(linked(pages, rest)) by {
            assert forall|j: int| 0 <= j < rest.len() implies #[trigger] link_at(
                pages,
                rest,
                j,
            ) by {
                assert(link_at(pages, ids, j + 1));
            }
        }
        lemma_linked(pages, rest);
        assert(next_of(pages[ids[0] as int]) == chain_head(rest));
    }
}

/// A chain does not depend on other pages.
pub proof fn lemma_chain_frame(a: Seq<Seq<u8>>, b: Seq<Seq<u8>>, ids: Seq<u32>)
    requires
        linked(a, ids),
        forall|j: int|
            0 <= j < ids.len() ==> (#[trigger] ids[j]) < b.len() && b[ids[j] as int]
                == a[ids[j] as int],
    ensures
        linked(b, ids),
        chain_data(b, ids) == chain_data(a, ids),
{
    assert forall|j: int| 0 <= j < ids.len() implies #[trigger] link_at(b, ids, j) by {
        assert(link_at(a, ids, j));
        assert(b[ids[j] as int] == a[ids[j] as int]);
    }
    lemma_data_frame(a, b, ids);
}

proof fn lemma_data_frame(a: Seq<Seq<u8>>, b: Seq<Seq<u8>>, ids: Seq<u32>)
    requires
        forall|j: int| 0 <= j < ids.len() ==> b[(#[trigger] ids[j]) as int] == a[ids[j] as int],
    ensures
        chain_data(b, ids) == chain_data(a, ids),
    decreases ids.len(),
{
    if ids.len() > 0 {
        let rest = ids.skip(1);
        assert forall|j: int| 0 <= j < rest.len() implies b[(#[trigger] rest[j]) as int]
            == a[rest[j] as int] by {
            assert(rest[j] == ids[j + 1]);
        }
        lemma_data_frame(a, b, rest);
        assert(b[ids[0] as int] == a[ids[0] as int]);
    }
}

/// More fuel does not change what following a chain gives.
proof fn lemma_fuel(pages: Seq<Seq<u8>>, id: u32, f: nat, g: nat)
    requires
        chain_ends(pages, id, f),
        chain_ends(pages, id, g),
    ensures
        chain_bytes(pages, id, f) == chain_bytes(pages, id, g),
    decreases f,
{
    if id != 0 && id < pages.len() {
        lemma_fuel(pages, next_of(pages[id as int]), (f - 1) as nat, (g - 1) as nat);
    }
}

/// Reads data from a chain of overflow pages.
///
/// Starting from `first_page_id`, follows the chain and reconstructs the data.
pub fn read_overflow(pm: &PageManager, first_page_id: u32) -> (r: Result<Vec<u8>>)
    requires
        exists|fuel: nat| chain_ends(contents(*pm), first_page_id, fuel),
    ensures
        forall|fuel: nat| #[trigger]
            chain_ends(contents(*pm), first_page_id, fuel) ==> match r {
                Ok(v) => chain_bytes(contents(*pm), first_page_id, fuel) == Ok::<Seq<u8>, u32>(v@),
                Err(e) => chain_bytes(contents(*pm), first_page_id, fuel) is Err && e
                    == GrumpyError::PageNotFound(
                    chain_bytes(contents(*pm), first_page_id, fuel)->Err_0,
                ),
            },
{
    let ghost pages = contents(*pm);
    let ghost fuel = choose|fuel: nat| chain_ends(pages, first_page_id, fuel);
    let ghost mut left: nat = fuel;
    let mut result: Vec<u8> = Vec::new();
    let mut current_id: u32 = first_page_id;
    while current_id != 0
        invariant
            pages == contents(*pm),
            chain_ends(pages, first_page_id, fuel),
            chain_ends(pages, current_id, left),
            match chain_bytes(pages, current_id, left) {
                Ok(rest) => chain_bytes(pages, first_page_id, fuel) == Ok::<Seq<u8>, u32>(
                    result@ + rest,
                ),
                Err(e) => chain_bytes(pages, first_page_id, fuel) == Err::<Seq<u8>, u32>(e),
            },
        decreases left,
    {
        let buf: Page = match pm.read_page(current_id) {
            Ok(b) => b,
            Err(e) => {
                proof {
                    assert forall|f: nat| #[trigger]
                        chain_ends(pages, first_page_id, f) implies chain_bytes(
                        pages,
                        first_page_id,
                        f,
                    ) == chain_bytes(pages, first_page_id, fuel) by {
                        lemma_fuel(pages, first_page_id, f, fuel);
                    }
                }
                return Err(e);
            },
        };
        assert(buf@ == pages[current_id as int]);
        let header: PageHeader = PageHeader::read_from(&buf);
        let n: usize = header.num_slots as usize;
        let ghost before = result@;
        let chunk: &[u8] = slice_subrange(buf.as_slice(), 32, 32 + n);
        result.extend_from_slice(chunk);
        proof {
            let rest = chain_bytes(pages, header.next_page_id, (left - 1) as nat);
            if rest is Ok {
                assert(before + (chunk_of(buf@) + rest->Ok_0) =~= result@ + rest->Ok_0);
            }
            left = (left - 1) as nat;
        }
        current_id = header.next_page_id;
    }
    proof {
        assert(result@ + Seq::<u8>::empty() =~= result@);
        assert forall|f: nat| #[trigger] chain_ends(pages, first_page_id, f) implies chain_bytes(
            pages,
            first_page_id,
            f,
        ) == chain_bytes(pages, first_page_id, fuel) by {
            lemma_fuel(pages, first_page_id, f, fuel);
        }
    }
    Ok(result)
}

// ── Writing ─────────────────────────────────────────────────────────────

/// How many pages data takes.
pub open spec fn chunk_count(len: nat) -> nat {
    ((len + 8159) / 8160) as nat
}

/// Chunk `j` of data.
pub open spec fn chunk(data: Seq<u8>, j: int) -> Seq<u8> {
    data.subrange(
        8160 * j,
        if 8160 * (j + 1) <= data.len() {
            8160 * (j + 1)
        } else {
            data.len() as int
        },
    )
}

/// The page that holds chunk `j` of data.
#[verifier::opaque]
pub open spec fn overflow_page(ids: Seq<u32>, data: Seq<u8>, j: int) -> Seq<u8> {
    let header = PageHeader {
        num_slots: chunk(data, j).len() as u16,
        next_page_id: if j + 1 < ids.len() {
            ids[j + 1]
        } else {
            0
        },
        ..PageHeader::fresh(ids[j], PageType::Overflow)
    };
    splice(
        splice(crate::bytes::zeros(8192), 0, header.image()),
        32,
        chunk(data, j),
    )
}

proof fn lemma_overflow_page(ids: Seq<u32>, data: Seq<u8>, j: int)
    requires
        0 <= j < ids.len(),
        ids.len() == chunk_count(data.len()),
    ensures
        chunk(data, j).len() <= 8160,
        overflow_page(ids, data, j).len() == 8192,
        PageHeader::parse(overflow_page(ids, data, j)).page_type == PageType::Overflow,
        chunk_len(overflow_page(ids, data, j)) == chunk(data, j).len(),
        chunk_of(overflow_page(ids, data, j)) == chunk(data, j),
        next_of(overflow_page(ids, data, j)) == (if j + 1 < ids.len() {
            ids[j + 1]
        } else {
            0
        }),
{
    reveal(overflow_page);
    assert(8160 * j < data.len());
    let header = PageHeader {
        num_slots: chunk(data, j).len() as u16,
        next_page_id: if j + 1 < ids.len() {
            ids[j + 1]
        } else {
            0
        },
        ..PageHeader::fresh(ids[j], PageType::Overflow)
    };
    let z = crate::bytes::zeros(8192);
    let s = splice(z, 0, header.image());
    crate::page::lemma_header_len(header);
    crate::page::lemma_header_round_trip(header, z);
    let p = overflow_page(ids, data, j);
    lemma_header_frame(p, s);
    assert(chunk_of(p) =~= chunk(data, j));
}

/// Pages that hold the chunks of data form a chain of that data.
pub proof fn lemma_written_chain(pages: Seq<Seq<u8>>, ids: Seq<u32>, data: Seq<u8>, from: int)
    requires
        ids.len() == chunk_count(data.len()),
        0 <= from <= ids.len(),
        forall|j: int|
            0 <= j < ids.len() ==> 1 <= (#[trigger] ids[j]) < pages.len() && pages[ids[j] as int]
                == overflow_page(ids, data, j),
    ensures
        linked(pages, ids),
        chain_data(pages, ids.skip(from)) == data.skip(
            if from == ids.len() {
                data.len() as int
            } else {
                8160 * from
            },
        ),
    decreases ids.len() - from,
{
    assert forall|j: int| 0 <= j < ids.len() implies #[trigger] link_at(pages, ids, j) by {
        lemma_overflow_page(ids, data, j);
        assert(pages[ids[j] as int] == overflow_page(ids, data, j));
    }
    let rest = ids.skip(from);
    if from < ids.len() {
        lemma_written_chain(pages, ids, data, from + 1);
        lemma_overflow_page(ids, data, from);
        assert(pages[ids[from] as int] == overflow_page(ids, data, from));
        assert(rest[0] == ids[from]);
        assert(rest.skip(1) =~= ids.skip(from + 1));
        assert(chunk(data, from) + data.skip(
            if from + 1 == ids.len() {
                data.len() as int
            } else {
                8160 * (from + 1)
            },
        ) =~= data.skip(8160 * from));
    } else {
        assert(rest =~= Seq::<u32>::empty());
        assert(data.skip(data.len() as int) =~= Seq::<u8>::empty());
    }
}

/// `ids` are pages that were taken from `old` to get `new`: they were free or
/// did not exist, are no longer free, and the other pages are as they were.
pub open spec fn taken(old_pm: PageManager, new_pm: PageManager, ids: Seq<u32>) -> bool {
    &&& new_pm.free_ok()
    &&& old_pm.count() <= new_pm.count() <= old_pm.count() + ids.len()
    &&& no_repeats(ids)
    &&& forall|j: int|
        0 <= j < ids.len() ==> 1 <= (#[trigger] ids[j]) < new_pm.count() && !new_pm.is_free(
            ids[j] as int,
        ) && (ids[j] >= old_pm.count() || old_pm.is_free(ids[j] as int))
    &&& forall|x: int| new_pm.is_free(x) ==> #[trigger] old_pm.is_free(x)
    &&& forall|i: int|
        1 <= i < old_pm.count() && !ids.contains(i as u32) ==> #[trigger] new_pm.pages@[i]
            == old_pm.pages@[i]
    &&& forall|i: u32| old_pm.count() <= i < new_pm.count() ==> #[trigger] ids.contains(i)
    &&& free_pages_first(old_pm, new_pm, ids.len())
}

fn allocate_chain(pm: &mut PageManager, n: usize) -> (r: Result<Vec<u32>>)
    requires
        old(pm).free_ok(),
        old(pm).count() + n <= u32::MAX,
    ensures
        r is Ok,
        r->Ok_0@.len() == n,
        taken(*old(pm), *final(pm), r->Ok_0@),
{
    let mut ids: Vec<u32> = Vec::new();
    let ghost pm0 = *pm;
    assert(pm0.free_ids().take(pm0.free_ids().len() as int) =~= pm0.free_ids());
    while ids.len() < n
        invariant
            ids@.len() <= n,
            pm0.count() + n <= u32::MAX,
            pm0.free_ok(),
            pm.free_ok(),
            taken(pm0, *pm, ids@),
        decreases n - ids@.len(),
    {
        let ghost pm1 = *pm;
        let ghost before = ids@;
        match pm.allocate_page() {
            Ok(id) => {
                proof {
                    assert forall|j: int| 0 <= j < before.len() implies #[trigger] before[j]
                        != id by {
                        if before[j] == id {
                            assert(!pm1.is_free(before[j] as int));
                        }
                    }
                    if id < pm1.count() {
                        assert(pm1.is_free(id as int));
                        assert(pm0.is_free(id as int));
                    }
                }
                ids.push(id);
                proof {
                    assert(ids@ == before.push(id));
                    assert(free_pages_first(pm0, *pm, ids@.len())) by {
                        let f = pm0.free_ids();
                        if ids@.len() <= f.len() {
                            assert(f.take(f.len() - before.len()).drop_last() =~= f.take(
                                f.len() - ids@.len(),
                            ));
                        } else if before.len() <= f.len() {
                            assert(f.take(0).len() == 0);
                        }
                    }
                    assert forall|j: int| 0 <= j < ids@.len() implies 1 <= (#[trigger] ids@[j])
                        < pm.count() && !pm.is_free(ids@[j] as int) && (ids@[j] >= pm0.count()
                        || pm0.is_free(ids@[j] as int)) by {
                        if j < before.len() {
                            assert(before[j] == ids@[j]);
                            if pm.is_free(ids@[j] as int) {
                                assert(pm1.is_free(ids@[j] as int));
                            }
                        }
                    }
                    assert forall|x: int| pm.is_free(x) implies #[trigger] pm0.is_free(x) by {
                        assert(pm1.is_free(x));
                    }
                    assert forall|i: int|
                        1 <= i < pm0.count() && !ids@.contains(i as u32) implies
                        #[trigger] pm.pages@[i] == pm0.pages@[i] by {
                        if before.contains(i as u32) {
                            let k = choose|k: int| 0 <= k < before.len() && before[k] == i as u32;
                            assert(ids@[k] == i as u32);
                        }
                        assert(pm1.pages@[i] == pm0.pages@[i]);
                    }
                    assert forall|i: u32|
                        pm0.count() <= i < pm.count() implies #[trigger] ids@.contains(i) by {
                        assert(ids@[before.len() as int] == id);
                        if i != id {
                            assert(before.contains(i));
                            let k = choose|k: int| 0 <= k < before.len() && before[k] == i;
                            assert(ids@[k] == i);
                        }
                    }
                }
            },
            Err(e) => {
                return Err(e);
            },
        }
    }
    Ok(ids)
}

/// Writes data across a chain of overflow pages.
///
/// Returns the page ID of the first overflow page in the chain.
pub fn write_overflow(pm: &mut PageManager, data: &[u8]) -> (r: Result<u32>)
    requires
        old(pm).free_ok(),
        data@.len() > 0,
        old(pm).count() + chunk_count(data@.len()) <= u32::MAX,
    ensures
        r is Ok,
        exists|ids: Seq<u32>|
            {
                &&& #[trigger] no_repeats(ids)
                &&& ids.len() == chunk_count(data@.len())
                &&& ids[0] == r->Ok_0
                &&& taken(*old(pm), *final(pm), ids)
                &&& linked(contents(*final(pm)), ids)
                &&& chain_data(contents(*final(pm)), ids) == data@
            },
{
    let ghost pm0 = *pm;
    let total: usize = data.len();
    let n: usize = (total - 1) / PAGE_USABLE_SPACE + 1;
    assert(n == chunk_count(data@.len()));
    let page_ids: Vec<u32> = match allocate_chain(pm, n) {
        Ok(v) => v,
        Err(e) => {
            return Err(e);
        },
    };
    let ghost ids = page_ids@;
    let ghost pm1 = *pm;
    let mut i: usize = 0;
    while i < n
        invariant
            i <= n,
            n == chunk_count(data@.len()),
            total == data@.len(),
            n == (total - 1) / 8160 + 1,
            total > 0,
            ids == page_ids@,
            ids.len() == n,
            pm0.free_ok(),
            taken(pm0, pm1, ids),
            pm.count() == pm1.count(),
            pm.pages@[0] == pm1.pages@[0],
            forall|j: int|
                0 <= j < i ==> pm.page((#[trigger] ids[j]) as int) == overflow_page(
                    ids,
                    data@,
                    j,
                ),
            forall|x: int|
                0 <= x < pm1.count() && !ids.contains(x as u32) ==> #[trigger] pm.pages@[x]
                    == pm1.pages@[x],
        decreases n - i,
    {
        let pid: u32 = page_ids[i];
        let mut buf: Page = [0u8;PAGE_SIZE];
        assert(buf@ =~= crate::bytes::zeros(8192));
        let mut header: PageHeader = PageHeader::new(pid, PageType::Overflow);
        header.next_page_id = if i + 1 < n {
            page_ids[i + 1]
        } else {
            0
        };
        assert(8160 * i < total);
        let start: usize = i * PAGE_USABLE_SPACE;
        let end: usize = if total - start <= PAGE_USABLE_SPACE {
            total
        } else {
            start + PAGE_USABLE_SPACE
        };
        let part: &[u8] = slice_subrange(data, start, end);
        assert(part@ =~= chunk(data@, i as int));
        header.num_slots = (end - start) as u16;
        header.write_to(&mut buf);
        write_at(&mut buf, 32, part);
        assert(buf@ == overflow_page(ids, data@, i as int)) by {
            reveal(overflow_page);
        }
        let ghost before = *pm;
        assert(1 <= ids[i as int] < pm1.count());
        match pm.write_page(pid, &buf) {
            Ok(_) => {},
            Err(e) => {
                return Err(e);
            },
        }
        proof {
            assert forall|j: int| 0 <= j < i + 1 implies pm.page((#[trigger] ids[j]) as int)
                == overflow_page(ids, data@, j) by {
                if j < i {
                    assert(ids[j] != ids[i as int]);
                    assert(before.page(ids[j] as int) == overflow_page(ids, data@, j));
                }
            }
            assert(ids.contains(pid));
        }
        i = i + 1;
    }
    proof {
        let pages = contents(*pm);
        assert forall|j: int| 0 <= j < ids.len() implies 1 <= (#[trigger] ids[j]) < pages.len()
            && pages[ids[j] as int] == overflow_page(ids, data@, j) by {
            assert(pm.page(ids[j] as int) == overflow_page(ids, data@, j));
        }
        lemma_written_chain(pages, ids, data@, 0);
        assert(ids.skip(0) =~= ids);
        assert(data@.skip(0) =~= data@);
        lemma_taken_written(pm0, pm1, *pm, ids);
    }
    Ok(page_ids[0])
}

proof fn lemma_taken_written(pm0: PageManager, pm1: PageManager, pm2: PageManager, ids: Seq<u32>)
    requires
        taken(pm0, pm1, ids),
        pm2.count() == pm1.count(),
        pm2.pages@[0] == pm1.pages@[0],
        forall|x: int|
            0 <= x < pm1.count() && !ids.contains(x as u32) ==> #[trigger] pm2.pages@[x]
                == pm1.pages@[x],
    ensures
        taken(pm0, pm2, ids),
{
    assert(pm2.free_ids() == pm1.free_ids());
    assert forall|x: int| pm2.is_free(x) == pm1.is_free(x) by {}
    assert(pm2.free_ok()) by {
        assert(pm2.free_ids() =~= pm1.free_ids());
        assert forall|i: int| 0 <= i < pm2.free_ids().len() implies 1
            <= #[trigger] pm2.free_ids()[i] < pm2.count() by {
            assert(1 <= pm1.free_ids()[i] < pm1.count());
        }
        assert forall|i: int, j: int| 0 <= i < j < pm2.free_ids().len() implies
            #[trigger] pm2.free_ids()[i] != #[trigger] pm2.free_ids()[j] by {
            assert(pm1.free_ids()[i] != pm1.free_ids()[j]);
        }
    }
    assert forall|j: int| 0 <= j < ids.len() implies 1 <= (#[trigger] ids[j]) < pm2.count()
        && !pm2.is_free(ids[j] as int) && (ids[j] >= pm0.count() || pm0.is_free(
        ids[j] as int,
    )) by {
        assert(!pm1.is_free(ids[j] as int));
    }
    assert forall|x: int| pm2.is_free(x) implies #[trigger] pm0.is_free(x) by {
        assert(pm1.is_free(x));
    }
    assert forall|i: int|
        1 <= i < pm0.count() && !ids.contains(i as u32) implies #[trigger] pm2.pages@[i]
        == pm0.pages@[i] by {
        assert(pm2.pages@[i] == pm1.pages@[i]);
    }
}

// ── Freeing ─────────────────────────────────────────────────────────────

/// The pages `ids` go to the end of the free-list, as far as it has room, and
/// are blank; no other page but page 0 is touched.
pub open spec fn given_back(old_pm: PageManager, new_pm: PageManager, ids: Seq<u32>) -> bool {
    &&& new_pm.wf()
    &&& new_pm.count() == old_pm.count()
    &&& new_pm.free_ids() == capped(old_pm.free_ids() + ids)
    &&& forall|j: int|
        0 <= j < ids.len() ==> new_pm.page((#[trigger] ids[j]) as int) == empty_page(
            ids[j],
            PageType::Free,
        )
    &&& forall|i: int|
        1 <= i < old_pm.count() && !ids.contains(i as u32) ==> #[trigger] new_pm.pages@[i]
            == old_pm.pages@[i]
}

/// Following the pages from `first` leads over `ids`, each once, to `stop`:
/// zero, a page that does not exist, or one of them again.
pub open spec fn trail(pages: Seq<Seq<u8>>, first: u32, ids: Seq<u32>, stop: u32) -> bool {
    &&& no_repeats(ids)
    &&& forall|j: int|
        0 <= j < ids.len() ==> 1 <= (#[trigger] ids[j]) < pages.len() && next_of(
            pages[ids[j] as int],
        ) == (if j + 1 < ids.len() {
            ids[j + 1]
        } else {
            stop
        })
    &&& first == (if ids.len() > 0 {
        ids[0]
    } else {
        stop
    })
    &&& stop == 0 || stop >= pages.len() || ids.contains(stop)
}

/// What freeing the chain from `first` gives: its pages are given back; a page
/// that does not exist is reported. A chain that comes back to one of its
/// pages ends there, as that page is blank by then.
pub open spec fn chain_freed(
    old_pm: PageManager,
    new_pm: PageManager,
    ids: Seq<u32>,
    stop: u32,
    r: Result<()>,
) -> bool {
    if stop == 0 {
        r is Ok && given_back(old_pm, new_pm, ids)
    } else if stop >= old_pm.count() {
        r == Err::<(), GrumpyError>(GrumpyError::PageNotFound(stop)) && given_back(
            old_pm,
            new_pm,
            ids,
        )
    } else {
        r is Ok && given_back(old_pm, new_pm, ids.push(stop))
    }
}

/// Every page of `ids` is freed in `new` and nothing else is touched: the pages
/// are put on the free-list, as far as it has room.
pub open spec fn released(old_pm: PageManager, new_pm: PageManager, ids: Seq<u32>) -> bool {
    &&& new_pm.free_ok()
    &&& given_back(old_pm, new_pm, ids)
    &&& forall|x: int|
        new_pm.is_free(x) ==> #[trigger] old_pm.is_free(x) || (0 <= x <= u32::MAX && ids.contains(
            x as u32,
        ))
}

/// Frees all pages in an overflow chain.
///
/// Starting from `first_page_id`, follows the chain and frees each page.
pub fn free_overflow(pm: &mut PageManager, first_page_id: u32) -> (r: Result<()>)
    requires
        old(pm).wf(),
    ensures
        final(pm).wf(),
        final(pm).count() == old(pm).count(),
        exists|ids: Seq<u32>, stop: u32| #[trigger]
            trail(contents(*old(pm)), first_page_id, ids, stop) && chain_freed(
                *old(pm),
                *final(pm),
                ids,
                stop,
                r,
            ),
        old(pm).free_ok() ==> forall|ids: Seq<u32>| #[trigger]
            chain_to_free(*old(pm), ids, first_page_id) ==> r is Ok && released(
                *old(pm),
                *final(pm),
                ids,
            ),
{
    let ghost pm0 = *pm;
    let ghost pages = contents(pm0);
    let ghost mut ids: Seq<u32> = Seq::empty();
    let ghost mut again: Option<u32> = None;
    let mut current_id: u32 = first_page_id;
    proof {
        assert(pm0.free_ids() + ids =~= pm0.free_ids());
        assert(capped(pm0.free_ids()) =~= pm0.free_ids());
    }
    while current_id != 0
        invariant
            pm0 == *old(pm),
            pm0.wf(),
            pages == contents(pm0),
            no_repeats(ids),
            ids.len() <= pm0.count(),
            match again {
                None => on_trail(pages, first_page_id, ids, current_id) && given_back(
                    pm0,
                    *pm,
                    ids,
                ),
                Some(x) => current_id == 0 && x != 0 && ids.contains(x) && on_trail(
                    pages,
                    first_page_id,
                    ids,
                    x,
                ) && given_back(pm0, *pm, ids.push(x)),
            },
        decreases
                pm0.count() - ids.len() + (if again is None {
                    1int
                } else {
                    0int
                }),
    {
        let buf: Page = match pm.read_page(current_id) {
            Ok(b) => b,
            Err(e) => {
                proof {
                    assert(trail(pages, first_page_id, ids, current_id));
                    lemma_freed_chain(pm0, *pm, first_page_id, ids, current_id, Err(e));
                }
                return Err(e);
            },
        };
        let header: PageHeader = PageHeader::read_from(&buf);
        let next: u32 = header.next_page_id;
        let ghost pm1 = *pm;
        match pm.free_page(current_id) {
            Ok(_) => {},
            Err(e) => {
                return Err(e);
            },
        }
        proof {
            lemma_given_back_step(pm0, pm1, *pm, ids, current_id);
            if ids.contains(current_id) {
                let m = choose|m: int| 0 <= m < ids.len() && ids[m] == current_id;
                assert(pm1.page(ids[m] as int) == empty_page(ids[m], PageType::Free));
                crate::page::manager::lemma_empty_page(current_id, PageType::Free);
                again = Some(current_id);
            } else {
                assert(pm1.pages@[current_id as int] == pm0.pages@[current_id as int]);
                assert(pages[current_id as int] == buf@);
                lemma_trail_step(pages, first_page_id, ids, current_id);
                ids = ids.push(current_id);
                lemma_few(ids, pm0.count() as nat);
            }
        }
        current_id = next;
    }
    proof {
        match again {
            None => {
                assert(trail(pages, first_page_id, ids, 0));
                lemma_freed_chain(pm0, *pm, first_page_id, ids, 0, Ok(()));
            },
            Some(x) => {
                assert(trail(pages, first_page_id, ids, x));
                assert(1 <= x < pm0.count()) by {
                    let m = choose|m: int| 0 <= m < ids.len() && ids[m] == x;
                    assert(ids[m] < pages.len());
                }
                lemma_freed_chain(pm0, *pm, first_page_id, ids, x, Ok(()));
            },
        }
    }
    Ok(())
}

/// Following the pages from `first` leads over `ids` to `next`.
pub open spec fn on_trail(pages: Seq<Seq<u8>>, first: u32, ids: Seq<u32>, next: u32) -> bool {
    &&& forall|j: int|
        0 <= j < ids.len() ==> 1 <= (#[trigger] ids[j]) < pages.len() && next_of(
            pages[ids[j] as int],
        ) == (if j + 1 < ids.len() {
            ids[j + 1]
        } else {
            next
        })
    &&& first == (if ids.len() > 0 {
        ids[0]
    } else {
        next
    })
}

proof fn lemma_trail_step(pages: Seq<Seq<u8>>, first: u32, ids: Seq<u32>, id: u32)
    requires
        on_trail(pages, first, ids, id),
        no_repeats(ids),
        !ids.contains(id),
        1 <= id < pages.len(),
    ensures
        on_trail(pages, first, ids.push(id), next_of(pages[id as int])),
        no_repeats(ids.push(id)),
{
    let w = ids.push(id);
    let next = next_of(pages[id as int]);
    assert forall|j: int| 0 <= j < w.len() implies 1 <= (#[trigger] w[j]) < pages.len() && next_of(
        pages[w[j] as int],
    ) == (if j + 1 < w.len() {
        w[j + 1]
    } else {
        next
    }) by {
        if j < ids.len() {
            assert(w[j] == ids[j]);
        }
    }
    assert forall|i: int, j: int| 0 <= i < j < w.len() implies #[trigger] w[i]
        != #[trigger] w[j] by {
        if j == ids.len() {
            assert(ids[i] == w[i]);
            assert(ids.contains(ids[i]));
        } else {
            assert(ids[i] != ids[j]);
        }
    }
}

/// Distinct page IDs below `n`, zero left out, are fewer than `n`.
proof fn lemma_few(ids: Seq<u32>, n: nat)
    requires
        no_repeats(ids),
        forall|j: int| 0 <= j < ids.len() ==> (#[trigger] ids[j]) < n,
    ensures
        ids.len() <= n,
{
    let nums = ids.map_values(|x: u32| x as int);
    assert(nums.no_duplicates()) by {
        assert forall|i: int, j: int| 0 <= i < nums.len() && 0 <= j < nums.len() && i != j
            implies nums[i] != nums[j] by {
            if i < j {
                assert(ids[i] != ids[j]);
            } else {
                assert(ids[j] != ids[i]);
            }
        }
    }
    nums.unique_seq_to_set();
    let all = vstd::set_lib::set_int_range(0, n as int);
    vstd::set_lib::lemma_int_range(0, n as int);
    assert(nums.to_set().subset_of(all)) by {
        assert forall|x: int| nums.to_set().contains(x) implies all.contains(x) by {
            let i = choose|i: int| 0 <= i < nums.len() && nums[i] == x;
            assert(ids[i] < n);
        }
    }
    vstd::set_lib::lemma_len_subset(nums.to_set(), all);
}

proof fn lemma_given_back_step(
    pm0: PageManager,
    pm1: PageManager,
    pm2: PageManager,
    ids: Seq<u32>,
    id: u32,
)
    requires
        given_back(pm0, pm1, ids),
        pm2.wf(),
        1 <= id < pm1.count(),
        pm2.count() == pm1.count(),
        pm2.page(id as int) == empty_page(id, PageType::Free),
        pm2.free_ids() == capped(pm1.free_ids().push(id)),
        forall|i: int|
            1 <= i < pm1.count() && i != id ==> #[trigger] pm2.pages@[i] == pm1.pages@[i],
        forall|j: int| 0 <= j < ids.len() ==> 1 <= (#[trigger] ids[j]) < pm0.count(),
    ensures
        given_back(pm0, pm2, ids.push(id)),
{
    let w = ids.push(id);
    assert((pm0.free_ids() + ids).push(id) =~= pm0.free_ids() + w);
    assert(pm2.free_ids() =~= capped(pm0.free_ids() + w));
    assert(w[ids.len() as int] == id);
    assert forall|j: int| 0 <= j < w.len() implies pm2.page((#[trigger] w[j]) as int)
        == empty_page(w[j], PageType::Free) by {
        if j < ids.len() && w[j] != id {
            assert(ids[j] == w[j]);
            assert(pm1.page(ids[j] as int) == empty_page(ids[j], PageType::Free));
            assert(pm2.pages@[ids[j] as int] == pm1.pages@[ids[j] as int]);
        }
    }
    assert forall|i: int| 1 <= i < pm0.count() && !w.contains(i as u32) implies
        #[trigger] pm2.pages@[i] == pm0.pages@[i] by {
        assert(i != id);
        if ids.contains(i as u32) {
            let m = choose|m: int| 0 <= m < ids.len() && ids[m] == i as u32;
            assert(w[m] == i as u32);
        }
        assert(pm1.pages@[i] == pm0.pages@[i]);
    }
}

/// What the run over a chain gives of a chain of pages in use.
proof fn lemma_freed_chain(
    pm0: PageManager,
    pm: PageManager,
    first: u32,
    ids: Seq<u32>,
    stop: u32,
    r: Result<()>,
)
    requires
        pm0.wf(),
        trail(contents(pm0), first, ids, stop),
        chain_freed(pm0, pm, ids, stop, r),
    ensures
        pm0.free_ok() ==> forall|other: Seq<u32>| #[trigger]
            chain_to_free(pm0, other, first) ==> r is Ok && released(pm0, pm, other),
{
    let pages = contents(pm0);
    if pm0.free_ok() {
        assert forall|other: Seq<u32>| #[trigger] chain_to_free(pm0, other, first) implies r is Ok
            && released(pm0, pm, other) by {
            lemma_same_trail(pages, first, ids, stop, other);
            lemma_released(pm0, pm, other);
        }
    }
}

/// A chain is the trail from its first page.
proof fn lemma_same_trail(
    pages: Seq<Seq<u8>>,
    first: u32,
    ids: Seq<u32>,
    stop: u32,
    other: Seq<u32>,
)
    requires
        trail(pages, first, ids, stop),
        linked(pages, other),
        no_repeats(other),
        chain_head(other) == first,
    ensures
        ids == other,
        stop == 0,
{
    let n = if ids.len() < other.len() {
        ids.len()
    } else {
        other.len()
    };
    lemma_same_front(pages, first, ids, stop, other, n as int);
    if n > 0 {
        assert(link_at(pages, other, n - 1));
        assert(ids[n - 1] == other[n - 1]);
    }
    if ids.len() < other.len() {
        assert(link_at(pages, other, n as int));
        assert(other[n as int] == stop);
        if ids.contains(stop) {
            let m = choose|m: int| 0 <= m < ids.len() && ids[m] == stop;
            assert(other[m] == other[n as int]);
        }
    } else if other.len() < ids.len() {
        assert(ids[n as int] == 0);
    } else if n > 0 {
        assert(next_of(pages[ids[n - 1] as int]) == stop);
    }
    assert(ids =~= other);
}

proof fn lemma_same_front(
    pages: Seq<Seq<u8>>,
    first: u32,
    ids: Seq<u32>,
    stop: u32,
    other: Seq<u32>,
    n: int,
)
    requires
        trail(pages, first, ids, stop),
        linked(pages, other),
        chain_head(other) == first,
        0 <= n <= ids.len(),
        n <= other.len(),
    ensures
        forall|j: int| 0 <= j < n ==> #[trigger] ids[j] == other[j],
    decreases n,
{
    if n > 0 {
        lemma_same_front(pages, first, ids, stop, other, n - 1);
        if n > 1 {
            assert(link_at(pages, other, n - 2));
            assert(ids[n - 2] == other[n - 2]);
            assert(next_of(pages[ids[n - 2] as int]) == ids[n - 1]);
        }
    }
}

/// Pages in use that are given back leave the free-list in order.
proof fn lemma_released(pm0: PageManager, pm: PageManager, ids: Seq<u32>)
    requires
        pm0.free_ok(),
        given_back(pm0, pm, ids),
        no_repeats(ids),
        linked(contents(pm0), ids),
        forall|j: int| 0 <= j < ids.len() ==> !pm0.is_free((#[trigger] ids[j]) as int),
    ensures
        released(pm0, pm, ids),
{
    let f0 = pm0.free_ids();
    let f = pm.free_ids();
    let all = f0 + ids;
    assert forall|i: int| 0 <= i < f.len() implies #[trigger] f[i] == all[i] && 1 <= f[i]
        < pm.count() by {
        if i < f0.len() {
            assert(all[i] == f0[i]);
        } else {
            assert(link_at(contents(pm0), ids, i - f0.len()));
            assert(all[i] == ids[i - f0.len()]);
        }
    }
    assert forall|i: int, j: int| 0 <= i < j < f.len() implies #[trigger] f[i]
        != #[trigger] f[j] by {
        assert(f[i] == all[i] && f[j] == all[j]);
        if j < f0.len() {
            assert(f0[i] != f0[j]);
        } else if i < f0.len() {
            assert(!pm0.is_free(ids[j - f0.len()] as int));
            assert(f0[i] == all[i]);
        } else {
            assert(ids[i - f0.len()] != ids[j - f0.len()]);
        }
    }
    assert forall|x: int| pm.is_free(x) implies #[trigger] pm0.is_free(x) || (0 <= x <= u32::MAX
        && ids.contains(x as u32)) by {
        let i = choose|i: int| 0 <= i < f.len() && #[trigger] f[i] == x;
        assert(f[i] == all[i]);
        if i < f0.len() {
            assert(f0[i] == x);
        } else {
            assert(ids[i - f0.len()] == x as u32);
        }
    }
}

/// `ids` is a chain from `first` of pages in use.
pub open spec fn chain_to_free(pm: PageManager, ids: Seq<u32>, first: u32) -> bool {
    &&& linked(contents(pm), ids)
    &&& no_repeats(ids)
    &&& chain_head(ids) == first
    &&& forall|j: int| 0 <= j < ids.len() ==> !pm.is_free((#[trigger] ids[j]) as int)
}

/// A chain is determined by its first page.
pub proof fn lemma_chain_unique(pages: Seq<Seq<u8>>, a: Seq<u32>, b: Seq<u32>)
    requires
        linked(pages, a),
        linked(pages, b),
        chain_head(a) == chain_head(b),
    ensures
        a == b,
    decreases a.len(),
{
    if a.len() > 0 {
        assert(link_at(pages, a, 0));
    }
    if b.len() > 0 {
        assert(link_at(pages, b, 0));
    }
    if a.len() == 0 || b.len() == 0 {
        assert(a =~= b);
    } else {
        let x = a.skip(1);
        let y = b.skip(1);
        assert(linked(pages, x)) by {
            assert forall|j: int| 0 <= j < x.len() implies #[trigger] link_at(pages, x, j) by {
                assert(link_at(pages, a, j + 1));
            }
        }
        assert(linked(pages, y)) by {
            assert forall|j: int| 0 <= j < y.len() implies #[trigger] link_at(pages, y, j) by {
                assert(link_at(pages, b, j + 1));
            }
        }
        lemma_chain_unique(pages, x, y);
        assert(a =~= seq![a[0]] + x);
        assert(b =~= seq![b[0]] + y);
    }
}

/// Reading an overflow chain gives back the data that was written.
pub proof fn law_overflow_round_trip(pages: Seq<Seq<u8>>, ids: Seq<u32>, data: Seq<u8>)
    requires
        linked(pages, ids),
        chain_data(pages, ids) == data,
    ensures
        chain_bytes(pages, chain_head(ids), ids.len()) == Ok::<Seq<u8>, u32>(data),
{
    lemma_linked(pages, ids);
}

/// Freeing a chain gives back all of its pages, and no other: they are on the
/// free-list, in order, as far as that has room.
pub proof fn law_freed_chain_is_given_back(
    old_pm: PageManager,
    new_pm: PageManager,
    ids: Seq<u32>,
    got: Seq<u32>,
    stop: u32,
    r: Result<()>,
)
    requires
        linked(contents(old_pm), ids),
        no_repeats(ids),
        trail(contents(old_pm), chain_head(ids), got, stop),
        chain_freed(old_pm, new_pm, got, stop, r),
    ensures
        r is Ok,
        got == ids,
        old_pm.free_ids().len() + ids.len() <= 2039 ==> new_pm.free_ids() == old_pm.free_ids()
            + ids,
        forall|i: int|
            1 <= i < old_pm.count() && !ids.contains(i as u32) ==> #[trigger] new_pm.pages@[i]
                == old_pm.pages@[i],
{
    let pages = contents(old_pm);
    let n = if ids.len() <= got.len() {
        ids.len() as int
    } else {
        got.len() as int
    };
    lemma_common_trail(pages, ids, got, stop, n);
    if ids.len() < got.len() {
        if ids.len() > 0 {
            assert(link_at(pages, ids, ids.len() - 1));
            assert(ids[ids.len() - 1] == got[ids.len() - 1]);
        }
        assert(got[ids.len() as int] >= 1);
    } else if got.len() < ids.len() {
        let g = got.len() as int;
        assert(link_at(pages, ids, g));
        if g > 0 {
            assert(link_at(pages, ids, g - 1));
            assert(ids[g - 1] == got[g - 1]);
            assert(got[g - 1] == ids[g - 1]);
        }
        assert(stop == ids[g]);
        if got.contains(stop) {
            let j = choose|j: int| 0 <= j < got.len() && got[j] == stop;
            assert(ids[j] == got[j]);
            assert(ids[j] != ids[g]);
        }
    }
    assert(got =~= ids);
    if ids.len() > 0 {
        assert(link_at(pages, ids, ids.len() - 1));
        assert(got[got.len() - 1] == ids[ids.len() - 1]);
    }
    let all = old_pm.free_ids() + ids;
    if all.len() <= 2039 {
        assert(capped(all) =~= all);
    }
}

proof fn lemma_common_trail(pages: Seq<Seq<u8>>, ids: Seq<u32>, got: Seq<u32>, stop: u32, n: int)
    requires
        linked(pages, ids),
        trail(pages, chain_head(ids), got, stop),
        0 <= n <= ids.len(),
        n <= got.len(),
    ensures
        forall|j: int| 0 <= j < n ==> #[trigger] got[j] == ids[j],
    decreases n,
{
    if n > 0 {
        lemma_common_trail(pages, ids, got, stop, n - 1);
        if n > 1 {
            assert(link_at(pages, ids, n - 2));
            assert(got[n - 2] == ids[n - 2]);
            assert(next_of(pages[got[n - 2] as int]) == got[n - 1]);
        }
    }
}

} // verus!
