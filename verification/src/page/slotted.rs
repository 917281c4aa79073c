//! Slotted page: variable-length tuple storage within a fixed-size page.
//!
//! Uses a slot array growing from the header and tuple data growing from the
//! end of the page, with free space in between.

use vstd::prelude::*;

use crate::bytes::{
    field, get_u16, lemma_field_bound, lemma_field_frame, lemma_field_written, lemma_pow256_values,
    to_vec, u16_le,
};
use crate::error::{GrumpyError, Result};
use crate::page::{
    write_at, Page, PageHeader, PageType, PAGE_HEADER_SIZE, PAGE_SIZE, SLOT_SIZE,
};

verus! {

/// Where the slot array of a page with `n` slots ends.
pub open spec fn slots_end(n: int) -> int {
    32 + 4 * n
}

/// The offset that slot `i` of a page holds; zero marks a deleted slot.
pub open spec fn slot_off(d: Seq<u8>, i: int) -> int {
    field(d, slots_end(i), 2) as int
}

/// The tuple length that slot `i` of a page holds.
pub open spec fn slot_len(d: Seq<u8>, i: int) -> int {
    field(d, slots_end(i) + 2, 2) as int
}

/// The number of slots of a page, deleted ones included.
pub open spec fn slot_count(d: Seq<u8>) -> int {
    field(d, 6, 2) as int
}

/// Where the free space of a page starts.
pub open spec fn free_start(d: Seq<u8>) -> int {
    field(d, 8, 2) as int
}

/// Where the free space of a page ends.
pub open spec fn free_end(d: Seq<u8>) -> int {
    field(d, 10, 2) as int
}

/// The free space of a page between slot array and tuples.
pub open spec fn page_room(d: Seq<u8>) -> int {
    free_end(d) - free_start(d)
}

/// What slot `i` of a page holds: a tuple, or nothing once it is deleted.
pub open spec fn slot_value(d: Seq<u8>, i: int) -> Option<Seq<u8>> {
    if slot_off(d, i) == 0 {
        None
    } else {
        Some(d.subrange(slot_off(d, i), slot_off(d, i) + slot_len(d, i)))
    }
}

/// The slots of a page.
pub open spec fn slot_values(d: Seq<u8>) -> Seq<Option<Seq<u8>>> {
    Seq::new(slot_count(d) as nat, |i: int| slot_value(d, i))
}

/// The number of bytes in the live tuples among `slots`.
pub open spec fn live_bytes(slots: Seq<Option<Seq<u8>>>) -> int
    decreases slots.len(),
{
    if slots.len() == 0 {
        0
    } else {
        live_bytes(slots.drop_last()) + match slots.last() {
            Some(t) => t.len() as int,
            None => 0,
        }
    }
}

/// The number of live tuples among `slots`.
pub open spec fn live_count(slots: Seq<Option<Seq<u8>>>) -> int
    decreases slots.len(),
{
    if slots.len() == 0 {
        0
    } else {
        live_count(slots.drop_last()) + if slots.last() is Some {
            1int
        } else {
            0int
        }
    }
}

/// The first deleted slot, or the number of slots when all are live.
pub open spec fn first_free(slots: Seq<Option<Seq<u8>>>) -> int
    decreases slots.len(),
{
    if slots.len() == 0 {
        0
    } else if slots[0] is None {
        0
    } else {
        1 + first_free(slots.skip(1))
    }
}

/// The slots after `t` went into slot `i`, which is new if it is past the end.
pub open spec fn with_tuple(
    slots: Seq<Option<Seq<u8>>>,
    i: int,
    t: Seq<u8>,
) -> Seq<Option<Seq<u8>>> {
    if i < slots.len() {
        slots.update(i, Some(t))
    } else {
        slots.push(Some(t))
    }
}

/// A page laid out as a slotted page: the slot array ends where the free
/// space starts, live tuples lie behind the free space without overlap, and
/// they would fit there side by side.
pub open spec fn slotted_wf(d: Seq<u8>) -> bool {
    let n = slot_count(d);
    &&& d.len() == PAGE_SIZE
    &&& free_start(d) == slots_end(n)
    &&& free_start(d) <= free_end(d) <= PAGE_SIZE
    &&& forall|i: int|
        0 <= i < n && #[trigger] slot_off(d, i) != 0 ==> free_end(d) <= slot_off(d, i) && slot_off(
            d,
            i,
        ) + slot_len(d, i) <= PAGE_SIZE
    &&& forall|i: int, j: int|
        0 <= i < n && 0 <= j < n && i != j && #[trigger] slot_off(d, i) != 0
            && #[trigger] slot_off(d, j) != 0 ==> slot_off(d, i) + slot_len(d, i) <= slot_off(d, j)
            || slot_off(d, j) + slot_len(d, j) <= slot_off(d, i)
    &&& live_bytes(slot_values(d)) <= PAGE_SIZE - free_end(d)
}

/// `d` is the page `d0` with its tuples packed at the end, that of the first
/// slot last, and zeros between them and the slot array.
pub open spec fn packed(d0: Seq<u8>, d: Seq<u8>) -> bool {
    let slots = slot_values(d0);
    let n = slot_count(d0);
    &&& d.len() == PAGE_SIZE
    &&& same_identity(d, d0)
    &&& slot_count(d) == n
    &&& free_start(d) == free_start(d0)
    &&& free_end(d) == PAGE_SIZE - live_bytes(slots)
    &&& slot_values(d) == slots
    &&& forall|i: int|
        0 <= i < n ==> #[trigger] slot_off(d, i) == (if slots[i] is None {
            0
        } else {
            PAGE_SIZE - live_bytes(slots.take(i + 1))
        })
    &&& forall|i: int| 0 <= i < n ==> #[trigger] slot_len(d, i) == slot_len(d0, i)
    &&& forall|j: int| slots_end(n) <= j < free_end(d) ==> #[trigger] d[j] == 0
}

/// A byte past the free space of a packed page belongs to a tuple.
proof fn lemma_in_tuple(slots: Seq<Option<Seq<u8>>>, j: int) -> (i: int)
    requires
        PAGE_SIZE - live_bytes(slots) <= j < PAGE_SIZE,
    ensures
        0 <= i < slots.len(),
        slots[i] is Some,
        PAGE_SIZE - live_bytes(slots.take(i + 1)) <= j < PAGE_SIZE - live_bytes(slots.take(i + 1))
            + slots[i]->0.len(),
    decreases slots.len(),
{
    let n = slots.len();
    let f = slots.drop_last();
    assert(slots.take(n as int) =~= slots);
    if PAGE_SIZE - live_bytes(f) <= j {
        let i = lemma_in_tuple(f, j);
        assert(f.take(i + 1) =~= slots.take(i + 1));
        i
    } else {
        n - 1
    }
}

proof fn lemma_same_field(s: Seq<u8>, t: Seq<u8>, off: int)
    requires
        0 <= off,
        off + 2 <= s.len(),
        off + 2 <= t.len(),
        field(s, off, 2) == field(t, off, 2),
    ensures
        s[off] == t[off],
        s[off + 1] == t[off + 1],
{
    let a = s.subrange(off, off + 2);
    let b = t.subrange(off, off + 2);
    crate::bytes::lemma_le_val_bytes(a);
    crate::bytes::lemma_le_val_bytes(b);
    assert(a == b);
    assert(s[off] == a[0] && s[off + 1] == a[1]);
}

proof fn lemma_same_slot(d1: Seq<u8>, d2: Seq<u8>, i: int, j: int)
    requires
        d1.len() == PAGE_SIZE,
        d2.len() == PAGE_SIZE,
        0 <= i,
        slots_end(i) <= j < slots_end(i) + 4 <= PAGE_SIZE,
        slot_off(d2, i) == slot_off(d1, i),
        slot_len(d2, i) == slot_len(d1, i),
    ensures
        d2[j] == d1[j],
{
    lemma_same_field(d2, d1, slots_end(i));
    lemma_same_field(d2, d1, slots_end(i) + 2);
}

proof fn lemma_same_tuple(d1: Seq<u8>, d2: Seq<u8>, i: int, j: int)
    requires
        d1.len() == PAGE_SIZE,
        d2.len() == PAGE_SIZE,
        slot_value(d1, i) is Some,
        slot_value(d2, i) == slot_value(d1, i),
        slot_off(d2, i) == slot_off(d1, i),
        0 <= slot_off(d1, i) <= j < slot_off(d1, i) + slot_value(d1, i)->0.len() <= PAGE_SIZE,
        slot_len(d2, i) == slot_len(d1, i),
        slot_off(d1, i) + slot_len(d1, i) <= PAGE_SIZE,
        0 <= slot_len(d1, i),
    ensures
        d2[j] == d1[j],
{
    let o = slot_off(d1, i);
    assert(slot_value(d1, i)->0[j - o] == d1[j]);
    assert(slot_value(d2, i)->0[j - o] == d2[j]);
}

/// Compaction can be repeated: packing a packed page changes no byte.
pub proof fn law_compaction_is_idempotent(d0: Seq<u8>, d1: Seq<u8>, d2: Seq<u8>)
    requires
        slotted_wf(d0),
        slotted_wf(d1),
        packed(d0, d1),
        packed(d1, d2),
    ensures
        d2 == d1,
{
    let slots = slot_values(d0);
    let n = slot_count(d0);
    lemma_same_field(d2, d1, 6);
    lemma_same_field(d2, d1, 8);
    lemma_same_field(d2, d1, 10);
    assert forall|j: int| 0 <= j < PAGE_SIZE implies d2[j] == d1[j] by {
        if j < 6 || 12 <= j < 32 {
            assert(d2[j] == d1[j]);
        } else if j < 32 {
        } else if j < slots_end(n) {
            let i = (j - 32) / 4;
            assert(slot_off(d2, i) == slot_off(d1, i));
            assert(slot_len(d2, i) == slot_len(d1, i));
            lemma_same_slot(d1, d2, i, j);
        } else if j < free_end(d1) {
            assert(d1[j] == 0);
            assert(d2[j] == 0);
        } else {
            let i = lemma_in_tuple(slots, j);
            assert(slot_values(d1)[i] == slot_value(d1, i));
            assert(slot_values(d2)[i] == slot_value(d2, i));
            assert(slot_off(d2, i) == slot_off(d1, i));
            assert(slot_len(d2, i) == slot_len(d1, i));
            lemma_same_tuple(d1, d2, i, j);
        }
    }
    assert(d2 =~= d1);
}

/// The header fields that slot operations leave alone.
pub open spec fn same_identity(d: Seq<u8>, e: Seq<u8>) -> bool {
    &&& d.len() == e.len()
    &&& forall|i: int| (0 <= i < 6 || 12 <= i < 32) ==> #[trigger] d[i] == e[i]
}

proof fn lemma_same_page_id(d: Seq<u8>, e: Seq<u8>)
    requires
        d.len() == PAGE_SIZE,
        same_identity(d, e),
    ensures
        PageHeader::parse(d).page_id == PageHeader::parse(e).page_id,
{
    lemma_field_frame(d, e, 0, 4);
}

proof fn lemma_live_bytes_update(
    slots: Seq<Option<Seq<u8>>>,
    i: int,
    v: Option<Seq<u8>>,
)
    requires
        0 <= i < slots.len(),
    ensures
        live_bytes(slots.update(i, v)) == live_bytes(slots) - (match slots[i] {
            Some(t) => t.len() as int,
            None => 0,
        }) + (match v {
            Some(t) => t.len() as int,
            None => 0,
        }),
    decreases slots.len(),
{
    let u = slots.update(i, v);
    if i == slots.len() - 1 {
        assert(u.drop_last() =~= slots.drop_last());
    } else {
        assert(u.drop_last() =~= slots.drop_last().update(i, v));
        lemma_live_bytes_update(slots.drop_last(), i, v);
    }
}

proof fn lemma_live_bytes_nonneg(slots: Seq<Option<Seq<u8>>>)
    ensures
        0 <= live_bytes(slots),
    decreases slots.len(),
{
    if slots.len() > 0 {
        lemma_live_bytes_nonneg(slots.drop_last());
    }
}

proof fn lemma_live_bytes_prefix(slots: Seq<Option<Seq<u8>>>, i: int)
    requires
        0 <= i <= slots.len(),
    ensures
        0 <= live_bytes(slots.take(i)) <= live_bytes(slots),
    decreases slots.len() - i,
{
    lemma_live_bytes_nonneg(slots.take(i));
    if i == slots.len() {
        assert(slots.take(i) =~= slots);
    } else {
        lemma_live_bytes_prefix(slots, i + 1);
        assert(slots.take(i + 1).drop_last() =~= slots.take(i));
    }
}

pub proof fn lemma_first_free(slots: Seq<Option<Seq<u8>>>)
    ensures
        0 <= first_free(slots) <= slots.len(),
        first_free(slots) < slots.len() ==> slots[first_free(slots)] is None,
        forall|j: int| 0 <= j < first_free(slots) ==> (#[trigger] slots[j]) is Some,
    decreases slots.len(),
{
    if slots.len() > 0 && slots[0] is Some {
        lemma_first_free(slots.skip(1));
        assert forall|j: int| 0 <= j < first_free(slots) implies (#[trigger] slots[j]) is Some by {
            if j > 0 {
                assert(slots[j] == slots.skip(1)[j - 1]);
            }
        }
        if first_free(slots) < slots.len() {
            assert(slots[first_free(slots)] == slots.skip(1)[first_free(slots) - 1]);
        }
    }
}

proof fn lemma_first_free_is(slots: Seq<Option<Seq<u8>>>, i: int)
    requires
        0 <= i <= slots.len(),
        i < slots.len() ==> slots[i] is None,
        forall|j: int| 0 <= j < i ==> (#[trigger] slots[j]) is Some,
    ensures
        first_free(slots) == i,
{
    lemma_first_free(slots);
    if first_free(slots) < i {
        assert(slots[first_free(slots)] is Some);
    } else if i < first_free(slots) {
        assert(slots[i] is Some);
    }
}

/// Overwrites the two-byte field at `off`.
fn set_u16(buf: &mut Page, off: usize, x: u16)
    requires
        off + 2 <= PAGE_SIZE,
    ensures
        final(buf)@.len() == PAGE_SIZE,
        field(final(buf)@, off as int, 2) == x,
        forall|i: int|
            0 <= i < PAGE_SIZE && (i < off || off + 2 <= i) ==> #[trigger] final(buf)@[i] == old(
                buf,
            )@[i],
        forall|o: int|
            0 <= o && o + 2 <= PAGE_SIZE && (o + 2 <= off || off + 2 <= o) ==> #[trigger] field(
                final(buf)@,
                o,
                2,
            ) == field(old(buf)@, o, 2),
{
    let ghost before = buf@;
    write_at(buf, off, u16_le(x).as_slice());
    proof {
        lemma_pow256_values();
        lemma_field_written(before, off as int, x as nat, 2);
        crate::bytes::lemma_le_bytes_len(x as nat, 2);
        assert forall|o: int|
            0 <= o && o + 2 <= PAGE_SIZE && (o + 2 <= off || off + 2 <= o) implies #[trigger] field(
            buf@,
            o,
            2,
        ) == field(before, o, 2) by {
            lemma_field_frame(buf@, before, o, 2);
        }
    }
}

/// A slotted page that stores variable-length tuples within a fixed 8 KiB
/// buffer.
///
/// ```text
/// ┌─────────────────────────────────────┐
/// │ PageHeader (32 bytes)               │
/// ├─────────────────────────────────────┤
/// │ Slot array [slot_0, ..., slot_n]    │  ← grows downward
/// ├─────────────────────────────────────┤
/// │         Free space                  │
/// ├─────────────────────────────────────┤
/// │ Tuple data [tuple_n, ..., tuple_0]  │  ← grows upward (from end)
/// └─────────────────────────────────────┘
/// ```
pub struct SlottedPage {
    pub data: Page,
}

impl SlottedPage {
    /// The page is laid out as a slotted page.
    pub open spec fn wf(&self) -> bool {
        slotted_wf(self.data@)
    }

    /// The slots of the page: tuples, and nothing where a tuple was deleted.
    pub open spec fn slots(&self) -> Seq<Option<Seq<u8>>> {
        slot_values(self.data@)
    }

    /// The page's own identifier.
    pub open spec fn id(&self) -> u32 {
        PageHeader::parse(self.data@).page_id
    }

    /// The free space between slot array and tuples.
    pub open spec fn room(&self) -> int {
        page_room(self.data@)
    }

    /// Whether `i` is a slot that holds a tuple.
    pub open spec fn live(&self, i: int) -> bool {
        0 <= i < self.slots().len() && self.slots()[i] is Some
    }

    /// Creates a new empty slotted page with the given page ID.
    pub fn new(page_id: u32) -> (r: Self)
        ensures
            r.wf(),
            r.slots() == Seq::<Option<Seq<u8>>>::empty(),
            r.room() == 8160,
            r.id() == page_id,
            PageHeader::parse(r.data@) == PageHeader::fresh(page_id, PageType::Data),
            r.data@.skip(32) == crate::bytes::zeros(8160),
    {
        let mut data: Page = [0u8;PAGE_SIZE];
        let header: PageHeader = PageHeader::new(page_id, PageType::Data);
        let ghost before = data@;
        header.write_to(&mut data);
        proof {
            lemma_field_bound(data@, 6, 2);
            lemma_field_bound(data@, 8, 2);
            lemma_field_bound(data@, 10, 2);
            lemma_pow256_values();
            assert(slot_values(data@) =~= Seq::<Option<Seq<u8>>>::empty());
            assert(before.skip(32) =~= crate::bytes::zeros(8160));
        }
        SlottedPage { data }
    }

    /// Wraps an existing page buffer as a slotted page.
    pub fn from_bytes(data: Page) -> (r: Self)
        ensures
            r.data == data,
    {
        SlottedPage { data }
    }

    /// Returns the page header.
    pub fn header(&self) -> (r: PageHeader)
        ensures
            r == PageHeader::parse(self.data@),
    {
        PageHeader::read_from(&self.data)
    }

    /// Returns the number of slots (including tombstones).
    pub fn num_slots(&self) -> (r: u16)
        ensures
            r == self.slots().len(),
    {
        get_u16(self.data.as_slice(), 6)
    }

    fn free_space_start(&self) -> (r: u16)
        ensures
            r == free_start(self.data@),
    {
        get_u16(self.data.as_slice(), 8)
    }

    fn free_space_end(&self) -> (r: u16)
        ensures
            r == free_end(self.data@),
    {
        get_u16(self.data.as_slice(), 10)
    }

    /// Returns the usable free space in bytes (for data + new slot entry).
    pub fn free_space(&self) -> (r: usize)
        ensures
            r == (if self.room() >= 0 {
                self.room()
            } else {
                0
            }),
    {
        let start: usize = self.free_space_start() as usize;
        let end: usize = self.free_space_end() as usize;
        if end >= start {
            end - start
        } else {
            0
        }
    }

    fn slot_offset(slot_index: u16) -> (r: usize)
        ensures
            r == slots_end(slot_index as int),
    {
        PAGE_HEADER_SIZE + (slot_index as usize) * SLOT_SIZE
    }

    fn read_slot(&self, slot_index: u16) -> (r: (u16, u16))
        requires
            slots_end(slot_index as int) + 4 <= PAGE_SIZE,
        ensures
            r.0 == slot_off(self.data@, slot_index as int),
            r.1 == slot_len(self.data@, slot_index as int),
    {
        let base: usize = Self::slot_offset(slot_index);
        let offset: u16 = get_u16(self.data.as_slice(), base);
        let length: u16 = get_u16(self.data.as_slice(), base + 2);
        (offset, length)
    }

    fn write_slot(&mut self, slot_index: u16, offset: u16, length: u16)
        requires
            slots_end(slot_index as int) + 4 <= PAGE_SIZE,
        ensures
            slot_off(final(self).data@, slot_index as int) == offset,
            slot_len(final(self).data@, slot_index as int) == length,
            final(self).data@.len() == PAGE_SIZE,
            forall|i: int|
                0 <= i < PAGE_SIZE && (i < slots_end(slot_index as int) || slots_end(
                    slot_index as int,
                ) + 4 <= i) ==> #[trigger] final(self).data@[i] == old(self).data@[i],
            forall|o: int|
                0 <= o && o + 2 <= PAGE_SIZE && (o + 2 <= slots_end(slot_index as int) || slots_end(
                    slot_index as int,
                ) + 4 <= o) ==> #[trigger] field(final(self).data@, o, 2) == field(
                    old(self).data@,
                    o,
                    2,
                ),
    {
        let base: usize = Self::slot_offset(slot_index);
        set_u16(&mut self.data, base, offset);
        set_u16(&mut self.data, base + 2, length);
    }

    fn not_found(&self) -> (r: GrumpyError)
        ensures
            r == GrumpyError::PageNotFound(self.id()),
    {
        GrumpyError::PageNotFound(self.header().page_id)
    }

    /// Inserts a tuple into the page, into the first deleted slot if there is
    /// one. Returns the slot index, or `PageFull` if there is not enough
    /// space for the tuple and a slot entry.
    pub fn insert(&mut self, tuple_data: &[u8]) -> (r: Result<u16>)
        requires
            old(self).wf(),
        ensures
            final(self).wf(),
            same_identity(final(self).data@, old(self).data@),
            final(self).id() == old(self).id(),
            r is Ok == (tuple_data@.len() + 4 <= old(self).room()),
            match r {
                Ok(i) => {
                    &&& i == first_free(old(self).slots())
                    &&& final(self).slots() == with_tuple(old(self).slots(), i as int, tuple_data@)
                    &&& final(self).room() == old(self).room() - tuple_data@.len() - 4 * (
                    final(self).slots().len() - old(self).slots().len())
                },
                Err(e) => e == GrumpyError::PageFull(old(self).id()) && *final(self) == *old(self),
            },
    {
        let data_len: usize = tuple_data.len();
        let avail: usize = self.free_space();
        if avail < SLOT_SIZE || avail - SLOT_SIZE < data_len {
            return Err(GrumpyError::PageFull(self.header().page_id));
        }
        let ghost d0 = self.data@;
        let ghost old_slots = self.slots();
        let n: u16 = self.num_slots();
        let slot_index: u16 = match self.find_tombstone_slot() {
            Some(i) => i,
            None => {
                proof {
                    lemma_first_free_is(old_slots, old_slots.len() as int);
                }
                set_u16(&mut self.data, 6, n + 1);
                let start: usize = Self::slot_offset(n + 1);
                set_u16(&mut self.data, 8, start as u16);
                n
            },
        };
        let ghost d1 = self.data@;
        let new_end: u16 = self.free_space_end() - data_len as u16;
        set_u16(&mut self.data, 10, new_end);
        let ghost d2 = self.data@;
        write_at(&mut self.data, new_end as usize, tuple_data);
        let ghost d3 = self.data@;
        self.write_slot(slot_index, new_end, data_len as u16);
        proof {
            let d = self.data@;
            let k = slot_index as int;
            let m = slot_count(d);
            assert forall|o: int| 0 <= o && o + 2 <= new_end implies #[trigger] field(d3, o, 2)
                == field(d2, o, 2) by {
                lemma_field_frame(d3, d2, o, 2);
            }
            assert(slot_count(d) == slot_count(d1));
            assert(m == if k == n { n + 1 } else { n as int });
            assert forall|i: int| 0 <= i < n && i != k implies #[trigger] slot_off(d, i)
                == slot_off(d0, i) && slot_len(d, i) == slot_len(d0, i) by {}
            assert(slot_value(d, k) == Some(tuple_data@)) by {
                assert(d.subrange(new_end as int, new_end + data_len) =~= tuple_data@);
            }
            assert forall|i: int| 0 <= i < n && i != k implies #[trigger] slot_value(d, i)
                == slot_value(d0, i) by {
                assert(slot_off(d, i) == slot_off(d0, i));
                if slot_off(d0, i) != 0 {
                    assert(d.subrange(slot_off(d0, i), slot_off(d0, i) + slot_len(d0, i))
                        =~= d0.subrange(slot_off(d0, i), slot_off(d0, i) + slot_len(d0, i)));
                }
            }
            assert(slot_values(d) =~= with_tuple(old_slots, k, tuple_data@));
            if k < n {
                lemma_live_bytes_update(old_slots, k, Some(tuple_data@));
            } else {
                assert(slot_values(d).drop_last() =~= old_slots);
            }
            assert(same_identity(d, d0));
            lemma_same_page_id(d, d0);
            assert forall|i: int| 0 <= i < m && #[trigger] slot_off(d, i) != 0 implies free_end(d)
                <= slot_off(d, i) && slot_off(d, i) + slot_len(d, i) <= PAGE_SIZE by {
                if i != k {
                    assert(slot_off(d0, i) != 0);
                }
            }
            assert forall|i: int, j: int|
                0 <= i < m && 0 <= j < m && i != j && #[trigger] slot_off(d, i) != 0
                    && #[trigger] slot_off(d, j) != 0 implies slot_off(d, i) + slot_len(d, i)
                <= slot_off(d, j) || slot_off(d, j) + slot_len(d, j) <= slot_off(d, i) by {
                if i != k {
                    assert(slot_off(d0, i) != 0);
                }
                if j != k {
                    assert(slot_off(d0, j) != 0);
                }
            }
        }
        Ok(slot_index)
    }

    /// Finds the first tombstone slot.
    fn find_tombstone_slot(&self) -> (r: Option<u16>)
        requires
            self.wf(),
        ensures
            match r {
                Some(i) => i < self.slots().len() && i == first_free(self.slots())
                    && self.slots()[i as int] is None,
                None => forall|i: int|
                    0 <= i < self.slots().len() ==> (#[trigger] self.slots()[i]) is Some,
            },
    {
        let num: u16 = self.num_slots();
        let mut i: u16 = 0;
        while i < num
            invariant
                self.wf(),
                num == self.slots().len(),
                i <= num,
                forall|j: int| 0 <= j < i ==> (#[trigger] self.slots()[j]) is Some,
            decreases num - i,
        {
            let (offset, _) = self.read_slot(i);
            if offset == 0 {
                proof {
                    lemma_first_free_is(self.slots(), i as int);
                }
                return Some(i);
            }
            i = i + 1;
        }
        None
    }

    /// Retrieves the tuple data at the given slot index.
    ///
    /// Returns an error if the slot is out of range or has been deleted.
    pub fn get(&self, slot_index: u16) -> (r: Result<&[u8]>)
        requires
            self.wf(),
        ensures
            r is Ok == self.live(slot_index as int),
            match r {
                Ok(t) => Some(t@) == self.slots()[slot_index as int],
                Err(e) => e == GrumpyError::PageNotFound(self.id()),
            },
    {
        if slot_index >= self.num_slots() {
            return Err(self.not_found());
        }
        let (offset, length) = self.read_slot(slot_index);
        if offset == 0 {
            return Err(self.not_found());
        }
        let start: usize = offset as usize;
        let end: usize = start + length as usize;
        Ok(&self.data[start..end])
    }

    /// Deletes the tuple at the given slot index by marking it as a tombstone.
    ///
    /// The space is not immediately reclaimed; call [`SlottedPage::compact`]
    /// to defragment.
    pub fn delete(&mut self, slot_index: u16) -> (r: Result<()>)
        requires
            old(self).wf(),
        ensures
            final(self).wf(),
            same_identity(final(self).data@, old(self).data@),
            final(self).id() == old(self).id(),
            final(self).room() == old(self).room(),
            r is Ok == old(self).live(slot_index as int),
            match r {
                Ok(_) => final(self).slots() == old(self).slots().update(slot_index as int, None),
                Err(e) => e == GrumpyError::PageNotFound(old(self).id()) && *final(self) == *old(
                    self,
                ),
            },
    {
        if slot_index >= self.num_slots() {
            return Err(self.not_found());
        }
        let (offset, _) = self.read_slot(slot_index);
        if offset == 0 {
            return Err(self.not_found());
        }
        let ghost d0 = self.data@;
        self.write_slot(slot_index, 0, 0);
        proof {
            lemma_slot_rewrite(d0, self.data@, slot_index as int);
            let d = self.data@;
            let s0 = slot_values(d0);
            lemma_live_bytes_update(s0, slot_index as int, None);
            assert(slot_values(d) =~= s0.update(slot_index as int, None)) by {
                assert forall|i: int| 0 <= i < s0.len() && i != slot_index as int implies
                    #[trigger] slot_value(d, i) == slot_value(d0, i) by {
                    if slot_off(d0, i) != 0 {
                        assert(d.subrange(slot_off(d0, i), slot_off(d0, i) + slot_len(d0, i))
                            =~= d0.subrange(slot_off(d0, i), slot_off(d0, i) + slot_len(d0, i)));
                    }
                }
            }
            lemma_same_page_id(d, d0);
        }
        Ok(())
    }

    /// Updates the tuple at the given slot index.
    ///
    /// If the new data fits in the existing space, it is updated in-place.
    /// Otherwise, the old slot is deleted and a new tuple is inserted; when
    /// that fails, the old tuple stays deleted.
    pub fn update(&mut self, slot_index: u16, new_data: &[u8]) -> (r: Result<u16>)
        requires
            old(self).wf(),
        ensures
            final(self).wf(),
            same_identity(final(self).data@, old(self).data@),
            final(self).id() == old(self).id(),
            !old(self).live(slot_index as int) ==> r == Err::<u16, GrumpyError>(
                GrumpyError::PageNotFound(old(self).id()),
            ) && *final(self) == *old(self),
            old(self).live(slot_index as int) ==> {
                let old_len = old(self).slots()[slot_index as int]->0.len();
                let cleared = old(self).slots().update(slot_index as int, None);
                if new_data@.len() <= old_len {
                    &&& r == Ok::<u16, GrumpyError>(slot_index)
                    &&& final(self).slots() == old(self).slots().update(
                        slot_index as int,
                        Some(new_data@),
                    )
                    &&& final(self).room() == old(self).room()
                } else if new_data@.len() + 4 <= old(self).room() {
                    &&& r is Ok
                    &&& r->Ok_0 == first_free(cleared)
                    &&& final(self).slots() == cleared.update(first_free(cleared), Some(new_data@))
                    &&& final(self).room() == old(self).room() - new_data@.len()
                } else {
                    &&& r == Err::<u16, GrumpyError>(GrumpyError::PageFull(old(self).id()))
                    &&& final(self).slots() == cleared
                    &&& final(self).room() == old(self).room()
                }
            },
    {
        if slot_index >= self.num_slots() {
            return Err(self.not_found());
        }
        let (offset, length) = self.read_slot(slot_index);
        if offset == 0 {
            return Err(self.not_found());
        }
        if new_data.len() <= length as usize {
            let ghost d0 = self.data@;
            let k: usize = offset as usize;
            write_at(&mut self.data, k, new_data);
            let ghost d1 = self.data@;
            proof {
                assert forall|o: int| 0 <= o && o + 2 <= k implies #[trigger] field(d1, o, 2)
                    == field(d0, o, 2) by {
                    lemma_field_frame(d1, d0, o, 2);
                }
            }
            self.write_slot(slot_index, offset, new_data.len() as u16);
            proof {
                lemma_slot_rewrite(d0, self.data@, slot_index as int);
                let d = self.data@;
                let s0 = slot_values(d0);
                lemma_live_bytes_update(s0, slot_index as int, Some(new_data@));
                assert(slot_value(d, slot_index as int) == Some(new_data@)) by {
                    assert(d.subrange(k as int, k + new_data@.len()) =~= new_data@);
                }
                assert(slot_values(d) =~= s0.update(slot_index as int, Some(new_data@))) by {
                    assert forall|i: int| 0 <= i < s0.len() && i != slot_index as int implies
                        #[trigger] slot_value(d, i) == slot_value(d0, i) by {
                        if slot_off(d0, i) != 0 {
                            assert(slot_off(d0, slot_index as int) != 0);
                            assert(d.subrange(slot_off(d0, i), slot_off(d0, i) + slot_len(d0, i))
                                =~= d0.subrange(
                                slot_off(d0, i),
                                slot_off(d0, i) + slot_len(d0, i),
                            ));
                        }
                    }
                }
                lemma_same_page_id(d, d0);
            }
            Ok(slot_index)
        } else {
            let ghost cleared = self.slots().update(slot_index as int, None);
            match self.delete(slot_index) {
                Ok(_) => {
                    proof {
                        lemma_first_free(cleared);
                        if first_free(cleared) == cleared.len() {
                            assert(cleared[slot_index as int] is Some);
                        }
                    }
                    self.insert(new_data)
                },
                Err(e) => Err(e),
            }
        }
    }

    /// Compacts the page by removing gaps left by deleted tuples.
    ///
    /// After compaction, all live tuples are packed at the end of the page
    /// and the free space is contiguous.
    #[verifier::rlimit(60)]
    pub fn compact(&mut self)
        requires
            old(self).wf(),
        ensures
            final(self).wf(),
            same_identity(final(self).data@, old(self).data@),
            final(self).id() == old(self).id(),
            final(self).slots() == old(self).slots(),
            packed(old(self).data@, final(self).data@),
            final(self).room() == 8160 - 4 * old(self).slots().len() - live_bytes(
                old(self).slots(),
            ),
    {
        let ghost d0 = self.data@;
        let ghost s0 = self.slots();
        let num_slots: u16 = self.num_slots();
        let mut tuples: Vec<Vec<u8>> = Vec::new();
        let mut i: u16 = 0;
        while i < num_slots
            invariant
                self.data@ == d0,
                slotted_wf(d0),
                s0 == slot_values(d0),
                num_slots == s0.len(),
                i <= num_slots,
                tuples@.len() == i,
                forall|j: int|
                    0 <= j < i && s0[j] is Some ==> (#[trigger] tuples@[j])@ == s0[j]->0,
            decreases num_slots - i,
        {
            let (offset, length) = self.read_slot(i);
            if offset != 0 {
                let start: usize = offset as usize;
                let end: usize = start + length as usize;
                assert(s0[i as int] == slot_value(d0, i as int));
                let t: Vec<u8> = to_vec(&self.data[start..end]);
                tuples.push(t);
            } else {
                tuples.push(Vec::new());
            }
            i = i + 1;
        }
        let base: usize = Self::slot_offset(num_slots);
        let mut k: usize = base;
        while k < PAGE_SIZE
            invariant
                base == slots_end(num_slots as int),
                base <= k <= PAGE_SIZE,
                self.data@.len() == PAGE_SIZE,
                d0.len() == PAGE_SIZE,
                forall|j: int| 0 <= j < base ==> #[trigger] self.data@[j] == d0[j],
                forall|j: int| base <= j < k ==> #[trigger] self.data@[j] == 0,
            decreases PAGE_SIZE - k,
        {
            self.data[k] = 0;
            k = k + 1;
        }
        proof {
            lemma_live_bytes_nonneg(s0);
            assert forall|o: int| 0 <= o && o + 2 <= base implies #[trigger] field(self.data@, o, 2)
                == field(d0, o, 2) by {
                lemma_field_frame(self.data@, d0, o, 2);
            }
            assert(s0.take(0) =~= Seq::<Option<Seq<u8>>>::empty());
        }
        let mut write_end: u16 = PAGE_SIZE as u16;
        let mut i: u16 = 0;
        while i < num_slots
            invariant
                slotted_wf(d0),
                s0 == slot_values(d0),
                num_slots == s0.len(),
                i <= num_slots,
                base == slots_end(num_slots as int),
                tuples@.len() == num_slots,
                forall|j: int|
                    0 <= j < num_slots && s0[j] is Some ==> (#[trigger] tuples@[j])@ == s0[j]->0,
                self.data@.len() == PAGE_SIZE,
                write_end == PAGE_SIZE - live_bytes(s0.take(i as int)),
                live_bytes(s0) <= PAGE_SIZE - base,
                same_identity(self.data@, d0),
                field(self.data@, 6, 2) == field(d0, 6, 2),
                field(self.data@, 8, 2) == field(d0, 8, 2),
                forall|j: int|
                    i <= j < num_slots ==> #[trigger] slot_off(self.data@, j) == slot_off(d0, j),
                forall|j: int|
                    0 <= j < num_slots ==> #[trigger] slot_len(self.data@, j) == slot_len(d0, j),
                forall|j: int|
                    0 <= j < i ==> #[trigger] slot_off(self.data@, j) == (if s0[j] is None {
                        0
                    } else {
                        PAGE_SIZE - live_bytes(s0.take(j + 1))
                    }),
                forall|j: int| base <= j < write_end ==> #[trigger] self.data@[j] == 0,
                forall|j: int|
                    0 <= j < i ==> #[trigger] slot_value(self.data@, j) == s0[j],
                forall|j: int|
                    0 <= j < i && #[trigger] slot_off(self.data@, j) != 0 ==> write_end <= slot_off(
                        self.data@,
                        j,
                    ) && slot_off(self.data@, j) + slot_len(self.data@, j) <= PAGE_SIZE,
                forall|j: int, l: int|
                    0 <= j < i && 0 <= l < i && j != l && #[trigger] slot_off(self.data@, j) != 0
                        && #[trigger] slot_off(self.data@, l) != 0 ==> slot_off(self.data@, j)
                        + slot_len(self.data@, j) <= slot_off(self.data@, l) || slot_off(
                        self.data@,
                        l,
                    ) + slot_len(self.data@, l) <= slot_off(self.data@, j),
            decreases num_slots - i,
        {
            let ghost da = self.data@;
            let ghost wa: int = write_end as int;
            proof {
                lemma_live_bytes_prefix(s0, i as int);
                lemma_live_bytes_prefix(s0, i + 1);
                assert(s0.take(i + 1).drop_last() =~= s0.take(i as int));
                assert(s0.take(i + 1).last() == s0[i as int]);
                assert(s0[i as int] == slot_value(d0, i as int));
                assert(slot_off(da, i as int) == slot_off(d0, i as int));
            }
            let (offset, _) = self.read_slot(i);
            if offset != 0 {
                let n: usize = tuples[i as usize].len();
                write_end = write_end - n as u16;
                let start: usize = write_end as usize;
                write_at(&mut self.data, start, tuples[i as usize].as_slice());
                let ghost db = self.data@;
                proof {
                    assert forall|o: int| 0 <= o && o + 2 <= start implies #[trigger] field(
                        db,
                        o,
                        2,
                    ) == field(da, o, 2) by {
                        lemma_field_frame(db, da, o, 2);
                    }
                }
                self.write_slot(i, write_end, n as u16);
                proof {
                    let d = self.data@;
                    assert(d.subrange(start as int, start + n) =~= tuples@[i as int]@);
                    assert forall|j: int| 0 <= j < i implies #[trigger] slot_value(d, j)
                        == s0[j] by {
                        assert(slot_value(da, j) == s0[j]);
                        assert(slot_off(d, j) == slot_off(da, j));
                        assert(slot_len(d, j) == slot_len(da, j));
                        if slot_off(da, j) != 0 {
                            assert(d.subrange(slot_off(da, j), slot_off(da, j) + slot_len(da, j))
                                =~= da.subrange(
                                slot_off(da, j),
                                slot_off(da, j) + slot_len(da, j),
                            ));
                        }
                    }
                    assert forall|j: int|
                        0 <= j < i + 1 && #[trigger] slot_off(d, j) != 0 implies write_end
                        <= slot_off(d, j) && slot_off(d, j) + slot_len(d, j) <= PAGE_SIZE by {
                        if j < i {
                            assert(slot_off(da, j) != 0);
                        }
                    }
                    assert forall|j: int, l: int|
                        0 <= j < i + 1 && 0 <= l < i + 1 && j != l && #[trigger] slot_off(d, j) != 0
                            && #[trigger] slot_off(d, l) != 0 implies slot_off(d, j) + slot_len(
                        d,
                        j,
                    ) <= slot_off(d, l) || slot_off(d, l) + slot_len(d, l) <= slot_off(d, j) by {
                        if j < i {
                            assert(slot_off(da, j) != 0);
                        }
                        if l < i {
                            assert(slot_off(da, l) != 0);
                        }
                    }
                    assert forall|j: int| 0 <= j < num_slots implies #[trigger] slot_len(d, j)
                        == slot_len(d0, j) by {
                        assert(slot_len(da, j) == slot_len(d0, j));
                    }
                    assert forall|j: int| 0 <= j < i + 1 implies #[trigger] slot_off(d, j) == (
                    if s0[j] is None {
                        0
                    } else {
                        PAGE_SIZE - live_bytes(s0.take(j + 1))
                    }) by {
                        if j < i {
                            assert(slot_off(d, j) == slot_off(da, j));
                        }
                    }
                    assert forall|j: int| i + 1 <= j < num_slots implies #[trigger] slot_off(d, j)
                        == slot_off(d0, j) by {
                        assert(slot_off(da, j) == slot_off(d0, j));
                    }
                }
            }
            i = i + 1;
        }
        let ghost dz = self.data@;
        proof {
            lemma_live_bytes_prefix(s0, num_slots as int);
            assert(s0.take(num_slots as int) =~= s0);
        }
        set_u16(&mut self.data, 10, write_end);
        proof {
            let d = self.data@;
            assert forall|j: int| 0 <= j < num_slots implies #[trigger] slot_value(d, j)
                == s0[j] by {
                assert(slot_value(dz, j) == s0[j]);
                assert(slot_off(d, j) == slot_off(dz, j));
                assert(slot_len(d, j) == slot_len(dz, j));
                if slot_off(dz, j) != 0 {
                    assert(d.subrange(slot_off(dz, j), slot_off(dz, j) + slot_len(dz, j))
                        =~= dz.subrange(slot_off(dz, j), slot_off(dz, j) + slot_len(dz, j)));
                }
            }
            assert(slot_values(d) =~= s0);
            assert forall|j: int| 0 <= j < num_slots implies #[trigger] slot_len(d, j) == slot_len(
                d0,
                j,
            ) by {
                assert(slot_len(dz, j) == slot_len(d0, j));
            }
            assert forall|j: int| 0 <= j < num_slots implies #[trigger] slot_off(d, j) == (
            if s0[j] is None {
                0
            } else {
                PAGE_SIZE - live_bytes(s0.take(j + 1))
            }) by {
                assert(slot_off(d, j) == slot_off(dz, j));
            }
            assert forall|j: int| 0 <= j < num_slots && #[trigger] slot_off(d, j) != 0 implies
                free_end(d) <= slot_off(d, j) && slot_off(d, j) + slot_len(d, j) <= PAGE_SIZE by {
                assert(slot_off(dz, j) != 0);
            }
            assert forall|j: int, l: int|
                0 <= j < num_slots && 0 <= l < num_slots && j != l && #[trigger] slot_off(d, j) != 0
                    && #[trigger] slot_off(d, l) != 0 implies slot_off(d, j) + slot_len(d, j)
                <= slot_off(d, l) || slot_off(d, l) + slot_len(d, l) <= slot_off(d, j) by {
                assert(slot_off(dz, j) != 0);
                assert(slot_off(dz, l) != 0);
            }
            lemma_same_page_id(d, d0);
        }
    }

    /// Returns the number of live (non-tombstone) tuples.
    pub fn live_tuple_count(&self) -> (r: usize)
        requires
            self.wf(),
        ensures
            r == live_count(self.slots()),
    {
        let num: u16 = self.num_slots();
        let mut count: usize = 0;
        let mut i: u16 = 0;
        while i < num
            invariant
                self.wf(),
                num == self.slots().len(),
                i <= num,
                count <= i,
                count == live_count(self.slots().take(i as int)),
            decreases num - i,
        {
            let (offset, _) = self.read_slot(i);
            proof {
                assert(self.slots().take(i + 1).drop_last() =~= self.slots().take(i as int));
                assert(self.slots().take(i + 1).last() == slot_value(self.data@, i as int));
            }
            if offset != 0 {
                count = count + 1;
            }
            i = i + 1;
        }
        proof {
            assert(self.slots().take(num as int) =~= self.slots());
        }
        count
    }
}

/// Rewriting one slot entry, without moving it and without growing it, keeps
/// the layout of all the others.
proof fn lemma_slot_rewrite(d0: Seq<u8>, d: Seq<u8>, k: int)
    requires
        slotted_wf(d0),
        d.len() == PAGE_SIZE,
        0 <= k < slot_count(d0),
        same_identity(d, d0),
        field(d, 6, 2) == field(d0, 6, 2),
        field(d, 8, 2) == field(d0, 8, 2),
        field(d, 10, 2) == field(d0, 10, 2),
        forall|i: int|
            0 <= i < slot_count(d0) && i != k ==> #[trigger] slot_off(d, i) == slot_off(d0, i)
                && slot_len(d, i) == slot_len(d0, i),
        slot_off(d, k) == 0 || (slot_off(d, k) == slot_off(d0, k) && slot_len(d, k) <= slot_len(
            d0,
            k,
        )),
    ensures
        live_bytes(slot_values(d)) <= PAGE_SIZE - free_end(d) ==> slotted_wf(d),
{
    let n = slot_count(d0);
    assert forall|i: int| 0 <= i < n && #[trigger] slot_off(d, i) != 0 implies free_end(d)
        <= slot_off(d, i) && slot_off(d, i) + slot_len(d, i) <= PAGE_SIZE by {
        assert(slot_off(d0, i) != 0);
    }
    assert forall|i: int, j: int|
        0 <= i < n && 0 <= j < n && i != j && #[trigger] slot_off(d, i) != 0 && #[trigger] slot_off(
            d,
            j,
        ) != 0 implies slot_off(d, i) + slot_len(d, i) <= slot_off(d, j) || slot_off(d, j)
        + slot_len(d, j) <= slot_off(d, i) by {
        assert(slot_off(d0, i) != 0);
        assert(slot_off(d0, j) != 0);
    }
}

/// A tuple that was just inserted is what its slot holds, and every other
/// live tuple stays where it was.
pub proof fn law_insert_then_get(
    slots: Seq<Option<Seq<u8>>>,
    t: Seq<u8>,
    j: int,
)
    requires
        0 <= j < slots.len(),
        slots[j] is Some,
    ensures
        with_tuple(slots, first_free(slots), t)[first_free(slots)] == Some(t),
        with_tuple(slots, first_free(slots), t)[j] == slots[j],
{
    lemma_first_free(slots);
}

/// The slot that a tuple goes to is the first that is free, and a new one only
/// where none is.
pub proof fn law_first_free_slot_is_taken(slots: Seq<Option<Seq<u8>>>, j: int)
    ensures
        0 <= first_free(slots) <= slots.len(),
        0 <= j < slots.len() && slots[j] is None ==> first_free(slots) <= j,
        first_free(slots) < slots.len() ==> slots[first_free(slots)] is None,
{
    lemma_first_free(slots);
}

/// Live tuples are counted one by one.
pub proof fn law_live_tuples_are_counted(slots: Seq<Option<Seq<u8>>>, v: Option<Seq<u8>>)
    ensures
        live_count(Seq::<Option<Seq<u8>>>::empty()) == 0,
        live_count(slots.push(v)) == live_count(slots) + (if v is Some {
            1int
        } else {
            0int
        }),
{
    assert(slots.push(v).drop_last() =~= slots);
}

} // verus!
