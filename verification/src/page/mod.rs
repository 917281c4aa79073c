//! Page layout: constants, the page header, and page checksums.
//!
//! Pages are the unit of storage. Each page is [`PAGE_SIZE`] bytes (8 KiB)
//! and starts with a fixed [`PageHeader`].

pub mod manager;
pub mod overflow;
pub mod slotted;

use vstd::prelude::*;

use crate::bytes::{
    field, get_u16, get_u32, get_u64, le_bytes, lemma_field_frame, lemma_le_bytes_len,
    lemma_le_round_trip, lemma_pow256_values, push_le, splice, u32_le,
};
use crate::error::{GrumpyError, Result};

verus! {

/// Page size in bytes (8 KiB).
pub const PAGE_SIZE: usize = 8192;

/// Size of the page header in bytes.
pub const PAGE_HEADER_SIZE: usize = 32;

/// Usable space per page after the header.
pub const PAGE_USABLE_SPACE: usize = 8160;

/// Size of a slot entry in the slot array (offset: u16 + length: u16).
pub const SLOT_SIZE: usize = 4;

/// Marker byte indicating an overflow tuple.
pub const OVERFLOW_MARKER: u8 = 0xFF;

/// Invalid page ID sentinel (no page).
pub const INVALID_PAGE_ID: u32 = 0;

/// The bytes of one page.
pub type Page = [u8; PAGE_SIZE];

/// Unique identifier for a page on disk.
#[derive(Debug, Clone, Copy, PartialEq, Eq, Hash, Structural)]
pub struct PageId(pub u32);

/// Slot index within a slotted page.
#[derive(Debug, Clone, Copy, PartialEq, Eq, Hash, Structural)]
pub struct SlotId(pub u16);

/// Type of a page.
#[derive(Debug, Clone, Copy, PartialEq, Eq, Structural)]
pub enum PageType {
    /// Free / uninitialized page.
    Free,
    /// Data page with slotted layout.
    Data,
    /// B+Tree internal node.
    BTreeInternal,
    /// B+Tree leaf node.
    BTreeLeaf,
    /// Overflow page for large tuples.
    Overflow,
    /// Free-list metadata page.
    FreeList,
}

impl PageType {
    /// The byte that stands for the type on a page.
    pub open spec fn code(self) -> u8 {
        match self {
            PageType::Free => 0,
            PageType::Data => 1,
            PageType::BTreeInternal => 2,
            PageType::BTreeLeaf => 3,
            PageType::Overflow => 4,
            PageType::FreeList => 5,
        }
    }

    /// The byte that stands for the type on a page.
    pub fn to_u8(self) -> (r: u8)
        ensures
            r == self.code(),
    {
        match self {
            PageType::Free => 0,
            PageType::Data => 1,
            PageType::BTreeInternal => 2,
            PageType::BTreeLeaf => 3,
            PageType::Overflow => 4,
            PageType::FreeList => 5,
        }
    }

    /// The type that a byte stands for, if any.
    pub open spec fn of_code(v: u8) -> Option<PageType> {
        if v == 0 {
            Some(PageType::Free)
        } else if v == 1 {
            Some(PageType::Data)
        } else if v == 2 {
            Some(PageType::BTreeInternal)
        } else if v == 3 {
            Some(PageType::BTreeLeaf)
        } else if v == 4 {
            Some(PageType::Overflow)
        } else if v == 5 {
            Some(PageType::FreeList)
        } else {
            None
        }
    }

    /// Convert a raw byte to a page type.
    pub fn from_u8(v: u8) -> (r: Option<Self>)
        ensures
            r == PageType::of_code(v),
            r is Some ==> r->0.code() == v,
            r is None ==> v > 5,
    {
        match v {
            0 => Some(PageType::Free),
            1 => Some(PageType::Data),
            2 => Some(PageType::BTreeInternal),
            3 => Some(PageType::BTreeLeaf),
            4 => Some(PageType::Overflow),
            5 => Some(PageType::FreeList),
            _ => None,
        }
    }
}

/// Header at the beginning of every page (32 bytes).
#[derive(Debug, Clone, Copy, PartialEq, Eq, Structural)]
pub struct PageHeader {
    pub page_id: u32,
    pub page_type: PageType,
    pub flags: u8,
    pub num_slots: u16,
    pub free_space_start: u16,
    pub free_space_end: u16,
    pub next_page_id: u32,
    pub prev_page_id: u32,
    pub lsn: u64,
    pub checksum: u32,
}

impl PageHeader {
    /// A header with default values.
    pub open spec fn fresh(page_id: u32, page_type: PageType) -> PageHeader {
        PageHeader {
            page_id,
            page_type,
            flags: 0,
            num_slots: 0,
            free_space_start: 32,
            free_space_end: 8192,
            next_page_id: 0,
            prev_page_id: 0,
            lsn: 0,
            checksum: 0,
        }
    }

    /// The 32 bytes of the header on a page.
    pub open spec fn image(self) -> Seq<u8> {
        le_bytes(self.page_id as nat, 4) + seq![self.page_type.code(), self.flags] + le_bytes(
            self.num_slots as nat,
            2,
        ) + le_bytes(self.free_space_start as nat, 2) + le_bytes(self.free_space_end as nat, 2)
            + le_bytes(self.next_page_id as nat, 4) + le_bytes(self.prev_page_id as nat, 4)
            + le_bytes(self.lsn as nat, 8) + le_bytes(self.checksum as nat, 4)
    }

    /// The header that the bytes of a page hold. A type byte without meaning
    /// counts as `Free`.
    pub open spec fn parse(s: Seq<u8>) -> PageHeader {
        PageHeader {
            page_id: field(s, 0, 4) as u32,
            page_type: match PageType::of_code(s[4]) {
                Some(t) => t,
                None => PageType::Free,
            },
            flags: s[5],
            num_slots: field(s, 6, 2) as u16,
            free_space_start: field(s, 8, 2) as u16,
            free_space_end: field(s, 10, 2) as u16,
            next_page_id: field(s, 12, 4) as u32,
            prev_page_id: field(s, 16, 4) as u32,
            lsn: field(s, 20, 8) as u64,
            checksum: field(s, 28, 4) as u32,
        }
    }

    /// Create a new header with default values.
    pub fn new(page_id: u32, page_type: PageType) -> (r: Self)
        ensures
            r == PageHeader::fresh(page_id, page_type),
    {
        PageHeader {
            page_id,
            page_type,
            flags: 0,
            num_slots: 0,
            free_space_start: PAGE_HEADER_SIZE as u16,
            free_space_end: PAGE_SIZE as u16,
            next_page_id: 0,
            prev_page_id: 0,
            lsn: 0,
            checksum: 0,
        }
    }

    /// Serialize the header into the first 32 bytes of a page buffer.
    pub fn write_to(&self, buf: &mut Page)
        ensures
            final(buf)@ == splice(old(buf)@, 0, self.image()),
            PageHeader::parse(final(buf)@) == *self,
            final(buf)@.skip(32) == old(buf)@.skip(32),
    {
        let ghost before = buf@;
        let v: Vec<u8> = self.to_vec();
        write_at(buf, 0, v.as_slice());
        proof {
            lemma_header_len(*self);
            lemma_header_round_trip(*self, before);
            assert(buf@.skip(32) =~= before.skip(32));
        }
    }

    /// The 32 bytes of the header on a page.
    pub fn to_vec(&self) -> (v: Vec<u8>)
        ensures
            v@ == self.image(),
            v@.len() == 32,
    {
        let mut v: Vec<u8> = Vec::with_capacity(PAGE_HEADER_SIZE);
        push_le(&mut v, self.page_id as u128, 4);
        v.push(self.page_type.to_u8());
        v.push(self.flags);
        push_le(&mut v, self.num_slots as u128, 2);
        push_le(&mut v, self.free_space_start as u128, 2);
        push_le(&mut v, self.free_space_end as u128, 2);
        push_le(&mut v, self.next_page_id as u128, 4);
        push_le(&mut v, self.prev_page_id as u128, 4);
        push_le(&mut v, self.lsn as u128, 8);
        push_le(&mut v, self.checksum as u128, 4);
        proof {
            lemma_header_len(*self);
            assert(v@ =~= self.image());
        }
        v
    }

    /// Deserialize a header from the first 32 bytes of a page buffer.
    pub fn read_from(buf: &Page) -> (r: Self)
        ensures
            r == PageHeader::parse(buf@),
    {
        let s: &[u8] = buf.as_slice();
        let page_type: PageType = match PageType::from_u8(s[4]) {
            Some(t) => t,
            None => PageType::Free,
        };
        PageHeader {
            page_id: get_u32(s, 0),
            page_type,
            flags: s[5],
            num_slots: get_u16(s, 6),
            free_space_start: get_u16(s, 8),
            free_space_end: get_u16(s, 10),
            next_page_id: get_u32(s, 12),
            prev_page_id: get_u32(s, 16),
            lsn: get_u64(s, 20),
            checksum: get_u32(s, 28),
        }
    }
}

pub proof fn lemma_header_len(h: PageHeader)
    ensures
        h.image().len() == 32,
{
    lemma_le_bytes_len(h.page_id as nat, 4);
    lemma_le_bytes_len(h.num_slots as nat, 2);
    lemma_le_bytes_len(h.free_space_start as nat, 2);
    lemma_le_bytes_len(h.free_space_end as nat, 2);
    lemma_le_bytes_len(h.next_page_id as nat, 4);
    lemma_le_bytes_len(h.prev_page_id as nat, 4);
    lemma_le_bytes_len(h.lsn as nat, 8);
    lemma_le_bytes_len(h.checksum as nat, 4);
}

/// A header written to a page reads back unchanged, whatever the page held.
pub proof fn lemma_header_round_trip(h: PageHeader, s: Seq<u8>)
    requires
        s.len() >= 32,
    ensures
        PageHeader::parse(splice(s, 0, h.image())) == h,
{
    lemma_pow256_values();
    lemma_header_len(h);
    lemma_le_round_trip(h.page_id as nat, 4);
    lemma_le_round_trip(h.num_slots as nat, 2);
    lemma_le_round_trip(h.free_space_start as nat, 2);
    lemma_le_round_trip(h.free_space_end as nat, 2);
    lemma_le_round_trip(h.next_page_id as nat, 4);
    lemma_le_round_trip(h.prev_page_id as nat, 4);
    lemma_le_round_trip(h.lsn as nat, 8);
    lemma_le_round_trip(h.checksum as nat, 4);
    let t = splice(s, 0, h.image());
    assert(t.subrange(0, 4) =~= le_bytes(h.page_id as nat, 4));
    assert(t[4] == h.page_type.code());
    assert(t[5] == h.flags);
    assert(t.subrange(6, 8) =~= le_bytes(h.num_slots as nat, 2));
    assert(t.subrange(8, 10) =~= le_bytes(h.free_space_start as nat, 2));
    assert(t.subrange(10, 12) =~= le_bytes(h.free_space_end as nat, 2));
    assert(t.subrange(12, 16) =~= le_bytes(h.next_page_id as nat, 4));
    assert(t.subrange(16, 20) =~= le_bytes(h.prev_page_id as nat, 4));
    assert(t.subrange(20, 28) =~= le_bytes(h.lsn as nat, 8));
    assert(t.subrange(28, 32) =~= le_bytes(h.checksum as nat, 4));
}

/// The header of a page depends only on its first 32 bytes.
pub proof fn lemma_header_frame(s: Seq<u8>, t: Seq<u8>)
    requires
        s.len() >= 32,
        t.len() >= 32,
        forall|i: int| 0 <= i < 32 ==> s[i] == t[i],
    ensures
        PageHeader::parse(s) == PageHeader::parse(t),
{
    lemma_field_frame(s, t, 0, 4);
    lemma_field_frame(s, t, 6, 2);
    lemma_field_frame(s, t, 8, 2);
    lemma_field_frame(s, t, 10, 2);
    lemma_field_frame(s, t, 12, 4);
    lemma_field_frame(s, t, 16, 4);
    lemma_field_frame(s, t, 20, 8);
    lemma_field_frame(s, t, 28, 4);
}

/// Overwrites the bytes of a page from `off` on.
pub fn write_at(buf: &mut Page, off: usize, src: &[u8])
    requires
        off + src@.len() <= PAGE_SIZE,
    ensures
        final(buf)@ == splice(old(buf)@, off as int, src@),
{
    let ghost before = buf@;
    let n: usize = src.len();
    let mut i: usize = 0;
    while i < n
        invariant
            n == src@.len(),
            off + n <= PAGE_SIZE,
            i <= n,
            buf@ == splice(before, off as int, src@.take(i as int)),
            before.len() == PAGE_SIZE,
        decreases n - i,
    {
        buf[off + i] = src[i];
        i = i + 1;
        proof {
            assert(buf@ =~= splice(before, off as int, src@.take(i as int)));
        }
    }
    proof {
        assert(src@.take(i as int) =~= src@);
        assert(buf@ =~= splice(before, off as int, src@));
    }
}

// ── Checksums ───────────────────────────────────────────────────────────

/// The CRC-32 (IEEE) checksum of a byte string.
pub uninterp spec fn crc32(data: Seq<u8>) -> u32;

/// `crc32fast::Hasher`: a new hasher fed `a` and then `b` yields the checksum
/// of the two taken together, which depends on those bytes alone.
#[verifier::external_body]
pub(crate) fn crc32_of_parts(a: &[u8], b: &[u8]) -> (r: u32)
    ensures
        r == crc32(a@ + b@),
{
    let mut hasher = crc32fast::Hasher::new();
    hasher.update(a);
    hasher.update(b);
    hasher.finalize()
}

/// The checksum of a page: of all its bytes but the checksum field.
pub open spec fn page_checksum(s: Seq<u8>) -> u32 {
    crc32(s.subrange(0, 28) + s.subrange(32, PAGE_SIZE as int))
}

/// Computes a CRC32 checksum over a page buffer (excluding the checksum field
/// at bytes 28-31).
pub fn compute_checksum(buf: &Page) -> (r: u32)
    ensures
        r == page_checksum(buf@),
{
    crc32_of_parts(&buf[0..28], &buf[32..PAGE_SIZE])
}

/// Writes the CRC32 checksum into the page buffer's checksum field.
pub fn stamp_checksum(buf: &mut Page)
    ensures
        final(buf)@ == splice(old(buf)@, 28, le_bytes(page_checksum(old(buf)@) as nat, 4)),
{
    let csum: u32 = compute_checksum(buf);
    write_at(buf, 28, u32_le(csum).as_slice());
}

/// Whether the checksum stored on a page is the page's own; zero stands for a
/// page that was never stamped.
pub open spec fn checksum_ok(s: Seq<u8>) -> bool {
    field(s, 28, 4) == 0 || field(s, 28, 4) == page_checksum(s)
}

/// Verifies the CRC32 checksum of a page buffer.
///
/// Pages with a zero checksum (never stamped) are considered valid.
pub fn verify_checksum(buf: &Page, page_id: u32) -> (r: Result<()>)
    ensures
        r is Ok == checksum_ok(buf@),
        r is Err ==> r->Err_0 == (GrumpyError::ChecksumMismatch {
            page_id,
            expected: field(buf@, 28, 4) as u32,
            actual: page_checksum(buf@),
        }),
{
    let stored: u32 = get_u32(buf.as_slice(), 28);
    if stored == 0 {
        return Ok(());
    }
    let computed: u32 = compute_checksum(buf);
    if stored != computed {
        return Err(
            GrumpyError::ChecksumMismatch { page_id, expected: stored, actual: computed },
        );
    }
    Ok(())
}

/// A stamped page passes verification.
pub proof fn law_stamped_page_verifies(s: Seq<u8>)
    requires
        s.len() == PAGE_SIZE,
    ensures
        checksum_ok(splice(s, 28, le_bytes(page_checksum(s) as nat, 4))),
        PageHeader::parse(splice(s, 28, le_bytes(page_checksum(s) as nat, 4))).page_id
            == PageHeader::parse(s).page_id,
{
    lemma_pow256_values();
    let c: nat = page_checksum(s) as nat;
    lemma_le_round_trip(c, 4);
    let t = splice(s, 28, le_bytes(c, 4));
    assert(t.subrange(28, 32) =~= le_bytes(c, 4));
    assert(t.subrange(0, 28) =~= s.subrange(0, 28));
    assert(t.subrange(32, PAGE_SIZE as int) =~= s.subrange(32, PAGE_SIZE as int));
    lemma_field_frame(s, t, 0, 4);
}

/// A page whose bytes outside the checksum field changed to bytes with another
/// checksum fails verification, unless its stored checksum is zero.
pub proof fn law_corruption_detected(s: Seq<u8>, t: Seq<u8>)
    requires
        s.len() == PAGE_SIZE,
        t.len() == PAGE_SIZE,
        checksum_ok(s),
        field(s, 28, 4) != 0,
        field(t, 28, 4) == field(s, 28, 4),
        page_checksum(t) != page_checksum(s),
    ensures
        !checksum_ok(t),
{
}

/// A header that was written to a page is read from it.
pub proof fn law_header_reads_back(h: PageHeader, s: Seq<u8>)
    requires
        s.len() >= 32,
    ensures
        PageHeader::parse(splice(s, 0, h.image())) == h,
        h.image().len() == 32,
{
    lemma_header_len(h);
    lemma_header_round_trip(h, s);
}

/// The checksum of a page covers every byte but those of the checksum itself; a
/// page passes exactly if it holds its checksum, or none.
pub proof fn law_checksum_covers_the_page(s: Seq<u8>)
    ensures
        page_checksum(s) == crc32(s.subrange(0, 28) + s.subrange(32, 8192)),
        checksum_ok(s) == (field(s, 28, 4) == 0 || field(s, 28, 4) == crc32(
            s.subrange(0, 28) + s.subrange(32, 8192),
        )),
{
}

/// Where the fields of a header stand on a page.
pub proof fn law_header_layout(h: PageHeader)
    ensures
        field(h.image(), 0, 4) == h.page_id,
        h.image()[4] == (match h.page_type {
            PageType::Free => 0u8,
            PageType::Data => 1u8,
            PageType::BTreeInternal => 2u8,
            PageType::BTreeLeaf => 3u8,
            PageType::Overflow => 4u8,
            PageType::FreeList => 5u8,
        }),
        h.image()[5] == h.flags,
        field(h.image(), 6, 2) == h.num_slots,
        field(h.image(), 8, 2) == h.free_space_start,
        field(h.image(), 10, 2) == h.free_space_end,
        field(h.image(), 12, 4) == h.next_page_id,
        field(h.image(), 16, 4) == h.prev_page_id,
        field(h.image(), 20, 8) == h.lsn,
        field(h.image(), 28, 4) == h.checksum,
{
    lemma_pow256_values();
    lemma_header_len(h);
    lemma_le_round_trip(h.page_id as nat, 4);
    lemma_le_round_trip(h.num_slots as nat, 2);
    lemma_le_round_trip(h.free_space_start as nat, 2);
    lemma_le_round_trip(h.free_space_end as nat, 2);
    lemma_le_round_trip(h.next_page_id as nat, 4);
    lemma_le_round_trip(h.prev_page_id as nat, 4);
    lemma_le_round_trip(h.lsn as nat, 8);
    lemma_le_round_trip(h.checksum as nat, 4);
    let t = h.image();
    assert(t.subrange(0, 4) =~= le_bytes(h.page_id as nat, 4));
    assert(t.subrange(6, 8) =~= le_bytes(h.num_slots as nat, 2));
    assert(t.subrange(8, 10) =~= le_bytes(h.free_space_start as nat, 2));
    assert(t.subrange(10, 12) =~= le_bytes(h.free_space_end as nat, 2));
    assert(t.subrange(12, 16) =~= le_bytes(h.next_page_id as nat, 4));
    assert(t.subrange(16, 20) =~= le_bytes(h.prev_page_id as nat, 4));
    assert(t.subrange(20, 28) =~= le_bytes(h.lsn as nat, 8));
    assert(t.subrange(28, 32) =~= le_bytes(h.checksum as nat, 4));
}

} // verus!
