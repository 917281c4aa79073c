//! WAL record types and binary serialization (format v1 + v2).
//!
//! ## Format v1 (legacy)
//!
//! ```text
//! [0..4]   record_len: u32 (LE)
//! [4..12]  lsn:        u64 (LE)
//! [12..20] tx_id:      u64 (LE)
//! [20]     op_type:    u8
//! [21..25] page_id:    u32 (LE)
//! [25..29] data_len:   u32 (LE)
//! [29..29+data_len]    payload (before+after for PageWrite)
//! [..+4]   checksum:   u32 (LE)
//! ```
//!
//! ## Format v2 (current)
//!
//! v2 prepends a single 8 KiB **WAL header page** to the log carrying a
//! magic and version number. Records are framed as:
//!
//! ```text
//! [0..4]    record_len: u32 (LE)  — total bytes including this field
//! [4..12]   lsn:        u64 (LE)
//! [12..20]  tx_id:      u64 (LE)
//! [20]      op_type:    u8
//! [21..37]  origin_node_id: u128 (LE)
//! [37..45]  hlc:        u64 (LE)
//! [45..47]  vclock_len: u16 (LE)
//! [47..47+vclock_len*24]   vector clock entries (each: u128+u64)
//! [..]      op-specific payload
//! [end-4..end] checksum: u32 (LE) — CRC32 of bytes 4..end-4
//! ```
//!
//! For `PageWrite`, the op-specific payload is `page_id (u32 LE) + data_len
//! (u32 LE)` and `data_len` bytes of data, the after-image followed by the
//! before-image.
//!
//! Records read from a v1 log are mapped to in-memory v2 records with
//! `origin_node_id = NIL_NODE_ID`, `hlc = Hlc::from_packed(lsn)`, and a
//! singleton vector clock keyed by `NIL_NODE_ID`.

use vstd::prelude::*;
use vstd::slice::*;

use crate::bytes::{
    bytes_eq, field, get_le, get_u16, get_u32, get_u64, le_bytes, lemma_le_bytes_len,
    lemma_le_round_trip, lemma_pow256_values, push_le, splice, to_vec, u16_le, zeros,
};
use crate::error::{GrumpyError, Result};
use crate::page::{crc32, crc32_of_parts, write_at, Page, PAGE_SIZE};
use crate::wal::hlc::Hlc;
use crate::wal::vclock::{
    clock_image, clock_parse, law_clock_round_trip, lemma_clock_entries_len, nodes_sorted,
    VClockError, VectorClock, MAX_VCLOCK_ENTRIES,
};

verus! {

/// WAL format v1 (no header, no HLC, no vclock).
pub const WAL_VERSION_V1: u16 = 1;

/// WAL format v2 (adds origin_node_id + HLC + vector clock).
pub const WAL_VERSION_V2: u16 = 2;

/// Highest format version this build can write.
pub const WAL_VERSION_CURRENT: u16 = 2;

/// Size of the v2 WAL header page in bytes (one full page reserved for future
/// expansion).
pub const WAL_HEADER_SIZE: usize = 8192;

/// All-zero UUID. Used as `origin_node_id` for v1 records that have been
/// auto-promoted to the v2 in-memory shape.
pub const NIL_NODE_ID: u128 = 0;

/// Fixed v1 header size in bytes (excluding payload).
pub const WAL_RECORD_HEADER_SIZE_V1: usize = 33;

/// Fixed v2 header size in bytes (excluding the vector clock and the
/// op-specific payload).
pub const WAL_RECORD_HEADER_SIZE_V2: usize = 49;

/// The bytes at the start of every v2 log: `GRUMPWAL`.
pub open spec fn magic() -> Seq<u8> {
    seq![0x47u8, 0x52, 0x55, 0x4d, 0x50, 0x57, 0x41, 0x4c]
}

/// WAL log file magic, present at the start of every v2 file.
pub fn wal_magic() -> (r: [u8; 8])
    ensures
        r@ == magic(),
{
    let r: [u8; 8] = [0x47u8, 0x52, 0x55, 0x4d, 0x50, 0x57, 0x41, 0x4c];
    assert(r@ =~= magic());
    r
}

/// WAL operation types.
#[derive(Debug, Clone, Copy, PartialEq, Eq, Structural)]
pub enum WalOpType {
    /// Page modification: payload contains `after` then `before` images.
    PageWrite,
    /// Transaction committed (durable).
    Commit,
    /// Transaction rolled back.
    Rollback,
    /// Checkpoint: all dirty pages flushed.
    Checkpoint,
}

impl WalOpType {
    /// The byte that stands for the operation.
    pub open spec fn code(self) -> u8 {
        match self {
            WalOpType::PageWrite => 1,
            WalOpType::Commit => 2,
            WalOpType::Rollback => 3,
            WalOpType::Checkpoint => 4,
        }
    }

    /// The operation that a byte stands for.
    pub open spec fn of_code(v: u8) -> Option<WalOpType> {
        if v == 1 {
            Some(WalOpType::PageWrite)
        } else if v == 2 {
            Some(WalOpType::Commit)
        } else if v == 3 {
            Some(WalOpType::Rollback)
        } else if v == 4 {
            Some(WalOpType::Checkpoint)
        } else {
            None
        }
    }

    /// The byte that stands for the operation.
    pub fn to_u8(self) -> (r: u8)
        ensures
            r == self.code(),
            WalOpType::of_code(r) == Some(self),
    {
        match self {
            WalOpType::PageWrite => 1,
            WalOpType::Commit => 2,
            WalOpType::Rollback => 3,
            WalOpType::Checkpoint => 4,
        }
    }

    /// Parse from a raw byte.
    pub fn from_u8(v: u8) -> (r: Option<Self>)
        ensures
            r == WalOpType::of_code(v),
    {
        match v {
            1 => Some(WalOpType::PageWrite),
            2 => Some(WalOpType::Commit),
            3 => Some(WalOpType::Rollback),
            4 => Some(WalOpType::Checkpoint),
            _ => None,
        }
    }
}

/// What a record holds.
pub struct RecordM {
    pub record_len: u32,
    pub lsn: u64,
    pub tx_id: u64,
    pub op: WalOpType,
    pub origin: u128,
    pub hlc: Hlc,
    pub clock: Seq<(u128, u64)>,
    pub page_id: u32,
    pub data: Seq<u8>,
    pub checksum: u32,
}

/// Why bytes are not a record.
pub enum RecordFault {
    /// The frame is malformed or its checksum does not match.
    Corrupted(u64),
    /// The vector clock cannot be read.
    Clock(VClockError),
}

impl RecordM {
    /// The sequence numbers and stamps of a record.
    pub open spec fn stamp(self) -> Seq<u8> {
        le_bytes(self.lsn as nat, 8) + le_bytes(self.tx_id as nat, 8) + seq![self.op.code()]
            + le_bytes(self.origin as nat, 16) + le_bytes(self.hlc.0 as nat, 8)
    }

    /// The op-specific part.
    pub open spec fn payload(self) -> Seq<u8> {
        if self.op == WalOpType::PageWrite {
            le_bytes(self.page_id as nat, 4) + le_bytes(self.data.len(), 4) + self.data
        } else {
            Seq::empty()
        }
    }

    /// What the checksum covers.
    pub open spec fn body(self) -> Seq<u8> {
        self.stamp() + clock_image(self.clock) + self.payload()
    }

    /// The bytes of the record.
    pub open spec fn image(self) -> Seq<u8> {
        le_bytes(self.record_len as nat, 4) + self.body() + le_bytes(self.checksum as nat, 4)
    }

    /// The length of the bytes of the record.
    pub open spec fn frame_len(self) -> int {
        51 + 24 * (self.clock.len() as int) + (if self.op == WalOpType::PageWrite {
            8 + self.data.len() as int
        } else {
            0
        })
    }

    /// The record with its length and checksum filled in.
    pub open spec fn sealed(self) -> RecordM {
        RecordM {
            record_len: (self.frame_len() % 0x1_0000_0000) as u32,
            checksum: crc32(self.body()),
            ..self
        }
    }

    /// The record can be read back from its bytes, but for the checksum: its
    /// clock is valid, and only page writes carry data.
    pub open spec fn framed(self) -> bool {
        &&& nodes_sorted(self.clock)
        &&& self.clock.len() <= MAX_VCLOCK_ENTRIES
        &&& self.frame_len() < 0x1_0000_0000
        &&& self.record_len == self.frame_len()
        &&& self.op != WalOpType::PageWrite ==> self.page_id == 0 && self.data.len() == 0
    }

    /// The record can be read back from its bytes.
    pub open spec fn intact(self) -> bool {
        self.framed() && self.checksum == crc32(self.body())
    }
}

/// The record that v2 bytes start with, and how many bytes it takes.
pub open spec fn parse_v2(s: Seq<u8>) -> std::result::Result<(RecordM, nat), RecordFault> {
    let n = field(s, 0, 4);
    let lsn = field(s, 4, 8) as u64;
    if s.len() < 4 || n < WAL_RECORD_HEADER_SIZE_V2 || s.len() < n {
        Err(RecordFault::Corrupted(0))
    } else if WalOpType::of_code(s[20]) is None {
        Err(RecordFault::Corrupted(lsn))
    } else {
        match clock_parse(s.subrange(45, n - 4)) {
            Err(e) => Err(RecordFault::Clock(e)),
            Ok((clock, used)) => {
                let op = WalOpType::of_code(s[20])->Some_0;
                let at = 45 + used as int;
                let len = field(s, at + 4, 4);
                let writes = op == WalOpType::PageWrite;
                let fits = if writes {
                    at + 8 + len == n - 4
                } else {
                    at == n - 4
                };
                let rec = RecordM {
                    record_len: n as u32,
                    lsn,
                    tx_id: field(s, 12, 8) as u64,
                    op,
                    origin: field(s, 21, 16) as u128,
                    hlc: Hlc(field(s, 37, 8) as u64),
                    clock,
                    page_id: if writes {
                        field(s, at, 4) as u32
                    } else {
                        0
                    },
                    data: if writes {
                        s.subrange(at + 8, n - 4)
                    } else {
                        Seq::empty()
                    },
                    checksum: field(s, n - 4, 4) as u32,
                };
                if fits && rec.checksum == crc32(rec.body()) {
                    Ok((rec, n))
                } else {
                    Err(RecordFault::Corrupted(lsn))
                }
            },
        }
    }
}

/// The v1 bytes of a record before its checksum.
pub open spec fn v1_body(
    record_len: u32,
    lsn: u64,
    tx_id: u64,
    op: WalOpType,
    page_id: u32,
    data: Seq<u8>,
) -> Seq<u8> {
    le_bytes(record_len as nat, 4) + le_bytes(lsn as nat, 8) + le_bytes(tx_id as nat, 8) + seq![
        op.code(),
    ] + le_bytes(page_id as nat, 4) + le_bytes(data.len(), 4) + data
}

/// The v1 bytes of a record.
pub open spec fn v1_image(
    lsn: u64,
    tx_id: u64,
    op: WalOpType,
    page_id: u32,
    data: Seq<u8>,
) -> Seq<u8> {
    let b = v1_body(((33 + data.len()) % 0x1_0000_0000) as u32, lsn, tx_id, op, page_id, data);
    b + le_bytes(crc32(b) as nat, 4)
}

/// The in-memory shape of a v1 record.
pub open spec fn promoted(
    lsn: u64,
    tx_id: u64,
    op: WalOpType,
    page_id: u32,
    data: Seq<u8>,
) -> RecordM {
    (RecordM {
        record_len: 0,
        lsn,
        tx_id,
        op,
        origin: NIL_NODE_ID,
        hlc: Hlc(lsn),
        clock: seq![(NIL_NODE_ID, lsn)],
        page_id,
        data,
        checksum: 0,
    }).sealed()
}

/// The record that v1 bytes start with, and how many bytes it takes.
pub open spec fn parse_v1(s: Seq<u8>) -> std::result::Result<(RecordM, nat), RecordFault> {
    let n = field(s, 0, 4);
    let lsn = field(s, 4, 8) as u64;
    let tx_id = field(s, 12, 8) as u64;
    let page_id = field(s, 21, 4) as u32;
    let len = field(s, 25, 4);
    let data = s.subrange(29, 29 + len as int);
    if s.len() < WAL_RECORD_HEADER_SIZE_V1 || n < WAL_RECORD_HEADER_SIZE_V1 || s.len() < n {
        Err(RecordFault::Corrupted(0))
    } else if WalOpType::of_code(s[20]) is None {
        Err(RecordFault::Corrupted(lsn))
    } else {
        let op = WalOpType::of_code(s[20])->Some_0;
        if 33 + len <= n && field(s, 29 + len as int, 4) == crc32(
            v1_body(n as u32, lsn, tx_id, op, page_id, data),
        ) {
            Ok((promoted(lsn, tx_id, op, page_id, data), n))
        } else {
            Err(RecordFault::Corrupted(lsn))
        }
    }
}

/// `e` reports `f`.
pub open spec fn reports(e: GrumpyError, f: RecordFault) -> bool {
    match f {
        RecordFault::Corrupted(lsn) => e == GrumpyError::WalCorrupted(lsn),
        RecordFault::Clock(c) => e is VectorClock && e->VectorClock_0@ == c.message_text(),
    }
}

pub proof fn lemma_record_len(rec: RecordM)
    ensures
        rec.stamp().len() == 41,
        rec.payload().len() == if rec.op == WalOpType::PageWrite {
            8 + rec.data.len()
        } else {
            0
        },
        clock_image(rec.clock).len() == 2 + 24 * rec.clock.len(),
        rec.body().len() == rec.frame_len() - 8,
        rec.image().len() == rec.frame_len(),
{
    lemma_le_bytes_len(rec.lsn as nat, 8);
    lemma_le_bytes_len(rec.tx_id as nat, 8);
    lemma_le_bytes_len(rec.origin as nat, 16);
    lemma_le_bytes_len(rec.hlc.0 as nat, 8);
    lemma_le_bytes_len(rec.page_id as nat, 4);
    lemma_le_bytes_len(rec.data.len(), 4);
    lemma_le_bytes_len(rec.record_len as nat, 4);
    lemma_le_bytes_len(rec.checksum as nat, 4);
    lemma_le_bytes_len(rec.clock.len(), 2);
    lemma_clock_entries_len(rec.clock);
}

/// A number of `n` bytes is read back where it was written.
proof fn lemma_number_at(s: Seq<u8>, off: int, x: nat, n: nat)
    requires
        0 <= off,
        off + n <= s.len(),
        s.subrange(off, off + n) == le_bytes(x, n),
        x < crate::bytes::pow256(n),
    ensures
        field(s, off, n) == x,
{
    lemma_le_round_trip(x, n);
}

proof fn lemma_stamp_fields(rec: RecordM, s: Seq<u8>)
    requires
        s.len() >= 45,
        s.subrange(0, 4) == le_bytes(rec.record_len as nat, 4),
        s.subrange(4, 45) == rec.stamp(),
    ensures
        field(s, 0, 4) == rec.record_len,
        field(s, 4, 8) == rec.lsn,
        field(s, 12, 8) == rec.tx_id,
        s[20] == rec.op.code(),
        field(s, 21, 16) == rec.origin,
        field(s, 37, 8) == rec.hlc.0,
{
    lemma_pow256_values();
    let st = rec.stamp();
    lemma_le_bytes_len(rec.lsn as nat, 8);
    lemma_le_bytes_len(rec.tx_id as nat, 8);
    lemma_le_bytes_len(rec.origin as nat, 16);
    lemma_le_bytes_len(rec.hlc.0 as nat, 8);
    assert(st.len() == 41);
    assert forall|i: int| 0 <= i < 41 implies s[4 + i] == #[trigger] st[i] by {
        assert(s.subrange(4, 45)[i] == s[4 + i]);
    }
    assert(s.subrange(4, 12) =~= st.subrange(0, 8));
    assert(st.subrange(0, 8) =~= le_bytes(rec.lsn as nat, 8));
    assert(s.subrange(12, 20) =~= st.subrange(8, 16));
    assert(st.subrange(8, 16) =~= le_bytes(rec.tx_id as nat, 8));
    assert(s[20] == st[16]);
    assert(s.subrange(21, 37) =~= st.subrange(17, 33));
    assert(st.subrange(17, 33) =~= le_bytes(rec.origin as nat, 16));
    assert(s.subrange(37, 45) =~= st.subrange(33, 41));
    assert(st.subrange(33, 41) =~= le_bytes(rec.hlc.0 as nat, 8));
    lemma_number_at(s, 0, rec.record_len as nat, 4);
    lemma_number_at(s, 4, rec.lsn as nat, 8);
    lemma_number_at(s, 12, rec.tx_id as nat, 8);
    lemma_number_at(s, 21, rec.origin as nat, 16);
    lemma_number_at(s, 37, rec.hlc.0 as nat, 8);
}

/// A record written in the v2 format is read back as it was, whatever follows
/// it; with any other checksum it is refused.
pub proof fn law_record_round_trip(rec: RecordM, rest: Seq<u8>)
    requires
        rec.framed(),
    ensures
        rec.checksum == crc32(rec.body()) ==> parse_v2(rec.image() + rest) == Ok::<
            (RecordM, nat),
            RecordFault,
        >((rec, rec.image().len())),
        rec.checksum != crc32(rec.body()) ==> parse_v2(rec.image() + rest) == Err::<
            (RecordM, nat),
            RecordFault,
        >(RecordFault::Corrupted(rec.lsn)),
{
    let s = rec.image() + rest;
    let n = rec.frame_len();
    let ci = clock_image(rec.clock);
    let pl = rec.payload();
    let ck = le_bytes(rec.checksum as nat, 4);
    let ln = le_bytes(rec.record_len as nat, 4);
    lemma_pow256_values();
    lemma_record_len(rec);
    lemma_le_bytes_len(rec.record_len as nat, 4);
    lemma_le_bytes_len(rec.checksum as nat, 4);
    assert(s =~= ln + rec.stamp() + ci + pl + ck + rest);
    assert(s.subrange(0, 4) =~= ln);
    assert(s.subrange(4, 45) =~= rec.stamp());
    lemma_stamp_fields(rec, s);
    assert(s.subrange(45, n - 4) =~= ci + pl);
    law_clock_round_trip(rec.clock, pl);
    let at = 45 + ci.len() as int;
    assert(s.subrange(at, n - 4) =~= pl);
    assert(s.subrange(n - 4, n) =~= ck);
    lemma_number_at(s, n - 4, rec.checksum as nat, 4);
    if rec.op == WalOpType::PageWrite {
        let pi = le_bytes(rec.page_id as nat, 4);
        let dl = le_bytes(rec.data.len(), 4);
        lemma_le_bytes_len(rec.page_id as nat, 4);
        lemma_le_bytes_len(rec.data.len(), 4);
        assert forall|i: int| 0 <= i < pl.len() implies s[at + i] == #[trigger] pl[i] by {
            assert(s.subrange(at, n - 4)[i] == s[at + i]);
        }
        assert(s.subrange(at, at + 4) =~= pi);
        assert(s.subrange(at + 4, at + 4 + 4) =~= dl);
        assert(s.subrange(at + 8, n - 4) =~= rec.data);
        lemma_number_at(s, at, rec.page_id as nat, 4);
        lemma_number_at(s, at + 4, rec.data.len(), 4);
    } else {
        assert(rec.data =~= Seq::<u8>::empty());
    }
    assert(WalOpType::of_code(rec.op.code()) == Some(rec.op));
}

/// A record written in the v1 format is read back in its promoted shape,
/// whatever follows it.
pub proof fn law_v1_round_trip(
    lsn: u64,
    tx_id: u64,
    op: WalOpType,
    page_id: u32,
    data: Seq<u8>,
    rest: Seq<u8>,
)
    requires
        33 + data.len() < 0x1_0000_0000,
    ensures
        parse_v1(v1_image(lsn, tx_id, op, page_id, data) + rest) == Ok::<
            (RecordM, nat),
            RecordFault,
        >((promoted(lsn, tx_id, op, page_id, data), v1_image(lsn, tx_id, op, page_id, data).len())),
        v1_image(lsn, tx_id, op, page_id, data).len() == 33 + data.len(),
{
    let n = 33 + data.len();
    let end = 29 + data.len() as int;
    let b = v1_body(n as u32, lsn, tx_id, op, page_id, data);
    let s = v1_image(lsn, tx_id, op, page_id, data) + rest;
    lemma_pow256_values();
    lemma_le_bytes_len(n, 4);
    lemma_le_bytes_len(lsn as nat, 8);
    lemma_le_bytes_len(tx_id as nat, 8);
    lemma_le_bytes_len(page_id as nat, 4);
    lemma_le_bytes_len(data.len(), 4);
    lemma_le_bytes_len(crc32(b) as nat, 4);
    assert(b.len() == 29 + data.len());
    assert forall|i: int| 0 <= i < b.len() implies #[trigger] s[i] == b[i] by {}
    assert(s.subrange(0, 4) =~= le_bytes(n, 4));
    assert(s.subrange(4, 12) =~= le_bytes(lsn as nat, 8));
    assert(s.subrange(12, 20) =~= le_bytes(tx_id as nat, 8));
    assert(s[20] == op.code());
    assert(s.subrange(21, 25) =~= le_bytes(page_id as nat, 4));
    assert(s.subrange(25, 29) =~= le_bytes(data.len(), 4));
    assert(s.subrange(29, end) =~= data);
    assert(s.subrange(end, end + 4) =~= le_bytes(crc32(b) as nat, 4));
    lemma_number_at(s, 0, n, 4);
    lemma_number_at(s, 4, lsn as nat, 8);
    lemma_number_at(s, 12, tx_id as nat, 8);
    lemma_number_at(s, 21, page_id as nat, 4);
    lemma_number_at(s, 25, data.len(), 4);
    lemma_number_at(s, end, crc32(b) as nat, 4);
}

// ── The bytes of a log ──────────────────────────────────────────────────

/// The records at the start of v2 bytes, up to the first that cannot be read.
pub open spec fn frames_v2(s: Seq<u8>) -> Seq<RecordM>
    decreases s.len(),
{
    match parse_v2(s) {
        Ok((rec, n)) => if 0 < n <= s.len() {
            seq![rec] + frames_v2(s.skip(n as int))
        } else {
            Seq::empty()
        },
        Err(_) => Seq::empty(),
    }
}

/// The records at the start of v1 bytes, up to the first that cannot be read.
pub open spec fn frames_v1(s: Seq<u8>) -> Seq<RecordM>
    decreases s.len(),
{
    match parse_v1(s) {
        Ok((rec, n)) => if 0 < n <= s.len() {
            seq![rec] + frames_v1(s.skip(n as int))
        } else {
            Seq::empty()
        },
        Err(_) => Seq::empty(),
    }
}

/// The bytes of records, one after another.
pub open spec fn records_image(recs: Seq<RecordM>) -> Seq<u8>
    decreases recs.len(),
{
    if recs.len() == 0 {
        Seq::empty()
    } else {
        recs[0].image() + records_image(recs.skip(1))
    }
}

/// `s` starts with `rec`, which takes up `img`.
#[verifier::opaque]
spec fn starts_with(s: Seq<u8>, rec: RecordM, img: Seq<u8>) -> bool {
    img.len() > 0 && parse_v2(s) == Ok::<(RecordM, nat), RecordFault>((rec, img.len()))
}

/// Every record can be read back from its bytes.
#[verifier::opaque]
spec fn all_intact(recs: Seq<RecordM>) -> bool {
    forall|i: int| 0 <= i < recs.len() ==> (#[trigger] recs[i]).intact()
}

/// The records that can be read of `s`.
#[verifier::opaque]
spec fn readable(s: Seq<u8>) -> Seq<RecordM> {
    frames_v2(s)
}

/// The bytes of records, one after another.
#[verifier::opaque]
spec fn written(recs: Seq<RecordM>) -> Seq<u8> {
    records_image(recs)
}

proof fn lemma_first_frame(s: Seq<u8>, rec: RecordM, img: Seq<u8>, rest: Seq<u8>)
    requires
        s == img + rest,
        starts_with(s, rec, img),
    ensures
        readable(s) == seq![rec] + readable(rest),
{
    reveal(starts_with);
    reveal(readable);
    assert(s.skip(img.len() as int) =~= rest);
}

proof fn lemma_first_intact(recs: Seq<RecordM>, rest: Seq<u8>) -> (img: Seq<u8>)
    requires
        recs.len() > 0,
        all_intact(recs),
    ensures
        all_intact(recs.skip(1)),
        starts_with(img + rest, recs[0], img),
        written(recs) == img + written(recs.skip(1)),
{
    reveal(starts_with);
    reveal(all_intact);
    reveal(written);
    assert(recs[0].intact());
    law_record_round_trip(recs[0], rest);
    lemma_record_len(recs[0]);
    assert forall|i: int| 0 <= i < recs.skip(1).len() implies (#[trigger] recs.skip(
        1,
    )[i]).intact() by {
        assert(recs[i + 1].intact());
    }
    recs[0].image()
}

proof fn lemma_read_back(recs: Seq<RecordM>, tail: Seq<u8>)
    requires
        all_intact(recs),
    ensures
        readable(written(recs) + tail) == recs + readable(tail),
    decreases recs.len(),
{
    let s = written(recs) + tail;
    if recs.len() == 0 {
        assert(written(recs) =~= Seq::<u8>::empty()) by {
            reveal(written);
        }
        assert(s =~= tail);
        assert(recs + readable(tail) =~= readable(tail));
    } else {
        let rest = recs.skip(1);
        let more = written(rest) + tail;
        let img = lemma_first_intact(recs, more);
        lemma_read_back(rest, tail);
        assert(s =~= img + more);
        lemma_first_frame(s, recs[0], img, more);
        assert(seq![recs[0]] + (rest + readable(tail)) =~= recs + readable(tail));
    }
}

/// Reading a log gives back the records that were written, and then what can
/// be read of whatever follows them.
pub proof fn law_log_round_trip(recs: Seq<RecordM>, tail: Seq<u8>)
    requires
        forall|i: int| 0 <= i < recs.len() ==> (#[trigger] recs[i]).intact(),
    ensures
        frames_v2(records_image(recs) + tail) == recs + frames_v2(tail),
{
    reveal(all_intact);
    reveal(readable);
    reveal(written);
    lemma_read_back(recs, tail);
}

/// A log of one record holds that record.
pub proof fn lemma_one_record(rec: RecordM)
    requires
        rec.intact(),
    ensures
        frames_v2(rec.image()) == seq![rec],
{
    reveal(all_intact);
    reveal(readable);
    let one = seq![rec];
    let none = Seq::<u8>::empty();
    assert(all_intact(one));
    let img = lemma_first_intact(one, none);
    assert(one.skip(1) =~= Seq::<RecordM>::empty());
    assert(img =~= rec.image() && written(one) =~= rec.image()) by {
        reveal(written);
        assert(written(one.skip(1)) =~= none);
        lemma_image_alone(rec);
    }
    lemma_read_back(one, none);
    assert(written(one) + none =~= written(one));
    lemma_no_frames(none);
    assert(one + readable(none) =~= one);
}

proof fn lemma_image_alone(rec: RecordM)
    ensures
        records_image(seq![rec]) == rec.image(),
{
    let one = seq![rec];
    let img = rec.image();
    assert(one.skip(1) =~= Seq::<RecordM>::empty());
    assert(records_image(one.skip(1)) =~= Seq::<u8>::empty());
    assert(records_image(one) == img + records_image(one.skip(1)));
    assert(img + Seq::<u8>::empty() =~= img);
}

/// A single WAL record (in-memory representation; always carries v2 fields).
#[derive(Debug, PartialEq, Eq)]
pub struct WalRecord {
    /// Total size of this record on disk (including the leading `record_len`
    /// field and the trailing checksum).
    pub record_len: u32,
    /// Log Sequence Number — monotonically increasing per WAL file.
    pub lsn: u64,
    /// Transaction identifier.
    pub tx_id: u64,
    /// Operation type.
    pub op_type: WalOpType,
    /// Identifier of the node that produced this record. `NIL_NODE_ID` for
    /// records read from a v1 file.
    pub origin_node_id: u128,
    /// Hybrid Logical Clock at the time the record was produced.
    pub hlc: Hlc,
    /// Vector clock snapshot at the time the record was produced.
    pub vector_clock: VectorClock,
    /// Page ID affected (0 for Commit/Checkpoint).
    pub page_id: u32,
    /// Op-specific payload (PageWrite: `after ++ before` for v2; v1 files used
    /// `before ++ after`, which is preserved byte-for-byte during decode).
    pub data: Vec<u8>,
    /// CRC32 checksum stored on disk.
    pub checksum: u32,
}

impl WalRecord {
    /// What the record holds.
    pub open spec fn model(&self) -> RecordM {
        RecordM {
            record_len: self.record_len,
            lsn: self.lsn,
            tx_id: self.tx_id,
            op: self.op_type,
            origin: self.origin_node_id,
            hlc: self.hlc,
            clock: self.vector_clock.model(),
            page_id: self.page_id,
            data: self.data@,
            checksum: self.checksum,
        }
    }

    /// The bytes of the record can be addressed.
    pub open spec fn fits(&self) -> bool {
        self.model().frame_len() <= usize::MAX
    }

    /// Constructs a `PageWrite` v2 record. It stores `after` first, then
    /// `before`.
    pub fn page_write(
        lsn: u64,
        tx_id: u64,
        origin_node_id: u128,
        hlc: Hlc,
        vector_clock: VectorClock,
        page_id: u32,
        before: &[u8],
        after: &[u8],
    ) -> (r: Self)
        requires
            59 + 24 * vector_clock.model().len() + before@.len() + after@.len() <= usize::MAX,
        ensures
            r.vector_clock == vector_clock,
            r.model() == (RecordM {
                record_len: 0,
                lsn,
                tx_id,
                op: WalOpType::PageWrite,
                origin: origin_node_id,
                hlc,
                clock: vector_clock.model(),
                page_id,
                data: after@ + before@,
                checksum: 0,
            }).sealed(),
    {
        let mut data: Vec<u8> = to_vec(after);
        data.extend_from_slice(before);
        assert(data@ =~= after@ + before@);
        WalRecord::seal(
            WalRecord {
                record_len: 0,
                lsn,
                tx_id,
                op_type: WalOpType::PageWrite,
                origin_node_id,
                hlc,
                vector_clock,
                page_id,
                data,
                checksum: 0,
            },
        )
    }

    /// Constructs a `Commit` v2 record.
    pub fn commit(
        lsn: u64,
        tx_id: u64,
        origin_node_id: u128,
        hlc: Hlc,
        vector_clock: VectorClock,
    ) -> (r: Self)
        requires
            51 + 24 * vector_clock.model().len() <= usize::MAX,
        ensures
            r.vector_clock == vector_clock,
            r.model() == (RecordM {
                record_len: 0,
                lsn,
                tx_id,
                op: WalOpType::Commit,
                origin: origin_node_id,
                hlc,
                clock: vector_clock.model(),
                page_id: 0,
                data: Seq::empty(),
                checksum: 0,
            }).sealed(),
    {
        WalRecord::seal(
            WalRecord {
                record_len: 0,
                lsn,
                tx_id,
                op_type: WalOpType::Commit,
                origin_node_id,
                hlc,
                vector_clock,
                page_id: 0,
                data: Vec::new(),
                checksum: 0,
            },
        )
    }

    /// Constructs a `Checkpoint` v2 record.
    pub fn checkpoint(lsn: u64, origin_node_id: u128, hlc: Hlc, vector_clock: VectorClock) -> (r:
        Self)
        requires
            51 + 24 * vector_clock.model().len() <= usize::MAX,
        ensures
            r.vector_clock == vector_clock,
            r.model() == (RecordM {
                record_len: 0,
                lsn,
                tx_id: 0,
                op: WalOpType::Checkpoint,
                origin: origin_node_id,
                hlc,
                clock: vector_clock.model(),
                page_id: 0,
                data: Seq::empty(),
                checksum: 0,
            }).sealed(),
    {
        WalRecord::seal(
            WalRecord {
                record_len: 0,
                lsn,
                tx_id: 0,
                op_type: WalOpType::Checkpoint,
                origin_node_id,
                hlc,
                vector_clock,
                page_id: 0,
                data: Vec::new(),
                checksum: 0,
            },
        )
    }

    /// Fills in the length and the checksum.
    fn seal(rec: WalRecord) -> (r: Self)
        requires
            rec.model().frame_len() <= u64::MAX,
        ensures
            r.vector_clock == rec.vector_clock,
            r.model() == rec.model().sealed(),
    {
        let mut out: WalRecord = rec;
        let payload: u64 = match out.op_type {
            WalOpType::PageWrite => 8 + out.data.len() as u64,
            _ => 0,
        };
        let total: u64 = 51 + 24 * out.vector_clock.len() as u64 + payload;
        out.record_len = (total % 0x1_0000_0000) as u32;
        out.checksum = out.compute_checksum_v2();
        assert(out.model().body() =~= rec.model().body());
        out
    }

    /// Total v2 on-disk frame length, including `record_len` and `checksum`.
    pub fn encoded_v2_len(&self) -> (r: usize)
        requires
            self.fits(),
        ensures
            r == self.model().frame_len(),
            r == self.model().image().len(),
    {
        proof {
            lemma_record_len(self.model());
        }
        let payload: usize = match self.op_type {
            WalOpType::PageWrite => 8 + self.data.len(),
            _ => 0,
        };
        WAL_RECORD_HEADER_SIZE_V2 + self.vector_clock.encoded_len() + payload
    }

    /// The bytes that the checksum covers.
    fn body_bytes(&self) -> (r: Vec<u8>)
        ensures
            r@ == self.model().body(),
    {
        let mut buf: Vec<u8> = Vec::new();
        push_le(&mut buf, self.lsn as u128, 8);
        push_le(&mut buf, self.tx_id as u128, 8);
        buf.push(self.op_type.to_u8());
        push_le(&mut buf, self.origin_node_id, 16);
        push_le(&mut buf, self.hlc.0 as u128, 8);
        assert(buf@ =~= self.model().stamp());
        self.vector_clock.encode_to(&mut buf);
        match self.op_type {
            WalOpType::PageWrite => {
                push_le(&mut buf, self.page_id as u128, 4);
                push_le(&mut buf, self.data.len() as u128, 4);
                buf.extend_from_slice(self.data.as_slice());
            },
            _ => {},
        }
        assert(buf@ =~= self.model().body());
        buf
    }

    /// Serialises the record in v2 format.
    pub fn to_bytes(&self) -> (r: Vec<u8>)
        ensures
            r@ == self.model().image(),
    {
        let mut buf: Vec<u8> = Vec::new();
        push_le(&mut buf, self.record_len as u128, 4);
        let body: Vec<u8> = self.body_bytes();
        buf.extend_from_slice(body.as_slice());
        push_le(&mut buf, self.checksum as u128, 4);
        assert(buf@ =~= self.model().image());
        buf
    }

    /// Deserialises a record assuming the v2 frame layout. Returns the record
    /// and the number of bytes consumed.
    pub fn from_bytes_v2(buf: &[u8]) -> (r: Result<(Self, usize)>)
        ensures
            match r {
                Ok(t) => t.0.vector_clock.wf() && parse_v2(buf@) == Ok::<
                    (RecordM, nat),
                    RecordFault,
                >((t.0.model(), t.1 as nat)) && WAL_RECORD_HEADER_SIZE_V2 <= t.1 <= buf@.len(),
                Err(e) => parse_v2(buf@) is Err && reports(e, parse_v2(buf@)->Err_0),
            },
    {
        let ghost s = buf@;
        assert(buf.len() == s.len());
        if buf.len() < 4 {
            return Err(GrumpyError::WalCorrupted(0));
        }
        let n: u32 = get_u32(buf, 0);
        let record_len: usize = n as usize;
        if record_len < WAL_RECORD_HEADER_SIZE_V2 || buf.len() < record_len {
            return Err(GrumpyError::WalCorrupted(0));
        }
        let lsn: u64 = get_u64(buf, 4);
        let tx_id: u64 = get_u64(buf, 12);
        let op_type: WalOpType = match WalOpType::from_u8(buf[20]) {
            Some(op) => op,
            None => {
                return Err(GrumpyError::WalCorrupted(lsn));
            },
        };
        let origin_node_id: u128 = get_le(buf, 21, 16);
        let hlc: Hlc = Hlc::from_packed(get_u64(buf, 37));
        let payload_end: usize = record_len - 4;
        let (vector_clock, used) = match VectorClock::decode(&buf[45..payload_end]) {
            Ok(t) => t,
            Err(e) => {
                return Err(GrumpyError::VectorClock(e.message()));
            },
        };
        let at: usize = 45 + used;
        let mut page_id: u32 = 0;
        let mut data: Vec<u8> = Vec::new();
        match op_type {
            WalOpType::PageWrite => {
                if payload_end - at < 8 {
                    return Err(GrumpyError::WalCorrupted(lsn));
                }
                page_id = get_u32(buf, at);
                let data_len: usize = get_u32(buf, at + 4) as usize;
                if payload_end - at - 8 != data_len {
                    return Err(GrumpyError::WalCorrupted(lsn));
                }
                data = to_vec(&buf[at + 8..payload_end]);
            },
            _ => {
                if at != payload_end {
                    return Err(GrumpyError::WalCorrupted(lsn));
                }
            },
        }
        let checksum: u32 = get_u32(buf, payload_end);
        let rec: WalRecord = WalRecord {
            record_len: n,
            lsn,
            tx_id,
            op_type,
            origin_node_id,
            hlc,
            vector_clock,
            page_id,
            data,
            checksum,
        };
        if rec.compute_checksum_v2() != checksum {
            return Err(GrumpyError::WalCorrupted(lsn));
        }
        Ok((rec, record_len))
    }

    /// Deserialises a record assuming the legacy v1 frame layout. The returned
    /// record is mapped to the v2 in-memory shape (NIL origin,
    /// `hlc = Hlc::from_packed(lsn)`, singleton vclock keyed by NIL).
    pub fn from_bytes_v1(buf: &[u8]) -> (r: Result<(Self, usize)>)
        ensures
            match r {
                Ok(t) => t.0.vector_clock.wf() && parse_v1(buf@) == Ok::<
                    (RecordM, nat),
                    RecordFault,
                >((t.0.model(), t.1 as nat)) && WAL_RECORD_HEADER_SIZE_V1 <= t.1 <= buf@.len(),
                Err(e) => parse_v1(buf@) is Err && reports(e, parse_v1(buf@)->Err_0),
            },
    {
        assert(buf.len() == buf@.len());
        if buf.len() < WAL_RECORD_HEADER_SIZE_V1 {
            return Err(GrumpyError::WalCorrupted(0));
        }
        let n: u32 = get_u32(buf, 0);
        let record_len: usize = n as usize;
        if record_len < WAL_RECORD_HEADER_SIZE_V1 || buf.len() < record_len {
            return Err(GrumpyError::WalCorrupted(0));
        }
        let lsn: u64 = get_u64(buf, 4);
        let tx_id: u64 = get_u64(buf, 12);
        let op_type: WalOpType = match WalOpType::from_u8(buf[20]) {
            Some(op) => op,
            None => {
                return Err(GrumpyError::WalCorrupted(lsn));
            },
        };
        let page_id: u32 = get_u32(buf, 21);
        let data_len: usize = get_u32(buf, 25) as usize;
        if record_len - 33 < data_len {
            return Err(GrumpyError::WalCorrupted(lsn));
        }
        let data: Vec<u8> = to_vec(&buf[29..29 + data_len]);
        let checksum: u32 = get_u32(buf, 29 + data_len);
        let computed: u32 = compute_v1_checksum(n, lsn, tx_id, op_type, page_id, data.as_slice());
        if computed != checksum {
            return Err(GrumpyError::WalCorrupted(lsn));
        }
        let rec: WalRecord = WalRecord {
            record_len: 0,
            lsn,
            tx_id,
            op_type,
            origin_node_id: NIL_NODE_ID,
            hlc: Hlc::from_packed(lsn),
            vector_clock: VectorClock::singleton(NIL_NODE_ID, lsn),
            page_id,
            data,
            checksum: 0,
        };
        Ok((WalRecord::seal(rec), record_len))
    }

    /// Convenience accessor: for `PageWrite` records, returns the
    /// `(after, before)` slice pair (v2 layout).
    pub fn page_images(&self) -> (r: Option<(&[u8], &[u8])>)
        ensures
            r is Some == (self.op_type == WalOpType::PageWrite),
            r matches Some(t) ==> t.0@ == self.data@.take(self.data@.len() as int / 2) && t.1@
                == self.data@.skip(self.data@.len() as int / 2),
    {
        match self.op_type {
            WalOpType::PageWrite => {
                let half: usize = self.data.len() / 2;
                let all: &[u8] = self.data.as_slice();
                Some((slice_subrange(all, 0, half), slice_subrange(all, half, all.len())))
            },
            _ => None,
        }
    }

    /// Returns the after-image slice for `PageWrite`.
    pub fn after_image(&self) -> (r: Option<&[u8]>)
        ensures
            r is Some == (self.op_type == WalOpType::PageWrite),
            r matches Some(a) ==> a@ == self.data@.take(self.data@.len() as int / 2),
    {
        match self.page_images() {
            Some((a, _)) => Some(a),
            None => None,
        }
    }

    /// Returns the before-image slice for `PageWrite`.
    pub fn before_image(&self) -> (r: Option<&[u8]>)
        ensures
            r is Some == (self.op_type == WalOpType::PageWrite),
            r matches Some(b) ==> b@ == self.data@.skip(self.data@.len() as int / 2),
    {
        match self.page_images() {
            Some((_, b)) => Some(b),
            None => None,
        }
    }

    /// Recomputes and validates the on-disk checksum (v2).
    pub fn is_valid(&self) -> (r: bool)
        ensures
            r == (self.checksum == crc32(self.model().body())),
    {
        self.compute_checksum_v2() == self.checksum
    }

    fn compute_checksum_v2(&self) -> (r: u32)
        ensures
            r == crc32(self.model().body()),
    {
        let body: Vec<u8> = self.body_bytes();
        let none: Vec<u8> = Vec::new();
        assert(body@ + none@ =~= body@);
        crc32_of_parts(body.as_slice(), none.as_slice())
    }
}

fn v1_body_bytes(
    record_len: u32,
    lsn: u64,
    tx_id: u64,
    op_type: WalOpType,
    page_id: u32,
    data: &[u8],
) -> (r: Vec<u8>)
    ensures
        r@ == v1_body(record_len, lsn, tx_id, op_type, page_id, data@),
{
    let mut buf: Vec<u8> = Vec::new();
    push_le(&mut buf, record_len as u128, 4);
    push_le(&mut buf, lsn as u128, 8);
    push_le(&mut buf, tx_id as u128, 8);
    buf.push(op_type.to_u8());
    push_le(&mut buf, page_id as u128, 4);
    push_le(&mut buf, data.len() as u128, 4);
    buf.extend_from_slice(data);
    assert(buf@ =~= v1_body(record_len, lsn, tx_id, op_type, page_id, data@));
    buf
}

fn compute_v1_checksum(
    record_len: u32,
    lsn: u64,
    tx_id: u64,
    op_type: WalOpType,
    page_id: u32,
    data: &[u8],
) -> (r: u32)
    ensures
        r == crc32(v1_body(record_len, lsn, tx_id, op_type, page_id, data@)),
{
    let body: Vec<u8> = v1_body_bytes(record_len, lsn, tx_id, op_type, page_id, data);
    let none: Vec<u8> = Vec::new();
    assert(body@ + none@ =~= body@);
    crc32_of_parts(body.as_slice(), none.as_slice())
}

/// Encodes a v1-format record from raw fields, for building legacy logs.
pub fn encode_v1_record(
    lsn: u64,
    tx_id: u64,
    op_type: WalOpType,
    page_id: u32,
    data: &[u8],
) -> (r: Vec<u8>)
    requires
        33 + data@.len() <= usize::MAX,
    ensures
        r@ == v1_image(lsn, tx_id, op_type, page_id, data@),
{
    let record_len: u32 = ((33 + data.len()) as u64 % 0x1_0000_0000) as u32;
    let checksum: u32 = compute_v1_checksum(record_len, lsn, tx_id, op_type, page_id, data);
    let mut buf: Vec<u8> = v1_body_bytes(record_len, lsn, tx_id, op_type, page_id, data);
    push_le(&mut buf, checksum as u128, 4);
    buf
}

/// Reads v2 records, stopping at the first corruption.
pub fn read_v2_records(bytes: &[u8]) -> (r: Vec<WalRecord>)
    ensures
        records_of(r@) == frames_v2(bytes@),
        forall|i: int| 0 <= i < r@.len() ==> (#[trigger] r@[i]).vector_clock.wf(),
{
    let mut records: Vec<WalRecord> = Vec::new();
    let mut offset: usize = 0;
    let ghost s = bytes@;
    assert(bytes.len() == s.len());
    assert(s.skip(0) =~= s);
    assert(records_of(records@) + frames_v2(s) =~= frames_v2(s));
    let mut more: bool = true;
    while more && offset < bytes.len()
        invariant
            s == bytes@,
            bytes.len() == s.len(),
            offset <= s.len(),
            more ==> records_of(records@) + frames_v2(s.skip(offset as int)) == frames_v2(s),
            !more ==> records_of(records@) == frames_v2(s),
            forall|i: int|
                0 <= i < records@.len() ==> (#[trigger] records@[i]).vector_clock.wf(),
        decreases (if more {
            1nat
        } else {
            0
        }) + (s.len() - offset) as nat,
    {
        let ghost before = records@;
        let ghost rest = s.skip(offset as int);
        let tail: &[u8] = slice_subrange(bytes, offset, bytes.len());
        assert(tail@ =~= rest);
        match WalRecord::from_bytes_v2(tail) {
            Ok((rec, used)) => {
                let ghost m = rec.model();
                records.push(rec);
                offset = offset + used;
                proof {
                    assert(rest.skip(used as int) =~= s.skip(offset as int));
                    assert(records_of(records@) =~= records_of(before).push(m));
                    assert(records_of(records@) + frames_v2(s.skip(offset as int)) =~= records_of(
                        before,
                    ) + frames_v2(rest));
                }
            },
            Err(_) => {
                more = false;
                assert(records_of(records@) + frames_v2(rest) =~= records_of(records@));
            },
        }
    }
    proof {
        if more {
            lemma_no_frames(s.skip(offset as int));
            assert(records_of(records@) + frames_v2(s.skip(offset as int)) =~= records_of(
                records@,
            ));
        }
    }
    records
}

/// Reads v1 records, stopping at the first corruption.
pub fn read_v1_records(bytes: &[u8]) -> (r: Vec<WalRecord>)
    ensures
        records_of(r@) == frames_v1(bytes@),
        forall|i: int| 0 <= i < r@.len() ==> (#[trigger] r@[i]).vector_clock.wf(),
{
    let mut records: Vec<WalRecord> = Vec::new();
    let mut offset: usize = 0;
    let ghost s = bytes@;
    assert(bytes.len() == s.len());
    assert(s.skip(0) =~= s);
    assert(records_of(records@) + frames_v1(s) =~= frames_v1(s));
    let mut more: bool = true;
    while more && offset < bytes.len()
        invariant
            s == bytes@,
            bytes.len() == s.len(),
            offset <= s.len(),
            more ==> records_of(records@) + frames_v1(s.skip(offset as int)) == frames_v1(s),
            !more ==> records_of(records@) == frames_v1(s),
            forall|i: int|
                0 <= i < records@.len() ==> (#[trigger] records@[i]).vector_clock.wf(),
        decreases (if more {
            1nat
        } else {
            0
        }) + (s.len() - offset) as nat,
    {
        let ghost before = records@;
        let ghost rest = s.skip(offset as int);
        let tail: &[u8] = slice_subrange(bytes, offset, bytes.len());
        assert(tail@ =~= rest);
        match WalRecord::from_bytes_v1(tail) {
            Ok((rec, used)) => {
                let ghost m = rec.model();
                records.push(rec);
                offset = offset + used;
                proof {
                    assert(rest.skip(used as int) =~= s.skip(offset as int));
                    assert(records_of(records@) =~= records_of(before).push(m));
                    assert(records_of(records@) + frames_v1(s.skip(offset as int)) =~= records_of(
                        before,
                    ) + frames_v1(rest));
                }
            },
            Err(_) => {
                more = false;
                assert(records_of(records@) + frames_v1(rest) =~= records_of(records@));
            },
        }
    }
    proof {
        if more {
            lemma_no_frames(s.skip(offset as int));
            assert(records_of(records@) + frames_v1(s.skip(offset as int)) =~= records_of(
                records@,
            ));
        }
    }
    records
}

/// What a list of records holds.
pub open spec fn records_of(recs: Seq<WalRecord>) -> Seq<RecordM> {
    Seq::new(recs.len(), |i: int| recs[i].model())
}

/// No bytes, no records.
pub proof fn lemma_no_frames(s: Seq<u8>)
    requires
        s.len() == 0,
    ensures
        frames_v2(s) == Seq::<RecordM>::empty(),
        frames_v1(s) == Seq::<RecordM>::empty(),
{
}

/// The v2 header page: the magic, the version and zeros.
pub open spec fn wal_header(version: u16) -> Seq<u8> {
    splice(splice(zeros(8192), 0, magic()), 8, le_bytes(version as nat, 2))
}

pub proof fn lemma_wal_header(version: u16)
    ensures
        wal_header(version).len() == 8192,
        wal_header(version).subrange(0, 8) == magic(),
        field(wal_header(version), 8, 2) == version,
{
    lemma_pow256_values();
    lemma_le_round_trip(version as nat, 2);
    let h = wal_header(version);
    assert(h.subrange(0, 8) =~= magic());
    assert(h.subrange(8, 10) =~= le_bytes(version as nat, 2));
}

/// Builds the 8 KiB v2 WAL header page.
pub fn build_wal_header(version: u16) -> (r: Page)
    ensures
        r@ == wal_header(version),
{
    let mut hdr: Page = [0u8;PAGE_SIZE];
    assert(hdr@ =~= zeros(8192));
    let m: [u8; 8] = wal_magic();
    write_at(&mut hdr, 0, m.as_slice());
    let v: [u8; 2] = u16_le(version);
    write_at(&mut hdr, 8, v.as_slice());
    hdr
}

/// The bytes start with the magic.
pub open spec fn has_magic(s: Seq<u8>) -> bool {
    s.len() >= 8 && s.subrange(0, 8) == magic()
}

/// What the header of a log gives.
pub open spec fn header_version(s: Seq<u8>) -> Result<u16> {
    let version = field(s, 8, 2) as u16;
    if s.len() < 10 || !has_magic(s) {
        Err(GrumpyError::WalCorrupted(0))
    } else if version > WAL_VERSION_CURRENT {
        Err(GrumpyError::UnsupportedWalVersion(version))
    } else {
        Ok(version)
    }
}

/// Parses a WAL header page. Gives the version if the magic matches; a header
/// without the magic is reported as corrupted, and callers branch on the magic
/// before calling this.
pub fn parse_wal_header(hdr: &[u8]) -> (r: Result<u16>)
    ensures
        r == header_version(hdr@),
{
    assert(hdr.len() == hdr@.len());
    if hdr.len() < 10 {
        return Err(GrumpyError::WalCorrupted(0));
    }
    let m: [u8; 8] = wal_magic();
    if !bytes_eq(&hdr[0..8], m.as_slice()) {
        return Err(GrumpyError::WalCorrupted(0));
    }
    let version: u16 = get_u16(hdr, 8);
    if version > WAL_VERSION_CURRENT {
        return Err(GrumpyError::UnsupportedWalVersion(version));
    }
    Ok(version)
}

/// A header that was built for a known version is parsed as that version.
pub proof fn law_header_round_trip(version: u16)
    ensures
        version <= WAL_VERSION_CURRENT ==> header_version(wal_header(version)) == Ok::<
            u16,
            GrumpyError,
        >(version),
        version > WAL_VERSION_CURRENT ==> header_version(wal_header(version)) == Err::<
            u16,
            GrumpyError,
        >(GrumpyError::UnsupportedWalVersion(version)),
{
    lemma_wal_header(version);
}

/// Where the fields of a record stand in its bytes.
pub proof fn law_record_layout(rec: RecordM)
    ensures
        field(rec.image(), 0, 4) == rec.record_len,
        field(rec.image(), 4, 8) == rec.lsn,
        field(rec.image(), 12, 8) == rec.tx_id,
        rec.image()[20] == (match rec.op {
            WalOpType::PageWrite => 1u8,
            WalOpType::Commit => 2u8,
            WalOpType::Rollback => 3u8,
            WalOpType::Checkpoint => 4u8,
        }),
        field(rec.image(), 21, 16) == rec.origin,
        field(rec.image(), 37, 8) == rec.hlc.0,
{
    lemma_pow256_values();
    lemma_le_round_trip(rec.record_len as nat, 4);
    lemma_le_round_trip(rec.lsn as nat, 8);
    lemma_le_round_trip(rec.tx_id as nat, 8);
    lemma_le_round_trip(rec.origin as nat, 16);
    lemma_le_round_trip(rec.hlc.0 as nat, 8);
    let t = rec.image();
    assert(t.subrange(0, 4) =~= le_bytes(rec.record_len as nat, 4));
    assert(t.subrange(4, 12) =~= le_bytes(rec.lsn as nat, 8));
    assert(t.subrange(12, 20) =~= le_bytes(rec.tx_id as nat, 8));
    assert(t.subrange(21, 37) =~= le_bytes(rec.origin as nat, 16));
    assert(t.subrange(37, 45) =~= le_bytes(rec.hlc.0 as nat, 8));
}

} // verus!
