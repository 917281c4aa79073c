//! Binary codec for values.
//!
//! Each value is prefixed by a 1-byte type tag. Nested structures are encoded
//! recursively. All integers use little-endian byte order.

use vstd::prelude::*;
use vstd::string::*;
use vstd::utf8::{decode_utf8, encode_utf8, valid_utf8};

use crate::bytes::{
    be_bytes, be_val, field, get_u32, get_u64, le_bytes, lemma_be_bytes_len, lemma_be_round_trip,
    lemma_le_bytes_len, lemma_le_round_trip, lemma_pow256_values, push_be, push_le, to_vec,
};
use crate::document::value::{
    assigned, field_models, fields_sorted, lemma_assigned_is_sorted, lemma_assigned_sorted, models,
    put_field, value_wf, CrdtKind, FieldsM, Value, ValueM,
};
use crate::error::{numbered, GrumpyError, Result};
use crate::text::{append_decimal, append_hex, decimal, hex, owned};
use crate::uid::Uuid;

verus! {

// ── Type tags ───────────────────────────────────────────────────────────

pub const TAG_NULL: u8 = 0x00;

pub const TAG_BOOL: u8 = 0x01;

pub const TAG_INTEGER: u8 = 0x02;

pub const TAG_FLOAT: u8 = 0x03;

pub const TAG_STRING: u8 = 0x04;

pub const TAG_BYTES: u8 = 0x05;

pub const TAG_ARRAY: u8 = 0x06;

pub const TAG_OBJECT: u8 = 0x07;

pub const TAG_REF: u8 = 0x08;

/// Tombstone marker.
pub const TAG_TOMBSTONE: u8 = 0x09;

/// CRDT payload marker.
pub const TAG_CRDT: u8 = 0x0a;

/// Maximum collection name length in a Ref (from naming rules).
pub const MAX_REF_NAME_LEN: u32 = 64;

/// Maximum encoded vector-clock length stored inside a tombstone payload.
pub const MAX_TOMBSTONE_VCLOCK_LEN: u32 = 131072;

/// Maximum encoded CRDT payload length.
pub const MAX_CRDT_PAYLOAD_LEN: u32 = 16777216;

/// Maximum nesting depth for decode (prevents stack overflow).
pub const MAX_NESTING_DEPTH: usize = 64;

/// Maximum string/bytes length (16 MiB).
pub const MAX_BLOB_LEN: u32 = 16777216;

/// Maximum array element count.
pub const MAX_ARRAY_LEN: u32 = 1000000;

/// Maximum object key count.
pub const MAX_OBJECT_KEYS: u32 = 100000;

// ── The format ──────────────────────────────────────────────────────────

/// A byte string behind its 4-byte length.
pub open spec fn enc_blob(b: Seq<u8>) -> Seq<u8> {
    le_bytes(b.len(), 4) + b
}

/// The bytes of a value.
pub open spec fn enc(m: ValueM) -> Seq<u8>
    decreases m,
{
    match m {
        ValueM::Null => seq![TAG_NULL],
        ValueM::Bool(b) => seq![TAG_BOOL, if b {
            1u8
        } else {
            0u8
        }],
        ValueM::Integer(n) => seq![TAG_INTEGER] + le_bytes((n as u64) as nat, 8),
        ValueM::Float(f) => seq![TAG_FLOAT] + le_bytes(f as nat, 8),
        ValueM::String(s) => seq![TAG_STRING] + enc_blob(encode_utf8(s)),
        ValueM::Bytes(b) => seq![TAG_BYTES] + enc_blob(b),
        ValueM::Array(items) => seq![TAG_ARRAY] + le_bytes(items.len(), 4) + enc_items(items),
        ValueM::Object(fields) => seq![TAG_OBJECT] + le_bytes(fields.len(), 4) + enc_fields(
            fields,
        ),
        ValueM::Ref(c, id) => seq![TAG_REF] + enc_blob(encode_utf8(c)) + be_bytes(id as nat, 16),
        ValueM::Tombstone { deleted_at_hlc, vector_clock } => seq![TAG_TOMBSTONE] + le_bytes(
            deleted_at_hlc as nat,
            8,
        ) + enc_blob(vector_clock),
        ValueM::Crdt { kind, payload } => seq![TAG_CRDT, kind.tag()] + enc_blob(payload),
    }
}

/// The bytes of values, one after another.
pub open spec fn enc_items(items: Seq<ValueM>) -> Seq<u8>
    decreases items,
{
    if items.len() == 0 {
        Seq::empty()
    } else {
        enc(items[0]) + enc_items(items.subrange(1, items.len() as int))
    }
}

/// The bytes of fields, one after another.
pub open spec fn enc_fields(fields: FieldsM) -> Seq<u8>
    decreases fields,
{
    if fields.len() == 0 {
        Seq::empty()
    } else {
        enc_blob(encode_utf8(fields[0].0)) + enc(fields[0].1) + enc_fields(
            fields.subrange(1, fields.len() as int),
        )
    }
}

/// What reading from bytes gives: something and the bytes behind it, or the
/// text of an error and the bytes from where reading stopped.
pub enum Parsed<T> {
    Good(T, Seq<u8>),
    Bad(Seq<char>, Seq<u8>),
}

/// Reads a little-endian number of `n` bytes.
pub open spec fn read_num(s: Seq<u8>, n: nat, msg: Seq<char>) -> Parsed<nat> {
    if s.len() < n {
        Parsed::Bad(msg, s)
    } else {
        Parsed::Good(field(s, 0, n), s.skip(n as int))
    }
}

/// Reads `len` bytes.
pub open spec fn read_blob(s: Seq<u8>, len: nat) -> Parsed<Seq<u8>> {
    if s.len() < len {
        Parsed::Bad(
            "unexpected end of data: need "@ + decimal(len) + " bytes, have "@ + decimal(s.len()),
            s,
        )
    } else {
        Parsed::Good(s.take(len as int), s.skip(len as int))
    }
}

/// The text that describes why bytes are not UTF-8.
pub uninterp spec fn utf8_failure(bytes: Seq<u8>) -> Seq<char>;

/// Reads `len` bytes of UTF-8 text.
pub open spec fn read_text(s: Seq<u8>, len: nat) -> Parsed<Seq<char>> {
    match read_blob(s, len) {
        Parsed::Bad(m, z) => Parsed::Bad(m, z),
        Parsed::Good(b, rest) => if valid_utf8(b) {
            Parsed::Good(decode_utf8(b), rest)
        } else {
            Parsed::Bad("invalid UTF-8: "@ + utf8_failure(b), rest)
        },
    }
}

/// Reads a 4-byte length of at most `max`.
pub open spec fn read_len(
    s: Seq<u8>,
    max: nat,
    before: Seq<char>,
    after: Seq<char>,
) -> Parsed<nat> {
    match read_num(s, 4, "unexpected end of data reading u32"@) {
        Parsed::Bad(m, z) => Parsed::Bad(m, z),
        Parsed::Good(n, rest) => if n > max {
            Parsed::Bad(before + decimal(n) + after, rest)
        } else {
            Parsed::Good(n, rest)
        },
    }
}

/// Reads a value that sits `depth` levels deep.
pub open spec fn parse_value(s: Seq<u8>, depth: nat) -> Parsed<ValueM>
    decreases s.len(), 0nat,
{
    if depth > MAX_NESTING_DEPTH {
        Parsed::Bad("nesting depth exceeds maximum (64)"@, s)
    } else if s.len() == 0 {
        Parsed::Bad("unexpected end of data"@, s)
    } else {
        parse_tagged(s[0], s.skip(1), depth)
    }
}

/// Reads what follows the tag of a value.
pub open spec fn parse_tagged(tag: u8, t: Seq<u8>, depth: nat) -> Parsed<ValueM>
    decreases t.len(), 2nat,
{
    if tag == TAG_NULL {
        Parsed::Good(ValueM::Null, t)
    } else if tag == TAG_BOOL {
        if t.len() == 0 {
            Parsed::Bad("unexpected end of data"@, t)
        } else {
            Parsed::Good(ValueM::Bool(t[0] != 0), t.skip(1))
        }
    } else if tag == TAG_INTEGER {
        match read_num(t, 8, "unexpected end of data reading i64"@) {
            Parsed::Bad(m, z) => Parsed::Bad(m, z),
            Parsed::Good(n, r) => Parsed::Good(ValueM::Integer((n as u64) as i64), r),
        }
    } else if tag == TAG_FLOAT {
        match read_num(t, 8, "unexpected end of data reading f64"@) {
            Parsed::Bad(m, z) => Parsed::Bad(m, z),
            Parsed::Good(n, r) => Parsed::Good(ValueM::Float(n as u64), r),
        }
    } else if tag == TAG_STRING {
        match read_len(t, MAX_BLOB_LEN as nat, "string length "@, " exceeds maximum (16777216)"@) {
            Parsed::Bad(m, z) => Parsed::Bad(m, z),
            Parsed::Good(n, r) => match read_text(r, n) {
                Parsed::Bad(m, z) => Parsed::Bad(m, z),
                Parsed::Good(x, q) => Parsed::Good(ValueM::String(x), q),
            },
        }
    } else if tag == TAG_BYTES {
        match read_len(t, MAX_BLOB_LEN as nat, "bytes length "@, " exceeds maximum (16777216)"@) {
            Parsed::Bad(m, z) => Parsed::Bad(m, z),
            Parsed::Good(n, r) => match read_blob(r, n) {
                Parsed::Bad(m, z) => Parsed::Bad(m, z),
                Parsed::Good(x, q) => Parsed::Good(ValueM::Bytes(x), q),
            },
        }
    } else if tag == TAG_ARRAY {
        match read_len(t, MAX_ARRAY_LEN as nat, "array length "@, " exceeds maximum (1000000)"@) {
            Parsed::Bad(m, z) => Parsed::Bad(m, z),
            Parsed::Good(n, r) => match parse_items(r, n, depth + 1) {
                Parsed::Bad(m, z) => Parsed::Bad(m, z),
                Parsed::Good(x, q) => Parsed::Good(ValueM::Array(x), q),
            },
        }
    } else if tag == TAG_OBJECT {
        match read_len(
            t,
            MAX_OBJECT_KEYS as nat,
            "object key count "@,
            " exceeds maximum (100000)"@,
        ) {
            Parsed::Bad(m, z) => Parsed::Bad(m, z),
            Parsed::Good(n, r) => match parse_fields(r, n, depth + 1) {
                Parsed::Bad(m, z) => Parsed::Bad(m, z),
                Parsed::Good(x, q) => Parsed::Good(ValueM::Object(assigned(x)), q),
            },
        }
    } else if tag == TAG_REF {
        match read_len(
            t,
            MAX_REF_NAME_LEN as nat,
            "ref collection name length "@,
            " exceeds maximum (64)"@,
        ) {
            Parsed::Bad(m, z) => Parsed::Bad(m, z),
            Parsed::Good(n, r) => match read_text(r, n) {
                Parsed::Bad(m, z) => Parsed::Bad(m, z),
                Parsed::Good(c, q) => match read_blob(q, 16) {
                    Parsed::Bad(m, z) => Parsed::Bad(m, z),
                    Parsed::Good(id, z) => Parsed::Good(ValueM::Ref(c, be_val(id) as u128), z),
                },
            },
        }
    } else if tag == TAG_TOMBSTONE {
        match read_num(t, 8, "unexpected end of data reading tombstone HLC"@) {
            Parsed::Bad(m, z) => Parsed::Bad(m, z),
            Parsed::Good(h, r) => match read_len(
                r,
                MAX_TOMBSTONE_VCLOCK_LEN as nat,
                "tombstone vector clock length "@,
                " exceeds maximum (131072)"@,
            ) {
                Parsed::Bad(m, z) => Parsed::Bad(m, z),
                Parsed::Good(n, q) => match read_blob(q, n) {
                    Parsed::Bad(m, z) => Parsed::Bad(m, z),
                    Parsed::Good(b, z) => Parsed::Good(
                        ValueM::Tombstone { deleted_at_hlc: h as u64, vector_clock: b },
                        z,
                    ),
                },
            },
        }
    } else if tag == TAG_CRDT {
        if t.len() == 0 {
            Parsed::Bad("unexpected end of data"@, t)
        } else {
            match CrdtKind::of_tag(t[0]) {
                None => Parsed::Bad("unknown CRDT kind tag: "@ + decimal(t[0] as nat), t.skip(1)),
                Some(kind) => match read_len(
                    t.skip(1),
                    MAX_CRDT_PAYLOAD_LEN as nat,
                    "CRDT payload length "@,
                    " exceeds maximum (16777216)"@,
                ) {
                    Parsed::Bad(m, z) => Parsed::Bad(m, z),
                    Parsed::Good(n, q) => match read_blob(q, n) {
                        Parsed::Bad(m, z) => Parsed::Bad(m, z),
                        Parsed::Good(b, z) => Parsed::Good(ValueM::Crdt { kind, payload: b }, z),
                    },
                },
            }
        }
    } else {
        Parsed::Bad("unknown type tag: 0x"@ + hex(tag as nat, 2), t)
    }
}

/// Reads `n` values.
pub open spec fn parse_items(s: Seq<u8>, n: nat, depth: nat) -> Parsed<Seq<ValueM>>
    decreases s.len(), 1nat,
{
    if n == 0 {
        Parsed::Good(Seq::empty(), s)
    } else {
        match parse_value(s, depth) {
            Parsed::Bad(m, z) => Parsed::Bad(m, z),
            Parsed::Good(v, r) => if r.len() < s.len() {
                match parse_items(r, (n - 1) as nat, depth) {
                    Parsed::Bad(m, z) => Parsed::Bad(m, z),
                    Parsed::Good(vs, q) => Parsed::Good(seq![v] + vs, q),
                }
            } else {
                Parsed::Bad(Seq::empty(), r)
            },
        }
    }
}

/// Reads `n` fields, in the order in which they come.
pub open spec fn parse_fields(s: Seq<u8>, n: nat, depth: nat) -> Parsed<FieldsM>
    decreases s.len(), 1nat,
{
    if n == 0 {
        Parsed::Good(Seq::empty(), s)
    } else {
        match read_len(s, MAX_BLOB_LEN as nat, "object key length "@, " exceeds maximum (16777216)"@) {
            Parsed::Bad(m, z) => Parsed::Bad(m, z),
            Parsed::Good(len, t) => match read_text(t, len) {
                Parsed::Bad(m, z) => Parsed::Bad(m, z),
                Parsed::Good(k, u) => match parse_value(u, depth) {
                    Parsed::Bad(m, z) => Parsed::Bad(m, z),
                    Parsed::Good(v, r) => if r.len() < s.len() {
                        match parse_fields(r, (n - 1) as nat, depth) {
                            Parsed::Bad(m, z) => Parsed::Bad(m, z),
                            Parsed::Good(vs, q) => Parsed::Good(seq![(k, v)] + vs, q),
                        }
                    } else {
                        Parsed::Bad(Seq::empty(), r)
                    },
                },
            },
        }
    }
}

// ── Encode ──────────────────────────────────────────────────────────────

fn push_blob(buf: &mut Vec<u8>, b: &[u8])
    ensures
        final(buf)@ == old(buf)@ + enc_blob(b@),
{
    let ghost before = buf@;
    push_le(buf, b.len() as u128, 4);
    buf.extend_from_slice(b);
    assert(buf@ =~= before + enc_blob(b@));
}

/// Encodes a value at the end of a byte buffer.
pub fn encode(value: &Value, buf: &mut Vec<u8>)
    ensures
        final(buf)@ == old(buf)@ + enc(value.model()),
    decreases value,
{
    let ghost b0 = buf@;
    match value {
        Value::Null => {
            buf.push(TAG_NULL);
        },
        Value::Bool(b) => {
            buf.push(TAG_BOOL);
            buf.push(if *b {
                1
            } else {
                0
            });
        },
        Value::Integer(n) => {
            buf.push(TAG_INTEGER);
            push_le(buf, (*n as u64) as u128, 8);
        },
        Value::Float(f) => {
            buf.push(TAG_FLOAT);
            push_le(buf, *f as u128, 8);
        },
        Value::String(s) => {
            buf.push(TAG_STRING);
            push_blob(buf, s.as_str().as_bytes());
        },
        Value::Bytes(b) => {
            buf.push(TAG_BYTES);
            push_blob(buf, b.as_slice());
        },
        Value::Array(a) => {
            buf.push(TAG_ARRAY);
            push_le(buf, a.len() as u128, 4);
            encode_items(a, buf);
        },
        Value::Object(o) => {
            buf.push(TAG_OBJECT);
            push_le(buf, o.len() as u128, 4);
            encode_fields(o, buf);
        },
        Value::Ref(c, id) => {
            buf.push(TAG_REF);
            push_blob(buf, c.as_str().as_bytes());
            push_be(buf, id.0, 16);
        },
        Value::Tombstone { deleted_at_hlc, vector_clock } => {
            buf.push(TAG_TOMBSTONE);
            push_le(buf, *deleted_at_hlc as u128, 8);
            push_blob(buf, vector_clock.as_slice());
        },
        Value::Crdt { kind, payload } => {
            buf.push(TAG_CRDT);
            buf.push(kind.to_tag());
            push_blob(buf, payload.as_slice());
        },
    }
    assert(buf@ =~= b0 + enc(value.model()));
}

fn encode_items(items: &Vec<Value>, buf: &mut Vec<u8>)
    ensures
        final(buf)@ == old(buf)@ + enc_items(models(items@)),
    decreases items@,
{
    let ghost b0 = buf@;
    let ghost ms = models(items@);
    let mut i: usize = 0;
    assert(ms.skip(0) =~= ms);
    while i < items.len()
        invariant
            ms == models(items@),
            i <= items@.len(),
            buf@ + enc_items(ms.skip(i as int)) == b0 + enc_items(ms),
        decreases items@.len() - i,
    {
        let ghost before = buf@;
        encode(&items[i], buf);
        proof {
            let rest = ms.skip(i as int);
            assert(rest[0] == items@[i as int].model());
            assert(rest.subrange(1, rest.len() as int) =~= ms.skip(i + 1));
            assert(buf@ + enc_items(ms.skip(i + 1)) =~= before + enc_items(rest));
        }
        i = i + 1;
    }
    proof {
        assert(ms.skip(i as int).len() == 0);
        assert(buf@ + enc_items(ms.skip(i as int)) =~= buf@);
    }
}

fn encode_fields(fields: &Vec<(String, Value)>, buf: &mut Vec<u8>)
    ensures
        final(buf)@ == old(buf)@ + enc_fields(field_models(fields@)),
    decreases fields@,
{
    let ghost b0 = buf@;
    let ghost ms = field_models(fields@);
    let mut i: usize = 0;
    assert(ms.skip(0) =~= ms);
    while i < fields.len()
        invariant
            ms == field_models(fields@),
            i <= fields@.len(),
            buf@ + enc_fields(ms.skip(i as int)) == b0 + enc_fields(ms),
        decreases fields@.len() - i,
    {
        let ghost before = buf@;
        push_blob(buf, fields[i].0.as_str().as_bytes());
        encode(&fields[i].1, buf);
        proof {
            let rest = ms.skip(i as int);
            assert(rest[0] == (fields@[i as int].0@, fields@[i as int].1.model()));
            assert(rest.subrange(1, rest.len() as int) =~= ms.skip(i + 1));
            assert(buf@ + enc_fields(ms.skip(i + 1)) =~= before + enc_fields(rest));
        }
        i = i + 1;
    }
    proof {
        assert(ms.skip(i as int).len() == 0);
        assert(buf@ + enc_fields(ms.skip(i as int)) =~= buf@);
    }
}

/// Convenience: encode a value into a new Vec.
pub fn encode_to_vec(value: &Value) -> (r: Vec<u8>)
    ensures
        r@ == enc(value.model()),
{
    let mut buf: Vec<u8> = Vec::new();
    encode(value, &mut buf);
    assert(buf@ =~= enc(value.model()));
    buf
}

// ── Encoded size ────────────────────────────────────────────────────────

/// Computes the encoded byte size of a value without allocating.
pub fn encoded_size(value: &Value) -> (r: usize)
    requires
        enc(value.model()).len() <= usize::MAX,
    ensures
        r == enc(value.model()).len(),
    decreases value,
{
    proof {
        match value.model() {
            ValueM::Integer(n) => lemma_le_bytes_len((n as u64) as nat, 8),
            ValueM::Float(f) => lemma_le_bytes_len(f as nat, 8),
            ValueM::String(s) => lemma_le_bytes_len(encode_utf8(s).len(), 4),
            ValueM::Bytes(b) => lemma_le_bytes_len(b.len(), 4),
            ValueM::Array(a) => lemma_le_bytes_len(a.len(), 4),
            ValueM::Object(o) => lemma_le_bytes_len(o.len(), 4),
            ValueM::Ref(c, id) => {
                lemma_le_bytes_len(encode_utf8(c).len(), 4);
                lemma_be_bytes_len(id as nat, 16);
            },
            ValueM::Tombstone { deleted_at_hlc, vector_clock } => {
                lemma_le_bytes_len(deleted_at_hlc as nat, 8);
                lemma_le_bytes_len(vector_clock.len(), 4);
            },
            ValueM::Crdt { kind, payload } => lemma_le_bytes_len(payload.len(), 4),
            _ => {},
        }
    }
    match value {
        Value::Null => 1,
        Value::Bool(_) => 2,
        Value::Integer(_) => 9,
        Value::Float(_) => 9,
        Value::String(s) => 1 + 4 + s.as_str().as_bytes().len(),
        Value::Bytes(b) => 1 + 4 + b.len(),
        Value::Array(a) => 1 + 4 + items_size(a),
        Value::Object(o) => 1 + 4 + fields_size(o),
        Value::Ref(c, _) => 1 + 4 + c.as_str().as_bytes().len() + 16,
        Value::Tombstone { vector_clock, .. } => 1 + 8 + 4 + vector_clock.len(),
        Value::Crdt { payload, .. } => 1 + 1 + 4 + payload.len(),
    }
}

fn items_size(items: &Vec<Value>) -> (r: usize)
    requires
        enc_items(models(items@)).len() <= usize::MAX,
    ensures
        r == enc_items(models(items@)).len(),
    decreases items@,
{
    let ghost ms = models(items@);
    let mut total: usize = 0;
    let mut i: usize = 0;
    assert(ms.skip(0) =~= ms);
    while i < items.len()
        invariant
            ms == models(items@),
            i <= items@.len(),
            enc_items(ms).len() <= usize::MAX,
            total + enc_items(ms.skip(i as int)).len() == enc_items(ms).len(),
        decreases items@.len() - i,
    {
        proof {
            let rest = ms.skip(i as int);
            assert(rest[0] == items@[i as int].model());
            assert(rest.subrange(1, rest.len() as int) =~= ms.skip(i + 1));
        }
        total = total + encoded_size(&items[i]);
        i = i + 1;
    }
    total
}

fn fields_size(fields: &Vec<(String, Value)>) -> (r: usize)
    requires
        enc_fields(field_models(fields@)).len() <= usize::MAX,
    ensures
        r == enc_fields(field_models(fields@)).len(),
    decreases fields@,
{
    let ghost ms = field_models(fields@);
    let mut total: usize = 0;
    let mut i: usize = 0;
    assert(ms.skip(0) =~= ms);
    while i < fields.len()
        invariant
            ms == field_models(fields@),
            i <= fields@.len(),
            enc_fields(ms).len() <= usize::MAX,
            total + enc_fields(ms.skip(i as int)).len() == enc_fields(ms).len(),
        decreases fields@.len() - i,
    {
        proof {
            let rest = ms.skip(i as int);
            assert(rest[0] == (fields@[i as int].0@, fields@[i as int].1.model()));
            assert(rest.subrange(1, rest.len() as int) =~= ms.skip(i + 1));
            lemma_le_bytes_len(encode_utf8(rest[0].0).len(), 4);
        }
        total = total + 4 + fields[i].0.as_str().as_bytes().len() + encoded_size(&fields[i].1);
        i = i + 1;
    }
    total
}

// ── Decode ──────────────────────────────────────────────────────────────

/// `String::from_utf8`: succeeds exactly on UTF-8 bytes, with the text that
/// they encode; the description of a failure depends on the bytes alone.
#[verifier::external_body]
fn string_from_utf8(v: Vec<u8>) -> (r: std::result::Result<String, String>)
    ensures
        match r {
            Ok(s) => valid_utf8(v@) && s@ == decode_utf8(v@),
            Err(m) => !valid_utf8(v@) && m@ == utf8_failure(v@),
        },
{
    match String::from_utf8(v) {
        Ok(s) => Ok(s),
        Err(e) => Err(e.to_string()),
    }
}

/// Why reading stopped, and where.
#[derive(Debug)]
pub struct Stopped {
    pub why: String,
    pub at: usize,
}

impl Stopped {
    /// What reading gave.
    pub open spec fn parsed<T>(self, data: Seq<u8>) -> Parsed<T> {
        Parsed::Bad(self.why@, data.skip(self.at as int))
    }
}

/// Something that was read and the position behind it, or where reading
/// stopped.
pub type Read<T> = std::result::Result<(T, usize), Stopped>;

/// The outcome `r` of reading at `pos` is `p`: on success the value and the
/// new position, on failure the text and where reading stopped.
pub open spec fn agrees(data: Seq<u8>, pos: int, r: Read<Value>, p: Parsed<ValueM>) -> bool {
    match r {
        Ok(t) => pos < t.1 <= data.len() && p == Parsed::Good(t.0.model(), data.skip(t.1 as int)),
        Err(e) => pos <= e.at <= data.len() && p == e.parsed::<ValueM>(data),
    }
}

fn stopped(m: &str, at: usize) -> (r: Stopped)
    ensures
        r.why@ == m@,
        r.at == at,
{
    Stopped { why: owned(m), at }
}

fn take_len(
    data: &[u8],
    pos: usize,
    max: u32,
    before: &str,
    after: &str,
) -> (r: Read<usize>)
    requires
        pos <= data@.len(),
    ensures
        match r {
            Ok(t) => pos + 4 == t.1 && t.1 <= data@.len() && t.0 <= max && read_len(
                data@.skip(pos as int),
                max as nat,
                before@,
                after@,
            ) == Parsed::Good(t.0 as nat, data@.skip(t.1 as int)),
            Err(e) => pos <= e.at <= data@.len() && read_len(
                data@.skip(pos as int),
                max as nat,
                before@,
                after@,
            ) == e.parsed::<nat>(data@),
        },
{
    let ghost s = data@.skip(pos as int);
    if data.len() - pos < 4 {
        return Err(stopped("unexpected end of data reading u32", pos));
    }
    let n: u32 = get_u32(data, pos);
    proof {
        assert(s.subrange(0, 4) =~= data@.subrange(pos as int, pos + 4));
        assert(s.skip(4) =~= data@.skip(pos + 4));
    }
    if n > max {
        return Err(Stopped { why: numbered(before, n as u64, after), at: pos + 4 });
    }
    Ok((n as usize, pos + 4))
}

fn take_blob(data: &[u8], pos: usize, len: usize) -> (r: Read<Vec<u8>>)
    requires
        pos <= data@.len(),
    ensures
        match r {
            Ok(t) => pos + len == t.1 && t.1 <= data@.len() && t.0@.len() == len && read_blob(
                data@.skip(pos as int),
                len as nat,
            ) == Parsed::Good(t.0@, data@.skip(t.1 as int)),
            Err(e) => pos <= e.at <= data@.len() && read_blob(data@.skip(pos as int), len as nat)
                == e.parsed::<Seq<u8>>(data@),
        },
{
    let ghost s = data@.skip(pos as int);
    let have: usize = data.len() - pos;
    if have < len {
        let mut m: String = owned("unexpected end of data: need ");
        append_decimal(&mut m, len as u64);
        m.append(" bytes, have ");
        append_decimal(&mut m, have as u64);
        return Err(Stopped { why: m, at: pos });
    }
    let v: Vec<u8> = to_vec(&data[pos..pos + len]);
    proof {
        assert(v@ =~= s.take(len as int));
        assert(s.skip(len as int) =~= data@.skip(pos + len));
    }
    Ok((v, pos + len))
}

fn take_text(data: &[u8], pos: usize, len: usize) -> (r: Read<String>)
    requires
        pos <= data@.len(),
    ensures
        match r {
            Ok(t) => pos + len == t.1 && t.1 <= data@.len() && read_text(
                data@.skip(pos as int),
                len as nat,
            ) == Parsed::Good(t.0@, data@.skip(t.1 as int)),
            Err(e) => pos <= e.at <= data@.len() && read_text(data@.skip(pos as int), len as nat)
                == e.parsed::<Seq<char>>(data@),
        },
{
    match take_blob(data, pos, len) {
        Err(e) => Err(e),
        Ok((v, next)) => match string_from_utf8(v) {
            Ok(s) => Ok((s, next)),
            Err(why) => {
                let mut m: String = owned("invalid UTF-8: ");
                m.append(why.as_str());
                Err(Stopped { why: m, at: next })
            },
        },
    }
}

fn take_u64(data: &[u8], pos: usize, msg: &str) -> (r: Read<u64>)
    requires
        pos <= data@.len(),
    ensures
        match r {
            Ok(t) => pos + 8 == t.1 && t.1 <= data@.len() && read_num(
                data@.skip(pos as int),
                8,
                msg@,
            ) == Parsed::Good(t.0 as nat, data@.skip(t.1 as int)),
            Err(e) => pos <= e.at <= data@.len() && read_num(data@.skip(pos as int), 8, msg@)
                == e.parsed::<nat>(data@),
        },
{
    let ghost s = data@.skip(pos as int);
    if data.len() - pos < 8 {
        return Err(stopped(msg, pos));
    }
    proof {
        assert(s.subrange(0, 8) =~= data@.subrange(pos as int, pos + 8));
        assert(s.skip(8) =~= data@.skip(pos + 8));
    }
    Ok((get_u64(data, pos), pos + 8))
}

/// Decodes a value from a byte slice; what follows it is ignored.
pub fn decode(data: &[u8]) -> (r: Result<Value>)
    ensures
        match r {
            Ok(v) => parse_value(data@, 0) matches Parsed::Good(m, _) && m == v.model(),
            Err(e) => e is Codec && (parse_value(data@, 0) matches Parsed::Bad(m, _) && m == (
            e->Codec_0)@),
        },
        r is Ok ==> value_wf(r->Ok_0.model()),
{
    assert(data@.skip(0) =~= data@);
    proof {
        lemma_parse_wf(data@, 0);
    }
    match decode_recursive(data, 0, 0) {
        Ok((v, _)) => Ok(v),
        Err(e) => Err(GrumpyError::Codec(e.why)),
    }
}

/// Decodes a value at the front of a cursor and moves the cursor behind it. A
/// cursor on which decoding fails is left where reading stopped.
pub fn decode_from_cursor(cursor: &mut &[u8]) -> (r: Result<Value>)
    ensures
        match r {
            Ok(v) => parse_value((*old(cursor))@, 0) == Parsed::Good(
                v.model(),
                (*final(cursor))@,
            ),
            Err(e) => e is Codec && parse_value((*old(cursor))@, 0) == Parsed::<ValueM>::Bad(
                (e->Codec_0)@,
                (*final(cursor))@,
            ),
        },
        r is Ok ==> value_wf(r->Ok_0.model()),
{
    let data: &[u8] = *cursor;
    assert(data@.skip(0) =~= data@);
    proof {
        lemma_parse_wf(data@, 0);
    }
    match decode_recursive(data, 0, 0) {
        Ok((v, next)) => {
            *cursor = &data[next..data.len()];
            Ok(v)
        },
        Err(e) => {
            *cursor = &data[e.at..data.len()];
            Err(GrumpyError::Codec(e.why))
        },
    }
}

/// Reads the value at `pos`, `depth` levels deep.
#[verifier::rlimit(60)]
pub fn decode_recursive(data: &[u8], pos: usize, depth: usize) -> (r: Read<Value>)
    requires
        pos <= data@.len(),
    ensures
        agrees(data@, pos as int, r, parse_value(data@.skip(pos as int), depth as nat)),
    decreases data@.len() - pos, 0nat,
{
    let ghost s = data@.skip(pos as int);
    if depth > MAX_NESTING_DEPTH {
        return Err(stopped("nesting depth exceeds maximum (64)", pos));
    }
    if pos == data.len() {
        return Err(stopped("unexpected end of data", pos));
    }
    let tag: u8 = data[pos];
    let at: usize = pos + 1;
    proof {
        assert(s[0] == tag);
        assert(s.skip(1) =~= data@.skip(at as int));
    }
    if tag == TAG_NULL {
        return Ok((Value::Null, at));
    }
    if tag == TAG_BOOL {
        if at == data.len() {
            return Err(stopped("unexpected end of data", at));
        }
        let b: u8 = data[at];
        assert(data@.skip(at as int).skip(1) =~= data@.skip(at + 1));
        return Ok((Value::Bool(b != 0), at + 1));
    }
    if tag == TAG_INTEGER {
        return match take_u64(data, at, "unexpected end of data reading i64") {
            Ok((n, next)) => Ok((Value::Integer(n as i64), next)),
            Err(e) => Err(e),
        };
    }
    if tag == TAG_FLOAT {
        return match take_u64(data, at, "unexpected end of data reading f64") {
            Ok((n, next)) => Ok((Value::Float(n), next)),
            Err(e) => Err(e),
        };
    }
    if tag == TAG_STRING {
        return match take_len(
            data,
            at,
            MAX_BLOB_LEN,
            "string length ",
            " exceeds maximum (16777216)",
        ) {
            Err(e) => Err(e),
            Ok((len, next)) => match take_text(data, next, len) {
                Err(e) => Err(e),
                Ok((x, end)) => Ok((Value::String(x), end)),
            },
        };
    }
    if tag == TAG_BYTES {
        return match take_len(
            data,
            at,
            MAX_BLOB_LEN,
            "bytes length ",
            " exceeds maximum (16777216)",
        ) {
            Err(e) => Err(e),
            Ok((len, next)) => match take_blob(data, next, len) {
                Err(e) => Err(e),
                Ok((x, end)) => Ok((Value::Bytes(x), end)),
            },
        };
    }
    if tag == TAG_ARRAY {
        return match take_len(
            data,
            at,
            MAX_ARRAY_LEN,
            "array length ",
            " exceeds maximum (1000000)",
        ) {
            Err(e) => Err(e),
            Ok((n, next)) => match decode_items(data, next, n, depth + 1) {
                Err(e) => Err(e),
                Ok((x, end)) => Ok((Value::Array(x), end)),
            },
        };
    }
    if tag == TAG_OBJECT {
        return match take_len(
            data,
            at,
            MAX_OBJECT_KEYS,
            "object key count ",
            " exceeds maximum (100000)",
        ) {
            Err(e) => Err(e),
            Ok((n, next)) => match decode_fields(data, next, n, depth + 1) {
                Err(e) => Err(e),
                Ok((x, end)) => Ok((Value::Object(x), end)),
            },
        };
    }
    if tag == TAG_REF {
        return match take_len(
            data,
            at,
            MAX_REF_NAME_LEN,
            "ref collection name length ",
            " exceeds maximum (64)",
        ) {
            Err(e) => Err(e),
            Ok((len, next)) => match take_text(data, next, len) {
                Err(e) => Err(e),
                Ok((c, mid)) => match take_blob(data, mid, 16) {
                    Err(e) => Err(e),
                    Ok((id, end)) => Ok((Value::Ref(c, Uuid::from_bytes(id.as_slice())), end)),
                },
            },
        };
    }
    if tag == TAG_TOMBSTONE {
        return match take_u64(data, at, "unexpected end of data reading tombstone HLC") {
            Err(e) => Err(e),
            Ok((hlc, next)) => match take_len(
                data,
                next,
                MAX_TOMBSTONE_VCLOCK_LEN,
                "tombstone vector clock length ",
                " exceeds maximum (131072)",
            ) {
                Err(e) => Err(e),
                Ok((len, mid)) => match take_blob(data, mid, len) {
                    Err(e) => Err(e),
                    Ok((vc, end)) => Ok(
                        (Value::Tombstone { deleted_at_hlc: hlc, vector_clock: vc }, end),
                    ),
                },
            },
        };
    }
    if tag == TAG_CRDT {
        if at == data.len() {
            return Err(stopped("unexpected end of data", at));
        }
        let kind_tag: u8 = data[at];
        assert(data@.skip(at as int).skip(1) =~= data@.skip(at + 1));
        return match CrdtKind::from_tag(kind_tag) {
            None => {
                let mut m: String = owned("unknown CRDT kind tag: ");
                append_decimal(&mut m, kind_tag as u64);
                Err(Stopped { why: m, at: at + 1 })
            },
            Some(kind) => match take_len(
                data,
                at + 1,
                MAX_CRDT_PAYLOAD_LEN,
                "CRDT payload length ",
                " exceeds maximum (16777216)",
            ) {
                Err(e) => Err(e),
                Ok((len, mid)) => match take_blob(data, mid, len) {
                    Err(e) => Err(e),
                    Ok((payload, end)) => Ok((Value::Crdt { kind, payload }, end)),
                },
            },
        };
    }
    let mut m: String = owned("unknown type tag: 0x");
    append_hex(&mut m, tag as u64, 2);
    Err(Stopped { why: m, at })
}

/// What was read before, put in front of what is still to be read.
pub open spec fn after_items(acc: Seq<ValueM>, p: Parsed<Seq<ValueM>>) -> Parsed<Seq<ValueM>> {
    match p {
        Parsed::Bad(m, z) => Parsed::Bad(m, z),
        Parsed::Good(vs, q) => Parsed::Good(acc + vs, q),
    }
}

/// What was read before, put in front of what is still to be read.
pub open spec fn after_fields(acc: FieldsM, p: Parsed<FieldsM>) -> Parsed<FieldsM> {
    match p {
        Parsed::Bad(m, z) => Parsed::Bad(m, z),
        Parsed::Good(vs, q) => Parsed::Good(acc + vs, q),
    }
}

fn decode_items(data: &[u8], pos: usize, n: usize, depth: usize) -> (r: Read<
    Vec<Value>,
>)
    requires
        pos <= data@.len(),
        depth <= MAX_NESTING_DEPTH + 1,
    ensures
        match r {
            Ok(t) => pos <= t.1 <= data@.len() && parse_items(
                data@.skip(pos as int),
                n as nat,
                depth as nat,
            ) == Parsed::Good(models(t.0@), data@.skip(t.1 as int)),
            Err(e) => pos <= e.at <= data@.len() && parse_items(
                data@.skip(pos as int),
                n as nat,
                depth as nat,
            ) == e.parsed::<Seq<ValueM>>(data@),
        },
    decreases data@.len() - pos, 1nat,
{
    let ghost goal = parse_items(data@.skip(pos as int), n as nat, depth as nat);
    let mut out: Vec<Value> = Vec::new();
    let mut cur: usize = pos;
    let mut i: usize = 0;
    proof {
        assert(models(out@) =~= Seq::<ValueM>::empty());
        match goal {
            Parsed::Good(vs, q) => {
                assert(Seq::<ValueM>::empty() + vs =~= vs);
            },
            _ => {},
        }
    }
    while i < n
        invariant
            i <= n,
            pos <= cur <= data@.len(),
            depth <= MAX_NESTING_DEPTH + 1,
            goal == after_items(
                models(out@),
                parse_items(data@.skip(cur as int), (n - i) as nat, depth as nat),
            ),
            goal == parse_items(data@.skip(pos as int), n as nat, depth as nat),
        decreases n - i,
    {
        let ghost acc = models(out@);
        let ghost s = data@.skip(cur as int);
        match decode_recursive(data, cur, depth) {
            Err(e) => {
                return Err(e);
            },
            Ok((v, next)) => {
                proof {
                    let m = v.model();
                    assert(data@.skip(next as int).len() < s.len());
                    match parse_items(
                        data@.skip(next as int),
                        (n - i - 1) as nat,
                        depth as nat,
                    ) {
                        Parsed::Good(vs, q) => {
                            assert(acc + (seq![m] + vs) =~= acc.push(m) + vs);
                        },
                        _ => {},
                    }
                }
                let ghost o0 = out@;
                out.push(v);
                assert(models(out@) =~= acc.push(v.model()));
                cur = next;
            },
        }
        i = i + 1;
    }
    assert(models(out@) + Seq::<ValueM>::empty() =~= models(out@));
    Ok((out, cur))
}

fn decode_fields(data: &[u8], pos: usize, n: usize, depth: usize) -> (r: Read<
    Vec<(String, Value)>,
>)
    requires
        pos <= data@.len(),
        depth <= MAX_NESTING_DEPTH + 1,
    ensures
        match r {
            Ok(t) => pos <= t.1 <= data@.len() && (parse_fields(
                data@.skip(pos as int),
                n as nat,
                depth as nat,
            ) matches Parsed::Good(x, q) && field_models(t.0@) == assigned(x) && q == data@.skip(
                t.1 as int,
            )),
            Err(e) => pos <= e.at <= data@.len() && parse_fields(
                data@.skip(pos as int),
                n as nat,
                depth as nat,
            ) == e.parsed::<FieldsM>(data@),
        },
    decreases data@.len() - pos, 1nat,
{
    let ghost goal = parse_fields(data@.skip(pos as int), n as nat, depth as nat);
    let mut out: Vec<(String, Value)> = Vec::new();
    let ghost mut raw: FieldsM = Seq::empty();
    let mut cur: usize = pos;
    let mut i: usize = 0;
    proof {
        assert(field_models(out@) =~= assigned(raw));
        match goal {
            Parsed::Good(vs, q) => {
                assert(raw + vs =~= vs);
            },
            _ => {},
        }
    }
    while i < n
        invariant
            i <= n,
            pos <= cur <= data@.len(),
            depth <= MAX_NESTING_DEPTH + 1,
            field_models(out@) == assigned(raw),
            goal == after_fields(
                raw,
                parse_fields(data@.skip(cur as int), (n - i) as nat, depth as nat),
            ),
            goal == parse_fields(data@.skip(pos as int), n as nat, depth as nat),
        decreases n - i,
    {
        let ghost s = data@.skip(cur as int);
        let (len, at) = match take_len(
            data,
            cur,
            MAX_BLOB_LEN,
            "object key length ",
            " exceeds maximum (16777216)",
        ) {
            Ok(t) => t,
            Err(e) => {
                return Err(e);
            },
        };
        let (key, mid) = match take_text(data, at, len) {
            Ok(t) => t,
            Err(e) => {
                return Err(e);
            },
        };
        match decode_recursive(data, mid, depth) {
            Err(e) => {
                return Err(e);
            },
            Ok((v, next)) => {
                proof {
                    let kv = (key@, v.model());
                    assert(data@.skip(next as int).len() < s.len());
                    match parse_fields(
                        data@.skip(next as int),
                        (n - i - 1) as nat,
                        depth as nat,
                    ) {
                        Parsed::Good(vs, q) => {
                            assert(raw + (seq![kv] + vs) =~= raw.push(kv) + vs);
                        },
                        _ => {},
                    }
                    lemma_assigned_is_sorted(raw);
                    assert(raw.push(kv).drop_last() =~= raw);
                    raw = raw.push(kv);
                }
                put_field(&mut out, key, v);
                cur = next;
            },
        }
        i = i + 1;
    }
    assert(raw + Seq::empty() =~= raw);
    Ok((out, cur))
}

// ── Laws ────────────────────────────────────────────────────────────────

/// What is read is well-formed, and something was consumed.
pub proof fn lemma_parse_wf(s: Seq<u8>, depth: nat)
    ensures
        parse_value(s, depth) matches Parsed::Good(m, r) ==> value_wf(m) && r.len() < s.len(),
    decreases s.len(), 0nat,
{
    if depth <= MAX_NESTING_DEPTH && s.len() > 0 {
        let t = s.skip(1);
        if s[0] == TAG_ARRAY {
            match read_len(
                t,
                MAX_ARRAY_LEN as nat,
                "array length "@,
                " exceeds maximum (1000000)"@,
            ) {
                Parsed::Good(n, r) => {
                    lemma_parse_items_wf(r, n, depth + 1);
                },
                _ => {},
            }
        } else if s[0] == TAG_OBJECT {
            match read_len(
                t,
                MAX_OBJECT_KEYS as nat,
                "object key count "@,
                " exceeds maximum (100000)"@,
            ) {
                Parsed::Good(n, r) => {
                    lemma_parse_fields_wf(r, n, depth + 1);
                },
                _ => {},
            }
        }
    }
}

proof fn lemma_parse_items_wf(s: Seq<u8>, n: nat, depth: nat)
    ensures
        parse_items(s, n, depth) matches Parsed::Good(x, r) ==> {
            &&& x.len() == n
            &&& r.len() <= s.len()
            &&& forall|i: int| 0 <= i < x.len() ==> value_wf(#[trigger] x[i])
        },
    decreases s.len(), 1nat,
{
    if n > 0 {
        lemma_parse_wf(s, depth);
        match parse_value(s, depth) {
            Parsed::Good(v, r) => {
                lemma_parse_items_wf(r, (n - 1) as nat, depth);
            },
            _ => {},
        }
    }
}

proof fn lemma_assigned_wf(pairs: FieldsM)
    requires
        forall|i: int| 0 <= i < pairs.len() ==> value_wf((#[trigger] pairs[i]).1),
    ensures
        forall|i: int| 0 <= i < assigned(pairs).len() ==> value_wf((#[trigger] assigned(pairs)[i]).1),
    decreases pairs.len(),
{
    if pairs.len() > 0 {
        let f = pairs.drop_last();
        assert forall|i: int| 0 <= i < f.len() implies value_wf((#[trigger] f[i]).1) by {
            assert(f[i] == pairs[i]);
        }
        lemma_assigned_wf(f);
        lemma_assigned_is_sorted(f);
        let o = assigned(f);
        let k = pairs.last().0;
        let v = pairs.last().1;
        crate::document::value::lemma_field_rank(o, k);
        let p = crate::document::value::field_rank(o, k);
        let w = assigned(pairs);
        assert(pairs[pairs.len() - 1] == pairs.last());
        assert forall|i: int| 0 <= i < w.len() implies value_wf((#[trigger] w[i]).1) by {
            if p < o.len() && o[p].0 == k {
                if i != p {
                    assert(w[i] == o[i]);
                }
            } else if i < p {
                assert(w[i] == o[i]);
            } else if i > p {
                assert(w[i] == o[i - 1]);
            }
        }
    }
}

proof fn lemma_parse_fields_wf(s: Seq<u8>, n: nat, depth: nat)
    ensures
        parse_fields(s, n, depth) matches Parsed::Good(x, r) ==> {
            &&& r.len() <= s.len()
            &&& fields_sorted(assigned(x))
            &&& forall|i: int| 0 <= i < x.len() ==> value_wf((#[trigger] x[i]).1)
            &&& value_wf(ValueM::Object(assigned(x)))
        },
    decreases s.len(), 1nat,
{
    if n > 0 {
        match read_len(s, MAX_BLOB_LEN as nat, "object key length "@, " exceeds maximum (16777216)"@) {
            Parsed::Good(len, t) => match read_text(t, len) {
                Parsed::Good(k, u) => {
                    lemma_parse_wf(u, depth);
                    match parse_value(u, depth) {
                        Parsed::Good(v, r) => {
                            lemma_parse_fields_wf(r, (n - 1) as nat, depth);
                            match parse_fields(r, (n - 1) as nat, depth) {
                                Parsed::Good(vs, q) => {
                                    let x = seq![(k, v)] + vs;
                                    assert forall|i: int| 0 <= i < x.len() implies value_wf(
                                        (#[trigger] x[i]).1,
                                    ) by {
                                        if i > 0 {
                                            assert(x[i] == vs[i - 1]);
                                        }
                                    }
                                    lemma_assigned_wf(x);
                                    lemma_assigned_is_sorted(x);
                                },
                                _ => {},
                            }
                        },
                        _ => {},
                    }
                },
                _ => {},
            },
            _ => {},
        }
    } else {
        lemma_assigned_is_sorted(Seq::empty());
    }
}

/// The value respects the limits of the decoder and its fields are sorted.
pub open spec fn encodable(m: ValueM, depth: nat) -> bool
    decreases m,
{
    &&& depth <= MAX_NESTING_DEPTH
    &&& match m {
        ValueM::String(s) => encode_utf8(s).len() <= MAX_BLOB_LEN,
        ValueM::Bytes(b) => b.len() <= MAX_BLOB_LEN,
        ValueM::Array(items) => {
            &&& items.len() <= MAX_ARRAY_LEN
            &&& forall|i: int| 0 <= i < items.len() ==> encodable(#[trigger] items[i], depth + 1)
        },
        ValueM::Object(fields) => {
            &&& fields.len() <= MAX_OBJECT_KEYS
            &&& fields_sorted(fields)
            &&& forall|i: int|
                0 <= i < fields.len() ==> encode_utf8((#[trigger] fields[i]).0).len()
                    <= MAX_BLOB_LEN && encodable(fields[i].1, depth + 1)
        },
        ValueM::Ref(c, id) => encode_utf8(c).len() <= MAX_REF_NAME_LEN,
        ValueM::Tombstone { deleted_at_hlc, vector_clock } => vector_clock.len()
            <= MAX_TOMBSTONE_VCLOCK_LEN,
        ValueM::Crdt { kind, payload } => payload.len() <= MAX_CRDT_PAYLOAD_LEN,
        _ => true,
    }
}

proof fn lemma_num_back(x: nat, n: nat, rest: Seq<u8>, msg: Seq<char>)
    requires
        x < crate::bytes::pow256(n),
    ensures
        read_num(le_bytes(x, n) + rest, n, msg) == Parsed::Good(x, rest),
{
    lemma_le_round_trip(x, n);
    let s = le_bytes(x, n) + rest;
    assert(s.subrange(0, n as int) =~= le_bytes(x, n));
    assert(s.skip(n as int) =~= rest);
}

proof fn lemma_len_back(
    b: Seq<u8>,
    rest: Seq<u8>,
    max: nat,
    before: Seq<char>,
    after: Seq<char>,
)
    requires
        b.len() <= max,
        max < 0x1_0000_0000,
    ensures
        read_len(enc_blob(b) + rest, max, before, after) == Parsed::Good(b.len(), b + rest),
        read_blob(b + rest, b.len()) == Parsed::Good(b, rest),
{
    lemma_pow256_values();
    assert(enc_blob(b) + rest =~= le_bytes(b.len(), 4) + (b + rest));
    lemma_num_back(b.len(), 4, b + rest, "unexpected end of data reading u32"@);
    assert((b + rest).take(b.len() as int) =~= b);
    assert((b + rest).skip(b.len() as int) =~= rest);
}

proof fn lemma_text_back(t: Seq<char>, rest: Seq<u8>)
    ensures
        read_text(encode_utf8(t) + rest, encode_utf8(t).len()) == Parsed::Good(t, rest),
{
    let b = encode_utf8(t);
    vstd::utf8::encode_utf8_valid_utf8(t);
    vstd::utf8::encode_utf8_decode_utf8(t);
    assert((b + rest).take(b.len() as int) =~= b);
    assert((b + rest).skip(b.len() as int) =~= rest);
}

/// The same of values without others in them.
#[verifier::rlimit(40)]
proof fn lemma_scalar_back(m: ValueM, rest: Seq<u8>, depth: nat)
    requires
        encodable(m, depth),
        m is Null || m is Bool || m is Integer || m is Float || m is String || m is Bytes,
    ensures
        parse_value(enc(m) + rest, depth) == Parsed::Good(m, rest),
{
    lemma_pow256_values();
    let e = enc(m) + rest;
    match m {
        ValueM::Null => {
            assert(e.skip(1) =~= rest);
        },
        ValueM::Bool(b) => {
            assert(e.skip(1).skip(1) =~= rest);
        },
        ValueM::Integer(n) => {
            let x = n as u64;
            assert(e.skip(1) =~= le_bytes(x as nat, 8) + rest);
            lemma_num_back(x as nat, 8, rest, "unexpected end of data reading i64"@);
            assert((n as u64) as i64 == n) by (bit_vector);
        },
        ValueM::Float(f) => {
            assert(e.skip(1) =~= le_bytes(f as nat, 8) + rest);
            lemma_num_back(f as nat, 8, rest, "unexpected end of data reading f64"@);
        },
        ValueM::String(s) => {
            let b = encode_utf8(s);
            assert(e.skip(1) =~= enc_blob(b) + rest);
            lemma_len_back(
                b,
                rest,
                MAX_BLOB_LEN as nat,
                "string length "@,
                " exceeds maximum (16777216)"@,
            );
            lemma_text_back(s, rest);
        },
        ValueM::Bytes(b) => {
            assert(e.skip(1) =~= enc_blob(b) + rest);
            lemma_len_back(
                b,
                rest,
                MAX_BLOB_LEN as nat,
                "bytes length "@,
                " exceeds maximum (16777216)"@,
            );
        },
        _ => {},
    }
}

/// The same of a reference.
#[verifier::rlimit(40)]
proof fn lemma_reference_back(m: ValueM, rest: Seq<u8>, depth: nat)
    requires
        encodable(m, depth),
        m is Ref,
    ensures
        parse_value(enc(m) + rest, depth) == Parsed::Good(m, rest),
{
    lemma_pow256_values();
    let e = enc(m) + rest;
    match m {
        ValueM::Ref(c, id) => {
            let b = encode_utf8(c);
            let idb = be_bytes(id as nat, 16);
            lemma_be_round_trip(id as nat, 16);
            assert(e.skip(1) =~= enc_blob(b) + (idb + rest));
            lemma_len_back(
                b,
                idb + rest,
                MAX_REF_NAME_LEN as nat,
                "ref collection name length "@,
                " exceeds maximum (64)"@,
            );
            lemma_text_back(c, idb + rest);
            assert((idb + rest).take(16) =~= idb);
            assert((idb + rest).skip(16) =~= rest);
        },
        _ => {},
    }
}

/// The same of a tombstone.
#[verifier::rlimit(40)]
proof fn lemma_tombstone_back(m: ValueM, rest: Seq<u8>, depth: nat)
    requires
        encodable(m, depth),
        m is Tombstone,
    ensures
        parse_value(enc(m) + rest, depth) == Parsed::Good(m, rest),
{
    lemma_pow256_values();
    let e = enc(m) + rest;
    match m {
        ValueM::Tombstone { deleted_at_hlc, vector_clock } => {
            let tail = enc_blob(vector_clock) + rest;
            assert(e.skip(1) =~= le_bytes(deleted_at_hlc as nat, 8) + tail);
            lemma_num_back(
                deleted_at_hlc as nat,
                8,
                tail,
                "unexpected end of data reading tombstone HLC"@,
            );
            lemma_len_back(
                vector_clock,
                rest,
                MAX_TOMBSTONE_VCLOCK_LEN as nat,
                "tombstone vector clock length "@,
                " exceeds maximum (131072)"@,
            );
        },
        _ => {},
    }
}

/// The same of a CRDT.
#[verifier::rlimit(40)]
proof fn lemma_crdt_back(m: ValueM, rest: Seq<u8>, depth: nat)
    requires
        encodable(m, depth),
        m is Crdt,
    ensures
        parse_value(enc(m) + rest, depth) == Parsed::Good(m, rest),
{
    lemma_pow256_values();
    let e = enc(m) + rest;
    match m {
        ValueM::Crdt { kind, payload } => {
            assert(e.skip(1)[0] == kind.tag());
            assert(e.skip(1).skip(1) =~= enc_blob(payload) + rest);
            lemma_len_back(
                payload,
                rest,
                MAX_CRDT_PAYLOAD_LEN as nat,
                "CRDT payload length "@,
                " exceeds maximum (16777216)"@,
            );
        },
        _ => {},
    }
}

/// Decoding gives back what was encoded, whatever follows it.
#[verifier::rlimit(60)]
pub proof fn law_codec_round_trip(m: ValueM, rest: Seq<u8>, depth: nat)
    requires
        encodable(m, depth),
    ensures
        parse_value(enc(m) + rest, depth) == Parsed::Good(m, rest),
    decreases m, 0nat,
{
    lemma_pow256_values();
    let e = enc(m) + rest;
    match m {
        ValueM::Array(items) => {
            let tail = enc_items(items) + rest;
            assert(e.skip(1) =~= le_bytes(items.len(), 4) + tail);
            lemma_num_back(items.len(), 4, tail, "unexpected end of data reading u32"@);
            lemma_items_back(items, rest, depth + 1);
        },
        ValueM::Object(fields) => {
            let tail = enc_fields(fields) + rest;
            assert(e.skip(1) =~= le_bytes(fields.len(), 4) + tail);
            lemma_num_back(fields.len(), 4, tail, "unexpected end of data reading u32"@);
            lemma_fields_back(fields, rest, depth + 1);
            lemma_assigned_sorted(fields);
        },
        ValueM::Ref(..) => {
            lemma_reference_back(m, rest, depth);
        },
        ValueM::Tombstone { .. } => {
            lemma_tombstone_back(m, rest, depth);
        },
        ValueM::Crdt { .. } => {
            lemma_crdt_back(m, rest, depth);
        },
        _ => {
            lemma_scalar_back(m, rest, depth);
        },
    }
}

proof fn lemma_items_back(items: Seq<ValueM>, rest: Seq<u8>, depth: nat)
    requires
        forall|i: int| 0 <= i < items.len() ==> encodable(#[trigger] items[i], depth),
    ensures
        parse_items(enc_items(items) + rest, items.len(), depth) == Parsed::Good(items, rest),
    decreases items, 1nat,
{
    let e = enc_items(items) + rest;
    if items.len() == 0 {
        assert(e =~= rest);
        assert(items =~= Seq::<ValueM>::empty());
    } else {
        let t = items.subrange(1, items.len() as int);
        let tail = enc_items(t) + rest;
        assert(e =~= enc(items[0]) + tail);
        law_codec_round_trip(items[0], tail, depth);
        assert forall|i: int| 0 <= i < t.len() implies encodable(#[trigger] t[i], depth) by {
            assert(t[i] == items[i + 1]);
        }
        lemma_items_back(t, rest, depth);
        lemma_parse_wf(e, depth);
        assert(seq![items[0]] + t =~= items);
    }
}

#[verifier::rlimit(60)]
proof fn lemma_fields_back(fields: FieldsM, rest: Seq<u8>, depth: nat)
    requires
        forall|i: int|
            0 <= i < fields.len() ==> encode_utf8((#[trigger] fields[i]).0).len() <= MAX_BLOB_LEN
                && encodable(fields[i].1, depth),
    ensures
        parse_fields(enc_fields(fields) + rest, fields.len(), depth) == Parsed::Good(fields, rest),
    decreases fields, 1nat,
{
    let e = enc_fields(fields) + rest;
    if fields.len() == 0 {
        assert(e =~= rest);
        assert(fields =~= Seq::empty());
    } else {
        let t = fields.subrange(1, fields.len() as int);
        let tail = enc_fields(t) + rest;
        let k = fields[0].0;
        let b = encode_utf8(k);
        let v = fields[0].1;
        assert(e =~= enc_blob(b) + (enc(v) + tail));
        lemma_len_back(
            b,
            enc(v) + tail,
            MAX_BLOB_LEN as nat,
            "object key length "@,
            " exceeds maximum (16777216)"@,
        );
        lemma_text_back(k, enc(v) + tail);
        law_codec_round_trip(v, tail, depth);
        lemma_parse_wf(enc(v) + tail, depth);
        assert forall|i: int| 0 <= i < t.len() implies encode_utf8((#[trigger] t[i]).0).len()
            <= MAX_BLOB_LEN && encodable(t[i].1, depth) by {
            assert(t[i] == fields[i + 1]);
        }
        lemma_fields_back(t, rest, depth);
        assert(seq![fields[0]] + t =~= fields);
    }
}

// ── The format in figures ───────────────────────────────────────────────

/// The bytes of values: a tag, then numbers in little-endian order, byte strings
/// and texts behind their lengths, and the parts of arrays and objects behind
/// their counts.
pub proof fn law_value_bytes(m: ValueM)
    ensures
        match m {
            ValueM::Null => enc(m) == seq![0u8],
            ValueM::Bool(b) => enc(m) == (if b {
                seq![1u8, 1u8]
            } else {
                seq![1u8, 0u8]
            }),
            ValueM::Integer(n) => enc(m) == seq![2u8] + le_bytes((n as u64) as nat, 8),
            ValueM::Float(f) => enc(m) == seq![3u8] + le_bytes(f as nat, 8),
            ValueM::String(s) => enc(m) == seq![4u8] + (le_bytes(encode_utf8(s).len(), 4)
                + encode_utf8(s)),
            ValueM::Bytes(b) => enc(m) == seq![5u8] + (le_bytes(b.len(), 4) + b),
            ValueM::Array(items) => enc(m) == seq![6u8] + le_bytes(items.len(), 4) + enc_items(
                items,
            ),
            ValueM::Object(fields) => enc(m) == seq![7u8] + le_bytes(fields.len(), 4) + enc_fields(
                fields,
            ),
            ValueM::Ref(c, id) => enc(m) == seq![8u8] + (le_bytes(encode_utf8(c).len(), 4)
                + encode_utf8(c)) + be_bytes(id as nat, 16),
            ValueM::Tombstone { deleted_at_hlc, vector_clock } => enc(m) == seq![9u8] + le_bytes(
                deleted_at_hlc as nat,
                8,
            ) + (le_bytes(vector_clock.len(), 4) + vector_clock),
            ValueM::Crdt { kind, payload } => enc(m) == seq![10u8, kind.tag()] + (le_bytes(
                payload.len(),
                4,
            ) + payload),
        },
{
}

/// Items and fields stand one behind the other.
pub proof fn law_parts_in_order(
    items: Seq<ValueM>,
    x: ValueM,
    fields: FieldsM,
    name: Seq<char>,
)
    ensures
        enc_items(items.push(x)) == enc_items(items) + enc(x),
        enc_fields(fields.push((name, x))) == enc_fields(fields) + (le_bytes(
            encode_utf8(name).len(),
            4,
        ) + encode_utf8(name)) + enc(x),
{
    lemma_items_pushed(items, x);
    lemma_fields_pushed(fields, name, x);
}

proof fn lemma_items_pushed(items: Seq<ValueM>, x: ValueM)
    ensures
        enc_items(items.push(x)) == enc_items(items) + enc(x),
    decreases items.len(),
{
    let all = items.push(x);
    if items.len() == 0 {
        let none = Seq::<ValueM>::empty();
        assert(all[0] == x);
        assert(all.subrange(1, 1) =~= none);
        assert(enc_items(none) =~= Seq::<u8>::empty());
        assert(enc_items(all) =~= enc_items(items) + enc(x));
    } else {
        let rest = items.subrange(1, items.len() as int);
        lemma_items_pushed(rest, x);
        assert(all[0] == items[0]);
        assert(all.subrange(1, all.len() as int) =~= rest.push(x));
        assert(enc_items(all) =~= enc_items(items) + enc(x));
    }
}

proof fn lemma_fields_pushed(fields: FieldsM, name: Seq<char>, x: ValueM)
    ensures
        enc_fields(fields.push((name, x))) == enc_fields(fields) + (le_bytes(
            encode_utf8(name).len(),
            4,
        ) + encode_utf8(name)) + enc(x),
    decreases fields.len(),
{
    let all = fields.push((name, x));
    let last = enc_blob(encode_utf8(name)) + enc(x);
    if fields.len() == 0 {
        let none = Seq::<(Seq<char>, ValueM)>::empty();
        assert(all[0] == (name, x));
        assert(all.subrange(1, 1) =~= none);
        assert(enc_fields(none) =~= Seq::<u8>::empty());
        assert(enc_fields(all) =~= enc_fields(fields) + enc_blob(encode_utf8(name)) + enc(x));
    } else {
        let rest = fields.subrange(1, fields.len() as int);
        lemma_fields_pushed(rest, name, x);
        assert(all[0] == fields[0]);
        assert(all.subrange(1, all.len() as int) =~= rest.push((name, x)));
        assert(enc_fields(all) =~= enc_fields(fields) + enc_blob(encode_utf8(name)) + enc(x));
    }
}

/// What can be stored and read back: values of up to 64 levels, texts and byte
/// strings of up to 16 MiB, arrays of up to a million items and objects of up to
/// a hundred thousand fields, references to collections with names of up to 64
/// bytes.
pub proof fn law_what_can_be_stored(m: ValueM, depth: nat)
    ensures
        encodable(m, depth) == (depth <= 64 && match m {
            ValueM::String(s) => encode_utf8(s).len() <= 0x100_0000,
            ValueM::Bytes(b) => b.len() <= 0x100_0000,
            ValueM::Array(items) => items.len() <= 1000000 && forall|i: int|
                0 <= i < items.len() ==> encodable(#[trigger] items[i], depth + 1),
            ValueM::Object(fields) => fields.len() <= 100000 && fields_sorted(fields) && forall|
                i: int,
            |
                0 <= i < fields.len() ==> encode_utf8((#[trigger] fields[i]).0).len() <= 0x100_0000
                    && encodable(fields[i].1, depth + 1),
            ValueM::Ref(c, _) => encode_utf8(c).len() <= 64,
            ValueM::Tombstone { vector_clock, .. } => vector_clock.len() <= 131072,
            ValueM::Crdt { payload, .. } => payload.len() <= 0x100_0000,
            _ => true,
        }),
{
}

/// Bytes that end early, start with an unknown tag or lie too deep hold no
/// value.
pub proof fn law_what_is_no_value(s: Seq<u8>, depth: nat)
    ensures
        s.len() == 0 || depth > 64 || s[0] > 10 ==> parse_value(s, depth) is Bad,
        parse_value(s, depth) matches Parsed::Good(m, rest) ==> value_wf(m) && rest.len() < s.len(),
{
    lemma_parse_wf(s, depth);
}

/// What the bytes of a scalar read as, whatever follows them.
pub proof fn law_scalar_bytes(b: u8, n: nat, rest: Seq<u8>, depth: nat)
    requires
        depth <= 64,
        n < 0x1_0000_0000_0000_0000,
    ensures
        parse_value(seq![0u8] + rest, depth) == Parsed::Good(ValueM::Null, rest),
        parse_value(seq![1u8, b] + rest, depth) == Parsed::Good(ValueM::Bool(b != 0), rest),
        parse_value(seq![2u8] + (le_bytes(n, 8) + rest), depth) == Parsed::Good(
            ValueM::Integer((n as u64) as i64),
            rest,
        ),
        parse_value(seq![3u8] + (le_bytes(n, 8) + rest), depth) == Parsed::Good(
            ValueM::Float(n as u64),
            rest,
        ),
{
    lemma_pow256_values();
    lemma_num_back(n, 8, rest, "unexpected end of data reading i64"@);
    lemma_num_back(n, 8, rest, "unexpected end of data reading f64"@);
    assert((seq![0u8] + rest).skip(1) =~= rest);
    let s = seq![1u8, b] + rest;
    assert(s.skip(1) =~= seq![b] + rest);
    assert(s.skip(1).skip(1) =~= rest);
    assert((seq![2u8] + (le_bytes(n, 8) + rest)).skip(1) =~= le_bytes(n, 8) + rest);
    assert((seq![3u8] + (le_bytes(n, 8) + rest)).skip(1) =~= le_bytes(n, 8) + rest);
}

} // verus!
