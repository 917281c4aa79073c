//! Sortable binary encoding for document field values.
//!
//! Encodes `Value` types into byte sequences that preserve natural ordering
//! under lexicographic byte comparison. This is critical for B+Tree range
//! scans.

use vstd::prelude::*;
use vstd::slice::*;
use vstd::string::*;
use vstd::utf8::encode_utf8;

use crate::bytes::{
    be_bytes, lemma_be_bytes_len, lemma_be_order, lemma_be_round_trip, lemma_lex_asymmetric, lemma_lex_common_prefix,
    lemma_lex_irreflexive, lemma_pow256_values, lex_lt, push_be,
};
use crate::document::value::{
    field_models, field_rank, field_value, fields_sorted, find_field, lemma_field_at,
    lemma_field_rank, value_wf, FieldsM, Value, ValueM,
};
use crate::error::{GrumpyError, Result};
use crate::text::lemma_utf8_injective;
use crate::uid::Uuid;

verus! {

/// Type tags for sortable encoding (ordering: Null < Bool < Integer < Float <
/// String < Bytes < Ref).
pub const TAG_NULL: u8 = 0x00;

pub const TAG_BOOL: u8 = 0x01;

pub const TAG_INTEGER: u8 = 0x02;

pub const TAG_FLOAT: u8 = 0x03;

pub const TAG_STRING: u8 = 0x04;

pub const TAG_BYTES: u8 = 0x05;

pub const TAG_REF: u8 = 0x06;

/// Maximum length of string/bytes values in an index key (truncated if longer).
pub const MAX_INDEXED_LEN: usize = 128;

/// The sign bit of a 64-bit number.
pub const SIGN_BIT: u64 = 0x8000_0000_0000_0000;

/// Bytes cut to the length that an index key holds.
pub open spec fn clipped(b: Seq<u8>) -> Seq<u8> {
    if b.len() <= MAX_INDEXED_LEN {
        b
    } else {
        b.take(MAX_INDEXED_LEN as int)
    }
}

/// The number that orders integers: the value moved up by 2^63.
pub open spec fn integer_rank(i: i64) -> nat {
    (i + SIGN_BIT) as nat
}

/// The number that orders floats by their IEEE 754 bits: for a set sign bit
/// all bits flipped, otherwise the sign bit flipped.
pub open spec fn float_rank(bits: u64) -> nat {
    if bits >= SIGN_BIT {
        (u64::MAX - bits) as nat
    } else {
        (bits + SIGN_BIT) as nat
    }
}

/// The sortable bytes of a value; `None` for what cannot be indexed.
pub open spec fn sortable(m: ValueM) -> Option<Seq<u8>> {
    match m {
        ValueM::Null => Some(seq![TAG_NULL]),
        ValueM::Bool(b) => Some(
            seq![
                TAG_BOOL,
                if b {
                    1u8
                } else {
                    0u8
                },
            ],
        ),
        ValueM::Integer(i) => Some(seq![TAG_INTEGER] + be_bytes(integer_rank(i), 8)),
        ValueM::Float(f) => Some(seq![TAG_FLOAT] + be_bytes(float_rank(f), 8)),
        ValueM::String(s) => Some(seq![TAG_STRING] + clipped(encode_utf8(s))),
        ValueM::Bytes(b) => Some(seq![TAG_BYTES] + clipped(b)),
        ValueM::Ref(c, id) => Some(
            seq![TAG_REF] + clipped(encode_utf8(c)) + be_bytes(id as nat, 16),
        ),
        ValueM::Array(_) => None,
        ValueM::Object(_) => None,
        ValueM::Tombstone { .. } => None,
        ValueM::Crdt { .. } => None,
    }
}

/// Appends bytes, cut to the length that an index key holds.
fn push_clipped(buf: &mut Vec<u8>, b: &[u8])
    ensures
        final(buf)@ == old(buf)@ + clipped(b@),
{
    if b.len() <= MAX_INDEXED_LEN {
        buf.extend_from_slice(b);
    } else {
        let part: &[u8] = slice_subrange(b, 0, MAX_INDEXED_LEN);
        assert(part@ =~= b@.take(MAX_INDEXED_LEN as int));
        buf.extend_from_slice(part);
    }
}

/// Encodes a `Value` into a sortable byte sequence.
///
/// The encoding preserves natural ordering:
/// - Null < Bool(false) < Bool(true) < Integer(-N) < Integer(0) < Integer(N)
///   < Float(-N) < Float(0) < Float(N) < String("a") < String("b") < Bytes
/// - Integers: sign bit flipped
/// - Floats: IEEE 754 sortable transformation
/// - Strings/Bytes: truncated to 128 bytes
///
/// Arrays and Objects are not indexable and return `NotIndexable`, and so are
/// tombstones and CRDTs.
pub fn encode_sortable_value(value: &Value) -> (r: Result<Vec<u8>>)
    ensures
        match r {
            Ok(v) => sortable(value.model()) == Some(v@),
            Err(e) => sortable(value.model()) is None && e == GrumpyError::NotIndexable,
        },
{
    let mut buf: Vec<u8> = Vec::new();
    match value {
        Value::Null => {
            buf.push(TAG_NULL);
            assert(buf@ =~= sortable(value.model())->0);
        },
        Value::Bool(b) => {
            buf.push(TAG_BOOL);
            buf.push(
                if *b {
                    1
                } else {
                    0
                },
            );
            assert(buf@ =~= sortable(value.model())->0);
        },
        Value::Integer(i) => {
            buf.push(TAG_INTEGER);
            let rank: u128 = (*i as i128 + 0x8000_0000_0000_0000i128) as u128;
            push_be(&mut buf, rank, 8);
            assert(buf@ =~= sortable(value.model())->0);
        },
        Value::Float(f) => {
            buf.push(TAG_FLOAT);
            let rank: u64 = if *f >= SIGN_BIT {
                u64::MAX - *f
            } else {
                *f + SIGN_BIT
            };
            push_be(&mut buf, rank as u128, 8);
            assert(buf@ =~= sortable(value.model())->0);
        },
        Value::String(s) => {
            buf.push(TAG_STRING);
            push_clipped(&mut buf, s.as_str().as_bytes());
            assert(buf@ =~= sortable(value.model())->0);
        },
        Value::Bytes(b) => {
            buf.push(TAG_BYTES);
            push_clipped(&mut buf, b.as_slice());
            assert(buf@ =~= sortable(value.model())->0);
        },
        Value::Ref(c, id) => {
            buf.push(TAG_REF);
            push_clipped(&mut buf, c.as_str().as_bytes());
            push_be(&mut buf, id.0, 16);
            assert(buf@ =~= sortable(value.model())->0);
        },
        _ => {
            return Err(GrumpyError::NotIndexable);
        },
    }
    Ok(buf)
}

/// The composite key of a value and the document that has it.
pub open spec fn composite(m: ValueM, id: u128) -> Option<Seq<u8>> {
    match sortable(m) {
        Some(b) => Some(b + be_bytes(id as nat, 16)),
        None => None,
    }
}

/// Encodes a composite key: sortable field value + UUID suffix.
///
/// This ensures uniqueness even when multiple documents have the same field
/// value.
pub fn encode_composite_key(value: &Value, uuid: &Uuid) -> (r: Result<Vec<u8>>)
    ensures
        match r {
            Ok(v) => composite(value.model(), uuid.0) == Some(v@),
            Err(e) => composite(value.model(), uuid.0) is None && e == GrumpyError::NotIndexable,
        },
{
    match encode_sortable_value(value) {
        Ok(mut key) => {
            push_be(&mut key, uuid.0, 16);
            Ok(key)
        },
        Err(e) => Err(e),
    }
}

/// Where the first part of a path ends: at its first dot, or at its end.
pub open spec fn part_end(path: Seq<char>) -> int
    decreases path.len(),
{
    if path.len() == 0 || path[0] == '.' {
        0
    } else {
        1 + part_end(path.skip(1))
    }
}

proof fn lemma_part_end(path: Seq<char>)
    ensures
        0 <= part_end(path) <= path.len(),
        part_end(path) < path.len() ==> path[part_end(path)] == '.',
        forall|i: int| 0 <= i < part_end(path) ==> #[trigger] path[i] != '.',
    decreases path.len(),
{
    if path.len() > 0 && path[0] != '.' {
        let t = path.skip(1);
        lemma_part_end(t);
        assert forall|i: int| 0 <= i < part_end(path) implies #[trigger] path[i] != '.' by {
            if i > 0 {
                assert(path[i] == t[i - 1]);
            }
        }
    }
}

/// The value that a dot-separated path leads to.
pub open spec fn field_at(m: ValueM, path: Seq<char>) -> Option<ValueM>
    decreases path.len(),
    via field_at_decreases
{
    let e = part_end(path);
    match m {
        ValueM::Object(o) => match field_value(o, path.take(e)) {
            None => None,
            Some(v) => if e < path.len() {
                field_at(v, path.skip(e + 1))
            } else {
                Some(v)
            },
        },
        _ => None,
    }
}

#[via_fn]
proof fn field_at_decreases(m: ValueM, path: Seq<char>) {
    lemma_part_end(path);
}

/// Extracts a field value from a document using dot-notation path.
///
/// E.g., `extract_field(doc, "address.city")` returns `doc["address"]["city"]`.
pub fn extract_field<'a>(value: &'a Value, field_path: &str) -> (r: Option<&'a Value>)
    requires
        value_wf(value.model()),
    ensures
        match r {
            Some(v) => field_at(value.model(), field_path@) == Some(v.model()) && value_wf(
                v.model(),
            ),
            None => field_at(value.model(), field_path@) is None,
        },
{
    let ghost path = field_path@;
    let total: usize = field_path.unicode_len();
    let mut current: &'a Value = value;
    let mut start: usize = 0;
    assert(path.skip(0) =~= path);
    loop
        invariant
            path == field_path@,
            total == path.len(),
            start <= total,
            value_wf(current.model()),
            field_at(value.model(), path) == field_at(current.model(), path.skip(start as int)),
        decreases total - start,
    {
        let ghost rest = path.skip(start as int);
        proof {
            lemma_part_end(rest);
        }
        let mut end: usize = start;
        while end < total && field_path.get_char(end) != '.'
            invariant
                path == field_path@,
                total == path.len(),
                rest == path.skip(start as int),
                start <= end <= total,
                forall|i: int| 0 <= i < end - start ==> #[trigger] rest[i] != '.',
            decreases total - end,
        {
            assert(rest[end - start] == path[end as int]);
            end = end + 1;
        }
        proof {
            let e = part_end(rest);
            if e < end - start {
                assert(rest[e] != '.');
            } else if end - start < e {
                assert(rest[end - start] != '.');
                assert(rest[end - start] == path[end as int]);
            }
        }
        let name: &str = field_path.substring_char(start, end);
        assert(name@ =~= rest.take(end - start));
        match current {
            Value::Object(fields) => {
                assert(current.model() == ValueM::Object(field_models(fields@)));
                let (i, found) = find_field(fields.as_slice(), name);
                if !found {
                    return None;
                }
                let ghost o = field_models(fields@);
                let next: &'a Value = &fields[i].1;
                assert(o[i as int] == (fields@[i as int].0@, next.model()));
                assert(field_value(o, name@) == Some(next.model()));
                if end < total {
                    assert(rest.skip(end - start + 1) =~= path.skip(end + 1));
                    current = next;
                    start = end + 1;
                } else {
                    return Some(next);
                }
            },
            _ => {
                return None;
            },
        }
    }
}

// ── Order ───────────────────────────────────────────────────────────────

proof fn lemma_tagged(t: u8, a: Seq<u8>, b: Seq<u8>)
    ensures
        lex_lt(seq![t] + a, seq![t] + b) == lex_lt(a, b),
{
    let x = seq![t] + a;
    let y = seq![t] + b;
    assert(x.skip(1) =~= a);
    assert(y.skip(1) =~= b);
}

/// Integers are ordered by their encodings.
pub proof fn law_integer_order(a: i64, b: i64)
    ensures
        lex_lt(sortable(ValueM::Integer(a))->0, sortable(ValueM::Integer(b))->0) == (a < b),
{
    lemma_pow256_values();
    lemma_be_order(integer_rank(a), integer_rank(b), 8);
    lemma_tagged(TAG_INTEGER, be_bytes(integer_rank(a), 8), be_bytes(integer_rank(b), 8));
}

/// Floats are ordered by their encodings: a set sign bit comes before a clear
/// one, larger magnitudes come first with it and last without it.
pub proof fn law_float_order(a: u64, b: u64)
    ensures
        lex_lt(sortable(ValueM::Float(a))->0, sortable(ValueM::Float(b))->0) == (if a >= SIGN_BIT
            && b >= SIGN_BIT {
            a > b
        } else if a < SIGN_BIT && b < SIGN_BIT {
            a < b
        } else {
            a >= SIGN_BIT
        }),
{
    lemma_pow256_values();
    lemma_be_order(float_rank(a), float_rank(b), 8);
    lemma_tagged(TAG_FLOAT, be_bytes(float_rank(a), 8), be_bytes(float_rank(b), 8));
}

/// Cutting two byte strings at the same length does not turn their order.
proof fn lemma_cut_order(a: Seq<u8>, b: Seq<u8>, n: nat)
    requires
        lex_lt(
            if a.len() <= n {
                a
            } else {
                a.take(n as int)
            },
            if b.len() <= n {
                b
            } else {
                b.take(n as int)
            },
        ),
    ensures
        lex_lt(a, b),
    decreases n,
{
    let x = if a.len() <= n {
        a
    } else {
        a.take(n as int)
    };
    let y = if b.len() <= n {
        b
    } else {
        b.take(n as int)
    };
    if x.len() > 0 && x[0] == y[0] {
        let m = (n - 1) as nat;
        assert(x.skip(1) =~= if a.skip(1).len() <= m {
            a.skip(1)
        } else {
            a.skip(1).take(m as int)
        });
        assert(y.skip(1) =~= if b.skip(1).len() <= m {
            b.skip(1)
        } else {
            b.skip(1).take(m as int)
        });
        lemma_cut_order(a.skip(1), b.skip(1), m);
    }
}

/// Texts and byte strings are ordered by their encodings as far as an index key
/// holds them: encodings never turn their order, and keep it where nothing is
/// cut.
pub proof fn law_text_order(a: Seq<char>, b: Seq<char>, x: Seq<u8>, y: Seq<u8>)
    ensures
        lex_lt(sortable(ValueM::String(a))->0, sortable(ValueM::String(b))->0) == lex_lt(
            clipped(encode_utf8(a)),
            clipped(encode_utf8(b)),
        ),
        lex_lt(sortable(ValueM::String(a))->0, sortable(ValueM::String(b))->0) ==> lex_lt(
            encode_utf8(a),
            encode_utf8(b),
        ),
        encode_utf8(a).len() <= MAX_INDEXED_LEN && encode_utf8(b).len() <= MAX_INDEXED_LEN
            && lex_lt(encode_utf8(a), encode_utf8(b)) ==> lex_lt(
            sortable(ValueM::String(a))->0,
            sortable(ValueM::String(b))->0,
        ),
        lex_lt(sortable(ValueM::Bytes(x))->0, sortable(ValueM::Bytes(y))->0) == lex_lt(
            clipped(x),
            clipped(y),
        ),
        lex_lt(sortable(ValueM::Bytes(x))->0, sortable(ValueM::Bytes(y))->0) ==> lex_lt(x, y),
        x.len() <= MAX_INDEXED_LEN && y.len() <= MAX_INDEXED_LEN && lex_lt(x, y) ==> lex_lt(
            sortable(ValueM::Bytes(x))->0,
            sortable(ValueM::Bytes(y))->0,
        ),
{
    let (s, t) = (encode_utf8(a), encode_utf8(b));
    lemma_tagged(TAG_STRING, clipped(s), clipped(t));
    lemma_tagged(TAG_BYTES, clipped(x), clipped(y));
    if lex_lt(clipped(s), clipped(t)) {
        lemma_cut_order(s, t, MAX_INDEXED_LEN as nat);
    }
    if lex_lt(clipped(x), clipped(y)) {
        lemma_cut_order(x, y, MAX_INDEXED_LEN as nat);
    }
}

/// The place of a value's type in the order of types.
pub open spec fn type_rank(m: ValueM) -> int {
    match m {
        ValueM::Null => 0,
        ValueM::Bool(_) => 1,
        ValueM::Integer(_) => 2,
        ValueM::Float(_) => 3,
        ValueM::String(_) => 4,
        ValueM::Bytes(_) => 5,
        ValueM::Ref(..) => 6,
        _ => 7,
    }
}

/// Values of different types are ordered by their types, and `false` comes
/// before `true`.
pub proof fn law_type_order(a: ValueM, b: ValueM)
    requires
        sortable(a) is Some,
        sortable(b) is Some,
        type_rank(a) < type_rank(b) || (a == ValueM::Bool(false) && b == ValueM::Bool(true)),
    ensures
        lex_lt(sortable(a)->0, sortable(b)->0),
{
    let x = sortable(a)->0;
    let y = sortable(b)->0;
    assert(x[0] == type_rank(a) as u8);
    assert(y[0] == type_rank(b) as u8);
    if type_rank(a) == type_rank(b) {
        reveal_with_fuel(lex_lt, 3);
        assert(x.skip(1) =~= seq![0u8]);
        assert(y.skip(1) =~= seq![1u8]);
    }
}

// ── Values told apart ───────────────────────────────────────────────────

/// An index key holds all of a value: texts, byte strings and names of
/// collections of at most 128 bytes.
pub open spec fn uncut(m: ValueM) -> bool {
    match m {
        ValueM::String(s) => encode_utf8(s).len() <= 128,
        ValueM::Bytes(b) => b.len() <= 128,
        ValueM::Ref(c, _) => encode_utf8(c).len() <= 128,
        _ => true,
    }
}

/// Arrays, objects, tombstones and CRDTs are not indexed; everything else is.
pub proof fn law_what_is_indexed(m: ValueM)
    ensures
        (sortable(m) is None) == (m is Array || m is Object || m is Tombstone || m is Crdt),
{
}

proof fn lemma_untagged(t: u8, a: Seq<u8>, b: Seq<u8>)
    requires
        seq![t] + a == seq![t] + b,
    ensures
        a == b,
{
    assert((seq![t] + a).skip(1) =~= a);
    assert((seq![t] + b).skip(1) =~= b);
}

/// Encodings tell values apart: two values that fit uncut and have the same
/// encoding are the same value.
pub proof fn law_encodings_tell_values_apart(a: ValueM, b: ValueM)
    requires
        sortable(a) is Some,
        sortable(a) == sortable(b),
        uncut(a),
        uncut(b),
    ensures
        a == b,
{
    let x = sortable(a)->0;
    let y = sortable(b)->0;
    lemma_pow256_values();
    assert(x[0] == type_rank(a) as u8);
    assert(y[0] == type_rank(b) as u8);
    assert(type_rank(a) == type_rank(b));
    match (a, b) {
        (ValueM::Bool(p), ValueM::Bool(q)) => {
            assert(x[1] == y[1]);
        },
        (ValueM::Integer(i), ValueM::Integer(j)) => {
            lemma_untagged(TAG_INTEGER, be_bytes(integer_rank(i), 8), be_bytes(integer_rank(j), 8));
            lemma_be_round_trip(integer_rank(i), 8);
            lemma_be_round_trip(integer_rank(j), 8);
        },
        (ValueM::Float(i), ValueM::Float(j)) => {
            lemma_untagged(TAG_FLOAT, be_bytes(float_rank(i), 8), be_bytes(float_rank(j), 8));
            lemma_be_round_trip(float_rank(i), 8);
            lemma_be_round_trip(float_rank(j), 8);
        },
        (ValueM::String(s), ValueM::String(t)) => {
            lemma_untagged(TAG_STRING, encode_utf8(s), encode_utf8(t));
            lemma_utf8_injective(s, t);
        },
        (ValueM::Bytes(s), ValueM::Bytes(t)) => {
            lemma_untagged(TAG_BYTES, s, t);
        },
        (ValueM::Ref(c, i), ValueM::Ref(d, j)) => {
            let (p, q) = (encode_utf8(c), encode_utf8(d));
            let (u, v) = (be_bytes(i as nat, 16), be_bytes(j as nat, 16));
            lemma_be_round_trip(i as nat, 16);
            lemma_be_round_trip(j as nat, 16);
            assert(x =~= seq![TAG_REF] + (p + u));
            assert(y =~= seq![TAG_REF] + (q + v));
            lemma_untagged(TAG_REF, p + u, q + v);
            assert((p + u).len() == (q + v).len());
            assert((p + u).take(p.len() as int) =~= p);
            assert((q + v).take(q.len() as int) =~= q);
            assert((p + u).skip(p.len() as int) =~= u);
            assert((q + v).skip(q.len() as int) =~= v);
            lemma_utf8_injective(c, d);
        },
        _ => {},
    }
}

/// Texts and byte strings that are longer than an index key holds are known by
/// their first 128 bytes.
pub proof fn law_long_values_are_cut(a: Seq<char>, b: Seq<char>, x: Seq<u8>, y: Seq<u8>)
    ensures
        encode_utf8(a).len() >= 128 && encode_utf8(b).len() >= 128 ==> ((sortable(
            ValueM::String(a),
        ) == sortable(ValueM::String(b))) == (encode_utf8(a).take(128) == encode_utf8(b).take(
            128,
        ))),
        x.len() >= 128 && y.len() >= 128 ==> ((sortable(ValueM::Bytes(x)) == sortable(
            ValueM::Bytes(y),
        )) == (x.take(128) == y.take(128))),
{
    let (s, t) = (encode_utf8(a), encode_utf8(b));
    if s.len() >= 128 && t.len() >= 128 {
        assert(clipped(s) =~= s.take(128));
        assert(clipped(t) =~= t.take(128));
        if sortable(ValueM::String(a)) == sortable(ValueM::String(b)) {
            lemma_untagged(TAG_STRING, clipped(s), clipped(t));
        }
    }
    if x.len() >= 128 && y.len() >= 128 {
        assert(clipped(x) =~= x.take(128));
        assert(clipped(y) =~= y.take(128));
        if sortable(ValueM::Bytes(x)) == sortable(ValueM::Bytes(y)) {
            lemma_untagged(TAG_BYTES, clipped(x), clipped(y));
        }
    }
}

/// References into one collection are ordered by the keys they hold.
pub proof fn law_reference_order(c: Seq<char>, x: u128, y: u128)
    ensures
        lex_lt(sortable(ValueM::Ref(c, x))->0, sortable(ValueM::Ref(c, y))->0) == (x < y),
{
    let p = seq![TAG_REF] + clipped(encode_utf8(c));
    let (u, v) = (be_bytes(x as nat, 16), be_bytes(y as nat, 16));
    lemma_pow256_values();
    lemma_be_order(x as nat, y as nat, 16);
    lemma_be_round_trip(x as nat, 16);
    lemma_be_round_trip(y as nat, 16);
    let n = p.len() as int;
    assert((p + u).take(n) =~= p);
    assert((p + v).take(n) =~= p);
    assert((p + u).skip(n) =~= u);
    assert((p + v).skip(n) =~= v);
    lemma_lex_common_prefix(p + u, p + v, p.len());
}

/// The natural order of values that can be indexed: by type, then `false`
/// before `true`, numbers by size, and texts and byte strings byte by byte.
pub open spec fn comes_before(a: ValueM, b: ValueM) -> bool {
    match (a, b) {
        (ValueM::Bool(p), ValueM::Bool(q)) => !p && q,
        (ValueM::Integer(i), ValueM::Integer(j)) => i < j,
        (ValueM::Float(i), ValueM::Float(j)) => if i >= 0x8000_0000_0000_0000 && j
            >= 0x8000_0000_0000_0000 {
            i > j
        } else if i < 0x8000_0000_0000_0000 && j < 0x8000_0000_0000_0000 {
            i < j
        } else {
            i >= 0x8000_0000_0000_0000
        },
        (ValueM::String(s), ValueM::String(t)) => lex_lt(encode_utf8(s), encode_utf8(t)),
        (ValueM::Bytes(s), ValueM::Bytes(t)) => lex_lt(s, t),
        (ValueM::Ref(c, x), ValueM::Ref(d, y)) => if c == d {
            x < y
        } else {
            lex_lt(
                encode_utf8(c) + be_bytes(x as nat, 16),
                encode_utf8(d) + be_bytes(y as nat, 16),
            )
        },
        _ => type_rank(a) < type_rank(b),
    }
}

/// Encodings are in the order of the values that they stand for, where those
/// fit uncut.
pub proof fn law_encodings_keep_the_order(a: ValueM, b: ValueM)
    requires
        sortable(a) is Some,
        sortable(b) is Some,
        uncut(a),
        uncut(b),
    ensures
        lex_lt(sortable(a)->0, sortable(b)->0) == comes_before(a, b),
{
    if type_rank(a) != type_rank(b) {
        if type_rank(a) < type_rank(b) {
            law_type_order(a, b);
        } else {
            law_type_order(b, a);
            lemma_lex_asymmetric(sortable(b)->0, sortable(a)->0);
        }
    } else {
        match (a, b) {
            (ValueM::Bool(p), ValueM::Bool(q)) => {
                if p == q {
                    lemma_lex_irreflexive(sortable(a)->0);
                } else if q {
                    law_type_order(a, b);
                } else {
                    law_type_order(b, a);
                    lemma_lex_asymmetric(sortable(b)->0, sortable(a)->0);
                }
            },
            (ValueM::Integer(i), ValueM::Integer(j)) => {
                law_integer_order(i, j);
            },
            (ValueM::Float(i), ValueM::Float(j)) => {
                law_float_order(i, j);
            },
            (ValueM::String(s), ValueM::String(t)) => {
                law_text_order(s, t, Seq::empty(), Seq::empty());
            },
            (ValueM::Bytes(s), ValueM::Bytes(t)) => {
                law_text_order(Seq::empty(), Seq::empty(), s, t);
            },
            (ValueM::Ref(c, x), ValueM::Ref(d, y)) => {
                law_reference_order(c, x, y);
                let p = encode_utf8(c) + be_bytes(x as nat, 16);
                let q = encode_utf8(d) + be_bytes(y as nat, 16);
                assert(sortable(a)->0 =~= seq![TAG_REF] + p);
                assert(sortable(b)->0 =~= seq![TAG_REF] + q);
                lemma_tagged(TAG_REF, p, q);
            },
            _ => {
                lemma_lex_irreflexive(sortable(a)->0);
            },
        }
    }
}

/// Composite keys tell values and documents apart.
pub proof fn law_composite_keys_tell_documents_apart(a: ValueM, x: u128, b: ValueM, y: u128)
    requires
        composite(a, x) is Some,
        composite(a, x) == composite(b, y),
        uncut(a),
        uncut(b),
    ensures
        a == b,
        x == y,
{
    let (p, q) = (sortable(a)->0, sortable(b)->0);
    let (u, v) = (be_bytes(x as nat, 16), be_bytes(y as nat, 16));
    lemma_pow256_values();
    lemma_be_round_trip(x as nat, 16);
    lemma_be_round_trip(y as nat, 16);
    assert((p + u).len() == (q + v).len());
    assert((p + u).take(p.len() as int) =~= p);
    assert((q + v).take(q.len() as int) =~= q);
    assert((p + u).skip(p.len() as int) =~= u);
    assert((q + v).skip(q.len() as int) =~= v);
    law_encodings_tell_values_apart(a, b);
}

// ── Paths ───────────────────────────────────────────────────────────────

/// A text without dots.
pub open spec fn plain(name: Seq<char>) -> bool {
    forall|i: int| 0 <= i < name.len() ==> #[trigger] name[i] != '.'
}

proof fn lemma_plain_end(name: Seq<char>, rest: Seq<char>)
    requires
        plain(name),
        rest.len() > 0 ==> rest[0] == '.',
    ensures
        part_end(name + rest) == name.len(),
    decreases name.len(),
{
    let path = name + rest;
    if name.len() > 0 {
        assert(path[0] == name[0]);
        assert(path.skip(1) =~= name.skip(1) + rest);
        assert(plain(name.skip(1))) by {
            assert forall|i: int| 0 <= i < name.skip(1).len() implies #[trigger] name.skip(1)[i]
                != '.' by {
                assert(name.skip(1)[i] == name[i + 1]);
            }
        }
        lemma_plain_end(name.skip(1), rest);
    } else {
        assert(path =~= rest);
    }
}

/// A path without dots leads to the field of that name in an object.
pub proof fn law_plain_path(o: FieldsM, name: Seq<char>, v: ValueM)
    requires
        plain(name),
        fields_sorted(o),
    ensures
        (field_at(ValueM::Object(o), name) == Some(v)) == o.contains((name, v)),
{
    lemma_plain_end(name, Seq::empty());
    assert(name + Seq::<char>::empty() =~= name);
    assert(name.take(name.len() as int) =~= name);
    if o.contains((name, v)) {
        let i = choose|i: int| 0 <= i < o.len() && o[i] == (name, v);
        lemma_field_at(o, name, i);
    }
    if field_value(o, name) == Some(v) {
        lemma_field_rank(o, name);
        assert(o[field_rank(o, name)] == (name, v));
    }
}

/// A path with a dot leads on from the field that its first part leads to; no
/// path leads into anything but an object.
pub proof fn law_dotted_path(m: ValueM, first: Seq<char>, rest: Seq<char>)
    requires
        plain(first),
    ensures
        field_at(m, first + seq!['.'] + rest) == (match field_at(m, first) {
            Some(v) => field_at(v, rest),
            None => None,
        }),
        !(m is Object) ==> field_at(m, rest) is None,
{
    let path = first + seq!['.'] + rest;
    let tail = seq!['.'] + rest;
    assert(path =~= first + tail);
    lemma_plain_end(first, tail);
    lemma_plain_end(first, Seq::empty());
    assert(first + Seq::<char>::empty() =~= first);
    assert(first.take(first.len() as int) =~= first);
    assert(path.take(first.len() as int) =~= first);
    assert(path.skip(first.len() as int + 1) =~= rest);
}

/// All values but references to collections with long names fit into an index
/// key with the key of their document.
pub proof fn law_ordinary_values_fit(m: ValueM)
    requires
        sortable(m) is Some,
        m matches ValueM::Ref(c, _) ==> encode_utf8(c).len() <= 127,
    ensures
        sortable(m)->0.len() + 16 <= 160,
{
    match m {
        ValueM::Integer(i) => {
            lemma_be_bytes_len(integer_rank(i), 8);
        },
        ValueM::Float(f) => {
            lemma_be_bytes_len(float_rank(f), 8);
        },
        ValueM::Ref(_, id) => {
            lemma_be_bytes_len(id as nat, 16);
        },
        _ => {},
    }
}

} // verus!
