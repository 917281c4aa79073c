//! CRDT merge helpers.
//!
//! Payload formats:
//! - `GCounter`: 8-byte little-endian `u64`.
//! - `PNCounter`: 16-byte little-endian `(u64 positive, u64 negative)`.
//! - `LwwSet`: JSON bytes of `{"adds": {"elem": ts}, "rems": {"elem": ts}}`.
//! - `OrSet`: JSON bytes of
//!   `{"adds": {"elem": ["tag"]}, "rems": {"elem": ["tag"]}}`.
//! - `Mvr`: JSON bytes of `{"values": ["base64value", ...]}`.
//!
//! A missing field of a JSON payload is empty, and other fields are ignored.

use std::collections::{BTreeMap, BTreeSet};

use serde_json::value::RawValue;
use vstd::prelude::*;
use vstd::string::*;

use crate::bytes::{
    field, get_u64, le_bytes, le_val, push_le,
};
use crate::assoc::{
    assoc_rank, assoc_sorted, assoc_value, law_values_are_entries, lemma_assoc_merged,
    lemma_merge_associates,
    lemma_merge_commutes, lemma_merge_idempotent, merged, with_assoc,
};
use crate::document::value::{CrdtKind, Value, ValueM};
use crate::text::{append_decimal, decimal, owned, str_eq, str_lt};

verus! {

/// A list of elements with their time stamps, sorted by element.
pub type CountsM = Seq<(Seq<char>, u64)>;

/// A set of texts, sorted.
pub type TextsM = Seq<(Seq<char>, ())>;

/// A list of elements with their tags, sorted by element.
pub type TagsM = Seq<(Seq<char>, TextsM)>;

/// What a list of elements with time stamps holds.
pub open spec fn counts_of(v: Seq<(String, u64)>) -> CountsM {
    Seq::new(v.len(), |i: int| (v[i].0@, v[i].1))
}

/// What a list of texts holds.
pub open spec fn texts_of(v: Seq<String>) -> TextsM {
    Seq::new(v.len(), |i: int| (v[i]@, ()))
}

/// What a list of elements with tags holds.
pub open spec fn tags_of(v: Seq<(String, Vec<String>)>) -> TagsM {
    Seq::new(v.len(), |i: int| (v[i].0@, texts_of(v[i].1@)))
}

/// The larger of two numbers.
pub open spec fn later() -> spec_fn(u64, u64) -> u64 {
    |a: u64, b: u64|
        if b > a {
            b
        } else {
            a
        }
}

/// An element of a set is the same in both.
pub open spec fn same() -> spec_fn((), ()) -> () {
    |a: (), b: ()| ()
}

/// The union of two sets.
pub open spec fn union() -> spec_fn(TextsM, TextsM) -> TextsM {
    |a: TextsM, b: TextsM| merged(a, b, same())
}

/// All sets of tags are sorted.
pub open spec fn tags_sorted(t: TagsM) -> bool {
    &&& assoc_sorted(t)
    &&& forall|i: int| 0 <= i < t.len() ==> assoc_sorted((#[trigger] t[i]).1)
}

// ── JSON ────────────────────────────────────────────────────────────────

/// The fields of a JSON object with the text of each value, or why the bytes
/// are none.
pub uninterp spec fn json_fields(bytes: Seq<u8>) -> std::result::Result<
    Seq<(Seq<char>, Seq<u8>)>,
    Seq<char>,
>;

/// The numbers of a JSON object, or why the bytes are none.
pub uninterp spec fn json_counts(bytes: Seq<u8>) -> std::result::Result<CountsM, Seq<char>>;

/// The sets of texts of a JSON object, or why the bytes are none.
pub uninterp spec fn json_tags(bytes: Seq<u8>) -> std::result::Result<TagsM, Seq<char>>;

/// The texts of a JSON array, or why the bytes are none.
pub uninterp spec fn json_texts(bytes: Seq<u8>) -> std::result::Result<TextsM, Seq<char>>;

/// What fields with their bytes hold.
pub open spec fn fields_of(v: Seq<(String, Vec<u8>)>) -> Seq<(Seq<char>, Seq<u8>)> {
    Seq::new(v.len(), |i: int| (v[i].0@, v[i].1@))
}

/// `serde_json::from_slice` into a map of raw JSON values: the fields in
/// strictly ascending order of their names, each with the text of its value.
/// The result depends on the bytes alone.
#[verifier::external_body]
fn parse_fields(bytes: &[u8]) -> (r: std::result::Result<Vec<(String, Vec<u8>)>, String>)
    ensures
        match r {
            Ok(v) => json_fields(bytes@) == Ok::<Seq<(Seq<char>, Seq<u8>)>, Seq<char>>(
                fields_of(v@),
            ) && assoc_sorted(fields_of(v@)),
            Err(e) => json_fields(bytes@) == Err::<Seq<(Seq<char>, Seq<u8>)>, Seq<char>>(e@),
        },
{
    match serde_json::from_slice::<BTreeMap<String, Box<RawValue>>>(bytes) {
        Ok(m) => Ok(m.into_iter().map(|(k, v)| (k, v.get().as_bytes().to_vec())).collect()),
        Err(e) => Err(e.to_string()),
    }
}

/// `serde_json::from_slice` into a map of numbers: the entries in strictly
/// ascending order of their keys. The result depends on the bytes alone.
#[verifier::external_body]
fn parse_counts(bytes: &[u8]) -> (r: std::result::Result<Vec<(String, u64)>, String>)
    ensures
        match r {
            Ok(v) => json_counts(bytes@) == Ok::<CountsM, Seq<char>>(counts_of(v@))
                && assoc_sorted(counts_of(v@)),
            Err(e) => json_counts(bytes@) == Err::<CountsM, Seq<char>>(e@),
        },
{
    match serde_json::from_slice::<BTreeMap<String, u64>>(bytes) {
        Ok(m) => Ok(m.into_iter().collect()),
        Err(e) => Err(e.to_string()),
    }
}

/// `serde_json::from_slice` into a map of sets of texts: the entries in
/// strictly ascending order of their keys, and so the texts of each. The
/// result depends on the bytes alone.
#[verifier::external_body]
fn parse_tags(bytes: &[u8]) -> (r: std::result::Result<Vec<(String, Vec<String>)>, String>)
    ensures
        match r {
            Ok(v) => json_tags(bytes@) == Ok::<TagsM, Seq<char>>(tags_of(v@)) && tags_sorted(
                tags_of(v@),
            ),
            Err(e) => json_tags(bytes@) == Err::<TagsM, Seq<char>>(e@),
        },
{
    match serde_json::from_slice::<BTreeMap<String, BTreeSet<String>>>(bytes) {
        Ok(m) => Ok(m.into_iter().map(|(k, s)| (k, s.into_iter().collect())).collect()),
        Err(e) => Err(e.to_string()),
    }
}

/// `serde_json::from_slice` into a set of texts, in strictly ascending order.
/// The result depends on the bytes alone.
#[verifier::external_body]
fn parse_texts(bytes: &[u8]) -> (r: std::result::Result<Vec<String>, String>)
    ensures
        match r {
            Ok(v) => json_texts(bytes@) == Ok::<TextsM, Seq<char>>(texts_of(v@)) && assoc_sorted(
                texts_of(v@),
            ),
            Err(e) => json_texts(bytes@) == Err::<TextsM, Seq<char>>(e@),
        },
{
    match serde_json::from_slice::<BTreeSet<String>>(bytes) {
        Ok(s) => Ok(s.into_iter().collect()),
        Err(e) => Err(e.to_string()),
    }
}

/// What fields of numbers hold.
pub open spec fn count_fields(v: Seq<(String, Vec<(String, u64)>)>) -> Seq<(Seq<char>, CountsM)> {
    Seq::new(v.len(), |i: int| (v[i].0@, counts_of(v[i].1@)))
}

/// What fields of sets of texts hold.
pub open spec fn tag_fields(v: Seq<(String, Vec<(String, Vec<String>)>)>) -> Seq<
    (Seq<char>, TagsM),
> {
    Seq::new(v.len(), |i: int| (v[i].0@, tags_of(v[i].1@)))
}

/// What fields of texts hold.
pub open spec fn text_fields(v: Seq<(String, Vec<String>)>) -> Seq<(Seq<char>, TextsM)> {
    Seq::new(v.len(), |i: int| (v[i].0@, texts_of(v[i].1@)))
}

/// The JSON of an object of objects of numbers.
pub uninterp spec fn counts_json(fields: Seq<(Seq<char>, CountsM)>) -> Seq<u8>;

/// The JSON of an object of objects of sets of texts.
pub uninterp spec fn tags_json(fields: Seq<(Seq<char>, TagsM)>) -> Seq<u8>;

/// The JSON of an object of sets of texts.
pub uninterp spec fn texts_json(fields: Seq<(Seq<char>, TextsM)>) -> Seq<u8>;

/// The fields of a JSON object are `n` fields with the names of `names`.
pub open spec fn names_read<V>(
    fs: std::result::Result<Seq<(Seq<char>, Seq<u8>)>, Seq<char>>,
    names: Seq<(Seq<char>, V)>,
) -> bool {
    &&& fs is Ok
    &&& fs->Ok_0.len() == names.len()
    &&& forall|i: int| 0 <= i < names.len() ==> (#[trigger] fs->Ok_0[i]).0 == names[i].0
}

/// `serde_json::to_vec` of a map of maps of numbers, which does not fail for
/// such a map and depends on its contents alone. Read back, the bytes give the
/// fields and numbers that were written, where those were sorted.
#[verifier::external_body]
fn write_counts(fields: &Vec<(String, Vec<(String, u64)>)>) -> (r: std::result::Result<
    Vec<u8>,
    String,
>)
    ensures
        r is Ok,
        r->Ok_0@ == counts_json(count_fields(fields@)),
        assoc_sorted(count_fields(fields@)) && (forall|i: int|
            0 <= i < fields@.len() ==> assoc_sorted(counts_of((#[trigger] fields@[i]).1@))) ==> {
            &&& names_read(json_fields(r->Ok_0@), count_fields(fields@))
            &&& forall|i: int|
                0 <= i < fields@.len() ==> json_counts(
                    (#[trigger] json_fields(r->Ok_0@)->Ok_0[i]).1,
                ) == Ok::<CountsM, Seq<char>>(count_fields(fields@)[i].1)
        },
{
    let map: BTreeMap<&str, BTreeMap<&str, u64>> = fields.iter().map(
        |(n, m)| (n.as_str(), m.iter().map(|(k, v)| (k.as_str(), *v)).collect()),
    ).collect();
    match serde_json::to_vec(&map) {
        Ok(v) => Ok(v),
        Err(e) => Err(e.to_string()),
    }
}

/// `serde_json::to_vec` of a map of maps of sets of texts, which does not fail
/// for such a map and depends on its contents alone. Read back, the bytes give
/// the fields and sets that were written, where those were sorted.
#[verifier::external_body]
fn write_tags(fields: &Vec<(String, Vec<(String, Vec<String>)>)>) -> (r: std::result::Result<
    Vec<u8>,
    String,
>)
    ensures
        r is Ok,
        r->Ok_0@ == tags_json(tag_fields(fields@)),
        assoc_sorted(tag_fields(fields@)) && (forall|i: int|
            0 <= i < fields@.len() ==> tags_sorted(tags_of((#[trigger] fields@[i]).1@))) ==> {
            &&& names_read(json_fields(r->Ok_0@), tag_fields(fields@))
            &&& forall|i: int|
                0 <= i < fields@.len() ==> json_tags(
                    (#[trigger] json_fields(r->Ok_0@)->Ok_0[i]).1,
                ) == Ok::<TagsM, Seq<char>>(tag_fields(fields@)[i].1)
        },
{
    let map: BTreeMap<&str, BTreeMap<&str, BTreeSet<&String>>> = fields.iter().map(
        |(n, m)| (n.as_str(), m.iter().map(|(k, s)| (k.as_str(), s.iter().collect())).collect()),
    ).collect();
    match serde_json::to_vec(&map) {
        Ok(v) => Ok(v),
        Err(e) => Err(e.to_string()),
    }
}

/// `serde_json::to_vec` of a map of sets of texts, which does not fail for
/// such a map and depends on its contents alone. Read back, the bytes give the
/// fields and texts that were written, where those were sorted.
#[verifier::external_body]
fn write_texts(fields: &Vec<(String, Vec<String>)>) -> (r: std::result::Result<Vec<u8>, String>)
    ensures
        r is Ok,
        r->Ok_0@ == texts_json(text_fields(fields@)),
        assoc_sorted(text_fields(fields@)) && (forall|i: int|
            0 <= i < fields@.len() ==> assoc_sorted(texts_of((#[trigger] fields@[i]).1@))) ==> {
            &&& names_read(json_fields(r->Ok_0@), text_fields(fields@))
            &&& forall|i: int|
                0 <= i < fields@.len() ==> json_texts(
                    (#[trigger] json_fields(r->Ok_0@)->Ok_0[i]).1,
                ) == Ok::<TextsM, Seq<char>>(text_fields(fields@)[i].1)
        },
{
    let map: BTreeMap<&str, BTreeSet<&String>> = fields.iter().map(
        |(n, s)| (n.as_str(), s.iter().collect()),
    ).collect();
    match serde_json::to_vec(&map) {
        Ok(v) => Ok(v),
        Err(e) => Err(e.to_string()),
    }
}

// ── Payloads ────────────────────────────────────────────────────────────

/// The text of an error about the JSON of a payload.
pub open spec fn json_error(kind: CrdtKind, e: Seq<char>) -> Seq<char> {
    "invalid "@ + kind.name() + " payload JSON: "@ + e
}

/// The numbers in a field of a payload; none where the field is missing.
pub open spec fn counts_field(
    fs: Seq<(Seq<char>, Seq<u8>)>,
    name: Seq<char>,
) -> std::result::Result<CountsM, Seq<char>> {
    match assoc_value(fs, name) {
        None => Ok(Seq::empty()),
        Some(b) => json_counts(b),
    }
}

/// The sets in a field of a payload; none where the field is missing.
pub open spec fn tags_field(fs: Seq<(Seq<char>, Seq<u8>)>, name: Seq<char>) -> std::result::Result<
    TagsM,
    Seq<char>,
> {
    match assoc_value(fs, name) {
        None => Ok(Seq::empty()),
        Some(b) => json_tags(b),
    }
}

/// The texts in a field of a payload; none where the field is missing.
pub open spec fn texts_field(
    fs: Seq<(Seq<char>, Seq<u8>)>,
    name: Seq<char>,
) -> std::result::Result<TextsM, Seq<char>> {
    match assoc_value(fs, name) {
        None => Ok(Seq::empty()),
        Some(b) => json_texts(b),
    }
}

/// What the bytes of an `LwwSet` hold: what was added and what was removed.
pub open spec fn lww_parse(bytes: Seq<u8>) -> std::result::Result<(CountsM, CountsM), Seq<char>> {
    match json_fields(bytes) {
        Err(e) => Err(e),
        Ok(fs) => match (counts_field(fs, "adds"@), counts_field(fs, "rems"@)) {
            (Err(e), _) => Err(e),
            (_, Err(e)) => Err(e),
            (Ok(a), Ok(r)) => Ok((a, r)),
        },
    }
}

/// What the bytes of an `OrSet` hold: what was added and what was removed.
pub open spec fn or_parse(bytes: Seq<u8>) -> std::result::Result<(TagsM, TagsM), Seq<char>> {
    match json_fields(bytes) {
        Err(e) => Err(e),
        Ok(fs) => match (tags_field(fs, "adds"@), tags_field(fs, "rems"@)) {
            (Err(e), _) => Err(e),
            (_, Err(e)) => Err(e),
            (Ok(a), Ok(r)) => Ok((a, r)),
        },
    }
}

/// What the bytes of an `Mvr` hold.
pub open spec fn mvr_parse(bytes: Seq<u8>) -> std::result::Result<TextsM, Seq<char>> {
    match json_fields(bytes) {
        Err(e) => Err(e),
        Ok(fs) => texts_field(fs, "values"@),
    }
}

/// The bytes of an `LwwSet`.
pub open spec fn lww_image(p: (CountsM, CountsM)) -> Seq<u8> {
    counts_json(seq![("adds"@, p.0), ("rems"@, p.1)])
}

/// The bytes of an `OrSet`.
pub open spec fn or_image(p: (TagsM, TagsM)) -> Seq<u8> {
    tags_json(seq![("adds"@, p.0), ("rems"@, p.1)])
}

/// The bytes of an `Mvr`.
pub open spec fn mvr_image(p: TextsM) -> Seq<u8> {
    texts_json(seq![("values"@, p)])
}

/// Two `LwwSet`s merged: the latest time stamp of every element.
pub open spec fn lww_merged(a: (CountsM, CountsM), b: (CountsM, CountsM)) -> (CountsM, CountsM) {
    (merged(a.0, b.0, later()), merged(a.1, b.1, later()))
}

/// Two `OrSet`s merged: all tags of every element.
pub open spec fn or_merged(a: (TagsM, TagsM), b: (TagsM, TagsM)) -> (TagsM, TagsM) {
    (merged(a.0, b.0, union()), merged(a.1, b.1, union()))
}

/// Two `Mvr`s merged: all values.
pub open spec fn mvr_merged(a: TextsM, b: TextsM) -> TextsM {
    merged(a, b, same())
}

/// The text of an error about the length of a payload.
pub open spec fn length_error(kind: CrdtKind, expected: nat, got: nat) -> Seq<char> {
    "invalid "@ + kind.name() + " payload length: expected "@ + decimal(expected) + ", got "@
        + decimal(got)
}

/// The larger of two numbers.
pub open spec fn larger(a: nat, b: nat) -> nat {
    if b > a {
        b
    } else {
        a
    }
}

/// What merging two payloads of a kind gives, or the text of the error.
pub open spec fn payload_merged(kind: CrdtKind, l: Seq<u8>, r: Seq<u8>) -> std::result::Result<
    Seq<u8>,
    Seq<char>,
> {
    match kind {
        CrdtKind::GCounter => if l.len() != 8 {
            Err(length_error(kind, 8, l.len()))
        } else if r.len() != 8 {
            Err(length_error(kind, 8, r.len()))
        } else {
            Ok(le_bytes(larger(le_val(l), le_val(r)), 8))
        },
        CrdtKind::PNCounter => if l.len() != 16 {
            Err(length_error(kind, 16, l.len()))
        } else if r.len() != 16 {
            Err(length_error(kind, 16, r.len()))
        } else {
            Ok(
                le_bytes(larger(field(l, 0, 8), field(r, 0, 8)), 8) + le_bytes(
                    larger(field(l, 8, 8), field(r, 8, 8)),
                    8,
                ),
            )
        },
        CrdtKind::LwwSet => match (lww_parse(l), lww_parse(r)) {
            (Err(e), _) => Err(json_error(kind, e)),
            (_, Err(e)) => Err(json_error(kind, e)),
            (Ok(a), Ok(b)) => Ok(lww_image(lww_merged(a, b))),
        },
        CrdtKind::OrSet => match (or_parse(l), or_parse(r)) {
            (Err(e), _) => Err(json_error(kind, e)),
            (_, Err(e)) => Err(json_error(kind, e)),
            (Ok(a), Ok(b)) => Ok(or_image(or_merged(a, b))),
        },
        CrdtKind::Mvr => match (mvr_parse(l), mvr_parse(r)) {
            (Err(e), _) => Err(json_error(kind, e)),
            (_, Err(e)) => Err(json_error(kind, e)),
            (Ok(a), Ok(b)) => Ok(mvr_image(mvr_merged(a, b))),
        },
    }
}

/// Merging two payloads that read well gives one that reads as their merge.
pub open spec fn reads_merged(kind: CrdtKind, l: Seq<u8>, r: Seq<u8>, out: Seq<u8>) -> bool {
    match kind {
        CrdtKind::LwwSet => lww_parse(out) == Ok::<(CountsM, CountsM), Seq<char>>(
            lww_merged(lww_parse(l)->Ok_0, lww_parse(r)->Ok_0),
        ),
        CrdtKind::OrSet => or_parse(out) == Ok::<(TagsM, TagsM), Seq<char>>(
            or_merged(or_parse(l)->Ok_0, or_parse(r)->Ok_0),
        ),
        CrdtKind::Mvr => mvr_parse(out) == Ok::<TextsM, Seq<char>>(
            mvr_merged(mvr_parse(l)->Ok_0, mvr_parse(r)->Ok_0),
        ),
        _ => true,
    }
}

/// A payload reads as lists without repeats, in order.
pub open spec fn well_read(kind: CrdtKind, bytes: Seq<u8>) -> bool {
    match kind {
        CrdtKind::LwwSet => lww_parse(bytes) matches Ok(p) && assoc_sorted(p.0) && assoc_sorted(
            p.1,
        ),
        CrdtKind::OrSet => or_parse(bytes) matches Ok(p) && tags_sorted(p.0) && tags_sorted(p.1),
        CrdtKind::Mvr => mvr_parse(bytes) matches Ok(p) && assoc_sorted(p),
        _ => true,
    }
}

/// The payloads `l` and `r` of a kind merge to `out`.
pub open spec fn merges(kind: CrdtKind, l: Seq<u8>, r: Seq<u8>, out: Seq<u8>) -> bool {
    &&& payload_merged(kind, l, r) == Ok::<Seq<u8>, Seq<char>>(out)
    &&& well_read(kind, l)
    &&& well_read(kind, r)
    &&& reads_merged(kind, l, r, out)
}

fn decode_error(kind: CrdtKind, e: &String) -> (r: String)
    ensures
        r@ == json_error(kind, e@),
{
    let mut m: String = owned("invalid ");
    m.append(kind.as_str());
    m.append(" payload JSON: ");
    m.append(e.as_str());
    m
}

fn wrong_length(kind: CrdtKind, expected: u64, got: usize) -> (r: String)
    ensures
        r@ == length_error(kind, expected as nat, got as nat),
{
    let mut m: String = owned("invalid ");
    m.append(kind.as_str());
    m.append(" payload length: expected ");
    append_decimal(&mut m, expected);
    m.append(", got ");
    append_decimal(&mut m, got as u64);
    m
}

/// Finds a field of a payload.
fn find_bytes<'a>(fs: &'a Vec<(String, Vec<u8>)>, name: &str) -> (r: Option<&'a Vec<u8>>)
    ensures
        match r {
            Some(b) => assoc_value(fields_of(fs@), name@) == Some(b@),
            None => assoc_value(fields_of(fs@), name@) is None,
        },
{
    let ghost l = fields_of(fs@);
    let mut p: usize = 0;
    assert(l.skip(0) =~= l);
    while p < fs.len() && str_lt(fs[p].0.as_str(), name)
        invariant
            l == fields_of(fs@),
            p <= fs@.len(),
            assoc_rank(l, name@) == p + assoc_rank(l.skip(p as int), name@),
        decreases fs@.len() - p,
    {
        proof {
            assert(l.skip(p as int)[0] == l[p as int]);
            assert(l.skip(p as int).skip(1) =~= l.skip(p + 1));
        }
        p = p + 1;
    }
    proof {
        if p < fs@.len() {
            assert(l.skip(p as int)[0] == l[p as int]);
        }
    }
    if p < fs.len() && str_eq(fs[p].0.as_str(), name) {
        Some(&fs[p].1)
    } else {
        None
    }
}

fn read_counts(fs: &Vec<(String, Vec<u8>)>, name: &str) -> (r: std::result::Result<
    Vec<(String, u64)>,
    String,
>)
    ensures
        match r {
            Ok(v) => counts_field(fields_of(fs@), name@) == Ok::<CountsM, Seq<char>>(
                counts_of(v@),
            ) && assoc_sorted(counts_of(v@)),
            Err(e) => counts_field(fields_of(fs@), name@) == Err::<CountsM, Seq<char>>(e@),
        },
{
    match find_bytes(fs, name) {
        Some(b) => parse_counts(b.as_slice()),
        None => {
            let none: Vec<(String, u64)> = Vec::new();
            assert(counts_of(none@) =~= Seq::<(Seq<char>, u64)>::empty());
            Ok(none)
        },
    }
}

fn read_tags(fs: &Vec<(String, Vec<u8>)>, name: &str) -> (r: std::result::Result<
    Vec<(String, Vec<String>)>,
    String,
>)
    ensures
        match r {
            Ok(v) => tags_field(fields_of(fs@), name@) == Ok::<TagsM, Seq<char>>(tags_of(v@))
                && tags_sorted(tags_of(v@)),
            Err(e) => tags_field(fields_of(fs@), name@) == Err::<TagsM, Seq<char>>(e@),
        },
{
    match find_bytes(fs, name) {
        Some(b) => parse_tags(b.as_slice()),
        None => {
            let none: Vec<(String, Vec<String>)> = Vec::new();
            assert(tags_of(none@) =~= Seq::<(Seq<char>, TextsM)>::empty());
            Ok(none)
        },
    }
}

fn decode_lww(bytes: &[u8]) -> (r: std::result::Result<
    (Vec<(String, u64)>, Vec<(String, u64)>),
    String,
>)
    ensures
        match r {
            Ok(p) => lww_parse(bytes@) == Ok::<(CountsM, CountsM), Seq<char>>(
                (counts_of(p.0@), counts_of(p.1@)),
            ) && assoc_sorted(counts_of(p.0@)) && assoc_sorted(counts_of(p.1@)),
            Err(e) => lww_parse(bytes@) is Err && e@ == json_error(
                CrdtKind::LwwSet,
                lww_parse(bytes@)->Err_0,
            ),
        },
{
    let kind: CrdtKind = CrdtKind::LwwSet;
    let fs: Vec<(String, Vec<u8>)> = match parse_fields(bytes) {
        Ok(v) => v,
        Err(e) => {
            return Err(decode_error(kind, &e));
        },
    };
    let adds: Vec<(String, u64)> = match read_counts(&fs, "adds") {
        Ok(v) => v,
        Err(e) => {
            return Err(decode_error(kind, &e));
        },
    };
    let rems: Vec<(String, u64)> = match read_counts(&fs, "rems") {
        Ok(v) => v,
        Err(e) => {
            return Err(decode_error(kind, &e));
        },
    };
    Ok((adds, rems))
}

fn decode_or(bytes: &[u8]) -> (r: std::result::Result<
    (Vec<(String, Vec<String>)>, Vec<(String, Vec<String>)>),
    String,
>)
    ensures
        match r {
            Ok(p) => or_parse(bytes@) == Ok::<(TagsM, TagsM), Seq<char>>(
                (tags_of(p.0@), tags_of(p.1@)),
            ) && tags_sorted(tags_of(p.0@)) && tags_sorted(tags_of(p.1@)),
            Err(e) => or_parse(bytes@) is Err && e@ == json_error(
                CrdtKind::OrSet,
                or_parse(bytes@)->Err_0,
            ),
        },
{
    let kind: CrdtKind = CrdtKind::OrSet;
    let fs: Vec<(String, Vec<u8>)> = match parse_fields(bytes) {
        Ok(v) => v,
        Err(e) => {
            return Err(decode_error(kind, &e));
        },
    };
    let adds: Vec<(String, Vec<String>)> = match read_tags(&fs, "adds") {
        Ok(v) => v,
        Err(e) => {
            return Err(decode_error(kind, &e));
        },
    };
    let rems: Vec<(String, Vec<String>)> = match read_tags(&fs, "rems") {
        Ok(v) => v,
        Err(e) => {
            return Err(decode_error(kind, &e));
        },
    };
    Ok((adds, rems))
}

fn decode_mvr(bytes: &[u8]) -> (r: std::result::Result<Vec<String>, String>)
    ensures
        match r {
            Ok(v) => mvr_parse(bytes@) == Ok::<TextsM, Seq<char>>(texts_of(v@)) && assoc_sorted(
                texts_of(v@),
            ),
            Err(e) => mvr_parse(bytes@) is Err && e@ == json_error(
                CrdtKind::Mvr,
                mvr_parse(bytes@)->Err_0,
            ),
        },
{
    let kind: CrdtKind = CrdtKind::Mvr;
    let fs: Vec<(String, Vec<u8>)> = match parse_fields(bytes) {
        Ok(v) => v,
        Err(e) => {
            return Err(decode_error(kind, &e));
        },
    };
    match find_bytes(&fs, "values") {
        Some(b) => match parse_texts(b.as_slice()) {
            Ok(v) => Ok(v),
            Err(e) => Err(decode_error(kind, &e)),
        },
        None => {
            let none: Vec<String> = Vec::new();
            assert(texts_of(none@) =~= Seq::<(Seq<char>, ())>::empty());
            Ok(none)
        },
    }
}

// ── Merging ─────────────────────────────────────────────────────────────

/// Merges lists of time stamps: the latest of every element.
pub fn merge_max_u64_maps(left: &Vec<(String, u64)>, right: &Vec<(String, u64)>) -> (r: Vec<
    (String, u64),
>)
    ensures
        counts_of(r@) == merged(counts_of(left@), counts_of(right@), later()),
{
    let ghost a = counts_of(left@);
    let ghost b = counts_of(right@);
    let mut out: Vec<(String, u64)> = Vec::new();
    let mut i: usize = 0;
    while i < left.len()
        invariant
            a == counts_of(left@),
            i <= left@.len(),
            counts_of(out@) == a.take(i as int),
        decreases left@.len() - i,
    {
        let ghost before = out@;
        out.push((owned(left[i].0.as_str()), left[i].1));
        i = i + 1;
        proof {
            assert(counts_of(out@).drop_last() =~= counts_of(before));
            assert(a.take(i as int).drop_last() =~= a.take(i - 1));
            assert(counts_of(out@) =~= counts_of(out@).drop_last().push(a[i - 1]));
            assert(counts_of(out@) =~= a.take(i as int));
        }
    }
    assert(a.take(i as int) =~= a);
    let mut j: usize = 0;
    assert(b.take(0) =~= Seq::<(Seq<char>, u64)>::empty());
    while j < right.len()
        invariant
            a == counts_of(left@),
            b == counts_of(right@),
            j <= right@.len(),
            counts_of(out@) == merged(a, b.take(j as int), later()),
        decreases right@.len() - j,
    {
        proof {
            assert(b.take(j + 1).drop_last() =~= b.take(j as int));
            assert(b.take(j + 1).last() == b[j as int]);
        }
        raise_count(&mut out, right[j].0.as_str(), right[j].1);
        j = j + 1;
    }
    assert(b.take(j as int) =~= b);
    out
}

/// Raises the time stamp of an element to at least `ts`.
fn raise_count(v: &mut Vec<(String, u64)>, elem: &str, ts: u64)
    ensures
        counts_of(final(v)@) == with_assoc(
            counts_of(old(v)@),
            elem@,
            match assoc_value(counts_of(old(v)@), elem@) {
                Some(x) => later()(x, ts),
                None => ts,
            },
        ),
{
    let ghost l = counts_of(v@);
    let mut p: usize = 0;
    assert(l.skip(0) =~= l);
    while p < v.len() && str_lt(v[p].0.as_str(), elem)
        invariant
            l == counts_of(v@),
            p <= v@.len(),
            assoc_rank(l, elem@) == p + assoc_rank(l.skip(p as int), elem@),
        decreases v@.len() - p,
    {
        proof {
            assert(l.skip(p as int)[0] == l[p as int]);
            assert(l.skip(p as int).skip(1) =~= l.skip(p + 1));
        }
        p = p + 1;
    }
    proof {
        if p < v@.len() {
            assert(l.skip(p as int)[0] == l[p as int]);
        }
    }
    if p < v.len() && str_eq(v[p].0.as_str(), elem) {
        let ts_now: u64 = if ts > v[p].1 {
            ts
        } else {
            v[p].1
        };
        v.set(p, (owned(elem), ts_now));
        assert(counts_of(v@) =~= l.update(p as int, (elem@, ts_now)));
    } else {
        v.insert(p, (owned(elem), ts));
        assert(counts_of(v@) =~= l.insert(p as int, (elem@, ts)));
    }
}

/// Adds a text to a set.
fn add_text(v: &mut Vec<String>, text: &str)
    ensures
        texts_of(final(v)@) == with_assoc(texts_of(old(v)@), text@, ()),
{
    let ghost l = texts_of(v@);
    let mut p: usize = 0;
    assert(l.skip(0) =~= l);
    while p < v.len() && str_lt(v[p].as_str(), text)
        invariant
            l == texts_of(v@),
            p <= v@.len(),
            assoc_rank(l, text@) == p + assoc_rank(l.skip(p as int), text@),
        decreases v@.len() - p,
    {
        proof {
            assert(l.skip(p as int)[0] == l[p as int]);
            assert(l.skip(p as int).skip(1) =~= l.skip(p + 1));
        }
        p = p + 1;
    }
    proof {
        if p < v@.len() {
            assert(l.skip(p as int)[0] == l[p as int]);
        }
    }
    if p < v.len() && str_eq(v[p].as_str(), text) {
        assert(l.update(p as int, (text@, ())) =~= l);
    } else {
        v.insert(p, owned(text));
        assert(texts_of(v@) =~= l.insert(p as int, (text@, ())));
    }
}

/// Adds all texts of one set to another.
fn add_texts(v: &mut Vec<String>, more: &Vec<String>)
    ensures
        texts_of(final(v)@) == merged(texts_of(old(v)@), texts_of(more@), same()),
{
    let ghost a = texts_of(v@);
    let ghost b = texts_of(more@);
    let mut j: usize = 0;
    assert(b.take(0) =~= Seq::<(Seq<char>, ())>::empty());
    while j < more.len()
        invariant
            b == texts_of(more@),
            j <= more@.len(),
            texts_of(v@) == merged(a, b.take(j as int), same()),
        decreases more@.len() - j,
    {
        proof {
            assert(b.take(j + 1).drop_last() =~= b.take(j as int));
            assert(b.take(j + 1).last() == b[j as int]);
        }
        add_text(v, more[j].as_str());
        j = j + 1;
    }
    assert(b.take(j as int) =~= b);
}

fn dup_texts(v: &Vec<String>) -> (r: Vec<String>)
    ensures
        texts_of(r@) == texts_of(v@),
{
    let ghost a = texts_of(v@);
    let mut out: Vec<String> = Vec::new();
    let mut i: usize = 0;
    while i < v.len()
        invariant
            a == texts_of(v@),
            i <= v@.len(),
            texts_of(out@) == a.take(i as int),
        decreases v@.len() - i,
    {
        let ghost before = out@;
        out.push(owned(v[i].as_str()));
        i = i + 1;
        proof {
            assert(texts_of(out@).drop_last() =~= texts_of(before));
            assert(a.take(i as int).drop_last() =~= a.take(i - 1));
            assert(texts_of(out@) =~= texts_of(out@).drop_last().push(a[i - 1]));
            assert(texts_of(out@) =~= a.take(i as int));
        }
    }
    assert(a.take(i as int) =~= a);
    out
}

/// Merges sets: all their texts.
pub fn merge_sets(left: &Vec<String>, right: &Vec<String>) -> (r: Vec<String>)
    ensures
        texts_of(r@) == merged(texts_of(left@), texts_of(right@), same()),
{
    let mut all: Vec<String> = dup_texts(left);
    add_texts(&mut all, right);
    all
}

/// Merges lists of tag sets: all tags of every element.
pub fn merge_set_maps(
    left: &Vec<(String, Vec<String>)>,
    right: &Vec<(String, Vec<String>)>,
) -> (r: Vec<(String, Vec<String>)>)
    ensures
        tags_of(r@) == merged(tags_of(left@), tags_of(right@), union()),
{
    let ghost a = tags_of(left@);
    let ghost b = tags_of(right@);
    let mut out: Vec<(String, Vec<String>)> = Vec::new();
    let mut i: usize = 0;
    while i < left.len()
        invariant
            a == tags_of(left@),
            i <= left@.len(),
            tags_of(out@) == a.take(i as int),
        decreases left@.len() - i,
    {
        let ghost before = out@;
        out.push((owned(left[i].0.as_str()), dup_texts(&left[i].1)));
        i = i + 1;
        proof {
            assert(tags_of(out@).drop_last() =~= tags_of(before));
            assert(a.take(i as int).drop_last() =~= a.take(i - 1));
            assert(tags_of(out@) =~= tags_of(out@).drop_last().push(a[i - 1]));
            assert(tags_of(out@) =~= a.take(i as int));
        }
    }
    assert(a.take(i as int) =~= a);
    let mut j: usize = 0;
    assert(b.take(0) =~= Seq::<(Seq<char>, TextsM)>::empty());
    while j < right.len()
        invariant
            b == tags_of(right@),
            j <= right@.len(),
            tags_of(out@) == merged(a, b.take(j as int), union()),
        decreases right@.len() - j,
    {
        proof {
            assert(b.take(j + 1).drop_last() =~= b.take(j as int));
            assert(b.take(j + 1).last() == b[j as int]);
        }
        extend_tags(&mut out, right[j].0.as_str(), &right[j].1);
        j = j + 1;
    }
    assert(b.take(j as int) =~= b);
    out
}

/// Adds tags to those of an element.
fn extend_tags(v: &mut Vec<(String, Vec<String>)>, elem: &str, tags: &Vec<String>)
    ensures
        tags_of(final(v)@) == with_assoc(
            tags_of(old(v)@),
            elem@,
            match assoc_value(tags_of(old(v)@), elem@) {
                Some(x) => union()(x, texts_of(tags@)),
                None => texts_of(tags@),
            },
        ),
{
    let ghost l = tags_of(v@);
    let mut p: usize = 0;
    assert(l.skip(0) =~= l);
    while p < v.len() && str_lt(v[p].0.as_str(), elem)
        invariant
            l == tags_of(v@),
            p <= v@.len(),
            assoc_rank(l, elem@) == p + assoc_rank(l.skip(p as int), elem@),
        decreases v@.len() - p,
    {
        proof {
            assert(l.skip(p as int)[0] == l[p as int]);
            assert(l.skip(p as int).skip(1) =~= l.skip(p + 1));
        }
        p = p + 1;
    }
    proof {
        if p < v@.len() {
            assert(l.skip(p as int)[0] == l[p as int]);
        }
    }
    if p < v.len() && str_eq(v[p].0.as_str(), elem) {
        let all: Vec<String> = merge_sets(&v[p].1, tags);
        let ghost m = texts_of(all@);
        v.set(p, (owned(elem), all));
        assert(tags_of(v@) =~= l.update(p as int, (elem@, m)));
    } else {
        v.insert(p, (owned(elem), dup_texts(tags)));
        assert(tags_of(v@) =~= l.insert(p as int, (elem@, texts_of(tags@))));
    }
}

/// Merge two CRDT payloads for the same kind.
pub fn merge_payload(kind: CrdtKind, left: &[u8], right: &[u8]) -> (r: std::result::Result<
    Vec<u8>,
    String,
>)
    ensures
        match r {
            Ok(v) => merges(kind, left@, right@, v@),
            Err(e) => payload_merged(kind, left@, right@) == Err::<Seq<u8>, Seq<char>>(e@),
        },
{
    match kind {
        CrdtKind::GCounter => merge_gcounter(left, right),
        CrdtKind::PNCounter => merge_pncounter(left, right),
        CrdtKind::LwwSet => merge_lwwset(left, right),
        CrdtKind::OrSet => merge_orset(left, right),
        CrdtKind::Mvr => merge_mvr(left, right),
    }
}

fn merge_gcounter(left: &[u8], right: &[u8]) -> (r: std::result::Result<Vec<u8>, String>)
    ensures
        match r {
            Ok(v) => payload_merged(CrdtKind::GCounter, left@, right@) == Ok::<
                Seq<u8>,
                Seq<char>,
            >(v@),
            Err(e) => payload_merged(CrdtKind::GCounter, left@, right@) == Err::<
                Seq<u8>,
                Seq<char>,
            >(e@),
        },
{
    if left.len() != 8 {
        return Err(wrong_length(CrdtKind::GCounter, 8, left.len()));
    }
    if right.len() != 8 {
        return Err(wrong_length(CrdtKind::GCounter, 8, right.len()));
    }
    let l: u64 = get_u64(left, 0);
    let r: u64 = get_u64(right, 0);
    let mut out: Vec<u8> = Vec::new();
    push_le(
        &mut out,
        if r > l {
            r as u128
        } else {
            l as u128
        },
        8,
    );
    proof {
        assert(left@.subrange(0, 8) =~= left@);
        assert(right@.subrange(0, 8) =~= right@);
        assert(out@ =~= le_bytes(larger(le_val(left@), le_val(right@)), 8));
    }
    Ok(out)
}

fn merge_pncounter(left: &[u8], right: &[u8]) -> (r: std::result::Result<Vec<u8>, String>)
    ensures
        match r {
            Ok(v) => payload_merged(CrdtKind::PNCounter, left@, right@) == Ok::<
                Seq<u8>,
                Seq<char>,
            >(v@),
            Err(e) => payload_merged(CrdtKind::PNCounter, left@, right@) == Err::<
                Seq<u8>,
                Seq<char>,
            >(e@),
        },
{
    if left.len() != 16 {
        return Err(wrong_length(CrdtKind::PNCounter, 16, left.len()));
    }
    if right.len() != 16 {
        return Err(wrong_length(CrdtKind::PNCounter, 16, right.len()));
    }
    let lp: u64 = get_u64(left, 0);
    let ln: u64 = get_u64(left, 8);
    let rp: u64 = get_u64(right, 0);
    let rn: u64 = get_u64(right, 8);
    let mut out: Vec<u8> = Vec::new();
    push_le(
        &mut out,
        if rp > lp {
            rp as u128
        } else {
            lp as u128
        },
        8,
    );
    push_le(
        &mut out,
        if rn > ln {
            rn as u128
        } else {
            ln as u128
        },
        8,
    );
    proof {
        assert(out@ =~= le_bytes(larger(field(left@, 0, 8), field(right@, 0, 8)), 8) + le_bytes(
            larger(field(left@, 8, 8), field(right@, 8, 8)),
            8,
        ));
    }
    Ok(out)
}

fn merge_lwwset(left: &[u8], right: &[u8]) -> (r: std::result::Result<Vec<u8>, String>)
    ensures
        match r {
            Ok(v) => payload_merged(CrdtKind::LwwSet, left@, right@) == Ok::<Seq<u8>, Seq<char>>(
                v@,
            ) && well_read(CrdtKind::LwwSet, left@) && well_read(CrdtKind::LwwSet, right@)
                && lww_parse(v@) == Ok::<(CountsM, CountsM), Seq<char>>(
                lww_merged(lww_parse(left@)->Ok_0, lww_parse(right@)->Ok_0),
            ),
            Err(e) => payload_merged(CrdtKind::LwwSet, left@, right@) == Err::<
                Seq<u8>,
                Seq<char>,
            >(e@),
        },
{
    let l = match decode_lww(left) {
        Ok(p) => p,
        Err(e) => {
            return Err(e);
        },
    };
    let r = match decode_lww(right) {
        Ok(p) => p,
        Err(e) => {
            return Err(e);
        },
    };
    let adds: Vec<(String, u64)> = merge_max_u64_maps(&l.0, &r.0);
    let rems: Vec<(String, u64)> = merge_max_u64_maps(&l.1, &r.1);
    let ghost a = counts_of(adds@);
    let ghost b = counts_of(rems@);
    let mut fields: Vec<(String, Vec<(String, u64)>)> = Vec::new();
    fields.push((owned("adds"), adds));
    fields.push((owned("rems"), rems));
    let out = write_counts(&fields);
    proof {
        assert(count_fields(fields@) =~= seq![("adds"@, a), ("rems"@, b)]);
        lemma_assoc_merged(counts_of(l.0@), counts_of(r.0@), later(), Seq::empty());
        lemma_assoc_merged(counts_of(l.1@), counts_of(r.1@), later(), Seq::empty());
        lemma_two_names(a, b);
        lemma_read_two(json_fields(out->Ok_0@), count_fields(fields@));
        assert(fields@[0].1@ == adds@ && fields@[1].1@ == rems@);
        assert(json_counts(json_fields(out->Ok_0@)->Ok_0[0].1) == Ok::<CountsM, Seq<char>>(a));
        assert(json_counts(json_fields(out->Ok_0@)->Ok_0[1].1) == Ok::<CountsM, Seq<char>>(b));
    }
    out
}

fn merge_orset(left: &[u8], right: &[u8]) -> (r: std::result::Result<Vec<u8>, String>)
    ensures
        match r {
            Ok(v) => payload_merged(CrdtKind::OrSet, left@, right@) == Ok::<Seq<u8>, Seq<char>>(
                v@,
            ) && well_read(CrdtKind::OrSet, left@) && well_read(CrdtKind::OrSet, right@)
                && or_parse(v@) == Ok::<(TagsM, TagsM), Seq<char>>(
                or_merged(or_parse(left@)->Ok_0, or_parse(right@)->Ok_0),
            ),
            Err(e) => payload_merged(CrdtKind::OrSet, left@, right@) == Err::<
                Seq<u8>,
                Seq<char>,
            >(e@),
        },
{
    let l = match decode_or(left) {
        Ok(p) => p,
        Err(e) => {
            return Err(e);
        },
    };
    let r = match decode_or(right) {
        Ok(p) => p,
        Err(e) => {
            return Err(e);
        },
    };
    let adds: Vec<(String, Vec<String>)> = merge_set_maps(&l.0, &r.0);
    let rems: Vec<(String, Vec<String>)> = merge_set_maps(&l.1, &r.1);
    let ghost a = tags_of(adds@);
    let ghost b = tags_of(rems@);
    let mut fields: Vec<(String, Vec<(String, Vec<String>)>)> = Vec::new();
    fields.push((owned("adds"), adds));
    fields.push((owned("rems"), rems));
    let out = write_tags(&fields);
    proof {
        assert(tag_fields(fields@) =~= seq![("adds"@, a), ("rems"@, b)]);
        lemma_tags_merged(tags_of(l.0@), tags_of(r.0@));
        lemma_tags_merged(tags_of(l.1@), tags_of(r.1@));
        lemma_two_names(a, b);
        lemma_read_two(json_fields(out->Ok_0@), tag_fields(fields@));
        assert(fields@[0].1@ == adds@ && fields@[1].1@ == rems@);
        assert(json_tags(json_fields(out->Ok_0@)->Ok_0[0].1) == Ok::<TagsM, Seq<char>>(a));
        assert(json_tags(json_fields(out->Ok_0@)->Ok_0[1].1) == Ok::<TagsM, Seq<char>>(b));
    }
    out
}

fn merge_mvr(left: &[u8], right: &[u8]) -> (r: std::result::Result<Vec<u8>, String>)
    ensures
        match r {
            Ok(v) => payload_merged(CrdtKind::Mvr, left@, right@) == Ok::<Seq<u8>, Seq<char>>(v@)
                && well_read(CrdtKind::Mvr, left@) && well_read(CrdtKind::Mvr, right@)
                && mvr_parse(v@) == Ok::<TextsM, Seq<char>>(
                mvr_merged(mvr_parse(left@)->Ok_0, mvr_parse(right@)->Ok_0),
            ),
            Err(e) => payload_merged(CrdtKind::Mvr, left@, right@) == Err::<Seq<u8>, Seq<char>>(
                e@,
            ),
        },
{
    let l: Vec<String> = match decode_mvr(left) {
        Ok(p) => p,
        Err(e) => {
            return Err(e);
        },
    };
    let r: Vec<String> = match decode_mvr(right) {
        Ok(p) => p,
        Err(e) => {
            return Err(e);
        },
    };
    let values: Vec<String> = merge_sets(&l, &r);
    let ghost a = texts_of(values@);
    let mut fields: Vec<(String, Vec<String>)> = Vec::new();
    fields.push((owned("values"), values));
    let out = write_texts(&fields);
    proof {
        assert(text_fields(fields@) =~= seq![("values"@, a)]);
        lemma_assoc_merged(texts_of(l@), texts_of(r@), same(), Seq::empty());
        let fs = json_fields(out->Ok_0@)->Ok_0;
        assert(assoc_sorted(text_fields(fields@)));
        assert(fields@[0].1@ == values@);
        assert(fs[0].0 == text_fields(fields@)[0].0);
        crate::document::value::lemma_text_order("values"@, "values"@, "values"@);
        assert(assoc_value(fs, "values"@) == Some(fs[0].1));
        assert(json_texts(json_fields(out->Ok_0@)->Ok_0[0].1) == Ok::<TextsM, Seq<char>>(a));
    }
    out
}

/// The names `adds` and `rems` are in order.
proof fn lemma_two_names<V>(a: V, b: V)
    ensures
        crate::text::text_lt("adds"@, "rems"@),
        "adds"@ != "rems"@,
        assoc_sorted(seq![("adds"@, a), ("rems"@, b)]),
{
    reveal_strlit("adds");
    reveal_strlit("rems");
    lemma_ascii_order("adds"@, "rems"@);
}

/// Texts with different plain first letters are ordered by them.
proof fn lemma_ascii_order(a: Seq<char>, b: Seq<char>)
    requires
        a.len() > 0,
        b.len() > 0,
        a[0] == 'a',
        b[0] == 'r',
        vstd::utf8::is_ascii_chars(a),
        vstd::utf8::is_ascii_chars(b),
    ensures
        crate::text::text_lt(a, b),
{
    vstd::utf8::is_ascii_chars_encode_utf8(a);
    vstd::utf8::is_ascii_chars_encode_utf8(b);
}

/// Two fields in order are found by their names.
proof fn lemma_read_two<V>(
    fs: std::result::Result<Seq<(Seq<char>, Seq<u8>)>, Seq<char>>,
    names: Seq<(Seq<char>, V)>,
)
    requires
        names_read(fs, names),
        names.len() == 2,
        names[0].0 == "adds"@,
        names[1].0 == "rems"@,
    ensures
        assoc_value(fs->Ok_0, "adds"@) == Some(fs->Ok_0[0].1),
        assoc_value(fs->Ok_0, "rems"@) == Some(fs->Ok_0[1].1),
{
    let l = fs->Ok_0;
    assert(l[0].0 == names[0].0);
    assert(l[1].0 == names[1].0);
    lemma_two_names(0u8, 0u8);
    crate::document::value::lemma_text_order("adds"@, "rems"@, "adds"@);
    crate::document::value::lemma_text_order("rems"@, "adds"@, "rems"@);
    reveal_with_fuel(assoc_rank, 3);
    assert(l.skip(1)[0] == l[1]);
    assert(l.skip(1).skip(1).len() == 0);
}

/// Merging keeps sets of tags sorted.
proof fn lemma_tags_merged(a: TagsM, b: TagsM)
    requires
        tags_sorted(a),
        tags_sorted(b),
    ensures
        tags_sorted(merged(a, b, union())),
{
    let m = merged(a, b, union());
    lemma_assoc_merged(a, b, union(), Seq::empty());
    assert forall|i: int| 0 <= i < m.len() implies assoc_sorted((#[trigger] m[i]).1) by {
        let q = m[i].0;
        crate::assoc::lemma_assoc_at(m, i);
        lemma_assoc_merged(a, b, union(), q);
        lemma_value_sorted(a, q);
        lemma_value_sorted(b, q);
        if assoc_value(a, q) is Some && assoc_value(b, q) is Some {
            lemma_assoc_merged(assoc_value(a, q)->0, assoc_value(b, q)->0, same(), Seq::empty());
        }
    }
}

proof fn lemma_value_sorted(a: TagsM, q: Seq<char>)
    requires
        tags_sorted(a),
    ensures
        assoc_value(a, q) matches Some(s) ==> assoc_sorted(s),
{
    crate::assoc::lemma_assoc_rank(a, q);
}

/// Merge two [`Value::Crdt`] values.
pub fn merge_values(left: &Value, right: &Value) -> (r: std::result::Result<Value, String>)
    ensures
        match (left.model(), right.model()) {
            (
                ValueM::Crdt { kind: k, payload: p },
                ValueM::Crdt { kind: l, payload: q },
            ) => if k != l {
                r is Err && r->Err_0@ == "CRDT kind mismatch: left="@ + k.name() + ", right="@
                    + l.name()
            } else {
                match r {
                    Ok(v) => payload_merged(k, p, q) is Ok && v.model() == (ValueM::Crdt {
                        kind: k,
                        payload: payload_merged(k, p, q)->Ok_0,
                    }) && merges(k, p, q, payload_merged(k, p, q)->Ok_0),
                    Err(e) => payload_merged(k, p, q) == Err::<Seq<u8>, Seq<char>>(e@),
                }
            },
            (ValueM::Crdt { .. }, _) => r is Err && r->Err_0@ == "right value is not CRDT"@,
            _ => r is Err && r->Err_0@ == "left value is not CRDT"@,
        },
{
    let (left_kind, left_payload) = match left.as_crdt() {
        Some(t) => t,
        None => {
            return Err(owned("left value is not CRDT"));
        },
    };
    let (right_kind, right_payload) = match right.as_crdt() {
        Some(t) => t,
        None => {
            return Err(owned("right value is not CRDT"));
        },
    };
    if left_kind != right_kind {
        let mut m: String = owned("CRDT kind mismatch: left=");
        m.append(left_kind.as_str());
        m.append(", right=");
        m.append(right_kind.as_str());
        return Err(m);
    }
    match merge_payload(left_kind, left_payload, right_payload) {
        Ok(payload) => Ok(Value::Crdt { kind: left_kind, payload }),
        Err(e) => Err(e),
    }
}

// ── Laws ────────────────────────────────────────────────────────────────

/// Counters merge to the same payload in either order and in any grouping, and
/// a counter merged with itself is itself.
pub proof fn law_counter_merge(l: Seq<u8>, r: Seq<u8>, s: Seq<u8>)
    ensures
        l.len() == 8 && r.len() == 8 && s.len() == 8 ==> merge_laws(CrdtKind::GCounter, l, r, s),
        l.len() == 16 && r.len() == 16 && s.len() == 16 ==> merge_laws(
            CrdtKind::PNCounter,
            l,
            r,
            s,
        ),
{
    crate::bytes::lemma_pow256_values();
    if l.len() == 8 && r.len() == 8 && s.len() == 8 {
        crate::bytes::lemma_le_val_bytes(l);
        crate::bytes::lemma_le_val_bytes(r);
        crate::bytes::lemma_le_val_bytes(s);
        crate::bytes::lemma_le_round_trip(larger(le_val(l), le_val(r)), 8);
        crate::bytes::lemma_le_round_trip(larger(le_val(r), le_val(s)), 8);
    }
    if l.len() == 16 && r.len() == 16 && s.len() == 16 {
        lemma_halves(l, r);
        lemma_halves(r, s);
        lemma_halves(l, l);
        crate::bytes::lemma_le_val_bytes(l.subrange(0, 8));
        crate::bytes::lemma_le_val_bytes(l.subrange(8, 16));
        assert(l =~= l.subrange(0, 8) + l.subrange(8, 16));
    }
}

/// The two numbers of a merged `PNCounter`.
proof fn lemma_halves(l: Seq<u8>, r: Seq<u8>)
    requires
        l.len() == 16,
        r.len() == 16,
    ensures
        ({
            let m = payload_merged(CrdtKind::PNCounter, l, r)->Ok_0;
            &&& m.len() == 16
            &&& field(m, 0, 8) == larger(field(l, 0, 8), field(r, 0, 8))
            &&& field(m, 8, 8) == larger(field(l, 8, 8), field(r, 8, 8))
        }),
{
    let m = payload_merged(CrdtKind::PNCounter, l, r)->Ok_0;
    let p = larger(field(l, 0, 8), field(r, 0, 8));
    let n = larger(field(l, 8, 8), field(r, 8, 8));
    crate::bytes::lemma_field_bound(l, 0, 8);
    crate::bytes::lemma_field_bound(r, 0, 8);
    crate::bytes::lemma_field_bound(l, 8, 8);
    crate::bytes::lemma_field_bound(r, 8, 8);
    crate::bytes::lemma_le_round_trip(p, 8);
    crate::bytes::lemma_le_round_trip(n, 8);
    assert(m.subrange(0, 8) =~= le_bytes(p, 8));
    assert(m.subrange(8, 16) =~= le_bytes(n, 8));
}

/// Merging these payloads is commutative, associative and idempotent: the order
/// does not matter, nor the grouping, nor merging something again.
pub open spec fn merge_laws(kind: CrdtKind, l: Seq<u8>, r: Seq<u8>, s: Seq<u8>) -> bool {
    let m = payload_merged(kind, l, r)->Ok_0;
    let n = payload_merged(kind, r, s)->Ok_0;
    &&& payload_merged(kind, r, l) == Ok::<Seq<u8>, Seq<char>>(m)
    &&& payload_merged(kind, m, l) == Ok::<Seq<u8>, Seq<char>>(m)
    &&& payload_merged(kind, m, r) == Ok::<Seq<u8>, Seq<char>>(m)
    &&& payload_merged(kind, m, s) is Ok
    &&& payload_merged(kind, m, s) == payload_merged(kind, l, n)
}

/// Replicas agree: where payloads of any kind merge, the order of the merges
/// does not matter, nor their grouping, nor merging a payload again.
pub proof fn law_payload_merge(
    kind: CrdtKind,
    l: Seq<u8>,
    r: Seq<u8>,
    s: Seq<u8>,
    m: Seq<u8>,
    n: Seq<u8>,
)
    requires
        merges(kind, l, r, m),
        merges(kind, r, s, n),
    ensures
        payload_merged(kind, r, l) == Ok::<Seq<u8>, Seq<char>>(m),
        payload_merged(kind, m, l) == Ok::<Seq<u8>, Seq<char>>(m),
        payload_merged(kind, m, r) == Ok::<Seq<u8>, Seq<char>>(m),
        payload_merged(kind, m, s) is Ok,
        payload_merged(kind, m, s) == payload_merged(kind, l, n),
{
    match kind {
        CrdtKind::GCounter => {
            law_counter_merge(l, r, s);
        },
        CrdtKind::PNCounter => {
            law_counter_merge(l, r, s);
        },
        CrdtKind::LwwSet => {
            let (a, b, c) = (lww_parse(l)->Ok_0, lww_parse(r)->Ok_0, lww_parse(s)->Ok_0);
            let ab = lww_merged(a, b);
            lemma_assoc_merged(a.0, b.0, later(), Seq::empty());
            lemma_assoc_merged(a.1, b.1, later(), Seq::empty());
            law_lww_merge(a, b, c);
            law_lww_merge(a, a, b);
            law_lww_merge(b, b, a);
            law_lww_merge(ab, a, b);
            law_lww_merge(ab, b, a);
            law_lww_merge(b, a, a);
        },
        CrdtKind::OrSet => {
            let (a, b, c) = (or_parse(l)->Ok_0, or_parse(r)->Ok_0, or_parse(s)->Ok_0);
            let ab = or_merged(a, b);
            lemma_tags_merged(a.0, b.0);
            lemma_tags_merged(a.1, b.1);
            law_or_merge(a, b, c);
            law_or_merge(a, a, b);
            law_or_merge(b, b, a);
            law_or_merge(ab, a, b);
            law_or_merge(ab, b, a);
        },
        CrdtKind::Mvr => {
            let (a, b, c) = (mvr_parse(l)->Ok_0, mvr_parse(r)->Ok_0, mvr_parse(s)->Ok_0);
            let ab = mvr_merged(a, b);
            lemma_assoc_merged(a, b, same(), Seq::empty());
            law_mvr_merge(a, b, c);
            law_mvr_merge(a, a, b);
            law_mvr_merge(b, b, a);
            law_mvr_merge(ab, a, b);
            law_mvr_merge(ab, b, a);
        },
    }
}

/// Merging `LwwSet`s is commutative, associative and idempotent.
pub proof fn law_lww_merge(
    a: (CountsM, CountsM),
    b: (CountsM, CountsM),
    c: (CountsM, CountsM),
)
    requires
        assoc_sorted(a.0),
        assoc_sorted(a.1),
        assoc_sorted(b.0),
        assoc_sorted(b.1),
        assoc_sorted(c.0),
        assoc_sorted(c.1),
    ensures
        lww_merged(a, b) == lww_merged(b, a),
        lww_merged(lww_merged(a, b), c) == lww_merged(a, lww_merged(b, c)),
        lww_merged(a, a) == a,
{
    lemma_merge_commutes(a.0, b.0, later());
    lemma_merge_commutes(a.1, b.1, later());
    lemma_merge_associates(a.0, b.0, c.0, later());
    lemma_merge_associates(a.1, b.1, c.1, later());
    lemma_merge_idempotent(a.0, later());
    lemma_merge_idempotent(a.1, later());
}

/// Merging `Mvr`s is commutative, associative and idempotent.
pub proof fn law_mvr_merge(a: TextsM, b: TextsM, c: TextsM)
    requires
        assoc_sorted(a),
        assoc_sorted(b),
        assoc_sorted(c),
    ensures
        mvr_merged(a, b) == mvr_merged(b, a),
        mvr_merged(mvr_merged(a, b), c) == mvr_merged(a, mvr_merged(b, c)),
        mvr_merged(a, a) == a,
{
    lemma_merge_commutes(a, b, same());
    lemma_merge_associates(a, b, c, same());
    lemma_merge_idempotent(a, same());
}

/// Merging `OrSet`s is commutative, associative and idempotent.
pub proof fn law_or_merge(a: (TagsM, TagsM), b: (TagsM, TagsM), c: (TagsM, TagsM))
    requires
        tags_sorted(a.0),
        tags_sorted(a.1),
        tags_sorted(b.0),
        tags_sorted(b.1),
        tags_sorted(c.0),
        tags_sorted(c.1),
    ensures
        or_merged(a, b) == or_merged(b, a),
        or_merged(or_merged(a, b), c) == or_merged(a, or_merged(b, c)),
        or_merged(a, a) == a,
{
    lemma_tag_laws(a.0, b.0, c.0);
    lemma_tag_laws(a.1, b.1, c.1);
}

proof fn lemma_tag_laws(a: TagsM, b: TagsM, c: TagsM)
    requires
        tags_sorted(a),
        tags_sorted(b),
        tags_sorted(c),
    ensures
        merged(a, b, union()) == merged(b, a, union()),
        merged(merged(a, b, union()), c, union()) == merged(a, merged(b, c, union()), union()),
        merged(a, a, union()) == a,
{
    assert forall|q: Seq<char>|
        assoc_value(a, q) is Some && #[trigger] assoc_value(b, q) is Some implies union()(
        assoc_value(a, q)->0,
        assoc_value(b, q)->0,
    ) == union()(assoc_value(b, q)->0, assoc_value(a, q)->0) by {
        lemma_value_sorted(a, q);
        lemma_value_sorted(b, q);
        lemma_merge_commutes(assoc_value(a, q)->0, assoc_value(b, q)->0, same());
    }
    lemma_merge_commutes(a, b, union());
    assert forall|q: Seq<char>|
        assoc_value(a, q) is Some && assoc_value(b, q) is Some && #[trigger] assoc_value(
            c,
            q,
        ) is Some implies union()(
        union()(assoc_value(a, q)->0, assoc_value(b, q)->0),
        assoc_value(c, q)->0,
    ) == union()(
        assoc_value(a, q)->0,
        union()(assoc_value(b, q)->0, assoc_value(c, q)->0),
    ) by {
        lemma_value_sorted(a, q);
        lemma_value_sorted(b, q);
        lemma_value_sorted(c, q);
        lemma_merge_associates(
            assoc_value(a, q)->0,
            assoc_value(b, q)->0,
            assoc_value(c, q)->0,
            same(),
        );
    }
    lemma_merge_associates(a, b, c, union());
    assert forall|q: Seq<char>| #[trigger] assoc_value(a, q) is Some implies union()(
        assoc_value(a, q)->0,
        assoc_value(a, q)->0,
    ) == assoc_value(a, q)->0 by {
        lemma_value_sorted(a, q);
        lemma_merge_idempotent(assoc_value(a, q)->0, same());
    }
    lemma_merge_idempotent(a, union());
}

/// A merged counter is as large as the larger of the two, on either side of a
/// counter that goes both ways.
pub proof fn law_counters_keep_the_largest(l: Seq<u8>, r: Seq<u8>, out: Seq<u8>)
    ensures
        l.len() == 8 && r.len() == 8 && merges(CrdtKind::GCounter, l, r, out) ==> out.len() == 8
            && le_val(out) >= le_val(l) && le_val(out) >= le_val(r) && (le_val(out) == le_val(l)
            || le_val(out) == le_val(r)),
        l.len() == 16 && r.len() == 16 && merges(CrdtKind::PNCounter, l, r, out) ==> {
            &&& out.len() == 16
            &&& field(out, 0, 8) >= field(l, 0, 8) && field(out, 0, 8) >= field(r, 0, 8)
            &&& field(out, 0, 8) == field(l, 0, 8) || field(out, 0, 8) == field(r, 0, 8)
            &&& field(out, 8, 8) >= field(l, 8, 8) && field(out, 8, 8) >= field(r, 8, 8)
            &&& field(out, 8, 8) == field(l, 8, 8) || field(out, 8, 8) == field(r, 8, 8)
        },
        l.len() == 8 && r.len() == 8 ==> payload_merged(CrdtKind::GCounter, l, r) is Ok,
        l.len() == 16 && r.len() == 16 ==> payload_merged(CrdtKind::PNCounter, l, r) is Ok,
        l.len() != 8 || r.len() != 8 ==> payload_merged(CrdtKind::GCounter, l, r) is Err,
        l.len() != 16 || r.len() != 16 ==> payload_merged(CrdtKind::PNCounter, l, r) is Err,
{
    crate::bytes::lemma_pow256_values();
    if l.len() == 8 && r.len() == 8 {
        crate::bytes::lemma_le_val_bytes(l);
        crate::bytes::lemma_le_val_bytes(r);
        crate::bytes::lemma_le_round_trip(larger(le_val(l), le_val(r)), 8);
    }
    if l.len() == 16 && r.len() == 16 {
        lemma_halves(l, r);
    }
}

/// An element of a merged list of time stamps is one of either list, with the
/// later of its time stamps.
pub open spec fn latest_of(a: CountsM, b: CountsM, m: CountsM, q: Seq<char>) -> bool {
    &&& (assoc_value(m, q) is Some) == (assoc_value(a, q) is Some || assoc_value(b, q) is Some)
    &&& assoc_value(a, q) is Some ==> assoc_value(m, q)->0 >= assoc_value(a, q)->0
    &&& assoc_value(b, q) is Some ==> assoc_value(m, q)->0 >= assoc_value(b, q)->0
    &&& assoc_value(m, q) is Some ==> assoc_value(m, q) == assoc_value(a, q) || assoc_value(m, q)
        == assoc_value(b, q)
}

/// A merged `LwwSet` reads as every element of the two, added and removed, with
/// the latest time of each.
pub proof fn law_lww_sets_keep_the_latest(l: Seq<u8>, r: Seq<u8>, out: Seq<u8>, q: Seq<char>)
    requires
        merges(CrdtKind::LwwSet, l, r, out),
    ensures
        lww_parse(l) is Ok,
        lww_parse(r) is Ok,
        lww_parse(out) is Ok,
        latest_of(lww_parse(l)->Ok_0.0, lww_parse(r)->Ok_0.0, lww_parse(out)->Ok_0.0, q),
        latest_of(lww_parse(l)->Ok_0.1, lww_parse(r)->Ok_0.1, lww_parse(out)->Ok_0.1, q),
{
    let (a, b) = (lww_parse(l)->Ok_0, lww_parse(r)->Ok_0);
    lemma_assoc_merged(a.0, b.0, later(), q);
    lemma_assoc_merged(a.1, b.1, later(), q);
}

/// A merged `Mvr` reads as the values of both.
pub proof fn law_mvrs_keep_all_values(l: Seq<u8>, r: Seq<u8>, out: Seq<u8>, x: Seq<char>)
    requires
        merges(CrdtKind::Mvr, l, r, out),
    ensures
        mvr_parse(l) is Ok,
        mvr_parse(r) is Ok,
        mvr_parse(out) is Ok,
        mvr_parse(out)->Ok_0.contains((x, ())) == (mvr_parse(l)->Ok_0.contains((x, ()))
            || mvr_parse(r)->Ok_0.contains((x, ()))),
{
    let (a, b) = (mvr_parse(l)->Ok_0, mvr_parse(r)->Ok_0);
    lemma_union_holds(a, b, x);
}

proof fn lemma_union_holds(a: TextsM, b: TextsM, x: Seq<char>)
    requires
        assoc_sorted(a),
        assoc_sorted(b),
    ensures
        assoc_sorted(merged(a, b, same())),
        merged(a, b, same()).contains((x, ())) == (a.contains((x, ())) || b.contains((x, ()))),
{
    lemma_assoc_merged(a, b, same(), x);
    law_values_are_entries(a, x, ());
    law_values_are_entries(b, x, ());
    law_values_are_entries(merged(a, b, same()), x, ());
}

/// A tag is among those of an element.
pub open spec fn tagged(t: TagsM, q: Seq<char>, tag: Seq<char>) -> bool {
    assoc_value(t, q) matches Some(s) && s.contains((tag, ()))
}

/// A merged `OrSet` reads as all tags of all elements of the two, added and
/// removed.
pub proof fn law_or_sets_keep_all_tags(
    l: Seq<u8>,
    r: Seq<u8>,
    out: Seq<u8>,
    q: Seq<char>,
    tag: Seq<char>,
)
    requires
        merges(CrdtKind::OrSet, l, r, out),
    ensures
        or_parse(l) is Ok,
        or_parse(r) is Ok,
        or_parse(out) is Ok,
        tagged(or_parse(out)->Ok_0.0, q, tag) == (tagged(or_parse(l)->Ok_0.0, q, tag) || tagged(
            or_parse(r)->Ok_0.0,
            q,
            tag,
        )),
        tagged(or_parse(out)->Ok_0.1, q, tag) == (tagged(or_parse(l)->Ok_0.1, q, tag) || tagged(
            or_parse(r)->Ok_0.1,
            q,
            tag,
        )),
        (assoc_value(or_parse(out)->Ok_0.0, q) is Some) == (assoc_value(
            or_parse(l)->Ok_0.0,
            q,
        ) is Some || assoc_value(or_parse(r)->Ok_0.0, q) is Some),
        (assoc_value(or_parse(out)->Ok_0.1, q) is Some) == (assoc_value(
            or_parse(l)->Ok_0.1,
            q,
        ) is Some || assoc_value(or_parse(r)->Ok_0.1, q) is Some),
{
    let (a, b) = (or_parse(l)->Ok_0, or_parse(r)->Ok_0);
    lemma_tagged_union(a.0, b.0, q, tag);
    lemma_tagged_union(a.1, b.1, q, tag);
}

proof fn lemma_tagged_union(a: TagsM, b: TagsM, q: Seq<char>, tag: Seq<char>)
    requires
        tags_sorted(a),
        tags_sorted(b),
    ensures
        tagged(merged(a, b, union()), q, tag) == (tagged(a, q, tag) || tagged(b, q, tag)),
        (assoc_value(merged(a, b, union()), q) is Some) == (assoc_value(a, q) is Some
            || assoc_value(b, q) is Some),
{
    lemma_assoc_merged(a, b, union(), q);
    lemma_value_sorted(a, q);
    lemma_value_sorted(b, q);
    if assoc_value(a, q) is Some && assoc_value(b, q) is Some {
        lemma_union_holds(assoc_value(a, q)->0, assoc_value(b, q)->0, tag);
    }
}

/// Payloads hold what their JSON objects hold in the fields `adds`, `rems` and
/// `values`; a missing field is empty.
pub proof fn law_payload_fields(bytes: Seq<u8>, fs: Seq<(Seq<char>, Seq<u8>)>)
    requires
        json_fields(bytes) == Ok::<Seq<(Seq<char>, Seq<u8>)>, Seq<char>>(fs),
    ensures
        lww_parse(bytes) matches Ok(p) ==> {
            &&& match assoc_value(fs, "adds"@) {
                Some(b) => json_counts(b) == Ok::<CountsM, Seq<char>>(p.0),
                None => p.0.len() == 0,
            }
            &&& match assoc_value(fs, "rems"@) {
                Some(b) => json_counts(b) == Ok::<CountsM, Seq<char>>(p.1),
                None => p.1.len() == 0,
            }
        },
        or_parse(bytes) matches Ok(p) ==> {
            &&& match assoc_value(fs, "adds"@) {
                Some(b) => json_tags(b) == Ok::<TagsM, Seq<char>>(p.0),
                None => p.0.len() == 0,
            }
            &&& match assoc_value(fs, "rems"@) {
                Some(b) => json_tags(b) == Ok::<TagsM, Seq<char>>(p.1),
                None => p.1.len() == 0,
            }
        },
        mvr_parse(bytes) matches Ok(p) ==> match assoc_value(fs, "values"@) {
            Some(b) => json_texts(b) == Ok::<TextsM, Seq<char>>(p),
            None => p.len() == 0,
        },
{
}

} // verus!
