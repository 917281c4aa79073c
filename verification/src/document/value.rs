//! Value type: JSON-like schema-less value representation.

use vstd::prelude::*;

use crate::bytes::{
    lemma_lex_asymmetric, lemma_lex_irreflexive, lemma_lex_total, lemma_lex_transitive, to_vec,
};
use crate::text::{lemma_utf8_injective, str_eq, str_lt, text_lt};
use crate::uid::Uuid;

verus! {

/// Supported CRDT payload kinds.
#[derive(Debug, Clone, Copy, PartialEq, Eq, Structural)]
pub enum CrdtKind {
    /// Grow-only counter.
    GCounter,
    /// Positive/negative counter.
    PNCounter,
    /// Last-write-wins set.
    LwwSet,
    /// Observed-remove set.
    OrSet,
    /// Multi-value register.
    Mvr,
}

impl CrdtKind {
    /// The stable on-wire discriminator.
    pub open spec fn tag(self) -> u8 {
        match self {
            CrdtKind::GCounter => 0,
            CrdtKind::PNCounter => 1,
            CrdtKind::LwwSet => 2,
            CrdtKind::OrSet => 3,
            CrdtKind::Mvr => 4,
        }
    }

    /// The kind with an on-wire discriminator, if any.
    pub open spec fn of_tag(tag: u8) -> Option<CrdtKind> {
        if tag == 0 {
            Some(CrdtKind::GCounter)
        } else if tag == 1 {
            Some(CrdtKind::PNCounter)
        } else if tag == 2 {
            Some(CrdtKind::LwwSet)
        } else if tag == 3 {
            Some(CrdtKind::OrSet)
        } else if tag == 4 {
            Some(CrdtKind::Mvr)
        } else {
            None
        }
    }

    /// The canonical name.
    pub open spec fn name(self) -> Seq<char> {
        match self {
            CrdtKind::GCounter => "GCounter"@,
            CrdtKind::PNCounter => "PNCounter"@,
            CrdtKind::LwwSet => "LwwSet"@,
            CrdtKind::OrSet => "OrSet"@,
            CrdtKind::Mvr => "Mvr"@,
        }
    }

    /// Stable on-wire discriminator.
    pub fn to_tag(self) -> (r: u8)
        ensures
            r == self.tag(),
    {
        match self {
            CrdtKind::GCounter => 0,
            CrdtKind::PNCounter => 1,
            CrdtKind::LwwSet => 2,
            CrdtKind::OrSet => 3,
            CrdtKind::Mvr => 4,
        }
    }

    /// Parse the stable on-wire discriminator.
    pub fn from_tag(tag: u8) -> (r: Option<Self>)
        ensures
            r == CrdtKind::of_tag(tag),
            match r {
                Some(k) => k.tag() == tag,
                None => tag > 4,
            },
    {
        match tag {
            0 => Some(CrdtKind::GCounter),
            1 => Some(CrdtKind::PNCounter),
            2 => Some(CrdtKind::LwwSet),
            3 => Some(CrdtKind::OrSet),
            4 => Some(CrdtKind::Mvr),
            _ => None,
        }
    }

    /// Human-readable canonical name.
    pub fn as_str(self) -> (r: &'static str)
        ensures
            r@ == self.name(),
    {
        match self {
            CrdtKind::GCounter => "GCounter",
            CrdtKind::PNCounter => "PNCounter",
            CrdtKind::LwwSet => "LwwSet",
            CrdtKind::OrSet => "OrSet",
            CrdtKind::Mvr => "Mvr",
        }
    }

    /// Parse canonical names used by API payloads.
    pub fn from_name(name: &str) -> (r: Option<Self>)
        ensures
            match r {
                Some(k) => k.name() == name@,
                None => forall|k: CrdtKind| #[trigger] k.name() != name@,
            },
    {
        if str_eq(name, "GCounter") {
            Some(CrdtKind::GCounter)
        } else if str_eq(name, "PNCounter") {
            Some(CrdtKind::PNCounter)
        } else if str_eq(name, "LwwSet") {
            Some(CrdtKind::LwwSet)
        } else if str_eq(name, "OrSet") {
            Some(CrdtKind::OrSet)
        } else if str_eq(name, "Mvr") {
            Some(CrdtKind::Mvr)
        } else {
            None
        }
    }
}

/// Names and tags tell the kinds apart.
pub proof fn law_crdt_kind_round_trip(a: CrdtKind, b: CrdtKind)
    ensures
        CrdtKind::of_tag(a.tag()) == Some(a),
        (a.name() == b.name()) == (a == b),
{
    reveal_strlit("GCounter");
    reveal_strlit("PNCounter");
    reveal_strlit("LwwSet");
    reveal_strlit("OrSet");
    reveal_strlit("Mvr");
    if a != b && a.name() == b.name() {
        assert(a.name().len() == b.name().len());
        assert(a.name()[0] == b.name()[0]);
    }
}

/// What a value is, with texts and byte strings as sequences.
pub enum ValueM {
    Null,
    Bool(bool),
    Integer(i64),
    Float(u64),
    String(Seq<char>),
    Bytes(Seq<u8>),
    Array(Seq<ValueM>),
    Object(Seq<(Seq<char>, ValueM)>),
    Ref(Seq<char>, u128),
    Tombstone { deleted_at_hlc: u64, vector_clock: Seq<u8> },
    Crdt { kind: CrdtKind, payload: Seq<u8> },
}

/// The fields of an object: names and values.
pub type FieldsM = Seq<(Seq<char>, ValueM)>;

/// A schema-less value, similar to JSON but with additional types (Bytes, Ref).
#[derive(Debug)]
pub enum Value {
    /// JSON null.
    Null,
    /// Boolean value.
    Bool(bool),
    /// 64-bit signed integer.
    Integer(i64),
    /// 64-bit floating point, as its IEEE 754 bits.
    Float(u64),
    /// UTF-8 string.
    String(String),
    /// Raw byte array.
    Bytes(Vec<u8>),
    /// Ordered list of values.
    Array(Vec<Value>),
    /// Key-value map: fields in ascending order of their names, each name
    /// once.
    Object(Vec<(String, Value)>),
    /// Reference to a document in another (or the same) collection.
    Ref(String, Uuid),
    /// Tombstone marker of a deleted document.
    ///
    /// Carries the HLC at deletion time and the encoded vector clock so that
    /// concurrent writes can be reconciled.
    Tombstone {
        /// Packed hybrid logical clock at the moment of deletion.
        deleted_at_hlc: u64,
        /// Serialised vector clock.
        vector_clock: Vec<u8>,
    },
    /// Opaque CRDT payload.
    Crdt { kind: CrdtKind, payload: Vec<u8> },
}

/// What values stand for, one by one.
pub open spec fn models(items: Seq<Value>) -> Seq<ValueM>
    decreases items,
{
    Seq::new(
        items.len(),
        |i: int|
            if 0 <= i < items.len() {
                items[i].model()
            } else {
                ValueM::Null
            },
    )
}

/// What fields stand for, one by one.
pub open spec fn field_models(fields: Seq<(String, Value)>) -> FieldsM
    decreases fields,
{
    Seq::new(
        fields.len(),
        |i: int|
            if 0 <= i < fields.len() {
                (fields[i].0@, fields[i].1.model())
            } else {
                (Seq::empty(), ValueM::Null)
            },
    )
}

impl Value {
    /// What the value is.
    pub open spec fn model(&self) -> ValueM
        decreases self,
    {
        match self {
            Value::Null => ValueM::Null,
            Value::Bool(b) => ValueM::Bool(*b),
            Value::Integer(n) => ValueM::Integer(*n),
            Value::Float(f) => ValueM::Float(*f),
            Value::String(s) => ValueM::String(s@),
            Value::Bytes(b) => ValueM::Bytes(b@),
            Value::Array(a) => ValueM::Array(models(a@)),
            Value::Object(o) => ValueM::Object(field_models(o@)),
            Value::Ref(c, id) => ValueM::Ref(c@, id.0),
            Value::Tombstone { deleted_at_hlc, vector_clock } => ValueM::Tombstone {
                deleted_at_hlc: *deleted_at_hlc,
                vector_clock: vector_clock@,
            },
            Value::Crdt { kind, payload } => ValueM::Crdt { kind: *kind, payload: payload@ },
        }
    }

    /// Returns `true` if the value is `Null`.
    pub fn is_null(&self) -> (r: bool)
        ensures
            r == (self.model() is Null),
    {
        match self {
            Value::Null => true,
            _ => false,
        }
    }

    /// Returns the boolean value if this is a `Bool`.
    pub fn as_bool(&self) -> (r: Option<bool>)
        ensures
            r == (match self.model() {
                ValueM::Bool(b) => Some(b),
                _ => None,
            }),
    {
        match self {
            Value::Bool(b) => Some(*b),
            _ => None,
        }
    }

    /// Returns the integer value if this is an `Integer`.
    pub fn as_i64(&self) -> (r: Option<i64>)
        ensures
            r == (match self.model() {
                ValueM::Integer(n) => Some(n),
                _ => None,
            }),
    {
        match self {
            Value::Integer(n) => Some(*n),
            _ => None,
        }
    }

    /// Returns the bits of the float if this is a `Float`.
    pub fn as_float_bits(&self) -> (r: Option<u64>)
        ensures
            r == (match self.model() {
                ValueM::Float(f) => Some(f),
                _ => None,
            }),
    {
        match self {
            Value::Float(f) => Some(*f),
            _ => None,
        }
    }

    /// Returns a string slice if this is a `String`.
    pub fn as_str(&self) -> (r: Option<&str>)
        ensures
            match r {
                Some(s) => self.model() == ValueM::String(s@),
                None => !(self.model() is String),
            },
    {
        match self {
            Value::String(s) => Some(s.as_str()),
            _ => None,
        }
    }

    /// Returns a byte slice if this is `Bytes`.
    pub fn as_bytes(&self) -> (r: Option<&[u8]>)
        ensures
            match r {
                Some(b) => self.model() == ValueM::Bytes(b@),
                None => !(self.model() is Bytes),
            },
    {
        match self {
            Value::Bytes(b) => Some(b.as_slice()),
            _ => None,
        }
    }

    /// Returns a slice of values if this is an `Array`.
    pub fn as_array(&self) -> (r: Option<&[Value]>)
        ensures
            match r {
                Some(a) => self.model() == ValueM::Array(models(a@)),
                None => !(self.model() is Array),
            },
    {
        match self {
            Value::Array(a) => Some(a.as_slice()),
            _ => None,
        }
    }

    /// Returns the fields if this is an `Object`.
    pub fn as_object(&self) -> (r: Option<&[(String, Value)]>)
        ensures
            match r {
                Some(o) => self.model() == ValueM::Object(field_models(o@)),
                None => !(self.model() is Object),
            },
    {
        match self {
            Value::Object(o) => Some(o.as_slice()),
            _ => None,
        }
    }

    /// Returns the collection name and UUID if this is a `Ref`.
    pub fn as_ref(&self) -> (r: Option<(&str, &Uuid)>)
        ensures
            match r {
                Some(p) => self.model() == ValueM::Ref((p.0)@, (*p.1).0),
                None => !(self.model() is Ref),
            },
    {
        match self {
            Value::Ref(coll, id) => Some((coll.as_str(), id)),
            _ => None,
        }
    }

    /// Returns `true` if this value is a [`Value::Tombstone`].
    pub fn is_tombstone(&self) -> (r: bool)
        ensures
            r == (self.model() is Tombstone),
    {
        match self {
            Value::Tombstone { .. } => true,
            _ => false,
        }
    }

    /// If this value is a tombstone, returns its clock and vector clock bytes.
    pub fn as_tombstone(&self) -> (r: Option<(u64, &[u8])>)
        ensures
            match r {
                Some(p) => self.model() == (ValueM::Tombstone {
                    deleted_at_hlc: p.0,
                    vector_clock: (p.1)@,
                }),
                None => !(self.model() is Tombstone),
            },
    {
        match self {
            Value::Tombstone { deleted_at_hlc, vector_clock } => Some(
                (*deleted_at_hlc, vector_clock.as_slice()),
            ),
            _ => None,
        }
    }

    /// Returns `true` if this value is a [`Value::Crdt`].
    pub fn is_crdt(&self) -> (r: bool)
        ensures
            r == (self.model() is Crdt),
    {
        match self {
            Value::Crdt { .. } => true,
            _ => false,
        }
    }

    /// If this value is a CRDT, returns `(kind, payload)`.
    pub fn as_crdt(&self) -> (r: Option<(CrdtKind, &[u8])>)
        ensures
            match r {
                Some(p) => self.model() == (ValueM::Crdt { kind: p.0, payload: (p.1)@ }),
                None => !(self.model() is Crdt),
            },
    {
        match self {
            Value::Crdt { kind, payload } => Some((*kind, payload.as_slice())),
            _ => None,
        }
    }

    /// A copy of the value.
    pub fn dup(&self) -> (r: Value)
        ensures
            r.model() == self.model(),
        decreases self,
    {
        match self {
            Value::Null => Value::Null,
            Value::Bool(b) => Value::Bool(*b),
            Value::Integer(n) => Value::Integer(*n),
            Value::Float(f) => Value::Float(*f),
            Value::String(s) => Value::String(s.clone()),
            Value::Bytes(b) => Value::Bytes(to_vec(b.as_slice())),
            Value::Array(a) => Value::Array(dup_items(a)),
            Value::Object(o) => Value::Object(dup_fields(o)),
            Value::Ref(c, id) => Value::Ref(c.clone(), *id),
            Value::Tombstone { deleted_at_hlc, vector_clock } => Value::Tombstone {
                deleted_at_hlc: *deleted_at_hlc,
                vector_clock: to_vec(vector_clock.as_slice()),
            },
            Value::Crdt { kind, payload } => Value::Crdt {
                kind: *kind,
                payload: to_vec(payload.as_slice()),
            },
        }
    }
}

/// A copy of a list of values.
pub fn dup_items(items: &Vec<Value>) -> (r: Vec<Value>)
    ensures
        models(r@) == models(items@),
    decreases items@,
{
    let mut out: Vec<Value> = Vec::new();
    let mut i: usize = 0;
    while i < items.len()
        invariant
            i <= items@.len(),
            out@.len() == i,
            forall|j: int| 0 <= j < i ==> (#[trigger] out@[j]).model() == items@[j].model(),
        decreases items@.len() - i,
    {
        let x: Value = items[i].dup();
        out.push(x);
        i = i + 1;
    }
    assert(models(out@) =~= models(items@));
    out
}

/// A copy of the fields of an object.
pub fn dup_fields(fields: &Vec<(String, Value)>) -> (r: Vec<(String, Value)>)
    ensures
        field_models(r@) == field_models(fields@),
    decreases fields@,
{
    let mut out: Vec<(String, Value)> = Vec::new();
    let mut i: usize = 0;
    while i < fields.len()
        invariant
            i <= fields@.len(),
            out@.len() == i,
            forall|j: int|
                0 <= j < i ==> (#[trigger] out@[j]).1.model() == fields@[j].1.model()
                    && out@[j].0@ == fields@[j].0@,
        decreases fields@.len() - i,
    {
        let x: Value = fields[i].1.dup();
        out.push((fields[i].0.clone(), x));
        i = i + 1;
    }
    assert(field_models(out@) =~= field_models(fields@));
    out
}

impl Clone for Value {
    fn clone(&self) -> (r: Self)
        ensures
            r.model() == self.model(),
    {
        self.dup()
    }
}

// ── Objects ─────────────────────────────────────────────────────────────

/// Field names in strictly ascending order.
pub open spec fn fields_sorted(o: FieldsM) -> bool {
    forall|i: int, j: int|
        0 <= i < j < o.len() ==> text_lt((#[trigger] o[i]).0, (#[trigger] o[j]).0)
}

/// The number of fields, from the front, with a name before `k`.
pub open spec fn field_rank(o: FieldsM, k: Seq<char>) -> int
    decreases o.len(),
{
    if o.len() == 0 {
        0
    } else if text_lt(o[0].0, k) {
        1 + field_rank(o.skip(1), k)
    } else {
        0
    }
}

/// The fields with `k` set to `v`.
pub open spec fn with_field(o: FieldsM, k: Seq<char>, v: ValueM) -> FieldsM {
    let p = field_rank(o, k);
    if p < o.len() && o[p].0 == k {
        o.update(p, (k, v))
    } else {
        o.insert(p, (k, v))
    }
}

/// The value of field `k`, if there is one.
pub open spec fn field_value(o: FieldsM, k: Seq<char>) -> Option<ValueM> {
    let p = field_rank(o, k);
    if p < o.len() && o[p].0 == k {
        Some(o[p].1)
    } else {
        None
    }
}

/// The fields that a list of assignments leaves, the later ones winning.
pub open spec fn assigned(pairs: FieldsM) -> FieldsM
    decreases pairs.len(),
{
    if pairs.len() == 0 {
        Seq::empty()
    } else {
        with_field(assigned(pairs.drop_last()), pairs.last().0, pairs.last().1)
    }
}

/// Texts are totally ordered.
pub proof fn lemma_text_order(a: Seq<char>, b: Seq<char>, c: Seq<char>)
    ensures
        !text_lt(a, a),
        text_lt(a, b) && text_lt(b, c) ==> text_lt(a, c),
        a == b || text_lt(a, b) || text_lt(b, a),
        text_lt(a, b) ==> !text_lt(b, a) && a != b,
{
    let x = vstd::utf8::encode_utf8(a);
    let y = vstd::utf8::encode_utf8(b);
    let z = vstd::utf8::encode_utf8(c);
    lemma_lex_irreflexive(x);
    lemma_lex_total(x, y);
    lemma_utf8_injective(a, b);
    if text_lt(a, b) && text_lt(b, c) {
        lemma_lex_transitive(x, y, z);
    }
    if text_lt(a, b) {
        lemma_lex_asymmetric(x, y);
    }
}

pub proof fn lemma_field_rank(o: FieldsM, k: Seq<char>)
    requires
        fields_sorted(o),
    ensures
        0 <= field_rank(o, k) <= o.len(),
        forall|i: int| 0 <= i < field_rank(o, k) ==> text_lt((#[trigger] o[i]).0, k),
        forall|i: int| field_rank(o, k) <= i < o.len() ==> !text_lt((#[trigger] o[i]).0, k),
    decreases o.len(),
{
    if o.len() > 0 {
        let t = o.skip(1);
        assert(fields_sorted(t)) by {
            assert forall|i: int, j: int| 0 <= i < j < t.len() implies text_lt(
                (#[trigger] t[i]).0,
                (#[trigger] t[j]).0,
            ) by {
                assert(text_lt(o[i + 1].0, o[j + 1].0));
            }
        }
        lemma_field_rank(t, k);
        if text_lt(o[0].0, k) {
            assert forall|i: int| 0 <= i < field_rank(o, k) implies text_lt(
                (#[trigger] o[i]).0,
                k,
            ) by {
                if i > 0 {
                    assert(o[i] == t[i - 1]);
                }
            }
            assert forall|i: int| field_rank(o, k) <= i < o.len() implies !text_lt(
                (#[trigger] o[i]).0,
                k,
            ) by {
                assert(o[i] == t[i - 1]);
            }
        } else {
            assert forall|i: int| 0 <= i < o.len() implies !text_lt((#[trigger] o[i]).0, k) by {
                if i > 0 && text_lt(o[i].0, k) {
                    assert(text_lt(o[0].0, o[i].0));
                    lemma_text_order(o[0].0, o[i].0, k);
                }
            }
        }
    }
}

/// Setting a field keeps the fields sorted.
pub proof fn lemma_with_field_sorted(o: FieldsM, k: Seq<char>, v: ValueM)
    requires
        fields_sorted(o),
    ensures
        fields_sorted(with_field(o, k, v)),
{
    lemma_field_rank(o, k);
    let p = field_rank(o, k);
    let w = with_field(o, k, v);
    if p < o.len() && o[p].0 == k {
        assert forall|i: int, j: int| 0 <= i < j < w.len() implies text_lt(
            (#[trigger] w[i]).0,
            (#[trigger] w[j]).0,
        ) by {
            assert(text_lt(o[i].0, o[j].0));
        }
    } else {
        assert forall|i: int, j: int| 0 <= i < j < w.len() implies text_lt(
            (#[trigger] w[i]).0,
            (#[trigger] w[j]).0,
        ) by {
            let a = if i < p {
                i
            } else {
                i - 1
            };
            let b = if j < p {
                j
            } else {
                j - 1
            };
            if i == p {
                assert(w[j] == o[b]);
                lemma_text_order(k, o[b].0, k);
                if b > p && o[b].0 == k {
                    assert(text_lt(o[p].0, o[b].0));
                }
            } else if j == p {
                assert(w[i] == o[a]);
            } else {
                assert(w[i] == o[a] && w[j] == o[b]);
                assert(text_lt(o[a].0, o[b].0));
            }
        }
    }
}

/// What was assigned to a field is its value; the other fields keep theirs.
pub proof fn law_field_assignment(o: FieldsM, k: Seq<char>, v: ValueM, q: Seq<char>)
    requires
        fields_sorted(o),
    ensures
        fields_sorted(with_field(o, k, v)),
        field_value(with_field(o, k, v), k) == Some(v),
        q != k ==> field_value(with_field(o, k, v), q) == field_value(o, q),
{
    lemma_with_field_sorted(o, k, v);
    lemma_field_rank(o, k);
    let p = field_rank(o, k);
    let w = with_field(o, k, v);
    lemma_field_at(w, k, p);
    if q != k {
        lemma_field_rank(o, q);
        lemma_field_rank(w, q);
        let r = field_rank(o, q);
        if r < o.len() && o[r].0 == q {
            let t = if p < o.len() && o[p].0 == k {
                r
            } else if r < p {
                r
            } else {
                r + 1
            };
            assert(w[t] == o[r]);
            lemma_field_at(w, q, t);
        } else {
            let t = field_rank(w, q);
            if t < w.len() && w[t].0 == q {
                let s = if p < o.len() && o[p].0 == k {
                    t
                } else if t < p {
                    t
                } else {
                    t - 1
                };
                assert(w[t] == o[s]);
                lemma_field_at(o, q, s);
            }
        }
    }
}

/// A field is found where it stands.
pub proof fn lemma_field_at(o: FieldsM, k: Seq<char>, p: int)
    requires
        fields_sorted(o),
        0 <= p < o.len(),
        o[p].0 == k,
    ensures
        field_rank(o, k) == p,
        field_value(o, k) == Some(o[p].1),
{
    lemma_field_rank(o, k);
    lemma_text_order(k, k, k);
    let r = field_rank(o, k);
    if r < p {
        assert(text_lt(o[r].0, o[p].0));
    } else if p < r {
        assert(text_lt(o[p].0, k));
    }
}

/// The assignments of sorted fields leave just those fields.
pub proof fn lemma_assigned_sorted(o: FieldsM)
    requires
        fields_sorted(o),
    ensures
        assigned(o) == o,
    decreases o.len(),
{
    if o.len() > 0 {
        let f = o.drop_last();
        assert(fields_sorted(f)) by {
            assert forall|i: int, j: int| 0 <= i < j < f.len() implies text_lt(
                (#[trigger] f[i]).0,
                (#[trigger] f[j]).0,
            ) by {
                assert(text_lt(o[i].0, o[j].0));
            }
        }
        lemma_assigned_sorted(f);
        let k = o.last().0;
        lemma_field_rank(f, k);
        let r = field_rank(f, k);
        if r < f.len() {
            assert(text_lt(o[r].0, o[o.len() - 1].0));
            assert(f[r] == o[r]);
        }
        assert(f.insert(r, o.last()) =~= o);
    } else {
        assert(assigned(o) =~= o);
    }
}

pub proof fn lemma_assigned_is_sorted(pairs: FieldsM)
    ensures
        fields_sorted(assigned(pairs)),
    decreases pairs.len(),
{
    if pairs.len() > 0 {
        lemma_assigned_is_sorted(pairs.drop_last());
        lemma_with_field_sorted(
            assigned(pairs.drop_last()),
            pairs.last().0,
            pairs.last().1,
        );
    }
}

/// All objects within a value have their fields sorted.
pub open spec fn value_wf(m: ValueM) -> bool
    decreases m,
{
    match m {
        ValueM::Array(items) => forall|i: int|
            0 <= i < items.len() ==> value_wf(#[trigger] items[i]),
        ValueM::Object(fields) => {
            &&& fields_sorted(fields)
            &&& forall|i: int| 0 <= i < fields.len() ==> value_wf((#[trigger] fields[i]).1)
        },
        _ => true,
    }
}

/// Finds the place of a field.
pub fn find_field(fields: &[(String, Value)], name: &str) -> (r: (usize, bool))
    requires
        fields_sorted(field_models(fields@)),
    ensures
        r.0 == field_rank(field_models(fields@), name@),
        r.1 == (field_value(field_models(fields@), name@) is Some),
        r.0 <= fields@.len(),
        r.1 ==> r.0 < fields@.len() && fields@[r.0 as int].0@ == name@,
{
    let ghost o = field_models(fields@);
    proof {
        lemma_field_rank(o, name@);
    }
    let mut i: usize = 0;
    while i < fields.len() && str_lt(fields[i].0.as_str(), name)
        invariant
            o == field_models(fields@),
            i <= fields@.len(),
            forall|j: int| 0 <= j < i ==> text_lt((#[trigger] o[j]).0, name@),
        decreases fields@.len() - i,
    {
        assert(o[i as int].0 == fields@[i as int].0@);
        i = i + 1;
    }
    proof {
        let p = field_rank(o, name@);
        if i < p {
            assert(text_lt(o[i as int].0, name@));
            assert(o[i as int].0 == fields@[i as int].0@);
        } else if p < i {
            assert(text_lt(o[p].0, name@));
        }
    }
    if i < fields.len() && str_eq(fields[i].0.as_str(), name) {
        assert(o[i as int].0 == fields@[i as int].0@);
        (i, true)
    } else {
        proof {
            if i < fields@.len() {
                assert(o[i as int].0 == fields@[i as int].0@);
            }
        }
        (i, false)
    }
}

/// Sets a field.
pub fn put_field(fields: &mut Vec<(String, Value)>, name: String, value: Value)
    requires
        fields_sorted(field_models(old(fields)@)),
    ensures
        field_models(final(fields)@) == with_field(
            field_models(old(fields)@),
            name@,
            value.model(),
        ),
        fields_sorted(field_models(final(fields)@)),
{
    let ghost o = field_models(fields@);
    let ghost k = name@;
    let ghost v = value.model();
    let (p, found) = find_field(fields.as_slice(), name.as_str());
    proof {
        lemma_with_field_sorted(o, k, v);
        lemma_field_rank(o, k);
    }
    if found {
        fields.set(p, (name, value));
        assert(field_models(fields@) =~= o.update(p as int, (k, v)));
    } else {
        fields.insert(p, (name, value));
        assert(field_models(fields@) =~= o.insert(p as int, (k, v)));
    }
}

/// The object that a list of assignments makes, the later ones winning.
pub fn object(pairs: Vec<(String, Value)>) -> (r: Value)
    ensures
        r.model() == ValueM::Object(assigned(field_models(pairs@))),
{
    let mut rest: Vec<(String, Value)> = pairs;
    let ghost all = field_models(pairs@);
    let mut out: Vec<(String, Value)> = Vec::new();
    let mut i: usize = 0;
    let n: usize = rest.len();
    proof {
        assert(field_models(out@) =~= assigned(all.take(0)));
    }
    while i < n
        invariant
            i <= n,
            n == all.len(),
            rest@.len() == n - i,
            field_models(rest@) == all.skip(i as int),
            field_models(out@) == assigned(all.take(i as int)),
        decreases n - i,
    {
        let ghost before = field_models(rest@);
        let (k, v) = rest.remove(0);
        proof {
            lemma_assigned_is_sorted(all.take(i as int));
            assert(before[0] == all[i as int]);
            assert(before[0] == (k@, v.model()));
            assert(field_models(rest@) =~= before.skip(1));
            assert(field_models(rest@) =~= all.skip(i + 1));
            assert(all.take(i + 1).drop_last() =~= all.take(i as int));
            assert(all.take(i + 1).last() == all[i as int]);
        }
        put_field(&mut out, k, v);
        i = i + 1;
    }
    assert(all.take(n as int) =~= all);
    Value::Object(out)
}

/// Values stand for what they hold.
pub proof fn law_models_hold_the_values(v: Value)
    ensures
        match v {
            Value::Null => v.model() == ValueM::Null,
            Value::Bool(b) => v.model() == ValueM::Bool(b),
            Value::Integer(n) => v.model() == ValueM::Integer(n),
            Value::Float(f) => v.model() == ValueM::Float(f),
            Value::String(s) => v.model() == ValueM::String(s@),
            Value::Bytes(b) => v.model() == ValueM::Bytes(b@),
            Value::Array(a) => v.model() matches ValueM::Array(x) && x.len() == a@.len() && forall|
                i: int,
            |
                0 <= i < a@.len() ==> #[trigger] x[i] == a@[i].model(),
            Value::Object(o) => v.model() matches ValueM::Object(x) && x.len() == o@.len()
                && forall|i: int|
                0 <= i < o@.len() ==> (#[trigger] x[i]) == (o@[i].0@, o@[i].1.model()),
            Value::Ref(c, id) => v.model() == ValueM::Ref(c@, id.0),
            Value::Tombstone { deleted_at_hlc, vector_clock } => v.model() == (ValueM::Tombstone {
                deleted_at_hlc,
                vector_clock: vector_clock@,
            }),
            Value::Crdt { kind, payload } => v.model() == (ValueM::Crdt {
                kind,
                payload: payload@,
            }),
        },
{
}

/// Fields that are assigned one after the other: every name has the value that
/// was assigned to it last, and only names that were assigned are there.
pub proof fn law_last_assignment_counts(pairs: FieldsM, k: Seq<char>)
    ensures
        fields_sorted(assigned(pairs)),
        forall|i: int|
            0 <= i < pairs.len() && (#[trigger] pairs[i]).0 == k && (forall|j: int|
                i < j < pairs.len() ==> (#[trigger] pairs[j]).0 != k) ==> field_value(
                assigned(pairs),
                k,
            ) == Some(pairs[i].1),
        (forall|i: int| 0 <= i < pairs.len() ==> (#[trigger] pairs[i]).0 != k) ==> field_value(
            assigned(pairs),
            k,
        ) is None,
    decreases pairs.len(),
{
    if pairs.len() > 0 {
        let f = pairs.drop_last();
        let last = pairs.last();
        law_last_assignment_counts(f, k);
        law_field_assignment(assigned(f), last.0, last.1, k);
        assert(pairs[pairs.len() - 1] == last);
        assert forall|i: int|
            0 <= i < pairs.len() && (#[trigger] pairs[i]).0 == k && (forall|j: int|
                i < j < pairs.len() ==> (#[trigger] pairs[j]).0 != k) implies field_value(
            assigned(pairs),
            k,
        ) == Some(pairs[i].1) by {
            if i < f.len() {
                assert(pairs[pairs.len() - 1].0 != k);
                assert(f[i] == pairs[i]);
                assert forall|j: int| i < j < f.len() implies (#[trigger] f[j]).0 != k by {
                    assert(f[j] == pairs[j]);
                }
            }
        }
        if forall|i: int| 0 <= i < pairs.len() ==> (#[trigger] pairs[i]).0 != k {
            assert(pairs[pairs.len() - 1].0 != k);
            assert forall|i: int| 0 <= i < f.len() implies (#[trigger] f[i]).0 != k by {
                assert(f[i] == pairs[i]);
            }
        }
    }
}

} // verus!
