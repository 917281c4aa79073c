//! Equality of values as documents compare them: floats by number, not by
//! their bits.

use vstd::prelude::*;

use crate::bytes::bytes_eq;
use crate::document::value::{field_models, models, Value, ValueM};
use crate::text::str_eq;

verus! {

/// The magnitude of a float: its bits without the sign.
pub open spec fn magnitude(bits: u64) -> u64 {
    if bits >= 0x8000_0000_0000_0000 {
        (bits - 0x8000_0000_0000_0000) as u64
    } else {
        bits
    }
}

/// The bits of a float that is not a number.
pub open spec fn is_nan(bits: u64) -> bool {
    magnitude(bits) > 0x7ff0_0000_0000_0000
}

/// Two floats are the same number: NaN equals nothing, and both zeros are
/// equal.
pub open spec fn same_float(a: u64, b: u64) -> bool {
    !is_nan(a) && !is_nan(b) && (a == b || (magnitude(a) == 0 && magnitude(b) == 0))
}

/// Two values are equal.
pub open spec fn same_value(a: ValueM, b: ValueM) -> bool
    decreases a,
{
    match (a, b) {
        (ValueM::Null, ValueM::Null) => true,
        (ValueM::Bool(x), ValueM::Bool(y)) => x == y,
        (ValueM::Integer(x), ValueM::Integer(y)) => x == y,
        (ValueM::Float(x), ValueM::Float(y)) => same_float(x, y),
        (ValueM::String(x), ValueM::String(y)) => x == y,
        (ValueM::Bytes(x), ValueM::Bytes(y)) => x == y,
        (ValueM::Array(x), ValueM::Array(y)) => x.len() == y.len() && forall|i: int|
            0 <= i < x.len() ==> same_value(#[trigger] x[i], y[i]),
        (ValueM::Object(x), ValueM::Object(y)) => x.len() == y.len() && forall|i: int|
            0 <= i < x.len() ==> (#[trigger] x[i]).0 == y[i].0 && same_value(x[i].1, y[i].1),
        (ValueM::Ref(c, x), ValueM::Ref(d, y)) => c == d && x == y,
        (
            ValueM::Tombstone { deleted_at_hlc: h, vector_clock: c },
            ValueM::Tombstone { deleted_at_hlc: g, vector_clock: d },
        ) => h == g && c == d,
        (ValueM::Crdt { kind: k, payload: p }, ValueM::Crdt { kind: l, payload: q }) => k == l && p
            == q,
        _ => false,
    }
}

fn float_eq(a: u64, b: u64) -> (r: bool)
    ensures
        r == same_float(a, b),
{
    let x: u64 = if a >= 0x8000_0000_0000_0000 {
        a - 0x8000_0000_0000_0000
    } else {
        a
    };
    let y: u64 = if b >= 0x8000_0000_0000_0000 {
        b - 0x8000_0000_0000_0000
    } else {
        b
    };
    x <= 0x7ff0_0000_0000_0000 && y <= 0x7ff0_0000_0000_0000 && (a == b || (x == 0 && y == 0))
}

/// Whether two values are equal.
pub fn values_equal(a: &Value, b: &Value) -> (r: bool)
    ensures
        r == same_value(a.model(), b.model()),
    decreases a,
{
    match (a, b) {
        (Value::Null, Value::Null) => true,
        (Value::Bool(x), Value::Bool(y)) => *x == *y,
        (Value::Integer(x), Value::Integer(y)) => *x == *y,
        (Value::Float(x), Value::Float(y)) => float_eq(*x, *y),
        (Value::String(x), Value::String(y)) => str_eq(x.as_str(), y.as_str()),
        (Value::Bytes(x), Value::Bytes(y)) => bytes_eq(x.as_slice(), y.as_slice()),
        (Value::Array(x), Value::Array(y)) => {
            let r = items_equal(x, y);
            proof {
                assert(a.model() == ValueM::Array(models(x@)));
                assert(b.model() == ValueM::Array(models(y@)));
                assert(models(x@).len() == x@.len() && models(y@).len() == y@.len());
            }
            r
        },
        (Value::Object(x), Value::Object(y)) => {
            let r = fields_equal(x, y);
            proof {
                assert(a.model() == ValueM::Object(field_models(x@)));
                assert(b.model() == ValueM::Object(field_models(y@)));
                assert(field_models(x@).len() == x@.len() && field_models(y@).len() == y@.len());
            }
            r
        },
        (Value::Ref(c, x), Value::Ref(d, y)) => str_eq(c.as_str(), d.as_str()) && x.0 == y.0,
        (
            Value::Tombstone { deleted_at_hlc: h, vector_clock: c },
            Value::Tombstone { deleted_at_hlc: g, vector_clock: d },
        ) => *h == *g && bytes_eq(c.as_slice(), d.as_slice()),
        (Value::Crdt { kind: k, payload: p }, Value::Crdt { kind: l, payload: q }) => *k == *l
            && bytes_eq(p.as_slice(), q.as_slice()),
        _ => false,
    }
}

impl PartialEq for Value {
    fn eq(&self, other: &Self) -> (r: bool) {
        values_equal(self, other)
    }
}

impl vstd::std_specs::cmp::PartialEqSpecImpl for Value {
    open spec fn obeys_eq_spec() -> bool {
        true
    }

    open spec fn eq_spec(&self, other: &Self) -> bool {
        same_value(self.model(), other.model())
    }
}

fn items_equal(x: &Vec<Value>, y: &Vec<Value>) -> (r: bool)
    ensures
        r == (x@.len() == y@.len() && forall|i: int|
            0 <= i < x@.len() ==> same_value(#[trigger] models(x@)[i], models(y@)[i])),
    decreases x@,
{
    if x.len() != y.len() {
        return false;
    }
    let mut i: usize = 0;
    while i < x.len()
        invariant
            x@.len() == y@.len(),
            i <= x@.len(),
            forall|j: int| 0 <= j < i ==> same_value(#[trigger] models(x@)[j], models(y@)[j]),
        decreases x@.len() - i,
    {
        assert(models(x@)[i as int] == x@[i as int].model());
        assert(models(y@)[i as int] == y@[i as int].model());
        assert(decreases_to!(x@ => x@[i as int]));
        if !values_equal(&x[i], &y[i]) {
            return false;
        }
        i = i + 1;
    }
    true
}

fn fields_equal(x: &Vec<(String, Value)>, y: &Vec<(String, Value)>) -> (r: bool)
    ensures
        r == (x@.len() == y@.len() && forall|i: int|
            0 <= i < x@.len() ==> (#[trigger] field_models(x@)[i]).0 == field_models(y@)[i].0
                && same_value(field_models(x@)[i].1, field_models(y@)[i].1)),
    decreases x@,
{
    if x.len() != y.len() {
        return false;
    }
    let mut i: usize = 0;
    while i < x.len()
        invariant
            x@.len() == y@.len(),
            i <= x@.len(),
            forall|j: int|
                0 <= j < i ==> (#[trigger] field_models(x@)[j]).0 == field_models(y@)[j].0
                    && same_value(field_models(x@)[j].1, field_models(y@)[j].1),
        decreases x@.len() - i,
    {
        assert(field_models(x@)[i as int] == (x@[i as int].0@, x@[i as int].1.model()));
        assert(field_models(y@)[i as int] == (y@[i as int].0@, y@[i as int].1.model()));
        assert(decreases_to!(x@ => x@[i as int]));
        if !str_eq(x[i].0.as_str(), y[i].0.as_str()) || !values_equal(&x[i].1, &y[i].1) {
            return false;
        }
        i = i + 1;
    }
    true
}

/// No float stands in a value.
pub open spec fn floatless(m: ValueM) -> bool
    decreases m,
{
    match m {
        ValueM::Float(_) => false,
        ValueM::Array(items) => forall|i: int| 0 <= i < items.len() ==> floatless(#[trigger] items[i]),
        ValueM::Object(fields) => forall|i: int|
            0 <= i < fields.len() ==> floatless((#[trigger] fields[i]).1),
        _ => true,
    }
}

/// Values without floats are equal exactly if they are the same. Floats are
/// equal if they are the same number: not where one is no number, and both
/// zeros are.
pub proof fn law_equal_values_are_the_same(a: ValueM, b: ValueM)
    ensures
        floatless(a) ==> same_value(a, b) == (a == b),
        a is Float && b is Float ==> {
            let (x, y) = (a->Float_0, b->Float_0);
            same_value(a, b) == (x % 0x8000_0000_0000_0000 <= 0x7ff0_0000_0000_0000 && y
                % 0x8000_0000_0000_0000 <= 0x7ff0_0000_0000_0000 && (x == y || (x
                % 0x8000_0000_0000_0000 == 0 && y % 0x8000_0000_0000_0000 == 0)))
        },
        (a is Float) != (b is Float) ==> !same_value(a, b),
    decreases a,
{
    match (a, b) {
        (ValueM::Float(x), ValueM::Float(y)) => {
            assert(magnitude(x) == x % 0x8000_0000_0000_0000);
            assert(magnitude(y) == y % 0x8000_0000_0000_0000);
        },
        (ValueM::Array(x), ValueM::Array(y)) => {
            if floatless(a) {
                assert forall|i: int| 0 <= i < x.len() && i < y.len() implies same_value(
                    #[trigger] x[i],
                    y[i],
                ) == (x[i] == y[i]) by {
                    assert(floatless(x[i]));
                    law_equal_values_are_the_same(x[i], y[i]);
                }
                if same_value(a, b) {
                    assert forall|i: int| 0 <= i < x.len() implies x[i] == y[i] by {
                        assert(same_value(x[i], y[i]));
                    }
                    assert(x =~= y);
                }
            }
        },
        (ValueM::Object(x), ValueM::Object(y)) => {
            if floatless(a) {
                assert forall|i: int| 0 <= i < x.len() && i < y.len() implies same_value(
                    (#[trigger] x[i]).1,
                    y[i].1,
                ) == (x[i].1 == y[i].1) by {
                    assert(floatless(x[i].1));
                    law_equal_values_are_the_same(x[i].1, y[i].1);
                }
                if same_value(a, b) {
                    assert forall|i: int| 0 <= i < x.len() implies x[i] == y[i] by {
                        assert(x[i].0 == y[i].0 && same_value(x[i].1, y[i].1));
                    }
                    assert(x =~= y);
                }
            }
        },
        _ => {},
    }
}

} // verus!
