//! References between documents.

use vstd::prelude::*;

use crate::database::tables::{doc_read, gets, DocRead, TableM};
use crate::database::{cached_only, no_collection, Database};
use crate::document::value::{field_models, models, FieldsM, Value, ValueM};
use crate::error::{GrumpyError, Result};
use crate::text::{owned, str_eq};
use crate::uid::Uuid;

verus! {

/// A document that a reference points to: its collection and its key.
pub type Target = (Seq<char>, u128);

/// What resolving references gives.
pub enum Resolved<T> {
    /// The references are resolved.
    Done(T),
    /// A reference leads back to itself.
    Cycle,
    /// A reference names a collection that does not exist.
    NoCollection(Seq<char>),
    /// A document that a reference points to cannot be read.
    Unreadable(Seq<char>),
}

/// A value with its references replaced by the documents they point to, and so
/// on in those, down to a depth. `path` holds the references on the way here.
/// A reference to a missing or deleted document stays.
pub open spec fn resolved(
    ts: Seq<TableM>,
    m: ValueM,
    left: nat,
    path: Seq<Target>,
) -> Resolved<ValueM>
    decreases left, m, 1nat,
{
    if left == 0 {
        Resolved::Done(m)
    } else {
        match m {
            ValueM::Ref(c, id) => if path.contains((c, id)) {
                Resolved::Cycle
            } else {
                match doc_read(ts, c, id) {
                    DocRead::NoCollection => Resolved::NoCollection(c),
                    DocRead::Unreadable(e) => Resolved::Unreadable(e),
                    DocRead::Absent => Resolved::Done(m),
                    DocRead::Found(t) => if t is Tombstone {
                        Resolved::Done(m)
                    } else {
                        resolved(ts, t, (left - 1) as nat, path.push((c, id)))
                    },
                }
            },
            ValueM::Array(items) => match resolved_items(ts, items, left, path) {
                Resolved::Done(x) => Resolved::Done(ValueM::Array(x)),
                Resolved::Cycle => Resolved::Cycle,
                Resolved::NoCollection(c) => Resolved::NoCollection(c),
                Resolved::Unreadable(e) => Resolved::Unreadable(e),
            },
            ValueM::Object(fields) => match resolved_fields(ts, fields, left, path) {
                Resolved::Done(x) => Resolved::Done(ValueM::Object(x)),
                Resolved::Cycle => Resolved::Cycle,
                Resolved::NoCollection(c) => Resolved::NoCollection(c),
                Resolved::Unreadable(e) => Resolved::Unreadable(e),
            },
            _ => Resolved::Done(m),
        }
    }
}

/// Values with their references resolved, one by one.
pub open spec fn resolved_items(
    ts: Seq<TableM>,
    items: Seq<ValueM>,
    left: nat,
    path: Seq<Target>,
) -> Resolved<Seq<ValueM>>
    decreases left, items, 0nat,
{
    if items.len() == 0 {
        Resolved::Done(Seq::empty())
    } else {
        match resolved(ts, items[0], left, path) {
            Resolved::Done(x) => match resolved_items(
                ts,
                items.subrange(1, items.len() as int),
                left,
                path,
            ) {
                Resolved::Done(rest) => Resolved::Done(seq![x] + rest),
                Resolved::Cycle => Resolved::Cycle,
                Resolved::NoCollection(c) => Resolved::NoCollection(c),
                Resolved::Unreadable(e) => Resolved::Unreadable(e),
            },
            Resolved::Cycle => Resolved::Cycle,
            Resolved::NoCollection(c) => Resolved::NoCollection(c),
            Resolved::Unreadable(e) => Resolved::Unreadable(e),
        }
    }
}

/// Fields with the references in their values resolved, one by one.
pub open spec fn resolved_fields(
    ts: Seq<TableM>,
    fields: FieldsM,
    left: nat,
    path: Seq<Target>,
) -> Resolved<FieldsM>
    decreases left, fields, 0nat,
{
    if fields.len() == 0 {
        Resolved::Done(Seq::empty())
    } else {
        match resolved(ts, fields[0].1, left, path) {
            Resolved::Done(x) => match resolved_fields(
                ts,
                fields.subrange(1, fields.len() as int),
                left,
                path,
            ) {
                Resolved::Done(rest) => Resolved::Done(seq![(fields[0].0, x)] + rest),
                Resolved::Cycle => Resolved::Cycle,
                Resolved::NoCollection(c) => Resolved::NoCollection(c),
                Resolved::Unreadable(e) => Resolved::Unreadable(e),
            },
            Resolved::Cycle => Resolved::Cycle,
            Resolved::NoCollection(c) => Resolved::NoCollection(c),
            Resolved::Unreadable(e) => Resolved::Unreadable(e),
        }
    }
}

/// `e` reports why references could not be resolved.
pub open spec fn reports<T>(e: GrumpyError, x: Resolved<T>) -> bool {
    match x {
        Resolved::Done(_) => false,
        Resolved::Cycle => e == GrumpyError::CyclicReference,
        Resolved::NoCollection(c) => no_collection(e, c),
        Resolved::Unreadable(m) => e is Codec && (e->Codec_0)@ == m,
    }
}

/// What resolving all references in a value gives.
pub open spec fn resolves(r: Result<Value>, ts: Seq<TableM>, m: ValueM, max_depth: nat) -> bool {
    match r {
        Ok(v) => resolved(ts, m, max_depth + 1, Seq::empty()) == Resolved::Done(v.model()),
        Err(e) => reports(e, resolved(ts, m, max_depth + 1, Seq::empty())),
    }
}

/// The references on the way.
pub open spec fn targets(path: Seq<(String, Uuid)>) -> Seq<Target> {
    Seq::new(path.len(), |i: int| (path[i].0@, (path[i].1).0))
}

fn on_path(path: &Vec<(String, Uuid)>, collection: &str, id: &Uuid) -> (r: bool)
    ensures
        r == targets(path@).contains((collection@, id.0)),
{
    let ghost t = targets(path@);
    let mut i: usize = 0;
    while i < path.len()
        invariant
            t == targets(path@),
            i <= path@.len(),
            forall|j: int| 0 <= j < i ==> #[trigger] t[j] != (collection@, id.0),
        decreases path@.len() - i,
    {
        assert(t[i as int] == (path@[i as int].0@, (path@[i as int].1).0));
        if str_eq(path[i].0.as_str(), collection) && path[i].1.as_u128() == id.as_u128() {
            return true;
        }
        i = i + 1;
    }
    false
}

impl Database {
    /// Resolves a single reference to its target document value.
    pub fn resolve_ref(&mut self, collection: &str, id: &Uuid) -> (r: Result<Option<Value>>)
        requires
            old(self).wf(),
        ensures
            final(self).wf(),
            cached_only(*old(self), *final(self)),
            gets(r, old(self).tables(), collection@, id.0),
    {
        self.get(collection, id)
    }

    /// Recursively resolves all `Ref` values in a value tree.
    ///
    /// Each `Value::Ref(collection, uuid)` is replaced by the target document's
    /// value. Cycles are detected and return `GrumpyError::CyclicReference`.
    pub fn resolve_deep(&mut self, value: &Value, max_depth: usize) -> (r: Result<Value>)
        requires
            old(self).wf(),
        ensures
            final(self).wf(),
            cached_only(*old(self), *final(self)),
            resolves(r, old(self).tables(), value.model(), max_depth as nat),
    {
        let mut path: Vec<(String, Uuid)> = Vec::new();
        assert(targets(path@) =~= Seq::<Target>::empty());
        self.resolve_recursive(value, max_depth, 0, &mut path)
    }

    fn resolve_recursive(
        &mut self,
        value: &Value,
        max_depth: usize,
        depth: usize,
        path: &mut Vec<(String, Uuid)>,
    ) -> (r: Result<Value>)
        requires
            old(self).wf(),
            depth <= max_depth + 1,
        ensures
            final(self).wf(),
            cached_only(*old(self), *final(self)),
            targets(final(path)@) == targets(old(path)@),
            match r {
                Ok(v) => resolved(
                    old(self).tables(),
                    value.model(),
                    (max_depth + 1 - depth) as nat,
                    targets(old(path)@),
                ) == Resolved::Done(v.model()),
                Err(e) => reports(
                    e,
                    resolved(
                        old(self).tables(),
                        value.model(),
                        (max_depth + 1 - depth) as nat,
                        targets(old(path)@),
                    ),
                ),
            },
        decreases max_depth + 1 - depth, value, 1nat,
    {
        proof {
            crate::database::tables::lemma_same_content(self.collections@);
        }
        if depth > max_depth {
            return Ok(value.dup());
        }
        match value {
            Value::Ref(collection, id) => {
                if on_path(path, collection.as_str(), id) {
                    return Err(GrumpyError::CyclicReference);
                }
                match self.get(collection.as_str(), id) {
                    Ok(Some(target)) => {
                        let ghost p0 = path@;
                        if depth == usize::MAX {
                            proof {
                                let deeper = targets(p0).push((collection@, id.0));
                                assert(resolved(old(self).tables(), target.model(), 0, deeper)
                                    == Resolved::Done(target.model()));
                            }
                            return Ok(target);
                        }
                        path.push((owned(collection.as_str()), *id));
                        proof {
                            assert(targets(path@) =~= targets(p0).push((collection@, id.0)));
                        }
                        let r = self.resolve_recursive(&target, max_depth, depth + 1, path);
                        let ghost p1 = path@;
                        let _ = path.pop();
                        proof {
                            assert(path@ == p1.drop_last());
                            assert(targets(path@) =~= targets(p1).drop_last());
                            assert(targets(p1).drop_last() =~= targets(p0));
                        }
                        r
                    },
                    Ok(None) => Ok(value.dup()),
                    Err(e) => Err(e),
                }
            },
            Value::Object(fields) => {
                assert(value.model() == ValueM::Object(field_models(fields@)));
                match self.resolve_fields(fields, max_depth, depth, path) {
                    Ok(v) => Ok(Value::Object(v)),
                    Err(e) => Err(e),
                }
            },
            Value::Array(items) => {
                assert(value.model() == ValueM::Array(models(items@)));
                match self.resolve_items(items, max_depth, depth, path) {
                    Ok(v) => Ok(Value::Array(v)),
                    Err(e) => Err(e),
                }
            },
            _ => Ok(value.dup()),
        }
    }

    fn resolve_items(
        &mut self,
        items: &Vec<Value>,
        max_depth: usize,
        depth: usize,
        path: &mut Vec<(String, Uuid)>,
    ) -> (r: Result<Vec<Value>>)
        requires
            old(self).wf(),
            depth <= max_depth + 1,
        ensures
            final(self).wf(),
            cached_only(*old(self), *final(self)),
            targets(final(path)@) == targets(old(path)@),
            match r {
                Ok(v) => resolved_items(
                    old(self).tables(),
                    models(items@),
                    (max_depth + 1 - depth) as nat,
                    targets(old(path)@),
                ) == Resolved::Done(models(v@)),
                Err(e) => reports(
                    e,
                    resolved_items(
                        old(self).tables(),
                        models(items@),
                        (max_depth + 1 - depth) as nat,
                        targets(old(path)@),
                    ),
                ),
            },
        decreases max_depth + 1 - depth, items@, 0nat,
    {
        let ghost d0 = *self;
        let ghost ts = self.tables();
        let ghost left = (max_depth + 1 - depth) as nat;
        let ghost way = targets(path@);
        let ghost ms = models(items@);
        proof {
            crate::database::tables::lemma_same_content(self.collections@);
        }
        let mut out: Vec<Value> = Vec::new();
        let mut i: usize = 0;
        assert(ms.skip(0) =~= ms);
        assert(models(out@) =~= Seq::<ValueM>::empty());
        proof {
            lemma_ahead_none(ts, ms, left, way);
        }
        while i < items.len()
            invariant
                d0 == *old(self),
                self.wf(),
                cached_only(d0, *self),
                ts == d0.tables(),
                ms == models(items@),
                depth <= max_depth + 1,
                left == (max_depth + 1 - depth) as nat,
                way == targets(path@),
                way == targets(old(path)@),
                i <= items@.len(),
                items_ahead(ts, ms, left, way, models(out@), i as int),
            decreases items@.len() - i,
        {
            proof {
                assert(ms[i as int] == items@[i as int].model());
                assert(decreases_to!(items@ => items@[i as int]));
            }
            match self.resolve_recursive(&items[i], max_depth, depth, path) {
                Ok(v) => {
                    let ghost before = out@;
                    let ghost m = v.model();
                    out.push(v);
                    proof {
                        assert(models(out@) =~= models(before).push(m));
                        lemma_items_step(ts, ms, left, way, models(before), i as int, m);
                    }
                },
                Err(e) => {
                    proof {
                        lemma_items_fail(ts, ms, left, way, models(out@), i as int, e);
                    }
                    return Err(e);
                },
            }
            i = i + 1;
        }
        proof {
            assert(ms.skip(i as int) =~= Seq::<ValueM>::empty());
            assert(models(out@) + Seq::<ValueM>::empty() =~= models(out@));
        }
        Ok(out)
    }

    fn resolve_fields(
        &mut self,
        fields: &Vec<(String, Value)>,
        max_depth: usize,
        depth: usize,
        path: &mut Vec<(String, Uuid)>,
    ) -> (r: Result<Vec<(String, Value)>>)
        requires
            old(self).wf(),
            depth <= max_depth + 1,
        ensures
            final(self).wf(),
            cached_only(*old(self), *final(self)),
            targets(final(path)@) == targets(old(path)@),
            match r {
                Ok(v) => resolved_fields(
                    old(self).tables(),
                    field_models(fields@),
                    (max_depth + 1 - depth) as nat,
                    targets(old(path)@),
                ) == Resolved::Done(field_models(v@)),
                Err(e) => reports(
                    e,
                    resolved_fields(
                        old(self).tables(),
                        field_models(fields@),
                        (max_depth + 1 - depth) as nat,
                        targets(old(path)@),
                    ),
                ),
            },
        decreases max_depth + 1 - depth, fields@, 0nat,
    {
        let ghost d0 = *self;
        let ghost ts = self.tables();
        let ghost left = (max_depth + 1 - depth) as nat;
        let ghost way = targets(path@);
        let ghost ms = field_models(fields@);
        proof {
            crate::database::tables::lemma_same_content(self.collections@);
        }
        let mut out: Vec<(String, Value)> = Vec::new();
        let mut i: usize = 0;
        assert(ms.skip(0) =~= ms);
        assert(field_models(out@) =~= Seq::<(Seq<char>, ValueM)>::empty());
        proof {
            lemma_fields_ahead_none(ts, ms, left, way);
        }
        while i < fields.len()
            invariant
                d0 == *old(self),
                self.wf(),
                cached_only(d0, *self),
                ts == d0.tables(),
                ms == field_models(fields@),
                depth <= max_depth + 1,
                left == (max_depth + 1 - depth) as nat,
                way == targets(path@),
                way == targets(old(path)@),
                i <= fields@.len(),
                fields_ahead(ts, ms, left, way, field_models(out@), i as int),
            decreases fields@.len() - i,
        {
            proof {
                assert(ms[i as int] == (fields@[i as int].0@, fields@[i as int].1.model()));
                assert(decreases_to!(fields@ => fields@[i as int]));
            }
            match self.resolve_recursive(&fields[i].1, max_depth, depth, path) {
                Ok(v) => {
                    let ghost before = out@;
                    let ghost m = v.model();
                    out.push((owned(fields[i].0.as_str()), v));
                    proof {
                        assert(field_models(out@) =~= field_models(before).push(
                            (ms[i as int].0, m),
                        ));
                        lemma_fields_step(ts, ms, left, way, field_models(before), i as int, m);
                    }
                },
                Err(e) => {
                    proof {
                        lemma_fields_fail(ts, ms, left, way, field_models(out@), i as int, e);
                    }
                    return Err(e);
                },
            }
            i = i + 1;
        }
        proof {
            assert(ms.skip(i as int) =~= Seq::<(Seq<char>, ValueM)>::empty());
            assert(field_models(out@) + Seq::<(Seq<char>, ValueM)>::empty() =~= field_models(out@));
        }
        Ok(out)
    }
}

/// With `n` items done, what is left decides the result.
spec fn items_ahead(
    ts: Seq<TableM>,
    ms: Seq<ValueM>,
    left: nat,
    way: Seq<Target>,
    done: Seq<ValueM>,
    n: int,
) -> bool {
    match resolved_items(ts, ms.skip(n), left, way) {
        Resolved::Done(rest) => resolved_items(ts, ms, left, way) == Resolved::Done(done + rest),
        Resolved::Cycle => resolved_items(ts, ms, left, way) is Cycle,
        Resolved::NoCollection(c) => resolved_items(ts, ms, left, way) == Resolved::<
            Seq<ValueM>,
        >::NoCollection(c),
        Resolved::Unreadable(e) => resolved_items(ts, ms, left, way) == Resolved::<
            Seq<ValueM>,
        >::Unreadable(e),
    }
}

proof fn lemma_ahead_none(ts: Seq<TableM>, ms: Seq<ValueM>, left: nat, way: Seq<Target>)
    ensures
        items_ahead(ts, ms, left, way, Seq::empty(), 0),
{
    assert(ms.skip(0) =~= ms);
    if let Resolved::Done(x) = resolved_items(ts, ms, left, way) {
        assert(Seq::<ValueM>::empty() + x =~= x);
    }
}

proof fn lemma_items_step(
    ts: Seq<TableM>,
    ms: Seq<ValueM>,
    left: nat,
    way: Seq<Target>,
    done: Seq<ValueM>,
    n: int,
    m: ValueM,
)
    requires
        0 <= n < ms.len(),
        items_ahead(ts, ms, left, way, done, n),
        resolved(ts, ms[n], left, way) == Resolved::Done(m),
    ensures
        items_ahead(ts, ms, left, way, done.push(m), n + 1),
{
    let rest = ms.skip(n);
    assert(rest[0] == ms[n]);
    assert(rest.subrange(1, rest.len() as int) =~= ms.skip(n + 1));
    if let Resolved::Done(x) = resolved_items(ts, ms.skip(n + 1), left, way) {
        assert(done + (seq![m] + x) =~= done.push(m) + x);
    }
}

proof fn lemma_items_fail(
    ts: Seq<TableM>,
    ms: Seq<ValueM>,
    left: nat,
    way: Seq<Target>,
    done: Seq<ValueM>,
    n: int,
    e: GrumpyError,
)
    requires
        0 <= n < ms.len(),
        items_ahead(ts, ms, left, way, done, n),
        reports(e, resolved(ts, ms[n], left, way)),
    ensures
        reports(e, resolved_items(ts, ms, left, way)),
{
    let rest = ms.skip(n);
    assert(rest[0] == ms[n]);
}

/// With `n` fields done, what is left decides the result.
spec fn fields_ahead(
    ts: Seq<TableM>,
    ms: FieldsM,
    left: nat,
    way: Seq<Target>,
    done: FieldsM,
    n: int,
) -> bool {
    match resolved_fields(ts, ms.skip(n), left, way) {
        Resolved::Done(rest) => resolved_fields(ts, ms, left, way) == Resolved::Done(done + rest),
        Resolved::Cycle => resolved_fields(ts, ms, left, way) is Cycle,
        Resolved::NoCollection(c) => resolved_fields(ts, ms, left, way) == Resolved::<
            FieldsM,
        >::NoCollection(c),
        Resolved::Unreadable(e) => resolved_fields(ts, ms, left, way) == Resolved::<
            FieldsM,
        >::Unreadable(e),
    }
}

proof fn lemma_fields_ahead_none(ts: Seq<TableM>, ms: FieldsM, left: nat, way: Seq<Target>)
    ensures
        fields_ahead(ts, ms, left, way, Seq::empty(), 0),
{
    assert(ms.skip(0) =~= ms);
    if let Resolved::Done(x) = resolved_fields(ts, ms, left, way) {
        assert(Seq::<(Seq<char>, ValueM)>::empty() + x =~= x);
    }
}

proof fn lemma_fields_step(
    ts: Seq<TableM>,
    ms: FieldsM,
    left: nat,
    way: Seq<Target>,
    done: FieldsM,
    n: int,
    m: ValueM,
)
    requires
        0 <= n < ms.len(),
        fields_ahead(ts, ms, left, way, done, n),
        resolved(ts, ms[n].1, left, way) == Resolved::Done(m),
    ensures
        fields_ahead(ts, ms, left, way, done.push((ms[n].0, m)), n + 1),
{
    let rest = ms.skip(n);
    assert(rest[0] == ms[n]);
    assert(rest.subrange(1, rest.len() as int) =~= ms.skip(n + 1));
    if let Resolved::Done(x) = resolved_fields(ts, ms.skip(n + 1), left, way) {
        assert(done + (seq![(ms[n].0, m)] + x) =~= done.push((ms[n].0, m)) + x);
    }
}

proof fn lemma_fields_fail(
    ts: Seq<TableM>,
    ms: FieldsM,
    left: nat,
    way: Seq<Target>,
    done: FieldsM,
    n: int,
    e: GrumpyError,
)
    requires
        0 <= n < ms.len(),
        fields_ahead(ts, ms, left, way, done, n),
        reports(e, resolved(ts, ms[n].1, left, way)),
    ensures
        reports(e, resolved_fields(ts, ms, left, way)),
{
    let rest = ms.skip(n);
    assert(rest[0] == ms[n]);
}

// ── Laws ────────────────────────────────────────────────────────────────

/// A value stands in another one, at any position of its arrays and objects.
pub open spec fn holds(m: ValueM, x: ValueM) -> bool
    decreases m,
{
    m == x || match m {
        ValueM::Array(items) => exists|i: int|
            0 <= i < items.len() && holds(#[trigger] items[i], x),
        ValueM::Object(fields) => exists|i: int|
            0 <= i < fields.len() && holds((#[trigger] fields[i]).1, x),
        _ => false,
    }
}

/// The document that a reference points to; none for a missing or a deleted
/// one.
pub open spec fn live_target(ts: Seq<TableM>, t: Target) -> Option<ValueM> {
    match doc_read(ts, t.0, t.1) {
        DocRead::Found(m) => if m is Tombstone {
            None
        } else {
            Some(m)
        },
        _ => None,
    }
}

/// A chain of references: the first stands in a value, and each of the others
/// in the document that the one before it points to.
pub open spec fn chain(ts: Seq<TableM>, m: ValueM, c: Seq<Target>) -> bool
    decreases c.len(),
{
    c.len() > 0 ==> {
        &&& holds(m, ValueM::Ref(c[0].0, c[0].1))
        &&& c.len() > 1 ==> live_target(ts, c[0]) is Some && chain(
            ts,
            live_target(ts, c[0])->0,
            c.skip(1),
        )
    }
}

/// Two attempts failed for the same reason.
pub open spec fn same_failure<A, B>(a: Resolved<A>, b: Resolved<B>) -> bool {
    match (a, b) {
        (Resolved::Cycle, Resolved::Cycle) => true,
        (Resolved::NoCollection(c), Resolved::NoCollection(d)) => c == d,
        (Resolved::Unreadable(e), Resolved::Unreadable(f)) => e == f,
        _ => false,
    }
}

proof fn lemma_items_each(ts: Seq<TableM>, items: Seq<ValueM>, left: nat, path: Seq<Target>)
    ensures
        match resolved_items(ts, items, left, path) {
            Resolved::Done(x) => x.len() == items.len() && forall|i: int|
                0 <= i < items.len() ==> resolved(ts, #[trigger] items[i], left, path)
                    == Resolved::Done(x[i]),
            other => exists|i: int|
                0 <= i < items.len() && same_failure(
                    other,
                    resolved(ts, #[trigger] items[i], left, path),
                ) && forall|j: int|
                    0 <= j < i ==> resolved(ts, #[trigger] items[j], left, path) is Done,
        },
    decreases items.len(),
{
    if items.len() > 0 {
        let rest = items.subrange(1, items.len() as int);
        lemma_items_each(ts, rest, left, path);
        assert forall|i: int| 0 <= i < rest.len() implies #[trigger] rest[i] == items[i + 1] by {}
        match resolved(ts, items[0], left, path) {
            Resolved::Done(x) => {
                match resolved_items(ts, rest, left, path) {
                    Resolved::Done(y) => {
                        let all = seq![x] + y;
                        assert forall|i: int| 0 <= i < items.len() implies resolved(
                            ts,
                            #[trigger] items[i],
                            left,
                            path,
                        ) == Resolved::Done(all[i]) by {
                            if i > 0 {
                                assert(rest[i - 1] == items[i]);
                            }
                        }
                    },
                    other => {
                        let i = choose|i: int|
                            0 <= i < rest.len() && same_failure(
                                other,
                                resolved(ts, #[trigger] rest[i], left, path),
                            ) && forall|j: int|
                                0 <= j < i ==> resolved(ts, #[trigger] rest[j], left, path) is Done;
                        assert(items[i + 1] == rest[i]);
                        assert forall|j: int| 0 <= j < i + 1 implies resolved(
                            ts,
                            #[trigger] items[j],
                            left,
                            path,
                        ) is Done by {
                            if j > 0 {
                                assert(rest[j - 1] == items[j]);
                            }
                        }
                    },
                }
            },
            _ => {
                assert(same_failure(
                    resolved_items(ts, items, left, path),
                    resolved(ts, items[0], left, path),
                ));
            },
        }
    }
}

proof fn lemma_fields_each(ts: Seq<TableM>, fields: FieldsM, left: nat, path: Seq<Target>)
    ensures
        match resolved_fields(ts, fields, left, path) {
            Resolved::Done(x) => x.len() == fields.len() && forall|i: int|
                0 <= i < fields.len() ==> x[i].0 == (#[trigger] fields[i]).0 && resolved(
                    ts,
                    fields[i].1,
                    left,
                    path,
                ) == Resolved::Done(x[i].1),
            other => exists|i: int|
                0 <= i < fields.len() && same_failure(
                    other,
                    resolved(ts, (#[trigger] fields[i]).1, left, path),
                ) && forall|j: int|
                    0 <= j < i ==> resolved(ts, (#[trigger] fields[j]).1, left, path) is Done,
        },
    decreases fields.len(),
{
    if fields.len() > 0 {
        let rest = fields.subrange(1, fields.len() as int);
        lemma_fields_each(ts, rest, left, path);
        assert forall|i: int| 0 <= i < rest.len() implies #[trigger] rest[i] == fields[i + 1] by {}
        match resolved(ts, fields[0].1, left, path) {
            Resolved::Done(x) => {
                match resolved_fields(ts, rest, left, path) {
                    Resolved::Done(y) => {
                        let all = seq![(fields[0].0, x)] + y;
                        assert forall|i: int| 0 <= i < fields.len() implies all[i].0 == (
                        #[trigger] fields[i]).0 && resolved(ts, fields[i].1, left, path)
                            == Resolved::Done(all[i].1) by {
                            if i > 0 {
                                assert(rest[i - 1] == fields[i]);
                            }
                        }
                    },
                    other => {
                        let i = choose|i: int|
                            0 <= i < rest.len() && same_failure(
                                other,
                                resolved(ts, (#[trigger] rest[i]).1, left, path),
                            ) && forall|j: int|
                                0 <= j < i ==> resolved(ts, (#[trigger] rest[j]).1, left, path) is Done;
                        assert(fields[i + 1] == rest[i]);
                        assert forall|j: int| 0 <= j < i + 1 implies resolved(
                            ts,
                            (#[trigger] fields[j]).1,
                            left,
                            path,
                        ) is Done by {
                            if j > 0 {
                                assert(rest[j - 1] == fields[j]);
                            }
                        }
                    },
                }
            },
            _ => {
                assert(same_failure(
                    resolved_fields(ts, fields, left, path),
                    resolved(ts, fields[0].1, left, path),
                ));
            },
        }
    }
}

/// An array is resolved item by item, wherever it stands: it keeps its length,
/// each item is resolved as it would be alone, and the first item that cannot
/// be resolved is reported.
pub proof fn law_arrays_resolve_item_by_item(
    ts: Seq<TableM>,
    items: Seq<ValueM>,
    left: nat,
    path: Seq<Target>,
)
    ensures
        match resolved(ts, ValueM::Array(items), left, path) {
            Resolved::Done(r) => r matches ValueM::Array(x) && x.len() == items.len() && forall|
                i: int,
            |
                0 <= i < items.len() ==> resolved(ts, #[trigger] items[i], left, path)
                    == Resolved::Done(x[i]),
            other => exists|i: int|
                0 <= i < items.len() && same_failure(
                    other,
                    resolved(ts, #[trigger] items[i], left, path),
                ) && forall|j: int|
                    0 <= j < i ==> resolved(ts, #[trigger] items[j], left, path) is Done,
        },
{
    lemma_items_each(ts, items, left, path);
}

/// An object is resolved field by field, wherever it stands: it keeps the names
/// of its fields, each value is resolved as it would be alone, and the first
/// that cannot be resolved is reported.
pub proof fn law_objects_resolve_field_by_field(
    ts: Seq<TableM>,
    fields: FieldsM,
    left: nat,
    path: Seq<Target>,
)
    ensures
        match resolved(ts, ValueM::Object(fields), left, path) {
            Resolved::Done(r) => r matches ValueM::Object(x) && x.len() == fields.len() && forall|
                i: int,
            |
                0 <= i < fields.len() ==> x[i].0 == (#[trigger] fields[i]).0 && resolved(
                    ts,
                    fields[i].1,
                    left,
                    path,
                ) == Resolved::Done(x[i].1),
            other => exists|i: int|
                0 <= i < fields.len() && same_failure(
                    other,
                    resolved(ts, (#[trigger] fields[i]).1, left, path),
                ) && forall|j: int|
                    0 <= j < i ==> resolved(ts, (#[trigger] fields[j]).1, left, path) is Done,
        },
{
    lemma_fields_each(ts, fields, left, path);
}

/// A reference to a document stands for that document with its own references
/// resolved; one to a missing or deleted document stays, and so does every
/// value that neither is a reference nor can hold one.
pub proof fn law_references_stand_for_documents(
    ts: Seq<TableM>,
    t: Target,
    m: ValueM,
    left: nat,
    path: Seq<Target>,
)
    ensures
        left > 0 && !path.contains(t) && live_target(ts, t) is Some ==> resolved(
            ts,
            ValueM::Ref(t.0, t.1),
            left,
            path,
        ) == resolved(ts, live_target(ts, t)->0, (left - 1) as nat, path.push(t)),
        left == 1 && !path.contains(t) && live_target(ts, t) is Some ==> resolved(
            ts,
            ValueM::Ref(t.0, t.1),
            left,
            path,
        ) == Resolved::Done(live_target(ts, t)->0),
        !path.contains(t) && (doc_read(ts, t.0, t.1) is Absent || (doc_read(ts, t.0, t.1) is Found
            && live_target(ts, t) is None)) ==> resolved(ts, ValueM::Ref(t.0, t.1), left, path)
            == Resolved::Done(ValueM::Ref(t.0, t.1)),
        !(m is Ref) && !(m is Array) && !(m is Object) ==> resolved(ts, m, left, path)
            == Resolved::Done(m),
        left == 0 ==> resolved(ts, m, left, path) == Resolved::Done(m),
{
    assert((t.0, t.1) == t);
    if left == 1 {
        reveal_with_fuel(resolved, 2);
    }
}

/// A chain from a part of a value is one from the value.
proof fn lemma_chain_lifts(ts: Seq<TableM>, m: ValueM, part: ValueM, c: Seq<Target>)
    requires
        chain(ts, part, c),
        c.len() > 0,
        match m {
            ValueM::Array(items) => exists|i: int| 0 <= i < items.len() && #[trigger] items[i] == part,
            ValueM::Object(fields) => exists|i: int|
                0 <= i < fields.len() && (#[trigger] fields[i]).1 == part,
            _ => false,
        },
    ensures
        chain(ts, m, c),
{
}

proof fn lemma_chain_front(ts: Seq<TableM>, m: ValueM, t: Target, rest: Seq<Target>)
    requires
        holds(m, ValueM::Ref(t.0, t.1)),
        live_target(ts, t) is Some,
        chain(ts, live_target(ts, t)->0, rest),
    ensures
        chain(ts, m, seq![t] + rest),
{
    let c = seq![t] + rest;
    assert(c[0] == t);
    assert(c.skip(1) =~= rest);
}

/// Where a reference to an existing document is left in what resolving gave,
/// there is a chain of references that is longer than the depth allows.
pub proof fn law_left_references_lie_too_deep(
    ts: Seq<TableM>,
    m: ValueM,
    left: nat,
    path: Seq<Target>,
    r: ValueM,
    t: Target,
)
    requires
        resolved(ts, m, left, path) == Resolved::Done(r),
        holds(r, ValueM::Ref(t.0, t.1)),
        live_target(ts, t) is Some,
    ensures
        exists|c: Seq<Target>| c.len() == left + 1 && #[trigger] chain(ts, m, c),
    decreases left, m,
{
    if left == 0 {
        let c = seq![t];
        assert(c[0] == t);
        assert(chain(ts, m, c));
    } else {
        match m {
            ValueM::Ref(c, id) => {
                let to = (c, id);
                if live_target(ts, to) is Some {
                    let d = live_target(ts, to)->0;
                    law_left_references_lie_too_deep(ts, d, (left - 1) as nat, path.push(to), r, t);
                    let rest = choose|rest: Seq<Target>|
                        rest.len() == left && #[trigger] chain(ts, d, rest);
                    lemma_chain_front(ts, m, to, rest);
                    assert((seq![to] + rest).len() == left + 1);
                }
            },
            ValueM::Array(items) => {
                lemma_items_each(ts, items, left, path);
                let x = r->Array_0;
                let i = choose|i: int|
                    0 <= i < x.len() && holds(#[trigger] x[i], ValueM::Ref(t.0, t.1));
                assert(resolved(ts, items[i], left, path) == Resolved::Done(x[i]));
                law_left_references_lie_too_deep(ts, items[i], left, path, x[i], t);
                let c = choose|c: Seq<Target>|
                    c.len() == left + 1 && #[trigger] chain(ts, items[i], c);
                lemma_chain_lifts(ts, m, items[i], c);
            },
            ValueM::Object(fields) => {
                lemma_fields_each(ts, fields, left, path);
                let x = r->Object_0;
                let i = choose|i: int|
                    0 <= i < x.len() && holds((#[trigger] x[i]).1, ValueM::Ref(t.0, t.1));
                assert(x[i].0 == fields[i].0);
                law_left_references_lie_too_deep(ts, fields[i].1, left, path, x[i].1, t);
                let c = choose|c: Seq<Target>|
                    c.len() == left + 1 && #[trigger] chain(ts, fields[i].1, c);
                lemma_chain_lifts(ts, m, fields[i].1, c);
            },
            _ => {},
        }
    }
}

/// What stands in a value that was resolved was resolved.
proof fn lemma_held_resolved(
    ts: Seq<TableM>,
    m: ValueM,
    left: nat,
    path: Seq<Target>,
    x: ValueM,
)
    requires
        resolved(ts, m, left, path) is Done,
        left > 0,
        holds(m, x),
    ensures
        resolved(ts, x, left, path) is Done,
    decreases m,
{
    if m != x {
        match m {
            ValueM::Array(items) => {
                lemma_items_each(ts, items, left, path);
                let i = choose|i: int| 0 <= i < items.len() && holds(#[trigger] items[i], x);
                lemma_held_resolved(ts, items[i], left, path, x);
            },
            ValueM::Object(fields) => {
                lemma_fields_each(ts, fields, left, path);
                let i = choose|i: int| 0 <= i < fields.len() && holds((#[trigger] fields[i]).1, x);
                lemma_held_resolved(ts, fields[i].1, left, path, x);
            },
            _ => {},
        }
    }
}

/// What was resolved has no cycle within the depth, and every reference within
/// it names a collection and a document that can be read, if there is one.
pub proof fn law_resolved_values_have_no_cycle(
    ts: Seq<TableM>,
    m: ValueM,
    left: nat,
    path: Seq<Target>,
    c: Seq<Target>,
)
    requires
        resolved(ts, m, left, path) is Done,
        chain(ts, m, c),
        0 < c.len() <= left,
    ensures
        forall|i: int, j: int| 0 <= i < j < c.len() ==> #[trigger] c[i] != #[trigger] c[j],
        forall|i: int| 0 <= i < c.len() ==> !path.contains(#[trigger] c[i]),
        !(doc_read(ts, c.last().0, c.last().1) is NoCollection),
        !(doc_read(ts, c.last().0, c.last().1) is Unreadable),
    decreases c.len(),
{
    let t = c[0];
    lemma_held_resolved(ts, m, left, path, ValueM::Ref(t.0, t.1));
    assert((t.0, t.1) == t);
    assert(!path.contains(t));
    if c.len() > 1 {
        let rest = c.skip(1);
        let d = live_target(ts, t)->0;
        let deeper = path.push(t);
        law_resolved_values_have_no_cycle(ts, d, (left - 1) as nat, deeper, rest);
        assert(rest.last() == c.last());
        assert(deeper[path.len() as int] == t);
        assert forall|i: int| 1 <= i < c.len() implies #[trigger] c[i] != t && !path.contains(
            c[i],
        ) by {
            assert(rest[i - 1] == c[i]);
            if path.contains(c[i]) {
                let p = choose|p: int| 0 <= p < path.len() && path[p] == c[i];
                assert(deeper[p] == c[i]);
            }
        }
        assert forall|i: int, j: int| 0 <= i < j < c.len() implies #[trigger] c[i]
            != #[trigger] c[j] by {
            if i > 0 {
                assert(rest[i - 1] == c[i] && rest[j - 1] == c[j]);
            }
        }
    }
}

/// The last of a chain of references is the cause of a failure.
pub open spec fn causes(
    ts: Seq<TableM>,
    path: Seq<Target>,
    c: Seq<Target>,
    failure: Resolved<ValueM>,
) -> bool {
    let t = c.last();
    match failure {
        Resolved::Done(_) => false,
        Resolved::Cycle => path.contains(t) || c.drop_last().contains(t),
        Resolved::NoCollection(name) => t.0 == name && doc_read(ts, t.0, t.1) is NoCollection,
        Resolved::Unreadable(e) => doc_read(ts, t.0, t.1) == DocRead::Unreadable(e),
    }
}

/// A failure has its cause in a chain of references within the depth: one that
/// comes back to where it was, that leads to a collection that does not exist
/// or to a document that cannot be read.
pub proof fn law_failures_have_a_cause(ts: Seq<TableM>, m: ValueM, left: nat, path: Seq<Target>)
    requires
        !(resolved(ts, m, left, path) is Done),
    ensures
        exists|c: Seq<Target>|
            0 < c.len() <= left && #[trigger] chain(ts, m, c) && causes(
                ts,
                path,
                c,
                resolved(ts, m, left, path),
            ),
    decreases left, m,
{
    let failure = resolved(ts, m, left, path);
    if left > 0 {
        match m {
            ValueM::Ref(n, id) => {
                let t = (n, id);
                if path.contains(t) || live_target(ts, t) is None {
                    let c = seq![t];
                    assert(c[0] == t && c.last() == t);
                    assert(chain(ts, m, c));
                    assert(causes(ts, path, c, failure));
                } else {
                    let d = live_target(ts, t)->0;
                    let deeper = path.push(t);
                    law_failures_have_a_cause(ts, d, (left - 1) as nat, deeper);
                    let rest = choose|c: Seq<Target>|
                        0 < c.len() <= left - 1 && #[trigger] chain(ts, d, c) && causes(
                            ts,
                            deeper,
                            c,
                            failure,
                        );
                    let c = seq![t] + rest;
                    lemma_chain_front(ts, m, t, rest);
                    assert(c.last() == rest.last());
                    if failure is Cycle {
                        let x = rest.last();
                        if deeper.contains(x) {
                            let p = choose|p: int| 0 <= p < deeper.len() && deeper[p] == x;
                            if p < path.len() {
                                assert(path[p] == x);
                            } else {
                                assert(c.drop_last()[0] == x);
                            }
                        } else {
                            let q = choose|q: int|
                                0 <= q < rest.drop_last().len() && rest.drop_last()[q] == x;
                            assert(c.drop_last()[q + 1] == x);
                        }
                    }
                    assert(causes(ts, path, c, failure));
                }
            },
            ValueM::Array(items) => {
                lemma_items_each(ts, items, left, path);
                let i = choose|i: int|
                    0 <= i < items.len() && same_failure(
                        failure,
                        resolved(ts, #[trigger] items[i], left, path),
                    );
                law_failures_have_a_cause(ts, items[i], left, path);
                let c = choose|c: Seq<Target>|
                    0 < c.len() <= left && #[trigger] chain(ts, items[i], c) && causes(
                        ts,
                        path,
                        c,
                        resolved(ts, items[i], left, path),
                    );
                lemma_chain_lifts(ts, m, items[i], c);
            },
            ValueM::Object(fields) => {
                lemma_fields_each(ts, fields, left, path);
                let i = choose|i: int|
                    0 <= i < fields.len() && same_failure(
                        failure,
                        resolved(ts, (#[trigger] fields[i]).1, left, path),
                    );
                law_failures_have_a_cause(ts, fields[i].1, left, path);
                let c = choose|c: Seq<Target>|
                    0 < c.len() <= left && #[trigger] chain(ts, fields[i].1, c) && causes(
                        ts,
                        path,
                        c,
                        resolved(ts, fields[i].1, left, path),
                    );
                lemma_chain_lifts(ts, m, fields[i].1, c);
            },
            _ => {},
        }
    }
}

/// Resolving all references in a value leaves none: where it succeeds and no
/// chain of references is longer than `max_depth` allows, no reference to an
/// existing document stands in the result, at any position. It fails only for a
/// reference within the depth that leads back, to a collection that does not
/// exist or to a document that cannot be read.
pub proof fn law_deep_resolution_leaves_no_reference(
    r: Result<Value>,
    ts: Seq<TableM>,
    m: ValueM,
    max_depth: nat,
    t: Target,
)
    requires
        resolves(r, ts, m, max_depth),
    ensures
        r is Ok && (forall|c: Seq<Target>| #[trigger] chain(ts, m, c) ==> c.len() <= max_depth + 1)
            && holds(r->Ok_0.model(), ValueM::Ref(t.0, t.1)) ==> live_target(ts, t) is None,
        r is Err ==> exists|c: Seq<Target>|
            0 < c.len() <= max_depth + 1 && #[trigger] chain(ts, m, c) && match r->Err_0 {
                GrumpyError::CyclicReference => c.drop_last().contains(c.last()),
                GrumpyError::CollectionNotFound(name) => name@ == c.last().0 && doc_read(
                    ts,
                    c.last().0,
                    c.last().1,
                ) is NoCollection,
                GrumpyError::Codec(e) => doc_read(ts, c.last().0, c.last().1)
                    == DocRead::Unreadable(e@),
                _ => false,
            },
{
    let none = Seq::<Target>::empty();
    match r {
        Ok(v) => {
            if holds(v.model(), ValueM::Ref(t.0, t.1)) && live_target(ts, t) is Some {
                law_left_references_lie_too_deep(ts, m, max_depth + 1, none, v.model(), t);
            }
        },
        Err(e) => {
            law_failures_have_a_cause(ts, m, max_depth + 1, none);
            let c = choose|c: Seq<Target>|
                0 < c.len() <= max_depth + 1 && #[trigger] chain(ts, m, c) && causes(
                    ts,
                    none,
                    c,
                    resolved(ts, m, max_depth + 1, none),
                );
            assert(chain(ts, m, c));
        },
    }
}

} // verus!
