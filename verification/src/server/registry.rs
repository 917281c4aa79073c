//! Named things in ascending order of their names.

use vstd::prelude::*;

use crate::assoc::{
    assoc_rank, assoc_sorted, assoc_value, lemma_assoc_at, lemma_assoc_rank, lemma_with_assoc,
    with_assoc,
};
use crate::text::{owned, str_eq, str_lt, text_lt};

verus! {

/// Named things, each name once.
pub struct Registry<T> {
    /// The names and what they stand for, in ascending order.
    pub entries: Vec<(String, T)>,
}

/// The list without a key.
pub open spec fn without_assoc<V>(l: Seq<(Seq<char>, V)>, k: Seq<char>) -> Seq<(Seq<char>, V)> {
    if assoc_value(l, k) is Some {
        l.remove(assoc_rank(l, k))
    } else {
        l
    }
}

/// Taking an entry out keeps the order and the other entries.
pub proof fn lemma_without_assoc<V>(l: Seq<(Seq<char>, V)>, k: Seq<char>, q: Seq<char>)
    requires
        assoc_sorted(l),
    ensures
        assoc_sorted(without_assoc(l, k)),
        assoc_value(without_assoc(l, k), k) is None,
        q != k ==> assoc_value(without_assoc(l, k), q) == assoc_value(l, q),
{
    lemma_assoc_rank(l, k);
    let p = assoc_rank(l, k);
    let w = without_assoc(l, k);
    if assoc_value(l, k) is Some {
        assert forall|i: int, j: int| 0 <= i < j < w.len() implies text_lt(
            (#[trigger] w[i]).0,
            (#[trigger] w[j]).0,
        ) by {
            let a = if i < p {
                i
            } else {
                i + 1
            };
            let b = if j < p {
                j
            } else {
                j + 1
            };
            assert(w[i] == l[a] && w[j] == l[b]);
            assert(text_lt(l[a].0, l[b].0));
        }
        lemma_assoc_rank(w, k);
        if assoc_value(w, k) is Some {
            let r = assoc_rank(w, k);
            let a = if r < p {
                r
            } else {
                r + 1
            };
            assert(w[r] == l[a]);
            lemma_assoc_at(l, a);
        }
        if q != k {
            lemma_assoc_rank(l, q);
            lemma_assoc_rank(w, q);
            if assoc_value(l, q) is Some {
                let a = assoc_rank(l, q);
                let r = if a < p {
                    a
                } else {
                    a - 1
                };
                assert(w[r] == l[a]);
                lemma_assoc_at(w, r);
            } else if assoc_value(w, q) is Some {
                let r = assoc_rank(w, q);
                let a = if r < p {
                    r
                } else {
                    r + 1
                };
                assert(w[r] == l[a]);
                lemma_assoc_at(l, a);
            }
        }
    }
}

impl<T> Registry<T> {
    /// The names and what they stand for.
    pub open spec fn model(&self) -> Seq<(Seq<char>, T)> {
        Seq::new(self.entries@.len(), |i: int| (self.entries@[i].0@, self.entries@[i].1))
    }

    /// The names ascend.
    pub open spec fn wf(&self) -> bool {
        assoc_sorted(self.model())
    }

    /// What a name stands for.
    pub open spec fn value(&self, name: Seq<char>) -> Option<T> {
        assoc_value(self.model(), name)
    }

    /// A registry with nothing in it.
    pub fn new() -> (r: Self)
        ensures
            r.wf(),
            r.model() == Seq::<(Seq<char>, T)>::empty(),
    {
        let r: Registry<T> = Registry { entries: Vec::new() };
        assert(r.model() =~= Seq::<(Seq<char>, T)>::empty());
        r
    }

    /// The place of a name, and whether it is there.
    fn position(&self, name: &str) -> (r: (usize, bool))
        ensures
            r.0 == assoc_rank(self.model(), name@),
            r.0 <= self.entries@.len(),
            r.1 == (self.value(name@) is Some),
            r.1 ==> r.0 < self.entries@.len() && self.entries@[r.0 as int].0@ == name@,
    {
        let ghost l = self.model();
        let mut p: usize = 0;
        assert(l.skip(0) =~= l);
        while p < self.entries.len() && str_lt(self.entries[p].0.as_str(), name)
            invariant
                l == self.model(),
                p <= self.entries@.len(),
                assoc_rank(l, name@) == p + assoc_rank(l.skip(p as int), name@),
            decreases self.entries@.len() - p,
        {
            proof {
                assert(l.skip(p as int)[0] == l[p as int]);
                assert(l.skip(p as int).skip(1) =~= l.skip(p + 1));
            }
            p = p + 1;
        }
        proof {
            if p < self.entries@.len() {
                assert(l.skip(p as int)[0] == l[p as int]);
            }
        }
        let found: bool = p < self.entries.len() && str_eq(self.entries[p].0.as_str(), name);
        (p, found)
    }

    /// Whether a name is there.
    pub fn contains(&self, name: &str) -> (r: bool)
        ensures
            r == (self.value(name@) is Some),
    {
        self.position(name).1
    }

    /// Sets what a name stands for.
    pub fn put(&mut self, name: &str, value: T)
        requires
            old(self).wf(),
        ensures
            final(self).wf(),
            final(self).model() == with_assoc(old(self).model(), name@, value),
    {
        let ghost l = self.model();
        proof {
            lemma_with_assoc(l, name@, value, name@);
        }
        let (p, found) = self.position(name);
        if found {
            self.entries.set(p, (owned(name), value));
            assert(self.model() =~= l.update(p as int, (name@, value)));
        } else {
            self.entries.insert(p, (owned(name), value));
            assert(self.model() =~= l.insert(p as int, (name@, value)));
        }
    }

    /// Takes a name out.
    pub fn take(&mut self, name: &str) -> (r: Option<T>)
        requires
            old(self).wf(),
        ensures
            final(self).wf(),
            final(self).model() == without_assoc(old(self).model(), name@),
            r == old(self).value(name@),
    {
        let ghost l = self.model();
        proof {
            lemma_without_assoc(l, name@, name@);
        }
        let (p, found) = self.position(name);
        if found {
            let e = self.entries.remove(p);
            assert(self.model() =~= l.remove(p as int));
            Some(e.1)
        } else {
            None
        }
    }

    /// What a name stands for, to be changed.
    pub fn get_mut(&mut self, name: &str) -> (r: Option<&mut T>)
        ensures
            match old(self).value(name@) {
                Some(v) => r is Some && *(r->0) == v && final(self).model() == with_assoc(
                    old(self).model(),
                    name@,
                    *final(r->0),
                ),
                None => r is None && *final(self) == *old(self),
            },
    {
        let (p, found) = self.position(name);
        if found {
            let slot: &mut (String, T) = &mut self.entries[p];
            Some(&mut slot.1)
        } else {
            None
        }
    }

    /// The names, in ascending order.
    pub fn names(&self) -> (r: Vec<String>)
        ensures
            r@.len() == self.model().len(),
            forall|i: int| 0 <= i < r@.len() ==> (#[trigger] r@[i])@ == self.model()[i].0,
    {
        let mut out: Vec<String> = Vec::new();
        let mut i: usize = 0;
        while i < self.entries.len()
            invariant
                i <= self.entries@.len(),
                out@.len() == i,
                forall|j: int| 0 <= j < i ==> (#[trigger] out@[j])@ == self.model()[j].0,
            decreases self.entries@.len() - i,
        {
            out.push(owned(self.entries[i].0.as_str()));
            i = i + 1;
        }
        out
    }
}

} // verus!
