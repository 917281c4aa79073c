//! Where the documents of a collection are kept: tuples in slotted pages, and
//! chains of overflow pages for tuples that do not fit in one.

use vstd::prelude::*;

use crate::btree::node::Entry;
use crate::page::overflow::{
    chain_data, is_ref, lemma_chain_frame, lemma_chain_unique, link_at, linked, no_repeats,
    ref_parse,
};
use crate::page::slotted::{slot_values, slotted_wf};
use crate::page::{PageHeader, PageType};

verus! {

/// Where a tuple is kept: its page and its slot.
pub type Loc = (u32, u16);

/// The pages of a data file and which of them are free.
pub struct Heap {
    pub pages: Seq<Seq<u8>>,
    pub free: Set<int>,
}

/// The chain of overflow pages of a location, empty for a tuple that fits in
/// its slot.
pub open spec fn chain_of(chains: Map<Loc, Seq<u32>>, loc: Loc) -> Seq<u32> {
    if chains.contains_key(loc) {
        chains[loc]
    } else {
        Seq::empty()
    }
}

impl Heap {
    /// Page `p` is a slotted data page in use.
    pub open spec fn data_page(self, p: u32) -> bool {
        &&& 1 <= p < self.pages.len()
        &&& slotted_wf(self.pages[p as int])
        &&& PageHeader::parse(self.pages[p as int]).page_type == PageType::Data
        &&& PageHeader::parse(self.pages[p as int]).page_id == p
        &&& !self.free.contains(p as int)
    }

    /// The slots of a page.
    pub open spec fn slots(self, p: u32) -> Seq<Option<Seq<u8>>> {
        slot_values(self.pages[p as int])
    }

    /// There is a tuple at `loc`.
    pub open spec fn live(self, loc: Loc) -> bool {
        loc.1 < self.slots(loc.0).len() && self.slots(loc.0)[loc.1 as int] is Some
    }

    /// The tuple at `loc`.
    pub open spec fn tuple(self, loc: Loc) -> Seq<u8> {
        self.slots(loc.0)[loc.1 as int]->0
    }

    /// A document is kept at `loc`, in its slot or in the chain `ids`.
    pub open spec fn holds(self, loc: Loc, ids: Seq<u32>) -> bool {
        &&& self.data_page(loc.0)
        &&& self.live(loc)
        &&& linked(self.pages, ids)
        &&& no_repeats(ids)
        &&& forall|j: int| 0 <= j < ids.len() ==> !self.free.contains((#[trigger] ids[j]) as int)
        &&& if is_ref(self.tuple(loc)) {
            ids.len() > 0 && (ref_parse(self.tuple(loc))->0).0 == ids[0]
        } else {
            ids.len() == 0
        }
    }

    /// The bytes of the document that is kept at `loc`.
    pub open spec fn raw(self, loc: Loc, ids: Seq<u32>) -> Seq<u8> {
        if is_ref(self.tuple(loc)) {
            chain_data(self.pages, ids)
        } else {
            self.tuple(loc)
        }
    }
}

/// Every page that is marked as a data page is one, and in use.
pub open spec fn typed(h: Heap) -> bool {
    forall|p: u32|
        1 <= p < h.pages.len() && PageHeader::parse(#[trigger] h.pages[p as int]).page_type
            == PageType::Data ==> h.data_page(p)
}

/// No page is in both chains.
pub open spec fn apart(a: Seq<u32>, b: Seq<u32>) -> bool {
    forall|i: int, j: int|
        0 <= i < a.len() && 0 <= j < b.len() ==> #[trigger] a[i] != #[trigger] b[j]
}

/// Every entry leads to a document, and no two share a slot or a page of their
/// chains.
pub open spec fn entries_kept(h: Heap, es: Seq<Entry>, chains: Map<Loc, Seq<u32>>) -> bool {
    &&& forall|i: int|
        0 <= i < es.len() ==> h.holds((#[trigger] es[i]).1, chain_of(chains, es[i].1))
    &&& forall|i: int, j: int|
        0 <= i < es.len() && 0 <= j < es.len() && i != j ==> (#[trigger] es[i]).1 != (
        #[trigger] es[j]).1 && apart(chain_of(chains, es[i].1), chain_of(chains, es[j].1))
}

/// The keys with the bytes of their documents.
pub open spec fn kept(h: Heap, es: Seq<Entry>, chains: Map<Loc, Seq<u32>>) -> Seq<
    (Seq<u8>, Seq<u8>),
> {
    Seq::new(es.len(), |i: int| (es[i].0, h.raw(es[i].1, chain_of(chains, es[i].1))))
}

/// From `a` to `b` the document at `loc` stays as it is.
pub open spec fn same_at(a: Heap, b: Heap, loc: Loc, ids: Seq<u32>) -> bool {
    &&& b.data_page(loc.0)
    &&& b.live(loc)
    &&& b.tuple(loc) == a.tuple(loc)
    &&& forall|j: int|
        0 <= j < ids.len() ==> (#[trigger] ids[j]) < b.pages.len() && b.pages[ids[j] as int]
            == a.pages[ids[j] as int] && !b.free.contains(ids[j] as int)
}

pub proof fn lemma_same_at(a: Heap, b: Heap, loc: Loc, ids: Seq<u32>)
    requires
        a.holds(loc, ids),
        same_at(a, b, loc, ids),
    ensures
        b.holds(loc, ids),
        b.raw(loc, ids) == a.raw(loc, ids),
{
    lemma_chain_frame(a.pages, b.pages, ids);
}

/// From `a` to `b` no document moves: pages in use are as they were, but for
/// data pages, whose tuples are as they were.
pub open spec fn nothing_lost(a: Heap, b: Heap) -> bool {
    &&& a.pages.len() <= b.pages.len()
    &&& forall|x: int| b.free.contains(x) ==> #[trigger] a.free.contains(x)
    &&& forall|p: u32| #[trigger]
        a.data_page(p) ==> b.data_page(p) && forall|s: u16| #[trigger]
            a.live((p, s)) ==> b.live((p, s)) && b.tuple((p, s)) == a.tuple((p, s))
    &&& forall|i: int|
        1 <= i < a.pages.len() && !a.free.contains(i) && PageHeader::parse(
            a.pages[i],
        ).page_type == PageType::Overflow ==> #[trigger] b.pages[i] == a.pages[i]
}

pub proof fn lemma_nothing_lost(a: Heap, b: Heap, es: Seq<Entry>, chains: Map<Loc, Seq<u32>>)
    requires
        entries_kept(a, es, chains),
        nothing_lost(a, b),
    ensures
        entries_kept(b, es, chains),
        kept(b, es, chains) == kept(a, es, chains),
{
    assert forall|i: int| 0 <= i < es.len() implies b.holds(
        (#[trigger] es[i]).1,
        chain_of(chains, es[i].1),
    ) && b.raw(es[i].1, chain_of(chains, es[i].1)) == a.raw(
        es[i].1,
        chain_of(chains, es[i].1),
    ) by {
        let loc = es[i].1;
        let ids = chain_of(chains, loc);
        assert(a.holds(loc, ids));
        assert(a.data_page(loc.0));
        assert((loc.0, loc.1) == loc);
        assert(a.live((loc.0, loc.1)));
        assert forall|j: int| 0 <= j < ids.len() implies (#[trigger] ids[j]) < b.pages.len()
            && b.pages[ids[j] as int] == a.pages[ids[j] as int] && !b.free.contains(
            ids[j] as int,
        ) by {
            assert(link_at(a.pages, ids, j));
            assert(!a.free.contains(ids[j] as int));
            assert(b.pages[ids[j] as int] == a.pages[ids[j] as int]);
        }
        lemma_same_at(a, b, loc, ids);
    }
    assert(kept(b, es, chains) =~= kept(a, es, chains));
}

/// A new entry joins: its document is kept, and shares nothing with the others.
pub proof fn lemma_entry_joins(
    h: Heap,
    es: Seq<Entry>,
    chains: Map<Loc, Seq<u32>>,
    p: int,
    e: Entry,
    ids: Seq<u32>,
)
    requires
        entries_kept(h, es, chains),
        0 <= p <= es.len(),
        h.holds(e.1, ids),
        forall|i: int| 0 <= i < es.len() ==> (#[trigger] es[i]).1 != e.1,
        forall|i: int| 0 <= i < es.len() ==> apart(chain_of(chains, (#[trigger] es[i]).1), ids),
    ensures
        entries_kept(h, es.insert(p, e), chains.insert(e.1, ids)),
        kept(h, es.insert(p, e), chains.insert(e.1, ids)) == kept(h, es, chains).insert(
            p,
            (e.0, h.raw(e.1, ids)),
        ),
{
    let f = es.insert(p, e);
    let c = chains.insert(e.1, ids);
    assert(chain_of(c, e.1) == ids);
    assert forall|i: int| 0 <= i < es.len() implies chain_of(c, (#[trigger] es[i]).1) == chain_of(
        chains,
        es[i].1,
    ) by {
        assert(es[i].1 != e.1);
    }
    assert forall|i: int| 0 <= i < f.len() && i != p implies #[trigger] f[i] == es[if i < p {
        i
    } else {
        i - 1
    }] by {}
    assert forall|i: int| 0 <= i < f.len() implies h.holds(
        (#[trigger] f[i]).1,
        chain_of(c, f[i].1),
    ) by {
        if i != p {
            let k = if i < p {
                i
            } else {
                i - 1
            };
            assert(f[i] == es[k]);
            assert(h.holds(es[k].1, chain_of(chains, es[k].1)));
        }
    }
    assert forall|i: int, j: int|
        0 <= i < f.len() && 0 <= j < f.len() && i != j implies (#[trigger] f[i]).1 != (
    #[trigger] f[j]).1 && apart(chain_of(c, f[i].1), chain_of(c, f[j].1)) by {
        let a = if i < p {
            i
        } else {
            i - 1
        };
        let b = if j < p {
            j
        } else {
            j - 1
        };
        if i != p {
            assert(f[i] == es[a]);
            assert(es[a].1 != e.1);
            assert(apart(chain_of(chains, es[a].1), ids));
        }
        if j != p {
            assert(f[j] == es[b]);
            assert(es[b].1 != e.1);
            assert(apart(chain_of(chains, es[b].1), ids));
        }
    }
    assert(kept(h, f, c) =~= kept(h, es, chains).insert(p, (e.0, h.raw(e.1, ids))));
}

/// From `a` to `b` one document goes: its slot is emptied and the pages of its
/// chain are freed. The others stay.
#[verifier::rlimit(40)]
pub proof fn lemma_entry_leaves(
    a: Heap,
    b: Heap,
    es: Seq<Entry>,
    chains: Map<Loc, Seq<u32>>,
    k: int,
)
    requires
        entries_kept(a, es, chains),
        0 <= k < es.len(),
        a.pages.len() == b.pages.len(),
        forall|x: int|
            b.free.contains(x) ==> #[trigger] a.free.contains(x) || (0 <= x <= u32::MAX
                && chain_of(chains, es[k].1).contains(x as u32)),
        forall|i: int|
            1 <= i < a.pages.len() && i != (es[k].1).0 && !chain_of(chains, es[k].1).contains(
                i as u32,
            ) ==> #[trigger] b.pages[i] == a.pages[i],
        b.data_page((es[k].1).0),
        b.slots((es[k].1).0) == a.slots((es[k].1).0).update((es[k].1).1 as int, None),
    ensures
        entries_kept(b, es.remove(k), chains),
        kept(b, es.remove(k), chains) == kept(a, es, chains).remove(k),
{
    let gone = chain_of(chains, es[k].1);
    let f = es.remove(k);
    assert(a.holds(es[k].1, gone));
    assert forall|i: int| 0 <= i < es.len() && i != k implies b.holds(
        (#[trigger] es[i]).1,
        chain_of(chains, es[i].1),
    ) && b.raw(es[i].1, chain_of(chains, es[i].1)) == a.raw(
        es[i].1,
        chain_of(chains, es[i].1),
    ) by {
        let loc = es[i].1;
        let ids = chain_of(chains, loc);
        assert(a.holds(loc, ids));
        assert(es[k].1 != loc);
        assert(apart(ids, gone));
        lemma_not_in_chain(a, es[k].1, gone, loc.0);
        if loc.0 != (es[k].1).0 {
            assert(b.pages[loc.0 as int] == a.pages[loc.0 as int]);
            assert(!a.free.contains(loc.0 as int));
        }
        assert forall|j: int| 0 <= j < ids.len() implies (#[trigger] ids[j]) < b.pages.len()
            && b.pages[ids[j] as int] == a.pages[ids[j] as int] && !b.free.contains(
            ids[j] as int,
        ) by {
            assert(link_at(a.pages, ids, j));
            assert(!a.free.contains(ids[j] as int));
            assert(!gone.contains(ids[j])) by {
                if gone.contains(ids[j]) {
                    let m = choose|m: int| 0 <= m < gone.len() && gone[m] == ids[j];
                    assert(ids[j] != gone[m]);
                }
            }
            assert(ids[j] != (es[k].1).0);
        }
        lemma_same_at(a, b, loc, ids);
    }
    assert forall|i: int| 0 <= i < f.len() implies b.holds(
        (#[trigger] f[i]).1,
        chain_of(chains, f[i].1),
    ) && kept(b, f, chains)[i] == kept(a, es, chains).remove(k)[i] by {
        let m = if i < k {
            i
        } else {
            i + 1
        };
        assert(f[i] == es[m]);
    }
    assert forall|i: int, j: int|
        0 <= i < f.len() && 0 <= j < f.len() && i != j implies (#[trigger] f[i]).1 != (
    #[trigger] f[j]).1 && apart(chain_of(chains, f[i].1), chain_of(chains, f[j].1)) by {
        let m = if i < k {
            i
        } else {
            i + 1
        };
        let n = if j < k {
            j
        } else {
            j + 1
        };
        assert(f[i] == es[m] && f[j] == es[n]);
    }
    assert(kept(b, f, chains) =~= kept(a, es, chains).remove(k));
}

/// A data page is in no chain.
pub proof fn lemma_not_in_chain(h: Heap, loc: Loc, ids: Seq<u32>, p: u32)
    requires
        h.holds(loc, ids),
        h.data_page(p),
    ensures
        !ids.contains(p),
{
    if ids.contains(p) {
        let m = choose|m: int| 0 <= m < ids.len() && ids[m] == p;
        assert(link_at(h.pages, ids, m));
    }
}

/// The documents do not depend on how the chains are named.
pub proof fn lemma_kept_unique(
    h: Heap,
    es: Seq<Entry>,
    a: Map<Loc, Seq<u32>>,
    b: Map<Loc, Seq<u32>>,
)
    requires
        entries_kept(h, es, a),
        entries_kept(h, es, b),
    ensures
        kept(h, es, a) == kept(h, es, b),
{
    assert forall|i: int| 0 <= i < es.len() implies kept(h, es, a)[i] == kept(h, es, b)[i] by {
        let loc = es[i].1;
        assert(h.holds(loc, chain_of(a, loc)));
        assert(h.holds(loc, chain_of(b, loc)));
        if is_ref(h.tuple(loc)) {
            lemma_chain_unique(h.pages, chain_of(a, loc), chain_of(b, loc));
        }
    }
    assert(kept(h, es, a) =~= kept(h, es, b));
}

} // verus!
