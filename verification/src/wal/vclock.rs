//! Vector clock: per-node monotonic counter, supporting the standard
//! comparison `Equal | LessThan | GreaterThan | Concurrent`.

use vstd::prelude::*;
use vstd::string::*;

use crate::bytes::{
    field, get_le, get_u16, get_u64, le_bytes, lemma_le_bytes_len, lemma_le_round_trip,
    lemma_pow256_values, push_le,
};
use crate::text::{append_decimal, decimal, owned};

verus! {

/// Maximum number of entries allowed in a vector clock. Defensive cap against
/// malformed input from the network or disk.
pub const MAX_VCLOCK_ENTRIES: u16 = 4096;

/// Size of one entry on disk: u128 node_id (16) + u64 counter (8).
pub const VCLOCK_ENTRY_SIZE: usize = 24;

/// Nodes in strictly ascending order.
pub open spec fn nodes_sorted(es: Seq<(u128, u64)>) -> bool {
    forall|i: int, j: int| 0 <= i < j < es.len() ==> (#[trigger] es[i]).0 < (#[trigger] es[j]).0
}

/// The number of entries, from the front, for nodes before `node`.
pub open spec fn node_rank(es: Seq<(u128, u64)>, node: u128) -> int
    decreases es.len(),
{
    if es.len() == 0 {
        0
    } else if es[0].0 < node {
        1 + node_rank(es.skip(1), node)
    } else {
        0
    }
}

/// Whether there is an entry for `node`.
pub open spec fn has_node(es: Seq<(u128, u64)>, node: u128) -> bool {
    node_rank(es, node) < es.len() && es[node_rank(es, node)].0 == node
}

/// The counter of `node`, zero without an entry.
pub open spec fn counter(es: Seq<(u128, u64)>, node: u128) -> u64 {
    if has_node(es, node) {
        es[node_rank(es, node)].1
    } else {
        0
    }
}

/// The entries with the counter of `node` set.
pub open spec fn with_counter(es: Seq<(u128, u64)>, node: u128, c: u64) -> Seq<(u128, u64)> {
    let p = node_rank(es, node);
    if has_node(es, node) {
        es.update(p, (node, c))
    } else {
        es.insert(p, (node, c))
    }
}

pub proof fn lemma_node_rank(es: Seq<(u128, u64)>, node: u128)
    requires
        nodes_sorted(es),
    ensures
        0 <= node_rank(es, node) <= es.len(),
        forall|i: int| 0 <= i < node_rank(es, node) ==> (#[trigger] es[i]).0 < node,
        forall|i: int| node_rank(es, node) <= i < es.len() ==> (#[trigger] es[i]).0 >= node,
    decreases es.len(),
{
    if es.len() > 0 {
        let t = es.skip(1);
        assert(nodes_sorted(t)) by {
            assert forall|i: int, j: int| 0 <= i < j < t.len() implies (#[trigger] t[i]).0 < (
            #[trigger] t[j]).0 by {
                assert(es[i + 1].0 < es[j + 1].0);
            }
        }
        lemma_node_rank(t, node);
        if es[0].0 < node {
            assert forall|i: int| 0 <= i < node_rank(es, node) implies (#[trigger] es[i]).0
                < node by {
                if i > 0 {
                    assert(es[i] == t[i - 1]);
                }
            }
            assert forall|i: int| node_rank(es, node) <= i < es.len() implies (#[trigger] es[i]).0
                >= node by {
                assert(es[i] == t[i - 1]);
            }
        }
    }
}

/// An entry is found where it stands.
pub proof fn lemma_node_at(es: Seq<(u128, u64)>, i: int)
    requires
        nodes_sorted(es),
        0 <= i < es.len(),
    ensures
        node_rank(es, es[i].0) == i,
        has_node(es, es[i].0),
        counter(es, es[i].0) == es[i].1,
{
    lemma_node_rank(es, es[i].0);
    let r = node_rank(es, es[i].0);
    if r < i {
        assert(es[r].0 < es[i].0);
    } else if i < r {
        assert(es[i].0 < es[i].0);
    }
}

/// Setting a counter keeps the order, sets that counter and no other.
pub proof fn lemma_with_counter(es: Seq<(u128, u64)>, node: u128, c: u64, q: u128)
    requires
        nodes_sorted(es),
    ensures
        nodes_sorted(with_counter(es, node, c)),
        counter(with_counter(es, node, c), node) == c,
        has_node(with_counter(es, node, c), node),
        q != node ==> counter(with_counter(es, node, c), q) == counter(es, q),
        q != node ==> has_node(with_counter(es, node, c), q) == has_node(es, q),
{
    lemma_node_rank(es, node);
    let p = node_rank(es, node);
    let w = with_counter(es, node, c);
    assert(nodes_sorted(w)) by {
        assert forall|i: int, j: int| 0 <= i < j < w.len() implies (#[trigger] w[i]).0 < (
        #[trigger] w[j]).0 by {
            if has_node(es, node) {
                assert(es[i].0 < es[j].0);
            } else {
                let a = if i < p {
                    i
                } else {
                    i - 1
                };
                let b = if j < p {
                    j
                } else {
                    j - 1
                };
                if i != p {
                    assert(w[i] == es[a]);
                }
                if j != p {
                    assert(w[j] == es[b]);
                }
                if i == p && b > p {
                    assert(es[p].0 < es[b].0);
                }
            }
        }
    }
    lemma_node_at(w, p);
    if q != node {
        lemma_node_rank(es, q);
        lemma_node_rank(w, q);
        let r = node_rank(es, q);
        let t = node_rank(w, q);
        if has_node(es, q) {
            let x = if has_node(es, node) || r < p {
                r
            } else {
                r + 1
            };
            assert(w[x] == es[r]);
            lemma_node_at(w, x);
        } else if has_node(w, q) {
            let x = if has_node(es, node) || t < p {
                t
            } else {
                t - 1
            };
            assert(w[t] == es[x]);
            lemma_node_at(es, x);
        }
    }
}

/// Clocks with the same entries for the same nodes are the same sequence.
pub proof fn lemma_clock_ext(a: Seq<(u128, u64)>, b: Seq<(u128, u64)>)
    requires
        nodes_sorted(a),
        nodes_sorted(b),
        forall|q: u128| #[trigger] has_node(a, q) == has_node(b, q),
        forall|q: u128| #[trigger] counter(a, q) == counter(b, q),
    ensures
        a == b,
    decreases a.len() + b.len(),
{
    if a.len() == 0 && b.len() == 0 {
        assert(a =~= b);
    } else if a.len() == 0 {
        lemma_node_at(b, 0);
        assert(has_node(a, b[0].0));
    } else if b.len() == 0 {
        lemma_node_at(a, 0);
        assert(has_node(b, a[0].0));
    } else {
        let x = a[a.len() - 1].0;
        let y = b[b.len() - 1].0;
        lemma_node_at(a, a.len() - 1);
        lemma_node_at(b, b.len() - 1);
        assert(has_node(b, x));
        assert(has_node(a, y));
        lemma_node_rank(a, y);
        lemma_node_rank(b, x);
        if x < y {
            let r = node_rank(a, y);
            assert(a[r].0 == y);
            if r < a.len() - 1 {
                assert(a[r].0 < a[a.len() - 1].0);
            }
        } else if y < x {
            let r = node_rank(b, x);
            assert(b[r].0 == x);
            if r < b.len() - 1 {
                assert(b[r].0 < b[b.len() - 1].0);
            }
        }
        assert(x == y);
        assert(counter(a, x) == counter(b, x));
        assert(a.last() == b.last());
        let fa = a.drop_last();
        let fb = b.drop_last();
        assert(nodes_sorted(fa)) by {
            assert forall|i: int, j: int| 0 <= i < j < fa.len() implies (#[trigger] fa[i]).0 < (
            #[trigger] fa[j]).0 by {
                assert(a[i].0 < a[j].0);
            }
        }
        assert(nodes_sorted(fb)) by {
            assert forall|i: int, j: int| 0 <= i < j < fb.len() implies (#[trigger] fb[i]).0 < (
            #[trigger] fb[j]).0 by {
                assert(b[i].0 < b[j].0);
            }
        }
        assert forall|q: u128|
            has_node(fa, q) == has_node(fb, q) && counter(fa, q) == counter(fb, q) by {
            lemma_drop_last_clock(a, q);
            lemma_drop_last_clock(b, q);
            assert(has_node(a, q) == has_node(b, q));
            assert(counter(a, q) == counter(b, q));
        }
        lemma_clock_ext(fa, fb);
        assert(a =~= fa.push(a.last()));
        assert(b =~= fb.push(b.last()));
    }
}

proof fn lemma_drop_last_clock(a: Seq<(u128, u64)>, q: u128)
    requires
        nodes_sorted(a),
        a.len() > 0,
    ensures
        has_node(a.drop_last(), q) == (has_node(a, q) && q != a.last().0),
        q != a.last().0 ==> counter(a.drop_last(), q) == counter(a, q),
        q == a.last().0 ==> counter(a.drop_last(), q) == 0,
{
    let f = a.drop_last();
    assert(nodes_sorted(f)) by {
        assert forall|i: int, j: int| 0 <= i < j < f.len() implies (#[trigger] f[i]).0 < (
        #[trigger] f[j]).0 by {
            assert(a[i].0 < a[j].0);
        }
    }
    lemma_node_rank(a, q);
    lemma_node_rank(f, q);
    if has_node(f, q) {
        let r = node_rank(f, q);
        assert(f[r] == a[r]);
        lemma_node_at(a, r);
        assert(a[r].0 < a[a.len() - 1].0);
    }
    if has_node(a, q) && q != a.last().0 {
        let r = node_rank(a, q);
        assert(r < f.len());
        assert(f[r] == a[r]);
        lemma_node_at(f, r);
    }
}

// ── Encoding ────────────────────────────────────────────────────────────

/// The bytes of entries, one after another.
pub open spec fn clock_entries_image(es: Seq<(u128, u64)>) -> Seq<u8>
    decreases es.len(),
{
    if es.len() == 0 {
        Seq::empty()
    } else {
        clock_entries_image(es.drop_last()) + le_bytes(es.last().0 as nat, 16) + le_bytes(
            es.last().1 as nat,
            8,
        )
    }
}

/// The bytes of a clock: the number of entries (its low two bytes), then the
/// entries.
pub open spec fn clock_image(es: Seq<(u128, u64)>) -> Seq<u8> {
    le_bytes(es.len(), 2) + clock_entries_image(es)
}

/// The entries that the bytes of a clock list, in the order they stand.
pub open spec fn listed(s: Seq<u8>, n: nat) -> Seq<(u128, u64)> {
    Seq::new(
        n,
        |i: int| (field(s, 2 + 24 * i, 16) as u128, field(s, 2 + 24 * i + 16, 8) as u64),
    )
}

/// The clock that a list of assignments leaves, the later ones winning.
pub open spec fn clock_assigned(l: Seq<(u128, u64)>) -> Seq<(u128, u64)>
    decreases l.len(),
{
    if l.len() == 0 {
        Seq::empty()
    } else {
        with_counter(clock_assigned(l.drop_last()), l.last().0, l.last().1)
    }
}

/// What decoding bytes gives: the clock and how many bytes it took.
pub open spec fn clock_parse(s: Seq<u8>) -> std::result::Result<
    (Seq<(u128, u64)>, nat),
    VClockError,
> {
    let n = field(s, 0, 2);
    if s.len() < 2 {
        Err(VClockError::Truncated { needed: 2, have: s.len() as usize })
    } else if n > MAX_VCLOCK_ENTRIES {
        Err(VClockError::TooManyEntries(n as u16))
    } else if s.len() < 2 + 24 * n {
        Err(VClockError::Truncated { needed: (2 + 24 * n) as usize, have: s.len() as usize })
    } else {
        Ok((clock_assigned(listed(s, n)), 2 + 24 * n))
    }
}

pub proof fn lemma_assigned_clock_sorted(l: Seq<(u128, u64)>)
    ensures
        nodes_sorted(clock_assigned(l)),
    decreases l.len(),
{
    if l.len() > 0 {
        lemma_assigned_clock_sorted(l.drop_last());
        lemma_with_counter(clock_assigned(l.drop_last()), l.last().0, l.last().1, 0);
    }
}

pub proof fn lemma_assigned_clock_same(l: Seq<(u128, u64)>)
    requires
        nodes_sorted(l),
    ensures
        clock_assigned(l) == l,
    decreases l.len(),
{
    if l.len() > 0 {
        let f = l.drop_last();
        assert(nodes_sorted(f)) by {
            assert forall|i: int, j: int| 0 <= i < j < f.len() implies (#[trigger] f[i]).0 < (
            #[trigger] f[j]).0 by {
                assert(l[i].0 < l[j].0);
            }
        }
        lemma_assigned_clock_same(f);
        lemma_node_rank(f, l.last().0);
        let r = node_rank(f, l.last().0);
        if r < f.len() {
            assert(l[r].0 < l[l.len() - 1].0);
            assert(f[r] == l[r]);
        }
        assert(f.insert(r, l.last()) =~= l);
    } else {
        assert(clock_assigned(l) =~= l);
    }
}

pub proof fn lemma_clock_entries_len(es: Seq<(u128, u64)>)
    ensures
        clock_entries_image(es).len() == 24 * es.len(),
    decreases es.len(),
{
    if es.len() > 0 {
        lemma_clock_entries_len(es.drop_last());
        lemma_le_bytes_len(es.last().0 as nat, 16);
        lemma_le_bytes_len(es.last().1 as nat, 8);
    }
}

proof fn lemma_clock_entry_at(es: Seq<(u128, u64)>, i: int)
    requires
        0 <= i < es.len(),
    ensures
        clock_entries_image(es).len() == 24 * es.len(),
        clock_entries_image(es).subrange(24 * i, 24 * i + 16) == le_bytes(es[i].0 as nat, 16),
        clock_entries_image(es).subrange(24 * i + 16, 24 * i + 24) == le_bytes(es[i].1 as nat, 8),
    decreases es.len(),
{
    let f = es.drop_last();
    let e = clock_entries_image(es);
    let fe = clock_entries_image(f);
    lemma_clock_entries_len(es);
    lemma_clock_entries_len(f);
    lemma_le_bytes_len(es.last().0 as nat, 16);
    lemma_le_bytes_len(es.last().1 as nat, 8);
    if i == es.len() - 1 {
        assert(e.subrange(24 * i, 24 * i + 16) =~= le_bytes(es[i].0 as nat, 16));
        assert(e.subrange(24 * i + 16, 24 * i + 24) =~= le_bytes(es[i].1 as nat, 8));
    } else {
        lemma_clock_entry_at(f, i);
        assert(e.subrange(24 * i, 24 * i + 16) =~= fe.subrange(24 * i, 24 * i + 16));
        assert(e.subrange(24 * i + 16, 24 * i + 24) =~= fe.subrange(24 * i + 16, 24 * i + 24));
    }
}

/// Decoding a clock gives back what was encoded, whatever follows it.
pub proof fn law_clock_round_trip(es: Seq<(u128, u64)>, rest: Seq<u8>)
    requires
        nodes_sorted(es),
        es.len() <= MAX_VCLOCK_ENTRIES,
    ensures
        clock_parse(clock_image(es) + rest) == Ok::<(Seq<(u128, u64)>, nat), VClockError>(
            (es, clock_image(es).len()),
        ),
        clock_image(es).len() == 2 + 24 * es.len(),
{
    lemma_pow256_values();
    lemma_le_round_trip(es.len(), 2);
    lemma_clock_entries_len(es);
    let s = clock_image(es) + rest;
    let body = clock_entries_image(es);
    assert(s.subrange(0, 2) =~= le_bytes(es.len(), 2));
    assert forall|i: int| 0 <= i < es.len() implies #[trigger] listed(s, es.len())[i] == es[i] by {
        lemma_clock_entry_at(es, i);
        lemma_le_round_trip(es[i].0 as nat, 16);
        lemma_le_round_trip(es[i].1 as nat, 8);
        assert(s.subrange(2 + 24 * i, 2 + 24 * i + 16) =~= body.subrange(24 * i, 24 * i + 16));
        assert(s.subrange(2 + 24 * i + 16, 2 + 24 * i + 16 + 8) =~= body.subrange(
            24 * i + 16,
            24 * i + 24,
        ));
    }
    assert(listed(s, es.len()) =~= es);
    lemma_assigned_clock_same(es);
}

/// A pointwise per-node counter, sorted by `node_id` for stable serialisation
/// across runs.
#[derive(Debug, PartialEq, Eq)]
pub struct VectorClock {
    entries: Vec<(u128, u64)>,
}

/// The four possible orderings of two vector clocks.
#[derive(Debug, Clone, Copy, PartialEq, Eq, Structural)]
pub enum VClockOrdering {
    /// Every entry of `self` equals the corresponding entry of `other`.
    Equal,
    /// Every entry of `self` is `<=` corresponding, and at least one is `<`.
    LessThan,
    /// Symmetric of `LessThan`.
    GreaterThan,
    /// Neither dominates the other.
    Concurrent,
}

/// Errors raised when decoding a vector clock from bytes.
#[derive(Debug, Clone, Copy, PartialEq, Eq, Structural)]
pub enum VClockError {
    /// The input buffer is shorter than what the length-prefix claims.
    Truncated {
        /// Number of bytes the encoded clock claims to occupy.
        needed: usize,
        /// Number of bytes actually available in the buffer.
        have: usize,
    },
    /// The length-prefix exceeds [`MAX_VCLOCK_ENTRIES`].
    TooManyEntries(u16),
}

impl VClockError {
    /// The text that describes the error.
    pub open spec fn message_text(&self) -> Seq<char> {
        match self {
            VClockError::Truncated { needed, have } => "truncated vector clock: need "@ + decimal(
                *needed as nat,
            ) + " bytes, have "@ + decimal(*have as nat),
            VClockError::TooManyEntries(n) => "vector clock has too many entries: "@ + decimal(
                *n as nat,
            ) + " (max 4096)"@,
        }
    }

    /// The text that describes the error.
    pub fn message(&self) -> (r: String)
        ensures
            r@ == self.message_text(),
    {
        match self {
            VClockError::Truncated { needed, have } => {
                let mut s: String = owned("truncated vector clock: need ");
                append_decimal(&mut s, *needed as u64);
                s.append(" bytes, have ");
                append_decimal(&mut s, *have as u64);
                s
            },
            VClockError::TooManyEntries(n) => {
                let mut s: String = owned("vector clock has too many entries: ");
                append_decimal(&mut s, *n as u64);
                s.append(" (max 4096)");
                s
            },
        }
    }
}

/// `a` is at most `b` at every node.
pub open spec fn dominated(a: Seq<(u128, u64)>, b: Seq<(u128, u64)>) -> bool {
    forall|q: u128| #[trigger] counter(a, q) <= counter(b, q)
}

/// How two clocks are ordered.
pub open spec fn clock_order(a: Seq<(u128, u64)>, b: Seq<(u128, u64)>) -> VClockOrdering {
    if dominated(a, b) && dominated(b, a) {
        VClockOrdering::Equal
    } else if dominated(a, b) {
        VClockOrdering::LessThan
    } else if dominated(b, a) {
        VClockOrdering::GreaterThan
    } else {
        VClockOrdering::Concurrent
    }
}

/// The entries of `b` from the front merged into `a`, each counter going up to
/// the larger of the two.
pub open spec fn clock_merged(a: Seq<(u128, u64)>, b: Seq<(u128, u64)>) -> Seq<(u128, u64)>
    decreases b.len(),
{
    if b.len() == 0 {
        a
    } else {
        let m = clock_merged(a, b.drop_last());
        let node = b.last().0;
        let c = b.last().1;
        with_counter(
            m,
            node,
            if c > counter(m, node) {
                c
            } else {
                counter(m, node)
            },
        )
    }
}

/// Merging takes the larger counter at every node, and has entries for the
/// nodes of both clocks.
pub proof fn lemma_merged(a: Seq<(u128, u64)>, b: Seq<(u128, u64)>, q: u128)
    requires
        nodes_sorted(a),
        nodes_sorted(b),
    ensures
        nodes_sorted(clock_merged(a, b)),
        counter(clock_merged(a, b), q) == (if counter(b, q) > counter(a, q) {
            counter(b, q)
        } else {
            counter(a, q)
        }),
        has_node(clock_merged(a, b), q) == (has_node(a, q) || has_node(b, q)),
    decreases b.len(),
{
    if b.len() > 0 {
        let f = b.drop_last();
        assert(nodes_sorted(f)) by {
            assert forall|i: int, j: int| 0 <= i < j < f.len() implies (#[trigger] f[i]).0 < (
            #[trigger] f[j]).0 by {
                assert(b[i].0 < b[j].0);
            }
        }
        lemma_merged(a, f, q);
        lemma_merged(a, f, b.last().0);
        lemma_drop_last_clock(b, q);
        lemma_drop_last_clock(b, b.last().0);
        lemma_node_at(b, b.len() - 1);
        let m = clock_merged(a, f);
        let c = b.last().1;
        let node = b.last().0;
        lemma_with_counter(
            m,
            node,
            if c > counter(m, node) {
                c
            } else {
                counter(m, node)
            },
            q,
        );
    }
}

/// Merging does not depend on the order of the clocks, and merging a clock
/// with itself changes nothing.
pub proof fn law_merge_commutes(a: Seq<(u128, u64)>, b: Seq<(u128, u64)>)
    requires
        nodes_sorted(a),
        nodes_sorted(b),
    ensures
        clock_merged(a, b) == clock_merged(b, a),
        clock_merged(a, a) == a,
{
    let x = clock_merged(a, b);
    let y = clock_merged(b, a);
    let z = clock_merged(a, a);
    assert forall|q: u128| #[trigger]
        has_node(x, q) == has_node(y, q) && has_node(z, q) == has_node(a, q) by {
        lemma_merged(a, b, q);
        lemma_merged(b, a, q);
        lemma_merged(a, a, q);
    }
    assert forall|q: u128| #[trigger] counter(x, q) == counter(y, q) by {
        lemma_merged(a, b, q);
        lemma_merged(b, a, q);
    }
    assert forall|q: u128| #[trigger] counter(z, q) == counter(a, q) by {
        lemma_merged(a, a, q);
    }
    assert forall|q: u128| #[trigger] has_node(z, q) == has_node(a, q) by {
        lemma_merged(a, a, q);
    }
    lemma_merged(a, b, 0);
    lemma_merged(b, a, 0);
    lemma_merged(a, a, 0);
    lemma_clock_ext(clock_merged(a, b), clock_merged(b, a));
    lemma_clock_ext(clock_merged(a, a), a);
}

/// Merging three clocks does not depend on the grouping.
pub proof fn law_merge_associates(
    a: Seq<(u128, u64)>,
    b: Seq<(u128, u64)>,
    c: Seq<(u128, u64)>,
)
    requires
        nodes_sorted(a),
        nodes_sorted(b),
        nodes_sorted(c),
    ensures
        clock_merged(clock_merged(a, b), c) == clock_merged(a, clock_merged(b, c)),
{
    let x = clock_merged(clock_merged(a, b), c);
    let y = clock_merged(a, clock_merged(b, c));
    lemma_merged(a, b, 0);
    lemma_merged(b, c, 0);
    lemma_merged(clock_merged(a, b), c, 0);
    lemma_merged(a, clock_merged(b, c), 0);
    assert forall|q: u128| has_node(x, q) == has_node(y, q) && counter(x, q) == counter(y, q) by {
        lemma_merged(a, b, q);
        lemma_merged(b, c, q);
        lemma_merged(clock_merged(a, b), c, q);
        lemma_merged(a, clock_merged(b, c), q);
    }
    lemma_clock_ext(x, y);
}

/// A merged clock is at least each of the clocks it was made from.
pub proof fn law_merge_dominates(a: Seq<(u128, u64)>, b: Seq<(u128, u64)>)
    requires
        nodes_sorted(a),
        nodes_sorted(b),
    ensures
        dominated(a, clock_merged(a, b)),
        dominated(b, clock_merged(a, b)),
{
    assert forall|q: u128| #[trigger]
        counter(a, q) <= counter(clock_merged(a, b), q) by {
        lemma_merged(a, b, q);
    }
    assert forall|q: u128| #[trigger]
        counter(b, q) <= counter(clock_merged(a, b), q) by {
        lemma_merged(a, b, q);
    }
}

/// The order of clocks is reflexive, turns round when the clocks are
/// exchanged, and is transitive.
pub proof fn law_clock_order(
    a: Seq<(u128, u64)>,
    b: Seq<(u128, u64)>,
    c: Seq<(u128, u64)>,
)
    ensures
        clock_order(a, a) == VClockOrdering::Equal,
        (clock_order(a, b) == VClockOrdering::LessThan) == (clock_order(b, a)
            == VClockOrdering::GreaterThan),
        (clock_order(a, b) == VClockOrdering::Concurrent) == (clock_order(b, a)
            == VClockOrdering::Concurrent),
        clock_order(a, b) == VClockOrdering::LessThan && clock_order(b, c)
            == VClockOrdering::LessThan ==> clock_order(a, c) == VClockOrdering::LessThan,
{
    if dominated(a, b) && dominated(b, c) {
        assert forall|q: u128| #[trigger] counter(a, q) <= counter(c, q) by {
            assert(counter(a, q) <= counter(b, q));
            assert(counter(b, q) <= counter(c, q));
        }
        if dominated(c, a) {
            assert forall|q: u128| #[trigger] counter(c, q) <= counter(b, q) by {
                assert(counter(c, q) <= counter(a, q));
                assert(counter(a, q) <= counter(b, q));
            }
        }
    }
}

impl VectorClock {
    /// The entries in ascending order of their nodes.
    pub closed spec fn model(&self) -> Seq<(u128, u64)> {
        self.entries@
    }

    /// The entries are sorted.
    pub open spec fn wf(&self) -> bool {
        nodes_sorted(self.model())
    }

    /// Constructs an empty vector clock.
    pub fn new() -> (r: Self)
        ensures
            r.wf(),
            r.model() == Seq::<(u128, u64)>::empty(),
    {
        VectorClock { entries: Vec::new() }
    }

    /// Constructs a vector clock with a single `(node_id, counter)` entry.
    pub fn singleton(node_id: u128, counter: u64) -> (r: Self)
        ensures
            r.wf(),
            r.model() == seq![(node_id, counter)],
    {
        let mut entries: Vec<(u128, u64)> = Vec::new();
        entries.push((node_id, counter));
        assert(entries@ =~= seq![(node_id, counter)]);
        VectorClock { entries }
    }

    /// A copy of the clock.
    pub fn dup(&self) -> (r: Self)
        ensures
            r.model() == self.model(),
    {
        let mut entries: Vec<(u128, u64)> = Vec::new();
        let mut i: usize = 0;
        while i < self.entries.len()
            invariant
                i <= self.entries@.len(),
                entries@ == self.entries@.take(i as int),
            decreases self.entries@.len() - i,
        {
            entries.push(self.entries[i]);
            i = i + 1;
            assert(entries@ =~= self.entries@.take(i as int));
        }
        assert(entries@ =~= self.entries@);
        VectorClock { entries }
    }

    fn find(&self, node_id: u128) -> (r: (usize, bool))
        requires
            self.wf(),
        ensures
            r.0 == node_rank(self.model(), node_id),
            r.0 <= self.entries@.len(),
            r.1 == has_node(self.model(), node_id),
    {
        let ghost es = self.model();
        proof {
            lemma_node_rank(es, node_id);
        }
        let mut i: usize = 0;
        while i < self.entries.len() && self.entries[i].0 < node_id
            invariant
                es == self.entries@,
                i <= es.len(),
                forall|j: int| 0 <= j < i ==> (#[trigger] es[j]).0 < node_id,
            decreases es.len() - i,
        {
            i = i + 1;
        }
        proof {
            let p = node_rank(es, node_id);
            if i < p {
                assert(es[i as int].0 < node_id);
            } else if p < i {
                assert(es[p].0 < node_id);
            }
        }
        (i, i < self.entries.len() && self.entries[i].0 == node_id)
    }

    /// Returns the counter for `node_id`, or `0` if absent.
    pub fn get(&self, node_id: u128) -> (r: u64)
        requires
            self.wf(),
        ensures
            r == counter(self.model(), node_id),
    {
        let (i, found) = self.find(node_id);
        if found {
            self.entries[i].1
        } else {
            0
        }
    }

    /// Sets (or overwrites) the counter for `node_id`.
    pub fn set(&mut self, node_id: u128, counter: u64)
        requires
            old(self).wf(),
        ensures
            final(self).wf(),
            final(self).model() == with_counter(old(self).model(), node_id, counter),
    {
        let ghost es = self.model();
        let (i, found) = self.find(node_id);
        if found {
            self.entries.set(i, (node_id, counter));
        } else {
            self.entries.insert(i, (node_id, counter));
        }
        proof {
            lemma_with_counter(es, node_id, counter, 0);
            assert(self.entries@ =~= with_counter(es, node_id, counter));
        }
    }

    /// Increments the counter for `node_id`, stopping at the largest number.
    /// Returns the new value.
    pub fn bump(&mut self, node_id: u128) -> (r: u64)
        requires
            old(self).wf(),
        ensures
            final(self).wf(),
            r == (if counter(old(self).model(), node_id) == u64::MAX {
                u64::MAX as int
            } else {
                counter(old(self).model(), node_id) + 1
            }),
            final(self).model() == with_counter(old(self).model(), node_id, r),
    {
        let cur: u64 = self.get(node_id);
        let next: u64 = if cur == u64::MAX {
            cur
        } else {
            cur + 1
        };
        self.set(node_id, next);
        next
    }

    /// Pointwise max merge: `self[k] = max(self[k], other[k])` for every node
    /// id present in either clock.
    pub fn merge(&mut self, other: &VectorClock)
        requires
            old(self).wf(),
            other.wf(),
        ensures
            final(self).wf(),
            final(self).model() == clock_merged(old(self).model(), other.model()),
    {
        let ghost a = self.model();
        let ghost b = other.model();
        let mut i: usize = 0;
        assert(b.take(0) =~= Seq::<(u128, u64)>::empty());
        while i < other.entries.len()
            invariant
                i <= b.len(),
                b == other.entries@,
                nodes_sorted(a),
                nodes_sorted(b),
                self.wf(),
                self.model() == clock_merged(a, b.take(i as int)),
            decreases b.len() - i,
        {
            proof {
                assert(b.take(i + 1).drop_last() =~= b.take(i as int));
                assert(b.take(i + 1).last() == b[i as int]);
            }
            let (node, c) = other.entries[i];
            let cur: u64 = self.get(node);
            self.set(
                node,
                if c > cur {
                    c
                } else {
                    cur
                },
            );
            i = i + 1;
        }
        assert(b.take(i as int) =~= b);
    }

    /// Returns the standard vector clock ordering between `self` and `other`.
    pub fn compare(&self, other: &VectorClock) -> (r: VClockOrdering)
        requires
            self.wf(),
            other.wf(),
        ensures
            r == clock_order(self.model(), other.model()),
    {
        let le: bool = self.within(other);
        let ge: bool = other.within(self);
        if le && ge {
            VClockOrdering::Equal
        } else if le {
            VClockOrdering::LessThan
        } else if ge {
            VClockOrdering::GreaterThan
        } else {
            VClockOrdering::Concurrent
        }
    }

    /// Whether no counter is larger than the other clock's.
    fn within(&self, other: &VectorClock) -> (r: bool)
        requires
            self.wf(),
            other.wf(),
        ensures
            r == dominated(self.model(), other.model()),
    {
        let ghost a = self.model();
        let ghost b = other.model();
        let mut i: usize = 0;
        while i < self.entries.len()
            invariant
                a == self.entries@,
                b == other.model(),
                self.wf(),
                other.wf(),
                i <= a.len(),
                forall|j: int| 0 <= j < i ==> (#[trigger] a[j]).1 <= counter(b, a[j].0),
            decreases a.len() - i,
        {
            let (node, c) = self.entries[i];
            if c > other.get(node) {
                proof {
                    lemma_node_at(a, i as int);
                    assert(counter(a, node) > counter(b, node));
                }
                return false;
            }
            i = i + 1;
        }
        proof {
            assert forall|q: u128| #[trigger] counter(a, q) <= counter(b, q) by {
                if has_node(a, q) {
                    lemma_node_rank(a, q);
                    let r = node_rank(a, q);
                    assert(a[r].1 <= counter(b, a[r].0));
                }
            }
        }
        true
    }

    /// Returns the number of entries currently held.
    pub fn len(&self) -> (r: usize)
        ensures
            r == self.model().len(),
    {
        self.entries.len()
    }

    /// Returns `true` if the clock has no entries.
    pub fn is_empty(&self) -> (r: bool)
        ensures
            r == (self.model().len() == 0),
    {
        self.entries.len() == 0
    }

    /// The entries in ascending `node_id` order.
    pub fn iter(&self) -> (r: Vec<(u128, u64)>)
        ensures
            r@ == self.model(),
    {
        self.dup().entries
    }

    /// Returns the size in bytes of the on-disk encoding.
    pub fn encoded_len(&self) -> (r: usize)
        requires
            2 + 24 * self.model().len() <= usize::MAX,
        ensures
            r == clock_image(self.model()).len(),
    {
        proof {
            lemma_clock_entries_len(self.model());
            lemma_le_bytes_len(self.model().len(), 2);
        }
        2 + self.entries.len() * VCLOCK_ENTRY_SIZE
    }

    /// Appends the on-disk encoding to `buf`: `u16 num_entries (LE)` then
    /// `num_entries × (u128 node_id LE + u64 counter LE)`.
    pub fn encode_to(&self, buf: &mut Vec<u8>)
        ensures
            final(buf)@ == old(buf)@ + clock_image(self.model()),
    {
        let ghost b0 = buf@;
        let ghost es = self.model();
        push_le(buf, self.entries.len() as u128, 2);
        let mut i: usize = 0;
        proof {
            assert(es.take(0) =~= Seq::<(u128, u64)>::empty());
            assert(buf@ =~= b0 + le_bytes(es.len(), 2) + clock_entries_image(es.take(0)));
        }
        while i < self.entries.len()
            invariant
                es == self.entries@,
                i <= es.len(),
                buf@ == b0 + le_bytes(es.len(), 2) + clock_entries_image(es.take(i as int)),
            decreases es.len() - i,
        {
            let (node, c) = self.entries[i];
            let ghost before = buf@;
            push_le(buf, node, 16);
            push_le(buf, c as u128, 8);
            proof {
                assert(es.take(i + 1).drop_last() =~= es.take(i as int));
                assert(es.take(i + 1).last() == es[i as int]);
                assert(buf@ =~= b0 + le_bytes(es.len(), 2) + clock_entries_image(es.take(i + 1)));
            }
            i = i + 1;
        }
        proof {
            assert(es.take(i as int) =~= es);
            assert(buf@ =~= b0 + clock_image(es));
        }
    }

    /// Decodes a vector clock from `buf`. Returns the clock and the number of
    /// bytes consumed.
    pub fn decode(buf: &[u8]) -> (r: std::result::Result<(Self, usize), VClockError>)
        ensures
            match r {
                Ok(t) => t.0.wf() && clock_parse(buf@) == Ok::<
                    (Seq<(u128, u64)>, nat),
                    VClockError,
                >((t.0.model(), t.1 as nat)) && t.1 <= buf@.len() && 2 <= t.1,
                Err(e) => clock_parse(buf@) == Err::<(Seq<(u128, u64)>, nat), VClockError>(e),
            },
    {
        assert(buf.len() == buf@.len());
        if buf.len() < 2 {
            return Err(VClockError::Truncated { needed: 2, have: buf.len() });
        }
        let n: u16 = get_u16(buf, 0);
        if n > MAX_VCLOCK_ENTRIES {
            return Err(VClockError::TooManyEntries(n));
        }
        let total: usize = 2 + (n as usize) * VCLOCK_ENTRY_SIZE;
        if buf.len() < total {
            return Err(VClockError::Truncated { needed: total, have: buf.len() });
        }
        let mut clock: VectorClock = VectorClock::new();
        let ghost l = listed(buf@, n as nat);
        let mut i: usize = 0;
        assert(l.take(0) =~= Seq::<(u128, u64)>::empty());
        while i < n as usize
            invariant
                i <= n,
                n <= MAX_VCLOCK_ENTRIES,
                total == 2 + 24 * n,
                total <= buf@.len(),
                l == listed(buf@, n as nat),
                clock.wf(),
                clock.model() == clock_assigned(l.take(i as int)),
            decreases n - i,
        {
            let at: usize = 2 + i * VCLOCK_ENTRY_SIZE;
            let node: u128 = get_le(buf, at, 16);
            let c: u64 = get_u64(buf, at + 16);
            proof {
                assert(l.take(i + 1).drop_last() =~= l.take(i as int));
                assert(l.take(i + 1).last() == l[i as int]);
            }
            clock.set(node, c);
            i = i + 1;
        }
        assert(l.take(i as int) =~= l);
        Ok((clock, total))
    }
}

impl Clone for VectorClock {
    fn clone(&self) -> (r: Self)
        ensures
            r.model() == self.model(),
    {
        self.dup()
    }
}

impl Default for VectorClock {
    fn default() -> (r: Self)
        ensures
            r.wf(),
            r.model() == Seq::<(u128, u64)>::empty(),
    {
        VectorClock::new()
    }
}

// ── Laws ────────────────────────────────────────────────────────────────

/// The counter of a node is that of its entry, and zero without one.
pub proof fn law_counters_are_entries(es: Seq<(u128, u64)>, node: u128, c: u64)
    requires
        nodes_sorted(es),
    ensures
        es.contains((node, c)) ==> counter(es, node) == c,
        (forall|d: u64| !#[trigger] es.contains((node, d))) ==> counter(es, node) == 0,
        c > 0 && counter(es, node) == c ==> es.contains((node, c)),
{
    if es.contains((node, c)) {
        let i = choose|i: int| 0 <= i < es.len() && es[i] == (node, c);
        lemma_node_at(es, i);
    }
    lemma_node_rank(es, node);
    if has_node(es, node) {
        let p = node_rank(es, node);
        assert(es[p] == (node, es[p].1));
        assert(es.contains((node, es[p].1)));
    }
}

/// A merged clock holds the larger counter of the two at every node.
pub proof fn law_merge_takes_the_larger(a: Seq<(u128, u64)>, b: Seq<(u128, u64)>, node: u128)
    requires
        nodes_sorted(a),
        nodes_sorted(b),
    ensures
        nodes_sorted(clock_merged(a, b)),
        counter(clock_merged(a, b), node) >= counter(a, node),
        counter(clock_merged(a, b), node) >= counter(b, node),
        counter(clock_merged(a, b), node) == counter(a, node) || counter(clock_merged(a, b), node)
            == counter(b, node),
{
    lemma_merged(a, b, node);
}

/// One clock is before another exactly if no counter is larger and one is
/// smaller; two are concurrent exactly if each has a larger counter.
pub proof fn law_order_goes_by_counters(a: Seq<(u128, u64)>, b: Seq<(u128, u64)>)
    ensures
        (clock_order(a, b) == VClockOrdering::Equal) == (forall|q: u128| #[trigger]
            counter(a, q) == counter(b, q)),
        (clock_order(a, b) == VClockOrdering::LessThan) == ((forall|q: u128| #[trigger]
            counter(a, q) <= counter(b, q)) && (exists|q: u128| #[trigger]
            counter(a, q) < counter(b, q))),
        (clock_order(a, b) == VClockOrdering::GreaterThan) == ((forall|q: u128| #[trigger]
            counter(a, q) >= counter(b, q)) && (exists|q: u128| #[trigger]
            counter(a, q) > counter(b, q))),
        (clock_order(a, b) == VClockOrdering::Concurrent) == ((exists|q: u128| #[trigger]
            counter(a, q) < counter(b, q)) && (exists|q: u128| #[trigger]
            counter(a, q) > counter(b, q))),
{
    if !dominated(a, b) {
        let q = choose|q: u128| #[trigger] counter(a, q) > counter(b, q);
        assert(counter(a, q) > counter(b, q));
    } else {
        assert forall|q: u128| #[trigger] counter(a, q) <= counter(b, q) by {}
    }
    if !dominated(b, a) {
        let q = choose|q: u128| #[trigger] counter(b, q) > counter(a, q);
        assert(counter(a, q) < counter(b, q));
    } else {
        assert forall|q: u128| #[trigger] counter(a, q) >= counter(b, q) by {
            assert(counter(b, q) <= counter(a, q));
        }
    }
}

} // verus!
