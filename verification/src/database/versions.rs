//! Version history for snapshot reads, and the snapshots that are being read.

use vstd::prelude::*;

use crate::document::value::{value_wf, Value, ValueM};
use crate::text::{owned, str_eq};
use crate::uid::Uuid;
use crate::wal::hlc::Hlc;

verus! {

/// A committed version of a document: when it was committed and its value,
/// none for a deletion.
#[derive(Debug)]
pub struct VersionedValue {
    pub hlc: Hlc,
    pub value: Option<Value>,
}

/// What a version is.
pub type VersionM = (u64, Option<ValueM>);

/// What an optional value is.
pub open spec fn value_model(v: Option<Value>) -> Option<ValueM> {
    match v {
        Some(x) => Some(x.model()),
        None => None,
    }
}

/// What is seen of a value: a tombstone stands for a deletion.
pub open spec fn shown(v: Option<ValueM>) -> Option<ValueM> {
    match v {
        Some(m) => if m is Tombstone {
            None
        } else {
            Some(m)
        },
        None => None,
    }
}

/// The value as it is seen.
fn without_tombstone(v: Option<Value>) -> (r: Option<Value>)
    requires
        v is Some ==> value_wf(v->0.model()),
    ensures
        value_model(r) == shown(value_model(v)),
        r is Some ==> value_wf(r->0.model()),
{
    match v {
        Some(x) => if x.is_tombstone() {
            None
        } else {
            Some(x)
        },
        None => None,
    }
}

impl VersionedValue {
    /// What the version is.
    pub open spec fn model(&self) -> VersionM {
        (self.hlc.0, value_model(self.value))
    }

    /// A copy of the version.
    pub fn dup(&self) -> (r: Self)
        ensures
            r.model() == self.model(),
    {
        VersionedValue {
            hlc: self.hlc,
            value: match &self.value {
                Some(v) => Some(v.dup()),
                None => None,
            },
        }
    }
}

/// What versions are.
pub open spec fn versions_of(vs: Seq<VersionedValue>) -> Seq<VersionM> {
    Seq::new(vs.len(), |i: int| vs[i].model())
}

/// How many versions, from the front, were committed by `at`.
pub open spec fn settled(vs: Seq<VersionM>, at: u64) -> int
    decreases vs.len(),
{
    if vs.len() == 0 {
        0
    } else if vs[0].0 <= at {
        1 + settled(vs.skip(1), at)
    } else {
        0
    }
}

/// What a snapshot sees of a document with these versions.
pub open spec fn visible(vs: Seq<VersionM>, snapshot: u64) -> Option<ValueM> {
    let n = settled(vs, snapshot);
    if n > 0 {
        vs[n - 1].1
    } else {
        None
    }
}

/// The versions that are still needed when the oldest snapshot being read is
/// `watermark`.
pub open spec fn pruned(vs: Seq<VersionM>, watermark: Option<u64>) -> Seq<VersionM> {
    if vs.len() <= 1 {
        vs
    } else {
        match watermark {
            None => vs.skip(vs.len() - 1),
            Some(w) => if settled(vs, w) > 0 {
                vs.skip(settled(vs, w) - 1)
            } else {
                vs
            },
        }
    }
}

pub proof fn lemma_settled(vs: Seq<VersionM>, at: u64)
    ensures
        0 <= settled(vs, at) <= vs.len(),
        forall|i: int| 0 <= i < settled(vs, at) ==> (#[trigger] vs[i]).0 <= at,
        settled(vs, at) < vs.len() ==> vs[settled(vs, at)].0 > at,
    decreases vs.len(),
{
    if vs.len() > 0 && vs[0].0 <= at {
        let t = vs.skip(1);
        lemma_settled(t, at);
        assert forall|i: int| 0 <= i < settled(vs, at) implies (#[trigger] vs[i]).0 <= at by {
            if i > 0 {
                assert(vs[i] == t[i - 1]);
            }
        }
    }
}

/// The number of settled versions is where they end.
proof fn lemma_settled_is(vs: Seq<VersionM>, at: u64, n: int)
    requires
        0 <= n <= vs.len(),
        forall|i: int| 0 <= i < n ==> (#[trigger] vs[i]).0 <= at,
        n < vs.len() ==> vs[n].0 > at,
    ensures
        settled(vs, at) == n,
{
    lemma_settled(vs, at);
    let m = settled(vs, at);
    if m < n {
        assert(vs[m].0 <= at);
    } else if n < m {
        assert(vs[n].0 <= at);
    }
}

/// Pruning keeps what every snapshot from the oldest on sees.
pub proof fn law_pruning_keeps_snapshots(vs: Seq<VersionM>, watermark: u64, snapshot: u64)
    requires
        watermark <= snapshot,
    ensures
        visible(pruned(vs, Some(watermark)), snapshot) == visible(vs, snapshot),
{
    lemma_settled(vs, watermark);
    lemma_settled(vs, snapshot);
    let n = settled(vs, watermark);
    let m = settled(vs, snapshot);
    if vs.len() > 1 && n > 0 {
        let p = vs.skip(n - 1);
        if m < n {
            assert(vs[m].0 <= watermark);
        }
        assert forall|i: int| 0 <= i < m - (n - 1) implies (#[trigger] p[i]).0 <= snapshot by {
            assert(p[i] == vs[i + n - 1]);
        }
        if m < vs.len() {
            assert(p[m - (n - 1)] == vs[m]);
        }
        lemma_settled_is(p, snapshot, m - (n - 1));
    }
}

/// Pruning without readers keeps what a snapshot after every version sees.
pub proof fn law_pruning_keeps_latest(vs: Seq<VersionM>, snapshot: u64)
    requires
        forall|i: int| 0 <= i < vs.len() ==> (#[trigger] vs[i]).0 <= snapshot,
    ensures
        visible(pruned(vs, None), snapshot) == visible(vs, snapshot),
        vs.len() > 0 ==> visible(vs, snapshot) == vs.last().1,
{
    lemma_settled_is(vs, snapshot, vs.len() as int);
    let p = pruned(vs, None);
    assert forall|i: int| 0 <= i < p.len() implies (#[trigger] p[i]).0 <= snapshot by {
        if vs.len() > 1 {
            assert(p[i] == vs[i + vs.len() - 1]);
        }
    }
    lemma_settled_is(p, snapshot, p.len() as int);
}

/// A version that is committed after a snapshot is not seen by it.
pub proof fn law_snapshot_hides_later_versions(vs: Seq<VersionM>, v: VersionM, snapshot: u64)
    requires
        v.0 > snapshot,
    ensures
        visible(vs.push(v), snapshot) == visible(vs, snapshot),
{
    lemma_settled(vs, snapshot);
    let n = settled(vs, snapshot);
    let w = vs.push(v);
    assert forall|i: int| 0 <= i < n implies (#[trigger] w[i]).0 <= snapshot by {
        assert(w[i] == vs[i]);
    }
    lemma_settled_is(w, snapshot, n);
}

fn count_settled(vs: &Vec<VersionedValue>, at: Hlc) -> (r: usize)
    ensures
        r == settled(versions_of(vs@), at.0),
        r <= vs@.len(),
{
    let ghost all = versions_of(vs@);
    let mut n: usize = 0;
    while n < vs.len() && vs[n].hlc.0 <= at.0
        invariant
            all == versions_of(vs@),
            n <= vs@.len(),
            forall|i: int| 0 <= i < n ==> (#[trigger] all[i]).0 <= at.0,
        decreases vs@.len() - n,
    {
        assert(all[n as int].0 == vs@[n as int].hlc.0);
        n = n + 1;
    }
    proof {
        if n < vs@.len() {
            assert(all[n as int].0 == vs@[n as int].hlc.0);
        }
        lemma_settled_is(all, at.0, n as int);
    }
    n
}

/// The versions of one document.
#[derive(Debug)]
pub struct History {
    pub collection: String,
    pub key: Uuid,
    pub versions: Vec<VersionedValue>,
}

/// What a history is: the collection, the key and the versions.
pub type HistoryM = (Seq<char>, u128, Seq<VersionM>);

impl History {
    /// What the history is.
    pub open spec fn model(&self) -> HistoryM {
        (self.collection@, self.key.0, versions_of(self.versions@))
    }

    /// The values of the versions are in order.
    pub open spec fn wf(&self) -> bool {
        forall|i: int|
            0 <= i < self.versions@.len() ==> ((#[trigger] self.versions@[i]).value is Some
                ==> value_wf(self.versions@[i].value->0.model()))
    }
}

/// What histories are.
pub open spec fn histories_of(hs: Seq<History>) -> Seq<HistoryM> {
    Seq::new(hs.len(), |i: int| hs[i].model())
}

/// The place of the history of a document.
pub open spec fn history_pos(hs: Seq<HistoryM>, c: Seq<char>, k: u128) -> Option<int>
    decreases hs.len(),
{
    if hs.len() == 0 {
        None
    } else {
        match history_pos(hs.drop_last(), c, k) {
            Some(i) => Some(i),
            None => if hs.last().0 == c && hs.last().1 == k {
                Some(hs.len() - 1)
            } else {
                None
            },
        }
    }
}

/// The versions of a document, if it has any.
pub open spec fn history(hs: Seq<HistoryM>, c: Seq<char>, k: u128) -> Option<Seq<VersionM>> {
    match history_pos(hs, c, k) {
        Some(i) => Some(hs[i].2),
        None => None,
    }
}

pub proof fn lemma_history_pos(hs: Seq<HistoryM>, c: Seq<char>, k: u128)
    ensures
        history_pos(hs, c, k) matches Some(i) ==> 0 <= i < hs.len() && hs[i].0 == c && hs[i].1
            == k,
    decreases hs.len(),
{
    if hs.len() > 0 {
        lemma_history_pos(hs.drop_last(), c, k);
    }
}

proof fn lemma_history_first(hs: Seq<HistoryM>, c: Seq<char>, k: u128, n: int)
    requires
        0 <= n <= hs.len(),
        history_pos(hs.take(n), c, k) is Some,
    ensures
        history_pos(hs, c, k) == history_pos(hs.take(n), c, k),
    decreases hs.len() - n,
{
    if n < hs.len() {
        assert(hs.take(n + 1).drop_last() =~= hs.take(n));
        lemma_history_first(hs, c, k, n + 1);
    } else {
        assert(hs.take(n) =~= hs);
    }
}

/// The histories after a version was added to one of them.
pub open spec fn with_version(hs: Seq<HistoryM>, c: Seq<char>, k: u128, v: VersionM) -> Seq<
    HistoryM,
> {
    match history_pos(hs, c, k) {
        Some(i) => hs.update(i, (hs[i].0, hs[i].1, hs[i].2.push(v))),
        None => hs.push((c, k, seq![v])),
    }
}

/// The histories, with one that holds `v` for a document without versions.
pub open spec fn with_baseline(hs: Seq<HistoryM>, c: Seq<char>, k: u128, v: VersionM) -> Seq<
    HistoryM,
> {
    match history_pos(hs, c, k) {
        Some(i) => if hs[i].2.len() == 0 {
            hs.update(i, (hs[i].0, hs[i].1, seq![v]))
        } else {
            hs
        },
        None => hs.push((c, k, seq![v])),
    }
}

/// The histories with what is no longer needed removed.
pub open spec fn all_pruned(hs: Seq<HistoryM>, watermark: Option<u64>) -> Seq<HistoryM> {
    Seq::new(hs.len(), |i: int| (hs[i].0, hs[i].1, pruned(hs[i].2, watermark)))
}

/// The histories of other collections.
pub open spec fn without_collection(hs: Seq<HistoryM>, c: Seq<char>) -> Seq<HistoryM>
    decreases hs.len(),
{
    if hs.len() == 0 {
        Seq::empty()
    } else {
        let front = without_collection(hs.drop_last(), c);
        if hs.last().0 == c {
            front
        } else {
            front.push(hs.last())
        }
    }
}

proof fn lemma_pos_same(a: Seq<HistoryM>, b: Seq<HistoryM>, c: Seq<char>, k: u128)
    requires
        b.len() == a.len(),
        forall|i: int| 0 <= i < a.len() ==> (#[trigger] b[i]).0 == a[i].0 && b[i].1 == a[i].1,
    ensures
        history_pos(b, c, k) == history_pos(a, c, k),
    decreases a.len(),
{
    if a.len() > 0 {
        let (f, g) = (a.drop_last(), b.drop_last());
        assert forall|i: int| 0 <= i < f.len() implies (#[trigger] g[i]).0 == f[i].0 && g[i].1
            == f[i].1 by {
            assert(g[i] == b[i] && f[i] == a[i]);
        }
        lemma_pos_same(f, g, c, k);
        assert(b[b.len() - 1] == b.last() && a[a.len() - 1] == a.last());
    }
}

/// The histories after a version was added to a document, and no other.
pub proof fn lemma_with_version(
    hs: Seq<HistoryM>,
    c: Seq<char>,
    k: u128,
    v: VersionM,
    d: Seq<char>,
    q: u128,
)
    ensures
        history(with_version(hs, c, k, v), d, q) == (if d == c && q == k {
            match history(hs, c, k) {
                Some(vs) => Some(vs.push(v)),
                None => Some(seq![v]),
            }
        } else {
            history(hs, d, q)
        }),
{
    let w = with_version(hs, c, k, v);
    lemma_history_pos(hs, c, k);
    lemma_history_pos(hs, d, q);
    match history_pos(hs, c, k) {
        Some(i) => {
            lemma_pos_same(hs, w, d, q);
            if history_pos(hs, d, q) == Some(i) {
                assert(hs[i].0 == d && hs[i].1 == q);
            }
        },
        None => {
            assert(w.drop_last() =~= hs);
        },
    }
}

pub proof fn lemma_all_pruned(hs: Seq<HistoryM>, watermark: Option<u64>, d: Seq<char>, q: u128)
    ensures
        history(all_pruned(hs, watermark), d, q) == (match history(hs, d, q) {
            Some(vs) => Some(pruned(vs, watermark)),
            None => None,
        }),
{
    lemma_pos_same(hs, all_pruned(hs, watermark), d, q);
    lemma_history_pos(hs, d, q);
}

/// Every history holds versions, all committed by `at`.
#[verifier::opaque]
pub open spec fn committed_by(hs: Seq<HistoryM>, at: u64) -> bool {
    &&& forall|i: int| 0 <= i < hs.len() ==> (#[trigger] hs[i]).2.len() > 0
    &&& forall|i: int, j: int|
        0 <= i < hs.len() && 0 <= j < hs[i].2.len() ==> (#[trigger] hs[i].2[j]).0 <= at
}

/// The versions of a document among them.
pub proof fn lemma_history_committed(hs: Seq<HistoryM>, at: u64, c: Seq<char>, k: u128)
    requires
        committed_by(hs, at),
        history(hs, c, k) is Some,
    ensures
        history(hs, c, k)->0.len() > 0,
        forall|j: int| 0 <= j < history(hs, c, k)->0.len() ==> (#[trigger] history(
            hs,
            c,
            k,
        )->0[j]).0 <= at,
{
    reveal(committed_by);
    lemma_history_pos(hs, c, k);
    let i = history_pos(hs, c, k)->0;
    assert forall|j: int| 0 <= j < history(hs, c, k)->0.len() implies (#[trigger] history(
        hs,
        c,
        k,
    )->0[j]).0 <= at by {
        assert(hs[i].2[j].0 <= at);
    }
}

/// A snapshot after all versions sees the last.
pub proof fn lemma_visible_last(vs: Seq<VersionM>, s: u64)
    requires
        vs.len() > 0,
        forall|j: int| 0 <= j < vs.len() ==> (#[trigger] vs[j]).0 <= s,
    ensures
        visible(vs, s) == vs.last().1,
{
    lemma_settled_is(vs, s, vs.len() as int);
}

/// A snapshot that is taken after a commit sees the version that it added.
pub proof fn law_later_snapshot_sees_the_version(
    hs: Seq<HistoryM>,
    watermark: Option<u64>,
    c: Seq<char>,
    k: u128,
    v: VersionM,
    s: u64,
)
    requires
        committed_by(hs, s),
        v.0 <= s,
    ensures
        history(all_pruned(with_version(hs, c, k, v), watermark), c, k) matches Some(ws)
            && visible(ws, s) == v.1,
{
    lemma_with_version(hs, c, k, v, c, k);
    lemma_all_pruned(with_version(hs, c, k, v), watermark, c, k);
    lemma_version_kept(hs, c, k, v, watermark, s, s);
    let after = all_pruned(with_version(hs, c, k, v), watermark);
    lemma_history_committed(after, s, c, k);
    let ws = history(after, c, k)->0;
    let vs = history(with_version(hs, c, k, v), c, k)->0;
    assert(vs.last() == v);
    if watermark is Some {
        lemma_settled(vs, watermark->0);
    }
    assert(ws.last() == v);
    lemma_visible_last(ws, s);
}

/// Adding a baseline concerns one document, and that only if it has no
/// history.
pub proof fn lemma_with_baseline(
    hs: Seq<HistoryM>,
    at: u64,
    c: Seq<char>,
    k: u128,
    v: VersionM,
    d: Seq<char>,
    q: u128,
)
    requires
        committed_by(hs, at),
    ensures
        history(with_baseline(hs, c, k, v), d, q) == (if d == c && q == k && history(hs, c, k) is None {
            Some(seq![v])
        } else {
            history(hs, d, q)
        }),
{
    reveal(committed_by);
    lemma_history_pos(hs, c, k);
    if history_pos(hs, c, k) is None {
        lemma_with_version(hs, c, k, v, d, q);
        assert(with_baseline(hs, c, k, v) == with_version(hs, c, k, v));
    } else {
        assert(hs[history_pos(hs, c, k)->0].2.len() > 0);
    }
}


pub proof fn lemma_none_committed(at: u64)
    ensures
        committed_by(Seq::empty(), at),
{
    reveal(committed_by);
}

pub proof fn lemma_committed_later(hs: Seq<HistoryM>, at: u64, later: u64)
    requires
        committed_by(hs, at),
        at <= later,
    ensures
        committed_by(hs, later),
{
    reveal(committed_by);
}

pub proof fn lemma_pruned_committed(hs: Seq<HistoryM>, watermark: Option<u64>, at: u64)
    requires
        committed_by(hs, at),
    ensures
        committed_by(all_pruned(hs, watermark), at),
{
    reveal(committed_by);
    let w = all_pruned(hs, watermark);
    assert forall|i: int| 0 <= i < w.len() implies (#[trigger] w[i]).2.len() > 0 by {
        assert(hs[i].2.len() > 0);
        if watermark is Some {
            lemma_settled(hs[i].2, watermark->0);
        }
    }
    assert forall|i: int, j: int| 0 <= i < w.len() && 0 <= j < w[i].2.len() implies (
    #[trigger] w[i].2[j]).0 <= at by {
        let vs = hs[i].2;
        if watermark is Some {
            lemma_settled(vs, watermark->0);
        }
        let n = vs.len() - w[i].2.len();
        assert(w[i].2[j] == vs[j + n]);
        assert(hs[i].2[j + n].0 <= at);
    }
}

/// Histories after one more version.
pub proof fn lemma_version_kept(
    hs: Seq<HistoryM>,
    c: Seq<char>,
    k: u128,
    v: VersionM,
    watermark: Option<u64>,
    at: u64,
    later: u64,
)
    requires
        committed_by(hs, at),
        at <= later,
        v.0 <= later,
    ensures
        committed_by(all_pruned(with_version(hs, c, k, v), watermark), later),
{
    reveal(committed_by);
    let w = with_version(hs, c, k, v);
    lemma_history_pos(hs, c, k);
    assert forall|i: int, j: int| 0 <= i < w.len() && 0 <= j < w[i].2.len() implies (
    #[trigger] w[i].2[j]).0 <= later by {
        if i < hs.len() && j < hs[i].2.len() {
            assert(hs[i].2[j].0 <= at);
        }
    }
    lemma_pruned_committed(w, watermark, later);
}

pub proof fn lemma_baseline_kept(
    hs: Seq<HistoryM>,
    c: Seq<char>,
    k: u128,
    v: Option<ValueM>,
    at: u64,
)
    requires
        committed_by(hs, at),
    ensures
        committed_by(with_baseline(hs, c, k, (0, v)), at),
{
    reveal(committed_by);
    let w = with_baseline(hs, c, k, (0, v));
    lemma_history_pos(hs, c, k);
    assert forall|i: int, j: int| 0 <= i < w.len() && 0 <= j < w[i].2.len() implies (
    #[trigger] w[i].2[j]).0 <= at by {
        if i < hs.len() && j < hs[i].2.len() {
            assert(hs[i].2[j].0 <= at);
        }
    }
}

pub proof fn lemma_without_committed(hs: Seq<HistoryM>, c: Seq<char>, at: u64)
    requires
        committed_by(hs, at),
    ensures
        committed_by(without_collection(hs, c), at),
    decreases hs.len(),
{
    reveal(committed_by);
    if hs.len() > 0 {
        let f = hs.drop_last();
        assert forall|i: int, j: int| 0 <= i < f.len() && 0 <= j < f[i].2.len() implies (
        #[trigger] f[i].2[j]).0 <= at by {
            assert(hs[i].2[j].0 <= at);
        }
        lemma_without_committed(f, c, at);
        let w = without_collection(hs, c);
        let g = without_collection(f, c);
        assert forall|i: int, j: int| 0 <= i < w.len() && 0 <= j < w[i].2.len() implies (
        #[trigger] w[i].2[j]).0 <= at by {
            if i < g.len() {
                assert(g[i].2[j].0 <= at);
            } else {
                assert(hs[hs.len() - 1].2[j].0 <= at);
            }
        }
    }
}

/// What a reader sees does not change as others commit: while a snapshot at
/// `s` is being read, a version that is committed later to one document leaves
/// what the snapshot sees of every document with a history as it was. A
/// document that is new is not seen.
pub proof fn law_snapshot_reads_are_stable(
    hs: Seq<HistoryM>,
    readers: Seq<Hlc>,
    s: u64,
    c: Seq<char>,
    k: u128,
    v: VersionM,
    d: Seq<char>,
    q: u128,
)
    requires
        readers.len() > 0,
        readers[0].0 <= s,
        v.0 > s,
    ensures
        ({
            let after = all_pruned(with_version(hs, c, k, v), oldest(readers));
            match history(hs, d, q) {
                Some(vs) => history(after, d, q) matches Some(ws) && visible(ws, s) == visible(
                    vs,
                    s,
                ),
                None => if d == c && q == k {
                    history(after, d, q) matches Some(ws) && visible(ws, s) is None
                } else {
                    history(after, d, q) is None
                },
            }
        }),
{
    let w = readers[0].0;
    lemma_with_version(hs, c, k, v, d, q);
    lemma_all_pruned(with_version(hs, c, k, v), Some(w), d, q);
    match history(hs, d, q) {
        Some(vs) => {
            law_snapshot_hides_later_versions(vs, v, s);
            law_pruning_keeps_snapshots(vs, w, s);
            law_pruning_keeps_snapshots(vs.push(v), w, s);
        },
        None => {
            if d == c && q == k {
                let none = Seq::<VersionM>::empty();
                assert(none.push(v) =~= seq![v]);
                law_snapshot_hides_later_versions(none, v, s);
                law_pruning_keeps_snapshots(seq![v], w, s);
            }
        },
    }
}

/// A document without a history that is replaced while a snapshot at `s` is
/// being read is still seen as it was.
pub proof fn law_snapshot_sees_the_baseline(
    hs: Seq<HistoryM>,
    readers: Seq<Hlc>,
    s: u64,
    c: Seq<char>,
    k: u128,
    was: Option<ValueM>,
    v: VersionM,
)
    requires
        history(hs, c, k) is None,
        readers.len() > 0,
        readers[0].0 <= s,
        v.0 > s,
    ensures
        history(
            all_pruned(
                with_version(with_baseline(hs, c, k, (0, was)), c, k, v),
                oldest(readers),
            ),
            c,
            k,
        ) matches Some(ws) && visible(ws, s) == was,
{
    let base: VersionM = (0, was);
    lemma_with_version(hs, c, k, base, c, k);
    assert(with_baseline(hs, c, k, base) == with_version(hs, c, k, base));
    law_snapshot_reads_are_stable(with_baseline(hs, c, k, base), readers, s, c, k, v, c, k);
    let one = seq![base];
    assert forall|i: int| 0 <= i < one.len() implies (#[trigger] one[i]).0 <= s by {
    }
    lemma_settled_is(one, s, 1);
}

/// The version histories of a database, and the snapshots that are being read.
#[derive(Debug)]
pub struct VersionStore {
    /// Per-document history. Each document stores append-only committed
    /// versions.
    pub histories: Vec<History>,
    /// The snapshots of active readers in ascending order, one for each.
    pub readers: Vec<Hlc>,
}

/// Snapshots ascend.
pub open spec fn ascending(rs: Seq<Hlc>) -> bool {
    forall|i: int, j: int| 0 <= i <= j < rs.len() ==> (#[trigger] rs[i]).0 <= (#[trigger] rs[j]).0
}

/// The oldest snapshot.
pub open spec fn oldest(rs: Seq<Hlc>) -> Option<u64> {
    if rs.len() == 0 {
        None
    } else {
        Some(rs[0].0)
    }
}

impl VersionStore {
    /// The snapshots are in order, and so are the values of all versions.
    pub open spec fn wf(&self) -> bool {
        &&& ascending(self.readers@)
        &&& forall|i: int| 0 <= i < self.histories@.len() ==> (#[trigger] self.histories@[i]).wf()
    }

    /// The histories.
    pub open spec fn model(&self) -> Seq<HistoryM> {
        histories_of(self.histories@)
    }

    /// A store without versions or readers.
    pub fn new() -> (r: Self)
        ensures
            r.wf(),
            r.model() == Seq::<HistoryM>::empty(),
            r.readers@ == Seq::<Hlc>::empty(),
    {
        let r: VersionStore = VersionStore { histories: Vec::new(), readers: Vec::new() };
        assert(r.model() =~= Seq::<HistoryM>::empty());
        r
    }

    fn find(&self, collection: &str, key: &Uuid) -> (r: Option<usize>)
        ensures
            match r {
                Some(i) => i < self.histories@.len() && history_pos(
                    self.model(),
                    collection@,
                    key.0,
                ) == Some(i as int),
                None => history_pos(self.model(), collection@, key.0) is None,
            },
    {
        let ghost all = self.model();
        let mut i: usize = 0;
        assert(all.take(0) =~= Seq::<HistoryM>::empty());
        while i < self.histories.len()
            invariant
                all == self.model(),
                i <= self.histories@.len(),
                history_pos(all.take(i as int), collection@, key.0) is None,
            decreases self.histories@.len() - i,
        {
            proof {
                assert(all.take(i + 1).drop_last() =~= all.take(i as int));
                assert(all.take(i + 1).last() == all[i as int]);
            }
            if str_eq(self.histories[i].collection.as_str(), collection) && self.histories[i].key.0
                == key.0 {
                proof {
                    lemma_history_first(all, collection@, key.0, i + 1);
                }
                return Some(i);
            }
            i = i + 1;
        }
        assert(all.take(i as int) =~= all);
        None
    }

    /// Adds a committed version, and removes what is no longer needed. A
    /// tombstone counts as a deletion.
    pub fn append_version(&mut self, collection: &str, key: Uuid, hlc: Hlc, value: Option<Value>)
        requires
            old(self).wf(),
            value is Some ==> value_wf(value->0.model()),
        ensures
            final(self).wf(),
            final(self).readers == old(self).readers,
            final(self).model() == all_pruned(
                with_version(
                    old(self).model(),
                    collection@,
                    key.0,
                    (hlc.0, shown(value_model(value))),
                ),
                oldest(old(self).readers@),
            ),
    {
        let ghost hs = self.model();
        let value: Option<Value> = without_tombstone(value);
        let ghost m = (hlc.0, value_model(value));
        match self.find(collection, &key) {
            Some(i) => {
                let h: &mut History = &mut self.histories[i];
                h.versions.push(VersionedValue { hlc, value });
                proof {
                    assert(versions_of(self.histories@[i as int].versions@) =~= hs[i as int].2.push(
                        m,
                    ));
                    assert(self.model() =~= with_version(hs, collection@, key.0, m));
                }
            },
            None => {
                let mut versions: Vec<VersionedValue> = Vec::new();
                versions.push(VersionedValue { hlc, value });
                assert(versions_of(versions@) =~= seq![m]);
                self.histories.push(History { collection: owned(collection), key, versions });
                assert(self.model() =~= with_version(hs, collection@, key.0, m));
            },
        }
        self.gc_versions();
    }

    /// Records the value that a document had before its first version, none for
    /// a tombstone.
    pub fn ensure_baseline_version(&mut self, collection: &str, key: Uuid, value: Value)
        requires
            old(self).wf(),
            value_wf(value.model()),
        ensures
            final(self).wf(),
            final(self).readers == old(self).readers,
            final(self).model() == with_baseline(
                old(self).model(),
                collection@,
                key.0,
                (0, shown(Some(value.model()))),
            ),
    {
        let ghost hs = self.model();
        let value: Option<Value> = without_tombstone(Some(value));
        let ghost m: VersionM = (0, value_model(value));
        match self.find(collection, &key) {
            Some(i) => {
                if self.histories[i].versions.len() == 0 {
                    let h: &mut History = &mut self.histories[i];
                    h.versions.push(VersionedValue { hlc: Hlc(0), value });
                    proof {
                        assert(versions_of(self.histories@[i as int].versions@) =~= seq![m]);
                        assert(self.model() =~= with_baseline(hs, collection@, key.0, m));
                    }
                }
            },
            None => {
                let mut versions: Vec<VersionedValue> = Vec::new();
                versions.push(VersionedValue { hlc: Hlc(0), value });
                assert(versions_of(versions@) =~= seq![m]);
                self.histories.push(History { collection: owned(collection), key, versions });
                assert(self.model() =~= with_baseline(hs, collection@, key.0, m));
            },
        }
    }

    /// Finds what a snapshot sees of a document. `None` for a document without
    /// a history; `Some(None)` for one that the snapshot does not see.
    pub fn lookup_snapshot_version(&self, collection: &str, key: &Uuid, snapshot: Hlc) -> (r:
        Option<Option<Value>>)
        requires
            self.wf(),
        ensures
            match history(self.model(), collection@, key.0) {
                None => r is None,
                Some(vs) => r is Some && value_model(r->0) == visible(vs, snapshot.0),
            },
            r is Some && r->0 is Some ==> value_wf(r->0->0.model()),
    {
        match self.find(collection, key) {
            Some(i) => {
                let vs: &Vec<VersionedValue> = &self.histories[i].versions;
                let n: usize = count_settled(vs, snapshot);
                assert(self.histories@[i as int].wf());
                assert(self.model()[i as int].2 == versions_of(vs@));
                if n > 0 {
                    assert(versions_of(vs@)[n - 1] == vs@[n - 1].model());
                    let v: VersionedValue = vs[n - 1].dup();
                    Some(v.value)
                } else {
                    Some(None)
                }
            },
            None => None,
        }
    }

    /// The keys of a collection that have a history, in the order in which
    /// their histories began.
    pub fn keys_of(&self, collection: &str) -> (r: Vec<Uuid>)
        ensures
            keys_model(r@) == tracked_keys(self.model(), collection@),
    {
        let ghost all = self.model();
        let mut out: Vec<Uuid> = Vec::new();
        let mut i: usize = 0;
        assert(all.take(0) =~= Seq::<HistoryM>::empty());
        assert(keys_model(out@) =~= Seq::<u128>::empty());
        while i < self.histories.len()
            invariant
                all == self.model(),
                i <= self.histories@.len(),
                keys_model(out@) == tracked_keys(all.take(i as int), collection@),
            decreases self.histories@.len() - i,
        {
            proof {
                assert(all.take(i + 1).drop_last() =~= all.take(i as int));
                assert(all.take(i + 1).last() == all[i as int]);
            }
            if str_eq(self.histories[i].collection.as_str(), collection) {
                let ghost before = out@;
                out.push(self.histories[i].key);
                assert(keys_model(out@) =~= keys_model(before).push(all[i as int].1));
            }
            i = i + 1;
        }
        assert(all.take(i as int) =~= all);
        out
    }

    /// Forgets the histories of a collection.
    pub fn forget_collection(&mut self, collection: &str)
        requires
            old(self).wf(),
        ensures
            final(self).wf(),
            final(self).readers == old(self).readers,
            final(self).model() == without_collection(old(self).model(), collection@),
    {
        let ghost all = self.model();
        let ghost old_histories = self.histories@;
        let mut kept: Vec<History> = Vec::new();
        let mut rest: Vec<History> = Vec::new();
        rest.append(&mut self.histories);
        let mut done: usize = 0;
        let total: usize = rest.len();
        assert(all.take(0) =~= Seq::<HistoryM>::empty());
        assert(histories_of(kept@) =~= Seq::<HistoryM>::empty());
        assert(rest@ =~= old_histories.skip(0));
        while done < total
            invariant
                done <= total,
                total == old_histories.len(),
                all == histories_of(old_histories),
                rest@ == old_histories.skip(done as int),
                histories_of(kept@) == without_collection(all.take(done as int), collection@),
                forall|i: int| 0 <= i < old_histories.len() ==> (#[trigger] old_histories[i]).wf(),
                forall|i: int| 0 <= i < kept@.len() ==> (#[trigger] kept@[i]).wf(),
                self.readers == old(self).readers,
            decreases total - done,
        {
            proof {
                assert(all.take(done + 1).drop_last() =~= all.take(done as int));
                assert(all.take(done + 1).last() == all[done as int]);
            }
            let h: History = rest.remove(0);
            assert(h == old_histories[done as int]);
            assert(rest@ =~= old_histories.skip(done + 1));
            if !str_eq(h.collection.as_str(), collection) {
                let ghost before = kept@;
                let ghost m = h.model();
                kept.push(h);
                assert(histories_of(kept@) =~= histories_of(before).push(m));
            }
            done = done + 1;
        }
        assert(all.take(done as int) =~= all);
        self.histories = kept;
    }

    /// Registers a reader of a snapshot.
    pub fn register_reader_snapshot(&mut self, snapshot: Hlc)
        requires
            old(self).wf(),
        ensures
            final(self).wf(),
            final(self).histories == old(self).histories,
            final(self).readers@.to_multiset() == old(self).readers@.to_multiset().insert(snapshot),
    {
        let ghost rs = self.readers@;
        let mut i: usize = 0;
        while i < self.readers.len() && self.readers[i].0 <= snapshot.0
            invariant
                rs == self.readers@,
                i <= rs.len(),
                forall|j: int| 0 <= j < i ==> (#[trigger] rs[j]).0 <= snapshot.0,
            decreases rs.len() - i,
        {
            i = i + 1;
        }
        self.readers.insert(i, snapshot);
        proof {
            let w = self.readers@;
            assert(w == rs.insert(i as int, snapshot));
            assert forall|a: int, b: int| 0 <= a <= b < w.len() implies (#[trigger] w[a]).0 <= (
            #[trigger] w[b]).0 by {
                let x = if a < i {
                    a
                } else {
                    a - 1
                };
                let y = if b < i {
                    b
                } else {
                    b - 1
                };
                if a != i {
                    assert(w[a] == rs[x]);
                }
                if b != i {
                    assert(w[b] == rs[y]);
                }
                if a != i && b != i {
                    assert(rs[x].0 <= rs[y].0);
                } else if a == i && b > i {
                    assert(rs[i as int].0 <= rs[y].0);
                }
            }
            vstd::seq_lib::to_multiset_insert(rs, i as int, snapshot);
        }
    }

    /// Removes a reader of a snapshot, and what is no longer needed without
    /// it.
    pub fn unregister_reader_snapshot(&mut self, snapshot: Hlc)
        requires
            old(self).wf(),
        ensures
            final(self).wf(),
            final(self).readers@.to_multiset() == old(self).readers@.to_multiset().remove(snapshot),
            final(self).model() == all_pruned(old(self).model(), oldest(final(self).readers@)),
    {
        let ghost rs = self.readers@;
        let mut i: usize = 0;
        while i < self.readers.len() && self.readers[i].0 != snapshot.0
            invariant
                rs == self.readers@,
                i <= rs.len(),
                forall|j: int| 0 <= j < i ==> (#[trigger] rs[j]).0 != snapshot.0,
            decreases rs.len() - i,
        {
            i = i + 1;
        }
        proof {
            rs.to_multiset_ensures();
        }
        if i < self.readers.len() {
            self.readers.remove(i);
            proof {
                let w = self.readers@;
                assert(rs[i as int] == snapshot);
                assert(w == rs.remove(i as int));
                assert(w.to_multiset() =~= rs.to_multiset().remove(snapshot));
                assert forall|a: int, b: int| 0 <= a <= b < w.len() implies (#[trigger] w[a]).0
                    <= (#[trigger] w[b]).0 by {
                    let x = if a < i {
                        a
                    } else {
                        a + 1
                    };
                    let y = if b < i {
                        b
                    } else {
                        b + 1
                    };
                    assert(rs[x].0 <= rs[y].0);
                }
            }
        } else {
            proof {
                assert(!rs.contains(snapshot)) by {
                    if rs.contains(snapshot) {
                        let j = choose|j: int| 0 <= j < rs.len() && rs[j] == snapshot;
                        assert(rs[j].0 != snapshot.0);
                    }
                }
                assert(rs.to_multiset().count(snapshot) == 0);
                assert(rs.to_multiset().remove(snapshot) =~= rs.to_multiset());
            }
        }
        self.gc_versions();
    }

    /// The oldest snapshot being read.
    pub fn reader_watermark(&self) -> (r: Option<Hlc>)
        ensures
            match r {
                Some(h) => oldest(self.readers@) == Some(h.0),
                None => oldest(self.readers@) is None,
            },
    {
        if self.readers.len() == 0 {
            None
        } else {
            Some(self.readers[0])
        }
    }

    /// How many versions a document has.
    pub fn version_len(&self, collection: &str, key: &Uuid) -> (r: usize)
        ensures
            r == (match history(self.model(), collection@, key.0) {
                Some(vs) => vs.len(),
                None => 0,
            }),
    {
        match self.find(collection, key) {
            Some(i) => self.histories[i].versions.len(),
            None => 0,
        }
    }

    /// Removes versions that no reader needs: those before the newest that the
    /// oldest snapshot sees, or all but the last without readers.
    fn gc_versions(&mut self)
        requires
            old(self).wf(),
        ensures
            final(self).wf(),
            final(self).readers == old(self).readers,
            final(self).model() == all_pruned(old(self).model(), oldest(old(self).readers@)),
    {
        let watermark: Option<Hlc> = self.reader_watermark();
        let ghost hs = self.histories@;
        let ghost wm = oldest(self.readers@);
        let mut i: usize = 0;
        while i < self.histories.len()
            invariant
                i <= self.histories@.len(),
                self.histories@.len() == hs.len(),
                self.readers == old(self).readers,
                match watermark {
                    Some(h) => wm == Some(h.0),
                    None => wm is None,
                },
                forall|j: int| 0 <= j < hs.len() ==> (#[trigger] hs[j]).wf(),
                forall|j: int|
                    0 <= j < i ==> (#[trigger] self.histories@[j]).wf()
                        && self.histories@[j].model() == (
                        hs[j].model().0,
                        hs[j].model().1,
                        pruned(hs[j].model().2, wm),
                    ),
                forall|j: int| i <= j < hs.len() ==> #[trigger] self.histories@[j] == hs[j],
            decreases hs.len() - i,
        {
            assert(self.histories@[i as int] == hs[i as int]);
            let h: &mut History = &mut self.histories[i];
            prune(&mut h.versions, watermark);
            proof {
                let vs = self.histories@[i as int].versions@;
                let ws = hs[i as int].versions@;
                let from = choose|from: int|
                    0 <= from <= ws.len() && vs == #[trigger] ws.skip(from);
                assert forall|j: int| 0 <= j < vs.len() && (
                #[trigger] vs[j]).value is Some implies value_wf(vs[j].value->0.model()) by {
                    assert(vs[j] == ws[j + from]);
                }
            }
            i = i + 1;
        }
        assert(self.model() =~= all_pruned(histories_of(hs), wm));
    }
}

/// The keys of documents.
pub open spec fn keys_model(v: Seq<Uuid>) -> Seq<u128> {
    Seq::new(v.len(), |i: int| v[i].0)
}

/// The keys of a collection that have a history.
pub open spec fn tracked_keys(hs: Seq<HistoryM>, c: Seq<char>) -> Seq<u128>
    decreases hs.len(),
{
    if hs.len() == 0 {
        Seq::empty()
    } else {
        let front = tracked_keys(hs.drop_last(), c);
        if hs.last().0 == c {
            front.push(hs.last().1)
        } else {
            front
        }
    }
}

/// Removes versions that are no longer needed.
fn prune(vs: &mut Vec<VersionedValue>, watermark: Option<Hlc>)
    ensures
        versions_of(final(vs)@) == pruned(
            versions_of(old(vs)@),
            match watermark {
                Some(h) => Some(h.0),
                None => None,
            },
        ),
        exists|from: int|
            0 <= from <= old(vs)@.len() && final(vs)@ == #[trigger] old(vs)@.skip(from),
{
    let ghost all = vs@;
    if vs.len() <= 1 {
        assert(vs@ =~= all.skip(0));
        return;
    }
    let from: usize = match watermark {
        None => vs.len() - 1,
        Some(w) => {
            let n: usize = count_settled(vs, w);
            if n > 0 {
                n - 1
            } else {
                0
            }
        },
    };
    let mut tail: Vec<VersionedValue> = vs.split_off(from);
    vs.clear();
    vs.append(&mut tail);
    proof {
        assert(vs@ =~= all.skip(from as int));
        assert(versions_of(vs@) =~= versions_of(all).skip(from as int));
        assert(versions_of(all).skip(0) =~= versions_of(all));
    }
}

// ── Laws ────────────────────────────────────────────────────────────────

/// A snapshot sees the last version that was committed by it, and nothing of a
/// document whose first version is later.
pub proof fn law_snapshot_sees_the_last_committed(vs: Seq<VersionM>, s: u64, i: int)
    ensures
        0 <= i < vs.len() && (forall|j: int| 0 <= j <= i ==> (#[trigger] vs[j]).0 <= s) && (i + 1
            < vs.len() ==> vs[i + 1].0 > s) ==> visible(vs, s) == vs[i].1,
        vs.len() == 0 || vs[0].0 > s ==> visible(vs, s) is None,
{
    if 0 <= i < vs.len() && (forall|j: int| 0 <= j <= i ==> (#[trigger] vs[j]).0 <= s) && (i + 1
        < vs.len() ==> vs[i + 1].0 > s) {
        lemma_settled_is(vs, s, i + 1);
    }
}

/// Pruning gives up versions that no reader needs: without readers one is left,
/// and with readers one that the oldest of them sees, where versions stand in
/// the order in which they were committed.
pub proof fn law_pruning_gives_up_versions(vs: Seq<VersionM>, w: u64)
    ensures
        pruned(vs, None).len() <= 1,
        vs.len() > 0 ==> pruned(vs, None).len() == 1 && pruned(vs, None)[0] == vs.last(),
        (forall|i: int, j: int|
            0 <= i < j < vs.len() ==> (#[trigger] vs[i]).0 <= (#[trigger] vs[j]).0) && pruned(
            vs,
            Some(w),
        ).len() > 1 ==> pruned(vs, Some(w))[1].0 > w,
        vs.len() > 0 ==> pruned(vs, Some(w)).len() > 0 && pruned(vs, Some(w)).last() == vs.last(),
{
    lemma_settled(vs, w);
    let n = settled(vs, w);
    if vs.len() > 1 && n > 0 && n < vs.len() {
        assert(vs.skip(n - 1)[1] == vs[n]);
    } else if vs.len() > 1 && n == 0 {
        assert(vs[0].0 > w);
    }
}

/// The oldest reader is one of the readers, and none is older.
pub proof fn law_oldest_reader(rs: Seq<Hlc>, s: Hlc)
    requires
        ascending(rs),
    ensures
        rs.len() == 0 ==> oldest(rs) is None,
        rs.contains(s) ==> oldest(rs) is Some && oldest(rs)->0 <= s.0 && rs.contains(
            Hlc(oldest(rs)->0),
        ),
{
    if rs.contains(s) {
        let i = choose|i: int| 0 <= i < rs.len() && rs[i] == s;
        assert(rs[0].0 <= rs[i].0);
        assert(rs[0] == Hlc(rs[0].0));
    }
}

/// A collection that is dropped takes the histories of its documents along, and
/// no others.
pub proof fn law_dropped_histories(hs: Seq<HistoryM>, c: Seq<char>, d: Seq<char>, q: u128)
    ensures
        history(without_collection(hs, c), d, q) == (if d == c {
            None
        } else {
            history(hs, d, q)
        }),
    decreases hs.len(),
{
    if hs.len() > 0 {
        let f = hs.drop_last();
        law_dropped_histories(f, c, d, q);
        let g = without_collection(f, c);
        lemma_history_pos(f, d, q);
        lemma_history_pos(g, d, q);
        let w = without_collection(hs, c);
        if hs.last().0 != c {
            assert(w.drop_last() =~= g);
        }
    }
}

} // verus!
