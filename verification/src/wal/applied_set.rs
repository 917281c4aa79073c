//! Per-origin "highest applied HLC" tracker.
//!
//! Replication apply uses it to drop duplicate WAL records on replay.

use vstd::prelude::*;

use crate::wal::hlc::Hlc;
use crate::wal::vclock::{
    counter, lemma_with_counter, nodes_sorted, with_counter, VectorClock,
};

verus! {

/// Outcome of an [`AppliedSet::observe`] call.
#[derive(Debug, Clone, Copy, PartialEq, Eq, Structural)]
pub enum ObserveOutcome {
    /// The `(origin, hlc)` pair is strictly newer than what was recorded —
    /// the caller should apply the record.
    New,
    /// An HLC `>= hlc` from this origin was already observed — the caller
    /// should skip the record (idempotent replay).
    AlreadyApplied,
}

/// `hlc` is beyond what was applied from `origin`.
pub open spec fn beyond(marks: Seq<(u128, u64)>, origin: u128, hlc: u64) -> bool {
    hlc > counter(marks, origin)
}

/// The marks after `hlc` from `origin` was observed.
pub open spec fn observed(marks: Seq<(u128, u64)>, origin: u128, hlc: u64) -> Seq<(u128, u64)> {
    with_counter(
        marks,
        origin,
        if beyond(marks, origin, hlc) {
            hlc
        } else {
            counter(marks, origin)
        },
    )
}

/// An observation covers itself and everything before it, and lowers no mark.
pub proof fn law_observe_idempotent(
    marks: Seq<(u128, u64)>,
    origin: u128,
    hlc: u64,
    earlier: u64,
    other: u128,
)
    requires
        nodes_sorted(marks),
        earlier <= hlc,
    ensures
        nodes_sorted(observed(marks, origin, hlc)),
        !beyond(observed(marks, origin, hlc), origin, earlier),
        counter(observed(marks, origin, hlc), other) >= counter(marks, other),
        other != origin ==> counter(observed(marks, origin, hlc), other) == counter(marks, other),
{
    lemma_with_counter(
        marks,
        origin,
        if beyond(marks, origin, hlc) {
            hlc
        } else {
            counter(marks, origin)
        },
        other,
    );
}

/// Per-origin "highest applied HLC" tracker.
#[derive(Debug, PartialEq, Eq)]
pub struct AppliedSet {
    /// `node_id` → highest hlc applied from that origin.
    pub last_applied: VectorClock,
    /// On-disk schema version of this struct (currently `1`).
    pub schema_version: u32,
}

impl AppliedSet {
    /// The marks are sorted by origin.
    pub open spec fn wf(&self) -> bool {
        self.last_applied.wf()
    }

    /// The highest applied HLC of each origin.
    pub open spec fn marks(&self) -> Seq<(u128, u64)> {
        self.last_applied.model()
    }

    /// Records that an HLC from a given origin was applied. Returns `New` if
    /// `hlc` advanced the high-water mark, `AlreadyApplied` otherwise
    /// (idempotent replay).
    pub fn observe(&mut self, origin: u128, hlc: Hlc) -> (r: ObserveOutcome)
        requires
            old(self).wf(),
        ensures
            final(self).wf(),
            final(self).schema_version == old(self).schema_version,
            final(self).marks() == observed(old(self).marks(), origin, hlc.0),
            r == (if beyond(old(self).marks(), origin, hlc.0) {
                ObserveOutcome::New
            } else {
                ObserveOutcome::AlreadyApplied
            }),
    {
        let mark: u64 = self.last_applied.get(origin);
        if hlc.0 > mark {
            self.last_applied.set(origin, hlc.0);
            ObserveOutcome::New
        } else {
            self.last_applied.set(origin, mark);
            ObserveOutcome::AlreadyApplied
        }
    }

    /// Returns the highest-applied HLC for `origin`, or zero if it was never
    /// observed.
    pub fn high_water(&self, origin: u128) -> (r: Hlc)
        requires
            self.wf(),
        ensures
            r.0 == counter(self.marks(), origin),
    {
        Hlc::from_packed(self.last_applied.get(origin))
    }
}

impl Default for AppliedSet {
    fn default() -> (r: Self)
        ensures
            r.wf(),
            r.marks() == Seq::<(u128, u64)>::empty(),
            r.schema_version == 1,
    {
        AppliedSet { last_applied: VectorClock::new(), schema_version: 1 }
    }
}

/// A record is new exactly if it is later than all that was applied from its
/// origin; then, and only then, it becomes the latest.
pub proof fn law_observing_keeps_the_latest(marks: Seq<(u128, u64)>, origin: u128, hlc: u64)
    requires
        nodes_sorted(marks),
    ensures
        beyond(marks, origin, hlc) == (counter(marks, origin) < hlc),
        counter(observed(marks, origin, hlc), origin) >= hlc,
        counter(observed(marks, origin, hlc), origin) >= counter(marks, origin),
        counter(observed(marks, origin, hlc), origin) == hlc || counter(
            observed(marks, origin, hlc),
            origin,
        ) == counter(marks, origin),
{
    lemma_with_counter(
        marks,
        origin,
        if beyond(marks, origin, hlc) {
            hlc
        } else {
            counter(marks, origin)
        },
        origin,
    );
}

} // verus!
