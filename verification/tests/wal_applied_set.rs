//! Which records of which origin were applied.

use grumpydb::wal::applied_set::{AppliedSet, ObserveOutcome};
use grumpydb::wal::hlc::Hlc;

#[test]
fn test_applied_set_observe_advances_then_dedup() {
    let mut s = AppliedSet::default();
    let origin = 0xdeadbeef_u128;
    assert_eq!(s.observe(origin, Hlc::pack(10, 0)), ObserveOutcome::New);
    assert_eq!(
        s.observe(origin, Hlc::pack(10, 0)),
        ObserveOutcome::AlreadyApplied
    );
    assert_eq!(
        s.observe(origin, Hlc::pack(5, 0)),
        ObserveOutcome::AlreadyApplied
    );
    assert_eq!(s.observe(origin, Hlc::pack(11, 0)), ObserveOutcome::New);
    assert_eq!(s.high_water(origin), Hlc::pack(11, 0));
}
