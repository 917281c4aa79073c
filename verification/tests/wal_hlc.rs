//! Hybrid logical clocks.

use std::time::{SystemTime, UNIX_EPOCH};

use grumpydb::wal::hlc::{Hlc, HlcClock, HlcError};

#[test]
fn test_hlc_pack_unpack_round_trip() {
    let cases = [
        (0u64, 0u16),
        (1, 1),
        (1234567890, 42),
        ((1u64 << 48) - 1, u16::MAX),
    ];
    for (phys, log) in cases {
        let h = Hlc::pack(phys, log);
        assert_eq!(h.physical_ms(), phys, "physical mismatch");
        assert_eq!(h.logical(), log, "logical mismatch");
        // bytes round trip
        assert_eq!(Hlc::from_le_bytes(h.to_le_bytes()), h);
    }
}

#[test]
fn test_hlc_now_strictly_monotonic() {
    let mut clock = HlcClock::new();
    let mut prev = Hlc::zero();
    for _ in 0..1000 {
        let h = clock.now().unwrap();
        assert!(h > prev, "HLC must be strictly monotonic: {h:?} > {prev:?}");
        prev = h;
    }
}

#[test]
fn test_hlc_update_with_higher_remote() {
    let mut clock = HlcClock::new();
    let local_now = clock.now().unwrap();
    // Force remote into the future (still within tolerance).
    let remote = Hlc::pack(local_now.physical_ms() + 1000, 5);
    let after = clock.update(remote).unwrap();
    assert!(after >= remote);
    assert!(after.physical_ms() >= remote.physical_ms());
}

#[test]
fn test_hlc_update_with_lower_remote() {
    let mut clock = HlcClock::new();
    let local = clock.now().unwrap();
    // Pick a remote significantly in the past.
    let remote = Hlc::pack(local.physical_ms().saturating_sub(10_000), 0);
    let after = clock.update(remote).unwrap();
    assert!(
        after >= local,
        "after ({after:?}) must be >= local ({local:?})"
    );
}

#[test]
fn test_hlc_update_with_equal_remote() {
    let mut clock = HlcClock::with_max_skew(60_000);
    let local = clock.now().unwrap();
    // Equal physical — logical must bump.
    let remote = Hlc::pack(local.physical_ms(), local.logical());
    let after = clock.update(remote).unwrap();
    assert!(
        after > local,
        "after ({after:?}) must be > local ({local:?})"
    );
    assert!(after > remote);
}

#[test]
fn test_hlc_update_skew_exceeded() {
    let mut clock = HlcClock::with_max_skew(1_000); // 1 second tolerance
    let since_epoch = SystemTime::now().duration_since(UNIX_EPOCH).unwrap();
    let wall = since_epoch.as_millis() as u64;
    let remote = Hlc::pack(wall + 7_200_000, 0); // 2 hours ahead
    let err = clock.update(remote).unwrap_err();
    match err {
        HlcError::SkewExceeded(skew, tol) => {
            assert!(skew >= 7_200_000 - 1_000);
            assert_eq!(tol, 1_000);
        }
        other => panic!("expected SkewExceeded, got {other:?}"),
    }
}

#[test]
fn test_hlc_logical_overflow_safety() {
    // Synthesise the case: clock state at logical=u16::MAX, then call
    // now() with the wall clock NOT advancing. We can't easily freeze
    // the wall clock, so we drive update() with a remote at the same
    // physical and exhausted logical to force the bump.
    let mut clock = HlcClock::new();
    let local = clock.now().unwrap();
    let remote = Hlc::pack(local.physical_ms(), u16::MAX);
    let err = clock.update(remote).unwrap_err();
    assert!(matches!(err, HlcError::LogicalOverflow(_)));
}

#[test]
fn test_hlc_read_does_not_advance() {
    let mut clock = HlcClock::new();
    let h1 = clock.now().unwrap();
    let r1 = clock.read();
    let r2 = clock.read();
    assert_eq!(r1, h1);
    assert_eq!(r2, h1);
}

#[test]
fn test_hlc_ordering_via_packed() {
    let a = Hlc::pack(100, 0);
    let b = Hlc::pack(100, 1);
    let c = Hlc::pack(101, 0);
    assert!(a < b);
    assert!(b < c);
    assert!(a < c);
}
