//! Vector clocks.

use grumpydb::uid::Uuid;
use grumpydb::wal::vclock::{VClockError, VClockOrdering, VectorClock, MAX_VCLOCK_ENTRIES};

#[test]
fn test_vclock_compare_equal() {
    let a = VectorClock::singleton(1, 5);
    let b = VectorClock::singleton(1, 5);
    assert_eq!(a.compare(&b), VClockOrdering::Equal);
}

#[test]
fn test_vclock_compare_less_than() {
    let a = VectorClock::singleton(1, 4);
    let b = VectorClock::singleton(1, 5);
    assert_eq!(a.compare(&b), VClockOrdering::LessThan);
    // With multiple entries.
    let mut a2 = VectorClock::new();
    a2.set(1, 4);
    a2.set(2, 7);
    let mut b2 = VectorClock::new();
    b2.set(1, 4);
    b2.set(2, 8);
    assert_eq!(a2.compare(&b2), VClockOrdering::LessThan);
}

#[test]
fn test_vclock_compare_greater_than() {
    let a = VectorClock::singleton(1, 5);
    let b = VectorClock::singleton(1, 4);
    assert_eq!(a.compare(&b), VClockOrdering::GreaterThan);
}

#[test]
fn test_vclock_compare_concurrent() {
    let a = VectorClock::singleton(1, 1);
    let b = VectorClock::singleton(2, 1);
    assert_eq!(a.compare(&b), VClockOrdering::Concurrent);

    let mut a2 = VectorClock::new();
    a2.set(1, 2);
    a2.set(2, 1);
    let mut b2 = VectorClock::new();
    b2.set(1, 1);
    b2.set(2, 2);
    assert_eq!(a2.compare(&b2), VClockOrdering::Concurrent);
}

#[test]
fn test_vclock_merge_pointwise_max() {
    let mut a = VectorClock::new();
    a.set(1, 3);
    a.set(2, 5);
    let mut b = VectorClock::new();
    b.set(1, 7);
    b.set(3, 9);
    a.merge(&b);
    assert_eq!(a.get(1), 7);
    assert_eq!(a.get(2), 5);
    assert_eq!(a.get(3), 9);
}

#[test]
fn test_vclock_bump_increments() {
    let mut a = VectorClock::new();
    assert_eq!(a.bump(42), 1);
    assert_eq!(a.bump(42), 2);
    assert_eq!(a.bump(7), 1);
    assert_eq!(a.get(42), 2);
    assert_eq!(a.get(7), 1);
}

#[test]
fn test_vclock_encode_decode_round_trip() {
    let mut a = VectorClock::new();
    a.set(0xdeadbeef, 42);
    a.set(0xbadc0ffee, 7);
    a.set(123456789, 0);
    let mut buf = Vec::new();
    a.encode_to(&mut buf);
    assert_eq!(buf.len(), a.encoded_len());
    let (b, n) = VectorClock::decode(&buf).unwrap();
    assert_eq!(n, buf.len());
    assert_eq!(a, b);
}

#[test]
fn test_vclock_empty_round_trip() {
    let a = VectorClock::new();
    let mut buf = Vec::new();
    a.encode_to(&mut buf);
    assert_eq!(buf, &[0u8, 0u8]);
    let (b, n) = VectorClock::decode(&buf).unwrap();
    assert_eq!(n, 2);
    assert!(b.is_empty());
}

#[test]
fn test_vclock_decode_truncated_returns_error() {
    // num_entries=3 but only 1 entry of payload provided.
    let mut buf = Vec::new();
    buf.extend_from_slice(&3u16.to_le_bytes());
    buf.extend_from_slice(&1u128.to_le_bytes());
    buf.extend_from_slice(&7u64.to_le_bytes());
    let err = VectorClock::decode(&buf).unwrap_err();
    assert!(matches!(err, VClockError::Truncated { .. }));
}

#[test]
fn test_vclock_decode_too_many_entries() {
    let mut buf = Vec::new();
    buf.extend_from_slice(&(MAX_VCLOCK_ENTRIES + 1).to_le_bytes());
    let err = VectorClock::decode(&buf).unwrap_err();
    assert!(matches!(err, VClockError::TooManyEntries(_)));
}

fn random() -> u128 {
    Uuid::new_v4().as_u128()
}

/// Randomised round-trip property check.
#[test]
fn vclock_encode_decode_proptest() {
    for _ in 0..200 {
        let n = random() % 64;
        let mut a = VectorClock::new();
        for _ in 0..n {
            let node: u128 = random();
            let counter: u64 = random() as u64;
            a.set(node, counter);
        }
        let mut buf = Vec::new();
        a.encode_to(&mut buf);
        assert_eq!(buf.len(), a.encoded_len());
        let (b, consumed) = VectorClock::decode(&buf).unwrap();
        assert_eq!(consumed, buf.len());
        assert_eq!(a, b, "round-trip mismatch on n={n}");
        // Re-encoding b yields exactly the same bytes (stable).
        let mut buf2 = Vec::new();
        b.encode_to(&mut buf2);
        assert_eq!(buf, buf2, "encoding is not byte-stable");
    }
}
