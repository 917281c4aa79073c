//! Error messages.

use grumpydb::GrumpyError;

#[test]
fn test_error_display() {
    let err = GrumpyError::PageNotFound(42);
    assert_eq!(err.message(), "page 42 not found");
}

#[test]
fn test_error_from_io() {
    let io_err = std::io::Error::new(std::io::ErrorKind::NotFound, "file missing");
    let err = GrumpyError::Io(io_err.to_string());
    assert!(matches!(err, GrumpyError::Io(_)));
    assert_eq!(err.message(), "I/O error: file missing");
}

#[test]
fn test_error_checksum_display() {
    let err = GrumpyError::ChecksumMismatch {
        page_id: 5,
        expected: 0xDEADBEEF,
        actual: 0xCAFEBABE,
    };
    let msg = err.message();
    assert!(msg.contains("page 5"));
    assert!(msg.contains("0xdeadbeef"));
}
