//! Name validation.

use grumpydb::naming::validate_name;

#[test]
fn test_valid_names() {
    assert!(validate_name("users").is_ok());
    assert!(validate_name("my_collection").is_ok());
    assert!(validate_name("db01").is_ok());
    assert!(validate_name("a").is_ok());
    assert!(validate_name("_default").is_ok());
}

#[test]
fn test_empty_name() {
    assert!(validate_name("").is_err());
}

#[test]
fn test_too_long_name() {
    let long = "a".repeat(65);
    assert!(validate_name(&long).is_err());
}

#[test]
fn test_invalid_chars() {
    assert!(validate_name("My-Collection").is_err());
    assert!(validate_name("db.name").is_err());
    assert!(validate_name("path/injection").is_err());
    assert!(validate_name("hello world").is_err());
    assert!(validate_name("UPPER").is_err());
}

#[test]
fn test_reserved_underscore() {
    assert!(validate_name("_internal").is_err());
    assert!(validate_name("_default").is_ok()); // exception
}
