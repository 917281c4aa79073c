//! The library's error type.

use vstd::prelude::*;
use vstd::string::*;

use crate::text::{append_decimal, append_hex, decimal, hex, owned};
use crate::uid::{hyphenated, Uuid};

verus! {

/// Central error type.
#[derive(Debug)]
pub enum GrumpyError {
    /// An I/O failure, with its description.
    Io(String),
    PageNotFound(u32),
    PageFull(u32),
    DuplicateKey(Uuid),
    KeyNotFound(Uuid),
    ChecksumMismatch { page_id: u32, expected: u32, actual: u32 },
    WalCorrupted(u64),
    BufferPoolExhausted,
    DocumentTooLarge { size: usize, max: usize },
    Codec(String),
    NotIndexable,
    IndexNotFound(String),
    IndexAlreadyExists(String),
    CollectionNotFound(String),
    InvalidName(String),
    InvalidArgument(String),
    CyclicReference,
    ClientNotFound(String),
    DatabaseNotFound(String),
    Corruption(String),
    InvalidPageOffset { page: u32, offset: u16 },
    InvalidVarKey(String),
    Hlc(String),
    VectorClock(String),
    UnsupportedWalVersion(u16),
}

/// Result of a fallible operation of the library.
pub type Result<T> = std::result::Result<T, GrumpyError>;

impl GrumpyError {
    /// The text that describes the error.
    pub open spec fn message_text(&self) -> Seq<char> {
        match self {
            GrumpyError::Io(m) => "I/O error: "@ + m@,
            GrumpyError::PageNotFound(p) => "page "@ + decimal(*p as nat) + " not found"@,
            GrumpyError::PageFull(p) => "page "@ + decimal(*p as nat) + " is full"@,
            GrumpyError::DuplicateKey(k) => "key "@ + hyphenated(k.0) + " already exists"@,
            GrumpyError::KeyNotFound(k) => "key "@ + hyphenated(k.0) + " not found"@,
            GrumpyError::ChecksumMismatch { page_id, expected, actual } =>
                "checksum mismatch on page "@ + decimal(*page_id as nat) + ": expected 0x"@ + hex(
                    *expected as nat,
                    8,
                ) + ", got 0x"@ + hex(*actual as nat, 8),
            GrumpyError::WalCorrupted(lsn) => "WAL corrupted at LSN "@ + decimal(*lsn as nat),
            GrumpyError::BufferPoolExhausted => "buffer pool exhausted: all frames are pinned"@,
            GrumpyError::DocumentTooLarge { size, max } => "document too large: "@ + decimal(
                *size as nat,
            ) + " bytes (max: "@ + decimal(*max as nat) + ")"@,
            GrumpyError::Codec(m) => "codec error: "@ + m@,
            GrumpyError::NotIndexable => "value type cannot be indexed"@,
            GrumpyError::IndexNotFound(m) => "index not found: "@ + m@,
            GrumpyError::IndexAlreadyExists(m) => "index already exists: "@ + m@,
            GrumpyError::CollectionNotFound(m) => "collection not found: "@ + m@,
            GrumpyError::InvalidName(m) => "invalid name: "@ + m@,
            GrumpyError::InvalidArgument(m) => "invalid argument: "@ + m@,
            GrumpyError::CyclicReference => "cyclic reference detected"@,
            GrumpyError::ClientNotFound(m) => "client not found: "@ + m@,
            GrumpyError::DatabaseNotFound(m) => "database not found: "@ + m@,
            GrumpyError::Corruption(m) => "data corruption detected: "@ + m@,
            GrumpyError::InvalidPageOffset { page, offset } => "invalid page offset: page "@
                + decimal(*page as nat) + ", offset "@ + decimal(*offset as nat),
            GrumpyError::InvalidVarKey(m) => "invalid variable-length key: "@ + m@,
            GrumpyError::Hlc(m) => "HLC error: "@ + m@,
            GrumpyError::VectorClock(m) => "vector clock error: "@ + m@,
            GrumpyError::UnsupportedWalVersion(v) => "unsupported WAL format version: "@ + decimal(
                *v as nat,
            ),
        }
    }

    /// The text that describes the error.
    pub fn message(&self) -> (r: String)
        ensures
            r@ == self.message_text(),
    {
        proof {
            reveal_strlit("");
        }
        match self {
            GrumpyError::Io(m) => joined("I/O error: ", m),
            GrumpyError::PageNotFound(p) => numbered("page ", *p as u64, " not found"),
            GrumpyError::PageFull(p) => numbered("page ", *p as u64, " is full"),
            GrumpyError::DuplicateKey(k) => {
                let mut s: String = owned("key ");
                s.append(k.to_text().as_str());
                s.append(" already exists");
                s
            },
            GrumpyError::KeyNotFound(k) => {
                let mut s: String = owned("key ");
                s.append(k.to_text().as_str());
                s.append(" not found");
                s
            },
            GrumpyError::ChecksumMismatch { page_id, expected, actual } => {
                let mut s: String = owned("checksum mismatch on page ");
                append_decimal(&mut s, *page_id as u64);
                s.append(": expected 0x");
                append_hex(&mut s, *expected as u64, 8);
                s.append(", got 0x");
                append_hex(&mut s, *actual as u64, 8);
                s
            },
            GrumpyError::WalCorrupted(lsn) => numbered("WAL corrupted at LSN ", *lsn, ""),
            GrumpyError::BufferPoolExhausted => owned(
                "buffer pool exhausted: all frames are pinned",
            ),
            GrumpyError::DocumentTooLarge { size, max } => {
                let mut s: String = owned("document too large: ");
                append_decimal(&mut s, *size as u64);
                s.append(" bytes (max: ");
                append_decimal(&mut s, *max as u64);
                s.append(")");
                s
            },
            GrumpyError::Codec(m) => joined("codec error: ", m),
            GrumpyError::NotIndexable => owned("value type cannot be indexed"),
            GrumpyError::IndexNotFound(m) => joined("index not found: ", m),
            GrumpyError::IndexAlreadyExists(m) => joined("index already exists: ", m),
            GrumpyError::CollectionNotFound(m) => joined("collection not found: ", m),
            GrumpyError::InvalidName(m) => joined("invalid name: ", m),
            GrumpyError::InvalidArgument(m) => joined("invalid argument: ", m),
            GrumpyError::CyclicReference => owned("cyclic reference detected"),
            GrumpyError::ClientNotFound(m) => joined("client not found: ", m),
            GrumpyError::DatabaseNotFound(m) => joined("database not found: ", m),
            GrumpyError::Corruption(m) => joined("data corruption detected: ", m),
            GrumpyError::InvalidPageOffset { page, offset } => {
                let mut s: String = owned("invalid page offset: page ");
                append_decimal(&mut s, *page as u64);
                s.append(", offset ");
                append_decimal(&mut s, *offset as u64);
                s
            },
            GrumpyError::InvalidVarKey(m) => joined("invalid variable-length key: ", m),
            GrumpyError::Hlc(m) => joined("HLC error: ", m),
            GrumpyError::VectorClock(m) => joined("vector clock error: ", m),
            GrumpyError::UnsupportedWalVersion(v) => numbered(
                "unsupported WAL format version: ",
                *v as u64,
                "",
            ),
        }
    }
}

fn joined(prefix: &str, rest: &String) -> (r: String)
    ensures
        r@ == prefix@ + rest@,
{
    let mut s: String = owned(prefix);
    s.append(rest.as_str());
    s
}

/// `prefix`, the decimal digits of `n`, then `suffix`.
pub fn numbered(prefix: &str, n: u64, suffix: &str) -> (r: String)
    ensures
        r@ == prefix@ + decimal(n as nat) + suffix@,
        suffix@.len() == 0 ==> r@ == prefix@ + decimal(n as nat),
{
    let mut s: String = owned(prefix);
    append_decimal(&mut s, n);
    let ghost mid = s@;
    s.append(suffix);
    proof {
        if suffix@.len() == 0 {
            assert(s@ =~= mid);
        }
    }
    s
}

} // verus!
