//! GrumpyDB: an embedded document store with verified storage logic.
//!
//! The crate holds the storage engine as pure, verified code over in-memory
//! images of the files: pages, B+Trees, the document codec, the write-ahead
//! log, collections and databases. Reading the files in, writing changed
//! pages out and locking are left to the surrounding program.

pub mod assoc;
pub mod btree;
pub mod buffer;
pub mod bytes;
pub mod collection;
pub mod database;
pub mod document;
pub mod engine;
pub mod error;
pub mod index;
pub mod naming;
pub mod page;
pub mod server;
pub mod text;
pub mod uid;
pub mod wal;

pub use database::Database;
pub use document::value::Value;
pub use engine::{CompactResult, GrumpyDb};
pub use error::{GrumpyError, Result};
pub use index::IndexDefinition;
pub use server::client::Client;
pub use server::GrumpyServer;
