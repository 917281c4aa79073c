//! Write-ahead log: record formats, clocks and recovery.

pub mod applied_set;
pub mod durability;
pub mod hlc;
pub mod record;
pub mod recovery;
pub mod transaction;
pub mod vclock;
pub mod writer;
