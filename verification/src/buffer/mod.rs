//! Buffer pool: cached pages between the engine and the page file.

pub mod frame;
pub mod pool;
