//! What the process around the collections decides: whether writes are
//! allowed, when caches are cleared, and how requests are read.

pub mod handlers;
pub mod state;
pub mod types;
