//! The write-ahead log: every mutation is recorded under a sequence number
//! before it is applied.

pub mod entry;
pub mod log;

pub use entry::WalEntry;
pub use log::Wal;
