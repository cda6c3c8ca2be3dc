//! Storage: documents, their binary form, the data region, the entry-pointer
//! table, the write-ahead log and the collection that ties them together.

pub mod wire;
pub mod codec;
pub mod document;

pub use document::{Document, VectorEntry};
pub mod persistence;
pub mod wal;
pub mod store;

pub use store::DocumentStore;
pub mod recovery;
pub mod history;
pub mod collection;

pub use collection::Collection;
pub mod utils;
