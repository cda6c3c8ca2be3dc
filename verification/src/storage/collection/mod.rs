//! The collection: the document store, the index, the caches, the log and
//! the snapshots, kept in step by every operation.

pub mod batch;
pub mod builder;
pub mod cache;
pub mod compact;
pub mod dup;
pub mod operations;
pub mod persistence;
pub mod search;
pub mod shelf;
pub mod storage;
pub mod train;

pub use batch::{delete_batch, insert_batch};
pub use builder::{CollectionBuilder, DurableImage};
pub use compact::{compact, CompactStats};
pub use dup::{find_duplicates, DuplicateHit};
pub use operations::{
    delete, delete_internal, get, insert, insert_internal, update_metadata, update_vector, upsert,
};
pub use persistence::{
    checkpoint, flush, save_index, save_metadata, save_vector_index, PersistenceService,
};
pub use storage::{Collection, CollectionOpenOptions, Sidecars};
