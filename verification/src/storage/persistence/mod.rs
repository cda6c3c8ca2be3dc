//! What a collection keeps beside its documents: the entry-pointer table,
//! the rules of the data region, and the collection's own metadata.

pub mod index;
pub mod metadata;
pub mod mmap;
pub mod vector_index;

pub use index::{load_index, save_index, EntryPointer, PointerTable};
pub use metadata::{get_metadata_path, get_wal_path, load_metadata, save_metadata, CollectionMetadata};
pub use mmap::{ensure_file_size, grow_mmap_if_needed, warm_mmap};
pub use vector_index::{get_vector_index_path, load_vector_index};
