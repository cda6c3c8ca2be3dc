//! Where collections are stored.

use vstd::prelude::*;

verus! {

#[derive(Debug, Clone)]
pub struct StorageConfig {
    /// Base path under which every collection keeps its files.
    pub storage_path: String,
}

impl StorageConfig {
    pub fn new(path: String) -> (r: Self)
        ensures
            r.storage_path == path,
    {
        Self { storage_path: path }
    }
}

impl Default for StorageConfig {
    fn default() -> (r: Self)
        ensures
            r.storage_path@ == "./data"@,
    {
        Self::new("./data".to_owned())
    }
}

} // verus!
