//! Answers that need no collection.

use vstd::prelude::*;

verus! {

/// The version of the running binary.
#[derive(Debug, Clone)]
pub struct VersionResponse {
    pub version: String,
    /// The commit the binary was built from, where the build recorded it.
    pub git_commit: Option<String>,
}

/// The answer to a version request.
pub fn version(package_version: String, git_commit: Option<String>) -> (r: VersionResponse)
    ensures
        r.version == package_version,
        r.git_commit == git_commit,
{
    VersionResponse { version: package_version, git_commit }
}

} // verus!
