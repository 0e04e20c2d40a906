use vstd::prelude::*;

verus! {

/// Everything that can make a restore or save phase fail.
#[derive(Debug, Clone)]
pub enum Error {
    /// The `cache-only` input named a segment that does not exist.
    ParseCacheableItem(String),
    /// A filesystem operation failed.
    Io(String),
    /// A sidecar record could not be produced or parsed.
    Serialization(String),
    /// The host's blob cache reported a failure.
    HostCacheFailure(String),
    /// The save phase computed another folder path than the restore phase recorded.
    PathMismatch { old: String, new: String },
    /// The save phase found no sidecar record for a segment.
    SidecarMissing(String),
}

} // verus!
