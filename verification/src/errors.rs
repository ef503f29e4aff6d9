//! Error taxonomy. Each kind maps to a single HTTP status.

use vstd::prelude::*;

verus! {

/// Engine-level error. Faults of outside collaborators (storage transport,
/// serialization) are carried as plain strings.
#[derive(Debug)]
pub enum ZeppelinError {
    /// Referenced object absent from the store.
    NotFound { key: String },
    /// Storage transport fault.
    Storage(String),
    /// Serialization fault.
    Json(String),
    /// Encoded artifact did not decode.
    Bincode(String),
    /// Fragment payload hash disagreed with the stored checksum.
    ChecksumMismatch { expected: u64, actual: u64 },
    /// No manifest exists for the namespace.
    ManifestNotFound { namespace: String },
    /// Namespace absent.
    NamespaceNotFound { namespace: String },
    /// Conflicting create.
    NamespaceAlreadyExists { namespace: String },
    /// No segment has been built yet.
    IndexNotBuilt { namespace: String },
    /// Index-level fault.
    Index(String),
    /// k-means failed to converge.
    KMeansConvergence { iterations: usize },
    /// Input vector length differs from the namespace dimension.
    DimensionMismatch { expected: usize, actual: usize },
    /// Caller-side validation fault.
    Validation(String),
    /// Configuration fault.
    Config(String),
    /// Query-level fault.
    Query(String),
    /// I/O fault.
    Io(String),
    /// Compaction fault.
    Compaction(String),
    /// Cache fault.
    Cache(String),
    /// Internal fault.
    Internal(String),
}

impl ZeppelinError {
    /// The HTTP status this error maps to.
    pub fn status_code(&self) -> (r: u16)
        ensures
            r == self.spec_status_code(),
    {
        match self {
            ZeppelinError::NotFound { .. }
            | ZeppelinError::NamespaceNotFound { .. }
            | ZeppelinError::ManifestNotFound { .. } => 404,
            ZeppelinError::NamespaceAlreadyExists { .. } => 409,
            ZeppelinError::DimensionMismatch { .. } | ZeppelinError::Validation(_) => 400,
            ZeppelinError::IndexNotBuilt { .. } => 503,
            _ => 500,
        }
    }

    /// Specification of the status mapping.
    pub open spec fn spec_status_code(&self) -> u16 {
        match self {
            ZeppelinError::NotFound { .. } => 404,
            ZeppelinError::NamespaceNotFound { .. } => 404,
            ZeppelinError::ManifestNotFound { .. } => 404,
            ZeppelinError::NamespaceAlreadyExists { .. } => 409,
            ZeppelinError::DimensionMismatch { .. } => 400,
            ZeppelinError::Validation(_) => 400,
            ZeppelinError::IndexNotBuilt { .. } => 503,
            _ => 500,
        }
    }
}

/// Result alias used throughout the engine.
pub type Result<T> = core::result::Result<T, ZeppelinError>;

} // verus!
