//! Plain request and response shapes of the HTTP surface, and the WAL
//! reader over fragments already fetched from the store.

use crate::errors::{Result, ZeppelinError};
use crate::types::DistanceMetric;
use crate::wal::WalFragment;
use vstd::prelude::*;
use vstd::string::StrSliceExecFns;

verus! {

/// Default number of results a query returns when the caller names none.
pub fn default_top_k() -> (r: usize)
    ensures
        r == 10,
{
    10
}

/// Default distance metric of a new namespace when the caller names none.
pub fn default_distance_metric() -> (r: DistanceMetric)
    ensures
        r is Cosine,
{
    DistanceMetric::Cosine
}

/// The probe count a query runs with: the requested value, or the default,
/// clamped to the maximum.
pub open spec fn clamped_nprobe(
    nprobe: Option<usize>,
    default_nprobe: usize,
    max_nprobe: usize,
) -> usize {
    let want = match nprobe {
        Some(n) => n,
        None => default_nprobe,
    };
    if want <= max_nprobe {
        want
    } else {
        max_nprobe
    }
}

/// Validate the caller-supplied query bounds and settle the probe count:
/// `top_k` must be at least one and at most `max_top_k`; the requested
/// `nprobe` (or the default) is clamped to `max_nprobe`.
pub fn validate_query_params(
    top_k: usize,
    max_top_k: usize,
    nprobe: Option<usize>,
    default_nprobe: usize,
    max_nprobe: usize,
) -> (r: Result<usize>)
    ensures
        r is Ok <==> 1 <= top_k <= max_top_k,
        match r {
            Ok(np) => np == clamped_nprobe(nprobe, default_nprobe, max_nprobe),
            Err(e) => e is Validation,
        },
{
    if top_k == 0 {
        return Err(ZeppelinError::Validation("top_k must be positive".to_owned()));
    }
    if top_k > max_top_k {
        return Err(ZeppelinError::Validation("top_k exceeds the maximum".to_owned()));
    }
    let want = match nprobe {
        Some(n) => n,
        None => default_nprobe,
    };
    if want <= max_nprobe {
        Ok(want)
    } else {
        Ok(max_nprobe)
    }
}

/// Validate an upsert batch's size against the per-namespace cap: empty and
/// oversized batches are rejected at the boundary.
pub fn validate_batch_size(len: usize, max_batch_size: usize) -> (r: Result<()>)
    ensures
        r is Ok <==> 1 <= len <= max_batch_size,
        r is Err ==> r->Err_0 is Validation,
{
    if len == 0 {
        return Err(ZeppelinError::Validation("batch must not be empty".to_owned()));
    }
    if len > max_batch_size {
        return Err(ZeppelinError::Validation("batch exceeds the maximum size".to_owned()));
    }
    Ok(())
}

/// Body of a namespace-creation request.
#[derive(Debug)]
pub struct CreateNamespaceRequest {
    pub name: String,
    pub dimensions: usize,
    pub distance_metric: DistanceMetric,
}

/// Namespace metadata as returned to a caller.
#[derive(Debug)]
pub struct NamespaceResponse {
    pub name: String,
    pub dimensions: usize,
    pub distance_metric: DistanceMetric,
    pub vector_count: u64,
    pub created_at: i64,
    pub updated_at: i64,
}

/// Result of an upsert request.
#[derive(Debug, Clone, Copy, PartialEq, Eq, Structural)]
pub struct UpsertVectorsResponse {
    pub upserted: usize,
}

/// Body of a delete request.
#[derive(Debug)]
pub struct DeleteVectorsRequest {
    pub ids: Vec<String>,
}

/// Result of a delete request.
#[derive(Debug, Clone, Copy, PartialEq, Eq, Structural)]
pub struct DeleteVectorsResponse {
    pub deleted: usize,
}

/// Replays WAL fragments that were fetched and decoded from the store.
#[derive(Debug)]
pub struct WalReader {
    pub fragments: Vec<WalFragment>,
}

impl WalReader {
    /// A reader over the given uncompacted fragments, in manifest order.
    pub fn new(fragments: Vec<WalFragment>) -> (r: Self)
        ensures
            r.fragments@ == fragments@,
    {
        WalReader { fragments }
    }

    /// Replay the fragments into the latest per-id state: the live entries
    /// and the tombstones. The fragments must be in ascending identifier
    /// order, as the manifest lists them.
    pub fn read_uncompacted_fragments(&self) -> (r: (
        Vec<crate::types::VectorEntry>,
        Vec<String>,
    ))
        requires
            forall|i: int, j: int|
                0 <= i < j < self.fragments@.len() ==> (#[trigger] self.fragments@[i])@.id < (
                #[trigger] self.fragments@[j])@.id,
        ensures
            crate::replay::state_matches(
                r.0@,
                r.1@,
                crate::replay::replay(crate::replay::frags_view(self.fragments@)),
            ),
    {
        crate::replay::replay_fragments(&self.fragments)
    }
}

} // verus!
