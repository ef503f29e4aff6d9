//! The engine: per-namespace state (metadata, manifest, WAL, active
//! segment), writes and queries.
//!
//! Floating point arithmetic never enters the engine: distance kernels live
//! behind the `Scorer` trait, implemented by the caller. Every structural
//! rule — validation, replay, the query merge, manifest maintenance — is
//! verified here.

use crate::errors::{Result, ZeppelinError};
use crate::manifest::{FragmentRef, Manifest};
use crate::replay::{frags_view, lemma_replay_disjoint, replay, replay_fragments};
use crate::types::{
    clone_attrs, opt_attrs_view, DistanceMetric, VectorEntry, VectorEntryV, VectorId,
};
use crate::wal::{fragment_ok, fragment_wf, WalFragment};
use vstd::prelude::*;

verus! {

/// Distance computation, supplied by the caller. The engine states nothing
/// about the scores it returns; every structural guarantee holds for any
/// implementation.
pub trait Scorer {
    /// Score of a stored vector against the query under the metric; the bit
    /// pattern of a single-precision value, smaller is better.
    fn score(&self, query: &Vec<u32>, values: &Vec<u32>, metric: DistanceMetric) -> u32;
}

/// Typed metadata of a namespace.
#[derive(Debug)]
pub struct NamespaceMetadata {
    pub name: String,
    pub dimensions: usize,
    pub distance_metric: DistanceMetric,
    pub created_at: i64,
    pub updated_at: i64,
    pub vector_count: u64,
}

/// An immutable IVF segment held by the engine: centroids and one entry
/// list per cluster.
#[derive(Debug)]
pub struct Segment {
    pub id: String,
    pub dim: usize,
    pub centroids: Vec<Vec<u32>>,
    pub clusters: Vec<Vec<VectorEntry>>,
}

impl Segment {
    /// The segment holds a vector with this id.
    pub open spec fn has_id(self, id: Seq<char>) -> bool {
        exists|c: int, j: int|
            0 <= c < self.clusters@.len() && 0 <= j < self.clusters@[c]@.len()
                && #[trigger] self.clusters@[c]@[j]@.id == id
    }

    /// The segment holds exactly this entry.
    pub open spec fn has_entry(self, e: VectorEntryV) -> bool {
        exists|c: int, j: int|
            0 <= c < self.clusters@.len() && 0 <= j < self.clusters@[c]@.len()
                && #[trigger] self.clusters@[c]@[j]@ == e
    }

    /// Structure: one cluster per centroid, every vector of the namespace
    /// dimension, ids unique across the whole segment.
    pub open spec fn wf(self, dim: int) -> bool {
        &&& self.clusters@.len() == self.centroids@.len()
        &&& forall|c: int|
            0 <= c < self.centroids@.len() ==> #[trigger] self.centroids@[c]@.len() == dim
        &&& forall|c: int, j: int|
            0 <= c < self.clusters@.len() && 0 <= j < self.clusters@[c]@.len()
                ==> (#[trigger] self.clusters@[c]@[j]@.values).len() == dim
        &&& forall|c1: int, j1: int, c2: int, j2: int|
            0 <= c1 < self.clusters@.len() && 0 <= j1 < self.clusters@[c1]@.len() && 0 <= c2
                < self.clusters@.len() && 0 <= j2 < self.clusters@[c2]@.len() && (c1 != c2 || j1
                != j2) ==> (#[trigger] self.clusters@[c1]@[j1]@.id) != (
            #[trigger] self.clusters@[c2]@[j2]@.id)
    }
}

/// Result of a query.
#[derive(Debug)]
pub struct QueryResponse {
    pub results: Vec<crate::types::SearchResult>,
    pub scanned_fragments: usize,
    pub scanned_segments: usize,
}

/// All state of one namespace.
#[derive(Debug)]
pub struct NamespaceState {
    pub meta: NamespaceMetadata,
    pub manifest: Manifest,
    pub wal: Vec<WalFragment>,
    pub segment: Option<Segment>,
}

impl NamespaceState {
    /// Per-namespace invariant: the manifest is well-formed and mirrors the
    /// held WAL fragments one for one; fragments carry valid checksums and
    /// vectors of the namespace dimension; the active segment matches the
    /// manifest.
    pub open spec fn wf(self) -> bool {
        &&& self.meta.dimensions > 0
        &&& self.manifest.wf()
        &&& self.manifest.frontier() < u128::MAX
        &&& self.wal@.len() == self.manifest.fragments@.len()
        &&& forall|i: int|
            0 <= i < self.wal@.len() ==> (#[trigger] self.wal@[i])@.id
                == self.manifest.fragments@[i].id
        &&& forall|i: int| 0 <= i < self.wal@.len() ==> fragment_wf((#[trigger] self.wal@[i])@)
        &&& forall|i: int| 0 <= i < self.wal@.len() ==> fragment_ok((#[trigger] self.wal@[i])@)
        &&& forall|i: int, j: int|
            0 <= i < self.wal@.len() && 0 <= j < (#[trigger] self.wal@[i])@.vectors.len() ==> (
            #[trigger] self.wal@[i]@.vectors[j]).values.len() == self.meta.dimensions
        &&& match self.segment {
            Some(s) => {
                &&& self.manifest.active_segment is Some
                &&& s.id@ == self.manifest.active_segment->0@
                &&& s.wf(self.meta.dimensions as int)
            },
            None => self.manifest.active_segment is None,
        }
    }
}

/// The engine: a registry of namespaces.
pub struct Engine {
    pub namespaces: Vec<NamespaceState>,
}

impl Engine {
    /// The engine invariant: namespace names are unique and every namespace
    /// is well-formed.
    pub open spec fn wf(self) -> bool {
        &&& forall|i: int| 0 <= i < self.namespaces@.len() ==> (#[trigger] self.namespaces@[i]).wf()
        &&& forall|i: int, j: int|
            0 <= i < j < self.namespaces@.len() ==> (#[trigger] self.namespaces@[i]).meta.name@ != (
            #[trigger] self.namespaces@[j]).meta.name@
    }

    /// A namespace with this name exists.
    pub open spec fn has_ns(self, name: Seq<char>) -> bool {
        exists|i: int|
            0 <= i < self.namespaces@.len() && (#[trigger] self.namespaces@[i]).meta.name@ == name
    }

    /// Index of the namespace with this name.
    pub open spec fn index_of(self, name: Seq<char>) -> int {
        choose|i: int|
            0 <= i < self.namespaces@.len() && (#[trigger] self.namespaces@[i]).meta.name@ == name
    }

    /// Create an empty engine.
    pub fn new() -> (r: Self)
        ensures
            r.wf(),
            r.namespaces@.len() == 0,
    {
        Engine { namespaces: Vec::new() }
    }

    fn find_index(&self, name: &String) -> (r: Option<usize>)
        ensures
            match r {
                Some(i) => i < self.namespaces@.len() && self.namespaces@[i as int].meta.name@
                    == name@ && self.has_ns(name@) && (self.wf() ==> i == self.index_of(name@)),
                None => !self.has_ns(name@),
            },
    {
        let n = self.namespaces.len();
        let mut i: usize = 0;
        while i < n
            invariant
                i <= n,
                n == self.namespaces@.len(),
                forall|j: int| 0 <= j < i ==> (#[trigger] self.namespaces@[j]).meta.name@ != name@,
            decreases n - i,
        {
            if self.namespaces[i].meta.name == *name {
                proof {
                    assert(self.namespaces@[i as int].meta.name@ == name@);
                }
                return Some(i);
            }
            i = i + 1;
        }
        None
    }

    /// Create a namespace. Fails with a validation error on a zero dimension
    /// or an empty name, and with a conflict when the name is taken; only a
    /// successful call changes the engine.
    pub fn create_namespace(
        &mut self,
        name: &String,
        dimensions: usize,
        distance_metric: DistanceMetric,
    ) -> (r: Result<NamespaceMetadata>)
        requires
            old(self).wf(),
        ensures
            final(self).wf(),
            match r {
                Ok(meta) => {
                    &&& dimensions > 0
                    &&& name@.len() > 0
                    &&& !old(self).has_ns(name@)
                    &&& final(self).has_ns(name@)
                    &&& meta.name@ == name@
                    &&& meta.dimensions == dimensions
                    &&& meta.distance_metric == distance_metric
                    &&& final(self).namespaces@.len() == old(self).namespaces@.len() + 1
                    &&& forall|i: int|
                        0 <= i < old(self).namespaces@.len() ==> final(self).namespaces@[i] == old(
                            self,
                        ).namespaces@[i]
                    &&& final(self).namespaces@.last().meta.name@ == name@
                    &&& final(self).namespaces@.last().wal@.len() == 0
                    &&& final(self).namespaces@.last().segment is None
                },
                Err(ZeppelinError::Validation(_)) => (dimensions == 0 || name@.len() == 0)
                    && *final(self) == *old(self),
                Err(ZeppelinError::NamespaceAlreadyExists { .. }) => dimensions > 0 && name@.len()
                    > 0 && old(self).has_ns(name@) && *final(self) == *old(self),
                _ => false,
            },
    {
        if dimensions == 0 {
            return Err(ZeppelinError::Validation("dimensions must be positive".to_owned()));
        }
        if name.as_str().is_empty() {
            return Err(ZeppelinError::Validation("name must not be empty".to_owned()));
        }
        if self.find_index(name).is_some() {
            return Err(ZeppelinError::NamespaceAlreadyExists { namespace: name.clone() });
        }
        let now = crate::outside::now_millis();
        let meta = NamespaceMetadata {
            name: name.clone(),
            dimensions,
            distance_metric,
            created_at: now,
            updated_at: now,
            vector_count: 0,
        };
        let state = NamespaceState {
            meta,
            manifest: Manifest::new(),
            wal: Vec::new(),
            segment: None,
        };
        self.namespaces.push(state);
        let out = NamespaceMetadata {
            name: name.clone(),
            dimensions,
            distance_metric,
            created_at: now,
            updated_at: now,
            vector_count: 0,
        };
        proof {
            assert(final(self).namespaces@.last().meta.name@ == name@);
            assert forall|i: int, j: int|
                0 <= i < j < self.namespaces@.len() implies (
            #[trigger] self.namespaces@[i]).meta.name@ != (
            #[trigger] self.namespaces@[j]).meta.name@ by {
                if j == self.namespaces@.len() - 1 {
                    assert(self.namespaces@[i] == old(self).namespaces@[i]);
                }
            }
        }
        Ok(out)
    }

    /// Copy of the metadata of a namespace. Succeeds exactly when the
    /// namespace exists.
    pub fn get_namespace(&self, name: &String) -> (r: Result<NamespaceMetadata>)
        requires
            self.wf(),
        ensures
            match r {
                Ok(meta) => self.has_ns(name@) && meta == self.namespaces@[self.index_of(
                    name@,
                )].meta,
                Err(ZeppelinError::NamespaceNotFound { .. }) => !self.has_ns(name@),
                _ => false,
            },
    {
        match self.find_index(name) {
            Some(i) => {
                let m = &self.namespaces[i].meta;
                Ok(
                    NamespaceMetadata {
                        name: m.name.clone(),
                        dimensions: m.dimensions,
                        distance_metric: m.distance_metric,
                        created_at: m.created_at,
                        updated_at: m.updated_at,
                        vector_count: m.vector_count,
                    },
                )
            },
            None => Err(ZeppelinError::NamespaceNotFound { namespace: name.clone() }),
        }
    }

    /// Copies of every namespace's metadata, in registration order.
    pub fn list_namespaces(&self) -> (r: Vec<NamespaceMetadata>)
        ensures
            r@.len() == self.namespaces@.len(),
            forall|i: int| 0 <= i < r@.len() ==> r@[i] == (#[trigger] self.namespaces@[i]).meta,
    {
        let n = self.namespaces.len();
        let mut out: Vec<NamespaceMetadata> = Vec::new();
        let mut i: usize = 0;
        while i < n
            invariant
                i <= n,
                n == self.namespaces@.len(),
                out@.len() == i,
                forall|j: int| 0 <= j < i ==> out@[j] == (#[trigger] self.namespaces@[j]).meta,
            decreases n - i,
        {
            let m = &self.namespaces[i].meta;
            out.push(
                NamespaceMetadata {
                    name: m.name.clone(),
                    dimensions: m.dimensions,
                    distance_metric: m.distance_metric,
                    created_at: m.created_at,
                    updated_at: m.updated_at,
                    vector_count: m.vector_count,
                },
            );
            i = i + 1;
        }
        out
    }

    /// Delete a namespace and everything it holds. Succeeds exactly when the
    /// namespace exists.
    pub fn delete_namespace(&mut self, name: &String) -> (r: Result<()>)
        requires
            old(self).wf(),
        ensures
            final(self).wf(),
            match r {
                Ok(_) => old(self).has_ns(name@) && !final(self).has_ns(name@)
                    && final(self).namespaces@.len() == old(self).namespaces@.len() - 1,
                Err(ZeppelinError::NamespaceNotFound { .. }) => !old(self).has_ns(name@)
                    && *final(self) == *old(self),
                _ => false,
            },
    {
        match self.find_index(name) {
            Some(i) => {
                self.namespaces.remove(i);
                proof {
                    let s0 = old(self).namespaces@;
                    let s1 = self.namespaces@;
                    assert forall|a: int| 0 <= a < s1.len() implies (#[trigger] s1[a]).meta.name@
                        != name@ by {
                        if a < i {
                            assert(s1[a] == s0[a]);
                        } else {
                            assert(s1[a] == s0[a + 1]);
                        }
                    }
                    assert forall|a: int, b: int| 0 <= a < b < s1.len() implies (
                    #[trigger] s1[a]).meta.name@ != (#[trigger] s1[b]).meta.name@ by {
                        let a0: int = if a < i {
                            a
                        } else {
                            a + 1
                        };
                        let b0: int = if b < i {
                            b
                        } else {
                            b + 1
                        };
                        assert(s1[a] == s0[a0] && s1[b] == s0[b0]);
                    }
                }
                Ok(())
            },
            None => Err(ZeppelinError::NamespaceNotFound { namespace: name.clone() }),
        }
    }
}


/// Ceiling on fragment identifiers; real ULIDs stay far below it.
pub const MAX_FRAGMENT_ID: u128 = 0xffff_ffff_ffff_ffff_0000_0000_0000_0000;

/// Pick the identifier for a new fragment: the fresh ULID when it respects
/// the manifest's ordering, else one past the frontier.
fn bump_id(m: &Manifest, hint: u128) -> (r: u128)
    requires
        m.wf(),
        m.frontier() + 1 < MAX_FRAGMENT_ID,
    ensures
        m.frontier() < r < MAX_FRAGMENT_ID,
{
    let base: u128 = {
        let wm: u128 = match m.compaction_watermark {
            Some(w) => w,
            None => 0,
        };
        let nf = m.fragments.len();
        if nf > 0 {
            let last = m.fragments[nf - 1].id;
            if last > wm {
                last
            } else {
                wm
            }
        } else {
            wm
        }
    };
    proof {
        assert(base >= m.frontier());
        assert(base == 0 || base == m.frontier());
    }
    if hint > base && hint < MAX_FRAGMENT_ID {
        hint
    } else {
        base + 1
    }
}


impl Engine {
    /// Append an upsert batch to a namespace's WAL. Validation failures
    /// (unknown namespace, empty batch, wrong dimension) change nothing; on
    /// success one fragment holding exactly the given vectors is appended.
    /// Each error arm is conditioned, so on a known namespace, a non-empty
    /// batch of the right dimension and fragment-id headroom, success is
    /// owed.
    #[verifier::loop_isolation(false)]
    pub fn upsert_vectors(&mut self, namespace: &String, vectors: Vec<VectorEntry>) -> (r: Result<
        usize,
    >)
        requires
            old(self).wf(),
        ensures
            final(self).wf(),
            match r {
                Ok(n) => {
                    let idx = old(self).index_of(namespace@);
                    let ns0 = old(self).namespaces@[idx];
                    let ns1 = final(self).namespaces@[idx];
                    &&& old(self).has_ns(namespace@)
                    &&& final(self).has_ns(namespace@)
                    &&& idx == final(self).index_of(namespace@)
                    &&& n == vectors@.len()
                    &&& n > 0
                    &&& forall|j: int|
                        0 <= j < vectors@.len() ==> (#[trigger] vectors@[j].values)@.len()
                            == ns0.meta.dimensions
                    &&& final(self).namespaces@.len() == old(self).namespaces@.len()
                    &&& forall|i: int|
                        0 <= i < final(self).namespaces@.len() && i != idx
                            ==> final(self).namespaces@[i] == old(self).namespaces@[i]
                    &&& ns1.wal@.len() == ns0.wal@.len() + 1
                    &&& forall|i: int| 0 <= i < ns0.wal@.len() ==> ns1.wal@[i] == ns0.wal@[i]
                    &&& ns1.wal@.last()@.vectors == crate::types::entries_view(vectors@)
                    &&& ns1.wal@.last()@.deletes.len() == 0
                    &&& ns1.manifest.fragments@ == ns0.manifest.fragments@.push(
                        FragmentRef {
                            id: ns1.wal@.last()@.id,
                            vector_count: n,
                            delete_count: 0,
                        },
                    )
                    &&& ns1.segment == ns0.segment
                    &&& ns1.meta.name@ == namespace@
                    &&& ns1.meta.dimensions == ns0.meta.dimensions
                },
                Err(ZeppelinError::NamespaceNotFound { .. }) => !old(self).has_ns(namespace@)
                    && *final(self) == *old(self),
                Err(ZeppelinError::Validation(_)) => old(self).has_ns(namespace@)
                    && vectors@.len() == 0 && *final(self) == *old(self),
                Err(ZeppelinError::DimensionMismatch { expected, actual }) => {
                    let idx = old(self).index_of(namespace@);
                    &&& old(self).has_ns(namespace@)
                    &&& expected == old(self).namespaces@[idx].meta.dimensions
                    &&& actual != expected
                    &&& exists|j: int|
                        0 <= j < vectors@.len() && (#[trigger] vectors@[j].values)@.len() == actual
                    &&& *final(self) == *old(self)
                },
                Err(ZeppelinError::Internal(_)) => {
                    let idx = old(self).index_of(namespace@);
                    &&& old(self).has_ns(namespace@)
                    &&& vectors@.len() > 0
                    &&& forall|j: int|
                        0 <= j < vectors@.len() ==> (#[trigger] vectors@[j].values)@.len()
                            == old(self).namespaces@[idx].meta.dimensions
                    &&& old(self).namespaces@[idx].manifest.frontier() + 1
                        >= MAX_FRAGMENT_ID as int
                    &&& *final(self) == *old(self)
                },
                _ => false,
            },
    {
        let idx = match self.find_index(namespace) {
            Some(i) => i,
            None => {
                return Err(ZeppelinError::NamespaceNotFound { namespace: namespace.clone() });
            },
        };
        if vectors.len() == 0 {
            return Err(ZeppelinError::Validation("batch must not be empty".to_owned()));
        }
        let dims = self.namespaces[idx].meta.dimensions;
        let nv = vectors.len();
        let mut j: usize = 0;
        while j < nv
            invariant
                j <= nv,
                nv == vectors@.len(),
                forall|i: int| 0 <= i < j ==> (#[trigger] vectors@[i].values)@.len() == dims,
            decreases nv - j,
        {
            if vectors[j].values.len() != dims {
                return Err(
                    ZeppelinError::DimensionMismatch {
                        expected: dims,
                        actual: vectors[j].values.len(),
                    },
                );
            }
            j = j + 1;
        }
        let frontier_ok = {
            let m = &self.namespaces[idx].manifest;
            let wm: u128 = match m.compaction_watermark {
                Some(w) => w,
                None => 0,
            };
            let nf = m.fragments.len();
            let base = if nf > 0 {
                let last = m.fragments[nf - 1].id;
                if last > wm {
                    last
                } else {
                    wm
                }
            } else {
                wm
            };
            proof {
                assert(base >= m.frontier());
                assert(base == 0 || base == m.frontier());
            }
            base + 1 < MAX_FRAGMENT_ID
        };
        if !frontier_ok {
            return Err(ZeppelinError::Internal("fragment identifier space exhausted".to_owned()));
        }
        let ghost pre = self.namespaces@;
        let mut ns = self.namespaces.remove(idx);
        let mut fragment = WalFragment::new(vectors, Vec::new());
        let fid = bump_id(&ns.manifest, fragment.id);
        fragment.id = fid;
        let vcount = fragment.vectors.len();
        ns.manifest.add_fragment(
            FragmentRef { id: fid, vector_count: vcount, delete_count: 0 },
        );
        ns.wal.push(fragment);
        ns.meta.vector_count = ns.meta.vector_count.saturating_add(vcount as u64);
        ns.meta.updated_at = crate::outside::now_millis();
        self.namespaces.insert(idx, ns);
        proof {
            assert(self.namespaces@ =~= pre.update(idx as int, self.namespaces@[idx as int]));
            let ns1 = self.namespaces@[idx as int];
            assert(ns1.wf());
            assert forall|a: int, b: int|
                0 <= a < b < self.namespaces@.len() implies (
            #[trigger] self.namespaces@[a]).meta.name@ != (
            #[trigger] self.namespaces@[b]).meta.name@ by {
                assert(self.namespaces@[a] == pre[a] || a == idx);
                assert(self.namespaces@[b] == pre[b] || b == idx);
            }
        }
        Ok(nv)
    }

    /// Append a delete batch to a namespace's WAL. An unknown namespace
    /// changes nothing; on success one fragment holding exactly the given
    /// tombstones is appended. An internal error can arise only when the
    /// fragment identifier space is exhausted, and changes nothing.
    #[verifier::loop_isolation(false)]
    pub fn delete_vectors(&mut self, namespace: &String, ids: Vec<VectorId>) -> (r: Result<usize>)
        requires
            old(self).wf(),
        ensures
            final(self).wf(),
            match r {
                Ok(n) => {
                    let idx = old(self).index_of(namespace@);
                    let ns0 = old(self).namespaces@[idx];
                    let ns1 = final(self).namespaces@[idx];
                    &&& old(self).has_ns(namespace@)
                    &&& final(self).has_ns(namespace@)
                    &&& idx == final(self).index_of(namespace@)
                    &&& n == ids@.len()
                    &&& final(self).namespaces@.len() == old(self).namespaces@.len()
                    &&& forall|i: int|
                        0 <= i < final(self).namespaces@.len() && i != idx
                            ==> final(self).namespaces@[i] == old(self).namespaces@[i]
                    &&& ns1.wal@.len() == ns0.wal@.len() + 1
                    &&& forall|i: int| 0 <= i < ns0.wal@.len() ==> ns1.wal@[i] == ns0.wal@[i]
                    &&& ns1.wal@.last()@.deletes == crate::types::strs_view(ids@)
                    &&& ns1.wal@.last()@.vectors.len() == 0
                    &&& ns1.manifest.fragments@ == ns0.manifest.fragments@.push(
                        FragmentRef {
                            id: ns1.wal@.last()@.id,
                            vector_count: 0,
                            delete_count: n,
                        },
                    )
                    &&& ns1.segment == ns0.segment
                    &&& ns1.meta.name@ == namespace@
                    &&& ns1.meta.dimensions == ns0.meta.dimensions
                },
                Err(ZeppelinError::NamespaceNotFound { .. }) => !old(self).has_ns(namespace@)
                    && *final(self) == *old(self),
                Err(ZeppelinError::Internal(_)) => {
                    let idx = old(self).index_of(namespace@);
                    &&& old(self).has_ns(namespace@)
                    &&& old(self).namespaces@[idx].manifest.frontier() + 1
                        >= MAX_FRAGMENT_ID as int
                    &&& *final(self) == *old(self)
                },
                _ => false,
            },
    {
        let idx = match self.find_index(namespace) {
            Some(i) => i,
            None => {
                return Err(ZeppelinError::NamespaceNotFound { namespace: namespace.clone() });
            },
        };
        let frontier_ok = {
            let m = &self.namespaces[idx].manifest;
            let wm: u128 = match m.compaction_watermark {
                Some(w) => w,
                None => 0,
            };
            let nf = m.fragments.len();
            let base = if nf > 0 {
                let last = m.fragments[nf - 1].id;
                if last > wm {
                    last
                } else {
                    wm
                }
            } else {
                wm
            };
            proof {
                assert(base >= m.frontier());
                assert(base == 0 || base == m.frontier());
            }
            base + 1 < MAX_FRAGMENT_ID
        };
        if !frontier_ok {
            return Err(ZeppelinError::Internal("fragment identifier space exhausted".to_owned()));
        }
        let n = ids.len();
        let ghost pre = self.namespaces@;
        let mut ns = self.namespaces.remove(idx);
        let mut fragment = WalFragment::new(Vec::new(), ids);
        let fid = bump_id(&ns.manifest, fragment.id);
        fragment.id = fid;
        let dcount = fragment.deletes.len();
        ns.manifest.add_fragment(
            FragmentRef { id: fid, vector_count: 0, delete_count: dcount },
        );
        ns.wal.push(fragment);
        ns.meta.updated_at = crate::outside::now_millis();
        self.namespaces.insert(idx, ns);
        proof {
            assert(self.namespaces@ =~= pre.update(idx as int, self.namespaces@[idx as int]));
            let ns1 = self.namespaces@[idx as int];
            assert(ns1.wf());
            assert forall|a: int, b: int|
                0 <= a < b < self.namespaces@.len() implies (
            #[trigger] self.namespaces@[a]).meta.name@ != (
            #[trigger] self.namespaces@[b]).meta.name@ by {
                assert(self.namespaces@[a] == pre[a] || a == idx);
                assert(self.namespaces@[b] == pre[b] || b == idx);
            }
        }
        Ok(n)
    }
}


/// Every cluster index below `n` occurs among the probes.
pub open spec fn probes_cover(r: Seq<usize>, n: int) -> bool {
    forall|c: int| 0 <= c < n ==> r.contains(#[trigger] (c as usize))
}

/// The filter value behind an optional reference.
pub open spec fn filter_view(f: Option<&crate::types::Filter>) -> Option<crate::types::Filter> {
    match f {
        Some(ff) => Some(*ff),
        None => None,
    }
}

/// Whether one entry passes the optional filter.
fn entry_passes(filter: Option<&crate::types::Filter>, e: &VectorEntry) -> (r: bool)
    ensures
        r == crate::filter::passes_filter(filter_view(filter), e@.attributes),
{
    match filter {
        Some(f) => match &e.attributes {
            Some(a) => crate::filter::evaluate_filter(f, a),
            None => false,
        },
        None => true,
    }
}

/// The ids the live entries carry, in order.
fn ids_of(live: &Vec<VectorEntry>) -> (r: Vec<String>)
    ensures
        r@.len() == live@.len(),
        forall|i: int| 0 <= i < live@.len() ==> #[trigger] r@[i]@ == live@[i]@.id,
{
    let n = live.len();
    let mut out: Vec<String> = Vec::new();
    let mut i: usize = 0;
    while i < n
        invariant
            i <= n,
            n == live@.len(),
            out@.len() == i,
            forall|j: int| 0 <= j < i ==> #[trigger] out@[j]@ == live@[j]@.id,
        decreases n - i,
    {
        out.push(live[i].id.clone());
        i = i + 1;
    }
    out
}

/// Score the surviving WAL entries against the query, applying the filter.
#[verifier::loop_isolation(false)]
fn wal_scan<S: Scorer>(
    live: Vec<VectorEntry>,
    query: &Vec<u32>,
    filter: Option<&crate::types::Filter>,
    metric: DistanceMetric,
    scorer: &S,
) -> (r: Vec<crate::types::SearchResult>)
    requires
        forall|i: int, j: int| 0 <= i < j < live@.len() ==> live@[i]@.id != live@[j]@.id,
    ensures
        forall|i: int, j: int| 0 <= i < j < r@.len() ==> r@[i].id@ != r@[j].id@,
        forall|i: int|
            0 <= i < r@.len() ==> exists|j: int|
                0 <= j < live@.len() && (#[trigger] r@[i]).id@ == live@[j]@.id && opt_attrs_view(
                    r@[i].attributes,
                ) == live@[j]@.attributes && crate::filter::passes_filter(
                    filter_view(filter),
                    live@[j]@.attributes,
                ),
        forall|j: int|
            0 <= j < live@.len() && crate::filter::passes_filter(
                filter_view(filter),
                (#[trigger] live@[j])@.attributes,
            ) ==> exists|i: int| 0 <= i < r@.len() && (#[trigger] r@[i]).id@ == live@[j]@.id,
{
    let mut out: Vec<crate::types::SearchResult> = Vec::new();
    let mut rest = live;
    let total = rest.len();
    let ghost live0 = rest@;
    let mut i: usize = 0;
    while rest.len() > 0
        invariant
            i <= total,
            i + rest@.len() == live0.len(),
            rest@ == live0.skip(i as int),
            forall|a: int, b: int| 0 <= a < b < out@.len() ==> out@[a].id@ != out@[b].id@,
            forall|a: int|
                0 <= a < out@.len() ==> exists|j: int|
                    0 <= j < i && (#[trigger] out@[a]).id@ == live0[j]@.id && opt_attrs_view(
                        out@[a].attributes,
                    ) == live0[j]@.attributes && crate::filter::passes_filter(
                        filter_view(filter),
                        live0[j]@.attributes,
                    ),
            forall|j: int|
                0 <= j < i && crate::filter::passes_filter(
                    filter_view(filter),
                    (#[trigger] live0[j])@.attributes,
                ) ==> exists|a: int| 0 <= a < out@.len() && (#[trigger] out@[a]).id@ == live0[j]@.id,
        decreases rest@.len(),
    {
        proof {
            assert(rest@[0] == live0[i as int]);
        }
        let ghost restpre = rest@;
        let e = rest.remove(0);
        proof {
            assert(rest@ =~= restpre.skip(1));
            assert(rest@ =~= live0.skip(i as int + 1));
        }
        if entry_passes(filter, &e) {
            let score = scorer.score(query, &e.values, metric);
            let sr = crate::types::SearchResult { id: e.id, score, attributes: e.attributes };
            proof {
                assert(sr.id@ == live0[i as int]@.id);
                assert(opt_attrs_view(sr.attributes) == live0[i as int]@.attributes);
            }
            let ghost out0 = out@;
            out.push(sr);
            proof {
                assert(out@[out@.len() - 1].id@ == live0[i as int]@.id);
                assert forall|a: int, b: int|
                    0 <= a < b < out@.len() implies out@[a].id@ != out@[b].id@ by {
                    if b == out@.len() - 1 {
                        assert(out@[a] == out0[a]);
                        let w = choose|w: int|
                            0 <= w < i && (#[trigger] out0[a]).id@ == live0[w]@.id
                                && opt_attrs_view(out0[a].attributes) == live0[w]@.attributes
                                && crate::filter::passes_filter(
                                filter_view(filter),
                                live0[w]@.attributes,
                            );
                        assert(live0[w]@.id != live0[i as int]@.id);
                    }
                }
                assert forall|j: int|
                    0 <= j < i + 1 && crate::filter::passes_filter(
                        filter_view(filter),
                        (#[trigger] live0[j])@.attributes,
                    ) implies exists|a: int|
                    0 <= a < out@.len() && (#[trigger] out@[a]).id@ == live0[j]@.id by {
                    if j == i as int {
                        assert((out@[out@.len() - 1]).id@ == live0[j]@.id);
                    } else {
                        let a = choose|a: int|
                            0 <= a < out0.len() && (#[trigger] out0[a]).id@ == live0[j]@.id;
                        assert((out@[a]).id@ == live0[j]@.id);
                    }
                }
            }
        }
        i = i + 1;
    }
    out
}

/// Indices of the clusters to probe: every cluster when `nprobe` covers
/// them all, else up to `nprobe` with the best-scoring centroids (ties
/// broken by cluster index).
#[verifier::loop_isolation(false)]
fn select_probes<S: Scorer>(
    centroids: &Vec<Vec<u32>>,
    query: &Vec<u32>,
    nprobe: usize,
    metric: DistanceMetric,
    scorer: &S,
) -> (r: Vec<usize>)
    ensures
        forall|a: int| 0 <= a < r@.len() ==> (#[trigger] r@[a]) < centroids@.len(),
        forall|a: int, b: int| 0 <= a < b < r@.len() ==> r@[a] != r@[b],
        nprobe >= centroids@.len() ==> probes_cover(r@, centroids@.len() as int),
        r@.len() <= nprobe || r@.len() == centroids@.len(),
{
    let n = centroids.len();
    if nprobe >= n {
        let mut out: Vec<usize> = Vec::new();
        let mut c: usize = 0;
        while c < n
            invariant
                c <= n,
                out@.len() == c,
                forall|a: int| 0 <= a < c ==> #[trigger] out@[a] == a,
            decreases n - c,
        {
            out.push(c);
            c = c + 1;
        }
        proof {
            assert forall|cc: int| 0 <= cc < centroids@.len() implies out@.contains(
                #[trigger] (cc as usize),
            ) by {
                assert(out@[cc] == cc as usize);
            }
        }
        out
    } else {
        let mut scores: Vec<u32> = Vec::new();
        let mut c: usize = 0;
        while c < n
            invariant
                c <= n,
                scores@.len() == c,
            decreases n - c,
        {
            scores.push(scorer.score(query, &centroids[c], metric));
            c = c + 1;
        }
        let mut used: Vec<bool> = Vec::new();
        let mut c2: usize = 0;
        while c2 < n
            invariant
                c2 <= n,
                used@.len() == c2,
                forall|a: int| 0 <= a < c2 ==> !(#[trigger] used@[a]),
            decreases n - c2,
        {
            used.push(false);
            c2 = c2 + 1;
        }
        let mut out: Vec<usize> = Vec::new();
        let mut k: usize = 0;
        while k < nprobe
            invariant
                k <= nprobe,
                nprobe < n,
                out@.len() == k,
                used@.len() == n == scores@.len() == centroids@.len(),
                forall|a: int| 0 <= a < out@.len() ==> (#[trigger] out@[a]) < n,
                forall|a: int, b: int| 0 <= a < b < out@.len() ==> out@[a] != out@[b],
                forall|a: int| 0 <= a < out@.len() ==> used@[#[trigger] out@[a] as int],
            decreases nprobe - k,
        {
            let mut best: usize = 0;
            let mut found = false;
            let mut c4: usize = 0;
            while c4 < n
                invariant
                    c4 <= n,
                    found ==> best < n && !used@[best as int],
                decreases n - c4,
            {
                if !used[c4] {
                    if !found {
                        best = c4;
                        found = true;
                    } else {
                        if !crate::fpbits::score_le(scores[best], scores[c4]) {
                            best = c4;
                        }
                    }
                }
                c4 = c4 + 1;
            }
            if !found {
                break ;
            }
            let ghost used0 = used@;
            let ghost out0 = out@;
            used.set(best, true);
            out.push(best);
            proof {
                assert forall|a: int| 0 <= a < out@.len() implies used@[#[trigger] out@[a] as int] by {
                    if a < out@.len() - 1 {
                        assert(out@[a] == out0[a]);
                        assert(used0[out0[a] as int]);
                    }
                }
                assert forall|a: int, b: int| 0 <= a < b < out@.len() implies out@[a]
                    != out@[b] by {
                    if b == out@.len() - 1 {
                        assert(used0[out0[a] as int]);
                        assert(!used0[best as int]);
                    }
                }
            }
            k = k + 1;
        }
        out
    }
}


/// Scan the probed clusters of a segment, apply the filter, and score the
/// survivors.
#[verifier::loop_isolation(false)]
fn scan_clusters<S: Scorer>(
    seg: &Segment,
    probes: &Vec<usize>,
    query: &Vec<u32>,
    filter: Option<&crate::types::Filter>,
    metric: DistanceMetric,
    scorer: &S,
) -> (r: Vec<crate::types::SearchResult>)
    requires
        forall|a: int| 0 <= a < probes@.len() ==> (#[trigger] probes@[a]) < seg.clusters@.len(),
        forall|a: int, b: int| 0 <= a < b < probes@.len() ==> probes@[a] != probes@[b],
        forall|c1: int, j1: int, c2: int, j2: int|
            0 <= c1 < seg.clusters@.len() && 0 <= j1 < seg.clusters@[c1]@.len() && 0 <= c2
                < seg.clusters@.len() && 0 <= j2 < seg.clusters@[c2]@.len() && (c1 != c2 || j1
                != j2) ==> (#[trigger] seg.clusters@[c1]@[j1]@.id) != (
            #[trigger] seg.clusters@[c2]@[j2]@.id),
    ensures
        forall|i: int, j: int| 0 <= i < j < r@.len() ==> r@[i].id@ != r@[j].id@,
        forall|i: int|
            0 <= i < r@.len() ==> exists|c: int, j: int|
                0 <= c < seg.clusters@.len() && 0 <= j < seg.clusters@[c]@.len() && (
                #[trigger] r@[i]).id@ == seg.clusters@[c]@[j]@.id && opt_attrs_view(
                    r@[i].attributes,
                ) == seg.clusters@[c]@[j]@.attributes && crate::filter::passes_filter(
                    filter_view(filter),
                    seg.clusters@[c]@[j]@.attributes,
                ),
        forall|a: int, j: int|
            0 <= a < probes@.len() && 0 <= j < seg.clusters@[probes@[a] as int]@.len()
                && crate::filter::passes_filter(
                filter_view(filter),
                (#[trigger] seg.clusters@[probes@[a] as int]@[j])@.attributes,
            ) ==> exists|i: int|
                0 <= i < r@.len() && (#[trigger] r@[i]).id@ == seg.clusters@[probes@[a] as int]@[j]@.id,
{
    let mut out: Vec<crate::types::SearchResult> = Vec::new();
    let np = probes.len();
    let mut a: usize = 0;
    while a < np
        invariant
            a <= np,
            forall|i: int, i2: int| 0 <= i < i2 < out@.len() ==> out@[i].id@ != out@[i2].id@,
            forall|i: int|
                0 <= i < out@.len() ==> exists|a2: int, j2: int|
                    0 <= a2 < a && 0 <= j2 < seg.clusters@[probes@[a2] as int]@.len() && (
                    #[trigger] out@[i]).id@ == seg.clusters@[probes@[a2] as int]@[j2]@.id,
            forall|i: int|
                0 <= i < out@.len() ==> exists|c: int, j: int|
                    0 <= c < seg.clusters@.len() && 0 <= j < seg.clusters@[c]@.len() && (
                    #[trigger] out@[i]).id@ == seg.clusters@[c]@[j]@.id && opt_attrs_view(
                        out@[i].attributes,
                    ) == seg.clusters@[c]@[j]@.attributes && crate::filter::passes_filter(
                        filter_view(filter),
                        seg.clusters@[c]@[j]@.attributes,
                    ),
            forall|a2: int, j: int|
                0 <= a2 < a && 0 <= j < seg.clusters@[probes@[a2] as int]@.len()
                    && crate::filter::passes_filter(
                    filter_view(filter),
                    (#[trigger] seg.clusters@[probes@[a2] as int]@[j])@.attributes,
                ) ==> exists|i: int|
                    0 <= i < out@.len() && (#[trigger] out@[i]).id@ == seg.clusters@[probes@[a2] as int]@[j]@.id,
        decreases np - a,
    {
        let p = probes[a];
        let cl = &seg.clusters[p];
        let cn = cl.len();
        let mut j: usize = 0;
        while j < cn
            invariant
                j <= cn,
                cn == cl@.len(),
                cl == &seg.clusters[p as int],
                p < seg.clusters@.len(),
                a < np,
                p == probes@[a as int],
                forall|i: int, i2: int| 0 <= i < i2 < out@.len() ==> out@[i].id@ != out@[i2].id@,
                forall|i: int|
                    0 <= i < out@.len() ==> exists|a2: int, j2: int|
                        0 <= a2 <= a && 0 <= j2 < seg.clusters@[probes@[a2] as int]@.len() && (a2
                            < a || j2 < j) && (#[trigger] out@[i]).id@ == seg.clusters@[probes@[a2] as int]@[j2]@.id,
                forall|i: int|
                    0 <= i < out@.len() ==> exists|c: int, j2: int|
                        0 <= c < seg.clusters@.len() && 0 <= j2 < seg.clusters@[c]@.len() && (
                        #[trigger] out@[i]).id@ == seg.clusters@[c]@[j2]@.id && opt_attrs_view(
                            out@[i].attributes,
                        ) == seg.clusters@[c]@[j2]@.attributes && crate::filter::passes_filter(
                            filter_view(filter),
                            seg.clusters@[c]@[j2]@.attributes,
                        ),
                forall|a2: int, j2: int|
                    0 <= a2 < a && 0 <= j2 < seg.clusters@[probes@[a2] as int]@.len()
                        && crate::filter::passes_filter(
                        filter_view(filter),
                        (#[trigger] seg.clusters@[probes@[a2] as int]@[j2])@.attributes,
                    ) ==> exists|i: int|
                        0 <= i < out@.len() && (#[trigger] out@[i]).id@ == seg.clusters@[probes@[a2] as int]@[j2]@.id,
                forall|j2: int|
                    0 <= j2 < j && crate::filter::passes_filter(
                        filter_view(filter),
                        (#[trigger] cl@[j2])@.attributes,
                    ) ==> exists|i: int|
                        0 <= i < out@.len() && (#[trigger] out@[i]).id@ == cl@[j2]@.id,
            decreases cn - j,
        {
            let e = &cl[j];
            if entry_passes(filter, e) {
                let score = scorer.score(query, &e.values, metric);
                let attributes = match &e.attributes {
                    Some(at) => Some(clone_attrs(at)),
                    None => None,
                };
                let sr = crate::types::SearchResult { id: e.id.clone(), score, attributes };
                proof {
                    assert(opt_attrs_view(sr.attributes) == cl@[j as int]@.attributes);
                }
                let ghost out0 = out@;
                out.push(sr);
                proof {
                    assert(out@[out@.len() - 1].id@ == cl@[j as int]@.id);
                    assert(opt_attrs_view(out@[out@.len() - 1].attributes) == cl@[j as int]@.attributes);
                    assert(out@[out@.len() - 1].id@ == seg.clusters@[probes@[a as int] as int]@[j as int]@.id);
                    assert forall|i: int|
                        0 <= i < out@.len() implies exists|a2: int, j2: int|
                        0 <= a2 <= a && 0 <= j2 < seg.clusters@[probes@[a2] as int]@.len() && (a2
                            < a || j2 < j + 1) && (#[trigger] out@[i]).id@ == seg.clusters@[probes@[a2] as int]@[j2]@.id by {
                        if i == out@.len() - 1 {
                            assert(0 <= a < np && 0 <= j < seg.clusters@[probes@[a as int] as int]@.len()
                                && out@[i].id@ == seg.clusters@[probes@[a as int] as int]@[j as int]@.id);
                        } else {
                            assert(out@[i] == out0[i]);
                        }
                    }
                    assert forall|i: int, i2: int|
                        0 <= i < i2 < out@.len() implies out@[i].id@ != out@[i2].id@ by {
                        if i2 == out@.len() - 1 {
                            assert(out@[i] == out0[i]);
                            let (wa, wj): (int, int) = choose|wa: int, wj: int|
                                0 <= wa <= a && 0 <= wj < seg.clusters@[probes@[wa] as int]@.len()
                                    && (wa < a || wj < j) && (#[trigger] out0[i]).id@
                                    == seg.clusters@[probes@[wa] as int]@[wj]@.id;
                            if wa < a as int {
                                assert(probes@[wa] != probes@[a as int]);
                                assert(seg.clusters@[probes@[wa] as int]@[wj]@.id
                                    != seg.clusters@[probes@[a as int] as int]@[j as int]@.id);
                            } else {
                                assert(seg.clusters@[probes@[wa] as int]@[wj]@.id
                                    != seg.clusters@[probes@[a as int] as int]@[j as int]@.id);
                            }
                        }
                    }
                    assert forall|i: int|
                        0 <= i < out@.len() implies exists|c: int, j2: int|
                        0 <= c < seg.clusters@.len() && 0 <= j2 < seg.clusters@[c]@.len() && (
                        #[trigger] out@[i]).id@ == seg.clusters@[c]@[j2]@.id && opt_attrs_view(
                            out@[i].attributes,
                        ) == seg.clusters@[c]@[j2]@.attributes && crate::filter::passes_filter(
                            filter_view(filter),
                            seg.clusters@[c]@[j2]@.attributes,
                        ) by {
                        if i == out@.len() - 1 {
                            assert(out@[i].id@ == seg.clusters@[p as int]@[j as int]@.id
                                && opt_attrs_view(out@[i].attributes) == seg.clusters@[p as int]@[j as int]@.attributes
                                && crate::filter::passes_filter(
                                filter_view(filter),
                                seg.clusters@[p as int]@[j as int]@.attributes,
                            ));
                        } else {
                            assert(out@[i] == out0[i]);
                        }
                    }
                    assert forall|a2: int, j2: int|
                        0 <= a2 < a && 0 <= j2 < seg.clusters@[probes@[a2] as int]@.len()
                            && crate::filter::passes_filter(
                            filter_view(filter),
                            (#[trigger] seg.clusters@[probes@[a2] as int]@[j2])@.attributes,
                        ) implies exists|i: int|
                        0 <= i < out@.len() && (#[trigger] out@[i]).id@ == seg.clusters@[probes@[a2] as int]@[j2]@.id by {
                        let w = choose|w: int|
                            0 <= w < out0.len() && (#[trigger] out0[w]).id@ == seg.clusters@[probes@[a2] as int]@[j2]@.id;
                        assert((out@[w]).id@ == seg.clusters@[probes@[a2] as int]@[j2]@.id);
                    }
                    assert forall|j2: int|
                        0 <= j2 < j + 1 && crate::filter::passes_filter(
                            filter_view(filter),
                            (#[trigger] cl@[j2])@.attributes,
                        ) implies exists|i: int|
                        0 <= i < out@.len() && (#[trigger] out@[i]).id@ == cl@[j2]@.id by {
                        if j2 == j as int {
                            assert((out@[out@.len() - 1]).id@ == cl@[j2]@.id);
                        } else {
                            let w = choose|w: int|
                                0 <= w < out0.len() && (#[trigger] out0[w]).id@ == cl@[j2]@.id;
                            assert((out@[w]).id@ == cl@[j2]@.id);
                        }
                    }
                }
            }
            j = j + 1;
        }
        a = a + 1;
    }
    out
}

/// Search a segment: pick the probe clusters, scan and filter them, and
/// keep the `top_k` best-scoring survivors.
pub fn search_segment<S: Scorer>(
    seg: &Segment,
    query: &Vec<u32>,
    top_k: usize,
    nprobe: usize,
    filter: Option<&crate::types::Filter>,
    metric: DistanceMetric,
    scorer: &S,
) -> (r: Vec<crate::types::SearchResult>)
    requires
        seg.clusters@.len() == seg.centroids@.len(),
        forall|c1: int, j1: int, c2: int, j2: int|
            0 <= c1 < seg.clusters@.len() && 0 <= j1 < seg.clusters@[c1]@.len() && 0 <= c2
                < seg.clusters@.len() && 0 <= j2 < seg.clusters@[c2]@.len() && (c1 != c2 || j1
                != j2) ==> (#[trigger] seg.clusters@[c1]@[j1]@.id) != (
            #[trigger] seg.clusters@[c2]@[j2]@.id),
    ensures
        crate::ranking::sorted_by_score(r@),
        r@.len() <= top_k,
        forall|i: int, j: int| 0 <= i < j < r@.len() ==> r@[i].id@ != r@[j].id@,
        forall|i: int|
            0 <= i < r@.len() ==> exists|c: int, j: int|
                0 <= c < seg.clusters@.len() && 0 <= j < seg.clusters@[c]@.len() && (
                #[trigger] r@[i]).id@ == seg.clusters@[c]@[j]@.id && opt_attrs_view(
                    r@[i].attributes,
                ) == seg.clusters@[c]@[j]@.attributes && crate::filter::passes_filter(
                    filter_view(filter),
                    seg.clusters@[c]@[j]@.attributes,
                ),
        nprobe >= seg.clusters@.len() ==> forall|c: int, j: int|
            0 <= c < seg.clusters@.len() && 0 <= j < seg.clusters@[c]@.len()
                && crate::filter::passes_filter(
                filter_view(filter),
                (#[trigger] seg.clusters@[c]@[j])@.attributes,
            ) ==> (exists|i: int|
                0 <= i < r@.len() && (#[trigger] r@[i]).id@ == seg.clusters@[c]@[j]@.id)
                || r@.len() == top_k,
{
    broadcast use vstd::seq_lib::group_to_multiset_ensures;

    let probes = select_probes(&seg.centroids, query, nprobe, metric, scorer);
    let cands = scan_clusters(seg, &probes, query, filter, metric, scorer);
    let ghost cands0 = cands@;
    let out = crate::ranking::take_top_k(cands, top_k);
    proof {
        crate::ranking::lemma_subset_distinct_ids(out@, cands0);
        assert forall|i: int|
            0 <= i < out@.len() implies exists|c: int, j: int|
            0 <= c < seg.clusters@.len() && 0 <= j < seg.clusters@[c]@.len() && (
            #[trigger] out@[i]).id@ == seg.clusters@[c]@[j]@.id && opt_attrs_view(
                out@[i].attributes,
            ) == seg.clusters@[c]@[j]@.attributes && crate::filter::passes_filter(
                filter_view(filter),
                seg.clusters@[c]@[j]@.attributes,
            ) by {
            let x = out@[i];
            assert(out@.to_multiset().count(x) > 0);
            assert(cands0.to_multiset().count(x) > 0);
            assert(cands0.contains(x));
            let w = choose|w: int| 0 <= w < cands0.len() && cands0[w] == x;
            assert(cands0[w] == x);
        }
        if nprobe >= seg.clusters@.len() {
            assert forall|c: int, j: int|
                0 <= c < seg.clusters@.len() && 0 <= j < seg.clusters@[c]@.len()
                    && crate::filter::passes_filter(
                    filter_view(filter),
                    (#[trigger] seg.clusters@[c]@[j])@.attributes,
                ) implies (exists|i: int|
                0 <= i < out@.len() && (#[trigger] out@[i]).id@ == seg.clusters@[c]@[j]@.id)
                || out@.len() == top_k by {
                assert(probes_cover(probes@, seg.clusters@.len() as int));
                assert(probes@.contains(c as usize));
                let a = choose|a: int| 0 <= a < probes@.len() && probes@[a] == c as usize;
                assert(exists|i: int|
                    0 <= i < cands0.len() && (#[trigger] cands0[i]).id@ == seg.clusters@[c]@[j]@.id);
                let w = choose|w: int|
                    0 <= w < cands0.len() && (#[trigger] cands0[w]).id@ == seg.clusters@[c]@[j]@.id;
                if out@.len() < top_k {
                    assert(out@.len() == cands0.len());
                    assert(out@.to_multiset() == cands0.to_multiset());
                    assert(cands0.to_multiset().count(cands0[w]) > 0);
                    assert(out@.to_multiset().count(cands0[w]) > 0);
                    assert(out@.contains(cands0[w]));
                    let v = choose|v: int| 0 <= v < out@.len() && out@[v] == cands0[w];
                    assert(out@[v].id@ == seg.clusters@[c]@[j]@.id);
                }
            }
        }
    }
    out
}


impl Engine {
    /// Execute a query against a namespace, combining a WAL scan with a
    /// segment search under the requested consistency level.
    ///
    /// Under strong consistency the results never contain a tombstoned id,
    /// and every live, filter-passing WAL entry appears unless `top_k`
    /// results were already found. Under eventual consistency the results
    /// come from the active segment alone; when every cluster is probed,
    /// every filter-passing segment entry appears unless `top_k` results
    /// were already found.
    #[verifier::rlimit(100)]
    pub fn execute_query<S: Scorer>(
        &self,
        namespace: &String,
        query: &Vec<u32>,
        top_k: usize,
        nprobe: usize,
        filter: Option<&crate::types::Filter>,
        consistency: crate::types::ConsistencyLevel,
        scorer: &S,
    ) -> (r: Result<QueryResponse>)
        requires
            self.wf(),
        ensures
            match r {
                Ok(resp) => {
                    let idx = self.index_of(namespace@);
                    let ns = self.namespaces@[idx];
                    let m = replay(frags_view(ns.wal@));
                    let fv = filter_view(filter);
                    &&& self.has_ns(namespace@)
                    &&& query@.len() == ns.meta.dimensions
                    &&& resp.scanned_fragments == (if consistency is Strong {
                        ns.wal@.len() as int
                    } else {
                        0
                    })
                    &&& resp.scanned_segments == (if ns.segment is Some {
                        1int
                    } else {
                        0
                    })
                    &&& crate::ranking::sorted_by_score(resp.results@)
                    &&& resp.results@.len() <= top_k
                    &&& forall|i: int, j: int|
                        0 <= i < j < resp.results@.len() ==> (#[trigger] resp.results@[i]).id@ != (
                        #[trigger] resp.results@[j]).id@
                    &&& (consistency is Strong ==> {
                        &&& forall|i: int|
                            0 <= i < resp.results@.len() ==> !m.tombstones.contains(
                                (#[trigger] resp.results@[i]).id@,
                            )
                        &&& forall|id: Seq<char>|
                            m.live.contains_key(id) && crate::filter::passes_filter(
                                fv,
                                m.live[id].attributes,
                            ) ==> (exists|i: int|
                                0 <= i < resp.results@.len() && (#[trigger] resp.results@[i]).id@
                                    == id) || resp.results@.len() == top_k
                        &&& forall|i: int|
                            0 <= i < resp.results@.len() ==> (m.live.contains_key(
                                (#[trigger] resp.results@[i]).id@,
                            ) && opt_attrs_view(resp.results@[i].attributes)
                                == m.live[resp.results@[i].id@].attributes
                                && crate::filter::passes_filter(
                                fv,
                                m.live[resp.results@[i].id@].attributes,
                            )) || (!m.live.contains_key(resp.results@[i].id@)
                                && ns.segment is Some && exists|c: int, j: int|
                                0 <= c < ns.segment->0.clusters@.len() && 0 <= j
                                    < ns.segment->0.clusters@[c]@.len() && (
                                #[trigger] ns.segment->0.clusters@[c]@[j])@.id
                                    == resp.results@[i].id@ && opt_attrs_view(
                                    resp.results@[i].attributes,
                                ) == ns.segment->0.clusters@[c]@[j]@.attributes
                                    && crate::filter::passes_filter(
                                    fv,
                                    ns.segment->0.clusters@[c]@[j]@.attributes,
                                ))
                        &&& ((ns.segment is Some && nprobe >= ns.segment->0.clusters@.len())
                            ==> forall|c: int, j: int|
                            0 <= c < ns.segment->0.clusters@.len() && 0 <= j
                                < ns.segment->0.clusters@[c]@.len() && crate::filter::passes_filter(
                                fv,
                                (#[trigger] ns.segment->0.clusters@[c]@[j])@.attributes,
                            ) && !m.live.contains_key(ns.segment->0.clusters@[c]@[j]@.id)
                                && !m.tombstones.contains(ns.segment->0.clusters@[c]@[j]@.id)
                                ==> (exists|i: int|
                                0 <= i < resp.results@.len() && (#[trigger] resp.results@[i]).id@
                                    == ns.segment->0.clusters@[c]@[j]@.id) || resp.results@.len()
                                == top_k)
                    })
                    &&& (consistency is Eventual ==> {
                        &&& forall|i: int|
                            0 <= i < resp.results@.len() ==> ns.segment is Some && exists|
                                c: int,
                                j: int,
                            |
                                0 <= c < ns.segment->0.clusters@.len() && 0 <= j
                                    < ns.segment->0.clusters@[c]@.len() && (
                                #[trigger] ns.segment->0.clusters@[c]@[j])@.id == (
                                #[trigger] resp.results@[i]).id@ && opt_attrs_view(
                                    resp.results@[i].attributes,
                                ) == ns.segment->0.clusters@[c]@[j]@.attributes
                                    && crate::filter::passes_filter(
                                    fv,
                                    ns.segment->0.clusters@[c]@[j]@.attributes,
                                )
                        &&& ((ns.segment is Some && nprobe >= ns.segment->0.clusters@.len())
                            ==> forall|c: int, j: int|
                            0 <= c < ns.segment->0.clusters@.len() && 0 <= j
                                < ns.segment->0.clusters@[c]@.len() && crate::filter::passes_filter(
                                fv,
                                (#[trigger] ns.segment->0.clusters@[c]@[j])@.attributes,
                            ) ==> (exists|i: int|
                                0 <= i < resp.results@.len() && (#[trigger] resp.results@[i]).id@
                                    == ns.segment->0.clusters@[c]@[j]@.id) || resp.results@.len()
                                == top_k)
                    })
                },
                Err(ZeppelinError::NamespaceNotFound { .. }) => !self.has_ns(namespace@),
                Err(ZeppelinError::DimensionMismatch { expected, actual }) => {
                    &&& self.has_ns(namespace@)
                    &&& expected == self.namespaces@[self.index_of(namespace@)].meta.dimensions
                    &&& actual == query@.len()
                    &&& actual != expected
                },
                _ => false,
            },
    {
        broadcast use vstd::seq_lib::group_to_multiset_ensures;

        let idx = match self.find_index(namespace) {
            Some(i) => i,
            None => {
                return Err(ZeppelinError::NamespaceNotFound { namespace: namespace.clone() });
            },
        };
        let ns = &self.namespaces[idx];
        if query.len() != ns.meta.dimensions {
            return Err(
                ZeppelinError::DimensionMismatch {
                    expected: ns.meta.dimensions,
                    actual: query.len(),
                },
            );
        }
        let metric = ns.meta.distance_metric;
        let scanned_segments: usize = match &ns.segment {
            Some(_) => 1,
            None => 0,
        };
        match consistency {
            crate::types::ConsistencyLevel::Eventual => {
                let seg_results = match &ns.segment {
                    Some(seg) => search_segment(seg, query, top_k, nprobe, filter, metric, scorer),
                    None => Vec::new(),
                };
                let ghost seg_results0 = seg_results@;
                let empty_ids: Vec<String> = Vec::new();
                let results = crate::ranking::merge_results(
                    Vec::new(),
                    seg_results,
                    &empty_ids,
                    &empty_ids,
                    top_k,
                    crate::types::ConsistencyLevel::Eventual,
                );
                proof {
                    assert(results@ =~= seg_results0);
                }
                Ok(QueryResponse { results, scanned_fragments: 0, scanned_segments })
            },
            crate::types::ConsistencyLevel::Strong => {
                // the segment candidates are not cut to top_k here: WAL-shadowed
                // and tombstoned ids leave at the merge, before the final cut,
                // so surviving segment entries are never crowded out early
                let mut seg_cands: Vec<crate::types::SearchResult> = Vec::new();
                let ghost mut probes_g: Seq<usize> = Seq::empty();
                match &ns.segment {
                    Some(seg) => {
                        let probes = select_probes(&seg.centroids, query, nprobe, metric, scorer);
                        proof {
                            probes_g = probes@;
                        }
                        seg_cands = scan_clusters(seg, &probes, query, filter, metric, scorer);
                    },
                    None => {},
                }
                let (live, tombs) = replay_fragments(&ns.wal);
                let ghost m = replay(frags_view(ns.wal@));
                let ghost live0 = live@;
                let live_ids = ids_of(&live);
                let wal_results = wal_scan(live, query, filter, metric, scorer);
                let ghost wr0 = wal_results@;
                let ghost sr0 = seg_cands@;
                let scanned_fragments = ns.wal.len();
                let results = crate::ranking::merge_results(
                    wal_results,
                    seg_cands,
                    &live_ids,
                    &tombs,
                    top_k,
                    crate::types::ConsistencyLevel::Strong,
                );
                proof {
                    lemma_replay_disjoint(frags_view(ns.wal@));
                    let excluded = crate::ranking::ids_set(live_ids@).union(
                        crate::ranking::ids_set(tombs@),
                    );
                    let mm = crate::ranking::merged_spec(wr0, sr0, excluded);
                    let pred = |sr: crate::types::SearchResult| !excluded.contains(sr.id@);
                    let filtered = sr0.filter(pred);
                    // the merged pool holds pairwise distinct ids: WAL results
                    // are distinct, surviving segment results are distinct, and
                    // the merge excluded every live id from the segment side
                    crate::ranking::lemma_filter_distinct_ids(sr0, pred);
                    assert forall|i2: int, j2: int|
                        0 <= i2 < j2 < mm.len() implies mm[i2].id@ != mm[j2].id@ by {
                        if i2 < wr0.len() && j2 >= wr0.len() {
                            let u = choose|u: int|
                                0 <= u < live0.len() && wr0[i2].id@ == (#[trigger] live0[u])@.id
                                    && crate::filter::passes_filter(
                                    filter_view(filter),
                                    live0[u]@.attributes,
                                );
                            assert(live_ids@[u]@ == live0[u]@.id);
                            assert(crate::ranking::ids_set(live_ids@).contains(wr0[i2].id@));
                            assert(mm[j2] == filtered[j2 - wr0.len()]);
                            sr0.lemma_filter_pred(pred, j2 - wr0.len());
                            assert(!excluded.contains(mm[j2].id@));
                        } else if i2 >= wr0.len() {
                            assert(mm[i2] == filtered[i2 - wr0.len()]);
                            assert(mm[j2] == filtered[j2 - wr0.len()]);
                        } else {
                            assert(mm[i2] == wr0[i2] && mm[j2] == wr0[j2]);
                        }
                    }
                    crate::ranking::lemma_subset_distinct_ids(results@, mm);
                    assert forall|i: int|
                        0 <= i < results@.len() implies !m.tombstones.contains(
                        (#[trigger] results@[i]).id@,
                    ) && ((m.live.contains_key(results@[i].id@) && opt_attrs_view(
                        results@[i].attributes,
                    ) == m.live[results@[i].id@].attributes && crate::filter::passes_filter(
                        filter_view(filter),
                        m.live[results@[i].id@].attributes,
                    )) || (!m.live.contains_key(results@[i].id@) && ns.segment is Some && exists|
                        c: int,
                        j: int,
                    |
                        0 <= c < ns.segment->0.clusters@.len() && 0 <= j
                            < ns.segment->0.clusters@[c]@.len() && (
                        #[trigger] ns.segment->0.clusters@[c]@[j])@.id == results@[i].id@
                            && opt_attrs_view(results@[i].attributes)
                            == ns.segment->0.clusters@[c]@[j]@.attributes
                            && crate::filter::passes_filter(
                            filter_view(filter),
                            ns.segment->0.clusters@[c]@[j]@.attributes,
                        ))) by {
                        let x = results@[i];
                        assert(results@.to_multiset().count(x) > 0);
                        assert(mm.to_multiset().count(x) > 0);
                        assert(mm.contains(x));
                        let w = choose|w: int| 0 <= w < mm.len() && mm[w] == x;
                        if w < wr0.len() {
                            assert(wr0[w] == x);
                            let j = choose|j: int|
                                0 <= j < live0.len() && x.id@ == (#[trigger] live0[j])@.id
                                    && opt_attrs_view(x.attributes) == live0[j]@.attributes
                                    && crate::filter::passes_filter(
                                    filter_view(filter),
                                    live0[j]@.attributes,
                                );
                            assert(m.live.contains_key(x.id@));
                            assert(m.live[x.id@] == live0[j]@);
                        } else {
                            assert(filtered[w - wr0.len()] == x);
                            sr0.lemma_filter_pred(pred, w - wr0.len());
                            assert(!excluded.contains(x.id@));
                            if m.tombstones.contains(x.id@) {
                                let t = choose|t: int|
                                    0 <= t < tombs@.len() && (#[trigger] tombs@[t])@ == x.id@;
                                assert(crate::ranking::ids_set(tombs@).contains(x.id@));
                            }
                            if m.live.contains_key(x.id@) {
                                let u = choose|u: int|
                                    0 <= u < live0.len() && (#[trigger] live0[u])@.id == x.id@;
                                assert(live_ids@[u]@ == x.id@);
                                assert(crate::ranking::ids_set(live_ids@).contains(x.id@));
                            }
                            assert(filtered.contains(x));
                            sr0.lemma_filter_contains_rev(pred, x);
                            assert(sr0.contains(x));
                            let v = choose|v: int| 0 <= v < sr0.len() && sr0[v] == x;
                            assert(sr0[v] == x);
                        }
                    }
                    if ns.segment is Some && nprobe >= ns.segment->0.clusters@.len() {
                        let seg = ns.segment->0;
                        assert forall|c: int, j: int|
                            0 <= c < seg.clusters@.len() && 0 <= j < seg.clusters@[c]@.len()
                                && crate::filter::passes_filter(
                                filter_view(filter),
                                (#[trigger] seg.clusters@[c]@[j])@.attributes,
                            ) && !m.live.contains_key(seg.clusters@[c]@[j]@.id)
                                && !m.tombstones.contains(
                                seg.clusters@[c]@[j]@.id,
                            ) implies (exists|i: int|
                            0 <= i < results@.len() && (#[trigger] results@[i]).id@
                                == seg.clusters@[c]@[j]@.id) || results@.len() == top_k by {
                            if results@.len() < top_k {
                                let id = seg.clusters@[c]@[j]@.id;
                                assert(probes_g.contains(c as usize));
                                let a = choose|a: int|
                                    0 <= a < probes_g.len() && probes_g[a] == c as usize;
                                assert(exists|v: int|
                                    0 <= v < sr0.len() && (#[trigger] sr0[v]).id@ == id);
                                let v = choose|v: int|
                                    0 <= v < sr0.len() && (#[trigger] sr0[v]).id@ == id;
                                let x = sr0[v];
                                if crate::ranking::ids_set(live_ids@).contains(id) {
                                    let u = choose|u: int|
                                        0 <= u < live_ids@.len() && #[trigger] live_ids@[u]@ == id;
                                    assert(live0[u]@.id == id);
                                    assert(m.live.contains_key(id));
                                }
                                if crate::ranking::ids_set(tombs@).contains(id) {
                                    let t = choose|t: int|
                                        0 <= t < tombs@.len() && #[trigger] tombs@[t]@ == id;
                                    assert(m.tombstones.contains(id));
                                }
                                assert(pred(x));
                                sr0.lemma_filter_contains(pred, v);
                                assert(filtered.contains(x));
                                let fw = choose|fw: int|
                                    0 <= fw < filtered.len() && filtered[fw] == x;
                                assert(mm[wr0.len() + fw] == x);
                                assert(mm.contains(x));
                                assert(mm.to_multiset().count(x) > 0);
                                assert(results@.len() == mm.len());
                                assert(results@.to_multiset().count(x) > 0);
                                assert(results@.contains(x));
                                let ii = choose|ii: int|
                                    0 <= ii < results@.len() && results@[ii] == x;
                                assert(results@[ii].id@ == id);
                            }
                        }
                    }
                    assert forall|id: Seq<char>|
                        m.live.contains_key(id) && crate::filter::passes_filter(
                            filter_view(filter),
                            m.live[id].attributes,
                        ) implies (exists|i: int|
                        0 <= i < results@.len() && (#[trigger] results@[i]).id@ == id)
                        || results@.len() == top_k by {
                        if results@.len() < top_k {
                            let j = choose|j: int|
                                0 <= j < live0.len() && (#[trigger] live0[j])@.id == id;
                            assert(live0[j]@ == m.live[id]);
                            assert(crate::filter::passes_filter(
                                filter_view(filter),
                                live0[j]@.attributes,
                            ));
                            let a = choose|a: int|
                                0 <= a < wr0.len() && (#[trigger] wr0[a]).id@ == live0[j]@.id;
                            let x = wr0[a];
                            assert(mm[a] == x);
                            assert(mm.contains(x));
                            assert(mm.to_multiset().count(x) > 0);
                            assert(results@.len() == mm.len());
                            assert(results@.to_multiset().count(x) > 0);
                            assert(results@.contains(x));
                            let v = choose|v: int| 0 <= v < results@.len() && results@[v] == x;
                            assert(results@[v].id@ == id);
                        }
                    }
                }
                Ok(
                    QueryResponse {
                        results,
                        scanned_fragments,
                        scanned_segments,
                    },
                )
            },
        }
    }
}



} // verus!
