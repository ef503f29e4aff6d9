//! The manifest: per-namespace source of truth for live WAL fragments and
//! compacted segments.

use crate::codec::{
    enc_items, enc_list, enc_u128, enc_u64, lemma_enc_items_push, lemma_list_round_trip,
    lemma_str_round_trip, lemma_u128_round_trip, lemma_u64_round_trip, put_str, put_u128, put_u64,
    rd_str, rd_u128, rd_u64, sp_items_n, sp_items_prepend, sp_list, sp_str, sp_u128, sp_u64,
    str_ok,
};
use crate::errors::{Result, ZeppelinError};
use crate::outside::now_millis;
use vstd::prelude::*;

verus! {

/// A reference to a WAL fragment stored in the object store.
#[derive(Debug, Clone, Copy, PartialEq, Eq, Structural)]
pub struct FragmentRef {
    pub id: u128,
    pub vector_count: usize,
    pub delete_count: usize,
}

/// A reference to an IVF segment stored in the object store.
#[derive(Debug, Clone)]
pub struct SegmentRef {
    pub id: String,
    pub vector_count: usize,
    pub cluster_count: usize,
}

/// The manifest is the single source of truth for what data exists in a
/// namespace. It tracks WAL fragments and compacted segments.
#[derive(Debug, Clone)]
pub struct Manifest {
    /// Uncompacted WAL fragment references, in order.
    pub fragments: Vec<FragmentRef>,
    /// Compacted segment references.
    pub segments: Vec<SegmentRef>,
    /// Identifier of the last fragment that was compacted. Fragments with
    /// identifiers at or below this have been incorporated into segments.
    pub compaction_watermark: Option<u128>,
    /// The currently active segment (latest).
    pub active_segment: Option<String>,
    /// Last time the manifest was updated, in milliseconds since the epoch.
    pub updated_at: i64,
}

impl Manifest {
    /// The manifest invariant: fragment identifiers are strictly ascending
    /// and all lie strictly above the compaction watermark, and the active
    /// segment, when present, is the most recent entry in `segments`.
    pub open spec fn wf(self) -> bool {
        &&& forall|i: int, j: int|
            0 <= i < j < self.fragments@.len() ==> #[trigger] self.fragments@[i].id
                < #[trigger] self.fragments@[j].id
        &&& match self.compaction_watermark {
            Some(w) => forall|i: int|
                0 <= i < self.fragments@.len() ==> #[trigger] self.fragments@[i].id > w,
            None => true,
        }
        &&& match self.active_segment {
            Some(s) => self.segments@.len() > 0 && self.segments@.last().id@ == s@,
            None => self.segments@.len() == 0,
        }
    }

    /// The identifier every newly appended fragment must exceed.
    pub open spec fn frontier(self) -> int {
        let w: int = match self.compaction_watermark {
            Some(w) => w as int,
            None => -1,
        };
        if self.fragments@.len() > 0 && self.fragments@.last().id > w {
            self.fragments@.last().id as int
        } else {
            w
        }
    }

    /// Create an empty manifest.
    pub fn new() -> (r: Self)
        ensures
            r.fragments@.len() == 0,
            r.segments@.len() == 0,
            r.compaction_watermark is None,
            r.active_segment is None,
            r.wf(),
    {
        Manifest {
            fragments: Vec::new(),
            segments: Vec::new(),
            compaction_watermark: None,
            active_segment: None,
            updated_at: now_millis(),
        }
    }

    /// Add a fragment reference.
    pub fn add_fragment(&mut self, fref: FragmentRef)
        requires
            old(self).wf(),
            fref.id > old(self).frontier(),
        ensures
            final(self).wf(),
            final(self).fragments@ == old(self).fragments@.push(fref),
            final(self).segments == old(self).segments,
            final(self).compaction_watermark == old(self).compaction_watermark,
            final(self).active_segment == old(self).active_segment,
            final(self).frontier() == fref.id,
    {
        self.fragments.push(fref);
        self.updated_at = now_millis();
    }

    /// Remove compacted fragments (those at or below the watermark) and
    /// advance the compaction watermark.
    pub fn remove_compacted_fragments(&mut self, watermark: u128)
        requires
            old(self).wf(),
        ensures
            final(self).wf(),
            final(self).fragments@ == old(self).fragments@.filter(
                |f: FragmentRef| f.id > watermark,
            ),
            final(self).segments == old(self).segments,
            final(self).compaction_watermark == Some(watermark),
            final(self).active_segment == old(self).active_segment,
    {
        let pred = |f: FragmentRef| f.id > watermark;
        let n = self.fragments.len();
        let mut kept: Vec<FragmentRef> = Vec::new();
        let mut i: usize = 0;
        proof {
            assert(self.fragments@.take(0) =~= Seq::<FragmentRef>::empty());
            assert(Seq::<FragmentRef>::empty().filter(|f: FragmentRef| f.id > watermark)
                =~= Seq::<FragmentRef>::empty()) by {
                reveal_with_fuel(Seq::filter, 2);
            }
        }
        while i < n
            invariant
                i <= n,
                n == self.fragments@.len(),
                kept@ == self.fragments@.take(i as int).filter(|f: FragmentRef| f.id > watermark),
                forall|a: int, b: int|
                    0 <= a < b < self.fragments@.len() ==> #[trigger] self.fragments@[a].id
                        < #[trigger] self.fragments@[b].id,
            decreases n - i,
        {
            proof {
                let s = self.fragments@;
                let p = |f: FragmentRef| f.id > watermark;
                assert(s.take(i + 1).drop_last() =~= s.take(i as int));
                assert(s.take(i + 1).last() == s[i as int]);
                reveal_with_fuel(Seq::filter, 1);
                assert(s.take(i + 1).filter(p) == if p(s[i as int]) {
                    s.take(i as int).filter(p).push(s[i as int])
                } else {
                    s.take(i as int).filter(p)
                });
            }
            let f = self.fragments[i];
            if f.id > watermark {
                kept.push(f);
            }
            i = i + 1;
        }
        proof {
            assert(self.fragments@.take(n as int) =~= self.fragments@);
        }
        self.fragments = kept;
        self.compaction_watermark = Some(watermark);
        self.updated_at = now_millis();
        proof {
            let s = old(self).fragments@;
            let p = |f: FragmentRef| f.id > watermark;
            assert forall|a: int|
                0 <= a < self.fragments@.len() implies #[trigger] self.fragments@[a].id
                > watermark by {
                s.lemma_filter_pred(p, a);
            }
            lemma_filter_ascending(s, p);
        }
    }

    /// Add a segment reference and make it the active segment.
    pub fn add_segment(&mut self, sref: SegmentRef)
        requires
            old(self).wf(),
        ensures
            final(self).wf(),
            final(self).segments@ == old(self).segments@.push(sref),
            final(self).fragments == old(self).fragments,
            final(self).compaction_watermark == old(self).compaction_watermark,
            match final(self).active_segment {
                Some(s) => s@ == sref.id@,
                None => false,
            },
    {
        self.active_segment = Some(sref.id.clone());
        self.segments.push(sref);
        self.updated_at = now_millis();
    }

    /// Get uncompacted fragments (those after the compaction watermark).
    pub fn uncompacted_fragments(&self) -> (r: &Vec<FragmentRef>)
        ensures
            r == self.fragments,
    {
        &self.fragments
    }

    /// Total vector count across all segments.
    pub fn segment_vector_count(&self) -> (r: usize)
        requires
            sum_vector_counts(self.segments@) <= usize::MAX,
        ensures
            r == sum_vector_counts(self.segments@),
    {
        let n = self.segments.len();
        let mut total: usize = 0;
        let mut i: usize = 0;
        proof {
            assert(self.segments@.take(0) =~= Seq::<SegmentRef>::empty());
        }
        while i < n
            invariant
                i <= n,
                n == self.segments@.len(),
                total == sum_vector_counts(self.segments@.take(i as int)),
                sum_vector_counts(self.segments@) <= usize::MAX,
            decreases n - i,
        {
            proof {
                assert(self.segments@.take(i + 1).drop_last() =~= self.segments@.take(i as int));
                assert(self.segments@.take(i + 1).last() == self.segments@[i as int]);
                lemma_sum_vector_counts_prefix(self.segments@, i + 1);
            }
            total = total + self.segments[i].vector_count;
            i = i + 1;
        }
        proof {
            assert(self.segments@.take(n as int) =~= self.segments@);
        }
        total
    }
}

/// Filtering a sequence of fragment references with strictly ascending
/// identifiers keeps the identifiers strictly ascending.
proof fn lemma_filter_ascending(s: Seq<FragmentRef>, p: spec_fn(FragmentRef) -> bool)
    requires
        forall|a: int, b: int| 0 <= a < b < s.len() ==> #[trigger] s[a].id < #[trigger] s[b].id,
    ensures
        forall|a: int, b: int|
            0 <= a < b < s.filter(p).len() ==> #[trigger] s.filter(p)[a].id
                < #[trigger] s.filter(p)[b].id,
        forall|j: int| 0 <= j < s.filter(p).len() ==> s.contains(#[trigger] s.filter(p)[j]),
    decreases s.len(),
{
    reveal_with_fuel(Seq::filter, 1);
    if s.len() == 0 {
    } else {
        let sd = s.drop_last();
        let fd = sd.filter(p);
        let f = s.filter(p);
        lemma_filter_ascending(sd, p);
        assert forall|j: int| 0 <= j < f.len() implies s.contains(#[trigger] f[j]) by {
            if p(s.last()) && j == f.len() - 1 {
                assert(f[j] == s[s.len() - 1]);
            } else {
                assert(f[j] == fd[j]);
                assert(sd.contains(fd[j]));
                let w = choose|w: int| 0 <= w < sd.len() && sd[w] == fd[j];
                assert(s[w] == fd[j]);
            }
        }
        assert forall|a: int, b: int|
            0 <= a < b < f.len() implies #[trigger] f[a].id < #[trigger] f[b].id by {
            if p(s.last()) && b == f.len() - 1 {
                assert(f[a] == fd[a]);
                assert(sd.contains(fd[a]));
                let w = choose|w: int| 0 <= w < sd.len() && sd[w] == fd[a];
                assert(s[w].id < s[s.len() - 1].id);
            } else {
                assert(f[a] == fd[a] && f[b] == fd[b]);
            }
        }
    }
}

/// Sum of the per-segment vector counts.
pub open spec fn sum_vector_counts(s: Seq<SegmentRef>) -> int
    decreases s.len(),
{
    if s.len() == 0 {
        0
    } else {
        sum_vector_counts(s.drop_last()) + s.last().vector_count
    }
}

/// A prefix sum never exceeds the whole (the counts are nonnegative).
proof fn lemma_sum_vector_counts_prefix(s: Seq<SegmentRef>, k: int)
    requires
        0 <= k <= s.len(),
    ensures
        sum_vector_counts(s.take(k)) <= sum_vector_counts(s),
        sum_vector_counts(s.take(k)) >= 0,
    decreases s.len() - k, s.len(),
{
    lemma_sum_vector_counts_nonneg(s.take(k));
    if k == s.len() {
        assert(s.take(k) =~= s);
    } else {
        lemma_sum_vector_counts_prefix(s, k + 1);
        assert(s.take(k + 1).drop_last() =~= s.take(k));
        assert(sum_vector_counts(s.take(k + 1)) == sum_vector_counts(s.take(k)) + s.take(
            k + 1,
        ).last().vector_count);
    }
}

proof fn lemma_sum_vector_counts_nonneg(s: Seq<SegmentRef>)
    ensures
        sum_vector_counts(s) >= 0,
    decreases s.len(),
{
    if s.len() > 0 {
        lemma_sum_vector_counts_nonneg(s.drop_last());
    }
}


// ---------------------------------------------------------------------------
// Manifest serialization
// ---------------------------------------------------------------------------

/// Mathematical image of a segment reference.
pub struct SegmentRefV {
    pub id: Seq<char>,
    pub vector_count: usize,
    pub cluster_count: usize,
}

impl View for SegmentRef {
    type V = SegmentRefV;

    open spec fn view(&self) -> SegmentRefV {
        SegmentRefV {
            id: self.id@,
            vector_count: self.vector_count,
            cluster_count: self.cluster_count,
        }
    }
}

/// Mathematical image of a manifest.
pub struct ManifestV {
    pub fragments: Seq<FragmentRef>,
    pub segments: Seq<SegmentRefV>,
    pub compaction_watermark: Option<u128>,
    pub active_segment: Option<Seq<char>>,
    pub updated_at: i64,
}

impl View for Manifest {
    type V = ManifestV;

    open spec fn view(&self) -> ManifestV {
        ManifestV {
            fragments: self.fragments@,
            segments: self.segments@.map_values(|s: SegmentRef| s@),
            compaction_watermark: self.compaction_watermark,
            active_segment: match self.active_segment {
                Some(s) => Some(s@),
                None => None,
            },
            updated_at: self.updated_at,
        }
    }
}

pub open spec fn enc_fref(f: FragmentRef) -> Seq<u8> {
    enc_u128(f.id) + enc_u64(f.vector_count as u64) + enc_u64(f.delete_count as u64)
}

pub open spec fn sp_fref(b: Seq<u8>) -> Option<(FragmentRef, Seq<u8>)> {
    match sp_u128(b) {
        Some((id, r)) => match sp_u64(r) {
            Some((vc, r2)) => match sp_u64(r2) {
                Some((dc, r3)) => if vc <= usize::MAX && dc <= usize::MAX {
                    Some(
                        (
                            FragmentRef {
                                id,
                                vector_count: vc as usize,
                                delete_count: dc as usize,
                            },
                            r3,
                        ),
                    )
                } else {
                    None
                },
                None => None,
            },
            None => None,
        },
        None => None,
    }
}

pub open spec fn f_enc_fref() -> spec_fn(FragmentRef) -> Seq<u8> {
    |f: FragmentRef| enc_fref(f)
}

pub open spec fn g_sp_fref() -> spec_fn(Seq<u8>) -> Option<(FragmentRef, Seq<u8>)> {
    |b: Seq<u8>| sp_fref(b)
}

pub open spec fn ok_fref() -> spec_fn(FragmentRef) -> bool {
    |f: FragmentRef| true
}

pub open spec fn enc_sref(s: SegmentRefV) -> Seq<u8> {
    crate::codec::enc_str(s.id) + enc_u64(s.vector_count as u64) + enc_u64(s.cluster_count as u64)
}

pub open spec fn sp_sref(b: Seq<u8>) -> Option<(SegmentRefV, Seq<u8>)> {
    match sp_str(b) {
        Some((id, r)) => match sp_u64(r) {
            Some((vc, r2)) => match sp_u64(r2) {
                Some((cc, r3)) => if vc <= usize::MAX && cc <= usize::MAX {
                    Some(
                        (
                            SegmentRefV {
                                id,
                                vector_count: vc as usize,
                                cluster_count: cc as usize,
                            },
                            r3,
                        ),
                    )
                } else {
                    None
                },
                None => None,
            },
            None => None,
        },
        None => None,
    }
}

pub open spec fn f_enc_sref() -> spec_fn(SegmentRefV) -> Seq<u8> {
    |s: SegmentRefV| enc_sref(s)
}

pub open spec fn g_sp_sref() -> spec_fn(Seq<u8>) -> Option<(SegmentRefV, Seq<u8>)> {
    |b: Seq<u8>| sp_sref(b)
}

pub open spec fn ok_sref() -> spec_fn(SegmentRefV) -> bool {
    |s: SegmentRefV| str_ok(s.id)
}

pub open spec fn enc_opt_u128(v: Option<u128>) -> Seq<u8> {
    match v {
        None => seq![0u8],
        Some(x) => seq![1u8] + enc_u128(x),
    }
}

pub open spec fn sp_opt_u128(b: Seq<u8>) -> Option<(Option<u128>, Seq<u8>)> {
    if b.len() == 0 {
        None
    } else if b[0] == 0 {
        Some((None, b.skip(1)))
    } else if b[0] == 1 {
        match sp_u128(b.skip(1)) {
            Some((x, r)) => Some((Some(x), r)),
            None => None,
        }
    } else {
        None
    }
}

pub open spec fn enc_opt_str(v: Option<Seq<char>>) -> Seq<u8> {
    match v {
        None => seq![0u8],
        Some(x) => seq![1u8] + crate::codec::enc_str(x),
    }
}

pub open spec fn sp_opt_str(b: Seq<u8>) -> Option<(Option<Seq<char>>, Seq<u8>)> {
    if b.len() == 0 {
        None
    } else if b[0] == 0 {
        Some((None, b.skip(1)))
    } else if b[0] == 1 {
        match sp_str(b.skip(1)) {
            Some((x, r)) => Some((Some(x), r)),
            None => None,
        }
    } else {
        None
    }
}

/// Byte encoding of a whole manifest.
pub open spec fn enc_manifest(m: ManifestV) -> Seq<u8> {
    enc_list(m.fragments, f_enc_fref()) + enc_list(m.segments, f_enc_sref()) + enc_opt_u128(
        m.compaction_watermark,
    ) + enc_opt_str(m.active_segment) + enc_u64(m.updated_at as u64)
}

/// Parser for a whole manifest; accepts exactly the encodings that consume
/// the full input.
pub open spec fn sp_manifest(b: Seq<u8>) -> Option<ManifestV> {
    match sp_list(b, g_sp_fref()) {
        Some((fragments, r)) => match sp_list(r, g_sp_sref()) {
            Some((segments, r2)) => match sp_opt_u128(r2) {
                Some((compaction_watermark, r3)) => match sp_opt_str(r3) {
                    Some((active_segment, r4)) => match sp_u64(r4) {
                        Some((ts, r5)) => if r5.len() == 0 {
                            Some(
                                ManifestV {
                                    fragments,
                                    segments,
                                    compaction_watermark,
                                    active_segment,
                                    updated_at: ts as i64,
                                },
                            )
                        } else {
                            None
                        },
                        None => None,
                    },
                    None => None,
                },
                None => None,
            },
            None => None,
        },
        None => None,
    }
}

/// Encodability bounds, met by every manifest held in memory.
pub open spec fn manifest_enc_ok(m: ManifestV) -> bool {
    &&& m.fragments.len() <= u64::MAX
    &&& m.segments.len() <= u64::MAX
    &&& forall|i: int| 0 <= i < m.segments.len() ==> str_ok((#[trigger] m.segments[i]).id)
    &&& match m.active_segment {
        Some(x) => str_ok(x),
        None => true,
    }
}

proof fn lemma_fref_fn_round_trip()
    ensures
        forall|f: FragmentRef, r2: Seq<u8>|
            ok_fref()(f) ==> #[trigger] g_sp_fref()(f_enc_fref()(f) + r2) == Some((f, r2)),
{
    assert forall|f: FragmentRef, r2: Seq<u8>| ok_fref()(f) implies #[trigger] g_sp_fref()(
        f_enc_fref()(f) + r2,
    ) == Some((f, r2)) by {
        assert(enc_fref(f) + r2 =~= enc_u128(f.id) + (enc_u64(f.vector_count as u64) + (enc_u64(
            f.delete_count as u64,
        ) + r2)));
        lemma_u128_round_trip(f.id, enc_u64(f.vector_count as u64) + (enc_u64(
            f.delete_count as u64,
        ) + r2));
        lemma_u64_round_trip(f.vector_count as u64, enc_u64(f.delete_count as u64) + r2);
        lemma_u64_round_trip(f.delete_count as u64, r2);
    }
}

proof fn lemma_sref_fn_round_trip()
    ensures
        forall|v: SegmentRefV, r2: Seq<u8>|
            ok_sref()(v) ==> #[trigger] g_sp_sref()(f_enc_sref()(v) + r2) == Some((v, r2)),
{
    assert forall|v: SegmentRefV, r2: Seq<u8>| ok_sref()(v) implies #[trigger] g_sp_sref()(
        f_enc_sref()(v) + r2,
    ) == Some((v, r2)) by {
        assert(enc_sref(v) + r2 =~= crate::codec::enc_str(v.id) + (enc_u64(v.vector_count as u64)
            + (enc_u64(v.cluster_count as u64) + r2)));
        lemma_str_round_trip(v.id, enc_u64(v.vector_count as u64) + (enc_u64(
            v.cluster_count as u64,
        ) + r2));
        lemma_u64_round_trip(v.vector_count as u64, enc_u64(v.cluster_count as u64) + r2);
        lemma_u64_round_trip(v.cluster_count as u64, r2);
    }
}

/// Decoding an encoded manifest gives the manifest back.
#[verifier::rlimit(100)]
pub proof fn lemma_manifest_round_trip(m: ManifestV)
    requires
        manifest_enc_ok(m),
    ensures
        sp_manifest(enc_manifest(m)) == Some(m),
{
    let t4 = enc_u64(m.updated_at as u64);
    let t3 = enc_opt_str(m.active_segment) + t4;
    let t2 = enc_opt_u128(m.compaction_watermark) + t3;
    let t1 = enc_list(m.segments, f_enc_sref()) + t2;
    assert(enc_manifest(m) =~= enc_list(m.fragments, f_enc_fref()) + t1);
    lemma_fref_fn_round_trip();
    lemma_list_round_trip(m.fragments, t1, f_enc_fref(), g_sp_fref(), ok_fref());
    lemma_sref_fn_round_trip();
    lemma_list_round_trip(m.segments, t2, f_enc_sref(), g_sp_sref(), ok_sref());
    match m.compaction_watermark {
        None => {
            assert(t2[0] == 0);
            assert(t2.skip(1) =~= t3);
        },
        Some(x) => {
            assert(t2[0] == 1);
            assert(t2.skip(1) =~= enc_u128(x) + t3);
            lemma_u128_round_trip(x, t3);
        },
    }
    match m.active_segment {
        None => {
            assert(t3[0] == 0);
            assert(t3.skip(1) =~= t4);
        },
        Some(x) => {
            assert(t3[0] == 1);
            assert(t3.skip(1) =~= crate::codec::enc_str(x) + t4);
            lemma_str_round_trip(x, t4);
        },
    }
    lemma_u64_round_trip(m.updated_at as u64, Seq::<u8>::empty());
    assert(t4 =~= enc_u64(m.updated_at as u64) + Seq::<u8>::empty());
    let ts = m.updated_at;
    assert(((ts as u64) as i64) == ts) by (bit_vector);
}


fn put_fref(buf: &mut Vec<u8>, f: &FragmentRef)
    ensures
        final(buf)@ == old(buf)@ + enc_fref(*f),
{
    put_u128(buf, f.id);
    put_u64(buf, f.vector_count as u64);
    put_u64(buf, f.delete_count as u64);
    proof {
        assert(buf@ =~= old(buf)@ + enc_fref(*f));
    }
}

fn put_frefs(buf: &mut Vec<u8>, fs: &Vec<FragmentRef>)
    ensures
        final(buf)@ == old(buf)@ + enc_list(fs@, f_enc_fref()),
        fs@.len() <= u64::MAX,
{
    put_u64(buf, fs.len() as u64);
    let n = fs.len();
    let mut i: usize = 0;
    while i < n
        invariant
            i <= n,
            n == fs@.len(),
            buf@ == old(buf)@ + enc_u64(fs@.len() as u64) + enc_items(
                fs@.take(i as int),
                f_enc_fref(),
            ),
        decreases n - i,
    {
        put_fref(buf, &fs[i]);
        proof {
            lemma_enc_items_push(fs@.take(i as int), fs@[i as int], f_enc_fref());
            assert(fs@.take(i + 1) =~= fs@.take(i as int).push(fs@[i as int]));
            assert(buf@ =~= old(buf)@ + enc_u64(fs@.len() as u64) + enc_items(
                fs@.take(i + 1),
                f_enc_fref(),
            ));
        }
        i = i + 1;
    }
    proof {
        assert(fs@.take(n as int) =~= fs@);
        assert(buf@ =~= old(buf)@ + enc_list(fs@, f_enc_fref()));
    }
}

fn put_sref(buf: &mut Vec<u8>, v: &SegmentRef)
    ensures
        final(buf)@ == old(buf)@ + enc_sref(v@),
        str_ok(v@.id),
{
    put_str(buf, &v.id);
    put_u64(buf, v.vector_count as u64);
    put_u64(buf, v.cluster_count as u64);
    proof {
        assert(buf@ =~= old(buf)@ + enc_sref(v@));
    }
}

fn put_srefs(buf: &mut Vec<u8>, vs: &Vec<SegmentRef>)
    ensures
        final(buf)@ == old(buf)@ + enc_list(vs@.map_values(|s: SegmentRef| s@), f_enc_sref()),
        vs@.len() <= u64::MAX,
        forall|i: int| 0 <= i < vs@.len() ==> str_ok((#[trigger] vs@[i])@.id),
{
    let ghost view = vs@.map_values(|s: SegmentRef| s@);
    put_u64(buf, vs.len() as u64);
    let n = vs.len();
    let mut i: usize = 0;
    while i < n
        invariant
            i <= n,
            n == vs@.len(),
            view == vs@.map_values(|s: SegmentRef| s@),
            buf@ == old(buf)@ + enc_u64(vs@.len() as u64) + enc_items(
                view.take(i as int),
                f_enc_sref(),
            ),
            forall|j: int| 0 <= j < i ==> str_ok((#[trigger] vs@[j])@.id),
        decreases n - i,
    {
        put_sref(buf, &vs[i]);
        proof {
            assert(view[i as int] == vs@[i as int]@);
            lemma_enc_items_push(view.take(i as int), view[i as int], f_enc_sref());
            assert(view.take(i + 1) =~= view.take(i as int).push(view[i as int]));
            assert(buf@ =~= old(buf)@ + enc_u64(vs@.len() as u64) + enc_items(
                view.take(i + 1),
                f_enc_sref(),
            ));
        }
        i = i + 1;
    }
    proof {
        assert(view.take(n as int) =~= view);
        assert(buf@ =~= old(buf)@ + enc_list(view, f_enc_sref()));
    }
}

fn rd_fref(buf: &Vec<u8>, pos: usize) -> (r: Option<(FragmentRef, usize)>)
    requires
        pos <= buf@.len(),
    ensures
        match (r, sp_fref(buf@.skip(pos as int))) {
            (Some((v, p)), Some((sv, rest))) => v == sv && pos <= p <= buf@.len() && buf@.skip(
                p as int,
            ) == rest,
            (None, None) => true,
            _ => false,
        },
{
    let (id, p1) = match rd_u128(buf, pos) {
        Some(x) => x,
        None => {
            return None;
        },
    };
    let (vc, p2) = match rd_u64(buf, p1) {
        Some(x) => x,
        None => {
            return None;
        },
    };
    let (dc, p3) = match rd_u64(buf, p2) {
        Some(x) => x,
        None => {
            return None;
        },
    };
    if vc > usize::MAX as u64 || dc > usize::MAX as u64 {
        return None;
    }
    Some((FragmentRef { id, vector_count: vc as usize, delete_count: dc as usize }, p3))
}

fn rd_sref(buf: &Vec<u8>, pos: usize) -> (r: Option<(SegmentRef, usize)>)
    requires
        pos <= buf@.len(),
    ensures
        match (r, sp_sref(buf@.skip(pos as int))) {
            (Some((v, p)), Some((sv, rest))) => v@ == sv && pos <= p <= buf@.len() && buf@.skip(
                p as int,
            ) == rest,
            (None, None) => true,
            _ => false,
        },
{
    let (id, p1) = match rd_str(buf, pos) {
        Some(x) => x,
        None => {
            return None;
        },
    };
    let (vc, p2) = match rd_u64(buf, p1) {
        Some(x) => x,
        None => {
            return None;
        },
    };
    let (cc, p3) = match rd_u64(buf, p2) {
        Some(x) => x,
        None => {
            return None;
        },
    };
    if vc > usize::MAX as u64 || cc > usize::MAX as u64 {
        return None;
    }
    Some((SegmentRef { id, vector_count: vc as usize, cluster_count: cc as usize }, p3))
}

#[verifier::loop_isolation(false)]
fn rd_frefs(buf: &Vec<u8>, pos: usize) -> (r: Option<(Vec<FragmentRef>, usize)>)
    requires
        pos <= buf@.len(),
    ensures
        match (r, sp_list(buf@.skip(pos as int), g_sp_fref())) {
            (Some((v, p)), Some((sv, rest))) => v@ == sv && pos <= p <= buf@.len() && buf@.skip(
                p as int,
            ) == rest,
            (None, None) => true,
            _ => false,
        },
{
    let (n, p1) = match rd_u64(buf, pos) {
        Some(x) => x,
        None => {
            return None;
        },
    };
    let mut out: Vec<FragmentRef> = Vec::new();
    let mut p = p1;
    let mut i: u64 = 0;
    proof {
        match sp_items_n(buf@.skip(p1 as int), n as nat, g_sp_fref()) {
            Some((xs, r2)) => {
                assert(Seq::<FragmentRef>::empty() + xs =~= xs);
            },
            None => {},
        }
        assert(out@ =~= Seq::<FragmentRef>::empty());
    }
    while i < n
        invariant
            i <= n,
            pos <= p1 <= p <= buf@.len(),
            out@.len() == i,
            sp_items_n(buf@.skip(p1 as int), n as nat, g_sp_fref()) == sp_items_prepend(
                out@,
                sp_items_n(buf@.skip(p as int), (n - i) as nat, g_sp_fref()),
            ),
        decreases n - i,
    {
        match rd_fref(buf, p) {
            Some((v, p2)) => {
                proof {
                    let m = (n - i) as nat;
                    let b_cur = buf@.skip(p as int);
                    let b_next = buf@.skip(p2 as int);
                    assert(g_sp_fref()(b_cur) == Some((v, b_next)));
                    match sp_items_n(b_next, (m - 1) as nat, g_sp_fref()) {
                        Some((xs, r2)) => {
                            assert(sp_items_n(b_cur, m, g_sp_fref()) == Some((seq![v] + xs, r2)));
                            assert(out@ + (seq![v] + xs) =~= out@.push(v) + xs);
                        },
                        None => {
                            assert(sp_items_n(b_cur, m, g_sp_fref()) is None);
                        },
                    }
                }
                out.push(v);
                p = p2;
                i = i + 1;
            },
            None => {
                proof {
                    let m = (n - i) as nat;
                    assert(g_sp_fref()(buf@.skip(p as int)) is None);
                    assert(sp_items_n(buf@.skip(p as int), m, g_sp_fref()) is None);
                }
                return None;
            },
        }
    }
    proof {
        assert(sp_items_n(buf@.skip(p as int), 0, g_sp_fref()) == Some(
            (Seq::<FragmentRef>::empty(), buf@.skip(p as int)),
        ));
        assert(out@ + Seq::<FragmentRef>::empty() =~= out@);
    }
    Some((out, p))
}

#[verifier::loop_isolation(false)]
fn rd_srefs(buf: &Vec<u8>, pos: usize) -> (r: Option<(Vec<SegmentRef>, usize)>)
    requires
        pos <= buf@.len(),
    ensures
        match (r, sp_list(buf@.skip(pos as int), g_sp_sref())) {
            (Some((v, p)), Some((sv, rest))) => v@.map_values(|s: SegmentRef| s@) == sv && pos <= p
                <= buf@.len() && buf@.skip(p as int) == rest,
            (None, None) => true,
            _ => false,
        },
{
    let (n, p1) = match rd_u64(buf, pos) {
        Some(x) => x,
        None => {
            return None;
        },
    };
    let mut out: Vec<SegmentRef> = Vec::new();
    let mut p = p1;
    let mut i: u64 = 0;
    proof {
        match sp_items_n(buf@.skip(p1 as int), n as nat, g_sp_sref()) {
            Some((xs, r2)) => {
                assert(Seq::<SegmentRefV>::empty() + xs =~= xs);
            },
            None => {},
        }
        assert(out@.map_values(|s: SegmentRef| s@) =~= Seq::<SegmentRefV>::empty());
    }
    while i < n
        invariant
            i <= n,
            pos <= p1 <= p <= buf@.len(),
            out@.len() == i,
            sp_items_n(buf@.skip(p1 as int), n as nat, g_sp_sref()) == sp_items_prepend(
                out@.map_values(|s: SegmentRef| s@),
                sp_items_n(buf@.skip(p as int), (n - i) as nat, g_sp_sref()),
            ),
        decreases n - i,
    {
        match rd_sref(buf, p) {
            Some((v, p2)) => {
                proof {
                    let m = (n - i) as nat;
                    let b_cur = buf@.skip(p as int);
                    let b_next = buf@.skip(p2 as int);
                    assert(g_sp_sref()(b_cur) == Some((v@, b_next)));
                    assert(out@.push(v).map_values(|s: SegmentRef| s@) =~= out@.map_values(
                        |s: SegmentRef| s@,
                    ).push(v@));
                    match sp_items_n(b_next, (m - 1) as nat, g_sp_sref()) {
                        Some((xs, r2)) => {
                            assert(sp_items_n(b_cur, m, g_sp_sref()) == Some((seq![v@] + xs, r2)));
                            assert(out@.map_values(|s: SegmentRef| s@) + (seq![v@] + xs)
                                =~= out@.map_values(|s: SegmentRef| s@).push(v@) + xs);
                        },
                        None => {
                            assert(sp_items_n(b_cur, m, g_sp_sref()) is None);
                        },
                    }
                }
                out.push(v);
                p = p2;
                i = i + 1;
            },
            None => {
                proof {
                    let m = (n - i) as nat;
                    assert(g_sp_sref()(buf@.skip(p as int)) is None);
                    assert(sp_items_n(buf@.skip(p as int), m, g_sp_sref()) is None);
                }
                return None;
            },
        }
    }
    proof {
        assert(sp_items_n(buf@.skip(p as int), 0, g_sp_sref()) == Some(
            (Seq::<SegmentRefV>::empty(), buf@.skip(p as int)),
        ));
        assert(out@.map_values(|s: SegmentRef| s@) + Seq::<SegmentRefV>::empty() =~= out@.map_values(
            |s: SegmentRef| s@,
        ));
    }
    Some((out, p))
}

fn rd_opt_u128(buf: &Vec<u8>, pos: usize) -> (r: Option<(Option<u128>, usize)>)
    requires
        pos <= buf@.len(),
    ensures
        match (r, sp_opt_u128(buf@.skip(pos as int))) {
            (Some((v, p)), Some((sv, rest))) => v == sv && pos <= p <= buf@.len() && buf@.skip(
                p as int,
            ) == rest,
            (None, None) => true,
            _ => false,
        },
{
    if pos == buf.len() {
        return None;
    }
    let t = buf[pos];
    proof {
        assert(buf@.skip(pos as int)[0] == buf@[pos as int]);
        assert(buf@.skip(pos as int).skip(1) =~= buf@.skip(pos as int + 1));
    }
    if t == 0 {
        Some((None, pos + 1))
    } else if t == 1 {
        match rd_u128(buf, pos + 1) {
            Some((x, p)) => Some((Some(x), p)),
            None => None,
        }
    } else {
        None
    }
}

fn rd_opt_str(buf: &Vec<u8>, pos: usize) -> (r: Option<(Option<String>, usize)>)
    requires
        pos <= buf@.len(),
    ensures
        match (r, sp_opt_str(buf@.skip(pos as int))) {
            (Some((v, p)), Some((sv, rest))) => (match v {
                Some(x) => sv == Some(x@),
                None => sv is None,
            }) && pos <= p <= buf@.len() && buf@.skip(p as int) == rest,
            (None, None) => true,
            _ => false,
        },
{
    if pos == buf.len() {
        return None;
    }
    let t = buf[pos];
    proof {
        assert(buf@.skip(pos as int)[0] == buf@[pos as int]);
        assert(buf@.skip(pos as int).skip(1) =~= buf@.skip(pos as int + 1));
    }
    if t == 0 {
        Some((None, pos + 1))
    } else if t == 1 {
        match rd_str(buf, pos + 1) {
            Some((x, p)) => Some((Some(x), p)),
            None => None,
        }
    } else {
        None
    }
}

impl Manifest {
    /// Serialize this manifest.
    pub fn to_bytes(&self) -> (r: Vec<u8>)
        ensures
            r@ == enc_manifest(self@),
            manifest_enc_ok(self@),
    {
        let mut buf: Vec<u8> = Vec::new();
        put_frefs(&mut buf, &self.fragments);
        put_srefs(&mut buf, &self.segments);
        match &self.compaction_watermark {
            None => {
                buf.push(0u8);
            },
            Some(x) => {
                buf.push(1u8);
                put_u128(&mut buf, *x);
            },
        }
        match &self.active_segment {
            None => {
                buf.push(0u8);
            },
            Some(x) => {
                buf.push(1u8);
                put_str(&mut buf, x);
            },
        }
        put_u64(&mut buf, self.updated_at as u64);
        proof {
            assert(buf@ =~= enc_manifest(self@));
        }
        buf
    }

    /// Deserialize a manifest. Accepts exactly the encodings that consume
    /// the full input; whether the decoded manifest satisfies the manifest
    /// invariant is for the caller to check.
    #[verifier::rlimit(100)]
    pub fn from_bytes(data: &Vec<u8>) -> (r: Result<Self>)
        ensures
            match (r, sp_manifest(data@)) {
                (Ok(m), Some(mv)) => m@ == mv,
                (Err(_), None) => true,
                _ => false,
            },
    {
        proof {
            assert(data@.skip(0) =~= data@);
        }
        let (fragments, p1) = match rd_frefs(data, 0) {
            Some(x) => x,
            None => {
                return Err(ZeppelinError::Bincode("manifest fragments did not parse".to_owned()));
            },
        };
        let (segments, p2) = match rd_srefs(data, p1) {
            Some(x) => x,
            None => {
                return Err(ZeppelinError::Bincode("manifest segments did not parse".to_owned()));
            },
        };
        let (compaction_watermark, p3) = match rd_opt_u128(data, p2) {
            Some(x) => x,
            None => {
                return Err(ZeppelinError::Bincode("manifest watermark did not parse".to_owned()));
            },
        };
        let (active_segment, p4) = match rd_opt_str(data, p3) {
            Some(x) => x,
            None => {
                return Err(
                    ZeppelinError::Bincode("manifest segment name did not parse".to_owned()),
                );
            },
        };
        let (ts, p5) = match rd_u64(data, p4) {
            Some(x) => x,
            None => {
                return Err(ZeppelinError::Bincode("manifest timestamp did not parse".to_owned()));
            },
        };
        if p5 != data.len() {
            return Err(ZeppelinError::Bincode("manifest has trailing bytes".to_owned()));
        }
        proof {
            assert(data@.skip(p5 as int).len() == 0);
        }
        Ok(
            Manifest {
                fragments,
                segments,
                compaction_watermark,
                active_segment,
                updated_at: ts as i64,
            },
        )
    }
}

} // verus!
