//! Ranking of search results: ordering by score, top-k selection, and the
//! merge of WAL-scan results with segment results.

use crate::fpbits::{score_key, score_le};
use crate::types::{ConsistencyLevel, SearchResult};
use vstd::prelude::*;
use vstd::multiset::Multiset;
use vstd::seq_lib::lemma_multiset_commutative;

verus! {

broadcast use vstd::seq_lib::group_to_multiset_ensures;

/// Scores ascending: smaller is better for every metric.
pub open spec fn sorted_by_score(s: Seq<SearchResult>) -> bool {
    forall|i: int, j: int|
        0 <= i < j < s.len() ==> score_key(s[i].score) <= score_key(s[j].score)
}

/// The set of identifiers a list of strings holds.
pub open spec fn ids_set(s: Seq<String>) -> Set<Seq<char>> {
    Set::new(|id: Seq<char>| exists|i: int| 0 <= i < s.len() && #[trigger] s[i]@ == id)
}

/// Index of a result with the smallest score.
fn min_score_index(rs: &Vec<SearchResult>) -> (r: usize)
    requires
        rs@.len() > 0,
    ensures
        r < rs@.len(),
        forall|j: int|
            0 <= j < rs@.len() ==> score_key(rs@[r as int].score) <= score_key(
                #[trigger] rs@[j].score,
            ),
{
    let n = rs.len();
    let mut m: usize = 0;
    let mut i: usize = 1;
    while i < n
        invariant
            m < i <= n,
            n == rs@.len(),
            forall|j: int|
                0 <= j < i ==> score_key(rs@[m as int].score) <= score_key(
                    #[trigger] rs@[j].score,
                ),
        decreases n - i,
    {
        if !score_le(rs[m].score, rs[i].score) {
            m = i;
        }
        i = i + 1;
    }
    m
}

/// Sort results by ascending score. The output holds exactly the input
/// results.
pub fn sort_by_score(rs: Vec<SearchResult>) -> (r: Vec<SearchResult>)
    ensures
        sorted_by_score(r@),
        r@.to_multiset() == rs@.to_multiset(),
        r@.len() == rs@.len(),
{
    let mut src = rs;
    let mut out: Vec<SearchResult> = Vec::new();
    proof {
        assert(out@.to_multiset().add(src@.to_multiset()) =~= src@.to_multiset());
    }
    while src.len() > 0
        invariant
            out@.to_multiset().add(src@.to_multiset()) == rs@.to_multiset(),
            out@.len() + src@.len() == rs@.len(),
            sorted_by_score(out@),
            forall|a: int, b: int|
                0 <= a < out@.len() && 0 <= b < src@.len() ==> score_key(#[trigger] out@[a].score)
                    <= score_key(#[trigger] src@[b].score),
        decreases src@.len(),
    {
        let m = min_score_index(&src);
        let ghost src0 = src@;
        let x = src.remove(m);
        out.push(x);
        proof {
            assert(src0.remove(m as int).to_multiset() =~= src0.to_multiset().remove(x));
            assert(out@.to_multiset().add(src@.to_multiset()) =~= rs@.to_multiset());
            assert forall|b: int|
                0 <= b < src@.len() implies score_key(x.score) <= score_key(
                #[trigger] src@[b].score,
            ) by {
                if b < m {
                    assert(src@[b] == src0[b]);
                } else {
                    assert(src@[b] == src0[b + 1]);
                }
            }
        }
    }
    proof {
        assert(src@.to_multiset() =~= Multiset::<SearchResult>::empty());
        assert(out@.to_multiset().add(Multiset::<SearchResult>::empty()) =~= out@.to_multiset());
    }
    out
}

/// What the strong-consistency merge considers: every WAL result, and every
/// segment result whose id is not overridden by the WAL (either live with a
/// newer value, or tombstoned).
pub open spec fn merged_spec(
    walrs: Seq<SearchResult>,
    segrs: Seq<SearchResult>,
    excluded: Set<Seq<char>>,
) -> Seq<SearchResult> {
    walrs + segrs.filter(|sr: SearchResult| !excluded.contains(sr.id@))
}

fn contains_id(ids: &Vec<String>, id: &String) -> (r: bool)
    ensures
        r == ids_set(ids@).contains(id@),
{
    let n = ids.len();
    let mut i: usize = 0;
    while i < n
        invariant
            i <= n,
            n == ids@.len(),
            forall|j: int| 0 <= j < i ==> #[trigger] ids@[j]@ != id@,
        decreases n - i,
    {
        if ids[i] == *id {
            proof {
                assert(ids_set(ids@).contains(id@));
            }
            return true;
        }
        i = i + 1;
    }
    proof {
        assert(!ids_set(ids@).contains(id@));
    }
    false
}

/// Merge WAL results and segment results.
///
/// Under strong consistency the WAL is authoritative: a segment result whose
/// id the WAL has overwritten or tombstoned is dropped; what remains is
/// sorted by score and cut to `top_k`, and nothing dropped by the cut scores
/// better than anything kept. Under eventual consistency the segment results
/// are simply cut to `top_k`.
#[verifier::loop_isolation(false)]
pub fn merge_results(
    wal_results: Vec<SearchResult>,
    segment_results: Vec<SearchResult>,
    wal_ids: &Vec<String>,
    wal_tombstones: &Vec<String>,
    top_k: usize,
    consistency: ConsistencyLevel,
) -> (r: Vec<SearchResult>)
    ensures
        consistency is Eventual ==> r@ == segment_results@.take(
            if top_k <= segment_results@.len() {
                top_k as int
            } else {
                segment_results@.len() as int
            },
        ),
        consistency is Strong ==> {
            let m = merged_spec(
                wal_results@,
                segment_results@,
                ids_set(wal_ids@).union(ids_set(wal_tombstones@)),
            );
            &&& sorted_by_score(r@)
            &&& r@.len() == (if top_k <= m.len() {
                top_k as int
            } else {
                m.len() as int
            })
            &&& r@.to_multiset().subset_of(m.to_multiset())
            &&& (r@.len() == m.len() ==> r@.to_multiset() == m.to_multiset())
            &&& forall|x: SearchResult, i: int|
                #![trigger m.to_multiset().count(x), r@[i]]
                m.to_multiset().count(x) > r@.to_multiset().count(x) && 0 <= i < r@.len()
                    ==> score_key(r@[i].score) <= score_key(x.score)
        },
{
    match consistency {
        ConsistencyLevel::Eventual => {
            let mut out = segment_results;
            out.truncate(top_k);
            proof {
                if top_k > out@.len() {
                    assert(out@ =~= out@.take(out@.len() as int));
                }
            }
            out
        },
        ConsistencyLevel::Strong => {
            let ghost excluded = ids_set(wal_ids@).union(ids_set(wal_tombstones@));
            let ghost seg0 = segment_results@;
            let ghost pred = |sr: SearchResult| !excluded.contains(sr.id@);
            let mut merged = wal_results;
            let ghost w0 = merged@;
            let mut seg = segment_results;
            let n0 = seg.len();
            let mut i: usize = 0;
            proof {
                assert(seg0.take(0) =~= Seq::<SearchResult>::empty());
                assert(Seq::<SearchResult>::empty().filter(pred) =~= Seq::<
                    SearchResult,
                >::empty()) by {
                    reveal_with_fuel(Seq::filter, 2);
                }
                assert(merged@ =~= w0 + Seq::<SearchResult>::empty());
                assert(seg@ =~= seg0.skip(0));
            }
            while seg.len() > 0
                invariant
                    i + seg@.len() == seg0.len(),
                    seg@ == seg0.skip(i as int),
                    merged@ == w0 + seg0.take(i as int).filter(pred),
                decreases seg@.len(),
            {
                proof {
                    assert(seg@[0] == seg0[i as int]);
                    assert(seg0.take(i as int + 1).drop_last() =~= seg0.take(i as int));
                    assert(seg0.take(i as int + 1).last() == seg0[i as int]);
                    reveal_with_fuel(Seq::filter, 1);
                    assert(seg0.take(i as int + 1).filter(pred) == if pred(seg0[i as int]) {
                        seg0.take(i as int).filter(pred).push(seg0[i as int])
                    } else {
                        seg0.take(i as int).filter(pred)
                    });
                }
                let ghost segpre = seg@;
                let sr = seg.remove(0);
                proof {
                    assert(seg@ =~= segpre.skip(1));
                    assert(seg@ =~= seg0.skip(i as int + 1));
                }
                let keep = !contains_id(wal_ids, &sr.id) && !contains_id(wal_tombstones, &sr.id);
                proof {
                    assert(keep == pred(sr));
                }
                if keep {
                    merged.push(sr);
                    proof {
                        assert(merged@ =~= w0 + seg0.take(i as int + 1).filter(pred));
                    }
                }
                i = i + 1;
            }
            proof {
                assert(seg0.take(seg0.len() as int) =~= seg0);
                assert(seg0.skip(i as int).len() == 0);
                assert(i == seg0.len());
            }
            let sorted = sort_by_score(merged);
            let ghost m = merged_spec(w0, seg0, excluded);
            let ghost full = sorted@;
            let mut out = sorted;
            out.truncate(top_k);
            proof {
                assert(full.to_multiset() == m.to_multiset());
                assert(full.len() == m.len());
                if top_k > full.len() {
                    assert(out@ =~= full.take(full.len() as int));
                }
                let k = out@.len() as int;
                assert(out@ =~= full.take(k));
                assert(full =~= full.take(k) + full.skip(k));
                lemma_multiset_commutative(full.take(k), full.skip(k));
                assert(m.to_multiset() =~= full.take(k).to_multiset().add(
                    full.skip(k).to_multiset(),
                ));
                if k == m.len() {
                    assert(out@ =~= full);
                }
                assert forall|x: SearchResult, i2: int|
                    #![trigger m.to_multiset().count(x), out@[i2]]
                    m.to_multiset().count(x) > out@.to_multiset().count(x) && 0 <= i2
                        < out@.len() implies score_key(out@[i2].score) <= score_key(x.score) by {
                    assert(full.skip(k).to_multiset().count(x) > 0);
                    assert(full.skip(k).contains(x));
                    let w = choose|w: int| 0 <= w < full.skip(k).len() && full.skip(k)[w] == x;
                    assert(full[k + w] == x);
                    assert(score_key(full[i2].score) <= score_key(full[k + w].score));
                }
                assert forall|x: SearchResult|
                    out@.to_multiset().count(x) <= m.to_multiset().count(x) by {
                    assert(m.to_multiset().count(x) == full.take(k).to_multiset().count(x)
                        + full.skip(k).to_multiset().count(x));
                }
            }
            out
        },
    }
}


/// Keep the `top_k` best-scoring results: sorted ascending, drawn from the
/// candidates, and nothing dropped scores better than anything kept. When
/// nothing is dropped the output holds exactly the candidates.
pub fn take_top_k(cands: Vec<SearchResult>, top_k: usize) -> (r: Vec<SearchResult>)
    ensures
        sorted_by_score(r@),
        r@.len() == (if top_k <= cands@.len() {
            top_k as int
        } else {
            cands@.len() as int
        }),
        r@.to_multiset().subset_of(cands@.to_multiset()),
        (r@.len() == cands@.len() ==> r@.to_multiset() == cands@.to_multiset()),
        forall|x: SearchResult, i: int|
            #![trigger cands@.to_multiset().count(x), r@[i]]
            cands@.to_multiset().count(x) > r@.to_multiset().count(x) && 0 <= i < r@.len()
                ==> score_key(r@[i].score) <= score_key(x.score),
{
    let ghost m = cands@;
    let sorted = sort_by_score(cands);
    let ghost full = sorted@;
    let mut out = sorted;
    out.truncate(top_k);
    proof {
        if top_k > full.len() {
            assert(out@ =~= full.take(full.len() as int));
        }
        let k = out@.len() as int;
        assert(out@ =~= full.take(k));
        assert(full =~= full.take(k) + full.skip(k));
        lemma_multiset_commutative(full.take(k), full.skip(k));
        assert(m.to_multiset() =~= full.take(k).to_multiset().add(full.skip(k).to_multiset()));
        if k == m.len() {
            assert(out@ =~= full);
        }
        assert forall|x: SearchResult, i: int|
            #![trigger m.to_multiset().count(x), out@[i]]
            m.to_multiset().count(x) > out@.to_multiset().count(x) && 0 <= i
                < out@.len() implies score_key(out@[i].score) <= score_key(x.score) by {
            assert(full.skip(k).to_multiset().count(x) > 0);
            assert(full.skip(k).contains(x));
            let w = choose|w: int| 0 <= w < full.skip(k).len() && full.skip(k)[w] == x;
            assert(full[k + w] == x);
            assert(score_key(full[i].score) <= score_key(full[k + w].score));
        }
        assert forall|x: SearchResult| out@.to_multiset().count(x) <= m.to_multiset().count(x) by {
            assert(m.to_multiset().count(x) == full.take(k).to_multiset().count(x) + full.skip(
                k,
            ).to_multiset().count(x));
        }
    }
    out
}


/// Two positions of a sequence holding the same value put at least two
/// copies in its multiset.
proof fn lemma_two_positions_count<A>(s: Seq<A>, i: int, j: int)
    requires
        0 <= i < j < s.len(),
        s[i] == s[j],
    ensures
        s.to_multiset().count(s[i]) >= 2,
{
    broadcast use vstd::seq_lib::group_to_multiset_ensures;

    let x = s[i];
    let rest = s.remove(i);
    assert(rest.to_multiset() =~= s.to_multiset().remove(x));
    assert(rest[j - 1] == x);
    assert(rest.to_multiset().count(x) > 0);
}

/// A multiset-subset of a sequence with pairwise distinct ids keeps its ids
/// pairwise distinct.
pub proof fn lemma_subset_distinct_ids(r: Seq<SearchResult>, m: Seq<SearchResult>)
    requires
        r.to_multiset().subset_of(m.to_multiset()),
        forall|i: int, j: int| 0 <= i < j < m.len() ==> m[i].id@ != m[j].id@,
    ensures
        forall|i: int, j: int| 0 <= i < j < r.len() ==> r[i].id@ != r[j].id@,
{
    broadcast use vstd::seq_lib::group_to_multiset_ensures;

    assert forall|i: int, j: int| 0 <= i < j < r.len() implies r[i].id@ != r[j].id@ by {
        if r[i].id@ == r[j].id@ {
            if r[i] == r[j] {
                lemma_two_positions_count(r, i, j);
                assert(m.to_multiset().count(r[i]) >= 2);
                assert(m.contains(r[i]));
                let wi = choose|wi: int| 0 <= wi < m.len() && m[wi] == r[i];
                let rest = m.remove(wi);
                assert(rest.to_multiset() =~= m.to_multiset().remove(r[i]));
                assert(rest.to_multiset().count(r[i]) >= 1);
                assert(rest.contains(r[i]));
                let wj = choose|wj: int| 0 <= wj < rest.len() && rest[wj] == r[i];
                if wj < wi {
                    assert(m[wj] == r[i]);
                    assert(m[wj].id@ == m[wi].id@);
                } else {
                    assert(m[wj + 1] == r[i]);
                    assert(m[wi].id@ == m[wj + 1].id@);
                }
            } else {
                assert(m.to_multiset().count(r[i]) > 0);
                assert(m.contains(r[i]));
                assert(m.to_multiset().count(r[j]) > 0);
                assert(m.contains(r[j]));
                let wi = choose|wi: int| 0 <= wi < m.len() && m[wi] == r[i];
                let wj = choose|wj: int| 0 <= wj < m.len() && m[wj] == r[j];
                assert(m[wi].id@ == m[wj].id@);
            }
        }
    }
}

/// Filtering keeps ids pairwise distinct and draws every element from the
/// input.
pub proof fn lemma_filter_distinct_ids(s: Seq<SearchResult>, p: spec_fn(SearchResult) -> bool)
    requires
        forall|i: int, j: int| 0 <= i < j < s.len() ==> s[i].id@ != s[j].id@,
    ensures
        forall|i: int, j: int|
            0 <= i < j < s.filter(p).len() ==> s.filter(p)[i].id@ != s.filter(p)[j].id@,
    decreases s.len(),
{
    broadcast use vstd::seq_lib::group_to_multiset_ensures;

    reveal_with_fuel(Seq::filter, 1);
    if s.len() == 0 {
    } else {
        let sd = s.drop_last();
        let fd = sd.filter(p);
        let f = s.filter(p);
        lemma_filter_distinct_ids(sd, p);
        assert forall|i: int, j: int|
            0 <= i < j < f.len() implies f[i].id@ != f[j].id@ by {
            if p(s.last()) && j == f.len() - 1 {
                assert(f[i] == fd[i]);
                assert(fd.contains(fd[i]));
                sd.lemma_filter_contains_rev(p, fd[i]);
                assert(sd.contains(fd[i]));
                let w = choose|w: int| 0 <= w < sd.len() && sd[w] == fd[i];
                assert(s[w].id@ != s[s.len() - 1].id@);
            } else {
                assert(f[i] == fd[i] && f[j] == fd[j]);
            }
        }
    }
}

} // verus!
