//! Replay of WAL fragments into the latest per-id state.
//!
//! Fragments are applied in identifier order. Within a fragment, deletes are
//! applied before upserts, so an upsert in the same fragment revives a
//! deleted id. The result is the map of live entries (last write wins) and
//! the set of tombstones (deleted and not re-upserted).

use crate::types::{clone_entry, VectorEntry, VectorEntryV};
use crate::wal::{WalFragment, WalFragmentV};
use vstd::prelude::*;

verus! {

/// Mathematical replay state.
pub struct ReplayV {
    pub live: Map<Seq<char>, VectorEntryV>,
    pub tombstones: Set<Seq<char>>,
}

pub open spec fn replay_empty() -> ReplayV {
    ReplayV { live: Map::empty(), tombstones: Set::empty() }
}

pub open spec fn apply_delete(st: ReplayV, id: Seq<char>) -> ReplayV {
    ReplayV { live: st.live.remove(id), tombstones: st.tombstones.insert(id) }
}

pub open spec fn apply_upsert(st: ReplayV, e: VectorEntryV) -> ReplayV {
    ReplayV { live: st.live.insert(e.id, e), tombstones: st.tombstones.remove(e.id) }
}

pub open spec fn apply_deletes(st: ReplayV, ds: Seq<Seq<char>>) -> ReplayV
    decreases ds.len(),
{
    if ds.len() == 0 {
        st
    } else {
        apply_deletes(apply_delete(st, ds[0]), ds.drop_first())
    }
}

pub open spec fn apply_upserts(st: ReplayV, es: Seq<VectorEntryV>) -> ReplayV
    decreases es.len(),
{
    if es.len() == 0 {
        st
    } else {
        apply_upserts(apply_upsert(st, es[0]), es.drop_first())
    }
}

pub open spec fn apply_fragment(st: ReplayV, f: WalFragmentV) -> ReplayV {
    apply_upserts(apply_deletes(st, f.deletes), f.vectors)
}

pub open spec fn apply_fragments(st: ReplayV, fs: Seq<WalFragmentV>) -> ReplayV
    decreases fs.len(),
{
    if fs.len() == 0 {
        st
    } else {
        apply_fragments(apply_fragment(st, fs[0]), fs.drop_first())
    }
}

/// The replay of a whole fragment sequence, oldest first.
pub open spec fn replay(fs: Seq<WalFragmentV>) -> ReplayV {
    apply_fragments(replay_empty(), fs)
}

/// Mathematical image of an executable fragment list.
pub open spec fn frags_view(fs: Seq<WalFragment>) -> Seq<WalFragmentV> {
    fs.map_values(|f: WalFragment| f@)
}

// ---------------------------------------------------------------------------
// Unrolling lemmas (head recursion applied from the right)
// ---------------------------------------------------------------------------

pub proof fn lemma_apply_deletes_push(st: ReplayV, ds: Seq<Seq<char>>, d: Seq<char>)
    ensures
        apply_deletes(st, ds.push(d)) == apply_delete(apply_deletes(st, ds), d),
    decreases ds.len(),
{
    if ds.len() == 0 {
        assert(ds.push(d)[0] == d);
        assert(ds.push(d).drop_first() =~= Seq::<Seq<char>>::empty());
        assert(apply_deletes(apply_delete(st, d), Seq::<Seq<char>>::empty()) == apply_delete(
            st,
            d,
        ));
    } else {
        assert(ds.push(d)[0] == ds[0]);
        assert(ds.push(d).drop_first() =~= ds.drop_first().push(d));
        lemma_apply_deletes_push(apply_delete(st, ds[0]), ds.drop_first(), d);
        assert(apply_deletes(st, ds.push(d)) == apply_deletes(
            apply_delete(st, ds[0]),
            ds.drop_first().push(d),
        ));
        assert(apply_deletes(st, ds) == apply_deletes(apply_delete(st, ds[0]), ds.drop_first()));
    }
}

pub proof fn lemma_apply_upserts_push(st: ReplayV, es: Seq<VectorEntryV>, e: VectorEntryV)
    ensures
        apply_upserts(st, es.push(e)) == apply_upsert(apply_upserts(st, es), e),
    decreases es.len(),
{
    if es.len() == 0 {
        assert(es.push(e)[0] == e);
        assert(es.push(e).drop_first() =~= Seq::<VectorEntryV>::empty());
        assert(apply_upserts(apply_upsert(st, e), Seq::<VectorEntryV>::empty()) == apply_upsert(
            st,
            e,
        ));
    } else {
        assert(es.push(e)[0] == es[0]);
        assert(es.push(e).drop_first() =~= es.drop_first().push(e));
        lemma_apply_upserts_push(apply_upsert(st, es[0]), es.drop_first(), e);
        assert(apply_upserts(st, es.push(e)) == apply_upserts(
            apply_upsert(st, es[0]),
            es.drop_first().push(e),
        ));
        assert(apply_upserts(st, es) == apply_upserts(apply_upsert(st, es[0]), es.drop_first()));
    }
}

pub proof fn lemma_apply_fragments_push(st: ReplayV, fs: Seq<WalFragmentV>, f: WalFragmentV)
    ensures
        apply_fragments(st, fs.push(f)) == apply_fragment(apply_fragments(st, fs), f),
    decreases fs.len(),
{
    if fs.len() == 0 {
        assert(fs.push(f)[0] == f);
        assert(fs.push(f).drop_first() =~= Seq::<WalFragmentV>::empty());
        assert(apply_fragments(apply_fragment(st, f), Seq::<WalFragmentV>::empty())
            == apply_fragment(st, f));
    } else {
        assert(fs.push(f)[0] == fs[0]);
        assert(fs.push(f).drop_first() =~= fs.drop_first().push(f));
        lemma_apply_fragments_push(apply_fragment(st, fs[0]), fs.drop_first(), f);
        assert(apply_fragments(st, fs.push(f)) == apply_fragments(
            apply_fragment(st, fs[0]),
            fs.drop_first().push(f),
        ));
        assert(apply_fragments(st, fs) == apply_fragments(
            apply_fragment(st, fs[0]),
            fs.drop_first(),
        ));
    }
}

// ---------------------------------------------------------------------------
// Executable replay
// ---------------------------------------------------------------------------

/// The executable state agrees with the mathematical state: the live list
/// holds exactly the live map's entries (ids unique, order unspecified) and
/// the tombstone list holds exactly the tombstone set.
pub open spec fn state_matches(live: Seq<VectorEntry>, tombs: Seq<String>, m: ReplayV) -> bool {
    &&& forall|i: int, j: int| 0 <= i < j < live.len() ==> live[i]@.id != live[j]@.id
    &&& forall|i: int, j: int| 0 <= i < j < tombs.len() ==> tombs[i]@ != tombs[j]@
    &&& forall|i: int|
        0 <= i < live.len() ==> m.live.contains_key(#[trigger] live[i]@.id) && m.live[live[i]@.id]
            == live[i]@
    &&& forall|id: Seq<char>|
        m.live.contains_key(id) ==> exists|i: int| 0 <= i < live.len() && #[trigger] live[i]@.id == id
    &&& forall|i: int| 0 <= i < tombs.len() ==> m.tombstones.contains(#[trigger] tombs[i]@)
    &&& forall|id: Seq<char>|
        m.tombstones.contains(id) ==> exists|i: int| 0 <= i < tombs.len() && #[trigger] tombs[i]@
            == id
}

/// Index of the entry with this id, if any.
pub fn find_in_entries(live: &Vec<VectorEntry>, id: &String) -> (r: Option<usize>)
    ensures
        match r {
            Some(i) => i < live@.len() && live@[i as int]@.id == id@,
            None => forall|i: int| 0 <= i < live@.len() ==> #[trigger] live@[i]@.id != id@,
        },
{
    let n = live.len();
    let mut i: usize = 0;
    while i < n
        invariant
            i <= n,
            n == live@.len(),
            forall|j: int| 0 <= j < i ==> #[trigger] live@[j]@.id != id@,
        decreases n - i,
    {
        if live[i].id == *id {
            return Some(i);
        }
        i = i + 1;
    }
    None
}

pub fn find_in_strings(tombs: &Vec<String>, id: &String) -> (r: Option<usize>)
    ensures
        match r {
            Some(i) => i < tombs@.len() && tombs@[i as int]@ == id@,
            None => forall|i: int| 0 <= i < tombs@.len() ==> #[trigger] tombs@[i]@ != id@,
        },
{
    let n = tombs.len();
    let mut i: usize = 0;
    while i < n
        invariant
            i <= n,
            n == tombs@.len(),
            forall|j: int| 0 <= j < i ==> #[trigger] tombs@[j]@ != id@,
        decreases n - i,
    {
        if tombs[i] == *id {
            return Some(i);
        }
        i = i + 1;
    }
    None
}

/// Apply one delete to the executable state.
fn step_delete(live: &mut Vec<VectorEntry>, tombs: &mut Vec<String>, id: &String, Ghost(m): Ghost<ReplayV>)
    requires
        state_matches(old(live)@, old(tombs)@, m),
    ensures
        state_matches(final(live)@, final(tombs)@, apply_delete(m, id@)),
{
    let m2 = Ghost(apply_delete(m, id@));
    match find_in_entries(live, id) {
        Some(i) => {
            live.remove(i);
            proof {
                let l0 = old(live)@;
                let l1 = live@;
                assert forall|a: int|
                    0 <= a < l1.len() implies m2@.live.contains_key(#[trigger] l1[a]@.id)
                    && m2@.live[l1[a]@.id] == l1[a]@ by {
                    if a < i {
                        assert(l1[a] == l0[a]);
                        assert(l0[a]@.id != id@);
                    } else {
                        assert(l1[a] == l0[a + 1]);
                        assert(l0[a + 1]@.id != id@);
                    }
                }
                assert forall|xid: Seq<char>| m2@.live.contains_key(xid) implies exists|a: int|
                    0 <= a < l1.len() && #[trigger] l1[a]@.id == xid by {
                    let w = choose|w: int| 0 <= w < l0.len() && #[trigger] l0[w]@.id == xid;
                    if w < i {
                        assert(l1[w]@.id == xid);
                    } else {
                        assert(w != i);
                        assert(l1[w - 1]@.id == xid);
                    }
                }
            }
        },
        None => {},
    }
    match find_in_strings(tombs, id) {
        Some(_) => {
            proof {
                assert forall|xid: Seq<char>| m2@.tombstones.contains(xid) implies exists|a: int|
                    0 <= a < tombs@.len() && #[trigger] tombs@[a]@ == xid by {
                    if xid == id@ {
                        let w = choose|w: int| 0 <= w < tombs@.len() && tombs@[w]@ == id@;
                        assert(tombs@[w]@ == xid);
                    } else {
                        let w = choose|w: int|
                            0 <= w < tombs@.len() && #[trigger] tombs@[w]@ == xid;
                        assert(tombs@[w]@ == xid);
                    }
                }
            }
        },
        None => {
            tombs.push(id.clone());
            proof {
                let t1 = tombs@;
                assert forall|xid: Seq<char>| m2@.tombstones.contains(xid) implies exists|a: int|
                    0 <= a < t1.len() && #[trigger] t1[a]@ == xid by {
                    if xid == id@ {
                        assert(t1[t1.len() - 1]@ == xid);
                    } else {
                        let w = choose|w: int|
                            0 <= w < old(tombs)@.len() && #[trigger] old(tombs)@[w]@ == xid;
                        assert(t1[w]@ == xid);
                    }
                }
            }
        },
    }
}

/// Apply one upsert to the executable state.
fn step_upsert(live: &mut Vec<VectorEntry>, tombs: &mut Vec<String>, e: &VectorEntry, Ghost(m): Ghost<ReplayV>)
    requires
        state_matches(old(live)@, old(tombs)@, m),
    ensures
        state_matches(final(live)@, final(tombs)@, apply_upsert(m, e@)),
{
    let m2 = Ghost(apply_upsert(m, e@));
    match find_in_strings(tombs, &e.id) {
        Some(i) => {
            tombs.remove(i);
            proof {
                let t0 = old(tombs)@;
                let t1 = tombs@;
                assert forall|a: int| 0 <= a < t1.len() implies m2@.tombstones.contains(
                    #[trigger] t1[a]@,
                ) by {
                    if a < i {
                        assert(t1[a] == t0[a]);
                        assert(t0[a]@ != e.id@);
                    } else {
                        assert(t1[a] == t0[a + 1]);
                        assert(t0[a + 1]@ != e.id@);
                    }
                }
                assert forall|xid: Seq<char>| m2@.tombstones.contains(xid) implies exists|a: int|
                    0 <= a < t1.len() && #[trigger] t1[a]@ == xid by {
                    let w = choose|w: int| 0 <= w < t0.len() && #[trigger] t0[w]@ == xid;
                    if w < i {
                        assert(t1[w]@ == xid);
                    } else {
                        assert(w != i);
                        assert(t1[w - 1]@ == xid);
                    }
                }
            }
        },
        None => {},
    }
    match find_in_entries(live, &e.id) {
        Some(i) => {
            let copy = clone_entry(e);
            live.set(i, copy);
            proof {
                let l0 = old(live)@;
                let l1 = live@;
                assert(l1[i as int]@ == e@);
                assert forall|xid: Seq<char>| m2@.live.contains_key(xid) implies exists|a: int|
                    0 <= a < l1.len() && #[trigger] l1[a]@.id == xid by {
                    if xid == e.id@ {
                        assert(l1[i as int]@.id == xid);
                    } else {
                        let w = choose|w: int| 0 <= w < l0.len() && #[trigger] l0[w]@.id == xid;
                        assert(l1[w]@.id == xid);
                    }
                }
            }
        },
        None => {
            let copy = clone_entry(e);
            live.push(copy);
            proof {
                let l0 = old(live)@;
                let l1 = live@;
                assert(l1[l1.len() - 1]@ == e@);
                assert forall|xid: Seq<char>| m2@.live.contains_key(xid) implies exists|a: int|
                    0 <= a < l1.len() && #[trigger] l1[a]@.id == xid by {
                    if xid == e.id@ {
                        assert(l1[l1.len() - 1]@.id == xid);
                    } else {
                        let w = choose|w: int| 0 <= w < l0.len() && #[trigger] l0[w]@.id == xid;
                        assert(l1[w]@.id == xid);
                    }
                }
            }
        },
    }
}

/// Replay fragments in order into the latest per-id state.
pub fn replay_fragments(fragments: &Vec<WalFragment>) -> (r: (Vec<VectorEntry>, Vec<String>))
    ensures
        state_matches(r.0@, r.1@, replay(frags_view(fragments@))),
{
    let mut live: Vec<VectorEntry> = Vec::new();
    let mut tombs: Vec<String> = Vec::new();
    let n = fragments.len();
    let mut k: usize = 0;
    proof {
        assert(frags_view(fragments@).take(0) =~= Seq::<WalFragmentV>::empty());
    }
    while k < n
        invariant
            k <= n,
            n == fragments@.len(),
            state_matches(live@, tombs@, apply_fragments(replay_empty(), frags_view(fragments@).take(k as int))),
        decreases n - k,
    {
        let ghost st0 = apply_fragments(replay_empty(), frags_view(fragments@).take(k as int));
        let fragment = &fragments[k];
        let dn = fragment.deletes.len();
        let mut di: usize = 0;
        proof {
            assert(fragment@.deletes.take(0) =~= Seq::<Seq<char>>::empty());
        }
        while di < dn
            invariant
                di <= dn,
                dn == fragment@.deletes.len(),
                fragment == &fragments[k as int],
                k < n == fragments@.len(),
                state_matches(live@, tombs@, apply_deletes(st0, fragment@.deletes.take(di as int))),
            decreases dn - di,
        {
            proof {
                lemma_apply_deletes_push(st0, fragment@.deletes.take(di as int), fragment@.deletes[di as int]);
                assert(fragment@.deletes.take(di + 1) =~= fragment@.deletes.take(di as int).push(
                    fragment@.deletes[di as int],
                ));
                assert(fragment@.deletes[di as int] == fragment.deletes@[di as int]@);
            }
            step_delete(
                &mut live,
                &mut tombs,
                &fragment.deletes[di],
                Ghost(apply_deletes(st0, fragment@.deletes.take(di as int))),
            );
            di = di + 1;
        }
        proof {
            assert(fragment@.deletes.take(dn as int) =~= fragment@.deletes);
        }
        let ghost st1 = apply_deletes(st0, fragment@.deletes);
        let vn = fragment.vectors.len();
        let mut vi: usize = 0;
        proof {
            assert(fragment@.vectors.take(0) =~= Seq::<VectorEntryV>::empty());
        }
        while vi < vn
            invariant
                vi <= vn,
                vn == fragment@.vectors.len(),
                fragment == &fragments[k as int],
                k < n == fragments@.len(),
                state_matches(live@, tombs@, apply_upserts(st1, fragment@.vectors.take(vi as int))),
            decreases vn - vi,
        {
            proof {
                lemma_apply_upserts_push(st1, fragment@.vectors.take(vi as int), fragment@.vectors[vi as int]);
                assert(fragment@.vectors.take(vi + 1) =~= fragment@.vectors.take(vi as int).push(
                    fragment@.vectors[vi as int],
                ));
                assert(fragment@.vectors[vi as int] == fragment.vectors@[vi as int]@);
            }
            step_upsert(
                &mut live,
                &mut tombs,
                &fragment.vectors[vi],
                Ghost(apply_upserts(st1, fragment@.vectors.take(vi as int))),
            );
            vi = vi + 1;
        }
        proof {
            assert(fragment@.vectors.take(vn as int) =~= fragment@.vectors);
            lemma_apply_fragments_push(
                replay_empty(),
                frags_view(fragments@).take(k as int),
                fragment@,
            );
            assert(frags_view(fragments@).take(k + 1) =~= frags_view(fragments@).take(
                k as int,
            ).push(fragment@));
        }
        k = k + 1;
    }
    proof {
        assert(frags_view(fragments@).take(n as int) =~= frags_view(fragments@));
    }
    (live, tombs)
}


// ---------------------------------------------------------------------------
// Visibility and tombstone laws
// ---------------------------------------------------------------------------

/// The fragment upserts this id.
pub open spec fn fragment_upserts_id(f: WalFragmentV, id: Seq<char>) -> bool {
    exists|j: int| 0 <= j < f.vectors.len() && #[trigger] f.vectors[j].id == id
}

/// The fragment deletes this id.
pub open spec fn fragment_deletes_id(f: WalFragmentV, id: Seq<char>) -> bool {
    exists|j: int| 0 <= j < f.deletes.len() && #[trigger] f.deletes[j] == id
}

proof fn lemma_upserts_preserve_live(st: ReplayV, es: Seq<VectorEntryV>, id: Seq<char>)
    requires
        st.live.contains_key(id),
    ensures
        apply_upserts(st, es).live.contains_key(id),
    decreases es.len(),
{
    if es.len() > 0 {
        lemma_upserts_preserve_live(apply_upsert(st, es[0]), es.drop_first(), id);
    }
}

proof fn lemma_upserts_make_live(st: ReplayV, es: Seq<VectorEntryV>, id: Seq<char>)
    requires
        exists|j: int| 0 <= j < es.len() && #[trigger] es[j].id == id,
    ensures
        apply_upserts(st, es).live.contains_key(id),
    decreases es.len(),
{
    let j = choose|j: int| 0 <= j < es.len() && #[trigger] es[j].id == id;
    if j == 0 {
        lemma_upserts_preserve_live(apply_upsert(st, es[0]), es.drop_first(), id);
    } else {
        assert(es.drop_first()[j - 1].id == id);
        lemma_upserts_make_live(apply_upsert(st, es[0]), es.drop_first(), id);
    }
}

proof fn lemma_deletes_keep_live(st: ReplayV, ds: Seq<Seq<char>>, id: Seq<char>)
    requires
        st.live.contains_key(id),
        forall|j: int| 0 <= j < ds.len() ==> #[trigger] ds[j] != id,
    ensures
        apply_deletes(st, ds).live.contains_key(id),
    decreases ds.len(),
{
    if ds.len() > 0 {
        assert(forall|j: int|
            0 <= j < ds.drop_first().len() ==> #[trigger] ds.drop_first()[j] != id);
        lemma_deletes_keep_live(apply_delete(st, ds[0]), ds.drop_first(), id);
    }
}

proof fn lemma_fragment_keeps_live(st: ReplayV, f: WalFragmentV, id: Seq<char>)
    requires
        st.live.contains_key(id),
        !fragment_deletes_id(f, id),
    ensures
        apply_fragment(st, f).live.contains_key(id),
{
    assert(forall|j: int| 0 <= j < f.deletes.len() ==> #[trigger] f.deletes[j] != id);
    lemma_deletes_keep_live(st, f.deletes, id);
    lemma_upserts_preserve_live(apply_deletes(st, f.deletes), f.vectors, id);
}

/// Strong-read visibility: an id upserted by fragment `k` and not deleted by
/// any later fragment is live after the replay.
pub proof fn lemma_strong_read_visibility(fs: Seq<WalFragmentV>, k: int, id: Seq<char>)
    requires
        0 <= k < fs.len(),
        fragment_upserts_id(fs[k], id),
        forall|k2: int| k < k2 < fs.len() ==> !fragment_deletes_id(#[trigger] fs[k2], id),
    ensures
        replay(fs).live.contains_key(id),
    decreases fs.len(),
{
    let pre = fs.drop_last();
    let last = fs.last();
    assert(pre.push(last) =~= fs);
    lemma_apply_fragments_push(replay_empty(), pre, last);
    assert(replay(fs) == apply_fragment(replay(pre), last));
    if k == fs.len() - 1 {
        lemma_upserts_make_live(apply_deletes(replay(pre), last.deletes), last.vectors, id);
    } else {
        assert(pre[k] == fs[k]);
        assert(forall|k2: int| k < k2 < pre.len() ==> !fragment_deletes_id(#[trigger] pre[k2], id));
        lemma_strong_read_visibility(pre, k, id);
        assert(!fragment_deletes_id(last, id));
        lemma_fragment_keeps_live(replay(pre), last, id);
    }
}

proof fn lemma_deletes_keep_dead(st: ReplayV, ds: Seq<Seq<char>>, id: Seq<char>)
    requires
        !st.live.contains_key(id),
        st.tombstones.contains(id),
    ensures
        !apply_deletes(st, ds).live.contains_key(id),
        apply_deletes(st, ds).tombstones.contains(id),
    decreases ds.len(),
{
    if ds.len() > 0 {
        lemma_deletes_keep_dead(apply_delete(st, ds[0]), ds.drop_first(), id);
    }
}

proof fn lemma_deletes_make_dead(st: ReplayV, ds: Seq<Seq<char>>, id: Seq<char>)
    requires
        exists|j: int| 0 <= j < ds.len() && #[trigger] ds[j] == id,
    ensures
        !apply_deletes(st, ds).live.contains_key(id),
        apply_deletes(st, ds).tombstones.contains(id),
    decreases ds.len(),
{
    let j = choose|j: int| 0 <= j < ds.len() && #[trigger] ds[j] == id;
    if j == 0 {
        lemma_deletes_keep_dead(apply_delete(st, id), ds.drop_first(), id);
    } else {
        assert(ds.drop_first()[j - 1] == id);
        lemma_deletes_make_dead(apply_delete(st, ds[0]), ds.drop_first(), id);
    }
}

proof fn lemma_upserts_keep_dead(st: ReplayV, es: Seq<VectorEntryV>, id: Seq<char>)
    requires
        !st.live.contains_key(id),
        st.tombstones.contains(id),
        forall|j: int| 0 <= j < es.len() ==> #[trigger] es[j].id != id,
    ensures
        !apply_upserts(st, es).live.contains_key(id),
        apply_upserts(st, es).tombstones.contains(id),
    decreases es.len(),
{
    if es.len() > 0 {
        assert(forall|j: int|
            0 <= j < es.drop_first().len() ==> #[trigger] es.drop_first()[j].id != id);
        lemma_upserts_keep_dead(apply_upsert(st, es[0]), es.drop_first(), id);
    }
}

proof fn lemma_fragment_keeps_dead(st: ReplayV, f: WalFragmentV, id: Seq<char>)
    requires
        !st.live.contains_key(id),
        st.tombstones.contains(id),
        !fragment_upserts_id(f, id),
    ensures
        !apply_fragment(st, f).live.contains_key(id),
        apply_fragment(st, f).tombstones.contains(id),
{
    lemma_deletes_keep_dead(st, f.deletes, id);
    assert(forall|j: int| 0 <= j < f.vectors.len() ==> #[trigger] f.vectors[j].id != id);
    lemma_upserts_keep_dead(apply_deletes(st, f.deletes), f.vectors, id);
}

/// Tombstones are honored: an id deleted by fragment `k` and not re-upserted
/// by fragment `k` or any later fragment is dead after the replay, and the
/// tombstone is recorded.
pub proof fn lemma_tombstone_honored(fs: Seq<WalFragmentV>, k: int, id: Seq<char>)
    requires
        0 <= k < fs.len(),
        fragment_deletes_id(fs[k], id),
        forall|k2: int| k <= k2 < fs.len() ==> !fragment_upserts_id(#[trigger] fs[k2], id),
    ensures
        !replay(fs).live.contains_key(id),
        replay(fs).tombstones.contains(id),
    decreases fs.len(),
{
    let pre = fs.drop_last();
    let last = fs.last();
    assert(pre.push(last) =~= fs);
    lemma_apply_fragments_push(replay_empty(), pre, last);
    assert(replay(fs) == apply_fragment(replay(pre), last));
    if k == fs.len() - 1 {
        lemma_deletes_make_dead(replay(pre), last.deletes, id);
        assert(!fragment_upserts_id(last, id));
        assert(forall|j: int| 0 <= j < last.vectors.len() ==> #[trigger] last.vectors[j].id != id);
        lemma_upserts_keep_dead(apply_deletes(replay(pre), last.deletes), last.vectors, id);
    } else {
        assert(pre[k] == fs[k]);
        assert(forall|k2: int| k <= k2 < pre.len() ==> !fragment_upserts_id(#[trigger] pre[k2], id));
        lemma_tombstone_honored(pre, k, id);
        assert(!fragment_upserts_id(last, id));
        lemma_fragment_keeps_dead(replay(pre), last, id);
    }
}

/// Upserting the same record twice leaves the same state as upserting it
/// once.
pub proof fn lemma_upsert_idempotent(st: ReplayV, e: VectorEntryV)
    ensures
        apply_upsert(apply_upsert(st, e), e) == apply_upsert(st, e),
{
    assert(st.live.insert(e.id, e).insert(e.id, e) =~= st.live.insert(e.id, e));
    assert(st.tombstones.remove(e.id).remove(e.id) =~= st.tombstones.remove(e.id));
}

/// A fragment that upserts one record, appended twice, leaves the same state
/// as appended once.
pub proof fn lemma_duplicate_upsert(fs: Seq<WalFragmentV>, f: WalFragmentV, e: VectorEntryV)
    requires
        f.vectors == seq![e],
        f.deletes.len() == 0,
    ensures
        replay(fs.push(f).push(f)) == replay(fs.push(f)),
{
    lemma_apply_fragments_push(replay_empty(), fs, f);
    lemma_apply_fragments_push(replay_empty(), fs.push(f), f);
    let st = replay(fs);
    assert(apply_deletes(st, f.deletes) == st);
    assert(f.vectors[0] == e);
    assert(f.vectors.drop_first() =~= Seq::<VectorEntryV>::empty());
    assert(apply_upserts(st, f.vectors) == apply_upserts(apply_upsert(st, e), f.vectors.drop_first()));
    assert(apply_fragment(st, f) == apply_upsert(st, e));
    let st1 = apply_upsert(st, e);
    assert(apply_deletes(st1, f.deletes) == st1);
    assert(apply_upserts(st1, f.vectors) == apply_upserts(apply_upsert(st1, e), f.vectors.drop_first()));
    assert(apply_fragment(st1, f) == apply_upsert(st1, e));
    lemma_upsert_idempotent(st, e);
}


/// No id is both live and tombstoned.
pub open spec fn replay_disjoint(st: ReplayV) -> bool {
    forall|id: Seq<char>| !(st.live.contains_key(id) && st.tombstones.contains(id))
}

proof fn lemma_deletes_keep_disjoint(st: ReplayV, ds: Seq<Seq<char>>)
    requires
        replay_disjoint(st),
    ensures
        replay_disjoint(apply_deletes(st, ds)),
    decreases ds.len(),
{
    if ds.len() > 0 {
        lemma_deletes_keep_disjoint(apply_delete(st, ds[0]), ds.drop_first());
    }
}

proof fn lemma_upserts_keep_disjoint(st: ReplayV, es: Seq<VectorEntryV>)
    requires
        replay_disjoint(st),
    ensures
        replay_disjoint(apply_upserts(st, es)),
    decreases es.len(),
{
    if es.len() > 0 {
        lemma_upserts_keep_disjoint(apply_upsert(st, es[0]), es.drop_first());
    }
}

proof fn lemma_fragments_keep_disjoint(st: ReplayV, fs: Seq<WalFragmentV>)
    requires
        replay_disjoint(st),
    ensures
        replay_disjoint(apply_fragments(st, fs)),
    decreases fs.len(),
{
    if fs.len() > 0 {
        lemma_deletes_keep_disjoint(st, fs[0].deletes);
        lemma_upserts_keep_disjoint(apply_deletes(st, fs[0].deletes), fs[0].vectors);
        lemma_fragments_keep_disjoint(apply_fragment(st, fs[0]), fs.drop_first());
    }
}

/// The replay never holds an id as both live and tombstoned.
pub proof fn lemma_replay_disjoint(fs: Seq<WalFragmentV>)
    ensures
        replay_disjoint(replay(fs)),
{
    lemma_fragments_keep_disjoint(replay_empty(), fs);
}

} // verus!
