//! WAL fragments: immutable batches of upserts and deletes, checksummed and
//! serialized for the object store.

use crate::codec::{
    enc_list, enc_u128, enc_u64, entry_ok, f_enc_entry, f_enc_str, g_sp_entry, g_sp_str,
    lemma_list_round_trip, lemma_str_fn_round_trip, lemma_u128_round_trip,
    lemma_u64_round_trip, ok_entry, ok_str, put_entries, put_string_list, put_u128, put_u64,
    rd_entries, rd_string_list, rd_u128, rd_u64, sp_list, sp_u128, sp_u64, str_ok,
};
use crate::errors::{Result, ZeppelinError};
use crate::outside::{fresh_ulid, xxh3_64, xxh3_of};
use crate::types::{
    attrs_view, clone_attr_value, entries_view, opt_attrs_view, strs_view, AttributeValue,
    AttributeValueV, Attributes, VectorEntry, VectorEntryV, VectorId,
};
use vstd::multiset::Multiset;
use vstd::prelude::*;
use vstd::string::StrSliceExecFns;
use vstd::utf8::encode_utf8;

verus! {

/// Mathematical image of a WAL fragment.
pub struct WalFragmentV {
    pub id: u128,
    pub vectors: Seq<VectorEntryV>,
    pub deletes: Seq<Seq<char>>,
    pub checksum: u64,
}

/// A single WAL fragment containing upserted vectors and/or deletes.
/// Fragments are immutable once written to the store.
#[derive(Debug, Clone)]
pub struct WalFragment {
    /// Unique, time-ordered identifier for this fragment.
    pub id: u128,
    /// Vectors to upsert.
    pub vectors: Vec<VectorEntry>,
    /// Vector IDs to delete.
    pub deletes: Vec<VectorId>,
    /// XXH3 checksum of the canonical serialization of the operations,
    /// with attributes key-sorted.
    pub checksum: u64,
}

impl View for WalFragment {
    type V = WalFragmentV;

    open spec fn view(&self) -> WalFragmentV {
        WalFragmentV {
            id: self.id,
            vectors: entries_view(self.vectors@),
            deletes: strs_view(self.deletes@),
            checksum: self.checksum,
        }
    }
}

// ---------------------------------------------------------------------------
// Canonical form: attributes key-sorted, byte-wise
// ---------------------------------------------------------------------------

/// Strict byte-wise (lexicographic) order.
pub open spec fn bytes_lt(a: Seq<u8>, b: Seq<u8>) -> bool
    decreases a.len(),
{
    if b.len() == 0 {
        false
    } else if a.len() == 0 {
        true
    } else if a[0] < b[0] {
        true
    } else if a[0] > b[0] {
        false
    } else {
        bytes_lt(a.drop_first(), b.drop_first())
    }
}

/// Strict byte-wise order of field names, over their UTF-8 encodings.
pub open spec fn key_lt(a: Seq<char>, b: Seq<char>) -> bool {
    bytes_lt(encode_utf8(a), encode_utf8(b))
}

/// Stable insertion of one attribute pair into a key-sorted list: the pair
/// goes before the first strictly greater key.
pub open spec fn insert_pair(
    p: (Seq<char>, AttributeValueV),
    s: Seq<(Seq<char>, AttributeValueV)>,
) -> Seq<(Seq<char>, AttributeValueV)>
    decreases s.len(),
{
    if s.len() == 0 {
        seq![p]
    } else if key_lt(p.0, s[0].0) {
        seq![p] + s
    } else {
        seq![s[0]] + insert_pair(p, s.drop_first())
    }
}

/// Key-sort an attribute list by stable insertion, left to right.
pub open spec fn sort_attrs(s: Seq<(Seq<char>, AttributeValueV)>) -> Seq<
    (Seq<char>, AttributeValueV),
>
    decreases s.len(),
{
    if s.len() == 0 {
        Seq::empty()
    } else {
        insert_pair(s.last(), sort_attrs(s.drop_last()))
    }
}

/// The canonical image of an entry: attributes key-sorted.
pub open spec fn canon_entry(e: VectorEntryV) -> VectorEntryV {
    VectorEntryV {
        id: e.id,
        values: e.values,
        attributes: match e.attributes {
            Some(a) => Some(sort_attrs(a)),
            None => None,
        },
    }
}

pub open spec fn canon_entries(es: Seq<VectorEntryV>) -> Seq<VectorEntryV> {
    es.map_values(|e: VectorEntryV| canon_entry(e))
}

/// Insertion keeps exactly the pairs it is given.
proof fn lemma_insert_pair_multiset(
    p: (Seq<char>, AttributeValueV),
    s: Seq<(Seq<char>, AttributeValueV)>,
)
    ensures
        insert_pair(p, s).to_multiset() == s.to_multiset().insert(p),
        insert_pair(p, s).len() == s.len() + 1,
    decreases s.len(),
{
    broadcast use vstd::seq_lib::group_to_multiset_ensures;

    if s.len() == 0 {
        assert(insert_pair(p, s) =~= Seq::<(Seq<char>, AttributeValueV)>::empty().push(p));
    } else if key_lt(p.0, s[0].0) {
        assert(insert_pair(p, s) =~= seq![p] + s);
        vstd::seq_lib::lemma_multiset_commutative(seq![p], s);
        assert(seq![p].to_multiset() =~= Multiset::<(Seq<char>, AttributeValueV)>::empty().insert(
            p,
        )) by {
            assert(seq![p] =~= Seq::<(Seq<char>, AttributeValueV)>::empty().push(p));
        }
        assert((seq![p] + s).to_multiset() =~= s.to_multiset().insert(p));
    } else {
        lemma_insert_pair_multiset(p, s.drop_first());
        assert(insert_pair(p, s) =~= seq![s[0]] + insert_pair(p, s.drop_first()));
        vstd::seq_lib::lemma_multiset_commutative(seq![s[0]], insert_pair(p, s.drop_first()));
        assert(seq![s[0]].to_multiset() =~= Multiset::<
            (Seq<char>, AttributeValueV),
        >::empty().insert(s[0])) by {
            assert(seq![s[0]] =~= Seq::<(Seq<char>, AttributeValueV)>::empty().push(s[0]));
        }
        assert(s =~= seq![s[0]] + s.drop_first());
        vstd::seq_lib::lemma_multiset_commutative(seq![s[0]], s.drop_first());
        assert(insert_pair(p, s).to_multiset() =~= s.to_multiset().insert(p));
    }
}

/// Key-sorting keeps exactly the pairs it is given.
pub proof fn lemma_sort_attrs_multiset(s: Seq<(Seq<char>, AttributeValueV)>)
    ensures
        sort_attrs(s).to_multiset() == s.to_multiset(),
        sort_attrs(s).len() == s.len(),
    decreases s.len(),
{
    broadcast use vstd::seq_lib::group_to_multiset_ensures;

    if s.len() > 0 {
        lemma_sort_attrs_multiset(s.drop_last());
        lemma_insert_pair_multiset(s.last(), sort_attrs(s.drop_last()));
        assert(s =~= s.drop_last().push(s.last()));
        assert(s.drop_last().push(s.last()).to_multiset() =~= s.drop_last().to_multiset().insert(
            s.last(),
        ));
    }
}

/// Canonicalization preserves the encodability bounds.
proof fn lemma_canon_entry_ok(e: VectorEntryV)
    requires
        crate::codec::entry_ok(canon_entry(e)),
    ensures
        crate::codec::entry_ok(e),
{
    broadcast use vstd::seq_lib::group_to_multiset_ensures;

    match e.attributes {
        Some(a) => {
            lemma_sort_attrs_multiset(a);
            assert forall|i: int|
                0 <= i < a.len() implies crate::codec::attr_pair_ok(#[trigger] a[i]) by {
                assert(a.to_multiset().count(a[i]) > 0);
                assert(sort_attrs(a).to_multiset().count(a[i]) > 0);
                assert(sort_attrs(a).contains(a[i]));
                let w = choose|w: int| 0 <= w < sort_attrs(a).len() && sort_attrs(a)[w] == a[i];
                assert(crate::codec::attr_pair_ok(sort_attrs(a)[w]));
            }
        },
        None => {},
    }
}

/// Whether `p` goes before every pair of `s` (all keys strictly greater).
fn key_less(a: &String, b: &String) -> (r: bool)
    ensures
        r == key_lt(a@, b@),
{
    let av = a.as_str().as_bytes_vec();
    let bv = b.as_str().as_bytes_vec();
    let an = av.len();
    let bn = bv.len();
    let mut i: usize = 0;
    proof {
        assert(av@.skip(0) =~= av@);
        assert(bv@.skip(0) =~= bv@);
    }
    loop
        invariant
            i <= an,
            i <= bn,
            an == av@.len(),
            bn == bv@.len(),
            av@ == encode_utf8(a@),
            bv@ == encode_utf8(b@),
            bytes_lt(av@, bv@) == bytes_lt(av@.skip(i as int), bv@.skip(i as int)),
        decreases an - i,
    {
        let ghost xs = av@.skip(i as int);
        let ghost ys = bv@.skip(i as int);
        if i == bn {
            proof {
                assert(ys.len() == 0);
            }
            return false;
        }
        if i == an {
            proof {
                assert(xs.len() == 0 && ys.len() > 0);
            }
            return true;
        }
        proof {
            assert(xs[0] == av@[i as int] && ys[0] == bv@[i as int]);
            assert(xs.drop_first() =~= av@.skip(i as int + 1));
            assert(ys.drop_first() =~= bv@.skip(i as int + 1));
        }
        if av[i] < bv[i] {
            return true;
        }
        if av[i] > bv[i] {
            return false;
        }
        i = i + 1;
    }
}

/// `insert_pair` places the pair at the first position whose key is
/// strictly greater.
proof fn lemma_insert_pair_at(
    p: (Seq<char>, AttributeValueV),
    s: Seq<(Seq<char>, AttributeValueV)>,
    idx: int,
)
    requires
        0 <= idx <= s.len(),
        forall|w: int| 0 <= w < idx ==> !key_lt(p.0, (#[trigger] s[w]).0),
        idx < s.len() ==> key_lt(p.0, s[idx].0),
    ensures
        insert_pair(p, s) == s.take(idx) + seq![p] + s.skip(idx),
    decreases s.len(),
{
    if s.len() == 0 {
        assert(insert_pair(p, s) =~= s.take(idx) + seq![p] + s.skip(idx));
    } else if idx == 0 {
        assert(insert_pair(p, s) =~= s.take(0) + seq![p] + s.skip(0));
    } else {
        assert(!key_lt(p.0, s[0].0));
        assert(forall|w: int|
            0 <= w < idx - 1 ==> !key_lt(p.0, (#[trigger] s.drop_first()[w]).0));
        assert(idx - 1 < s.drop_first().len() ==> key_lt(p.0, s.drop_first()[idx - 1].0));
        lemma_insert_pair_at(p, s.drop_first(), idx - 1);
        assert(insert_pair(p, s) == seq![s[0]] + (s.drop_first().take(idx - 1) + seq![p]
            + s.drop_first().skip(idx - 1)));
        assert(seq![s[0]] + (s.drop_first().take(idx - 1) + seq![p] + s.drop_first().skip(idx - 1))
            =~= s.take(idx) + seq![p] + s.skip(idx));
    }
}

/// First position of the sorted list whose key is strictly greater.
fn find_insert_pos(out: &Attributes, key: &String) -> (idx: usize)
    ensures
        idx <= out@.len(),
        forall|w: int| 0 <= w < idx ==> !key_lt(key@, (#[trigger] out@[w]).0@),
        idx < out@.len() ==> key_lt(key@, out@[idx as int].0@),
{
    let m = out.len();
    let mut idx: usize = 0;
    while idx < m
        invariant
            idx <= m,
            m == out@.len(),
            forall|w: int| 0 <= w < idx ==> !key_lt(key@, (#[trigger] out@[w]).0@),
        decreases m - idx,
    {
        if key_less(key, &out[idx].0) {
            return idx;
        }
        idx = idx + 1;
    }
    idx
}

/// Key-sort one vector's attributes.
fn sort_attr_pairs(a: &Attributes) -> (r: Attributes)
    ensures
        attrs_view(r@) == sort_attrs(attrs_view(a@)),
{
    let n = a.len();
    let mut out: Attributes = Vec::new();
    let mut i: usize = 0;
    proof {
        assert(attrs_view(a@).take(0) =~= Seq::<(Seq<char>, AttributeValueV)>::empty());
        assert(attrs_view(out@) =~= Seq::<(Seq<char>, AttributeValueV)>::empty());
    }
    while i < n
        invariant
            i <= n,
            n == a@.len(),
            attrs_view(out@) == sort_attrs(attrs_view(a@).take(i as int)),
            out@.len() == i,
        decreases n - i,
    {
        let key = a[i].0.clone();
        let value = clone_attr_value(&a[i].1);
        let idx = find_insert_pos(&out, &key);
        let ghost out0 = out@;
        out.insert(idx, (key, value));
        proof {
            let p = (a@[i as int].0@, a@[i as int].1@);
            assert(p == (key@, value@));
            lemma_insert_pair_at(p, attrs_view(out0), idx as int);
            assert(forall|w: int|
                0 <= w < out0.len() ==> attrs_view(out0)[w] == ((#[trigger] out0[w]).0@, out0[w].1@));
            assert(attrs_view(out@) =~= attrs_view(out0).take(idx as int) + seq![p] + attrs_view(
                out0,
            ).skip(idx as int));
            assert(attrs_view(a@).take(i as int + 1).drop_last() =~= attrs_view(a@).take(i as int));
            assert(attrs_view(a@).take(i as int + 1).last() == p);
            assert(sort_attrs(attrs_view(a@).take(i as int + 1)) == insert_pair(
                p,
                sort_attrs(attrs_view(a@).take(i as int)),
            ));
        }
        i = i + 1;
    }
    proof {
        assert(attrs_view(a@).take(n as int) =~= attrs_view(a@));
    }
    out
}

/// The canonical copy of one entry.
fn canonicalize_entry(e: &VectorEntry) -> (r: VectorEntry)
    ensures
        r@ == canon_entry(e@),
{
    let attributes = match &e.attributes {
        Some(a) => Some(sort_attr_pairs(a)),
        None => None,
    };
    VectorEntry { id: e.id.clone(), values: e.values.clone(), attributes }
}

/// The canonical copies of a batch of entries.
fn canonicalize_entries(vs: &Vec<VectorEntry>) -> (r: Vec<VectorEntry>)
    ensures
        entries_view(r@) == canon_entries(entries_view(vs@)),
{
    let n = vs.len();
    let mut out: Vec<VectorEntry> = Vec::new();
    let mut i: usize = 0;
    while i < n
        invariant
            i <= n,
            n == vs@.len(),
            out@.len() == i,
            forall|j: int| 0 <= j < i ==> (#[trigger] out@[j])@ == canon_entry(vs@[j]@),
        decreases n - i,
    {
        let c = canonicalize_entry(&vs[i]);
        out.push(c);
        i = i + 1;
    }
    proof {
        assert(entries_view(out@) =~= canon_entries(entries_view(vs@)));
    }
    out
}

/// Canonical checksum payload: the encoded operations in order, with each
/// entry's attributes key-sorted (byte-wise on the field names).
pub open spec fn payload_enc(vectors: Seq<VectorEntryV>, deletes: Seq<Seq<char>>) -> Seq<u8> {
    enc_list(canon_entries(vectors), f_enc_entry()) + enc_list(deletes, f_enc_str())
}

/// The checksum a fragment with these operations must carry.
pub open spec fn spec_checksum(vectors: Seq<VectorEntryV>, deletes: Seq<Seq<char>>) -> u64 {
    xxh3_of(payload_enc(vectors, deletes))
}

/// A fragment whose checksum matches its operations.
pub open spec fn fragment_wf(f: WalFragmentV) -> bool {
    f.checksum == spec_checksum(f.vectors, f.deletes)
}

/// Encodability bounds, met by every fragment held in memory.
pub open spec fn fragment_ok(f: WalFragmentV) -> bool {
    &&& f.vectors.len() <= u64::MAX
    &&& forall|i: int| 0 <= i < f.vectors.len() ==> entry_ok(#[trigger] f.vectors[i])
    &&& f.deletes.len() <= u64::MAX
    &&& forall|i: int| 0 <= i < f.deletes.len() ==> str_ok(#[trigger] f.deletes[i])
}

/// Byte encoding of a whole fragment.
pub open spec fn enc_fragment(f: WalFragmentV) -> Seq<u8> {
    enc_u128(f.id) + enc_list(f.vectors, f_enc_entry()) + enc_list(f.deletes, f_enc_str())
        + enc_u64(f.checksum)
}

/// Parser for a whole fragment; accepts exactly the encodings that consume
/// the full input.
pub open spec fn sp_fragment(b: Seq<u8>) -> Option<WalFragmentV> {
    match sp_u128(b) {
        Some((id, r)) => match sp_list(r, g_sp_entry()) {
            Some((vectors, r2)) => match sp_list(r2, g_sp_str()) {
                Some((deletes, r3)) => match sp_u64(r3) {
                    Some((checksum, r4)) => if r4.len() == 0 {
                        Some(WalFragmentV { id, vectors, deletes, checksum })
                    } else {
                        None
                    },
                    None => None,
                },
                None => None,
            },
            None => None,
        },
        None => None,
    }
}

/// Decoding an encoded fragment gives the fragment back.
pub proof fn lemma_fragment_round_trip(f: WalFragmentV)
    requires
        fragment_ok(f),
    ensures
        sp_fragment(enc_fragment(f)) == Some(f),
{
    let tail3 = enc_u64(f.checksum);
    let tail2 = enc_list(f.deletes, f_enc_str()) + tail3;
    let tail1 = enc_list(f.vectors, f_enc_entry()) + tail2;
    assert(enc_fragment(f) =~= enc_u128(f.id) + tail1);
    lemma_u128_round_trip(f.id, tail1);
    crate::codec::lemma_entry_fn_round_trip();
    lemma_list_round_trip(f.vectors, tail2, f_enc_entry(), g_sp_entry(), ok_entry());
    lemma_str_fn_round_trip();
    lemma_list_round_trip(f.deletes, tail3, f_enc_str(), g_sp_str(), ok_str());
    lemma_u64_round_trip(f.checksum, Seq::<u8>::empty());
    assert(tail3 =~= enc_u64(f.checksum) + Seq::<u8>::empty());
}

/// Corollary: the checksum survives a serialize-deserialize round trip.
pub proof fn lemma_checksum_round_trip(f: WalFragmentV)
    requires
        fragment_ok(f),
    ensures
        match sp_fragment(enc_fragment(f)) {
            Some(g) => g.checksum == f.checksum,
            None => false,
        },
{
    lemma_fragment_round_trip(f);
}

impl WalFragment {
    /// Compute the checksum for a set of vectors and deletes, over the
    /// canonical length-prefixed encoding of the operations in order.
    pub fn compute_checksum(vectors: &Vec<VectorEntry>, deletes: &Vec<VectorId>) -> (r: u64)
        ensures
            r == spec_checksum(entries_view(vectors@), strs_view(deletes@)),
            vectors@.len() <= u64::MAX,
            deletes@.len() <= u64::MAX,
            forall|i: int|
                0 <= i < vectors@.len() ==> crate::codec::entry_ok(
                    #[trigger] entries_view(vectors@)[i],
                ),
            forall|i: int|
                0 <= i < deletes@.len() ==> crate::codec::str_ok(#[trigger] strs_view(deletes@)[i]),
    {
        let canonical = canonicalize_entries(vectors);
        let mut buf: Vec<u8> = Vec::new();
        put_entries(&mut buf, &canonical);
        put_string_list(&mut buf, deletes);
        proof {
            assert(buf@ =~= payload_enc(entries_view(vectors@), strs_view(deletes@)));
            assert forall|i: int|
                0 <= i < vectors@.len() implies crate::codec::entry_ok(
                #[trigger] entries_view(vectors@)[i],
            ) by {
                assert(entries_view(canonical@)[i] == canon_entry(entries_view(vectors@)[i]));
                lemma_canon_entry_ok(entries_view(vectors@)[i]);
            }
        }
        xxh3_64(&buf)
    }

    /// Create a new WAL fragment with vectors and deletes, under a freshly
    /// generated identifier.
    pub fn new(vectors: Vec<VectorEntry>, deletes: Vec<VectorId>) -> (r: Self)
        ensures
            r@.vectors == entries_view(vectors@),
            r@.deletes == strs_view(deletes@),
            fragment_wf(r@),
            fragment_ok(r@),
    {
        let id = fresh_ulid();
        let checksum = Self::compute_checksum(&vectors, &deletes);
        WalFragment { id, vectors, deletes, checksum }
    }

    /// Validate the checksum of this fragment.
    pub fn validate_checksum(&self) -> (r: Result<()>)
        ensures
            r is Ok <==> fragment_wf(self@),
            r is Err ==> (r->Err_0 matches ZeppelinError::ChecksumMismatch { expected, actual }
                && expected == spec_checksum(self@.vectors, self@.deletes) && actual
                == self@.checksum),
    {
        let expected = Self::compute_checksum(&self.vectors, &self.deletes);
        if self.checksum != expected {
            Err(ZeppelinError::ChecksumMismatch { expected, actual: self.checksum })
        } else {
            Ok(())
        }
    }

    /// Serialize this fragment.
    pub fn to_bytes(&self) -> (r: Vec<u8>)
        ensures
            r@ == enc_fragment(self@),
            fragment_ok(self@),
    {
        let mut buf: Vec<u8> = Vec::new();
        put_u128(&mut buf, self.id);
        put_entries(&mut buf, &self.vectors);
        put_string_list(&mut buf, &self.deletes);
        put_u64(&mut buf, self.checksum);
        proof {
            assert(buf@ =~= enc_fragment(self@));
        }
        buf
    }

    /// Deserialize a fragment and validate its checksum. Accepts exactly the
    /// encodings of checksum-consistent fragments.
    #[verifier::rlimit(50)]
    pub fn from_bytes(data: &Vec<u8>) -> (r: Result<Self>)
        ensures
            match (r, sp_fragment(data@)) {
                (Ok(f), Some(fv)) => f@ == fv && fragment_wf(fv),
                (Err(_), Some(fv)) => !fragment_wf(fv),
                (Err(_), None) => true,
                _ => false,
            },
    {
        proof {
            assert(data@.skip(0) =~= data@);
        }
        let (id, p1) = match rd_u128(data, 0) {
            Some(x) => x,
            None => {
                return Err(ZeppelinError::Bincode("fragment header did not parse".to_owned()));
            },
        };
        let (vectors, p2) = match rd_entries(data, p1) {
            Some(x) => x,
            None => {
                return Err(ZeppelinError::Bincode("fragment vectors did not parse".to_owned()));
            },
        };
        let (deletes, p3) = match rd_string_list(data, p2) {
            Some(x) => x,
            None => {
                return Err(ZeppelinError::Bincode("fragment deletes did not parse".to_owned()));
            },
        };
        let (checksum, p4) = match rd_u64(data, p3) {
            Some(x) => x,
            None => {
                return Err(ZeppelinError::Bincode("fragment checksum did not parse".to_owned()));
            },
        };
        if p4 != data.len() {
            return Err(ZeppelinError::Bincode("fragment has trailing bytes".to_owned()));
        }
        proof {
            assert(data@.skip(p4 as int).len() == 0);
        }
        let fragment = WalFragment { id, vectors, deletes, checksum };
        match fragment.validate_checksum() {
            Ok(_) => Ok(fragment),
            Err(e) => Err(e),
        }
    }

    /// Total number of vector operations in this fragment.
    pub fn operation_count(&self) -> (r: usize)
        requires
            self@.vectors.len() + self@.deletes.len() <= usize::MAX,
        ensures
            r == self@.vectors.len() + self@.deletes.len(),
    {
        self.vectors.len() + self.deletes.len()
    }
}

} // verus!
