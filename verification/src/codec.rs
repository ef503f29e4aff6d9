//! Byte codec for the engine's durable artifacts.
//!
//! Every artifact (WAL fragment, segment cluster, centroid table) is encoded
//! with the little-endian, length-prefixed format specified here. The
//! encoding of a value is a specification-level byte sequence; the executable
//! encoders produce exactly those bytes and the executable decoders accept
//! exactly those bytes, which yields the round-trip laws.

use crate::outside::string_from_utf8;
use crate::types::{
    attrs_view, entries_view, opt_attrs_view, strs_view, vecs_view, AttributeValue,
    AttributeValueV, Attributes, VectorEntry, VectorEntryV,
};
use vstd::prelude::*;
use vstd::string::StrSliceExecFns;
use vstd::utf8::{decode_utf8, encode_utf8, encode_utf8_decode_utf8, encode_utf8_valid_utf8, valid_utf8};

verus! {

// ---------------------------------------------------------------------------
// Specification: scalar encodings
// ---------------------------------------------------------------------------

pub open spec fn enc_u32(v: u32) -> Seq<u8> {
    seq![
        (v & 0xff) as u8,
        ((v >> 8) & 0xff) as u8,
        ((v >> 16) & 0xff) as u8,
        ((v >> 24) & 0xff) as u8,
    ]
}

pub open spec fn enc_u64(v: u64) -> Seq<u8> {
    seq![
        (v & 0xff) as u8,
        ((v >> 8) & 0xff) as u8,
        ((v >> 16) & 0xff) as u8,
        ((v >> 24) & 0xff) as u8,
        ((v >> 32) & 0xff) as u8,
        ((v >> 40) & 0xff) as u8,
        ((v >> 48) & 0xff) as u8,
        ((v >> 56) & 0xff) as u8,
    ]
}

pub open spec fn enc_u128(v: u128) -> Seq<u8> {
    enc_u64((v & 0xffff_ffff_ffff_ffff) as u64) + enc_u64((v >> 64) as u64)
}

pub open spec fn u32_of_le(b0: u8, b1: u8, b2: u8, b3: u8) -> u32 {
    (b0 as u32) | ((b1 as u32) << 8) | ((b2 as u32) << 16) | ((b3 as u32) << 24)
}

pub open spec fn u64_of_le(b: Seq<u8>) -> u64
    recommends
        b.len() == 8,
{
    (u32_of_le(b[0], b[1], b[2], b[3]) as u64) | ((u32_of_le(b[4], b[5], b[6], b[7]) as u64) << 32)
}

// ---------------------------------------------------------------------------
// Specification: parsers. A parser takes the remaining bytes and returns the
// value with the bytes left over, or nothing if the input does not start
// with a valid encoding.
// ---------------------------------------------------------------------------

pub open spec fn sp_u32(b: Seq<u8>) -> Option<(u32, Seq<u8>)> {
    if b.len() >= 4 {
        Some((u32_of_le(b[0], b[1], b[2], b[3]), b.skip(4)))
    } else {
        None
    }
}

pub open spec fn sp_u64(b: Seq<u8>) -> Option<(u64, Seq<u8>)> {
    if b.len() >= 8 {
        Some((u64_of_le(b.take(8)), b.skip(8)))
    } else {
        None
    }
}

pub open spec fn sp_u128(b: Seq<u8>) -> Option<(u128, Seq<u8>)> {
    match sp_u64(b) {
        Some((lo, r)) => match sp_u64(r) {
            Some((hi, r2)) => Some(((lo as u128) | ((hi as u128) << 64), r2)),
            None => None,
        },
        None => None,
    }
}

// ---------------------------------------------------------------------------
// Round-trip laws for scalars
// ---------------------------------------------------------------------------

pub proof fn lemma_u32_round_trip(v: u32, rest: Seq<u8>)
    ensures
        sp_u32(enc_u32(v) + rest) == Some((v, rest)),
{
    let b = enc_u32(v) + rest;
    assert(b.len() >= 4);
    assert(b[0] == (v & 0xff) as u8);
    assert(b[1] == ((v >> 8) & 0xff) as u8);
    assert(b[2] == ((v >> 16) & 0xff) as u8);
    assert(b[3] == ((v >> 24) & 0xff) as u8);
    assert(u32_of_le((v & 0xff) as u8, ((v >> 8) & 0xff) as u8, ((v >> 16) & 0xff) as u8, ((v
        >> 24) & 0xff) as u8) == v) by (bit_vector);
    assert(b.skip(4) =~= rest);
}

pub proof fn lemma_u64_round_trip(v: u64, rest: Seq<u8>)
    ensures
        sp_u64(enc_u64(v) + rest) == Some((v, rest)),
{
    let b = enc_u64(v) + rest;
    assert(b.len() >= 8);
    let t = b.take(8);
    assert(t =~= enc_u64(v));
    assert(u64_of_le(enc_u64(v)) == ((u32_of_le((v & 0xff) as u8, ((v >> 8) & 0xff) as u8, ((v
        >> 16) & 0xff) as u8, ((v >> 24) & 0xff) as u8) as u64) | ((u32_of_le(
        ((v >> 32) & 0xff) as u8,
        ((v >> 40) & 0xff) as u8,
        ((v >> 48) & 0xff) as u8,
        ((v >> 56) & 0xff) as u8,
    ) as u64) << 32)));
    assert(((u32_of_le((v & 0xff) as u8, ((v >> 8) & 0xff) as u8, ((v >> 16) & 0xff) as u8, ((v
        >> 24) & 0xff) as u8) as u64) | ((u32_of_le(
        ((v >> 32) & 0xff) as u8,
        ((v >> 40) & 0xff) as u8,
        ((v >> 48) & 0xff) as u8,
        ((v >> 56) & 0xff) as u8,
    ) as u64) << 32)) == v) by (bit_vector);
    assert(b.skip(8) =~= rest);
}

pub proof fn lemma_u128_round_trip(v: u128, rest: Seq<u8>)
    ensures
        sp_u128(enc_u128(v) + rest) == Some((v, rest)),
{
    let lo = (v & 0xffff_ffff_ffff_ffff) as u64;
    let hi = (v >> 64) as u64;
    assert(enc_u128(v) + rest =~= enc_u64(lo) + (enc_u64(hi) + rest));
    lemma_u64_round_trip(lo, enc_u64(hi) + rest);
    lemma_u64_round_trip(hi, rest);
    assert(((lo as u128) | ((hi as u128) << 64)) == v) by (bit_vector)
        requires
            lo == (v & 0xffff_ffff_ffff_ffff) as u64,
            hi == (v >> 64) as u64,
    ;
}

// ---------------------------------------------------------------------------
// Executable encoders
// ---------------------------------------------------------------------------

pub fn put_u32(buf: &mut Vec<u8>, v: u32)
    ensures
        final(buf)@ == old(buf)@ + enc_u32(v),
{
    buf.push((v & 0xff) as u8);
    buf.push(((v >> 8) & 0xff) as u8);
    buf.push(((v >> 16) & 0xff) as u8);
    buf.push(((v >> 24) & 0xff) as u8);
    proof {
        assert(buf@ =~= old(buf)@ + enc_u32(v));
    }
}

pub fn put_u64(buf: &mut Vec<u8>, v: u64)
    ensures
        final(buf)@ == old(buf)@ + enc_u64(v),
{
    buf.push((v & 0xff) as u8);
    buf.push(((v >> 8) & 0xff) as u8);
    buf.push(((v >> 16) & 0xff) as u8);
    buf.push(((v >> 24) & 0xff) as u8);
    buf.push(((v >> 32) & 0xff) as u8);
    buf.push(((v >> 40) & 0xff) as u8);
    buf.push(((v >> 48) & 0xff) as u8);
    buf.push(((v >> 56) & 0xff) as u8);
    proof {
        assert(buf@ =~= old(buf)@ + enc_u64(v));
    }
}

pub fn put_u128(buf: &mut Vec<u8>, v: u128)
    ensures
        final(buf)@ == old(buf)@ + enc_u128(v),
{
    put_u64(buf, (v & 0xffff_ffff_ffff_ffff) as u64);
    put_u64(buf, (v >> 64) as u64);
    proof {
        assert(buf@ =~= old(buf)@ + enc_u128(v));
    }
}

// ---------------------------------------------------------------------------
// Executable decoders. Each mirrors its specification parser on the bytes
// from `pos` on: it succeeds with the same value exactly when the parser
// does, and leaves the position at the parser's leftover.
// ---------------------------------------------------------------------------

pub fn rd_u32(buf: &Vec<u8>, pos: usize) -> (r: Option<(u32, usize)>)
    requires
        pos <= buf@.len(),
    ensures
        match (r, sp_u32(buf@.skip(pos as int))) {
            (Some((v, p)), Some((sv, rest))) => v == sv && pos <= p <= buf@.len() && buf@.skip(
                p as int,
            ) == rest,
            (None, None) => true,
            _ => false,
        },
{
    if buf.len() - pos < 4 {
        assert(buf@.skip(pos as int).len() < 4);
        return None;
    }
    let b0 = buf[pos];
    let b1 = buf[pos + 1];
    let b2 = buf[pos + 2];
    let b3 = buf[pos + 3];
    let v = (b0 as u32) | ((b1 as u32) << 8) | ((b2 as u32) << 16) | ((b3 as u32) << 24);
    proof {
        let s = buf@.skip(pos as int);
        assert(s[0] == buf@[pos as int]);
        assert(s[1] == buf@[pos as int + 1]);
        assert(s[2] == buf@[pos as int + 2]);
        assert(s[3] == buf@[pos as int + 3]);
        assert(s.skip(4) =~= buf@.skip(pos as int + 4));
    }
    Some((v, pos + 4))
}

pub fn rd_u64(buf: &Vec<u8>, pos: usize) -> (r: Option<(u64, usize)>)
    requires
        pos <= buf@.len(),
    ensures
        match (r, sp_u64(buf@.skip(pos as int))) {
            (Some((v, p)), Some((sv, rest))) => v == sv && pos <= p <= buf@.len() && buf@.skip(
                p as int,
            ) == rest,
            (None, None) => true,
            _ => false,
        },
{
    if buf.len() - pos < 8 {
        assert(buf@.skip(pos as int).len() < 8);
        return None;
    }
    let b0 = buf[pos];
    let b1 = buf[pos + 1];
    let b2 = buf[pos + 2];
    let b3 = buf[pos + 3];
    let b4 = buf[pos + 4];
    let b5 = buf[pos + 5];
    let b6 = buf[pos + 6];
    let b7 = buf[pos + 7];
    let lo = (b0 as u32) | ((b1 as u32) << 8) | ((b2 as u32) << 16) | ((b3 as u32) << 24);
    let hi = (b4 as u32) | ((b5 as u32) << 8) | ((b6 as u32) << 16) | ((b7 as u32) << 24);
    let v = (lo as u64) | ((hi as u64) << 32);
    proof {
        let s = buf@.skip(pos as int);
        let t = s.take(8);
        assert(s.len() >= 8);
        assert(t[0] == buf@[pos as int] && t[1] == buf@[pos as int + 1] && t[2] == buf@[pos as int
            + 2] && t[3] == buf@[pos as int + 3] && t[4] == buf@[pos as int + 4] && t[5]
            == buf@[pos as int + 5] && t[6] == buf@[pos as int + 6] && t[7] == buf@[pos as int
            + 7]);
        assert(u64_of_le(t) == v);
        assert(s.skip(8) =~= buf@.skip(pos as int + 8));
    }
    Some((v, pos + 8))
}

pub fn rd_u128(buf: &Vec<u8>, pos: usize) -> (r: Option<(u128, usize)>)
    requires
        pos <= buf@.len(),
    ensures
        match (r, sp_u128(buf@.skip(pos as int))) {
            (Some((v, p)), Some((sv, rest))) => v == sv && pos <= p <= buf@.len() && buf@.skip(
                p as int,
            ) == rest,
            (None, None) => true,
            _ => false,
        },
{
    match rd_u64(buf, pos) {
        Some((lo, p1)) => match rd_u64(buf, p1) {
            Some((hi, p2)) => Some(((lo as u128) | ((hi as u128) << 64), p2)),
            None => None,
        },
        None => None,
    }
}

// ---------------------------------------------------------------------------
// Length-prefixed byte strings and UTF-8 strings
// ---------------------------------------------------------------------------

pub open spec fn enc_bytes(d: Seq<u8>) -> Seq<u8> {
    enc_u64(d.len() as u64) + d
}

pub open spec fn sp_bytes(b: Seq<u8>) -> Option<(Seq<u8>, Seq<u8>)> {
    match sp_u64(b) {
        Some((n, r)) => if n <= r.len() {
            Some((r.take(n as int), r.skip(n as int)))
        } else {
            None
        },
        None => None,
    }
}

pub open spec fn enc_str(s: Seq<char>) -> Seq<u8> {
    enc_bytes(encode_utf8(s))
}

pub open spec fn sp_str(b: Seq<u8>) -> Option<(Seq<char>, Seq<u8>)> {
    match sp_bytes(b) {
        Some((d, r)) => if valid_utf8(d) {
            Some((decode_utf8(d), r))
        } else {
            None
        },
        None => None,
    }
}

pub proof fn lemma_bytes_round_trip(d: Seq<u8>, rest: Seq<u8>)
    requires
        d.len() <= u64::MAX,
    ensures
        sp_bytes(enc_bytes(d) + rest) == Some((d, rest)),
{
    let b = enc_bytes(d) + rest;
    assert(b =~= enc_u64(d.len() as u64) + (d + rest));
    lemma_u64_round_trip(d.len() as u64, d + rest);
    assert((d + rest).take(d.len() as int) =~= d);
    assert((d + rest).skip(d.len() as int) =~= rest);
}

pub proof fn lemma_str_round_trip(s: Seq<char>, rest: Seq<u8>)
    requires
        encode_utf8(s).len() <= u64::MAX,
    ensures
        sp_str(enc_str(s) + rest) == Some((s, rest)),
{
    lemma_bytes_round_trip(encode_utf8(s), rest);
    encode_utf8_valid_utf8(s);
    encode_utf8_decode_utf8(s);
}

pub fn put_bytes(buf: &mut Vec<u8>, d: &Vec<u8>)
    ensures
        final(buf)@ == old(buf)@ + enc_bytes(d@),
{
    put_u64(buf, d.len() as u64);
    let n = d.len();
    let mut i: usize = 0;
    while i < n
        invariant
            i <= n,
            n == d@.len(),
            buf@ == old(buf)@ + enc_u64(d@.len() as u64) + d@.take(i as int),
        decreases n - i,
    {
        buf.push(d[i]);
        proof {
            assert(d@.take(i + 1) =~= d@.take(i as int).push(d@[i as int]));
            assert(buf@ =~= old(buf)@ + enc_u64(d@.len() as u64) + d@.take(i + 1));
        }
        i = i + 1;
    }
    proof {
        assert(d@.take(n as int) =~= d@);
        assert(buf@ =~= old(buf)@ + enc_bytes(d@));
    }
}

pub fn put_str(buf: &mut Vec<u8>, s: &String)
    ensures
        final(buf)@ == old(buf)@ + enc_str(s@),
        str_ok(s@),
{
    let bv = s.as_str().as_bytes_vec();
    let nbytes = bv.len();
    proof {
        assert(nbytes == encode_utf8(s@).len());
    }
    put_bytes(buf, &bv);
}

pub fn rd_bytes(buf: &Vec<u8>, pos: usize) -> (r: Option<(Vec<u8>, usize)>)
    requires
        pos <= buf@.len(),
    ensures
        match (r, sp_bytes(buf@.skip(pos as int))) {
            (Some((v, p)), Some((sv, rest))) => v@ == sv && pos <= p <= buf@.len() && buf@.skip(
                p as int,
            ) == rest,
            (None, None) => true,
            _ => false,
        },
{
    let (n, p1) = match rd_u64(buf, pos) {
        Some(x) => x,
        None => {
            return None;
        },
    };
    let rem = buf.len() - p1;
    if n > rem as u64 {
        proof {
            let s = buf@.skip(pos as int);
            assert(buf@.skip(p1 as int).len() == rem);
        }
        return None;
    }
    let count = n as usize;
    let mut out: Vec<u8> = Vec::new();
    let mut i: usize = 0;
    while i < count
        invariant
            i <= count,
            p1 + count <= buf@.len(),
            buf@.len() <= usize::MAX,
            out@ == buf@.subrange(p1 as int, p1 + i),
        decreases count - i,
    {
        out.push(buf[p1 + i]);
        proof {
            assert(buf@.subrange(p1 as int, p1 + i + 1) =~= buf@.subrange(p1 as int, p1 + i).push(
                buf@[p1 + i],
            ));
        }
        i = i + 1;
    }
    proof {
        let s = buf@.skip(pos as int);
        let rafter = buf@.skip(p1 as int);
        assert(rafter.take(n as int) =~= buf@.subrange(p1 as int, p1 + count));
        assert(rafter.skip(n as int) =~= buf@.skip(p1 + count));
    }
    Some((out, p1 + count))
}

pub fn rd_str(buf: &Vec<u8>, pos: usize) -> (r: Option<(String, usize)>)
    requires
        pos <= buf@.len(),
    ensures
        match (r, sp_str(buf@.skip(pos as int))) {
            (Some((v, p)), Some((sv, rest))) => v@ == sv && pos <= p <= buf@.len() && buf@.skip(
                p as int,
            ) == rest,
            (None, None) => true,
            _ => false,
        },
{
    let (d, p1) = match rd_bytes(buf, pos) {
        Some(x) => x,
        None => {
            return None;
        },
    };
    match string_from_utf8(d) {
        Some(s) => Some((s, p1)),
        None => None,
    }
}

// ---------------------------------------------------------------------------
// Lists: a u64 count followed by the items in order
// ---------------------------------------------------------------------------

pub open spec fn enc_items<T>(xs: Seq<T>, f: spec_fn(T) -> Seq<u8>) -> Seq<u8>
    decreases xs.len(),
{
    if xs.len() == 0 {
        Seq::empty()
    } else {
        f(xs[0]) + enc_items(xs.drop_first(), f)
    }
}

pub open spec fn enc_list<T>(xs: Seq<T>, f: spec_fn(T) -> Seq<u8>) -> Seq<u8> {
    enc_u64(xs.len() as u64) + enc_items(xs, f)
}

pub open spec fn sp_items_n<T>(
    b: Seq<u8>,
    n: nat,
    g: spec_fn(Seq<u8>) -> Option<(T, Seq<u8>)>,
) -> Option<(Seq<T>, Seq<u8>)>
    decreases n,
{
    if n == 0 {
        Some((Seq::empty(), b))
    } else {
        match g(b) {
            Some((x, r)) => match sp_items_n(r, (n - 1) as nat, g) {
                Some((xs, r2)) => Some((seq![x] + xs, r2)),
                None => None,
            },
            None => None,
        }
    }
}

pub open spec fn sp_list<T>(b: Seq<u8>, g: spec_fn(Seq<u8>) -> Option<(T, Seq<u8>)>) -> Option<
    (Seq<T>, Seq<u8>),
> {
    match sp_u64(b) {
        Some((n, r)) => sp_items_n(r, n as nat, g),
        None => None,
    }
}

pub proof fn lemma_items_round_trip<T>(
    xs: Seq<T>,
    rest: Seq<u8>,
    f: spec_fn(T) -> Seq<u8>,
    g: spec_fn(Seq<u8>) -> Option<(T, Seq<u8>)>,
    ok: spec_fn(T) -> bool,
)
    requires
        forall|x: T, r2: Seq<u8>| ok(x) ==> #[trigger] g(f(x) + r2) == Some((x, r2)),
        forall|i: int| 0 <= i < xs.len() ==> ok(#[trigger] xs[i]),
    ensures
        sp_items_n(enc_items(xs, f) + rest, xs.len(), g) == Some((xs, rest)),
    decreases xs.len(),
{
    if xs.len() == 0 {
        assert(enc_items(xs, f) + rest =~= rest);
        assert(sp_items_n(rest, 0, g) == Some((Seq::<T>::empty(), rest)));
        assert(xs =~= Seq::<T>::empty());
    } else {
        let tail = xs.drop_first();
        assert(enc_items(xs, f) + rest =~= f(xs[0]) + (enc_items(tail, f) + rest));
        assert(g(f(xs[0]) + (enc_items(tail, f) + rest)) == Some(
            (xs[0], enc_items(tail, f) + rest),
        ));
        assert(forall|i: int| 0 <= i < tail.len() ==> ok(#[trigger] tail[i]));
        lemma_items_round_trip(tail, rest, f, g, ok);
        assert(seq![xs[0]] + tail =~= xs);
    }
}

pub proof fn lemma_list_round_trip<T>(
    xs: Seq<T>,
    rest: Seq<u8>,
    f: spec_fn(T) -> Seq<u8>,
    g: spec_fn(Seq<u8>) -> Option<(T, Seq<u8>)>,
    ok: spec_fn(T) -> bool,
)
    requires
        forall|x: T, r2: Seq<u8>| ok(x) ==> #[trigger] g(f(x) + r2) == Some((x, r2)),
        forall|i: int| 0 <= i < xs.len() ==> ok(#[trigger] xs[i]),
        xs.len() <= u64::MAX,
    ensures
        sp_list(enc_list(xs, f) + rest, g) == Some((xs, rest)),
{
    assert(enc_list(xs, f) + rest =~= enc_u64(xs.len() as u64) + (enc_items(xs, f) + rest));
    lemma_u64_round_trip(xs.len() as u64, enc_items(xs, f) + rest);
    lemma_items_round_trip(xs, rest, f, g, ok);
}

/// Appending one item extends the encoded items by that item's encoding.
pub proof fn lemma_enc_items_push<T>(xs: Seq<T>, x: T, f: spec_fn(T) -> Seq<u8>)
    ensures
        enc_items(xs.push(x), f) == enc_items(xs, f) + f(x),
    decreases xs.len(),
{
    let ys = xs.push(x);
    assert(ys.len() == xs.len() + 1);
    if xs.len() == 0 {
        assert(ys[0] == x);
        assert(ys.drop_first() =~= Seq::<T>::empty());
        assert(enc_items(ys, f) == f(x) + enc_items(ys.drop_first(), f));
        assert(enc_items(ys.drop_first(), f) == Seq::<u8>::empty());
        assert(enc_items(xs, f) == Seq::<u8>::empty());
        assert(f(x) + Seq::<u8>::empty() =~= Seq::<u8>::empty() + f(x));
    } else {
        assert(ys[0] == xs[0]);
        assert(ys.drop_first() =~= xs.drop_first().push(x));
        lemma_enc_items_push(xs.drop_first(), x, f);
        assert(enc_items(ys, f) == f(xs[0]) + enc_items(xs.drop_first().push(x), f));
        assert(enc_items(ys, f) == f(xs[0]) + (enc_items(xs.drop_first(), f) + f(x)));
        assert(f(xs[0]) + (enc_items(xs.drop_first(), f) + f(x)) =~= (f(xs[0]) + enc_items(
            xs.drop_first(),
            f,
        )) + f(x));
    }
}


// ---------------------------------------------------------------------------
// Attribute values, attribute lists, vector entries
// ---------------------------------------------------------------------------

pub open spec fn str_ok(s: Seq<char>) -> bool {
    encode_utf8(s).len() <= u64::MAX
}

pub open spec fn f_enc_u32() -> spec_fn(u32) -> Seq<u8> {
    |v: u32| enc_u32(v)
}

pub open spec fn g_sp_u32() -> spec_fn(Seq<u8>) -> Option<(u32, Seq<u8>)> {
    |b: Seq<u8>| sp_u32(b)
}

pub open spec fn ok_u32() -> spec_fn(u32) -> bool {
    |v: u32| true
}

pub open spec fn f_enc_str() -> spec_fn(Seq<char>) -> Seq<u8> {
    |s: Seq<char>| enc_str(s)
}

pub open spec fn g_sp_str() -> spec_fn(Seq<u8>) -> Option<(Seq<char>, Seq<u8>)> {
    |b: Seq<u8>| sp_str(b)
}

pub open spec fn ok_str() -> spec_fn(Seq<char>) -> bool {
    |s: Seq<char>| str_ok(s)
}

pub open spec fn enc_attr(v: AttributeValueV) -> Seq<u8> {
    match v {
        AttributeValueV::String(s) => seq![0u8] + enc_str(s),
        AttributeValueV::Integer(n) => seq![1u8] + enc_u64(n as u64),
        AttributeValueV::Float(x) => seq![2u8] + enc_u64(x),
        AttributeValueV::Bool(b) => seq![3u8, if b { 1u8 } else { 0u8 }],
        AttributeValueV::StringList(xs) => seq![4u8] + enc_list(xs, f_enc_str()),
    }
}

pub open spec fn attr_ok(v: AttributeValueV) -> bool {
    match v {
        AttributeValueV::String(s) => str_ok(s),
        AttributeValueV::StringList(xs) => xs.len() <= u64::MAX && (forall|i: int|
            0 <= i < xs.len() ==> str_ok(#[trigger] xs[i])),
        _ => true,
    }
}

pub open spec fn sp_attr(b: Seq<u8>) -> Option<(AttributeValueV, Seq<u8>)> {
    if b.len() == 0 {
        None
    } else {
        let t = b[0];
        let r = b.skip(1);
        if t == 0 {
            match sp_str(r) {
                Some((s, r2)) => Some((AttributeValueV::String(s), r2)),
                None => None,
            }
        } else if t == 1 {
            match sp_u64(r) {
                Some((n, r2)) => Some((AttributeValueV::Integer(n as i64), r2)),
                None => None,
            }
        } else if t == 2 {
            match sp_u64(r) {
                Some((x, r2)) => Some((AttributeValueV::Float(x), r2)),
                None => None,
            }
        } else if t == 3 {
            if r.len() == 0 {
                None
            } else if r[0] == 0 {
                Some((AttributeValueV::Bool(false), r.skip(1)))
            } else if r[0] == 1 {
                Some((AttributeValueV::Bool(true), r.skip(1)))
            } else {
                None
            }
        } else if t == 4 {
            match sp_list(r, g_sp_str()) {
                Some((xs, r2)) => Some((AttributeValueV::StringList(xs), r2)),
                None => None,
            }
        } else {
            None
        }
    }
}

/// Every bounded string round-trips; packaged for the list lemma.
pub proof fn lemma_str_fn_round_trip()
    ensures
        forall|s: Seq<char>, r2: Seq<u8>|
            ok_str()(s) ==> #[trigger] g_sp_str()(f_enc_str()(s) + r2) == Some((s, r2)),
{
    assert forall|s: Seq<char>, r2: Seq<u8>| ok_str()(s) implies #[trigger] g_sp_str()(
        f_enc_str()(s) + r2,
    ) == Some((s, r2)) by {
        lemma_str_round_trip(s, r2);
    }
}

pub proof fn lemma_u32_fn_round_trip()
    ensures
        forall|v: u32, r2: Seq<u8>|
            ok_u32()(v) ==> #[trigger] g_sp_u32()(f_enc_u32()(v) + r2) == Some((v, r2)),
{
    assert forall|v: u32, r2: Seq<u8>| ok_u32()(v) implies #[trigger] g_sp_u32()(
        f_enc_u32()(v) + r2,
    ) == Some((v, r2)) by {
        lemma_u32_round_trip(v, r2);
    }
}

pub proof fn lemma_attr_round_trip(v: AttributeValueV, rest: Seq<u8>)
    requires
        attr_ok(v),
    ensures
        sp_attr(enc_attr(v) + rest) == Some((v, rest)),
{
    let b = enc_attr(v) + rest;
    match v {
        AttributeValueV::String(s) => {
            assert(b[0] == 0);
            assert(b.skip(1) =~= enc_str(s) + rest);
            lemma_str_round_trip(s, rest);
        },
        AttributeValueV::Integer(n) => {
            assert(b[0] == 1);
            assert(b.skip(1) =~= enc_u64(n as u64) + rest);
            lemma_u64_round_trip(n as u64, rest);
            assert(((n as u64) as i64) == n) by (bit_vector);
        },
        AttributeValueV::Float(x) => {
            assert(b[0] == 2);
            assert(b.skip(1) =~= enc_u64(x) + rest);
            lemma_u64_round_trip(x, rest);
        },
        AttributeValueV::Bool(bb) => {
            assert(b[0] == 3);
            let r = b.skip(1);
            assert(r[0] == (if bb { 1u8 } else { 0u8 }));
            assert(r.len() >= 1);
            assert(r.skip(1) =~= rest);
        },
        AttributeValueV::StringList(xs) => {
            assert(b[0] == 4);
            assert(b.skip(1) =~= enc_list(xs, f_enc_str()) + rest);
            lemma_str_fn_round_trip();
            lemma_list_round_trip(xs, rest, f_enc_str(), g_sp_str(), ok_str());
        },
    }
}

// Attribute pairs (field name, value)

pub open spec fn enc_attr_pair(p: (Seq<char>, AttributeValueV)) -> Seq<u8> {
    enc_str(p.0) + enc_attr(p.1)
}

pub open spec fn sp_attr_pair(b: Seq<u8>) -> Option<((Seq<char>, AttributeValueV), Seq<u8>)> {
    match sp_str(b) {
        Some((k, r)) => match sp_attr(r) {
            Some((v, r2)) => Some(((k, v), r2)),
            None => None,
        },
        None => None,
    }
}

pub open spec fn attr_pair_ok(p: (Seq<char>, AttributeValueV)) -> bool {
    str_ok(p.0) && attr_ok(p.1)
}

pub open spec fn f_enc_attr_pair() -> spec_fn((Seq<char>, AttributeValueV)) -> Seq<u8> {
    |p: (Seq<char>, AttributeValueV)| enc_attr_pair(p)
}

pub open spec fn g_sp_attr_pair() -> spec_fn(Seq<u8>) -> Option<
    ((Seq<char>, AttributeValueV), Seq<u8>),
> {
    |b: Seq<u8>| sp_attr_pair(b)
}

pub open spec fn ok_attr_pair() -> spec_fn((Seq<char>, AttributeValueV)) -> bool {
    |p: (Seq<char>, AttributeValueV)| attr_pair_ok(p)
}

pub proof fn lemma_attr_pair_round_trip(p: (Seq<char>, AttributeValueV), rest: Seq<u8>)
    requires
        attr_pair_ok(p),
    ensures
        sp_attr_pair(enc_attr_pair(p) + rest) == Some((p, rest)),
{
    assert(enc_attr_pair(p) + rest =~= enc_str(p.0) + (enc_attr(p.1) + rest));
    lemma_str_round_trip(p.0, enc_attr(p.1) + rest);
    lemma_attr_round_trip(p.1, rest);
}

pub proof fn lemma_attr_pair_fn_round_trip()
    ensures
        forall|p: (Seq<char>, AttributeValueV), r2: Seq<u8>|
            ok_attr_pair()(p) ==> #[trigger] g_sp_attr_pair()(f_enc_attr_pair()(p) + r2) == Some(
                (p, r2),
            ),
{
    assert forall|p: (Seq<char>, AttributeValueV), r2: Seq<u8>|
        ok_attr_pair()(p) implies #[trigger] g_sp_attr_pair()(f_enc_attr_pair()(p) + r2) == Some(
        (p, r2),
    ) by {
        lemma_attr_pair_round_trip(p, r2);
    }
}

// Optional attribute set

pub open spec fn enc_opt_attrs(a: Option<Seq<(Seq<char>, AttributeValueV)>>) -> Seq<u8> {
    match a {
        None => seq![0u8],
        Some(ps) => seq![1u8] + enc_list(ps, f_enc_attr_pair()),
    }
}

pub open spec fn sp_opt_attrs(b: Seq<u8>) -> Option<
    (Option<Seq<(Seq<char>, AttributeValueV)>>, Seq<u8>),
> {
    if b.len() == 0 {
        None
    } else if b[0] == 0 {
        Some((None, b.skip(1)))
    } else if b[0] == 1 {
        match sp_list(b.skip(1), g_sp_attr_pair()) {
            Some((ps, r2)) => Some((Some(ps), r2)),
            None => None,
        }
    } else {
        None
    }
}

pub open spec fn opt_attrs_ok(a: Option<Seq<(Seq<char>, AttributeValueV)>>) -> bool {
    match a {
        None => true,
        Some(ps) => ps.len() <= u64::MAX && (forall|i: int|
            0 <= i < ps.len() ==> attr_pair_ok(#[trigger] ps[i])),
    }
}

pub proof fn lemma_opt_attrs_round_trip(a: Option<Seq<(Seq<char>, AttributeValueV)>>, rest: Seq<u8>)
    requires
        opt_attrs_ok(a),
    ensures
        sp_opt_attrs(enc_opt_attrs(a) + rest) == Some((a, rest)),
{
    let b = enc_opt_attrs(a) + rest;
    match a {
        None => {
            assert(b[0] == 0);
            assert(b.skip(1) =~= rest);
        },
        Some(ps) => {
            assert(b[0] == 1);
            assert(b.skip(1) =~= enc_list(ps, f_enc_attr_pair()) + rest);
            lemma_attr_pair_fn_round_trip();
            lemma_list_round_trip(ps, rest, f_enc_attr_pair(), g_sp_attr_pair(), ok_attr_pair());
        },
    }
}

// Vector entries

pub open spec fn enc_entry(e: VectorEntryV) -> Seq<u8> {
    enc_str(e.id) + enc_list(e.values, f_enc_u32()) + enc_opt_attrs(e.attributes)
}

pub open spec fn sp_entry(b: Seq<u8>) -> Option<(VectorEntryV, Seq<u8>)> {
    match sp_str(b) {
        Some((id, r)) => match sp_list(r, g_sp_u32()) {
            Some((values, r2)) => match sp_opt_attrs(r2) {
                Some((attributes, r3)) => Some((VectorEntryV { id, values, attributes }, r3)),
                None => None,
            },
            None => None,
        },
        None => None,
    }
}

pub open spec fn entry_ok(e: VectorEntryV) -> bool {
    str_ok(e.id) && e.values.len() <= u64::MAX && opt_attrs_ok(e.attributes)
}

pub open spec fn f_enc_entry() -> spec_fn(VectorEntryV) -> Seq<u8> {
    |e: VectorEntryV| enc_entry(e)
}

pub open spec fn g_sp_entry() -> spec_fn(Seq<u8>) -> Option<(VectorEntryV, Seq<u8>)> {
    |b: Seq<u8>| sp_entry(b)
}

pub open spec fn ok_entry() -> spec_fn(VectorEntryV) -> bool {
    |e: VectorEntryV| entry_ok(e)
}

pub proof fn lemma_entry_round_trip(e: VectorEntryV, rest: Seq<u8>)
    requires
        entry_ok(e),
    ensures
        sp_entry(enc_entry(e) + rest) == Some((e, rest)),
{
    assert(enc_entry(e) + rest =~= enc_str(e.id) + (enc_list(e.values, f_enc_u32()) + (enc_opt_attrs(
        e.attributes,
    ) + rest)));
    lemma_str_round_trip(e.id, enc_list(e.values, f_enc_u32()) + (enc_opt_attrs(e.attributes) + rest));
    lemma_u32_fn_round_trip();
    lemma_list_round_trip(
        e.values,
        enc_opt_attrs(e.attributes) + rest,
        f_enc_u32(),
        g_sp_u32(),
        ok_u32(),
    );
    lemma_opt_attrs_round_trip(e.attributes, rest);
}

pub proof fn lemma_entry_fn_round_trip()
    ensures
        forall|e: VectorEntryV, r2: Seq<u8>|
            ok_entry()(e) ==> #[trigger] g_sp_entry()(f_enc_entry()(e) + r2) == Some((e, r2)),
{
    assert forall|e: VectorEntryV, r2: Seq<u8>| ok_entry()(e) implies #[trigger] g_sp_entry()(
        f_enc_entry()(e) + r2,
    ) == Some((e, r2)) by {
        lemma_entry_round_trip(e, r2);
    }
}

// Vectors (sequences of u32 components), for centroid tables

pub open spec fn f_enc_vec() -> spec_fn(Seq<u32>) -> Seq<u8> {
    |vs: Seq<u32>| enc_list(vs, f_enc_u32())
}

pub open spec fn g_sp_vec() -> spec_fn(Seq<u8>) -> Option<(Seq<u32>, Seq<u8>)> {
    |b: Seq<u8>| sp_list(b, g_sp_u32())
}

pub open spec fn ok_vec() -> spec_fn(Seq<u32>) -> bool {
    |vs: Seq<u32>| vs.len() <= u64::MAX
}

pub proof fn lemma_vec_fn_round_trip()
    ensures
        forall|vs: Seq<u32>, r2: Seq<u8>|
            ok_vec()(vs) ==> #[trigger] g_sp_vec()(f_enc_vec()(vs) + r2) == Some((vs, r2)),
{
    assert forall|vs: Seq<u32>, r2: Seq<u8>| ok_vec()(vs) implies #[trigger] g_sp_vec()(
        f_enc_vec()(vs) + r2,
    ) == Some((vs, r2)) by {
        lemma_u32_fn_round_trip();
        lemma_list_round_trip(vs, r2, f_enc_u32(), g_sp_u32(), ok_u32());
    }
}


// ---------------------------------------------------------------------------
// Executable encoders for lists, attributes and entries
// ---------------------------------------------------------------------------

pub fn put_u32_list(buf: &mut Vec<u8>, vs: &Vec<u32>)
    ensures
        final(buf)@ == old(buf)@ + enc_list(vs@, f_enc_u32()),
        vs@.len() <= u64::MAX,
{
    put_u64(buf, vs.len() as u64);
    let n = vs.len();
    let mut i: usize = 0;
    while i < n
        invariant
            i <= n,
            n == vs@.len(),
            buf@ == old(buf)@ + enc_u64(vs@.len() as u64) + enc_items(
                vs@.take(i as int),
                f_enc_u32(),
            ),
        decreases n - i,
    {
        put_u32(buf, vs[i]);
        proof {
            lemma_enc_items_push(vs@.take(i as int), vs@[i as int], f_enc_u32());
            assert(vs@.take(i + 1) =~= vs@.take(i as int).push(vs@[i as int]));
            assert(buf@ =~= old(buf)@ + enc_u64(vs@.len() as u64) + enc_items(
                vs@.take(i + 1),
                f_enc_u32(),
            ));
        }
        i = i + 1;
    }
    proof {
        assert(vs@.take(n as int) =~= vs@);
        assert(buf@ =~= old(buf)@ + enc_list(vs@, f_enc_u32()));
    }
}

pub fn put_string_list(buf: &mut Vec<u8>, xs: &Vec<String>)
    ensures
        final(buf)@ == old(buf)@ + enc_list(strs_view(xs@), f_enc_str()),
        xs@.len() <= u64::MAX,
        forall|i: int| 0 <= i < xs@.len() ==> str_ok(#[trigger] strs_view(xs@)[i]),
{
    put_u64(buf, xs.len() as u64);
    let n = xs.len();
    let mut i: usize = 0;
    while i < n
        invariant
            i <= n,
            n == xs@.len(),
            buf@ == old(buf)@ + enc_u64(xs@.len() as u64) + enc_items(
                strs_view(xs@).take(i as int),
                f_enc_str(),
            ),
            forall|j: int| 0 <= j < i ==> str_ok(#[trigger] strs_view(xs@)[j]),
        decreases n - i,
    {
        put_str(buf, &xs[i]);
        proof {
            assert(strs_view(xs@)[i as int] == xs@[i as int]@);
            lemma_enc_items_push(strs_view(xs@).take(i as int), strs_view(xs@)[i as int], f_enc_str());
            assert(strs_view(xs@).take(i + 1) =~= strs_view(xs@).take(i as int).push(
                strs_view(xs@)[i as int],
            ));
            assert(buf@ =~= old(buf)@ + enc_u64(xs@.len() as u64) + enc_items(
                strs_view(xs@).take(i + 1),
                f_enc_str(),
            ));
        }
        i = i + 1;
    }
    proof {
        assert(strs_view(xs@).take(n as int) =~= strs_view(xs@));
        assert(buf@ =~= old(buf)@ + enc_list(strs_view(xs@), f_enc_str()));
    }
}

pub fn put_attr(buf: &mut Vec<u8>, v: &AttributeValue)
    ensures
        final(buf)@ == old(buf)@ + enc_attr(v@),
        attr_ok(v@),
{
    match v {
        AttributeValue::String(s) => {
            buf.push(0u8);
            put_str(buf, s);
            proof {
                assert(buf@ =~= old(buf)@ + enc_attr(v@));
            }
        },
        AttributeValue::Integer(n) => {
            buf.push(1u8);
            put_u64(buf, *n as u64);
            proof {
                assert(buf@ =~= old(buf)@ + enc_attr(v@));
            }
        },
        AttributeValue::Float(x) => {
            buf.push(2u8);
            put_u64(buf, *x);
            proof {
                assert(buf@ =~= old(buf)@ + enc_attr(v@));
            }
        },
        AttributeValue::Bool(b) => {
            buf.push(3u8);
            if *b {
                buf.push(1u8);
            } else {
                buf.push(0u8);
            }
            proof {
                assert(buf@ =~= old(buf)@ + enc_attr(v@));
            }
        },
        AttributeValue::StringList(xs) => {
            buf.push(4u8);
            put_string_list(buf, xs);
            proof {
                assert(buf@ =~= old(buf)@ + enc_attr(v@));
            }
        },
    }
}

pub fn put_attrs(buf: &mut Vec<u8>, a: &Attributes)
    ensures
        final(buf)@ == old(buf)@ + enc_list(attrs_view(a@), f_enc_attr_pair()),
        opt_attrs_ok(Some(attrs_view(a@))),
{
    put_u64(buf, a.len() as u64);
    let n = a.len();
    let mut i: usize = 0;
    while i < n
        invariant
            i <= n,
            n == a@.len(),
            buf@ == old(buf)@ + enc_u64(a@.len() as u64) + enc_items(
                attrs_view(a@).take(i as int),
                f_enc_attr_pair(),
            ),
            forall|j: int| 0 <= j < i ==> attr_pair_ok(#[trigger] attrs_view(a@)[j]),
        decreases n - i,
    {
        put_str(buf, &a[i].0);
        put_attr(buf, &a[i].1);
        proof {
            assert(attrs_view(a@)[i as int] == (a@[i as int].0@, a@[i as int].1@));
            assert(enc_attr_pair(attrs_view(a@)[i as int]) == enc_str(a@[i as int].0@) + enc_attr(
                a@[i as int].1@,
            ));
            lemma_enc_items_push(
                attrs_view(a@).take(i as int),
                attrs_view(a@)[i as int],
                f_enc_attr_pair(),
            );
            assert(attrs_view(a@).take(i + 1) =~= attrs_view(a@).take(i as int).push(
                attrs_view(a@)[i as int],
            ));
            assert(buf@ =~= old(buf)@ + enc_u64(a@.len() as u64) + enc_items(
                attrs_view(a@).take(i + 1),
                f_enc_attr_pair(),
            ));
        }
        i = i + 1;
    }
    proof {
        assert(attrs_view(a@).take(n as int) =~= attrs_view(a@));
        assert(buf@ =~= old(buf)@ + enc_list(attrs_view(a@), f_enc_attr_pair()));
    }
}

pub fn put_opt_attrs(buf: &mut Vec<u8>, a: &Option<Attributes>)
    ensures
        final(buf)@ == old(buf)@ + enc_opt_attrs(opt_attrs_view(*a)),
        opt_attrs_ok(opt_attrs_view(*a)),
{
    match a {
        None => {
            buf.push(0u8);
            proof {
                assert(buf@ =~= old(buf)@ + enc_opt_attrs(opt_attrs_view(*a)));
            }
        },
        Some(aa) => {
            buf.push(1u8);
            put_attrs(buf, aa);
            proof {
                assert(buf@ =~= old(buf)@ + enc_opt_attrs(opt_attrs_view(*a)));
            }
        },
    }
}

pub fn put_entry(buf: &mut Vec<u8>, e: &VectorEntry)
    ensures
        final(buf)@ == old(buf)@ + enc_entry(e@),
        entry_ok(e@),
{
    put_str(buf, &e.id);
    put_u32_list(buf, &e.values);
    put_opt_attrs(buf, &e.attributes);
    proof {
        assert(buf@ =~= old(buf)@ + enc_entry(e@));
    }
}

pub fn put_entries(buf: &mut Vec<u8>, es: &Vec<VectorEntry>)
    ensures
        final(buf)@ == old(buf)@ + enc_list(entries_view(es@), f_enc_entry()),
        es@.len() <= u64::MAX,
        forall|i: int| 0 <= i < es@.len() ==> entry_ok(#[trigger] entries_view(es@)[i]),
{
    put_u64(buf, es.len() as u64);
    let n = es.len();
    let mut i: usize = 0;
    while i < n
        invariant
            i <= n,
            n == es@.len(),
            buf@ == old(buf)@ + enc_u64(es@.len() as u64) + enc_items(
                entries_view(es@).take(i as int),
                f_enc_entry(),
            ),
            forall|j: int| 0 <= j < i ==> entry_ok(#[trigger] entries_view(es@)[j]),
        decreases n - i,
    {
        put_entry(buf, &es[i]);
        proof {
            assert(entries_view(es@)[i as int] == es@[i as int]@);
            lemma_enc_items_push(
                entries_view(es@).take(i as int),
                entries_view(es@)[i as int],
                f_enc_entry(),
            );
            assert(entries_view(es@).take(i + 1) =~= entries_view(es@).take(i as int).push(
                entries_view(es@)[i as int],
            ));
            assert(buf@ =~= old(buf)@ + enc_u64(es@.len() as u64) + enc_items(
                entries_view(es@).take(i + 1),
                f_enc_entry(),
            ));
        }
        i = i + 1;
    }
    proof {
        assert(entries_view(es@).take(n as int) =~= entries_view(es@));
        assert(buf@ =~= old(buf)@ + enc_list(entries_view(es@), f_enc_entry()));
    }
}

pub fn put_vec_list(buf: &mut Vec<u8>, vs: &Vec<Vec<u32>>)
    ensures
        final(buf)@ == old(buf)@ + enc_list(vecs_view(vs@), f_enc_vec()),
        vs@.len() <= u64::MAX,
        forall|i: int| 0 <= i < vs@.len() ==> ok_vec()(#[trigger] vecs_view(vs@)[i]),
{
    put_u64(buf, vs.len() as u64);
    let n = vs.len();
    let mut i: usize = 0;
    while i < n
        invariant
            i <= n,
            n == vs@.len(),
            buf@ == old(buf)@ + enc_u64(vs@.len() as u64) + enc_items(
                vecs_view(vs@).take(i as int),
                f_enc_vec(),
            ),
            forall|j: int| 0 <= j < i ==> ok_vec()(#[trigger] vecs_view(vs@)[j]),
        decreases n - i,
    {
        put_u32_list(buf, &vs[i]);
        proof {
            assert(vecs_view(vs@)[i as int] == vs@[i as int]@);
            lemma_enc_items_push(vecs_view(vs@).take(i as int), vecs_view(vs@)[i as int], f_enc_vec());
            assert(vecs_view(vs@).take(i + 1) =~= vecs_view(vs@).take(i as int).push(
                vecs_view(vs@)[i as int],
            ));
            assert(buf@ =~= old(buf)@ + enc_u64(vs@.len() as u64) + enc_items(
                vecs_view(vs@).take(i + 1),
                f_enc_vec(),
            ));
        }
        i = i + 1;
    }
    proof {
        assert(vecs_view(vs@).take(n as int) =~= vecs_view(vs@));
        assert(buf@ =~= old(buf)@ + enc_list(vecs_view(vs@), f_enc_vec()));
    }
}


// ---------------------------------------------------------------------------
// Executable decoders for lists, attributes and entries
// ---------------------------------------------------------------------------

/// Prefix a parsed list with already-parsed items.
pub open spec fn sp_items_prepend<T>(pre: Seq<T>, r: Option<(Seq<T>, Seq<u8>)>) -> Option<
    (Seq<T>, Seq<u8>),
> {
    match r {
        Some((xs, rr)) => Some((pre + xs, rr)),
        None => None,
    }
}

#[verifier::loop_isolation(false)]
pub fn rd_u32_list(buf: &Vec<u8>, pos: usize) -> (r: Option<(Vec<u32>, usize)>)
    requires
        pos <= buf@.len(),
    ensures
        match (r, sp_list(buf@.skip(pos as int), g_sp_u32())) {
            (Some((v, p)), Some((sv, rest))) => v@ == sv && pos <= p <= buf@.len() && buf@.skip(
                p as int,
            ) == rest,
            (None, None) => true,
            _ => false,
        },
{
    let (n, p1) = match rd_u64(buf, pos) {
        Some(x) => x,
        None => {
            return None;
        },
    };
    let mut out: Vec<u32> = Vec::new();
    let mut p = p1;
    let mut i: u64 = 0;
    proof {
        match sp_items_n(buf@.skip(p1 as int), n as nat, g_sp_u32()) {
            Some((xs, r2)) => {
                assert(Seq::<u32>::empty() + xs =~= xs);
            },
            None => {},
        }
        assert(out@ =~= Seq::<u32>::empty());
    }
    while i < n
        invariant
            i <= n,
            pos <= p1 <= p <= buf@.len(),
            out@.len() == i,
            sp_items_n(buf@.skip(p1 as int), n as nat, g_sp_u32()) == sp_items_prepend(
                out@,
                sp_items_n(buf@.skip(p as int), (n - i) as nat, g_sp_u32()),
            ),
        decreases n - i,
    {
        match rd_u32(buf, p) {
            Some((v, p2)) => {
                proof {
                    let m = (n - i) as nat;
                    let b_cur = buf@.skip(p as int);
                    let b_next = buf@.skip(p2 as int);
                    assert(g_sp_u32()(b_cur) == Some((v, b_next)));
                    match sp_items_n(b_next, (m - 1) as nat, g_sp_u32()) {
                        Some((xs, r2)) => {
                            assert(sp_items_n(b_cur, m, g_sp_u32()) == Some((seq![v] + xs, r2)));
                            assert(out@ + (seq![v] + xs) =~= out@.push(v) + xs);
                        },
                        None => {
                            assert(sp_items_n(b_cur, m, g_sp_u32()) is None);
                        },
                    }
                }
                out.push(v);
                p = p2;
                i = i + 1;
            },
            None => {
                proof {
                    let m = (n - i) as nat;
                    assert(g_sp_u32()(buf@.skip(p as int)) is None);
                    assert(sp_items_n(buf@.skip(p as int), m, g_sp_u32()) is None);
                }
                return None;
            },
        }
    }
    proof {
        assert(sp_items_n(buf@.skip(p as int), 0, g_sp_u32()) == Some(
            (Seq::<u32>::empty(), buf@.skip(p as int)),
        ));
        assert(out@ + Seq::<u32>::empty() =~= out@);
    }
    Some((out, p))
}

#[verifier::loop_isolation(false)]
pub fn rd_string_list(buf: &Vec<u8>, pos: usize) -> (r: Option<(Vec<String>, usize)>)
    requires
        pos <= buf@.len(),
    ensures
        match (r, sp_list(buf@.skip(pos as int), g_sp_str())) {
            (Some((v, p)), Some((sv, rest))) => strs_view(v@) == sv && pos <= p <= buf@.len()
                && buf@.skip(p as int) == rest,
            (None, None) => true,
            _ => false,
        },
{
    let (n, p1) = match rd_u64(buf, pos) {
        Some(x) => x,
        None => {
            return None;
        },
    };
    let mut out: Vec<String> = Vec::new();
    let mut p = p1;
    let mut i: u64 = 0;
    proof {
        match sp_items_n(buf@.skip(p1 as int), n as nat, g_sp_str()) {
            Some((xs, r2)) => {
                assert(Seq::<Seq<char>>::empty() + xs =~= xs);
            },
            None => {},
        }
        assert(strs_view(out@) =~= Seq::<Seq<char>>::empty());
    }
    while i < n
        invariant
            i <= n,
            pos <= p1 <= p <= buf@.len(),
            out@.len() == i,
            sp_items_n(buf@.skip(p1 as int), n as nat, g_sp_str()) == sp_items_prepend(
                strs_view(out@),
                sp_items_n(buf@.skip(p as int), (n - i) as nat, g_sp_str()),
            ),
        decreases n - i,
    {
        match rd_str(buf, p) {
            Some((v, p2)) => {
                proof {
                    let m = (n - i) as nat;
                    let b_cur = buf@.skip(p as int);
                    let b_next = buf@.skip(p2 as int);
                    assert(g_sp_str()(b_cur) == Some((v@, b_next)));
                    assert(strs_view(out@.push(v)) =~= strs_view(out@).push(v@));
                    match sp_items_n(b_next, (m - 1) as nat, g_sp_str()) {
                        Some((xs, r2)) => {
                            assert(sp_items_n(b_cur, m, g_sp_str()) == Some((seq![v@] + xs, r2)));
                            assert(strs_view(out@) + (seq![v@] + xs) =~= strs_view(out@).push(v@)
                                + xs);
                        },
                        None => {
                            assert(sp_items_n(b_cur, m, g_sp_str()) is None);
                        },
                    }
                }
                out.push(v);
                p = p2;
                i = i + 1;
            },
            None => {
                proof {
                    let m = (n - i) as nat;
                    assert(g_sp_str()(buf@.skip(p as int)) is None);
                    assert(sp_items_n(buf@.skip(p as int), m, g_sp_str()) is None);
                }
                return None;
            },
        }
    }
    proof {
        assert(sp_items_n(buf@.skip(p as int), 0, g_sp_str()) == Some(
            (Seq::<Seq<char>>::empty(), buf@.skip(p as int)),
        ));
        assert(strs_view(out@) + Seq::<Seq<char>>::empty() =~= strs_view(out@));
    }
    Some((out, p))
}

pub fn rd_attr(buf: &Vec<u8>, pos: usize) -> (r: Option<(AttributeValue, usize)>)
    requires
        pos <= buf@.len(),
    ensures
        match (r, sp_attr(buf@.skip(pos as int))) {
            (Some((v, p)), Some((sv, rest))) => v@ == sv && pos <= p <= buf@.len() && buf@.skip(
                p as int,
            ) == rest,
            (None, None) => true,
            _ => false,
        },
{
    if pos == buf.len() {
        return None;
    }
    let t = buf[pos];
    let p1 = pos + 1;
    proof {
        assert(buf@.skip(pos as int)[0] == buf@[pos as int]);
        assert(buf@.skip(pos as int).skip(1) =~= buf@.skip(pos as int + 1));
    }
    if t == 0 {
        match rd_str(buf, p1) {
            Some((sv, p2)) => Some((AttributeValue::String(sv), p2)),
            None => None,
        }
    } else if t == 1 {
        match rd_u64(buf, p1) {
            Some((n, p2)) => Some((AttributeValue::Integer(n as i64), p2)),
            None => None,
        }
    } else if t == 2 {
        match rd_u64(buf, p1) {
            Some((x, p2)) => Some((AttributeValue::Float(x), p2)),
            None => None,
        }
    } else if t == 3 {
        if p1 == buf.len() {
            proof {
                assert(buf@.skip(p1 as int).len() == 0);
            }
            return None;
        }
        let bb = buf[p1];
        proof {
            assert(buf@.skip(p1 as int)[0] == buf@[p1 as int]);
            assert(buf@.skip(p1 as int).skip(1) =~= buf@.skip(p1 as int + 1));
        }
        if bb == 0 {
            Some((AttributeValue::Bool(false), p1 + 1))
        } else if bb == 1 {
            Some((AttributeValue::Bool(true), p1 + 1))
        } else {
            None
        }
    } else if t == 4 {
        match rd_string_list(buf, p1) {
            Some((xs, p2)) => Some((AttributeValue::StringList(xs), p2)),
            None => None,
        }
    } else {
        None
    }
}

#[verifier::loop_isolation(false)]
pub fn rd_attrs(buf: &Vec<u8>, pos: usize) -> (r: Option<(Attributes, usize)>)
    requires
        pos <= buf@.len(),
    ensures
        match (r, sp_list(buf@.skip(pos as int), g_sp_attr_pair())) {
            (Some((v, p)), Some((sv, rest))) => attrs_view(v@) == sv && pos <= p <= buf@.len()
                && buf@.skip(p as int) == rest,
            (None, None) => true,
            _ => false,
        },
{
    let (n, p1) = match rd_u64(buf, pos) {
        Some(x) => x,
        None => {
            return None;
        },
    };
    let mut out: Attributes = Vec::new();
    let mut p = p1;
    let mut i: u64 = 0;
    proof {
        match sp_items_n(buf@.skip(p1 as int), n as nat, g_sp_attr_pair()) {
            Some((xs, r2)) => {
                assert(Seq::<(Seq<char>, AttributeValueV)>::empty() + xs =~= xs);
            },
            None => {},
        }
        assert(attrs_view(out@) =~= Seq::<(Seq<char>, AttributeValueV)>::empty());
    }
    while i < n
        invariant
            i <= n,
            pos <= p1 <= p <= buf@.len(),
            out@.len() == i,
            sp_items_n(buf@.skip(p1 as int), n as nat, g_sp_attr_pair()) == sp_items_prepend(
                attrs_view(out@),
                sp_items_n(buf@.skip(p as int), (n - i) as nat, g_sp_attr_pair()),
            ),
        decreases n - i,
    {
        let (k, pk) = match rd_str(buf, p) {
            Some(x) => x,
            None => {
                proof {
                    let m = (n - i) as nat;
                    assert(g_sp_attr_pair()(buf@.skip(p as int)) is None);
                    assert(sp_items_n(buf@.skip(p as int), m, g_sp_attr_pair()) is None);
                }
                return None;
            },
        };
        let (v, p2) = match rd_attr(buf, pk) {
            Some(x) => x,
            None => {
                proof {
                    let m = (n - i) as nat;
                    assert(g_sp_attr_pair()(buf@.skip(p as int)) is None);
                    assert(sp_items_n(buf@.skip(p as int), m, g_sp_attr_pair()) is None);
                }
                return None;
            },
        };
        proof {
            let m = (n - i) as nat;
            let b_cur = buf@.skip(p as int);
            let b_next = buf@.skip(p2 as int);
            assert(g_sp_attr_pair()(b_cur) == Some(((k@, v@), b_next)));
            assert(attrs_view(out@.push((k, v))) =~= attrs_view(out@).push((k@, v@)));
            match sp_items_n(b_next, (m - 1) as nat, g_sp_attr_pair()) {
                Some((xs, r2)) => {
                    assert(sp_items_n(b_cur, m, g_sp_attr_pair()) == Some(
                        (seq![(k@, v@)] + xs, r2),
                    ));
                    assert(attrs_view(out@) + (seq![(k@, v@)] + xs) =~= attrs_view(out@).push(
                        (k@, v@),
                    ) + xs);
                },
                None => {
                    assert(sp_items_n(b_cur, m, g_sp_attr_pair()) is None);
                },
            }
        }
        out.push((k, v));
        p = p2;
        i = i + 1;
    }
    proof {
        assert(sp_items_n(buf@.skip(p as int), 0, g_sp_attr_pair()) == Some(
            (Seq::<(Seq<char>, AttributeValueV)>::empty(), buf@.skip(p as int)),
        ));
        assert(attrs_view(out@) + Seq::<(Seq<char>, AttributeValueV)>::empty() =~= attrs_view(
            out@,
        ));
    }
    Some((out, p))
}

pub fn rd_opt_attrs(buf: &Vec<u8>, pos: usize) -> (r: Option<(Option<Attributes>, usize)>)
    requires
        pos <= buf@.len(),
    ensures
        match (r, sp_opt_attrs(buf@.skip(pos as int))) {
            (Some((v, p)), Some((sv, rest))) => opt_attrs_view(v) == sv && pos <= p <= buf@.len()
                && buf@.skip(p as int) == rest,
            (None, None) => true,
            _ => false,
        },
{
    if pos == buf.len() {
        return None;
    }
    let t = buf[pos];
    let p1 = pos + 1;
    proof {
        assert(buf@.skip(pos as int)[0] == buf@[pos as int]);
        assert(buf@.skip(pos as int).skip(1) =~= buf@.skip(pos as int + 1));
    }
    if t == 0 {
        Some((None, p1))
    } else if t == 1 {
        match rd_attrs(buf, p1) {
            Some((a, p2)) => Some((Some(a), p2)),
            None => None,
        }
    } else {
        None
    }
}

pub fn rd_entry(buf: &Vec<u8>, pos: usize) -> (r: Option<(VectorEntry, usize)>)
    requires
        pos <= buf@.len(),
    ensures
        match (r, sp_entry(buf@.skip(pos as int))) {
            (Some((v, p)), Some((sv, rest))) => v@ == sv && pos <= p <= buf@.len() && buf@.skip(
                p as int,
            ) == rest,
            (None, None) => true,
            _ => false,
        },
{
    let (id, p1) = match rd_str(buf, pos) {
        Some(x) => x,
        None => {
            return None;
        },
    };
    let (values, p2) = match rd_u32_list(buf, p1) {
        Some(x) => x,
        None => {
            return None;
        },
    };
    let (attributes, p3) = match rd_opt_attrs(buf, p2) {
        Some(x) => x,
        None => {
            return None;
        },
    };
    Some((VectorEntry { id, values, attributes }, p3))
}

#[verifier::loop_isolation(false)]
pub fn rd_entries(buf: &Vec<u8>, pos: usize) -> (r: Option<(Vec<VectorEntry>, usize)>)
    requires
        pos <= buf@.len(),
    ensures
        match (r, sp_list(buf@.skip(pos as int), g_sp_entry())) {
            (Some((v, p)), Some((sv, rest))) => entries_view(v@) == sv && pos <= p <= buf@.len()
                && buf@.skip(p as int) == rest,
            (None, None) => true,
            _ => false,
        },
{
    let (n, p1) = match rd_u64(buf, pos) {
        Some(x) => x,
        None => {
            return None;
        },
    };
    let mut out: Vec<VectorEntry> = Vec::new();
    let mut p = p1;
    let mut i: u64 = 0;
    proof {
        match sp_items_n(buf@.skip(p1 as int), n as nat, g_sp_entry()) {
            Some((xs, r2)) => {
                assert(Seq::<VectorEntryV>::empty() + xs =~= xs);
            },
            None => {},
        }
        assert(entries_view(out@) =~= Seq::<VectorEntryV>::empty());
    }
    while i < n
        invariant
            i <= n,
            pos <= p1 <= p <= buf@.len(),
            out@.len() == i,
            sp_items_n(buf@.skip(p1 as int), n as nat, g_sp_entry()) == sp_items_prepend(
                entries_view(out@),
                sp_items_n(buf@.skip(p as int), (n - i) as nat, g_sp_entry()),
            ),
        decreases n - i,
    {
        match rd_entry(buf, p) {
            Some((v, p2)) => {
                proof {
                    let m = (n - i) as nat;
                    let b_cur = buf@.skip(p as int);
                    let b_next = buf@.skip(p2 as int);
                    assert(g_sp_entry()(b_cur) == Some((v@, b_next)));
                    assert(entries_view(out@.push(v)) =~= entries_view(out@).push(v@));
                    match sp_items_n(b_next, (m - 1) as nat, g_sp_entry()) {
                        Some((xs, r2)) => {
                            assert(sp_items_n(b_cur, m, g_sp_entry()) == Some((seq![v@] + xs, r2)));
                            assert(entries_view(out@) + (seq![v@] + xs) =~= entries_view(
                                out@,
                            ).push(v@) + xs);
                        },
                        None => {
                            assert(sp_items_n(b_cur, m, g_sp_entry()) is None);
                        },
                    }
                }
                out.push(v);
                p = p2;
                i = i + 1;
            },
            None => {
                proof {
                    let m = (n - i) as nat;
                    assert(g_sp_entry()(buf@.skip(p as int)) is None);
                    assert(sp_items_n(buf@.skip(p as int), m, g_sp_entry()) is None);
                }
                return None;
            },
        }
    }
    proof {
        assert(sp_items_n(buf@.skip(p as int), 0, g_sp_entry()) == Some(
            (Seq::<VectorEntryV>::empty(), buf@.skip(p as int)),
        ));
        assert(entries_view(out@) + Seq::<VectorEntryV>::empty() =~= entries_view(out@));
    }
    Some((out, p))
}

#[verifier::loop_isolation(false)]
pub fn rd_vec_list(buf: &Vec<u8>, pos: usize) -> (r: Option<(Vec<Vec<u32>>, usize)>)
    requires
        pos <= buf@.len(),
    ensures
        match (r, sp_list(buf@.skip(pos as int), g_sp_vec())) {
            (Some((v, p)), Some((sv, rest))) => vecs_view(v@) == sv && pos <= p <= buf@.len()
                && buf@.skip(p as int) == rest,
            (None, None) => true,
            _ => false,
        },
{
    let (n, p1) = match rd_u64(buf, pos) {
        Some(x) => x,
        None => {
            return None;
        },
    };
    let mut out: Vec<Vec<u32>> = Vec::new();
    let mut p = p1;
    let mut i: u64 = 0;
    proof {
        match sp_items_n(buf@.skip(p1 as int), n as nat, g_sp_vec()) {
            Some((xs, r2)) => {
                assert(Seq::<Seq<u32>>::empty() + xs =~= xs);
            },
            None => {},
        }
        assert(vecs_view(out@) =~= Seq::<Seq<u32>>::empty());
    }
    while i < n
        invariant
            i <= n,
            pos <= p1 <= p <= buf@.len(),
            out@.len() == i,
            sp_items_n(buf@.skip(p1 as int), n as nat, g_sp_vec()) == sp_items_prepend(
                vecs_view(out@),
                sp_items_n(buf@.skip(p as int), (n - i) as nat, g_sp_vec()),
            ),
        decreases n - i,
    {
        match rd_u32_list(buf, p) {
            Some((v, p2)) => {
                proof {
                    let m = (n - i) as nat;
                    let b_cur = buf@.skip(p as int);
                    let b_next = buf@.skip(p2 as int);
                    assert(g_sp_vec()(b_cur) == Some((v@, b_next)));
                    assert(vecs_view(out@.push(v)) =~= vecs_view(out@).push(v@));
                    match sp_items_n(b_next, (m - 1) as nat, g_sp_vec()) {
                        Some((xs, r2)) => {
                            assert(sp_items_n(b_cur, m, g_sp_vec()) == Some((seq![v@] + xs, r2)));
                            assert(vecs_view(out@) + (seq![v@] + xs) =~= vecs_view(out@).push(v@)
                                + xs);
                        },
                        None => {
                            assert(sp_items_n(b_cur, m, g_sp_vec()) is None);
                        },
                    }
                }
                out.push(v);
                p = p2;
                i = i + 1;
            },
            None => {
                proof {
                    let m = (n - i) as nat;
                    assert(g_sp_vec()(buf@.skip(p as int)) is None);
                    assert(sp_items_n(buf@.skip(p as int), m, g_sp_vec()) is None);
                }
                return None;
            },
        }
    }
    proof {
        assert(sp_items_n(buf@.skip(p as int), 0, g_sp_vec()) == Some(
            (Seq::<Seq<u32>>::empty(), buf@.skip(p as int)),
        ));
        assert(vecs_view(out@) + Seq::<Seq<u32>>::empty() =~= vecs_view(out@));
    }
    Some((out, p))
}

} // verus!
