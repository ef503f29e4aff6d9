//! Ordering and equality of IEEE-754 bit patterns, stated and proved over
//! plain integers.
//!
//! The engine never performs floating point arithmetic: a single-precision
//! value travels as its bit pattern in a `u32`, a double-precision value as a
//! `u64`. Every finite value is an integer multiple of the smallest
//! subnormal, so each pattern is mapped to that integer (its *scaled value*)
//! and all comparisons are stated against it.

use core::cmp::Ordering;
use vstd::arithmetic::mul::{
    lemma_mul_equality_converse, lemma_mul_inequality, lemma_mul_is_associative,
    lemma_mul_left_inequality, lemma_mul_strict_inequality, lemma_mul_strict_inequality_converse,
    lemma_mul_unary_negation, lemma_mul_upper_bound,
};
use vstd::arithmetic::power2::{
    lemma2_to64, lemma2_to64_rest, lemma_pow2_adds, lemma_pow2_pos, lemma_pow2_strictly_increases,
    lemma_pow2_unfold, pow2,
};
use vstd::prelude::*;

verus! {

// ---------------------------------------------------------------------------
// Field extraction (specification level)
// ---------------------------------------------------------------------------

pub open spec fn f64_sign(b: u64) -> bool {
    b >= 0x8000_0000_0000_0000
}

pub open spec fn f64_exp(b: u64) -> u64 {
    (b >> 52) & 0x7ff
}

pub open spec fn f64_frac(b: u64) -> u64 {
    b & 0x000f_ffff_ffff_ffff
}

pub open spec fn f64_is_nan(b: u64) -> bool {
    f64_exp(b) == 0x7ff && f64_frac(b) != 0
}

pub open spec fn f32_sign(b: u32) -> bool {
    b >= 0x8000_0000
}

pub open spec fn f32_exp(b: u32) -> u32 {
    (b >> 23) & 0xff
}

pub open spec fn f32_frac(b: u32) -> u32 {
    b & 0x007f_ffff
}

pub open spec fn f32_is_nan(b: u32) -> bool {
    f32_exp(b) == 0xff && f32_frac(b) != 0
}

// ---------------------------------------------------------------------------
// Scaled magnitudes and values
// ---------------------------------------------------------------------------

/// Magnitude of a finite value with biased exponent `e`, fraction `m` and a
/// fraction width of `mbits` bits, scaled so that the smallest subnormal has
/// magnitude 1.
pub open spec fn fp_mag(e: int, m: int, mbits: nat) -> int {
    if e == 0 {
        m
    } else {
        (m + pow2(mbits)) * pow2((e - 1) as nat)
    }
}

/// Scaled magnitude of a double-precision pattern. An infinity is mapped
/// above every finite magnitude.
pub open spec fn f64_mag(b: u64) -> int {
    if f64_exp(b) == 0x7ff {
        pow2(2200) as int
    } else {
        fp_mag(f64_exp(b) as int, f64_frac(b) as int, 52)
    }
}

/// Scaled (by 2^1074) value of a non-NaN double-precision pattern.
pub open spec fn f64_val(b: u64) -> int {
    if f64_sign(b) {
        -f64_mag(b)
    } else {
        f64_mag(b)
    }
}

/// Scaled magnitude of a single-precision pattern.
pub open spec fn f32_mag(b: u32) -> int {
    if f32_exp(b) == 0xff {
        pow2(400) as int
    } else {
        fp_mag(f32_exp(b) as int, f32_frac(b) as int, 23)
    }
}

/// Scaled (by 2^149) value of a non-NaN single-precision pattern.
pub open spec fn f32_val(b: u32) -> int {
    if f32_sign(b) {
        -f32_mag(b)
    } else {
        f32_mag(b)
    }
}

/// Total sort key for a score bit pattern: finite values and infinities in
/// numeric order, every NaN pattern above positive infinity.
pub open spec fn score_key(b: u32) -> int {
    if f32_is_nan(b) {
        pow2(401) as int
    } else {
        f32_val(b)
    }
}

// ---------------------------------------------------------------------------
// Magnitude lemmas
// ---------------------------------------------------------------------------

proof fn lemma_fp_mag_nonneg(e: int, m: int, mbits: nat)
    requires
        0 <= e,
        0 <= m,
    ensures
        fp_mag(e, m, mbits) >= 0,
{
    if e != 0 {
        lemma_pow2_pos(mbits);
        lemma_pow2_pos((e - 1) as nat);
        lemma_mul_strict_inequality(0, m + pow2(mbits), pow2((e - 1) as nat) as int);
    }
}

proof fn lemma_fp_mag_pos(e: int, m: int, mbits: nat)
    requires
        0 <= e,
        0 <= m,
        e != 0 || m != 0,
    ensures
        fp_mag(e, m, mbits) > 0,
{
    if e != 0 {
        lemma_pow2_pos(mbits);
        lemma_pow2_pos((e - 1) as nat);
        lemma_mul_strict_inequality(0, m + pow2(mbits), pow2((e - 1) as nat) as int);
    }
}

/// The magnitude is strictly monotone in the pair (exponent, fraction).
proof fn lemma_fp_mag_mono(e1: int, m1: int, e2: int, m2: int, mbits: nat)
    requires
        0 <= e1,
        0 <= e2,
        0 <= m1 < pow2(mbits),
        0 <= m2 < pow2(mbits),
        e1 < e2 || (e1 == e2 && m1 < m2),
    ensures
        fp_mag(e1, m1, mbits) < fp_mag(e2, m2, mbits),
{
    let p = pow2(mbits) as int;
    lemma_pow2_pos(mbits);
    if e1 == e2 {
        if e1 != 0 {
            lemma_pow2_pos((e1 - 1) as nat);
            lemma_mul_strict_inequality(m1 + p, m2 + p, pow2((e1 - 1) as nat) as int);
        }
    } else {
        // e1 < e2, so e2 >= 1 and fp_mag(e2, m2) >= p * pow2(e2 - 1).
        let c2 = pow2((e2 - 1) as nat) as int;
        lemma_pow2_pos((e2 - 1) as nat);
        lemma_mul_inequality(p, m2 + p, c2);
        lemma_pow2_adds(mbits, (e2 - 1) as nat);
        assert(p * c2 == pow2((mbits + e2 - 1) as nat));
        if e1 == 0 {
            // fp_mag(e1, m1) = m1 < p <= p * c2.
            if e2 > 1 {
                lemma_pow2_strictly_increases(mbits, (mbits + e2 - 1) as nat);
            }
        } else {
            // fp_mag(e1, m1) < 2p * pow2(e1 - 1) = pow2(mbits + e1)
            //               <= pow2(mbits + e2 - 1) <= fp_mag(e2, m2).
            let c1 = pow2((e1 - 1) as nat) as int;
            lemma_pow2_pos((e1 - 1) as nat);
            lemma_pow2_unfold((mbits + 1) as nat);
            assert(2 * p == pow2((mbits + 1) as nat));
            lemma_mul_strict_inequality(m1 + p, 2 * p, c1);
            lemma_pow2_adds((mbits + 1) as nat, (e1 - 1) as nat);
            assert((2 * p) * c1 == pow2((mbits + e1) as nat));
            if mbits + e1 < mbits + e2 - 1 {
                lemma_pow2_strictly_increases((mbits + e1) as nat, (mbits + e2 - 1) as nat);
            }
        }
    }
}

/// Every finite double-precision magnitude lies below 2^2099.
proof fn lemma_f64_finite_mag_bound(e: int, m: int)
    requires
        0 <= e <= 0x7fe,
        0 <= m < pow2(52),
    ensures
        fp_mag(e, m, 52) < pow2(2099),
{
    lemma_pow2_pos(52);
    if e == 0 {
        lemma_pow2_strictly_increases(52, 2099);
    } else {
        lemma_pow2_unfold(53);
        if e - 1 < 2045 {
            lemma_pow2_strictly_increases((e - 1) as nat, 2045);
        }
        lemma_pow2_pos((e - 1) as nat);
        lemma_pow2_pos(2045);
        lemma_mul_upper_bound(
            m + pow2(52),
            pow2(53) - 1,
            pow2((e - 1) as nat) as int,
            pow2(2045) as int,
        );
        lemma_mul_strict_inequality(pow2(53) - 1, pow2(53) as int, pow2(2045) as int);
        lemma_pow2_adds(53, 2045);
        assert(pow2(53) * pow2(2045) == pow2(2098));
        lemma_pow2_strictly_increases(2098, 2099);
    }
}

/// Every finite single-precision magnitude lies below 2^279.
proof fn lemma_f32_finite_mag_bound(e: int, m: int)
    requires
        0 <= e <= 0xfe,
        0 <= m < pow2(23),
    ensures
        fp_mag(e, m, 23) < pow2(279),
{
    lemma_pow2_pos(23);
    if e == 0 {
        lemma_pow2_strictly_increases(23, 279);
    } else {
        lemma_pow2_unfold(24);
        if e - 1 < 254 {
            lemma_pow2_strictly_increases((e - 1) as nat, 254);
        }
        lemma_pow2_pos((e - 1) as nat);
        lemma_pow2_pos(254);
        lemma_mul_upper_bound(
            m + pow2(23),
            pow2(24) - 1,
            pow2((e - 1) as nat) as int,
            pow2(254) as int,
        );
        lemma_mul_strict_inequality(pow2(24) - 1, pow2(24) as int, pow2(254) as int);
        lemma_pow2_adds(24, 254);
        assert(pow2(24) * pow2(254) == pow2(278));
        lemma_pow2_strictly_increases(278, 279);
    }
}

/// On sign-free double-precision patterns (no NaN), the numeric magnitude
/// order is exactly the integer order of the patterns.
proof fn lemma_f64_abs_order(a: u64, b: u64)
    requires
        a < b,
        b <= 0x7ff0_0000_0000_0000,
    ensures
        f64_mag(a) < f64_mag(b),
{
    assert(((a >> 52) & 0x7ff) < ((b >> 52) & 0x7ff) || (((a >> 52) & 0x7ff) == ((b >> 52) & 0x7ff)
        && (a & 0x000f_ffff_ffff_ffff) < (b & 0x000f_ffff_ffff_ffff))) by (bit_vector)
        requires
            a < b,
            b <= 0x7ff0_0000_0000_0000,
    ;
    assert(((a >> 52) & 0x7ff) <= 0x7ff && (a & 0x000f_ffff_ffff_ffff) < 0x0010_0000_0000_0000 && (
    b & 0x000f_ffff_ffff_ffff) < 0x0010_0000_0000_0000) by (bit_vector);
    assert(((a >> 52) & 0x7ff) <= 0x7fe) by (bit_vector)
        requires
            a < 0x7ff0_0000_0000_0000,
    ;
    lemma2_to64();
    lemma2_to64_rest();
    assert(pow2(52) == 0x0010_0000_0000_0000);
    if b == 0x7ff0_0000_0000_0000 {
        assert(((0x7ff0_0000_0000_0000u64 >> 52) & 0x7ff) == 0x7ff) by (bit_vector);
        lemma_f64_finite_mag_bound(f64_exp(a) as int, f64_frac(a) as int);
        lemma_pow2_strictly_increases(2099, 2200);
    } else {
        assert(((b >> 52) & 0x7ff) <= 0x7fe) by (bit_vector)
            requires
                b < 0x7ff0_0000_0000_0000,
        ;
        lemma_fp_mag_mono(
            f64_exp(a) as int,
            f64_frac(a) as int,
            f64_exp(b) as int,
            f64_frac(b) as int,
            52,
        );
    }
}

/// On sign-free single-precision patterns (no NaN), the numeric magnitude
/// order is exactly the integer order of the patterns.
proof fn lemma_f32_abs_order(a: u32, b: u32)
    requires
        a < b,
        b <= 0x7f80_0000,
    ensures
        f32_mag(a) < f32_mag(b),
{
    assert(((a >> 23) & 0xff) < ((b >> 23) & 0xff) || (((a >> 23) & 0xff) == ((b >> 23) & 0xff) && (
    a & 0x007f_ffff) < (b & 0x007f_ffff))) by (bit_vector)
        requires
            a < b,
            b <= 0x7f80_0000,
    ;
    assert(((a >> 23) & 0xff) <= 0xff && (a & 0x007f_ffff) < 0x0080_0000 && (b & 0x007f_ffff)
        < 0x0080_0000) by (bit_vector);
    assert(((a >> 23) & 0xff) <= 0xfe) by (bit_vector)
        requires
            a < 0x7f80_0000,
    ;
    lemma2_to64();
    assert(pow2(23) == 0x0080_0000);
    if b == 0x7f80_0000 {
        assert(((0x7f80_0000u32 >> 23) & 0xff) == 0xff) by (bit_vector);
        lemma_f32_finite_mag_bound(f32_exp(a) as int, f32_frac(a) as int);
        lemma_pow2_strictly_increases(279, 400);
    } else {
        assert(((b >> 23) & 0xff) <= 0xfe) by (bit_vector)
            requires
                b < 0x7f80_0000,
        ;
        lemma_fp_mag_mono(
            f32_exp(a) as int,
            f32_frac(a) as int,
            f32_exp(b) as int,
            f32_frac(b) as int,
            23,
        );
    }
}

/// Magnitude order on sign-free patterns is exactly the integer order.
proof fn lemma_f64_mag_order_iff(x: u64, y: u64)
    requires
        x <= 0x7ff0_0000_0000_0000,
        y <= 0x7ff0_0000_0000_0000,
    ensures
        (f64_mag(x) < f64_mag(y)) == (x < y),
        (f64_mag(x) == f64_mag(y)) == (x == y),
{
    if x < y {
        lemma_f64_abs_order(x, y);
    } else if y < x {
        lemma_f64_abs_order(y, x);
    }
}

proof fn lemma_f32_mag_order_iff(x: u32, y: u32)
    requires
        x <= 0x7f80_0000,
        y <= 0x7f80_0000,
    ensures
        (f32_mag(x) < f32_mag(y)) == (x < y),
        (f32_mag(x) == f32_mag(y)) == (x == y),
{
    if x < y {
        lemma_f32_abs_order(x, y);
    } else if y < x {
        lemma_f32_abs_order(y, x);
    }
}

/// Clearing the sign bit keeps the magnitude; the result is a sign-free
/// pattern that is zero exactly when the magnitude is zero.
proof fn lemma_f64_strip_sign(b: u64)
    requires
        !f64_is_nan(b),
    ensures
        f64_mag(b) == f64_mag(if f64_sign(b) { (b - 0x8000_0000_0000_0000) as u64 } else { b }),
        (if f64_sign(b) { (b - 0x8000_0000_0000_0000) as u64 } else { b }) <= 0x7ff0_0000_0000_0000,
        f64_mag(b) >= 0,
        (f64_mag(b) == 0) == ((if f64_sign(b) { (b - 0x8000_0000_0000_0000) as u64 } else { b }) == 0),
{
    let ab = if f64_sign(b) { (b - 0x8000_0000_0000_0000) as u64 } else { b };
    assert(((ab >> 52) & 0x7ff) == ((b >> 52) & 0x7ff) && (ab & 0x000f_ffff_ffff_ffff) == (b
        & 0x000f_ffff_ffff_ffff)) by (bit_vector)
        requires
            ab == (if b >= 0x8000_0000_0000_0000 { (b - 0x8000_0000_0000_0000) as u64 } else { b }),
    ;
    assert(ab <= 0x7ff0_0000_0000_0000) by (bit_vector)
        requires
            ab < 0x8000_0000_0000_0000,
            !(((ab >> 52) & 0x7ff) == 0x7ff && (ab & 0x000f_ffff_ffff_ffff) != 0),
    ;
    assert(((ab >> 52) & 0x7ff) == 0 && (ab & 0x000f_ffff_ffff_ffff) == 0 ==> ab == 0)
        by (bit_vector)
        requires
            ab < 0x8000_0000_0000_0000,
    ;
    assert(((0u64 >> 52) & 0x7ff) == 0 && (0u64 & 0x000f_ffff_ffff_ffff) == 0) by (bit_vector);
    if f64_exp(ab) == 0x7ff {
        lemma_pow2_pos(2200);
    } else {
        lemma_fp_mag_nonneg(f64_exp(ab) as int, f64_frac(ab) as int, 52);
        if ab != 0 {
            lemma_fp_mag_pos(f64_exp(ab) as int, f64_frac(ab) as int, 52);
        }
    }
}

proof fn lemma_f32_strip_sign(b: u32)
    requires
        !f32_is_nan(b),
    ensures
        f32_mag(b) == f32_mag(if f32_sign(b) { (b - 0x8000_0000) as u32 } else { b }),
        (if f32_sign(b) { (b - 0x8000_0000) as u32 } else { b }) <= 0x7f80_0000,
        f32_mag(b) >= 0,
        (f32_mag(b) == 0) == ((if f32_sign(b) { (b - 0x8000_0000) as u32 } else { b }) == 0),
{
    let ab = if f32_sign(b) { (b - 0x8000_0000) as u32 } else { b };
    assert(((ab >> 23) & 0xff) == ((b >> 23) & 0xff) && (ab & 0x007f_ffff) == (b & 0x007f_ffff))
        by (bit_vector)
        requires
            ab == (if b >= 0x8000_0000 { (b - 0x8000_0000) as u32 } else { b }),
    ;
    assert(ab <= 0x7f80_0000) by (bit_vector)
        requires
            ab < 0x8000_0000,
            !(((ab >> 23) & 0xff) == 0xff && (ab & 0x007f_ffff) != 0),
    ;
    assert(((ab >> 23) & 0xff) == 0 && (ab & 0x007f_ffff) == 0 ==> ab == 0) by (bit_vector)
        requires
            ab < 0x8000_0000,
    ;
    assert(((0u32 >> 23) & 0xff) == 0 && (0u32 & 0x007f_ffff) == 0) by (bit_vector);
    if f32_exp(ab) == 0xff {
        lemma_pow2_pos(400);
    } else {
        lemma_fp_mag_nonneg(f32_exp(ab) as int, f32_frac(ab) as int, 23);
        if ab != 0 {
            lemma_fp_mag_pos(f32_exp(ab) as int, f32_frac(ab) as int, 23);
        }
    }
}

// ---------------------------------------------------------------------------
// Executable comparisons
// ---------------------------------------------------------------------------

/// `2^k` for `k <= 63`, computed by doubling.
pub fn pow2_u64(k: u64) -> (r: u64)
    requires
        k <= 63,
    ensures
        r == pow2(k as nat),
{
    let mut r: u64 = 1;
    let mut i: u64 = 0;
    proof {
        lemma2_to64();
    }
    while i < k
        invariant
            i <= k,
            k <= 63,
            r == pow2(i as nat),
        decreases k - i,
    {
        proof {
            lemma2_to64();
            lemma2_to64_rest();
            lemma_pow2_unfold((i + 1) as nat);
            if (i as nat) < 62 {
                lemma_pow2_strictly_increases(i as nat, 62);
            }
        }
        r = r * 2;
        i = i + 1;
    }
    r
}

/// Numeric order of two non-NaN double-precision patterns.
pub fn f64_lt(a: u64, b: u64) -> (r: bool)
    requires
        !f64_is_nan(a),
        !f64_is_nan(b),
    ensures
        r == (f64_val(a) < f64_val(b)),
{
    let sa = a >= 0x8000_0000_0000_0000;
    let sb = b >= 0x8000_0000_0000_0000;
    let ma = if sa {
        a - 0x8000_0000_0000_0000
    } else {
        a
    };
    let mb = if sb {
        b - 0x8000_0000_0000_0000
    } else {
        b
    };
    proof {
        lemma_f64_strip_sign(a);
        lemma_f64_strip_sign(b);
        lemma_f64_mag_order_iff(ma, mb);
    }
    if sa && sb {
        mb < ma
    } else if !sa && !sb {
        ma < mb
    } else if sa {
        ma != 0 || mb != 0
    } else {
        false
    }
}

/// `f64_val(a) <= f64_val(b)` for non-NaN patterns.
pub fn f64_le(a: u64, b: u64) -> (r: bool)
    requires
        !f64_is_nan(a),
        !f64_is_nan(b),
    ensures
        r == (f64_val(a) <= f64_val(b)),
{
    !f64_lt(b, a)
}

/// Numeric equality (so `-0.0 == +0.0`) of two non-NaN patterns.
pub fn f64_val_eq(a: u64, b: u64) -> (r: bool)
    requires
        !f64_is_nan(a),
        !f64_is_nan(b),
    ensures
        r == (f64_val(a) == f64_val(b)),
{
    let sa = a >= 0x8000_0000_0000_0000;
    let sb = b >= 0x8000_0000_0000_0000;
    let ma = if sa {
        a - 0x8000_0000_0000_0000
    } else {
        a
    };
    let mb = if sb {
        b - 0x8000_0000_0000_0000
    } else {
        b
    };
    proof {
        lemma_f64_strip_sign(a);
        lemma_f64_strip_sign(b);
        lemma_f64_mag_order_iff(ma, mb);
    }
    if sa == sb {
        ma == mb
    } else {
        ma == 0 && mb == 0
    }
}

/// Exchanging both sides of a comparison by a common positive factor keeps
/// the order.
proof fn lemma_cmp_cancel(x: int, y: int, c: int)
    requires
        c > 0,
    ensures
        (x * c < y * c) == (x < y),
        (x * c == y * c) == (x == y),
{
    if x < y {
        lemma_mul_strict_inequality(x, y, c);
    }
    if y < x {
        lemma_mul_strict_inequality(y, x, c);
    }
}

/// Compare `n * 2^1074` with the scaled magnitude of the sign-free pattern
/// `fb`, without big-integer arithmetic.
fn cmp_mag_u64(n: u64, fb: u64) -> (r: Ordering)
    requires
        1 <= n <= 0x8000_0000_0000_0000,
        fb <= 0x7ff0_0000_0000_0000,
    ensures
        (r == Ordering::Less) == ((n as int) * pow2(1074) < f64_mag(fb)),
        (r == Ordering::Equal) == ((n as int) * pow2(1074) == f64_mag(fb)),
        (r == Ordering::Greater) == ((n as int) * pow2(1074) > f64_mag(fb)),
{
    let e = (fb >> 52) & 0x7ff;
    let m = fb & 0x000f_ffff_ffff_ffff;
    proof {
        lemma2_to64();
        lemma2_to64_rest();
        assert(((fb >> 52) & 0x7ff) <= 0x7ff && (fb & 0x000f_ffff_ffff_ffff)
            < 0x0010_0000_0000_0000) by (bit_vector);
        assert(fb == 0x7ff0_0000_0000_0000 ==> ((fb >> 52) & 0x7ff) == 0x7ff) by (bit_vector);
        assert(((fb >> 52) & 0x7ff) == 0x7ff ==> fb == 0x7ff0_0000_0000_0000) by (bit_vector)
            requires
                fb <= 0x7ff0_0000_0000_0000,
        ;
        lemma_pow2_pos(1074);
    }
    if e == 0x7ff {
        // Infinity: n * 2^1074 <= 2^63 * 2^1074 = 2^1137 < 2^2200.
        proof {
            lemma_mul_inequality(n as int, pow2(63) as int, pow2(1074) as int);
            lemma_pow2_adds(63, 1074);
            lemma_pow2_strictly_increases(1137, 2200);
        }
        Ordering::Less
    } else if e == 0 {
        // Subnormal: the magnitude is below 2^52, while n * 2^1074 >= 2^1074.
        proof {
            lemma_mul_inequality(1, n as int, pow2(1074) as int);
            lemma_pow2_strictly_increases(52, 1074);
        }
        Ordering::Greater
    } else if e <= 1074 {
        // Magnitude = M * 2^(e-1) with M = m + 2^52; comparing against
        // n * 2^1074 = (n * 2^sh) * 2^(e-1) where sh = 1075 - e.
        let sh = 1075 - e;
        proof {
            let c = pow2((e - 1) as nat) as int;
            lemma_pow2_pos((e - 1) as nat);
            lemma_pow2_adds((sh) as nat, (e - 1) as nat);
            lemma_mul_is_associative(n as int, pow2(sh as nat) as int, c);
            assert((n as int) * pow2(1074) == ((n as int) * pow2(sh as nat)) * c);
            lemma_cmp_cancel((n as int) * pow2(sh as nat), (m + 0x0010_0000_0000_0000) as int, c);
        }
        if sh >= 53 {
            proof {
                lemma_mul_inequality(1, n as int, pow2(sh as nat) as int);
                if sh > 53 {
                    lemma_pow2_strictly_increases(53, sh as nat);
                }
            }
            Ordering::Greater
        } else {
            let p = pow2_u64(sh);
            proof {
                lemma_mul_upper_bound(n as int, pow2(63) as int, p as int, pow2(52) as int);
                lemma_pow2_adds(63, 52);
                lemma_pow2_adds(64, 51);
                assert(pow2(115) < 0x1_0000_0000_0000_0000_0000_0000_0000_0000);
            }
            let lhs: u128 = (n as u128) * (p as u128);
            let rhs: u128 = (m as u128) + 0x0010_0000_0000_0000u128;
            if lhs < rhs {
                Ordering::Less
            } else if lhs == rhs {
                Ordering::Equal
            } else {
                Ordering::Greater
            }
        }
    } else {
        // Magnitude = (M * 2^ee) * 2^1074 with ee = e - 1075.
        let ee = e - 1075;
        proof {
            let c = pow2(1074) as int;
            lemma_pow2_adds(ee as nat, 1074);
            lemma_mul_is_associative((m + 0x0010_0000_0000_0000) as int, pow2(ee as nat) as int, c);
            assert(f64_mag(fb) == ((m + 0x0010_0000_0000_0000) as int) * (pow2((e - 1) as nat) as int));
            assert(pow2((e - 1) as nat) == pow2(ee as nat) * pow2(1074));
            lemma_cmp_cancel(n as int, ((m + 0x0010_0000_0000_0000) as int) * (pow2(ee as nat) as int), c);
        }
        if ee >= 12 {
            proof {
                lemma_mul_inequality(pow2(52) as int, (m + 0x0010_0000_0000_0000) as int, pow2(ee as nat) as int);
                lemma_mul_left_inequality(pow2(52) as int, pow2(12) as int, pow2(ee as nat) as int);
                if ee > 12 {
                    lemma_pow2_strictly_increases(12, ee as nat);
                }
                lemma_pow2_adds(52, 12);
            }
            Ordering::Less
        } else {
            let p = pow2_u64(ee);
            proof {
                lemma_mul_upper_bound((m + 0x0010_0000_0000_0000) as int, pow2(53) as int, p as int, pow2(11) as int);
                lemma_pow2_adds(53, 11);
            }
            let rhs: u128 = ((m as u128) + 0x0010_0000_0000_0000u128) * (p as u128);
            let lhs: u128 = n as u128;
            if lhs < rhs {
                Ordering::Less
            } else if lhs == rhs {
                Ordering::Equal
            } else {
                Ordering::Greater
            }
        }
    }
}

/// Compare a 64-bit integer with a non-NaN double-precision pattern. Both
/// sides are scaled by 2^1074, so the comparison is exact.
pub fn cmp_i64_f64(n: i64, b: u64) -> (r: Ordering)
    requires
        !f64_is_nan(b),
    ensures
        (r == Ordering::Less) == ((n as int) * pow2(1074) < f64_val(b)),
        (r == Ordering::Equal) == ((n as int) * pow2(1074) == f64_val(b)),
        (r == Ordering::Greater) == ((n as int) * pow2(1074) > f64_val(b)),
{
    let sb = b >= 0x8000_0000_0000_0000;
    let mb = if sb {
        b - 0x8000_0000_0000_0000
    } else {
        b
    };
    let nneg = n < 0;
    let nabs: u64 = if n < 0 {
        let t = -(n + 1);
        (t as u64) + 1
    } else {
        n as u64
    };
    proof {
        lemma_f64_strip_sign(b);
        lemma_pow2_pos(1074);
        lemma_mul_unary_negation(nabs as int, pow2(1074) as int);
        if nabs > 0 {
            lemma_mul_strict_inequality(0, nabs as int, pow2(1074) as int);
        }
    }
    if nabs == 0 && mb == 0 {
        Ordering::Equal
    } else if nabs == 0 {
        if sb {
            Ordering::Greater
        } else {
            Ordering::Less
        }
    } else if mb == 0 {
        if nneg {
            Ordering::Less
        } else {
            Ordering::Greater
        }
    } else if nneg != sb {
        if nneg {
            Ordering::Less
        } else {
            Ordering::Greater
        }
    } else {
        let c = cmp_mag_u64(nabs, mb);
        if nneg {
            match c {
                Ordering::Less => Ordering::Greater,
                Ordering::Equal => Ordering::Equal,
                Ordering::Greater => Ordering::Less,
            }
        } else {
            c
        }
    }
}

/// Numeric order of two non-NaN single-precision patterns.
pub fn f32_lt(a: u32, b: u32) -> (r: bool)
    requires
        !f32_is_nan(a),
        !f32_is_nan(b),
    ensures
        r == (f32_val(a) < f32_val(b)),
{
    let sa = a >= 0x8000_0000;
    let sb = b >= 0x8000_0000;
    let ma = if sa {
        a - 0x8000_0000
    } else {
        a
    };
    let mb = if sb {
        b - 0x8000_0000
    } else {
        b
    };
    proof {
        lemma_f32_strip_sign(a);
        lemma_f32_strip_sign(b);
        lemma_f32_mag_order_iff(ma, mb);
    }
    if sa && sb {
        mb < ma
    } else if !sa && !sb {
        ma < mb
    } else if sa {
        ma != 0 || mb != 0
    } else {
        false
    }
}

/// Total order on score patterns: numeric order on non-NaN values, every NaN
/// pattern equal and above positive infinity.
pub fn score_cmp(a: u32, b: u32) -> (r: Ordering)
    ensures
        (r == Ordering::Less) == (score_key(a) < score_key(b)),
        (r == Ordering::Equal) == (score_key(a) == score_key(b)),
        (r == Ordering::Greater) == (score_key(a) > score_key(b)),
{
    let na = f32_bits_is_nan(a);
    let nb = f32_bits_is_nan(b);
    if na && nb {
        Ordering::Equal
    } else if na {
        proof {
            lemma_score_key_below_nan(b);
        }
        Ordering::Greater
    } else if nb {
        proof {
            lemma_score_key_below_nan(a);
        }
        Ordering::Less
    } else {
        if f32_lt(a, b) {
            Ordering::Less
        } else if f32_lt(b, a) {
            Ordering::Greater
        } else {
            Ordering::Equal
        }
    }
}

/// `score_key(a) <= score_key(b)`.
pub fn score_le(a: u32, b: u32) -> (r: bool)
    ensures
        r == (score_key(a) <= score_key(b)),
{
    match score_cmp(a, b) {
        Ordering::Greater => false,
        _ => true,
    }
}

/// Every non-NaN score key lies strictly below the key of a NaN pattern.
proof fn lemma_score_key_below_nan(b: u32)
    requires
        !f32_is_nan(b),
    ensures
        score_key(b) < pow2(401),
{
    lemma_f32_strip_sign(b);
    let ab = if f32_sign(b) { (b - 0x8000_0000) as u32 } else { b };
    if f32_exp(ab) == 0xff {
        lemma_pow2_strictly_increases(400, 401);
    } else {
        assert(((ab >> 23) & 0xff) <= 0xfe) by (bit_vector)
            requires
                ab <= 0x7f80_0000,
                ((ab >> 23) & 0xff) != 0xff,
        ;
        assert((ab & 0x007f_ffff) < 0x0080_0000) by (bit_vector);
        lemma2_to64();
        lemma_f32_finite_mag_bound(f32_exp(ab) as int, f32_frac(ab) as int);
        lemma_pow2_strictly_increases(279, 401);
    }
    lemma_pow2_pos(401);
}

pub fn f64_bits_is_nan(b: u64) -> (r: bool)
    ensures
        r == f64_is_nan(b),
{
    ((b >> 52) & 0x7ff) == 0x7ff && (b & 0x000f_ffff_ffff_ffff) != 0
}

pub fn f32_bits_is_nan(b: u32) -> (r: bool)
    ensures
        r == f32_is_nan(b),
{
    ((b >> 23) & 0xff) == 0xff && (b & 0x007f_ffff) != 0
}

} // verus!
