//! Arithmetic helpers modulo q: Montgomery and Barrett reduction, central
//! and positive remainders, and the rounding maps `_compress` / `_decompress`.

use vstd::arithmetic::div_mod::{
    lemma_fundamental_div_mod, lemma_div_multiples_vanish, lemma_mod_mod,
};
use vstd::arithmetic::power2::{pow2, lemma2_to64, lemma_pow2_pos};
use vstd::bits::{lemma_u32_shl_is_mul, lemma_u32_pow2_no_overflow};
use vstd::prelude::*;

use crate::params::Q;

verus! {

/// q^(-1) mod 2^16.
pub const Q_INV: i32 = 62209;

/// The value of Rust's `%` on integers: the remainder takes the sign of the dividend.
pub open spec fn trem(a: int, b: int) -> int {
    let m = if b >= 0 { b } else { -b };
    if a >= 0 { a % m } else { -((-a) % m) }
}

/// The integer in [-2^15, 2^15) that agrees with `x` on its low 16 bits.
pub open spec fn signed_low16(x: int) -> int {
    let r = x % 65536;
    if r >= 32768 { r - 65536 } else { r }
}

/// The multiple of q that Montgomery reduction subtracts, divided by q.
pub open spec fn mont_t(a: int) -> int {
    signed_low16(a * 62209)
}

/// a - t*q, a multiple of 2^16.
pub open spec fn mont_num(a: int) -> int {
    a - mont_t(a) * 3329
}

/// The result of Montgomery reduction: (a - t*q) / 2^16, congruent to a * 2^-16 mod q.
pub open spec fn montgomery_spec(a: int) -> int {
    mont_num(a) / 65536
}

/// The inputs on which `montgomery` returns: no 32-bit overflow, and a result below q.
pub open spec fn montgomery_ok(a: int) -> bool {
    &&& i32::MIN <= mont_num(a) <= i32::MAX
    &&& montgomery_spec(a) < 3329
}

proof fn lemma_i16_cast(w: i32)
    ensures
        (w as i16) as int == signed_low16(w as int),
{
    assert((w as i16) as int == {
        let r = w % 65536;
        if r >= 32768 { r - 65536 } else { r as int }
    }) by (bit_vector);
}

proof fn lemma_shr16(x: i32)
    ensures
        x >> 16 == x / 65536,
{
    assert(x >> 16 == x / 65536) by (bit_vector);
}

proof fn lemma_shr26(x: i32)
    ensures
        x >> 26 == x / 67108864,
{
    assert(x >> 26 == x / 67108864) by (bit_vector);
}

/// a - t*q is an exact multiple of 2^16, so the division of Montgomery reduction is exact.
pub proof fn lemma_mont_exact(a: int)
    ensures
        montgomery_spec(a) * 65536 == mont_num(a),
        -32768 <= mont_t(a) < 32768,
{
    let p = a * 62209;
    lemma_fundamental_div_mod(p, 65536);
    let k = p / 65536;
    let r = p % 65536;
    assert(p == 65536 * k + r);
    let t = mont_t(a);
    let c = if r >= 32768 { k + 1 } else { k };
    assert(p == 65536 * c + t);
    assert(mont_num(a) == 65536 * (c * 3329 - 3160 * a));
    lemma_div_multiples_vanish(c * 3329 - 3160 * a, 65536);
}

/// Montgomery reduction is congruent to a * 2^-16: its result times 2^16 differs from `a` by a multiple of q.
pub proof fn lemma_mont_cong(a: int)
    ensures
        (montgomery_spec(a) * 65536 - a) % 3329 == 0,
        (montgomery_spec(a) - a * 169) % 3329 == 0,
{
    lemma_mont_exact(a);
    let t = mont_t(a);
    let r = montgomery_spec(a);
    assert(r * 65536 - a == (-t) * 3329);
    vstd::arithmetic::div_mod::lemma_mod_multiples_basic(-t, 3329);
    // r - a*169 == r - r*65536*169 - (a - r*65536)*169 == r*(1 - 11075584) + t*3329*169
    assert(r - a * 169 == 3329 * (-(t * 169) - r * 3327));
    vstd::arithmetic::div_mod::lemma_mod_multiples_basic(-(t * 169) - r * 3327, 3329);
}

/// Bounds of Montgomery reduction: |result| <= (|a| + 2^15 q) / 2^16; for |a| < 2^15 q
/// the reduction returns a value in (-q, q).
pub proof fn lemma_mont_bound(a: int, b: int)
    requires
        -b <= a <= b,
        b + 32768 * 3329 <= i32::MAX,
    ensures
        montgomery_ok(a) <==> montgomery_spec(a) < 3329,
        i32::MIN <= mont_num(a) <= i32::MAX,
        a - 32767 * 3329 <= montgomery_spec(a) * 65536 <= a + 32768 * 3329,
        -((b + 32768 * 3329) / 65536) <= montgomery_spec(a) <= (b + 32768 * 3329) / 65536,
        b < 32768 * 3329 ==> montgomery_ok(a) && -3329 < montgomery_spec(a) < 3329,
{
    lemma_mont_exact(a);
    let r = montgomery_spec(a);
    let t = mont_t(a);
    assert(r * 65536 <= b + 32768 * 3329);
    assert(r * 65536 >= -(b + 32768 * 3329));
    lemma_fundamental_div_mod(b + 32768 * 3329, 65536);
}

/// The result of `montgomery`: the reduction folded into (-q, q) by one subtraction of q
/// when it reaches q (which happens at a = 2^15 q).
pub open spec fn montgomery_fold(a: int) -> int {
    if montgomery_spec(a) >= 3329 {
        montgomery_spec(a) - 3329
    } else {
        montgomery_spec(a)
    }
}

/// Montgomery reduction: returns a' congruent to a * 2^-16 modulo q, computed as
/// (a - t*q) / 2^16 and reduced once by q when it reaches q. On -2^15 q <= a <= 2^15 q
/// the result lies in (-q, q). The 32-bit difference a - t*q must not overflow, and the
/// quotient must be at most q.
pub fn montgomery(a: i32) -> (r: i16)
    requires
        i32::MIN <= mont_num(a as int) <= i32::MAX,
        montgomery_spec(a as int) <= 3329,
    ensures
        r == montgomery_fold(a as int),
        montgomery_ok(a as int) ==> r == montgomery_spec(a as int),
        (r - a * 169) % 3329 == 0,
        -32768 * 3329 <= a <= 32768 * 3329 ==> -3329 < r < 3329,
{
    proof {
        lemma_mont_exact(a as int);
        lemma_mont_cong(a as int);
    }
    let w = a.wrapping_mul(Q_INV);
    proof {
        lemma_i16_cast(w);
        let p = a as int * 62209;
        assert(w as int == p % 0x1_0000_0000 || w as int == p % 0x1_0000_0000 - 0x1_0000_0000);
        lemma_mod_mod(p, 65536, 65536);
        assert(w as int % 65536 == p % 65536) by {
            assert(0x1_0000_0000 == 65536 * 65536);
            lemma_mod_mod(p, 65536, 65536);
            vstd::arithmetic::div_mod::lemma_mod_sub_multiples_vanish(p % 0x1_0000_0000, 65536);
            vstd::arithmetic::div_mod::lemma_mod_multiples_vanish(-65536, p % 0x1_0000_0000, 65536);
        }
    }
    let mut m = (w as i16) as i32;
    assert(m == mont_t(a as int));
    let num = a - m * (Q as i32);
    proof {
        lemma_shr16(num);
    }
    m = num >> 16;
    proof {
        if -32768 * 3329 <= a <= 32768 * 3329 {
            lemma_mont_bound(a as int, 32768 * 3329int);
        }
        vstd::arithmetic::div_mod::lemma_mod_multiples_basic(-1, 3329);
        lemma_cong_ops(m as int - a * 169, 0, -3329, -3329);
    }
    if m >= Q as i32 {
        m -= Q as i32;
    }
    m as i16
}

/// The quotient estimate of Barrett reduction: round(a * v / 2^26) with v = floor(2^26 / q) + 1.
pub open spec fn barrett_quot(a: int) -> int {
    (20159 * a + 33554432) / 67108864
}

/// Barrett reduction: returns a - round(a/q) * q (with the rounding of the
/// fixed-point estimate), which lies in [-1664, 1664] and is congruent to `a`.
/// Outside |a| <= 31625 the difference a - t no longer fits 16 bits.
pub fn barrett(a: i16) -> (r: i16)
    requires
        -31625 <= a <= 31625,
    ensures
        r == a - barrett_quot(a as int) * 3329,
        -1664 <= r <= 1664,
        (r - a) % 3329 == 0,
{
    assert(1u32 << 26 == 67108864u32) by (bit_vector);
    let v = ((1u32 << 26) / Q as u32 + 1) as i32;
    assert(v == 20159);
    assert((1i32 << 25) == 33554432i32) by (bit_vector);
    let mut t = v * a as i32 + (1 << 25);
    proof {
        lemma_shr26(t);
        lemma_fundamental_div_mod(t as int, 67108864);
    }
    t >>= 26;
    let ghost tq = t as int;
    assert(tq == barrett_quot(a as int));
    assert(tq * 67108864 <= 20159 * a + 33554432 < tq * 67108864 + 67108864);
    assert(-10 < tq < 10);
    t *= Q as i32;
    let r = a - t as i16;
    proof {
        assert((r - a) == -tq * 3329);
        vstd::arithmetic::div_mod::lemma_mod_multiples_basic(-tq, 3329);
    }
    r
}

/// The result of `cmod`: Rust's remainder, moved down by `a` when above a/2 and up by
/// `a` when at most a/2 - a, which leaves the centred representative.
pub open spec fn cmod_spec(r: int, a: int) -> int {
    let n = trem(r, a);
    if n > a / 2 {
        n - a
    } else if n + a <= a / 2 {
        n + a
    } else {
        n
    }
}

/// Central reduction: returns r mod +- a, the representative n of r modulo a with
/// -a < 2n <= a. The modulus is positive and below 2^15 - 1, where the bound
/// (a + 1) >> 1 would overflow.
pub fn cmod(r: i16, a: i16) -> (n: i16)
    requires
        0 < a < 32767,
    ensures
        n == cmod_spec(r as int, a as int),
        (n - r) % (a as int) == 0,
        -(a as int) < 2 * n <= a,
        -a < n <= a / 2,
{
    proof {
        lemma_cmod(r as int, a as int);
    }
    let mut n = r % a;
    let t = a;
    assert((t >> 1) == t / 2) by (bit_vector);
    if n > (t >> 1) {
        n -= t;
    } else if (n as i32) + (t as i32) <= ((t >> 1) as i32) {
        n += t;
    }
    n
}

/// For a positive modulus `cmod` always returns, and its result is r reduced modulo a.
pub proof fn lemma_cmod(r: int, a: int)
    requires
        0 < a < 32767,
        i16::MIN <= r <= i16::MAX,
    ensures
        (cmod_spec(r, a) - r) % a == 0,
        -a < cmod_spec(r, a) <= a / 2,
        -a < 2 * cmod_spec(r, a) <= a,
        r >= 0 ==> cmod_spec(r, a) > a / 2 - a,
        cmod_spec(r, a) % a == r % a,
{
    let n = trem(r, a);
    if r >= 0 {
        lemma_fundamental_div_mod(r, a);
        assert(r - n == a * (r / a));
    } else {
        lemma_fundamental_div_mod(-r, a);
        assert(r - n == -(a * ((-r) / a)));
    }
    assert((cmod_spec(r, a) - r) % a == 0) by {
        let c = cmod_spec(r, a);
        let q = if r >= 0 { r / a } else { (-r) / a };
        let k = if r >= 0 {
            if n > a / 2 { -1 - q } else if n + a <= a / 2 { 1 - q } else { -q }
        } else {
            if n > a / 2 { q - 1 } else if n + a <= a / 2 { q + 1 } else { q }
        };
        assert(c - r == a * k) by (nonlinear_arith)
            requires
                r >= 0 ==> r == a * q + n,
                r < 0 ==> -r == a * q - n,
                c == (if n > a / 2 { n - a } else if n + a <= a / 2 { n + a } else { n }),
                k == (if r >= 0 {
                    if n > a / 2 { -1 - q } else if n + a <= a / 2 { 1 - q } else { -q }
                } else {
                    if n > a / 2 { q - 1 } else if n + a <= a / 2 { q + 1 } else { q }
                }),
        ;
        vstd::arithmetic::div_mod::lemma_mod_multiples_basic(k, a);
    }
    lemma_mod_diff(cmod_spec(r, a), r, a);
}

/// Two integers whose difference is a multiple of m have the same remainder.
pub proof fn lemma_mod_diff(x: int, y: int, m: int)
    requires
        m > 0,
        (x - y) % m == 0,
    ensures
        x % m == y % m,
{
    lemma_fundamental_div_mod(x - y, m);
    vstd::arithmetic::div_mod::lemma_mod_multiples_vanish((x - y) / m, y, m);
    assert(x == m * ((x - y) / m) + y);
}

/// x and y are congruent modulo q.
pub open spec fn cong(x: int, y: int) -> bool {
    (x - y) % 3329 == 0
}

/// Congruence modulo q is witnessed by a multiple of q.
pub proof fn lemma_cong_witness(x: int, y: int)
    ensures
        cong(x, y) <==> (x - y) == 3329 * ((x - y) / 3329),
{
    lemma_fundamental_div_mod(x - y, 3329);
}

/// A difference that is a multiple of q is a congruence.
pub proof fn lemma_cong_from(x: int, y: int, k: int)
    requires
        x - y == 3329 * k,
    ensures
        cong(x, y),
{
    vstd::arithmetic::div_mod::lemma_mod_multiples_basic(k, 3329);
}

/// Congruence is an equivalence that is kept by sums, differences and products.
pub proof fn lemma_cong_ops(x1: int, y1: int, x2: int, y2: int)
    requires
        cong(x1, y1),
        cong(x2, y2),
    ensures
        cong(x1 + x2, y1 + y2),
        cong(x1 - x2, y1 - y2),
        cong(x1 * x2, y1 * y2),
        cong(x2, y2) && cong(y1, x1),
        x2 == y1 ==> cong(x1, y2),
{
    lemma_cong_witness(x1, y1);
    lemma_cong_witness(x2, y2);
    let k1 = (x1 - y1) / 3329;
    let k2 = (x2 - y2) / 3329;
    lemma_cong_from(x1 + x2, y1 + y2, k1 + k2);
    lemma_cong_from(x1 - x2, y1 - y2, k1 - k2);
    lemma_cong_from(y1, x1, -k1);
    assert(x1 * x2 - y1 * y2 == 3329 * (k1 * x2 + y1 * k2)) by (nonlinear_arith)
        requires
            x1 - y1 == 3329 * k1,
            x2 - y2 == 3329 * k2,
    ;
    lemma_cong_from(x1 * x2, y1 * y2, k1 * x2 + y1 * k2);
    if x2 == y1 {
        lemma_cong_from(x1, y2, k1 + k2);
    }
}

/// Congruent integers have the same remainder modulo q.
pub proof fn lemma_cong_mod(x: int, y: int)
    ensures
        cong(x, y) <==> x % 3329 == y % 3329,
{
    if cong(x, y) {
        lemma_mod_diff(x, y, 3329);
    }
    if x % 3329 == y % 3329 {
        lemma_fundamental_div_mod(x, 3329);
        lemma_fundamental_div_mod(y, 3329);
        lemma_cong_from(x, y, x / 3329 - y / 3329);
    }
}

/// The result of `mod_a`: ((x % a) + a) % a with Rust's remainder.
pub open spec fn mod_a_spec(x: int, a: int) -> int {
    trem(trem(x, a) + a, a)
}

/// Non-negative remainder: returns ((x % a) + a) % a, which is x mod a in [0, a).
/// The modulus is positive, and x % a + a fits 16 bits.
pub fn mod_a(x: i16, a: i16) -> (r: i16)
    requires
        0 < a,
        trem(x as int, a as int) + a <= i16::MAX,
    ensures
        r == mod_a_spec(x as int, a as int),
        r == x % a,
        0 <= r < a,
{
    proof {
        lemma_mod_a(x as int, a as int);
    }
    (x % a + a) % a
}

/// For a positive modulus the result of `mod_a` is the Euclidean remainder.
pub proof fn lemma_mod_a(x: int, a: int)
    requires
        0 < a,
        i16::MIN <= x <= i16::MAX,
        i16::MIN <= trem(x, a) + a <= i16::MAX,
    ensures
        mod_a_spec(x, a) == x % a,
        0 <= mod_a_spec(x, a) < a,
{
    let n = trem(x, a);
    if x >= 0 {
        lemma_fundamental_div_mod(x, a);
        assert(n + a >= 0);
        vstd::arithmetic::div_mod::lemma_mod_add_multiples_vanish(n, a);
        vstd::arithmetic::div_mod::lemma_mod_twice(x, a);
    } else {
        lemma_fundamental_div_mod(-x, a);
        let s = n + a;
        assert(s > 0);
        let q = (-x) / a;
        assert(x - s == a * (-q - 1)) by (nonlinear_arith)
            requires
                -x == a * q + (-x) % a,
                s == -((-x) % a) + a,
        ;
        vstd::arithmetic::div_mod::lemma_mod_multiples_basic(-q - 1, a);
        lemma_mod_diff(x, s, a);
    }
}

/// Rounding of x * 2^d / q to the nearest integer, taken modulo 2^d.
pub open spec fn compress_spec(x: int, d: nat) -> int {
    let xm = x % 3329;
    ((2 * xm * pow2(d) + 3329) / 6658) % (pow2(d) as int)
}

/// The result of `_decompress`: x mod q times q / 2^d, rounded (halves up), capped at 2^15 - 1.
pub open spec fn decompress_spec(x: int, d: nat) -> int {
    if d == 31 {
        0
    } else {
        let xm = x % 3329;
        let v = (2 * xm * 3329 + pow2(d)) / (2 * pow2(d) as int);
        if v > 32767 { 32767 } else { v }
    }
}

/// Compression lands in [0, 2^d) and depends only on x modulo q.
pub proof fn lemma_compress_spec(x: int, y: int, d: nat)
    ensures
        0 <= compress_spec(x, d) < pow2(d),
        x % 3329 == y % 3329 ==> compress_spec(x, d) == compress_spec(y, d),
{
    lemma_pow2_pos(d);
}

/// Decompression depends only on x modulo q.
pub proof fn lemma_decompress_spec(x: int, y: int, d: nat)
    ensures
        x % 3329 == y % 3329 ==> decompress_spec(x, d) == decompress_spec(y, d),
{
}

/// Compressing to d bits and decompressing moves a value by at most q / 2^(d+1) + 1/2
/// modulo q: the difference, reduced into [0, q), is within that distance of 0 or of q.
pub proof fn lemma_compress_round_trip(x: int, d: nat)
    requires
        1 <= d <= 11,
    ensures
        ({
            let e = (decompress_spec(compress_spec(x, d), d) - x) % 3329;
            4 * pow2(d) * e <= 2 * 3329 + 2 * pow2(d) || 4 * pow2(d) * (3329 - e) <= 2 * 3329 + 2
                * pow2(d)
        }),
{
    lemma2_to64();
    lemma_pow2_pos(d);
    if d < 11 {
        vstd::arithmetic::power2::lemma_pow2_strictly_increases(d, 11);
    }
    let p = pow2(d) as int;
    let xm = x % 3329;
    let a = 2 * xm * p + 3329;
    let c0 = a / 6658;
    lemma_fundamental_div_mod(a, 6658);
    assert(0 <= c0 <= p) by (nonlinear_arith)
        requires
            0 <= xm < 3329,
            2 <= p,
            a == 2 * xm * p + 3329,
            6658 * c0 + a % 6658 == a,
            0 <= a % 6658 < 6658,
    ;
    let c = compress_spec(x, d);
    assert(c == c0 % p);
    let v = decompress_spec(c, d);
    if c0 < p {
        vstd::arithmetic::div_mod::lemma_small_mod(c0 as nat, p as nat);
        assert(c == c0);
        vstd::arithmetic::div_mod::lemma_small_mod(c as nat, 3329);
        let b = 2 * c * 3329 + p;
        lemma_fundamental_div_mod(b, 2 * p);
        let v0 = b / (2 * p);
        assert(v0 <= 3329) by (nonlinear_arith)
            requires
                0 <= c < p,
                2 <= p,
                b == 2 * c * 3329 + p,
                2 * p * v0 + b % (2 * p) == b,
                0 <= b % (2 * p),
        ;
        assert(v == v0);
        let t = v - xm;
        assert(-(3329 + p) < 2 * p * t <= 3329 + p) by (nonlinear_arith)
            requires
                t == v - xm,
                6658 * c0 + a % 6658 == a,
                0 <= a % 6658 < 6658,
                a == 2 * xm * p + 3329,
                2 * p * v + b % (2 * p) == b,
                0 <= b % (2 * p) < 2 * p,
                b == 2 * c0 * 3329 + p,
        ;
        vstd::arithmetic::div_mod::lemma_add_mod_noop(v, -x, 3329);
        vstd::arithmetic::div_mod::lemma_add_mod_noop(v, -xm, 3329);
        assert((-x) % 3329 == (-xm) % 3329) by {
            vstd::arithmetic::div_mod::lemma_mod_twice(x, 3329);
            crate::utils::lemma_cong_mod(-x, -xm);
            crate::utils::lemma_cong_from(-x, -xm, -(x / 3329));
        }
        assert(t < 3329 && t > -3329) by (nonlinear_arith)
            requires
                -(3329 + p) < 2 * p * t <= 3329 + p,
                2 <= p <= 2048,
        ;
        if t >= 0 {
            vstd::arithmetic::div_mod::lemma_small_mod(t as nat, 3329);
            assert(4 * p * t <= 2 * 3329 + 2 * p) by (nonlinear_arith)
                requires
                    2 * p * t <= 3329 + p,
            ;
        } else {
            vstd::arithmetic::div_mod::lemma_mod_add_multiples_vanish(t, 3329);
            vstd::arithmetic::div_mod::lemma_small_mod((t + 3329) as nat, 3329);
            assert(4 * p * (-t) <= 2 * 3329 + 2 * p) by (nonlinear_arith)
                requires
                    -(3329 + p) < 2 * p * t,
            ;
        }
    } else {
        assert(c0 == p);
        vstd::arithmetic::div_mod::lemma_mod_self_0(p);
        assert(c == 0);
        assert(v == p / (2 * p));
        vstd::arithmetic::div_mod::lemma_basic_div(p, 2 * p);
        assert(v == 0);
        assert(3329 - xm <= 3329 && 4 * p * (3329 - xm) <= 2 * 3329) by (nonlinear_arith)
            requires
                6658 * c0 <= a,
                c0 == p,
                a == 2 * xm * p + 3329,
                0 <= xm < 3329,
        ;
        vstd::arithmetic::div_mod::lemma_add_mod_noop(0, -x, 3329);
        vstd::arithmetic::div_mod::lemma_mod_twice(x, 3329);
        crate::utils::lemma_cong_from(-x, -xm, -(x / 3329));
        crate::utils::lemma_cong_mod(-x, 3329 - xm);
        crate::utils::lemma_cong_from(-x, 3329 - xm, -(x / 3329) - 1);
        if xm == 0 {
            assert((3329 - xm) % 3329 == 0);
        } else {
            vstd::arithmetic::div_mod::lemma_small_mod((3329 - xm) as nat, 3329);
        }
    }
}

/// The bound of `lemma_compress_round_trip` in whole numbers: the difference between
/// decompress(compress(x)) and x, reduced into [0, q), is at most (q + 2^d) / 2^(d+1)
/// (rounded down) from 0 or from q, i.e. at most round(q / 2^(d+1)) in absolute value
/// modulo q.
pub proof fn lemma_compress_round_trip_bound(x: int, d: nat)
    requires
        1 <= d <= 11,
    ensures
        ({
            let e = (decompress_spec(compress_spec(x, d), d) - x) % 3329;
            let bd = (3329 + pow2(d) as int) / (pow2(d + 1) as int);
            e <= bd || 3329 - e <= bd
        }),
{
    lemma_compress_round_trip(x, d);
    lemma_pow2_pos(d);
    vstd::arithmetic::power2::lemma_pow2_unfold(d + 1);
    let p = pow2(d) as int;
    let e = (decompress_spec(compress_spec(x, d), d) - x) % 3329;
    let n = 3329 + p;
    lemma_fundamental_div_mod(n, 2 * p);
    let bd = n / (2 * p);
    assert(pow2(d + 1) == 2 * p);
    assert(e <= bd || 3329 - e <= bd) by (nonlinear_arith)
        requires
            p >= 1,
            4 * p * e <= 2 * 3329 + 2 * p || 4 * p * (3329 - e) <= 2 * 3329 + 2 * p,
            2 * p * bd + n % (2 * p) == n,
            n % (2 * p) < 2 * p,
            n == 3329 + p,
    ;
}

/// Decompressing a d-bit value and compressing it again gives it back, for d <= 11.
pub proof fn lemma_decompress_compress(x: int, d: nat)
    requires
        1 <= d <= 11,
        0 <= x < pow2(d),
    ensures
        compress_spec(decompress_spec(x, d), d) == x,
{
    lemma2_to64();
    lemma_pow2_pos(d);
    if d < 11 {
        vstd::arithmetic::power2::lemma_pow2_strictly_increases(d, 11);
    }
    let p = pow2(d) as int;
    vstd::arithmetic::div_mod::lemma_small_mod(x as nat, 3329);
    let b = 2 * x * 3329 + p;
    lemma_fundamental_div_mod(b, 2 * p);
    let y = b / (2 * p);
    assert(0 <= y < 3329 && -p < 2 * p * y - 2 * x * 3329 <= p) by (nonlinear_arith)
        requires
            2 <= p <= 2048,
            0 <= x < p,
            b == 2 * x * 3329 + p,
            2 * p * y + b % (2 * p) == b,
            0 <= b % (2 * p) < 2 * p,
    ;
    assert(decompress_spec(x, d) == y);
    vstd::arithmetic::div_mod::lemma_small_mod(y as nat, 3329);
    let a = 2 * y * p + 3329;
    lemma_fundamental_div_mod(a, 6658);
    let c0 = a / 6658;
    assert(c0 == x) by (nonlinear_arith)
        requires
            2 <= p <= 2048,
            -p < 2 * p * y - 2 * x * 3329 <= p,
            a == 2 * y * p + 3329,
            6658 * c0 + a % 6658 == a,
            0 <= a % 6658 < 6658,
    ;
    vstd::arithmetic::div_mod::lemma_small_mod(x as nat, p as nat);
}

/// Compression: maps x mod q to round(x * 2^d / q) mod 2^d, computed in integers as
/// (2 (x mod q) 2^d + q) / 2q (the quotient is never exactly a half), for widths d up
/// to 12.
pub fn _compress(x: i16, d: i16) -> (r: i16)
    requires
        0 <= d <= 12,
    ensures
        r == compress_spec(x as int, d as nat),
        0 <= r < pow2(d as nat),
{
    proof {
        lemma_mod_a(x as int, 3329);
        lemma2_to64();
        lemma_pow2_le12(d as nat);
    }
    let xm = mod_a(x, Q as i16) as u32;
    proof {
        lemma_u32_pow2_no_overflow(d as nat);
        assert(xm * pow2(d as nat) <= 3328 * 4096) by (nonlinear_arith)
            requires
                xm <= 3328,
                pow2(d as nat) <= 4096,
        ;
        lemma_u32_shl_is_mul(xm, d as u32);
    }
    let num = xm << (d as u32);
    let tmp = ((2 * num + 3329) / 6658) as i16;
    proof {
        assert(tmp as int <= 4096) by (nonlinear_arith)
            requires
                num <= 3328 * 4096,
                tmp == (2 * num + 3329) / 6658,
        ;
        assert(1i16 << 0 == 1) by (bit_vector);
    }
    let p = pow2_i16(d);
    proof {
        lemma_pow2_pos(d as nat);
        lemma_mod_a(tmp as int, p as int);
        assert(xm == x as int % 3329);
        assert(2 * num + 3329 == 2 * xm * pow2(d as nat) + 3329) by (nonlinear_arith)
            requires num == xm * pow2(d as nat),
        ;
    }
    mod_a(tmp, p)
}

proof fn lemma_pow2_le12(d: nat)
    requires
        d <= 12,
    ensures
        pow2(d) <= 4096,
{
    lemma2_to64();
    if d < 12 {
        vstd::arithmetic::power2::lemma_pow2_strictly_increases(d, 12);
    }
}

/// 1 << d as a 16-bit integer, for d <= 12.
fn pow2_i16(d: i16) -> (p: i16)
    requires
        0 <= d <= 12,
    ensures
        p == pow2(d as nat),
{
    proof {
        lemma_pow2_le12(d as nat);
        lemma_u32_pow2_no_overflow(d as nat);
        lemma_u32_shl_is_mul(1u32, d as u32);
    }
    ((1u32 << (d as u32)) as i16)
}

/// Decompression: maps x mod q to round(x * q / 2^d), rounding halves up and capped at
/// 2^15 - 1; for d = 31 the divisor 1 << 31, taken as a signed 32-bit integer, is -2^31,
/// and the result is 0.
pub fn _decompress(x: i16, d: i16) -> (r: i16)
    requires
        0 <= d <= 31,
    ensures
        r == decompress_spec(x as int, d as nat),
        0 <= r,
{
    if d == 31 {
        return 0;
    }
    proof {
        lemma_mod_a(x as int, 3329);
    }
    let xm = mod_a(x, Q as i16) as u64;
    proof {
        lemma_pow2_pos(d as nat);
        vstd::bits::lemma_u64_pow2_no_overflow(d as nat);
        vstd::bits::lemma_u64_shl_is_mul(1u64, d as u64);
        assert(pow2(d as nat) <= 0x4000_0000) by {
            lemma2_to64();
            if d < 30 {
                vstd::arithmetic::power2::lemma_pow2_strictly_increases(d as nat, 30);
            }
        }
    }
    let p = 1u64 << (d as u64);
    let v = (2 * xm * 3329 + p) / (2 * p);
    if v > 32767 {
        32767
    } else {
        v as i16
    }
}

} // verus!
