//! Packing of polynomials into bytes: each of the 256 coefficients takes `l` bits,
//! least significant bit first, and bit g of the stream is bit g % 8 of byte g / 8.

use vstd::arithmetic::power2::{lemma2_to64, lemma_pow2_pos, lemma_pow2_unfold, pow2};
use vstd::prelude::*;

use crate::params::{K, N, PACKED_KEYS, SEEDBYTES};
use crate::poly::{Poly, VecPoly};

verus! {

/// Bit t of a non-negative integer.
pub open spec fn bit_of(v: int, t: nat) -> int {
    (v / pow2(t) as int) % 2
}

/// The value of a 16-bit coefficient taken as unsigned (`c as u16`).
pub open spec fn u16_of(c: int) -> int {
    if c < 0 {
        c + 65536
    } else {
        c
    }
}

/// The value of a 16-bit pattern taken as signed (`v as i16`).
pub open spec fn i16_of(v: int) -> int {
    if v >= 32768 {
        v - 65536
    } else {
        v
    }
}

/// Bit g of the stream that packs the coefficients `c` in `l` bits each.
pub open spec fn coeff_bit(c: Seq<i16>, l: int, g: int) -> int {
    bit_of(u16_of(c[g / l] as int), (g % l) as nat)
}

/// The sum of the first n bits of byte b of the packed stream, each at its weight.
pub open spec fn enc_byte_sum(c: Seq<i16>, l: int, b: int, n: nat) -> int
    decreases n,
{
    if n == 0 {
        0
    } else {
        enc_byte_sum(c, l, b, (n - 1) as nat) + coeff_bit(c, l, 8 * b + n - 1) * pow2(
            (n - 1) as nat,
        )
    }
}

/// Byte b of the packed stream of the coefficients `c`, `l` bits each.
pub open spec fn enc_byte(c: Seq<i16>, l: int, b: int) -> int {
    enc_byte_sum(c, l, b, 8)
}

/// Bit g of the byte stream that starts at `off`.
pub open spec fn byte_bit(bytes: Seq<u8>, off: int, g: int) -> int {
    bit_of(bytes[off + g / 8] as int, (g % 8) as nat)
}

/// The n bits of the byte stream (from `off`) that start at bit `start`, least significant first.
pub open spec fn bits_value(bytes: Seq<u8>, off: int, start: int, n: nat) -> int
    decreases n,
{
    if n == 0 {
        0
    } else {
        bits_value(bytes, off, start, (n - 1) as nat) + byte_bit(bytes, off, start + n - 1)
            * pow2((n - 1) as nat)
    }
}

/// Coefficient i as `decode` reads it: l bits from the stream, as a signed 16-bit integer.
pub open spec fn dec_coeff(bytes: Seq<u8>, off: int, l: int, i: int) -> int {
    i16_of(bits_value(bytes, off, l * i, l as nat))
}

/// Every coefficient, taken as unsigned, fits `l` bits.
pub open spec fn fits_bits(c: Seq<i16>, l: int) -> bool {
    forall|i: int| 0 <= i < 256 ==> u16_of(#[trigger] c[i] as int) < pow2(l as nat)
}

proof fn lemma_bit_extract(x: u16, s: u16)
    requires
        s < 16,
    ensures
        ((x >> s) & 1) as int == bit_of(x as int, s as nat),
        ((x >> s) & 1) <= 1,
{
    vstd::bits::lemma_u16_shr_is_div(x, s);
    let y = x >> s;
    assert((y & 1) == y % 2) by (bit_vector);
    assert(y & 1 <= 1) by (bit_vector);
}

proof fn lemma_bit_extract8(x: u8, s: u8)
    requires
        s < 8,
    ensures
        ((x >> s) & 1) as int == bit_of(x as int, s as nat),
        ((x >> s) & 1) <= 1,
{
    vstd::bits::lemma_u8_shr_is_div(x, s);
    let y = x >> s;
    assert((y & 1) == y % 2) by (bit_vector);
    assert(y & 1 <= 1) by (bit_vector);
}

proof fn lemma_u16_of(x: i16)
    ensures
        (x as u16) as int == u16_of(x as int),
{
    assert((x as u16) as int == (if x < 0 { x + 65536 } else { x as int })) by (bit_vector);
}

proof fn lemma_bit01(v: int, t: nat)
    ensures
        0 <= bit_of(v, t) <= 1,
{
    lemma_pow2_pos(t);
}

/// The first n bits of byte b, summed at their weights, stay below 2^n.
pub proof fn lemma_enc_byte_sum_bound(c: Seq<i16>, l: int, b: int, n: nat)
    ensures
        0 <= enc_byte_sum(c, l, b, n) < pow2(n),
    decreases n,
{
    lemma_pow2_pos(n);
    lemma2_to64();
    if n > 0 {
        lemma_enc_byte_sum_bound(c, l, b, (n - 1) as nat);
        lemma_pow2_unfold(n);
        let x = coeff_bit(c, l, 8 * b + n - 1);
        lemma_bit01(u16_of(c[(8 * b + n - 1) / l] as int), ((8 * b + n - 1) % l) as nat);
        let p = pow2((n - 1) as nat) as int;
        let s = enc_byte_sum(c, l, b, (n - 1) as nat);
        assert(0 <= s + x * p < 2 * p) by (nonlinear_arith)
            requires
                0 <= s < p,
                0 <= x <= 1,
        ;
    }
}

/// The n bits read from the stream, summed at their weights, stay below 2^n.
pub proof fn lemma_bits_value_bound(bytes: Seq<u8>, off: int, start: int, n: nat)
    ensures
        0 <= bits_value(bytes, off, start, n) < pow2(n),
    decreases n,
{
    lemma_pow2_pos(n);
    lemma2_to64();
    if n > 0 {
        lemma_bits_value_bound(bytes, off, start, (n - 1) as nat);
        lemma_pow2_unfold(n);
        let x = byte_bit(bytes, off, start + n - 1);
        lemma_bit01(bytes[off + (start + n - 1) / 8] as int, ((start + n - 1) % 8) as nat);
        let p = pow2((n - 1) as nat) as int;
        let s = bits_value(bytes, off, start, (n - 1) as nat);
        assert(0 <= s + x * p < 2 * p) by (nonlinear_arith)
            requires
                0 <= s < p,
                0 <= x <= 1,
        ;
    }
}

/// Packs the 256 coefficients of `a` into the 32 l bytes of `r` from `off` on.
pub(crate) fn encode_at(r: &mut [u8], off: usize, a: &Poly, l: usize)
    requires
        1 <= l <= 16,
        off + 32 * l <= old(r).len(),
        fits_bits(a.coeff@, l as int),
    ensures
        final(r).len() == old(r).len(),
        forall|b: int| 0 <= b < 32 * l ==> final(r)[off + b] == #[trigger] enc_byte(a.coeff@, l as int, b),
        forall|b: int|
            0 <= b < old(r).len() && !(off <= b < off + 32 * l) ==> final(r)[b] == #[trigger] old(r)[b],
{
    for b in 0..32 * l
        invariant
            1 <= l <= 16,
            off + 32 * l <= old(r).len(),
            r.len() == old(r).len(),
            forall|b2: int| 0 <= b2 < b ==> r[off + b2] == #[trigger] enc_byte(a.coeff@, l as int, b2),
            forall|b2: int|
                0 <= b2 < old(r).len() && !(off <= b2 < off + b) ==> r[b2] == #[trigger] old(r)[b2],
    {
        let mut byte: u16 = 0;
        let mut pw: u16 = 1;
        proof {
            lemma2_to64();
        }
        for t in 0..8
            invariant
                1 <= l <= 16,
                b < 32 * l,
                pw == pow2(t as nat),
                byte == enc_byte_sum(a.coeff@, l as int, b as int, t as nat),
                byte < pw,
        {
            let g = 8 * b + t;
            assert(g / l < 256) by (nonlinear_arith)
                requires
                    g == 8 * b + t,
                    t < 8,
                    b < 32 * l,
                    l >= 1,
            ;
            let x = a.coeff[g / l];
            let c = x as u16;
            proof {
                lemma_u16_of(x);
                lemma_bit_extract(c, (g % l) as u16);
                lemma2_to64();
                lemma_pow2_unfold((t + 1) as nat);
            }
            let bit = (c >> ((g % l) as u16)) & 1;
            proof {
                assert(pw <= 128) by {
                    if t < 7 {
                        vstd::arithmetic::power2::lemma_pow2_strictly_increases(t as nat, 7);
                    }
                }
                assert(bit * pw <= pw) by (nonlinear_arith)
                    requires
                        bit <= 1,
                ;
            }
            byte = byte + bit * pw;
            pw = pw * 2;
        }
        proof {
            lemma2_to64();
        }
        r[off + b] = byte as u8;
    }
}

/// Reads coefficient i of a polynomial packed with `l` bits from the stream at `off`.
fn load_coeff(a: &[u8], off: usize, l: usize, i: usize) -> (c: i16)
    requires
        1 <= l <= 16,
        i < 256,
        off + 32 * l <= a.len(),
    ensures
        c == dec_coeff(a@, off as int, l as int, i as int),
{
    let mut v: u32 = 0;
    let mut pw: u32 = 1;
    proof {
        lemma2_to64();
    }
    for t in 0..l
        invariant
            1 <= l <= 16,
            i < 256,
            off + 32 * l <= a.len(),
            pw == pow2(t as nat),
            v == bits_value(a@, off as int, (l * i) as int, t as nat),
            v < pw,
            pw <= 65536,
    {
        assert(l * i + t < 256 * l) by (nonlinear_arith)
            requires
                t < l,
                i < 256,
        ;
        let g = l * i + t;
        assert(g / 8 < 32 * l) by (nonlinear_arith)
            requires
                g == l * i + t,
                t < l,
                i < 256,
        ;
        let byte = a[off + g / 8];
        proof {
            lemma_bit_extract8(byte, (g % 8) as u8);
            lemma2_to64();
            lemma_pow2_unfold((t + 1) as nat);
            vstd::arithmetic::power2::lemma_pow2_strictly_increases(t as nat, 16);
        }
        let bit = ((byte >> ((g % 8) as u8)) & 1) as u32;
        proof {
            assert(pw <= 32768) by {
                if t < 15 {
                    vstd::arithmetic::power2::lemma_pow2_strictly_increases(t as nat, 15);
                }
            }
            assert(bit * pw <= pw) by (nonlinear_arith)
                requires
                    bit <= 1,
            ;
        }
        v = v + bit * pw;
        pw = pw * 2;
    }
    if v >= 32768 {
        (v as i32 - 65536) as i16
    } else {
        v as i16
    }
}

/// Reads the 256 coefficients of a polynomial packed with `l` bits from the stream at `off`.
fn decode_at(r: &mut Poly, a: &[u8], off: usize, l: usize)
    requires
        1 <= l <= 16,
        off + 32 * l <= a.len(),
    ensures
        forall|i: int| 0 <= i < 256 ==> final(r).coeff[i] == #[trigger] dec_coeff(a@, off as int, l as int, i),
        final(r).ntt == old(r).ntt,
{
    for i in 0..N
        invariant
            1 <= l <= 16,
            off + 32 * l <= a.len(),
            r.ntt == old(r).ntt,
            forall|j: int| 0 <= j < i ==> r.coeff[j] == #[trigger] dec_coeff(a@, off as int, l as int, j),
    {
        r.coeff[i] = load_coeff(a, off, l, i);
    }
}

/// Packs the 256 coefficients of `a`, `l` bits each (least significant first), into the
/// first 32 l bytes of `r`; the rest of `r` is kept. Each coefficient, as unsigned, must
/// fit `l` bits (a packed value that does not read back the same is an error).
pub fn encode(r: &mut [u8], a: &Poly, l: usize)
    requires
        1 <= l <= 16,
        32 * l <= old(r).len(),
        fits_bits(a.coeff@, l as int),
    ensures
        final(r).len() == old(r).len(),
        forall|b: int| 0 <= b < 32 * l ==> final(r)[b] == #[trigger] enc_byte(a.coeff@, l as int, b),
        forall|b: int| 32 * l <= b < old(r).len() ==> final(r)[b] == #[trigger] old(r)[b],
{
    encode_at(r, 0, a, l);
}

/// Reads the 256 coefficients of `r` from the first 32 l bytes of `a`, `l` bits each
/// (least significant first), as unsigned values taken as 16-bit integers; the NTT flag is kept.
pub fn decode(r: &mut Poly, a: &[u8], l: usize)
    requires
        1 <= l <= 16,
        32 * l <= a.len(),
    ensures
        forall|i: int| 0 <= i < 256 ==> final(r).coeff[i] == #[trigger] dec_coeff(a@, 0, l as int, i),
        final(r).ntt == old(r).ntt,
{
    decode_at(r, a, 0, l);
}

/// Reading from a suffix of the bytes is reading from the bytes at an offset.
pub proof fn lemma_bits_value_suffix(bytes: Seq<u8>, off: int, start: int, n: nat)
    requires
        0 <= off <= bytes.len(),
        0 <= start,
        off * 8 + start + n <= bytes.len() * 8,
    ensures
        bits_value(bytes.subrange(off, bytes.len() as int), 0, start, n) == bits_value(bytes, off, start, n),
    decreases n,
{
    if n > 0 {
        lemma_bits_value_suffix(bytes, off, start, (n - 1) as nat);
        let g = start + n - 1;
        assert(off + g / 8 < bytes.len());
        assert(bytes.subrange(off, bytes.len() as int)[g / 8] == bytes[off + g / 8]);
    }
}

/// The sum of the first n bits of v at their weights.
pub open spec fn low_bits_sum(v: int, n: nat) -> int
    decreases n,
{
    if n == 0 {
        0
    } else {
        low_bits_sum(v, (n - 1) as nat) + bit_of(v, (n - 1) as nat) * pow2((n - 1) as nat)
    }
}

/// The first n bits of v at their weights make v mod 2^n.
pub proof fn lemma_low_bits_sum(v: int, n: nat)
    requires
        0 <= v,
    ensures
        low_bits_sum(v, n) == v % (pow2(n) as int),
    decreases n,
{
    lemma2_to64();
    if n == 0 {
    } else {
        lemma_low_bits_sum(v, (n - 1) as nat);
        let p = pow2((n - 1) as nat) as int;
        lemma_pow2_unfold(n);
        lemma_pow2_pos((n - 1) as nat);
        vstd::arithmetic::div_mod::lemma_mod_breakdown(v, p, 2);
        assert(p * 2 == pow2(n));
        assert(p * ((v / p) % 2) == bit_of(v, (n - 1) as nat) * p) by (nonlinear_arith)
            requires
                bit_of(v, (n - 1) as nat) == (v / p) % 2,
        ;
    }
}

/// Bit s of the sum of the first n bits of byte b is bit 8 b + s of the stream.
proof fn lemma_enc_byte_bit(c: Seq<i16>, l: int, b: int, n: nat, s: nat)
    requires
        s < n,
    ensures
        bit_of(enc_byte_sum(c, l, b, n), s) == coeff_bit(c, l, 8 * b + s),
    decreases n,
{
    let x = coeff_bit(c, l, 8 * b + n - 1);
    let sm = enc_byte_sum(c, l, b, (n - 1) as nat);
    let p = pow2((n - 1) as nat) as int;
    let ps = pow2(s) as int;
    lemma_enc_byte_sum_bound(c, l, b, (n - 1) as nat);
    lemma_bit01(u16_of(c[(8 * b + n - 1) / l] as int), ((8 * b + n - 1) % l) as nat);
    lemma_pow2_pos(s);
    if s == n - 1 {
        vstd::arithmetic::div_mod::lemma_div_multiples_vanish_fancy(x, sm, p);
        assert(sm + x * p == p * x + sm) by (nonlinear_arith);
    } else {
        lemma_enc_byte_bit(c, l, b, (n - 1) as nat, s);
        let e = (n - 1 - s) as nat;
        vstd::arithmetic::power2::lemma_pow2_adds(s, e);
        assert(s + e == n - 1);
        let pe = pow2(e) as int;
        lemma_pow2_unfold(e);
        let h = pow2((e - 1) as nat) as int;
        assert(sm + x * p == ps * (x * pe) + sm) by (nonlinear_arith)
            requires
                p == ps * pe,
        ;
        vstd::arithmetic::div_mod::lemma_fundamental_div_mod(sm, ps);
        assert(sm + x * p == ps * (x * pe + sm / ps) + sm % ps) by (nonlinear_arith)
            requires
                p == ps * pe,
                sm == ps * (sm / ps) + sm % ps,
        ;
        vstd::arithmetic::div_mod::lemma_mod_pos_bound(sm, ps);
        vstd::arithmetic::div_mod::lemma_div_multiples_vanish_fancy(x * pe + sm / ps, sm % ps, ps);
        assert(x * pe + sm / ps == 2 * (x * h) + sm / ps) by (nonlinear_arith)
            requires
                pe == 2 * h,
        ;
        vstd::arithmetic::div_mod::lemma_mod_multiples_vanish(x * h, sm / ps, 2);
    }
}

/// The bits that `decode` reads back from packed bytes are the bits of the coefficient.
proof fn lemma_bits_value_enc(r: Seq<u8>, off: int, c: Seq<i16>, l: int, i: int, n: nat)
    requires
        1 <= l <= 16,
        0 <= i < 256,
        n <= l,
        0 <= off,
        off + 32 * l <= r.len(),
        forall|b: int| 0 <= b < 32 * l ==> r[off + b] == #[trigger] enc_byte(c, l, b),
    ensures
        bits_value(r, off, l * i, n) == low_bits_sum(u16_of(c[i] as int), n),
    decreases n,
{
    if n > 0 {
        lemma_bits_value_enc(r, off, c, l, i, (n - 1) as nat);
        let g = l * i + n - 1;
        assert(0 <= g < 256 * l) by (nonlinear_arith)
            requires
                1 <= l,
                0 <= i < 256,
                1 <= n <= l,
                g == l * i + n - 1,
        ;
        let b = g / 8;
        assert(0 <= b < 32 * l);
        assert(r[off + b] == enc_byte(c, l, b));
        lemma_enc_byte_bit(c, l, b, 8, (g % 8) as nat);
        assert(8 * b + g % 8 == g);
        assert(l * i == i * l) by (nonlinear_arith);
        vstd::arithmetic::div_mod::lemma_fundamental_div_mod_converse(g, l, i, n - 1);
    }
}

/// `decode` reads back what `encode` wrote: at offset `off`, packing coefficients that fit
/// `l` bits and reading them back gives the same coefficients.
pub proof fn lemma_decode_encode(r: Seq<u8>, off: int, c: Seq<i16>, l: int)
    requires
        1 <= l <= 16,
        0 <= off,
        off + 32 * l <= r.len(),
        c.len() == 256,
        fits_bits(c, l),
        forall|b: int| 0 <= b < 32 * l ==> r[off + b] == #[trigger] enc_byte(c, l, b),
    ensures
        forall|i: int| 0 <= i < 256 ==> #[trigger] dec_coeff(r, off, l, i) == c[i],
{
    assert forall|i: int| 0 <= i < 256 implies #[trigger] dec_coeff(r, off, l, i) == c[i] by {
        lemma_bits_value_enc(r, off, c, l, i, l as nat);
        lemma_low_bits_sum(u16_of(c[i] as int), l as nat);
        vstd::arithmetic::div_mod::lemma_small_mod(u16_of(c[i] as int) as nat, pow2(l as nat));
        assert(u16_of(c[i] as int) < pow2(l as nat));
    }
}

/// The bytes from `base` on hold the K polynomials of `a`, packed with `d` bits each, one after another.
pub open spec fn packed_vec(r: Seq<u8>, base: int, a: VecPoly<K>, d: int) -> bool {
    forall|i: int, b: int|
        0 <= i < K && 0 <= b < 32 * d ==> r[base + 32 * d * i + b] == #[trigger] enc_byte(
            a.poly[i].coeff@,
            d,
            b,
        )
}

/// Every polynomial of `a`, taken as unsigned, fits `d` bits.
pub open spec fn vec_fits_bits(a: VecPoly<K>, d: int) -> bool {
    forall|i: int| 0 <= i < K ==> fits_bits((#[trigger] a.poly[i]).coeff@, d)
}

/// Packs the K polynomials of `a`, `d` bits per coefficient, one after another into `r`.
fn encode_vec_at(r: &mut [u8], base: usize, a: &VecPoly<K>, d: usize)
    requires
        1 <= d <= 16,
        base + 32 * d * K <= old(r).len(),
        vec_fits_bits(*a, d as int),
    ensures
        final(r).len() == old(r).len(),
        packed_vec(final(r)@, base as int, *a, d as int),
        forall|b: int|
            0 <= b < old(r).len() && !(base <= b < base + 32 * d * K) ==> final(r)[b]
                == #[trigger] old(r)[b],
{
    for i in 0..K
        invariant
            1 <= d <= 16,
            base + 32 * d * K <= old(r).len(),
            r.len() == old(r).len(),
            vec_fits_bits(*a, d as int),
            forall|i2: int, b: int|
                0 <= i2 < i && 0 <= b < 32 * d ==> r[base + 32 * d * i2 + b] == #[trigger] enc_byte(
                    a.poly[i2].coeff@,
                    d as int,
                    b,
                ),
            forall|b: int|
                0 <= b < old(r).len() && !(base <= b < base + 32 * d * i) ==> r[b]
                    == #[trigger] old(r)[b],
    {
        assert(base + i * d * N / 8 + 32 * d <= base + 32 * d * K) by (nonlinear_arith)
            requires
                i < K,
                K == 3,
                N == 256,
        ;
        assert(i * d * N / 8 == 32 * d * i) by (nonlinear_arith)
            requires
                N == 256,
        ;
        assert(fits_bits(a.poly[i as int].coeff@, d as int));
        let ghost before = r@;
        encode_at(r, base + i * d * N / 8, &a.poly[i], d);
        proof {
            assert forall|i2: int, b: int|
                0 <= i2 < i + 1 && 0 <= b < 32 * d implies r[base + 32 * d * i2 + b] == #[trigger] enc_byte(
                a.poly[i2].coeff@,
                d as int,
                b,
            ) by {
                if i2 < i {
                    assert(base + 32 * d * i2 + b < base + 32 * d * i) by (nonlinear_arith)
                        requires
                            i2 < i,
                            b < 32 * d,
                    ;
                    assert(r[base + 32 * d * i2 + b] == before[base + 32 * d * i2 + b]);
                } else {
                    assert(base + 32 * d * i2 + b == (base + 32 * d * i) + b);
                }
            }
            assert forall|b: int|
                0 <= b < old(r).len() && !(base <= b < base + 32 * d * (i + 1)) implies r[b]
                == #[trigger] old(r)[b] by {
                assert(32 * d * (i + 1) == 32 * d * i + 32 * d) by (nonlinear_arith);
            }
        }
    }
}

/// Reads the K polynomials of `r`, `d` bits per coefficient, one after another from `a`.
fn decode_vec_at(r: &mut VecPoly<K>, a: &[u8], base: usize, d: usize)
    requires
        1 <= d <= 16,
        base + 32 * d * K <= a.len(),
    ensures
        forall|i: int, j: int|
            0 <= i < K && 0 <= j < 256 ==> #[trigger] final(r).poly[i].coeff[j] == dec_coeff(
                a@,
                base + 32 * d * i,
                d as int,
                j,
            ),
        forall|i: int| 0 <= i < K ==> (#[trigger] final(r).poly[i]).ntt == old(r).poly[i].ntt,
{
    for i in 0..K
        invariant
            1 <= d <= 16,
            base + 32 * d * K <= a.len(),
            forall|i2: int, j: int|
                0 <= i2 < i && 0 <= j < 256 ==> #[trigger] r.poly[i2].coeff[j] == dec_coeff(
                    a@,
                    base + 32 * d * i2,
                    d as int,
                    j,
                ),
            forall|i2: int| 0 <= i2 < K ==> (#[trigger] r.poly[i2]).ntt == old(r).poly[i2].ntt,
    {
        assert(base + i * d * N / 8 + 32 * d <= base + 32 * d * K) by (nonlinear_arith)
            requires
                i < K,
                K == 3,
                N == 256,
        ;
        assert(i * d * N / 8 == 32 * d * i) by (nonlinear_arith)
            requires
                N == 256,
        ;
        let mut p = r.poly[i];
        decode_at(&mut p, a, base + i * d * N / 8, d);
        r.poly[i] = p;
    }
}

/// Packs the K polynomials of `a`, `d` bits per coefficient, one after another into the
/// first 32 d K bytes of `r`; each coefficient, as unsigned, must fit `d` bits.
pub fn Encode(r: &mut [u8], a: &VecPoly<K>, d: usize)
    requires
        1 <= d <= 16,
        32 * d * K <= old(r).len(),
        vec_fits_bits(*a, d as int),
    ensures
        final(r).len() == old(r).len(),
        packed_vec(final(r)@, 0, *a, d as int),
        forall|b: int| 32 * d * K <= b < old(r).len() ==> final(r)[b] == #[trigger] old(r)[b],
{
    encode_vec_at(r, 0, a, d);
}

/// Reads the K polynomials of `r`, `d` bits per coefficient, one after another from the
/// first 32 d K bytes of `a`; the NTT flags are kept.
pub fn Decode(r: &mut VecPoly<K>, a: &[u8], d: usize)
    requires
        1 <= d <= 16,
        32 * d * K <= a.len(),
    ensures
        forall|i: int, j: int|
            0 <= i < K && 0 <= j < 256 ==> #[trigger] final(r).poly[i].coeff[j] == dec_coeff(
                a@,
                32 * d * i,
                d as int,
                j,
            ),
        forall|i: int| 0 <= i < K ==> (#[trigger] final(r).poly[i]).ntt == old(r).poly[i].ntt,
{
    decode_vec_at(r, a, 0, d);
}

/// Packs the secret vector `s` into `sk`: 12 bits per coefficient (each must lie in [0, 4096)).
pub fn pack_sk(sk: &mut [u8], s: &VecPoly<K>)
    requires
        32 * PACKED_KEYS * K <= old(sk).len(),
        vec_fits_bits(*s, 12),
    ensures
        final(sk).len() == old(sk).len(),
        packed_vec(final(sk)@, 0, *s, 12),
        forall|b: int| 32 * 12 * K <= b < old(sk).len() ==> final(sk)[b] == #[trigger] old(sk)[b],
{
    encode_vec_at(sk, 0, s, PACKED_KEYS);
}

/// Reads the secret vector from `sk` (12 bits per coefficient), flagged as in the NTT domain.
pub fn unpack_sk(sk: &[u8], s: &mut VecPoly<K>)
    requires
        32 * PACKED_KEYS * K <= sk.len(),
    ensures
        forall|i: int, j: int|
            0 <= i < K && 0 <= j < 256 ==> #[trigger] final(s).poly[i].coeff[j] == dec_coeff(
                sk@,
                32 * 12 * i,
                12,
                j,
            ),
        forall|i: int| 0 <= i < K ==> (#[trigger] final(s).poly[i]).ntt,
{
    decode_vec_at(s, sk, 0, PACKED_KEYS);
    for i in 0..K
        invariant
            forall|i2: int, j: int|
                0 <= i2 < K && 0 <= j < 256 ==> #[trigger] s.poly[i2].coeff[j] == dec_coeff(
                    sk@,
                    32 * 12 * i2,
                    12,
                    j,
                ),
            forall|i2: int| 0 <= i2 < i ==> (#[trigger] s.poly[i2]).ntt,
    {
        s.poly[i].ntt = true;
    }
}

/// Packs the public key: the 32 bytes of `rho`, then `t` with 12 bits per coefficient.
pub fn pack_pk(pk: &mut [u8], t: &VecPoly<K>, rho: &[u8])
    requires
        SEEDBYTES + 32 * PACKED_KEYS * K <= old(pk).len(),
        SEEDBYTES <= rho.len(),
        vec_fits_bits(*t, 12),
    ensures
        final(pk).len() == old(pk).len(),
        forall|b: int| 0 <= b < 32 ==> final(pk)[b] == #[trigger] rho[b],
        packed_vec(final(pk)@, 32, *t, 12),
        forall|b: int| 32 + 32 * 12 * K <= b < old(pk).len() ==> final(pk)[b] == #[trigger] old(pk)[b],
{
    for b in 0..SEEDBYTES
        invariant
            SEEDBYTES + 32 * PACKED_KEYS * K <= old(pk).len(),
            SEEDBYTES <= rho.len(),
            pk.len() == old(pk).len(),
            forall|b2: int| 0 <= b2 < b ==> pk[b2] == #[trigger] rho[b2],
            forall|b2: int| b <= b2 < old(pk).len() ==> pk[b2] == #[trigger] old(pk)[b2],
    {
        pk[b] = rho[b];
    }
    let ghost mid = pk@;
    encode_vec_at(pk, SEEDBYTES, t, PACKED_KEYS);
    assert forall|b: int| 0 <= b < 32 implies pk[b] == #[trigger] rho[b] by {
        assert(pk[b] == mid[b]);
    }
}

/// Reads the public key: `rho` from its first 32 bytes, and `t` (12 bits per coefficient,
/// flagged as in the NTT domain) from the rest.
pub fn unpack_pk(pk: &[u8], t: &mut VecPoly<K>, rho: &mut [u8])
    requires
        SEEDBYTES + 32 * PACKED_KEYS * K <= pk.len(),
        SEEDBYTES <= old(rho).len(),
    ensures
        final(rho).len() == old(rho).len(),
        forall|b: int| 0 <= b < 32 ==> final(rho)[b] == #[trigger] pk[b],
        forall|b: int| 32 <= b < old(rho).len() ==> final(rho)[b] == #[trigger] old(rho)[b],
        forall|i: int, j: int|
            0 <= i < K && 0 <= j < 256 ==> #[trigger] final(t).poly[i].coeff[j] == dec_coeff(
                pk@,
                32 + 32 * 12 * i,
                12,
                j,
            ),
        forall|i: int| 0 <= i < K ==> (#[trigger] final(t).poly[i]).ntt,
{
    for b in 0..SEEDBYTES
        invariant
            SEEDBYTES <= old(rho).len(),
            rho.len() == old(rho).len(),
            SEEDBYTES + 32 * PACKED_KEYS * K <= pk.len(),
            forall|b2: int| 0 <= b2 < b ==> rho[b2] == #[trigger] pk[b2],
            forall|b2: int| b <= b2 < old(rho).len() ==> rho[b2] == #[trigger] old(rho)[b2],
    {
        rho[b] = pk[b];
    }
    decode_vec_at(t, pk, SEEDBYTES, PACKED_KEYS);
    for i in 0..K
        invariant
            forall|i2: int, j: int|
                0 <= i2 < K && 0 <= j < 256 ==> #[trigger] t.poly[i2].coeff[j] == dec_coeff(
                    pk@,
                    32 + 32 * 12 * i2,
                    12,
                    j,
                ),
            forall|i2: int| 0 <= i2 < i ==> (#[trigger] t.poly[i2]).ntt,
    {
        t.poly[i].ntt = true;
    }
}

/// Reading back K packed polynomials gives the polynomials: what `Encode` (at base 0),
/// `pack_sk` (base 0, 12 bits) and `pack_pk` (base 32, 12 bits) write, `Decode`,
/// `unpack_sk` and `unpack_pk` read back, for coefficients that fit the bits.
pub proof fn lemma_decode_vec_encode_vec(r: Seq<u8>, base: int, a: VecPoly<K>, d: int)
    requires
        1 <= d <= 16,
        0 <= base,
        base + 32 * d * K <= r.len(),
        vec_fits_bits(a, d),
        packed_vec(r, base, a, d),
    ensures
        forall|i: int, j: int|
            0 <= i < K && 0 <= j < 256 ==> #[trigger] dec_coeff(r, base + 32 * d * i, d, j)
                == a.poly[i].coeff[j],
{
    assert forall|i: int, j: int| 0 <= i < K && 0 <= j < 256 implies #[trigger] dec_coeff(
        r,
        base + 32 * d * i,
        d,
        j,
    ) == a.poly[i].coeff[j] by {
        let off = base + 32 * d * i;
        let n = r.len() as int;
        assert(off + 32 * d <= n) by (nonlinear_arith)
            requires
                off == base + 32 * d * i,
                0 <= i < 3,
                1 <= d,
                base + 32 * d * 3 <= n,
        ;
        assert forall|b: int| 0 <= b < 32 * d implies r[off + b] == #[trigger] enc_byte(
            a.poly[i].coeff@,
            d,
            b,
        ) by {
            assert(r[base + 32 * d * i + b] == enc_byte(a.poly[i].coeff@, d, b));
        }
        assert(fits_bits(a.poly[i].coeff@, d));
        assert(0 <= off) by (nonlinear_arith)
            requires
                off == base + 32 * d * i,
                0 <= i,
                0 <= base,
                1 <= d,
        ;
        lemma_decode_encode(r, off, a.poly[i].coeff@, d);
    }
}

/// Bits read from bytes that agree below `len` agree while the bits end below `len`.
pub proof fn lemma_bits_value_agree(b1: Seq<u8>, b2: Seq<u8>, off: int, start: int, n: nat, len: int)
    requires
        0 <= off,
        0 <= start,
        off * 8 + start + n <= len * 8,
        len <= b1.len(),
        len <= b2.len(),
        forall|j: int| 0 <= j < len ==> b1[j] == b2[j],
    ensures
        bits_value(b1, off, start, n) == bits_value(b2, off, start, n),
    decreases n,
{
    if n > 0 {
        lemma_bits_value_agree(b1, b2, off, start, (n - 1) as nat, len);
        let g = start + n - 1;
        assert(off + g / 8 < len);
        assert(b1[off + g / 8] == b2[off + g / 8]);
    }
}

} // verus!
