//! Why decryption undoes encryption: over Z_q, what decryption rounds is the message
//! plus a noise term, for every key pair, message and coins; the message comes back
//! whenever that noise stays within a quarter of q.

use vstd::arithmetic::power2::{lemma2_to64, pow2};
use vstd::prelude::*;

use crate::kex::{
    ct_u, ct_v, dec_w, decryption_spec, dot, enc_cu, enc_cv, enc_u, enc_u_prod, enc_v, enc_v_prod,
    encryption_spec, intt, kg_rho, kg_s, kg_sigma, kg_t, kg_t_prod, keygen_pk, keygen_sk,
    mat_poly, msg_poly, noise_poly, pk_poly, sk_poly,
};
use crate::ntt::{
    inv_layers, lemma_fwd_inv_layers, lemma_inv_layers_lin, lemma_ntt_layers_lin, lin_comb, ntt_layers, ntt_spec,
};
use crate::packing::{dec_coeff, enc_byte, enc_byte_sum, fits_bits, lemma_decode_encode, lemma_enc_byte_sum_bound, u16_of};
use crate::params::K;
use crate::utils::{compress_spec, cong, decompress_spec, lemma_compress_spec, lemma_cong_from, lemma_cong_ops};

verus! {

/// A byte of a packed stream is the packed value: it lies in [0, 256).
proof fn lemma_enc_byte_u8(c: Seq<i16>, l: int, b: int)
    ensures
        (enc_byte(c, l, b) as u8) as int == enc_byte(c, l, b),
{
    lemma_enc_byte_sum_bound(c, l, b, 8);
    lemma2_to64();
}

/// Values in [0, 2^l) taken as 16-bit integers fit l bits.
proof fn lemma_fits_small(c: Seq<i16>, l: int)
    requires
        1 <= l <= 12,
        c.len() == 256,
        forall|x: int| 0 <= x < 256 ==> 0 <= #[trigger] c[x] < pow2(l as nat),
    ensures
        fits_bits(c, l),
{
}

/// The secret key generated from `d` decodes to the reduced secret polynomials.
pub proof fn lemma_sk_poly(d: Seq<u8>)
    ensures
        forall|i: int, x: int|
            0 <= i < K && 0 <= x < 256 ==> #[trigger] sk_poly(keygen_sk(d), i)[x] == kg_s(d, i)[x] as int,
{
    let sk = keygen_sk(d);
    lemma2_to64();
    assert forall|i: int, x: int| 0 <= i < K && 0 <= x < 256 implies #[trigger] sk_poly(sk, i)[x]
        == kg_s(d, i)[x] as int by {
        let c = kg_s(d, i);
        assert forall|y: int| 0 <= y < 256 implies 0 <= #[trigger] c[y] < pow2(12) by {}
        lemma_fits_small(c, 12);
        assert forall|b: int| 0 <= b < 32 * 12 implies sk[384 * i + b] == #[trigger] enc_byte(c, 12, b) by {
            let bb = 384 * i + b;
            assert(bb / 384 == i && bb % 384 == b);
            lemma_enc_byte_u8(c, 12, b);
        }
        lemma_decode_encode(sk, 384 * i, c, 12);
    }
}

/// The public key generated from `d`: its seed is rho, and it decodes to t.
pub proof fn lemma_pk_poly(d: Seq<u8>)
    ensures
        keygen_pk(d).subrange(0, 32) == kg_rho(d),
        forall|j: int, x: int|
            0 <= j < K && 0 <= x < 256 ==> #[trigger] pk_poly(keygen_pk(d), j)[x] == kg_t(d, j)[x] as int,
{
    let pk = keygen_pk(d);
    lemma2_to64();
    assert(pk.subrange(0, 32) =~= kg_rho(d));
    assert forall|j: int, x: int| 0 <= j < K && 0 <= x < 256 implies #[trigger] pk_poly(pk, j)[x]
        == kg_t(d, j)[x] as int by {
        let c = kg_t(d, j);
        assert forall|y: int| 0 <= y < 256 implies 0 <= #[trigger] c[y] < pow2(12) by {}
        lemma_fits_small(c, 12);
        assert forall|b: int| 0 <= b < 32 * 12 implies pk[32 + 384 * j + b] == #[trigger] enc_byte(c, 12, b) by {
            let bb = 32 + 384 * j + b;
            assert((bb - 32) / 384 == j && (bb - 32) % 384 == b);
            lemma_enc_byte_u8(c, 12, b);
        }
        lemma_decode_encode(pk, 32 + 384 * j, c, 12);
    }
}

/// The ciphertext decodes to u and v, each moved by its rounding.
pub proof fn lemma_ct_polys(pk: Seq<u8>, m: Seq<u8>, rc: Seq<u8>)
    ensures
        forall|i: int, x: int|
            0 <= i < K && 0 <= x < 256 ==> #[trigger] ct_u(encryption_spec(pk, m, rc), i)[x] == decompress_spec(
                compress_spec(enc_u(pk, rc, i)[x], 10),
                10,
            ),
        forall|x: int|
            0 <= x < 256 ==> #[trigger] ct_v(encryption_spec(pk, m, rc))[x] == decompress_spec(
                compress_spec(enc_v(pk, m, rc)[x], 4),
                4,
            ),
{
    let c = encryption_spec(pk, m, rc);
    lemma2_to64();
    assert forall|i: int, x: int| 0 <= i < K && 0 <= x < 256 implies #[trigger] ct_u(c, i)[x]
        == decompress_spec(compress_spec(enc_u(pk, rc, i)[x], 10), 10) by {
        let cu = enc_cu(pk, rc, i);
        assert forall|y: int| 0 <= y < 256 implies 0 <= #[trigger] cu[y] < pow2(10) by {
            lemma_compress_spec(enc_u(pk, rc, i)[y], 0, 10);
        }
        lemma_fits_small(cu, 10);
        assert forall|b: int| 0 <= b < 32 * 10 implies c[320 * i + b] == #[trigger] enc_byte(cu, 10, b) by {
            let bb = 320 * i + b;
            assert(bb / 320 == i && bb % 320 == b);
            lemma_enc_byte_u8(cu, 10, b);
        }
        lemma_decode_encode(c, 320 * i, cu, 10);
        lemma_compress_spec(enc_u(pk, rc, i)[x], 0, 10);
    }
    let cv = enc_cv(pk, m, rc);
    assert forall|y: int| 0 <= y < 256 implies 0 <= #[trigger] cv[y] < pow2(4) by {
        lemma_compress_spec(enc_v(pk, m, rc)[y], 0, 4);
    }
    lemma_fits_small(cv, 4);
    assert forall|b: int| 0 <= b < 32 * 4 implies c[960 + b] == #[trigger] enc_byte(cv, 4, b) by {
        lemma_enc_byte_u8(cv, 4, b);
    }
    lemma_decode_encode(c, 960, cv, 4);
    assert forall|x: int| 0 <= x < 256 implies #[trigger] ct_v(c)[x] == decompress_spec(
        compress_spec(enc_v(pk, m, rc)[x], 4),
        4,
    ) by {
        lemma_compress_spec(enc_v(pk, m, rc)[x], 0, 4);
    }
}

/// The transform undoes the inverse transform over Z_q.
pub proof fn lemma_ntt_intt(y: Seq<int>)
    ensures
        forall|c: int| 0 <= c < 256 ==> cong(#[trigger] ntt_spec(intt(y))[c], y[c]),
{
    let k0 = 1441 * 169 * 169int;
    let iy = inv_layers(y, 2);
    assert forall|i: int| 0 <= i < 256 implies cong(#[trigger] intt(y)[i], k0 * iy[i] + 0 * iy[i]) by {
        assert(intt(y)[i] == iy[i] * 1441 * 169 * 169);
        assert(iy[i] * 1441 * 169 * 169 == k0 * iy[i] + 0 * iy[i]) by (nonlinear_arith)
            requires
                k0 == 1441 * 169 * 169,
        ;
        lemma_cong_from(intt(y)[i], k0 * iy[i] + 0 * iy[i], 0);
    }
    lemma_ntt_layers_lin(intt(y), iy, iy, k0, 0, 2);
    lemma_fwd_inv_layers(y, 2);
    assert forall|c: int| 0 <= c < 256 implies cong(#[trigger] ntt_spec(intt(y))[c], y[c]) by {
        let f = ntt_layers(iy, 2)[c];
        assert(cong(ntt_spec(intt(y))[c], k0 * f + 0 * f));
        assert(cong(f, (256int / 2) * y[c]));
        lemma_cong_ops(k0, k0, f, 128 * y[c]);
        assert(k0 * (128 * y[c]) - y[c] == 3329 * (1582463 * y[c])) by (nonlinear_arith)
            requires
                k0 == 1441 * 169 * 169,
        ;
        lemma_cong_from(k0 * (128 * y[c]), y[c], 1582463 * y[c]);
        lemma_cong_ops(ntt_spec(intt(y))[c], k0 * f + 0 * f, k0 * f, k0 * (128 * y[c]));
        lemma_cong_ops(ntt_spec(intt(y))[c], k0 * (128 * y[c]), k0 * (128 * y[c]), y[c]);
    }
}

/// The inverse transform over Z_q is linear.
pub proof fn lemma_intt_lin(z: Seq<int>, x: Seq<int>, y: Seq<int>, a: int, b: int)
    requires
        lin_comb(z, x, y, a, b),
    ensures
        lin_comb(intt(z), intt(x), intt(y), a, b),
{
    lemma_inv_layers_lin(z, x, y, a, b, 2);
    let k0 = 1441 * 169 * 169int;
    assert forall|i: int| 0 <= i < 256 implies cong(#[trigger] intt(z)[i], a * intt(x)[i] + b * intt(y)[i]) by {
        let iz = inv_layers(z, 2)[i];
        let ix = inv_layers(x, 2)[i];
        let iy = inv_layers(y, 2)[i];
        assert(cong(iz, a * ix + b * iy));
        lemma_cong_ops(iz, a * ix + b * iy, k0, k0);
        assert(intt(z)[i] == iz * k0 && a * intt(x)[i] + b * intt(y)[i] == (a * ix + b * iy) * k0)
            by (nonlinear_arith)
            requires
                k0 == 1441 * 169 * 169,
                intt(z)[i] == iz * 1441 * 169 * 169,
                intt(x)[i] == ix * 1441 * 169 * 169,
                intt(y)[i] == iy * 1441 * 169 * 169,
        ;
    }
}

/// The inner product of K = 3 polynomials at one coefficient, written out.
pub proof fn lemma_dot3(a: spec_fn(int) -> Seq<int>, b: spec_fn(int) -> Seq<int>, c: int)
    ensures
        dot(a, b, K as int, c) == a(0)[c] * b(0)[c] + a(1)[c] * b(1)[c] + a(2)[c] * b(2)[c],
{
    assert(dot(a, b, 0, c) == 0);
    assert(dot(a, b, 1, c) == a(0)[c] * b(0)[c]);
    assert(dot(a, b, 2, c) == a(0)[c] * b(0)[c] + a(1)[c] * b(1)[c]);
}

/// (x0 y0 + x1 y1 + x2 y2 + e) z, multiplied out.
proof fn lemma_dist(x0: int, y0: int, x1: int, y1: int, x2: int, y2: int, e: int, z: int)
    ensures
        (x0 * y0 + x1 * y1 + x2 * y2 + e) * z == x0 * y0 * z + x1 * y1 * z + x2 * y2 * z + e * z,
{
    assert((x0 * y0 + x1 * y1 + x2 * y2 + e) * z == x0 * y0 * z + x1 * y1 * z + x2 * y2 * z + e * z)
        by (nonlinear_arith);
}

/// z (x0 y0 + x1 y1 + x2 y2 + w), multiplied out with z in the middle of each product.
proof fn lemma_dist_left(z: int, x0: int, y0: int, x1: int, y1: int, x2: int, y2: int, w: int)
    ensures
        z * (x0 * y0 + x1 * y1 + x2 * y2 + w) == x0 * z * y0 + x1 * z * y1 + x2 * z * y2 + z * w,
{
    let p0 = x0 * y0;
    let p1 = x1 * y1;
    let p2 = x2 * y2;
    vstd::arithmetic::mul::lemma_mul_is_distributive_add(z, p0 + p1 + p2, w);
    vstd::arithmetic::mul::lemma_mul_is_distributive_add(z, p0 + p1, p2);
    vstd::arithmetic::mul::lemma_mul_is_distributive_add(z, p0, p1);
    assert(z * (x0 * y0) == x0 * z * y0) by (nonlinear_arith);
    assert(z * (x1 * y1) == x1 * z * y1) by (nonlinear_arith);
    assert(z * (x2 * y2) == x2 * z * y2) by (nonlinear_arith);
}

/// The cancellation at the heart of decryption: with t = A s + e and h = A^T r + w
/// (modulo q), t . r - s . h = e . r - s . w modulo q.
proof fn lemma_cancel(
    a: Seq<int>,
    s: Seq<int>,
    r: Seq<int>,
    e: Seq<int>,
    w: Seq<int>,
    t: Seq<int>,
    sk: Seq<int>,
    h: Seq<int>,
)
    requires
        forall|j: int|
            0 <= j < 3 ==> cong(
                #[trigger] t[j],
                a[3 * j] * s[0] + a[3 * j + 1] * s[1] + a[3 * j + 2] * s[2] + e[j],
            ),
        forall|i: int| 0 <= i < 3 ==> cong(#[trigger] sk[i], s[i]),
        forall|i: int|
            0 <= i < 3 ==> cong(#[trigger] h[i], a[i] * r[0] + a[3 + i] * r[1] + a[6 + i] * r[2] + w[i]),
    ensures
        cong(
            (t[0] * r[0] + t[1] * r[1] + t[2] * r[2]) - (sk[0] * h[0] + sk[1] * h[1] + sk[2] * h[2]),
            (e[0] * r[0] + e[1] * r[1] + e[2] * r[2]) - (s[0] * w[0] + s[1] * w[1] + s[2] * w[2]),
        ),
{
    let x0 = a[0] * s[0] + a[1] * s[1] + a[2] * s[2] + e[0];
    let x1 = a[3] * s[0] + a[4] * s[1] + a[5] * s[2] + e[1];
    let x2 = a[6] * s[0] + a[7] * s[1] + a[8] * s[2] + e[2];
    let u0 = a[0] * r[0] + a[3] * r[1] + a[6] * r[2] + w[0];
    let u1 = a[1] * r[0] + a[4] * r[1] + a[7] * r[2] + w[1];
    let u2 = a[2] * r[0] + a[5] * r[1] + a[8] * r[2] + w[2];
    assert(cong(t[0], x0));
    assert(cong(t[1], x1));
    assert(cong(t[2], x2));
    assert(cong(sk[0], s[0]) && cong(sk[1], s[1]) && cong(sk[2], s[2]));
    assert(cong(h[0], u0));
    assert(cong(h[1], u1));
    assert(cong(h[2], u2));
    lemma_cong_from(r[0], r[0], 0);
    lemma_cong_from(r[1], r[1], 0);
    lemma_cong_from(r[2], r[2], 0);
    lemma_cong_ops(t[0], x0, r[0], r[0]);
    lemma_cong_ops(t[1], x1, r[1], r[1]);
    lemma_cong_ops(t[2], x2, r[2], r[2]);
    lemma_cong_ops(sk[0], s[0], h[0], u0);
    lemma_cong_ops(sk[1], s[1], h[1], u1);
    lemma_cong_ops(sk[2], s[2], h[2], u2);
    lemma_cong_ops(t[0] * r[0], x0 * r[0], t[1] * r[1], x1 * r[1]);
    lemma_cong_ops(t[0] * r[0] + t[1] * r[1], x0 * r[0] + x1 * r[1], t[2] * r[2], x2 * r[2]);
    lemma_cong_ops(sk[0] * h[0], s[0] * u0, sk[1] * h[1], s[1] * u1);
    lemma_cong_ops(sk[0] * h[0] + sk[1] * h[1], s[0] * u0 + s[1] * u1, sk[2] * h[2], s[2] * u2);
    let tv = t[0] * r[0] + t[1] * r[1] + t[2] * r[2];
    let xv = x0 * r[0] + x1 * r[1] + x2 * r[2];
    let sh = sk[0] * h[0] + sk[1] * h[1] + sk[2] * h[2];
    let su = s[0] * u0 + s[1] * u1 + s[2] * u2;
    lemma_cong_ops(tv, xv, sh, su);
    lemma_dist(a[0], s[0], a[1], s[1], a[2], s[2], e[0], r[0]);
    lemma_dist(a[3], s[0], a[4], s[1], a[5], s[2], e[1], r[1]);
    lemma_dist(a[6], s[0], a[7], s[1], a[8], s[2], e[2], r[2]);
    lemma_dist_left(s[0], a[0], r[0], a[3], r[1], a[6], r[2], w[0]);
    lemma_dist_left(s[1], a[1], r[0], a[4], r[1], a[7], r[2], w[1]);
    lemma_dist_left(s[2], a[2], r[0], a[5], r[1], a[8], r[2], w[2]);
}

/// Noise polynomial n of the key pair generated from `d`, transformed (s for n < K,
/// e for K <= n < 2K).
pub open spec fn kg_noise_hat(d: Seq<u8>, n: int) -> Seq<int> {
    ntt_spec(noise_poly(kg_sigma(d), n))
}

/// Noise polynomial j of the coins `rc`, transformed (r for j < K).
pub open spec fn enc_noise_hat(rc: Seq<u8>, j: int) -> Seq<int> {
    ntt_spec(noise_poly(rc, j))
}

/// What compressing polynomial i of u to 10 bits and decompressing it adds to it.
pub open spec fn u_round(pk: Seq<u8>, rc: Seq<u8>, i: int) -> Seq<int> {
    Seq::new(256, |x: int| decompress_spec(compress_spec(enc_u(pk, rc, i)[x], 10), 10) - enc_u(pk, rc, i)[x])
}

/// What compressing v to 4 bits and decompressing it adds to it.
pub open spec fn v_round(pk: Seq<u8>, m: Seq<u8>, rc: Seq<u8>) -> Seq<int> {
    Seq::new(256, |x: int| decompress_spec(compress_spec(enc_v(pk, m, rc)[x], 4), 4) - enc_v(pk, m, rc)[x])
}

/// The error e1 of polynomial i of u, plus its rounding.
pub open spec fn e1_round(pk: Seq<u8>, rc: Seq<u8>, i: int) -> Seq<int> {
    Seq::new(256, |x: int| noise_poly(rc, K + i)[x] + u_round(pk, rc, i)[x])
}

/// e . r - s . NTT(e1 + rounding of u), in the NTT domain.
pub open spec fn noise_prod(d: Seq<u8>, rc: Seq<u8>) -> Seq<int> {
    Seq::new(
        256,
        |x: int|
            dot(|j: int| kg_noise_hat(d, K + j), |j: int| enc_noise_hat(rc, j), K as int, x) - dot(
                |i: int| kg_noise_hat(d, i),
                |i: int| ntt_spec(e1_round(keygen_pk(d), rc, i)),
                K as int,
                x,
            ),
    )
}

/// The noise that decryption sees for the key pair from `d`, message `m` and coins `rc`:
/// e2 + the rounding of v + INTT(e . r - s . NTT(e1 + the rounding of u)).
pub open spec fn dec_noise(d: Seq<u8>, m: Seq<u8>, rc: Seq<u8>) -> Seq<int> {
    Seq::new(
        256,
        |x: int| noise_poly(rc, 2 * K)[x] + v_round(keygen_pk(d), m, rc)[x] + intt(noise_prod(d, rc))[x],
    )
}

/// The product that decryption forms in the NTT domain: s . NTT(u').
pub open spec fn dec_prod(sk: Seq<u8>, ct: Seq<u8>) -> Seq<int> {
    Seq::new(256, |c: int| dot(|i: int| sk_poly(sk, i), |i: int| ntt_spec(ct_u(ct, i)), K as int, c))
}

/// A value reduced into [0, q) and taken as a 16-bit integer is congruent to it.
proof fn lemma_reduced_cong(v: int)
    ensures
        cong(((v % 3329) as i16) as int, v),
        0 <= (((v % 3329) as i16) as int) < 3329,
{
    crate::utils::lemma_cong_mod(v % 3329, v);
    vstd::arithmetic::div_mod::lemma_mod_twice(v, 3329);
}

/// The transformed ciphertext polynomial i is A^T r + NTT(e1 + rounding of u), modulo q.
proof fn lemma_ct_u_hat(d: Seq<u8>, m: Seq<u8>, rc: Seq<u8>, i: int)
    requires
        0 <= i < K,
    ensures
        forall|x: int|
            0 <= x < 256 ==> cong(
                #[trigger] ntt_spec(ct_u(encryption_spec(keygen_pk(d), m, rc), i))[x],
                enc_u_prod(keygen_pk(d), rc, i)[x] + ntt_spec(e1_round(keygen_pk(d), rc, i))[x],
            ),
{
    let pk = keygen_pk(d);
    let c = encryption_spec(pk, m, rc);
    let uu = enc_u_prod(pk, rc, i);
    let er = e1_round(pk, rc, i);
    lemma_ct_polys(pk, m, rc);
    assert forall|x: int| 0 <= x < 256 implies cong(#[trigger] ct_u(c, i)[x], 1 * intt(uu)[x] + 1 * er[x]) by {
        assert(ct_u(c, i)[x] == intt(uu)[x] + er[x]);
        lemma_cong_from(ct_u(c, i)[x], 1 * intt(uu)[x] + 1 * er[x], 0);
    }
    lemma_ntt_layers_lin(ct_u(c, i), intt(uu), er, 1, 1, 2);
    lemma_ntt_intt(uu);
    assert forall|x: int| 0 <= x < 256 implies cong(
        #[trigger] ntt_spec(ct_u(c, i))[x],
        uu[x] + ntt_spec(er)[x],
    ) by {
        let f = ntt_spec(intt(uu))[x];
        assert(cong(ntt_spec(ct_u(c, i))[x], 1 * f + 1 * ntt_spec(er)[x]));
        assert(cong(f, uu[x]));
        lemma_cong_from(ntt_spec(er)[x], ntt_spec(er)[x], 0);
        lemma_cong_ops(f, uu[x], ntt_spec(er)[x], ntt_spec(er)[x]);
        lemma_cong_ops(ntt_spec(ct_u(c, i))[x], 1 * f + 1 * ntt_spec(er)[x], f + ntt_spec(er)[x], uu[x] + ntt_spec(er)[x]);
    }
}

/// Coefficient x of polynomial j of t, as the public key from `d` holds it: A s + e modulo q.
proof fn lemma_t_at(d: Seq<u8>, j: int, x: int)
    requires
        0 <= j < K,
        0 <= x < 256,
    ensures
        cong(
            pk_poly(keygen_pk(d), j)[x],
            mat_poly(kg_rho(d), j, 0)[x] * kg_noise_hat(d, 0)[x] + mat_poly(kg_rho(d), j, 1)[x] * kg_noise_hat(d, 1)[x]
                + mat_poly(kg_rho(d), j, 2)[x] * kg_noise_hat(d, 2)[x] + kg_noise_hat(d, K + j)[x],
        ),
{
    lemma_pk_poly(d);
    lemma_dot3(|k: int| mat_poly(kg_rho(d), j, k), |k: int| ntt_spec(noise_poly(kg_sigma(d), k)), x);
    let v = kg_t_prod(d, j)[x] + ntt_spec(noise_poly(kg_sigma(d), K + j))[x];
    lemma_reduced_cong(v);
    assert(kg_t(d, j)[x] == ((v % 3329) as i16));
}

/// Coefficient x of polynomial i of the secret key from `d`: s modulo q.
proof fn lemma_s_at(d: Seq<u8>, i: int, x: int)
    requires
        0 <= i < K,
        0 <= x < 256,
    ensures
        cong(sk_poly(keygen_sk(d), i)[x], kg_noise_hat(d, i)[x]),
{
    lemma_sk_poly(d);
    lemma_reduced_cong(kg_noise_hat(d, i)[x]);
    assert(kg_s(d, i)[x] == ((kg_noise_hat(d, i)[x] % 3329) as i16));
}

/// Coefficient x of the transformed ciphertext polynomial i: A^T r + NTT(e1 + rounding of u).
proof fn lemma_h_at(d: Seq<u8>, m: Seq<u8>, rc: Seq<u8>, i: int, x: int)
    requires
        0 <= i < K,
        0 <= x < 256,
    ensures
        cong(
            ntt_spec(ct_u(encryption_spec(keygen_pk(d), m, rc), i))[x],
            mat_poly(kg_rho(d), 0, i)[x] * enc_noise_hat(rc, 0)[x] + mat_poly(kg_rho(d), 1, i)[x] * enc_noise_hat(rc, 1)[x]
                + mat_poly(kg_rho(d), 2, i)[x] * enc_noise_hat(rc, 2)[x] + ntt_spec(e1_round(keygen_pk(d), rc, i))[x],
        ),
{
    let pk = keygen_pk(d);
    lemma_pk_poly(d);
    lemma_ct_u_hat(d, m, rc, i);
    assert(pk.subrange(0, 32) == kg_rho(d));
    lemma_dot3(|j: int| mat_poly(pk.subrange(0, 32), j, i), |j: int| ntt_spec(noise_poly(rc, j)), x);
}

/// At one coefficient, t . r - s . NTT(u') is e . r - s . NTT(e1 + rounding of u), modulo q.
proof fn lemma_prod_cancel_at(d: Seq<u8>, m: Seq<u8>, rc: Seq<u8>, x: int)
    requires
        0 <= x < 256,
    ensures
        cong(
            enc_v_prod(keygen_pk(d), rc)[x] - dec_prod(keygen_sk(d), encryption_spec(keygen_pk(d), m, rc))[x],
            noise_prod(d, rc)[x],
        ),
{
    let pk = keygen_pk(d);
    let sk = keygen_sk(d);
    let c = encryption_spec(pk, m, rc);
    let rho = kg_rho(d);
    let a = seq![
        mat_poly(rho, 0, 0)[x], mat_poly(rho, 0, 1)[x], mat_poly(rho, 0, 2)[x],
        mat_poly(rho, 1, 0)[x], mat_poly(rho, 1, 1)[x], mat_poly(rho, 1, 2)[x],
        mat_poly(rho, 2, 0)[x], mat_poly(rho, 2, 1)[x], mat_poly(rho, 2, 2)[x],
    ];
    let s = seq![kg_noise_hat(d, 0)[x], kg_noise_hat(d, 1)[x], kg_noise_hat(d, 2)[x]];
    let r = seq![enc_noise_hat(rc, 0)[x], enc_noise_hat(rc, 1)[x], enc_noise_hat(rc, 2)[x]];
    let e = seq![kg_noise_hat(d, K + 0)[x], kg_noise_hat(d, K + 1)[x], kg_noise_hat(d, K + 2)[x]];
    let w = seq![
        ntt_spec(e1_round(pk, rc, 0))[x], ntt_spec(e1_round(pk, rc, 1))[x], ntt_spec(e1_round(pk, rc, 2))[x],
    ];
    let t = seq![pk_poly(pk, 0)[x], pk_poly(pk, 1)[x], pk_poly(pk, 2)[x]];
    let sv = seq![sk_poly(sk, 0)[x], sk_poly(sk, 1)[x], sk_poly(sk, 2)[x]];
    let h = seq![ntt_spec(ct_u(c, 0))[x], ntt_spec(ct_u(c, 1))[x], ntt_spec(ct_u(c, 2))[x]];
    lemma_t_at(d, 0, x);
    lemma_t_at(d, 1, x);
    lemma_t_at(d, 2, x);
    lemma_s_at(d, 0, x);
    lemma_s_at(d, 1, x);
    lemma_s_at(d, 2, x);
    lemma_h_at(d, m, rc, 0, x);
    lemma_h_at(d, m, rc, 1, x);
    lemma_h_at(d, m, rc, 2, x);
    assert forall|j: int| 0 <= j < 3 implies cong(
        #[trigger] t[j],
        a[3 * j] * s[0] + a[3 * j + 1] * s[1] + a[3 * j + 2] * s[2] + e[j],
    ) by {
        if j == 0 {
        } else if j == 1 {
        } else {
        }
    }
    assert forall|i: int| 0 <= i < 3 implies cong(#[trigger] sv[i], s[i]) by {
        if i == 0 {
        } else if i == 1 {
        } else {
        }
    }
    assert forall|i: int| 0 <= i < 3 implies cong(
        #[trigger] h[i],
        a[i] * r[0] + a[3 + i] * r[1] + a[6 + i] * r[2] + w[i],
    ) by {
        if i == 0 {
        } else if i == 1 {
        } else {
        }
    }
    lemma_cancel(a, s, r, e, w, t, sv, h);
    lemma_dot3(|j: int| pk_poly(pk, j), |j: int| ntt_spec(noise_poly(rc, j)), x);
    lemma_dot3(|i: int| sk_poly(sk, i), |i: int| ntt_spec(ct_u(c, i)), x);
    lemma_dot3(|j: int| kg_noise_hat(d, K + j), |j: int| enc_noise_hat(rc, j), x);
    lemma_dot3(|i: int| kg_noise_hat(d, i), |i: int| ntt_spec(e1_round(pk, rc, i)), x);
}

/// What decryption rounds is the message plus the noise, modulo q.
pub proof fn lemma_dec_w(d: Seq<u8>, m: Seq<u8>, rc: Seq<u8>)
    ensures
        forall|x: int|
            0 <= x < 256 ==> cong(
                #[trigger] dec_w(keygen_sk(d), encryption_spec(keygen_pk(d), m, rc))[x],
                msg_poly(m)[x] + dec_noise(d, m, rc)[x],
            ),
{
    let pk = keygen_pk(d);
    let sk = keygen_sk(d);
    let c = encryption_spec(pk, m, rc);
    let vs = enc_v_prod(pk, rc);
    let ps = dec_prod(sk, c);
    let ns = noise_prod(d, rc);
    assert forall|x: int| 0 <= x < 256 implies cong(#[trigger] ns[x], 1 * vs[x] + (-1) * ps[x]) by {
        lemma_prod_cancel_at(d, m, rc, x);
        lemma_cong_ops(vs[x] - ps[x], ns[x], 0, 0);
    }
    lemma_intt_lin(ns, vs, ps, 1, -1);
    lemma_ct_polys(pk, m, rc);
    assert forall|x: int| 0 <= x < 256 implies cong(
        #[trigger] dec_w(sk, c)[x],
        msg_poly(m)[x] + dec_noise(d, m, rc)[x],
    ) by {
        assert(dec_w(sk, c)[x] == ct_v(c)[x] - intt(ps)[x]);
        assert(ct_v(c)[x] == enc_v(pk, m, rc)[x] + v_round(pk, m, rc)[x]);
        assert(enc_v(pk, m, rc)[x] == intt(vs)[x] + noise_poly(rc, 2 * K)[x] + msg_poly(m)[x]);
        assert(dec_noise(d, m, rc)[x] == noise_poly(rc, 2 * K)[x] + v_round(pk, m, rc)[x] + intt(ns)[x]);
        assert(cong(intt(ns)[x], 1 * intt(vs)[x] + (-1) * intt(ps)[x]));
        let rest = noise_poly(rc, 2 * K)[x] + msg_poly(m)[x] + v_round(pk, m, rc)[x];
        lemma_cong_from(rest, rest, 0);
        lemma_cong_ops(intt(ns)[x], 1 * intt(vs)[x] + (-1) * intt(ps)[x], rest, rest);
        lemma_cong_ops(
            intt(ns)[x] + rest,
            1 * intt(vs)[x] + (-1) * intt(ps)[x] + rest,
            0,
            0,
        );
    }
}

/// The noise, modulo q, that rounding to one bit tolerates on a message bit `bit`: within
/// a quarter of q of 0 (from -832 to 831), and also 832 when the bit is 0.
pub open spec fn small_noise(n: int, bit: int) -> bool {
    n % 3329 <= 831 || n % 3329 >= 2497 || (n % 3329 == 832 && bit == 0)
}

/// Rounding to one bit gives back a bit that was decompressed and moved by a small noise.
proof fn lemma_round_bit(w: int, bit: int, n: int)
    requires
        bit == 0 || bit == 1,
        cong(w, decompress_spec(bit, 1) + n),
        small_noise(n, bit),
    ensures
        compress_spec(w, 1) == bit,
{
    lemma2_to64();
    let dm = decompress_spec(bit, 1);
    assert(bit % 3329 == bit);
    if bit == 0 {
        assert(dm == (2 * 0 * 3329 + 2) / 4);
    } else {
        assert(dm == (2 * 1 * 3329 + 2) / 4);
    }
    assert(dm == bit * 1665);
    crate::utils::lemma_cong_mod(w, dm + n);
    let r = n % 3329;
    vstd::arithmetic::div_mod::lemma_fundamental_div_mod(n, 3329);
    vstd::arithmetic::div_mod::lemma_fundamental_div_mod(dm + n, 3329);
    let wm = (dm + n) % 3329;
    assert(w % 3329 == wm);
    // dm + n == dm + r + 3329 (n / 3329), so wm is dm + r reduced once at most
    if bit == 0 {
        assert(wm == r) by {
            vstd::arithmetic::div_mod::lemma_mod_twice(n, 3329);
        }
    } else {
        vstd::arithmetic::div_mod::lemma_add_mod_noop(1665, n, 3329);
        assert(wm == (1665 + r) % 3329);
        if r <= 831 {
            vstd::arithmetic::div_mod::lemma_small_mod((1665 + r) as nat, 3329);
        } else {
            vstd::arithmetic::div_mod::lemma_mod_sub_multiples_vanish(1665 + r - 3329, 3329);
            vstd::arithmetic::div_mod::lemma_small_mod((1665 + r - 3329) as nat, 3329);
        }
    }
}

/// Packing the bits of a 32-byte message, one per coefficient, gives the message back.
proof fn lemma_msg_bytes(m: Seq<u8>)
    requires
        m.len() == 32,
    ensures
        Seq::new(32, |b: int| enc_byte(Seq::new(256, |x: int| dec_coeff(m, 0, 1, x) as i16), 1, b) as u8) == m,
{
    let bits = Seq::new(256, |x: int| dec_coeff(m, 0, 1, x) as i16);
    lemma2_to64();
    assert forall|b: int| 0 <= b < 32 implies #[trigger] (enc_byte(bits, 1, b) as u8) == m[b] by {
        lemma_msg_byte_sum(m, bits, b, 8);
        crate::packing::lemma_low_bits_sum(m[b] as int, 8);
    }
    assert(Seq::new(32, |b: int| enc_byte(bits, 1, b) as u8) =~= m);
}

/// The first n bits of the packed message bits of byte b are the first n bits of m[b].
#[verifier::spinoff_prover]
proof fn lemma_msg_byte_sum(m: Seq<u8>, bits: Seq<i16>, b: int, n: nat)
    requires
        m.len() == 32,
        0 <= b < 32,
        n <= 8,
        bits == Seq::new(256, |x: int| dec_coeff(m, 0, 1, x) as i16),
    ensures
        enc_byte_sum(bits, 1, b, n) == crate::packing::low_bits_sum(m[b] as int, n),
    decreases n,
{
    if n > 0 {
        lemma_msg_byte_sum(m, bits, b, (n - 1) as nat);
        let g = 8 * b + n - 1;
        assert(g / 8 == b && g % 8 == n - 1);
        lemma2_to64();
        crate::kex::lemma_dec_coeff_range(m, 0, 1, g);
        let v = m[b] as int;
        let bit = crate::packing::bit_of(v, (n - 1) as nat);
        assert(bits[g] as int == dec_coeff(m, 0, 1, g));
        assert(crate::packing::bits_value(m, 0, g, 0) == 0);
        assert(crate::packing::bits_value(m, 0, g, 1) == crate::packing::bits_value(m, 0, g, 0)
            + crate::packing::byte_bit(m, 0, g + 1 - 1) * pow2(0));
        assert(pow2(0) == 1);
        assert(crate::packing::bits_value(m, 0, g, 1) == crate::packing::byte_bit(m, 0, g));
        assert(crate::packing::byte_bit(m, 0, g) == bit);
        assert(dec_coeff(m, 0, 1, g) == bit);
        assert(0 <= bit <= 1);
        assert(crate::packing::coeff_bit(bits, 1, g) == crate::packing::bit_of(u16_of(bits[g] as int), 0));
        assert(crate::packing::bit_of(bit, 0) == bit);
    }
}

/// Decryption undoes encryption whenever the noise is small: for the key pair generated
/// from `d`, a 32-byte message `m` and coins `rc`, if every coefficient of the noise
/// `dec_noise(d, m, rc)` is tolerated by rounding on its message bit (`small_noise`:
/// within a quarter of q of 0 modulo q), decrypting the encryption of `m` with the secret
/// key gives `m` back. On every other noise the rounding of that bit fails.
pub proof fn lemma_decrypt_encrypt(d: Seq<u8>, m: Seq<u8>, rc: Seq<u8>)
    requires
        m.len() == 32,
        forall|x: int| 0 <= x < 256 ==> small_noise(#[trigger] dec_noise(d, m, rc)[x], dec_coeff(m, 0, 1, x)),
    ensures
        decryption_spec(keygen_sk(d), encryption_spec(keygen_pk(d), m, rc)) == m,
{
    let sk = keygen_sk(d);
    let c = encryption_spec(keygen_pk(d), m, rc);
    lemma_dec_w(d, m, rc);
    let bits = Seq::new(256, |x: int| compress_spec(dec_w(sk, c)[x], 1) as i16);
    let mbits = Seq::new(256, |x: int| dec_coeff(m, 0, 1, x) as i16);
    assert forall|x: int| 0 <= x < 256 implies bits[x] == mbits[x] by {
        lemma2_to64();
        crate::kex::lemma_dec_coeff_range(m, 0, 1, x);
        let bit = dec_coeff(m, 0, 1, x);
        assert(msg_poly(m)[x] == decompress_spec(bit, 1));
        assert(small_noise(dec_noise(d, m, rc)[x], bit));
        lemma_round_bit(dec_w(sk, c)[x], bit, dec_noise(d, m, rc)[x]);
    }
    assert(bits =~= mbits);
    lemma_msg_bytes(m);
}

} // verus!
