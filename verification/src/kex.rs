//! The public-key encryption scheme: key generation, encryption and decryption
//! over module lattices.

use rand::Rng;
use vstd::arithmetic::power2::{lemma2_to64, pow2};
use vstd::prelude::*;

use crate::ntt::{bounded, inv_layers, ints, ntt_bound, ntt_spec};
use crate::packing::{
    dec_coeff, decode, enc_byte, encode, encode_at, fits_bits, lemma_bits_value_bound,
    lemma_bits_value_suffix, pack_pk, pack_sk, packed_vec, u16_of, unpack_pk, unpack_sk,
    vec_fits_bits, Decode, Encode,
};
use crate::params::{CIPHERTEXTBYTES, Du, Dv, ETA1, ETA2, K, MESSAGEBYTES, N, PK_BYTES, SK_BYTES};
use crate::poly::{
    Compress, Decompress, Mat, Ntt, Poly, VecPoly, _modq, compress, decompress, inv_Ntt, inv_ntt,
    inv_ntt_rel, m_mult_v, modq, neg, ntt_rel, transp, v_add, v_mult_v, vmv_ok, vmv_sum,
};
use crate::sample::{
    cbd3_coeff, cbd_poly, get_error, get_matrix, get_noise, matrix_seed, noise_seed, parse_coeff,
    parse_poly, prf, prf_seed, sha3_512, shake128, shake256, CBD, CBD_BYTES, G,
};
use crate::utils::{
    cmod_spec, compress_spec, cong, decompress_spec, lemma_cmod, lemma_cong_mod, lemma_cong_ops,
    lemma_mont_bound, montgomery_ok,
};

verus! {

// ---------------------------------------------------------------------------
// The scheme over Z_q
// ---------------------------------------------------------------------------

/// The inverse transform over Z_q of `x`, in the order of the coefficients (the
/// inverse layers, the factor 1 / 128 and the removal of the Montgomery factor).
pub open spec fn intt(x: Seq<int>) -> Seq<int> {
    Seq::new(256, |c: int| inv_layers(x, 2)[c] * 1441 * 169 * 169)
}

/// Coefficient c of the sum over j < n of the coefficientwise products a(j) * b(j).
pub open spec fn dot(a: spec_fn(int) -> Seq<int>, b: spec_fn(int) -> Seq<int>, n: int, c: int) -> int
    decreases n,
{
    if n <= 0 {
        0
    } else {
        dot(a, b, n - 1, c) + a(n - 1)[c] * b(n - 1)[c]
    }
}

/// `dot` depends only on the first n polynomials of its first argument.
pub proof fn lemma_dot_agree(
    a1: spec_fn(int) -> Seq<int>,
    a2: spec_fn(int) -> Seq<int>,
    b: spec_fn(int) -> Seq<int>,
    n: int,
    c: int,
)
    requires
        forall|i: int| 0 <= i < n ==> #[trigger] a1(i)[c] == a2(i)[c],
    ensures
        dot(a1, b, n, c) == dot(a2, b, n, c),
    decreases n,
{
    if n > 0 {
        lemma_dot_agree(a1, a2, b, n - 1, c);
    }
}

/// Polynomial i of the secret key: 12-bit coefficients from byte 384 i on.
pub open spec fn sk_poly(sk: Seq<u8>, i: int) -> Seq<int> {
    Seq::new(256, |c: int| dec_coeff(sk, 384 * i, 12, c))
}

/// Polynomial i of `u` in a ciphertext: 10-bit coefficients from byte 320 i on, decompressed.
pub open spec fn ct_u(ct: Seq<u8>, i: int) -> Seq<int> {
    Seq::new(256, |c: int| decompress_spec(dec_coeff(ct, 320 * i, 10, c), 10))
}

/// The polynomial `v` of a ciphertext: 4-bit coefficients from byte 960 on, decompressed.
pub open spec fn ct_v(ct: Seq<u8>) -> Seq<int> {
    Seq::new(256, |c: int| decompress_spec(dec_coeff(ct, 960, 4, c), 4))
}

/// What decryption recovers before rounding: v - INTT(s . NTT(u)).
pub open spec fn dec_w(sk: Seq<u8>, ct: Seq<u8>) -> Seq<int> {
    let prod = Seq::new(
        256,
        |c: int| dot(|i: int| sk_poly(sk, i), |i: int| ntt_spec(ct_u(ct, i)), K as int, c),
    );
    Seq::new(256, |c: int| ct_v(ct)[c] - intt(prod)[c])
}

/// The message bytes that decryption gives: each coefficient of w rounded to one bit, packed.
pub open spec fn decryption_spec(sk: Seq<u8>, ct: Seq<u8>) -> Seq<u8> {
    let bits = Seq::new(256, |c: int| compress_spec(dec_w(sk, ct)[c], 1) as i16);
    Seq::new(32, |b: int| enc_byte(bits, 1, b) as u8)
}

/// Entry (i, j) of the public matrix generated from `rho`.
pub open spec fn mat_poly(rho: Seq<u8>, i: int, j: int) -> Seq<int> {
    Seq::new(256, |c: int| parse_coeff(shake128(matrix_seed(rho, i, j), 512), c))
}

/// Noise polynomial n derived from `seed`.
pub open spec fn noise_poly(seed: Seq<u8>, n: int) -> Seq<int> {
    Seq::new(256, |m: int| cbd3_coeff(shake256(noise_seed(seed, n), 192), m))
}

/// Polynomial i of `t` in a public key: 12-bit coefficients from byte 32 + 384 i on.
pub open spec fn pk_poly(pk: Seq<u8>, i: int) -> Seq<int> {
    Seq::new(256, |c: int| dec_coeff(pk, 32 + 384 * i, 12, c))
}

/// The message as a polynomial: each bit decompressed (0 or (q + 1) / 2).
pub open spec fn msg_poly(m: Seq<u8>) -> Seq<int> {
    Seq::new(256, |c: int| decompress_spec(dec_coeff(m, 0, 1, c), 1))
}

/// Polynomial i of A^T . NTT(r) in the NTT domain, over Z_q.
pub open spec fn enc_u_prod(pk: Seq<u8>, rc: Seq<u8>, i: int) -> Seq<int> {
    Seq::new(
        256,
        |c: int|
            dot(
                |j: int| mat_poly(pk.subrange(0, 32), j, i),
                |j: int| ntt_spec(noise_poly(rc, j)),
                K as int,
                c,
            ),
    )
}

/// t . NTT(r) in the NTT domain, over Z_q.
pub open spec fn enc_v_prod(pk: Seq<u8>, rc: Seq<u8>) -> Seq<int> {
    Seq::new(
        256,
        |c: int| dot(|j: int| pk_poly(pk, j), |j: int| ntt_spec(noise_poly(rc, j)), K as int, c),
    )
}

/// Polynomial i of `u` = INTT(A^T . r) + e1, modulo q (before compression).
pub open spec fn enc_u(pk: Seq<u8>, rc: Seq<u8>, i: int) -> Seq<int> {
    Seq::new(256, |c: int| intt(enc_u_prod(pk, rc, i))[c] + noise_poly(rc, K + i)[c])
}

/// The polynomial `v` = INTT(t . r) + e2 + the message, modulo q (before compression).
pub open spec fn enc_v(pk: Seq<u8>, m: Seq<u8>, rc: Seq<u8>) -> Seq<int> {
    Seq::new(256, |c: int| intt(enc_v_prod(pk, rc))[c] + noise_poly(rc, 2 * K)[c] + msg_poly(m)[c])
}

/// Polynomial i of `u` compressed to 10 bits.
pub open spec fn enc_cu(pk: Seq<u8>, rc: Seq<u8>, i: int) -> Seq<i16> {
    Seq::new(256, |c: int| compress_spec(enc_u(pk, rc, i)[c], 10) as i16)
}

/// The polynomial `v` compressed to 4 bits.
pub open spec fn enc_cv(pk: Seq<u8>, m: Seq<u8>, rc: Seq<u8>) -> Seq<i16> {
    Seq::new(256, |c: int| compress_spec(enc_v(pk, m, rc)[c], 4) as i16)
}

/// The ciphertext: the three compressed polynomials of `u` packed with 10 bits, then `v`
/// packed with 4 bits.
pub open spec fn encryption_spec(pk: Seq<u8>, m: Seq<u8>, rc: Seq<u8>) -> Seq<u8> {
    Seq::new(
        1088,
        |b: int|
            if b < 960 {
                enc_byte(enc_cu(pk, rc, b / 320), 10, b % 320) as u8
            } else {
                enc_byte(enc_cv(pk, m, rc), 4, b - 960) as u8
            },
    )
}

/// The public seed of the key pair generated from `d`: the first half of G(d).
pub open spec fn kg_rho(d: Seq<u8>) -> Seq<u8> {
    Seq::new(32, |b: int| sha3_512(d)[b])
}

/// The noise seed of the key pair generated from `d`: the second half of G(d).
pub open spec fn kg_sigma(d: Seq<u8>) -> Seq<u8> {
    Seq::new(32, |b: int| sha3_512(d)[32 + b])
}

/// Polynomial i of the secret vector: the transform of noise polynomial i, reduced to [0, q).
pub open spec fn kg_s(d: Seq<u8>, i: int) -> Seq<i16> {
    Seq::new(256, |c: int| (ntt_spec(noise_poly(kg_sigma(d), i))[c] % 3329) as i16)
}

/// Polynomial i of A . s in the NTT domain, over Z_q.
pub open spec fn kg_t_prod(d: Seq<u8>, i: int) -> Seq<int> {
    Seq::new(
        256,
        |c: int|
            dot(
                |j: int| mat_poly(kg_rho(d), i, j),
                |j: int| ntt_spec(noise_poly(kg_sigma(d), j)),
                K as int,
                c,
            ),
    )
}

/// Polynomial i of t = A . s + e in the NTT domain, reduced to [0, q).
pub open spec fn kg_t(d: Seq<u8>, i: int) -> Seq<i16> {
    Seq::new(
        256,
        |c: int| ((kg_t_prod(d, i)[c] + ntt_spec(noise_poly(kg_sigma(d), K + i))[c]) % 3329) as i16,
    )
}

/// The public key generated from `d`: rho, then t packed with 12 bits per coefficient.
pub open spec fn keygen_pk(d: Seq<u8>) -> Seq<u8> {
    Seq::new(
        1184,
        |b: int|
            if b < 32 {
                kg_rho(d)[b]
            } else {
                enc_byte(kg_t(d, (b - 32) / 384), 12, (b - 32) % 384) as u8
            },
    )
}

/// The secret key generated from `d`: s packed with 12 bits per coefficient.
pub open spec fn keygen_sk(d: Seq<u8>) -> Seq<u8> {
    Seq::new(1152, |b: int| enc_byte(kg_s(d, b / 384), 12, b % 384) as u8)
}

// ---------------------------------------------------------------------------
// Facts that connect the computed values with the scheme over Z_q
// ---------------------------------------------------------------------------

/// A coefficient read with l <= 15 bits lies in [0, 2^l).
pub proof fn lemma_dec_coeff_range(bytes: Seq<u8>, off: int, l: int, i: int)
    requires
        1 <= l <= 15,
    ensures
        0 <= dec_coeff(bytes, off, l, i) < pow2(l as nat),
{
    lemma_bits_value_bound(bytes, off, l * i, l as nat);
    lemma2_to64();
    if l < 15 {
        vstd::arithmetic::power2::lemma_pow2_strictly_increases(l as nat, 15);
    }
}

/// Decompressing a d-bit value (d <= 11) gives at most q.
pub proof fn lemma_decompress_range(x: int, d: nat)
    requires
        1 <= d <= 11,
        0 <= x < pow2(d),
    ensures
        0 <= decompress_spec(x, d) <= 3329,
{
    lemma2_to64();
    vstd::arithmetic::power2::lemma_pow2_pos(d);
    if d < 11 {
        vstd::arithmetic::power2::lemma_pow2_strictly_increases(d, 11);
    }
    let p = pow2(d) as int;
    vstd::arithmetic::div_mod::lemma_small_mod(x as nat, 3329);
    let v = (2 * x * 3329 + p) / (2 * p);
    vstd::arithmetic::div_mod::lemma_fundamental_div_mod(2 * x * 3329 + p, 2 * p);
    assert(0 <= v <= 3329) by (nonlinear_arith)
        requires
            0 <= x <= p - 1,
            p >= 2,
            2 * p * v + (2 * x * 3329 + p) % (2 * p) == 2 * x * 3329 + p,
            0 <= (2 * x * 3329 + p) % (2 * p) < 2 * p,
    ;
}

/// The inverse transform of a polynomial congruent to `x` is congruent to `intt(x)`.
pub proof fn lemma_intt_cong(p: Poly, r: Poly, x: Seq<int>)
    requires
        p.ntt,
        inv_ntt_rel(p, r),
        forall|c: int| 0 <= c < 256 ==> cong(#[trigger] p.coeff[c] as int, x[c]),
    ensures
        forall|c: int| 0 <= c < 256 ==> cong(#[trigger] r.coeff[c] as int, intt(x)[c]),
{
    let sp = ints(p.coeff@);
    assert forall|c: int| 0 <= c < 256 implies cong(#[trigger] sp[c], 1 * x[c]) by {
        assert(sp[c] == p.coeff[c]);
    }
    crate::ntt::lemma_inv_layers_linear(x, sp, 1, 2);
    assert forall|c: int| 0 <= c < 256 implies cong(#[trigger] r.coeff[c] as int, intt(x)[c]) by {
        let a = inv_layers(sp, 2)[c];
        let b = inv_layers(x, 2)[c];
        assert(cong(a, 1 * b));
        assert(cong(r.coeff[c] as int, crate::ntt::invntt_spec(sp)[c] * 169));
        assert(crate::ntt::invntt_spec(sp)[c] * 169 == a * (1441 * 169 * 169)) by (nonlinear_arith)
            requires
                crate::ntt::invntt_spec(sp)[c] == a * 1441 * 169,
        ;
        assert(intt(x)[c] == b * (1441 * 169 * 169)) by (nonlinear_arith)
            requires
                intt(x)[c] == b * 1441 * 169 * 169,
        ;
        lemma_cong_ops(a, 1 * b, 1441 * 169 * 169int, 1441 * 169 * 169int);
        lemma_cong_ops(
            r.coeff[c] as int,
            a * (1441 * 169 * 169),
            a * (1441 * 169 * 169),
            b * (1441 * 169 * 169),
        );
    }
}

/// The inner product that `v_mult_v` accumulates is congruent to `dot` of congruent polynomials.
pub proof fn lemma_vmv_dot(
    v: VecPoly<K>,
    u: VecPoly<K>,
    a: spec_fn(int) -> Seq<int>,
    b: spec_fn(int) -> Seq<int>,
    n: int,
    c: int,
)
    requires
        0 <= n <= K,
        0 <= c < 256,
        forall|i: int| 0 <= i < K ==> cong(#[trigger] v.poly[i].coeff[c] as int, a(i)[c]),
        forall|i: int| 0 <= i < K ==> cong(#[trigger] u.poly[i].coeff[c] as int, b(i)[c]),
    ensures
        cong(vmv_sum(v, u, n, c), dot(a, b, n, c)),
    decreases n,
{
    if n <= 0 {
        crate::utils::lemma_cong_from(0, 0, 0);
    } else {
        lemma_vmv_dot(v, u, a, b, n - 1, c);
        let x = v.poly[n - 1].coeff[c] as int;
        let y = u.poly[n - 1].coeff[c] as int;
        assert(cong(x, a(n - 1)[c]));
        assert(cong(y, b(n - 1)[c]));
        lemma_cong_ops(x, a(n - 1)[c], y, b(n - 1)[c]);
        lemma_cong_ops(vmv_sum(v, u, n - 1, c), dot(a, b, n - 1, c), x * y, a(n - 1)[c] * b(n - 1)[c]);
    }
}

/// The bound of the forward transform of coefficients at most q.
pub proof fn lemma_ntt_bound_3329()
    ensures
        ntt_bound(3329, 7) == 16536,
{
    assert(ntt_bound(3329, 0) == 3329);
    assert(ntt_bound(3329, 1) == 5077);
    assert(ntt_bound(3329, 2) == 6870);
    assert(ntt_bound(3329, 3) == 8708);
    assert(ntt_bound(3329, 4) == 10592);
    assert(ntt_bound(3329, 5) == 12524);
    assert(ntt_bound(3329, 6) == 14505);
    assert(ntt_bound(3329, 7) == 16536);
}

/// Decryption: recovers the 32-byte message from a ciphertext with the packed secret
/// key: decodes and decompresses u and v, computes v - INTT(s . NTT(u)) modulo q, and
/// packs each coefficient rounded to one bit.
#[verifier::rlimit(30)]
pub fn decryption(sk: &[u8], c: &[u8]) -> (m: [u8; MESSAGEBYTES])
    requires
        sk.len() >= SK_BYTES,
        c.len() >= CIPHERTEXTBYTES,
    ensures
        m@ == decryption_spec(sk@, c@),
{
    let mut m = [0u8; MESSAGEBYTES];

    let mut tmp = VecPoly::<K>::default();
    Decode(&mut tmp, c, Du);
    let u = Decompress(&tmp, Du as i16);

    let mut tmp = Poly::default();
    decode(&mut tmp, vstd::slice::slice_subrange(c, Du * K * N / 8, c.len()), Dv);
    let mut v = decompress(&tmp, Dv as i16);

    let mut s = VecPoly::<K>::default();
    unpack_sk(sk, &mut s);

    proof {
        lemma_decryption_u(c@, u);
    }
    let uhat = Ntt(&u);
    proof {
        lemma_decryption_uhat(sk@, c@, s, u, uhat);
    }
    let prod = v_mult_v(&s, &uhat);
    let su0 = inv_ntt(&prod);
    proof {
        lemma_decryption_su(sk@, c@, s, uhat, prod, su0);
        lemma_neg_cong(su0);
    }
    let su = neg(&su0);
    let ghost v0 = v;
    proof {
        lemma_decryption_v(c@, tmp, v0, su);
        lemma_neg_chain(sk@, c@, su0, su);
    }
    crate::poly::add(&mut v, &su);
    let ghost v1 = v;
    v = _modq(&v);
    let bits = compress(&v, 1);
    proof {
        lemma_decryption_bits(sk@, c@, v0, su, v, bits);
    }
    encode(&mut m, &bits, 1);
    proof {
        assert(m@ =~= decryption_spec(sk@, c@));
    }
    m
}

proof fn lemma_decryption_u(ct: Seq<u8>, u: VecPoly<K>)
    requires
        forall|i: int, j: int|
            0 <= i < K && 0 <= j < 256 ==> #[trigger] u.poly[i].coeff[j] == decompress_spec(
                dec_coeff(ct, 32 * 10 * i, 10, j) as int,
                10,
            ),
    ensures
        forall|i: int| 0 <= i < K ==> bounded(ints((#[trigger] u.poly[i]).coeff@), 3329),
        forall|i: int| 0 <= i < K ==> ints((#[trigger] u.poly[i]).coeff@) == ct_u(ct, i),
{
    lemma2_to64();
    assert forall|i: int| 0 <= i < K implies bounded(ints((#[trigger] u.poly[i]).coeff@), 3329)
        && ints(u.poly[i].coeff@) == ct_u(ct, i) by {
        assert forall|j: int| 0 <= j < 256 implies -3329 <= #[trigger] ints(u.poly[i].coeff@)[j]
            <= 3329 by {
            lemma_dec_coeff_range(ct, 32 * 10 * i, 10, j);
            lemma_decompress_range(dec_coeff(ct, 32 * 10 * i, 10, j), 10);
        }
        assert(ints(u.poly[i].coeff@) =~= ct_u(ct, i));
    }
}

proof fn lemma_decryption_uhat(sk: Seq<u8>, ct: Seq<u8>, s: VecPoly<K>, u: VecPoly<K>, uhat: VecPoly<K>)
    requires
        forall|i: int| 0 <= i < K ==> !(#[trigger] u.poly[i]).ntt,
        forall|i: int| 0 <= i < K ==> bounded(ints((#[trigger] u.poly[i]).coeff@), 3329),
        forall|i: int| 0 <= i < K ==> ints((#[trigger] u.poly[i]).coeff@) == ct_u(ct, i),
        forall|i: int| 0 <= i < K ==> ntt_rel(#[trigger] u.poly[i], uhat.poly[i]),
        forall|i: int, j: int|
            0 <= i < K && 0 <= j < 256 ==> #[trigger] s.poly[i].coeff[j] == dec_coeff(sk, 32 * 12 * i, 12, j),
        forall|i: int| 0 <= i < K ==> (#[trigger] s.poly[i]).ntt,
    ensures
        vmv_ok(s, uhat),
        forall|i: int, j: int|
            0 <= i < K && 0 <= j < 256 ==> cong(#[trigger] uhat.poly[i].coeff[j] as int, ntt_spec(ct_u(ct, i))[j]),
        forall|i: int, j: int|
            0 <= i < K && 0 <= j < 256 ==> cong(#[trigger] s.poly[i].coeff[j] as int, sk_poly(sk, i)[j]),
{
    lemma_ntt_bound_3329();
    lemma2_to64();
    assert forall|i: int| 0 <= i < K implies (#[trigger] uhat.poly[i]).ntt && bounded(ints(uhat.poly[i].coeff@), 16536) by {
        assert(ntt_rel(u.poly[i], uhat.poly[i]));
        assert(bounded(ints(u.poly[i].coeff@), 3329));
    }
    assert forall|i: int, j: int|
        0 <= i < K && 0 <= j < 256 implies montgomery_ok_at(s, uhat, i, j) by {
        lemma_dec_coeff_range(sk, 32 * 12 * i, 12, j);
        let x = s.poly[i].coeff[j] as int;
        let y = uhat.poly[i].coeff[j] as int;
        assert(ints(uhat.poly[i].coeff@)[j] == y);
        assert(-(4095 * 16536) <= x * y <= 4095 * 16536) by (nonlinear_arith)
            requires
                0 <= x < 4096,
                -16536 <= y <= 16536,
        ;
        lemma_mont_bound(x * y, 4095 * 16536int);
    }
    assert forall|i: int, j: int|
        0 <= i < K && 0 <= j < 256 implies crate::utils::montgomery_ok(
        #[trigger] s.poly[i].coeff[j] * uhat.poly[i].coeff[j],
    ) by {
        assert(montgomery_ok_at(s, uhat, i, j));
    }
    assert forall|i: int, j: int|
        0 <= i < K && 0 <= j < 256 implies cong(#[trigger] uhat.poly[i].coeff[j] as int, ntt_spec(ct_u(ct, i))[j]) by {
        assert(ntt_rel(u.poly[i], uhat.poly[i]));
        assert(cong(uhat.poly[i].coeff[j] as int, ntt_spec(ints(u.poly[i].coeff@))[j]));
    }
    assert forall|i: int, j: int|
        0 <= i < K && 0 <= j < 256 implies cong(#[trigger] s.poly[i].coeff[j] as int, sk_poly(sk, i)[j]) by {
        crate::utils::lemma_cong_from(s.poly[i].coeff[j] as int, sk_poly(sk, i)[j], 0);
    }
}

/// The Montgomery reduction of coefficient j of the product of polynomial i of `v` and `u` returns.
pub open spec fn montgomery_ok_at(v: VecPoly<K>, u: VecPoly<K>, i: int, j: int) -> bool {
    crate::utils::montgomery_ok(v.poly[i].coeff[j] * u.poly[i].coeff[j])
}

proof fn lemma_decryption_su(sk: Seq<u8>, ct: Seq<u8>, s: VecPoly<K>, uhat: VecPoly<K>, prod: Poly, su: Poly)
    requires
        forall|i: int, j: int|
            0 <= i < K && 0 <= j < 256 ==> cong(#[trigger] uhat.poly[i].coeff[j] as int, ntt_spec(ct_u(ct, i))[j]),
        forall|i: int, j: int|
            0 <= i < K && 0 <= j < 256 ==> cong(#[trigger] s.poly[i].coeff[j] as int, sk_poly(sk, i)[j]),
        forall|j: int| 0 <= j < 256 ==> cong(prod.coeff[j] as int, #[trigger] vmv_sum(s, uhat, K as int, j)),
        prod.ntt,
        inv_ntt_rel(prod, su),
    ensures
        forall|j: int| 0 <= j < 256 ==> cong(#[trigger] su.coeff[j] as int, intt(Seq::new(
            256,
            |c: int| dot(|i: int| sk_poly(sk, i), |i: int| ntt_spec(ct_u(ct, i)), K as int, c),
        ))[j]),
        !su.ntt,
        forall|j: int| 0 <= j < 256 ==> -3329 < #[trigger] su.coeff[j] <= 1664,
{
    let a = |i: int| sk_poly(sk, i);
    let b = |i: int| ntt_spec(ct_u(ct, i));
    let x = Seq::new(256, |c: int| dot(a, b, K as int, c));
    assert forall|c: int| 0 <= c < 256 implies cong(#[trigger] prod.coeff[c] as int, x[c]) by {
        lemma_vmv_dot(s, uhat, a, b, K as int, c);
        lemma_cong_ops(prod.coeff[c] as int, vmv_sum(s, uhat, K as int, c), vmv_sum(s, uhat, K as int, c), dot(a, b, K as int, c));
    }
    lemma_intt_cong(prod, su, x);
}

proof fn lemma_decryption_v(ct: Seq<u8>, tmp: Poly, v0: Poly, su: Poly)
    requires
        ct.len() >= CIPHERTEXTBYTES,
        forall|j: int| 0 <= j < 256 ==> #[trigger] tmp.coeff[j] == dec_coeff(ct.subrange(960, ct.len() as int), 0, 4, j),
        forall|j: int| 0 <= j < 256 ==> v0.coeff[j] == decompress_spec(#[trigger] tmp.coeff[j] as int, 4),
        forall|j: int| 0 <= j < 256 ==> -3329 < #[trigger] su.coeff[j] <= 1664,
    ensures
        forall|j: int| 0 <= j < 256 ==> v0.coeff[j] == #[trigger] ct_v(ct)[j],
        forall|j: int| 0 <= j < 256 ==> i16::MIN <= #[trigger] v0.coeff[j] + su.coeff[j] <= i16::MAX,
{
    lemma2_to64();
    assert forall|j: int| 0 <= j < 256 implies v0.coeff[j] == #[trigger] ct_v(ct)[j] && 0 <= v0.coeff[j] <= 3329 by {
        lemma_bits_value_suffix(ct, 960, 4 * j, 4);
        assert(tmp.coeff[j] == dec_coeff(ct, 960, 4, j));
        lemma_dec_coeff_range(ct, 960, 4, j);
        lemma_decompress_range(dec_coeff(ct, 960, 4, j), 4);
    }
    assert forall|j: int| 0 <= j < 256 implies i16::MIN <= #[trigger] v0.coeff[j] + su.coeff[j] <= i16::MAX by {
        assert(v0.coeff[j] == ct_v(ct)[j]);
        assert(-3329 < su.coeff[j] <= 1664);
    }
}

proof fn lemma_decryption_bits(sk: Seq<u8>, ct: Seq<u8>, v0: Poly, su: Poly, v: Poly, bits: Poly)
    requires
        forall|j: int| 0 <= j < 256 ==> v0.coeff[j] == #[trigger] ct_v(ct)[j],
        forall|j: int| 0 <= j < 256 ==> cong(#[trigger] su.coeff[j] as int, -intt(Seq::new(
            256,
            |c: int| dot(|i: int| sk_poly(sk, i), |i: int| ntt_spec(ct_u(ct, i)), K as int, c),
        ))[j]),
        forall|j: int| 0 <= j < 256 ==> #[trigger] v.coeff[j] == cmod_spec(v0.coeff[j] + su.coeff[j], 3329) % 3329,
        forall|j: int| 0 <= j < 256 ==> #[trigger] bits.coeff[j] == compress_spec(v.coeff[j] as int, 1),
        forall|j: int| 0 <= j < 256 ==> i16::MIN <= #[trigger] v0.coeff[j] + su.coeff[j] <= i16::MAX,
    ensures
        fits_bits(bits.coeff@, 1),
        bits.coeff@ == Seq::new(256, |c: int| compress_spec(dec_w(sk, ct)[c], 1) as i16),
{
    lemma2_to64();
    let w = dec_w(sk, ct);
    assert forall|j: int| 0 <= j < 256 implies #[trigger] bits.coeff[j] == compress_spec(w[j], 1) && 0 <= bits.coeff[j] < 2 by {
        let x = v0.coeff[j] + su.coeff[j];
        lemma_cmod(x, 3329);
        let prodx = Seq::new(
            256,
            |c: int| dot(|i: int| sk_poly(sk, i), |i: int| ntt_spec(ct_u(ct, i)), K as int, c),
        );
        lemma_cong_ops(v0.coeff[j] as int, ct_v(ct)[j], su.coeff[j] as int, -intt(prodx)[j]);
        crate::utils::lemma_cong_from(v0.coeff[j] as int, ct_v(ct)[j], 0);
        lemma_cong_ops(v0.coeff[j] as int, ct_v(ct)[j], su.coeff[j] as int, -intt(prodx)[j]);
        assert(w[j] == ct_v(ct)[j] + -intt(prodx)[j]);
        lemma_cong_ops(cmod_spec(x, 3329), x, x, w[j]);
        lemma_cong_mod(cmod_spec(x, 3329), w[j]);
        vstd::arithmetic::div_mod::lemma_mod_twice(cmod_spec(x, 3329), 3329);
        crate::utils::lemma_compress_spec(v.coeff[j] as int, w[j], 1);
    }
    assert forall|j: int| 0 <= j < 256 implies u16_of(#[trigger] bits.coeff@[j] as int) < pow2(1) by {
        assert(bits.coeff@[j] == bits.coeff[j]);
    }
    assert(bits.coeff@ =~= Seq::new(256, |c: int| compress_spec(w[c], 1) as i16));
}

proof fn lemma_neg_cong(su: Poly)
    requires
        forall|j: int| 0 <= j < 256 ==> -3329 < #[trigger] su.coeff[j] <= 1664,
    ensures
        forall|j: int| 0 <= j < 256 ==> #[trigger] su.coeff[j] != i16::MIN,
{
}

proof fn lemma_neg_chain(sk: Seq<u8>, ct: Seq<u8>, su0: Poly, su: Poly)
    requires
        forall|j: int| 0 <= j < 256 ==> cong(#[trigger] su0.coeff[j] as int, intt(Seq::new(
            256,
            |c: int| dot(|i: int| sk_poly(sk, i), |i: int| ntt_spec(ct_u(ct, i)), K as int, c),
        ))[j]),
        forall|j: int| 0 <= j < 256 ==> -3329 < #[trigger] su0.coeff[j] <= 1664,
        forall|j: int| 0 <= j < 256 ==> su.coeff[j] == cmod_spec(-(#[trigger] su0.coeff[j]), 3329),
    ensures
        forall|j: int| 0 <= j < 256 ==> cong(#[trigger] su.coeff[j] as int, -intt(Seq::new(
            256,
            |c: int| dot(|i: int| sk_poly(sk, i), |i: int| ntt_spec(ct_u(ct, i)), K as int, c),
        ))[j]),
        forall|j: int| 0 <= j < 256 ==> -3329 < #[trigger] su.coeff[j] <= 1664,
{
    let x = Seq::new(
        256,
        |c: int| dot(|i: int| sk_poly(sk, i), |i: int| ntt_spec(ct_u(ct, i)), K as int, c),
    );
    assert forall|j: int| 0 <= j < 256 implies cong(#[trigger] su.coeff[j] as int, -intt(x)[j]) && -3329 < su.coeff[j] <= 1664 by {
        let y = su0.coeff[j] as int;
        lemma_cmod(-y, 3329);
        lemma_cong_ops(0, 0, y, intt(x)[j]);
        lemma_cong_ops(cmod_spec(-y, 3329), -y, 0 - y, 0 - intt(x)[j]);
    }
}

/// Encryption reads only the first 1184 bytes of the public key and the first 32 bytes
/// of the message and of the coins: inputs that agree there give the same ciphertext.
pub proof fn lemma_encryption_prefix(
    pk: Seq<u8>,
    m: Seq<u8>,
    rc: Seq<u8>,
    pk2: Seq<u8>,
    m2: Seq<u8>,
    rc2: Seq<u8>,
)
    requires
        pk.len() >= PK_BYTES,
        pk2.len() >= PK_BYTES,
        m.len() >= MESSAGEBYTES,
        m2.len() >= MESSAGEBYTES,
        rc.len() >= 32,
        rc2.len() >= 32,
        pk.subrange(0, 1184) == pk2.subrange(0, 1184),
        m.subrange(0, 32) == m2.subrange(0, 32),
        rc.subrange(0, 32) == rc2.subrange(0, 32),
    ensures
        encryption_spec(pk, m, rc) == encryption_spec(pk2, m2, rc2),
{
    assert forall|j: int| 0 <= j < 1184 implies pk[j] == pk2[j] by {
        assert(pk.subrange(0, 1184)[j] == pk[j]);
        assert(pk2.subrange(0, 1184)[j] == pk2[j]);
        assert(pk.subrange(0, 1184)[j] == pk2.subrange(0, 1184)[j]);
    }
    assert forall|j: int| 0 <= j < 32 implies m[j] == m2[j] by {
        assert(m.subrange(0, 32)[j] == m[j]);
        assert(m2.subrange(0, 32)[j] == m2[j]);
        assert(m.subrange(0, 32)[j] == m2.subrange(0, 32)[j]);
    }
    assert(pk.subrange(0, 32) =~= pk2.subrange(0, 32));
    assert forall|n: int| #[trigger] noise_seed(rc, n) == noise_seed(rc2, n) by {}
    assert forall|n: int| #[trigger] noise_poly(rc, n) == noise_poly(rc2, n) by {
        assert(noise_seed(rc, n) == noise_seed(rc2, n));
    }
    assert forall|j: int, c: int| 0 <= j < K && 0 <= c < 256 implies #[trigger] pk_poly(pk, j)[c] == pk_poly(
        pk2,
        j,
    )[c] by {
        crate::packing::lemma_bits_value_agree(pk, pk2, 32 + 384 * j, 12 * c, 12, 1184);
    }
    assert forall|c: int| 0 <= c < 256 implies #[trigger] msg_poly(m)[c] == msg_poly(m2)[c] by {
        crate::packing::lemma_bits_value_agree(m, m2, 0, 1 * c, 1, 32);
    }
    reveal_with_fuel(dot, 4);
    assert(enc_v_prod(pk, rc) =~= enc_v_prod(pk2, rc2));
    assert(msg_poly(m) =~= msg_poly(m2));
    assert(enc_v(pk, m, rc) =~= enc_v(pk2, m2, rc2));
    assert forall|i: int| 0 <= i < K implies #[trigger] enc_cu(pk, rc, i) == enc_cu(pk2, rc2, i) by {
        assert(enc_u_prod(pk, rc, i) =~= enc_u_prod(pk2, rc2, i));
        assert(enc_u(pk, rc, i) =~= enc_u(pk2, rc2, i));
        assert(enc_cu(pk, rc, i) =~= enc_cu(pk2, rc2, i));
    }
    assert(enc_cv(pk, m, rc) =~= enc_cv(pk2, m2, rc2));
    assert forall|b: int| 0 <= b < 1088 implies #[trigger] encryption_spec(pk, m, rc)[b] == encryption_spec(
        pk2,
        m2,
        rc2,
    )[b] by {
        if b < 960 {
            assert(enc_cu(pk, rc, b / 320) == enc_cu(pk2, rc2, b / 320));
        }
    }
    assert(encryption_spec(pk, m, rc) =~= encryption_spec(pk2, m2, rc2));
}

/// The bound of the forward transform of coefficients at most 3 (noise).
pub proof fn lemma_ntt_bound_3()
    ensures
        ntt_bound(3, 7) == 12574,
{
    assert(ntt_bound(3, 0) == 3);
    assert(ntt_bound(3, 1) == 1667);
    assert(ntt_bound(3, 2) == 3373);
    assert(ntt_bound(3, 3) == 5122);
    assert(ntt_bound(3, 4) == 6916);
    assert(ntt_bound(3, 5) == 8755);
    assert(ntt_bound(3, 6) == 10641);
    assert(ntt_bound(3, 7) == 12574);
}

/// Noise polynomials (seeds `first` to `first + K - 1`) lie well inside the bound that
/// the forward transform accepts.
proof fn lemma_noise_bounded(seed: Seq<u8>, first: int, r: VecPoly<K>)
    requires
        forall|j: int| 0 <= j < K ==> cbd_poly(shake256(noise_seed(seed, first + j), 192), #[trigger] r.poly[j]),
    ensures
        forall|j: int| 0 <= j < K ==> !(#[trigger] r.poly[j]).ntt ==> bounded(ints(r.poly[j].coeff@), 16954),
{
    assert forall|j: int| 0 <= j < K implies bounded(ints((#[trigger] r.poly[j]).coeff@), 16954) by {
        assert(cbd_poly(shake256(noise_seed(seed, first + j), 192), r.poly[j]));
    }
}

/// The transform of a noise vector (seeds `first` to `first + K - 1`): bounded, and
/// congruent to the transform over Z_q.
proof fn lemma_noise_ntt(seed: Seq<u8>, first: int, r: VecPoly<K>, rhat: VecPoly<K>)
    requires
        forall|j: int| 0 <= j < K ==> cbd_poly(shake256(noise_seed(seed, first + j), 192), #[trigger] r.poly[j]),
        forall|j: int| 0 <= j < K ==> ntt_rel(#[trigger] r.poly[j], rhat.poly[j]),
    ensures
        forall|j: int| 0 <= j < K ==> (#[trigger] rhat.poly[j]).ntt && bounded(ints(rhat.poly[j].coeff@), 12574),
        forall|j: int, c: int|
            0 <= j < K && 0 <= c < 256 ==> cong(
                #[trigger] rhat.poly[j].coeff[c] as int,
                ntt_spec(noise_poly(seed, first + j))[c],
            ),
{
    lemma_ntt_bound_3();
    assert forall|j: int| 0 <= j < K implies (#[trigger] rhat.poly[j]).ntt && bounded(ints(rhat.poly[j].coeff@), 12574)
        && ints(r.poly[j].coeff@) == noise_poly(seed, first + j) by {
        assert(cbd_poly(shake256(noise_seed(seed, first + j), 192), r.poly[j]));
        assert(ntt_rel(r.poly[j], rhat.poly[j]));
        assert(bounded(ints(r.poly[j].coeff@), 3));
        assert(ints(r.poly[j].coeff@) =~= noise_poly(seed, first + j));
    }
    assert forall|j: int, c: int|
        0 <= j < K && 0 <= c < 256 implies cong(
        #[trigger] rhat.poly[j].coeff[c] as int,
        ntt_spec(noise_poly(seed, first + j))[c],
    ) by {
        assert(ntt_rel(r.poly[j], rhat.poly[j]));
        assert(ints(r.poly[j].coeff@) == noise_poly(seed, first + j));
        assert(cong(rhat.poly[j].coeff[c] as int, ntt_spec(ints(r.poly[j].coeff@))[c]));
    }
}

/// The product of a matrix coefficient (from `parse`) and a coefficient of a transformed
/// noise polynomial can be Montgomery-reduced.
proof fn lemma_parse_noise_ok(x: int, y: int)
    requires
        -8192 < x <= 4096,
        -12574 <= y <= 12574,
    ensures
        montgomery_ok(x * y),
{
    assert(-(8191 * 12574) <= x * y <= 8191 * 12574) by (nonlinear_arith)
        requires
            -8192 < x <= 4096,
            -12574 <= y <= 12574,
    ;
    lemma_mont_bound(x * y, 8191 * 12574int);
}

/// The Montgomery reductions in A^T . NTT(r) and t . NTT(r) stay in range.
proof fn lemma_enc_mult_ok(pk: Seq<u8>, at: Mat<K, K>, t: VecPoly<K>, rhat: VecPoly<K>)
    requires
        forall|i: int, j: int|
            0 <= i < K && 0 <= j < K ==> parse_poly(
                shake128(matrix_seed(pk.subrange(0, 32), j, i), 512),
                #[trigger] at.vec[i].poly[j],
            ),
        forall|j: int, c: int|
            0 <= j < K && 0 <= c < 256 ==> #[trigger] t.poly[j].coeff[c] == dec_coeff(pk, 32 + 32 * 12 * j, 12, c),
        forall|j: int| 0 <= j < K ==> (#[trigger] t.poly[j]).ntt,
        forall|j: int| 0 <= j < K ==> (#[trigger] rhat.poly[j]).ntt && bounded(ints(rhat.poly[j].coeff@), 12574),
    ensures
        forall|i: int| 0 <= i < K ==> vmv_ok(#[trigger] at.vec[i], rhat),
        vmv_ok(t, rhat),
{
    assert forall|i: int, j: int, c: int|
        0 <= i < K && 0 <= j < K && 0 <= c < 256 implies #[trigger] montgomery_ok_at(at.vec[i], rhat, j, c) by {
        assert(parse_poly(shake128(matrix_seed(pk.subrange(0, 32), j, i), 512), at.vec[i].poly[j]));
        assert(ints(rhat.poly[j].coeff@)[c] == rhat.poly[j].coeff[c]);
        lemma_parse_noise_ok(at.vec[i].poly[j].coeff[c] as int, rhat.poly[j].coeff[c] as int);
    }
    assert forall|i: int| 0 <= i < K implies vmv_ok(#[trigger] at.vec[i], rhat) by {
        assert forall|j: int| 0 <= j < K implies (#[trigger] at.vec[i].poly[j]).ntt && rhat.poly[j].ntt by {
            assert(parse_poly(shake128(matrix_seed(pk.subrange(0, 32), j, i), 512), at.vec[i].poly[j]));
        }
        assert forall|j: int, c: int|
            0 <= j < K && 0 <= c < 256 implies crate::utils::montgomery_ok(
            #[trigger] at.vec[i].poly[j].coeff[c] * rhat.poly[j].coeff[c],
        ) by {
            assert(montgomery_ok_at(at.vec[i], rhat, j, c));
        }
    }
    assert forall|j: int, c: int| 0 <= j < K && 0 <= c < 256 implies #[trigger] montgomery_ok_at(t, rhat, j, c) by {
        lemma_dec_coeff_range(pk, 32 + 32 * 12 * j, 12, c);
        lemma2_to64();
        assert(ints(rhat.poly[j].coeff@)[c] == rhat.poly[j].coeff[c]);
        let x = t.poly[j].coeff[c] as int;
        let y = rhat.poly[j].coeff[c] as int;
        assert(-(4095 * 12574) <= x * y <= 4095 * 12574) by (nonlinear_arith)
            requires
                0 <= x < 4096,
                -12574 <= y <= 12574,
        ;
        lemma_mont_bound(x * y, 4095 * 12574int);
    }
    assert forall|j: int, c: int|
        0 <= j < K && 0 <= c < 256 implies crate::utils::montgomery_ok(
        #[trigger] t.poly[j].coeff[c] * rhat.poly[j].coeff[c],
    ) by {
        assert(montgomery_ok_at(t, rhat, j, c));
    }
}

/// INTT(A^T . NTT(r)) and the error e1 can be added, and their sum is congruent to `enc_u`.
proof fn lemma_enc_u(
    pk: Seq<u8>,
    rc: Seq<u8>,
    at: Mat<K, K>,
    rhat: VecPoly<K>,
    au: VecPoly<K>,
    u1: VecPoly<K>,
    e1: VecPoly<K>,
)
    requires
        forall|i: int, j: int|
            0 <= i < K && 0 <= j < K ==> parse_poly(
                shake128(matrix_seed(pk.subrange(0, 32), j, i), 512),
                #[trigger] at.vec[i].poly[j],
            ),
        forall|j: int, c: int|
            0 <= j < K && 0 <= c < 256 ==> cong(#[trigger] rhat.poly[j].coeff[c] as int, ntt_spec(noise_poly(rc, j))[c]),
        forall|i: int, c: int|
            0 <= i < K && 0 <= c < 256 ==> cong(#[trigger] au.poly[i].coeff[c] as int, vmv_sum(at.vec[i], rhat, K as int, c)),
        forall|i: int| 0 <= i < K ==> (#[trigger] au.poly[i]).ntt,
        forall|i: int| 0 <= i < K ==> inv_ntt_rel(#[trigger] au.poly[i], u1.poly[i]),
        forall|i: int| 0 <= i < K ==> cbd_poly(shake256(noise_seed(rc, i + K), 192), #[trigger] e1.poly[i]),
    ensures
        forall|i: int| 0 <= i < K ==> (#[trigger] u1.poly[i]).ntt == e1.poly[i].ntt,
        forall|i: int, c: int|
            0 <= i < K && 0 <= c < 256 ==> i16::MIN <= #[trigger] u1.poly[i].coeff[c] + e1.poly[i].coeff[c] <= i16::MAX,
        forall|i: int, c: int|
            0 <= i < K && 0 <= c < 256 ==> cong(
                #[trigger] u1.poly[i].coeff[c] + e1.poly[i].coeff[c],
                enc_u(pk, rc, i)[c],
            ),
{
    assert forall|i: int| 0 <= i < K implies (#[trigger] u1.poly[i]).ntt == e1.poly[i].ntt
        && forall|c: int| 0 <= c < 256 ==> cong(#[trigger] u1.poly[i].coeff[c] as int, intt(enc_u_prod(pk, rc, i))[c]) by {
        let a = |j: int| mat_poly(pk.subrange(0, 32), j, i);
        let b = |j: int| ntt_spec(noise_poly(rc, j));
        let x = enc_u_prod(pk, rc, i);
        assert(cbd_poly(shake256(noise_seed(rc, i + K), 192), e1.poly[i]));
        assert(inv_ntt_rel(au.poly[i], u1.poly[i]));
        assert forall|c: int| 0 <= c < 256 implies cong(#[trigger] au.poly[i].coeff[c] as int, x[c]) by {
            assert forall|j: int| 0 <= j < K implies cong(#[trigger] at.vec[i].poly[j].coeff[c] as int, a(j)[c]) by {
                assert(parse_poly(shake128(matrix_seed(pk.subrange(0, 32), j, i), 512), at.vec[i].poly[j]));
                crate::utils::lemma_cong_from(at.vec[i].poly[j].coeff[c] as int, a(j)[c], 0);
            }
            assert forall|j: int| 0 <= j < K implies cong(#[trigger] rhat.poly[j].coeff[c] as int, b(j)[c]) by {
                assert(cong(rhat.poly[j].coeff[c] as int, ntt_spec(noise_poly(rc, j))[c]));
            }
            lemma_vmv_dot(at.vec[i], rhat, a, b, K as int, c);
            lemma_cong_ops(
                au.poly[i].coeff[c] as int,
                vmv_sum(at.vec[i], rhat, K as int, c),
                vmv_sum(at.vec[i], rhat, K as int, c),
                dot(a, b, K as int, c),
            );
        }
        lemma_intt_cong(au.poly[i], u1.poly[i], x);
    }
    assert forall|i: int, c: int|
        0 <= i < K && 0 <= c < 256 implies i16::MIN <= #[trigger] u1.poly[i].coeff[c] + e1.poly[i].coeff[c] <= i16::MAX
        && cong(u1.poly[i].coeff[c] + e1.poly[i].coeff[c], enc_u(pk, rc, i)[c]) by {
        assert(cbd_poly(shake256(noise_seed(rc, i + K), 192), e1.poly[i]));
        assert(inv_ntt_rel(au.poly[i], u1.poly[i]));
        assert(au.poly[i].ntt);
        let y = intt(enc_u_prod(pk, rc, i))[c];
        assert(cong(u1.poly[i].coeff[c] as int, y));
        let e = e1.poly[i].coeff[c] as int;
        assert(e == noise_poly(rc, K + i)[c]);
        crate::utils::lemma_cong_from(e, e, 0);
        lemma_cong_ops(u1.poly[i].coeff[c] as int, y, e, e);
    }
}

/// INTT(t . NTT(r)) + e2 + the message, reduced along the way, is congruent to `enc_v`.
proof fn lemma_enc_v(
    pk: Seq<u8>,
    m: Seq<u8>,
    rc: Seq<u8>,
    t: VecPoly<K>,
    rhat: VecPoly<K>,
    tr: Poly,
    v0: Poly,
    e2: Poly,
    mp: Poly,
)
    requires
        m.len() >= 32,
        forall|j: int, c: int|
            0 <= j < K && 0 <= c < 256 ==> #[trigger] t.poly[j].coeff[c] == dec_coeff(pk, 32 + 32 * 12 * j, 12, c),
        forall|j: int, c: int|
            0 <= j < K && 0 <= c < 256 ==> cong(#[trigger] rhat.poly[j].coeff[c] as int, ntt_spec(noise_poly(rc, j))[c]),
        forall|c: int| 0 <= c < 256 ==> cong(tr.coeff[c] as int, #[trigger] vmv_sum(t, rhat, K as int, c)),
        tr.ntt,
        inv_ntt_rel(tr, v0),
        cbd_poly(shake256(noise_seed(rc, 2 * K), 192), e2),
        forall|c: int| 0 <= c < 256 ==> #[trigger] mp.coeff[c] == decompress_spec(dec_coeff(m, 0, 1, c), 1),
    ensures
        !v0.ntt,
        forall|c: int| 0 <= c < 256 ==> -3329 < #[trigger] v0.coeff[c] <= 1664,
        forall|c: int| 0 <= c < 256 ==> -3 <= #[trigger] e2.coeff[c] <= 3,
        forall|c: int| 0 <= c < 256 ==> 0 <= #[trigger] mp.coeff[c] <= 3329,
        forall|c: int| 0 <= c < 256 ==> cong(
            #[trigger] v0.coeff[c] + e2.coeff[c] + mp.coeff[c],
            enc_v(pk, m, rc)[c],
        ),
{
    let a = |j: int| pk_poly(pk, j);
    let b = |j: int| ntt_spec(noise_poly(rc, j));
    let x = enc_v_prod(pk, rc);
    assert forall|c: int| 0 <= c < 256 implies cong(#[trigger] tr.coeff[c] as int, x[c]) by {
        assert forall|j: int| 0 <= j < K implies cong(#[trigger] t.poly[j].coeff[c] as int, a(j)[c]) by {
            crate::utils::lemma_cong_from(t.poly[j].coeff[c] as int, a(j)[c], 0);
        }
        assert forall|j: int| 0 <= j < K implies cong(#[trigger] rhat.poly[j].coeff[c] as int, b(j)[c]) by {
            assert(cong(rhat.poly[j].coeff[c] as int, ntt_spec(noise_poly(rc, j))[c]));
        }
        lemma_vmv_dot(t, rhat, a, b, K as int, c);
        lemma_cong_ops(tr.coeff[c] as int, vmv_sum(t, rhat, K as int, c), vmv_sum(t, rhat, K as int, c), dot(a, b, K as int, c));
    }
    lemma_intt_cong(tr, v0, x);
    lemma2_to64();
    assert forall|c: int| 0 <= c < 256 implies 0 <= #[trigger] mp.coeff[c] <= 3329 && mp.coeff[c] == msg_poly(m)[c] by {
        lemma_dec_coeff_range(m, 0, 1, c);
        lemma_decompress_range(dec_coeff(m, 0, 1, c), 1);
    }
    assert forall|c: int| 0 <= c < 256 implies cong(
        #[trigger] v0.coeff[c] + e2.coeff[c] + mp.coeff[c],
        enc_v(pk, m, rc)[c],
    ) by {
        let y = intt(x)[c];
        assert(cong(v0.coeff[c] as int, y));
        let e = e2.coeff[c] as int;
        assert(e == noise_poly(rc, 2 * K)[c]);
        let w = mp.coeff[c] as int;
        assert(w == msg_poly(m)[c]);
        crate::utils::lemma_cong_from(e, e, 0);
        crate::utils::lemma_cong_from(w, w, 0);
        lemma_cong_ops(v0.coeff[c] as int, y, e, e);
        lemma_cong_ops(v0.coeff[c] + e, y + e, w, w);
    }
}

/// The compressed coefficients of `a` (reduced modulo q as `compress_spec` does) fit `d` bits.
proof fn lemma_compress_fits(a: Seq<i16>, x: Seq<int>, d: nat)
    requires
        1 <= d <= 12,
        a.len() == 256,
        forall|c: int| 0 <= c < 256 ==> #[trigger] a[c] == compress_spec(x[c], d),
    ensures
        fits_bits(a, d as int),
        a == Seq::new(256, |c: int| compress_spec(x[c], d) as i16),
{
    assert forall|c: int| 0 <= c < 256 implies u16_of(#[trigger] a[c] as int) < pow2(d) by {
        crate::utils::lemma_compress_spec(x[c], x[c], d);
    }
    assert(a =~= Seq::new(256, |c: int| compress_spec(x[c], d) as i16));
}

/// Encryption of the 32-byte message `m` under the packed public key `pk` with the
/// 32-byte coin `rc`: r, e1 and e2 are sampled from `rc` (noise indices 0 to 2K),
/// u = INTT(A^T . NTT(r)) + e1 and v = INTT(t . NTT(r)) + e2 + the decompressed message;
/// u is compressed to 10 bits and v to 4 bits, and both are packed.
#[verifier::rlimit(40)]
pub fn encryption(pk: &[u8], m: &[u8], rc: &[u8]) -> (c: [u8; CIPHERTEXTBYTES])
    requires
        pk.len() >= PK_BYTES,
        m.len() >= MESSAGEBYTES,
        rc.len() >= 32,
    ensures
        c@ == encryption_spec(pk@, m@, rc@),
{
    let mut c = [0u8; CIPHERTEXTBYTES];
    let mut t = VecPoly::<K>::default();
    let mut rho = [0u8; 32];

    unpack_pk(pk, &mut t, &mut rho);
    proof {
        assert(rho@ =~= pk@.subrange(0, 32));
        assert(rho@.subrange(0, 32) =~= pk@.subrange(0, 32).subrange(0, 32));
    }

    let a0 = get_matrix(&rho);
    let at = transp(&a0);

    let mut n: usize = 0;
    let mut r = VecPoly::<K>::default();
    for i in 0..K
        invariant
            n == i,
            rc.len() >= 32,
            forall|j: int| 0 <= j < i ==> cbd_poly(shake256(noise_seed(rc@, j), 192), #[trigger] r.poly[j]),
    {
        let mut tmp = [0u8; CBD_BYTES];
        let seed = prf_seed(rc, n);
        prf(&seed, &mut tmp);
        r.poly[i] = CBD(&tmp, ETA1);
        n += 1;
    }
    let mut e1 = VecPoly::<K>::default();
    for i in 0..K
        invariant
            n == K + i,
            rc.len() >= 32,
            forall|j: int| 0 <= j < i ==> cbd_poly(shake256(noise_seed(rc@, j + K), 192), #[trigger] e1.poly[j]),
    {
        let mut tmp = [0u8; CBD_BYTES];
        let seed = prf_seed(rc, n);
        prf(&seed, &mut tmp);
        e1.poly[i] = CBD(&tmp, ETA2);
        n += 1;
    }
    let mut tmp = [0u8; CBD_BYTES];
    let seed = prf_seed(rc, n);
    prf(&seed, &mut tmp);
    let e2 = CBD(&tmp, ETA2);

    proof {
        lemma_noise_bounded(rc@, 0, r);
    }
    let rhat = Ntt(&r);
    proof {
        lemma_noise_ntt(rc@, 0, r, rhat);
        lemma_enc_mult_ok(pk@, at, t, rhat);
    }
    let au = m_mult_v(&at, &rhat);
    let u1 = inv_Ntt(&au);
    proof {
        lemma_enc_u(pk@, rc@, at, rhat, au, u1, e1);
    }
    let u = v_add(&u1, &e1);

    let tr = v_mult_v(&t, &rhat);
    let mut v = inv_ntt(&tr);
    let ghost v0 = v;

    let mut tmp = Poly::default();
    decode(&mut tmp, m, 1);
    let mp = decompress(&tmp, 1);
    proof {
        lemma_enc_v(pk@, m@, rc@, t, rhat, tr, v0, e2, mp);
    }
    crate::poly::add(&mut v, &e2);
    let ghost v1 = v;
    proof {
        assert forall|c: int| 0 <= c < 256 implies i16::MIN <= #[trigger] v1.coeff[c] + mp.coeff[c] <= i16::MAX by {
            lemma_cmod(v0.coeff[c] + e2.coeff[c], 3329);
        }
    }
    crate::poly::add(&mut v, &mp);
    let ghost v2 = v;
    v = _modq(&v);

    let cu = Compress(&u, Du as i16);
    proof {
        lemma_enc_cu(pk@, rc@, u1, e1, u, cu);
    }
    Encode(&mut c, &cu, Du);
    let ghost c1 = c@;
    let cv = compress(&v, Dv as i16);
    proof {
        lemma_enc_cv(pk@, m@, rc@, v0, e2, mp, v1, v2, v, cv);
    }
    encode_at(&mut c, Du * K * N / 8, &cv, Dv);
    proof {
        lemma_enc_bytes(pk@, m@, rc@, cu, cv, c1, c@);
    }
    c
}

/// The compressed u: polynomial i is `enc_cu`, and every coefficient fits 10 bits.
proof fn lemma_enc_cu(pk: Seq<u8>, rc: Seq<u8>, u1: VecPoly<K>, e1: VecPoly<K>, u: VecPoly<K>, cu: VecPoly<K>)
    requires
        forall|i: int, c: int|
            0 <= i < K && 0 <= c < 256 ==> i16::MIN <= #[trigger] u1.poly[i].coeff[c] + e1.poly[i].coeff[c] <= i16::MAX,
        forall|i: int, c: int|
            0 <= i < K && 0 <= c < 256 ==> cong(
                #[trigger] u1.poly[i].coeff[c] + e1.poly[i].coeff[c],
                enc_u(pk, rc, i)[c],
            ),
        forall|i: int, c: int|
            0 <= i < K && 0 <= c < 256 ==> #[trigger] u.poly[i].coeff[c] == cmod_spec(u1.poly[i].coeff[c] + e1.poly[i].coeff[c], 3329),
        forall|i: int, c: int|
            0 <= i < K && 0 <= c < 256 ==> #[trigger] cu.poly[i].coeff[c] == compress_spec(u.poly[i].coeff[c] as int, 10),
    ensures
        vec_fits_bits(cu, 10),
        forall|i: int| 0 <= i < K ==> (#[trigger] cu.poly[i]).coeff@ == enc_cu(pk, rc, i),
{
    assert forall|i: int| 0 <= i < K implies fits_bits((#[trigger] cu.poly[i]).coeff@, 10)
        && cu.poly[i].coeff@ == enc_cu(pk, rc, i) by {
        let x = enc_u(pk, rc, i);
        assert forall|c: int| 0 <= c < 256 implies #[trigger] cu.poly[i].coeff@[c] == compress_spec(x[c], 10) by {
            let s = u1.poly[i].coeff[c] + e1.poly[i].coeff[c];
            lemma_cmod(s, 3329);
            lemma_cong_ops(cmod_spec(s, 3329), s, s, x[c]);
            lemma_cong_mod(cmod_spec(s, 3329), x[c]);
            crate::utils::lemma_compress_spec(u.poly[i].coeff[c] as int, x[c], 10);
        }
        lemma_compress_fits(cu.poly[i].coeff@, x, 10);
    }
}

/// The compressed v is `enc_cv`, and every coefficient fits 4 bits.
proof fn lemma_enc_cv(
    pk: Seq<u8>,
    m: Seq<u8>,
    rc: Seq<u8>,
    v0: Poly,
    e2: Poly,
    mp: Poly,
    v1: Poly,
    v2: Poly,
    v3: Poly,
    cv: Poly,
)
    requires
        forall|c: int| 0 <= c < 256 ==> -3329 < #[trigger] v0.coeff[c] <= 1664,
        forall|c: int| 0 <= c < 256 ==> -3 <= #[trigger] e2.coeff[c] <= 3,
        forall|c: int| 0 <= c < 256 ==> 0 <= #[trigger] mp.coeff[c] <= 3329,
        forall|c: int| 0 <= c < 256 ==> cong(
            #[trigger] v0.coeff[c] + e2.coeff[c] + mp.coeff[c],
            enc_v(pk, m, rc)[c],
        ),
        forall|c: int| 0 <= c < 256 ==> v1.coeff[c] == cmod_spec(#[trigger] v0.coeff[c] + e2.coeff[c], 3329),
        forall|c: int| 0 <= c < 256 ==> v2.coeff[c] == cmod_spec(#[trigger] v1.coeff[c] + mp.coeff[c], 3329),
        forall|c: int| 0 <= c < 256 ==> v3.coeff[c] == (#[trigger] v2.coeff[c] as int) % 3329,
        forall|c: int| 0 <= c < 256 ==> cv.coeff[c] == compress_spec(#[trigger] v3.coeff[c] as int, 4),
    ensures
        fits_bits(cv.coeff@, 4),
        cv.coeff@ == enc_cv(pk, m, rc),
{
    let x = enc_v(pk, m, rc);
    assert forall|c: int| 0 <= c < 256 implies #[trigger] cv.coeff@[c] == compress_spec(x[c], 4) by {
        let s0 = v0.coeff[c] + e2.coeff[c];
        lemma_cmod(s0, 3329);
        let s1 = v1.coeff[c] + mp.coeff[c];
        lemma_cmod(s1, 3329);
        crate::utils::lemma_cong_from(mp.coeff[c] as int, mp.coeff[c] as int, 0);
        lemma_cong_ops(v1.coeff[c] as int, s0, mp.coeff[c] as int, mp.coeff[c] as int);
        lemma_cong_ops(v2.coeff[c] as int, s1, s1, s0 + mp.coeff[c]);
        lemma_cong_ops(v2.coeff[c] as int, s0 + mp.coeff[c], s0 + mp.coeff[c], x[c]);
        lemma_cong_mod(v2.coeff[c] as int, x[c]);
        vstd::arithmetic::div_mod::lemma_mod_twice(v2.coeff[c] as int, 3329);
        crate::utils::lemma_compress_spec(v3.coeff[c] as int, x[c], 4);
    }
    lemma_compress_fits(cv.coeff@, x, 4);
}

/// The ciphertext bytes: u packed with 10 bits in the first 960 bytes, then v with 4 bits.
proof fn lemma_enc_bytes(
    pk: Seq<u8>,
    m: Seq<u8>,
    rc: Seq<u8>,
    cu: VecPoly<K>,
    cv: Poly,
    c1: Seq<u8>,
    c2: Seq<u8>,
)
    requires
        c1.len() == 1088,
        c2.len() == 1088,
        packed_vec(c1, 0, cu, 10),
        forall|i: int| 0 <= i < K ==> (#[trigger] cu.poly[i]).coeff@ == enc_cu(pk, rc, i),
        cv.coeff@ == enc_cv(pk, m, rc),
        forall|b: int| 0 <= b < 128 ==> c2[960 + b] == #[trigger] enc_byte(cv.coeff@, 4, b),
        forall|b: int| 0 <= b < 1088 && !(960 <= b < 1088) ==> c2[b] == #[trigger] c1[b],
    ensures
        c2 == encryption_spec(pk, m, rc),
{
    assert forall|b: int| 0 <= b < 1088 implies c2[b] == #[trigger] encryption_spec(pk, m, rc)[b] by {
        if b < 960 {
            let i = b / 320;
            let o = b % 320;
            assert(c1[b] == c2[b]);
            vstd::arithmetic::div_mod::lemma_fundamental_div_mod(b, 320);
            vstd::arithmetic::div_mod::lemma_mod_pos_bound(b, 320);
            assert(0 <= i < 3) by (nonlinear_arith)
                requires
                    b == 320 * i + o,
                    0 <= o < 320,
                    0 <= b < 960,
            ;
            assert(0 + 32 * 10 * i + o == b);
            assert(c1[0 + 32 * 10 * i + o] == enc_byte(cu.poly[i].coeff@, 10, o));
            assert(cu.poly[i].coeff@ == enc_cu(pk, rc, i));
            assert(encryption_spec(pk, m, rc)[b] == enc_byte(enc_cu(pk, rc, i), 10, o) as u8);
        } else {
            assert(c2[960 + (b - 960)] == enc_byte(cv.coeff@, 4, b - 960));
            assert(encryption_spec(pk, m, rc)[b] == enc_byte(enc_cv(pk, m, rc), 4, b - 960) as u8);
        }
    }
    assert(c2 =~= encryption_spec(pk, m, rc));
}

/// 32 bytes from the thread-local random generator: `rand::thread_rng().gen::<[u8; 32]>()`.
/// Nothing is promised of their value.
#[verifier::external_body]
pub(crate) fn random_bytes() -> (r: [u8; 32]) {
    rand::thread_rng().gen::<[u8; 32]>()
}

/// Key generation from 32 random bytes: A . s + e and s, both in the NTT domain and
/// reduced to [0, q), are packed into the public key (after rho) and the secret key.
pub fn key_gen_from_seed(d: &[u8; 32]) -> (res: ([u8; PK_BYTES], [u8; SK_BYTES]))
    ensures
        res.0@ == keygen_pk(d@),
        res.1@ == keygen_sk(d@),
{
    let mut sk = [0u8; SK_BYTES];
    let mut pk = [0u8; PK_BYTES];

    let mut rho = [0u8; 32];
    let mut sigma = [0u8; 32];
    let mut tmp = [0u8; 64];
    G(d, &mut tmp);
    for b in 0..32
        invariant
            tmp@ == sha3_512(d@),
            forall|b2: int| 0 <= b2 < b ==> #[trigger] rho[b2] == tmp[b2],
            forall|b2: int| 0 <= b2 < b ==> #[trigger] sigma[b2] == tmp[32 + b2],
    {
        rho[b] = tmp[b];
        sigma[b] = tmp[32 + b];
    }
    proof {
        assert(rho@ =~= kg_rho(d@));
        assert(sigma@ =~= kg_sigma(d@));
        assert(rho@.subrange(0, 32) =~= kg_rho(d@).subrange(0, 32));
    }

    let a = get_matrix(&rho);
    let s0 = get_noise(&sigma);
    let e0 = get_error(&sigma);
    proof {
        lemma_noise_bounded(sigma@, 0, s0);
        lemma_noise_bounded(sigma@, K as int, e0);
    }
    let s = Ntt(&s0);
    let e = Ntt(&e0);
    proof {
        lemma_noise_ntt(sigma@, 0, s0, s);
        lemma_noise_ntt(sigma@, K as int, e0, e);
        lemma_kg_mult_ok(d@, a, s);
    }
    let t0 = m_mult_v(&a, &s);
    proof {
        lemma_kg_t0(d@, a, s, e, t0);
    }
    let t1 = v_add(&t0, &e);
    let t = modq(&t1);
    let s1 = modq(&s);
    proof {
        lemma_kg_reduce(d@, t0, e, t1, t, s, s1);
    }
    pack_pk(&mut pk, &t, &rho);
    pack_sk(&mut sk, &s1);
    proof {
        lemma_kg_bytes(d@, t, s1, pk@, sk@);
    }
    (pk, sk)
}

/// Key generation: draws 32 random bytes and generates the key pair from them.
pub fn keyGen() -> (res: ([u8; PK_BYTES], [u8; SK_BYTES]))
    ensures
        exists|d: Seq<u8>| d.len() == 32 && res.0@ == keygen_pk(d) && res.1@ == keygen_sk(d),
{
    let d = random_bytes();
    key_gen_from_seed(&d)
}

/// The Montgomery reductions in A . NTT(s) stay in range.
proof fn lemma_kg_mult_ok(d: Seq<u8>, a: Mat<K, K>, s: VecPoly<K>)
    requires
        forall|i: int, j: int|
            0 <= i < K && 0 <= j < K ==> parse_poly(
                shake128(matrix_seed(kg_rho(d), i, j), 512),
                #[trigger] a.vec[i].poly[j],
            ),
        forall|j: int| 0 <= j < K ==> (#[trigger] s.poly[j]).ntt && bounded(ints(s.poly[j].coeff@), 12574),
    ensures
        forall|i: int| 0 <= i < K ==> vmv_ok(#[trigger] a.vec[i], s),
{
    assert forall|i: int| 0 <= i < K implies vmv_ok(#[trigger] a.vec[i], s) by {
        assert forall|j: int| 0 <= j < K implies (#[trigger] a.vec[i].poly[j]).ntt && s.poly[j].ntt by {
            assert(parse_poly(shake128(matrix_seed(kg_rho(d), i, j), 512), a.vec[i].poly[j]));
        }
        assert forall|j: int, c: int|
            0 <= j < K && 0 <= c < 256 implies montgomery_ok(
            #[trigger] a.vec[i].poly[j].coeff[c] * s.poly[j].coeff[c],
        ) by {
            assert(parse_poly(shake128(matrix_seed(kg_rho(d), i, j), 512), a.vec[i].poly[j]));
            assert(ints(s.poly[j].coeff@)[c] == s.poly[j].coeff[c]);
            lemma_parse_noise_ok(a.vec[i].poly[j].coeff[c] as int, s.poly[j].coeff[c] as int);
        }
    }
}

/// A . NTT(s) and NTT(e) can be added, and their sum is congruent to t over Z_q.
proof fn lemma_kg_t0(d: Seq<u8>, a: Mat<K, K>, s: VecPoly<K>, e: VecPoly<K>, t0: VecPoly<K>)
    requires
        forall|i: int, j: int|
            0 <= i < K && 0 <= j < K ==> parse_poly(
                shake128(matrix_seed(kg_rho(d), i, j), 512),
                #[trigger] a.vec[i].poly[j],
            ),
        forall|j: int, c: int|
            0 <= j < K && 0 <= c < 256 ==> cong(
                #[trigger] s.poly[j].coeff[c] as int,
                ntt_spec(noise_poly(kg_sigma(d), 0 + j))[c],
            ),
        forall|j: int| 0 <= j < K ==> (#[trigger] e.poly[j]).ntt && bounded(ints(e.poly[j].coeff@), 12574),
        forall|i: int, c: int|
            0 <= i < K && 0 <= c < 256 ==> cong(#[trigger] t0.poly[i].coeff[c] as int, vmv_sum(a.vec[i], s, K as int, c)),
        forall|i: int, c: int| 0 <= i < K && 0 <= c < 256 ==> -3329 < #[trigger] t0.poly[i].coeff[c] <= 1664,
        forall|i: int| 0 <= i < K ==> (#[trigger] t0.poly[i]).ntt,
    ensures
        forall|i: int| 0 <= i < K ==> (#[trigger] t0.poly[i]).ntt == e.poly[i].ntt,
        forall|i: int, c: int|
            0 <= i < K && 0 <= c < 256 ==> i16::MIN <= #[trigger] t0.poly[i].coeff[c] + e.poly[i].coeff[c] <= i16::MAX,
        forall|i: int, c: int|
            0 <= i < K && 0 <= c < 256 ==> cong(#[trigger] t0.poly[i].coeff[c] as int, kg_t_prod(d, i)[c]),
{
    assert forall|i: int, c: int|
        0 <= i < K && 0 <= c < 256 implies i16::MIN <= #[trigger] t0.poly[i].coeff[c] + e.poly[i].coeff[c] <= i16::MAX by {
        assert(ints(e.poly[i].coeff@)[c] == e.poly[i].coeff[c]);
    }
    assert forall|i: int, c: int|
        0 <= i < K && 0 <= c < 256 implies cong(#[trigger] t0.poly[i].coeff[c] as int, kg_t_prod(d, i)[c]) by {
        let fa = |j: int| mat_poly(kg_rho(d), i, j);
        let fb = |j: int| ntt_spec(noise_poly(kg_sigma(d), j));
        assert forall|j: int| 0 <= j < K implies cong(#[trigger] a.vec[i].poly[j].coeff[c] as int, fa(j)[c]) by {
            assert(parse_poly(shake128(matrix_seed(kg_rho(d), i, j), 512), a.vec[i].poly[j]));
            crate::utils::lemma_cong_from(a.vec[i].poly[j].coeff[c] as int, fa(j)[c], 0);
        }
        assert forall|j: int| 0 <= j < K implies cong(#[trigger] s.poly[j].coeff[c] as int, fb(j)[c]) by {
            assert(cong(s.poly[j].coeff[c] as int, ntt_spec(noise_poly(kg_sigma(d), 0 + j))[c]));
        }
        lemma_vmv_dot(a.vec[i], s, fa, fb, K as int, c);
        lemma_cong_ops(
            t0.poly[i].coeff[c] as int,
            vmv_sum(a.vec[i], s, K as int, c),
            vmv_sum(a.vec[i], s, K as int, c),
            dot(fa, fb, K as int, c),
        );
    }
}

/// The reduced t and s are the polynomials of the key pair, and fit 12 bits.
proof fn lemma_kg_reduce(
    d: Seq<u8>,
    t0: VecPoly<K>,
    e: VecPoly<K>,
    t1: VecPoly<K>,
    t: VecPoly<K>,
    s: VecPoly<K>,
    s1: VecPoly<K>,
)
    requires
        forall|j: int, c: int|
            0 <= j < K && 0 <= c < 256 ==> cong(
                #[trigger] s.poly[j].coeff[c] as int,
                ntt_spec(noise_poly(kg_sigma(d), 0 + j))[c],
            ),
        forall|j: int, c: int|
            0 <= j < K && 0 <= c < 256 ==> cong(
                #[trigger] e.poly[j].coeff[c] as int,
                ntt_spec(noise_poly(kg_sigma(d), K + j))[c],
            ),
        forall|i: int, c: int|
            0 <= i < K && 0 <= c < 256 ==> i16::MIN <= #[trigger] t0.poly[i].coeff[c] + e.poly[i].coeff[c] <= i16::MAX,
        forall|i: int, c: int|
            0 <= i < K && 0 <= c < 256 ==> cong(#[trigger] t0.poly[i].coeff[c] as int, kg_t_prod(d, i)[c]),
        forall|i: int, c: int|
            0 <= i < K && 0 <= c < 256 ==> #[trigger] t1.poly[i].coeff[c] == cmod_spec(t0.poly[i].coeff[c] + e.poly[i].coeff[c], 3329),
        forall|i: int, c: int|
            0 <= i < K && 0 <= c < 256 ==> #[trigger] t.poly[i].coeff[c] == (t1.poly[i].coeff[c] as int) % 3329,
        forall|i: int, c: int|
            0 <= i < K && 0 <= c < 256 ==> #[trigger] s1.poly[i].coeff[c] == (s.poly[i].coeff[c] as int) % 3329,
    ensures
        vec_fits_bits(t, 12),
        vec_fits_bits(s1, 12),
        forall|i: int| 0 <= i < K ==> (#[trigger] t.poly[i]).coeff@ == kg_t(d, i),
        forall|i: int| 0 <= i < K ==> (#[trigger] s1.poly[i]).coeff@ == kg_s(d, i),
{
    lemma2_to64();
    assert forall|i: int| 0 <= i < K implies fits_bits((#[trigger] t.poly[i]).coeff@, 12)
        && t.poly[i].coeff@ == kg_t(d, i) by {
        assert forall|c: int| 0 <= c < 256 implies #[trigger] t.poly[i].coeff@[c] == kg_t(d, i)[c]
            && u16_of(t.poly[i].coeff@[c] as int) < pow2(12) by {
            let x = t0.poly[i].coeff[c] + e.poly[i].coeff[c];
            let y = kg_t_prod(d, i)[c] + ntt_spec(noise_poly(kg_sigma(d), K + i))[c];
            lemma_cmod(x, 3329);
            lemma_cong_ops(
                t0.poly[i].coeff[c] as int,
                kg_t_prod(d, i)[c],
                e.poly[i].coeff[c] as int,
                ntt_spec(noise_poly(kg_sigma(d), K + i))[c],
            );
            lemma_cong_ops(t1.poly[i].coeff[c] as int, x, x, y);
            lemma_cong_mod(t1.poly[i].coeff[c] as int, y);
        }
        assert(t.poly[i].coeff@ =~= kg_t(d, i));
    }
    assert forall|i: int| 0 <= i < K implies fits_bits((#[trigger] s1.poly[i]).coeff@, 12)
        && s1.poly[i].coeff@ == kg_s(d, i) by {
        assert forall|c: int| 0 <= c < 256 implies #[trigger] s1.poly[i].coeff@[c] == kg_s(d, i)[c]
            && u16_of(s1.poly[i].coeff@[c] as int) < pow2(12) by {
            assert(cong(s.poly[i].coeff[c] as int, ntt_spec(noise_poly(kg_sigma(d), 0 + i))[c]));
            lemma_cong_mod(s.poly[i].coeff[c] as int, ntt_spec(noise_poly(kg_sigma(d), i))[c]);
        }
        assert(s1.poly[i].coeff@ =~= kg_s(d, i));
    }
}

/// The packed keys are the keys generated from `d`.
proof fn lemma_kg_bytes(d: Seq<u8>, t: VecPoly<K>, s1: VecPoly<K>, pk: Seq<u8>, sk: Seq<u8>)
    requires
        pk.len() == 1184,
        sk.len() == 1152,
        forall|b: int| 0 <= b < 32 ==> pk[b] == #[trigger] kg_rho(d)[b],
        packed_vec(pk, 32, t, 12),
        packed_vec(sk, 0, s1, 12),
        forall|i: int| 0 <= i < K ==> (#[trigger] t.poly[i]).coeff@ == kg_t(d, i),
        forall|i: int| 0 <= i < K ==> (#[trigger] s1.poly[i]).coeff@ == kg_s(d, i),
    ensures
        pk == keygen_pk(d),
        sk == keygen_sk(d),
{
    assert forall|b: int| 32 <= b < 1184 implies pk[b] == #[trigger] keygen_pk(d)[b] by {
        let i = (b - 32) / 384;
        let o = (b - 32) % 384;
        vstd::arithmetic::div_mod::lemma_fundamental_div_mod(b - 32, 384);
        vstd::arithmetic::div_mod::lemma_mod_pos_bound(b - 32, 384);
        assert(0 <= i < 3) by (nonlinear_arith)
            requires
                b - 32 == 384 * i + o,
                0 <= o < 384,
                0 <= b - 32 < 1152,
        ;
        assert(pk[32 + 32 * 12 * i + o] == enc_byte(t.poly[i].coeff@, 12, o));
        assert(t.poly[i].coeff@ == kg_t(d, i));
    }
    assert forall|b: int| 0 <= b < 1152 implies sk[b] == #[trigger] keygen_sk(d)[b] by {
        let i = b / 384;
        let o = b % 384;
        vstd::arithmetic::div_mod::lemma_fundamental_div_mod(b, 384);
        vstd::arithmetic::div_mod::lemma_mod_pos_bound(b, 384);
        assert(0 <= i < 3) by (nonlinear_arith)
            requires
                b == 384 * i + o,
                0 <= o < 384,
                0 <= b < 1152,
        ;
        assert(sk[0 + 32 * 12 * i + o] == enc_byte(s1.poly[i].coeff@, 12, o));
        assert(s1.poly[i].coeff@ == kg_s(d, i));
    }
    assert(pk =~= keygen_pk(d));
    assert(sk =~= keygen_sk(d));
}

} // verus!
