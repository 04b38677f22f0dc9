//! Polynomials of Z_q[X]/(X^256 + 1) with a flag for the NTT domain, vectors
//! and matrices of them, and their arithmetic.

use vstd::prelude::*;

use crate::ntt::{
    bounded, inv_ntt_, invntt_exact, invntt_spec, ints, ntt_, ntt_bound, ntt_exact, ntt_spec,
};
use crate::params::{N, Q};
use crate::utils::{
    _compress, _decompress, compress_spec, decompress_spec, mod_a,
    cmod, cmod_spec, cong, lemma_cmod, trem, lemma_cong_ops, lemma_mont_bound, lemma_mont_cong,
    montgomery, montgomery_ok, montgomery_spec,
};

verus! {

/// A polynomial: 256 coefficients, and whether they stand in the NTT domain.
#[derive(Copy, Clone)]
pub struct Poly {
    pub coeff: [i16; N],
    pub ntt: bool,
}

impl Default for Poly {
    /// The zero polynomial, outside the NTT domain.
    fn default() -> (p: Self)
        ensures
            forall|i: int| 0 <= i < 256 ==> p.coeff[i] == 0,
            !p.ntt,
    {
        Poly { coeff: [0i16; N], ntt: false }
    }
}

/// The negation: each coefficient -c reduced by `cmod` modulo q.
/// (The negation of -2^15 overflows 16 bits.)
pub fn neg(a: &Poly) -> (res: Poly)
    requires
        forall|i: int| 0 <= i < 256 ==> a.coeff[i] != i16::MIN,
    ensures
        forall|i: int| 0 <= i < 256 ==> res.coeff[i] == cmod_spec(-a.coeff[i], 3329),
        res.ntt == a.ntt,
{
    let mut res = Poly::default();
    for i in 0..N
        invariant
            forall|j: int| 0 <= j < 256 ==> a.coeff[j] != i16::MIN,
            forall|j: int| 0 <= j < i ==> res.coeff[j] == cmod_spec(-a.coeff[j], 3329),
    {
        proof {
            lemma_cmod(-a.coeff[i as int], 3329);
        }
        res.coeff[i] = cmod(-a.coeff[i], Q as i16);
    }
    res.ntt = a.ntt;
    res
}

/// Adds `b` to `a` coefficientwise, each sum reduced by `cmod` modulo q.
/// Both lie in the same domain (a mismatch is an error), and each sum fits 16 bits.
pub fn add(a: &mut Poly, b: &Poly)
    requires
        old(a).ntt == b.ntt,
        forall|i: int|
            0 <= i < 256 ==> i16::MIN <= #[trigger] old(a).coeff[i] + b.coeff[i] <= i16::MAX,
    ensures
        forall|i: int|
            0 <= i < 256 ==> final(a).coeff[i] == cmod_spec(
                #[trigger] old(a).coeff[i] + b.coeff[i],
                3329,
            ),
        final(a).ntt == old(a).ntt,
{
    if a.ntt == b.ntt {
        for i in 0..N
            invariant
                a.ntt == old(a).ntt,
                forall|j: int|
                    0 <= j < 256 ==> i16::MIN <= #[trigger] old(a).coeff[j] + b.coeff[j]
                        <= i16::MAX,
                forall|j: int|
                    0 <= j < i ==> a.coeff[j] == cmod_spec(
                        #[trigger] old(a).coeff[j] + b.coeff[j],
                        3329,
                    ),
                forall|j: int| i <= j < 256 ==> a.coeff[j] == #[trigger] old(a).coeff[j],
        {
            assert(a.coeff[i as int] == old(a).coeff[i as int]);
            proof {
                lemma_cmod(a.coeff[i as int] + b.coeff[i as int], 3329);
            }
            a.coeff[i] = cmod(a.coeff[i] + b.coeff[i], Q as i16);
        }
    }
}

/// What `ntt` returns for `a`: outside the NTT domain, the computed transform (congruent
/// to the transform over Z_q, bounded by `ntt_bound`) flagged as transformed; inside it,
/// the same coefficients with the flag cleared (the result starts from a default).
pub open spec fn ntt_rel(a: Poly, r: Poly) -> bool {
    &&& a.ntt ==> r.coeff == a.coeff && !r.ntt
    &&& !a.ntt ==> r.ntt
    &&& !a.ntt ==> forall|i: int|
        0 <= i < 256 ==> r.coeff[i] == #[trigger] ntt_exact(ints(a.coeff@))[i]
    &&& !a.ntt ==> forall|i: int|
        0 <= i < 256 ==> cong(r.coeff[i] as int, #[trigger] ntt_spec(ints(a.coeff@))[i])
    &&& !a.ntt ==> forall|b: int|
        0 <= b <= 16954 && #[trigger] bounded(ints(a.coeff@), b) ==> bounded(
            ints(r.coeff@),
            ntt_bound(b, 7),
        )
}

/// The forward transform of a polynomial outside the NTT domain.
pub fn ntt(a: &Poly) -> (res: Poly)
    requires
        !a.ntt ==> bounded(ints(a.coeff@), 16954),
    ensures
        ntt_rel(*a, res),
{
    let mut res = Poly::default();
    res.coeff = a.coeff;
    if !a.ntt {
        assert forall|i: int| 0 <= i < 256 implies -16954 <= #[trigger] res.coeff[i] <= 16954 by {
            assert(ints(a.coeff@)[i] == res.coeff[i]);
        }
        ntt_(&mut res.coeff);
        res.ntt = true;
    }
    res
}

/// Montgomery reduction of each coefficient, then `cmod` modulo q: multiplies by 2^-16 modulo q.
pub fn reduce(a: &mut Poly)
    ensures
        forall|i: int|
            0 <= i < 256 ==> final(a).coeff[i] == cmod_spec(
                montgomery_spec(#[trigger] old(a).coeff[i] as int),
                3329,
            ),
        forall|i: int| 0 <= i < 256 ==> cong(final(a).coeff[i] as int, #[trigger] old(a).coeff[i] * 169),
        forall|i: int| 0 <= i < 256 ==> -3329 < #[trigger] final(a).coeff[i] <= 1664,
        final(a).ntt == old(a).ntt,
{
    for i in 0..N
        invariant
            a.ntt == old(a).ntt,
            forall|j: int|
                0 <= j < i ==> a.coeff[j] == cmod_spec(
                    montgomery_spec(#[trigger] old(a).coeff[j] as int),
                    3329,
                ),
            forall|j: int| 0 <= j < i ==> cong(a.coeff[j] as int, #[trigger] old(a).coeff[j] * 169),
            forall|j: int| 0 <= j < i ==> -3329 < #[trigger] a.coeff[j] <= 1664,
            forall|j: int| i <= j < 256 ==> a.coeff[j] == #[trigger] old(a).coeff[j],
    {
        let x = a.coeff[i];
        proof {
            lemma_mont_bound(x as int, 32768);
            lemma_mont_cong(x as int);
            let m = montgomery_spec(x as int);
            lemma_cmod(m, 3329);
            lemma_cong_ops(cmod_spec(m, 3329), m, m, x * 169);
        }
        a.coeff[i] = cmod(montgomery(x as i32), Q as i16);
    }
}

/// What `inv_ntt` returns for `a`: inside the NTT domain, the computed inverse transform
/// reduced by `reduce` (congruent to the inverse transform over Z_q, in (-q, 1664]) and
/// flagged as not transformed; outside it, a copy.
pub open spec fn inv_ntt_rel(a: Poly, r: Poly) -> bool {
    &&& !a.ntt ==> r == a
    &&& a.ntt ==> !r.ntt
    &&& a.ntt ==> forall|i: int|
        0 <= i < 256 ==> r.coeff[i] == cmod_spec(
            montgomery_spec(#[trigger] invntt_exact(ints(a.coeff@))[i]),
            3329,
        )
    &&& a.ntt ==> forall|i: int|
        0 <= i < 256 ==> cong(r.coeff[i] as int, #[trigger] invntt_spec(ints(a.coeff@))[i] * 169)
    &&& a.ntt ==> forall|i: int| 0 <= i < 256 ==> -3329 < #[trigger] r.coeff[i] <= 1664
}

/// The inverse transform of a polynomial in the NTT domain: the inverse layers, then
/// `reduce`, which removes the Montgomery factor.
pub fn inv_ntt(a: &Poly) -> (res: Poly)
    requires
        a.ntt ==> bounded(ints(a.coeff@), 15812),
    ensures
        inv_ntt_rel(*a, res),
{
    let mut res = Poly::default();
    res.coeff = a.coeff;
    if a.ntt {
        inv_ntt_(&mut res.coeff);
        let ghost mid = res.coeff;
        reduce(&mut res);
        res.ntt = false;
        proof {
            assert forall|i: int| 0 <= i < 256 implies cong(
                res.coeff[i] as int,
                #[trigger] invntt_spec(ints(a.coeff@))[i] * 169,
            ) by {
                lemma_cong_ops(mid[i] as int, invntt_spec(ints(a.coeff@))[i], 169, 169);
                lemma_cong_ops(
                    res.coeff[i] as int,
                    mid[i] * 169,
                    mid[i] * 169,
                    invntt_spec(ints(a.coeff@))[i] * 169,
                );
            }
        }
    }
    res
}

/// Multiplies each coefficient by the scalar `s` (each product fits 16 bits).
pub fn smult(s: i16, a: &Poly) -> (res: Poly)
    requires
        forall|i: int| 0 <= i < 256 ==> i16::MIN <= s * #[trigger] a.coeff[i] <= i16::MAX,
    ensures
        forall|i: int| 0 <= i < 256 ==> res.coeff[i] == s * #[trigger] a.coeff[i],
        res.ntt == a.ntt,
{
    let mut res = Poly::default();
    for i in 0..N
        invariant
            forall|j: int| 0 <= j < 256 ==> i16::MIN <= s * #[trigger] a.coeff[j] <= i16::MAX,
            forall|j: int| 0 <= j < i ==> res.coeff[j] == s * #[trigger] a.coeff[j],
    {
        res.coeff[i] = s * a.coeff[i];
    }
    res.ntt = a.ntt;
    res
}

/// The coefficient that `mult` computes from x and y: the Montgomery product moved
/// back by 2^16 modulo q (with Rust's remainder), then `cmod`.
pub open spec fn mult_coeff(x: int, y: int) -> int {
    cmod_spec(trem((3329 + montgomery_spec(x * y)) * 65536, 3329), 3329)
}

proof fn lemma_mult_coeff(x: int, y: int)
    requires
        montgomery_ok(x * y),
        -1073741824 <= x * y <= 1073741824,
    ensures
        cong(mult_coeff(x, y), x * y),
        -3329 < mult_coeff(x, y) <= 1664,
        x * y >= -32768 * 3329 ==> -1664 <= mult_coeff(x, y),
        -32768 <= montgomery_spec(x * y) < 3329,
        -3329 < trem((3329 + montgomery_spec(x * y)) * 65536, 3329) < 3329,
{
    let a = x * y;
    lemma_mont_bound(a, 1073741824);
    lemma_mont_cong(a);
    crate::utils::lemma_mont_exact(a);
    let m = montgomery_spec(a);
    let u = (3329 + m) * 65536;
    let t = trem(u, 3329);
    assert(cong(t, u)) by {
        if u >= 0 {
            vstd::arithmetic::div_mod::lemma_fundamental_div_mod(u, 3329);
            crate::utils::lemma_cong_from(t, u, -(u / 3329));
        } else {
            vstd::arithmetic::div_mod::lemma_fundamental_div_mod(-u, 3329);
            crate::utils::lemma_cong_from(t, u, (-u) / 3329);
        }
    }
    crate::utils::lemma_cong_from(u, m * 65536, 65536);
    lemma_cong_ops(m, a * 169, 65536, 65536);
    assert(a * 169 * 65536 == a + 3329 * (a * 3327)) by (nonlinear_arith);
    crate::utils::lemma_cong_from(a * 169 * 65536, a, a * 3327);
    lemma_cong_ops(t, u, u, m * 65536);
    lemma_cong_ops(t, m * 65536, m * 65536, a * 169 * 65536);
    lemma_cong_ops(t, a * 169 * 65536, a * 169 * 65536, a);
    lemma_cmod(t, 3329);
    lemma_cong_ops(mult_coeff(x, y), t, t, a);
    if a >= -32768 * 3329 {
        assert(m > -3329);
        assert(u > 0);
    }
}

/// Coefficientwise product of two polynomials in the NTT domain: each coefficient is
/// congruent to the product of the two coefficients modulo q, in (-q, 1664], and in
/// [-1664, 1664] when the product is at least -2^15 q.
/// Both lie in the NTT domain, and the Montgomery reduction of each product must return.
pub fn mult(a: &Poly, b: &Poly) -> (res: Poly)
    requires
        a.ntt,
        b.ntt,
        forall|i: int| 0 <= i < 256 ==> montgomery_ok(#[trigger] a.coeff[i] * b.coeff[i]),
    ensures
        forall|i: int| 0 <= i < 256 ==> res.coeff[i] == mult_coeff(#[trigger] a.coeff[i] as int, b.coeff[i] as int),
        forall|i: int| 0 <= i < 256 ==> cong(res.coeff[i] as int, #[trigger] a.coeff[i] * b.coeff[i]),
        forall|i: int| 0 <= i < 256 ==> -3329 < #[trigger] res.coeff[i] <= 1664,
        forall|i: int|
            0 <= i < 256 ==> #[trigger] a.coeff[i] * b.coeff[i] >= -32768 * 3329 ==> -1664
                <= res.coeff[i],
        res.ntt,
{
    let mut res = Poly::default();
    for i in 0..N
        invariant
            forall|j: int| 0 <= j < 256 ==> montgomery_ok(#[trigger] a.coeff[j] * b.coeff[j]),
            forall|j: int|
                0 <= j < i ==> res.coeff[j] == mult_coeff(#[trigger] a.coeff[j] as int, b.coeff[j] as int),
            forall|j: int| 0 <= j < i ==> cong(res.coeff[j] as int, #[trigger] a.coeff[j] * b.coeff[j]),
            forall|j: int| 0 <= j < i ==> -3329 < #[trigger] res.coeff[j] <= 1664,
            forall|j: int|
                0 <= j < i ==> #[trigger] a.coeff[j] * b.coeff[j] >= -32768 * 3329 ==> -1664
                    <= res.coeff[j],
    {
        let x = a.coeff[i];
        let y = b.coeff[i];
        assert(-1073741824 <= x * y <= 1073741824) by (nonlinear_arith)
            requires
                -32768 <= x <= 32767,
                -32768 <= y <= 32767,
        ;
        proof {
            lemma_mult_coeff(x as int, y as int);
        }
        res.coeff[i] = montgomery((a.coeff[i] as i32) * b.coeff[i] as i32);
        let w = Q as i32 + res.coeff[i] as i32;
        assert(w << 16 == w * 65536) by (bit_vector)
            requires
                -32768 < w < 32768,
        ;
        let t = ((w << 16) % (Q as i32)) as i16;
        res.coeff[i] = cmod(t, Q as i16);
    }
    res.ntt = true;
    res
}

/// sum over i < t of a[i] * b[m - i]: the first t products that reach coefficient m.
pub open spec fn conv_lo(a: Seq<int>, b: Seq<int>, m: int, t: int) -> int
    decreases t,
{
    if t <= 0 {
        0
    } else {
        conv_lo(a, b, m, t - 1) + a[t - 1] * b[m - (t - 1)]
    }
}

/// sum over 1 <= v <= u of a[256 - v] * b[m + v]: the first u products that wrap
/// around X^256 = -1 onto coefficient m.
pub open spec fn conv_hi(a: Seq<int>, b: Seq<int>, m: int, u: int) -> int
    decreases u,
{
    if u <= 0 {
        0
    } else {
        conv_hi(a, b, m, u - 1) + a[256 - u] * b[m + u]
    }
}

/// Coefficient m of the product of a and b in Z[X]/(X^256 + 1).
pub open spec fn negacyclic(a: Seq<int>, b: Seq<int>, m: int) -> int {
    conv_lo(a, b, m, m + 1) - conv_hi(a, b, m, 255 - m)
}

/// The inputs on which `slow_mult` returns: every product and every partial sum,
/// in the order the schoolbook loops form them, fits 16 bits.
pub open spec fn slow_mult_ok(a: Seq<int>, b: Seq<int>) -> bool {
    &&& forall|i: int, j: int|
        0 <= i < 256 && 0 <= j < 256 ==> i16::MIN <= #[trigger] (a[i] * b[j]) <= i16::MAX
    &&& forall|m: int, t: int|
        0 <= m < 256 && 1 <= t <= m + 1 ==> i16::MIN <= #[trigger] conv_lo(a, b, m, t)
            <= i16::MAX
    &&& forall|m: int, u: int|
        0 <= m < 256 && 1 <= u <= 255 - m ==> i16::MIN <= conv_lo(a, b, m, m + 1)
            - #[trigger] conv_hi(a, b, m, u) <= i16::MAX
}

/// Schoolbook product of two polynomials outside the NTT domain in Z[X]/(X^256 + 1),
/// without reduction modulo q: coefficient m is `negacyclic(a, b, m)`.
pub fn slow_mult(a: &Poly, b: &Poly) -> (res: Poly)
    requires
        !a.ntt,
        !b.ntt,
        slow_mult_ok(ints(a.coeff@), ints(b.coeff@)),
    ensures
        forall|m: int|
            0 <= m < 256 ==> res.coeff[m] == #[trigger] negacyclic(
                ints(a.coeff@),
                ints(b.coeff@),
                m,
            ),
        !res.ntt,
{
    let ghost sa = ints(a.coeff@);
    let ghost sb = ints(b.coeff@);
    let mut res = Poly::default();
    for i in 0..N
        invariant
            sa == ints(a.coeff@),
            sb == ints(b.coeff@),
            slow_mult_ok(sa, sb),
            !res.ntt,
            forall|m: int|
                0 <= m < 256 ==> #[trigger] res.coeff[m] == conv_lo(
                    sa,
                    sb,
                    m,
                    if m < i { m + 1 } else { i as int },
                ),
    {
        for j in 0..N - i
            invariant
                0 <= i < 256,
                sa == ints(a.coeff@),
                sb == ints(b.coeff@),
                slow_mult_ok(sa, sb),
                !res.ntt,
                forall|m: int|
                    0 <= m < 256 ==> #[trigger] res.coeff[m] == conv_lo(
                        sa,
                        sb,
                        m,
                        if m < i { m + 1 } else if m < i + j { i + 1 } else { i as int },
                    ),
        {
            proof {
                let m = (i + j) as int;
                assert(sa[i as int] * sb[j as int] == a.coeff[i as int] * b.coeff[j as int]);
                assert(i16::MIN <= sa[i as int] * sb[j as int] <= i16::MAX);
                assert(i16::MIN <= conv_lo(sa, sb, m, i + 1) <= i16::MAX);
                assert(conv_lo(sa, sb, m, i + 1) == conv_lo(sa, sb, m, i as int) + sa[i as int]
                    * sb[m - i]);
            }
            res.coeff[i + j] += a.coeff[i] * b.coeff[j];
        }
    }
    for j in 1..N
        invariant
            sa == ints(a.coeff@),
            sb == ints(b.coeff@),
            slow_mult_ok(sa, sb),
            !res.ntt,
            forall|m: int|
                0 <= m < 256 ==> #[trigger] res.coeff[m] == conv_lo(sa, sb, m, m + 1) - conv_hi(
                    sa,
                    sb,
                    m,
                    if m < j - 1 { j - 1 - m } else { 0 },
                ),
    {
        for i in N - j..N
            invariant
                1 <= j < 256,
                N - j <= i <= N,
                sa == ints(a.coeff@),
                sb == ints(b.coeff@),
                slow_mult_ok(sa, sb),
                !res.ntt,
                forall|m: int|
                    0 <= m < 256 ==> #[trigger] res.coeff[m] == conv_lo(sa, sb, m, m + 1) - conv_hi(
                        sa,
                        sb,
                        m,
                        if m < i + j - 256 { j - m } else if m < j - 1 { j - 1 - m } else { 0 },
                    ),
        {
            proof {
                let m = (i + j - 256) as int;
                let u = j - m;
                assert(sa[i as int] * sb[j as int] == a.coeff[i as int] * b.coeff[j as int]);
                assert(i16::MIN <= sa[i as int] * sb[j as int] <= i16::MAX);
                assert(1 <= u <= 255 - m);
                assert(i16::MIN <= conv_lo(sa, sb, m, m + 1) - conv_hi(sa, sb, m, u) <= i16::MAX);
                assert(conv_hi(sa, sb, m, u) == conv_hi(sa, sb, m, u - 1) + sa[i as int] * sb[j as int]);
            }
            res.coeff[i + j - N] -= a.coeff[i] * b.coeff[j];
        }
    }
    res.ntt = false;
    res
}

/// |c| computed as c - ((c >> 15) & 2c), for c whose double fits 16 bits.
proof fn lemma_abs_trick(c: i16)
    requires
        -16384 <= c <= 16383,
    ensures
        (c - ((c >> 15) & ((2 * c) as i16))) as int == (if c < 0 { -c } else { c as int }),
        -32768 <= c - ((c >> 15) & ((2 * c) as i16)) <= 32767,
{
    assert((c - ((c >> 15) & ((2 * c) as i16))) as int == (if c < 0 { -c } else { c as int })
        && -32768 <= c - ((c >> 15) & ((2 * c) as i16)) <= 32767) by (bit_vector)
        requires
            -16384 <= c <= 16383,
    ;
}

/// The absolute value of an integer.
pub open spec fn abs(x: int) -> int {
    if x < 0 {
        -x
    } else {
        x
    }
}

/// The largest absolute value of a coefficient (coefficients whose double fits 16 bits).
pub fn p_infnorm(p: &Poly) -> (norm: i16)
    requires
        forall|i: int| 0 <= i < 256 ==> -16384 <= #[trigger] p.coeff[i] <= 16383,
    ensures
        forall|i: int| 0 <= i < 256 ==> abs(#[trigger] p.coeff[i] as int) <= norm,
        exists|i: int| 0 <= i < 256 && abs(#[trigger] p.coeff[i] as int) == norm,
{
    let mut norm = 0i16;
    for i in 0..N
        invariant
            forall|j: int| 0 <= j < 256 ==> -16384 <= #[trigger] p.coeff[j] <= 16383,
            0 <= norm,
            forall|j: int| 0 <= j < i ==> abs(#[trigger] p.coeff[j] as int) <= norm,
            i == 0 ==> norm == 0,
            i > 0 ==> exists|j: int| 0 <= j < i && abs(#[trigger] p.coeff[j] as int) == norm,
    {
        let c = p.coeff[i];
        proof {
            lemma_abs_trick(c);
        }
        let t = c - ((c >> 15) & 2 * c);
        if t >= norm {
            norm = t;
        }
        assert(abs(p.coeff[i as int] as int) <= norm);
    }
    norm
}

/// A vector of `l` polynomials.
#[derive(Copy, Clone)]
pub struct VecPoly<const l: usize> {
    pub poly: [Poly; l],
}

impl<const l: usize> Default for VecPoly<l> {
    /// The zero vector, outside the NTT domain.
    fn default() -> (v: Self)
        ensures
            forall|i: int, j: int| 0 <= i < l && 0 <= j < 256 ==> #[trigger] v.poly[i].coeff[j] == 0,
            forall|i: int| 0 <= i < l ==> !(#[trigger] v.poly[i]).ntt,
    {
        VecPoly { poly: [Poly::default();l] }
    }
}

/// The largest absolute value of a coefficient of the vector (0 for the empty vector).
pub fn inf_norm<const k: usize>(p: &VecPoly<k>) -> (norm: i16)
    requires
        forall|i: int, j: int|
            0 <= i < k && 0 <= j < 256 ==> -16384 <= #[trigger] p.poly[i].coeff[j] <= 16383,
    ensures
        0 <= norm,
        forall|i: int, j: int|
            0 <= i < k && 0 <= j < 256 ==> abs(#[trigger] p.poly[i].coeff[j] as int) <= norm,
        norm == 0 || exists|i: int, j: int|
            0 <= i < k && 0 <= j < 256 && abs(#[trigger] p.poly[i].coeff[j] as int) == norm,
{
    let mut norm = 0i16;
    for i in 0..k
        invariant
            forall|i: int, j: int|
                0 <= i < k && 0 <= j < 256 ==> -16384 <= #[trigger] p.poly[i].coeff[j] <= 16383,
            0 <= norm,
            forall|a: int, j: int|
                0 <= a < i && 0 <= j < 256 ==> abs(#[trigger] p.poly[a].coeff[j] as int) <= norm,
            norm == 0 || exists|a: int, j: int|
                0 <= a < i && 0 <= j < 256 && abs(#[trigger] p.poly[a].coeff[j] as int) == norm,
    {
        let ghost before = norm;
        if p_infnorm(&p.poly[i]) >= norm {
            norm = p_infnorm(&p.poly[i]);
        }
        proof {
            assert forall|a: int, j: int|
                0 <= a < i + 1 && 0 <= j < 256 implies abs(#[trigger] p.poly[a].coeff[j] as int)
                <= norm by {
                if a == i {
                    assert(abs(p.poly[i as int].coeff[j] as int) <= norm);
                }
            }
        }
    }
    norm
}

/// A matrix of k rows, each a vector of `l` polynomials.
#[derive(Copy, Clone)]
pub struct Mat<const k: usize, const l: usize> {
    pub vec: [VecPoly<l>; k],
}

impl<const k: usize, const l: usize> Default for Mat<k, l> {
    /// The zero matrix, outside the NTT domain.
    fn default() -> (m: Self)
        ensures
            forall|i: int, j: int, c: int|
                0 <= i < k && 0 <= j < l && 0 <= c < 256 ==> #[trigger] m.vec[i].poly[j].coeff[c]
                    == 0,
            forall|i: int, j: int| 0 <= i < k && 0 <= j < l ==> !(#[trigger] m.vec[i].poly[j]).ntt,
    {
        Mat { vec: [VecPoly::<l>::default();k] }
    }
}

/// The forward transform of each polynomial of the vector (see `ntt`).
pub fn Ntt<const k: usize>(a: &VecPoly<k>) -> (res: VecPoly<k>)
    requires
        forall|i: int| 0 <= i < k ==> !(#[trigger] a.poly[i]).ntt ==> bounded(ints(a.poly[i].coeff@), 16954),
    ensures
        forall|i: int| 0 <= i < k ==> ntt_rel(#[trigger] a.poly[i], res.poly[i]),
{
    let mut res = *a;
    for i in 0..k
        invariant
            forall|i: int| 0 <= i < k ==> !(#[trigger] a.poly[i]).ntt ==> bounded(ints(a.poly[i].coeff@), 16954),
            forall|j: int| 0 <= j < i ==> ntt_rel(#[trigger] a.poly[j], res.poly[j]),
    {
        res.poly[i] = ntt(&a.poly[i]);
    }
    res
}

/// The inverse transform of each polynomial of the vector (see `inv_ntt`).
pub fn inv_Ntt<const k: usize>(a: &VecPoly<k>) -> (res: VecPoly<k>)
    requires
        forall|i: int| 0 <= i < k ==> (#[trigger] a.poly[i]).ntt ==> bounded(ints(a.poly[i].coeff@), 15812),
    ensures
        forall|i: int| 0 <= i < k ==> inv_ntt_rel(#[trigger] a.poly[i], res.poly[i]),
{
    let mut res = VecPoly::<k>::default();
    for i in 0..k
        invariant
            forall|i: int| 0 <= i < k ==> (#[trigger] a.poly[i]).ntt ==> bounded(ints(a.poly[i].coeff@), 15812),
            forall|j: int| 0 <= j < i ==> inv_ntt_rel(#[trigger] a.poly[j], res.poly[j]),
    {
        res.poly[i] = inv_ntt(&a.poly[i]);
    }
    res
}

/// The negation of each polynomial of the vector (see `neg`).
pub fn Neg<const k: usize>(a: &VecPoly<k>) -> (res: VecPoly<k>)
    requires
        forall|i: int, j: int| 0 <= i < k && 0 <= j < 256 ==> #[trigger] a.poly[i].coeff[j] != i16::MIN,
    ensures
        forall|i: int, j: int|
            0 <= i < k && 0 <= j < 256 ==> #[trigger] res.poly[i].coeff[j] == cmod_spec(-a.poly[i].coeff[j], 3329),
        forall|i: int| 0 <= i < k ==> (#[trigger] res.poly[i]).ntt == a.poly[i].ntt,
{
    let mut res = VecPoly::<k>::default();
    for i in 0..k
        invariant
            forall|i: int, j: int| 0 <= i < k && 0 <= j < 256 ==> #[trigger] a.poly[i].coeff[j] != i16::MIN,
            forall|a2: int, j: int|
                0 <= a2 < i && 0 <= j < 256 ==> #[trigger] res.poly[a2].coeff[j] == cmod_spec(-a.poly[a2].coeff[j], 3329),
            forall|a2: int| 0 <= a2 < i ==> (#[trigger] res.poly[a2]).ntt == a.poly[a2].ntt,
    {
        res.poly[i] = neg(&a.poly[i]);
    }
    res
}

/// Multiplies each polynomial of the vector by the scalar `s` (see `smult`).
pub fn sMult<const k: usize>(s: i16, a: &VecPoly<k>) -> (res: VecPoly<k>)
    requires
        forall|i: int, j: int|
            0 <= i < k && 0 <= j < 256 ==> i16::MIN <= s * #[trigger] a.poly[i].coeff[j] <= i16::MAX,
    ensures
        forall|i: int, j: int|
            0 <= i < k && 0 <= j < 256 ==> #[trigger] res.poly[i].coeff[j] == s * a.poly[i].coeff[j],
        forall|i: int| 0 <= i < k ==> (#[trigger] res.poly[i]).ntt == a.poly[i].ntt,
{
    let mut res = VecPoly::<k>::default();
    for i in 0..k
        invariant
            forall|i: int, j: int|
                0 <= i < k && 0 <= j < 256 ==> i16::MIN <= s * #[trigger] a.poly[i].coeff[j] <= i16::MAX,
            forall|a2: int, j: int|
                0 <= a2 < i && 0 <= j < 256 ==> #[trigger] res.poly[a2].coeff[j] == s * a.poly[a2].coeff[j],
            forall|a2: int| 0 <= a2 < i ==> (#[trigger] res.poly[a2]).ntt == a.poly[a2].ntt,
    {
        res.poly[i] = smult(s, &a.poly[i]);
    }
    res
}

/// Sum of two vectors, each coefficient reduced by `cmod` (see `add`).
pub fn v_add<const k: usize>(a: &VecPoly<k>, b: &VecPoly<k>) -> (res: VecPoly<k>)
    requires
        forall|i: int| 0 <= i < k ==> (#[trigger] a.poly[i]).ntt == b.poly[i].ntt,
        forall|i: int, j: int|
            0 <= i < k && 0 <= j < 256 ==> i16::MIN <= #[trigger] a.poly[i].coeff[j] + b.poly[i].coeff[j] <= i16::MAX,
    ensures
        forall|i: int, j: int|
            0 <= i < k && 0 <= j < 256 ==> #[trigger] res.poly[i].coeff[j] == cmod_spec(a.poly[i].coeff[j] + b.poly[i].coeff[j], 3329),
        forall|i: int| 0 <= i < k ==> (#[trigger] res.poly[i]).ntt == a.poly[i].ntt,
{
    let mut res = VecPoly::<k>::default();
    for i in 0..k
        invariant
            forall|i: int| 0 <= i < k ==> (#[trigger] a.poly[i]).ntt == b.poly[i].ntt,
            forall|i: int, j: int|
                0 <= i < k && 0 <= j < 256 ==> i16::MIN <= #[trigger] a.poly[i].coeff[j] + b.poly[i].coeff[j] <= i16::MAX,
            forall|a2: int, j: int|
                0 <= a2 < i && 0 <= j < 256 ==> #[trigger] res.poly[a2].coeff[j] == cmod_spec(a.poly[a2].coeff[j] + b.poly[a2].coeff[j], 3329),
            forall|a2: int| 0 <= a2 < i ==> (#[trigger] res.poly[a2]).ntt == a.poly[a2].ntt,
    {
        let mut p = a.poly[i];
        assert forall|j: int| 0 <= j < 256 implies i16::MIN <= #[trigger] p.coeff[j] + b.poly[i as int].coeff[j] <= i16::MAX by {
            assert(i16::MIN <= a.poly[i as int].coeff[j] + b.poly[i as int].coeff[j] <= i16::MAX);
        }
        self::add(&mut p, &b.poly[i]);
        res.poly[i] = p;
    }
    res
}

/// Difference of two vectors: adds -1 times `b`, each coefficient reduced by `cmod`.
pub fn v_sub<const k: usize>(a: &VecPoly<k>, b: &VecPoly<k>) -> (res: VecPoly<k>)
    requires
        forall|i: int| 0 <= i < k ==> (#[trigger] a.poly[i]).ntt == b.poly[i].ntt,
        forall|i: int, j: int| 0 <= i < k && 0 <= j < 256 ==> #[trigger] b.poly[i].coeff[j] != i16::MIN,
        forall|i: int, j: int|
            0 <= i < k && 0 <= j < 256 ==> i16::MIN <= #[trigger] a.poly[i].coeff[j] - b.poly[i].coeff[j] <= i16::MAX,
    ensures
        forall|i: int, j: int|
            0 <= i < k && 0 <= j < 256 ==> #[trigger] res.poly[i].coeff[j] == cmod_spec(a.poly[i].coeff[j] - b.poly[i].coeff[j], 3329),
        forall|i: int| 0 <= i < k ==> (#[trigger] res.poly[i]).ntt == a.poly[i].ntt,
{
    let mut res = VecPoly::<k>::default();
    for i in 0..k
        invariant
            forall|i: int| 0 <= i < k ==> (#[trigger] a.poly[i]).ntt == b.poly[i].ntt,
            forall|i: int, j: int| 0 <= i < k && 0 <= j < 256 ==> #[trigger] b.poly[i].coeff[j] != i16::MIN,
            forall|i: int, j: int|
                0 <= i < k && 0 <= j < 256 ==> i16::MIN <= #[trigger] a.poly[i].coeff[j] - b.poly[i].coeff[j] <= i16::MAX,
            forall|a2: int, j: int|
                0 <= a2 < i && 0 <= j < 256 ==> #[trigger] res.poly[a2].coeff[j] == cmod_spec(a.poly[a2].coeff[j] - b.poly[a2].coeff[j], 3329),
            forall|a2: int| 0 <= a2 < i ==> (#[trigger] res.poly[a2]).ntt == a.poly[a2].ntt,
    {
        let mut p = a.poly[i];
        assert forall|j: int| 0 <= j < 256 implies i16::MIN <= -1 * #[trigger] b.poly[i as int].coeff[j] <= i16::MAX by {
            assert(b.poly[i as int].coeff[j] != i16::MIN);
        }
        let nb = smult(-1, &b.poly[i]);
        assert forall|j: int| 0 <= j < 256 implies i16::MIN <= #[trigger] p.coeff[j] + nb.coeff[j] <= i16::MAX by {
            assert(i16::MIN <= a.poly[i as int].coeff[j] - b.poly[i as int].coeff[j] <= i16::MAX);
        }
        self::add(&mut p, &nb);
        res.poly[i] = p;
    }
    res
}

/// Coefficient j of the sum of the products of the first n pairs of polynomials, as
/// `v_mult_v` accumulates it: `add` of each `mult`.
pub open spec fn vmv_coeff<const k: usize>(v: VecPoly<k>, u: VecPoly<k>, n: int, j: int) -> int
    decreases n,
{
    if n <= 0 {
        0
    } else {
        cmod_spec(
            vmv_coeff(v, u, n - 1, j) + mult_coeff(
                v.poly[n - 1].coeff[j] as int,
                u.poly[n - 1].coeff[j] as int,
            ),
            3329,
        )
    }
}

/// Coefficient j of the sum of the coefficientwise products of the first n pairs.
pub open spec fn vmv_sum<const k: usize>(v: VecPoly<k>, u: VecPoly<k>, n: int, j: int) -> int
    decreases n,
{
    if n <= 0 {
        0
    } else {
        vmv_sum(v, u, n - 1, j) + v.poly[n - 1].coeff[j] * u.poly[n - 1].coeff[j]
    }
}

/// Both vectors lie in the NTT domain, and every coefficient product can be reduced.
pub open spec fn vmv_ok<const k: usize>(v: VecPoly<k>, u: VecPoly<k>) -> bool {
    &&& forall|i: int| 0 <= i < k ==> (#[trigger] v.poly[i]).ntt && u.poly[i].ntt
    &&& forall|i: int, j: int|
        0 <= i < k && 0 <= j < 256 ==> montgomery_ok(
            #[trigger] v.poly[i].coeff[j] * u.poly[i].coeff[j],
        )
}

/// Inner product of two vectors in the NTT domain (coefficientwise products, summed):
/// each coefficient is congruent to the sum of the products modulo q, in (-q, 1664].
pub fn v_mult_v<const k: usize>(v: &VecPoly<k>, u: &VecPoly<k>) -> (res: Poly)
    requires
        vmv_ok(*v, *u),
    ensures
        forall|j: int| 0 <= j < 256 ==> res.coeff[j] == #[trigger] vmv_coeff(*v, *u, k as int, j),
        forall|j: int| 0 <= j < 256 ==> cong(res.coeff[j] as int, #[trigger] vmv_sum(*v, *u, k as int, j)),
        forall|j: int| 0 <= j < 256 ==> -3329 < #[trigger] res.coeff[j] <= 1664,
        res.ntt,
{
    let mut res = Poly::default();
    res.ntt = true;
    proof {
        assert forall|j: int| 0 <= j < 256 implies cong(res.coeff[j] as int, #[trigger] vmv_sum(*v, *u, 0, j)) by {
            crate::utils::lemma_cong_from(0, 0, 0);
        }
    }
    let mut i: usize = 0;
    while i < k
        invariant
            i <= k,
            vmv_ok(*v, *u),
            res.ntt,
            forall|j: int| 0 <= j < 256 ==> res.coeff[j] == #[trigger] vmv_coeff(*v, *u, i as int, j),
            forall|j: int| 0 <= j < 256 ==> cong(res.coeff[j] as int, #[trigger] vmv_sum(*v, *u, i as int, j)),
            forall|j: int| 0 <= j < 256 ==> -3329 < #[trigger] res.coeff[j] <= 1664,
        decreases k - i,
    {
        assert(v.poly[i as int].ntt && u.poly[i as int].ntt);
        assert forall|j: int| 0 <= j < 256 implies montgomery_ok(#[trigger] v.poly[i as int].coeff[j] * u.poly[i as int].coeff[j]) by {
        }
        let m = mult(&v.poly[i], &u.poly[i]);
        let ghost before = res;
        assert forall|j: int| 0 <= j < 256 implies i16::MIN <= #[trigger] res.coeff[j] + m.coeff[j] <= i16::MAX by {
            assert(-3329 < res.coeff[j] <= 1664);
            assert(-3329 < m.coeff[j] <= 1664);
        }
        self::add(&mut res, &m);
        proof {
            lemma_vmv_step(*v, *u, i as int, before, m, res);
        }
        i += 1;
    }
    res
}

proof fn lemma_vmv_at<const k: usize>(v: VecPoly<k>, u: VecPoly<k>, i: int, j: int, bc: int, mc: int, rc: int)
    requires
        0 <= i < k,
        0 <= j < 256,
        bc == vmv_coeff(v, u, i, j),
        cong(bc, vmv_sum(v, u, i, j)),
        -3329 < bc <= 1664,
        mc == mult_coeff(v.poly[i].coeff[j] as int, u.poly[i].coeff[j] as int),
        cong(mc, v.poly[i].coeff[j] * u.poly[i].coeff[j]),
        -3329 < mc <= 1664,
        rc == cmod_spec(bc + mc, 3329),
    ensures
        rc == vmv_coeff(v, u, i + 1, j),
        cong(rc, vmv_sum(v, u, i + 1, j)),
        -3329 < rc <= 1664,
{
    let x = v.poly[i].coeff[j] as int;
    let y = u.poly[i].coeff[j] as int;
    lemma_cmod(bc + mc, 3329);
    lemma_cong_ops(bc, vmv_sum(v, u, i, j), mc, x * y);
    lemma_cong_ops(rc, bc + mc, bc + mc, vmv_sum(v, u, i, j) + x * y);
}

proof fn lemma_vmv_step<const k: usize>(v: VecPoly<k>, u: VecPoly<k>, i: int, before: Poly, m: Poly, res: Poly)
    requires
        0 <= i < k,
        forall|j: int| 0 <= j < 256 ==> before.coeff[j] == #[trigger] vmv_coeff(v, u, i, j),
        forall|j: int| 0 <= j < 256 ==> cong(before.coeff[j] as int, #[trigger] vmv_sum(v, u, i, j)),
        forall|j: int| 0 <= j < 256 ==> -3329 < #[trigger] before.coeff[j] <= 1664,
        forall|j: int| 0 <= j < 256 ==> m.coeff[j] == mult_coeff(#[trigger] v.poly[i].coeff[j] as int, u.poly[i].coeff[j] as int),
        forall|j: int| 0 <= j < 256 ==> cong(m.coeff[j] as int, #[trigger] v.poly[i].coeff[j] * u.poly[i].coeff[j]),
        forall|j: int| 0 <= j < 256 ==> -3329 < #[trigger] m.coeff[j] <= 1664,
        forall|j: int| 0 <= j < 256 ==> res.coeff[j] == cmod_spec(#[trigger] before.coeff[j] + m.coeff[j], 3329),
    ensures
        forall|j: int| 0 <= j < 256 ==> res.coeff[j] == #[trigger] vmv_coeff(v, u, i + 1, j),
        forall|j: int| 0 <= j < 256 ==> cong(res.coeff[j] as int, #[trigger] vmv_sum(v, u, i + 1, j)),
        forall|j: int| 0 <= j < 256 ==> -3329 < #[trigger] res.coeff[j] <= 1664,
{
    assert forall|j: int| 0 <= j < 256 implies res.coeff[j] == #[trigger] vmv_coeff(v, u, i + 1, j) by {
        lemma_vmv_at(v, u, i, j, before.coeff[j] as int, m.coeff[j] as int, res.coeff[j] as int);
    }
    assert forall|j: int| 0 <= j < 256 implies cong(res.coeff[j] as int, #[trigger] vmv_sum(v, u, i + 1, j)) by {
        lemma_vmv_at(v, u, i, j, before.coeff[j] as int, m.coeff[j] as int, res.coeff[j] as int);
    }
    assert forall|j: int| 0 <= j < 256 implies -3329 < #[trigger] res.coeff[j] <= 1664 by {
        lemma_vmv_at(v, u, i, j, before.coeff[j] as int, m.coeff[j] as int, res.coeff[j] as int);
    }
}

/// The vector of products of `p` with each polynomial of `v` (see `mult`).
pub fn p_mult_v<const k: usize>(p: &Poly, v: &VecPoly<k>) -> (res: VecPoly<k>)
    requires
        p.ntt,
        forall|i: int| 0 <= i < k ==> (#[trigger] v.poly[i]).ntt,
        forall|i: int, j: int|
            0 <= i < k && 0 <= j < 256 ==> montgomery_ok(p.coeff[j] * #[trigger] v.poly[i].coeff[j]),
    ensures
        forall|i: int, j: int|
            0 <= i < k && 0 <= j < 256 ==> #[trigger] res.poly[i].coeff[j] == mult_coeff(p.coeff[j] as int, v.poly[i].coeff[j] as int),
        forall|i: int| 0 <= i < k ==> (#[trigger] res.poly[i]).ntt,
{
    let mut res = VecPoly::<k>::default();
    for i in 0..k
        invariant
            p.ntt,
            forall|i: int| 0 <= i < k ==> (#[trigger] v.poly[i]).ntt,
            forall|i: int, j: int|
                0 <= i < k && 0 <= j < 256 ==> montgomery_ok(p.coeff[j] * #[trigger] v.poly[i].coeff[j]),
            forall|a2: int, j: int|
                0 <= a2 < i && 0 <= j < 256 ==> #[trigger] res.poly[a2].coeff[j] == mult_coeff(p.coeff[j] as int, v.poly[a2].coeff[j] as int),
            forall|a2: int| 0 <= a2 < i ==> (#[trigger] res.poly[a2]).ntt,
    {
        assert(v.poly[i as int].ntt);
        assert forall|j: int| 0 <= j < 256 implies montgomery_ok(#[trigger] p.coeff[j] * v.poly[i as int].coeff[j]) by {
        }
        res.poly[i] = mult(&p, &v.poly[i]);
    }
    Caddq(&res);
    res
}

/// Matrix-vector product in the NTT domain: row i is the inner product of row i of `A` with `s`.
pub fn m_mult_v<const k: usize, const l: usize>(A: &Mat<k, l>, s: &VecPoly<l>) -> (res: VecPoly<k>)
    requires
        forall|i: int| 0 <= i < k ==> vmv_ok(#[trigger] A.vec[i], *s),
    ensures
        forall|i: int, j: int|
            0 <= i < k && 0 <= j < 256 ==> #[trigger] res.poly[i].coeff[j] == vmv_coeff(A.vec[i], *s, l as int, j),
        forall|i: int, j: int|
            0 <= i < k && 0 <= j < 256 ==> cong(#[trigger] res.poly[i].coeff[j] as int, vmv_sum(A.vec[i], *s, l as int, j)),
        forall|i: int, j: int| 0 <= i < k && 0 <= j < 256 ==> -3329 < #[trigger] res.poly[i].coeff[j] <= 1664,
        forall|i: int| 0 <= i < k ==> (#[trigger] res.poly[i]).ntt,
{
    let mut res = VecPoly::<k>::default();
    for i in 0..k
        invariant
            forall|i: int| 0 <= i < k ==> vmv_ok(#[trigger] A.vec[i], *s),
            forall|a2: int, j: int|
                0 <= a2 < i && 0 <= j < 256 ==> #[trigger] res.poly[a2].coeff[j] == vmv_coeff(A.vec[a2], *s, l as int, j),
            forall|a2: int, j: int|
                0 <= a2 < i && 0 <= j < 256 ==> cong(#[trigger] res.poly[a2].coeff[j] as int, vmv_sum(A.vec[a2], *s, l as int, j)),
            forall|a2: int, j: int| 0 <= a2 < i && 0 <= j < 256 ==> -3329 < #[trigger] res.poly[a2].coeff[j] <= 1664,
            forall|a2: int| 0 <= a2 < i ==> (#[trigger] res.poly[a2]).ntt,
    {
        assert(vmv_ok(A.vec[i as int], *s));
        res.poly[i] = v_mult_v(&A.vec[i], &s);
    }
    res
}

/// Each coefficient reduced by `cmod` modulo q.
pub fn c_addq(a: &Poly) -> (res: Poly)
    ensures
        forall|i: int| 0 <= i < 256 ==> res.coeff[i] == cmod_spec(#[trigger] a.coeff[i] as int, 3329),
        res.ntt == a.ntt,
{
    let mut res = Poly::default();
    for i in 0..N
        invariant
            forall|j: int| 0 <= j < i ==> res.coeff[j] == cmod_spec(#[trigger] a.coeff[j] as int, 3329),
    {
        res.coeff[i] = cmod(a.coeff[i], Q as i16);
    }
    res.ntt = a.ntt;
    res
}

/// `c_addq` of each polynomial of the vector.
pub fn Caddq<const k: usize>(a: &VecPoly<k>) -> (res: VecPoly<k>)
    ensures
        forall|i: int, j: int|
            0 <= i < k && 0 <= j < 256 ==> #[trigger] res.poly[i].coeff[j] == cmod_spec(a.poly[i].coeff[j] as int, 3329),
        forall|i: int| 0 <= i < k ==> (#[trigger] res.poly[i]).ntt == a.poly[i].ntt,
{
    let mut res = VecPoly::<k>::default();
    for i in 0..k
        invariant
            forall|a2: int, j: int|
                0 <= a2 < i && 0 <= j < 256 ==> #[trigger] res.poly[a2].coeff[j] == cmod_spec(a.poly[a2].coeff[j] as int, 3329),
            forall|a2: int| 0 <= a2 < i ==> (#[trigger] res.poly[a2]).ntt == a.poly[a2].ntt,
    {
        res.poly[i] = c_addq(&a.poly[i]);
    }
    res
}

/// `_compress` of each coefficient: round(x 2^d / q) mod 2^d of x mod q.
pub fn compress(r: &Poly, d: i16) -> (t: Poly)
    requires
        0 <= d <= 12,
    ensures
        forall|i: int| 0 <= i < 256 ==> t.coeff[i] == compress_spec(#[trigger] r.coeff[i] as int, d as nat),
        t.ntt == r.ntt,
{
    let mut t = Poly::default();
    for i in 0..r.coeff.len()
        invariant
            0 <= d <= 12,
            forall|j: int| 0 <= j < i ==> t.coeff[j] == compress_spec(#[trigger] r.coeff[j] as int, d as nat),
    {
        t.coeff[i] = _compress(r.coeff[i], d);
    }
    t.ntt = r.ntt;
    t
}

/// `_decompress` of each coefficient: round(x q / 2^d) of x mod q.
pub fn decompress(r: &Poly, d: i16) -> (t: Poly)
    requires
        0 <= d <= 31,
    ensures
        forall|i: int| 0 <= i < 256 ==> t.coeff[i] == decompress_spec(#[trigger] r.coeff[i] as int, d as nat),
        t.ntt == r.ntt,
{
    let mut t = Poly::default();
    for i in 0..r.coeff.len()
        invariant
            0 <= d <= 31,
            forall|j: int| 0 <= j < i ==> t.coeff[j] == decompress_spec(#[trigger] r.coeff[j] as int, d as nat),
    {
        t.coeff[i] = _decompress(r.coeff[i], d);
    }
    t.ntt = r.ntt;
    t
}

/// `compress` of each polynomial of the vector.
pub fn Compress<const k: usize>(v: &VecPoly<k>, d: i16) -> (res: VecPoly<k>)
    requires
        0 <= d <= 12,
    ensures
        forall|i: int, j: int|
            0 <= i < k && 0 <= j < 256 ==> #[trigger] res.poly[i].coeff[j] == compress_spec(v.poly[i].coeff[j] as int, d as nat),
        forall|i: int| 0 <= i < k ==> (#[trigger] res.poly[i]).ntt == v.poly[i].ntt,
{
    let mut res = VecPoly::<k>::default();
    for i in 0..k
        invariant
            0 <= d <= 12,
            forall|a2: int, j: int|
                0 <= a2 < i && 0 <= j < 256 ==> #[trigger] res.poly[a2].coeff[j] == compress_spec(v.poly[a2].coeff[j] as int, d as nat),
            forall|a2: int| 0 <= a2 < i ==> (#[trigger] res.poly[a2]).ntt == v.poly[a2].ntt,
    {
        res.poly[i] = compress(&v.poly[i], d);
    }
    res
}

/// `decompress` of each polynomial of the vector.
pub fn Decompress<const k: usize>(v: &VecPoly<k>, d: i16) -> (res: VecPoly<k>)
    requires
        0 <= d <= 31,
    ensures
        forall|i: int, j: int|
            0 <= i < k && 0 <= j < 256 ==> #[trigger] res.poly[i].coeff[j] == decompress_spec(v.poly[i].coeff[j] as int, d as nat),
        forall|i: int| 0 <= i < k ==> (#[trigger] res.poly[i]).ntt == v.poly[i].ntt,
{
    let mut res = VecPoly::<k>::default();
    for i in 0..k
        invariant
            0 <= d <= 31,
            forall|a2: int, j: int|
                0 <= a2 < i && 0 <= j < 256 ==> #[trigger] res.poly[a2].coeff[j] == decompress_spec(v.poly[a2].coeff[j] as int, d as nat),
            forall|a2: int| 0 <= a2 < i ==> (#[trigger] res.poly[a2]).ntt == v.poly[a2].ntt,
    {
        res.poly[i] = decompress(&v.poly[i], d);
    }
    res
}

/// Each coefficient reduced to its representative in [0, q).
pub fn _modq(a: &Poly) -> (res: Poly)
    ensures
        forall|i: int| 0 <= i < 256 ==> res.coeff[i] == (#[trigger] a.coeff[i] as int) % 3329,
        res.ntt == a.ntt,
{
    let mut res = Poly::default();
    for i in 0..N
        invariant
            forall|j: int| 0 <= j < i ==> res.coeff[j] == (#[trigger] a.coeff[j] as int) % 3329,
    {
        proof {
            crate::utils::lemma_mod_a(a.coeff[i as int] as int, 3329);
        }
        res.coeff[i] = mod_a(a.coeff[i], Q as i16);
    }
    res.ntt = a.ntt;
    res
}

/// `_modq` of each polynomial of the vector.
pub fn modq<const k: usize>(v: &VecPoly<k>) -> (res: VecPoly<k>)
    ensures
        forall|i: int, j: int|
            0 <= i < k && 0 <= j < 256 ==> #[trigger] res.poly[i].coeff[j] == (v.poly[i].coeff[j] as int) % 3329,
        forall|i: int| 0 <= i < k ==> (#[trigger] res.poly[i]).ntt == v.poly[i].ntt,
{
    let mut res = VecPoly::<k>::default();
    for i in 0..k
        invariant
            forall|a2: int, j: int|
                0 <= a2 < i && 0 <= j < 256 ==> #[trigger] res.poly[a2].coeff[j] == (v.poly[a2].coeff[j] as int) % 3329,
            forall|a2: int| 0 <= a2 < i ==> (#[trigger] res.poly[a2]).ntt == v.poly[a2].ntt,
    {
        res.poly[i] = _modq(&v.poly[i]);
    }
    res
}

/// The transposed matrix.
pub fn transp<const k: usize>(A: &Mat<k, k>) -> (res: Mat<k, k>)
    ensures
        forall|i: int, j: int| 0 <= i < k && 0 <= j < k ==> #[trigger] res.vec[i].poly[j] == A.vec[j].poly[i],
{
    let mut res = *A;
    for i in 0..k
        invariant
            forall|a2: int, j: int| 0 <= a2 < i && 0 <= j < k ==> #[trigger] res.vec[a2].poly[j] == A.vec[j].poly[a2],
    {
        for j in 0..k
            invariant
                0 <= i < k,
                forall|a2: int, j2: int| 0 <= a2 < i && 0 <= j2 < k ==> #[trigger] res.vec[a2].poly[j2] == A.vec[j2].poly[a2],
                forall|j2: int| 0 <= j2 < j ==> #[trigger] res.vec[i as int].poly[j2] == A.vec[j2].poly[i as int],
        {
            res.vec[i].poly[j] = A.vec[j].poly[i];
        }
    }
    res
}

proof fn lemma_ntt_bound_2720()
    ensures
        ntt_bound(2720, 7) == 15812,
{
    assert(ntt_bound(2720, 0) == 2720);
    assert(ntt_bound(2720, 1) == 4453);
    assert(ntt_bound(2720, 2) == 6230);
    assert(ntt_bound(2720, 3) == 8052);
    assert(ntt_bound(2720, 4) == 9920);
    assert(ntt_bound(2720, 5) == 11835);
    assert(ntt_bound(2720, 6) == 13799);
    assert(ntt_bound(2720, 7) == 15812);
}

/// The inverse transform undoes the forward transform modulo q: for a polynomial outside
/// the NTT domain whose coefficients are at most 2720 in absolute value (larger ones can
/// carry the transform's output out of the inverse's domain), `ntt` gives a result that
/// `inv_ntt` accepts, and `inv_ntt` of it is congruent to the polynomial, outside the domain.
pub proof fn lemma_inv_ntt_ntt(p: Poly, t: Poly, r: Poly)
    requires
        !p.ntt,
        bounded(ints(p.coeff@), 2720),
        ntt_rel(p, t),
        inv_ntt_rel(t, r),
    ensures
        t.ntt,
        bounded(ints(t.coeff@), 15812),
        !r.ntt,
        forall|i: int| 0 <= i < 256 ==> cong(#[trigger] r.coeff[i] as int, p.coeff[i] as int),
{
    let sp = ints(p.coeff@);
    let st = ints(t.coeff@);
    lemma_ntt_bound_2720();
    assert(bounded(st, 15812));
    let x = crate::ntt::ntt_layers(sp, 2);
    assert forall|i: int| 0 <= i < 256 implies cong(#[trigger] st[i], 1 * x[i]) by {
        assert(st[i] == t.coeff[i]);
        assert(cong(t.coeff[i] as int, ntt_spec(sp)[i]));
    }
    crate::ntt::lemma_inv_layers_linear(x, st, 1, 2);
    crate::ntt::lemma_inv_fwd_layers(sp, 2);
    assert forall|i: int| 0 <= i < 256 implies cong(#[trigger] r.coeff[i] as int, p.coeff[i] as int) by {
        assert(cong(r.coeff[i] as int, invntt_spec(st)[i] * 169));
        lemma_inv_ntt_ntt_at(sp, st, x, r.coeff[i] as int, i);
    }
}

proof fn lemma_inv_ntt_ntt_at(sp: Seq<int>, st: Seq<int>, x: Seq<int>, rc: int, i: int)
    requires
        0 <= i < 256,
        cong(crate::ntt::inv_layers(st, 2)[i], 1 * crate::ntt::inv_layers(x, 2)[i]),
        cong(crate::ntt::inv_layers(x, 2)[i], (256int / 2) * sp[i]),
        cong(rc, invntt_spec(st)[i] * 169),
    ensures
        cong(rc, sp[i]),
{
    let a = crate::ntt::inv_layers(st, 2)[i];
    let b = crate::ntt::inv_layers(x, 2)[i];
    lemma_cong_ops(a, 1 * b, 1 * b, 128 * sp[i]);
    assert(invntt_spec(st)[i] * 169 == a * (1441 * 169 * 169)) by (nonlinear_arith)
        requires
            invntt_spec(st)[i] == a * 1441 * 169,
    ;
    lemma_cong_ops(a, 128 * sp[i], 1441 * 169 * 169int, 1441 * 169 * 169int);
    assert((128 * sp[i]) * (1441 * 169 * 169) == sp[i] + 3329 * (sp[i] * 1582463)) by (nonlinear_arith);
    crate::utils::lemma_cong_from((128 * sp[i]) * (1441 * 169 * 169), sp[i], sp[i] * 1582463);
    lemma_cong_ops(rc, invntt_spec(st)[i] * 169, invntt_spec(st)[i] * 169, (128 * sp[i]) * (1441 * 169 * 169));
    lemma_cong_ops(rc, (128 * sp[i]) * (1441 * 169 * 169), (128 * sp[i]) * (1441 * 169 * 169), sp[i]);
}

/// Reading the first t products of coefficient m from the other end: the first t
/// products of a and b are the last t products of b and a.
proof fn lemma_conv_lo_rev(a: Seq<int>, b: Seq<int>, m: int, t: int)
    requires
        0 <= t <= m + 1,
    ensures
        conv_lo(a, b, m, t) == conv_lo(b, a, m, m + 1) - conv_lo(b, a, m, m + 1 - t),
    decreases t,
{
    if t > 0 {
        lemma_conv_lo_rev(a, b, m, t - 1);
        assert(conv_lo(b, a, m, m + 1 - (t - 1)) == conv_lo(b, a, m, m + 1 - t) + b[m + 1 - t] * a[m
            - (m + 1 - t)]);
        vstd::arithmetic::mul::lemma_mul_is_commutative(a[t - 1], b[m - (t - 1)]);
    }
}

/// The same for the products that wrap around: the first u of a and b are the last u
/// of b and a.
proof fn lemma_conv_hi_rev(a: Seq<int>, b: Seq<int>, m: int, u: int)
    requires
        0 <= u <= 255 - m,
    ensures
        conv_hi(a, b, m, u) == conv_hi(b, a, m, 255 - m) - conv_hi(b, a, m, 255 - m - u),
    decreases u,
{
    if u > 0 {
        lemma_conv_hi_rev(a, b, m, u - 1);
        let s = 255 - m - u;
        assert(conv_hi(b, a, m, s + 1) == conv_hi(b, a, m, s) + b[256 - (s + 1)] * a[m + (s + 1)]);
        vstd::arithmetic::mul::lemma_mul_is_commutative(a[256 - u], b[m + u]);
    }
}

/// The negacyclic product is commutative: coefficient m of a b is coefficient m of b a,
/// so `slow_mult` gives the same polynomial whichever order its arguments come in.
pub proof fn lemma_negacyclic_comm(a: Seq<int>, b: Seq<int>)
    ensures
        forall|m: int| 0 <= m < 256 ==> #[trigger] negacyclic(a, b, m) == negacyclic(b, a, m),
{
    assert forall|m: int| 0 <= m < 256 implies #[trigger] negacyclic(a, b, m) == negacyclic(b, a, m) by {
        lemma_conv_lo_rev(a, b, m, m + 1);
        lemma_conv_hi_rev(a, b, m, 255 - m);
    }
}

proof fn lemma_vmv_coeff_comm<const k: usize>(v: VecPoly<k>, u: VecPoly<k>, n: int, j: int)
    ensures
        vmv_coeff(v, u, n, j) == vmv_coeff(u, v, n, j),
    decreases n,
{
    if n > 0 {
        lemma_vmv_coeff_comm(v, u, n - 1, j);
        vstd::arithmetic::mul::lemma_mul_is_commutative(
            v.poly[n - 1].coeff[j] as int,
            u.poly[n - 1].coeff[j] as int,
        );
    }
}

/// The inner product is symmetric: `v_mult_v` of v and u and of u and v give the same
/// polynomial, and each can be computed when the other can.
pub proof fn lemma_v_mult_v_comm<const k: usize>(v: VecPoly<k>, u: VecPoly<k>)
    ensures
        forall|j: int| 0 <= j < 256 ==> #[trigger] vmv_coeff(v, u, k as int, j) == vmv_coeff(u, v, k as int, j),
        vmv_ok(v, u) == vmv_ok(u, v),
{
    assert forall|j: int| 0 <= j < 256 implies #[trigger] vmv_coeff(v, u, k as int, j) == vmv_coeff(u, v, k as int, j) by {
        lemma_vmv_coeff_comm(v, u, k as int, j);
    }
    assert forall|i: int, j: int| 0 <= i < k && 0 <= j < 256 implies #[trigger] (v.poly[i].coeff[j] * u.poly[i].coeff[j])
        == u.poly[i].coeff[j] * v.poly[i].coeff[j] by {
        vstd::arithmetic::mul::lemma_mul_is_commutative(v.poly[i].coeff[j] as int, u.poly[i].coeff[j] as int);
    }
    if vmv_ok(v, u) {
        assert forall|i: int| 0 <= i < k implies (#[trigger] u.poly[i]).ntt && v.poly[i].ntt by {
            assert(v.poly[i].ntt && u.poly[i].ntt);
        }
        assert forall|i: int, j: int| 0 <= i < k && 0 <= j < 256 implies montgomery_ok(
            #[trigger] u.poly[i].coeff[j] * v.poly[i].coeff[j],
        ) by {
            assert(montgomery_ok(v.poly[i].coeff[j] * u.poly[i].coeff[j]));
            assert((v.poly[i].coeff[j] * u.poly[i].coeff[j]) == u.poly[i].coeff[j] * v.poly[i].coeff[j]);
        }
    }
    if vmv_ok(u, v) {
        assert forall|i: int| 0 <= i < k implies (#[trigger] v.poly[i]).ntt && u.poly[i].ntt by {
            assert(u.poly[i].ntt && v.poly[i].ntt);
        }
        assert forall|i: int, j: int| 0 <= i < k && 0 <= j < 256 implies montgomery_ok(
            #[trigger] v.poly[i].coeff[j] * u.poly[i].coeff[j],
        ) by {
            assert(montgomery_ok(u.poly[i].coeff[j] * v.poly[i].coeff[j]));
            assert((v.poly[i].coeff[j] * u.poly[i].coeff[j]) == u.poly[i].coeff[j] * v.poly[i].coeff[j]);
        }
    }
}

/// Transforming a polynomial with coefficients in (-q, q), reducing the transform with
/// `c_addq`, and transforming back gives a polynomial congruent to the input, with
/// coefficients in (-q, q/2].
pub proof fn lemma_inv_ntt_caddq_ntt(p: Poly, t: Poly, u: Poly, r: Poly)
    requires
        !p.ntt,
        bounded(ints(p.coeff@), 3328),
        ntt_rel(p, t),
        forall|i: int| 0 <= i < 256 ==> u.coeff[i] == cmod_spec(#[trigger] t.coeff[i] as int, 3329),
        u.ntt == t.ntt,
        inv_ntt_rel(u, r),
    ensures
        t.ntt,
        u.ntt,
        bounded(ints(u.coeff@), 1664),
        !r.ntt,
        forall|i: int| 0 <= i < 256 ==> cong(#[trigger] r.coeff[i] as int, p.coeff[i] as int),
        forall|i: int| 0 <= i < 256 ==> -3329 < #[trigger] r.coeff[i] <= 1664,
{
    let sp = ints(p.coeff@);
    let su = ints(u.coeff@);
    let x = crate::ntt::ntt_layers(sp, 2);
    assert forall|i: int| 0 <= i < 256 implies -1664 <= #[trigger] su[i] <= 1664 && cong(su[i], 1 * x[i]) by {
        lemma_cmod(t.coeff[i] as int, 3329);
        assert(su[i] == u.coeff[i]);
        assert(cong(t.coeff[i] as int, ntt_spec(sp)[i]));
        lemma_cong_ops(su[i], t.coeff[i] as int, t.coeff[i] as int, x[i]);
    }
    assert(bounded(su, 1664));
    crate::ntt::lemma_inv_layers_linear(x, su, 1, 2);
    crate::ntt::lemma_inv_fwd_layers(sp, 2);
    assert forall|i: int| 0 <= i < 256 implies cong(#[trigger] r.coeff[i] as int, p.coeff[i] as int) by {
        assert(cong(r.coeff[i] as int, invntt_spec(su)[i] * 169));
        lemma_inv_ntt_ntt_at(sp, su, x, r.coeff[i] as int, i);
    }
}

/// The sum of |a[i]| for lo <= i < hi.
pub open spec fn abs_sum(a: Seq<int>, lo: int, hi: int) -> int
    decreases hi - lo,
{
    if hi <= lo {
        0
    } else {
        abs_sum(a, lo, hi - 1) + abs(a[hi - 1])
    }
}

proof fn lemma_abs_sum_split(a: Seq<int>, lo: int, mid: int, hi: int)
    requires
        lo <= mid <= hi,
    ensures
        abs_sum(a, lo, hi) == abs_sum(a, lo, mid) + abs_sum(a, mid, hi),
        abs_sum(a, mid, hi) >= 0,
    decreases hi - mid,
{
    if hi > mid {
        lemma_abs_sum_split(a, lo, mid, hi - 1);
    }
}

proof fn lemma_abs_mul(x: int, y: int, b: int)
    requires
        abs(y) <= b,
    ensures
        abs(x * y) <= abs(x) * b,
{
    assert(abs(x * y) <= abs(x) * b) by (nonlinear_arith)
        requires
            abs(y) <= b,
            abs(x) == (if x < 0 { -x } else { x }),
            abs(y) == (if y < 0 { -y } else { y }),
            abs(x * y) == (if x * y < 0 { -(x * y) } else { x * y }),
    ;
}

proof fn lemma_mul_le(s1: int, s2: int, b: int)
    requires
        s1 <= s2,
        b >= 0,
    ensures
        s1 * b <= s2 * b,
{
    assert(s1 * b <= s2 * b) by (nonlinear_arith)
        requires
            s1 <= s2,
            b >= 0,
    ;
}

proof fn lemma_conv_lo_bound(a: Seq<int>, b: Seq<int>, m: int, t: int, bb: int)
    requires
        0 <= t <= m + 1 <= 256,
        forall|j: int| 0 <= j < 256 ==> abs(#[trigger] b[j]) <= bb,
    ensures
        abs(conv_lo(a, b, m, t)) <= abs_sum(a, 0, t) * bb,
    decreases t,
{
    if t > 0 {
        lemma_conv_lo_bound(a, b, m, t - 1, bb);
        lemma_abs_mul(a[t - 1], b[m - (t - 1)], bb);
        assert(abs_sum(a, 0, t) * bb == abs_sum(a, 0, t - 1) * bb + abs(a[t - 1]) * bb) by (nonlinear_arith)
            requires
                abs_sum(a, 0, t) == abs_sum(a, 0, t - 1) + abs(a[t - 1]),
        ;
    }
}

proof fn lemma_conv_hi_bound(a: Seq<int>, b: Seq<int>, m: int, u: int, bb: int)
    requires
        0 <= m,
        0 <= u <= 255 - m,
        forall|j: int| 0 <= j < 256 ==> abs(#[trigger] b[j]) <= bb,
    ensures
        abs(conv_hi(a, b, m, u)) <= abs_sum(a, 256 - u, 256) * bb,
    decreases u,
{
    if u > 0 {
        lemma_conv_hi_bound(a, b, m, u - 1, bb);
        lemma_abs_mul(a[256 - u], b[m + u], bb);
        lemma_abs_sum_split(a, 256 - u, 257 - u, 256);
        assert(abs_sum(a, 256 - u, 256 - u) == 0);
        assert(abs_sum(a, 256 - u, 257 - u) == abs(a[256 - u]));
        assert(abs_sum(a, 256 - u, 256) * bb == abs(a[256 - u]) * bb + abs_sum(a, 256 - (u - 1), 256) * bb)
            by (nonlinear_arith)
            requires
                abs_sum(a, 256 - u, 256) == abs(a[256 - u]) + abs_sum(a, 256 - (u - 1), 256),
        ;
    }
}

/// Every product and partial sum of the schoolbook loops fits 16 bits when the sum of
/// |a[i]| times a bound on |b[j]| does.
proof fn lemma_slow_mult_ok_from_bound(a: Seq<int>, b: Seq<int>, bb: int)
    requires
        forall|j: int| 0 <= j < 256 ==> abs(#[trigger] b[j]) <= bb,
        abs_sum(a, 0, 256) * bb <= 32767,
    ensures
        slow_mult_ok(a, b),
{
    let s = abs_sum(a, 0, 256);
    assert(bb >= 0) by {
        assert(abs(b[0]) <= bb);
    }
    assert forall|i: int, j: int| 0 <= i < 256 && 0 <= j < 256 implies i16::MIN <= #[trigger] (a[i] * b[j])
        <= i16::MAX by {
        lemma_abs_sum_split(a, 0, i, 256);
        lemma_abs_sum_split(a, i, i + 1, 256);
        lemma_abs_sum_split(a, 0, i, i);
        assert(abs_sum(a, i, i + 1) == abs(a[i]));
        assert(abs_sum(a, 0, i) >= 0) by {
            lemma_abs_sum_split(a, 0, 0, i);
        }
        lemma_abs_mul(a[i], b[j], bb);
        lemma_mul_le(abs(a[i]), s, bb);
    }
    assert forall|m: int, t: int| 0 <= m < 256 && 1 <= t <= m + 1 implies i16::MIN <= #[trigger] conv_lo(
        a,
        b,
        m,
        t,
    ) <= i16::MAX by {
        lemma_conv_lo_bound(a, b, m, t, bb);
        lemma_abs_sum_split(a, 0, t, 256);
        lemma_mul_le(abs_sum(a, 0, t), s, bb);
    }
    assert forall|m: int, u: int| 0 <= m < 256 && 1 <= u <= 255 - m implies i16::MIN <= conv_lo(a, b, m, m + 1)
        - #[trigger] conv_hi(a, b, m, u) <= i16::MAX by {
        lemma_conv_lo_bound(a, b, m, m + 1, bb);
        lemma_conv_hi_bound(a, b, m, u, bb);
        lemma_abs_sum_split(a, 0, m + 1, 256);
        lemma_abs_sum_split(a, m + 1, 256 - u, 256);
        lemma_abs_sum_split(a, m + 1, m + 1, 256 - u);
        let s1 = abs_sum(a, 0, m + 1);
        let s2 = abs_sum(a, 256 - u, 256);
        lemma_mul_le(s1 + s2, s, bb);
        assert((s1 + s2) * bb == s1 * bb + s2 * bb) by (nonlinear_arith);
    }
}

/// Schoolbook multiplication is commutative where both orders can be formed: when the sum
/// of |a[i]| times the largest |b[j]|, and the sum of |b[j]| times the largest |a[i]|,
/// are at most 2^15 - 1, `slow_mult` accepts a, b and b, a, and gives the same polynomial.
pub proof fn lemma_slow_mult_comm(a: Seq<int>, b: Seq<int>, ma: int, mb: int)
    requires
        forall|i: int| 0 <= i < 256 ==> abs(#[trigger] a[i]) <= ma,
        forall|j: int| 0 <= j < 256 ==> abs(#[trigger] b[j]) <= mb,
        abs_sum(a, 0, 256) * mb <= 32767,
        abs_sum(b, 0, 256) * ma <= 32767,
    ensures
        slow_mult_ok(a, b),
        slow_mult_ok(b, a),
        forall|m: int| 0 <= m < 256 ==> #[trigger] negacyclic(a, b, m) == negacyclic(b, a, m),
{
    lemma_slow_mult_ok_from_bound(a, b, mb);
    lemma_slow_mult_ok_from_bound(b, a, ma);
    lemma_negacyclic_comm(a, b);
}

} // verus!
