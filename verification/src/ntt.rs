//! The number-theoretic transform over Z_q[X]/(X^256 + 1): seven layers of
//! Cooley-Tukey butterflies forward, Gentleman-Sande butterflies backward.

use vstd::prelude::*;

use crate::utils::{
    barrett, barrett_quot, cong, lemma_cong_from, lemma_cong_ops, lemma_mont_bound,
    lemma_mont_cong, montgomery, montgomery_ok, montgomery_spec,
};

verus! {

/// Powers of the 256th root of unity 17 in bit-reversed order, in Montgomery form
/// (times 2^16 modulo q), centred around 0.
pub const ZETAS: [i16; 128] = [
    -1044, -758, -359, -1517, 1493, 1422, 287, 202, -171, 622, 1577, 182, 962, -1202, -1474, 1468,
    573, -1325, 264, 383, -829, 1458, -1602, -130, -681, 1017, 732, 608, -1542, 411, -205, -1571,
    1223, 652, -552, 1015, -1293, 1491, -282, -1544, 516, -8, -320, -666, -1618, -1162, 126, 1469,
    -853, -90, -271, 830, 107, -1421, -247, -951, -398, 961, -1508, -725, 448, -1065, 677, -1275,
    -1103, 430, 555, 843, -1251, 871, 1550, 105, 422, 587, 177, -235, -291, -460, 1574, 1653, -246,
    778, 1159, -147, -777, 1483, -602, 1119, -1590, 644, -872, 349, 418, 329, -156, -75, 817, 1097,
    603, 610, 1322, -1285, -1465, 384, -1215, -136, 1218, -1335, -874, 220, -1187, -1659, -1185,
    -1530, -1278, 794, -1510, -854, -870, 478, -108, -308, 996, 991, 958, -1460, 1522, 1628,
];

/// The first 256 entries of a sequence of 16-bit integers, as mathematical integers.
pub open spec fn ints(s: Seq<i16>) -> Seq<int> {
    Seq::new(256, |i: int| s[i] as int)
}

/// Every entry of the 256-entry sequence `s` lies in [-b, b].
pub open spec fn bounded(s: Seq<int>, b: int) -> bool {
    forall|i: int| 0 <= i < 256 ==> -b <= #[trigger] s[i] <= b
}

/// The butterfly distances of the transform's layers.
pub open spec fn layer_ok(len: int) -> bool {
    len == 128 || len == 64 || len == 32 || len == 16 || len == 8 || len == 4 || len == 2
}

/// Multiplication followed by Montgomery reduction: a * b * 2^-16 modulo q.
pub fn fqmul(a: i16, b: i16) -> (r: i16)
    requires
        montgomery_ok(a * b),
    ensures
        r == montgomery_spec(a * b),
        cong(r as int, a * b * 169),
{
    assert(-1073741824 <= a * b <= 1073741824) by (nonlinear_arith)
        requires
            -32768 <= a <= 32767,
            -32768 <= b <= 32767,
    ;
    montgomery(a as i32 * b as i32)
}

// ---------------------------------------------------------------------------
// Forward transform
// ---------------------------------------------------------------------------

/// The root (in Montgomery form) of the forward butterfly that covers index `i` in layer `len`.
pub open spec fn fwd_zeta(len: int, i: int) -> int {
    ZETAS[128int / len + i / (2 * len)] as int
}

/// One forward layer as computed: (x, y) -> (x + fqmul(zeta, y), x - fqmul(zeta, y)).
pub open spec fn fwd_layer_exact(s: Seq<int>, len: int) -> Seq<int> {
    Seq::new(
        256,
        |i: int|
            if i % (2 * len) < len {
                s[i] + montgomery_spec(fwd_zeta(len, i) * s[i + len])
            } else {
                s[i - len] - montgomery_spec(fwd_zeta(len, i) * s[i])
            },
    )
}

/// The computed state after the forward layers 128, 64, ..., len.
pub open spec fn ntt_layers_exact(s: Seq<int>, len: int) -> Seq<int>
    decreases 256 - len,
{
    if len > 128 || len < 1 {
        s
    } else {
        fwd_layer_exact(ntt_layers_exact(s, 2 * len), len)
    }
}

/// The value computed by `ntt_`.
pub open spec fn ntt_exact(s: Seq<int>) -> Seq<int> {
    ntt_layers_exact(s, 2)
}

/// One forward layer over Z_q: (x, y) -> (x + z y, x - z y), z the layer's root.
pub open spec fn fwd_layer(s: Seq<int>, len: int) -> Seq<int> {
    Seq::new(
        256,
        |i: int|
            if i % (2 * len) < len {
                s[i] + fwd_zeta(len, i) * 169 * s[i + len]
            } else {
                s[i - len] - fwd_zeta(len, i) * 169 * s[i]
            },
    )
}

/// The forward layers 128, 64, ..., len over Z_q.
pub open spec fn ntt_layers(s: Seq<int>, len: int) -> Seq<int>
    decreases 256 - len,
{
    if len > 128 || len < 1 {
        s
    } else {
        fwd_layer(ntt_layers(s, 2 * len), len)
    }
}

/// The number-theoretic transform over Z_q (bit-reversed output order).
pub open spec fn ntt_spec(s: Seq<int>) -> Seq<int> {
    ntt_layers(s, 2)
}

/// Growth of the coefficients' bound in one forward layer.
pub open spec fn layer_bound(b: int) -> int {
    b + (1659 * b + 109084672) / 65536
}

/// The coefficients' bound after `n` forward layers.
pub open spec fn ntt_bound(b: int, n: nat) -> int
    decreases n,
{
    if n == 0 {
        b
    } else {
        layer_bound(ntt_bound(b, (n - 1) as nat))
    }
}

/// The number of forward layers done once layer `len` is done.
pub open spec fn depth(len: int) -> nat
    decreases 256 - len,
{
    if len > 128 || len < 1 {
        0
    } else {
        1 + depth(2 * len)
    }
}

pub proof fn lemma_zetas_bound(k: int)
    requires
        0 <= k < 128,
    ensures
        -1659 <= ZETAS[k] <= 1659,
{
}

/// Index arithmetic of a layer: the block of `i`, its position in the block and its partner.
pub proof fn lemma_layer_index(len: int, i: int)
    requires
        layer_ok(len),
        0 <= i < 256,
    ensures
        len >= 2,
        (128int / len) * (2 * len) == 256,
        1 <= 128int / len + i / (2 * len) < 128,
        128int / len + i / (2 * len) < 2 * (128int / len),
        (2 * len) * (i / (2 * len)) + i % (2 * len) == i,
        0 <= i % (2 * len) < 2 * len,
        depth(len) == 1 + depth(2 * len),
        1 <= depth(len) <= 7,
        i % (2 * len) < len ==> i + len < 256 && (i + len) / (2 * len) == i / (2 * len) && (i
            + len) % (2 * len) == i % (2 * len) + len,
        i % (2 * len) >= len ==> i - len >= 0 && (i - len) / (2 * len) == i / (2 * len) && (i
            - len) % (2 * len) == i % (2 * len) - len,
{
    reveal_with_fuel(depth, 8);
    if len == 128 {
        assert(2 * len == 256);
        assert(128int / len == 1);
        assert((128int / len) * (2 * len) == 256) by (nonlinear_arith)
            requires
                128int / len == 1,
                2 * len == 256,
        ;
        assert(i / (2 * len) == i / 256);
        vstd::arithmetic::div_mod::lemma_fundamental_div_mod(i, 256);
        vstd::arithmetic::div_mod::lemma_fundamental_div_mod(i + len, 256);
        vstd::arithmetic::div_mod::lemma_fundamental_div_mod(i - len, 256);
    } else if len == 64 {
        assert(2 * len == 128);
        assert(128int / len == 2);
        assert((128int / len) * (2 * len) == 256) by (nonlinear_arith)
            requires
                128int / len == 2,
                2 * len == 128,
        ;
        assert(i / (2 * len) == i / 128);
        vstd::arithmetic::div_mod::lemma_fundamental_div_mod(i, 128);
        vstd::arithmetic::div_mod::lemma_fundamental_div_mod(i + len, 128);
        vstd::arithmetic::div_mod::lemma_fundamental_div_mod(i - len, 128);
    } else if len == 32 {
        assert(2 * len == 64);
        assert(128int / len == 4);
        assert((128int / len) * (2 * len) == 256) by (nonlinear_arith)
            requires
                128int / len == 4,
                2 * len == 64,
        ;
        assert(i / (2 * len) == i / 64);
        vstd::arithmetic::div_mod::lemma_fundamental_div_mod(i, 64);
        vstd::arithmetic::div_mod::lemma_fundamental_div_mod(i + len, 64);
        vstd::arithmetic::div_mod::lemma_fundamental_div_mod(i - len, 64);
    } else if len == 16 {
        assert(2 * len == 32);
        assert(128int / len == 8);
        assert((128int / len) * (2 * len) == 256) by (nonlinear_arith)
            requires
                128int / len == 8,
                2 * len == 32,
        ;
        assert(i / (2 * len) == i / 32);
        vstd::arithmetic::div_mod::lemma_fundamental_div_mod(i, 32);
        vstd::arithmetic::div_mod::lemma_fundamental_div_mod(i + len, 32);
        vstd::arithmetic::div_mod::lemma_fundamental_div_mod(i - len, 32);
    } else if len == 8 {
        assert(2 * len == 16);
        assert(128int / len == 16);
        assert((128int / len) * (2 * len) == 256) by (nonlinear_arith)
            requires
                128int / len == 16,
                2 * len == 16,
        ;
        assert(i / (2 * len) == i / 16);
        vstd::arithmetic::div_mod::lemma_fundamental_div_mod(i, 16);
        vstd::arithmetic::div_mod::lemma_fundamental_div_mod(i + len, 16);
        vstd::arithmetic::div_mod::lemma_fundamental_div_mod(i - len, 16);
    } else if len == 4 {
        assert(2 * len == 8);
        assert(128int / len == 32);
        assert((128int / len) * (2 * len) == 256) by (nonlinear_arith)
            requires
                128int / len == 32,
                2 * len == 8,
        ;
        assert(i / (2 * len) == i / 8);
        vstd::arithmetic::div_mod::lemma_fundamental_div_mod(i, 8);
        vstd::arithmetic::div_mod::lemma_fundamental_div_mod(i + len, 8);
        vstd::arithmetic::div_mod::lemma_fundamental_div_mod(i - len, 8);
    } else if len == 2 {
        assert(2 * len == 4);
        assert(128int / len == 64);
        assert((128int / len) * (2 * len) == 256) by (nonlinear_arith)
            requires
                128int / len == 64,
                2 * len == 4,
        ;
        assert(i / (2 * len) == i / 4);
        vstd::arithmetic::div_mod::lemma_fundamental_div_mod(i, 4);
        vstd::arithmetic::div_mod::lemma_fundamental_div_mod(i + len, 4);
        vstd::arithmetic::div_mod::lemma_fundamental_div_mod(i - len, 4);
    }
}

/// Position of an index inside block `b` of size `m`.
pub proof fn lemma_block(i: int, m: int, b: int)
    requires
        m > 0,
        b >= 0,
        b * m <= i < b * m + m,
    ensures
        i / m == b,
        i % m == i - b * m,
{
    vstd::arithmetic::div_mod::lemma_fundamental_div_mod_converse(i, m, b, i - b * m);
}

/// The bound grows with the input bound.
pub proof fn lemma_ntt_bound_mono(b1: int, b2: int, n: nat)
    requires
        0 <= b1 <= b2,
    ensures
        0 <= ntt_bound(b1, n) <= ntt_bound(b2, n),
        b1 <= ntt_bound(b1, n),
    decreases n,
{
    if n > 0 {
        lemma_ntt_bound_mono(b1, b2, (n - 1) as nat);
        let x1 = ntt_bound(b1, (n - 1) as nat);
        let x2 = ntt_bound(b2, (n - 1) as nat);
        vstd::arithmetic::div_mod::lemma_div_is_ordered(
            1659 * x1 + 109084672,
            1659 * x2 + 109084672,
            65536,
        );
        assert((1659 * x1 + 109084672) / 65536 >= 0) by {
            vstd::arithmetic::div_mod::lemma_div_pos_is_pos(1659 * x1 + 109084672, 65536);
        }
    }
}

/// The bounds after each layer for the largest accepted input: all fit 16 bits.
pub proof fn lemma_ntt_bound_max(b: int, n: nat)
    requires
        0 <= b <= 16954,
        n <= 7,
    ensures
        0 <= ntt_bound(b, n) <= 32766,
        n < 7 ==> ntt_bound(b, n) <= 30334,
{
    lemma_ntt_bound_mono(b, 16954, n);
    assert(ntt_bound(16954, 0) == 16954);
    assert(ntt_bound(16954, 1) == 19047);
    assert(ntt_bound(16954, 2) == 21193);
    assert(ntt_bound(16954, 3) == 23393);
    assert(ntt_bound(16954, 4) == 25649);
    assert(ntt_bound(16954, 5) == 27962);
    assert(ntt_bound(16954, 6) == 30334);
    assert(ntt_bound(16954, 7) == 32766);
}

/// The states between forward layers: before the first layer, and after each.
pub open spec fn level_ok(len: int) -> bool {
    layer_ok(len) || len == 256
}

/// One computed forward layer grows the bound of the coefficients by at most
/// (1659 B + 2^15 q) / 2^16, the largest Montgomery product with a root.
pub proof fn lemma_fwd_layer_exact_bound(s: Seq<int>, len: int, b: int)
    requires
        layer_ok(len),
        0 <= b <= 32767,
        forall|i: int| 0 <= i < 256 ==> -b <= #[trigger] s[i] <= b,
    ensures
        forall|i: int|
            0 <= i < 256 ==> -layer_bound(b) <= #[trigger] fwd_layer_exact(s, len)[i]
                <= layer_bound(b),
{
    assert forall|i: int| 0 <= i < 256 implies -layer_bound(b) <= #[trigger] fwd_layer_exact(
        s,
        len,
    )[i] <= layer_bound(b) by {
        lemma_layer_index(len, i);
        let z = fwd_zeta(len, i);
        lemma_zetas_bound(128int / len + i / (2 * len));
        let p = if i % (2 * len) < len { i + len } else { i };
        let x = s[p];
        assert(-(1659 * b) <= z * x <= 1659 * b) by (nonlinear_arith)
            requires
                -1659 <= z <= 1659,
                -b <= x <= b,
                0 <= b,
        ;
        lemma_mont_bound(z * x, 1659 * b);
    }
}

/// The computed forward layers keep within `ntt_bound` of the input bound.
pub proof fn lemma_ntt_layers_exact_bound(s: Seq<int>, len: int, b: int)
    requires
        level_ok(len),
        0 <= b <= 16954,
        forall|i: int| 0 <= i < 256 ==> -b <= #[trigger] s[i] <= b,
    ensures
        forall|i: int|
            0 <= i < 256 ==> -ntt_bound(b, depth(len)) <= #[trigger] ntt_layers_exact(s, len)[i]
                <= ntt_bound(b, depth(len)),
    decreases 256 - len,
{
    if len == 256 {
        assert(depth(len) == 0);
    } else {
        lemma_layer_index(len, 0);
        lemma_ntt_layers_exact_bound(s, 2 * len, b);
        let d = depth(2 * len);
        lemma_ntt_bound_max(b, d);
        lemma_fwd_layer_exact_bound(ntt_layers_exact(s, 2 * len), len, ntt_bound(b, d));
        assert(ntt_bound(b, depth(len)) == layer_bound(ntt_bound(b, d)));
    }
}

/// A computed forward layer is congruent to the layer over Z_q, on congruent inputs.
pub proof fn lemma_fwd_layer_cong(s: Seq<int>, t: Seq<int>, len: int)
    requires
        layer_ok(len),
        forall|i: int| 0 <= i < 256 ==> cong(#[trigger] s[i], t[i]),
    ensures
        forall|i: int|
            0 <= i < 256 ==> cong(#[trigger] fwd_layer_exact(s, len)[i], fwd_layer(t, len)[i]),
{
    assert forall|i: int| 0 <= i < 256 implies cong(
        #[trigger] fwd_layer_exact(s, len)[i],
        fwd_layer(t, len)[i],
    ) by {
        lemma_layer_index(len, i);
        let z = fwd_zeta(len, i);
        let (p, q) = if i % (2 * len) < len { (i, i + len) } else { (i - len, i) };
        assert(cong(s[p], t[p]));
        assert(cong(s[q], t[q]));
        lemma_mont_cong(z * s[q]);
        assert(cong(montgomery_spec(z * s[q]), z * s[q] * 169));
        lemma_cong_ops(z * 169, z * 169, s[q], t[q]);
        assert(z * s[q] * 169 == (z * 169) * s[q]) by (nonlinear_arith);
        assert(z * 169 * t[q] == (z * 169) * t[q]);
        lemma_cong_ops(montgomery_spec(z * s[q]), z * s[q] * 169, z * s[q] * 169, z * 169 * t[q]);
        let m = montgomery_spec(z * s[q]);
        assert(cong(m, z * 169 * t[q]));
        lemma_cong_ops(s[p], t[p], m, z * 169 * t[q]);
    }
}

/// The computed forward layers are congruent to the layers over Z_q.
pub proof fn lemma_ntt_layers_cong(s: Seq<int>, len: int)
    requires
        level_ok(len),
    ensures
        forall|i: int|
            0 <= i < 256 ==> cong(#[trigger] ntt_layers_exact(s, len)[i], ntt_layers(s, len)[i]),
    decreases 256 - len,
{
    if len == 256 {
        assert forall|i: int| 0 <= i < 256 implies cong(
            #[trigger] ntt_layers_exact(s, len)[i],
            ntt_layers(s, len)[i],
        ) by {
            crate::utils::lemma_cong_from(s[i], s[i], 0);
        }
    } else {
        lemma_layer_index(len, 0);
        lemma_ntt_layers_cong(s, 2 * len);
        lemma_fwd_layer_cong(ntt_layers_exact(s, 2 * len), ntt_layers(s, 2 * len), len);
    }
}

/// Stepping from one butterfly block of a layer to the next.
pub proof fn lemma_block_step(len: int, b: int)
    requires
        layer_ok(len),
        0 <= b,
        2 * len * b < 256,
    ensures
        b < 128int / len,
        2 * len * (b + 1) <= 256,
        2 * len * b + 2 * len == 2 * len * (b + 1),
        1 <= 128int / len + b < 128,
{
    if len == 128 {
        assert(128int / len == 1);
        assert(b < 1 && 2 * len * (b + 1) <= 256 && 2 * len * b + 2 * len == 2 * len * (b + 1))
            by (nonlinear_arith)
            requires
                len == 128,
                2 * len * b < 256,
                b >= 0,
        ;
    } else if len == 64 {
        assert(128int / len == 2);
        assert(b < 2 && 2 * len * (b + 1) <= 256 && 2 * len * b + 2 * len == 2 * len * (b + 1))
            by (nonlinear_arith)
            requires
                len == 64,
                2 * len * b < 256,
                b >= 0,
        ;
    } else if len == 32 {
        assert(128int / len == 4);
        assert(b < 4 && 2 * len * (b + 1) <= 256 && 2 * len * b + 2 * len == 2 * len * (b + 1))
            by (nonlinear_arith)
            requires
                len == 32,
                2 * len * b < 256,
                b >= 0,
        ;
    } else if len == 16 {
        assert(128int / len == 8);
        assert(b < 8 && 2 * len * (b + 1) <= 256 && 2 * len * b + 2 * len == 2 * len * (b + 1))
            by (nonlinear_arith)
            requires
                len == 16,
                2 * len * b < 256,
                b >= 0,
        ;
    } else if len == 8 {
        assert(128int / len == 16);
        assert(b < 16 && 2 * len * (b + 1) <= 256 && 2 * len * b + 2 * len == 2 * len * (b + 1))
            by (nonlinear_arith)
            requires
                len == 8,
                2 * len * b < 256,
                b >= 0,
        ;
    } else if len == 4 {
        assert(128int / len == 32);
        assert(b < 32 && 2 * len * (b + 1) <= 256 && 2 * len * b + 2 * len == 2 * len * (b + 1))
            by (nonlinear_arith)
            requires
                len == 4,
                2 * len * b < 256,
                b >= 0,
        ;
    } else if len == 2 {
        assert(128int / len == 64);
        assert(b < 64 && 2 * len * (b + 1) <= 256 && 2 * len * b + 2 * len == 2 * len * (b + 1))
            by (nonlinear_arith)
            requires
                len == 2,
                2 * len * b < 256,
                b >= 0,
        ;
    }
}

/// The butterfly at index j of block b in a forward layer: the root, both outputs,
/// and the Montgomery product staying in range.
pub proof fn lemma_fwd_butterfly(prev: Seq<int>, len: int, b: int, j: int, zeta: int)
    requires
        layer_ok(len),
        0 <= b,
        2 * len * b <= j < 2 * len * b + len,
        2 * len * b + 2 * len <= 256,
        zeta == ZETAS[128int / len + b],
        1 <= 128int / len + b < 128,
        forall|i: int| 0 <= i < 256 ==> -32767 <= #[trigger] prev[i] <= 32767,
    ensures
        montgomery_ok(zeta * prev[j + len]),
        fwd_layer_exact(prev, len)[j] == prev[j] + montgomery_spec(zeta * prev[j + len]),
        fwd_layer_exact(prev, len)[j + len] == prev[j] - montgomery_spec(zeta * prev[j + len]),
{
    assert(b * (2 * len) == 2 * len * b) by (nonlinear_arith);
    lemma_block(j, 2 * len, b);
    lemma_block(j + len, 2 * len, b);
    assert(fwd_zeta(len, j) == zeta);
    assert(fwd_zeta(len, j + len) == zeta);
    lemma_zetas_bound(128int / len + b);
    let x = prev[j + len];
    assert(-(1659 * 32767) <= zeta * x <= 1659 * 32767) by (nonlinear_arith)
        requires
            -1659 <= zeta <= 1659,
            -32767 <= x <= 32767,
    ;
    lemma_mont_bound(zeta * x, 1659 * 32767int);
}

/// The end of a forward layer: all blocks done, and the root index of the next layer.
pub proof fn lemma_layer_end(len: int, b: int)
    requires
        layer_ok(len),
        2 * len * b == 256,
    ensures
        b == 128int / len,
        128int / len + b == 128int / (len / 2),
        layer_ok(len / 2) || len / 2 == 1,
{
    if len == 128 {
        assert(128int / len == 1);
        assert(len / 2 == 64);
        assert(128int / (len / 2) == 2);
        assert(b == 1) by (nonlinear_arith)
            requires
                len == 128,
                2 * len * b == 256,
        ;
    } else if len == 64 {
        assert(128int / len == 2);
        assert(len / 2 == 32);
        assert(128int / (len / 2) == 4);
        assert(b == 2) by (nonlinear_arith)
            requires
                len == 64,
                2 * len * b == 256,
        ;
    } else if len == 32 {
        assert(128int / len == 4);
        assert(len / 2 == 16);
        assert(128int / (len / 2) == 8);
        assert(b == 4) by (nonlinear_arith)
            requires
                len == 32,
                2 * len * b == 256,
        ;
    } else if len == 16 {
        assert(128int / len == 8);
        assert(len / 2 == 8);
        assert(128int / (len / 2) == 16);
        assert(b == 8) by (nonlinear_arith)
            requires
                len == 16,
                2 * len * b == 256,
        ;
    } else if len == 8 {
        assert(128int / len == 16);
        assert(len / 2 == 4);
        assert(128int / (len / 2) == 32);
        assert(b == 16) by (nonlinear_arith)
            requires
                len == 8,
                2 * len * b == 256,
        ;
    } else if len == 4 {
        assert(128int / len == 32);
        assert(len / 2 == 2);
        assert(128int / (len / 2) == 64);
        assert(b == 32) by (nonlinear_arith)
            requires
                len == 4,
                2 * len * b == 256,
        ;
    } else if len == 2 {
        assert(128int / len == 64);
        assert(len / 2 == 1);
        assert(128int / (len / 2) == 128);
        assert(b == 64) by (nonlinear_arith)
            requires
                len == 2,
                2 * len * b == 256,
        ;
    }
}

// ---------------------------------------------------------------------------
// Inverse transform
// ---------------------------------------------------------------------------

/// Montgomery factor times 2^16 / 128 (the scaling of the inverse transform).
const F: i16 = 1441;

/// The root (in Montgomery form) of the inverse butterfly that covers index `i` in layer `len`.
pub open spec fn inv_zeta(len: int, i: int) -> int {
    ZETAS[256int / len - 1 - i / (2 * len)] as int
}

/// The value computed by `barrett`.
pub open spec fn barrett_spec(a: int) -> int {
    a - barrett_quot(a) * 3329
}

/// One inverse layer as computed: (x, y) -> (barrett(x + y), fqmul(zeta, y - x)).
pub open spec fn inv_layer_exact(s: Seq<int>, len: int) -> Seq<int> {
    Seq::new(
        256,
        |i: int|
            if i % (2 * len) < len {
                barrett_spec(s[i] + s[i + len])
            } else {
                montgomery_spec(inv_zeta(len, i) * (s[i] - s[i - len]))
            },
    )
}

/// The computed inverse layers len, 2 len, ..., 128, in that order.
pub open spec fn inv_layers_exact(s: Seq<int>, len: int) -> Seq<int>
    decreases 256 - len,
{
    if len > 128 || len < 1 {
        s
    } else {
        inv_layers_exact(inv_layer_exact(s, len), 2 * len)
    }
}

/// The value computed by `inv_ntt_`: all inverse layers, then a Montgomery product by F.
pub open spec fn invntt_exact(s: Seq<int>) -> Seq<int> {
    Seq::new(256, |i: int| montgomery_spec(inv_layers_exact(s, 2)[i] * 1441))
}

/// One inverse layer over Z_q: (x, y) -> (x + y, z (y - x)), z the layer's root.
pub open spec fn inv_layer(s: Seq<int>, len: int) -> Seq<int> {
    Seq::new(
        256,
        |i: int|
            if i % (2 * len) < len {
                s[i] + s[i + len]
            } else {
                inv_zeta(len, i) * 169 * (s[i] - s[i - len])
            },
    )
}

/// The inverse layers len, 2 len, ..., 128 over Z_q.
pub open spec fn inv_layers(s: Seq<int>, len: int) -> Seq<int>
    decreases 256 - len,
{
    if len > 128 || len < 1 {
        s
    } else {
        inv_layers(inv_layer(s, len), 2 * len)
    }
}

/// The inverse transform over Z_q, times the Montgomery factor 2^16.
pub open spec fn invntt_spec(s: Seq<int>) -> Seq<int> {
    Seq::new(256, |i: int| inv_layers(s, 2)[i] * 1441 * 169)
}

/// The root indices of the inverse layer.
pub proof fn lemma_inv_index(len: int, i: int)
    requires
        layer_ok(len),
        0 <= i < 256,
    ensures
        0 <= 256int / len - 1 - i / (2 * len) < 128,
        256int / len - 1 - i / (2 * len) >= 128int / len,
        256int / len == 2 * (128int / len),
{
    lemma_layer_index(len, i);
    if len == 128 {
    } else if len == 64 {
    } else if len == 32 {
    } else if len == 16 {
    } else if len == 8 {
    } else if len == 4 {
    } else {
    }
}

/// A computed inverse layer keeps its outputs below q when its inputs are at most 15812.
pub proof fn lemma_inv_layer_exact_bound(s: Seq<int>, len: int, b: int)
    requires
        layer_ok(len),
        0 <= b <= 15812,
        bounded(s, b),
    ensures
        bounded(inv_layer_exact(s, len), 3328),
{
    assert forall|i: int| 0 <= i < 256 implies -3328 <= #[trigger] inv_layer_exact(s, len)[i]
        <= 3328 by {
        lemma_layer_index(len, i);
        lemma_inv_index(len, i);
        if i % (2 * len) < len {
            let a = s[i] + s[i + len];
            lemma_barrett_spec(a);
        } else {
            let z = inv_zeta(len, i);
            lemma_zetas_bound(256int / len - 1 - i / (2 * len));
            let d = s[i] - s[i - len];
            assert(-(1659 * 31624) <= z * d <= 1659 * 31624) by (nonlinear_arith)
                requires
                    -1659 <= z <= 1659,
                    -31624 <= d <= 31624,
            ;
            lemma_mont_bound(z * d, 1659 * 31624int);
        }
    }
}

/// Barrett's value on its domain.
pub proof fn lemma_barrett_spec(a: int)
    requires
        -31625 <= a <= 31625,
    ensures
        -1664 <= barrett_spec(a) <= 1664,
        cong(barrett_spec(a), a),
{
    let tq = barrett_quot(a);
    vstd::arithmetic::div_mod::lemma_fundamental_div_mod(20159 * a + 33554432, 67108864);
    assert(tq * 67108864 <= 20159 * a + 33554432 < tq * 67108864 + 67108864);
    lemma_cong_from(barrett_spec(a), a, -tq);
}

/// A computed inverse layer is congruent to the layer over Z_q, on congruent inputs.
pub proof fn lemma_inv_layer_cong(s: Seq<int>, t: Seq<int>, len: int)
    requires
        layer_ok(len),
        forall|i: int| 0 <= i < 256 ==> cong(#[trigger] s[i], t[i]),
    ensures
        forall|i: int|
            0 <= i < 256 ==> cong(#[trigger] inv_layer_exact(s, len)[i], inv_layer(t, len)[i]),
{
    assert forall|i: int| 0 <= i < 256 implies cong(
        #[trigger] inv_layer_exact(s, len)[i],
        inv_layer(t, len)[i],
    ) by {
        lemma_layer_index(len, i);
        let (p, q) = if i % (2 * len) < len { (i, i + len) } else { (i - len, i) };
        assert(cong(s[p], t[p]));
        assert(cong(s[q], t[q]));
        if i % (2 * len) < len {
            let a = s[p] + s[q];
            lemma_cong_from(barrett_spec(a), a, -barrett_quot(a));
            lemma_cong_ops(s[p], t[p], s[q], t[q]);
            lemma_cong_ops(barrett_spec(a), a, a, t[p] + t[q]);
        } else {
            let z = inv_zeta(len, i);
            let d = s[q] - s[p];
            lemma_mont_cong(z * d);
            lemma_cong_ops(s[q], t[q], s[p], t[p]);
            lemma_cong_ops(z * 169, z * 169, d, t[q] - t[p]);
            assert(z * d * 169 == (z * 169) * d) by (nonlinear_arith);
            lemma_cong_ops(
                montgomery_spec(z * d),
                z * d * 169,
                z * d * 169,
                z * 169 * (t[q] - t[p]),
            );
        }
    }
}

/// The computed inverse layers are congruent to the layers over Z_q, on congruent inputs.
pub proof fn lemma_inv_layers_cong(s: Seq<int>, t: Seq<int>, len: int)
    requires
        level_ok(len),
        forall|i: int| 0 <= i < 256 ==> cong(#[trigger] s[i], t[i]),
    ensures
        forall|i: int|
            0 <= i < 256 ==> cong(#[trigger] inv_layers_exact(s, len)[i], inv_layers(t, len)[i]),
    decreases 256 - len,
{
    if len < 256 {
        lemma_layer_index(len, 0);
        lemma_inv_layer_cong(s, t, len);
        lemma_inv_layers_cong(inv_layer_exact(s, len), inv_layer(t, len), 2 * len);
        assert forall|i: int| 0 <= i < 256 implies cong(
            #[trigger] inv_layers_exact(s, len)[i],
            inv_layers(t, len)[i],
        ) by {
            assert(inv_layers_exact(s, len) == inv_layers_exact(inv_layer_exact(s, len), 2 * len));
            assert(inv_layers(t, len) == inv_layers(inv_layer(t, len), 2 * len));
        }
    } else {
        assert forall|i: int| 0 <= i < 256 implies cong(
            #[trigger] inv_layers_exact(s, len)[i],
            inv_layers(t, len)[i],
        ) by {
            assert(cong(s[i], t[i]));
        }
    }
}

/// The inverse layers over Z_q are linear: scaling the input by c scales the output by c.
pub proof fn lemma_inv_layers_linear(x: Seq<int>, y: Seq<int>, c: int, len: int)
    requires
        level_ok(len),
        forall|i: int| 0 <= i < 256 ==> cong(#[trigger] y[i], c * x[i]),
    ensures
        forall|i: int| 0 <= i < 256 ==> cong(#[trigger] inv_layers(y, len)[i], c * inv_layers(x, len)[i]),
    decreases 256 - len,
{
    if len < 256 {
        lemma_layer_index(len, 0);
        assert forall|i: int| 0 <= i < 256 implies cong(
            #[trigger] inv_layer(y, len)[i],
            c * inv_layer(x, len)[i],
        ) by {
            lemma_layer_index(len, i);
            let (p, q) = if i % (2 * len) < len { (i, i + len) } else { (i - len, i) };
            assert(cong(y[p], c * x[p]));
            assert(cong(y[q], c * x[q]));
            if i % (2 * len) < len {
                lemma_cong_ops(y[p], c * x[p], y[q], c * x[q]);
                assert(c * x[p] + c * x[q] == c * (x[p] + x[q])) by (nonlinear_arith);
            } else {
                let z = inv_zeta(len, i) * 169;
                lemma_cong_ops(y[q], c * x[q], y[p], c * x[p]);
                lemma_cong_ops(z, z, y[q] - y[p], c * x[q] - c * x[p]);
                assert(z * (c * x[q] - c * x[p]) == c * (z * (x[q] - x[p]))) by (nonlinear_arith);
            }
        }
        lemma_inv_layers_linear(inv_layer(x, len), inv_layer(y, len), c, 2 * len);
        assert forall|i: int| 0 <= i < 256 implies cong(
            #[trigger] inv_layers(y, len)[i],
            c * inv_layers(x, len)[i],
        ) by {
            assert(inv_layers(y, len) == inv_layers(inv_layer(y, len), 2 * len));
            assert(inv_layers(x, len) == inv_layers(inv_layer(x, len), 2 * len));
        }
    } else {
        assert forall|i: int| 0 <= i < 256 implies cong(
            #[trigger] inv_layers(y, len)[i],
            c * inv_layers(x, len)[i],
        ) by {
            assert(cong(y[i], c * x[i]));
        }
    }
}

/// The forward and inverse roots of each block are each other's negated inverses modulo q.
pub open spec fn zeta_pairs_ok(m: int, b: int) -> bool
    decreases m - b,
{
    if b >= m || b < 0 {
        true
    } else {
        (ZETAS[m + b] * ZETAS[2 * m - 1 - b] * 28561 + 1) % 3329 == 0 && zeta_pairs_ok(m, b + 1)
    }
}

proof fn lemma_zeta_pairs_from(m: int, b0: int, b: int)
    requires
        0 <= b0 <= b < m,
        zeta_pairs_ok(m, b0),
    ensures
        (ZETAS[m + b] * ZETAS[2 * m - 1 - b] * 28561 + 1) % 3329 == 0,
    decreases b - b0,
{
    if b0 < b {
        lemma_zeta_pairs_from(m, b0 + 1, b);
    }
}

/// The root pairs of every layer, checked on the table.
proof fn lemma_zeta_pairs_all()
    ensures
        zeta_pairs_ok(1, 0),
        zeta_pairs_ok(2, 0),
        zeta_pairs_ok(4, 0),
        zeta_pairs_ok(8, 0),
        zeta_pairs_ok(16, 0),
        zeta_pairs_ok(32, 0),
        zeta_pairs_ok(64, 0),
{
    assert(ZETAS[1] * ZETAS[1] == 574564) by (nonlinear_arith)
        requires
            ZETAS[1] == -758,
            ZETAS[1] == -758,
    ;
    assert(ZETAS[2] * ZETAS[3] == 544603) by (nonlinear_arith)
        requires
            ZETAS[2] == -359,
            ZETAS[3] == -1517,
    ;
    assert(ZETAS[3] * ZETAS[2] == 544603) by (nonlinear_arith)
        requires
            ZETAS[3] == -1517,
            ZETAS[2] == -359,
    ;
    assert(ZETAS[4] * ZETAS[7] == 301586) by (nonlinear_arith)
        requires
            ZETAS[4] == 1493,
            ZETAS[7] == 202,
    ;
    assert(ZETAS[5] * ZETAS[6] == 408114) by (nonlinear_arith)
        requires
            ZETAS[5] == 1422,
            ZETAS[6] == 287,
    ;
    assert(ZETAS[6] * ZETAS[5] == 408114) by (nonlinear_arith)
        requires
            ZETAS[6] == 287,
            ZETAS[5] == 1422,
    ;
    assert(ZETAS[7] * ZETAS[4] == 301586) by (nonlinear_arith)
        requires
            ZETAS[7] == 202,
            ZETAS[4] == 1493,
    ;
    assert(ZETAS[8] * ZETAS[15] == -251028) by (nonlinear_arith)
        requires
            ZETAS[8] == -171,
            ZETAS[15] == 1468,
    ;
    assert(ZETAS[9] * ZETAS[14] == -916828) by (nonlinear_arith)
        requires
            ZETAS[9] == 622,
            ZETAS[14] == -1474,
    ;
    assert(ZETAS[10] * ZETAS[13] == -1895554) by (nonlinear_arith)
        requires
            ZETAS[10] == 1577,
            ZETAS[13] == -1202,
    ;
    assert(ZETAS[11] * ZETAS[12] == 175084) by (nonlinear_arith)
        requires
            ZETAS[11] == 182,
            ZETAS[12] == 962,
    ;
    assert(ZETAS[12] * ZETAS[11] == 175084) by (nonlinear_arith)
        requires
            ZETAS[12] == 962,
            ZETAS[11] == 182,
    ;
    assert(ZETAS[13] * ZETAS[10] == -1895554) by (nonlinear_arith)
        requires
            ZETAS[13] == -1202,
            ZETAS[10] == 1577,
    ;
    assert(ZETAS[14] * ZETAS[9] == -916828) by (nonlinear_arith)
        requires
            ZETAS[14] == -1474,
            ZETAS[9] == 622,
    ;
    assert(ZETAS[15] * ZETAS[8] == -251028) by (nonlinear_arith)
        requires
            ZETAS[15] == 1468,
            ZETAS[8] == -171,
    ;
    assert(ZETAS[16] * ZETAS[31] == -900183) by (nonlinear_arith)
        requires
            ZETAS[16] == 573,
            ZETAS[31] == -1571,
    ;
    assert(ZETAS[17] * ZETAS[30] == 271625) by (nonlinear_arith)
        requires
            ZETAS[17] == -1325,
            ZETAS[30] == -205,
    ;
    assert(ZETAS[18] * ZETAS[29] == 108504) by (nonlinear_arith)
        requires
            ZETAS[18] == 264,
            ZETAS[29] == 411,
    ;
    assert(ZETAS[19] * ZETAS[28] == -590586) by (nonlinear_arith)
        requires
            ZETAS[19] == 383,
            ZETAS[28] == -1542,
    ;
    assert(ZETAS[20] * ZETAS[27] == -504032) by (nonlinear_arith)
        requires
            ZETAS[20] == -829,
            ZETAS[27] == 608,
    ;
    assert(ZETAS[21] * ZETAS[26] == 1067256) by (nonlinear_arith)
        requires
            ZETAS[21] == 1458,
            ZETAS[26] == 732,
    ;
    assert(ZETAS[22] * ZETAS[25] == -1629234) by (nonlinear_arith)
        requires
            ZETAS[22] == -1602,
            ZETAS[25] == 1017,
    ;
    assert(ZETAS[23] * ZETAS[24] == 88530) by (nonlinear_arith)
        requires
            ZETAS[23] == -130,
            ZETAS[24] == -681,
    ;
    assert(ZETAS[24] * ZETAS[23] == 88530) by (nonlinear_arith)
        requires
            ZETAS[24] == -681,
            ZETAS[23] == -130,
    ;
    assert(ZETAS[25] * ZETAS[22] == -1629234) by (nonlinear_arith)
        requires
            ZETAS[25] == 1017,
            ZETAS[22] == -1602,
    ;
    assert(ZETAS[26] * ZETAS[21] == 1067256) by (nonlinear_arith)
        requires
            ZETAS[26] == 732,
            ZETAS[21] == 1458,
    ;
    assert(ZETAS[27] * ZETAS[20] == -504032) by (nonlinear_arith)
        requires
            ZETAS[27] == 608,
            ZETAS[20] == -829,
    ;
    assert(ZETAS[28] * ZETAS[19] == -590586) by (nonlinear_arith)
        requires
            ZETAS[28] == -1542,
            ZETAS[19] == 383,
    ;
    assert(ZETAS[29] * ZETAS[18] == 108504) by (nonlinear_arith)
        requires
            ZETAS[29] == 411,
            ZETAS[18] == 264,
    ;
    assert(ZETAS[30] * ZETAS[17] == 271625) by (nonlinear_arith)
        requires
            ZETAS[30] == -205,
            ZETAS[17] == -1325,
    ;
    assert(ZETAS[31] * ZETAS[16] == -900183) by (nonlinear_arith)
        requires
            ZETAS[31] == -1571,
            ZETAS[16] == 573,
    ;
    assert(ZETAS[32] * ZETAS[63] == -1559325) by (nonlinear_arith)
        requires
            ZETAS[32] == 1223,
            ZETAS[63] == -1275,
    ;
    assert(ZETAS[33] * ZETAS[62] == 441404) by (nonlinear_arith)
        requires
            ZETAS[33] == 652,
            ZETAS[62] == 677,
    ;
    assert(ZETAS[34] * ZETAS[61] == 587880) by (nonlinear_arith)
        requires
            ZETAS[34] == -552,
            ZETAS[61] == -1065,
    ;
    assert(ZETAS[35] * ZETAS[60] == 454720) by (nonlinear_arith)
        requires
            ZETAS[35] == 1015,
            ZETAS[60] == 448,
    ;
    assert(ZETAS[36] * ZETAS[59] == 937425) by (nonlinear_arith)
        requires
            ZETAS[36] == -1293,
            ZETAS[59] == -725,
    ;
    assert(ZETAS[37] * ZETAS[58] == -2248428) by (nonlinear_arith)
        requires
            ZETAS[37] == 1491,
            ZETAS[58] == -1508,
    ;
    assert(ZETAS[38] * ZETAS[57] == -271002) by (nonlinear_arith)
        requires
            ZETAS[38] == -282,
            ZETAS[57] == 961,
    ;
    assert(ZETAS[39] * ZETAS[56] == 614512) by (nonlinear_arith)
        requires
            ZETAS[39] == -1544,
            ZETAS[56] == -398,
    ;
    assert(ZETAS[40] * ZETAS[55] == -490716) by (nonlinear_arith)
        requires
            ZETAS[40] == 516,
            ZETAS[55] == -951,
    ;
    assert(ZETAS[41] * ZETAS[54] == 1976) by (nonlinear_arith)
        requires
            ZETAS[41] == -8,
            ZETAS[54] == -247,
    ;
    assert(ZETAS[42] * ZETAS[53] == 454720) by (nonlinear_arith)
        requires
            ZETAS[42] == -320,
            ZETAS[53] == -1421,
    ;
    assert(ZETAS[43] * ZETAS[52] == -71262) by (nonlinear_arith)
        requires
            ZETAS[43] == -666,
            ZETAS[52] == 107,
    ;
    assert(ZETAS[44] * ZETAS[51] == -1342940) by (nonlinear_arith)
        requires
            ZETAS[44] == -1618,
            ZETAS[51] == 830,
    ;
    assert(ZETAS[45] * ZETAS[50] == 314902) by (nonlinear_arith)
        requires
            ZETAS[45] == -1162,
            ZETAS[50] == -271,
    ;
    assert(ZETAS[46] * ZETAS[49] == -11340) by (nonlinear_arith)
        requires
            ZETAS[46] == 126,
            ZETAS[49] == -90,
    ;
    assert(ZETAS[47] * ZETAS[48] == -1253057) by (nonlinear_arith)
        requires
            ZETAS[47] == 1469,
            ZETAS[48] == -853,
    ;
    assert(ZETAS[48] * ZETAS[47] == -1253057) by (nonlinear_arith)
        requires
            ZETAS[48] == -853,
            ZETAS[47] == 1469,
    ;
    assert(ZETAS[49] * ZETAS[46] == -11340) by (nonlinear_arith)
        requires
            ZETAS[49] == -90,
            ZETAS[46] == 126,
    ;
    assert(ZETAS[50] * ZETAS[45] == 314902) by (nonlinear_arith)
        requires
            ZETAS[50] == -271,
            ZETAS[45] == -1162,
    ;
    assert(ZETAS[51] * ZETAS[44] == -1342940) by (nonlinear_arith)
        requires
            ZETAS[51] == 830,
            ZETAS[44] == -1618,
    ;
    assert(ZETAS[52] * ZETAS[43] == -71262) by (nonlinear_arith)
        requires
            ZETAS[52] == 107,
            ZETAS[43] == -666,
    ;
    assert(ZETAS[53] * ZETAS[42] == 454720) by (nonlinear_arith)
        requires
            ZETAS[53] == -1421,
            ZETAS[42] == -320,
    ;
    assert(ZETAS[54] * ZETAS[41] == 1976) by (nonlinear_arith)
        requires
            ZETAS[54] == -247,
            ZETAS[41] == -8,
    ;
    assert(ZETAS[55] * ZETAS[40] == -490716) by (nonlinear_arith)
        requires
            ZETAS[55] == -951,
            ZETAS[40] == 516,
    ;
    assert(ZETAS[56] * ZETAS[39] == 614512) by (nonlinear_arith)
        requires
            ZETAS[56] == -398,
            ZETAS[39] == -1544,
    ;
    assert(ZETAS[57] * ZETAS[38] == -271002) by (nonlinear_arith)
        requires
            ZETAS[57] == 961,
            ZETAS[38] == -282,
    ;
    assert(ZETAS[58] * ZETAS[37] == -2248428) by (nonlinear_arith)
        requires
            ZETAS[58] == -1508,
            ZETAS[37] == 1491,
    ;
    assert(ZETAS[59] * ZETAS[36] == 937425) by (nonlinear_arith)
        requires
            ZETAS[59] == -725,
            ZETAS[36] == -1293,
    ;
    assert(ZETAS[60] * ZETAS[35] == 454720) by (nonlinear_arith)
        requires
            ZETAS[60] == 448,
            ZETAS[35] == 1015,
    ;
    assert(ZETAS[61] * ZETAS[34] == 587880) by (nonlinear_arith)
        requires
            ZETAS[61] == -1065,
            ZETAS[34] == -552,
    ;
    assert(ZETAS[62] * ZETAS[33] == 441404) by (nonlinear_arith)
        requires
            ZETAS[62] == 677,
            ZETAS[33] == 652,
    ;
    assert(ZETAS[63] * ZETAS[32] == -1559325) by (nonlinear_arith)
        requires
            ZETAS[63] == -1275,
            ZETAS[32] == 1223,
    ;
    assert(ZETAS[64] * ZETAS[127] == -1795684) by (nonlinear_arith)
        requires
            ZETAS[64] == -1103,
            ZETAS[127] == 1628,
    ;
    assert(ZETAS[65] * ZETAS[126] == 654460) by (nonlinear_arith)
        requires
            ZETAS[65] == 430,
            ZETAS[126] == 1522,
    ;
    assert(ZETAS[66] * ZETAS[125] == -810300) by (nonlinear_arith)
        requires
            ZETAS[66] == 555,
            ZETAS[125] == -1460,
    ;
    assert(ZETAS[67] * ZETAS[124] == 807594) by (nonlinear_arith)
        requires
            ZETAS[67] == 843,
            ZETAS[124] == 958,
    ;
    assert(ZETAS[68] * ZETAS[123] == -1239741) by (nonlinear_arith)
        requires
            ZETAS[68] == -1251,
            ZETAS[123] == 991,
    ;
    assert(ZETAS[69] * ZETAS[122] == 867516) by (nonlinear_arith)
        requires
            ZETAS[69] == 871,
            ZETAS[122] == 996,
    ;
    assert(ZETAS[70] * ZETAS[121] == -477400) by (nonlinear_arith)
        requires
            ZETAS[70] == 1550,
            ZETAS[121] == -308,
    ;
    assert(ZETAS[71] * ZETAS[120] == -11340) by (nonlinear_arith)
        requires
            ZETAS[71] == 105,
            ZETAS[120] == -108,
    ;
    assert(ZETAS[72] * ZETAS[119] == 201716) by (nonlinear_arith)
        requires
            ZETAS[72] == 422,
            ZETAS[119] == 478,
    ;
    assert(ZETAS[73] * ZETAS[118] == -510690) by (nonlinear_arith)
        requires
            ZETAS[73] == 587,
            ZETAS[118] == -870,
    ;
    assert(ZETAS[74] * ZETAS[117] == -151158) by (nonlinear_arith)
        requires
            ZETAS[74] == 177,
            ZETAS[117] == -854,
    ;
    assert(ZETAS[75] * ZETAS[116] == 354850) by (nonlinear_arith)
        requires
            ZETAS[75] == -235,
            ZETAS[116] == -1510,
    ;
    assert(ZETAS[76] * ZETAS[115] == -231054) by (nonlinear_arith)
        requires
            ZETAS[76] == -291,
            ZETAS[115] == 794,
    ;
    assert(ZETAS[77] * ZETAS[114] == 587880) by (nonlinear_arith)
        requires
            ZETAS[77] == -460,
            ZETAS[114] == -1278,
    ;
    assert(ZETAS[78] * ZETAS[113] == -2408220) by (nonlinear_arith)
        requires
            ZETAS[78] == 1574,
            ZETAS[113] == -1530,
    ;
    assert(ZETAS[79] * ZETAS[112] == -1958805) by (nonlinear_arith)
        requires
            ZETAS[79] == 1653,
            ZETAS[112] == -1185,
    ;
    assert(ZETAS[80] * ZETAS[111] == 408114) by (nonlinear_arith)
        requires
            ZETAS[80] == -246,
            ZETAS[111] == -1659,
    ;
    assert(ZETAS[81] * ZETAS[110] == -923486) by (nonlinear_arith)
        requires
            ZETAS[81] == 778,
            ZETAS[110] == -1187,
    ;
    assert(ZETAS[82] * ZETAS[109] == 254980) by (nonlinear_arith)
        requires
            ZETAS[82] == 1159,
            ZETAS[109] == 220,
    ;
    assert(ZETAS[83] * ZETAS[108] == 128478) by (nonlinear_arith)
        requires
            ZETAS[83] == -147,
            ZETAS[108] == -874,
    ;
    assert(ZETAS[84] * ZETAS[107] == 1037295) by (nonlinear_arith)
        requires
            ZETAS[84] == -777,
            ZETAS[107] == -1335,
    ;
    assert(ZETAS[85] * ZETAS[106] == 1806294) by (nonlinear_arith)
        requires
            ZETAS[85] == 1483,
            ZETAS[106] == 1218,
    ;
    assert(ZETAS[86] * ZETAS[105] == 81872) by (nonlinear_arith)
        requires
            ZETAS[86] == -602,
            ZETAS[105] == -136,
    ;
    assert(ZETAS[87] * ZETAS[104] == -1359585) by (nonlinear_arith)
        requires
            ZETAS[87] == 1119,
            ZETAS[104] == -1215,
    ;
    assert(ZETAS[88] * ZETAS[103] == -610560) by (nonlinear_arith)
        requires
            ZETAS[88] == -1590,
            ZETAS[103] == 384,
    ;
    assert(ZETAS[89] * ZETAS[102] == -943460) by (nonlinear_arith)
        requires
            ZETAS[89] == 644,
            ZETAS[102] == -1465,
    ;
    assert(ZETAS[90] * ZETAS[101] == 1120520) by (nonlinear_arith)
        requires
            ZETAS[90] == -872,
            ZETAS[101] == -1285,
    ;
    assert(ZETAS[91] * ZETAS[100] == 461378) by (nonlinear_arith)
        requires
            ZETAS[91] == 349,
            ZETAS[100] == 1322,
    ;
    assert(ZETAS[92] * ZETAS[99] == 254980) by (nonlinear_arith)
        requires
            ZETAS[92] == 418,
            ZETAS[99] == 610,
    ;
    assert(ZETAS[93] * ZETAS[98] == 198387) by (nonlinear_arith)
        requires
            ZETAS[93] == 329,
            ZETAS[98] == 603,
    ;
    assert(ZETAS[94] * ZETAS[97] == -171132) by (nonlinear_arith)
        requires
            ZETAS[94] == -156,
            ZETAS[97] == 1097,
    ;
    assert(ZETAS[95] * ZETAS[96] == -61275) by (nonlinear_arith)
        requires
            ZETAS[95] == -75,
            ZETAS[96] == 817,
    ;
    assert(ZETAS[96] * ZETAS[95] == -61275) by (nonlinear_arith)
        requires
            ZETAS[96] == 817,
            ZETAS[95] == -75,
    ;
    assert(ZETAS[97] * ZETAS[94] == -171132) by (nonlinear_arith)
        requires
            ZETAS[97] == 1097,
            ZETAS[94] == -156,
    ;
    assert(ZETAS[98] * ZETAS[93] == 198387) by (nonlinear_arith)
        requires
            ZETAS[98] == 603,
            ZETAS[93] == 329,
    ;
    assert(ZETAS[99] * ZETAS[92] == 254980) by (nonlinear_arith)
        requires
            ZETAS[99] == 610,
            ZETAS[92] == 418,
    ;
    assert(ZETAS[100] * ZETAS[91] == 461378) by (nonlinear_arith)
        requires
            ZETAS[100] == 1322,
            ZETAS[91] == 349,
    ;
    assert(ZETAS[101] * ZETAS[90] == 1120520) by (nonlinear_arith)
        requires
            ZETAS[101] == -1285,
            ZETAS[90] == -872,
    ;
    assert(ZETAS[102] * ZETAS[89] == -943460) by (nonlinear_arith)
        requires
            ZETAS[102] == -1465,
            ZETAS[89] == 644,
    ;
    assert(ZETAS[103] * ZETAS[88] == -610560) by (nonlinear_arith)
        requires
            ZETAS[103] == 384,
            ZETAS[88] == -1590,
    ;
    assert(ZETAS[104] * ZETAS[87] == -1359585) by (nonlinear_arith)
        requires
            ZETAS[104] == -1215,
            ZETAS[87] == 1119,
    ;
    assert(ZETAS[105] * ZETAS[86] == 81872) by (nonlinear_arith)
        requires
            ZETAS[105] == -136,
            ZETAS[86] == -602,
    ;
    assert(ZETAS[106] * ZETAS[85] == 1806294) by (nonlinear_arith)
        requires
            ZETAS[106] == 1218,
            ZETAS[85] == 1483,
    ;
    assert(ZETAS[107] * ZETAS[84] == 1037295) by (nonlinear_arith)
        requires
            ZETAS[107] == -1335,
            ZETAS[84] == -777,
    ;
    assert(ZETAS[108] * ZETAS[83] == 128478) by (nonlinear_arith)
        requires
            ZETAS[108] == -874,
            ZETAS[83] == -147,
    ;
    assert(ZETAS[109] * ZETAS[82] == 254980) by (nonlinear_arith)
        requires
            ZETAS[109] == 220,
            ZETAS[82] == 1159,
    ;
    assert(ZETAS[110] * ZETAS[81] == -923486) by (nonlinear_arith)
        requires
            ZETAS[110] == -1187,
            ZETAS[81] == 778,
    ;
    assert(ZETAS[111] * ZETAS[80] == 408114) by (nonlinear_arith)
        requires
            ZETAS[111] == -1659,
            ZETAS[80] == -246,
    ;
    assert(ZETAS[112] * ZETAS[79] == -1958805) by (nonlinear_arith)
        requires
            ZETAS[112] == -1185,
            ZETAS[79] == 1653,
    ;
    assert(ZETAS[113] * ZETAS[78] == -2408220) by (nonlinear_arith)
        requires
            ZETAS[113] == -1530,
            ZETAS[78] == 1574,
    ;
    assert(ZETAS[114] * ZETAS[77] == 587880) by (nonlinear_arith)
        requires
            ZETAS[114] == -1278,
            ZETAS[77] == -460,
    ;
    assert(ZETAS[115] * ZETAS[76] == -231054) by (nonlinear_arith)
        requires
            ZETAS[115] == 794,
            ZETAS[76] == -291,
    ;
    assert(ZETAS[116] * ZETAS[75] == 354850) by (nonlinear_arith)
        requires
            ZETAS[116] == -1510,
            ZETAS[75] == -235,
    ;
    assert(ZETAS[117] * ZETAS[74] == -151158) by (nonlinear_arith)
        requires
            ZETAS[117] == -854,
            ZETAS[74] == 177,
    ;
    assert(ZETAS[118] * ZETAS[73] == -510690) by (nonlinear_arith)
        requires
            ZETAS[118] == -870,
            ZETAS[73] == 587,
    ;
    assert(ZETAS[119] * ZETAS[72] == 201716) by (nonlinear_arith)
        requires
            ZETAS[119] == 478,
            ZETAS[72] == 422,
    ;
    assert(ZETAS[120] * ZETAS[71] == -11340) by (nonlinear_arith)
        requires
            ZETAS[120] == -108,
            ZETAS[71] == 105,
    ;
    assert(ZETAS[121] * ZETAS[70] == -477400) by (nonlinear_arith)
        requires
            ZETAS[121] == -308,
            ZETAS[70] == 1550,
    ;
    assert(ZETAS[122] * ZETAS[69] == 867516) by (nonlinear_arith)
        requires
            ZETAS[122] == 996,
            ZETAS[69] == 871,
    ;
    assert(ZETAS[123] * ZETAS[68] == -1239741) by (nonlinear_arith)
        requires
            ZETAS[123] == 991,
            ZETAS[68] == -1251,
    ;
    assert(ZETAS[124] * ZETAS[67] == 807594) by (nonlinear_arith)
        requires
            ZETAS[124] == 958,
            ZETAS[67] == 843,
    ;
    assert(ZETAS[125] * ZETAS[66] == -810300) by (nonlinear_arith)
        requires
            ZETAS[125] == -1460,
            ZETAS[66] == 555,
    ;
    assert(ZETAS[126] * ZETAS[65] == 654460) by (nonlinear_arith)
        requires
            ZETAS[126] == 1522,
            ZETAS[65] == 430,
    ;
    assert(ZETAS[127] * ZETAS[64] == -1795684) by (nonlinear_arith)
        requires
            ZETAS[127] == 1628,
            ZETAS[64] == -1103,
    ;
    reveal_with_fuel(zeta_pairs_ok, 65);
}

/// The product of the forward root and the inverse root of a block is -1 modulo q.
pub proof fn lemma_zeta_pair(len: int, i: int)
    requires
        layer_ok(len),
        0 <= i < 256,
    ensures
        cong(fwd_zeta(len, i) * 169 * (inv_zeta(len, i) * 169), -1),
{
    lemma_zeta_pairs_all();
    lemma_layer_index(len, i);
    lemma_inv_index(len, i);
    let m = 128int / len;
    let b = i / (2 * len);
    assert(m == 1 || m == 2 || m == 4 || m == 8 || m == 16 || m == 32 || m == 64);
    lemma_zeta_pairs_from(m, 0, b);
    let zf = ZETAS[m + b] as int;
    let zi = ZETAS[2 * m - 1 - b] as int;
    assert(fwd_zeta(len, i) * 169 * (inv_zeta(len, i) * 169) == zf * zi * 28561) by (nonlinear_arith)
        requires
            fwd_zeta(len, i) == zf,
            inv_zeta(len, i) == zi,
    ;
}

/// An inverse layer undoes the forward layer of the same distance, up to a factor 2.
pub proof fn lemma_inv_fwd_layer(x: Seq<int>, len: int)
    requires
        layer_ok(len),
    ensures
        forall|i: int| 0 <= i < 256 ==> cong(#[trigger] inv_layer(fwd_layer(x, len), len)[i], 2 * x[i]),
{
    assert forall|i: int| 0 <= i < 256 implies cong(
        #[trigger] inv_layer(fwd_layer(x, len), len)[i],
        2 * x[i],
    ) by {
        lemma_layer_index(len, i);
        let f = fwd_layer(x, len);
        if i % (2 * len) < len {
            assert(fwd_zeta(len, i + len) == fwd_zeta(len, i));
            lemma_cong_from(inv_layer(f, len)[i], 2 * x[i], 0);
        } else {
            assert(fwd_zeta(len, i - len) == fwd_zeta(len, i));
            let z = fwd_zeta(len, i) * 169;
            let w = inv_zeta(len, i) * 169;
            lemma_zeta_pair(len, i);
            assert(inv_layer(f, len)[i] == w * ((x[i - len] - z * x[i]) - (x[i - len] + z * x[i])));
            assert(w * ((x[i - len] - z * x[i]) - (x[i - len] + z * x[i])) == (z * w) * (-2 * x[i]))
                by (nonlinear_arith);
            lemma_cong_ops(z * w, -1, -2 * x[i], -2 * x[i]);
        }
    }
}

/// The inverse layers undo the forward layers, up to the factor 256 / len.
pub proof fn lemma_inv_fwd_layers(s: Seq<int>, len: int)
    requires
        level_ok(len),
    ensures
        forall|i: int|
            0 <= i < 256 ==> cong(#[trigger] inv_layers(ntt_layers(s, len), len)[i], (256int / len) * s[i]),
    decreases 256 - len,
{
    if len == 256 {
        assert forall|i: int| 0 <= i < 256 implies cong(
            #[trigger] inv_layers(ntt_layers(s, len), len)[i],
            (256int / len) * s[i],
        ) by {
            lemma_cong_from(s[i], 1 * s[i], 0);
        }
    } else {
        lemma_layer_index(len, 0);
        lemma_inv_index(len, 0);
        let x = ntt_layers(s, 2 * len);
        lemma_inv_fwd_layers(s, 2 * len);
        lemma_inv_fwd_layer(x, len);
        lemma_inv_layers_linear(x, inv_layer(fwd_layer(x, len), len), 2, 2 * len);
        assert(256int / (2 * len) == 128int / len) by {
            if len == 128 {
            } else if len == 64 {
            } else if len == 32 {
            } else if len == 16 {
            } else if len == 8 {
            } else if len == 4 {
            } else {
            }
        }
        assert forall|i: int| 0 <= i < 256 implies cong(
            #[trigger] inv_layers(ntt_layers(s, len), len)[i],
            (256int / len) * s[i],
        ) by {
            let a = inv_layers(x, 2 * len)[i];
            assert(inv_layers(ntt_layers(s, len), len) == inv_layers(inv_layer(fwd_layer(x, len), len), 2 * len));
            assert(cong(a, (128int / len) * s[i]));
            lemma_cong_ops(2, 2, a, (128int / len) * s[i]);
            assert(2 * ((128int / len) * s[i]) == (256int / len) * s[i]) by (nonlinear_arith)
                requires
                    256int / len == 2 * (128int / len),
            ;
            lemma_cong_ops(
                inv_layers(ntt_layers(s, len), len)[i],
                2 * a,
                2 * a,
                (256int / len) * s[i],
            );
        }
    }
}

/// Name:  ntt
///
/// Description: Inplace number-theoretic transform (NTT) in Rq;
///  input is in standard order, output is in bitreversed order.
///
/// Transforms the first 256 entries of `r`: the result is the computed value of the
/// seven butterfly layers, congruent modulo q to the transform over Z_q, and for inputs
/// bounded by b it is bounded by `ntt_bound(b, 7)`. Larger inputs than 16954 could
/// overflow 16 bits.
#[verifier::rlimit(50)]
pub fn ntt_(r: &mut [i16])
    requires
        old(r).len() >= 256,
        forall|i: int| 0 <= i < 256 ==> -16954 <= #[trigger] old(r)[i] <= 16954,
    ensures
        final(r).len() == old(r).len(),
        forall|i: int|
            0 <= i < 256 ==> final(r)[i] as int == #[trigger] ntt_exact(ints(old(r)@))[i],
        forall|i: int| 256 <= i < old(r).len() ==> final(r)[i] == #[trigger] old(r)[i],
        forall|i: int|
            0 <= i < 256 ==> cong(final(r)[i] as int, #[trigger] ntt_spec(ints(old(r)@))[i]),
        forall|b: int|
            0 <= b <= 16954 && #[trigger] bounded(ints(old(r)@), b) ==> bounded(
                ints(final(r)@),
                ntt_bound(b, 7),
            ),
{
    let ghost input = ints(r@);
    let ghost n0 = r@.len();
    let mut k: usize = 1;
    let mut len: usize = 128;
    while len >= 2
        invariant
            r@.len() == n0,
            n0 >= 256,
            level_ok(2 * len as int),
            k == 128int / len as int,
            input == ints(old(r)@),
            n0 == old(r)@.len(),
            forall|i: int| 0 <= i < 256 ==> -16954 <= #[trigger] input[i] <= 16954,
            forall|i: int|
                0 <= i < 256 ==> r@[i] as int == #[trigger] ntt_layers_exact(input, 2 * len)[i],
            forall|i: int| 256 <= i < n0 ==> r@[i] == #[trigger] old(r)@[i],
        decreases len,
    {
        let ghost prev = ntt_layers_exact(input, 2 * len as int);
        proof {
            lemma_layer_index(len as int, 0);
            lemma_ntt_layers_exact_bound(input, len as int, 16954);
            lemma_ntt_layers_exact_bound(input, 2 * len as int, 16954);
            lemma_ntt_bound_max(16954, depth(len as int));
            lemma_ntt_bound_max(16954, depth(2 * len as int));
            assert(ntt_layers_exact(input, len as int) == fwd_layer_exact(prev, len as int));
        }
        let mut start: usize = 0;
        let ghost mut b: int = 0;
        while start < 256
            invariant
                r@.len() == n0,
                n0 >= 256,
                layer_ok(len as int),
                k == 128int / len as int + b,
                start == 2 * len * b,
                0 <= b,
                start <= 256,
                prev == ntt_layers_exact(input, 2 * len),
                forall|i: int| 0 <= i < 256 ==> -32767 <= #[trigger] prev[i] <= 32767,
                forall|i: int|
                    0 <= i < 256 ==> -32767 <= #[trigger] fwd_layer_exact(prev, len as int)[i]
                        <= 32767,
                forall|i: int|
                    0 <= i < 256 ==> r@[i] as int == (if i < start {
                        fwd_layer_exact(prev, len as int)[i]
                    } else {
                        prev[i]
                    }),
                forall|i: int| 256 <= i < n0 ==> r@[i] == #[trigger] old(r)@[i],
            decreases 256 - start,
        {
            proof {
                lemma_block_step(len as int, b);
            }
            let zeta = ZETAS[k];
            k += 1;
            let mut j = start;
            while j < start + len
                invariant
                    r@.len() == n0,
                    n0 >= 256,
                    layer_ok(len as int),
                    zeta == ZETAS[128int / len as int + b],
                    1 <= 128int / len as int + b < 128,
                    start == 2 * len * b,
                    0 <= b,
                    start + 2 * len <= 256,
                    start <= j <= start + len,
                    forall|i: int| 0 <= i < 256 ==> -32767 <= #[trigger] prev[i] <= 32767,
                    forall|i: int|
                        0 <= i < 256 ==> -32767 <= #[trigger] fwd_layer_exact(prev, len as int)[i]
                            <= 32767,
                    forall|i: int|
                        0 <= i < 256 ==> r@[i] as int == (if i < j || (start + len <= i < j + len) {
                            fwd_layer_exact(prev, len as int)[i]
                        } else {
                            prev[i]
                        }),
                    forall|i: int| 256 <= i < n0 ==> r@[i] == #[trigger] old(r)@[i],
                decreases start + len - j,
            {
                proof {
                    lemma_fwd_butterfly(prev, len as int, b, j as int, zeta as int);
                }
                let t = fqmul(zeta, r[j + len]);
                r[j + len] = r[j] - t;
                r[j] = r[j] + t;
                j += 1;
            }
            start = j + len;
            proof {
                b = b + 1;
            }
        }
        proof {
            assert(start == 256);
            lemma_layer_end(len as int, b);
        }
        assert(len >> 1 == len / 2) by (bit_vector);
        len >>= 1;
        proof {
            lemma_layer_index(2 * len as int, 0);
            assert forall|i: int| 0 <= i < 256 implies r@[i] as int
                == #[trigger] ntt_layers_exact(input, 2 * len)[i] by {
                assert(ntt_layers_exact(input, 2 * len as int) == fwd_layer_exact(prev, 2 * len as int));
            }
        }
    }
    proof {
        assert(len == 1);
        lemma_ntt_layers_cong(input, 2);
        assert forall|i: int| 0 <= i < 256 implies cong(
            r@[i] as int,
            #[trigger] ntt_spec(ints(old(r)@))[i],
        ) by {
            assert(r@[i] as int == ntt_layers_exact(input, 2)[i]);
        }
        assert forall|bb: int|
            0 <= bb <= 16954 && #[trigger] bounded(ints(old(r)@), bb) implies bounded(
            ints(r@),
            ntt_bound(bb, 7),
        ) by {
            lemma_ntt_layers_exact_bound(input, 2, bb);
            reveal_with_fuel(depth, 8);
            assert forall|i: int| 0 <= i < 256 implies -ntt_bound(bb, 7) <= #[trigger] ints(
                r@,
            )[i] <= ntt_bound(bb, 7) by {
                assert(ints(r@)[i] == ntt_layers_exact(input, 2)[i]);
            }
        }
    }
}

/// The butterfly at index j of block b in an inverse layer: the root, both outputs,
/// and the reductions staying on their domains.
pub proof fn lemma_inv_butterfly(prev: Seq<int>, len: int, b: int, j: int, zeta: int, bnd: int)
    requires
        layer_ok(len),
        0 <= b,
        2 * len * b <= j < 2 * len * b + len,
        2 * len * b + 2 * len <= 256,
        zeta == ZETAS[256int / len - 1 - b],
        0 <= 256int / len - 1 - b < 128,
        0 <= bnd <= 15812,
        bounded(prev, bnd),
    ensures
        -31625 <= prev[j] + prev[j + len] <= 31625,
        -32768 <= prev[j + len] - prev[j] <= 32767,
        montgomery_ok(zeta * (prev[j + len] - prev[j])),
        inv_layer_exact(prev, len)[j] == barrett_spec(prev[j] + prev[j + len]),
        inv_layer_exact(prev, len)[j + len] == montgomery_spec(
            zeta * (prev[j + len] - prev[j]),
        ),
{
    assert(b * (2 * len) == 2 * len * b) by (nonlinear_arith);
    lemma_block(j, 2 * len, b);
    lemma_block(j + len, 2 * len, b);
    assert(inv_zeta(len, j + len) == zeta);
    lemma_zetas_bound(256int / len - 1 - b);
    let d = prev[j + len] - prev[j];
    assert(-(1659 * 31624) <= zeta * d <= 1659 * 31624) by (nonlinear_arith)
        requires
            -1659 <= zeta <= 1659,
            -31624 <= d <= 31624,
    ;
    lemma_mont_bound(zeta * d, 1659 * 31624int);
}

/// The end of an inverse layer: all blocks done, and the root index of the next layer.
pub proof fn lemma_inv_layer_end(len: int, b: int)
    requires
        layer_ok(len),
        2 * len * b == 256,
    ensures
        256int / len - b == 256int / (2 * len),
        level_ok(2 * len),
{
    lemma_layer_end(len, b);
    if len == 128 {
    } else if len == 64 {
    } else if len == 32 {
    } else if len == 16 {
    } else if len == 8 {
    } else if len == 4 {
    } else {
    }
}

/// The last step of the inverse transform: the Montgomery products by F give the
/// computed value, congruent to the inverse transform over Z_q, below 1737.
pub proof fn lemma_invntt_final(input: Seq<int>, st: Seq<int>, out: Seq<int>)
    requires
        st == inv_layers_exact(input, 2),
        bounded(st, 3328),
        forall|i: int| 0 <= i < 256 ==> out[i] == montgomery_spec(#[trigger] st[i] * 1441),
    ensures
        forall|i: int| 0 <= i < 256 ==> out[i] == #[trigger] invntt_exact(input)[i],
        forall|i: int| 0 <= i < 256 ==> cong(out[i], #[trigger] invntt_spec(input)[i]),
        bounded(out, 1737),
{
    assert forall|i: int| 0 <= i < 256 implies out[i] == #[trigger] invntt_exact(input)[i] by {
        lemma_invntt_at(input, st, out, i);
    }
    assert forall|i: int| 0 <= i < 256 implies cong(out[i], #[trigger] invntt_spec(input)[i]) by {
        lemma_invntt_at(input, st, out, i);
    }
    assert forall|i: int| 0 <= i < 256 implies -1737 <= #[trigger] out[i] <= 1737 by {
        lemma_invntt_at(input, st, out, i);
    }
}

proof fn lemma_invntt_at(input: Seq<int>, st: Seq<int>, out: Seq<int>, i: int)
    requires
        st == inv_layers_exact(input, 2),
        bounded(st, 3328),
        forall|i: int| 0 <= i < 256 ==> out[i] == montgomery_spec(#[trigger] st[i] * 1441),
        0 <= i < 256,
    ensures
        out[i] == invntt_exact(input)[i],
        cong(out[i], invntt_spec(input)[i]),
        -1737 <= out[i] <= 1737,
{
    lemma_inv_layers_cong(input, input, 2);
    let x = st[i];
    assert(-(3328 * 1441) <= x * 1441 <= 3328 * 1441) by (nonlinear_arith)
        requires
            -3328 <= x <= 3328,
    ;
    lemma_mont_bound(x * 1441, 3328 * 1441int);
    lemma_mont_cong(x * 1441);
    let y = inv_layers(input, 2)[i];
    assert(cong(x, y));
    lemma_cong_ops(x, y, 1441 * 169int, 1441 * 169int);
    assert(x * 1441 * 169 == x * (1441 * 169)) by (nonlinear_arith);
    assert(y * 1441 * 169 == y * (1441 * 169)) by (nonlinear_arith);
    lemma_cong_ops(montgomery_spec(x * 1441), x * 1441 * 169, x * 1441 * 169, y * 1441 * 169);
}

/// Name:  invntt
///
/// Description: Inplace inverse number-theoretic transform in Rq;
///  input is in bitreversed order, output is in standard order.
///
/// Transforms the first 256 entries of `r`: the result is the computed value of the
/// seven inverse butterfly layers followed by a Montgomery product with 1441, congruent
/// modulo q to the inverse transform over Z_q times 2^16, and at most 1737 in absolute
/// value. Inputs above 15812 in absolute value could leave Barrett reduction's domain.
#[verifier::rlimit(50)]
pub fn inv_ntt_(r: &mut [i16])
    requires
        old(r).len() >= 256,
        bounded(ints(old(r)@), 15812),
    ensures
        final(r).len() == old(r).len(),
        forall|i: int|
            0 <= i < 256 ==> final(r)[i] as int == #[trigger] invntt_exact(ints(old(r)@))[i],
        forall|i: int| 256 <= i < old(r).len() ==> final(r)[i] == #[trigger] old(r)[i],
        forall|i: int|
            0 <= i < 256 ==> cong(final(r)[i] as int, #[trigger] invntt_spec(ints(old(r)@))[i]),
        bounded(ints(final(r)@), 1737),
{
    let ghost input = ints(r@);
    let ghost n0 = r@.len();
    let mut k: usize = 127;
    let mut len: usize = 2;
    while len <= 128
        invariant
            r@.len() == n0,
            n0 >= 256,
            n0 == old(r)@.len(),
            level_ok(len as int),
            k + 1 == 256int / len as int,
            input == ints(old(r)@),
            inv_layers_exact(ints(r@), len as int) == inv_layers_exact(input, 2),
            bounded(ints(r@), if len == 2 { 15812 } else { 3328 }),
            forall|i: int| 256 <= i < n0 ==> r@[i] == #[trigger] old(r)@[i],
        decreases 256 - len,
    {
        let ghost prev = ints(r@);
        let ghost bnd: int = if len == 2 { 15812 } else { 3328 };
        proof {
            lemma_layer_index(len as int, 0);
            lemma_inv_layer_exact_bound(prev, len as int, bnd);
        }
        let mut start: usize = 0;
        let ghost mut b: int = 0;
        while start < 256
            invariant
                r@.len() == n0,
                n0 >= 256,
                layer_ok(len as int),
                k + 1 + b == 256int / len as int,
                start == 2 * len * b,
                0 <= b,
                start <= 256,
                0 <= bnd <= 15812,
                bounded(prev, bnd),
                bounded(inv_layer_exact(prev, len as int), 3328),
                forall|i: int|
                    0 <= i < 256 ==> r@[i] as int == (if i < start {
                        inv_layer_exact(prev, len as int)[i]
                    } else {
                        prev[i]
                    }),
                forall|i: int| 256 <= i < n0 ==> r@[i] == #[trigger] old(r)@[i],
            decreases 256 - start,
        {
            proof {
                lemma_block_step(len as int, b);
                lemma_inv_index(len as int, 0);
            }
            let zeta = ZETAS[k];
            k -= 1;
            let mut j = start;
            while j < start + len
                invariant
                    r@.len() == n0,
                    n0 >= 256,
                    layer_ok(len as int),
                    zeta == ZETAS[256int / len as int - 1 - b],
                    0 <= 256int / len as int - 1 - b < 128,
                    start == 2 * len * b,
                    0 <= b,
                    start + 2 * len <= 256,
                    start <= j <= start + len,
                    0 <= bnd <= 15812,
                    bounded(prev, bnd),
                    bounded(inv_layer_exact(prev, len as int), 3328),
                    forall|i: int|
                        0 <= i < 256 ==> r@[i] as int == (if i < j || (start + len <= i < j + len) {
                            inv_layer_exact(prev, len as int)[i]
                        } else {
                            prev[i]
                        }),
                    forall|i: int| 256 <= i < n0 ==> r@[i] == #[trigger] old(r)@[i],
                decreases start + len - j,
            {
                proof {
                    lemma_inv_butterfly(prev, len as int, b, j as int, zeta as int, bnd);
                }
                let t = r[j];
                r[j] = barrett(t + r[j + len]);
                r[j + len] = r[j + len] - t;
                r[j + len] = fqmul(zeta, r[j + len]);
                j += 1;
            }
            start = j + len;
            proof {
                b = b + 1;
            }
        }
        proof {
            lemma_inv_layer_end(len as int, b);
            assert(ints(r@) =~= inv_layer_exact(prev, len as int));
            assert(inv_layers_exact(prev, len as int) == inv_layers_exact(
                inv_layer_exact(prev, len as int),
                2 * len as int,
            ));
        }
        assert(len << 1 == len * 2) by (bit_vector)
            requires
                len <= 128,
        ;
        len <<= 1;
    }
    let ghost st = ints(r@);
    proof {
        assert(inv_layers_exact(st, 256) == st);
    }
    for j in 0..256
        invariant
            r@.len() == n0,
            n0 >= 256,
            n0 == old(r)@.len(),
            input == ints(old(r)@),
            st == inv_layers_exact(input, 2),
            bounded(st, 3328),
            forall|i: int|
                0 <= i < 256 ==> r@[i] as int == (if i < j {
                    montgomery_spec(st[i] * 1441)
                } else {
                    st[i]
                }),
            forall|i: int| 256 <= i < n0 ==> r@[i] == #[trigger] old(r)@[i],
    {
        proof {
            let x = st[j as int];
            assert(-(3328 * 1441) <= x * 1441 <= 3328 * 1441) by (nonlinear_arith)
                requires
                    -3328 <= x <= 3328,
            ;
            lemma_mont_bound(x * 1441, 3328 * 1441int);
        }
        r[j] = fqmul(r[j], F);
    }
    proof {
        lemma_invntt_final(input, st, ints(r@));
    }
}

/// Every entry of `z` is congruent to a x + b y.
pub open spec fn lin_comb(z: Seq<int>, x: Seq<int>, y: Seq<int>, a: int, b: int) -> bool {
    forall|i: int| 0 <= i < 256 ==> cong(#[trigger] z[i], a * x[i] + b * y[i])
}

/// The butterfly identities behind the linearity of the layers.
proof fn lemma_lin_butterfly(a: int, b: int, w: int, xp: int, xq: int, yp: int, yq: int)
    ensures
        (a * xp + b * yp) + w * (a * xq + b * yq) == a * (xp + w * xq) + b * (yp + w * yq),
        (a * xp + b * yp) - w * (a * xq + b * yq) == a * (xp - w * xq) + b * (yp - w * yq),
        (a * xp + b * yp) + (a * xq + b * yq) == a * (xp + xq) + b * (yp + yq),
        w * ((a * xq + b * yq) - (a * xp + b * yp)) == a * (w * (xq - xp)) + b * (w * (yq - yp)),
{
    vstd::arithmetic::mul::lemma_mul_is_distributive_add(w, a * xq, b * yq);
    vstd::arithmetic::mul::lemma_mul_is_associative(w, a, xq);
    vstd::arithmetic::mul::lemma_mul_is_associative(w, b, yq);
    vstd::arithmetic::mul::lemma_mul_is_associative(a, w, xq);
    vstd::arithmetic::mul::lemma_mul_is_associative(b, w, yq);
    vstd::arithmetic::mul::lemma_mul_is_commutative(w, a);
    vstd::arithmetic::mul::lemma_mul_is_commutative(w, b);
    vstd::arithmetic::mul::lemma_mul_is_distributive_add(a, xp, w * xq);
    vstd::arithmetic::mul::lemma_mul_is_distributive_add(b, yp, w * yq);
    vstd::arithmetic::mul::lemma_mul_is_distributive_sub(a, xp, w * xq);
    vstd::arithmetic::mul::lemma_mul_is_distributive_sub(b, yp, w * yq);
    vstd::arithmetic::mul::lemma_mul_is_distributive_add(a, xp, xq);
    vstd::arithmetic::mul::lemma_mul_is_distributive_add(b, yp, yq);
    vstd::arithmetic::mul::lemma_mul_is_distributive_sub(w, xq, xp);
    vstd::arithmetic::mul::lemma_mul_is_distributive_sub(w, yq, yp);
    vstd::arithmetic::mul::lemma_mul_is_distributive_sub(w, a * xq + b * yq, a * xp + b * yp);
    vstd::arithmetic::mul::lemma_mul_is_distributive_add(w, a * xp, b * yp);
    vstd::arithmetic::mul::lemma_mul_is_associative(w, a, xp);
    vstd::arithmetic::mul::lemma_mul_is_associative(w, b, yp);
    vstd::arithmetic::mul::lemma_mul_is_associative(a, w, xp);
    vstd::arithmetic::mul::lemma_mul_is_associative(b, w, yp);
    vstd::arithmetic::mul::lemma_mul_is_distributive_sub(a, w * xq, w * xp);
    vstd::arithmetic::mul::lemma_mul_is_distributive_sub(b, w * yq, w * yp);
}

/// A forward layer over Z_q is linear.
pub proof fn lemma_fwd_layer_lin(z: Seq<int>, x: Seq<int>, y: Seq<int>, a: int, b: int, len: int)
    requires
        layer_ok(len),
        lin_comb(z, x, y, a, b),
    ensures
        lin_comb(fwd_layer(z, len), fwd_layer(x, len), fwd_layer(y, len), a, b),
{
    assert forall|i: int| 0 <= i < 256 implies cong(
        #[trigger] fwd_layer(z, len)[i],
        a * fwd_layer(x, len)[i] + b * fwd_layer(y, len)[i],
    ) by {
        lemma_layer_index(len, i);
        let w = fwd_zeta(len, i) * 169;
        let (p, q) = if i % (2 * len) < len { (i, i + len) } else { (i - len, i) };
        let zp = a * x[p] + b * y[p];
        let zq = a * x[q] + b * y[q];
        assert(cong(z[p], zp));
        assert(cong(z[q], zq));
        lemma_cong_ops(w, w, z[q], zq);
        lemma_cong_ops(z[p], zp, w * z[q], w * zq);
        if i % (2 * len) < len {
            lemma_lin_butterfly(a, b, w, x[p], x[q], y[p], y[q]);
        } else {
            lemma_lin_butterfly(a, b, w, x[p], x[q], y[p], y[q]);
        }
    }
}

/// The forward layers 128, ..., len over Z_q are linear.
pub proof fn lemma_ntt_layers_lin(z: Seq<int>, x: Seq<int>, y: Seq<int>, a: int, b: int, len: int)
    requires
        level_ok(len),
        lin_comb(z, x, y, a, b),
    ensures
        lin_comb(ntt_layers(z, len), ntt_layers(x, len), ntt_layers(y, len), a, b),
    decreases 256 - len,
{
    if len < 256 {
        lemma_layer_index(len, 0);
        lemma_ntt_layers_lin(z, x, y, a, b, 2 * len);
        lemma_fwd_layer_lin(ntt_layers(z, 2 * len), ntt_layers(x, 2 * len), ntt_layers(y, 2 * len), a, b, len);
    }
}

/// An inverse layer over Z_q is linear.
pub proof fn lemma_inv_layer_lin(z: Seq<int>, x: Seq<int>, y: Seq<int>, a: int, b: int, len: int)
    requires
        layer_ok(len),
        lin_comb(z, x, y, a, b),
    ensures
        lin_comb(inv_layer(z, len), inv_layer(x, len), inv_layer(y, len), a, b),
{
    assert forall|i: int| 0 <= i < 256 implies cong(
        #[trigger] inv_layer(z, len)[i],
        a * inv_layer(x, len)[i] + b * inv_layer(y, len)[i],
    ) by {
        lemma_layer_index(len, i);
        let w = inv_zeta(len, i) * 169;
        let (p, q) = if i % (2 * len) < len { (i, i + len) } else { (i - len, i) };
        let zp = a * x[p] + b * y[p];
        let zq = a * x[q] + b * y[q];
        assert(cong(z[p], zp));
        assert(cong(z[q], zq));
        if i % (2 * len) < len {
            lemma_cong_ops(z[p], zp, z[q], zq);
            lemma_lin_butterfly(a, b, w, x[p], x[q], y[p], y[q]);
        } else {
            lemma_cong_ops(z[q], zq, z[p], zp);
            lemma_cong_ops(w, w, z[q] - z[p], zq - zp);
            lemma_lin_butterfly(a, b, w, x[p], x[q], y[p], y[q]);
        }
    }
}

/// The inverse layers len, ..., 128 over Z_q are linear.
pub proof fn lemma_inv_layers_lin(z: Seq<int>, x: Seq<int>, y: Seq<int>, a: int, b: int, len: int)
    requires
        level_ok(len),
        lin_comb(z, x, y, a, b),
    ensures
        lin_comb(inv_layers(z, len), inv_layers(x, len), inv_layers(y, len), a, b),
    decreases 256 - len,
{
    if len < 256 {
        lemma_layer_index(len, 0);
        lemma_inv_layer_lin(z, x, y, a, b, len);
        lemma_inv_layers_lin(inv_layer(z, len), inv_layer(x, len), inv_layer(y, len), a, b, 2 * len);
        assert(inv_layers(z, len) == inv_layers(inv_layer(z, len), 2 * len));
        assert(inv_layers(x, len) == inv_layers(inv_layer(x, len), 2 * len));
        assert(inv_layers(y, len) == inv_layers(inv_layer(y, len), 2 * len));
    } else {
        assert forall|i: int| 0 <= i < 256 implies cong(
            #[trigger] inv_layers(z, len)[i],
            a * inv_layers(x, len)[i] + b * inv_layers(y, len)[i],
        ) by {
            assert(cong(z[i], a * x[i] + b * y[i]));
        }
    }
}

/// A forward layer undoes the inverse layer of the same distance, up to a factor 2.
pub proof fn lemma_fwd_inv_layer(x: Seq<int>, len: int)
    requires
        layer_ok(len),
    ensures
        forall|i: int| 0 <= i < 256 ==> cong(#[trigger] fwd_layer(inv_layer(x, len), len)[i], 2 * x[i]),
{
    assert forall|i: int| 0 <= i < 256 implies cong(
        #[trigger] fwd_layer(inv_layer(x, len), len)[i],
        2 * x[i],
    ) by {
        lemma_layer_index(len, i);
        let v = inv_layer(x, len);
        let z = fwd_zeta(len, i) * 169;
        let w = inv_zeta(len, i) * 169;
        lemma_zeta_pair(len, i);
        if i % (2 * len) < len {
            let q = i + len;
            assert(inv_zeta(len, q) == inv_zeta(len, i));
            assert(fwd_layer(v, len)[i] == (x[i] + x[q]) + z * (w * (x[q] - x[i])));
            assert((x[i] + x[q]) + z * (w * (x[q] - x[i])) == 2 * x[i] + (z * w + 1) * (x[q] - x[i]))
                by (nonlinear_arith);
            lemma_cong_ops(z * w, -1, x[q] - x[i], x[q] - x[i]);
            lemma_cong_ops(z * w, -1, 1, 1);
            lemma_cong_ops(z * w + 1, 0, x[q] - x[i], x[q] - x[i]);
            lemma_cong_ops(2 * x[i], 2 * x[i], (z * w + 1) * (x[q] - x[i]), 0 * (x[q] - x[i]));
        } else {
            let p = i - len;
            assert(inv_zeta(len, p) == inv_zeta(len, i));
            assert(fwd_zeta(len, p) == fwd_zeta(len, i));
            assert(fwd_layer(v, len)[i] == (x[p] + x[i]) - z * (w * (x[i] - x[p])));
            assert((x[p] + x[i]) - z * (w * (x[i] - x[p])) == 2 * x[i] - (z * w + 1) * (x[i] - x[p]))
                by (nonlinear_arith);
            lemma_cong_ops(z * w, -1, 1, 1);
            lemma_cong_ops(z * w + 1, 0, x[i] - x[p], x[i] - x[p]);
            lemma_cong_ops(2 * x[i], 2 * x[i], (z * w + 1) * (x[i] - x[p]), 0 * (x[i] - x[p]));
        }
    }
}

/// The forward layers undo the inverse layers, up to the factor 256 / len.
pub proof fn lemma_fwd_inv_layers(x: Seq<int>, len: int)
    requires
        level_ok(len),
    ensures
        forall|i: int|
            0 <= i < 256 ==> cong(#[trigger] ntt_layers(inv_layers(x, len), len)[i], (256int / len) * x[i]),
    decreases 256 - len,
{
    if len == 256 {
        assert forall|i: int| 0 <= i < 256 implies cong(
            #[trigger] ntt_layers(inv_layers(x, len), len)[i],
            (256int / len) * x[i],
        ) by {
            lemma_cong_from(x[i], 1 * x[i], 0);
        }
    } else {
        lemma_layer_index(len, 0);
        lemma_inv_index(len, 0);
        assert(256int / (2 * len) == 128int / len) by {
            if len == 128 {
            } else if len == 64 {
            } else if len == 32 {
            } else if len == 16 {
            } else if len == 8 {
            } else if len == 4 {
            } else {
            }
        }
        let x1 = inv_layer(x, len);
        let y = inv_layers(x1, 2 * len);
        assert(inv_layers(x, len) == y);
        lemma_fwd_inv_layers(x1, 2 * len);
        let zz = ntt_layers(y, 2 * len);
        assert forall|i: int| 0 <= i < 256 implies cong(#[trigger] zz[i], (128int / len) * x1[i] + 0 * x1[i]) by {
            assert(cong(zz[i], (256int / (2 * len)) * x1[i]));
        }
        lemma_fwd_layer_lin(zz, x1, x1, 128int / len, 0, len);
        lemma_fwd_inv_layer(x, len);
        assert forall|i: int| 0 <= i < 256 implies cong(
            #[trigger] ntt_layers(inv_layers(x, len), len)[i],
            (256int / len) * x[i],
        ) by {
            let f = fwd_layer(x1, len)[i];
            assert(ntt_layers(inv_layers(x, len), len)[i] == fwd_layer(zz, len)[i]);
            assert(cong(fwd_layer(zz, len)[i], (128int / len) * f + 0 * f));
            assert(cong(f, 2 * x[i]));
            lemma_cong_ops(128int / len, 128int / len, f, 2 * x[i]);
            assert((128int / len) * (2 * x[i]) == (256int / len) * x[i]) by (nonlinear_arith)
                requires
                    256int / len == 2 * (128int / len),
            ;
            lemma_cong_ops(fwd_layer(zz, len)[i], (128int / len) * f + 0 * f, (128int / len) * f, (256int / len) * x[i]);
        }
    }
}

/// The inverse transform undoes the transform up to the factor 2^16 modulo q: for any
/// input `r0` of `ntt_`, and any `r` congruent to what `ntt_` computes of it, the value
/// that `inv_ntt_` is congruent to (`invntt_spec`, which `inv_ntt_` returns within
/// [-1737, 1737]) is 2^16 r0 modulo q.
pub proof fn lemma_inv_ntt_undoes_ntt(r0: Seq<int>, r: Seq<int>)
    requires
        forall|i: int| 0 <= i < 256 ==> cong(#[trigger] r[i], ntt_exact(r0)[i]),
    ensures
        forall|i: int| 0 <= i < 256 ==> cong(#[trigger] invntt_spec(r)[i], 65536 * r0[i]),
{
    let x = ntt_layers(r0, 2);
    lemma_ntt_layers_cong(r0, 2);
    assert forall|i: int| 0 <= i < 256 implies cong(#[trigger] r[i], 1 * x[i]) by {
        assert(cong(ntt_layers_exact(r0, 2)[i], x[i]));
        lemma_cong_ops(r[i], ntt_layers_exact(r0, 2)[i], ntt_layers_exact(r0, 2)[i], x[i]);
    }
    lemma_inv_layers_linear(x, r, 1, 2);
    lemma_inv_fwd_layers(r0, 2);
    assert forall|i: int| 0 <= i < 256 implies cong(#[trigger] invntt_spec(r)[i], 65536 * r0[i]) by {
        let a = inv_layers(r, 2)[i];
        let b = inv_layers(x, 2)[i];
        assert(cong(a, 1 * b));
        assert(cong(b, (256int / 2) * r0[i]));
        lemma_cong_ops(a, 1 * b, 1 * b, 128 * r0[i]);
        lemma_cong_ops(a, 128 * r0[i], 1441 * 169int, 1441 * 169int);
        assert(invntt_spec(r)[i] == a * (1441 * 169)) by (nonlinear_arith)
            requires
                invntt_spec(r)[i] == a * 1441 * 169,
        ;
        assert((128 * r0[i]) * (1441 * 169) - 65536 * r0[i] == 3329 * (9344 * r0[i])) by (nonlinear_arith);
        lemma_cong_from((128 * r0[i]) * (1441 * 169), 65536 * r0[i], 9344 * r0[i]);
        lemma_cong_ops(
            invntt_spec(r)[i],
            (128 * r0[i]) * (1441 * 169),
            (128 * r0[i]) * (1441 * 169),
            65536 * r0[i],
        );
    }
}

} // verus!
