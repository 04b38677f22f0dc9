//! Symmetric primitives (SHA-3 and SHAKE from the `sha3` crate) and sampling:
//! uniform polynomials from an extendable output, and centred binomial noise.

use vstd::prelude::*;

use crate::packing::{bit_of, byte_bit, i16_of};
use crate::params::{ETA1, K, N, Q};
use crate::poly::{Mat, Poly, VecPoly};
use crate::utils::{cmod, cmod_spec, lemma_cmod};

verus! {

/// The SHAKE128 output of `len` bytes for `input`.
pub uninterp spec fn shake128(input: Seq<u8>, len: nat) -> Seq<u8>;

/// The SHAKE256 output of `len` bytes for `input`.
pub uninterp spec fn shake256(input: Seq<u8>, len: nat) -> Seq<u8>;

/// The SHA3-256 digest of `input`.
pub uninterp spec fn sha3_256(input: Seq<u8>) -> Seq<u8>;

/// The SHA3-512 digest of `input`.
pub uninterp spec fn sha3_512(input: Seq<u8>) -> Seq<u8>;

/// The extendable output function: fills `out` with the SHAKE128 output for `seed`.
/// Calls `sha3::Shake128` (update, `finalize_xof`, then `XofReader::read`, which fills
/// the whole buffer); trusted to give `shake128(seed, out.len())`.
#[verifier::external_body]
pub fn xof(seed: &[u8], out: &mut [u8])
    ensures
        final(out)@ == shake128(seed@, old(out)@.len()),
{
    let mut hasher = sha3::Shake128::default();
    sha3::digest::Update::update(&mut hasher, seed);
    let mut reader = sha3::digest::ExtendableOutput::finalize_xof(hasher);
    sha3::digest::XofReader::read(&mut reader, out);
}

/// The hash H: writes the SHA3-256 digest of `seed` into `out`, which must have its
/// 32 bytes (`copy_from_slice` panics otherwise). Calls `sha3::Sha3_256` through
/// `Digest`; trusted to give `sha3_256(seed)`.
#[verifier::external_body]
pub fn H(seed: &[u8], out: &mut [u8])
    requires
        old(out)@.len() == 32,
    ensures
        final(out)@ == sha3_256(seed@),
{
    let mut hasher = sha3::Sha3_256::default();
    sha3::Digest::update(&mut hasher, seed);
    let res = sha3::Digest::finalize(hasher);
    out.copy_from_slice(&res[..]);
}

/// The hash G: writes the SHA3-512 digest of `seed` into `out`, which must have its
/// 64 bytes (`copy_from_slice` panics otherwise). Calls `sha3::Sha3_512` through
/// `Digest`; trusted to give `sha3_512(seed)`.
#[verifier::external_body]
pub fn G(seed: &[u8], out: &mut [u8])
    requires
        old(out)@.len() == 64,
    ensures
        final(out)@ == sha3_512(seed@),
{
    let mut hasher = sha3::Sha3_512::default();
    sha3::Digest::update(&mut hasher, seed);
    let res = sha3::Digest::finalize(hasher);
    out.copy_from_slice(&res[..]);
}

/// The pseudorandom function: fills `out` with the SHAKE256 output for `seed`.
/// Calls `sha3::Shake256` (update, `finalize_xof`, then `XofReader::read`);
/// trusted to give `shake256(seed, out.len())`.
#[verifier::external_body]
pub fn prf(seed: &[u8], out: &mut [u8])
    ensures
        final(out)@ == shake256(seed@, old(out)@.len()),
{
    let mut hasher = sha3::Shake256::default();
    sha3::digest::Update::update(&mut hasher, seed);
    let mut reader = sha3::digest::ExtendableOutput::finalize_xof(hasher);
    sha3::digest::XofReader::read(&mut reader, out);
}

/// The key derivation function: SHAKE256 of `seed`, as many bytes as `out` holds.
pub fn kdf(seed: &[u8], out: &mut [u8])
    ensures
        final(out)@ == shake256(seed@, old(out)@.len()),
{
    prf(seed, out);
}

/// The candidate that `parse` takes from bytes 2j and 2j + 1: the little-endian 16-bit
/// word as a signed integer, reduced by `cmod` modulo 2^13.
pub open spec fn parse_coeff(b: Seq<u8>, j: int) -> int {
    cmod_spec(i16_of(b[2 * j] + 256 * b[2 * j + 1]), 8192)
}

/// A polynomial in the NTT domain from 512 bytes: coefficient j is taken from bytes
/// 2j and 2j + 1 (every candidate is below 19 q, so every one is kept).
///
/// The 16-bit word is formed in `i16` arithmetic with wrapping (a high byte of 128 or
/// more overflows), and the bound 19 q is compared in 32 bits, since it does not fit `i16`.
pub fn parse(b: &[u8]) -> (res: Poly)
    requires
        b.len() >= 512,
    ensures
        forall|j: int| 0 <= j < 256 ==> res.coeff[j] == #[trigger] parse_coeff(b@, j),
        forall|j: int| 0 <= j < 256 ==> -8192 < #[trigger] res.coeff[j] <= 4096,
        res.ntt,
{
    let mut res = Poly::default();
    res.ntt = true;
    let mut i: usize = 0;
    let mut j: usize = 0;
    while j < N
        invariant
            b.len() >= 512,
            j <= N,
            i == 2 * j,
            res.ntt,
            forall|c: int| 0 <= c < j ==> res.coeff[c] == #[trigger] parse_coeff(b@, c),
            forall|c: int| 0 <= c < j ==> -8192 < #[trigger] res.coeff[c] <= 4096,
        decreases N - j,
    {
        let lo = b[i] as i16;
        let hi = b[i + 1] as i16;
        let mut d: i16 = lo.wrapping_add(256i16.wrapping_mul(hi));
        assert(d == i16_of(b@[i as int] + 256 * b@[i + 1]));
        proof {
            lemma_cmod(d as int, 8192);
        }
        assert((1i16 << 13) == 8192) by (bit_vector);
        d = cmod(d, 1 << 13);
        if (d as i32) < 19 * (Q as i32) {
            res.coeff[j] = d;
            j += 1;
        }
        i += 2;
    }
    res
}

/// The little-endian value of 4 bytes.
pub open spec fn le32(b0: int, b1: int, b2: int, b3: int) -> int {
    b0 + 256 * b1 + 65536 * b2 + 16777216 * b3
}

proof fn lemma_load32(x0: u32, x1: u32, x2: u32, x3: u32)
    requires
        x0 < 256,
        x1 < 256,
        x2 < 256,
        x3 < 256,
    ensures
        x0 | (x1 << 8) | (x2 << 16) | (x3 << 24) == le32(x0 as int, x1 as int, x2 as int, x3 as int),
{
    assert(x0 | (x1 << 8) | (x2 << 16) | (x3 << 24) == x0 + x1 * 256 + x2 * 65536 + x3 * 16777216)
        by (bit_vector)
        requires
            x0 < 256,
            x1 < 256,
            x2 < 256,
            x3 < 256,
    ;
}

/// load 4 bytes into a 32-bit integer in little-endian order
fn load32_LE(x: &[u8]) -> (r: u32)
    requires
        x.len() >= 4,
    ensures
        r == le32(x[0] as int, x[1] as int, x[2] as int, x[3] as int),
{
    proof {
        lemma_load32(x[0] as u32, x[1] as u32, x[2] as u32, x[3] as u32);
    }
    let mut r = x[0] as u32;
    r |= (x[1] as u32) << 8;
    r |= (x[2] as u32) << 16;
    r |= (x[3] as u32) << 24;
    r
}

/// load 3 bytes into a 32-bit integer in little-endian order
fn load24_LE(x: &[u8]) -> (r: u32)
    requires
        x.len() >= 3,
    ensures
        r == le32(x[0] as int, x[1] as int, x[2] as int, 0),
{
    proof {
        lemma_load32(x[0] as u32, x[1] as u32, x[2] as u32, 0);
        assert((0u32 << 24) == 0) by (bit_vector);
        let y = x[0] as u32 | ((x[1] as u32) << 8) | ((x[2] as u32) << 16);
        assert(y | 0 == y) by (bit_vector);
    }
    let mut r = x[0] as u32;
    r |= (x[1] as u32) << 8;
    r |= (x[2] as u32) << 16;
    r
}

/// Bit g of the byte stream `buf` (least significant bit of each byte first).
pub open spec fn buf_bit(buf: Seq<u8>, g: int) -> int {
    byte_bit(buf, 0, g)
}

/// Coefficient m of the centred binomial sample with parameter 2: two bits minus two bits.
pub open spec fn cbd2_coeff(buf: Seq<u8>, m: int) -> int {
    buf_bit(buf, 4 * m) + buf_bit(buf, 4 * m + 1) - buf_bit(buf, 4 * m + 2) - buf_bit(buf, 4 * m + 3)
}

/// Coefficient m of the centred binomial sample with parameter 3: three bits minus three bits.
pub open spec fn cbd3_coeff(buf: Seq<u8>, m: int) -> int {
    buf_bit(buf, 6 * m) + buf_bit(buf, 6 * m + 1) + buf_bit(buf, 6 * m + 2) - buf_bit(buf, 6 * m + 3)
        - buf_bit(buf, 6 * m + 4) - buf_bit(buf, 6 * m + 5)
}

/// Bit p of a little-endian word is bit p % 8 of its byte p / 8.
proof fn lemma_word_bit(x0: u8, x1: u8, x2: u8, x3: u8, p: u32)
    requires
        p < 32,
    ensures
        ((((x0 as u32) | ((x1 as u32) << 8) | ((x2 as u32) << 16) | ((x3 as u32) << 24)) >> p) & 1)
            as int == bit_of(
            (if p < 8 {
                x0
            } else if p < 16 {
                x1
            } else if p < 24 {
                x2
            } else {
                x3
            }) as int,
            (p % 8) as nat,
        ),
{
    let t = (x0 as u32) | ((x1 as u32) << 8) | ((x2 as u32) << 16) | ((x3 as u32) << 24);
    let xb: u8 = if p < 8 {
        x0
    } else if p < 16 {
        x1
    } else if p < 24 {
        x2
    } else {
        x3
    };
    let s = (p % 8) as u8;
    assert(((t >> p) & 1) == (((xb >> s) & 1) as u32)) by (bit_vector)
        requires
            p < 32,
            t == (x0 as u32) | ((x1 as u32) << 8) | ((x2 as u32) << 16) | ((x3 as u32) << 24),
            xb == (if p < 8 {
                x0
            } else if p < 16 {
                x1
            } else if p < 24 {
                x2
            } else {
                x3
            }),
            s == (p % 8) as u8,
    ;
    vstd::bits::lemma_u8_shr_is_div(xb, s);
    let y = xb >> s;
    assert((y & 1) == y % 2) by (bit_vector);
}

proof fn lemma_cbd2_word(t: u32, j: u32)
    requires
        j < 8,
    ensures
        (t & 0x55555555) + ((t >> 1) & 0x55555555) <= u32::MAX,
        ((((t & 0x55555555) + ((t >> 1) & 0x55555555)) as u32 >> (4 * j)) & 3) == ((t >> (4 * j)) & 1)
            + ((t >> (4 * j + 1)) & 1),
        ((((t & 0x55555555) + ((t >> 1) & 0x55555555)) as u32 >> (4 * j + 2)) & 3) == ((t >> (4 * j
            + 2)) & 1) + ((t >> (4 * j + 3)) & 1),
{
    assert((t & 0x55555555) + ((t >> 1) & 0x55555555) <= u32::MAX) by (bit_vector);
    assert(((((t & 0x55555555) + ((t >> 1) & 0x55555555)) as u32 >> (4 * j)) & 3) == ((t >> (4
        * j)) & 1) + ((t >> (4 * j + 1)) & 1)) by (bit_vector)
        requires
            j < 8,
    ;
    assert(((((t & 0x55555555) + ((t >> 1) & 0x55555555)) as u32 >> (4 * j + 2)) & 3) == ((t >> (4
        * j + 2)) & 1) + ((t >> (4 * j + 3)) & 1)) by (bit_vector)
        requires
            j < 8,
    ;
}

proof fn lemma_cbd3_word(t: u32, j: u32)
    requires
        j < 4,
        t < 0x1000000,
    ensures
        (t & 0x00249249) + ((t >> 1) & 0x00249249) <= u32::MAX,
        ((t & 0x00249249) + ((t >> 1) & 0x00249249)) as u32 + ((t >> 2) & 0x00249249) <= u32::MAX,
        (((((t & 0x00249249) + ((t >> 1) & 0x00249249)) as u32 + ((t >> 2) & 0x00249249)) as u32
            >> (6 * j)) & 7) == ((t >> (6 * j)) & 1) + ((t >> (6 * j + 1)) & 1) + ((t >> (6 * j
            + 2)) & 1),
        (((((t & 0x00249249) + ((t >> 1) & 0x00249249)) as u32 + ((t >> 2) & 0x00249249)) as u32
            >> (6 * j + 3)) & 7) == ((t >> (6 * j + 3)) & 1) + ((t >> (6 * j + 4)) & 1) + ((t >> (6
            * j + 5)) & 1),
{
    assert((t & 0x00249249) + ((t >> 1) & 0x00249249) <= u32::MAX) by (bit_vector);
    assert(((t & 0x00249249) + ((t >> 1) & 0x00249249)) as u32 + ((t >> 2) & 0x00249249)
        <= u32::MAX) by (bit_vector);
    assert((((((t & 0x00249249) + ((t >> 1) & 0x00249249)) as u32 + ((t >> 2) & 0x00249249)) as u32
        >> (6 * j)) & 7) == ((t >> (6 * j)) & 1) + ((t >> (6 * j + 1)) & 1) + ((t >> (6 * j + 2))
        & 1)) by (bit_vector)
        requires
            j < 4,
            t < 0x1000000,
    ;
    assert((((((t & 0x00249249) + ((t >> 1) & 0x00249249)) as u32 + ((t >> 2) & 0x00249249)) as u32
        >> (6 * j + 3)) & 7) == ((t >> (6 * j + 3)) & 1) + ((t >> (6 * j + 4)) & 1) + ((t >> (6 * j
        + 5)) & 1)) by (bit_vector)
        requires
            j < 4,
            t < 0x1000000,
    ;
}

/// Bit p of the word loaded from bytes `off`..`off + 4` is bit `8 off + p` of the stream.
proof fn lemma_loaded_bit(buf: Seq<u8>, off: int, t: u32, p: u32)
    requires
        0 <= off,
        off + 4 <= buf.len(),
        p < 32,
        t == le32(buf[off] as int, buf[off + 1] as int, buf[off + 2] as int, buf[off + 3] as int),
    ensures
        ((t >> p) & 1) as int == buf_bit(buf, 8 * off + p),
{
    let x0 = buf[off];
    let x1 = buf[off + 1];
    let x2 = buf[off + 2];
    let x3 = buf[off + 3];
    lemma_load32(x0 as u32, x1 as u32, x2 as u32, x3 as u32);
    lemma_word_bit(x0, x1, x2, x3, p);
    let g = 8 * off + p;
    assert(g / 8 == off + p / 8);
    assert(g % 8 == p % 8);
}

/// Bit p of the word loaded from bytes `off`..`off + 3` is bit `8 off + p` of the stream.
proof fn lemma_loaded_bit24(buf: Seq<u8>, off: int, t: u32, p: u32)
    requires
        0 <= off,
        off + 3 <= buf.len(),
        p < 24,
        t == le32(buf[off] as int, buf[off + 1] as int, buf[off + 2] as int, 0),
    ensures
        ((t >> p) & 1) as int == buf_bit(buf, 8 * off + p),
{
    let x0 = buf[off];
    let x1 = buf[off + 1];
    let x2 = buf[off + 2];
    lemma_load32(x0 as u32, x1 as u32, x2 as u32, 0);
    lemma_word_bit(x0, x1, x2, 0, p);
    let g = 8 * off + p;
    assert(g / 8 == off + p / 8);
    assert(g % 8 == p % 8);
}

/// Centred binomial sampling with parameter 2 into the 256 coefficients of `r`, from the
/// first 128 bytes of `buf`; the NTT flag is kept.
fn cbd2(r: &mut Poly, buf: &[u8])
    requires
        buf.len() >= 128,
    ensures
        forall|m: int| 0 <= m < 256 ==> final(r).coeff[m] == #[trigger] cbd2_coeff(buf@, m),
        final(r).ntt == old(r).ntt,
{
    for i in 0..(N / 8)
        invariant
            buf.len() >= 128,
            r.ntt == old(r).ntt,
            forall|m: int| 0 <= m < 8 * i ==> r.coeff[m] == #[trigger] cbd2_coeff(buf@, m),
    {
        let t = load32_LE(vstd::slice::slice_subrange(buf, 4 * i, buf.len()));
        let mut d = t & 0x55555555;
        proof {
            lemma_cbd2_word(t, 0);
        }
        d += (t >> 1) & 0x55555555;
        for j in 0..8
            invariant
                buf.len() >= 128,
                i < 32,
                r.ntt == old(r).ntt,
                t == le32(buf[4 * i as int] as int, buf[4 * i + 1] as int, buf[4 * i + 2] as int, buf[4 * i + 3] as int),
                d == ((t & 0x55555555) + ((t >> 1) & 0x55555555)) as u32,
                forall|m: int| 0 <= m < 8 * i + j ==> r.coeff[m] == #[trigger] cbd2_coeff(buf@, m),
        {
            proof {
                let jj = j as u32;
                lemma_cbd2_word(t, jj);
                let m = 8 * i + j;
                lemma_loaded_bit(buf@, 4 * i as int, t, (4 * jj) as u32);
                lemma_loaded_bit(buf@, 4 * i as int, t, (4 * jj + 1) as u32);
                lemma_loaded_bit(buf@, 4 * i as int, t, (4 * jj + 2) as u32);
                lemma_loaded_bit(buf@, 4 * i as int, t, (4 * jj + 3) as u32);
                assert(8 * (4 * i) + 4 * j == 4 * m);
            }
            let a = ((d >> (4 * j)) & 0x3) as i16;
            let b = ((d >> (4 * j + 2)) & 0x3) as i16;
            r.coeff[8 * i + j] = a - b;
        }
    }
}

/// Centred binomial sampling with parameter 3 into the 256 coefficients of `r`, from the
/// first 192 bytes of `buf`; the NTT flag is kept.
pub fn cbd3(r: &mut Poly, buf: &[u8])
    requires
        buf.len() >= 192,
    ensures
        forall|m: int| 0 <= m < 256 ==> final(r).coeff[m] == #[trigger] cbd3_coeff(buf@, m),
        final(r).ntt == old(r).ntt,
{
    for i in 0..(N / 4)
        invariant
            buf.len() >= 192,
            r.ntt == old(r).ntt,
            forall|m: int| 0 <= m < 4 * i ==> r.coeff[m] == #[trigger] cbd3_coeff(buf@, m),
    {
        let t = load24_LE(vstd::slice::slice_subrange(buf, 3 * i, buf.len()));
        assert(t < 0x1000000);
        let mut d = t & 0x00249249;
        proof {
            lemma_cbd3_word(t, 0);
        }
        d += (t >> 1) & 0x00249249;
        d += (t >> 2) & 0x00249249;
        for j in 0..4
            invariant
                buf.len() >= 192,
                i < 64,
                r.ntt == old(r).ntt,
                t == le32(buf[3 * i as int] as int, buf[3 * i + 1] as int, buf[3 * i + 2] as int, 0),
                t < 0x1000000,
                d == (((t & 0x00249249) + ((t >> 1) & 0x00249249)) as u32 + ((t >> 2) & 0x00249249)) as u32,
                forall|m: int| 0 <= m < 4 * i + j ==> r.coeff[m] == #[trigger] cbd3_coeff(buf@, m),
        {
            proof {
                let jj = j as u32;
                lemma_cbd3_word(t, jj);
                let m = 4 * i + j;
                lemma_loaded_bit24(buf@, 3 * i as int, t, (6 * jj) as u32);
                lemma_loaded_bit24(buf@, 3 * i as int, t, (6 * jj + 1) as u32);
                lemma_loaded_bit24(buf@, 3 * i as int, t, (6 * jj + 2) as u32);
                lemma_loaded_bit24(buf@, 3 * i as int, t, (6 * jj + 3) as u32);
                lemma_loaded_bit24(buf@, 3 * i as int, t, (6 * jj + 4) as u32);
                lemma_loaded_bit24(buf@, 3 * i as int, t, (6 * jj + 5) as u32);
                assert(8 * (3 * i) + 6 * j == 6 * m);
            }
            let a = ((d >> (6 * j)) & 0x7) as i16;
            let b = ((d >> (6 * j + 3)) & 0x7) as i16;
            r.coeff[4 * i + j] = a - b;
        }
    }
}

/// The bytes that `CBD` reads: its last step, `cbd3`, consumes 3 N / 4 of them.
pub const CBD_BYTES: usize = 192;

/// The bytes that `parse` reads: two per coefficient.
pub const PARSE_BYTES: usize = 512;

proof fn lemma_cbd3_range(buf: Seq<u8>, m: int)
    ensures
        -3 <= cbd3_coeff(buf, m) <= 3,
{
    let g = 6 * m;
    assert forall|x: int| 0 <= x < 6 implies 0 <= #[trigger] buf_bit(buf, g + x) <= 1 by {
        vstd::arithmetic::power2::lemma_pow2_pos(((g + x) % 8) as nat);
    }
    assert(0 <= buf_bit(buf, g + 0) <= 1);
    assert(0 <= buf_bit(buf, g + 1) <= 1);
    assert(0 <= buf_bit(buf, g + 2) <= 1);
    assert(0 <= buf_bit(buf, g + 3) <= 1);
    assert(0 <= buf_bit(buf, g + 4) <= 1);
    assert(0 <= buf_bit(buf, g + 5) <= 1);
}

/// A centred binomial sample outside the NTT domain from the first 192 bytes of `b`.
/// `cbd2` runs when `ETA` is 2 and `cbd3` runs in every case after it, so the result
/// is the parameter-3 sample whatever `ETA` is.
pub fn CBD(b: &[u8], ETA: usize) -> (res: Poly)
    requires
        b.len() >= 192,
    ensures
        forall|m: int| 0 <= m < 256 ==> res.coeff[m] == #[trigger] cbd3_coeff(b@, m),
        forall|m: int| 0 <= m < 256 ==> -3 <= #[trigger] res.coeff[m] <= 3,
        !res.ntt,
{
    let mut res = Poly::default();
    res.ntt = false;
    if ETA == 2 {
        cbd2(&mut res, b);
    }
    cbd3(&mut res, b);
    proof {
        assert forall|m: int| 0 <= m < 256 implies -3 <= #[trigger] res.coeff[m] <= 3 by {
            lemma_cbd3_range(b@, m);
        }
    }
    res
}

/// The seed of matrix entry (i, j): 32 bytes of `rho`, then j and i as 16-bit little-endian words.
pub open spec fn matrix_seed(rho: Seq<u8>, i: int, j: int) -> Seq<u8> {
    rho.subrange(0, 32) + seq![(j % 256) as u8, (j / 256) as u8, (i % 256) as u8, (i / 256) as u8]
}

/// The seed of noise polynomial n: 32 bytes of `sigma`, then n as a 16-bit little-endian word.
pub open spec fn noise_seed(sigma: Seq<u8>, n: int) -> Seq<u8> {
    sigma.subrange(0, 32) + seq![(n % 256) as u8, (n / 256) as u8]
}

/// The seed of matrix entry (i, j) is 36 bytes: the first 32 bytes of `rho`, then j and
/// i as 16-bit little-endian words, whatever the bytes of `rho` are, so both indices can
/// be read back from it.
pub proof fn lemma_matrix_seed_indices(rho: Seq<u8>, i: int, j: int)
    requires
        rho.len() >= 32,
        0 <= i < 65536,
        0 <= j < 65536,
    ensures
        matrix_seed(rho, i, j).len() == 36,
        matrix_seed(rho, i, j).subrange(0, 32) == rho.subrange(0, 32),
        matrix_seed(rho, i, j)[32] + 256 * matrix_seed(rho, i, j)[33] == j,
        matrix_seed(rho, i, j)[34] + 256 * matrix_seed(rho, i, j)[35] == i,
{
    let s = matrix_seed(rho, i, j);
    assert(s.subrange(0, 32) =~= rho.subrange(0, 32));
    assert(s[32] == (j % 256) as u8 && s[33] == (j / 256) as u8);
    assert(s[34] == (i % 256) as u8 && s[35] == (i / 256) as u8);
}

/// Different entries of the matrix are sampled from different seeds: for every `rho`,
/// entries (i, j) and (i2, j2) with (i, j) != (i2, j2) have different XOF inputs.
pub proof fn lemma_matrix_seeds_distinct(rho: Seq<u8>, i: int, j: int, i2: int, j2: int)
    requires
        rho.len() >= 32,
        0 <= i < 65536,
        0 <= j < 65536,
        0 <= i2 < 65536,
        0 <= j2 < 65536,
        i != i2 || j != j2,
    ensures
        matrix_seed(rho, i, j) != matrix_seed(rho, i2, j2),
{
    lemma_matrix_seed_indices(rho, i, j);
    lemma_matrix_seed_indices(rho, i2, j2);
}

/// The seed of noise polynomial n is 34 bytes: the first 32 bytes of the key, then n as a
/// 16-bit little-endian word, whatever the bytes of the key are, so n can be read back.
pub proof fn lemma_noise_seed_nonce(key: Seq<u8>, n: int)
    requires
        key.len() >= 32,
        0 <= n < 65536,
    ensures
        noise_seed(key, n).len() == 34,
        noise_seed(key, n).subrange(0, 32) == key.subrange(0, 32),
        noise_seed(key, n)[32] + 256 * noise_seed(key, n)[33] == n,
{
    let s = noise_seed(key, n);
    assert(s.subrange(0, 32) =~= key.subrange(0, 32));
    assert(s[32] == (n % 256) as u8 && s[33] == (n / 256) as u8);
}

/// Different nonces give different PRF inputs: for every key, noise polynomials n and
/// n2 != n are sampled from different seeds.
pub proof fn lemma_noise_seeds_distinct(key: Seq<u8>, n: int, n2: int)
    requires
        key.len() >= 32,
        0 <= n < 65536,
        0 <= n2 < 65536,
        n != n2,
    ensures
        noise_seed(key, n) != noise_seed(key, n2),
{
    lemma_noise_seed_nonce(key, n);
    lemma_noise_seed_nonce(key, n2);
}

/// The polynomial that `parse` makes of 512 bytes.
pub open spec fn parse_poly(b: Seq<u8>, p: Poly) -> bool {
    &&& p.ntt
    &&& forall|c: int| 0 <= c < 256 ==> p.coeff[c] == #[trigger] parse_coeff(b, c)
    &&& forall|c: int| 0 <= c < 256 ==> -8192 < #[trigger] p.coeff[c] <= 4096
}

/// The polynomial that `CBD` makes of 192 bytes.
pub open spec fn cbd_poly(b: Seq<u8>, p: Poly) -> bool {
    &&& !p.ntt
    &&& forall|m: int| 0 <= m < 256 ==> p.coeff[m] == #[trigger] cbd3_coeff(b, m)
    &&& forall|m: int| 0 <= m < 256 ==> -3 <= #[trigger] p.coeff[m] <= 3
}

proof fn lemma_byte_of(n: usize)
    requires
        n < 65536,
    ensures
        (n as u8) == (n % 256) as u8,
        ((n >> 8) as u8) == (n / 256) as u8,
{
    assert((n as u8) == (n % 256) as u8) by (bit_vector);
    assert(((n >> 8) as u8) == (n / 256) as u8) by (bit_vector)
        requires
            n < 65536,
    ;
}

/// The 34-byte seed of noise polynomial n: the first 32 bytes of `key`, then n as a
/// 16-bit little-endian word.
pub(crate) fn prf_seed(key: &[u8], n: usize) -> (seed: [u8; 34])
    requires
        key.len() >= 32,
        n < 65536,
    ensures
        seed@ == noise_seed(key@, n as int),
{
    let mut seed = [0u8; 34];
    for c in 0..32
        invariant
            key.len() >= 32,
            forall|c2: int| 0 <= c2 < c ==> seed[c2] == #[trigger] key[c2],
    {
        seed[c] = key[c];
    }
    seed[32] = n as u8;
    seed[33] = (n >> 8) as u8;
    proof {
        lemma_byte_of(n);
        assert(seed@ =~= noise_seed(key@, n as int));
    }
    seed
}

/// The public matrix: entry (i, j) is `parse` of 512 bytes of SHAKE128 output for
/// `rho` followed by j and i as 16-bit little-endian words (a 36-byte seed).
pub fn get_matrix(rho: &[u8]) -> (A: Mat<K, K>)
    requires
        rho.len() >= 32,
    ensures
        forall|i: int, j: int|
            0 <= i < K && 0 <= j < K ==> parse_poly(
                shake128(matrix_seed(rho@, i, j), 512),
                #[trigger] A.vec[i].poly[j],
            ),
{
    let mut A: Mat<K, K> = Mat::<K, K>::default();
    for i in 0..K
        invariant
            rho.len() >= 32,
            forall|i2: int, j: int|
                0 <= i2 < i && 0 <= j < K ==> parse_poly(
                    shake128(matrix_seed(rho@, i2, j), 512),
                    #[trigger] A.vec[i2].poly[j],
                ),
    {
        for j in 0..K
            invariant
                rho.len() >= 32,
                i < K,
                forall|i2: int, j2: int|
                    0 <= i2 < i && 0 <= j2 < K ==> parse_poly(
                        shake128(matrix_seed(rho@, i2, j2), 512),
                        #[trigger] A.vec[i2].poly[j2],
                    ),
                forall|j2: int|
                    0 <= j2 < j ==> parse_poly(
                        shake128(matrix_seed(rho@, i as int, j2), 512),
                        #[trigger] A.vec[i as int].poly[j2],
                    ),
        {
            let mut tmp = [0u8; PARSE_BYTES];
            let mut seed = [0u8; 36];
            for c in 0..32
                invariant
                    rho.len() >= 32,
                    forall|c2: int| 0 <= c2 < c ==> seed[c2] == #[trigger] rho[c2],
            {
                seed[c] = rho[c];
            }
            seed[32] = j as u8;
            seed[33] = (j >> 8) as u8;
            seed[34] = i as u8;
            seed[35] = (i >> 8) as u8;
            proof {
                lemma_byte_of(j);
                lemma_byte_of(i);
                assert(seed@ =~= matrix_seed(rho@, i as int, j as int));
            }
            xof(&seed, &mut tmp);
            A.vec[i].poly[j] = parse(&tmp);
        }
    }
    A
}

/// The secret noise vector: polynomial i is `CBD` of 192 bytes of SHAKE256 output for
/// `sigma` followed by i (the 192 bytes that `CBD` reads).
pub fn get_noise(sigma: &[u8]) -> (s: VecPoly<K>)
    requires
        sigma.len() >= 32,
    ensures
        forall|i: int| 0 <= i < K ==> cbd_poly(shake256(noise_seed(sigma@, i), 192), #[trigger] s.poly[i]),
{
    let mut s = VecPoly::<K>::default();
    for i in 0..K
        invariant
            sigma.len() >= 32,
            forall|i2: int| 0 <= i2 < i ==> cbd_poly(shake256(noise_seed(sigma@, i2), 192), #[trigger] s.poly[i2]),
    {
        let mut tmp = [0u8; CBD_BYTES];
        let mut seed = [0u8; 34];
        for c in 0..32
            invariant
                sigma.len() >= 32,
                forall|c2: int| 0 <= c2 < c ==> seed[c2] == #[trigger] sigma[c2],
        {
            seed[c] = sigma[c];
        }
        seed[32] = i as u8;
        seed[33] = (i >> 8) as u8;
        proof {
            lemma_byte_of(i);
            assert(seed@ =~= noise_seed(sigma@, i as int));
        }
        prf(&seed, &mut tmp);
        s.poly[i] = CBD(&tmp, ETA1);
    }
    s
}

/// The error vector: polynomial i is `CBD` of 192 bytes of SHAKE256 output for `sigma`
/// followed by i + K (the 192 bytes that `CBD` reads).
pub fn get_error(sigma: &[u8]) -> (s: VecPoly<K>)
    requires
        sigma.len() >= 32,
    ensures
        forall|i: int| 0 <= i < K ==> cbd_poly(shake256(noise_seed(sigma@, i + K), 192), #[trigger] s.poly[i]),
{
    let mut s = VecPoly::<K>::default();
    for i in 0..K
        invariant
            sigma.len() >= 32,
            forall|i2: int| 0 <= i2 < i ==> cbd_poly(shake256(noise_seed(sigma@, i2 + K), 192), #[trigger] s.poly[i2]),
    {
        let mut tmp = [0u8; CBD_BYTES];
        let mut seed = [0u8; 34];
        for c in 0..32
            invariant
                sigma.len() >= 32,
                forall|c2: int| 0 <= c2 < c ==> seed[c2] == #[trigger] sigma[c2],
        {
            seed[c] = sigma[c];
        }
        seed[32] = (i + K) as u8;
        seed[33] = ((i + K) >> 8) as u8;
        proof {
            lemma_byte_of((i + K) as usize);
            assert(seed@ =~= noise_seed(sigma@, i + K));
        }
        prf(&seed, &mut tmp);
        s.poly[i] = CBD(&tmp, ETA1);
    }
    s
}

} // verus!
