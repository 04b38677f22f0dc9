//! The key encapsulation mechanism built on the public-key encryption scheme:
//! key generation, encapsulation, and decapsulation with implicit rejection.

use vstd::prelude::*;

use crate::kex::{
    ct_u, dec_w, dot, lemma_dot_agree, sk_poly, decryption, decryption_spec, encryption, encryption_spec, keyGen as pke_key_gen, keygen_pk,
    keygen_sk, random_bytes,
};
use crate::correctness::{dec_noise, lemma_decrypt_encrypt, small_noise};
use crate::ntt::ntt_spec;
use crate::packing::{dec_coeff, lemma_bits_value_agree};
use crate::params::{CIPHERTEXTBYTES, K, KEMSK_BYTES, PK_BYTES, SHAREDKEY, SK_BYTES};
use crate::sample::{kdf, sha3_256, sha3_512, shake256, G, H};

verus! {

/// The KEM secret key for key seed `d` and rejection seed `z`: the encryption secret
/// key, the public key, H(public key), then z.
pub open spec fn kem_sk(d: Seq<u8>, z: Seq<u8>) -> Seq<u8> {
    keygen_sk(d) + keygen_pk(d) + sha3_256(keygen_pk(d)) + z
}

/// G(H(seed) || H(pk)): the pre-key (first half) and the coins (second half).
pub open spec fn encaps_kr(pk: Seq<u8>, seed: Seq<u8>) -> Seq<u8> {
    sha3_512(sha3_256(seed) + sha3_256(pk))
}

/// The ciphertext of an encapsulation: the encryption of H(seed) with the coins.
pub open spec fn encaps_ct(pk: Seq<u8>, seed: Seq<u8>) -> Seq<u8> {
    encryption_spec(pk, sha3_256(seed), encaps_kr(pk, seed).subrange(32, 64))
}

/// The shared key of an encapsulation: KDF(pre-key || H(ciphertext)), 32 bytes.
pub open spec fn encaps_key(pk: Seq<u8>, seed: Seq<u8>) -> Seq<u8> {
    shake256(encaps_kr(pk, seed).subrange(0, 32) + sha3_256(encaps_ct(pk, seed)), 32)
}

/// G(m' || h) in decapsulation, where m' is the decryption of `c` and h is read from `sk`.
pub open spec fn decaps_kr(sk: Seq<u8>, c: Seq<u8>) -> Seq<u8> {
    sha3_512(decryption_spec(sk, c) + sk.subrange(2336, 2368))
}

/// The re-encryption of the decrypted message under the public key stored in `sk`.
pub open spec fn decaps_ct(sk: Seq<u8>, c: Seq<u8>) -> Seq<u8> {
    encryption_spec(sk.subrange(1152, 2336), decryption_spec(sk, c), decaps_kr(sk, c).subrange(32, 64))
}

/// The key that decapsulation returns: KDF(pre-key || H(c)) when the re-encryption gives
/// `c` back, and KDF(z || H(c)) otherwise.
pub open spec fn decaps_key(sk: Seq<u8>, c: Seq<u8>) -> Seq<u8> {
    if c == decaps_ct(sk, c) {
        shake256(decaps_kr(sk, c).subrange(0, 32) + sha3_256(c), 32)
    } else {
        shake256(sk.subrange(2368, 2400) + sha3_256(c), 32)
    }
}

/// Whether two byte strings are equal.
fn bytes_eq(a: &[u8], b: &[u8]) -> (r: bool)
    ensures
        r == (a@ == b@),
{
    if a.len() != b.len() {
        return false;
    }
    for i in 0..a.len()
        invariant
            a.len() == b.len(),
            forall|j: int| 0 <= j < i ==> a[j] == b[j],
    {
        if a[i] != b[i] {
            return false;
        }
    }
    assert(a@ =~= b@);
    true
}

/// Copies `src[from..from + n]` into `dst[at..at + n]`; the rest of `dst` is kept.
fn copy_bytes(dst: &mut [u8], at: usize, src: &[u8], from: usize, n: usize)
    requires
        at + n <= old(dst).len(),
        from + n <= src.len(),
    ensures
        final(dst).len() == old(dst).len(),
        final(dst)@ == old(dst)@.subrange(0, at as int) + src@.subrange(from as int, from + n)
            + old(dst)@.subrange(at + n, old(dst)@.len() as int),
{
    for k in 0..n
        invariant
            at + n <= old(dst).len(),
            from + n <= src.len(),
            dst.len() == old(dst).len(),
            forall|j: int| 0 <= j < k ==> #[trigger] dst[at + j] == src[from + j],
            forall|j: int| 0 <= j < old(dst).len() && !(at <= j < at + k) ==> #[trigger] dst[j] == old(dst)[j],
    {
        dst[at + k] = src[from + k];
    }
    let ghost rhs = old(dst)@.subrange(0, at as int) + src@.subrange(from as int, from + n)
        + old(dst)@.subrange(at + n, old(dst)@.len() as int);
    assert forall|j: int| 0 <= j < dst.len() implies dst@[j] == rhs[j] by {
        if at <= j < at + n {
            assert(dst[at + (j - at)] == src[from + (j - at)]);
        } else {
            assert(dst[j] == old(dst)[j]);
        }
    }
    assert(dst@ =~= rhs);
}

/// The KEM secret key from the encryption key pair and the rejection seed `z`:
/// `skp`, `pk`, H(pk), then `z`.
pub fn kem_secret_key(pk: &[u8; PK_BYTES], skp: &[u8; SK_BYTES], z: &[u8; 32]) -> (sk: [u8; KEMSK_BYTES])
    ensures
        sk@ == skp@ + pk@ + sha3_256(pk@) + z@,
{
    let mut sk = [0u8; KEMSK_BYTES];
    let mut h = [0u8; 32];
    H(pk, &mut h);
    copy_bytes(&mut sk, 0, skp, 0, SK_BYTES);
    copy_bytes(&mut sk, SK_BYTES, pk, 0, PK_BYTES);
    copy_bytes(&mut sk, SK_BYTES + PK_BYTES, &h, 0, 32);
    copy_bytes(&mut sk, SK_BYTES + PK_BYTES + 32, z, 0, 32);
    assert(sk@ =~= skp@ + pk@ + sha3_256(pk@) + z@);
    sk
}

/// KEM key generation: an encryption key pair, and 32 random bytes z kept for implicit
/// rejection.
pub fn keyGen() -> (res: ([u8; PK_BYTES], [u8; KEMSK_BYTES]))
    ensures
        exists|d: Seq<u8>, z: Seq<u8>|
            d.len() == 32 && z.len() == 32 && res.0@ == keygen_pk(d) && res.1@ == kem_sk(d, z),
{
    let (pk, skp) = pke_key_gen();
    let z = random_bytes();
    let sk = kem_secret_key(&pk, &skp, &z);
    proof {
        let d = choose|d: Seq<u8>| d.len() == 32 && pk@ == keygen_pk(d) && skp@ == keygen_sk(d);
        assert(sk@ == kem_sk(d, z@));
    }
    (pk, sk)
}

/// Encapsulation with the 32 bytes `seed`: m = H(seed), (pre-key, coins) = G(m || H(pk)),
/// c = the encryption of m under `pk` with the coins, and the shared key is
/// KDF(pre-key || H(c)).
pub fn encapsulation_from_seed(pk: &[u8], seed: &[u8; 32]) -> (res: ([u8; CIPHERTEXTBYTES], [u8; SHAREDKEY]))
    requires
        pk.len() >= PK_BYTES,
    ensures
        res.0@ == encaps_ct(pk@, seed@),
        res.1@ == encaps_key(pk@, seed@),
{
    let mut m = [0u8; 32];
    H(seed, &mut m);
    let mut hpk = [0u8; 32];
    H(pk, &mut hpk);

    let mut g_in = [0u8; 64];
    copy_bytes(&mut g_in, 0, &m, 0, 32);
    copy_bytes(&mut g_in, 32, &hpk, 0, 32);
    assert(g_in@ =~= sha3_256(seed@) + sha3_256(pk@));

    let mut kr = [0u8; 64];
    G(&g_in, &mut kr);
    let mut shk = [0u8; 32];
    let mut r = [0u8; 32];
    copy_bytes(&mut shk, 0, &kr, 0, 32);
    copy_bytes(&mut r, 0, &kr, 32, 32);
    assert(r@ =~= encaps_kr(pk@, seed@).subrange(32, 64));

    let c = encryption(pk, &m, &r);

    let mut hc = [0u8; 32];
    H(&c, &mut hc);
    let mut k_in = [0u8; 64];
    copy_bytes(&mut k_in, 0, &shk, 0, 32);
    copy_bytes(&mut k_in, 32, &hc, 0, 32);
    assert(k_in@ =~= encaps_kr(pk@, seed@).subrange(0, 32) + sha3_256(encaps_ct(pk@, seed@)));

    let mut ss = [0u8; SHAREDKEY];
    kdf(&k_in, &mut ss);
    (c, ss)
}

/// Encapsulation: draws 32 random bytes and encapsulates with them.
pub fn encapsulation(pk: &[u8]) -> (res: ([u8; CIPHERTEXTBYTES], [u8; SHAREDKEY]))
    requires
        pk.len() >= PK_BYTES,
    ensures
        exists|seed: Seq<u8>|
            seed.len() == 32 && res.0@ == encaps_ct(pk@, seed) && res.1@ == encaps_key(pk@, seed),
{
    let seed = random_bytes();
    let res = encapsulation_from_seed(pk, &seed);
    assert(seed@.len() == 32 && res.0@ == encaps_ct(pk@, seed@) && res.1@ == encaps_key(pk@, seed@));
    res
}

/// Decapsulation: decrypts `c` with the secret key, re-encrypts the message with the
/// coins from G(m' || h) under the stored public key, and returns KDF(pre-key || H(c))
/// when that gives `c` back, KDF(z || H(c)) otherwise.
pub fn decapsulation(sk: &[u8], c: &[u8]) -> (ss: [u8; SHAREDKEY])
    requires
        sk.len() == KEMSK_BYTES,
        c.len() >= CIPHERTEXTBYTES,
    ensures
        ss@ == decaps_key(sk@, c@),
{
    let mut pk = [0u8; PK_BYTES];
    copy_bytes(&mut pk, 0, sk, SK_BYTES, PK_BYTES);
    let mut h = [0u8; 32];
    copy_bytes(&mut h, 0, sk, SK_BYTES + PK_BYTES, 32);
    let mut z = [0u8; 32];
    copy_bytes(&mut z, 0, sk, SK_BYTES + PK_BYTES + 32, 32);
    assert(pk@ =~= sk@.subrange(1152, 2336));
    assert(h@ =~= sk@.subrange(2336, 2368));
    assert(z@ =~= sk@.subrange(2368, 2400));

    let mp = decryption(sk, c);

    let mut g_in = [0u8; 64];
    copy_bytes(&mut g_in, 0, &mp, 0, 32);
    copy_bytes(&mut g_in, 32, &h, 0, 32);
    assert(g_in@ =~= decryption_spec(sk@, c@) + sk@.subrange(2336, 2368));

    let mut kr = [0u8; 64];
    G(&g_in, &mut kr);
    let mut shkp = [0u8; 32];
    let mut r = [0u8; 32];
    copy_bytes(&mut shkp, 0, &kr, 0, 32);
    copy_bytes(&mut r, 0, &kr, 32, 32);
    assert(r@ =~= decaps_kr(sk@, c@).subrange(32, 64));

    let cp = encryption(&pk, &mp, &r);

    let mut hc = [0u8; 32];
    H(c, &mut hc);

    let mut k_in = [0u8; 64];
    if bytes_eq(c, &cp) {
        copy_bytes(&mut k_in, 0, &shkp, 0, 32);
        copy_bytes(&mut k_in, 32, &hc, 0, 32);
        assert(k_in@ =~= decaps_kr(sk@, c@).subrange(0, 32) + sha3_256(c@));
    } else {
        copy_bytes(&mut k_in, 0, &z, 0, 32);
        copy_bytes(&mut k_in, 32, &hc, 0, 32);
        assert(k_in@ =~= sk@.subrange(2368, 2400) + sha3_256(c@));
    }
    let mut ss = [0u8; SHAREDKEY];
    kdf(&k_in, &mut ss);
    ss
}

/// Decryption reads only the first 1152 bytes of the secret key.
proof fn lemma_decryption_prefix(sk1: Seq<u8>, sk2: Seq<u8>, c: Seq<u8>)
    requires
        sk1.len() >= SK_BYTES,
        sk2.len() >= SK_BYTES,
        sk1.subrange(0, 1152) == sk2.subrange(0, 1152),
    ensures
        decryption_spec(sk1, c) == decryption_spec(sk2, c),
{
    assert(SK_BYTES == 1152);
    assert forall|j: int| 0 <= j < 1152 implies sk1[j] == sk2[j] by {
        assert(sk1.subrange(0, 1152)[j] == sk1[j]);
        assert(sk2.subrange(0, 1152)[j] == sk2[j]);
        assert(sk1.subrange(0, 1152)[j] == sk2.subrange(0, 1152)[j]);
    }
    let a1 = |i: int| sk_poly(sk1, i);
    let a2 = |i: int| sk_poly(sk2, i);
    let b = |i: int| ntt_spec(ct_u(c, i));
    let p1 = Seq::new(256, |y: int| dot(a1, b, K as int, y));
    let p2 = Seq::new(256, |y: int| dot(a2, b, K as int, y));
    assert forall|x: int| 0 <= x < 256 implies #[trigger] p1[x] == p2[x] by {
        assert forall|i: int| 0 <= i < K implies #[trigger] a1(i)[x] == a2(i)[x] by {
            lemma_bits_value_agree(sk1, sk2, 384 * i, 12 * x, 12, 1152);
        }
        lemma_dot_agree(a1, a2, b, K as int, x);
    }
    assert(p1 =~= p2);
    assert(dec_w(sk1, c) =~= dec_w(sk2, c));
}

/// Decapsulation gives back the key of an encapsulation whenever the encrypted message
/// is decrypted correctly: for the key pair generated from `d` and `z`, and the
/// encapsulation under its public key with `seed`, if decrypting the ciphertext with the
/// encryption secret key gives H(seed), decapsulating the ciphertext with the KEM secret
/// key gives the encapsulated shared key.
pub proof fn lemma_decaps_encaps(d: Seq<u8>, z: Seq<u8>, seed: Seq<u8>)
    requires
        z.len() == 32,
        kem_sk(d, z).len() == KEMSK_BYTES,
        decryption_spec(keygen_sk(d), encaps_ct(keygen_pk(d), seed)) == sha3_256(seed),
    ensures
        decaps_key(kem_sk(d, z), encaps_ct(keygen_pk(d), seed)) == encaps_key(keygen_pk(d), seed),
{
    let pk = keygen_pk(d);
    let sk = kem_sk(d, z);
    let c = encaps_ct(pk, seed);
    assert(sk.subrange(0, 1152) =~= keygen_sk(d).subrange(0, 1152));
    assert(sk.subrange(1152, 2336) =~= pk);
    assert(sk.subrange(2336, 2368) =~= sha3_256(pk));
    lemma_decryption_prefix(sk, keygen_sk(d), c);
    assert(decaps_kr(sk, c) == encaps_kr(pk, seed));
    assert(decaps_ct(sk, c) == c);
}

/// Decapsulation gives back the encapsulated key whenever the encryption noise is small:
/// for the key pair generated from `d` and `z` and the encapsulation under its public key
/// with `seed`, if every coefficient of the noise of encrypting H(seed) with the
/// encapsulation's coins lies within a quarter of q of 0 modulo q, decapsulating the
/// ciphertext gives the encapsulated shared key.
pub proof fn lemma_kem_correct(d: Seq<u8>, z: Seq<u8>, seed: Seq<u8>)
    requires
        z.len() == 32,
        sha3_256(seed).len() == 32,
        kem_sk(d, z).len() == KEMSK_BYTES,
        forall|x: int|
            0 <= x < 256 ==> small_noise(
                #[trigger] dec_noise(d, sha3_256(seed), encaps_kr(keygen_pk(d), seed).subrange(32, 64))[x],
                dec_coeff(sha3_256(seed), 0, 1, x),
            ),
    ensures
        decaps_key(kem_sk(d, z), encaps_ct(keygen_pk(d), seed)) == encaps_key(keygen_pk(d), seed),
{
    lemma_decrypt_encrypt(d, sha3_256(seed), encaps_kr(keygen_pk(d), seed).subrange(32, 64));
    lemma_decaps_encaps(d, z, seed);
}

/// Implicit rejection: decapsulation accepts only a ciphertext equal, in all its bytes,
/// to the re-encryption of its decryption. For every secret key and ciphertext c, with
/// m' the decryption of c, (K', coins) = G(m' || h) and c' the encryption of m' under the
/// stored public key with those coins: if c != c' the key is KDF(z || H(c)), and if
/// c == c' it is KDF(K' || H(c)).
pub proof fn lemma_decaps_implicit_rejection(sk: Seq<u8>, c: Seq<u8>)
    ensures
        ({
            let m = decryption_spec(sk, c);
            let kr = sha3_512(m + sk.subrange(2336, 2368));
            let cp = encryption_spec(sk.subrange(1152, 2336), m, kr.subrange(32, 64));
            &&& c != cp ==> decaps_key(sk, c) == shake256(sk.subrange(2368, 2400) + sha3_256(c), 32)
            &&& c == cp ==> decaps_key(sk, c) == shake256(kr.subrange(0, 32) + sha3_256(c), 32)
        }),
{
}

} // verus!
