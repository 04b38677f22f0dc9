use kyber::ccakem::{
    decapsulation, encapsulation, encapsulation_from_seed, kem_secret_key, keyGen as kem_key_gen,
};
use kyber::kex::{decryption, encryption, keyGen, key_gen_from_seed};
use kyber::sample::H;

fn hex_bytes(s: &str) -> Vec<u8> {
    (0..s.len() / 2).map(|i| u8::from_str_radix(&s[2 * i..2 * i + 2], 16).unwrap()).collect()
}

fn sha3(x: &[u8]) -> Vec<u8> {
    let mut out = [0u8; 32];
    H(x, &mut out);
    out.to_vec()
}

#[test]
fn key_generation_from_zero_seed() {
    let (pk, sk) = key_gen_from_seed(&[0u8; 32]);
    assert_eq!(pk[..4].to_vec(), hex_bytes("ad56c35c"));
    assert_eq!(pk[32..36].to_vec(), hex_bytes("8409ad49"));
    assert_eq!(pk[1180..].to_vec(), hex_bytes("20ea9430"));
    assert_eq!(sk[..4].to_vec(), hex_bytes("04fa8db6"));
    assert_eq!(sk[1148..].to_vec(), hex_bytes("010d1621"));
    assert_eq!(sha3(&pk), hex_bytes("2fa89e1f67bdc7157024e1fff1575374633213c67760795739c6fc90bf21643a"));
}

#[test]
fn key_generation_is_deterministic_in_the_seed() {
    let a = key_gen_from_seed(&[5u8; 32]);
    let b = key_gen_from_seed(&[5u8; 32]);
    let c = key_gen_from_seed(&[6u8; 32]);
    assert_eq!(a.0.to_vec(), b.0.to_vec());
    assert_eq!(a.1.to_vec(), b.1.to_vec());
    assert_ne!(a.0.to_vec(), c.0.to_vec());
}

#[test]
fn packed_keys_hold_reduced_coefficients() {
    let (pk, sk) = key_gen_from_seed(&[42u8; 32]);
    let mut t = kyber::poly::VecPoly::<3>::default();
    let mut rho = [0u8; 32];
    kyber::packing::unpack_pk(&pk, &mut t, &mut rho);
    let mut s = kyber::poly::VecPoly::<3>::default();
    kyber::packing::unpack_sk(&sk, &mut s);
    for k in 0..3 {
        assert!(t.poly[k].coeff.iter().all(|&c| 0 <= c && c < 3329));
        assert!(s.poly[k].coeff.iter().all(|&c| 0 <= c && c < 3329));
    }
}

#[test]
fn encryption_with_fixed_coins() {
    let (pk, _) = key_gen_from_seed(&[0u8; 32]);
    let m: Vec<u8> = (0..32).collect();
    let c = encryption(&pk, &m, &[7u8; 32]);
    assert_eq!(c[..4].to_vec(), hex_bytes("44b1875f"));
    assert_eq!(c[958..962].to_vec(), hex_bytes("8835ad4c"));
    assert_eq!(c[1084..].to_vec(), hex_bytes("058630cb"));
    assert_eq!(sha3(&c), hex_bytes("e07b89e241bf2d4e0a78556730dea41ad149458cbb92b50b8919ac5473eb550c"));
}

#[test]
fn decryption_recovers_the_message() {
    let (pk, sk) = key_gen_from_seed(&[0u8; 32]);
    let m: Vec<u8> = (0..32).collect();
    let c = encryption(&pk, &m, &[7u8; 32]);
    assert_eq!(decryption(&sk, &c).to_vec(), m);
    for seed in 0u8..8 {
        let (pk, sk) = key_gen_from_seed(&[seed; 32]);
        let m: Vec<u8> = (0..32).map(|i| (i as u8).wrapping_mul(seed).wrapping_add(17)).collect();
        let c = encryption(&pk, &m, &[seed.wrapping_add(100); 32]);
        assert_eq!(decryption(&sk, &c).to_vec(), m);
    }
}

#[test]
fn decryption_of_zero_ciphertext() {
    let (_, sk) = key_gen_from_seed(&[0u8; 32]);
    assert_eq!(decryption(&sk, &[0u8; 1088]), [0u8; 32]);
}

#[test]
fn random_key_pair_works() {
    let (pk, sk) = keyGen();
    let m = [0x5au8; 32];
    let c = encryption(&pk, &m, &[1u8; 32]);
    assert_eq!(decryption(&sk, &c), m);
}

#[test]
fn kem_secret_key_layout() {
    let (pk, skp) = key_gen_from_seed(&[0u8; 32]);
    let sk = kem_secret_key(&pk, &skp, &[9u8; 32]);
    assert_eq!(sk[..1152].to_vec(), skp.to_vec());
    assert_eq!(sk[1152..2336].to_vec(), pk.to_vec());
    assert_eq!(sk[2336..2368].to_vec(), sha3(&pk));
    assert_eq!(sk[2368..].to_vec(), vec![9u8; 32]);
}

#[test]
fn encapsulation_with_fixed_seed() {
    let (pk, _) = key_gen_from_seed(&[0u8; 32]);
    let (c, ss) = encapsulation_from_seed(&pk, &[1u8; 32]);
    assert_eq!(c[..4].to_vec(), hex_bytes("d114d2a7"));
    assert_eq!(sha3(&c), hex_bytes("56f07d32a1e7cafbffc9ec96385a65c2c26ff59f2e849cb79136eac39cd3b430"));
    assert_eq!(ss.to_vec(), hex_bytes("8995c98e0cda8e52ffab11ca337441878cbd93597928f1c972eafbf21ab4de6a"));
}

#[test]
fn decapsulation_recovers_the_shared_key() {
    let (pk, skp) = key_gen_from_seed(&[0u8; 32]);
    let sk = kem_secret_key(&pk, &skp, &[9u8; 32]);
    let (c, ss) = encapsulation_from_seed(&pk, &[1u8; 32]);
    assert_eq!(decapsulation(&sk, &c), ss);
}

#[test]
fn decapsulation_rejects_a_modified_ciphertext() {
    let (pk, skp) = key_gen_from_seed(&[0u8; 32]);
    let sk = kem_secret_key(&pk, &skp, &[9u8; 32]);
    let (c, ss) = encapsulation_from_seed(&pk, &[1u8; 32]);
    let mut bad = c;
    bad[0] ^= 1;
    let k = decapsulation(&sk, &bad);
    assert_ne!(k, ss);
    assert_eq!(k.to_vec(), hex_bytes("00e0a55634f436e7208c01cbce12f98fa8efb18e17e1e1bd66f815c90189bb47"));
}

#[test]
fn random_kem_round_trip() {
    let (pk, sk) = kem_key_gen();
    let (c, ss) = encapsulation(&pk);
    assert_eq!(decapsulation(&sk, &c), ss);
    let (c2, ss2) = encapsulation(&pk);
    assert_ne!(c.to_vec(), c2.to_vec());
    assert_ne!(ss, ss2);
}

#[test]
fn encryption_reads_only_the_prefixes() {
    let (pk, _) = key_gen_from_seed(&[3u8; 32]);
    let m: Vec<u8> = (0..32).map(|i| (i * 7) as u8).collect();
    let rc = [11u8; 32];
    let c = encryption(&pk, &m, &rc);
    let mut pk2 = pk.to_vec();
    pk2.extend_from_slice(&[0xEE; 40]);
    let mut m2 = m.clone();
    m2.extend_from_slice(&[1, 2, 3]);
    let mut rc2 = rc.to_vec();
    rc2.push(99);
    assert_eq!(encryption(&pk2, &m2, &rc2).to_vec(), c.to_vec());
}
