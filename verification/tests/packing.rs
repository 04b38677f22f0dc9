use kyber::packing::{decode, encode, pack_pk, pack_sk, unpack_pk, unpack_sk, Decode, Encode};
use kyber::poly::{Poly, VecPoly};

fn poly_with(f: impl Fn(usize) -> i16) -> Poly {
    let mut p = Poly::default();
    for i in 0..256 {
        p.coeff[i] = f(i);
    }
    p
}

#[test]
fn encode_four_bits() {
    let p = poly_with(|i| ((i * 5) % 16) as i16);
    let mut r = [0xAAu8; 200];
    encode(&mut r, &p, 4);
    assert_eq!(&r[..6], &[0x50, 0xfa, 0x94, 0x3e, 0xd8, 0x72]);
    // bytes after the 128 written ones are kept
    assert!(r[128..].iter().all(|&b| b == 0xAA));
}

#[test]
fn encode_ten_bits() {
    let p = poly_with(|i| ((i * 37) % 1024) as i16);
    let mut r = [0u8; 320];
    encode(&mut r, &p, 10);
    assert_eq!(&r[..6], &[0x00, 0x94, 0xa0, 0xc4, 0x1b, 0x94]);
}

#[test]
fn decode_reads_bits_least_significant_first() {
    let mut a = [0u8; 32];
    a[0] = 0b1011_0001;
    let mut p = Poly::default();
    p.ntt = true;
    decode(&mut p, &a, 1);
    assert_eq!(&p.coeff[..8], &[1, 0, 0, 0, 1, 1, 0, 1]);
    assert!(p.coeff[8..].iter().all(|&c| c == 0));
    assert!(p.ntt);
}

#[test]
fn decode_sixteen_bits_is_signed() {
    let mut a = [0u8; 512];
    a[0] = 0xff;
    a[1] = 0xff;
    a[2] = 0x01;
    let mut p = Poly::default();
    decode(&mut p, &a, 16);
    assert_eq!(&p.coeff[..3], &[-1, 1, 0]);
}

#[test]
fn decode_of_encode_round_trips() {
    for l in 1usize..=12 {
        let p = poly_with(|i| ((i * 2654435761usize) % (1 << l)) as i16);
        let mut r = vec![0u8; 32 * l];
        encode(&mut r, &p, l);
        let mut q = Poly::default();
        decode(&mut q, &r, l);
        assert_eq!(q.coeff, p.coeff);
    }
}

#[test]
fn vector_round_trip() {
    let mut v = VecPoly::<3>::default();
    for k in 0..3 {
        v.poly[k] = poly_with(|i| ((i * 31 + k * 101) % 1024) as i16);
    }
    let mut r = [0u8; 960];
    Encode(&mut r, &v, 10);
    let mut w = VecPoly::<3>::default();
    Decode(&mut w, &r, 10);
    for k in 0..3 {
        assert_eq!(w.poly[k].coeff, v.poly[k].coeff);
        assert!(!w.poly[k].ntt);
    }
    let mut first = Poly::default();
    decode(&mut first, &r[320..], 10);
    assert_eq!(first.coeff, v.poly[1].coeff);
}

#[test]
fn secret_key_round_trip() {
    let mut s = VecPoly::<3>::default();
    for k in 0..3 {
        s.poly[k] = poly_with(|i| ((i * 13 + k) % 3329) as i16);
    }
    let mut sk = [0u8; 1152];
    pack_sk(&mut sk, &s);
    let mut t = VecPoly::<3>::default();
    unpack_sk(&sk, &mut t);
    for k in 0..3 {
        assert_eq!(t.poly[k].coeff, s.poly[k].coeff);
        assert!(t.poly[k].ntt);
    }
}

#[test]
fn public_key_round_trip() {
    let mut t = VecPoly::<3>::default();
    for k in 0..3 {
        t.poly[k] = poly_with(|i| ((i * 29 + 7 * k) % 3329) as i16);
    }
    let rho: Vec<u8> = (0..32).map(|i| (i * 3) as u8).collect();
    let mut pk = [0u8; 1184];
    pack_pk(&mut pk, &t, &rho);
    assert_eq!(&pk[..32], &rho[..]);
    let mut t2 = VecPoly::<3>::default();
    let mut rho2 = [0u8; 32];
    unpack_pk(&pk, &mut t2, &mut rho2);
    assert_eq!(&rho2[..], &rho[..]);
    for k in 0..3 {
        assert_eq!(t2.poly[k].coeff, t.poly[k].coeff);
        assert!(t2.poly[k].ntt);
    }
}
