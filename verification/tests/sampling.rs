use kyber::sample::{cbd3, get_error, get_matrix, get_noise, kdf, parse, prf, xof, CBD, G, H};
use kyber::poly::Poly;

fn from_hex(s: &str) -> Vec<u8> {
    (0..s.len() / 2).map(|i| u8::from_str_radix(&s[2 * i..2 * i + 2], 16).unwrap()).collect()
}

#[test]
fn h_is_sha3_256() {
    let mut out = [0u8; 32];
    H(b"", &mut out);
    assert_eq!(out.to_vec(), from_hex("a7ffc6f8bf1ed76651c14756a061d662f580ff4de43b49fa82d80a4b80f8434a"));
}

#[test]
fn g_is_sha3_512() {
    let mut out = [0u8; 64];
    G(b"abc", &mut out);
    assert_eq!(
        out.to_vec(),
        from_hex(
            "b751850b1a57168a5693cd924b6b096e08f621827444f70d884f5d0240d2712e10e116e9192af3c91a7ec57647e3934057340b4cf408d5a56592f8274eec53f0"
        )
    );
}

#[test]
fn xof_is_shake128() {
    let mut out = [0u8; 16];
    xof(b"abc", &mut out);
    assert_eq!(out.to_vec(), from_hex("5881092dd818bf5cf8a3ddb793fbcba7"));
    let mut short = [0u8; 4];
    xof(b"", &mut short);
    assert_eq!(short.to_vec(), from_hex("7f9c2ba4"));
}

#[test]
fn prf_and_kdf_are_shake256() {
    let mut out = [0u8; 16];
    prf(b"abc", &mut out);
    assert_eq!(out.to_vec(), from_hex("483366601360a8771c6863080cc4114d"));
    let mut key = [0u8; 32];
    kdf(b"abc", &mut key);
    assert_eq!(key.to_vec(), from_hex("483366601360a8771c6863080cc4114d8db44530f8f1e1ee4f94ea37e78b5739"));
}

#[test]
fn parse_takes_two_bytes_per_coefficient() {
    let b: Vec<u8> = (0..512).map(|i| ((7 * i + 3) % 256) as u8).collect();
    let p = parse(&b);
    assert!(p.ntt);
    assert_eq!(&p.coeff[..6], &[2563, -2031, 1567, -3027, 571, -4023]);
    assert_eq!(&p.coeff[254..], &[3815, -779]);
}

#[test]
fn parse_wraps_high_words() {
    let p = parse(&[0xffu8; 512]);
    assert!(p.coeff.iter().all(|&c| c == -1));
    let q: Vec<u8> = (0..512).map(|i| if i % 2 == 0 { 0x00 } else { 0x80 }).collect();
    assert!(parse(&q).coeff.iter().all(|&c| c == 0));
    let r: Vec<u8> = (0..512).map(|i| if i % 2 == 0 { 0xff } else { 0x1f }).collect();
    assert!(parse(&r).coeff.iter().all(|&c| c == -1));
}

#[test]
fn cbd3_counts_bits() {
    let buf: Vec<u8> = (0..192).map(|i| ((5 * i + 1) % 256) as u8).collect();
    let mut p = Poly::default();
    p.ntt = true;
    cbd3(&mut p, &buf);
    assert_eq!(&p.coeff[..12], &[1, -2, -2, 1, -1, 0, 0, 2, 1, -1, 0, 0]);
    assert_eq!(&p.coeff[252..], &[-1, 0, 1, 1]);
    assert!(p.ntt);
    assert_eq!(CBD(&buf, 2).coeff, p.coeff);
    assert_eq!(CBD(&buf, 3).coeff, p.coeff);
    assert!(!CBD(&buf, 2).ntt);
}

#[test]
fn cbd_of_zero_and_one_bytes() {
    assert!(CBD(&[0u8; 192], 2).coeff.iter().all(|&c| c == 0));
    assert!(CBD(&[0xffu8; 192], 2).coeff.iter().all(|&c| c == 0));
    // 0b000111 in every six bits: three ones minus nothing
    let buf: Vec<u8> = (0..192).map(|i| [0xc7u8, 0x71, 0x1c][i % 3]).collect();
    assert!(CBD(&buf, 3).coeff.iter().all(|&c| c == 3));
}

#[test]
fn matrix_from_seed() {
    let a = get_matrix(&[0u8; 32]);
    assert_eq!(&a.vec[0].poly[0].coeff[..4], &[-2471, 862, 1823, 3084]);
    assert_eq!(&a.vec[1].poly[2].coeff[..4], &[-340, 2165, 2737, -637]);
    assert_eq!(&a.vec[2].poly[1].coeff[..4], &[-482, -2808, -75, -2111]);
    assert!(a.vec[2].poly[2].ntt);
}

#[test]
fn noise_and_error_from_seed() {
    let sigma: Vec<u8> = (0..32).collect();
    let s = get_noise(&sigma);
    assert_eq!(&s.poly[0].coeff[..8], &[-2, 0, 1, 0, 0, -1, 0, -2]);
    assert_eq!(&s.poly[2].coeff[..8], &[0, -1, 0, 2, -1, -1, 1, -1]);
    assert!(!s.poly[1].ntt);
    let e = get_error(&sigma);
    assert_eq!(&e.poly[1].coeff[..8], &[0, 1, -1, 1, 1, 1, -3, -1]);
    assert!(e.poly.iter().all(|p| p.coeff.iter().all(|&c| -3 <= c && c <= 3)));
}
