use kyber::ntt::{fqmul, inv_ntt_, ntt_};
use kyber::utils::{_compress, _decompress, barrett, cmod, mod_a, montgomery};

#[test]
fn montgomery_divides_by_two_to_the_sixteen() {
    assert_eq!(montgomery(0), 0);
    assert_eq!(montgomery(65536 * 5), 5);
    // 2^-16 mod 3329 = 169
    assert_eq!(montgomery(1), 169);
    assert_eq!(montgomery(-3329 * 100), 0);
    assert_eq!(montgomery(1000 * 1000), -14);
    assert_eq!(montgomery(-1000 * 1000), 14);
    // both ends of -2^15 q <= a <= 2^15 q
    assert_eq!(montgomery(32768 * 3329), 0);
    assert_eq!(montgomery(-32768 * 3329), 0);
}

#[test]
fn montgomery_result_is_congruent() {
    for a in [-109084672i32, -109051904, -123456, -1, 0, 7, 3329, 99999, 109051904, 109084672] {
        let r = montgomery(a) as i64;
        assert!(r > -3329 && r < 3329);
        assert_eq!((r * 65536 - a as i64).rem_euclid(3329), 0);
    }
}

#[test]
fn barrett_reduces_to_centred_range() {
    assert_eq!(barrett(3329), 0);
    assert_eq!(barrett(5000), -1658);
    assert_eq!(barrett(-5000), 1658);
    assert_eq!(barrett(31625), 1664);
    assert_eq!(barrett(-31625), -1664);
    assert_eq!(barrett(0), 0);
    for a in -31625i16..=31625 {
        let r = barrett(a);
        assert!(r >= -1664 && r <= 1664);
        assert_eq!((r as i32 - a as i32).rem_euclid(3329), 0);
    }
}

#[test]
fn cmod_is_central_remainder() {
    assert_eq!(cmod(5, 3329), 5);
    assert_eq!(cmod(3000, 3329), -329);
    assert_eq!(cmod(-1, 3329), -1);
    assert_eq!(cmod(-3000, 3329), 329);
    assert_eq!(cmod(-1665, 3329), 1664);
    assert_eq!(cmod(-4096, 8192), 4096);
    assert_eq!(cmod(1665, 3329), -1664);
    assert_eq!(cmod(1664, 3329), 1664);
    assert_eq!(cmod(4000, 8192), 4000);
    assert_eq!(cmod(5000, 8192), -3192);
}

#[test]
fn cmod_is_centred() {
    for a in [2i16, 3, 3329, 8192, 32766] {
        for r in [-32768i16, -20000, -4097, -4096, -1665, -1664, -1, 0, 1, 1664, 1665, 4096, 32767] {
            let n = cmod(r, a) as i32;
            assert!(-(a as i32) < 2 * n && 2 * n <= a as i32);
            assert_eq!((n - r as i32).rem_euclid(a as i32), 0);
        }
    }
}

#[test]
fn mod_a_is_nonnegative_remainder() {
    assert_eq!(mod_a(-1, 3329), 3328);
    assert_eq!(mod_a(7, 5), 2);
    assert_eq!(mod_a(-7, 5), 3);
    assert_eq!(mod_a(3329, 3329), 0);
}

#[test]
fn compress_rounds_to_d_bits() {
    assert_eq!(_compress(1665, 1), 1);
    assert_eq!(_compress(0, 1), 0);
    assert_eq!(_compress(832, 1), 0);
    assert_eq!(_compress(833, 1), 1);
    assert_eq!(_compress(2496, 1), 1);
    assert_eq!(_compress(2497, 1), 0);
    assert_eq!(_compress(-1, 1), 0);
    assert_eq!(_compress(1000, 10), 308);
    assert_eq!(_compress(3328, 4), 0);
    assert_eq!(_compress(1664, 11), 1024);
}

#[test]
fn compress_matches_float_rounding() {
    for d in 1i16..=12 {
        for x in 0i16..3329 {
            let f = (((x as i32) << d) as f32 / 3329.0).round() as i32;
            assert_eq!(_compress(x, d) as i32, f.rem_euclid(1 << d));
        }
    }
}

#[test]
fn decompress_scales_back() {
    assert_eq!(_decompress(1, 1), 1665);
    assert_eq!(_decompress(0, 1), 0);
    assert_eq!(_decompress(1023, 10), 3326);
    assert_eq!(_decompress(15, 4), 3121);
    assert_eq!(_decompress(5, 4), 1040);
    assert_eq!(_decompress(3329, 12), 0);
}

#[test]
fn decompress_of_compress_is_close() {
    for d in [1i16, 4, 10, 11] {
        for x in 0i16..3329 {
            let y = _decompress(_compress(x, d), d) as i32;
            let diff = (y - x as i32).rem_euclid(3329);
            let diff = if diff > 1664 { diff - 3329 } else { diff };
            assert!(diff.abs() <= (3329 >> (d + 1)) + 1);
        }
    }
}

#[test]
fn fqmul_is_montgomery_product() {
    assert_eq!(fqmul(1, 1), 169);
    assert_eq!(fqmul(100, 200), 1065);
    assert_eq!(fqmul(-1044, 3000), -329);
    assert_eq!(fqmul(1441, 1), 512);
}

#[test]
fn ntt_of_unit_impulse() {
    let mut r = [0i16; 256];
    r[0] = 1;
    ntt_(&mut r);
    for i in 0..256 {
        assert_eq!(r[i], if i % 2 == 0 { 1 } else { 0 });
    }
}

#[test]
fn ntt_of_ramp() {
    let mut r = [0i16; 256];
    for i in 0..256 {
        r[i] = i as i16;
    }
    ntt_(&mut r);
    assert_eq!(&r[..8], &[5758, -484, 3754, -2534, 5194, -1973, 7282, 31]);
    assert_eq!(&r[252..], &[-827, 2134, -3941, -1026]);
}

#[test]
fn inv_ntt_of_ones() {
    let mut r = [1i16; 256];
    inv_ntt_(&mut r);
    assert_eq!(&r[..8], &[-1044, -1044, 0, 0, 0, 0, 0, 0]);
}

#[test]
fn inv_ntt_undoes_ntt_up_to_montgomery_factor() {
    let mut r = [0i16; 256];
    for i in 0..256 {
        r[i] = ((i as i32 * 37 + 11) % 3329 - 1664) as i16;
    }
    let orig = r;
    ntt_(&mut r);
    inv_ntt_(&mut r);
    // the inverse leaves a factor 2^16
    for i in 0..256 {
        assert_eq!((r[i] as i64 - orig[i] as i64 * 65536).rem_euclid(3329), 0);
    }
}

#[test]
fn inv_ntt_undoes_ntt_on_another_representative() {
    let mut r = [0i16; 256];
    for i in 0..256 {
        r[i] = ((i as i32 * 101 + 7) % 6657 - 3328) as i16;
    }
    let r0 = r;
    ntt_(&mut r);
    // move each coefficient to another representative in (-q, q)
    for i in 0..256 {
        let c = (r[i] as i32).rem_euclid(3329);
        r[i] = if i % 2 == 0 { c as i16 } else { (c - 3329) as i16 };
    }
    inv_ntt_(&mut r);
    for i in 0..256 {
        assert!(r[i] > -3329 && r[i] < 3329);
        assert_eq!((r[i] as i64 - 65536 * r0[i] as i64).rem_euclid(3329), 0);
    }
}

#[test]
fn round_trip_error_is_at_most_half_a_step() {
    for d in 1i16..=11 {
        let bound = (3329 + (1i32 << d)) / (1i32 << (d + 1));
        for x in -3328i16..3329 {
            let y = _decompress(_compress(x, d), d) as i32;
            let e = (y - x as i32).rem_euclid(3329);
            assert!(e <= bound || 3329 - e <= bound);
        }
    }
}
