use kyber::poly::{
    add, c_addq, compress, decompress, inf_norm, inv_Ntt, inv_ntt, m_mult_v, modq, mult, neg,
    ntt, p_infnorm, p_mult_v, reduce, slow_mult, smult, transp, v_add, v_mult_v, v_sub, Caddq,
    Compress, Decompress, Mat, Neg, Ntt, Poly, VecPoly, _modq, sMult,
};

fn poly_from(f: impl Fn(usize) -> i16, ntt: bool) -> Poly {
    let mut p = Poly::default();
    for i in 0..256 {
        p.coeff[i] = f(i);
    }
    p.ntt = ntt;
    p
}

fn poly_a() -> Poly {
    poly_from(|i| ((i * 13) % 3329) as i16 - 1664, false)
}

fn poly_b() -> Poly {
    poly_from(|i| ((i * 7 + 5) % 3329) as i16 - 1664, false)
}

#[test]
fn default_poly_is_zero() {
    let p = Poly::default();
    assert!(p.coeff.iter().all(|&c| c == 0));
    assert!(!p.ntt);
    let v = VecPoly::<3>::default();
    assert!(v.poly.iter().all(|p| !p.ntt && p.coeff.iter().all(|&c| c == 0)));
    let m = Mat::<2, 3>::default();
    assert_eq!(m.vec.len(), 2);
}

#[test]
fn neg_reduces_centrally() {
    let p = poly_from(|i| [5, 1665, 3000, -1664, 0][i % 5], false);
    let r = neg(&p);
    assert_eq!(&r.coeff[..5], &[-5, 1664, 329, 1664, 0]);
    assert!(!r.ntt);
}

#[test]
fn add_reduces_each_sum() {
    let mut a = poly_from(|_| 1000, true);
    let b = poly_from(|i| i as i16, true);
    add(&mut a, &b);
    assert_eq!(a.coeff[0], 1000);
    assert_eq!(a.coeff[255], 1255);
    let mut c = poly_from(|_| 1000, false);
    add(&mut c, &poly_from(|_| 1000, false));
    assert_eq!(c.coeff[7], -1329);
}

#[test]
fn smult_scales() {
    let p = poly_from(|i| i as i16 - 128, true);
    let r = smult(3, &p);
    assert_eq!(r.coeff[0], -384);
    assert_eq!(r.coeff[255], 381);
    assert!(r.ntt);
}

#[test]
fn ntt_then_inv_ntt_is_congruent() {
    let a = poly_a();
    let t = ntt(&a);
    assert!(t.ntt);
    assert_eq!(&t.coeff[..4], &[1824, -2755, -948, 533]);
    let r = inv_ntt(&t);
    assert!(!r.ntt);
    for i in 0..256 {
        assert_eq!((r.coeff[i] as i32 - a.coeff[i] as i32).rem_euclid(3329), 0);
    }
}

#[test]
fn ntt_of_transformed_poly_clears_the_flag() {
    let a = poly_from(|i| i as i16, true);
    let t = ntt(&a);
    assert_eq!(t.coeff, a.coeff);
    assert!(!t.ntt);
    let b = poly_from(|i| i as i16, false);
    let u = inv_ntt(&b);
    assert_eq!(u.coeff, b.coeff);
    assert!(!u.ntt);
}

#[test]
fn reduce_removes_montgomery_factor() {
    let mut p = poly_from(|i| [1, 2, -5, 3329, 1000][i % 5], false);
    reduce(&mut p);
    assert_eq!(&p.coeff[..5], &[169, 338, -845, 0, -779]);
}

#[test]
fn mult_is_coefficientwise_mod_q() {
    let a = ntt(&poly_a());
    let b = ntt(&poly_b());
    let m = mult(&a, &b);
    assert!(m.ntt);
    assert_eq!(&m.coeff[..6], &[-746, 1110, 1003, -593, -998, 998]);
    for i in 0..256 {
        assert_eq!((m.coeff[i] as i64 - a.coeff[i] as i64 * b.coeff[i] as i64).rem_euclid(3329), 0);
    }
    let two = poly_from(|_| 2, true);
    let three = poly_from(|_| 3, true);
    assert!(mult(&two, &three).coeff.iter().all(|&c| c == 6));
}

#[test]
fn slow_mult_is_negacyclic() {
    let x = poly_from(|i| if i == 1 { 1 } else { 0 }, false);
    let x255 = poly_from(|i| if i == 255 { 1 } else { 0 }, false);
    let r = slow_mult(&x, &x255);
    assert_eq!(r.coeff[0], -1);
    assert!(r.coeff[1..].iter().all(|&c| c == 0));
    let one_x = poly_from(|i| if i < 2 { 1 } else { 0 }, false);
    let sq = slow_mult(&one_x, &one_x);
    assert_eq!(&sq.coeff[..4], &[1, 2, 1, 0]);
    let small = poly_from(|i| (i % 3) as i16 - 1, false);
    let r = slow_mult(&small, &one_x);
    for m in 0..256 {
        let expected = if m == 0 { small.coeff[0] - small.coeff[255] } else { small.coeff[m] + small.coeff[m - 1] };
        assert_eq!(r.coeff[m], expected);
    }
}

#[test]
fn infinity_norms() {
    let p = poly_from(|i| [-7, 3, 5, 0][i % 4], false);
    assert_eq!(p_infnorm(&p), 7);
    assert_eq!(p_infnorm(&Poly::default()), 0);
    let mut v = VecPoly::<2>::default();
    v.poly[1].coeff[200] = -1234;
    v.poly[0].coeff[3] = 999;
    assert_eq!(inf_norm(&v), 1234);
    assert_eq!(inf_norm(&VecPoly::<3>::default()), 0);
}

#[test]
fn vector_transforms() {
    let mut v = VecPoly::<2>::default();
    v.poly[0] = poly_a();
    v.poly[1] = poly_b();
    let t = Ntt(&v);
    assert!(t.poly.iter().all(|p| p.ntt));
    assert_eq!(t.poly[0].coeff, ntt(&poly_a()).coeff);
    let r = inv_Ntt(&t);
    for k in 0..2 {
        assert!(!r.poly[k].ntt);
        for i in 0..256 {
            assert_eq!((r.poly[k].coeff[i] as i32 - v.poly[k].coeff[i] as i32).rem_euclid(3329), 0);
        }
    }
}

#[test]
fn vector_neg_scale_add_sub() {
    let mut a = VecPoly::<2>::default();
    let mut b = VecPoly::<2>::default();
    for k in 0..2 {
        a.poly[k] = poly_from(|i| (i as i16) * (k as i16 + 1), false);
        b.poly[k] = poly_from(|_| 1000, false);
    }
    let n = Neg(&a);
    assert_eq!(n.poly[1].coeff[10], -20);
    let s = sMult(2, &a);
    assert_eq!(s.poly[1].coeff[100], 400);
    let sum = v_add(&a, &b);
    assert_eq!(sum.poly[0].coeff[5], 1005);
    assert_eq!(sum.poly[1].coeff[255], cmod_ref(510 + 1000));
    let diff = v_sub(&a, &b);
    assert_eq!(diff.poly[0].coeff[5], -995);
    assert_eq!(diff.poly[1].coeff[0], -1000);
}

fn cmod_ref(x: i32) -> i16 {
    let r = x % 3329;
    (if r > 1664 { r - 3329 } else { r }) as i16
}

#[test]
fn inner_products() {
    let mut v = VecPoly::<2>::default();
    let mut u = VecPoly::<2>::default();
    v.poly[0] = poly_from(|_| 2, true);
    v.poly[1] = poly_from(|_| 4, true);
    u.poly[0] = poly_from(|_| 3, true);
    u.poly[1] = poly_from(|i| 5 + i as i16, true);
    let r = v_mult_v(&v, &u);
    assert!(r.ntt);
    assert_eq!(r.coeff[0], 26);
    assert_eq!(r.coeff[255], cmod_ref(6 + 4 * 260));
    let mut m = Mat::<2, 2>::default();
    m.vec[0] = v;
    m.vec[1] = u;
    let mv = m_mult_v(&m, &u);
    assert_eq!(mv.poly[0].coeff[0], 26);
    assert_eq!(mv.poly[1].coeff[0], 9 + 25);
    let pv = p_mult_v(&poly_from(|_| 10, true), &u);
    assert_eq!(pv.poly[0].coeff[3], 30);
    assert_eq!(pv.poly[1].coeff[3], 80);
}

#[test]
fn central_and_positive_reduction() {
    let p = poly_from(|i| [3000, -3000, 1664, 1665, -1][i % 5], false);
    let c = c_addq(&p);
    assert_eq!(&c.coeff[..5], &[-329, 329, 1664, -1664, -1]);
    let m = _modq(&p);
    assert_eq!(&m.coeff[..5], &[3000, 329, 1664, 1665, 3328]);
    let mut v = VecPoly::<2>::default();
    v.poly[1] = p;
    assert_eq!(Caddq(&v).poly[1].coeff[0], -329);
    assert_eq!(modq(&v).poly[1].coeff[4], 3328);
}

#[test]
fn poly_compression() {
    let p = poly_from(|i| [1665, 0, 832, 833, 2497][i % 5], false);
    let c = compress(&p, 1);
    assert_eq!(&c.coeff[..5], &[1, 0, 0, 1, 0]);
    let d = decompress(&c, 1);
    assert_eq!(&d.coeff[..5], &[1665, 0, 0, 1665, 0]);
    let mut v = VecPoly::<2>::default();
    v.poly[0] = poly_from(|_| 1000, false);
    let cv = Compress(&v, 10);
    assert_eq!(cv.poly[0].coeff[9], 308);
    let dv = Decompress(&cv, 10);
    assert_eq!(dv.poly[0].coeff[9], 1001);
}

#[test]
fn transpose_swaps_entries() {
    let mut m = Mat::<2, 2>::default();
    m.vec[0].poly[1] = poly_from(|_| 7, false);
    m.vec[1].poly[0] = poly_from(|_| 9, true);
    let t = transp(&m);
    assert_eq!(t.vec[1].poly[0].coeff[0], 7);
    assert_eq!(t.vec[0].poly[1].coeff[0], 9);
    assert!(t.vec[0].poly[1].ntt);
}

#[test]
fn slow_mult_is_commutative() {
    let a = poly_from(|i| ((i * 5) % 7) as i16 - 3, false);
    let b = poly_from(|i| ((i * 3 + 1) % 5) as i16 - 2, false);
    assert_eq!(slow_mult(&a, &b).coeff, slow_mult(&b, &a).coeff);
}

#[test]
fn inner_product_is_symmetric() {
    let mut v = VecPoly::<3>::default();
    let mut u = VecPoly::<3>::default();
    for k in 0..3 {
        v.poly[k] = ntt(&poly_from(|i| ((i * 13 + k * 7) % 3329) as i16 - 1664, false));
        u.poly[k] = ntt(&poly_from(|i| ((i * 7 + k * 11) % 7) as i16 - 3, false));
    }
    let a = v_mult_v(&v, &u);
    let b = v_mult_v(&u, &v);
    assert_eq!(a.coeff, b.coeff);
    assert_eq!(a.ntt, b.ntt);
}

#[test]
fn compress_of_decompress_round_trips() {
    for d in 1i16..=11 {
        let r = poly_from(|i| ((i * 37) % (1usize << d)) as i16, false);
        let back = compress(&decompress(&r, d), d);
        assert_eq!(back.coeff, r.coeff);
    }
}

#[test]
fn reduced_transform_round_trips() {
    let a = poly_from(|i| ((i * 131) % 6657) as i16 - 3328, false);
    let b = inv_ntt(&c_addq(&ntt(&a)));
    assert!(!b.ntt);
    for i in 0..256 {
        assert!(b.coeff[i] > -3329 && b.coeff[i] <= 1664);
        assert_eq!((b.coeff[i] as i32 - a.coeff[i] as i32).rem_euclid(3329), 0);
    }
}
