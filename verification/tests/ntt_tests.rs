use hawk512::ntt::{
    bitrev, find_root, full, inv, lazy, mulmod, ntt, ntt_conv, poly_qnorm, powmod, prepare_ntt,
    qnorm_in_bound, qnorm_in_bound_prepared, qnorm_prepared, red, w_table,
};
use hawk512::roots::{P1, P2};
use hawk512::{LOGN, N};

#[test]
fn primes_are_ntt_friendly() {
    assert_eq!((P1 - 1) % (2 * N as u64), 0);
    assert_eq!((P2 - 1) % (2 * N as u64), 0);
}

#[test]
fn root_has_order_2n() {
    for &p in &[P1, P2] {
        let h = find_root(p);
        assert_eq!(powmod(h, (2 * N) as u64, p), 1);
        assert_eq!(powmod(h, N as u64, p), p - 1);
    }
}

/// The inverse transform, by undoing the levels one by one.
fn inverse_ntt(t: &mut [u32; N], p: u64) {
    let w = w_table(p);
    let mut l = 1usize;
    let mut wi = N;
    while l < N {
        let mut i = 0;
        while i < N {
            wi -= 1;
            let z = w[wi] as u64;
            for j in i..(i + l) {
                let x = t[j] as u64;
                let y = t[j + l] as u64;
                t[j] = ((x + y) % p) as u32;
                t[j + l] = mulmod(z, (y + p - x) % p, p) as u32;
            }
            i += 2 * l;
        }
        l <<= 1;
    }
    let ninv = powmod(N as u64, p - 2, p);
    for v in t.iter_mut() {
        *v = mulmod(*v as u64, ninv, p) as u32;
    }
}

#[test]
fn ntt_is_negacyclic_convolution() {
    // x times x is x^2.
    let p = P1;
    let mut t = [0u32; N];
    t[1] = 1;
    ntt(&mut t, p);
    for v in t.iter_mut() {
        *v = mulmod(*v as u64, *v as u64, p) as u32;
    }
    inverse_ntt(&mut t, p);
    for (i, &v) in t.iter().enumerate() {
        assert_eq!(v as u64, (i == 2) as u64, "coeff {i}");
    }
}

#[test]
fn lean_ntt_constants_drift_check() {
    assert_eq!(P1, 2_147_473_409);
    assert_eq!(P2, 2_147_389_441);
    assert!(P1 < 1u64 << 31);
    assert!(P2 < 1u64 << 31);
    assert_eq!((P1 - 1) % (2 * N as u64), 0);
    assert_eq!((P2 - 1) % (2 * N as u64), 0);

    assert_eq!(find_root(P1), 2_094_155_704);
    assert_eq!(find_root(P2), 1_133_102_181);

    assert_eq!(bitrev(0, LOGN), 0);
    assert_eq!(bitrev(1, LOGN), 256); // 000000001 -> 100000000
    assert_eq!(bitrev(2, LOGN), 128); // 000000010 -> 010000000
    assert_eq!(bitrev(3, LOGN), 384); // 000000011 -> 110000000
    assert_eq!(bitrev(255, LOGN), 510); // 011111111 -> 111111110
    assert_eq!(bitrev(511, LOGN), 511); // 111111111 -> 111111111

    const PSI1_EXPECTED: u64 = 2_094_155_704;
    const PSI2_EXPECTED: u64 = 1_133_102_181;
    let w1 = w_table(P1);
    let w2 = w_table(P2);
    for i in 0..N {
        let exp = bitrev(i, LOGN) as u64;
        let expected_p1 = powmod(PSI1_EXPECTED, exp, P1) as u32;
        let expected_p2 = powmod(PSI2_EXPECTED, exp, P2) as u32;
        assert_eq!(w1[i], expected_p1, "W1[{}] drift", i);
        assert_eq!(w2[i], expected_p2, "W2[{}] drift", i);
    }

    assert_eq!(8u128 * 512 * 57 * 57, 13_307_904 * (40 * 40 / 1600));
    assert_eq!(4096u128 * 3249, 13_307_904);
    assert!(1600u128 * 8317 <= 13_307_904);
    assert!(1600u128 * 8318 > 13_307_904);
}

#[test]
fn modular_arithmetic_on_values() {
    assert_eq!(mulmod(P1 - 1, P1 - 1, P1), 1);
    assert_eq!(mulmod(0xffff_ffff, 0xffff_ffff, P2), 1141227513);
    assert_eq!(powmod(3, 5, 1000), 243);
    assert_eq!(powmod(2, 31, P1), 10_239);
    assert_eq!(powmod(7, 0, P1), 1);
    assert_eq!(powmod(7, 0, 1), 1);
    assert_eq!(powmod(7, 3, 1), 0);
    assert_eq!(full(P1 + 5, P1), 5);
    assert_eq!(lazy(P1 + 5, P1), P1 + 5);
    assert_eq!(w_table(17), w_table(P2));
}

#[test]
fn inverses_undo_multiplication() {
    for &p in &[P1, P2] {
        assert_eq!(inv(0, p), None);
        for x in [1, 2, 3, 512, 123_456_789, p - 1] {
            let v = inv(x, p).unwrap();
            assert!(v < p);
            assert_eq!(mulmod(x, v, p), 1);
        }
        // Larger than the modulus.
        assert_eq!(inv(p + 2, p), inv(2, p));
        assert_eq!(mulmod(inv(2, p).unwrap(), 2, p), 1);
    }
}

#[test]
fn multiples_of_the_prime_have_no_inverse() {
    for &p in &[P1, P2] {
        assert_eq!(inv(p, p), None);
        assert_eq!(inv(2 * p, p), None);
    }
}

#[test]
fn signed_coefficients_are_reduced() {
    for &p in &[P1, P2] {
        for x in [0, 1, -1, 511, -512, 65535, i32::MAX, i32::MIN, -(p as i64) as i32] {
            assert_eq!(red(x, p) as i64, (x as i64).rem_euclid(p as i64));
        }
    }
}

#[test]
fn transforms_of_known_polynomials() {
    // The constant one takes the value one everywhere; x takes the points.
    let mut src = [0i32; N];
    let mut t = [7u32; N];
    src[0] = 1;
    ntt_conv(&src, &mut t, P2);
    assert_eq!(t, [1u32; N]);
    src[0] = 0;
    src[1] = 1;
    ntt_conv(&src, &mut t, P2);
    for k in 0..N {
        let e = 2 * bitrev(k, LOGN) as u64 + 1;
        assert_eq!(t[k] as u64, powmod(find_root(P2), e, P2));
        assert_eq!(powmod(t[k] as u64, N as u64, P2), P2 - 1);
        assert_eq!(mulmod(t[k] as u64, t[N - 1 - k] as u64, P2), 1);
    }
}

fn pattern(seed: i32, modulus: i32) -> [i32; N] {
    let mut a = [0i32; N];
    for (i, x) in a.iter_mut().enumerate() {
        *x = (i as i32 * seed + seed * seed) % modulus - modulus / 2;
    }
    a
}

fn negacyclic(a: &[i32; N], b: &[i32; N]) -> [i64; N] {
    let mut c = [0i64; N];
    for i in 0..N {
        for j in 0..N {
            let v = a[i] as i64 * b[j] as i64;
            if i + j < N {
                c[i + j] += v;
            } else {
                c[i + j - N] -= v;
            }
        }
    }
    c
}

fn adjoint(a: &[i32; N]) -> [i32; N] {
    let mut c = [0i32; N];
    c[0] = a[0];
    for k in 1..N {
        c[k] = -a[N - k];
    }
    c
}

#[test]
fn transform_turns_products_into_products() {
    let a = pattern(37, 201);
    let b = pattern(91, 333);
    for &p in &[P1, P2] {
        let (mut ta, mut tb) = ([0u32; N], [0u32; N]);
        ntt_conv(&a, &mut ta, p);
        ntt_conv(&b, &mut tb, p);
        let mut prod = [0u32; N];
        for k in 0..N {
            prod[k] = mulmod(ta[k] as u64, tb[k] as u64, p) as u32;
        }
        inverse_ntt(&mut prod, p);
        let expected = negacyclic(&a, &b);
        for k in 0..N {
            assert_eq!(prod[k] as i64, expected[k].rem_euclid(p as i64));
        }
        // The adjoint is the transform read backwards, and the values add up
        // to n times the constant coefficient.
        let mut tadj = [0u32; N];
        ntt_conv(&adjoint(&a), &mut tadj, p);
        for k in 0..N {
            assert_eq!(tadj[k], ta[N - 1 - k]);
        }
        let total: u64 = ta.iter().map(|&v| v as u64).sum::<u64>() % p;
        assert_eq!(total as i64, (N as i64 * a[0] as i64).rem_euclid(p as i64));
    }
}

/// The key `q00 = 1 + g g*`, `q01 = g*` of the matrix `[1 0; g 1]`, whose
/// norm of `(w0, w1)` is the length of `(w0, g w0 + w1)`.
fn simple_key() -> ([i32; N], [i32; N], [i32; N]) {
    let mut g = [0i32; N];
    g[0] = 1;
    g[3] = -2;
    g[100] = 1;
    let gg = negacyclic(&g, &adjoint(&g));
    let mut q00 = [0i32; N];
    for k in 0..N {
        q00[k] = gg[k] as i32;
    }
    q00[0] += 1;
    (g, q00, adjoint(&g))
}

fn length(g: &[i32; N], w0: &[i32; N], w1: &[i32; N]) -> i64 {
    let x1 = negacyclic(g, w0);
    let mut s = 0i64;
    for k in 0..N {
        let y = x1[k] + w1[k] as i64;
        s += w0[k] as i64 * w0[k] as i64 + y * y;
    }
    s
}

#[test]
fn norm_is_n_times_the_length() {
    let (g, q00, q01) = simple_key();
    let w0 = pattern(5, 3);
    let w1 = pattern(11, 5);
    let s = length(&g, &w0, &w1);
    assert!(s > 0);
    for &p in &[P1, P2] {
        let r = poly_qnorm(&q00, &q01, &w0, &w1, p).unwrap();
        assert_eq!(r, (N as u64 * s as u64) % p);
        // The same from factors computed ahead.
        let (mut a, mut ai, mut b) = ([0u32; N], [0u32; N], [0u32; N]);
        assert!(prepare_ntt(&q00, &q01, p, &mut a, &mut ai, &mut b));
        for k in 0..N {
            assert_eq!(mulmod(a[k] as u64, ai[k] as u64, p), 1);
        }
        assert_eq!(qnorm_prepared(&a, &ai, &b, &w0, &w1, p), r);
    }
}

#[test]
fn norm_bound_is_exact() {
    // With q00 = 1 and q01 = 0 the norm is the length of (w0, w1).
    let mut q00 = [0i32; N];
    q00[0] = 1;
    let q01 = [0i32; N];
    let mut w0 = [0i32; N];
    let mut w1 = [0i32; N];
    // 91^2 + 6^2 = 8317 is within the bound, one more is not.
    w0[0] = 91;
    w1[7] = 6;
    assert!(qnorm_in_bound(&q00, &q01, &w0, &w1));
    w1[8] = 1;
    assert!(!qnorm_in_bound(&q00, &q01, &w0, &w1));
    assert!(qnorm_in_bound(&q00, &q01, &[0i32; N], &[0i32; N]));
}

#[test]
fn singular_keys_have_no_norm() {
    let zero = [0i32; N];
    let w = pattern(3, 7);
    assert_eq!(poly_qnorm(&zero, &zero, &w, &w, P1), None);
    assert_eq!(poly_qnorm(&zero, &zero, &w, &w, P2), None);
    assert!(!qnorm_in_bound(&zero, &zero, &zero, &zero));
    let (mut a, mut ai, mut b) = ([0u32; N], [0u32; N], [0u32; N]);
    assert!(!prepare_ntt(&zero, &w, P1, &mut a, &mut ai, &mut b));
}

#[test]
fn prepared_norm_takes_any_words() {
    let m = [u32::MAX; N];
    let w = [i32::MIN; N];
    for &p in &[P1, P2] {
        assert!(qnorm_prepared(&m, &m, &m, &w, &w, p) < p);
    }
    let z = [0u32; N];
    assert!(qnorm_in_bound_prepared(&z, &z, &z, &z, &z, &z, &w, &w));
}
