use hawk512::delta_table::{delta, DELTA};
use hawk512::fft::{
    floordiv, prepare_divisor, prepare_fft, rebuild_s0, rebuild_s0_prepared, udiv,
};
use hawk512::fixed_point::{C_Q00, C_Q01, C_S0, C_W1, LOG2_TWO_C_S0};
use hawk512::{HALF_N, N};

const DELTA_POLYHASH_EXPECTED: u64 = 0x35b0_5991_cdb8_d12f;

#[test]
fn lean_fft_constants_drift_check() {
    assert_eq!(C_W1, 1i64 << 19); //  524_288
    assert_eq!(C_Q00, 1i64 << 20); // 1_048_576
    assert_eq!(C_Q01, 1i64 << 17); //   131_072
    assert_eq!(C_S0, 256);
    assert_eq!(LOG2_TWO_C_S0, 9);
    assert_eq!(2 * C_S0, 1i64 << LOG2_TWO_C_S0);
    assert_eq!(2 * C_W1 * C_Q01, (N as i64) * C_Q00 * C_S0);

    assert_eq!(DELTA[0], (0, 0));
    assert_eq!(DELTA[1], (0, 0));
    assert_eq!(DELTA[2], (1_518_500_250, 1_518_500_250));

    let mut h: u64 = 0;
    for &(re, im) in DELTA.iter() {
        h = h.wrapping_mul(1_000_003).wrapping_add(re as i64 as u64);
        h = h.wrapping_mul(1_000_003).wrapping_add(im as i64 as u64);
    }
    assert_eq!(h, DELTA_POLYHASH_EXPECTED);
}

#[test]
fn roots_lie_on_the_circle() {
    for k in 2..512 {
        let (re, im) = delta(k);
        assert_eq!((re as i32, im as i32), DELTA[k]);
        let (x, y) = (re as f64 / 2147483648.0, im as f64 / 2147483648.0);
        assert!((x * x + y * y - 1.0).abs() < 1e-8);
    }
}

#[test]
fn divisions_round_as_they_should() {
    assert_eq!(floordiv(7, 2), 3);
    assert_eq!(floordiv(-7, 2), -4);
    assert_eq!(floordiv(-8, 2), -4);
    assert_eq!(floordiv(0, 5), 0);
    assert_eq!(floordiv(i64::MIN, 1), i64::MIN);
    assert_eq!(floordiv(i64::MIN, i64::MAX), -2);
    assert_eq!(floordiv(i64::MAX, 512), i64::MAX >> 9);
    assert_eq!(udiv(7, 2), 3);
    assert_eq!(udiv(i64::MAX, 3), i64::MAX / 3);
}

fn unit_key() -> ([i32; N], [i32; N]) {
    let mut q00 = [0i32; N];
    q00[0] = 1;
    (q00, [0i32; N])
}

#[test]
fn unit_key_rounds_h0() {
    // With q01 = 0 nothing but h0 enters: s0 = (h0 + 1) / 2 rounded down.
    let (q00, q01) = unit_key();
    let mut h0 = [0i32; N];
    let mut w1 = [0i32; N];
    for i in 0..N {
        h0[i] = (i % 2) as i32;
        w1[i] = (i % 5) as i32 - 2;
    }
    let mut w0 = [9i32; N];
    assert!(rebuild_s0(&q00, &q01, &w1, &h0, &mut w0));
    for i in 0..N {
        assert_eq!(w0[i], if i % 2 == 1 { -1 } else { 0 });
    }
}

#[test]
fn rebuild_solves_for_s0() {
    // q00 = 65 and q01 = 64 x: w0 + (64 / 65) x w1 has to round to nothing.
    let mut q00 = [0i32; N];
    q00[0] = 65;
    let mut q01 = [0i32; N];
    q01[1] = 64;
    let h0 = [0i32; N];
    let mut w1 = [0i32; N];
    for i in 0..N {
        w1[i] = 2 * ((i % 9) as i32 - 4);
    }
    let mut w0 = [0i32; N];
    assert!(rebuild_s0(&q00, &q01, &w1, &h0, &mut w0));
    for i in 1..N {
        assert_eq!(w0[i], -w1[i - 1]);
    }
    assert_eq!(w0[0], w1[N - 1]);
}

#[test]
fn negative_constant_coefficient_is_refused() {
    let (mut q00, q01) = unit_key();
    q00[0] = -1;
    let z = [0i32; N];
    let mut w0 = [8i32; N];
    assert!(!rebuild_s0(&q00, &q01, &z, &z, &mut w0));
    assert_eq!(w0, [8i32; N]);
    let (mut re, mut im, mut fq01) = ([5i64; HALF_N], [6i64; HALF_N], [7i64; N]);
    assert_eq!(prepare_fft(&q00, &q01, &mut re, &mut im, &mut fq01), None);
    assert_eq!(re, [5i64; HALF_N]);
    assert_eq!(im, [6i64; HALF_N]);
    assert_eq!(fq01, [7i64; N]);
}

#[test]
fn divisors_have_to_be_in_range() {
    let z = [0i32; N];
    let mut w0 = [0i32; N];
    // q00 = 0 gives divisor zero, a large constant one of 2^30 and more.
    assert!(!rebuild_s0(&z, &z, &z, &z, &mut w0));
    let mut q00 = [0i32; N];
    q00[0] = 1 << 18;
    assert!(!rebuild_s0(&q00, &z, &z, &z, &mut w0));
    q00[0] = (1 << 18) - 1;
    assert!(rebuild_s0(&q00, &z, &z, &z, &mut w0));

    let mut bound = [0i64; HALF_N];
    let mut re = [0i64; HALF_N];
    assert!(!prepare_divisor(&re, 0, &mut bound));
    assert!(prepare_divisor(&re, 1, &mut bound));
    assert_eq!(bound, [1i64 << 32; HALF_N]);
    assert!(prepare_divisor(&re, (1 << 30) - 1, &mut bound));
    assert!(!prepare_divisor(&re, 1 << 30, &mut bound));
    re[17] = -1;
    assert!(!prepare_divisor(&re, 1, &mut bound));
    assert!(prepare_divisor(&re, 2, &mut bound));
    assert_eq!(bound[17], 1i64 << 32);
    assert_eq!(bound[18], 2i64 << 32);
}

#[test]
fn bounds_stop_at_the_first_bad_divisor() {
    let mut re = [0i64; HALF_N];
    re[17] = -1;
    re[40] = 1 << 30;
    let mut bound = [-3i64; HALF_N];
    assert!(!prepare_divisor(&re, 1, &mut bound));
    for (u, &b) in bound.iter().enumerate() {
        assert_eq!(b, if u < 17 { 1i64 << 32 } else { -3 });
    }
}

#[test]
fn refused_keys_and_quotients_leave_w0() {
    let z = [0i32; N];
    let mut w0 = [8i32; N];
    assert!(!rebuild_s0(&z, &z, &z, &z, &mut w0));
    assert_eq!(w0, [8i32; N]);
    // A product that reaches its bound.
    let (q00, mut q01) = unit_key();
    q01[0] = 4095;
    let mut w1 = [0i32; N];
    w1[0] = 1000;
    assert!(!rebuild_s0(&q00, &q01, &w1, &z, &mut w0));
    assert_eq!(w0, [8i32; N]);
}

#[test]
fn s0_reaches_its_lower_end_only() {
    let mut q00 = [0i32; N];
    q00[0] = 1;
    let mut q01 = [0i32; N];
    q01[0] = -128;
    let mut w1 = [0i32; N];
    w1[0] = 128;
    let h0 = [0i32; N];
    let mut w0 = [8i32; N];
    assert!(rebuild_s0(&q00, &q01, &w1, &h0, &mut w0));
    let mut expected = [0i32; N];
    expected[0] = 16384;
    assert_eq!(w0, expected);
    q01[0] = 128;
    assert!(!rebuild_s0(&q00, &q01, &w1, &h0, &mut w0));
    q01[0] = -128;
    q00[0] = -1;
    w0 = [8i32; N];
    assert!(!rebuild_s0(&q00, &q01, &w1, &h0, &mut w0));
    assert_eq!(w0, [8i32; N]);
}

#[test]
fn large_s0_is_refused() {
    let (q00, q01) = unit_key();
    let z = [0i32; N];
    let mut w0 = [0i32; N];
    let mut h0 = [0i32; N];
    h0[300] = 16382; // s0 = 8191
    assert!(rebuild_s0(&q00, &q01, &z, &h0, &mut w0));
    assert_eq!(w0[300], 0);
    h0[300] = 16383; // s0 = 8192
    assert!(!rebuild_s0(&q00, &q01, &z, &h0, &mut w0));
    h0[300] = -16385; // s0 = -8192
    assert!(rebuild_s0(&q00, &q01, &z, &h0, &mut w0));
    h0[300] = -16386; // s0 = -8193, rounded down
    assert!(!rebuild_s0(&q00, &q01, &z, &h0, &mut w0));
}

#[test]
fn prepared_reconstruction_agrees() {
    let mut q00 = [0i32; N];
    q00[0] = 90;
    q00[2] = 7;
    q00[N - 2] = -7;
    let mut q01 = [0i32; N];
    for i in 0..N {
        q01[i] = (i as i32 * 7) % 23 - 11;
    }
    let (mut h0, mut w1) = ([0i32; N], [0i32; N]);
    for i in 0..N {
        h0[i] = (i as i32 / 3) % 2;
        w1[i] = (i as i32 * 5) % 13 - 6;
    }
    let mut direct = [0i32; N];
    assert!(rebuild_s0(&q00, &q01, &w1, &h0, &mut direct));
    let (mut re, mut im, mut fq01) = ([0i64; HALF_N], [0i64; HALF_N], [0i64; N]);
    let alpha = prepare_fft(&q00, &q01, &mut re, &mut im, &mut fq01).unwrap();
    assert_eq!(alpha, 4096 * 90);
    let mut bound = [0i64; HALF_N];
    assert!(prepare_divisor(&re, alpha, &mut bound));
    let mut prepared = [0i32; N];
    assert!(rebuild_s0_prepared(&bound, &fq01, &w1, &h0, &mut prepared));
    assert_eq!(direct, prepared);
}

#[test]
fn prepared_reconstruction_takes_any_words() {
    let w = [i32::MIN; N];
    let mut w0 = [0i32; N];
    let fq01 = [i64::MIN; N];
    for b in [i64::MIN, -1, 0, 1, 0xffff_ffff, i64::MAX] {
        assert!(!rebuild_s0_prepared(&[b; HALF_N], &fq01, &w, &w, &mut w0));
    }
    // A divisor of zero is refused also where the product is below the bound.
    let z = [0i32; N];
    let fz = [0i64; N];
    assert!(!rebuild_s0_prepared(&[1; HALF_N], &fz, &z, &z, &mut w0));
    assert!(rebuild_s0_prepared(&[1 << 32; HALF_N], &fz, &z, &z, &mut w0));
    assert_eq!(w0, [0i32; N]);
}
