use hawk512::codec::{
    bit, compute_h, compute_hpub, compute_m, decode_int, decode_public, decode_signature,
    decompress_gr, expand_h, padding_all_zero, sym_break,
};
use hawk512::{HIGH_00, HIGH_01, HIGH_S1, LOW_00, LOW_01, LOW_S1, N};

/// The Golomb-Rice code of a sequence, as bits.
fn gr_bits(xs: &[i32], low: usize, high: usize) -> Vec<u8> {
    let mut bits: Vec<u8> = Vec::new();
    let mut vv: Vec<u32> = Vec::with_capacity(xs.len());
    for &x in xs {
        bits.push((x < 0) as u8);
    }
    for &x in xs {
        let s = (x < 0) as i64;
        let val = (x as i64) - s * (2 * x as i64 + 1);
        assert!(val >= 0 && val < (1i64 << high));
        vv.push(val as u32);
    }
    for &val in &vv {
        for t in 0..low {
            bits.push(((val >> t) & 1) as u8);
        }
    }
    for &val in &vv {
        let z = val >> low;
        bits.resize(bits.len() + z as usize, 0);
        bits.push(1);
    }
    bits
}

/// Packs bits into bytes, the low bit of each byte first.
fn pack(bits: &[u8]) -> Vec<u8> {
    let mut out = vec![0u8; bits.len().div_ceil(8)];
    for (i, b) in bits.iter().enumerate() {
        out[i >> 3] |= b << (i & 7);
    }
    out
}

fn compress_gr(xs: &[i32], low: usize, high: usize) -> Vec<u8> {
    pack(&gr_bits(xs, low, high))
}

#[test]
fn gr_round_trip() {
    // Values with a longer unary run among them: 32, 200 and 511.
    let xs: [i32; 13] = [0, 1, -1, 5, -5, 31, -31, 7, 32, -200, 200, 511, -511];
    let buf = compress_gr(&xs, LOW_S1, HIGH_S1);
    let mut out = [0i32; N];
    let j = decompress_gr::<13, LOW_S1, HIGH_S1>(&buf, &mut out).unwrap();
    assert_eq!(&out[..xs.len()], &xs[..]);
    assert!(j <= buf.len() * 8);

    // Truncating the buffer must be rejected, never panic.
    for cut in 1..buf.len() {
        let _ = decompress_gr::<13, LOW_S1, HIGH_S1>(&buf[..cut], &mut out);
    }
}

#[test]
fn truncated_codes_are_refused() {
    let xs: [i32; 13] = [0, 1, -1, 5, -5, 31, -31, 7, 32, -200, 200, 511, -511];
    let bits = gr_bits(&xs, LOW_S1, HIGH_S1);
    // Thirteen signs, low parts and ones, and what the high parts count.
    let highs: usize = xs.iter().map(|&x| (if x < 0 { !x } else { x }) as usize >> LOW_S1).sum();
    assert_eq!(bits.len(), 13 * (LOW_S1 + 2) + highs);
    let mut buf = pack(&bits);
    buf.extend_from_slice(&[0xff; 5]);
    for cut in 0..=buf.len() {
        let mut out = [9i32; N];
        let r = decompress_gr::<13, LOW_S1, HIGH_S1>(&buf[..cut], &mut out);
        if 8 * cut < bits.len() {
            assert_eq!(r, None);
        } else {
            assert_eq!(r, Some(bits.len()));
            assert_eq!(&out[..13], &xs[..]);
        }
        if 8 * cut < 13 * (LOW_S1 + 2) {
            assert_eq!(out, [9i32; N]);
        }
    }
}

#[test]
fn widest_numbers_round_trip() {
    let xs: [i32; 3] = [(1 << 20) + 5, -(1 << 20) - 6, 511];
    let bits = gr_bits(&xs, 9, 31);
    let mut out = [0i32; N];
    assert_eq!(decompress_gr::<3, 9, 31>(&pack(&bits), &mut out), Some(bits.len()));
    assert_eq!(&out[..3], &xs[..]);
    assert_eq!(decode_int(&[0xff; 4], 0, 31), i32::MAX);
    assert_eq!(decode_int(&[0xff, 0xff, 0xff, 0x7f], 1, 31), i32::MAX / 2);
}

#[test]
fn every_single_coefficient_round_trips() {
    let mut out = [0i32; N];
    for x in -512..512 {
        let bits = gr_bits(&[x], LOW_S1, HIGH_S1);
        let buf = pack(&bits);
        assert_eq!(decompress_gr::<1, LOW_S1, HIGH_S1>(&buf, &mut out), Some(bits.len()));
        assert_eq!(out[0], x);
    }
    for x in -4096..4096 {
        let bits = gr_bits(&[x], LOW_01, HIGH_01);
        let buf = pack(&bits);
        assert_eq!(decompress_gr::<1, LOW_01, HIGH_01>(&buf, &mut out), Some(bits.len()));
        assert_eq!(out[0], x);
    }
}

#[test]
fn malformed_codes_are_refused() {
    let mut out = [0i32; N];
    // Too short for any code.
    assert_eq!(decompress_gr::<1, LOW_S1, HIGH_S1>(&[], &mut out), None);
    // A unary part without end, and one that is too long.
    assert_eq!(decompress_gr::<1, LOW_S1, HIGH_S1>(&[0; 2], &mut out), None);
    assert_eq!(decompress_gr::<1, LOW_S1, HIGH_S1>(&[0; 100], &mut out), None);
    let mut long = [0u8; 3];
    long[2] = 0x20; // bit 21: fifteen zeros, then a one
    assert_eq!(decompress_gr::<1, LOW_S1, HIGH_S1>(&long, &mut out), Some(22));
    assert_eq!(out[0], 480);
    long[2] = 0x40; // bit 22: sixteen zeros
    assert_eq!(decompress_gr::<1, LOW_S1, HIGH_S1>(&long, &mut out), None);
}

#[test]
fn only_the_decoded_entries_change() {
    let mut out = [77i32; N];
    let buf = compress_gr(&[3, -4, 5], LOW_00, HIGH_00);
    decompress_gr::<3, LOW_00, HIGH_00>(&buf, &mut out).unwrap();
    assert_eq!(&out[..4], &[3, -4, 5, 77]);
    assert!(out[3..].iter().all(|&x| x == 77));
}

#[test]
fn bits_and_windows() {
    let buf = [0b1010_0110u8, 0b0000_0011];
    let seen: Vec<u32> = (0..16).map(|i| bit(&buf, i)).collect();
    assert_eq!(seen, vec![0, 1, 1, 0, 0, 1, 0, 1, 1, 1, 0, 0, 0, 0, 0, 0]);
    assert_eq!(decode_int(&buf, 0, 8), 0b1010_0110);
    assert_eq!(decode_int(&buf, 5, 7), 0b11101 | (0 << 5));
    assert_eq!(decode_int(&buf, 3, 0), 0);
}

#[test]
fn padding_is_scanned_to_the_end() {
    let mut buf = vec![0u8; 21];
    assert!(padding_all_zero(&buf, 0));
    assert!(padding_all_zero(&buf, 168));
    assert!(padding_all_zero(&buf, 1000));
    assert!(padding_all_zero(&[], 0));
    for k in 0..168 {
        buf[k / 8] = 1 << (k % 8);
        for start in 0..170 {
            assert_eq!(padding_all_zero(&buf, start), start > k);
        }
        buf[k / 8] = 0;
    }
}

#[test]
fn leading_sign_decides() {
    let mut w = [0i32; N];
    assert!(!sym_break(&w));
    w[511] = 1;
    assert!(sym_break(&w));
    w[3] = -7;
    assert!(!sym_break(&w));
    w[0] = 2;
    assert!(sym_break(&w));
    // Of a polynomial and its opposite exactly one leads with a positive sign.
    let mut v = [0i32; N];
    for i in 0..N {
        v[i] = -w[i];
    }
    assert!(!sym_break(&v));
}

fn key_bits(q00: &[i32; N], q01: &[i32; N]) -> Vec<u8> {
    let mut half = q00[..256].to_vec();
    half[0] >>= 7;
    let mut bits = gr_bits(&half, LOW_00, HIGH_00);
    for t in 0..7 {
        bits.push(((q00[0] >> t) & 1) as u8);
    }
    while bits.len() % 8 != 0 {
        bits.push(0);
    }
    bits.extend(gr_bits(q01, LOW_01, HIGH_01));
    bits
}

fn sample_key() -> ([i32; N], [i32; N]) {
    let (mut q00, mut q01) = ([0i32; N], [0i32; N]);
    q00[0] = 12345;
    for i in 1..256 {
        q00[i] = (i as i32 * 37) % 61 - 30;
        q00[N - i] = -q00[i];
    }
    for i in 0..N {
        q01[i] = (i as i32 * 101) % 801 - 400;
    }
    (q00, q01)
}

#[test]
fn public_keys_round_trip() {
    for c in [12345, 0, 127, 128, -1, -65536, 65535] {
        let (mut q00, q01) = sample_key();
        q00[0] = c;
        let mut key = pack(&key_bits(&q00, &q01));
        key.resize(1024, 0);
        let (mut a, mut b) = ([9i32; N], [9i32; N]);
        assert!(decode_public(&key, &mut a, &mut b));
        assert_eq!(a, q00);
        assert_eq!(b, q01);
    }
}

#[test]
fn public_keys_have_one_encoding() {
    let (q00, q01) = sample_key();
    let bits = key_bits(&q00, &q01);
    let mut key = pack(&bits);
    key.resize(1024, 0);
    let (mut a, mut b) = ([0i32; N], [0i32; N]);
    // Wrong length.
    assert!(!decode_public(&key[..1023], &mut a, &mut b));
    let mut longer = key.clone();
    longer.push(0);
    assert!(!decode_public(&longer, &mut a, &mut b));
    // A bit set in the padding behind the key.
    for k in [bits.len(), bits.len() + 1, 8191] {
        let mut bad = key.clone();
        bad[k / 8] |= 1 << (k % 8);
        assert!(!decode_public(&bad, &mut a, &mut b));
    }
    // A bit set in the padding between the polynomials.
    let mut half = q00[..256].to_vec();
    half[0] >>= 7;
    let front = gr_bits(&half, LOW_00, HIGH_00).len() + 7;
    assert!(front % 8 != 0);
    let mut bad = key.clone();
    bad[front / 8] |= 1 << (front % 8);
    assert!(!decode_public(&bad, &mut a, &mut b));
    // No key in these.
    assert!(!decode_public(&[0u8; 1024], &mut a, &mut b));
    assert!(decode_public(&key, &mut a, &mut b));
}

#[test]
fn signatures_round_trip_and_have_one_encoding() {
    let mut s1 = [0i32; N];
    for i in 0..N {
        s1[i] = (i as i32 * 29) % 63 - 31;
    }
    let bits = gr_bits(&s1, LOW_S1, HIGH_S1);
    let mut sig: Vec<u8> = (1..=24).collect();
    sig.extend(pack(&bits));
    assert!(sig.len() < 555);
    sig.resize(555, 0);
    let mut out = [0i32; N];
    assert_eq!(decode_signature(&sig, &mut out), Some(&sig[..24]));
    assert_eq!(out, s1);
    assert_eq!(decode_signature(&sig[..554], &mut out), None);
    let end = 24 * 8 + bits.len();
    for k in [end, 555 * 8 - 1] {
        let mut bad = sig.clone();
        bad[k / 8] |= 1 << (k % 8);
        assert_eq!(decode_signature(&bad, &mut out), None);
    }
    assert_eq!(decode_signature(&[0u8; 555], &mut out), None);
}

#[test]
fn hashes_are_shake256() {
    let empty: [u8; 32] = [
        0x46, 0xb9, 0xdd, 0x2b, 0x0b, 0xa8, 0x8d, 0x13, 0x23, 0x3b, 0x3f, 0xeb, 0x74, 0x3e, 0xeb,
        0x24, 0x3f, 0xcd, 0x52, 0xea, 0x62, 0xb8, 0x1b, 0x82, 0xb5, 0x0c, 0x27, 0x64, 0x6e, 0xd5,
        0x76, 0x2f,
    ];
    assert_eq!(compute_hpub(b""), empty);
    let abc: [u8; 32] = [
        72, 51, 102, 96, 19, 96, 168, 119, 28, 104, 99, 8, 12, 196, 17, 77, 141, 180, 69, 48, 248,
        241, 225, 238, 79, 148, 234, 55, 231, 139, 87, 57,
    ];
    assert_eq!(compute_hpub(b"abc"), abc);
    let m: [u8; 64] = [
        80, 55, 146, 73, 109, 162, 255, 109, 235, 160, 38, 150, 177, 228, 21, 78, 68, 241, 27, 9,
        82, 144, 17, 46, 91, 21, 114, 219, 71, 76, 156, 252, 117, 236, 183, 136, 0, 66, 6, 108,
        189, 83, 134, 22, 221, 150, 19, 113, 3, 248, 67, 200, 28, 172, 126, 28, 241, 30, 181, 58,
        243, 4, 251, 102,
    ];
    assert_eq!(compute_m(b"message", &abc), m);
    // The front of a longer output is the shorter output.
    let joined = [&b"message"[..], &abc[..]].concat();
    assert_eq!(compute_hpub(&joined)[..], m[..32]);
    let h: [u8; 128] = [
        100, 238, 63, 238, 90, 204, 178, 207, 209, 91, 141, 245, 178, 62, 111, 90, 232, 52, 83,
        236, 103, 106, 226, 127, 59, 128, 39, 121, 140, 6, 136, 187, 91, 76, 56, 212, 16, 32, 20,
        106, 47, 174, 15, 151, 37, 121, 209, 141, 144, 27, 16, 29, 71, 34, 222, 190, 116, 115, 229,
        62, 23, 245, 10, 180, 203, 79, 14, 39, 57, 102, 62, 48, 107, 114, 197, 155, 178, 18, 147,
        51, 149, 235, 10, 191, 247, 45, 86, 187, 68, 75, 23, 9, 209, 124, 59, 228, 214, 207, 220,
        104, 12, 53, 85, 81, 45, 163, 17, 167, 9, 127, 70, 185, 224, 39, 142, 210, 23, 199, 215,
        219, 239, 30, 106, 49, 115, 20, 35, 235,
    ];
    let mut s1 = [0i32; N];
    for i in 0..N {
        s1[i] = i as i32 - 256;
    }
    let (mut h0, mut w1) = ([5i32; N], [5i32; N]);
    compute_h(&m, b"salt", &mut h0, &mut w1, &s1);
    let (mut g0, mut v1) = ([6i32; N], [6i32; N]);
    expand_h(&h, &mut g0, &mut v1, &s1);
    assert_eq!(h0, g0);
    assert_eq!(w1, v1);
    for i in 0..N {
        assert_eq!(h0[i], ((h[i / 8] >> (i % 8)) & 1) as i32);
        let h1 = ((h[64 + i / 8] >> (i % 8)) & 1) as i32;
        assert_eq!(w1[i], h1 - 2 * s1[i]);
    }
}
