//! What instructions return, put together from their parts, and what a
//! verification hashes and checks.

use vstd::arithmetic::power::pow;
use vstd::arithmetic::power2::lemma_pow2_pos;
use vstd::prelude::*;

use crate::acceptance::{
    accepts, accepts_hash, accepts_hash_prepared, accepts_prepared, challenge, factors_norm,
    prepares, KeyFactors, PreparedKey,
};
use crate::codec::{
    encodes_public, encodes_signature, h0_of, key_hash, message_hash, salt_of, shake256_output,
    w1_of,
};
use crate::fixed_point::{forward, rebuild, reconstruct, Split};
use crate::golomb::{bit_at, bits_of};
use crate::norm::{norm_mod, norm_term};
use crate::program::{account_end, instruction_code, key_part, Account};
use crate::sums::{lemma_sum_ext, sum};
use crate::transform::{bit_reverse, eval_point, transform};
use crate::wire::wire_bit;

verus! {

/// A raw verification is made up of the byte zero, a key, a signature and a
/// message of any length. It returns zero if the signature on that message is
/// accepted under that key, and three if not.
pub proof fn lemma_raw_instruction(
    key: Seq<u8>,
    sig: Seq<u8>,
    message: Seq<u8>,
    account: Option<Account>,
    baked: PreparedKey,
)
    requires
        key.len() == 1024,
        sig.len() == 555,
    ensures
        instruction_code(seq![0u8] + key + sig + message, account, baked) == if accepts(
            key,
            message,
            sig,
        ) {
            0u64
        } else {
            3u64
        },
{
    let data = seq![0u8] + key + sig + message;
    assert(data.subrange(1, 1025) =~= key);
    assert(data.subrange(1025, 1580) =~= sig);
    assert(data.subrange(1580, data.len() as int) =~= message);
}

/// A verification under the program's own key is made up of the byte one, a
/// signature and a message of any length. It returns zero if the signature on
/// that message is accepted under the prepared key, and three if not.
pub proof fn lemma_prepared_instruction(
    sig: Seq<u8>,
    message: Seq<u8>,
    account: Option<Account>,
    baked: PreparedKey,
)
    requires
        sig.len() == 555,
    ensures
        instruction_code(seq![1u8] + sig + message, account, baked) == if accepts_prepared(
            baked,
            message,
            sig,
        ) {
            0u64
        } else {
            3u64
        },
{
    let data = seq![1u8] + sig + message;
    assert(data.subrange(1, 556) =~= sig);
    assert(data.subrange(556, data.len() as int) =~= message);
}

/// A registration is made up of the byte two and a key; what follows is not
/// looked at. It returns zero if the account's data is aligned and the key can
/// be prepared, four if not; five in the high word if the account is too small,
/// and three there if no account comes with it. The key that is prepared is the
/// one in the instruction.
pub proof fn lemma_register_instruction(
    key: Seq<u8>,
    rest: Seq<u8>,
    account: Option<Account>,
    baked: PreparedKey,
)
    requires
        key.len() == 1024,
    ensures
        key_part(seq![2u8] + key + rest) == key,
        instruction_code(seq![2u8] + key + rest, account, baked) == match account {
            None => 0x3_0000_0000u64,
            Some(a) => if a.len < 18464 {
                0x5_0000_0000u64
            } else if a.address % 8 == 0 && exists|k: PreparedKey| prepares(key, k) {
                0u64
            } else {
                4u64
            },
        },
{
    let data = seq![2u8] + key + rest;
    assert(data.subrange(1, 1025) =~= key);
}

/// An instruction cannot be read if it is empty, names no mode, or is shorter
/// than its mode asks. A registration looks at its account first.
pub proof fn lemma_unreadable_instruction(
    data: Seq<u8>,
    account: Option<Account>,
    baked: PreparedKey,
)
    requires
        data.len() == 0 || data[0] > 2 || (data[0] == 0 && data.len() < 1580) || (data[0] == 1
            && data.len() < 556) || (data[0] == 2 && data.len() < 1025 && (account matches Some(a)
            ==> a.len >= 18464)),
    ensures
        instruction_code(data, account, baked) == 0x3_0000_0000,
{
}

/// A registration looks at its account before all else: five in the high word if
/// it is too small, three there if there is none.
pub proof fn lemma_register_account(data: Seq<u8>, account: Option<Account>, baked: PreparedKey)
    requires
        data.len() > 0,
        data[0] == 2,
        account matches Some(a) ==> a.len < 18464,
    ensures
        instruction_code(data, account, baked) == if account is Some {
            0x5_0000_0000u64
        } else {
            0x3_0000_0000u64
        },
{
}

/// The record of an account takes its data and 10344 bytes more, counted from
/// the start of the input.
pub proof fn lemma_account_end(data_len: int)
    ensures
        account_end(data_len) == data_len + 10344,
{
}

/// The hashes of a verification: 32 bytes of the whole key; 64 of the whole
/// message and that hash behind it; 128 of that and the salt behind it, which
/// is the front of the signature.
pub proof fn lemma_hashes(key: Seq<u8>, message: Seq<u8>, sig: Seq<u8>)
    ensures
        key_hash(key) == shake256_output(key, 32),
        message_hash(message, key_hash(key)) == shake256_output(
            message + shake256_output(key, 32),
            64,
        ),
        challenge(message, key_hash(key), salt_of(sig)) == shake256_output(
            shake256_output(message + shake256_output(key, 32), 64) + sig.subrange(0, 24),
            128,
        ),
{
}

/// The polynomials of a hash of 128 bytes: `h0` is its first 512 bits, and `w1`
/// its other bits less twice `s1`.
pub proof fn lemma_hash_polynomials(h: Seq<u8>, s1: Seq<int>)
    requires
        h.len() == 128,
    ensures
        h0_of(h) == Seq::new(512, |i: int| wire_bit(h, i)),
        w1_of(h, s1) == Seq::new(512, |i: int| wire_bit(h, 512 + i) - 2 * s1[i]),
{
    assert forall|i: int| 0 <= i < 1024 implies #[trigger] bits_of(h)[i] == (wire_bit(h, i) == 1)
        && 0 <= wire_bit(h, i) <= 1 by {
        assert(bits_of(h)[i] == bit_at(h, i));
        lemma_pow2_pos((i % 8) as nat);
    }
    assert forall|i: int| 0 <= i < 512 implies #[trigger] h0_of(h)[i] == wire_bit(h, i) by {
        assert(bits_of(h)[i] == (wire_bit(h, i) == 1));
    }
    assert forall|i: int| 0 <= i < 512 implies #[trigger] w1_of(h, s1)[i] == wire_bit(h, 512 + i) - 2
        * s1[i] by {
        assert(bits_of(h)[512 + i] == (wire_bit(h, 512 + i) == 1));
    }
    assert(h0_of(h) =~= Seq::new(512, |i: int| wire_bit(h, i)));
    assert(w1_of(h, s1) =~= Seq::new(512, |i: int| wire_bit(h, 512 + i) - 2 * s1[i]));
}

/// What a key, a decoded signature and a hash have to satisfy: the first
/// coefficient of `w1` that is not zero is positive, some `w0` is reconstructed,
/// and `n` times the norm of `(w0, w1)` has the same residue modulo both primes,
/// a multiple of `n` whose quotient `r` satisfies `1600 r <= 13307904`.
pub open spec fn answers(q00: Seq<int>, q01: Seq<int>, s1: Seq<int>, h: Seq<u8>) -> bool {
    let h0 = Seq::new(512, |i: int| wire_bit(h, i));
    let w1 = Seq::new(512, |i: int| wire_bit(h, 512 + i) - 2 * s1[i]);
    &&& exists|k: int|
        0 <= k < 512 && #[trigger] w1[k] > 0 && forall|i: int| 0 <= i < k ==> #[trigger] w1[i] == 0
    &&& match rebuild(q00, q01, w1, h0) {
        None => false,
        Some(w0) => {
            let r = norm_mod(q00, q01, w0, w1, 2147473409);
            &&& r is Some
            &&& r == norm_mod(q00, q01, w0, w1, 2147389441)
            &&& r->0 % 512 == 0
            &&& 1600 * (r->0 / 512) <= 13307904
        },
    }
}

/// A signature is accepted exactly if key and signature are encodings of
/// polynomials that answer for the hash of the key, the message and the salt.
pub proof fn lemma_accepts(key: Seq<u8>, message: Seq<u8>, sig: Seq<u8>)
    requires
        shake256_output(
            shake256_output(message + shake256_output(key, 32), 64) + sig.subrange(0, 24),
            128,
        ).len() == 128,
    ensures
        accepts(key, message, sig) <==> exists|q00: Seq<int>, q01: Seq<int>, s1: Seq<int>| #[trigger]
            encodes_public(key, q00, q01) && #[trigger] encodes_signature(sig, s1) && answers(
                q00,
                q01,
                s1,
                shake256_output(
                    shake256_output(message + shake256_output(key, 32), 64) + sig.subrange(0, 24),
                    128,
                ),
            ),
{
    let h = challenge(message, key_hash(key), salt_of(sig));
    lemma_hashes(key, message, sig);
    assert forall|q00: Seq<int>, q01: Seq<int>, s1: Seq<int>| answers(q00, q01, s1, h)
        == #[trigger] accepts_hash(q00, q01, s1, h) by {
        lemma_answers(q00, q01, s1, h);
    }
    if accepts(key, message, sig) {
        let (a, b, t) = choose|a: Seq<int>, b: Seq<int>, t: Seq<int>|
            encodes_public(key, a, b) && #[trigger] encodes_signature(sig, t)
                && #[trigger] accepts_hash(a, b, t, h);
        assert(answers(a, b, t, h));
    }
    if exists|q00: Seq<int>, q01: Seq<int>, s1: Seq<int>| #[trigger]
        encodes_public(key, q00, q01) && #[trigger] encodes_signature(sig, s1) && answers(
            q00,
            q01,
            s1,
            h,
        ) {
        let (a, b, t) = choose|a: Seq<int>, b: Seq<int>, t: Seq<int>| #[trigger]
            encodes_public(key, a, b) && #[trigger] encodes_signature(sig, t) && answers(a, b, t, h);
        assert(accepts_hash(a, b, t, h));
    }
}

/// What is checked of a key and a decoded signature once the hash is known.
pub proof fn lemma_answers(q00: Seq<int>, q01: Seq<int>, s1: Seq<int>, h: Seq<u8>)
    requires
        h.len() == 128,
    ensures
        answers(q00, q01, s1, h) == accepts_hash(q00, q01, s1, h),
{
    lemma_hash_polynomials(h, s1);
    let h0 = Seq::new(512, |i: int| wire_bit(h, i));
    let w1 = Seq::new(512, |i: int| wire_bit(h, 512 + i) - 2 * s1[i]);
    if answers(q00, q01, s1, h) {
        let k = choose|k: int|
            0 <= k < 512 && #[trigger] w1[k] > 0 && forall|i: int| 0 <= i < k ==> #[trigger] w1[i] == 0;
        assert(w1_of(h, s1)[k] > 0);
    }
}

/// [`answers`] with the factors of a prepared key, whatever words it holds.
pub open spec fn answers_prepared(k: PreparedKey, s1: Seq<int>, h: Seq<u8>) -> bool {
    let h0 = Seq::new(512, |i: int| wire_bit(h, i));
    let w1 = Seq::new(512, |i: int| wire_bit(h, 512 + i) - 2 * s1[i]);
    let q = Split { re: k.fq01.subrange(0, 256), im: k.fq01.subrange(256, 512) };
    &&& exists|j: int|
        0 <= j < 512 && #[trigger] w1[j] > 0 && forall|i: int| 0 <= i < j ==> #[trigger] w1[i] == 0
    &&& match reconstruct(q, k.bound, forward(w1, 524288, false), h0) {
        None => false,
        Some(w0) => {
            let r = factors_sum(k.p1, w0, w1, 2147473409);
            &&& r == factors_sum(k.p2, w0, w1, 2147389441)
            &&& r % 512 == 0
            &&& 1600 * (r / 512) <= 13307904
        },
    }
}

/// The sum over all roots of `q00 e e* + d w1*` modulo `p`, where
/// `d = w1 q00^-1` and `e = w0 + d q01`: the factors of the key as they are
/// given, those of `w0` and `w1` by their values at the roots.
pub open spec fn factors_sum(f: KeyFactors, w0: Seq<int>, w1: Seq<int>, p: int) -> int {
    let (c, d) = (transform(w0, p), transform(w1, p));
    sum(
        |k: int|
            {
                let j = 511 - k;
                f.q00[k] * (c[k] + d[k] * f.inverse[k] * f.q01[k]) * (c[j] + d[j] * f.inverse[j]
                    * f.q01[j]) + d[k] * f.inverse[k] * d[j]
            },
        512,
    ) % p
}

/// The norm with the factors of a key given in transformed form.
pub proof fn lemma_factors_sum(f: KeyFactors, w0: Seq<int>, w1: Seq<int>, p: int)
    ensures
        factors_norm(f, w0, w1, p) == factors_sum(f, w0, w1, p),
{
    let (c, d) = (transform(w0, p), transform(w1, p));
    let g = |k: int| norm_term(f.q00, f.inverse, f.q01, c, d, k);
    let h = |k: int|
        {
            let j = 511 - k;
            f.q00[k] * (c[k] + d[k] * f.inverse[k] * f.q01[k]) * (c[j] + d[j] * f.inverse[j]
                * f.q01[j]) + d[k] * f.inverse[k] * d[j]
        };
    lemma_sum_ext(g, h, 512);
}

/// A signature is accepted under a prepared key exactly if it is the encoding of
/// a polynomial that answers for the hash of the message, the key's hash and the
/// salt.
pub proof fn lemma_accepts_prepared(k: PreparedKey, message: Seq<u8>, sig: Seq<u8>)
    requires
        shake256_output(
            shake256_output(message + k.hpub, 64) + sig.subrange(0, 24),
            128,
        ).len() == 128,
    ensures
        accepts_prepared(k, message, sig) <==> exists|s1: Seq<int>| #[trigger]
            encodes_signature(sig, s1) && answers_prepared(
                k,
                s1,
                shake256_output(
                    shake256_output(message + k.hpub, 64) + sig.subrange(0, 24),
                    128,
                ),
            ),
{
    let h = challenge(message, k.hpub, salt_of(sig));
    assert(h == shake256_output(
        shake256_output(message + k.hpub, 64) + sig.subrange(0, 24),
        128,
    ));
    assert forall|s1: Seq<int>| #[trigger] encodes_signature(sig, s1) implies answers_prepared(k, s1, h)
        == accepts_hash_prepared(k, s1, h) by {
        lemma_answers_prepared(k, s1, h);
    }
}

/// What is checked of a prepared key and a decoded signature once the hash is
/// known.
pub proof fn lemma_answers_prepared(k: PreparedKey, s1: Seq<int>, h: Seq<u8>)
    requires
        h.len() == 128,
    ensures
        answers_prepared(k, s1, h) == accepts_hash_prepared(k, s1, h),
{
    lemma_hash_polynomials(h, s1);
    let h0 = Seq::new(512, |i: int| wire_bit(h, i));
    let w1 = Seq::new(512, |i: int| wire_bit(h, 512 + i) - 2 * s1[i]);
    let q = Split { re: k.fq01.subrange(0, 256), im: k.fq01.subrange(256, 512) };
    if let Some(w0) = reconstruct(q, k.bound, forward(w1, 524288, false), h0) {
        lemma_factors_sum(k.p1, w0, w1, 2147473409);
        lemma_factors_sum(k.p2, w0, w1, 2147389441);
    }
    if answers_prepared(k, s1, h) {
        let j = choose|j: int|
            0 <= j < 512 && #[trigger] w1[j] > 0 && forall|i: int| 0 <= i < j ==> #[trigger] w1[i] == 0;
        assert(w1_of(h, s1)[j] > 0);
    }
}

/// The values of a polynomial modulo the first prime: at the powers
/// `g^(2 r + 1)` of `g = 2094155704`, where `r` is the index with its nine bits
/// reversed.
pub proof fn lemma_first_transform(f: Seq<int>, k: int)
    requires
        f.len() == 512,
        0 <= k < 512,
    ensures
        transform(f, 2147473409)[k] == sum(
            |i: int| f[i] * pow(pow(2094155704, 2 * bit_reverse(k as nat, 9) + 1), i as nat),
            512,
        ) % 2147473409,
{
    let x = pow(2094155704, 2 * bit_reverse(k as nat, 9) + 1);
    lemma_sum_ext(
        |i: int| f[i] * pow(eval_point(2147473409, k), i as nat),
        |i: int| f[i] * pow(x, i as nat),
        512,
    );
}

/// The values of a polynomial modulo the second prime: at the powers
/// `g^(2 r + 1)` of `g = 1133102181`, where `r` is the index with its nine bits
/// reversed.
pub proof fn lemma_second_transform(f: Seq<int>, k: int)
    requires
        f.len() == 512,
        0 <= k < 512,
    ensures
        transform(f, 2147389441)[k] == sum(
            |i: int| f[i] * pow(pow(1133102181, 2 * bit_reverse(k as nat, 9) + 1), i as nat),
            512,
        ) % 2147389441,
{
    let x = pow(1133102181, 2 * bit_reverse(k as nat, 9) + 1);
    lemma_sum_ext(
        |i: int| f[i] * pow(eval_point(2147389441, k), i as nat),
        |i: int| f[i] * pow(x, i as nat),
        512,
    );
}

} // verus!
