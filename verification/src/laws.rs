//! What the parts of a verification come to together.

use vstd::arithmetic::div_mod::*;
use vstd::arithmetic::power::*;
use vstd::arithmetic::power2::*;
use vstd::prelude::*;

use crate::acceptance::{accepts, accepts_hash, challenge, usable};
use crate::codec::{
    encodes_public, encodes_signature, h0_of, key_hash, leads_positive,
    lemma_public_decoding_unique, lemma_signature_decoding_unique, salt_of, valid_q00, w1_of,
};
use crate::fixed_point::{
    bounds_of, divided, divisor, forward, inverse_levels, level_root, rebuild, s0_entry, C_Q01,
    C_W1,
};
use crate::golomb::unary;
use crate::norm::norm_mod;
use crate::norm_laws::{completes, lemma_norm_in_bound, squared_norm};
use crate::primes::{is_prime, lemma_p1_prime, lemma_p2_prime};
use crate::ring::adjoint;
use crate::roots::{is_modulus, lemma_root_order, root, P1, P2};

verus! {

/// The first polynomial of every encoded key is its own adjoint.
pub proof fn lemma_key_self_adjoint(q00: Seq<int>)
    requires
        valid_q00(q00),
    ensures
        adjoint(q00) == q00,
{
    assert forall|k: int| 0 <= k < 512 implies adjoint(q00)[k] == q00[k] by {
        if k > 256 {
            assert(q00[k] == -q00[512 - k]);
        } else if 0 < k < 256 {
            assert(q00[512 - k] == -q00[512 - (512 - k)]);
        }
    }
    assert(adjoint(q00) =~= q00);
}

/// Both moduli are primes below `2^31` that leave one when divided by `2n`: they
/// have roots of unity of order `2n`, and sums of two residues fit in 32 bits.
pub proof fn lemma_modulus(p: int)
    requires
        is_modulus(p),
    ensures
        is_prime(p),
        (p - 1) % 1024 == 0,
        2 * p <= u32::MAX,
        pow(root(p), 512) % p == p - 1,
        pow(root(p), 1024) % p == 1,
{
    if p == P1 {
        lemma_p1_prime();
    } else {
        lemma_p2_prime();
    }
    lemma_root_order(p);
}

/// The high part of a number that the code holds takes at most `2^(high - low)`
/// bits.
pub proof fn lemma_unary_len(m: nat, low: nat, high: nat)
    requires
        low <= high,
        m < pow2(high),
    ensures
        1 <= unary(m, low).len() <= pow2((high - low) as nat),
{
    let p = pow2(low) as int;
    let q = pow2((high - low) as nat) as int;
    lemma_pow2_pos(low);
    lemma_pow2_adds(low, (high - low) as nat);
    lemma_div_pos_is_pos(m as int, p);
    lemma_div_by_multiple_is_strongly_ordered(m as int, p * q, q, p);
    lemma_div_multiples_vanish(q, p);
}

/// No level uses the first two roots of the table, nor one beyond its end.
pub proof fn lemma_level_root(half: int, i: int)
    requires
        half == 1 || half == 2 || half == 4 || half == 8 || half == 16 || half == 32 || half == 64
            || half == 128,
        0 <= i < 256,
    ensures
        2 <= level_root(half, i) <= 383,
{
}

/// The high word of a stored bound is the divisor that it was made from.
pub proof fn lemma_divisor_from_bound(q00: Seq<int>, u: int)
    requires
        0 <= u < 256,
    ensures
        bounds_of(q00)[u] / 0x1_0000_0000 == divisor(q00, u),
{
}

/// Entry `i` of the `s0` that a reconstruction comes to.
pub open spec fn rebuilt_s0(
    q00: Seq<int>,
    q01: Seq<int>,
    w1: Seq<int>,
    h0: Seq<int>,
    i: int,
) -> int {
    s0_entry(
        inverse_levels(
            divided(
                forward(q01, C_Q01 as int, false),
                forward(w1, C_W1 as int, false),
                bounds_of(q00),
            ),
            1,
        ),
        h0,
        i,
    )
}

/// A reconstruction from a binary `h0` gives `w0 = h0 - 2 s0` for an `s0` of at
/// most 13 bits and a sign.
pub proof fn lemma_rebuilt_w0(
    q00: Seq<int>,
    q01: Seq<int>,
    w1: Seq<int>,
    h0: Seq<int>,
    w0: Seq<int>,
    i: int,
)
    requires
        rebuild(q00, q01, w1, h0) == Some(w0),
        0 <= i < 512,
        h0[i] == 0 || h0[i] == 1,
    ensures
        w0[i] == h0[i] - 2 * rebuilt_s0(q00, q01, w1, h0, i),
        -8192 <= rebuilt_s0(q00, q01, w1, h0, i) < 8192,
{
    let t = inverse_levels(
        divided(
            forward(q01, C_Q01 as int, false),
            forward(w1, C_W1 as int, false),
            bounds_of(q00),
        ),
        1,
    );
    assert(-8192 <= s0_entry(t, h0, i) < 8192);
}

/// A usable key accepts a signature exactly if the leading coefficient of `w1`
/// is positive and `(w0, w1)` is within the bound on its squared norm: given
/// that `w0` can be reconstructed, and that `n` times the squared norm is below
/// the product of the primes, as it is for every norm near the bound.
pub proof fn lemma_accepts_short(
    key: Seq<u8>,
    message: Seq<u8>,
    sig: Seq<u8>,
    q00: Seq<int>,
    q01: Seq<int>,
    q11: Seq<int>,
    s1: Seq<int>,
    w0: Seq<int>,
)
    requires
        encodes_public(key, q00, q01),
        encodes_signature(sig, s1),
        usable(q00),
        completes(q00, q01, q11),
        ({
            let h = challenge(message, key_hash(key), salt_of(sig));
            &&& rebuild(q00, q01, w1_of(h, s1), h0_of(h)) == Some(w0)
            &&& 0 <= 512 * squared_norm(q00, q01, q11, w0, w1_of(h, s1)) < P1 * P2
        }),
    ensures
        ({
            let h = challenge(message, key_hash(key), salt_of(sig));
            let w1 = w1_of(h, s1);
            accepts(key, message, sig) <==> leads_positive(w1) && 1600 * squared_norm(
                q00,
                q01,
                q11,
                w0,
                w1,
            ) <= 13307904
        }),
{
    let h = challenge(message, key_hash(key), salt_of(sig));
    let w1 = w1_of(h, s1);
    assert(norm_mod(q00, q01, w0, w1, P1 as int) is Some);
    assert(norm_mod(q00, q01, w0, w1, P2 as int) is Some);
    lemma_norm_in_bound(q00, q01, q11, w0, w1);
    if leads_positive(w1) && 1600 * squared_norm(q00, q01, q11, w0, w1) <= 13307904 {
        assert(accepts_hash(q00, q01, s1, h));
    }
    if accepts(key, message, sig) {
        let (a, b, t) = choose|a: Seq<int>, b: Seq<int>, t: Seq<int>|
            encodes_public(key, a, b) && #[trigger] encodes_signature(sig, t)
                && #[trigger] accepts_hash(a, b, t, h);
        lemma_public_decoding_unique(key, q00, q01, a, b);
        lemma_signature_decoding_unique(sig, s1, t);
    }
}

} // verus!
