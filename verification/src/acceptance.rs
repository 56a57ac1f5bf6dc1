//! Which signatures are accepted, and what a prepared key is.

use vstd::prelude::*;

use crate::bytes::{
    i64_bytes, i64_words, lemma_i64_rewrite, lemma_i64_round_trip, lemma_u32_rewrite,
    lemma_u32_round_trip, u32_bytes, u32_words,
};
use crate::codec::{
    encodes_public, encodes_signature, h0_of, key_hash, leads_positive,
    lemma_public_decoding_unique, message_hash, salt_of, target_hash, w1_of,
};
use crate::fixed_point::{
    bounds_of, divisors_valid, forward, forward_levels, level, rebuild, reconstruct,
    unpacked, C_Q01, C_W1,
};
use crate::norm::{
    has_zero, mod_inverses, norm_in_bound, norm_mod, norm_sum, residues_in_bound,
};
use crate::roots::{P1, P2};
use crate::transform::transform;

verus! {

/// The hash that a signature answers for.
pub open spec fn challenge(message: Seq<u8>, hpub: Seq<u8>, salt: Seq<u8>) -> Seq<u8> {
    target_hash(message_hash(message, hpub), salt)
}

/// Whether `s1` answers for the hash `h` under the key `(q00, q01)`: the
/// leading coefficient of `w1` is positive, `w0` can be reconstructed, and
/// `(w0, w1)` is short.
pub open spec fn accepts_hash(q00: Seq<int>, q01: Seq<int>, s1: Seq<int>, h: Seq<u8>) -> bool {
    let w1 = w1_of(h, s1);
    &&& leads_positive(w1)
    &&& match rebuild(q00, q01, w1, h0_of(h)) {
        Some(w0) => norm_in_bound(q00, q01, w0, w1),
        None => false,
    }
}

/// Whether a signature is accepted: key and signature are encodings, and the
/// signature's polynomial answers for the challenge.
pub open spec fn accepts(key: Seq<u8>, message: Seq<u8>, sig: Seq<u8>) -> bool {
    exists|q00: Seq<int>, q01: Seq<int>, s1: Seq<int>|
        encodes_public(key, q00, q01) && #[trigger] encodes_signature(sig, s1)
            && #[trigger] accepts_hash(
            q00,
            q01,
            s1,
            challenge(message, key_hash(key), salt_of(sig)),
        )
}

/// The factors of a key modulo one prime, in transformed form.
#[verifier::ext_equal]
pub struct KeyFactors {
    pub q00: Seq<int>,
    pub inverse: Seq<int>,
    pub q01: Seq<int>,
}

/// What a prepared key holds: the bounds of the division, the transform of
/// `q01`, the factors modulo each prime, and the hash of the key.
#[verifier::ext_equal]
pub struct PreparedKey {
    pub bound: Seq<int>,
    pub fq01: Seq<int>,
    pub p1: KeyFactors,
    pub p2: KeyFactors,
    pub hpub: Seq<u8>,
}

/// The key's factors modulo `p`.
pub open spec fn factors_of(q00: Seq<int>, q01: Seq<int>, p: int) -> KeyFactors {
    KeyFactors {
        q00: transform(q00, p),
        inverse: mod_inverses(transform(q00, p), p),
        q01: transform(q01, p),
    }
}

/// A key that signatures can be accepted under: its divisors are valid and
/// `q00` is invertible modulo both primes.
pub open spec fn usable(q00: Seq<int>) -> bool {
    &&& q00[0] >= 0
    &&& divisors_valid(q00)
    &&& !has_zero(transform(q00, P1 as int))
    &&& !has_zero(transform(q00, P2 as int))
}

/// The prepared form of `(q00, q01)`.
pub open spec fn prepared_form(q00: Seq<int>, q01: Seq<int>, hpub: Seq<u8>) -> PreparedKey {
    PreparedKey {
        bound: bounds_of(q00),
        fq01: forward(q01, C_Q01 as int, false).re + forward(q01, C_Q01 as int, false).im,
        p1: factors_of(q00, q01, P1 as int),
        p2: factors_of(q00, q01, P2 as int),
        hpub,
    }
}

/// `prepared` is the prepared form of an encoded key.
pub open spec fn prepares(key: Seq<u8>, prepared: PreparedKey) -> bool {
    exists|q00: Seq<int>, q01: Seq<int>| #[trigger]
        encodes_public(key, q00, q01) && usable(q00) && prepared == prepared_form(
            q00,
            q01,
            key_hash(key),
        )
}

/// The factors' sum: the norm of `(w0, w1)` modulo `p`.
pub open spec fn factors_norm(f: KeyFactors, w0: Seq<int>, w1: Seq<int>, p: int) -> int {
    norm_sum(f.q00, f.inverse, f.q01, transform(w0, p), transform(w1, p), p)
}

/// [`accepts_hash`] for a prepared key.
pub open spec fn accepts_hash_prepared(k: PreparedKey, s1: Seq<int>, h: Seq<u8>) -> bool {
    let w1 = w1_of(h, s1);
    &&& leads_positive(w1)
    &&& match reconstruct(
        unpacked(k.fq01),
        k.bound,
        forward(w1, C_W1 as int, false),
        h0_of(h),
    ) {
        Some(w0) => residues_in_bound(
            factors_norm(k.p1, w0, w1, P1 as int),
            factors_norm(k.p2, w0, w1, P2 as int),
        ),
        None => false,
    }
}

/// [`accepts`] for a prepared key.
pub open spec fn accepts_prepared(k: PreparedKey, message: Seq<u8>, sig: Seq<u8>) -> bool {
    exists|s1: Seq<int>| #[trigger]
        encodes_signature(sig, s1) && accepts_hash_prepared(
            k,
            s1,
            challenge(message, k.hpub, salt_of(sig)),
        )
}

/// Every entry is an unsigned 32-bit number.
pub open spec fn all_u32(s: Seq<int>) -> bool {
    forall|i: int| 0 <= i < s.len() ==> 0 <= #[trigger] s[i] <= u32::MAX
}

/// Every entry is a signed 64-bit number.
pub open spec fn all_i64(s: Seq<int>) -> bool {
    forall|i: int| 0 <= i < s.len() ==> i64::MIN <= #[trigger] s[i] <= i64::MAX
}

/// The factors have the lengths and ranges of their storage.
pub open spec fn factors_well_formed(f: KeyFactors) -> bool {
    &&& f.q00.len() == 512
    &&& f.inverse.len() == 512
    &&& f.q01.len() == 512
    &&& all_u32(f.q00)
    &&& all_u32(f.inverse)
    &&& all_u32(f.q01)
}

/// A prepared key has the lengths and ranges of its storage.
pub open spec fn well_formed(k: PreparedKey) -> bool {
    &&& k.bound.len() == 256
    &&& k.fq01.len() == 512
    &&& all_i64(k.bound)
    &&& all_i64(k.fq01)
    &&& factors_well_formed(k.p1)
    &&& factors_well_formed(k.p2)
    &&& k.hpub.len() == 32
}

/// The serialised factors.
pub open spec fn factor_bytes(f: KeyFactors) -> Seq<u8> {
    u32_bytes(f.q00) + u32_bytes(f.inverse) + u32_bytes(f.q01)
}

/// The serialised form of a prepared key: its parts in order, little-endian.
pub open spec fn serialised(k: PreparedKey) -> Seq<u8> {
    i64_bytes(k.bound) + i64_bytes(k.fq01) + factor_bytes(k.p1) + factor_bytes(k.p2) + k.hpub
}

/// The factors that stand at offset `o`.
pub open spec fn factors_at(b: Seq<u8>, o: int) -> KeyFactors {
    KeyFactors {
        q00: u32_words(b, o, 512),
        inverse: u32_words(b, o + 2048, 512),
        q01: u32_words(b, o + 4096, 512),
    }
}

/// The prepared key that bytes stand for.
pub open spec fn deserialised(b: Seq<u8>) -> PreparedKey {
    PreparedKey {
        bound: i64_words(b, 0, 256),
        fq01: i64_words(b, 2048, 512),
        p1: factors_at(b, 6144),
        p2: factors_at(b, 12288),
        hpub: b.subrange(18432, 18464),
    }
}

/// A serialised prepared key has a fixed length.
pub proof fn lemma_serialised_len(k: PreparedKey)
    requires
        well_formed(k),
    ensures
        serialised(k).len() == 18464,
{
    assert(i64_bytes(k.bound).len() == 2048);
    assert(i64_bytes(k.fq01).len() == 4096);
    assert(factor_bytes(k.p1).len() == 6144);
    assert(factor_bytes(k.p2).len() == 6144);
}

/// Factors come back from their serialised form.
proof fn lemma_factors_round_trip(b: Seq<u8>, o: int, f: KeyFactors)
    requires
        0 <= o,
        o + 6144 <= b.len(),
        factors_well_formed(f),
        b.subrange(o, o + 6144) == factor_bytes(f),
    ensures
        factors_at(b, o) == f,
{
    let c = factor_bytes(f);
    assert(u32_bytes(f.q00).len() == 2048);
    assert(u32_bytes(f.inverse).len() == 2048);
    assert(u32_bytes(f.q01).len() == 2048);
    assert forall|i: int| 0 <= i < 6144 implies b[o + i] == #[trigger] c[i] by {
        assert(b.subrange(o, o + 6144)[i] == c[i]);
    }
    assert(b.subrange(o, o + 2048) =~= u32_bytes(f.q00)) by {
        assert forall|i: int| 0 <= i < 2048 implies b.subrange(o, o + 2048)[i] == u32_bytes(f.q00)[i] by {
            assert(c[i] == u32_bytes(f.q00)[i]);
        }
    }
    assert(b.subrange(o + 2048, o + 4096) =~= u32_bytes(f.inverse)) by {
        assert forall|i: int| 0 <= i < 2048 implies b.subrange(o + 2048, o + 4096)[i] == u32_bytes(
            f.inverse,
        )[i] by {
            assert(c[2048 + i] == u32_bytes(f.inverse)[i]);
        }
    }
    assert(b.subrange(o + 4096, o + 6144) =~= u32_bytes(f.q01)) by {
        assert forall|i: int| 0 <= i < 2048 implies b.subrange(o + 4096, o + 6144)[i] == u32_bytes(
            f.q01,
        )[i] by {
            assert(c[4096 + i] == u32_bytes(f.q01)[i]);
        }
    }
    lemma_u32_round_trip(b, o, f.q00);
    lemma_u32_round_trip(b, o + 2048, f.inverse);
    lemma_u32_round_trip(b, o + 4096, f.q01);
}

/// A prepared key comes back from its serialised form.
pub proof fn lemma_deserialise_serialised(k: PreparedKey)
    requires
        well_formed(k),
    ensures
        deserialised(serialised(k)) == k,
{
    let b = serialised(k);
    let x0 = i64_bytes(k.bound);
    let x1 = i64_bytes(k.fq01);
    let x2 = factor_bytes(k.p1);
    let x3 = factor_bytes(k.p2);
    lemma_serialised_len(k);
    assert(x0.len() == 2048 && x1.len() == 4096 && x2.len() == 6144 && x3.len() == 6144);
    assert(b.subrange(0, 2048) =~= x0);
    assert(b.subrange(2048, 6144) =~= x1);
    assert(b.subrange(6144, 12288) =~= x2);
    assert(b.subrange(12288, 18432) =~= x3);
    assert(b.subrange(18432, 18464) =~= k.hpub);
    lemma_i64_round_trip(b, 0, k.bound);
    lemma_i64_round_trip(b, 2048, k.fq01);
    lemma_factors_round_trip(b, 6144, k.p1);
    lemma_factors_round_trip(b, 12288, k.p2);
}

/// The serialised form of what bytes stand for is those bytes.
pub proof fn lemma_serialise_deserialised(b: Seq<u8>)
    requires
        b.len() == 18464,
    ensures
        serialised(deserialised(b)) == b,
        well_formed(deserialised(b)),
{
    let k = deserialised(b);
    lemma_i64_rewrite(b, 0, 256);
    lemma_i64_rewrite(b, 2048, 512);
    lemma_u32_rewrite(b, 6144, 512);
    lemma_u32_rewrite(b, 8192, 512);
    lemma_u32_rewrite(b, 10240, 512);
    lemma_u32_rewrite(b, 12288, 512);
    lemma_u32_rewrite(b, 14336, 512);
    lemma_u32_rewrite(b, 16384, 512);
    assert(serialised(k) =~= b);
}

/// A forward transform fills both halves.
proof fn lemma_forward_len(f: Seq<int>, c: int, zero_first: bool)
    ensures
        forward(f, c, zero_first).re.len() == 256,
        forward(f, c, zero_first).im.len() == 256,
{
    reveal_with_fuel(forward_levels, 9);
    reveal(level);
}

/// Where a key can be prepared, the prepared key decides every signature on
/// every message as the key itself does.
pub proof fn lemma_prepared_agrees(
    key: Seq<u8>,
    prepared: PreparedKey,
    message: Seq<u8>,
    sig: Seq<u8>,
)
    requires
        prepares(key, prepared),
    ensures
        accepts_prepared(prepared, message, sig) == accepts(key, message, sig),
{
    let (q00, q01) = choose|q00: Seq<int>, q01: Seq<int>| #[trigger]
        encodes_public(key, q00, q01) && usable(q00) && prepared == prepared_form(
            q00,
            q01,
            key_hash(key),
        );
    let c = challenge(message, key_hash(key), salt_of(sig));
    let t = forward(q01, C_Q01 as int, false);
    lemma_forward_len(q01, C_Q01 as int, false);
    assert(unpacked(prepared.fq01).re =~= t.re);
    assert(unpacked(prepared.fq01).im =~= t.im);
    assert(unpacked(prepared.fq01) == t);
    assert forall|s1: Seq<int>| accepts_hash_prepared(prepared, s1, c) == accepts_hash(
        q00,
        q01,
        s1,
        c,
    ) by {
        let w1 = w1_of(c, s1);
        let r = rebuild(q00, q01, w1, h0_of(c));
        assert(r == reconstruct(
            unpacked(prepared.fq01),
            prepared.bound,
            forward(w1, C_W1 as int, false),
            h0_of(c),
        ));
        if r is Some {
            let w0 = r->0;
            assert(norm_mod(q00, q01, w0, w1, P1 as int) == Some(
                factors_norm(prepared.p1, w0, w1, P1 as int),
            ));
            assert(norm_mod(q00, q01, w0, w1, P2 as int) == Some(
                factors_norm(prepared.p2, w0, w1, P2 as int),
            ));
        }
    }
    if accepts_prepared(prepared, message, sig) {
        let s1 = choose|s1: Seq<int>| #[trigger]
            encodes_signature(sig, s1) && accepts_hash_prepared(prepared, s1, c);
        assert(encodes_signature(sig, s1) && accepts_hash(q00, q01, s1, c));
    }
    if accepts(key, message, sig) {
        let (a, b, s1) = choose|a: Seq<int>, b: Seq<int>, s1: Seq<int>|
            encodes_public(key, a, b) && #[trigger] encodes_signature(sig, s1)
                && #[trigger] accepts_hash(a, b, s1, c);
        lemma_public_decoding_unique(key, q00, q01, a, b);
        assert(accepts_hash_prepared(prepared, s1, c));
    }
}

/// Where a key cannot be prepared, no signature on any message is accepted
/// under it.
pub proof fn lemma_unprepared_rejects(key: Seq<u8>, message: Seq<u8>, sig: Seq<u8>)
    requires
        forall|k: PreparedKey| !#[trigger] prepares(key, k),
    ensures
        !accepts(key, message, sig),
{
    if accepts(key, message, sig) {
        let c = challenge(message, key_hash(key), salt_of(sig));
        let (q00, q01, s1) = choose|q00: Seq<int>, q01: Seq<int>, s1: Seq<int>|
            encodes_public(key, q00, q01) && #[trigger] encodes_signature(sig, s1)
                && #[trigger] accepts_hash(q00, q01, s1, c);
        let w1 = w1_of(c, s1);
        let w0 = rebuild(q00, q01, w1, h0_of(c))->0;
        assert(norm_in_bound(q00, q01, w0, w1));
        assert(usable(q00));
        assert(prepares(key, prepared_form(q00, q01, key_hash(key))));
    }
}

/// A key has at most one prepared form.
pub proof fn lemma_prepared_unique(key: Seq<u8>, a: PreparedKey, b: PreparedKey)
    requires
        prepares(key, a),
        prepares(key, b),
    ensures
        a == b,
{
    let (q00, q01) = choose|q00: Seq<int>, q01: Seq<int>| #[trigger]
        encodes_public(key, q00, q01) && usable(q00) && a == prepared_form(q00, q01, key_hash(key));
    let (r00, r01) = choose|r00: Seq<int>, r01: Seq<int>| #[trigger]
        encodes_public(key, r00, r01) && usable(r00) && b == prepared_form(r00, r01, key_hash(key));
    lemma_public_decoding_unique(key, q00, q01, r00, r01);
}

} // verus!
