//! What a prepared key holds, which keys have one, and how its bytes are read.

use vstd::prelude::*;

use crate::acceptance::{
    deserialised, factors_of, prepared_form, prepares, usable, KeyFactors, PreparedKey,
};
use crate::codec::{encodes_public, lemma_public_decoding_unique, shake256_output};
use crate::fixed_point::{divisor, forward};
use crate::modular::{lemma_mod_idem, lemma_mod_small};
use crate::norm::{has_zero, lemma_mod_inverse};
use crate::poly::poly_eval;
use crate::primes::{lemma_p1_prime, lemma_p2_prime};
use crate::roots::{is_modulus, P1};
use crate::transform::{eval_point, transform};

verus! {

/// No value of the polynomial at the roots modulo `p` is zero.
pub open spec fn never_zero(f: Seq<int>, p: int) -> bool {
    forall|k: int| 0 <= k < 512 ==> #[trigger] transform(f, p)[k] != 0
}

/// Which keys can be prepared: of those that are encodings, the ones whose
/// constant coefficient is not negative, whose divisors are positive and below
/// `2^30`, and whose first polynomial has no zero modulo either prime.
pub proof fn lemma_preparable(key: Seq<u8>, q00: Seq<int>, q01: Seq<int>)
    requires
        encodes_public(key, q00, q01),
    ensures
        (exists|k: PreparedKey| prepares(key, k)) <==> q00[0] >= 0 && (forall|u: int|
            0 <= u < 256 ==> 0 < #[trigger] divisor(q00, u) < 0x4000_0000) && never_zero(
            q00,
            2147473409,
        ) && never_zero(q00, 2147389441),
{
    lemma_never_zero(q00, 2147473409);
    lemma_never_zero(q00, 2147389441);
    if exists|k: PreparedKey| prepares(key, k) {
        let k = choose|k: PreparedKey| prepares(key, k);
        let (a, b) = choose|a: Seq<int>, b: Seq<int>| #[trigger]
            encodes_public(key, a, b) && usable(a) && k == prepared_form(
                a,
                b,
                shake256_output(key, 32),
            );
        lemma_public_decoding_unique(key, q00, q01, a, b);
        assert(usable(q00));
    }
    if usable(q00) {
        assert(prepares(key, prepared_form(q00, q01, shake256_output(key, 32))));
    }
}

/// A key that is no encoding cannot be prepared.
pub proof fn lemma_not_an_encoding(key: Seq<u8>, k: PreparedKey)
    requires
        forall|q00: Seq<int>, q01: Seq<int>| !#[trigger] encodes_public(key, q00, q01),
    ensures
        !prepares(key, k),
{
}

/// Two ways to say that no entry is zero.
proof fn lemma_never_zero(f: Seq<int>, p: int)
    ensures
        never_zero(f, p) <==> !has_zero(transform(f, p)),
{
    let a = transform(f, p);
    if has_zero(a) {
        let k = choose|k: int| 0 <= k < a.len() && #[trigger] a[k] == 0;
        assert(transform(f, p)[k] == 0);
    }
}

/// The factors are the values of the polynomials at the roots modulo `p`, and
/// the inverses of the first.
pub open spec fn holds_values(f: KeyFactors, q00: Seq<int>, q01: Seq<int>, p: int) -> bool {
    &&& f.q00 == transform(q00, p)
    &&& f.q01 == transform(q01, p)
    &&& f.inverse.len() == 512
    &&& forall|k: int|
        0 <= k < 512 ==> 0 <= #[trigger] f.inverse[k] < p && (f.q00[k] * f.inverse[k]) % p == 1
}

/// The factors of a key that can be prepared.
proof fn lemma_holds_values(q00: Seq<int>, q01: Seq<int>, p: int)
    requires
        is_modulus(p),
        !has_zero(transform(q00, p)),
    ensures
        holds_values(factors_of(q00, q01, p), q00, q01, p),
{
    if p == P1 {
        lemma_p1_prime();
    } else {
        lemma_p2_prime();
    }
    let a = transform(q00, p);
    let f = factors_of(q00, q01, p);
    assert forall|k: int| 0 <= k < 512 implies 0 <= #[trigger] f.inverse[k] < p && (f.q00[k]
        * f.inverse[k]) % p == 1 by {
        lemma_mod_idem(poly_eval(q00, eval_point(p, k)), p);
        lemma_mod_small(a[k], p);
        assert(a[k] != 0);
        lemma_mod_inverse(a[k], p);
    }
}

/// What the prepared form of a key holds: `2^32` times the divisors, the
/// transform of `q01`, the values of both polynomials and the inverses of the
/// first modulo each prime, and 32 bytes of the key's hash.
pub proof fn lemma_prepared_holds(key: Seq<u8>, k: PreparedKey, q00: Seq<int>, q01: Seq<int>)
    requires
        prepares(key, k),
        encodes_public(key, q00, q01),
    ensures
        k.bound == Seq::new(256, |u: int| 0x1_0000_0000 * divisor(q00, u)),
        k.fq01 == forward(q01, 131072, false).re + forward(q01, 131072, false).im,
        holds_values(k.p1, q00, q01, 2147473409),
        holds_values(k.p2, q00, q01, 2147389441),
        k.hpub == shake256_output(key, 32),
{
    let (a, b) = choose|a: Seq<int>, b: Seq<int>| #[trigger]
        encodes_public(key, a, b) && usable(a) && k == prepared_form(
            a,
            b,
            shake256_output(key, 32),
        );
    lemma_public_decoding_unique(key, q00, q01, a, b);
    lemma_holds_values(q00, q01, 2147473409);
    lemma_holds_values(q00, q01, 2147389441);
    assert(k.bound =~= Seq::new(256, |u: int| 0x1_0000_0000 * divisor(q00, u)));
}

/// The number that four bytes from `o` on hold, the low byte first.
pub open spec fn short_word(b: Seq<u8>, o: int) -> int {
    b[o] + 256 * b[o + 1] + 65536 * b[o + 2] + 16777216 * b[o + 3]
}

/// The number that eight bytes from `o` on hold in two's complement, the low
/// byte first.
pub open spec fn long_word(b: Seq<u8>, o: int) -> int {
    let x = short_word(b, o) + 0x1_0000_0000 * short_word(b, o + 4);
    if b[o + 7] >= 128 {
        x - 0x1_0000_0000_0000_0000
    } else {
        x
    }
}

/// The short words from `o` on.
pub open spec fn short_words(b: Seq<u8>, o: int) -> Seq<int> {
    Seq::new(512, |i: int| short_word(b, o + 4 * i))
}

/// Where the parts of a prepared key stand in its bytes.
pub proof fn lemma_layout(b: Seq<u8>)
    requires
        b.len() == 18464,
    ensures
        deserialised(b).bound == Seq::new(256, |i: int| long_word(b, 8 * i)),
        deserialised(b).fq01 == Seq::new(512, |i: int| long_word(b, 2048 + 8 * i)),
        deserialised(b).p1.q00 == short_words(b, 6144),
        deserialised(b).p1.inverse == short_words(b, 8192),
        deserialised(b).p1.q01 == short_words(b, 10240),
        deserialised(b).p2.q00 == short_words(b, 12288),
        deserialised(b).p2.inverse == short_words(b, 14336),
        deserialised(b).p2.q01 == short_words(b, 16384),
        deserialised(b).hpub == Seq::new(32, |i: int| b[18432 + i]),
{
    let k = deserialised(b);
    assert(k.bound =~= Seq::new(256, |i: int| long_word(b, 8 * i)));
    assert(k.fq01 =~= Seq::new(512, |i: int| long_word(b, 2048 + 8 * i)));
    assert(k.p1.q00 =~= short_words(b, 6144));
    assert(k.p1.inverse =~= short_words(b, 8192));
    assert(k.p1.q01 =~= short_words(b, 10240));
    assert(k.p2.q00 =~= short_words(b, 12288));
    assert(k.p2.inverse =~= short_words(b, 14336));
    assert(k.p2.q01 =~= short_words(b, 16384));
    assert(k.hpub =~= Seq::new(32, |i: int| b[18432 + i]));
}

} // verus!
