//! Public keys, signatures and prepared keys.

use vstd::arithmetic::power2::lemma2_to64;
use vstd::prelude::*;

use crate::acceptance::{
    accepts, accepts_hash, accepts_hash_prepared, accepts_prepared, challenge, deserialised,
    factor_bytes, factors_norm, lemma_deserialise_serialised, lemma_prepared_agrees,
    lemma_prepared_unique, lemma_serialise_deserialised, prepared_form, prepares, serialised,
    usable, well_formed, KeyFactors, PreparedKey,
};
use crate::bytes::{fill_i64, fill_u32, i64_bytes, put_i64, put_u32};
use crate::codec::{
    can_double, compute_h, compute_hpub, compute_m, decode_public, decode_signature,
    encodes_public, encodes_signature, expand_h, h0_of, key_hash, leads_positive,
    lemma_public_decoding_unique, lemma_signature_decoding_unique, salt_of, sym_break, w1_of,
};
use crate::fft::{
    lemma_divisor_entries, prepare_divisor, prepare_fft, rebuild_s0, rebuild_s0_prepared,
};
use crate::fixed_point::{bounds_of, forward, i64_ints, rebuild, reconstruct, unpacked, C_W1};
use crate::golomb::code_magnitude;
use crate::norm::{norm_in_bound, residues_in_bound};
use crate::ntt::{prepare_ntt, qnorm_in_bound, qnorm_in_bound_prepared};
use crate::poly::{i32_ints, u32_ints};
use crate::roots::{P1, P2};
use crate::{
    HALF_N, HAWK_512_PREPARED_PUBKEY_LEN, HAWK_512_PUBKEY_LEN, HAWK_512_SIGNATURE_LEN, HPUB_LEN, N,
    PUBKEY_LEN, SIGNATURE_LEN,
};

verus! {

/// Why a request is refused.
#[derive(Clone, Copy, Debug, PartialEq, Eq, Structural)]
pub enum HawkError {
    /// Bytes of the wrong length, a key that cannot be used, or a buffer that is
    /// not aligned.
    InvalidArgument,
    /// An instruction that cannot be read.
    InvalidInstructionData,
    /// An account too small for a prepared key.
    AccountDataTooSmall,
}

/// An encoded public key. Whether it is an encoding shows when it is used.
#[derive(PartialEq, Eq)]
pub struct Hawk512Pubkey([u8; HAWK_512_PUBKEY_LEN]);

/// An encoded signature. Whether it is an encoding shows when it is used.
#[derive(PartialEq, Eq)]
pub struct Hawk512Signature([u8; HAWK_512_SIGNATURE_LEN]);

impl View for Hawk512Pubkey {
    type V = Seq<u8>;

    closed spec fn view(&self) -> Seq<u8> {
        self.0@
    }
}

impl Clone for Hawk512Pubkey {
    fn clone(&self) -> (other: Self)
        ensures
            other@ == self@,
    {
        Hawk512Pubkey(self.0)
    }
}

impl View for Hawk512Signature {
    type V = Seq<u8>;

    closed spec fn view(&self) -> Seq<u8> {
        self.0@
    }
}

impl Clone for Hawk512Signature {
    fn clone(&self) -> (other: Self)
        ensures
            other@ == self@,
    {
        Hawk512Signature(self.0)
    }
}

/// The `L` bytes of a slice from `from` on.
pub(crate) fn take_array<const L: usize>(bytes: &[u8], from: usize) -> (a: [u8; L])
    requires
        from + L <= bytes@.len(),
    ensures
        a@ == bytes@.subrange(from as int, from + L),
{
    let len: usize = bytes.len();
    let mut a: [u8; L] = [0u8; L];
    let mut i: usize = 0;
    while i < L
        invariant
            len == bytes@.len(),
            i <= L,
            from + L <= len,
            forall|k: int| 0 <= k < i ==> #[trigger] a@[k] == bytes@[from + k],
        decreases L - i,
    {
        a[i] = bytes[from + i];
        i = i + 1;
    }
    assert(a@ =~= bytes@.subrange(from as int, from + L));
    a
}

impl Hawk512Pubkey {
    /// The key with the given bytes.
    pub fn from_ref(bytes: &[u8; HAWK_512_PUBKEY_LEN]) -> (key: Self)
        ensures
            key@ == bytes@,
    {
        Hawk512Pubkey(*bytes)
    }

    /// The key with the bytes of a slice, which has to have the right length.
    pub fn try_from_slice(bytes: &[u8]) -> (r: Result<Self, HawkError>)
        ensures
            r is Ok <==> bytes@.len() == HAWK_512_PUBKEY_LEN,
            r matches Ok(key) ==> key@ == bytes@,
            r matches Err(e) ==> e == HawkError::InvalidArgument,
    {
        if bytes.len() != HAWK_512_PUBKEY_LEN {
            return Err(HawkError::InvalidArgument);
        }
        let a: [u8; HAWK_512_PUBKEY_LEN] = take_array::<HAWK_512_PUBKEY_LEN>(bytes, 0);
        assert(a@ =~= bytes@);
        Ok(Hawk512Pubkey(a))
    }

    /// The key with the given bytes.
    pub fn from_bytes(value: [u8; HAWK_512_PUBKEY_LEN]) -> (key: Self)
        ensures
            key@ == value@,
    {
        Hawk512Pubkey(value)
    }

    /// The bytes of the key.
    pub fn as_bytes(&self) -> (bytes: &[u8; HAWK_512_PUBKEY_LEN])
        ensures
            bytes@ == self@,
    {
        &self.0
    }
}

impl Hawk512Signature {
    /// The signature with the given bytes.
    pub fn from_ref(bytes: &[u8; HAWK_512_SIGNATURE_LEN]) -> (sig: Self)
        ensures
            sig@ == bytes@,
    {
        Hawk512Signature(*bytes)
    }

    /// The signature with the bytes of a slice, which has to have the right
    /// length.
    pub fn try_from_slice(bytes: &[u8]) -> (r: Result<Self, HawkError>)
        ensures
            r is Ok <==> bytes@.len() == HAWK_512_SIGNATURE_LEN,
            r matches Ok(sig) ==> sig@ == bytes@,
            r matches Err(e) ==> e == HawkError::InvalidArgument,
    {
        if bytes.len() != HAWK_512_SIGNATURE_LEN {
            return Err(HawkError::InvalidArgument);
        }
        let a: [u8; HAWK_512_SIGNATURE_LEN] = take_array::<HAWK_512_SIGNATURE_LEN>(bytes, 0);
        assert(a@ =~= bytes@);
        Ok(Hawk512Signature(a))
    }

    /// The signature with the given bytes.
    pub fn from_bytes(value: [u8; HAWK_512_SIGNATURE_LEN]) -> (sig: Self)
        ensures
            sig@ == value@,
    {
        Hawk512Signature(value)
    }

    /// The bytes of the signature.
    pub fn as_bytes(&self) -> (bytes: &[u8; HAWK_512_SIGNATURE_LEN])
        ensures
            bytes@ == self@,
    {
        &self.0
    }
}

impl From<[u8; HAWK_512_PUBKEY_LEN]> for Hawk512Pubkey {
    fn from(value: [u8; HAWK_512_PUBKEY_LEN]) -> (key: Self)
        ensures
            key@ == value@,
    {
        Hawk512Pubkey(value)
    }
}

impl vstd::std_specs::convert::FromSpecImpl<[u8; HAWK_512_PUBKEY_LEN]> for Hawk512Pubkey {
    open spec fn obeys_from_spec() -> bool {
        true
    }

    closed spec fn from_spec(v: [u8; HAWK_512_PUBKEY_LEN]) -> Self {
        Hawk512Pubkey(v)
    }
}

impl From<[u8; HAWK_512_SIGNATURE_LEN]> for Hawk512Signature {
    fn from(value: [u8; HAWK_512_SIGNATURE_LEN]) -> (sig: Self)
        ensures
            sig@ == value@,
    {
        Hawk512Signature(value)
    }
}

impl vstd::std_specs::convert::FromSpecImpl<[u8; HAWK_512_SIGNATURE_LEN]> for Hawk512Signature {
    open spec fn obeys_from_spec() -> bool {
        true
    }

    closed spec fn from_spec(v: [u8; HAWK_512_SIGNATURE_LEN]) -> Self {
        Hawk512Signature(v)
    }
}

impl TryFrom<&[u8]> for Hawk512Pubkey {
    type Error = HawkError;

    fn try_from(value: &[u8]) -> (r: Result<Self, HawkError>)
        ensures
            r is Ok <==> value@.len() == HAWK_512_PUBKEY_LEN,
            r matches Ok(key) ==> key@ == value@,
            r matches Err(e) ==> e == HawkError::InvalidArgument,
    {
        let r: Result<Self, HawkError> = Hawk512Pubkey::try_from_slice(value);
        proof {
            if r is Ok {
                let key = r->Ok_0;
                let other = choose|k: Hawk512Pubkey| k@ == value@;
                assert(key@ == value@);
                assert(other.0@ == key.0@);
                assert(other.0 =~= key.0);
            }
        }
        r
    }
}

impl vstd::std_specs::convert::TryFromSpecImpl<&[u8]> for Hawk512Pubkey {
    open spec fn obeys_try_from_spec() -> bool {
        true
    }

    open spec fn try_from_spec(v: &[u8]) -> Result<Self, HawkError> {
        if v@.len() == HAWK_512_PUBKEY_LEN {
            Ok(choose|k: Hawk512Pubkey| k@ == v@)
        } else {
            Err(HawkError::InvalidArgument)
        }
    }
}

impl TryFrom<&[u8]> for Hawk512Signature {
    type Error = HawkError;

    fn try_from(value: &[u8]) -> (r: Result<Self, HawkError>)
        ensures
            r is Ok <==> value@.len() == HAWK_512_SIGNATURE_LEN,
            r matches Ok(sig) ==> sig@ == value@,
            r matches Err(e) ==> e == HawkError::InvalidArgument,
    {
        let r: Result<Self, HawkError> = Hawk512Signature::try_from_slice(value);
        proof {
            if r is Ok {
                let sig = r->Ok_0;
                let other = choose|k: Hawk512Signature| k@ == value@;
                assert(sig@ == value@);
                assert(other.0@ == sig.0@);
                assert(other.0 =~= sig.0);
            }
        }
        r
    }
}

impl vstd::std_specs::convert::TryFromSpecImpl<&[u8]> for Hawk512Signature {
    open spec fn obeys_try_from_spec() -> bool {
        true
    }

    open spec fn try_from_spec(v: &[u8]) -> Result<Self, HawkError> {
        if v@.len() == HAWK_512_SIGNATURE_LEN {
            Ok(choose|k: Hawk512Signature| k@ == v@)
        } else {
            Err(HawkError::InvalidArgument)
        }
    }
}

/// A signature that decodes has small coefficients.
proof fn lemma_decoded_small(sig: Seq<u8>, s1: Seq<i32>)
    requires
        encodes_signature(sig, i32_ints(s1)),
    ensures
        can_double(s1),
{
    lemma2_to64();
    let f = i32_ints(s1);
    assert forall|i: int| 0 <= i < s1.len() implies -0x4000_0000 < #[trigger] s1[i]
        < 0x4000_0000 by {
        assert(f[i] == s1[i]);
        assert(code_magnitude(f[i]) < 512);
    }
}

/// Whether `w1` leads with a positive coefficient, `w0` can be reconstructed,
/// and `(w0, w1)` is short.
fn check_short(q00: &[i32; N], q01: &[i32; N], w1: &[i32; N], h0: &[i32; N]) -> (ok: bool)
    ensures
        ok == (leads_positive(i32_ints(w1@)) && match rebuild(
            i32_ints(q00@),
            i32_ints(q01@),
            i32_ints(w1@),
            i32_ints(h0@),
        ) {
            Some(w0) => norm_in_bound(i32_ints(q00@), i32_ints(q01@), w0, i32_ints(w1@)),
            None => false,
        }),
{
    if !sym_break(w1) {
        return false;
    }
    let mut w0: [i32; N] = [0i32; N];
    if !rebuild_s0(q00, q01, w1, h0, &mut w0) {
        return false;
    }
    qnorm_in_bound(q00, q01, &w0, w1)
}

/// Whether `s1` answers for the hash `h` under the key `(q00, q01)`.
pub fn verify_hash(q00: &[i32; N], q01: &[i32; N], s1: &[i32; N], h: &[u8; 128]) -> (ok: bool)
    requires
        can_double(s1@),
    ensures
        ok == accepts_hash(i32_ints(q00@), i32_ints(q01@), i32_ints(s1@), h@),
{
    let mut h0: [i32; N] = [0i32; N];
    let mut w1: [i32; N] = [0i32; N];
    expand_h(h, &mut h0, &mut w1, s1);
    check_short(q00, q01, &w1, &h0)
}

/// Decodes a signature, hashes the message with its salt, and forms `h0` and
/// `w1 = h1 - 2 s1`. `false` if the signature is not an encoding; the
/// polynomials then hold no meaning.
fn fill_w1_h0(
    hpub: &[u8; HPUB_LEN],
    message: &[u8],
    sig: &[u8; SIGNATURE_LEN],
    w1: &mut [i32; N],
    h0: &mut [i32; N],
) -> (ok: bool)
    ensures
        ok <==> exists|s1: Seq<int>| encodes_signature(sig@, s1),
        forall|s1: Seq<int>| #[trigger]
            encodes_signature(sig@, s1) ==> {
                let h = challenge(message@, hpub@, salt_of(sig@));
                &&& i32_ints(final(w1)@) == w1_of(h, s1)
                &&& i32_ints(final(h0)@) == h0_of(h)
            },
{
    let mut s1: [i32; N] = [0i32; N];
    let salt: &[u8] = match decode_signature(sig, &mut s1) {
        None => {
            return false;
        },
        Some(salt) => salt,
    };
    proof {
        lemma_decoded_small(sig@, s1@);
    }
    let m: [u8; 64] = compute_m(message, hpub);
    compute_h(&m, salt, h0, w1, &s1);
    true
}

/// Whether a signature on a message is accepted under a public key.
fn verify(pub_: &[u8; PUBKEY_LEN], message: &[u8], sig: &[u8; SIGNATURE_LEN]) -> (ok: bool)
    ensures
        ok == accepts(pub_@, message@, sig@),
{
    let mut q00: [i32; N] = [0i32; N];
    let mut q01: [i32; N] = [0i32; N];
    if !decode_public(pub_, &mut q00, &mut q01) {
        return false;
    }
    let hpub: [u8; HPUB_LEN] = compute_hpub(pub_);
    let mut w1: [i32; N] = [0i32; N];
    let mut h0: [i32; N] = [0i32; N];
    if !fill_w1_h0(&hpub, message, sig, &mut w1, &mut h0) {
        return false;
    }
    let ghost a = i32_ints(q00@);
    let ghost b = i32_ints(q01@);
    let ghost h = challenge(message@, hpub@, salt_of(sig@));
    let ghost s1 = choose|s1: Seq<int>| encodes_signature(sig@, s1);
    let ok: bool = check_short(&q00, &q01, &w1, &h0);
    proof {
        assert(encodes_signature(sig@, s1));
        assert(ok == accepts_hash(a, b, s1, h));
        if accepts(pub_@, message@, sig@) {
            let (c, d, t) = choose|c: Seq<int>, d: Seq<int>, t: Seq<int>|
                encodes_public(pub_@, c, d) && #[trigger] encodes_signature(sig@, t)
                    && #[trigger] accepts_hash(c, d, t, h);
            lemma_signature_decoding_unique(sig@, s1, t);
        }
    }
    ok
}

/// A public key with all that depends on it alone computed ahead: the bounds
/// of the division, the transform of `q01`, the factors modulo each prime, and
/// the hash of the key. Any words can stand in it; words that no key gives
/// decide as [`accepts_prepared`] says.
pub struct Hawk512PreparedPubkey {
    pvbound: [i64; HALF_N],
    fq01: [i64; N],
    p1_q00n: [u32; N],
    p1_q00inv: [u32; N],
    p1_q01n: [u32; N],
    p2_q00n: [u32; N],
    p2_q00inv: [u32; N],
    p2_q01n: [u32; N],
    hpub: [u8; HPUB_LEN],
}

impl View for Hawk512PreparedPubkey {
    type V = PreparedKey;

    closed spec fn view(&self) -> PreparedKey {
        PreparedKey {
            bound: i64_ints(self.pvbound@),
            fq01: i64_ints(self.fq01@),
            p1: KeyFactors {
                q00: u32_ints(self.p1_q00n@),
                inverse: u32_ints(self.p1_q00inv@),
                q01: u32_ints(self.p1_q01n@),
            },
            p2: KeyFactors {
                q00: u32_ints(self.p2_q00n@),
                inverse: u32_ints(self.p2_q00inv@),
                q01: u32_ints(self.p2_q01n@),
            },
            hpub: self.hpub@,
        }
    }
}

impl Hawk512PreparedPubkey {
    /// A prepared key has the lengths and ranges of its storage.
    pub proof fn lemma_well_formed(&self)
        ensures
            well_formed(self@),
    {
    }

    /// The prepared key that bytes stand for.
    pub fn from_bytes(bytes: [u8; HAWK_512_PREPARED_PUBKEY_LEN]) -> (key: Self)
        ensures
            key@ == deserialised(bytes@),
            serialised(key@) == bytes@,
    {
        Hawk512PreparedPubkey::from_ref(&bytes)
    }

    /// The prepared key that bytes stand for.
    pub fn from_ref(bytes: &[u8; HAWK_512_PREPARED_PUBKEY_LEN]) -> (key: Self)
        ensures
            key@ == deserialised(bytes@),
            serialised(key@) == bytes@,
    {
        proof {
            lemma_serialise_deserialised(bytes@);
        }
        let mut pvbound: [i64; HALF_N] = [0i64; HALF_N];
        let mut fq01: [i64; N] = [0i64; N];
        let mut p1_q00n: [u32; N] = [0u32; N];
        let mut p1_q00inv: [u32; N] = [0u32; N];
        let mut p1_q01n: [u32; N] = [0u32; N];
        let mut p2_q00n: [u32; N] = [0u32; N];
        let mut p2_q00inv: [u32; N] = [0u32; N];
        let mut p2_q01n: [u32; N] = [0u32; N];
        let mut hpub: [u8; HPUB_LEN] = [0u8; HPUB_LEN];
        let o: usize = fill_i64::<HALF_N>(bytes, 0, &mut pvbound);
        let o: usize = fill_i64::<N>(bytes, o, &mut fq01);
        let o: usize = fill_u32(bytes, o, &mut p1_q00n);
        let o: usize = fill_u32(bytes, o, &mut p1_q00inv);
        let o: usize = fill_u32(bytes, o, &mut p1_q01n);
        let o: usize = fill_u32(bytes, o, &mut p2_q00n);
        let o: usize = fill_u32(bytes, o, &mut p2_q00inv);
        let o: usize = fill_u32(bytes, o, &mut p2_q01n);
        let mut k: usize = 0;
        while k < HPUB_LEN
            invariant
                o == 18432,
                k <= 32,
                forall|t: int| 0 <= t < k ==> #[trigger] hpub@[t] == bytes@[18432 + t],
            decreases 32 - k,
        {
            hpub[k] = bytes[o + k];
            k = k + 1;
        }
        assert(hpub@ =~= bytes@.subrange(18432, 18464));
        Hawk512PreparedPubkey {
            pvbound,
            fq01,
            p1_q00n,
            p1_q00inv,
            p1_q01n,
            p2_q00n,
            p2_q00inv,
            p2_q01n,
            hpub,
        }
    }

    /// The prepared key that the bytes of a slice stand for; the slice has to
    /// have the right length.
    pub fn try_from_slice(bytes: &[u8]) -> (r: Result<Self, HawkError>)
        ensures
            r is Ok <==> bytes@.len() == HAWK_512_PREPARED_PUBKEY_LEN,
            r matches Ok(key) ==> key@ == deserialised(bytes@) && serialised(key@) == bytes@,
            r matches Err(e) ==> e == HawkError::InvalidArgument,
    {
        if bytes.len() != HAWK_512_PREPARED_PUBKEY_LEN {
            return Err(HawkError::InvalidArgument);
        }
        let a: [u8; HAWK_512_PREPARED_PUBKEY_LEN] = take_array::<HAWK_512_PREPARED_PUBKEY_LEN>(
            bytes,
            0,
        );
        assert(a@ =~= bytes@);
        Ok(Hawk512PreparedPubkey::from_ref(&a))
    }

    /// The serialised form of the prepared key.
    pub fn as_bytes(&self) -> (bytes: [u8; HAWK_512_PREPARED_PUBKEY_LEN])
        ensures
            bytes@ == serialised(self@),
            deserialised(bytes@) == self@,
    {
        let mut out: [u8; HAWK_512_PREPARED_PUBKEY_LEN] = [0u8; HAWK_512_PREPARED_PUBKEY_LEN];
        let o: usize = put_i64::<HALF_N>(&mut out, 0, &self.pvbound);
        let o: usize = put_i64::<N>(&mut out, o, &self.fq01);
        let o: usize = put_u32(&mut out, o, &self.p1_q00n);
        let o: usize = put_u32(&mut out, o, &self.p1_q00inv);
        let o: usize = put_u32(&mut out, o, &self.p1_q01n);
        let o: usize = put_u32(&mut out, o, &self.p2_q00n);
        let o: usize = put_u32(&mut out, o, &self.p2_q00inv);
        let o: usize = put_u32(&mut out, o, &self.p2_q01n);
        let ghost front = out@.subrange(0, 18432);
        let mut k: usize = 0;
        while k < HPUB_LEN
            invariant
                o == 18432,
                k <= 32,
                front.len() == 18432,
                forall|t: int| 0 <= t < 18432 ==> #[trigger] out@[t] == front[t],
                forall|t: int|
                    18432 <= t < 18432 + k ==> #[trigger] out@[t] == self.hpub@[t - 18432],
            decreases 32 - k,
        {
            out[o + k] = self.hpub[k];
            k = k + 1;
        }
        proof {
            let v = self@;
            assert(out@ =~= front + v.hpub);
            assert(front =~= i64_bytes(v.bound) + i64_bytes(v.fq01)
                + factor_bytes(v.p1) + factor_bytes(v.p2));
            self.lemma_well_formed();
            lemma_deserialise_serialised(v);
        }
        out
    }
}

/// Some key is encoded and usable.
spec fn preparable(key: Seq<u8>) -> bool {
    exists|k: PreparedKey| prepares(key, k)
}

/// A key that is not usable has no prepared form.
proof fn lemma_not_preparable(key: Seq<u8>, q00: Seq<int>, q01: Seq<int>)
    requires
        encodes_public(key, q00, q01),
        !usable(q00),
    ensures
        !preparable(key),
{
    assert forall|k: PreparedKey| !prepares(key, k) by {
        if prepares(key, k) {
            let (a, b) = choose|a: Seq<int>, b: Seq<int>| #[trigger]
                encodes_public(key, a, b) && usable(a) && k == prepared_form(a, b, key_hash(key));
            lemma_public_decoding_unique(key, q00, q01, a, b);
        }
    }
}

/// Computes the prepared form of a key; none if the bytes are not the encoding
/// of a usable key.
fn prepare_key(pub_: &[u8; PUBKEY_LEN]) -> (r: Option<Hawk512PreparedPubkey>)
    ensures
        r is None <==> !preparable(pub_@),
        r matches Some(k) ==> prepares(pub_@, k@),
{
    let mut q00: [i32; N] = [0i32; N];
    let mut q01: [i32; N] = [0i32; N];
    if !decode_public(pub_, &mut q00, &mut q01) {
        return None;
    }
    let ghost a = i32_ints(q00@);
    let ghost b = i32_ints(q01@);
    assert(a[0] == q00@[0]);
    let mut fq00_re: [i64; HALF_N] = [0i64; HALF_N];
    let mut fq00_im: [i64; HALF_N] = [0i64; HALF_N];
    let mut fq01: [i64; N] = [0i64; N];
    let alpha: i64 = match prepare_fft(&q00, &q01, &mut fq00_re, &mut fq00_im, &mut fq01) {
        None => {
            proof {
                lemma_not_preparable(pub_@, a, b);
            }
            return None;
        },
        Some(alpha) => alpha,
    };
    proof {
        lemma_divisor_entries(a, fq00_re@, fq00_im@, alpha as int);
    }
    let mut pvbound: [i64; HALF_N] = [0i64; HALF_N];
    if !prepare_divisor(&fq00_re, alpha, &mut pvbound) {
        proof {
            lemma_not_preparable(pub_@, a, b);
        }
        return None;
    }
    let mut p1_q00n: [u32; N] = [0u32; N];
    let mut p1_q00inv: [u32; N] = [0u32; N];
    let mut p1_q01n: [u32; N] = [0u32; N];
    if !prepare_ntt(&q00, &q01, P1, &mut p1_q00n, &mut p1_q00inv, &mut p1_q01n) {
        proof {
            lemma_not_preparable(pub_@, a, b);
        }
        return None;
    }
    let mut p2_q00n: [u32; N] = [0u32; N];
    let mut p2_q00inv: [u32; N] = [0u32; N];
    let mut p2_q01n: [u32; N] = [0u32; N];
    if !prepare_ntt(&q00, &q01, P2, &mut p2_q00n, &mut p2_q00inv, &mut p2_q01n) {
        proof {
            lemma_not_preparable(pub_@, a, b);
        }
        return None;
    }
    let hpub: [u8; HPUB_LEN] = compute_hpub(pub_);
    let key: Hawk512PreparedPubkey = Hawk512PreparedPubkey {
        pvbound,
        fq01,
        p1_q00n,
        p1_q00inv,
        p1_q01n,
        p2_q00n,
        p2_q00inv,
        p2_q01n,
        hpub,
    };
    proof {
        let form = prepared_form(a, b, key_hash(pub_@));
        let t = unpacked(i64_ints(fq01@));
        assert(i64_ints(pvbound@) =~= bounds_of(a));
        assert(i64_ints(fq01@) =~= t.re + t.im);
        assert(key@.bound == form.bound);
        assert(key@.fq01 == form.fq01);
        assert(key@.p1 == form.p1);
        assert(key@.p2 == form.p2);
        assert(key@ == form);
        assert(prepares(pub_@, key@));
    }
    Some(key)
}

/// Whether a prepared key can stand at this address: on a boundary of eight
/// bytes.
pub fn is_aligned(address: usize) -> (ok: bool)
    ensures
        ok == (address % 8 == 0),
{
    address % 8 == 0
}

/// Where a buffer stands. Calls `as_ptr` of std's slices and takes the address
/// as a number. Nothing is claimed of it: it is wherever the caller has put the
/// buffer.
#[verifier::external_body]
pub fn address_of(out: &[u8; HAWK_512_PREPARED_PUBKEY_LEN]) -> (address: usize) {
    out.as_ptr() as usize
}

impl Hawk512Pubkey {
    /// Prepares the key and writes its serialised prepared form to `out`, which
    /// stands at `address`. Refused if the address is not on a boundary of eight
    /// bytes, and `out` is then left as it was; or if the key's bytes are not
    /// the encoding of a usable key, and what `out` then holds must not be
    /// trusted.
    pub fn prepare_at(
        &self,
        address: usize,
        out: &mut [u8; HAWK_512_PREPARED_PUBKEY_LEN],
    ) -> (r: Result<(), HawkError>)
        ensures
            r is Ok <==> address % 8 == 0 && exists|k: PreparedKey| prepares(self@, k),
            r is Ok ==> prepares(self@, deserialised(final(out)@)),
            r is Ok ==> forall|k: PreparedKey| #[trigger]
                prepares(self@, k) ==> final(out)@ == serialised(k),
            r matches Err(e) ==> e == HawkError::InvalidArgument,
            address % 8 != 0 ==> final(out)@ == old(out)@,
    {
        if !is_aligned(address) {
            return Err(HawkError::InvalidArgument);
        }
        match prepare_key(&self.0) {
            None => Err(HawkError::InvalidArgument),
            Some(key) => {
                *out = key.as_bytes();
                proof {
                    assert forall|k: PreparedKey| #[trigger] prepares(self@, k) implies out@
                        == serialised(k) by {
                        lemma_prepared_unique(self@, key@, k);
                    }
                }
                Ok(())
            },
        }
    }

    /// [`prepare_at`](Self::prepare_at) for the address at which `out` stands:
    /// refused if `out` is not on a boundary of eight bytes, and then left as it
    /// was, or if the key's bytes are not the encoding of a usable key. The
    /// contract says so of the address that [`address_of`] has returned for
    /// `out`: a usable key is refused only if that address was not aligned.
    pub fn prepare_into(
        &self,
        out: &mut [u8; HAWK_512_PREPARED_PUBKEY_LEN],
    ) -> (r: Result<(), HawkError>)
        ensures
            r is Ok ==> prepares(self@, deserialised(final(out)@)),
            r is Ok ==> forall|k: PreparedKey| #[trigger]
                prepares(self@, k) ==> final(out)@ == serialised(k),
            exists|address: usize| #[trigger]
                call_ensures(address_of, (&*old(out),), address) && (r is Ok <==> address % 8 == 0
                    && exists|k: PreparedKey| prepares(self@, k)) && (address % 8 != 0
                    ==> final(out)@ == old(out)@),
            (forall|k: PreparedKey| !#[trigger] prepares(self@, k)) ==> r is Err,
            r is Err && (exists|k: PreparedKey| prepares(self@, k)) ==> final(out)@ == old(out)@,
            r matches Err(e) ==> e == HawkError::InvalidArgument,
    {
        let read = address_of;
        let address: usize = read(out);
        self.prepare_at(address, out)
    }
}

/// [`check_short`] under a prepared key.
fn check_short_prepared(
    p: &Hawk512PreparedPubkey,
    w1: &[i32; N],
    h0: &[i32; N],
) -> (ok: bool)
    ensures
        ok == (leads_positive(i32_ints(w1@)) && match reconstruct(
            unpacked(p@.fq01),
            p@.bound,
            forward(i32_ints(w1@), C_W1 as int, false),
            i32_ints(h0@),
        ) {
            Some(w0) => residues_in_bound(
                factors_norm(p@.p1, w0, i32_ints(w1@), P1 as int),
                factors_norm(p@.p2, w0, i32_ints(w1@), P2 as int),
            ),
            None => false,
        }),
{
    if !sym_break(w1) {
        return false;
    }
    let mut w0: [i32; N] = [0i32; N];
    if !rebuild_s0_prepared(&p.pvbound, &p.fq01, w1, h0, &mut w0) {
        return false;
    }
    qnorm_in_bound_prepared(
        &p.p1_q00n,
        &p.p1_q00inv,
        &p.p1_q01n,
        &p.p2_q00n,
        &p.p2_q00inv,
        &p.p2_q01n,
        &w0,
        w1,
    )
}

/// Whether `s1` answers for the hash `h` under a prepared key.
pub fn verify_hash_prepared(
    p: &Hawk512PreparedPubkey,
    s1: &[i32; N],
    h: &[u8; 128],
) -> (ok: bool)
    requires
        can_double(s1@),
    ensures
        ok == accepts_hash_prepared(p@, i32_ints(s1@), h@),
{
    let mut h0: [i32; N] = [0i32; N];
    let mut w1: [i32; N] = [0i32; N];
    expand_h(h, &mut h0, &mut w1, s1);
    check_short_prepared(p, &w1, &h0)
}

/// Whether a signature on a message is accepted under a prepared key.
fn verify_prepared(
    p: &Hawk512PreparedPubkey,
    message: &[u8],
    sig: &[u8; SIGNATURE_LEN],
) -> (ok: bool)
    ensures
        ok == accepts_prepared(p@, message@, sig@),
{
    let mut w1: [i32; N] = [0i32; N];
    let mut h0: [i32; N] = [0i32; N];
    if !fill_w1_h0(&p.hpub, message, sig, &mut w1, &mut h0) {
        return false;
    }
    let ghost h = challenge(message@, p@.hpub, salt_of(sig@));
    let ghost s1 = choose|s1: Seq<int>| encodes_signature(sig@, s1);
    let ok: bool = check_short_prepared(p, &w1, &h0);
    proof {
        assert(encodes_signature(sig@, s1));
        assert(ok == accepts_hash_prepared(p@, s1, h));
        if accepts_prepared(p@, message@, sig@) {
            let t = choose|t: Seq<int>| #[trigger]
                encodes_signature(sig@, t) && accepts_hash_prepared(p@, t, h);
            lemma_signature_decoding_unique(sig@, s1, t);
        }
    }
    ok
}

impl Hawk512Signature {
    /// Whether the signature on `message` is accepted under `pubkey`. `false`
    /// whatever the reason: malformed encodings, the sign of `w1`, a violated
    /// fixed-point bound, residues that disagree, or a norm above the bound.
    pub fn verify(&self, message: &[u8], pubkey: &Hawk512Pubkey) -> (ok: bool)
        ensures
            ok == accepts(pubkey@, message@, self@),
    {
        verify(&pubkey.0, message, &self.0)
    }

    /// Whether the signature on `message` is accepted under a prepared key.
    pub fn verify_with_prepared(
        &self,
        message: &[u8],
        prepared: &Hawk512PreparedPubkey,
    ) -> (ok: bool)
        ensures
            ok == accepts_prepared(prepared@, message@, self@),
            forall|key: Seq<u8>| #[trigger]
                prepares(key, prepared@) ==> ok == accepts(key, message@, self@),
    {
        proof {
            assert forall|key: Seq<u8>| #[trigger] prepares(key, prepared@) implies accepts_prepared(
                prepared@,
                message@,
                self@,
            ) == accepts(key, message@, self@) by {
                lemma_prepared_agrees(key, prepared@, message@, self@);
            }
        }
        verify_prepared(prepared, message, &self.0)
    }
}

} // verus!
