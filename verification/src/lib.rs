//! HAWK-512 signature verification.

use vstd::prelude::*;

pub mod acceptance;
pub mod accuracy;
pub mod bytes;
pub mod circle;
pub mod codec;
pub mod delta_table;
pub mod fixed_point;
pub mod fft;
pub mod golomb;
pub mod instruction_laws;
pub mod inversion;
pub mod keys;
pub mod laws;
pub mod modular;
pub mod norm;
pub mod norm_laws;
pub mod ntt;
pub mod poly;
pub mod prepared_laws;
pub mod primes;
pub mod program;
pub mod reconstruction;
pub mod ring;
pub mod roots;
pub mod sums;
pub mod transform;
pub mod wire;

pub use crate::keys::{HawkError, Hawk512PreparedPubkey, Hawk512Pubkey, Hawk512Signature};

verus! {

/// Binary logarithm of the ring degree.
pub const LOGN: usize = 9;

/// Degree of the ring `Z[x]/(x^n + 1)`.
pub const N: usize = 512;

/// Half the ring degree: the length of one half of a split FFT buffer.
pub const HALF_N: usize = 256;

/// Length of an encoded public key.
pub const HAWK_512_PUBKEY_LEN: usize = 1024;

/// Length of an encoded signature.
pub const HAWK_512_SIGNATURE_LEN: usize = 555;

/// Length of a serialised prepared public key: 256 bounds and 512 transformed
/// coefficients of eight bytes, six transforms of 512 words, and a hash.
pub const HAWK_512_PREPARED_PUBKEY_LEN: usize = 18464;

/// Length of an encoded public key.
pub const PUBKEY_LEN: usize = 1024;

/// Length of an encoded signature.
pub const SIGNATURE_LEN: usize = 555;

/// Length of the salt at the front of a signature.
pub const SALT_LEN: usize = 24;

/// Length of the hash of a public key.
pub const HPUB_LEN: usize = 32;

/// Low bits of a coefficient of `q00`.
pub const LOW_00: usize = 5;

/// Bits of a coefficient of `q00`.
pub const HIGH_00: usize = 9;

/// Low bits of a coefficient of `q01`.
pub const LOW_01: usize = 9;

/// Bits of a coefficient of `q01`.
pub const HIGH_01: usize = 12;

/// Low bits of a coefficient of `s1`.
pub const LOW_S1: usize = 5;

/// Bits of a coefficient of `s1`.
pub const HIGH_S1: usize = 9;

/// Bits of a coefficient of `s0`.
pub const HIGH_S0: usize = 13;

} // verus!
