# HAWK-512 signature verification

A verified library for checking HAWK-512 signatures. It decodes public keys and
signatures, hashes the message with SHAKE256, reconstructs the half of the
signature that is not transmitted, and bounds the norm of the result modulo two
primes. Keys can be prepared once and stored, so that later verifications skip
all work that depends on the key alone.

All arithmetic is on integers, and every function's contract says what it
returns. Keys and signatures are made elsewhere: the library verifies only.

## Layout

- `src/keys.rs`: public keys, signatures, prepared keys; `verify`,
  `verify_with_prepared`, `prepare_into`
- `src/acceptance.rs`: which signatures are accepted, what a prepared key is,
  and that both ways of verifying agree
- `src/codec.rs`, `src/golomb.rs`: bit sequences, the Golomb-Rice code, the
  encodings and their uniqueness, the hashes
- `src/fft.rs`, `src/fixed_point.rs`, `src/delta_table.rs`: the fixed-point
  transforms and the reconstruction of `w0`
- `src/ntt.rs`, `src/transform.rs`: the number-theoretic transform and the norm
- `src/norm.rs`, `src/norm_laws.rs`, `src/ring.rs`, `src/laws.rs`: what the norm
  is, how the transform carries the ring's operations over, and what an accepted
  signature amounts to
- `src/modular.rs`, `src/primes.rs`, `src/roots.rs`, `src/poly.rs`,
  `src/sums.rs`: the number theory underneath
- `src/bytes.rs`: little-endian words
- `src/program.rs`: the decisions of an on-chain program
- `app/`: the entry point of that program

## Trusted code

Two functions are trusted to do what their contracts say: `shake256` in
`src/codec.rs`, which calls the `solana-shake256` crate, and
`program_error_code` in `src/program.rs`, which calls `solana-program-error`. A
third, `address_of` in `src/keys.rs`, reads where a buffer stands; nothing is
claimed of what it returns.
