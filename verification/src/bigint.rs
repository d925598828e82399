//! Trusted boundary around the arbitrary-precision arithmetic of
//! `num_bigint_dig`, the SHA-256 digest of `sha2`, the ChaCha20 PRNG and
//! the safe-prime generator of `crypto_primes`. Every function here is
//! `external_body`: its contract states what the outside call returns, in
//! terms of the uninterpreted integer value `bint` of a `BigInt`.
use vstd::prelude::*;

verus! {

use vstd::arithmetic::power::pow;
use num_bigint_dig::BigInt;
use rand_chacha::ChaCha20Rng;
use crate::arith::{be_int, gcd_int, invertible, is_inverse, min_be_bytes};

#[verifier::external_type_specification]
#[verifier::external_body]
pub struct ExBigInt(BigInt);

#[verifier::external_type_specification]
#[verifier::external_body]
pub struct ExChaCha20Rng(ChaCha20Rng);

/// The integer value that a `BigInt` stands for.
pub uninterp spec fn bint(b: BigInt) -> int;

/// The integer values of a sequence of `BigInt`s.
pub open spec fn ints_of(s: Seq<BigInt>) -> Seq<int> {
    s.map_values(|b: BigInt| bint(b))
}

/// The SHA-256 digest of a byte string; a fixed function of the bytes
/// alone, left uninterpreted.
pub uninterp spec fn sha256_of(data: Seq<u8>) -> Seq<u8>;

/// Relies on `sha2::Sha256::digest`: the 32-byte digest depends on the
/// input bytes alone.
#[verifier::external_body]
pub(crate) fn sha256(data: &[u8]) -> (r: Vec<u8>)
    ensures
        r@ == sha256_of(data@),
        r@.len() == 32,
{
    <sha2::Sha256 as sha2::Digest>::digest(data).to_vec()
}

/// Relies on `From<u64> for BigInt`.
#[verifier::external_body]
pub(crate) fn bi_from_u64(x: u64) -> (r: BigInt)
    ensures
        bint(r) == x as int,
{
    BigInt::from(x)
}

/// Relies on `Clone for BigInt`.
#[verifier::external_body]
pub(crate) fn bi_clone(a: &BigInt) -> (r: BigInt)
    ensures
        bint(r) == bint(*a),
{
    a.clone()
}

/// Relies on `PartialEq for BigInt`: equality of the represented values.
#[verifier::external_body]
pub(crate) fn bi_eq(a: &BigInt, b: &BigInt) -> (r: bool)
    ensures
        r == (bint(*a) == bint(*b)),
{
    a == b
}

/// Relies on `Ord for BigInt`: order of the represented values.
#[verifier::external_body]
pub(crate) fn bi_lt(a: &BigInt, b: &BigInt) -> (r: bool)
    ensures
        r == (bint(*a) < bint(*b)),
{
    a < b
}

/// Relies on `Add for BigInt`.
#[verifier::external_body]
pub(crate) fn bi_add(a: &BigInt, b: &BigInt) -> (r: BigInt)
    ensures
        bint(r) == bint(*a) + bint(*b),
{
    a + b
}

/// Relies on `Sub for BigInt`.
#[verifier::external_body]
pub(crate) fn bi_sub(a: &BigInt, b: &BigInt) -> (r: BigInt)
    ensures
        bint(r) == bint(*a) - bint(*b),
{
    a - b
}

/// Relies on `Mul for BigInt`.
#[verifier::external_body]
pub(crate) fn bi_mul(a: &BigInt, b: &BigInt) -> (r: BigInt)
    ensures
        bint(r) == bint(*a) * bint(*b),
{
    a * b
}

/// Relies on `Neg for BigInt`.
#[verifier::external_body]
pub(crate) fn bi_neg(a: &BigInt) -> (r: BigInt)
    ensures
        bint(r) == -bint(*a),
{
    -a.clone()
}

/// Relies on `Shr<usize> for BigInt`: an arithmetic right shift by one,
/// which on a non-negative value is division by two rounding down.
#[verifier::external_body]
pub(crate) fn bi_half(a: &BigInt) -> (r: BigInt)
    requires
        bint(*a) >= 0,
    ensures
        bint(r) == bint(*a) / 2,
{
    a.clone() >> 1usize
}

/// Relies on `num_integer::Integer::mod_floor for BigInt`: for a positive
/// modulus the result is the remainder in `[0, m)`.
#[verifier::external_body]
pub(crate) fn bi_mod_floor(a: &BigInt, m: &BigInt) -> (r: BigInt)
    requires
        bint(*m) > 0,
    ensures
        bint(r) == bint(*a) % bint(*m),
{
    num_integer::Integer::mod_floor(a, m)
}

/// Relies on `num_integer::Integer::div_floor for BigInt`: for a positive
/// divisor the quotient rounds toward negative infinity.
#[verifier::external_body]
pub(crate) fn bi_div_floor(a: &BigInt, m: &BigInt) -> (r: BigInt)
    requires
        bint(*m) > 0,
    ensures
        bint(r) == bint(*a) / bint(*m),
{
    num_integer::Integer::div_floor(a, m)
}

/// Relies on `BigInt::modpow`: `(a ^ exp) mod m`, in `[0, m)` for a
/// positive modulus; it panics on a negative exponent or zero modulus,
/// and its sign handling of a negative base ignores the exponent's
/// parity, so the preconditions rule both out.
#[verifier::external_body]
pub(crate) fn bi_modpow(a: &BigInt, exp: &BigInt, m: &BigInt) -> (r: BigInt)
    requires
        bint(*a) >= 0,
        bint(*exp) >= 0,
        bint(*m) > 0,
    ensures
        bint(r) == pow(bint(*a), bint(*exp) as nat) % bint(*m),
{
    a.modpow(exp, m)
}

/// Relies on `num_traits::Pow<usize> for BigInt`: exact integer
/// exponentiation, without reduction.
#[verifier::external_body]
pub(crate) fn bi_pow_usize(a: &BigInt, e: usize) -> (r: BigInt)
    ensures
        bint(r) == pow(bint(*a), e as nat),
{
    num_traits::Pow::pow(a, e)
}

/// Relies on `num_bigint_dig::ModInverse for BigInt`: the multiplicative
/// inverse of `a` modulo `m` in `[0, m)` if it exists, `None` otherwise.
#[verifier::external_body]
pub(crate) fn bi_mod_inverse(a: &BigInt, m: &BigInt) -> (r: Option<BigInt>)
    requires
        bint(*m) > 1,
    ensures
        match r {
            Some(y) => is_inverse(bint(*a), bint(y), bint(*m)),
            None => !invertible(bint(*a), bint(*m)),
        },
{
    num_bigint_dig::ModInverse::mod_inverse(a.clone(), m)
}

/// Relies on `num_integer::Integer::gcd for BigInt`: the non-negative
/// greatest common divisor of the magnitudes.
#[verifier::external_body]
pub(crate) fn bi_gcd(a: &BigInt, b: &BigInt) -> (r: BigInt)
    requires
        bint(*a) >= 0,
        bint(*b) >= 0,
    ensures
        bint(r) == gcd_int(bint(*a) as nat, bint(*b) as nat),
{
    num_integer::Integer::gcd(a, b)
}

/// Relies on `num_bigint_dig::algorithms::extended_gcd` with
/// `extended = true`: returns `(g, s, t)` with `g = gcd(a, b)` and the
/// Bezout identity `s*a + t*b = g`.
#[verifier::external_body]
pub(crate) fn bi_extended_gcd(a: &BigInt, b: &BigInt) -> (r: (BigInt, BigInt, BigInt))
    requires
        bint(*a) > 0,
        bint(*b) > 0,
    ensures
        bint(r.0) == gcd_int(bint(*a) as nat, bint(*b) as nat),
        bint(r.1) * bint(*a) + bint(r.2) * bint(*b) == bint(r.0),
{
    let (g, s, t) = num_bigint_dig::algorithms::extended_gcd(
        std::borrow::Cow::Owned(a.to_biguint().unwrap()),
        std::borrow::Cow::Owned(b.to_biguint().unwrap()),
        true,
    );
    (g, s.unwrap(), t.unwrap())
}

/// Relies on `BigInt::bits`: the bit length of the magnitude, so that a
/// positive value `a` satisfies `2^(bits-1) <= a < 2^bits`.
#[verifier::external_body]
pub(crate) fn bi_bits(a: &BigInt) -> (r: usize)
    requires
        bint(*a) >= 0,
    ensures
        bint(*a) == 0 ==> r == 0,
        bint(*a) > 0 ==> r >= 1 && pow(2, (r - 1) as nat) <= bint(*a) < pow(2, r as nat),
{
    a.bits()
}

/// Relies on `BigInt::to_bytes_be`: the magnitude as minimal big-endian
/// bytes, with zero encoded as the single byte `0`.
#[verifier::external_body]
pub(crate) fn bi_to_bytes_be(a: &BigInt) -> (r: Vec<u8>)
    requires
        bint(*a) >= 0,
    ensures
        r@ == min_be_bytes(bint(*a)),
{
    a.to_bytes_be().1
}

/// Relies on `BigInt::from_bytes_be` with a positive sign: the unsigned
/// big-endian value of the bytes.
#[verifier::external_body]
pub(crate) fn bi_from_bytes_be(bytes: &[u8]) -> (r: BigInt)
    ensures
        bint(r) == be_int(bytes@),
{
    BigInt::from_bytes_be(num_bigint_dig::Sign::Plus, bytes)
}

/// Relies on `rand_core::SeedableRng::from_entropy` for `ChaCha20Rng`:
/// a cryptographic PRNG freshly seeded from operating-system entropy.
#[verifier::external_body]
pub(crate) fn rng_from_entropy() -> ChaCha20Rng {
    rand_core::SeedableRng::from_entropy()
}

/// Relies on `num_bigint_dig::RandBigInt::gen_bigint_range`: a value in
/// `[lo, hi)`; it panics unless `lo < hi`, which the precondition rules
/// out. Nothing more is assumed of the random outcome.
#[verifier::external_body]
pub(crate) fn rng_below(rng: &mut ChaCha20Rng, lo: &BigInt, hi: &BigInt) -> (r: BigInt)
    requires
        bint(*lo) < bint(*hi),
    ensures
        bint(*lo) <= bint(r) < bint(*hi),
{
    num_bigint_dig::RandBigInt::gen_bigint_range(rng, lo, hi)
}

/// Relies on `crypto_primes::safe_prime` over a 256-bit word: a random
/// safe prime (probabilistic primality), seeded from OS entropy; it
/// panics outside `3 <= bits <= 256`, which the precondition rules out.
/// Nothing is assumed about its size.
#[verifier::external_body]
pub(crate) fn gen_safe_prime_256(bits: usize) -> (r: BigInt)
    requires
        3 <= bits <= 256,
    ensures
        crate::arith::is_safe_prime_int(bint(r)),
{
    let p: crypto_bigint::U256 = crypto_primes::safe_prime(bits);
    BigInt::from_bytes_be(num_bigint_dig::Sign::Plus, &crypto_bigint::Encoding::to_be_bytes(&p))
}

/// Relies on `crypto_primes::safe_prime` over a 2048-bit word, for
/// primes too wide for the 256-bit word; otherwise as
/// `gen_safe_prime_256`.
#[verifier::external_body]
pub(crate) fn gen_safe_prime_2048(bits: usize) -> (r: BigInt)
    requires
        3 <= bits <= 2048,
    ensures
        crate::arith::is_safe_prime_int(bint(r)),
{
    let p: crypto_bigint::U2048 = crypto_primes::safe_prime(bits);
    BigInt::from_bytes_be(num_bigint_dig::Sign::Plus, &crypto_bigint::Encoding::to_be_bytes(&p))
}

/// Relies on `crypto_primes::safe_prime` over a 16384-bit word, for
/// primes too wide for the 2048-bit word; otherwise as
/// `gen_safe_prime_256`.
#[verifier::external_body]
pub(crate) fn gen_safe_prime_16384(bits: usize) -> (r: BigInt)
    requires
        3 <= bits <= 16384,
    ensures
        crate::arith::is_safe_prime_int(bint(r)),
{
    let p: crypto_bigint::U16384 = crypto_primes::safe_prime(bits);
    BigInt::from_bytes_be(num_bigint_dig::Sign::Plus, &crypto_bigint::Encoding::to_be_bytes(&p))
}

} // verus!
