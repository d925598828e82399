//! Key material for the threshold scheme: the dealer's private key
//! `(p, q, d, m, e)` over two distinct safe primes, the public key
//! `(n, e)`, and their generation.
use vstd::prelude::*;

verus! {

use num_bigint_dig::BigInt;
use vstd::arithmetic::power::pow;
use crate::arith::{fact, is_inverse, is_safe_prime_int, lemma_fact_mono, lemma_fact_pos};
use crate::bigint::{
    bi_bits, bi_clone, bi_eq, bi_from_u64, bi_half, bi_mod_inverse, bi_mul, bi_sub, bint,
    gen_safe_prime_16384, gen_safe_prime_2048, gen_safe_prime_256,
};

/// The public exponent, a Fermat prime; the group size `l` must not
/// exceed it so that Lagrange denominators stay invertible modulo `e`.
pub const PUBLIC_EXPONENT: u64 = 65537;

/// The narrowest and widest half-modulus (single prime) bit lengths the
/// prime generator accepts.
pub const MIN_PRIME_BITS: usize = 3;

pub const MAX_PRIME_BITS: usize = 16384;

#[derive(Debug, PartialEq, Eq, Structural)]
pub enum KeyGenError {
    TooBig,
    TooSmall,
    NoInverse,
    GroupTooBig,
    BitLength,
}

#[derive(Debug)]
pub struct RSAThresholdPrivateKey {
    pub p: BigInt,
    pub q: BigInt,
    pub d: BigInt,
    pub m: BigInt,
    pub e: BigInt,
}

#[derive(Debug)]
pub struct RSAThresholdPublicKey {
    pub n: BigInt,
    pub e: BigInt,
}

impl RSAThresholdPublicKey {
    pub open spec fn wf(self) -> bool {
        bint(self.n) > 2 && bint(self.e) > 1
    }
}

impl RSAThresholdPrivateKey {
    pub open spec fn wf(self) -> bool {
        bint(self.p) > 2 && bint(self.q) > 2 && bint(self.m) > 1 && 0 < bint(self.d) < bint(
            self.m,
        ) && bint(self.e) > 1
    }

    /// The public key `(n, e)` with `n = p * q`.
    pub fn get_public(&self) -> (r: RSAThresholdPublicKey)
        requires
            self.wf(),
        ensures
            r.wf(),
            bint(r.n) == bint(self.p) * bint(self.q),
            bint(r.e) == bint(self.e),
    {
        let n = bi_mul(&self.p, &self.q);
        proof {
            assert(bint(self.p) * bint(self.q) > 2) by (nonlinear_arith)
                requires
                    bint(self.p) > 2,
                    bint(self.q) > 2,
            ;
        }
        RSAThresholdPublicKey { n, e: bi_clone(&self.e) }
    }
}

/// `delta = l!`, the factor that clears the denominators of the Lagrange
/// coefficients.
pub fn factorial(value: usize) -> (r: usize)
    requires
        fact(value as nat) <= usize::MAX,
    ensures
        r as nat == fact(value as nat),
{
    let mut acc: usize = 1;
    let mut i: usize = 0;
    while i < value
        invariant
            i <= value,
            acc as nat == fact(i as nat),
            fact(value as nat) <= usize::MAX,
        decreases value - i,
    {
        i = i + 1;
        proof {
            lemma_fact_mono(i as nat, value as nat);
            lemma_fact_pos((i - 1) as nat);
            assert(fact(i as nat) == (i as nat) * fact((i - 1) as nat));
            assert((acc as nat) * (i as nat) == fact(i as nat)) by (nonlinear_arith)
                requires
                    acc as nat == fact((i - 1) as nat),
                    fact(i as nat) == (i as nat) * fact((i - 1) as nat),
            ;
            assert(fact(i as nat) <= usize::MAX);
        }
        acc = acc * i;
    }
    acc
}

/// Draws one random safe prime of `bits` bits, on the narrowest wide
/// word that holds it: prime search on an oversized fixed-width word
/// wastes most of each primality test.
fn gen_safe_prime_sized(bits: usize) -> (r: BigInt)
    requires
        3 <= bits <= 16384,
    ensures
        is_safe_prime_int(bint(r)),
{
    if bits <= 256 {
        gen_safe_prime_256(bits)
    } else if bits <= 2048 {
        gen_safe_prime_2048(bits)
    } else {
        gen_safe_prime_16384(bits)
    }
}

/// Generates two distinct safe primes, each of exactly `bit_length / 2`
/// bits. A prime of any other bit length is rejected with `BitLength`,
/// never truncated; so is a run that keeps producing equal primes.
pub fn generate_p_and_q(bit_length: usize) -> (r: Result<(BigInt, BigInt), KeyGenError>)
    ensures
        (bit_length / 2 < MIN_PRIME_BITS) <==> (r matches Err(e) && e is TooSmall),
        (bit_length / 2 >= MIN_PRIME_BITS && bit_length / 2 > MAX_PRIME_BITS) <==> (r matches Err(
            e,
        ) && e is TooBig),
        r matches Err(e) ==> (e is TooSmall || e is TooBig || e is BitLength),
        r matches Ok(pq) ==> {
            let h = bit_length / 2;
            &&& is_safe_prime_int(bint(pq.0))
            &&& is_safe_prime_int(bint(pq.1))
            &&& bint(pq.0) != bint(pq.1)
            &&& pow(2, (h - 1) as nat) <= bint(pq.0) < pow(2, h as nat)
            &&& pow(2, (h - 1) as nat) <= bint(pq.1) < pow(2, h as nat)
        },
{
    let half_bit_length = bit_length / 2;
    if half_bit_length < MIN_PRIME_BITS {
        return Err(KeyGenError::TooSmall);
    }
    if half_bit_length > MAX_PRIME_BITS {
        return Err(KeyGenError::TooBig);
    }
    let p = gen_safe_prime_sized(half_bit_length);
    let mut q = gen_safe_prime_sized(half_bit_length);
    let mut same = bi_eq(&p, &q);
    let mut attempts: usize = 0;
    while same && attempts < 64
        invariant
            3 <= half_bit_length <= 16384,
            is_safe_prime_int(bint(q)),
            same == (bint(p) == bint(q)),
            attempts <= 64,
        decreases 64 - attempts,
    {
        q = gen_safe_prime_sized(half_bit_length);
        same = bi_eq(&p, &q);
        attempts = attempts + 1;
    }
    if same {
        return Err(KeyGenError::BitLength);
    }
    if bi_bits(&p) != half_bit_length {
        return Err(KeyGenError::BitLength);
    }
    if bi_bits(&q) != half_bit_length {
        return Err(KeyGenError::BitLength);
    }
    Ok((p, q))
}

/// The dealer's key generation: two safe primes, `m = p' * q'` for
/// `p' = (p-1)/2` and `q' = (q-1)/2`, and `d` the inverse of the fixed
/// public exponent modulo `m`. The group size must stay strictly below
/// the public exponent so that Lagrange denominators remain invertible
/// modulo it. The thresholds `k` and `t` are carried by the caller and
/// do not constrain the key itself.
pub fn key_gen(bit_length: usize, l: usize, k: usize, t: usize) -> (r: Result<
    RSAThresholdPrivateKey,
    KeyGenError,
>)
    ensures
        (bit_length / 2 < MIN_PRIME_BITS) <==> (r matches Err(e) && e is TooSmall),
        (bit_length / 2 >= MIN_PRIME_BITS && bit_length / 2 > MAX_PRIME_BITS) <==> (r matches Err(
            e,
        ) && e is TooBig),
        l >= PUBLIC_EXPONENT as usize ==> !(r is Ok),
        r matches Err(e) && e is GroupTooBig ==> l >= PUBLIC_EXPONENT as usize,
        r matches Ok(key) ==> {
            let h = bit_length / 2;
            &&& key.wf()
            &&& bint(key.e) == PUBLIC_EXPONENT
            &&& is_safe_prime_int(bint(key.p))
            &&& is_safe_prime_int(bint(key.q))
            &&& bint(key.p) != bint(key.q)
            &&& pow(2, (h - 1) as nat) <= bint(key.p) < pow(2, h as nat)
            &&& pow(2, (h - 1) as nat) <= bint(key.q) < pow(2, h as nat)
            &&& bint(key.m) == ((bint(key.p) - 1) / 2) * ((bint(key.q) - 1) / 2)
            &&& is_inverse(bint(key.e), bint(key.d), bint(key.m))
            &&& (bint(key.d) * bint(key.e)) % bint(key.m) == 1
        },
{
    let (p, q) = match generate_p_and_q(bit_length) {
        Ok(pq) => pq,
        Err(e) => { return Err(e) },
    };
    let e = bi_from_u64(PUBLIC_EXPONENT);
    if l >= 65537 {
        return Err(KeyGenError::GroupTooBig);
    }
    let one = bi_from_u64(1);
    let p_minus = bi_sub(&p, &one);
    let q_minus = bi_sub(&q, &one);
    let p_prime = bi_half(&p_minus);
    let q_prime = bi_half(&q_minus);
    let m = bi_mul(&p_prime, &q_prime);
    proof {
        lemma_prime_halves_give_large_m(bint(p), bint(q));
    }
    let dd = match bi_mod_inverse(&e, &m) {
        Some(value) => value,
        None => { return Err(KeyGenError::NoInverse) },
    };
    proof {
        let di = bint(dd);
        let mi = bint(m);
        assert(di != 0) by {
            if di == 0 {
                assert((bint(e) * 0) % mi == 0) by (nonlinear_arith)
                    requires
                        mi > 1,
                ;
            }
        }
        assert((di * bint(e)) % mi == (bint(e) * di) % mi) by (nonlinear_arith);
    }
    Ok(RSAThresholdPrivateKey { p, q, d: dd, m, e })
}

/// For safe primes `p` and `q` the halves `(p-1)/2` and `(q-1)/2` are at
/// least 2, so `m = p'q' > 1` and both primes exceed 2.
proof fn lemma_prime_halves_give_large_m(p: int, q: int)
    requires
        is_safe_prime_int(p),
        is_safe_prime_int(q),
    ensures
        p > 2,
        q > 2,
        ((p - 1) / 2) * ((q - 1) / 2) > 1,
{
    assert((p - 1) / 2 >= 2);
    assert((q - 1) / 2 >= 2);
    assert(p > 2 && q > 2) by (nonlinear_arith)
        requires
            (p - 1) / 2 >= 2,
            (q - 1) / 2 >= 2,
    ;
    assert(((p - 1) / 2) * ((q - 1) / 2) > 1) by (nonlinear_arith)
        requires
            (p - 1) / 2 >= 2,
            (q - 1) / 2 >= 2,
    ;
}

} // verus!
