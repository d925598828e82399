//! The dealer's side of the protocol: splitting the private exponent
//! into `l` Shamir shares modulo `m`, and publishing the verification
//! values `v` and `v_i = v^{s_i} mod n`.
use vstd::prelude::*;

verus! {

use num_bigint_dig::BigInt;
use vstd::arithmetic::power::pow;
use crate::arith::gcd_int;
use crate::bigint::{
    bi_clone, bi_eq, bi_from_u64, bi_gcd, bi_modpow, bint, ints_of, rng_below, rng_from_entropy,
};
use crate::keys::{KeyGenError, RSAThresholdPrivateKey, RSAThresholdPublicKey};
use crate::poly::{evaluate_polynomial_mod, poly_eval};

/// `a` is a valid sharing polynomial for secret `d` over modulus `m`
/// with threshold `k`, and `shares` are its values at `1..=len`, each
/// reduced modulo `m`.
pub open spec fn is_sharing_of(a: Seq<int>, d: int, m: int, k: int, shares: Seq<int>) -> bool {
    &&& a.len() == k
    &&& k >= 1
    &&& a[0] == d
    &&& (forall|j: int| 1 <= j < k ==> 0 <= #[trigger] a[j] < m)
    &&& (forall|i: int| 0 <= i < shares.len() ==> #[trigger] shares[i] == poly_eval(a, i + 1) % m)
}

/// Samples `k - 1` random coefficients below `m`, fixes the constant
/// coefficient to the private exponent, and hands share `i` the value
/// `f(i) mod m` of the resulting polynomial, for `i = 1..=l`.
pub fn generate_secret_shares(key: &RSAThresholdPrivateKey, l: usize, k: usize) -> (r: Vec<BigInt>)
    requires
        key.wf(),
        k >= 1,
    ensures
        r@.len() == l,
        exists|a: Seq<int>|
            #[trigger] is_sharing_of(a, bint(key.d), bint(key.m), k as int, ints_of(r@)),
        forall|i: int| 0 <= i < l ==> 0 <= #[trigger] bint(r@[i]) < bint(key.m),
{
    let mut rng = rng_from_entropy();
    let zero = bi_from_u64(0);
    let mut coeffs: Vec<BigInt> = Vec::new();
    coeffs.push(bi_clone(&key.d));
    let mut j: usize = 1;
    while j < k
        invariant
            1 <= j <= k,
            coeffs@.len() == j,
            bint(key.m) > 1,
            bint(zero) == 0,
            bint(coeffs@[0]) == bint(key.d),
            forall|t: int| 1 <= t < j ==> 0 <= #[trigger] bint(coeffs@[t]) < bint(key.m),
        decreases k - j,
    {
        coeffs.push(rng_below(&mut rng, &zero, &key.m));
        j = j + 1;
    }
    let mut shares: Vec<BigInt> = Vec::new();
    let mut i: usize = 0;
    while i < l
        invariant
            0 <= i <= l,
            shares@.len() == i,
            coeffs@.len() == k,
            1 <= k,
            bint(key.m) > 1,
            forall|t: int|
                0 <= t < i ==> #[trigger] bint(shares@[t]) == poly_eval(
                    ints_of(coeffs@),
                    t + 1,
                ) % bint(key.m),
            forall|t: int| 0 <= t < i ==> 0 <= #[trigger] bint(shares@[t]) < bint(key.m),
        decreases l - i,
    {
        let x = bi_from_u64((i + 1) as u64);
        let s = evaluate_polynomial_mod(&x, &coeffs, &key.m).unwrap();
        proof {
            vstd::arithmetic::div_mod::lemma_mod_bound(
                poly_eval(ints_of(coeffs@), i + 1),
                bint(key.m),
            );
        }
        shares.push(s);
        i = i + 1;
    }
    proof {
        let a = ints_of(coeffs@);
        assert(a[0] == bint(coeffs@[0]));
        assert(forall|j2: int| 1 <= j2 < k ==> #[trigger] a[j2] == bint(coeffs@[j2]));
        assert(forall|t: int|
            0 <= t < l ==> #[trigger] ints_of(shares@)[t] == bint(shares@[t]));
        assert(is_sharing_of(a, bint(key.d), bint(key.m), k as int, ints_of(shares@)));
    }
    shares
}

/// Samples a verification base `v` from `[2, n)` coprime to `n`, and
/// computes the public check value `v_i = v^{s_i} mod n` for each share.
/// Gives up with `NoInverse` if no coprime base is found.
pub fn generate_verification(key: &RSAThresholdPublicKey, shares: &Vec<BigInt>) -> (r: Result<
    (BigInt, Vec<BigInt>),
    KeyGenError,
>)
    requires
        key.wf(),
        forall|i: int| 0 <= i < shares@.len() ==> #[trigger] bint(shares@[i]) >= 0,
    ensures
        r matches Err(e) ==> e is NoInverse,
        r matches Ok(vk) ==> {
            &&& 2 <= bint(vk.0) < bint(key.n)
            &&& gcd_int(bint(vk.0) as nat, bint(key.n) as nat) == 1
            &&& vk.1@.len() == shares@.len()
            &&& (forall|i: int|
                0 <= i < shares@.len() ==> #[trigger] bint(vk.1@[i]) == pow(
                    bint(vk.0),
                    bint(shares@[i]) as nat,
                ) % bint(key.n))
        },
{
    let mut rng = rng_from_entropy();
    let two = bi_from_u64(2);
    let one = bi_from_u64(1);
    let mut v = rng_below(&mut rng, &two, &key.n);
    let mut coprime = bi_eq(&bi_gcd(&v, &key.n), &one);
    let mut attempts: usize = 0;
    while !coprime && attempts < 64
        invariant
            key.wf(),
            bint(two) == 2,
            bint(one) == 1,
            2 <= bint(v) < bint(key.n),
            coprime == (gcd_int(bint(v) as nat, bint(key.n) as nat) == 1),
            attempts <= 64,
        decreases 64 - attempts,
    {
        v = rng_below(&mut rng, &two, &key.n);
        coprime = bi_eq(&bi_gcd(&v, &key.n), &one);
        attempts = attempts + 1;
    }
    if !coprime {
        return Err(KeyGenError::NoInverse);
    }
    let mut vkeys: Vec<BigInt> = Vec::new();
    let mut i: usize = 0;
    while i < shares.len()
        invariant
            key.wf(),
            2 <= bint(v),
            vkeys@.len() == i,
            i <= shares@.len(),
            forall|t: int| 0 <= t < shares@.len() ==> #[trigger] bint(shares@[t]) >= 0,
            forall|t: int|
                0 <= t < i ==> #[trigger] bint(vkeys@[t]) == pow(bint(v), bint(shares@[t]) as nat)
                    % bint(key.n),
        decreases shares@.len() - i,
    {
        vkeys.push(bi_modpow(&v, &shares[i], &key.n));
        i = i + 1;
    }
    Ok((v, vkeys))
}

} // verus!
