//! The protocol exercised end to end: polynomial evaluation, key and
//! share generation, signing, proof verification and combination.
use num_bigint_dig::BigInt;
use num_traits::One;
use threshold_rsa::combine::{combine_shares, lambda};
use threshold_rsa::dealer::{generate_secret_shares, generate_verification};
use threshold_rsa::keys::{factorial, generate_p_and_q, key_gen};
use threshold_rsa::poly::evaluate_polynomial_mod;
use threshold_rsa::sign::{sign_with_share, verify_proof, verify_signature};

#[test]
fn test_evaluate_polynomial() {
    let coeffs = vec![
        BigInt::from(17u32),
        BigInt::from(63u32),
        BigInt::from(127u32),
    ];
    let modulus = BigInt::from(127u32);
    assert_eq!(
        evaluate_polynomial_mod(&BigInt::from(2u32), &coeffs, &modulus).unwrap(),
        BigInt::from(16u32)
    );
}

#[test]
fn evaluate_simple_polynomial() {
    let coeffs = vec![
        BigInt::from(1u64),
        BigInt::from(1u64),
        BigInt::from(1u64),
        BigInt::from(1u64),
    ];
    let modulus = BigInt::from(13u64);
    assert_eq!(
        evaluate_polynomial_mod(&BigInt::from(1u32), &coeffs, &modulus).unwrap(),
        BigInt::from(4u64)
    );

    let coeffs = vec![BigInt::from(1u64), BigInt::from(2u64), BigInt::from(3u64)];
    let modulus = BigInt::from(13u64);
    assert_eq!(
        evaluate_polynomial_mod(&BigInt::from(100u32), &coeffs, &modulus).unwrap(),
        BigInt::from(2u32)
    );
}

#[test]
fn another_polynomial_eval() {
    let coeffs = vec![
        BigInt::from(21231311311u64),
        BigInt::from(31982323219u64),
        BigInt::from(98212312334u64),
        BigInt::from(43284u32),
        BigInt::from(9381391389u64),
    ];
    let modulus = BigInt::from(7124072u64);
    assert_eq!(
        evaluate_polynomial_mod(&BigInt::from(0u32), &coeffs, &modulus).unwrap(),
        BigInt::from(1576751u64)
    );
    assert_eq!(
        evaluate_polynomial_mod(&BigInt::from(2u32), &coeffs, &modulus).unwrap(),
        BigInt::from(4139197u64)
    );
}

#[test]
fn gen_keys() {
    let l = 3;
    let k = 2;
    let t = 1;
    let bit_length = 32;
    let _sk = key_gen(bit_length, l, k, t);
}

#[test]
fn gen_shares() {
    let l = 3;
    let k = 2;
    let t = 1;
    let bit_length = 128;
    let sk = key_gen(bit_length, l, k, t).unwrap();
    let shares = generate_secret_shares(&sk, l, k);
    println!("shares: {:?}", shares);
    let (_v, _vks) = generate_verification(&sk.get_public(), &shares).unwrap();
}

#[test]
fn test_key_gen() {}

#[test]
fn generating_small_primes_errors() {
    assert!(generate_p_and_q(1).is_err());

    let (p, q) = generate_p_and_q(100).unwrap();

    assert!(p > BigInt::one());
    assert!(q > BigInt::one());
}

#[test]
fn test_factorial() {
    assert_eq!(factorial(1), 1);
    assert_eq!(factorial(2), 2);
    assert_eq!(factorial(3), 6);
    assert_eq!(factorial(20), 2432902008176640000);
}

#[test]
fn signing() {
    let l = 3;
    let k = 2;
    let t = 1;
    let bit_length = 32;
    let sk = key_gen(bit_length, l, k, t).unwrap();
    let _pubkey = sk.get_public();
    let _shares = generate_secret_shares(&sk, l, k);
}

#[test]
fn dealer_integration() {
    let l = 2;
    let k = 2;
    let t = 1;
    let bit_length = 512;
    let msg: &[u8] = b"ahello";
    let sk = key_gen(bit_length, l, k, t).unwrap();
    let pubkey = sk.get_public();
    let shares = generate_secret_shares(&sk, l, k);
    let (v, verification_keys) = generate_verification(&pubkey, &shares).unwrap();

    let delta = factorial(l);

    let (x1, z, c) = sign_with_share(msg, delta, &shares[0], &pubkey, &v, &verification_keys[0]);
    let verified = verify_proof(msg, &v, delta, &x1, &verification_keys[0], &c, &z, &pubkey);
    assert!(verified);

    let (x2, z, c) = sign_with_share(msg, delta, &shares[1], &pubkey, &v, &verification_keys[1]);
    let verified = verify_proof(msg, &v, delta, &x2, &verification_keys[1], &c, &z, &pubkey);
    assert!(verified);

    let subset = vec![1usize, 2usize];
    let signature = combine_shares(
        msg,
        delta,
        &vec![x1.clone(), x2.clone()],
        &subset,
        &pubkey,
        l,
        k,
    )
    .unwrap();
    println!("signature: {:?}", signature);
    assert!(verify_signature(msg, &signature, &pubkey));
}

#[test]
fn test_lambda() {
    lambda(2, 0, 1, 2, &vec![1, 2]);
}

#[test]
fn s2s() {
    let l = 2;
    let k = 2;
    let t = 1;
    let bit_length = 512;
    let sk = key_gen(bit_length, l, k, t).unwrap();
    let pubkey = sk.get_public();
    let shares = generate_secret_shares(&sk, l, k);
    let (v, verification_keys) = generate_verification(&pubkey, &shares).unwrap();
    let delta = factorial(l);

    let msg: &[u8] = b"hello";
    let (x1, z, c) = sign_with_share(msg, delta, &shares[0], &pubkey, &v, &verification_keys[0]);
    let verified = verify_proof(msg, &v, delta, &x1, &verification_keys[0], &c, &z, &pubkey);
    assert!(verified);

    let (x2, z, c) = sign_with_share(msg, delta, &shares[1], &pubkey, &v, &verification_keys[1]);
    let _verified = verify_proof(msg, &v, delta, &x2, &verification_keys[1], &c, &z, &pubkey);

    let subset = vec![1usize, 2usize];
    let _signature = combine_shares(
        msg,
        delta,
        &vec![x1.clone(), x2.clone()],
        &subset,
        &pubkey,
        l,
        k,
    )
    .unwrap();
}
