//! Concrete checks of the scheme's stated properties: Lagrange
//! interpolation, the key invariant, safe primes, threshold refusal,
//! cheater detection, the regular-signature equality, the error
//! variants, and the session state machines.
use num_bigint_dig::BigInt;
use num_integer::Integer;
use num_traits::ToPrimitive;
use threshold_rsa::combine::{combine_shares, lambda, CombineError};
use threshold_rsa::dealer::{generate_secret_shares, generate_verification};
use threshold_rsa::keys::{factorial, generate_p_and_q, key_gen, KeyGenError};
use threshold_rsa::poly::{evaluate_polynomial_mod, PolynomialError};
use threshold_rsa::session::{signer_next, CombinerSession, CombinerState, SignerState};
use threshold_rsa::sign::{regular_signature, sign_with_share, verify_proof, verify_signature};

fn is_prime_u64(n: u64) -> bool {
    if n < 2 {
        return false;
    }
    let mut d: u64 = 2;
    while d * d <= n {
        if n % d == 0 {
            return false;
        }
        d += 1;
    }
    true
}

#[test]
fn lagrange_coefficients_sum_to_delta() {
    let delta = 2usize;
    let subset = vec![1usize, 2usize];
    let l1 = lambda(delta, 0, 1, 2, &subset);
    let l2 = lambda(delta, 0, 2, 2, &subset);
    assert_eq!(l1, BigInt::from(4));
    assert_eq!(l2, BigInt::from(-2));
    assert_eq!(l1 + l2, BigInt::from(delta as u64));

    let single = vec![1usize];
    assert_eq!(lambda(6, 0, 1, 1, &single), BigInt::from(6));

    let triple = vec![1usize, 2usize, 3usize];
    let t1 = lambda(6, 0, 1, 3, &triple);
    let t2 = lambda(6, 0, 2, 3, &triple);
    let t3 = lambda(6, 0, 3, 3, &triple);
    assert_eq!(t1, BigInt::from(18));
    assert_eq!(t2, BigInt::from(-18));
    assert_eq!(t3, BigInt::from(6));
    assert_eq!(t1 + t2 + t3, BigInt::from(6));
}

#[test]
fn key_invariant_holds() {
    let sk = key_gen(128, 3, 2, 1).unwrap();
    let de = sk.d.clone() * sk.e.clone();
    assert_eq!(de.mod_floor(&sk.m), BigInt::from(1u32));
    assert!(sk.d > BigInt::from(0u32));
}

#[test]
fn generated_primes_are_safe() {
    let (p, q) = generate_p_and_q(32).unwrap();
    let pu = p.to_u64().unwrap();
    let qu = q.to_u64().unwrap();
    assert!(is_prime_u64(pu));
    assert!(is_prime_u64(qu));
    assert!(is_prime_u64((pu - 1) / 2));
    assert!(is_prime_u64((qu - 1) / 2));
    assert_ne!(pu, qu);
}

#[test]
fn polynomial_without_coefficients_is_rejected() {
    let coeffs: Vec<BigInt> = vec![];
    let modulus = BigInt::from(13u64);
    let r = evaluate_polynomial_mod(&BigInt::from(1u32), &coeffs, &modulus);
    assert!(matches!(r, Err(PolynomialError::NoCoefficients)));
}

#[test]
fn out_of_range_bit_lengths_are_rejected() {
    assert!(matches!(generate_p_and_q(1), Err(KeyGenError::TooSmall)));
    assert!(matches!(generate_p_and_q(40000), Err(KeyGenError::TooBig)));
    assert!(matches!(key_gen(5, 2, 2, 1), Err(KeyGenError::TooSmall)));
}

#[test]
fn oversized_group_is_rejected() {
    let r = key_gen(32, 65538, 2, 1);
    assert!(matches!(r, Err(KeyGenError::GroupTooBig)));
    let at_e = key_gen(32, 65537, 2, 1);
    assert!(matches!(at_e, Err(KeyGenError::GroupTooBig)));
}

#[test]
fn degenerate_delta_fails_bezout() {
    let sk = key_gen(64, 2, 2, 1).unwrap();
    let pubkey = sk.get_public();
    let shares = vec![BigInt::from(2u32), BigInt::from(3u32)];
    let subset = vec![1usize, 2usize];
    let r = combine_shares(b"msg", 65537, &shares, &subset, &pubkey, 2, 2);
    assert!(matches!(r, Err(CombineError::NoInverse)));
}

#[test]
fn too_few_shares_are_refused() {
    let sk = key_gen(64, 3, 2, 1).unwrap();
    let pubkey = sk.get_public();
    let shares = vec![BigInt::from(5u32)];
    let subset = vec![1usize];
    let r = combine_shares(b"msg", 6, &shares, &subset, &pubkey, 3, 2);
    assert!(matches!(r, Err(CombineError::InsufficientShares)));
}

#[test]
fn single_share_yields_no_valid_signature() {
    let l = 3;
    let k = 2;
    let sk = key_gen(128, l, k, 1).unwrap();
    let pubkey = sk.get_public();
    let shares = generate_secret_shares(&sk, l, k);
    let (v, vks) = generate_verification(&pubkey, &shares).unwrap();
    let delta = factorial(l);
    let msg: &[u8] = b"threshold";
    let (x1, z, c) = sign_with_share(msg, delta, &shares[0], &pubkey, &v, &vks[0]);
    assert!(verify_proof(msg, &v, delta, &x1, &vks[0], &c, &z, &pubkey));
    let produced = combine_shares(msg, delta, &vec![x1], &vec![1usize], &pubkey, l, 1);
    let valid = match produced {
        Ok(y) => verify_signature(msg, &y, &pubkey),
        Err(_) => false,
    };
    assert!(!valid);
}

#[test]
fn cheating_signer_is_detected() {
    let l = 2;
    let k = 2;
    let sk = key_gen(128, l, k, 1).unwrap();
    let pubkey = sk.get_public();
    let shares = generate_secret_shares(&sk, l, k);
    let (v, vks) = generate_verification(&pubkey, &shares).unwrap();
    let delta = factorial(l);
    let msg: &[u8] = b"cheat";
    let (x1, z1, c1) = sign_with_share(msg, delta, &shares[0], &pubkey, &v, &vks[0]);
    let (x2, z2, c2) = sign_with_share(msg, delta, &shares[1], &pubkey, &v, &vks[1]);
    let forged = (x1.clone() * BigInt::from(2u32)).mod_floor(&pubkey.n);
    assert!(!verify_proof(msg, &v, delta, &forged, &vks[0], &c1, &z1, &pubkey));
    assert!(verify_proof(msg, &v, delta, &x2, &vks[1], &c2, &z2, &pubkey));
    let produced = combine_shares(
        msg,
        delta,
        &vec![forged, x2],
        &vec![1usize, 2usize],
        &pubkey,
        l,
        k,
    );
    let valid = match produced {
        Ok(y) => verify_signature(msg, &y, &pubkey),
        Err(_) => false,
    };
    assert!(!valid);
}

#[test]
fn combined_signature_matches_regular_rsa() {
    let l = 2;
    let k = 2;
    let bit_length = 512;
    let sk = key_gen(bit_length, l, k, 1).unwrap();
    let pubkey = sk.get_public();
    let shares = generate_secret_shares(&sk, l, k);
    let (v, vks) = generate_verification(&pubkey, &shares).unwrap();
    let delta = factorial(l);
    let msg: &[u8] = b"hello";
    let (x1, z1, c1) = sign_with_share(msg, delta, &shares[0], &pubkey, &v, &vks[0]);
    let (x2, z2, c2) = sign_with_share(msg, delta, &shares[1], &pubkey, &v, &vks[1]);
    assert!(verify_proof(msg, &v, delta, &x1, &vks[0], &c1, &z1, &pubkey));
    assert!(verify_proof(msg, &v, delta, &x2, &vks[1], &c2, &z2, &pubkey));
    let y = combine_shares(
        msg,
        delta,
        &vec![x1, x2],
        &vec![1usize, 2usize],
        &pubkey,
        l,
        k,
    )
    .unwrap();
    assert!(verify_signature(msg, &y, &pubkey));
    let regular = regular_signature(msg, &sk);
    let y_sq = (y.clone() * y.clone()).mod_floor(&pubkey.n);
    let regular_sq = (regular.clone() * regular.clone()).mod_floor(&pubkey.n);
    assert_eq!(y_sq, regular_sq);
    if verify_signature(msg, &regular, &pubkey) {
        assert_eq!(y, regular);
    }
}

#[test]
fn combiner_session_walks_its_states() {
    let mut session = CombinerSession::new(2);
    assert_eq!(session.state, CombinerState::Collecting);
    session.receive_share(false);
    assert_eq!(session.state, CombinerState::Collecting);
    assert_eq!(session.accepted, 0);
    session.receive_share(true);
    assert_eq!(session.state, CombinerState::Collecting);
    session.receive_share(true);
    assert_eq!(session.state, CombinerState::Ready);
    session.mark_combined();
    assert_eq!(session.state, CombinerState::Combined);

    let mut abandoned = CombinerSession::new(1);
    abandoned.give_up();
    assert_eq!(abandoned.state, CombinerState::Failed);

    let s = signer_next(SignerState::Idle);
    assert_eq!(s, SignerState::ReceivedMessage);
    let s = signer_next(s);
    assert_eq!(s, SignerState::EmittedShare);
    let s = signer_next(s);
    assert_eq!(s, SignerState::EmittedShare);
}
