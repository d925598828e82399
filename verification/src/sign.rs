//! Signing a message with one share, and checking the accompanying
//! Chaum-Pedersen-style proof of correctness. The message representative
//! is the SHA-256 digest of the message, big-endian, reduced modulo `n`;
//! the commitment hash is over the raw concatenation of the unsigned
//! big-endian bytes of its six operands, with no length prefixes.
use vstd::prelude::*;

verus! {

use num_bigint_dig::BigInt;
use vstd::arithmetic::power::{
    lemma_pow1, lemma_pow_adds, lemma_pow_increases, lemma_pow_mod_noop, lemma_pow_multiplies, pow,
};
use vstd::arithmetic::div_mod::{
    lemma_mod_bound, lemma_mul_mod_noop_general, lemma_mul_mod_noop_left, lemma_mul_mod_noop_right,
    lemma_small_mod,
};
use crate::arith::{
    be_int, bit_len, invertible, is_inverse, lemma_be_int_nonneg, lemma_inverse_unique,
    lemma_invertible_pow, lemma_pow2_bounds_give_bit_len, lemma_pow_nonneg, min_be_bytes,
};
use crate::bigint::{
    bi_add, bi_eq, bi_from_bytes_be, bi_from_u64, bi_lt, bi_mod_floor, bi_mod_inverse, bi_modpow,
    bi_mul, bi_pow_usize, bi_sub, bi_to_bytes_be, bint, rng_below, rng_from_entropy, sha256,
    sha256_of,
};
use crate::keys::{RSAThresholdPrivateKey, RSAThresholdPublicKey};

/// The message representative `x`: the SHA-256 digest of the message as
/// an unsigned big-endian integer, reduced modulo `n`.
pub open spec fn msg_rep(msg: Seq<u8>, n: int) -> int {
    be_int(sha256_of(msg)) % n
}

/// The raw byte string hashed for the commitment:
/// `v || x~ || v_i || x_i^2 || v' || x'`, each operand as unsigned
/// big-endian bytes with no length prefix and no separator.
pub open spec fn commit_bytes(v: int, xt: int, vi: int, xi2: int, vp: int, xp: int) -> Seq<u8> {
    min_be_bytes(v) + min_be_bytes(xt) + min_be_bytes(vi) + min_be_bytes(xi2) + min_be_bytes(vp)
        + min_be_bytes(xp)
}

/// The commitment challenge `c`: the digest of `commit_bytes`, read as
/// an unsigned big-endian integer.
pub open spec fn commit_hash(v: int, xt: int, vi: int, xi2: int, vp: int, xp: int) -> int {
    be_int(sha256_of(commit_bytes(v, xt, vi, xi2, vp, xp)))
}

/// The share proof `(x_i, z, c)` checks out against message
/// representative `x`, base `v` and check value `v_i`: both blinded
/// commitments can be unblinded, and hashing them reproduces `c`.
pub open spec fn proof_checks(
    x: int,
    v: int,
    delta: nat,
    xi: int,
    vi: int,
    c: int,
    z: int,
    n: int,
) -> bool {
    let xt = pow(x, 4 * delta);
    &&& c >= 0
    &&& z >= 0
    &&& exists|ya: int, yb: int|
        {
            &&& #[trigger] is_inverse(pow(vi, c as nat) % n, ya, n)
            &&& #[trigger] is_inverse(pow(xi, (2 * c) as nat) % n, yb, n)
            &&& c == commit_hash(
                v,
                xt,
                vi,
                pow(xi, 2) % n,
                ((pow(v, z as nat) % n) * ya) % n,
                ((pow(xt, z as nat) % n) * yb) % n,
            )
        }
}

/// Appends the bytes of `more` to `acc`.
fn append_bytes(acc: &mut Vec<u8>, more: &Vec<u8>)
    ensures
        final(acc)@ == old(acc)@ + more@,
{
    let mut i: usize = 0;
    proof {
        assert(acc@ =~= acc@ + more@.subrange(0, 0));
    }
    while i < more.len()
        invariant
            i <= more@.len(),
            acc@ == old(acc)@ + more@.subrange(0, i as int),
        decreases more@.len() - i,
    {
        acc.push(more[i]);
        proof {
            assert(old(acc)@ + more@.subrange(0, i as int + 1) =~= (old(acc)@ + more@.subrange(
                0,
                i as int,
            )).push(more@[i as int]));
        }
        i = i + 1;
    }
    proof {
        assert(more@.subrange(0, more@.len() as int) =~= more@);
    }
}

/// The commitment bytes of the six operands, in protocol order.
fn build_commitment(
    v: &BigInt,
    xt: &BigInt,
    vi: &BigInt,
    xi2: &BigInt,
    vp: &BigInt,
    xp: &BigInt,
) -> (r: Vec<u8>)
    requires
        bint(*v) >= 0,
        bint(*xt) >= 0,
        bint(*vi) >= 0,
        bint(*xi2) >= 0,
        bint(*vp) >= 0,
        bint(*xp) >= 0,
    ensures
        r@ == commit_bytes(bint(*v), bint(*xt), bint(*vi), bint(*xi2), bint(*vp), bint(*xp)),
{
    let mut out = bi_to_bytes_be(v);
    append_bytes(&mut out, &bi_to_bytes_be(xt));
    append_bytes(&mut out, &bi_to_bytes_be(vi));
    append_bytes(&mut out, &bi_to_bytes_be(xi2));
    append_bytes(&mut out, &bi_to_bytes_be(vp));
    append_bytes(&mut out, &bi_to_bytes_be(xp));
    out
}

/// The proof `(z, c)` of share `xi` was built from the nonce `rr`: the
/// challenge hashes the commitments blinded by `rr`, and the response
/// is `z = s*c + rr` over the integers.
pub open spec fn share_proof_with(
    x: int,
    v: int,
    delta: nat,
    xi: int,
    vi: int,
    c: int,
    z: int,
    s: int,
    rr: int,
    n: int,
) -> bool {
    let xt = pow(x, 4 * delta);
    &&& c == commit_hash(v, xt, vi, pow(xi, 2) % n, pow(v, rr as nat) % n, pow(xt, rr as nat) % n)
    &&& z == s * c + rr
}

/// Some nonce below `2^(bits(n) + 512)` explains the proof `(z, c)` of
/// share `xi`.
pub open spec fn has_valid_nonce(
    x: int,
    v: int,
    delta: nat,
    xi: int,
    vi: int,
    c: int,
    z: int,
    s: int,
    n: int,
) -> bool {
    exists|rr: int|
        0 <= rr < pow(2, (bit_len(n) + 512) as nat) && #[trigger] share_proof_with(
            x,
            v,
            delta,
            xi,
            vi,
            c,
            z,
            s,
            rr,
            n,
        )
}

/// Emits the signature share `x_i = x^{2*delta*s_i} mod n` together with
/// the proof `(z, c)`: the challenge `c` hashes commitments blinded by a
/// fresh nonce `r` below `2^(bits(n) + 512)`, and the response is
/// `z = s_i*c + r` over the integers. The nonce itself stays with the
/// signer: publishing it would let anyone solve `z = s_i*c + r` for the
/// secret share.
pub fn sign_with_share(
    msg: &[u8],
    delta: usize,
    share: &BigInt,
    key: &RSAThresholdPublicKey,
    v: &BigInt,
    vi: &BigInt,
) -> (r: (BigInt, BigInt, BigInt))
    requires
        key.wf(),
        bint(*share) >= 0,
        bint(*v) >= 0,
        bint(*vi) >= 0,
        delta <= usize::MAX / 4,
    ensures
        ({
            let n = bint(key.n);
            let x = msg_rep(msg@, n);
            let xt = pow(x, (4 * delta) as nat);
            &&& bint(r.0) == pow(x, (2 * delta * bint(*share)) as nat) % n
            &&& 0 <= bint(r.0) < n
            &&& bint(r.2) >= 0
            &&& has_valid_nonce(
                x,
                bint(*v),
                delta as nat,
                bint(r.0),
                bint(*vi),
                bint(r.2),
                bint(r.1),
                bint(*share),
                n,
            )
        }),
{
    let digest = sha256(msg);
    let xraw = bi_from_bytes_be(digest.as_slice());
    let x = bi_mod_floor(&xraw, &key.n);
    proof {
        lemma_mod_bound(bint(xraw), bint(key.n));
    }
    let two = bi_from_u64(2);
    let one = bi_from_u64(1);
    let delta_big = bi_from_u64(delta as u64);
    let exponent = bi_mul(&bi_mul(&two, &delta_big), share);
    proof {
        assert(2 * (delta as int) * bint(*share) >= 0) by (nonlinear_arith)
            requires
                delta >= 0,
                bint(*share) >= 0,
        ;
    }
    let xi = bi_modpow(&x, &exponent, &key.n);
    let x_tilde = bi_pow_usize(&x, 4 * delta);
    proof {
        lemma_mod_bound(pow(bint(x), (2 * delta * bint(*share)) as nat), bint(key.n));
        lemma_pow_nonneg(bint(x), (4 * delta) as nat);
    }
    let xi_squared = bi_modpow(&xi, &two, &key.n);
    let n_bits = crate::bigint::bi_bits(&key.n);
    let bound_exp = if n_bits <= usize::MAX - 512 {
        n_bits + 512
    } else {
        usize::MAX
    };
    let bound = bi_sub(&bi_pow_usize(&two, bound_exp), &one);
    proof {
        lemma_pow1(2);
        lemma_pow_increases(2, 1, bound_exp as nat);
        assert(pow(2, bound_exp as nat) >= 2);
    }
    let zero = bi_from_u64(0);
    let mut rng = rng_from_entropy();
    let r_nonce = rng_below(&mut rng, &zero, &bound);
    let v_prime = bi_modpow(v, &r_nonce, &key.n);
    let x_prime = bi_modpow(&x_tilde, &r_nonce, &key.n);
    proof {
        lemma_mod_bound(pow(bint(xi), 2), bint(key.n));
        lemma_mod_bound(pow(bint(*v), bint(r_nonce) as nat), bint(key.n));
        lemma_mod_bound(pow(bint(x_tilde), bint(r_nonce) as nat), bint(key.n));
    }
    let commitment = build_commitment(v, &x_tilde, vi, &xi_squared, &v_prime, &x_prime);
    let challenge_bytes = sha256(commitment.as_slice());
    let c = bi_from_bytes_be(challenge_bytes.as_slice());
    proof {
        lemma_be_int_nonneg(sha256_of(commitment@));
    }
    let z = bi_add(&bi_mul(share, &c), &r_nonce);
    proof {
        let n = bint(key.n);
        let x0 = msg_rep(msg@, n);
        let xt = pow(x0, (4 * delta) as nat);
        let rr = bint(r_nonce);
        lemma_pow2_bounds_give_bit_len(n, n_bits as nat);
        if n_bits <= usize::MAX - 512 {
            assert(bound_exp as nat == bit_len(n) + 512);
        } else {
            lemma_pow_increases(2, bound_exp as nat, bit_len(n) + 512);
        }
        assert(rr < pow(2, (bit_len(n) + 512) as nat));
        assert(bint(x_tilde) == xt);
        assert(bint(c) == commit_hash(
            bint(*v),
            xt,
            bint(*vi),
            pow(bint(xi), 2) % n,
            pow(bint(*v), rr as nat) % n,
            pow(xt, rr as nat) % n,
        ));
        assert(bint(z) == bint(*share) * bint(c) + rr);
        assert(share_proof_with(x0, bint(*v), delta as nat, bint(xi), bint(*vi), bint(c), bint(z),
            bint(*share), rr, n));
        assert(exists|rr2: int|
            0 <= rr2 < pow(2, (bit_len(n) + 512) as nat) && #[trigger] share_proof_with(
                x0,
                bint(*v),
                delta as nat,
                bint(xi),
                bint(*vi),
                bint(c),
                bint(z),
                bint(*share),
                rr2,
                n,
            ));
        assert(has_valid_nonce(x0, bint(*v), delta as nat, bint(xi), bint(*vi), bint(c), bint(z),
            bint(*share), n));
    }
    (xi, z, c)
}

/// Checks the proof `(z, c)` of the signature share `x_i` against the
/// public verification data: recomputes both commitments from `z`, `c`
/// and the public values, and compares their hash with `c`. Returns
/// false, rather than failing, when a recomputed commitment cannot be
/// unblinded.
pub fn verify_proof(
    msg: &[u8],
    v: &BigInt,
    delta: usize,
    xi: &BigInt,
    vi: &BigInt,
    c: &BigInt,
    z: &BigInt,
    key: &RSAThresholdPublicKey,
) -> (r: bool)
    requires
        key.wf(),
        bint(*v) >= 0,
        bint(*vi) >= 0,
        bint(*xi) >= 0,
        delta <= usize::MAX / 4,
    ensures
        r == proof_checks(
            msg_rep(msg@, bint(key.n)),
            bint(*v),
            delta as nat,
            bint(*xi),
            bint(*vi),
            bint(*c),
            bint(*z),
            bint(key.n),
        ),
{
    let ghost n = bint(key.n);
    let ghost x0 = msg_rep(msg@, n);
    let zero = bi_from_u64(0);
    if bi_lt(c, &zero) || bi_lt(z, &zero) {
        return false;
    }
    let digest = sha256(msg);
    let xraw = bi_from_bytes_be(digest.as_slice());
    let x = bi_mod_floor(&xraw, &key.n);
    let two = bi_from_u64(2);
    let x_tilde = bi_pow_usize(&x, 4 * delta);
    proof {
        lemma_mod_bound(bint(xraw), n);
        lemma_pow_nonneg(bint(x), (4 * delta) as nat);
    }
    let xi_squared = bi_modpow(xi, &two, &key.n);
    let vi_c = bi_modpow(vi, c, &key.n);
    let inv_vi_c = match bi_mod_inverse(&vi_c, &key.n) {
        Some(y) => y,
        None => {
            proof {
                assert(!proof_checks(x0, bint(*v), delta as nat, bint(*xi), bint(*vi), bint(*c),
                    bint(*z), n));
            }
            return false;
        },
    };
    let c2 = bi_mul(&two, c);
    let xi_2c = bi_modpow(xi, &c2, &key.n);
    let inv_xi_2c = match bi_mod_inverse(&xi_2c, &key.n) {
        Some(y) => y,
        None => {
            proof {
                assert(!proof_checks(x0, bint(*v), delta as nat, bint(*xi), bint(*vi), bint(*c),
                    bint(*z), n));
            }
            return false;
        },
    };
    let a_val = bi_mod_floor(&bi_mul(&bi_modpow(v, z, &key.n), &inv_vi_c), &key.n);
    let b_val = bi_mod_floor(&bi_mul(&bi_modpow(&x_tilde, z, &key.n), &inv_xi_2c), &key.n);
    proof {
        lemma_mod_bound(pow(bint(*xi), 2), n);
        lemma_mod_bound((pow(bint(*v), bint(*z) as nat) % n) * bint(inv_vi_c), n);
        lemma_mod_bound((pow(bint(x_tilde), bint(*z) as nat) % n) * bint(inv_xi_2c), n);
    }
    let commitment = build_commitment(v, &x_tilde, vi, &xi_squared, &a_val, &b_val);
    let challenge_bytes = sha256(commitment.as_slice());
    let c_check = bi_from_bytes_be(challenge_bytes.as_slice());
    let result = bi_eq(c, &c_check);
    proof {
        let ya = bint(inv_vi_c);
        let yb = bint(inv_xi_2c);
        let cc = bint(*c);
        let zz = bint(*z);
        let xt = pow(x0, 4 * (delta as nat));
        assert(bint(x_tilde) == xt);
        if result {
            assert(is_inverse(pow(bint(*vi), cc as nat) % n, ya, n));
            assert(is_inverse(pow(bint(*xi), (2 * cc) as nat) % n, yb, n));
            assert(cc == commit_hash(
                bint(*v),
                xt,
                bint(*vi),
                pow(bint(*xi), 2) % n,
                ((pow(bint(*v), zz as nat) % n) * ya) % n,
                ((pow(xt, zz as nat) % n) * yb) % n,
            ));
            assert(proof_checks(x0, bint(*v), delta as nat, bint(*xi), bint(*vi), cc, zz, n));
        } else {
            if proof_checks(x0, bint(*v), delta as nat, bint(*xi), bint(*vi), cc, zz, n) {
                let (ya2, yb2) = choose|ya2: int, yb2: int|
                    {
                        &&& #[trigger] is_inverse(pow(bint(*vi), cc as nat) % n, ya2, n)
                        &&& #[trigger] is_inverse(pow(bint(*xi), (2 * cc) as nat) % n, yb2, n)
                        &&& cc == commit_hash(
                            bint(*v),
                            xt,
                            bint(*vi),
                            pow(bint(*xi), 2) % n,
                            ((pow(bint(*v), zz as nat) % n) * ya2) % n,
                            ((pow(xt, zz as nat) % n) * yb2) % n,
                        )
                    };
                lemma_inverse_unique(pow(bint(*vi), cc as nat) % n, ya2, ya, n);
                lemma_inverse_unique(pow(bint(*xi), (2 * cc) as nat) % n, yb2, yb, n);
                assert(cc == bint(c_check));
            }
        }
    }
    result
}

/// The RSA check for a completed signature: `y^e mod n` must equal the
/// message representative.
pub fn verify_signature(msg: &[u8], signature: &BigInt, key: &RSAThresholdPublicKey) -> (r: bool)
    requires
        key.wf(),
        bint(*signature) >= 0,
    ensures
        r == (pow(bint(*signature), bint(key.e) as nat) % bint(key.n) == msg_rep(
            msg@,
            bint(key.n),
        )),
{
    let digest = sha256(msg);
    let xraw = bi_from_bytes_be(digest.as_slice());
    let x = bi_mod_floor(&xraw, &key.n);
    let lifted = bi_modpow(signature, &key.e, &key.n);
    bi_eq(&lifted, &x)
}

/// The monolithic RSA signature `x^d mod n`, computed with the whole
/// private key; the threshold result must coincide with it.
pub fn regular_signature(msg: &[u8], key: &RSAThresholdPrivateKey) -> (r: BigInt)
    requires
        key.wf(),
    ensures
        bint(r) == pow(
            msg_rep(msg@, bint(key.p) * bint(key.q)),
            bint(key.d) as nat,
        ) % (bint(key.p) * bint(key.q)),
{
    let modulus = bi_mul(&key.p, &key.q);
    proof {
        assert(bint(key.p) * bint(key.q) > 0) by (nonlinear_arith)
            requires
                bint(key.p) > 2,
                bint(key.q) > 2,
        ;
    }
    let digest = sha256(msg);
    let xraw = bi_from_bytes_be(digest.as_slice());
    let x = bi_mod_floor(&xraw, &modulus);
    proof {
        lemma_mod_bound(bint(xraw), bint(key.p) * bint(key.q));
    }
    bi_modpow(&x, &key.d, &modulus)
}

/// Splitting an exponent sum under a modulus: `b^(sc+r) mod n` is the
/// product of `b^r mod n` and `b^sc mod n`, modulo `n`.
proof fn lemma_split_exponent(base: int, sc: int, rr: int, n: int)
    requires
        n > 1,
        sc >= 0,
        rr >= 0,
    ensures
        pow(base, (sc + rr) as nat) % n == ((pow(base, rr as nat) % n) * (pow(base, sc as nat) % n))
            % n,
{
    lemma_pow_adds(base, sc as nat, rr as nat);
    lemma_mul_mod_noop_general(pow(base, rr as nat), pow(base, sc as nat), n);
    assert(pow(base, sc as nat) * pow(base, rr as nat) == pow(base, rr as nat) * pow(
        base,
        sc as nat,
    )) by (nonlinear_arith);
}

/// Multiplying `(R*B) mod n` by an inverse of `B` gives back `R`.
proof fn lemma_cancel_factor(cr: int, cb: int, y: int, n: int)
    requires
        n > 1,
        0 <= cr < n,
        is_inverse(cb, y, n),
    ensures
        (((cr * cb) % n) * y) % n == cr,
{
    lemma_mul_mod_noop_left(cr * cb, y, n);
    assert((cr * cb) * y == cr * (cb * y)) by (nonlinear_arith);
    lemma_mul_mod_noop_right(cr, cb * y, n);
    lemma_small_mod(cr as nat, n as nat);
}

/// An honestly computed signature share always passes proof
/// verification: for any key with modulus `n > 1`, any message
/// representative `x` and base `v` coprime to `n`, any share
/// exponent `s`, and any nonce `r`, the challenge hashed over
/// `v^r mod n` and `x~^r mod n` together with the response `z = s*c + r`
/// satisfies the combiner's check of the share `x^(2*delta*s) mod n`
/// against the check value `v^s mod n`.
pub proof fn lemma_honest_share_verifies(
    x: int,
    v: int,
    delta: nat,
    s: int,
    c: int,
    rr: int,
    n: int,
)
    requires
        n > 1,
        s >= 0,
        c >= 0,
        rr >= 0,
        0 <= x,
        0 <= v,
        crate::arith::gcd_int(x as nat, n as nat) == 1,
        crate::arith::gcd_int(v as nat, n as nat) == 1,
        c == commit_hash(
            v,
            pow(x, 4 * delta),
            pow(v, s as nat) % n,
            pow(pow(x, (2 * delta * s) as nat) % n, 2) % n,
            pow(v, rr as nat) % n,
            pow(pow(x, 4 * delta), rr as nat) % n,
        ),
    ensures
        proof_checks(
            x,
            v,
            delta,
            pow(x, (2 * delta * s) as nat) % n,
            pow(v, s as nat) % n,
            c,
            s * c + rr,
            n,
        ),
{
    crate::arith::lemma_coprime_invertible(x, n);
    crate::arith::lemma_coprime_invertible(v, n);
    let xt = pow(x, 4 * delta);
    let vi = pow(v, s as nat) % n;
    let xi = pow(x, (2 * delta * s) as nat) % n;
    let z = s * c + rr;
    assert(s * c >= 0) by (nonlinear_arith)
        requires
            s >= 0,
            c >= 0,
    ;

    // The v-side blinding base equals v^(s*c) mod n.
    lemma_pow_mod_noop(pow(v, s as nat), c as nat, n);
    lemma_pow_multiplies(v, s as nat, c as nat);
    assert((s as nat) * (c as nat) == (s * c) as nat) by (nonlinear_arith)
        requires
            s >= 0,
            c >= 0,
    ;
    let bv = pow(vi, c as nat) % n;
    assert(bv == pow(v, (s * c) as nat) % n);

    // The x-side blinding base equals xt^(s*c) mod n.
    lemma_pow_mod_noop(pow(x, (2 * delta * s) as nat), (2 * c) as nat, n);
    lemma_pow_multiplies(x, (2 * delta * s) as nat, (2 * c) as nat);
    assert(((2 * delta * s) as nat) * ((2 * c) as nat) == ((4 * delta) * (s * c)) as nat)
        by (nonlinear_arith)
        requires
            delta >= 0,
            s >= 0,
            c >= 0,
    ;
    lemma_pow_multiplies(x, 4 * delta, (s * c) as nat);
    let bx = pow(xi, (2 * c) as nat) % n;
    assert(bx == pow(xt, (s * c) as nat) % n);

    // Both blinding bases are invertible.
    lemma_invertible_pow(v, (s * c) as nat, n);
    vstd::arithmetic::power::lemma_pow_multiplies(x, 4 * delta, (s * c) as nat);
    lemma_invertible_pow(x, (4 * delta) * ((s * c) as nat), n);
    assert(invertible(bv, n));
    assert(invertible(bx, n)) by {
        assert(pow(x, (4 * delta) * ((s * c) as nat)) == pow(xt, (s * c) as nat));
    }
    let ya = choose|y: int| #[trigger] is_inverse(bv, y, n);
    let yb = choose|y: int| #[trigger] is_inverse(bx, y, n);

    // Unblinding the v-side commitment recovers v^r mod n.
    lemma_split_exponent(v, s * c, rr, n);
    lemma_mod_bound(pow(v, rr as nat), n);
    lemma_cancel_factor(pow(v, rr as nat) % n, bv, ya, n);
    lemma_mul_mod_noop_left(pow(v, rr as nat) % n * bv, ya, n);
    lemma_mul_mod_noop_left(pow(v, (s * c + rr) as nat), ya, n);
    assert(((pow(v, z as nat) % n) * ya) % n == pow(v, rr as nat) % n) by {
        assert(pow(v, z as nat) % n == ((pow(v, rr as nat) % n) * bv) % n);
    }

    // Unblinding the x-side commitment recovers xt^r mod n.
    lemma_split_exponent(xt, s * c, rr, n);
    lemma_mod_bound(pow(xt, rr as nat), n);
    lemma_cancel_factor(pow(xt, rr as nat) % n, bx, yb, n);
    assert(((pow(xt, z as nat) % n) * yb) % n == pow(xt, rr as nat) % n) by {
        assert(pow(xt, z as nat) % n == ((pow(xt, rr as nat) % n) * bx) % n);
    }

    assert(is_inverse(pow(vi, c as nat) % n, ya, n));
    assert(is_inverse(pow(xi, (2 * c) as nat) % n, yb, n));
    assert(c == commit_hash(
        v,
        xt,
        vi,
        pow(xi, 2) % n,
        ((pow(v, z as nat) % n) * ya) % n,
        ((pow(xt, z as nat) % n) * yb) % n,
    ));
}

} // verus!
