//! Combining verified signature shares: Lagrange interpolation in the
//! exponent, scaled by `delta = l!`, followed by the Bezout correction
//! that turns `w` with `w^e = x^(4*delta^2)` into `y` with `y^e = x`.
use vstd::prelude::*;

verus! {

use num_bigint_dig::BigInt;
use vstd::arithmetic::power::{
    lemma1_pow, lemma_pow1, lemma_pow_adds, lemma_pow_distributes, lemma_pow_mod_noop,
    lemma_pow_multiplies, pow,
};
use vstd::arithmetic::div_mod::{
    lemma_div_basics, lemma_mod_bound, lemma_mul_mod_noop_general, lemma_mul_mod_noop_left,
    lemma_mul_mod_noop_right, lemma_small_mod,
};
use crate::arith::{
    be_int, gcd_int, invertible, is_inverse, is_pow_signed, lemma_inverse_invertible,
    lemma_inverse_unique, lemma_invertible_mod, lemma_invertible_mul, lemma_invertible_pow,
};
use crate::bigint::{
    bi_div_floor, bi_eq, bi_extended_gcd, bi_from_bytes_be, bi_from_u64, bi_lt, bi_mod_floor,
    bi_mod_inverse, bi_modpow, bi_mul, bi_neg, bi_sub, bint, ints_of, sha256,
};
use crate::keys::RSAThresholdPublicKey;
use crate::sign::msg_rep;

#[derive(Debug, PartialEq, Eq, Structural)]
pub enum CombineError {
    InsufficientShares,
    NoInverse,
}

/// The integer values of a sequence of indices.
pub open spec fn idx_ints(s: Seq<usize>) -> Seq<int> {
    s.map_values(|u: usize| u as int)
}

/// The product of `(i - j')` over the entries `j'` of `s`, skipping the
/// entries equal to `j`.
pub open spec fn prod_excl(i: int, s: Seq<int>, j: int) -> int
    decreases s.len(),
{
    if s.len() == 0 {
        1
    } else {
        prod_excl(i, s.drop_last(), j) * (if s.last() == j {
            1
        } else {
            i - s.last()
        })
    }
}

/// The Lagrange coefficient at `i` for index `j` of the subset `s`,
/// scaled by `delta`: `delta * prod(i - j') / prod(j - j')`, with the
/// division carried out on a positive divisor.
pub open spec fn lambda_spec(delta: int, i: int, j: int, s: Seq<int>) -> int {
    let num = delta * prod_excl(i, s, j);
    let den = prod_excl(j, s, j);
    if den == 0 {
        0
    } else if den < 0 {
        (-num) / (-den)
    } else {
        num / den
    }
}

/// The divisor of a Lagrange coefficient never vanishes: every factor
/// `j - j'` with `j' != j` is non-zero.
pub proof fn lemma_lagrange_den_nonzero(s: Seq<int>, j: int)
    ensures
        prod_excl(j, s, j) != 0,
    decreases s.len(),
{
    if s.len() > 0 {
        lemma_lagrange_den_nonzero(s.drop_last(), j);
        let f: int = if s.last() == j {
            1
        } else {
            j - s.last()
        };
        assert(prod_excl(j, s.drop_last(), j) * f != 0) by (nonlinear_arith)
            requires
                prod_excl(j, s.drop_last(), j) != 0,
                f != 0,
        ;
    }
}

/// `b` raised to the (possibly negative) exponent `e` modulo `n`: for a
/// negative exponent, the inverse of `b^(-e) mod n` when one exists.
pub open spec fn pow_signed_val(b: int, e: int, n: int) -> int {
    if e >= 0 {
        pow(b, e as nat) % n
    } else {
        choose|y: int| #[trigger] is_inverse(pow(b, (-e) as nat) % n, y, n)
    }
}

/// Any witness of `is_pow_signed` equals `pow_signed_val`: the signed
/// modular power is unique when it exists.
pub proof fn lemma_pow_signed_eq(b: int, e: int, n: int, r: int)
    requires
        n > 1,
        is_pow_signed(b, e, n, r),
    ensures
        r == pow_signed_val(b, e, n),
{
    if e < 0 {
        assert(is_inverse(pow(b, (-e) as nat) % n, r, n));
        let y = choose|y: int| #[trigger] is_inverse(pow(b, (-e) as nat) % n, y, n);
        lemma_inverse_unique(pow(b, (-e) as nat) % n, r, y, n);
    }
}

/// The product of the first `upto` shares, each raised to twice its
/// scaled Lagrange coefficient modulo `n` (a negative exponent meaning
/// the inverse of the positive power).
pub open spec fn combined_product_val(
    shares: Seq<int>,
    subset: Seq<int>,
    delta: int,
    n: int,
    upto: int,
) -> int
    decreases upto,
{
    if upto <= 0 {
        1
    } else {
        combined_product_val(shares, subset, delta, n, upto - 1) * pow_signed_val(
            shares[upto - 1],
            2 * lambda_spec(delta, 0, subset[upto - 1], subset),
            n,
        )
    }
}

/// `y` is `w^aa * x^bb mod n` for the Lagrange product `w` of the
/// shares reduced modulo `n`, where `(aa, bb)` is a Bezout pair for
/// `(4*delta^2, e)` and `w^e = x^(4*delta^2) mod n`; both signed powers
/// exist.
pub open spec fn combined_sig_with(
    shares: Seq<int>,
    subset: Seq<int>,
    delta: int,
    x: int,
    e: int,
    n: int,
    y: int,
    aa: int,
    bb: int,
) -> bool {
    let ep = 4 * delta * delta;
    let wr = combined_product_val(shares, subset, delta, n, shares.len() as int) % n;
    &&& aa * ep + bb * e == 1
    &&& pow(wr, e as nat) % n == pow(x, ep as nat) % n
    &&& is_pow_signed(wr, aa, n, pow_signed_val(wr, aa, n))
    &&& is_pow_signed(x, bb, n, pow_signed_val(x, bb, n))
    &&& y == (pow_signed_val(wr, aa, n) * pow_signed_val(x, bb, n)) % n
}

/// The signed power of an invertible element is invertible.
proof fn lemma_psv_invertible(b: int, e: int, n: int)
    requires
        n > 1,
        invertible(b, n),
    ensures
        invertible(pow_signed_val(b, e, n), n),
{
    if e >= 0 {
        lemma_invertible_pow(b, e as nat, n);
    } else {
        lemma_invertible_pow(b, (-e) as nat, n);
        let y = choose|y: int| #[trigger] is_inverse(pow(b, (-e) as nat) % n, y, n);
        lemma_inverse_invertible(pow(b, (-e) as nat) % n, y, n);
        assert(pow_signed_val(b, e, n) == y);
    }
}

/// A combined product over invertible shares is invertible, reduced or
/// not.
proof fn lemma_combined_product_invertible(
    shares: Seq<int>,
    subset: Seq<int>,
    delta: int,
    n: int,
    upto: int,
)
    requires
        n > 1,
        forall|i: int| 0 <= i < upto ==> #[trigger] invertible(shares[i], n),
    ensures
        invertible(combined_product_val(shares, subset, delta, n, upto), n),
        invertible(combined_product_val(shares, subset, delta, n, upto) % n, n),
    decreases upto,
{
    if upto <= 0 {
        vstd::arithmetic::div_mod::lemma_small_mod(1nat, n as nat);
        assert(is_inverse(1, 1, n));
    } else {
        lemma_combined_product_invertible(shares, subset, delta, n, upto - 1);
        let ee = 2 * lambda_spec(delta, 0, subset[upto - 1], subset);
        lemma_psv_invertible(shares[upto - 1], ee, n);
        lemma_invertible_mul(
            combined_product_val(shares, subset, delta, n, upto - 1),
            pow_signed_val(shares[upto - 1], ee, n),
            n,
        );
    }
    lemma_invertible_mod(combined_product_val(shares, subset, delta, n, upto), n);
}

/// Inputs on which combination is owed to succeed: at least `k` shares,
/// `4*delta^2` coprime to `e`, every share and the message
/// representative invertible modulo `n`, and the combined product
/// lifting to `x^(4*delta^2)` -- all of which hold of honest shares of
/// a well-formed key.
pub open spec fn combine_succeeds(
    shares: Seq<int>,
    subset: Seq<int>,
    delta: int,
    x: int,
    e: int,
    n: int,
    k: int,
) -> bool {
    let wr = combined_product_val(shares, subset, delta, n, shares.len() as int) % n;
    &&& shares.len() >= k
    &&& gcd_int((4 * delta * delta) as nat, e as nat) == 1
    &&& (forall|i: int| 0 <= i < shares.len() ==> #[trigger] invertible(shares[i], n))
    &&& invertible(x, n)
    &&& pow(wr, e as nat) % n == pow(x, (4 * delta * delta) as nat) % n
}

/// `y` is a combined signature for message representative `x`, for some
/// Bezout pair of `(4*delta^2, e)`.
pub open spec fn is_combined_signature(
    shares: Seq<int>,
    subset: Seq<int>,
    delta: int,
    x: int,
    e: int,
    n: int,
    y: int,
) -> bool {
    exists|aa: int, bb: int| #[trigger] combined_sig_with(shares, subset, delta, x, e, n, y, aa, bb)
}

/// The Lagrange coefficient at `i`, scaled by `delta`, for index `j`
/// of the caller-chosen subset; `l` is carried along as in the protocol
/// description but does not enter the computation.
pub fn lambda(delta: usize, i: usize, j: usize, l: usize, subset: &Vec<usize>) -> (r: BigInt)
    ensures
        bint(r) == lambda_spec(delta as int, i as int, j as int, idx_ints(subset@)),
{
    let i_big = bi_from_u64(i as u64);
    let j_big = bi_from_u64(j as u64);
    let delta_big = bi_from_u64(delta as u64);
    let zero = bi_from_u64(0);
    let mut num = bi_from_u64(1);
    let mut den = bi_from_u64(1);
    let mut t: usize = 0;
    proof {
        assert(idx_ints(subset@).subrange(0, 0) =~= Seq::<int>::empty());
    }
    while t < subset.len()
        invariant
            t <= subset@.len(),
            bint(i_big) == i as int,
            bint(j_big) == j as int,
            bint(num) == prod_excl(i as int, idx_ints(subset@).subrange(0, t as int), j as int),
            bint(den) == prod_excl(j as int, idx_ints(subset@).subrange(0, t as int), j as int),
        decreases subset@.len() - t,
    {
        let el = subset[t];
        proof {
            let s = idx_ints(subset@);
            assert(s.subrange(0, t + 1).drop_last() =~= s.subrange(0, t as int));
            assert(s.subrange(0, t + 1).last() == s[t as int]);
            assert(s[t as int] == subset@[t as int] as int);
        }
        if el != j {
            let el_big = bi_from_u64(el as u64);
            num = bi_mul(&num, &bi_sub(&i_big, &el_big));
            den = bi_mul(&den, &bi_sub(&j_big, &el_big));
        }
        t = t + 1;
    }
    proof {
        assert(idx_ints(subset@).subrange(0, subset@.len() as int) =~= idx_ints(subset@));
        lemma_lagrange_den_nonzero(idx_ints(subset@), j as int);
    }
    let mut scaled = bi_mul(&delta_big, &num);
    if bi_lt(&den, &zero) {
        scaled = bi_neg(&scaled);
        den = bi_neg(&den);
    }
    bi_div_floor(&scaled, &den)
}

/// Combines at least `k` verified signature shares into the RSA
/// signature `y = w^a * x^b mod n`. The caller names, in `subset`, the
/// one-based index of the shareholder behind each share, in the same
/// order as `shares`; `NoInverse` reports an inversion, Bezout or
/// consistency step that failed, which under honest inputs cannot
/// happen.
pub fn combine_shares(
    msg: &[u8],
    delta: usize,
    shares: &Vec<BigInt>,
    subset: &Vec<usize>,
    key: &RSAThresholdPublicKey,
    l: usize,
    k: usize,
) -> (r: Result<BigInt, CombineError>)
    requires
        key.wf(),
        delta >= 1,
        subset@.len() == shares@.len(),
        forall|i: int| 0 <= i < shares@.len() ==> #[trigger] bint(shares@[i]) >= 0,
    ensures
        (r matches Err(e) && e is InsufficientShares) <==> shares@.len() < k,
        r matches Ok(y) ==> is_combined_signature(
            ints_of(shares@),
            idx_ints(subset@),
            delta as int,
            msg_rep(msg@, bint(key.n)),
            bint(key.e),
            bint(key.n),
            bint(y),
        ),
        r matches Ok(y) ==> pow(bint(y), bint(key.e) as nat) % bint(key.n) == msg_rep(
            msg@,
            bint(key.n),
        ),
        r matches Ok(y) ==> 0 <= bint(y) < bint(key.n),
        combine_succeeds(
            ints_of(shares@),
            idx_ints(subset@),
            delta as int,
            msg_rep(msg@, bint(key.n)),
            bint(key.e),
            bint(key.n),
            k as int,
        ) ==> r is Ok,
{
    if shares.len() < k {
        return Err(CombineError::InsufficientShares);
    }
    let ghost n = bint(key.n);
    let ghost sh = ints_of(shares@);
    let ghost su = idx_ints(subset@);
    let digest = sha256(msg);
    let xraw = bi_from_bytes_be(digest.as_slice());
    let x = bi_mod_floor(&xraw, &key.n);
    let zero = bi_from_u64(0);
    let one = bi_from_u64(1);
    let two = bi_from_u64(2);
    let mut w = bi_from_u64(1);
    let mut ik: usize = 0;
    while ik < shares.len()
        invariant
            key.wf(),
            n == bint(key.n),
            sh == ints_of(shares@),
            su == idx_ints(subset@),
            subset@.len() == shares@.len(),
            k <= shares@.len(),
            ik <= shares@.len(),
            forall|t: int| 0 <= t < shares@.len() ==> #[trigger] bint(shares@[t]) >= 0,
            bint(zero) == 0,
            bint(two) == 2,
            delta >= 1,
            bint(w) == combined_product_val(sh, su, delta as int, n, ik as int),
        decreases shares@.len() - ik,
    {
        let lam = lambda(delta, 0, subset[ik], l, subset);
        let exp2 = bi_mul(&two, &lam);
        let ghost ee = 2 * lambda_spec(delta as int, 0, su[ik as int], su);
        proof {
            assert(su[ik as int] == subset@[ik as int] as int);
            assert(bint(exp2) == ee);
        }
        let factor = if bi_lt(&exp2, &zero) {
            let pos = bi_modpow(&shares[ik], &bi_neg(&exp2), &key.n);
            match bi_mod_inverse(&pos, &key.n) {
                Some(f) => f,
                None => {
                    proof {
                        assert(sh[ik as int] == bint(shares@[ik as int]));
                        if combine_succeeds(sh, su, delta as int, msg_rep(msg@, n), bint(key.e), n,
                            k as int) {
                            lemma_invertible_pow(sh[ik as int], (-ee) as nat, n);
                        }
                    }
                    return Err(CombineError::NoInverse)
                },
            }
        } else {
            bi_modpow(&shares[ik], &exp2, &key.n)
        };
        proof {
            assert(sh[ik as int] == bint(shares@[ik as int]));
            assert(is_pow_signed(sh[ik as int], ee, n, bint(factor)));
            lemma_pow_signed_eq(sh[ik as int], ee, n, bint(factor));
        }
        w = bi_mul(&w, &factor);
        proof {
            assert(combined_product_val(sh, su, delta as int, n, ik + 1)
                == combined_product_val(sh, su, delta as int, n, ik as int) * pow_signed_val(
                sh[ik as int],
                ee,
                n,
            ));
        }
        ik = ik + 1;
    }
    let w_red = bi_mod_floor(&w, &key.n);
    proof {
        lemma_mod_bound(bint(w), n);
        lemma_mod_bound(be_int(crate::bigint::sha256_of(msg@)), n);
    }
    let delta_big = bi_from_u64(delta as u64);
    let four = bi_from_u64(4);
    let e_prime = bi_mul(&four, &bi_mul(&delta_big, &delta_big));
    proof {
        assert(4 * ((delta as int) * (delta as int)) > 0) by (nonlinear_arith)
            requires
                delta >= 1,
        ;
    }
    let (g, aa, bb) = bi_extended_gcd(&e_prime, &key.e);
    let ghost succeeds = combine_succeeds(
        sh,
        su,
        delta as int,
        msg_rep(msg@, n),
        bint(key.e),
        n,
        k as int,
    );
    proof {
        assert(4 * ((delta as int) * (delta as int)) == 4 * (delta as int) * (delta as int))
            by (nonlinear_arith);
    }
    if !bi_eq(&g, &one) {
        proof {
            assert(!succeeds);
        }
        return Err(CombineError::NoInverse);
    }
    let we = bi_modpow(&w_red, &key.e, &key.n);
    let xe = bi_modpow(&x, &e_prime, &key.n);
    if !bi_eq(&we, &xe) {
        proof {
            assert(!succeeds);
        }
        return Err(CombineError::NoInverse);
    }
    let first = if bi_lt(&aa, &zero) {
        let pos = bi_modpow(&w_red, &bi_neg(&aa), &key.n);
        match bi_mod_inverse(&pos, &key.n) {
            Some(f) => f,
            None => {
                proof {
                    if succeeds {
                        lemma_combined_product_invertible(sh, su, delta as int, n, sh.len() as int);
                        lemma_invertible_pow(bint(w_red), (-bint(aa)) as nat, n);
                    }
                }
                return Err(CombineError::NoInverse)
            },
        }
    } else {
        bi_modpow(&w_red, &aa, &key.n)
    };
    let second = if bi_lt(&bb, &zero) {
        let pos = bi_modpow(&x, &bi_neg(&bb), &key.n);
        match bi_mod_inverse(&pos, &key.n) {
            Some(f) => f,
            None => {
                proof {
                    if succeeds {
                        lemma_invertible_pow(bint(x), (-bint(bb)) as nat, n);
                    }
                }
                return Err(CombineError::NoInverse)
            },
        }
    } else {
        bi_modpow(&x, &bb, &key.n)
    };
    let y = bi_mod_floor(&bi_mul(&first, &second), &key.n);
    proof {
        lemma_mod_bound(bint(first) * bint(second), n);
        let dd = delta as int;
        let ep = 4 * dd * dd;
        assert(4 * dd * dd == 4 * (dd * dd)) by (nonlinear_arith);
        let wrv = combined_product_val(sh, su, dd, n, sh.len() as int) % n;
        assert(sh.len() == shares@.len());
        assert(bint(w_red) == wrv);
        assert(is_pow_signed(wrv, bint(aa), n, bint(first)));
        assert(is_pow_signed(bint(x), bint(bb), n, bint(second)));
        lemma_pow_signed_eq(wrv, bint(aa), n, bint(first));
        lemma_pow_signed_eq(bint(x), bint(bb), n, bint(second));
        assert(combined_sig_with(sh, su, dd, msg_rep(msg@, n), bint(key.e), n, bint(y), bint(aa),
            bint(bb)));
        lemma_mod_bound(be_int(crate::bigint::sha256_of(msg@)), n);
        lemma_combined_signature_verifies(sh, su, dd, msg_rep(msg@, n), bint(key.e), n, bint(y));
    }
    Ok(y)
}

/// Raising an inverse to a power gives the inverse of the power.
proof fn lemma_inverse_pow_e(av: int, yy: int, e: nat, n: int)
    requires
        n > 1,
        is_inverse(av, yy, n),
    ensures
        is_inverse(pow(av, e) % n, pow(yy, e) % n, n),
{
    lemma_pow_distributes(av, yy, e);
    lemma_mul_mod_noop_general(pow(av, e), pow(yy, e), n);
    lemma_pow_mod_noop(av * yy, e, n);
    lemma1_pow(e);
    lemma_small_mod(1nat, n as nat);
    lemma_mod_bound(pow(yy, e), n);
    lemma_mod_bound(pow(av, e), n);
}

/// Lifting a signed power through the public exponent: if
/// `wr^e = x^ep mod n`, then the signed power `wr^s mod n`, raised to
/// `e`, is the signed power `x^(s*ep) mod n`.
proof fn lemma_signed_power_lift(wr: int, x: int, s_exp: int, ep: int, e: int, n: int, f: int)
    requires
        n > 1,
        e >= 1,
        ep >= 1,
        pow(wr, e as nat) % n == pow(x, ep as nat) % n,
        is_pow_signed(wr, s_exp, n, f),
    ensures
        is_pow_signed(x, s_exp * ep, n, pow(f, e as nat) % n),
{
    if s_exp >= 0 {
        lemma_pow_mod_noop(pow(wr, s_exp as nat), e as nat, n);
        lemma_pow_multiplies(wr, s_exp as nat, e as nat);
        lemma_pow_multiplies(wr, e as nat, s_exp as nat);
        lemma_pow_mod_noop(pow(wr, e as nat), s_exp as nat, n);
        lemma_pow_mod_noop(pow(x, ep as nat), s_exp as nat, n);
        lemma_pow_multiplies(x, ep as nat, s_exp as nat);
        assert((s_exp * ep) as nat == (ep as nat) * (s_exp as nat)) by (nonlinear_arith)
            requires
                s_exp >= 0,
                ep >= 1,
        ;
        assert(pow(f, e as nat) % n == pow(x, (s_exp * ep) as nat) % n);
    } else {
        let m_exp = -s_exp;
        lemma_inverse_pow_e(pow(wr, m_exp as nat) % n, f, e as nat, n);
        lemma_pow_mod_noop(pow(wr, m_exp as nat), e as nat, n);
        lemma_pow_multiplies(wr, m_exp as nat, e as nat);
        lemma_pow_multiplies(wr, e as nat, m_exp as nat);
        lemma_pow_mod_noop(pow(wr, e as nat), m_exp as nat, n);
        lemma_pow_mod_noop(pow(x, ep as nat), m_exp as nat, n);
        lemma_pow_multiplies(x, ep as nat, m_exp as nat);
        assert((-(s_exp * ep)) as nat == (ep as nat) * (m_exp as nat)) by (nonlinear_arith)
            requires
                s_exp < 0,
                ep >= 1,
                m_exp == -s_exp,
        ;
        assert(s_exp * ep < 0) by (nonlinear_arith)
            requires
                s_exp < 0,
                ep >= 1,
        ;
        assert(is_inverse(pow(x, (-(s_exp * ep)) as nat) % n, pow(f, e as nat) % n, n));
    }
}

/// Signed powers of `x` whose exponents sum to one multiply to `x`
/// modulo `n`.
proof fn lemma_signed_sum_to_one(x: int, u: int, w: int, av: int, bv: int, n: int)
    requires
        n > 1,
        u + w == 1,
        is_pow_signed(x, u, n, av),
        is_pow_signed(x, w, n, bv),
    ensures
        (av * bv) % n == x % n,
{
    if u >= 0 && w >= 0 {
        lemma_mul_mod_noop_general(pow(x, u as nat), pow(x, w as nat), n);
        lemma_pow_adds(x, u as nat, w as nat);
        lemma_pow1(x);
    } else if u < 0 {
        let mu = (-u) as nat;
        lemma_pow_adds(x, mu, 1nat);
        lemma_pow1(x);
        lemma_mul_mod_noop_right(av, pow(x, w as nat), n);
        assert(av * (pow(x, mu) * x) == (av * pow(x, mu)) * x) by (nonlinear_arith);
        lemma_mul_mod_noop_left(av * pow(x, mu), x, n);
        lemma_mul_mod_noop_right(av, pow(x, mu), n);
        assert(av * (pow(x, mu) % n) == (pow(x, mu) % n) * av) by (nonlinear_arith);
        assert((av * pow(x, mu)) % n == 1);
        assert((av * bv) % n == (1 * x) % n);
    } else {
        let mw = (-w) as nat;
        lemma_pow_adds(x, mw, 1nat);
        lemma_pow1(x);
        assert(av * bv == bv * av) by (nonlinear_arith);
        lemma_mul_mod_noop_right(bv, pow(x, u as nat), n);
        assert(bv * (pow(x, mw) * x) == (bv * pow(x, mw)) * x) by (nonlinear_arith);
        lemma_mul_mod_noop_left(bv * pow(x, mw), x, n);
        lemma_mul_mod_noop_right(bv, pow(x, mw), n);
        assert(bv * (pow(x, mw) % n) == (pow(x, mw) % n) * bv) by (nonlinear_arith);
        assert((bv * pow(x, mw)) % n == 1);
        assert((bv * av) % n == (1 * x) % n);
    }
}

/// Every combined signature verifies: for a message representative
/// `x` in `[0, n)`, any `y` with `is_combined_signature` satisfies
/// `y^e mod n == x` -- the Bezout pair turns `w^e = x^(4*delta^2)` into
/// an `e`-th root of `x`.
pub proof fn lemma_combined_signature_verifies(
    shares: Seq<int>,
    subset: Seq<int>,
    delta: int,
    x: int,
    e: int,
    n: int,
    y: int,
)
    requires
        n > 1,
        e >= 1,
        delta >= 1,
        0 <= x < n,
        is_combined_signature(shares, subset, delta, x, e, n, y),
    ensures
        pow(y, e as nat) % n == x,
{
    let (aa, bb) = choose|aa: int, bb: int|
        #[trigger] combined_sig_with(shares, subset, delta, x, e, n, y, aa, bb);
    let ep = 4 * delta * delta;
    assert(4 * delta * delta >= 4) by (nonlinear_arith)
        requires
            delta >= 1,
    ;
    let w = combined_product_val(shares, subset, delta, n, shares.len() as int);
    let wr = w % n;
    let f1 = pow_signed_val(wr, aa, n);
    let f2 = pow_signed_val(x, bb, n);
    lemma_signed_power_lift(wr, x, aa, ep, e, n, f1);
    lemma_signed_power_lift(x, x, bb, e, e, n, f2);
    assert(aa * ep + bb * e == 1);
    assert(aa * ep == ep * aa) by (nonlinear_arith);
    lemma_signed_sum_to_one(x, aa * ep, bb * e, pow(f1, e as nat) % n, pow(f2, e as nat) % n, n);
    lemma_pow_mod_noop(f1 * f2, e as nat, n);
    lemma_pow_distributes(f1, f2, e as nat);
    lemma_mul_mod_noop_general(pow(f1, e as nat), pow(f2, e as nat), n);
    lemma_small_mod(x as nat, n as nat);
}

/// Interpolating a single share reproduces the secret once: for a
/// one-element subset the scaled Lagrange coefficient is `delta`
/// itself.
pub proof fn lemma_lagrange_single(delta: int, j: int)
    ensures
        lambda_spec(delta, 0, j, seq![j]) == delta,
{
    let s = seq![j];
    assert(prod_excl(0, Seq::<int>::empty(), j) == 1);
    assert(prod_excl(j, Seq::<int>::empty(), j) == 1);
    assert(s.drop_last() =~= Seq::<int>::empty());
    assert(s.last() == j);
    assert(prod_excl(0, s, j) == 1);
    assert(prod_excl(j, s, j) == 1);
    lemma_div_basics(delta * 1);
    assert(delta * 1 == delta) by (nonlinear_arith);
}

/// Lagrange interpolation at zero reproduces the secret for the subset
/// `{1, 2, 3}`: the three scaled coefficients sum to `delta`.
pub proof fn lemma_lagrange_triple_sum(delta: int)
    requires
        delta >= 0,
    ensures
        lambda_spec(delta, 0, 1, seq![1, 2, 3]) + lambda_spec(delta, 0, 2, seq![1, 2, 3])
            + lambda_spec(delta, 0, 3, seq![1, 2, 3]) == delta,
{
    let s = seq![1int, 2int, 3int];
    let s2 = seq![1int, 2int];
    let s1 = seq![1int];
    assert(s1.drop_last() =~= Seq::<int>::empty());
    assert(s2.drop_last() =~= s1);
    assert(s.drop_last() =~= s2);
    assert(s1.last() == 1 && s2.last() == 2 && s.last() == 3);
    assert(prod_excl(0, Seq::<int>::empty(), 1) == 1);
    assert(prod_excl(1, Seq::<int>::empty(), 1) == 1);
    assert(prod_excl(0, Seq::<int>::empty(), 2) == 1);
    assert(prod_excl(2, Seq::<int>::empty(), 2) == 1);
    assert(prod_excl(0, Seq::<int>::empty(), 3) == 1);
    assert(prod_excl(3, Seq::<int>::empty(), 3) == 1);
    assert(prod_excl(0, s1, 1) == 1);
    assert(prod_excl(1, s1, 1) == 1);
    assert(prod_excl(0, s2, 1) == 1 * (0 - 2));
    assert(prod_excl(1, s2, 1) == 1 * (1 - 2));
    assert(prod_excl(0, s, 1) == (1 * (0 - 2)) * (0 - 3));
    assert(prod_excl(1, s, 1) == (1 * (1 - 2)) * (1 - 3));
    assert(prod_excl(0, s1, 2) == 1 * (0 - 1));
    assert(prod_excl(2, s1, 2) == 1 * (2 - 1));
    assert(prod_excl(0, s2, 2) == 1 * (0 - 1));
    assert(prod_excl(2, s2, 2) == 1 * (2 - 1));
    assert(prod_excl(0, s, 2) == (1 * (0 - 1)) * (0 - 3));
    assert(prod_excl(2, s, 2) == (1 * (2 - 1)) * (2 - 3));
    assert(prod_excl(0, s1, 3) == 1 * (0 - 1));
    assert(prod_excl(3, s1, 3) == 1 * (3 - 1));
    assert(prod_excl(0, s2, 3) == (1 * (0 - 1)) * (0 - 2));
    assert(prod_excl(3, s2, 3) == (1 * (3 - 1)) * (3 - 2));
    assert(prod_excl(0, s, 3) == (1 * (0 - 1)) * (0 - 2) * 1);
    assert(prod_excl(3, s, 3) == (1 * (3 - 1)) * (3 - 2) * 1);
    assert(lambda_spec(delta, 0, 1, s) == (delta * 6) / 2);
    assert(lambda_spec(delta, 0, 2, s) == (-(delta * 3)) / 1);
    assert(lambda_spec(delta, 0, 3, s) == (delta * 2) / 2);
    assert(delta * 6 == 2 * (3 * delta)) by (nonlinear_arith);
    vstd::arithmetic::div_mod::lemma_div_multiples_vanish(3 * delta, 2);
    assert((delta * 6) / 2 == 3 * delta);
    assert(delta * 2 == 2 * delta) by (nonlinear_arith);
    vstd::arithmetic::div_mod::lemma_div_multiples_vanish(delta, 2);
    assert((delta * 2) / 2 == delta);
    lemma_div_basics(-(delta * 3));
    assert((3 * delta) + (-(delta * 3)) + delta == delta);
}

/// Lagrange interpolation at zero reproduces the secret for the subset
/// `{1, 2}`: the two scaled coefficients sum to `delta`.
pub proof fn lemma_lagrange_pair_sum(delta: int)
    requires
        delta >= 0,
    ensures
        lambda_spec(delta, 0, 1, seq![1, 2]) + lambda_spec(delta, 0, 2, seq![1, 2]) == delta,
{
    let s = seq![1int, 2int];
    let s1 = seq![1int];
    assert(prod_excl(0, Seq::<int>::empty(), 1) == 1);
    assert(prod_excl(1, Seq::<int>::empty(), 1) == 1);
    assert(prod_excl(0, Seq::<int>::empty(), 2) == 1);
    assert(prod_excl(2, Seq::<int>::empty(), 2) == 1);
    assert(s1.drop_last() =~= Seq::<int>::empty());
    assert(s.drop_last() =~= s1);
    assert(s1.last() == 1 && s.last() == 2);
    assert(prod_excl(0, s1, 1) == 1);
    assert(prod_excl(1, s1, 1) == 1);
    assert(prod_excl(0, s, 1) == 1 * (0 - 2));
    assert(prod_excl(1, s, 1) == 1 * (1 - 2));
    assert(prod_excl(0, s1, 2) == 1 * (0 - 1));
    assert(prod_excl(2, s1, 2) == 1 * (2 - 1));
    assert(prod_excl(0, s, 2) == (1 * (0 - 1)) * 1);
    assert(prod_excl(2, s, 2) == (1 * (2 - 1)) * 1);
    assert(lambda_spec(delta, 0, 1, s) == (-(delta * -2)) / 1);
    assert(lambda_spec(delta, 0, 2, s) == (delta * -1) / 1);
    lemma_div_basics(-(delta * -2));
    lemma_div_basics(delta * -1);
    assert((-(delta * -2)) + (delta * -1) == delta) by (nonlinear_arith);
}

} // verus!
