//! Polynomials over the integers, evaluated by Horner's scheme and
//! reduced modulo `m`. The dealer's secret-sharing polynomial has the
//! private exponent as its constant coefficient.
use vstd::prelude::*;

verus! {

use num_bigint_dig::BigInt;
use crate::bigint::{bi_add, bi_clone, bi_mod_floor, bi_mul, bint, ints_of};

#[derive(Debug, PartialEq, Eq, Structural)]
pub enum PolynomialError {
    NoCoefficients,
}

/// The value of the polynomial with the given coefficients (constant
/// term first) at `x`.
pub open spec fn poly_eval(coeffs: Seq<int>, x: int) -> int
    decreases coeffs.len(),
{
    if coeffs.len() == 0 {
        0
    } else {
        coeffs[0] + x * poly_eval(coeffs.drop_first(), x)
    }
}

/// A polynomial evaluated at zero reduces to its constant coefficient:
/// `eval(f, 0) mod m == a_0 mod m`.
pub proof fn lemma_poly_eval_at_zero(coeffs: Seq<int>, m: int)
    requires
        coeffs.len() >= 1,
        m > 0,
    ensures
        poly_eval(coeffs, 0) % m == coeffs[0] % m,
{
    assert(poly_eval(coeffs, 0) == coeffs[0] + 0 * poly_eval(coeffs.drop_first(), 0));
}

/// Evaluates the polynomial at `value` and reduces the exact result
/// modulo `modulus`, by Horner's scheme from the highest coefficient
/// down; only the final value is reduced.
pub fn evaluate_polynomial_mod(
    value: &BigInt,
    coeffs: &Vec<BigInt>,
    modulus: &BigInt,
) -> (r: Result<BigInt, PolynomialError>)
    requires
        bint(*modulus) > 0,
    ensures
        r is Err <==> coeffs@.len() == 0,
        r matches Ok(out) ==> bint(out) == poly_eval(ints_of(coeffs@), bint(*value)) % bint(
            *modulus,
        ),
{
    let n = coeffs.len();
    if n == 0 {
        return Err(PolynomialError::NoCoefficients);
    }
    let mut prev: BigInt = bi_clone(&coeffs[n - 1]);
    let mut i: usize = n - 1;
    proof {
        let cs = ints_of(coeffs@);
        let tail = cs.subrange(n - 1, n as int);
        assert(tail =~= seq![cs[n - 1]]);
        assert(cs[n - 1] == bint(coeffs@[n - 1]));
        assert(tail.drop_first().len() == 0);
        assert(poly_eval(tail, bint(*value)) == tail[0] + bint(*value) * poly_eval(
            tail.drop_first(),
            bint(*value),
        ));
        assert(poly_eval(tail, bint(*value)) == cs[n - 1]);
    }
    while i > 0
        invariant
            0 <= i < n,
            n == coeffs@.len(),
            bint(prev) == poly_eval(ints_of(coeffs@).subrange(i as int, n as int), bint(*value)),
        decreases i,
    {
        let ghost i0 = i as int;
        let ghost p0 = bint(prev);
        i = i - 1;
        let next = bi_mul(&prev, value);
        prev = bi_add(&next, &coeffs[i]);
        proof {
            let v = bint(*value);
            let cs = ints_of(coeffs@);
            assert(p0 == poly_eval(cs.subrange(i0, n as int), v));
            let cur = cs.subrange(i as int, n as int);
            assert(cur.drop_first() =~= cs.subrange(i0, n as int));
            assert(cur[0] == cs[i as int]);
            assert(cs[i as int] == bint(coeffs@[i as int]));
            assert(bint(prev) == v * p0 + cur[0]);
            assert(poly_eval(cur, v) == cur[0] + v * poly_eval(cur.drop_first(), v));
            assert(bint(prev) == poly_eval(cur, v));
        }
    }
    proof {
        assert(ints_of(coeffs@).subrange(0, n as int) =~= ints_of(coeffs@));
    }
    Ok(bi_mod_floor(&prev, modulus))
}

} // verus!
