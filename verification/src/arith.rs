//! Number-theoretic specifications and lemmas shared by the protocol:
//! factorials, primality, gcd, big-endian byte encodings, modular inverses
//! and signed modular exponentiation.
use vstd::prelude::*;

verus! {

use vstd::arithmetic::power::pow;
use vstd::arithmetic::power::lemma_pow0;
use vstd::arithmetic::div_mod::lemma_small_mod;
use vstd::arithmetic::div_mod::lemma_fundamental_div_mod;
use vstd::arithmetic::div_mod::lemma_mod_multiples_vanish;
use vstd::arithmetic::div_mod::lemma_mod_bound;
use vstd::arithmetic::div_mod::lemma_mul_mod_noop_left;
use vstd::arithmetic::div_mod::lemma_mul_mod_noop_right;

/// The factorial of `n`; the protocol's `delta` is the factorial of the
/// group size `l`.
pub open spec fn fact(n: nat) -> nat
    decreases n,
{
    if n == 0 {
        1
    } else {
        n * fact((n - 1) as nat)
    }
}

pub proof fn lemma_fact_pos(n: nat)
    ensures
        fact(n) >= 1,
    decreases n,
{
    if n > 0 {
        lemma_fact_pos((n - 1) as nat);
        assert(n * fact((n - 1) as nat) >= 1) by (nonlinear_arith)
            requires
                n >= 1,
                fact((n - 1) as nat) >= 1,
        ;
    }
}

pub proof fn lemma_fact_mono(a: nat, b: nat)
    requires
        a <= b,
    ensures
        fact(a) <= fact(b),
    decreases b,
{
    if a < b {
        lemma_fact_mono(a, (b - 1) as nat);
        lemma_fact_pos((b - 1) as nat);
        assert(fact((b - 1) as nat) <= b * fact((b - 1) as nat)) by (nonlinear_arith)
            requires
                b >= 1,
                fact((b - 1) as nat) >= 1,
        ;
    }
}

/// `p` has no divisor strictly between 1 and itself.
pub open spec fn is_prime_int(p: int) -> bool {
    p >= 2 && forall|d: int| 2 <= d < p ==> #[trigger] (p % d) != 0
}

/// A safe prime: `p` and `(p - 1) / 2` are both prime.
pub open spec fn is_safe_prime_int(p: int) -> bool {
    is_prime_int(p) && is_prime_int((p - 1) / 2)
}

/// Euclid's greatest common divisor.
pub open spec fn gcd_int(a: nat, b: nat) -> nat
    decreases b,
{
    if b == 0 {
        a
    } else {
        gcd_int(b, a % b)
    }
}

/// The unsigned big-endian value of a byte string.
pub open spec fn be_int(s: Seq<u8>) -> int
    decreases s.len(),
{
    if s.len() == 0 {
        0
    } else {
        256 * be_int(s.drop_last()) + s.last()
    }
}

pub proof fn lemma_be_int_nonneg(s: Seq<u8>)
    ensures
        be_int(s) >= 0,
    decreases s.len(),
{
    if s.len() > 0 {
        lemma_be_int_nonneg(s.drop_last());
    }
}

/// The big-endian digits of a positive integer, most significant first,
/// with no leading zero.
pub open spec fn pos_be_bytes(n: int) -> Seq<u8>
    decreases n,
{
    if n <= 0 {
        Seq::empty()
    } else {
        pos_be_bytes(n / 256).push((n % 256) as u8)
    }
}

/// The byte encoding `num_bigint_dig` uses for a non-negative integer:
/// minimal big-endian digits, except that zero is the single byte `0`.
pub open spec fn min_be_bytes(n: int) -> Seq<u8> {
    if n <= 0 {
        seq![0u8]
    } else {
        pos_be_bytes(n)
    }
}

/// `y` is the (unique) multiplicative inverse of `a` modulo `n`.
pub open spec fn is_inverse(a: int, y: int, n: int) -> bool {
    0 <= y < n && (a * y) % n == 1
}

pub open spec fn invertible(a: int, n: int) -> bool {
    exists|y: int| #[trigger] is_inverse(a, y, n)
}

/// `r` is `b` raised to the (possibly negative) exponent `e` modulo `n`:
/// for a negative exponent, `r` is the inverse of `b^(-e) mod n`.
pub open spec fn is_pow_signed(b: int, e: int, n: int, r: int) -> bool {
    if e >= 0 {
        r == pow(b, e as nat) % n
    } else {
        is_inverse(pow(b, (-e) as nat) % n, r, n)
    }
}

pub proof fn lemma_pow_nonneg(b: int, e: nat)
    requires
        b >= 0,
    ensures
        pow(b, e) >= 0,
    decreases e,
{
    reveal(pow);
    if e > 0 {
        lemma_pow_nonneg(b, (e - 1) as nat);
        assert(b * pow(b, (e - 1) as nat) >= 0) by (nonlinear_arith)
            requires
                b >= 0,
                pow(b, (e - 1) as nat) >= 0,
        ;
    }
}

/// Multiplication modulo `n` by an invertible element can be cancelled.
pub proof fn lemma_mod_mul_cancel(u: int, w: int, f: int, y: int, n: int)
    requires
        n > 1,
        0 <= u < n,
        0 <= w < n,
        is_inverse(f, y, n),
        (u * f) % n == (w * f) % n,
    ensures
        u == w,
{
    assert((u * (f * y)) == ((u * f) * y)) by (nonlinear_arith);
    assert((w * (f * y)) == ((w * f) * y)) by (nonlinear_arith);
    lemma_mul_mod_noop_right(u, f * y, n);
    lemma_mul_mod_noop_right(w, f * y, n);
    lemma_mul_mod_noop_left(u * f, y, n);
    lemma_mul_mod_noop_left(w * f, y, n);
    lemma_small_mod(u as nat, n as nat);
    lemma_small_mod(w as nat, n as nat);
    assert(u == (u * ((f * y) % n)) % n);
    assert(w == (w * ((f * y) % n)) % n);
    lemma_small_mod(1nat, n as nat);
}

/// The inverse modulo `n` is unique.
pub proof fn lemma_inverse_unique(a: int, y1: int, y2: int, n: int)
    requires
        n > 1,
        is_inverse(a, y1, n),
        is_inverse(a, y2, n),
    ensures
        y1 == y2,
{
    assert((y1 * a) % n == (y2 * a) % n) by {
        assert(y1 * a == a * y1) by (nonlinear_arith);
        assert(y2 * a == a * y2) by (nonlinear_arith);
    }
    lemma_mod_mul_cancel(y1, y2, a, y1, n);
}

/// A product of elements invertible modulo `n` is invertible modulo `n`.
pub proof fn lemma_invertible_mul(a: int, b: int, n: int)
    requires
        n > 1,
        invertible(a, n),
        invertible(b, n),
    ensures
        invertible(a * b, n),
{
    let ya = choose|y: int| #[trigger] is_inverse(a, y, n);
    let yb = choose|y: int| #[trigger] is_inverse(b, y, n);
    let w = (ya * yb) % n;
    vstd::arithmetic::div_mod::lemma_mod_bound(ya * yb, n);
    lemma_mul_mod_noop_right(a * b, ya * yb, n);
    assert(((a * b) * (ya * yb)) == ((a * ya) * (b * yb))) by (nonlinear_arith);
    vstd::arithmetic::div_mod::lemma_mul_mod_noop_general(a * ya, b * yb, n);
    lemma_small_mod(1nat, n as nat);
    assert(((a * b) * w) % n == 1);
    assert(is_inverse(a * b, w, n));
}

/// Reducing modulo `n` preserves invertibility.
pub proof fn lemma_invertible_mod(a: int, n: int)
    requires
        n > 1,
    ensures
        invertible(a, n) == invertible(a % n, n),
{
    if invertible(a, n) {
        let y = choose|y: int| #[trigger] is_inverse(a, y, n);
        lemma_mul_mod_noop_left(a, y, n);
        assert(is_inverse(a % n, y, n));
    }
    if invertible(a % n, n) {
        let y = choose|y: int| #[trigger] is_inverse(a % n, y, n);
        lemma_mul_mod_noop_left(a, y, n);
        assert(is_inverse(a, y, n));
    }
}

/// A power of an element invertible modulo `n` is invertible modulo `n`.
pub proof fn lemma_invertible_pow(a: int, e: nat, n: int)
    requires
        n > 1,
        invertible(a, n),
    ensures
        invertible(pow(a, e), n),
        invertible(pow(a, e) % n, n),
    decreases e,
{
    reveal(pow);
    if e == 0 {
        lemma_pow0(a);
        lemma_small_mod(1nat, n as nat);
        assert((pow(a, 0) * 1) % n == 1);
        assert(is_inverse(pow(a, 0), 1, n));
    } else {
        lemma_invertible_pow(a, (e - 1) as nat, n);
        lemma_invertible_mul(a, pow(a, (e - 1) as nat), n);
        assert(pow(a, e) == a * pow(a, (e - 1) as nat));
    }
    lemma_invertible_mod(pow(a, e), n);
}


/// The number of bits of a non-negative integer's magnitude: zero for
/// zero, else one more than for its half.
pub open spec fn bit_len(n: int) -> nat
    decreases n,
{
    if n <= 0 {
        0
    } else {
        1 + bit_len(n / 2)
    }
}

/// The two-power bounds pin the bit length: a positive `a` between
/// `2^(b-1)` and `2^b` has exactly `b` bits.
pub proof fn lemma_pow2_bounds_give_bit_len(a: int, b: nat)
    requires
        a > 0,
        b >= 1,
        pow(2, (b - 1) as nat) <= a,
        a < pow(2, b),
    ensures
        bit_len(a) == b,
    decreases b,
{
    reveal(pow);
    if b == 1 {
        assert(pow(2, 0) == 1);
        assert(pow(2, 1) == 2);
        assert(a == 1);
        assert(bit_len(0) == 0);
        assert(bit_len(1) == 1 + bit_len(0));
    } else {
        assert(pow(2, b) == 2 * pow(2, (b - 1) as nat));
        assert(pow(2, (b - 1) as nat) == 2 * pow(2, (b - 2) as nat));
        lemma_fundamental_div_mod(a, 2);
        assert(a / 2 < pow(2, (b - 1) as nat));
        assert(a / 2 >= pow(2, (b - 2) as nat));
        vstd::arithmetic::power::lemma_pow_positive(2, (b - 2) as nat);
        lemma_pow2_bounds_give_bit_len(a / 2, (b - 1) as nat);
        assert(bit_len(a) == 1 + bit_len(a / 2));
    }
}

/// `u` and `v` are Bezout coefficients for `a` and `b`.
pub open spec fn is_bezout_pair(u: int, v: int, a: nat, b: nat) -> bool {
    u * a + v * b == gcd_int(a, b)
}

/// Bezout coefficients exist for every pair: Euclid's recursion carries
/// them along.
pub proof fn lemma_bezout_exists(a: nat, b: nat)
    ensures
        exists|u: int, v: int| #[trigger] is_bezout_pair(u, v, a, b),
    decreases b,
{
    if b == 0 {
        assert(1int * a + 0int * b == gcd_int(a, b)) by (nonlinear_arith)
            requires
                gcd_int(a, b) == a,
        ;
        assert(is_bezout_pair(1, 0, a, b));
    } else {
        lemma_bezout_exists(b, a % b);
        let (u, v) = choose|u: int, v: int| #[trigger] is_bezout_pair(u, v, b, a % b);
        lemma_fundamental_div_mod(a as int, b as int);
        let q = a as int / b as int;
        assert(v * a + (u - v * q) * b == u * b + v * (a - b * q)) by (nonlinear_arith);
        assert(a % b == a - b * q);
        assert(v * a + (u - v * q) * b == gcd_int(a, b));
        assert(is_bezout_pair(v, u - v * q, a, b));
    }
}

/// An element coprime to the modulus is invertible modulo it.
pub proof fn lemma_coprime_invertible(a: int, n: int)
    requires
        n > 1,
        a >= 0,
        gcd_int(a as nat, n as nat) == 1,
    ensures
        invertible(a, n),
{
    lemma_bezout_exists(a as nat, n as nat);
    let (u, v) = choose|u: int, v: int| #[trigger] is_bezout_pair(u, v, a as nat, n as nat);
    lemma_mod_bound(u, n);
    lemma_mul_mod_noop_right(a, u, n);
    assert((a * (u % n)) % n == (a * u) % n) by {
        lemma_mul_mod_noop_right(a, u, n);
    }
    assert(a * u == n * (-v) + 1) by (nonlinear_arith)
        requires
            u * a + v * n == 1,
    ;
    lemma_mod_multiples_vanish(-v, 1, n);
    lemma_small_mod(1nat, n as nat);
    assert(is_inverse(a, u % n, n));
}

/// The witness of an inverse is itself invertible.
pub proof fn lemma_inverse_invertible(a: int, y: int, n: int)
    requires
        n > 1,
        is_inverse(a, y, n),
    ensures
        invertible(y, n),
{
    lemma_mod_bound(a, n);
    lemma_mul_mod_noop_right(y, a, n);
    assert(y * a == a * y) by (nonlinear_arith);
    assert(is_inverse(y, a % n, n));
}

} // verus!
