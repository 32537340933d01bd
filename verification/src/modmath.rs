//! Modular arithmetic and the prime search on big-endian byte strings,
//! behind trusted wrappers around num-bigint, num-modular and num-prime.

use crate::bignum::{be_value, min_be};
use num_bigint::BigUint;
use num_modular::{ModularCoreOps, ModularPow, ModularUnaryOps};
use num_prime::nt_funcs::next_prime;
use vstd::calc;
use vstd::prelude::*;

verus! {

/// Natural-number exponentiation.
pub open spec fn pow_nat(b: nat, e: nat) -> nat
    decreases e,
{
    if e == 0 {
        1
    } else {
        b * pow_nat(b, (e - 1) as nat)
    }
}

/// Primality of a natural number.
pub open spec fn is_prime(n: nat) -> bool {
    n >= 2 && forall|d: nat| 2 <= d < n ==> #[trigger] (n % d) != 0
}

/// `r` is the smallest prime strictly greater than `seed`.
pub open spec fn is_next_prime_above(seed: nat, r: nat) -> bool {
    &&& is_prime(r)
    &&& r > seed
    &&& forall|k: nat| seed < k < r ==> !is_prime(k)
}

/// `r` is the smallest prime at or above `seed`.
pub open spec fn is_first_prime_from(seed: nat, r: nat) -> bool {
    &&& is_prime(r)
    &&& r >= seed
    &&& forall|k: nat| seed <= k < r ==> !is_prime(k)
}

/// `a` has an inverse modulo `n`.
pub open spec fn has_inverse(a: nat, n: nat) -> bool {
    exists|x: nat| x < n && #[trigger] ((a * x) % n) == 1
}

/// The inverse of `a` modulo `n`, where one exists.
pub open spec fn mod_inverse(a: nat, n: nat) -> nat {
    choose|x: nat| x < n && #[trigger] ((a * x) % n) == 1
}

/// Relies on num-modular's `mulm` for num-bigint's `BigUint`: the modular
/// product `(a * b) % m`, here carried between minimal big-endian bytes.
/// `mulm` reduces with `%`, which panics on a zero modulus, so a zero
/// modulus is excluded.
#[verifier::external_body]
pub(crate) fn be_mulm(a: &[u8], b: &[u8], m: &[u8]) -> (r: Vec<u8>)
    requires
        be_value(m@) >= 1,
    ensures
        r@ == min_be((be_value(a@) * be_value(b@)) % be_value(m@)),
{
    let am = BigUint::from_bytes_be(a);
    let bm = BigUint::from_bytes_be(b);
    let mm = BigUint::from_bytes_be(m);
    am.mulm(&bm, &mm).to_bytes_be()
}

/// Relies on num-modular's `powm` for num-bigint's `BigUint`, which is
/// num-bigint's `modpow`: the modular power `b^e % m`, here carried between
/// minimal big-endian bytes. `modpow` panics on a zero modulus, so a zero
/// modulus is excluded.
#[verifier::external_body]
pub(crate) fn be_powm(b: &[u8], e: &[u8], m: &[u8]) -> (r: Vec<u8>)
    requires
        be_value(m@) >= 1,
    ensures
        r@ == min_be(pow_nat(be_value(b@), be_value(e@)) % be_value(m@)),
{
    let bm = BigUint::from_bytes_be(b);
    let em = BigUint::from_bytes_be(e);
    let mm = BigUint::from_bytes_be(m);
    bm.powm(&em, &mm).to_bytes_be()
}

/// Relies on num-modular's `invm` for num-bigint's `BigUint`: the extended
/// Euclidean algorithm. It returns a reduced inverse exactly when
/// `gcd(a, m) == 1`, that is, exactly when an inverse exists; a modulus
/// under 2 is excluded (its reductions run through `subm`, whose result is
/// only reduced for a positive modulus, and modulo 1 its result 0 is no
/// inverse in the stated sense).
#[verifier::external_body]
pub(crate) fn be_invm(a: &[u8], m: &[u8]) -> (r: Option<Vec<u8>>)
    requires
        be_value(m@) >= 2,
    ensures
        match r {
            Some(v) => be_value(v@) < be_value(m@)
                && (be_value(a@) * be_value(v@)) % be_value(m@) == 1
                && v@ == min_be(be_value(v@)),
            None => forall|x: nat| #[trigger] ((be_value(a@) * x) % be_value(m@)) != 1,
        },
{
    let am = BigUint::from_bytes_be(a);
    let mm = BigUint::from_bytes_be(m);
    am.invm(&mm).map(|v| v.to_bytes_be())
}

/// Relies on num-prime's `next_prime` with its default configuration: the
/// first prime strictly greater than the target. Its wheel skips only
/// multiples of small primes, and every remaining candidate in between is
/// tested and rejected, so no prime lies between the target and the result;
/// the probabilistic primality test behind the verdicts is trusted as exact.
/// For `BigUint` the search cannot overflow, so it reports a result.
#[verifier::external_body]
pub(crate) fn be_next_prime(base: &[u8]) -> (r: Option<Vec<u8>>)
    ensures
        r is Some,
        match r {
            Some(v) => is_next_prime_above(be_value(base@), be_value(v@))
                && v@ == min_be(be_value(v@)),
            None => true,
        },
{
    next_prime(&BigUint::from_bytes_be(base), None).map(|v| v.to_bytes_be())
}

/// Relies on num-prime's `is_prime` with its default configuration: whether
/// the value is prime. Values at or under two to the sixty-fourth get a
/// deterministic test; above it the probabilistic verdict is trusted as
/// exact, as the prime search's is.
#[verifier::external_body]
pub(crate) fn be_is_prime(v: &[u8]) -> (r: bool)
    ensures
        r == is_prime(be_value(v@)),
{
    num_prime::nt_funcs::is_prime(&BigUint::from_bytes_be(v), None).probably()
}

/// `pow_nat` agrees with vstd's integer power.
pub proof fn lemma_pow_nat_is_pow(b: nat, e: nat)
    ensures
        pow_nat(b, e) == vstd::arithmetic::power::pow(b as int, e),
    decreases e,
{
    reveal(vstd::arithmetic::power::pow);
    if e > 0 {
        lemma_pow_nat_is_pow(b, (e - 1) as nat);
    }
}

/// Reducing the base modulo `n` does not change a power modulo `n`.
pub proof fn lemma_pow_nat_mod_noop(b: nat, e: nat, n: nat)
    requires
        n >= 1,
    ensures
        pow_nat(b % n, e) % n == pow_nat(b, e) % n,
{
    lemma_pow_nat_is_pow(b, e);
    lemma_pow_nat_is_pow(b % n, e);
    vstd::arithmetic::power::lemma_pow_mod_noop(b as int, e, n as int);
}

/// A power of a product is the product of the powers.
pub proof fn lemma_pow_nat_distributes(a: nat, b: nat, e: nat)
    ensures
        pow_nat(a * b, e) == pow_nat(a, e) * pow_nat(b, e),
{
    lemma_pow_nat_is_pow(a * b, e);
    lemma_pow_nat_is_pow(a, e);
    lemma_pow_nat_is_pow(b, e);
    vstd::arithmetic::power::lemma_pow_distributes(a as int, b as int, e);
}

/// Iterated powers multiply the exponents.
pub proof fn lemma_pow_nat_multiplies(b: nat, e1: nat, e2: nat)
    ensures
        pow_nat(pow_nat(b, e1), e2) == pow_nat(b, e1 * e2),
{
    lemma_pow_nat_is_pow(b, e1);
    lemma_pow_nat_is_pow(pow_nat(b, e1), e2);
    lemma_pow_nat_is_pow(b, e1 * e2);
    vstd::arithmetic::power::lemma_pow_multiplies(b as int, e1, e2);
}

/// Every power of one is one.
pub proof fn lemma_pow_nat_one(e: nat)
    ensures
        pow_nat(1, e) == 1,
    decreases e,
{
    if e > 0 {
        lemma_pow_nat_one((e - 1) as nat);
    }
}

/// The smallest prime at or above a bound is unique.
pub proof fn lemma_first_prime_unique(seed: nat, a: nat, b: nat)
    requires
        is_first_prime_from(seed, a),
        is_first_prime_from(seed, b),
    ensures
        a == b,
{
    if a < b {
        assert(!is_prime(a));
    }
    if b < a {
        assert(!is_prime(b));
    }
}

/// The inverse modulo `n` is unique among reduced values, so the inverse
/// that the extended Euclidean algorithm returns is the one the
/// specification names.
pub proof fn lemma_mod_inverse_unique(a: nat, n: nat, x: nat, y: nat)
    requires
        n >= 2,
        x < n,
        y < n,
        (a * x) % n == 1,
        (a * y) % n == 1,
    ensures
        x == y,
{
    let ni = n as int;
    calc! {
        (==)
        (x % n) as int; {
            vstd::arithmetic::div_mod::lemma_small_mod(x, n);
        }
        x as int; {
            vstd::arithmetic::div_mod::lemma_small_mod(x, n);
            vstd::arithmetic::div_mod::lemma_mul_mod_noop_right(x as int, (a * y) as int, ni);
            assert(x as int * ((a * y) as int % ni) == x as int * 1);
            assert((x * (a * y)) % n == x % n);
            assert(x * (a * y) == (x * a) * y) by (nonlinear_arith);
            assert(((x * a) * y) % n == x % n);
        }
        (((x * a) * y) % n) as int; {
            vstd::arithmetic::div_mod::lemma_mul_mod_noop_left((x * a) as int, y as int, ni);
            assert(x * a == a * x) by (nonlinear_arith);
            assert((((x * a) % n) * y) % n == ((x * a) * y) % n);
            assert((x * a) % n == 1);
        }
        ((1 * y) % n) as int; {
            vstd::arithmetic::div_mod::lemma_small_mod(y, n);
        }
        y as int;
    }
    vstd::arithmetic::div_mod::lemma_small_mod(x, n);
}

} // verus!
