//! Modular exponentiation at the specification level, with the algebraic
//! lemmas that the solver's correctness arguments rest on.
use vstd::prelude::*;
use vstd::arithmetic::power::{
    lemma0_pow, lemma1_pow, lemma_pow0, lemma_pow_adds, lemma_pow_mod_noop, lemma_pow_multiplies,
    lemma_pow_positive, pow,
};
use vstd::arithmetic::div_mod::{
    lemma_fundamental_div_mod, lemma_mod_bound, lemma_mod_multiples_vanish,
    lemma_mul_mod_noop_general, lemma_small_mod,
};
use vstd::arithmetic::mul::lemma_mul_is_commutative;

verus! {

/// `b ^ e` reduced modulo `m`.
pub open spec fn pow_mod(b: nat, e: nat, m: nat) -> nat
    recommends
        m > 0,
{
    (pow(b as int, e) % (m as int)) as nat
}

/// A power of a natural number is itself non-negative.
pub proof fn lemma_pow_nonneg(b: nat, e: nat)
    ensures
        pow(b as int, e) >= 0,
{
    if b == 0 {
        if e == 0 {
            lemma_pow0(b as int);
        } else {
            lemma0_pow(e);
        }
    } else {
        lemma_pow_positive(b as int, e);
    }
}

/// A reduced power lies below the modulus.
pub proof fn lemma_pow_mod_bound(b: nat, e: nat, m: nat)
    requires
        m > 0,
    ensures
        pow_mod(b, e, m) < m,
{
    lemma_pow_nonneg(b, e);
    lemma_mod_bound(pow(b as int, e), m as int);
}

/// Exponent zero gives one, for any modulus at least two.
pub proof fn lemma_pow_mod_zero_exp(b: nat, m: nat)
    requires
        m >= 2,
    ensures
        pow_mod(b, 0, m) == 1,
{
    lemma_pow0(b as int);
    lemma_small_mod(1, m);
}

/// Splitting the exponent of a reduced power into a sum turns it into a
/// modular product of the two reduced powers.
pub proof fn lemma_pow_mod_adds(b: nat, e1: nat, e2: nat, m: nat)
    requires
        m > 0,
    ensures
        pow_mod(b, e1 + e2, m) == (pow_mod(b, e1, m) * pow_mod(b, e2, m)) % m,
{
    lemma_pow_adds(b as int, e1, e2);
    lemma_pow_nonneg(b, e1);
    lemma_pow_nonneg(b, e2);
    lemma_mul_mod_noop_general(pow(b as int, e1), pow(b as int, e2), m as int);
    lemma_mod_bound(pow(b as int, e1), m as int);
    lemma_mod_bound(pow(b as int, e2), m as int);
}

/// Raising an already-reduced power to a further exponent reduces the same
/// way as the product of the exponents.
pub proof fn lemma_pow_mod_mul(b: nat, e1: nat, e2: nat, m: nat)
    requires
        m > 0,
    ensures
        pow_mod(pow_mod(b, e1, m), e2, m) == pow_mod(b, e1 * e2, m),
{
    lemma_pow_nonneg(b, e1);
    lemma_mod_bound(pow(b as int, e1), m as int);
    lemma_pow_mod_noop(pow(b as int, e1), e2, m as int);
    lemma_pow_multiplies(b as int, e1, e2);
}

/// The premise of Fermat's little theorem for `g` modulo `p`: it holds in
/// particular whenever `p` is prime and `g` is not a multiple of `p`.
pub open spec fn fermat_holds(g: nat, p: nat) -> bool
    recommends
        p >= 2,
{
    pow_mod(g, (p - 1) as nat, p) == 1
}

/// Under the Fermat premise, exponents may be reduced modulo `p - 1`.
pub proof fn lemma_fermat_reduce(g: nat, p: nat, x: nat)
    requires
        p >= 2,
        fermat_holds(g, p),
    ensures
        pow_mod(g, x, p) == pow_mod(g, (x % ((p - 1) as nat)) as nat, p),
{
    let n = (p - 1) as nat;
    let q = x / n;
    let r = x % n;
    lemma_fundamental_div_mod(x as int, n as int);
    assert(x == n * q + r);
    lemma_mul_is_commutative(n as int, q as int);
    assert(x == q * n + r);
    // pow(g, x) == pow(g, q * n) * pow(g, r)
    lemma_pow_adds(g as int, (q * n) as nat, r);
    assert(pow(g as int, x) == pow(g as int, (q * n) as nat) * pow(g as int, r));
    // pow(g, q * n) % p == pow(pow(g, n), q) % p == pow(pow(g, n) % p, q) % p == pow(1, q) % p == 1
    lemma_pow_multiplies(g as int, n, q);
    lemma_mul_is_commutative(n as int, q as int);
    assert(pow(pow(g as int, n), q) == pow(g as int, (q * n) as nat));
    lemma_pow_nonneg(g, n);
    lemma_pow_mod_noop(pow(g as int, n), q, p as int);
    assert(pow(g as int, n) % (p as int) == 1);
    assert(pow(pow(g as int, n) % (p as int), q) == pow(1, q));
    lemma1_pow(q);
    lemma_small_mod(1, p);
    assert(pow(g as int, (q * n) as nat) % (p as int) == 1);
    // combine
    lemma_pow_nonneg(g, (q * n) as nat);
    lemma_pow_nonneg(g, r);
    lemma_mul_mod_noop_general(pow(g as int, (q * n) as nat), pow(g as int, r), p as int);
    assert(pow(g as int, x) % (p as int) == (1 * (pow(g as int, r) % (p as int))) % (p as int));
    lemma_mod_bound(pow(g as int, r), p as int);
    lemma_small_mod((pow(g as int, r) % (p as int)) as nat, p);
}

/// A multiple of the modulus-minus-one vanishes from the exponent.
pub proof fn lemma_fermat_absorb(g: nat, p: nat, a: nat, b: nat)
    requires
        p >= 2,
        fermat_holds(g, p),
    ensures
        pow_mod(g, b + a * ((p - 1) as nat), p) == pow_mod(g, b, p),
{
    let n = (p - 1) as nat;
    lemma_mod_multiples_vanish(a as int, b as int, n as int);
    assert(((n * a + b) as int) % (n as int) == (b as int) % (n as int));
    assert(b + a * n == n * a + b) by (nonlinear_arith);
    lemma_fermat_reduce(g, p, b + a * n);
    lemma_fermat_reduce(g, p, b);
}

} // verus!
