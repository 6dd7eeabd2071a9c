//! Number theory behind the Miller-Rabin test: Euclid's lemma, square
//! roots of one modulo a prime, the binomial theorem, and Fermat's little
//! theorem.
use crate::symbols::is_prime;
use vstd::arithmetic::div_mod::*;
use vstd::arithmetic::mul::*;
use vstd::arithmetic::power::*;
use vstd::prelude::*;

verus! {

/// Binomial coefficients by Pascal's rule.
pub open spec fn binom(n: nat, k: nat) -> nat
    decreases n,
{
    if k == 0 {
        1
    } else if n == 0 {
        0
    } else {
        binom((n - 1) as nat, (k - 1) as nat) + binom((n - 1) as nat, k)
    }
}

/// `sum_{k <= m} binom(n, k) * x^k`.
pub open spec fn binom_sum(n: nat, x: int, m: nat) -> int
    decreases m,
{
    if m == 0 {
        1
    } else {
        binom_sum(n, x, (m - 1) as nat) + binom(n, m) * pow(x, m)
    }
}

// ---------------------------------------------------------------------------
// Divisibility by a prime
// ---------------------------------------------------------------------------
/// Euclid's lemma for a factor reduced below the prime.
proof fn lemma_euclid_reduced(a: nat, b: nat, p: nat)
    requires
        is_prime(p),
        0 < a < p,
        (a * b) % p == 0,
    ensures
        b % p == 0,
    decreases a,
{
    if a == 1 {
        lemma_mul_basics(b as int);
        assert(a * b == 1 * b);
    } else {
        let q = p / a;
        let r = p % a;
        lemma_fundamental_div_mod(p as int, a as int);
        assert(p % a != 0);
        lemma_mod_bound(p as int, a as int);
        assert(0 < r < a);
        let t = (a * b) / p;
        lemma_fundamental_div_mod((a * b) as int, p as int);
        assert(a * b == p * t);
        assert(r * b == p * (b - q * t)) by (nonlinear_arith)
            requires
                p == a * q + r,
                a * b == p * t,
        ;
        assert(b - q * t >= 0) by (nonlinear_arith)
            requires
                r * b == p * (b - q * t),
                p > 0,
                r >= 0,
                b >= 0,
        ;
        lemma_mod_multiples_basic(b - q * t, p as int);
        lemma_mul_is_commutative(b - q * t, p as int);
        lemma_euclid_reduced(r, b, p);
    }
}

/// Euclid's lemma: a prime dividing a product divides a factor.
pub proof fn lemma_euclid(a: nat, b: nat, p: nat)
    requires
        is_prime(p),
        (a * b) % p == 0,
    ensures
        a % p == 0 || b % p == 0,
{
    if a % p != 0 {
        lemma_mod_bound(a as int, p as int);
        lemma_mul_mod_noop_left(a as int, b as int, p as int);
        lemma_euclid_reduced(a % p, b, p);
    }
}

/// The only square roots of one modulo a prime are 1 and `p - 1`.
pub proof fn lemma_sqrt_one_mod_prime(x: nat, p: nat)
    requires
        is_prime(p),
        x < p,
        (x * x) % p == 1,
    ensures
        x == 1 || x == p - 1,
{
    if x == 0 {
        assert(x * x == 0);
        lemma_small_mod(0, p);
    } else {
        let u = (x - 1) as nat;
        let v = x + 1;
        assert(u * v == x * x - 1) by (nonlinear_arith)
            requires
                u == x - 1,
                v == x + 1,
        ;
        lemma_fundamental_div_mod((x * x) as int, p as int);
        let t = (x * x) / p;
        assert(u * v == p * t) by (nonlinear_arith)
            requires
                u * v == x * x - 1,
                x * x == p * t + 1,
        ;
        lemma_mod_multiples_basic(t as int, p as int);
        lemma_mul_is_commutative(t as int, p as int);
        assert((u * v) % p == 0);
        lemma_euclid(u, v, p);
        if u % p == 0 {
            lemma_small_mod(u, p);
            assert(u == 0);
        } else {
            assert(v % p == 0);
            if v < p {
                lemma_small_mod(v, p);
                assert(false);
            }
            assert(v == p);
        }
    }
}

// ---------------------------------------------------------------------------
// Binomial theorem
// ---------------------------------------------------------------------------
proof fn lemma_binom_above(n: nat, k: nat)
    requires
        k > n,
    ensures
        binom(n, k) == 0,
    decreases n,
{
    if n > 0 {
        lemma_binom_above((n - 1) as nat, (k - 1) as nat);
        lemma_binom_above((n - 1) as nat, k);
    }
}

proof fn lemma_binom_diag(n: nat)
    ensures
        binom(n, n) == 1,
    decreases n,
{
    if n > 0 {
        lemma_binom_diag((n - 1) as nat);
        lemma_binom_above((n - 1) as nat, n);
    }
}

proof fn lemma_pow_succ(x: int, m: nat)
    ensures
        pow(x, m + 1) == x * pow(x, m),
{
    reveal(pow);
}

/// Pascal's rule carried through the partial sums.
proof fn lemma_binom_sum_pascal(n: nat, x: int, m: nat)
    requires
        m >= 1,
    ensures
        binom_sum(n + 1, x, m) == binom_sum(n, x, m) + x * binom_sum(n, x, (m - 1) as nat),
    decreases m,
{
    lemma_pow_succ(x, (m - 1) as nat);
    assert(binom(n + 1, m) == binom(n, (m - 1) as nat) + binom(n, m));
    if m == 1 {
        reveal(pow);
        assert(pow(x, 0) == 1);
        assert(pow(x, 1) == x * 1);
        assert(binom(n, 0) == 1);
        assert(binom_sum(n + 1, x, 0) == 1);
        assert(binom_sum(n + 1, x, 1) == 1 + binom(n + 1, 1) * pow(x, 1));
        assert(binom_sum(n, x, 0) == 1);
        assert(binom_sum(n, x, 1) == 1 + binom(n, 1) * pow(x, 1));
        assert(binom_sum(n, x, 0) == 1);
        assert(binom(n + 1, 1) * x == binom(n, 1) * x + x) by (nonlinear_arith)
            requires
                binom(n + 1, 1) == 1 + binom(n, 1),
        ;
    } else {
        lemma_binom_sum_pascal(n, x, (m - 1) as nat);
        let a = binom(n, (m - 1) as nat);
        let b = binom(n, m);
        let pm = pow(x, m);
        let pm1 = pow(x, (m - 1) as nat);
        let s2 = binom_sum(n, x, (m - 2) as nat);
        assert(binom_sum(n, x, (m - 1) as nat) == s2 + a * pm1);
        assert((a + b) * pm == b * pm + x * (a * pm1)) by (nonlinear_arith)
            requires
                pm == x * pm1,
        ;
        assert(x * s2 + x * (a * pm1) == x * (s2 + a * pm1)) by (nonlinear_arith);
    }
}

/// The binomial theorem: `(x + 1)^n` is the full sum.
pub proof fn lemma_binomial(n: nat, x: int)
    ensures
        pow(x + 1, n) == binom_sum(n, x, n),
    decreases n,
{
    if n == 0 {
        reveal(pow);
    } else {
        let k = (n - 1) as nat;
        lemma_binomial(k, x);
        lemma_binom_sum_pascal(k, x, n);
        lemma_binom_above(k, n);
        assert(binom_sum(k, x, n) == binom_sum(k, x, k) + 0 * pow(x, n));
        lemma_pow_succ(x + 1, k);
        let s = binom_sum(k, x, k);
        assert(s + x * s == (x + 1) * s) by (nonlinear_arith);
    }
}

/// Absorption: `k * binom(n, k) = n * binom(n - 1, k - 1)`.
proof fn lemma_binom_absorb(n: nat, k: nat)
    requires
        n >= 1,
        k >= 1,
    ensures
        k * binom(n, k) == n * binom((n - 1) as nat, (k - 1) as nat),
    decreases n,
{
    if n == 1 {
        if k > 1 {
            lemma_binom_above(1, k);
            lemma_binom_above(0, (k - 1) as nat);
            lemma_mul_basics(k as int);
            lemma_mul_basics(1);
        } else {
            assert(binom(0, 0) == 1);
            assert(binom(0, 1) == 0);
            assert(binom(1, 1) == binom(0, 0) + binom(0, 1));
        }
    } else if k == 1 {
        lemma_binom_absorb((n - 1) as nat, 1);
        assert(binom((n - 2) as nat, 0) == 1);
        assert(binom((n - 1) as nat, 0) == 1);
        assert(binom(n, 1) == binom((n - 1) as nat, 0) + binom((n - 1) as nat, 1));
        lemma_mul_basics(binom((n - 1) as nat, 1) as int);
        lemma_mul_basics((n - 1) as int);
        lemma_mul_basics(n as int);
        lemma_mul_basics(binom(n, 1) as int);
    } else {
        let m = (n - 1) as nat;
        lemma_binom_absorb(m, (k - 1) as nat);
        lemma_binom_absorb(m, k);
        let c1 = binom(m, (k - 1) as nat);
        let c2 = binom(m, k);
        let d1 = binom((m - 1) as nat, (k - 2) as nat);
        let d2 = binom((m - 1) as nat, (k - 1) as nat);
        assert(binom(n, k) == c1 + c2);
        assert(c1 == d1 + d2);
        assert(k * (c1 + c2) == n * c1) by (nonlinear_arith)
            requires
                (k - 1) * c1 == m * d1,
                k * c2 == m * d2,
                c1 == d1 + d2,
                n == m + 1,
        ;
    }
}

/// A prime divides the inner binomial coefficients of its row.
proof fn lemma_prime_divides_binom(p: nat, k: nat)
    requires
        is_prime(p),
        0 < k < p,
    ensures
        binom(p, k) % p == 0,
{
    lemma_binom_absorb(p, k);
    let c = binom((p - 1) as nat, (k - 1) as nat);
    lemma_mod_multiples_basic(c as int, p as int);
    lemma_mul_is_commutative(c as int, p as int);
    lemma_euclid(k, binom(p, k), p);
    lemma_small_mod(k, p);
}

/// The inner terms of `(x + 1)^p` vanish modulo `p`.
proof fn lemma_binom_sum_inner(p: nat, x: nat, m: nat)
    requires
        is_prime(p),
        m < p,
    ensures
        (binom_sum(p, x as int, m) - 1) % (p as int) == 0,
    decreases m,
{
    lemma_small_mod(0, p);
    if m == 0 {
        assert(binom_sum(p, x as int, 0) == 1);
    } else {
        lemma_binom_sum_inner(p, x, (m - 1) as nat);
        lemma_prime_divides_binom(p, m);
        let c = binom(p, m) as int;
        let y = pow(x as int, m);
        lemma_mul_mod_noop_left(c, y, p as int);
        assert((c % (p as int)) * y == 0);
        lemma_small_mod(0, p);
        assert((c * y) % (p as int) == 0);
        assert(binom_sum(p, x as int, m) == binom_sum(p, x as int, (m - 1) as nat) + c * y);
        let aa = binom_sum(p, x as int, (m - 1) as nat) - 1;
        lemma_add_mod_noop(aa, c * y, p as int);
        assert(aa % (p as int) == 0);
        assert((aa + c * y) % (p as int) == (0int + 0int) % (p as int));
        assert(binom_sum(p, x as int, m) - 1 == aa + c * y);
    }
}

/// `a^p = a (mod p)`.
pub proof fn lemma_pow_prime_mod(a: nat, p: nat)
    requires
        is_prime(p),
    ensures
        pow(a as int, p) % (p as int) == (a as int) % (p as int),
    decreases a,
{
    if a == 0 {
        lemma0_pow(p);
    } else {
        let b = (a - 1) as nat;
        lemma_pow_prime_mod(b, p);
        lemma_binomial(p, b as int);
        lemma_binom_sum_inner(p, b, (p - 1) as nat);
        lemma_binom_diag(p);
        let s = binom_sum(p, b as int, (p - 1) as nat);
        let y = pow(b as int, p);
        assert(binom_sum(p, b as int, p) == s + 1 * y);
        assert(pow(a as int, p) == (s - 1) + (1 + y));
        lemma_add_mod_noop(s - 1, 1 + y, p as int);
        lemma_mod_twice(1 + y, p as int);
        lemma_add_mod_noop(1, y, p as int);
        lemma_add_mod_noop(1, b as int, p as int);
    }
}

/// Fermat's little theorem: `a^(p - 1) = 1 (mod p)` when `p` does not
/// divide `a`.
pub proof fn lemma_fermat(a: nat, p: nat)
    requires
        is_prime(p),
        a % p != 0,
    ensures
        pow(a as int, (p - 1) as nat) % (p as int) == 1,
{
    lemma_pow_prime_mod(a, p);
    let e = (p - 1) as nat;
    lemma_pow_succ(a as int, e);
    let y = pow(a as int, e);
    if a == 0 {
        lemma_small_mod(0, p);
    }
    assert(a > 0);
    lemma_pow_positive(a as int, e);
    let z = (y - 1) as nat;
    assert(a * z == a * y - a) by (nonlinear_arith)
        requires
            z == y - 1,
    ;
    lemma_sub_mod_noop(a * y, a as int, p as int);
    lemma_mod_self_0(p as int);
    assert((a * y) % (p as int) == (a as int) % (p as int));
    assert(((a * y) - a) % (p as int) == 0) by {
        lemma_mod_twice(a as int, p as int);
        lemma_sub_mod_noop(a * y, a as int, p as int);
        assert(((a * y) % (p as int) - (a as int) % (p as int)) == 0);
        lemma_small_mod(0, p);
    }
    lemma_euclid(a, z, p);
    lemma_add_mod_noop(z as int, 1, p as int);
    lemma_small_mod(1, p);
}

} // verus!
