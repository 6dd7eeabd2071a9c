//! The Miller-Rabin probable-prime test on `BigNat`s.
//!
//! Modular exponentiation and the drawing of random witnesses are done by
//! `num-bigint`; the test itself (special cases, the split of `n - 1` into
//! `d * 2^r`, the witness schedule and each witness check) is verified here.
use crate::bignat::{canonical, limbs_value, BigNat};
use crate::symbols::is_prime;
use crate::theory::{lemma_fermat, lemma_sqrt_one_mod_prime};
use num_bigint::{BigUint, RandBigInt};
use rand::rngs::ThreadRng;
use vstd::arithmetic::div_mod::*;
use vstd::arithmetic::mul::*;
use vstd::arithmetic::power::*;
use vstd::arithmetic::power2::*;
use vstd::prelude::*;

verus! {

// ---------------------------------------------------------------------------
// Outside items
// ---------------------------------------------------------------------------
/// The thread-local random generator of `rand`, carried through opaquely.
#[verifier::external_type_specification]
#[verifier::external_body]
pub struct ExThreadRng(ThreadRng);

/// `num_bigint::BigUint::modpow` on little-endian base-2^32 limbs: the
/// limbs of `(base ^ exp) % modulus`.  Its documentation states that result
/// and that it panics on a zero modulus, which `requires` rules out; the
/// limbs come from `to_u32_digits`, which drops zero limbs from the top.
#[verifier::external_body]
fn modpow_limbs(base: &[u32], exp: &[u32], modulus: &[u32]) -> (r: Vec<u32>)
    requires
        limbs_value(modulus@) > 0,
    ensures
        limbs_value(r@) == pow(limbs_value(base@) as int, limbs_value(exp@)) % (limbs_value(
            modulus@,
        ) as int),
        canonical(r@),
{
    let b = BigUint::from_slice(base);
    let e = BigUint::from_slice(exp);
    let m = BigUint::from_slice(modulus);
    b.modpow(&e, &m).to_u32_digits()
}

/// `num_bigint::RandBigInt::gen_biguint_range` on the thread generator:
/// a random number at least `low` and below `high`.  Which number comes
/// out depends on the generator, so only the range is stated.  It panics
/// unless `low < high`, which `requires` rules out.
#[verifier::external_body]
fn random_in_range(low: &[u32], high: &[u32], rng: &mut ThreadRng) -> (r: Vec<u32>)
    requires
        limbs_value(low@) < limbs_value(high@),
    ensures
        limbs_value(low@) <= limbs_value(r@) < limbs_value(high@),
{
    let lo = BigUint::from_slice(low);
    let hi = BigUint::from_slice(high);
    rng.gen_biguint_range(&lo, &hi).to_u32_digits()
}

// ---------------------------------------------------------------------------
// The model
// ---------------------------------------------------------------------------
/// The odd part `d` of `m = d * 2^r` (zero stays zero).
pub open spec fn odd_part(m: nat) -> nat
    decreases m,
{
    if m > 0 && m % 2 == 0 {
        odd_part(m / 2)
    } else {
        m
    }
}

/// The exponent `r` of `m = d * 2^r` with `d` odd (zero for zero).
pub open spec fn two_exponent(m: nat) -> nat
    decreases m,
{
    if m > 0 && m % 2 == 0 {
        two_exponent(m / 2) + 1
    } else {
        0
    }
}

/// `a^(d * 2^k) mod n`, the `k`-th term of the squaring chain.
pub open spec fn chain(a: nat, d: nat, k: nat, n: nat) -> int {
    pow(a as int, d * pow2(k)) % (n as int)
}

/// The witness check with `n - 1 = d * 2^r`: `a` does not show `n`
/// composite when it is at least `n - 1`, when `a^d = 1 (mod n)`, or when
/// one of `a^(d * 2^k)` for `k < max(r, 1)` is `n - 1 (mod n)`.
pub open spec fn passes_with(a: nat, d: nat, r: nat, n: nat) -> bool {
    ||| a >= n - 1
    ||| pow(a as int, d) % (n as int) == 1
    ||| exists|k: nat| (k == 0 || k < r) && #[trigger] chain(a, d, k, n) == n - 1
}

/// `n` is a strong probable prime to base `a` (or `a >= n - 1`).
pub open spec fn mr_passes(a: nat, n: nat) -> bool {
    passes_with(a, odd_part((n - 1) as nat), two_exponent((n - 1) as nat), n)
}

/// The fixed bases, tried first: 2, 3, 5.
pub open spec fn det_base(i: int) -> nat {
    if i == 0 {
        2
    } else if i == 1 {
        3
    } else {
        5
    }
}

/// How many fixed bases a test with `rounds` rounds uses.
pub open spec fn det_count(rounds: nat) -> nat {
    if rounds < 3 {
        rounds
    } else {
        3
    }
}

/// All of the first `c` fixed bases pass.
pub open spec fn dets_pass(n: nat, c: nat) -> bool {
    forall|i: int| 0 <= i < c ==> mr_passes(#[trigger] det_base(i), n)
}

/// `w` is a possible draw of random witnesses for an odd `n > 3` tested
/// with `rounds` rounds, and `res` is the answer the test gives on it.
pub open spec fn outcome_on_draw(n: nat, rounds: nat, w: Seq<nat>, res: bool) -> bool {
    &&& w.len() == rounds - det_count(rounds)
    &&& forall|i: int| 0 <= i < w.len() ==> 2 <= #[trigger] w[i] < n - 1
    &&& res == (dets_pass(n, det_count(rounds)) && forall|i: int|
        0 <= i < w.len() ==> mr_passes(#[trigger] w[i], n))
}

/// What the Miller-Rabin test answers on `n` with `rounds` rounds:
/// false below 2, true for 2 and 3, false for other even numbers, and
/// otherwise whether the fixed bases and the drawn witnesses all pass.
pub open spec fn miller_rabin_answer(n: nat, rounds: nat, res: bool) -> bool {
    if n < 2 {
        !res
    } else if n == 2 || n == 3 {
        res
    } else if n % 2 == 0 {
        !res
    } else {
        exists|w: Seq<nat>| #[trigger] outcome_on_draw(n, rounds, w, res)
    }
}

// ---------------------------------------------------------------------------
// Lemmas
// ---------------------------------------------------------------------------
/// One squaring step of the chain.
proof fn lemma_chain_step(a: nat, d: nat, k: nat, n: nat)
    requires
        n > 0,
    ensures
        pow(chain(a, d, k, n), 2) % (n as int) == chain(a, d, k + 1, n),
{
    let e = d * pow2(k);
    lemma_pow_mod_noop(pow(a as int, e), 2, n as int);
    lemma_pow_multiplies(a as int, e, 2);
    lemma_pow2_adds(k, 1);
    lemma2_to64();
    lemma_mul_is_associative(d as int, pow2(k) as int, 2);
}

/// The chain starts at `a^d`.
proof fn lemma_chain_zero(a: nat, d: nat, n: nat)
    ensures
        chain(a, d, 0, n) == pow(a as int, d) % (n as int),
{
    lemma2_to64();
    assert(d * pow2(0) == d);
}

/// Halving an even positive number keeps its odd part and lowers its
/// exponent of two by one.
proof fn lemma_halve(m: nat)
    requires
        m > 0,
        m % 2 == 0,
    ensures
        odd_part(m) == odd_part(m / 2),
        two_exponent(m) == two_exponent(m / 2) + 1,
        m == (m / 2) * 2,
{
    lemma_fundamental_div_mod(m as int, 2);
}

/// `m = odd_part(m) * 2^two_exponent(m)`, and the odd part is odd.
proof fn lemma_odd_part_times(m: nat)
    requires
        m > 0,
    ensures
        odd_part(m) * pow2(two_exponent(m)) == m,
        odd_part(m) % 2 == 1,
    decreases m,
{
    lemma2_to64();
    if m % 2 == 0 {
        lemma_halve(m);
        let h = m / 2;
        lemma_odd_part_times(h);
        let e = two_exponent(h);
        lemma_pow2_adds(e, 1);
        lemma_mul_is_associative(odd_part(h) as int, pow2(e) as int, 2);
    } else {
        assert(odd_part(m) * 1 == m);
    }
}

/// The first term equal to one in a chain that reaches one.
proof fn lemma_first_one(a: nat, d: nat, n: nat, k: nat) -> (j: nat)
    requires
        chain(a, d, k, n) == 1,
        chain(a, d, 0, n) != 1,
    ensures
        1 <= j <= k,
        chain(a, d, j, n) == 1,
        chain(a, d, (j - 1) as nat, n) != 1,
    decreases k,
{
    if chain(a, d, (k - 1) as nat, n) != 1 {
        k
    } else {
        lemma_first_one(a, d, n, (k - 1) as nat)
    }
}

/// A prime passes the witness check for every base `a >= 1`: the
/// Miller-Rabin test never calls a prime composite.
pub proof fn lemma_primes_pass(a: nat, n: nat)
    requires
        is_prime(n),
        a >= 1,
    ensures
        mr_passes(a, n),
{
    let m = (n - 1) as nat;
    let d = odd_part(m);
    let r = two_exponent(m);
    if a < n - 1 {
        lemma_small_mod(a, n);
        lemma_odd_part_times(m);
        lemma_fermat(a, n);
        assert(chain(a, d, r, n) == 1);
        lemma_chain_zero(a, d, n);
        if chain(a, d, 0, n) != 1 {
            let j = lemma_first_one(a, d, n, r);
            let k = (j - 1) as nat;
            let x = chain(a, d, k, n);
            lemma_chain_step(a, d, k, n);
            assert(k + 1 == j);
            lemma_square_is_pow2(x);
            lemma_mod_bound(pow(a as int, d * pow2(k)), n as int);
            lemma_sqrt_one_mod_prime(x as nat, n);
            assert(x == n - 1);
            assert(k < r);
            assert(chain(a, d, k, n) == n - 1);
        }
    }
}

/// The Miller-Rabin test answers true on every prime, whatever witnesses
/// it draws.
pub proof fn lemma_miller_rabin_accepts_primes(n: nat, rounds: nat, res: bool)
    requires
        is_prime(n),
        miller_rabin_answer(n, rounds, res),
    ensures
        res,
{
    if n > 3 {
        if n % 2 == 0 {
            assert(n % 2 != 0);
        }
        let w = choose|w: Seq<nat>| #[trigger] outcome_on_draw(n, rounds, w, res);
        assert forall|i: int| 0 <= i < det_count(rounds) implies mr_passes(
            #[trigger] det_base(i),
            n,
        ) by {
            lemma_primes_pass(det_base(i), n);
        }
        assert forall|i: int| 0 <= i < w.len() implies mr_passes(#[trigger] w[i], n) by {
            lemma_primes_pass(w[i], n);
        }
    }
}

/// The split `m = d * 2^r` with `d` odd is unique: any such `d` and `r`
/// are the odd part and the exponent of two.
pub proof fn lemma_split_unique(m: nat, d: nat, r: nat)
    requires
        d % 2 == 1,
        m == d * pow2(r),
    ensures
        odd_part(m) == d,
        two_exponent(m) == r,
    decreases r,
{
    lemma2_to64();
    if r == 0 {
        assert(d * pow2(0) == d);
        assert(m == d);
    } else {
        lemma_pow2_adds((r - 1) as nat, 1);
        let h = d * pow2((r - 1) as nat);
        lemma_mul_is_associative(d as int, pow2((r - 1) as nat) as int, 2);
        assert(m == h * 2);
        lemma_pow2_pos((r - 1) as nat);
        lemma_mul_increases(pow2((r - 1) as nat) as int, d as int);
        assert(h >= 1) by (nonlinear_arith)
            requires
                d >= 1,
                pow2((r - 1) as nat) >= 1,
                h == d * pow2((r - 1) as nat),
        ;
        lemma_halve(m);
        assert(m / 2 == h);
        lemma_split_unique(h, d, (r - 1) as nat);
    }
}

/// What a passed witness check means: for a base `a` with
/// `2 <= a < n - 1` and `n - 1 = d * 2^r`, either `a^d = 1 (mod n)` or
/// `a^(d * 2^k) = n - 1 (mod n)` for some `k < max(r, 1)`.
pub proof fn lemma_witness_check_meaning(a: nat, d: nat, r: nat, n: nat)
    requires
        passes_with(a, d, r, n),
        2 <= a < n - 1,
    ensures
        strong_probable_prime(a, n, d, r),
{
    if !(pow(a as int, d) % (n as int) == 1) {
        let k = choose|k: nat| (k == 0 || k < r) && #[trigger] chain(a, d, k, n) == n - 1;
        assert(pow(a as int, d * pow2(k)) % (n as int) == n - 1);
    }
}

/// `n` is a strong probable prime to base `b`, with `n - 1 = d * 2^r`:
/// `b^d = 1 (mod n)` or `b^(d * 2^k) = n - 1 (mod n)` for some
/// `k < max(r, 1)`.
pub open spec fn strong_probable_prime(b: nat, n: nat, d: nat, r: nat) -> bool {
    ||| pow(b as int, d) % (n as int) == 1
    ||| exists|k: nat| (k == 0 || k < r) && #[trigger] (pow(b as int, d * pow2(k)) % (n as int)) == n - 1
}

/// What an accepted odd `n > 3` is, with `n - 1 = d * 2^r`, `d` odd: a
/// strong probable prime to base 2 once there is a round, to base 3 once
/// there are two, to base 5 once there are three, and to each of the
/// `rounds - 3` witnesses of some draw from `[2, n - 1)` beyond that.
pub proof fn lemma_accepted_is_strong_probable_prime(n: nat, rounds: nat, d: nat, r: nat)
    requires
        n > 3,
        n % 2 == 1,
        miller_rabin_answer(n, rounds, true),
        d % 2 == 1,
        n - 1 == d * pow2(r),
    ensures
        rounds >= 1 ==> strong_probable_prime(2, n, d, r),
        rounds >= 2 && n > 4 ==> strong_probable_prime(3, n, d, r),
        rounds >= 3 && n > 6 ==> strong_probable_prime(5, n, d, r),
        exists|w: Seq<nat>|
            {
                &&& w.len() == (if rounds < 3 {
                    0
                } else {
                    rounds - 3
                })
                &&& forall|i: int|
                    0 <= i < w.len() ==> 2 <= #[trigger] w[i] < n - 1 && strong_probable_prime(
                        w[i],
                        n,
                        d,
                        r,
                    )
            },
{
    lemma_split_unique((n - 1) as nat, d, r);
    let w = choose|w: Seq<nat>| #[trigger] outcome_on_draw(n, rounds, w, true);
    if rounds >= 1 {
        assert(mr_passes(det_base(0), n));
        lemma_witness_check_meaning(2, d, r, n);
    }
    if rounds >= 2 && n > 4 {
        assert(mr_passes(det_base(1), n));
        lemma_witness_check_meaning(3, d, r, n);
    }
    if rounds >= 3 && n > 6 {
        assert(mr_passes(det_base(2), n));
        lemma_witness_check_meaning(5, d, r, n);
    }
    assert forall|i: int| 0 <= i < w.len() implies 2 <= #[trigger] w[i] < n - 1
        && strong_probable_prime(w[i], n, d, r) by {
        assert(mr_passes(w[i], n));
        lemma_witness_check_meaning(w[i], d, r, n);
    }
}

// ---------------------------------------------------------------------------
// The test
// ---------------------------------------------------------------------------
/// `(base ^ exp) % modulus`.
pub fn mod_pow(base: &BigNat, exp: &BigNat, modulus: &BigNat) -> (r: BigNat)
    requires
        modulus@ > 0,
    ensures
        r@ == pow(base@ as int, exp@) % (modulus@ as int),
{
    let v = modpow_limbs(base.limbs(), exp.limbs(), modulus.limbs());
    BigNat::from_limbs(v)
}

/// A random number with `low <= r < high`.
pub fn random_between(low: &BigNat, high: &BigNat, rng: &mut ThreadRng) -> (r: BigNat)
    requires
        low@ < high@,
    ensures
        low@ <= r@ < high@,
{
    let v = random_in_range(low.limbs(), high.limbs(), rng);
    BigNat::from_limbs(v)
}

/// One Miller-Rabin witness check, with `n - 1 = d * 2^r`: true when `a`
/// does not witness that `n` is composite.
pub fn mr_witness_passes(a: &BigNat, d: &BigNat, r: u32, n: &BigNat, n_minus_1: &BigNat) -> (ok:
    bool)
    requires
        n@ >= 2,
        n_minus_1@ == n@ - 1,
    ensures
        ok == passes_with(a@, d@, r as nat, n@),
{
    if a.compare(n_minus_1) >= 0 {
        return true;
    }
    let one = BigNat::from_u32(1);
    let two = BigNat::from_u32(2);
    let mut x = mod_pow(a, d, n);
    proof {
        lemma_chain_zero(a@, d@, n@);
    }
    if x.compare(&one) == 0 || x.compare(n_minus_1) == 0 {
        return true;
    }
    let steps: u32 = if r > 0 {
        r - 1
    } else {
        0
    };
    let mut k: u32 = 0;
    while k < steps
        invariant
            n@ >= 2,
            n_minus_1@ == n@ - 1,
            two@ == 2,
            steps == (if r > 0 {
                r - 1
            } else {
                0
            }),
            k <= steps,
            a@ < n@ - 1,
            pow(a@ as int, d@) % (n@ as int) != 1,
            x@ == chain(a@, d@, k as nat, n@),
            forall|j: nat| j <= k ==> #[trigger] chain(a@, d@, j, n@) != n@ - 1,
        decreases steps - k,
    {
        proof {
            lemma_chain_step(a@, d@, k as nat, n@);
        }
        x = mod_pow(&x, &two, n);
        k = k + 1;
        if x.compare(n_minus_1) == 0 {
            proof {
                assert(chain(a@, d@, k as nat, n@) == n@ - 1);
                assert((k as nat) < r);
            }
            return true;
        }
        proof {
            assert forall|j: nat| j <= k implies #[trigger] chain(a@, d@, j, n@) != n@ - 1 by {
                if j < k {
                }
            }
        }
    }
    proof {
        assert forall|j: nat| (j == 0 || j < r) implies #[trigger] chain(a@, d@, j, n@) != n@
            - 1 by {
            assert(j <= steps);
        }
    }
    false
}

/// Whether `is_prime_miller_rabin` can take `n`: true unless `n > 3` and
/// `n - 1` is divisible by `2^(2^32)`, where the count of halvings of
/// `n - 1` would no longer fit a `u32`.
pub fn two_exponent_fits_u32(n: &BigNat) -> (ok: bool)
    ensures
        ok == (n@ > 3 ==> two_exponent((n@ - 1) as nat) <= 0xffff_ffff),
{
    let three = BigNat::from_u32(3);
    if n.compare(&three) <= 0 {
        return true;
    }
    let mut d = n.sub_u32(1);
    let mut r: u64 = 0;
    while d.is_even() && r <= 0xffff_ffff
        invariant
            n@ > 3,
            d@ > 0,
            r + two_exponent(d@) == two_exponent((n@ - 1) as nat),
            r <= 0x1_0000_0000,
        decreases d@,
    {
        proof {
            lemma_halve(d@);
        }
        d = d.shr1();
        r = r + 1;
    }
    r <= 0xffff_ffff
}

/// The Miller-Rabin test with `rounds` rounds: the fixed bases 2, 3, 5
/// first (as many as `rounds` allows), then random witnesses in
/// `[2, n - 1)` for the remaining rounds.  The exponent of two in `n - 1`
/// must fit a `u32` (see `two_exponent_fits_u32`).
pub fn is_prime_miller_rabin(n: &BigNat, rounds: u32, rng: &mut ThreadRng) -> (res: bool)
    requires
        n@ > 3 ==> two_exponent((n@ - 1) as nat) <= 0xffff_ffff,
    ensures
        miller_rabin_answer(n@, rounds as nat, res),
{
    let two = BigNat::from_u32(2);
    let three = BigNat::from_u32(3);
    if n.compare(&two) < 0 {
        return false;
    }
    if n.compare(&two) == 0 || n.compare(&three) == 0 {
        return true;
    }
    if n.is_even() {
        return false;
    }
    let n_minus_1 = n.sub_u32(1);
    let mut d = n.sub_u32(1);
    let mut r: u32 = 0;
    proof {
        lemma2_to64();
        assert(d@ * pow2(0) == d@);
    }
    while d.is_even()
        invariant
            n@ >= 5,
            two_exponent((n@ - 1) as nat) <= 0xffff_ffff,
            d@ > 0,
            n@ - 1 == d@ * pow2(r as nat),
            odd_part(d@) == odd_part((n@ - 1) as nat),
            two_exponent(d@) + r == two_exponent((n@ - 1) as nat),
        decreases d@,
    {
        proof {
            lemma_halve(d@);
            lemma_pow2_adds(r as nat, 1);
            lemma2_to64();
            lemma_mul_is_associative((d@ / 2) as int, 2, pow2(r as nat) as int);
            lemma_pow2_pos(r as nat);
            let q = d@ / 2;
            assert(q >= 1);
            assert(r + 1 <= two_exponent((n@ - 1) as nat));
        }
        d = d.shr1();
        r = r + 1;
    }
    proof {
        assert(odd_part(d@) == d@);
        assert(two_exponent(d@) == 0);
    }
    let fixed: u32 = if rounds < 3 {
        rounds
    } else {
        3
    };
    let mut i: u32 = 0;
    while i < fixed
        invariant
            n@ >= 5,
            n@ % 2 == 1,
            n_minus_1@ == n@ - 1,
            d@ == odd_part((n@ - 1) as nat),
            r == two_exponent((n@ - 1) as nat),
            fixed == det_count(rounds as nat),
            i <= fixed,
            dets_pass(n@, i as nat),
        decreases fixed - i,
    {
        let b: u32 = if i == 0 {
            2
        } else if i == 1 {
            3
        } else {
            5
        };
        let a = BigNat::from_u32(b);
        if !mr_witness_passes(&a, &d, r, n, &n_minus_1) {
            proof {
                assert(!mr_passes(det_base(i as int), n@));
                let w = Seq::new((rounds - fixed) as nat, |j: int| 2nat);
                assert(outcome_on_draw(n@, rounds as nat, w, false));
            }
            return false;
        }
        proof {
            assert(mr_passes(det_base(i as int), n@));
        }
        i = i + 1;
    }
    let random_rounds: u32 = rounds - fixed;
    let low = BigNat::from_u32(2);
    let mut j: u32 = 0;
    let ghost mut drawn: Seq<nat> = Seq::empty();
    while j < random_rounds
        invariant
            n@ >= 5,
            n@ % 2 == 1,
            n_minus_1@ == n@ - 1,
            low@ == 2,
            d@ == odd_part((n@ - 1) as nat),
            r == two_exponent((n@ - 1) as nat),
            fixed == det_count(rounds as nat),
            random_rounds == rounds - fixed,
            dets_pass(n@, fixed as nat),
            j <= random_rounds,
            drawn.len() == j,
            forall|q: int| 0 <= q < j ==> 2 <= #[trigger] drawn[q] < n@ - 1,
            forall|q: int| 0 <= q < j ==> mr_passes(#[trigger] drawn[q], n@),
        decreases random_rounds - j,
    {
        let a = random_between(&low, &n_minus_1, rng);
        proof {
            drawn = drawn.push(a@);
        }
        if !mr_witness_passes(&a, &d, r, n, &n_minus_1) {
            proof {
                let w = Seq::new(
                    random_rounds as nat,
                    |q: int|
                        if q < drawn.len() {
                            drawn[q]
                        } else {
                            2nat
                        },
                );
                assert(w[j as int] == a@);
                assert(outcome_on_draw(n@, rounds as nat, w, false));
            }
            return false;
        }
        j = j + 1;
    }
    proof {
        assert(outcome_on_draw(n@, rounds as nat, drawn, true));
    }
    true
}

} // verus!
