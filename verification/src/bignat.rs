//! Natural numbers of any size, held as little-endian base-2^32 limbs with
//! no zero limb at the top.  The view of a `BigNat` is the number it holds.
use vstd::arithmetic::div_mod::*;
use vstd::arithmetic::mul::*;
use vstd::prelude::*;

verus! {

/// `2^32`, the limb base.
pub open spec fn base() -> nat {
    0x1_0000_0000
}

/// `(2^32)^k`, the weight of limb `k`.
pub open spec fn radix(k: nat) -> nat
    decreases k,
{
    if k == 0 {
        1
    } else {
        base() * radix((k - 1) as nat)
    }
}

/// The number that a sequence of little-endian limbs denotes.
pub open spec fn limbs_value(s: Seq<u32>) -> nat
    decreases s.len(),
{
    if s.len() == 0 {
        0
    } else {
        limbs_value(s.drop_last()) + (s.last() as nat) * radix((s.len() - 1) as nat)
    }
}

/// A limb sequence is canonical when its top limb is not zero.
pub open spec fn canonical(s: Seq<u32>) -> bool {
    s.len() == 0 || s.last() != 0
}

/// Limb `i`, or zero past the end.
pub open spec fn limb_at(s: Seq<u32>, i: int) -> nat {
    if 0 <= i < s.len() {
        s[i] as nat
    } else {
        0
    }
}

// ---------------------------------------------------------------------------
// Lemmas on limb sequences
// ---------------------------------------------------------------------------
pub proof fn lemma_radix_pos(k: nat)
    ensures
        radix(k) > 0,
    decreases k,
{
    if k > 0 {
        lemma_radix_pos((k - 1) as nat);
        lemma_mul_strictly_positive(base() as int, radix((k - 1) as nat) as int);
    }
}

pub proof fn lemma_radix_add(a: nat, b: nat)
    ensures
        radix(a + b) == radix(a) * radix(b),
    decreases a,
{
    if a == 0 {
        assert(radix(0) == 1);
        assert(radix(0) * radix(b) == radix(b));
    } else {
        lemma_radix_add((a - 1) as nat, b);
        assert(radix(a + b) == base() * radix((a - 1 + b) as nat));
        lemma_mul_is_associative(base() as int, radix((a - 1) as nat) as int, radix(b) as int);
    }
}

pub proof fn lemma_radix_monotonic(a: nat, b: nat)
    requires
        a <= b,
    ensures
        radix(a) <= radix(b),
    decreases b,
{
    if a < b {
        lemma_radix_monotonic(a, (b - 1) as nat);
        lemma_radix_pos((b - 1) as nat);
        lemma_mul_increases(base() as int, radix((b - 1) as nat) as int);
    }
}

/// Appending a limb adds it at the next weight.
pub proof fn lemma_value_push(s: Seq<u32>, x: u32)
    ensures
        limbs_value(s.push(x)) == limbs_value(s) + x * radix(s.len()),
{
    assert(s.push(x).drop_last() =~= s);
}

/// Prefixes grow by one weighted limb at a time.
pub proof fn lemma_value_take_step(s: Seq<u32>, i: int)
    requires
        0 <= i < s.len(),
    ensures
        limbs_value(s.take(i + 1)) == limbs_value(s.take(i)) + s[i] * radix(i as nat),
{
    assert(s.take(i + 1).drop_last() =~= s.take(i));
}

/// The value of `s` is below the weight of the next limb.
pub proof fn lemma_value_bound(s: Seq<u32>)
    ensures
        limbs_value(s) < radix(s.len()),
    decreases s.len(),
{
    if s.len() > 0 {
        let k = (s.len() - 1) as nat;
        lemma_value_bound(s.drop_last());
        assert(limbs_value(s) < radix(k) + s.last() * radix(k));
        lemma_mul_is_distributive_add_other_way(radix(k) as int, 1, s.last() as int);
        assert(radix(k) + s.last() * radix(k) == (1 + s.last()) * radix(k));
        lemma_mul_inequality(1 + s.last() as int, base() as int, radix(k) as int);
        lemma_mul_is_commutative(base() as int, radix(k) as int);
    }
}

/// A canonical nonempty sequence is at least the weight of its top limb.
pub proof fn lemma_value_lower(s: Seq<u32>)
    requires
        s.len() > 0,
        canonical(s),
    ensures
        limbs_value(s) >= radix((s.len() - 1) as nat),
{
    let k = (s.len() - 1) as nat;
    lemma_radix_pos(k);
    lemma_mul_increases(s.last() as int, radix(k) as int);
}

/// Splitting a sequence at `k`: low part plus weighted high part.
pub proof fn lemma_value_split(s: Seq<u32>, k: int)
    requires
        0 <= k <= s.len(),
    ensures
        limbs_value(s) == limbs_value(s.take(k)) + radix(k as nat) * limbs_value(s.skip(k)),
    decreases s.len(),
{
    if k == s.len() {
        assert(s.take(k) =~= s);
        assert(s.skip(k) =~= Seq::<u32>::empty());
        assert(limbs_value(s.skip(k)) == 0);
    } else {
        let t = s.drop_last();
        lemma_value_split(t, k);
        assert(t.take(k) =~= s.take(k));
        let hi = s.skip(k);
        assert(hi.drop_last() =~= t.skip(k));
        assert(hi.last() == s.last());
        let j = (s.len() - 1 - k) as nat;
        assert(limbs_value(hi) == limbs_value(t.skip(k)) + s.last() * radix(j));
        lemma_radix_add(k as nat, j);
        assert((k + j) as nat == (s.len() - 1) as nat);
        lemma_mul_is_distributive_add(
            radix(k as nat) as int,
            limbs_value(t.skip(k)) as int,
            s.last() * radix(j),
        );
        lemma_mul_is_associative(radix(k as nat) as int, s.last() as int, radix(j) as int);
        lemma_mul_is_commutative(radix(k as nat) as int, s.last() as int);
        lemma_mul_is_associative(s.last() as int, radix(k as nat) as int, radix(j) as int);
    }
}

/// The lowest limb and the rest.
pub proof fn lemma_value_first(s: Seq<u32>)
    requires
        s.len() > 0,
    ensures
        limbs_value(s) == s[0] + base() * limbs_value(s.skip(1)),
{
    lemma_value_split(s, 1);
    assert(s.take(1).drop_last() =~= Seq::<u32>::empty());
    assert(radix(0) == 1);
    assert(limbs_value(s.take(1).drop_last()) == 0);
    assert(limbs_value(s.take(1)) == s[0] * radix(0));
    lemma_mul_basics(s[0] as int);
    assert(limbs_value(s.take(1)) == s[0]);
    assert(radix(1) == base() * radix(0));
    lemma_mul_basics(base() as int);
    assert(radix(1) == base());
}

/// The parity of a number is the parity of its lowest limb.
pub proof fn lemma_value_parity(s: Seq<u32>)
    ensures
        limbs_value(s) % 2 == limb_at(s, 0) % 2,
{
    if s.len() > 0 {
        lemma_value_first(s);
        let r = limbs_value(s.skip(1));
        assert(base() * r == 2 * (0x8000_0000 * r)) by (nonlinear_arith);
        lemma_mod_multiples_vanish(0x8000_0000 * r as int, s[0] as int, 2);
    } else {
        assert(limbs_value(s) == 0);
    }
}

/// Comparing sequences of equal length that agree above position `k`
/// reduces to comparing what lies from `k` up.
pub proof fn lemma_value_lt_by_top(s: Seq<u32>, t: Seq<u32>, k: int)
    requires
        s.len() == t.len(),
        0 <= k <= s.len(),
        limbs_value(s.skip(k)) < limbs_value(t.skip(k)),
    ensures
        limbs_value(s) < limbs_value(t),
{
    lemma_value_split(s, k);
    lemma_value_split(t, k);
    lemma_value_bound(s.take(k));
    let r = radix(k as nat);
    let a = limbs_value(s.skip(k));
    let b = limbs_value(t.skip(k));
    lemma_mul_inequality(a + 1int, b as int, r as int);
    lemma_mul_is_distributive_add_other_way(r as int, a as int, 1);
    lemma_mul_is_commutative(r as int, a as int);
    lemma_mul_is_commutative(r as int, b as int);
}

/// Canonical sequences of different length compare by length.
pub proof fn lemma_value_lt_by_len(s: Seq<u32>, t: Seq<u32>)
    requires
        canonical(t),
        s.len() < t.len(),
    ensures
        limbs_value(s) < limbs_value(t),
{
    lemma_value_bound(s);
    lemma_value_lower(t);
    lemma_radix_monotonic(s.len() as nat, (t.len() - 1) as nat);
}

/// Dropping zero limbs from the top keeps the value.
pub proof fn lemma_value_pop_zero(s: Seq<u32>)
    requires
        s.len() > 0,
        s.last() == 0,
    ensures
        limbs_value(s.drop_last()) == limbs_value(s),
{
}

/// Weighted step used by the carry loops: `out + t * w` where
/// `t = lo + hi * base`.
proof fn lemma_carry_step(w: nat, t: nat, lo: nat, hi: nat)
    requires
        t == lo + hi * base(),
    ensures
        lo * w + hi * (base() * w) == t * w,
{
    assert(lo * w + hi * (base() * w) == (lo + hi * base()) * w) by (nonlinear_arith);
}

// ---------------------------------------------------------------------------
// The type
// ---------------------------------------------------------------------------
/// A natural number of any size.
pub struct BigNat {
    limbs: Vec<u32>,
}

impl View for BigNat {
    type V = nat;

    closed spec fn view(&self) -> nat {
        limbs_value(self.limbs@)
    }
}

impl BigNat {
    #[verifier::type_invariant]
    closed spec fn well_formed(self) -> bool {
        canonical(self.limbs@)
    }

    /// The limbs of the number, least significant first.
    pub closed spec fn limbs_spec(self) -> Seq<u32> {
        self.limbs@
    }

    /// The limbs of the number, least significant first, with no zero limb
    /// at the top.
    pub fn limbs(&self) -> (l: &[u32])
        ensures
            l@ == self.limbs_spec(),
            limbs_value(l@) == self@,
            canonical(l@),
    {
        proof {
            use_type_invariant(self);
        }
        self.limbs.as_slice()
    }

    /// Builds a number from little-endian limbs, dropping zero limbs from
    /// the top.
    pub fn from_limbs(v: Vec<u32>) -> (n: BigNat)
        ensures
            n@ == limbs_value(v@),
    {
        let mut v = v;
        let ghost orig = v@;
        while v.len() > 0 && v[v.len() - 1] == 0
            invariant
                limbs_value(v@) == limbs_value(orig),
            decreases v.len(),
        {
            proof {
                lemma_value_pop_zero(v@);
            }
            v.pop();
        }
        BigNat { limbs: v }
    }

    /// Zero.
    pub fn zero() -> (n: BigNat)
        ensures
            n@ == 0,
    {
        BigNat { limbs: Vec::new() }
    }

    /// A number below 2^32.
    pub fn from_u32(x: u32) -> (n: BigNat)
        ensures
            n@ == x,
    {
        let mut v: Vec<u32> = Vec::new();
        v.push(x);
        proof {
            lemma_value_push(Seq::<u32>::empty(), x);
            assert(radix(0) == 1);
            assert(limbs_value(Seq::<u32>::empty()) == 0);
            assert(v@ =~= Seq::<u32>::empty().push(x));
            assert(limbs_value(v@) == limbs_value(Seq::<u32>::empty()) + x * radix(0));
            lemma_mul_basics(x as int);
            assert(x * radix(0) == x);
            assert(limbs_value(v@) == x as nat);
        }
        BigNat::from_limbs(v)
    }

    /// Whether the number is even.
    pub fn is_even(&self) -> (e: bool)
        ensures
            e == (self@ % 2 == 0),
    {
        proof {
            lemma_value_parity(self.limbs@);
        }
        self.limbs.len() == 0 || self.limbs[0] % 2 == 0
    }

    /// Three-way comparison: -1, 0 or 1 as `self` is below, equal to or
    /// above `other`.
    pub fn compare(&self, other: &BigNat) -> (c: i8)
        ensures
            c == -1 <==> self@ < other@,
            c == 0 <==> self@ == other@,
            c == 1 <==> self@ > other@,
    {
        proof {
            use_type_invariant(self);
            use_type_invariant(other);
        }
        let a = &self.limbs;
        let b = &other.limbs;
        if a.len() < b.len() {
            proof {
                lemma_value_lt_by_len(a@, b@);
            }
            return -1;
        }
        if a.len() > b.len() {
            proof {
                lemma_value_lt_by_len(b@, a@);
            }
            return 1;
        }
        let mut i = a.len();
        while i > 0
            invariant
                a.len() == b.len(),
                a@ == self.limbs@,
                b@ == other.limbs@,
                i <= a.len(),
                a@.skip(i as int) =~= b@.skip(i as int),
            decreases i,
        {
            let x = a[i - 1];
            let y = b[i - 1];
            if x != y {
                proof {
                    let k = (i - 1) as int;
                    lemma_value_first(a@.skip(k));
                    lemma_value_first(b@.skip(k));
                    assert(a@.skip(k).skip(1) =~= a@.skip(i as int));
                    assert(b@.skip(k).skip(1) =~= b@.skip(i as int));
                    assert(a@.skip(k)[0] == x);
                    assert(b@.skip(k)[0] == y);
                    if x < y {
                        lemma_value_lt_by_top(a@, b@, k);
                    } else {
                        lemma_value_lt_by_top(b@, a@, k);
                    }
                }
                if x < y {
                    return -1;
                } else {
                    return 1;
                }
            }
            proof {
                assert(a@.skip(i - 1) =~= a@.skip(i as int).insert(0, x));
                assert(b@.skip(i - 1) =~= b@.skip(i as int).insert(0, y));
            }
            i = i - 1;
        }
        proof {
            assert(a@ =~= a@.skip(0));
            assert(b@ =~= b@.skip(0));
        }
        0
    }

    /// `self * m + c`.
    pub fn mul_add_u32(&self, m: u32, c: u32) -> (r: BigNat)
        ensures
            r@ == self@ * m + c,
    {
        let a = &self.limbs;
        let n = a.len();
        let mut out: Vec<u32> = Vec::new();
        let mut carry: u64 = c as u64;
        let mut i: usize = 0;
        proof {
            assert(a@.take(0) =~= Seq::<u32>::empty());
            assert(out@ =~= Seq::<u32>::empty());
            assert(limbs_value(Seq::<u32>::empty()) == 0);
            assert(radix(0) == 1);
        }
        while i < n
            invariant
                n == a@.len(),
                i <= n,
                out@.len() == i,
                carry < base(),
                limbs_value(out@) + carry * radix(i as nat) == limbs_value(a@.take(i as int)) * m
                    + c,
            decreases n - i,
        {
            let x = a[i] as u64;
            assert(x * (m as u64) <= 0xffff_ffff * 0xffff_ffff) by (nonlinear_arith)
                requires
                    x <= 0xffff_ffff,
                    m <= 0xffff_ffff,
            ;
            let t: u64 = x * (m as u64) + carry;
            let lo: u32 = (t % 0x1_0000_0000) as u32;
            let hi: u64 = t / 0x1_0000_0000;
            proof {
                let w = radix(i as nat);
                lemma_value_push(out@, lo);
                lemma_value_take_step(a@, i as int);
                lemma_carry_step(w, t as nat, lo as nat, hi as nat);
                assert(radix((i + 1) as nat) == base() * w);
                assert(t * w == x * m * w + carry * w) by (nonlinear_arith)
                    requires
                        t == x * m + carry,
                ;
                assert(limbs_value(a@.take(i as int)) * m + a[i as int] * w * m == limbs_value(
                    a@.take(i + 1),
                ) * m) by (nonlinear_arith)
                    requires
                        limbs_value(a@.take(i + 1)) == limbs_value(a@.take(i as int)) + a[i as int]
                            * w,
                ;
                assert(x * m * w == a[i as int] * w * m) by (nonlinear_arith)
                    requires
                        x == a[i as int],
                ;
            }
            out.push(lo);
            carry = hi;
            i = i + 1;
        }
        proof {
            assert(a@.take(n as int) =~= a@);
            lemma_value_push(out@, carry as u32);
        }
        out.push(carry as u32);
        BigNat::from_limbs(out)
    }

    /// `self + k`.
    pub fn add_u32(&self, k: u32) -> (r: BigNat)
        ensures
            r@ == self@ + k,
    {
        let r = self.mul_add_u32(1, k);
        r
    }

    /// `self - k`, for `self >= k`.
    pub fn sub_u32(&self, k: u32) -> (r: BigNat)
        requires
            self@ >= k,
        ensures
            r@ == self@ - k,
    {
        let a = &self.limbs;
        let n = a.len();
        let mut out: Vec<u32> = Vec::new();
        let mut borrow: u64 = k as u64;
        let mut i: usize = 0;
        proof {
            assert(a@.take(0) =~= Seq::<u32>::empty());
            assert(out@ =~= Seq::<u32>::empty());
            assert(limbs_value(Seq::<u32>::empty()) == 0);
            assert(radix(0) == 1);
        }
        while i < n
            invariant
                n == a@.len(),
                i <= n,
                out@.len() == i,
                borrow <= k,
                limbs_value(out@) + k == limbs_value(a@.take(i as int)) + borrow * radix(
                    i as nat,
                ),
            decreases n - i,
        {
            let x = a[i] as u64;
            let ghost w = radix(i as nat);
            proof {
                lemma_value_take_step(a@, i as int);
                assert(radix((i + 1) as nat) == base() * w);
            }
            if x >= borrow {
                let lo = (x - borrow) as u32;
                proof {
                    lemma_value_push(out@, lo);
                    assert(lo * w + borrow * w == x * w) by (nonlinear_arith)
                        requires
                            lo == x - borrow,
                    ;
                }
                out.push(lo);
                borrow = 0;
            } else {
                let lo = (x + 0x1_0000_0000 - borrow) as u32;
                proof {
                    lemma_value_push(out@, lo);
                    assert(lo * w + borrow * w == x * w + 1 * (base() * w)) by (nonlinear_arith)
                        requires
                            lo == x + base() - borrow,
                    ;
                }
                out.push(lo);
                borrow = 1;
            }
            i = i + 1;
        }
        proof {
            assert(a@.take(n as int) =~= a@);
            lemma_value_bound(out@);
            if borrow > 0 {
                lemma_mul_increases(borrow as int, radix(n as nat) as int);
                assert(false);
            }
        }
        BigNat::from_limbs(out)
    }

    /// `self / 2`, rounding down.
    pub fn shr1(&self) -> (r: BigNat)
        ensures
            r@ == self@ / 2,
    {
        let a = &self.limbs;
        let n = a.len();
        let mut out: Vec<u32> = Vec::new();
        let mut i: usize = 0;
        proof {
            assert(a@.take(0) =~= Seq::<u32>::empty());
            assert(out@ =~= Seq::<u32>::empty());
            assert(limbs_value(Seq::<u32>::empty()) == 0);
            assert(radix(0) == 1);
        }
        while i < n
            invariant
                n == a@.len(),
                i <= n,
                out@.len() == i,
                2 * limbs_value(out@) + limb_at(a@, 0) % 2 == limbs_value(a@.take(i as int))
                    + (limb_at(a@, i as int) % 2) * radix(i as nat),
            decreases n - i,
        {
            let x = a[i];
            let next: u32 = if i + 1 < n {
                a[i + 1]
            } else {
                0
            };
            let lo: u32 = x / 2 + (next % 2) * 0x8000_0000;
            proof {
                let w = radix(i as nat);
                lemma_value_push(out@, lo);
                lemma_value_take_step(a@, i as int);
                assert(radix((i + 1) as nat) == base() * w);
                assert(next == limb_at(a@, i + 1));
                assert(x == limb_at(a@, i as int));
                assert(2 * (lo * w) + (x % 2) * w == x * w + (next % 2) * (base() * w))
                    by (nonlinear_arith)
                    requires
                        lo == x / 2 + (next % 2) * 0x8000_0000,
                ;
            }
            out.push(lo);
            i = i + 1;
        }
        proof {
            assert(a@.take(n as int) =~= a@);
            lemma_value_parity(a@);
            assert(limb_at(a@, n as int) == 0);
            lemma_mul_basics(radix(n as nat) as int);
            assert(2 * limbs_value(out@) + limb_at(a@, 0) % 2 == limbs_value(a@));
            assert(limbs_value(out@) * 2 == 2 * limbs_value(out@));
            lemma_fundamental_div_mod_converse(
                limbs_value(a@) as int,
                2,
                limbs_value(out@) as int,
                (limb_at(a@, 0) % 2) as int,
            );
        }
        BigNat::from_limbs(out)
    }
}

} // verus!
