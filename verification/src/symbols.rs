//! Symbol sequences and the cheap gates that run on them before any big
//! number is built.
//!
//! A candidate is a sequence of symbols; symbol `i` is the base-4 digit of
//! weight `4^i` (least significant first).  The alphabet is {-1, 0, 1, 2},
//! where -1 stands for the digit 3.  Any other byte is read the way the
//! hunter reads it: as an unsigned 32-bit number.
use vstd::arithmetic::div_mod::*;
use vstd::arithmetic::mul::*;
use crate::bignat::BigNat;
use vstd::prelude::*;

verus! {

// ---------------------------------------------------------------------------
// The model
// ---------------------------------------------------------------------------
/// The 32-bit digit a symbol is read as: -1 is 3, any other symbol is the
/// symbol converted to `u32`.
pub open spec fn digit_u32(s: i8) -> u32 {
    if s == -1 {
        3u32
    } else {
        s as u32
    }
}

/// The digit of a symbol as a natural number.
pub open spec fn digit(s: i8) -> nat {
    digit_u32(s) as nat
}

/// Whether a symbol belongs to the alphabet {-1, 0, 1, 2}.
pub open spec fn is_symbol(s: i8) -> bool {
    -1 <= s <= 2
}

/// Whether every symbol of a sequence belongs to the alphabet.
pub open spec fn all_symbols(s: Seq<i8>) -> bool {
    forall|i: int| 0 <= i < s.len() ==> is_symbol(#[trigger] s[i])
}

/// `4^k`.
pub open spec fn pow4(k: nat) -> nat
    decreases k,
{
    if k == 0 {
        1
    } else {
        4 * pow4((k - 1) as nat)
    }
}

/// The number a symbol sequence collapses to: the sum of `digit(s[i]) * 4^i`.
pub open spec fn sym_value(s: Seq<i8>) -> nat
    decreases s.len(),
{
    if s.len() == 0 {
        0
    } else {
        sym_value(s.drop_last()) + digit(s.last()) * pow4((s.len() - 1) as nat)
    }
}

/// XOR of the 32-bit digits of a sequence.
pub open spec fn xor_digits(s: Seq<i8>) -> u32
    decreases s.len(),
{
    if s.len() == 0 {
        0u32
    } else {
        xor_digits(s.drop_last()) ^ digit_u32(s.last())
    }
}

/// Number of positions of `s` that hold the symbol `v`.
pub open spec fn count_symbol(s: Seq<i8>, v: int) -> nat
    decreases s.len(),
{
    if s.len() == 0 {
        0
    } else {
        count_symbol(s.drop_last(), v) + if s.last() == v {
            1nat
        } else {
            0nat
        }
    }
}

/// Number of adjacent pairs `(s[i], s[i + 1])` equal to `(x, y)`.
pub open spec fn count_pair(s: Seq<i8>, x: int, y: int) -> nat
    decreases s.len(),
{
    if s.len() < 2 {
        0
    } else {
        count_pair(s.drop_last(), x, y) + if s[s.len() - 2] == x && s.last() == y {
            1nat
        } else {
            0nat
        }
    }
}

/// Primality of a natural number.
pub open spec fn is_prime(n: nat) -> bool {
    n > 1 && forall|d: nat| 1 < d < n ==> #[trigger] (n % d) != 0
}

/// The moduli of the residue filter, by position.
pub open spec fn residue_modulus(i: int) -> nat {
    if i == 0 {
        3
    } else if i == 1 {
        5
    } else if i == 2 {
        7
    } else if i == 3 {
        11
    } else if i == 4 {
        13
    } else if i == 5 {
        17
    } else if i == 6 {
        19
    } else {
        23
    }
}

/// How many leading symbols the partial collapse looks at.
pub open spec fn partial_len(len: nat) -> nat {
    if len < 256 {
        len
    } else {
        256
    }
}

/// What the partial-collapse gate accepts: the value of the leading
/// symbols is not a multiple of 65537 and the XOR of their digits lies in
/// (0, 256).
pub open spec fn partial_collapse_accepts(s: Seq<i8>) -> bool {
    let p = s.take(partial_len(s.len()) as int);
    &&& sym_value(p) % 65537 != 0
    &&& 0 < xor_digits(p)
    &&& xor_digits(p) < 256
}

// ---------------------------------------------------------------------------
// Lemmas about the model
// ---------------------------------------------------------------------------
/// `4^k` is positive.
pub proof fn lemma_pow4_pos(k: nat)
    ensures
        pow4(k) > 0,
    decreases k,
{
    if k > 0 {
        lemma_pow4_pos((k - 1) as nat);
    }
}

/// `4^k` is even once `k > 0`.
pub proof fn lemma_pow4_even(k: nat)
    requires
        k > 0,
    ensures
        pow4(k) % 2 == 0,
{
    let p = pow4((k - 1) as nat);
    assert(4 * p == 2 * (2 * p));
    lemma_mod_multiples_basic(2 * p as int, 2);
}

/// Extending a prefix by one symbol adds that symbol's weighted digit.
pub proof fn lemma_sym_value_take_step(s: Seq<i8>, j: int)
    requires
        0 <= j < s.len(),
    ensures
        sym_value(s.take(j + 1)) == sym_value(s.take(j)) + digit(s[j]) * pow4(j as nat),
{
    assert(s.take(j + 1).drop_last() =~= s.take(j));
}

/// The same step for the XOR of digits.
pub proof fn lemma_xor_take_step(s: Seq<i8>, j: int)
    requires
        0 <= j < s.len(),
    ensures
        xor_digits(s.take(j + 1)) == xor_digits(s.take(j)) ^ digit_u32(s[j]),
{
    assert(s.take(j + 1).drop_last() =~= s.take(j));
}

/// One step of the running residue: if `acc` and `p` are the residues of
/// `v` and `w`, then `(acc + d * p) % m` is the residue of `v + d * w`.
proof fn lemma_residue_step(acc: int, p: int, v: int, w: int, d: int, m: int)
    requires
        m > 0,
        acc == v % m,
        p == w % m,
    ensures
        (acc + d * p) % m == (v + d * w) % m,
        (p * 4) % m == (w * 4) % m,
{
    lemma_mul_mod_noop_right(d, w, m);
    lemma_add_mod_noop(v, d * w, m);
    lemma_add_mod_noop(acc, d * p, m);
    lemma_mod_twice(v, m);
    lemma_mul_mod_noop_left(w, 4, m);
}

/// The value of a sequence is odd exactly when its lowest digit is odd.
pub proof fn lemma_sym_value_parity(s: Seq<i8>)
    requires
        s.len() > 0,
    ensures
        sym_value(s) % 2 == digit(s[0]) % 2,
    decreases s.len(),
{
    if s.len() == 1 {
        assert(s.drop_last() =~= Seq::<i8>::empty());
        assert(sym_value(s.drop_last()) == 0);
        assert(pow4(0) == 1);
        assert(sym_value(s) == digit(s[0]) * 1);
    } else {
        let t = s.drop_last();
        lemma_sym_value_parity(t);
        let k = (s.len() - 1) as nat;
        lemma_pow4_even(k);
        lemma_mul_mod_noop_right(digit(s.last()) as int, pow4(k) as int, 2);
        lemma_add_mod_noop(sym_value(t) as int, (digit(s.last()) * pow4(k)) as int, 2);
        lemma_mod_twice(sym_value(t) as int, 2);
        assert(digit(s.last()) * 0 == 0);
        assert(t[0] == s[0]);
    }
}

/// The value of a sequence read from its lowest digit: the first digit
/// plus four times the value of the rest.
pub proof fn lemma_sym_value_first(s: Seq<i8>)
    requires
        s.len() > 0,
    ensures
        sym_value(s) == digit(s[0]) + 4 * sym_value(s.skip(1)),
    decreases s.len(),
{
    if s.len() == 1 {
        assert(s.drop_last() =~= Seq::<i8>::empty());
        assert(s.skip(1) =~= Seq::<i8>::empty());
        assert(sym_value(Seq::<i8>::empty()) == 0);
        assert(pow4(0) == 1);
        assert(digit(s.last()) * pow4(0) == digit(s[0]));
    } else {
        let t = s.drop_last();
        lemma_sym_value_first(t);
        let u = s.skip(1);
        assert(u.drop_last() =~= t.skip(1));
        assert(u.last() == s.last());
        assert(t[0] == s[0]);
        let k = (s.len() - 2) as nat;
        assert(pow4(k + 1) == 4 * pow4(k));
        lemma_mul_is_associative(digit(s.last()) as int, 4, pow4(k) as int);
        lemma_mul_is_commutative(digit(s.last()) as int, 4);
        lemma_mul_is_associative(4, digit(s.last()) as int, pow4(k) as int);
        lemma_mul_is_distributive_add(4, sym_value(t.skip(1)) as int, (digit(s.last()) * pow4(k)) as int);
    }
}

/// Each occurrence count is at most the length of the sequence.
pub proof fn lemma_count_pair_bound(s: Seq<i8>, x: int, y: int)
    ensures
        count_pair(s, x, y) <= s.len(),
    decreases s.len(),
{
    if s.len() >= 2 {
        lemma_count_pair_bound(s.drop_last(), x, y);
    }
}

// ---------------------------------------------------------------------------
// The gates
// ---------------------------------------------------------------------------
/// Whether the first symbol makes the collapsed number odd: -1 (digit 3)
/// and 1 do.
pub fn is_symbolically_odd(symbols: &[i8]) -> (odd: bool)
    requires
        symbols@.len() > 0,
    ensures
        odd == (symbols@[0] == -1 || symbols@[0] == 1),
{
    symbols[0] == -1 || symbols[0] == 1
}

/// The 32-bit digit of one symbol.
pub fn symbol_digit(s: i8) -> (d: u32)
    ensures
        d == digit_u32(s),
{
    if s == -1 {
        3u32
    } else {
        s as u32
    }
}

/// The residue of the collapsed number modulo `m`, computed digit by digit
/// without building the number.
pub fn residue_of(symbols: &[i8], m: u32) -> (r: u32)
    requires
        m > 0,
    ensures
        r == sym_value(symbols@) % (m as nat),
{
    let n = symbols.len();
    let mm = m as u64;
    let mut acc: u64 = 0;
    let mut p: u64 = 1 % mm;
    let mut j: usize = 0;
    proof {
        assert(symbols@.take(0) =~= Seq::<i8>::empty());
        assert(sym_value(Seq::<i8>::empty()) == 0);
        assert(pow4(0) == 1);
    }
    while j < n
        invariant
            n == symbols@.len(),
            mm == m as u64,
            mm > 0,
            j <= n,
            acc < mm,
            p < mm,
            acc == sym_value(symbols@.take(j as int)) % (mm as nat),
            p == pow4(j as nat) % (mm as nat),
        decreases n - j,
    {
        let d = symbol_digit(symbols[j]) as u64;
        proof {
            lemma_sym_value_take_step(symbols@, j as int);
            lemma_residue_step(
                acc as int,
                p as int,
                sym_value(symbols@.take(j as int)) as int,
                pow4(j as nat) as int,
                d as int,
                mm as int,
            );
            assert(d * p <= 0xffff_ffff * 0xffff_ffff) by (nonlinear_arith)
                requires
                    d <= 0xffff_ffff,
                    p < 0x1_0000_0000,
            ;
            assert(pow4((j + 1) as nat) == pow4(j as nat) * 4);
        }
        acc = (acc + d * p) % mm;
        p = (p * 4) % mm;
        j = j + 1;
    }
    proof {
        assert(symbols@.take(n as int) =~= symbols@);
    }
    acc as u32
}

/// The residues of the collapsed number modulo 3, 5, 7, 11, 13, 17, 19 and
/// 23, in that order.
pub fn symbolic_residues(symbols: &[i8]) -> (res: [u32; 8])
    ensures
        forall|i: int| 0 <= i < 8 ==> res[i] == sym_value(symbols@) % residue_modulus(i),
{
    [
        residue_of(symbols, 3),
        residue_of(symbols, 5),
        residue_of(symbols, 7),
        residue_of(symbols, 11),
        residue_of(symbols, 13),
        residue_of(symbols, 17),
        residue_of(symbols, 19),
        residue_of(symbols, 23),
    ]
}

/// Whether some residue of the filter is zero.
pub fn any_residue_zero(res: &[u32; 8]) -> (z: bool)
    ensures
        z == exists|i: int| 0 <= i < 8 && res[i] == 0,
{
    let mut i: usize = 0;
    while i < 8
        invariant
            i <= 8,
            forall|k: int| 0 <= k < i ==> res[k] != 0,
        decreases 8 - i,
    {
        if res[i] == 0 {
            return true;
        }
        i = i + 1;
    }
    false
}

/// The partial-collapse gate: on the first `min(len, 256)` symbols, the
/// value must not be a multiple of 65537 and the XOR of the digits must lie
/// strictly between 0 and 256.
pub fn partial_collapse_check(symbols: &[i8]) -> (ok: bool)
    ensures
        ok == partial_collapse_accepts(symbols@),
{
    let check_len: usize = if symbols.len() < 256 {
        symbols.len()
    } else {
        256
    };
    let mut parity: u32 = 0;
    let mut acc: u64 = 0;
    let mut p: u64 = 1;
    let mut j: usize = 0;
    proof {
        assert(symbols@.take(0) =~= Seq::<i8>::empty());
        assert(sym_value(Seq::<i8>::empty()) == 0);
        assert(xor_digits(Seq::<i8>::empty()) == 0);
        assert(pow4(0) == 1);
    }
    while j < check_len
        invariant
            check_len <= symbols@.len(),
            check_len == partial_len(symbols@.len() as nat),
            j <= check_len,
            acc < 65537,
            p < 65537,
            acc == sym_value(symbols@.take(j as int)) % 65537,
            p == pow4(j as nat) % 65537,
            parity == xor_digits(symbols@.take(j as int)),
        decreases check_len - j,
    {
        let d = symbol_digit(symbols[j]);
        let dd = d as u64;
        proof {
            lemma_sym_value_take_step(symbols@, j as int);
            lemma_xor_take_step(symbols@, j as int);
            lemma_residue_step(
                acc as int,
                p as int,
                sym_value(symbols@.take(j as int)) as int,
                pow4(j as nat) as int,
                dd as int,
                65537,
            );
            assert(dd * p <= 0xffff_ffff * 65537) by (nonlinear_arith)
                requires
                    dd <= 0xffff_ffff,
                    p < 65537,
            ;
            assert(pow4((j + 1) as nat) == pow4(j as nat) * 4);
        }
        parity = parity ^ d;
        acc = (acc + dd * p) % 65537;
        p = (p * 4) % 65537;
        j = j + 1;
    }
    acc != 0 && parity > 0 && parity < 256
}

/// Whether every symbol belongs to the alphabet {-1, 0, 1, 2}.
pub fn all_in_alphabet(symbols: &[i8]) -> (ok: bool)
    ensures
        ok == all_symbols(symbols@),
{
    let n = symbols.len();
    let mut i: usize = 0;
    while i < n
        invariant
            n == symbols@.len(),
            i <= n,
            forall|j: int| 0 <= j < i ==> is_symbol(#[trigger] symbols@[j]),
        decreases n - i,
    {
        if symbols[i] < -1 || symbols[i] > 2 {
            return false;
        }
        i = i + 1;
    }
    true
}

/// How often each symbol of the alphabet occurs: entry `k` counts the
/// symbol `k - 1`.
pub fn symbol_counts(symbols: &[i8]) -> (counts: [usize; 4])
    requires
        all_symbols(symbols@),
    ensures
        forall|k: int| 0 <= k < 4 ==> counts[k] == count_symbol(symbols@, k - 1),
{
    let n = symbols.len();
    let mut c0: usize = 0;
    let mut c1: usize = 0;
    let mut c2: usize = 0;
    let mut c3: usize = 0;
    let mut j: usize = 0;
    proof {
        assert(symbols@.take(0) =~= Seq::<i8>::empty());
    }
    while j < n
        invariant
            n == symbols@.len(),
            j <= n,
            all_symbols(symbols@),
            c0 == count_symbol(symbols@.take(j as int), -1),
            c1 == count_symbol(symbols@.take(j as int), 0),
            c2 == count_symbol(symbols@.take(j as int), 1),
            c3 == count_symbol(symbols@.take(j as int), 2),
            c0 + c1 + c2 + c3 == j,
        decreases n - j,
    {
        let s = symbols[j];
        proof {
            assert(symbols@.take(j + 1).drop_last() =~= symbols@.take(j as int));
            assert(is_symbol(symbols@[j as int]));
        }
        if s == -1 {
            c0 = c0 + 1;
        } else if s == 0 {
            c1 = c1 + 1;
        } else if s == 1 {
            c2 = c2 + 1;
        } else {
            c3 = c3 + 1;
        }
        j = j + 1;
    }
    proof {
        assert(symbols@.take(n as int) =~= symbols@);
    }
    [c0, c1, c2, c3]
}

/// The index 0..4 of a symbol of the alphabet (symbol + 1), or `None` for
/// any other byte.
pub fn symbol_index(s: i8) -> (idx: Option<usize>)
    ensures
        idx == (if is_symbol(s) {
            Some((s + 1) as usize)
        } else {
            None
        }),
{
    if -1 <= s && s <= 2 {
        Some((s + 1) as usize)
    } else {
        None
    }
}

/// Counts of adjacent symbol pairs: entry `[a][b]` counts the positions
/// `i` with `symbols[i] == a - 1` and `symbols[i + 1] == b - 1`.  Pairs
/// that involve a byte outside the alphabet are not counted.
pub fn transition_counts(symbols: &[i8]) -> (counts: [[usize; 4]; 4])
    ensures
        forall|a: int, b: int|
            0 <= a < 4 && 0 <= b < 4 ==> #[trigger] counts[a][b] == count_pair(
                symbols@,
                a - 1,
                b - 1,
            ),
{
    let n = symbols.len();
    let mut flat: Vec<usize> = Vec::new();
    let mut k: usize = 0;
    while k < 16
        invariant
            k <= 16,
            flat@.len() == k,
            forall|q: int| 0 <= q < k ==> flat@[q] == 0,
        decreases 16 - k,
    {
        flat.push(0);
        k = k + 1;
    }
    let mut j: usize = 1;
    proof {
        if n >= 1 {
            assert forall|q: int| 0 <= q < 16 implies flat@[q] == count_pair(
                symbols@.take(1),
                q / 4 - 1,
                q % 4 - 1,
            ) by {}
        }
    }
    while j < n
        invariant
            n == symbols@.len(),
            1 <= j,
            j <= n || n == 0,
            flat@.len() == 16,
            n == 0 ==> forall|q: int| 0 <= q < 16 ==> flat@[q] == 0,
            n >= 1 ==> forall|q: int|
                0 <= q < 16 ==> #[trigger] flat@[q] == count_pair(
                    symbols@.take(j as int),
                    q / 4 - 1,
                    q % 4 - 1,
                ),
        decreases n - j,
    {
        let prev = symbols[j - 1];
        let cur = symbols[j];
        let ghost old_flat = flat@;
        proof {
            let t = symbols@.take(j + 1);
            assert(t.drop_last() =~= symbols@.take(j as int));
            assert(t[t.len() - 2] == prev);
            assert(t.last() == cur);
            assert forall|q: int| 0 <= q < 16 implies #[trigger] flat@[q] <= j by {
                lemma_count_pair_bound(symbols@.take(j as int), q / 4 - 1, q % 4 - 1);
            }
        }
        match (symbol_index(prev), symbol_index(cur)) {
            (Some(a), Some(b)) => {
                let q = a * 4 + b;
                let v = flat[q] + 1;
                flat.set(q, v);
                proof {
                    assert forall|r: int| 0 <= r < 16 implies #[trigger] flat@[r] == count_pair(
                        symbols@.take(j + 1),
                        r / 4 - 1,
                        r % 4 - 1,
                    ) by {
                        if r == q {
                            assert(r / 4 == a && r % 4 == b);
                        } else {
                            assert(old_flat[r] == flat@[r]);
                        }
                    }
                }
            },
            _ => {},
        }
        j = j + 1;
    }
    proof {
        if n >= 1 {
            assert(symbols@.take(n as int) =~= symbols@);
        } else {
            assert forall|q: int| 0 <= q < 16 implies flat@[q] == count_pair(
                symbols@,
                q / 4 - 1,
                q % 4 - 1,
            ) by {}
        }
    }
    [
        [flat[0], flat[1], flat[2], flat[3]],
        [flat[4], flat[5], flat[6], flat[7]],
        [flat[8], flat[9], flat[10], flat[11]],
        [flat[12], flat[13], flat[14], flat[15]],
    ]
}

/// The number a symbol sequence stands for, built by Horner's rule from
/// the most significant symbol down.
pub fn collapse(symbols: &[i8]) -> (n: BigNat)
    ensures
        n@ == sym_value(symbols@),
{
    let mut acc = BigNat::zero();
    let mut i = symbols.len();
    proof {
        assert(symbols@.skip(i as int) =~= Seq::<i8>::empty());
        assert(sym_value(Seq::<i8>::empty()) == 0);
    }
    while i > 0
        invariant
            i <= symbols@.len(),
            acc@ == sym_value(symbols@.skip(i as int)),
        decreases i,
    {
        let d = symbol_digit(symbols[i - 1]);
        proof {
            let u = symbols@.skip(i - 1);
            lemma_sym_value_first(u);
            assert(u.skip(1) =~= symbols@.skip(i as int));
            assert(u[0] == symbols@[i - 1]);
        }
        acc = acc.mul_add_u32(4, d);
        i = i - 1;
    }
    proof {
        assert(symbols@.skip(0) =~= symbols@);
    }
    acc
}

// ---------------------------------------------------------------------------
// Laws of the gates
// ---------------------------------------------------------------------------
/// On sequences over the alphabet, the oddness gate answers exactly
/// whether the collapsed number is odd.
pub proof fn lemma_oddness_gate_exact(s: Seq<i8>)
    requires
        s.len() > 0,
        all_symbols(s),
    ensures
        (s[0] == -1 || s[0] == 1) <==> sym_value(s) % 2 == 1,
{
    lemma_sym_value_parity(s);
    assert(is_symbol(s[0]));
}

/// The oddness gate never turns away a prime above 2 (over the alphabet).
pub proof fn lemma_oddness_gate_keeps_primes(s: Seq<i8>)
    requires
        s.len() > 0,
        all_symbols(s),
        is_prime(sym_value(s)),
        sym_value(s) > 2,
    ensures
        s[0] == -1 || s[0] == 1,
{
    lemma_oddness_gate_exact(s);
    let v = sym_value(s);
    if v % 2 == 0 {
        assert(v % 2 != 0);
    }
}

/// The residue filter never turns away a prime above 23: each residue of
/// a prime larger than the modulus is nonzero.
pub proof fn lemma_residue_gate_keeps_primes(s: Seq<i8>, i: int)
    requires
        0 <= i < 8,
        is_prime(sym_value(s)),
        sym_value(s) > 23,
    ensures
        sym_value(s) % residue_modulus(i) != 0,
{
    let v = sym_value(s);
    let m = residue_modulus(i);
    assert(1 < m < v);
}

/// Over the alphabet the XOR of digits is below 4, so the upper bound 256
/// of the partial-collapse gate never rejects anything there.
pub proof fn lemma_xor_digits_small(s: Seq<i8>)
    requires
        all_symbols(s),
    ensures
        xor_digits(s) < 4,
    decreases s.len(),
{
    if s.len() > 0 {
        let t = s.drop_last();
        assert forall|i: int| 0 <= i < t.len() implies is_symbol(#[trigger] t[i]) by {
            assert(t[i] == s[i]);
        }
        lemma_xor_digits_small(t);
        let a = xor_digits(t);
        assert(is_symbol(s.last()));
        let b = digit_u32(s.last());
        assert(b < 4);
        assert(a < 4 && b < 4 ==> a ^ b < 4) by (bit_vector);
    }
}

/// Over the alphabet every position holds exactly one of the four
/// symbols, so the four counts add up to the length.
pub proof fn lemma_symbol_counts_total(s: Seq<i8>)
    requires
        all_symbols(s),
    ensures
        count_symbol(s, -1) + count_symbol(s, 0) + count_symbol(s, 1) + count_symbol(s, 2)
            == s.len(),
    decreases s.len(),
{
    if s.len() > 0 {
        let t = s.drop_last();
        assert forall|i: int| 0 <= i < t.len() implies is_symbol(#[trigger] t[i]) by {
            assert(t[i] == s[i]);
        }
        lemma_symbol_counts_total(t);
        assert(is_symbol(s.last()));
    }
}

/// Over the alphabet every adjacent pair is one of the sixteen pairs, so
/// the pair counts add up to the number of adjacent positions.
pub proof fn lemma_pair_counts_total(s: Seq<i8>)
    requires
        all_symbols(s),
    ensures
        ({
            let row = |x: int|
                count_pair(s, x, -1) + count_pair(s, x, 0) + count_pair(s, x, 1) + count_pair(
                    s,
                    x,
                    2,
                );
            row(-1) + row(0) + row(1) + row(2) == if s.len() == 0 {
                0
            } else {
                s.len() - 1
            }
        }),
    decreases s.len(),
{
    if s.len() >= 2 {
        let t = s.drop_last();
        assert forall|i: int| 0 <= i < t.len() implies is_symbol(#[trigger] t[i]) by {
            assert(t[i] == s[i]);
        }
        lemma_pair_counts_total(t);
        assert(is_symbol(s.last()));
        assert(is_symbol(s[s.len() - 2]));
    }
}

/// The residue filter divides by the primes 3, 5, 7, 11, 13, 17, 19 and
/// 23, in that order.
pub proof fn lemma_residue_moduli()
    ensures
        residue_modulus(0) == 3,
        residue_modulus(1) == 5,
        residue_modulus(2) == 7,
        residue_modulus(3) == 11,
        residue_modulus(4) == 13,
        residue_modulus(5) == 17,
        residue_modulus(6) == 19,
        residue_modulus(7) == 23,
{
}

/// The partial-collapse gate reads the first 256 symbols, or all of a
/// shorter sequence: it accepts exactly when the value of that prefix is
/// not a multiple of 65537 and the XOR of its digits lies in (0, 256);
/// over the alphabet, when that XOR is not zero.
pub proof fn lemma_partial_gate_reads_256(s: Seq<i8>)
    ensures
        s.len() >= 256 ==> (partial_collapse_accepts(s) <==> (sym_value(s.take(256)) % 65537 != 0
            && 0 < xor_digits(s.take(256)) < 256)),
        s.len() < 256 ==> (partial_collapse_accepts(s) <==> (sym_value(s) % 65537 != 0 && 0
            < xor_digits(s) < 256)),
        all_symbols(s) && s.len() >= 256 ==> (partial_collapse_accepts(s) <==> (sym_value(
            s.take(256),
        ) % 65537 != 0 && xor_digits(s.take(256)) != 0)),
        all_symbols(s) && s.len() < 256 ==> (partial_collapse_accepts(s) <==> (sym_value(s)
            % 65537 != 0 && xor_digits(s) != 0)),
{
    if s.len() < 256 {
        assert(s.take(s.len() as int) =~= s);
    }
    if all_symbols(s) {
        lemma_partial_gate_over_alphabet(s);
    }
}

/// Over the alphabet, the partial-collapse gate is the test that the value
/// of the leading symbols is not a multiple of 65537 and that their digits
/// do not XOR to zero.
pub proof fn lemma_partial_gate_over_alphabet(s: Seq<i8>)
    requires
        all_symbols(s),
    ensures
        partial_collapse_accepts(s) <==> ({
            let p = s.take(partial_len(s.len()) as int);
            sym_value(p) % 65537 != 0 && xor_digits(p) != 0
        }),
{
    let p = s.take(partial_len(s.len()) as int);
    assert forall|i: int| 0 <= i < p.len() implies is_symbol(#[trigger] p[i]) by {
        assert(p[i] == s[i]);
    }
    lemma_xor_digits_small(p);
}

} // verus!
