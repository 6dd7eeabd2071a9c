//! The hunt's pipeline for one candidate: the oddness gate, the pattern
//! score, the residue filter, the entropy floor, the partial collapse, the
//! full collapse and the Miller-Rabin test, in that order.  The score and
//! the entropy are floating-point figures; the caller decides them and
//! hands in the two outcomes.
use crate::bignat::BigNat;
use crate::primality::{
    is_prime_miller_rabin, lemma_miller_rabin_accepts_primes, miller_rabin_answer,
    two_exponent, two_exponent_fits_u32,
};
use crate::symbols::{
    all_symbols, any_residue_zero, collapse, is_prime, is_symbolically_odd,
    lemma_oddness_gate_keeps_primes, lemma_residue_gate_keeps_primes, partial_collapse_accepts,
    partial_collapse_check, residue_modulus, sym_value, symbolic_residues,
};
use rand::rngs::ThreadRng;
use vstd::prelude::*;

verus! {

/// Where a candidate left the pipeline, or the prime it yielded.
pub enum Outcome {
    /// The first symbol makes the number even.
    NotOdd,
    /// The pattern score is below its threshold.
    LowScore,
    /// The number is a multiple of one of the residue moduli.
    ResidueZero,
    /// The entropy is below its floor.
    LowEntropy,
    /// The partial collapse turned it away.
    PartialRejected,
    /// The number is beyond what the Miller-Rabin test takes (see
    /// `two_exponent_fits_u32`).
    TooLarge,
    /// The Miller-Rabin test found it composite.
    Composite,
    /// The Miller-Rabin test accepted it.
    Prime(BigNat),
}

/// Whether the first symbol makes the number odd.
pub open spec fn starts_odd(s: Seq<i8>) -> bool {
    s[0] == -1 || s[0] == 1
}

/// No residue of the filter is zero.
pub open spec fn residues_nonzero(s: Seq<i8>) -> bool {
    forall|i: int| 0 <= i < 8 ==> sym_value(s) % #[trigger] residue_modulus(i) != 0
}

/// Every gate before the full collapse lets the candidate through.
pub open spec fn cheap_gates_pass(s: Seq<i8>, score_ok: bool, entropy_ok: bool) -> bool {
    &&& starts_odd(s)
    &&& score_ok
    &&& residues_nonzero(s)
    &&& entropy_ok
    &&& partial_collapse_accepts(s)
}

/// Whether the Miller-Rabin test takes the number.
pub open spec fn within_test_range(v: nat) -> bool {
    v > 3 ==> two_exponent((v - 1) as nat) <= 0xffff_ffff
}

/// Runs one candidate through the pipeline.  `score_ok` and `entropy_ok`
/// are the outcomes of the score and entropy gates (pass `true` for a gate
/// the caller does not use).  The outcome names the first gate that turns
/// the candidate away; past all gates the number is collapsed and tested.
/// A prime over the alphabet above 23 that passes the score, entropy and
/// partial-collapse gates comes out as `Prime`.
pub fn run_gates(
    symbols: &[i8],
    score_ok: bool,
    entropy_ok: bool,
    rounds: u32,
    rng: &mut ThreadRng,
) -> (o: Outcome)
    requires
        symbols@.len() > 0,
    ensures
        o is NotOdd <==> !starts_odd(symbols@),
        o is LowScore <==> starts_odd(symbols@) && !score_ok,
        o is ResidueZero <==> starts_odd(symbols@) && score_ok && !residues_nonzero(symbols@),
        o is LowEntropy <==> starts_odd(symbols@) && score_ok && residues_nonzero(symbols@)
            && !entropy_ok,
        o is PartialRejected <==> starts_odd(symbols@) && score_ok && residues_nonzero(symbols@)
            && entropy_ok && !partial_collapse_accepts(symbols@),
        o is TooLarge <==> cheap_gates_pass(symbols@, score_ok, entropy_ok) && !within_test_range(
            sym_value(symbols@),
        ),
        o is Composite || o is Prime <==> cheap_gates_pass(symbols@, score_ok, entropy_ok)
            && within_test_range(sym_value(symbols@)),
        o is Composite ==> miller_rabin_answer(sym_value(symbols@), rounds as nat, false),
        o matches Outcome::Prime(n) ==> n@ == sym_value(symbols@) && miller_rabin_answer(
            n@,
            rounds as nat,
            true,
        ),
        all_symbols(symbols@) && is_prime(sym_value(symbols@)) && sym_value(symbols@) > 23
            && score_ok && entropy_ok && partial_collapse_accepts(symbols@) && within_test_range(
            sym_value(symbols@),
        ) ==> o is Prime,
{
    let ghost s = symbols@;
    proof {
        if all_symbols(s) && is_prime(sym_value(s)) && sym_value(s) > 23 {
            lemma_oddness_gate_keeps_primes(s);
            assert forall|i: int| 0 <= i < 8 implies sym_value(s) % #[trigger] residue_modulus(i)
                != 0 by {
                lemma_residue_gate_keeps_primes(s, i);
            }
        }
    }
    if !is_symbolically_odd(symbols) {
        return Outcome::NotOdd;
    }
    if !score_ok {
        return Outcome::LowScore;
    }
    let res = symbolic_residues(symbols);
    if any_residue_zero(&res) {
        proof {
            let i = choose|i: int| 0 <= i < 8 && res[i] == 0;
            assert(sym_value(s) % residue_modulus(i) == 0);
        }
        return Outcome::ResidueZero;
    }
    proof {
        assert forall|i: int| 0 <= i < 8 implies sym_value(s) % #[trigger] residue_modulus(i) != 0 by {
            assert(res[i] != 0);
        }
    }
    if !entropy_ok {
        return Outcome::LowEntropy;
    }
    if !partial_collapse_check(symbols) {
        return Outcome::PartialRejected;
    }
    let n = collapse(symbols);
    if !two_exponent_fits_u32(&n) {
        return Outcome::TooLarge;
    }
    let prime = is_prime_miller_rabin(&n, rounds, rng);
    proof {
        if is_prime(n@) {
            lemma_miller_rabin_accepts_primes(n@, rounds as nat, prime);
        }
    }
    if prime {
        Outcome::Prime(n)
    } else {
        Outcome::Composite
    }
}

} // verus!
