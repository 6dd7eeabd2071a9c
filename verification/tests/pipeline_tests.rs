use quanjp::pipeline::{run_gates, Outcome};
use quanjp::token::to_decimal_string;

fn stage(symbols: &[i8], score_ok: bool, entropy_ok: bool) -> &'static str {
    let mut rng = rand::thread_rng();
    match run_gates(symbols, score_ok, entropy_ok, 15, &mut rng) {
        Outcome::NotOdd => "not odd",
        Outcome::LowScore => "low score",
        Outcome::ResidueZero => "residue zero",
        Outcome::LowEntropy => "low entropy",
        Outcome::PartialRejected => "partial",
        Outcome::TooLarge => "too large",
        Outcome::Composite => "composite",
        Outcome::Prime(_) => "prime",
    }
}

#[test]
fn gates_in_order() {
    assert_eq!(stage(&[0, 1], true, true), "not odd");
    assert_eq!(stage(&[1, -1, 1], false, true), "low score");
    // 9 = 1 + 2 * 4 is a multiple of 3
    assert_eq!(stage(&[1, 2], true, false), "residue zero");
    // 29 = 1 + 3 * 4 + 16
    assert_eq!(stage(&[1, -1, 1], true, false), "low entropy");
    // 257: the digits XOR to zero
    assert_eq!(stage(&[1, 0, 0, 0, 1], true, true), "partial");
    // 899 = 29 * 31
    assert_eq!(stage(&[-1, 0, 0, 2, -1], true, true), "composite");
    assert_eq!(stage(&[1, -1, 1], true, true), "prime");
}

#[test]
fn prime_outcome_holds_the_number() {
    let mut rng = rand::thread_rng();
    match run_gates(&[1, -1, 1], true, true, 3, &mut rng) {
        Outcome::Prime(n) => assert_eq!(to_decimal_string(&n), "29"),
        _ => panic!("29 is prime"),
    }
}
