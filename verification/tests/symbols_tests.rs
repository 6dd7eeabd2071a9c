use quanjp::bignat::BigNat;
use quanjp::symbols::{
    all_in_alphabet, any_residue_zero, collapse, is_symbolically_odd, partial_collapse_check,
    residue_of, symbol_counts, symbol_digit, symbol_index, symbolic_residues, transition_counts,
};
use quanjp::token::to_decimal_string;

fn value_of(symbols: &[i8]) -> u128 {
    let mut v: u128 = 0;
    let mut w: u128 = 1;
    for &s in symbols {
        let d: u128 = if s == -1 { 3 } else { s as u32 as u128 };
        v += d * w;
        w *= 4;
    }
    v
}

#[test]
fn oddness_gate_follows_first_symbol() {
    assert!(is_symbolically_odd(&[-1, 0, 2]));
    assert!(is_symbolically_odd(&[1]));
    assert!(!is_symbolically_odd(&[0, 1]));
    assert!(!is_symbolically_odd(&[2, -1]));
}

#[test]
fn oddness_gate_matches_parity_of_value() {
    for first in [-1i8, 0, 1, 2] {
        let s = [first, 2, 1, -1];
        assert_eq!(is_symbolically_odd(&s), value_of(&s) % 2 == 1);
    }
}

#[test]
fn digits_of_symbols() {
    assert_eq!(symbol_digit(-1), 3);
    assert_eq!(symbol_digit(0), 0);
    assert_eq!(symbol_digit(2), 2);
    assert_eq!(symbol_digit(7), 7);
    assert_eq!(symbol_digit(-2), 4294967294);
}

#[test]
fn residues_of_twenty_seven() {
    // 3 + 2*4 + 1*16 = 27
    let s = [-1i8, 2, 1];
    assert_eq!(symbolic_residues(&s), [0, 2, 6, 5, 1, 10, 8, 4]);
    assert!(any_residue_zero(&symbolic_residues(&s)));
}

#[test]
fn residues_match_value_on_long_sequence() {
    let s: Vec<i8> = (0..50).map(|i| [(-1i8), 0, 1, 2][(i * 7 + 3) % 4]).collect();
    let v = value_of(&s[..60.min(s.len())]);
    let mods = [3u128, 5, 7, 11, 13, 17, 19, 23];
    let r = symbolic_residues(&s);
    for i in 0..8 {
        assert_eq!(r[i] as u128, v % mods[i]);
    }
    assert_eq!(residue_of(&s, 65537) as u128, v % 65537);
}

#[test]
fn residues_of_empty_sequence_are_zero() {
    assert_eq!(symbolic_residues(&[]), [0; 8]);
}

#[test]
fn residue_gate_keeps_a_prime() {
    // 31 = 3 + 3*4 + 1*16
    let s = [-1i8, -1, 1];
    assert_eq!(value_of(&s), 31);
    assert!(!any_residue_zero(&symbolic_residues(&s)));
}

#[test]
fn partial_collapse_cases() {
    assert!(partial_collapse_check(&[1]));
    // value 0
    assert!(!partial_collapse_check(&[0, 0]));
    // digits 1 and 1 XOR to zero
    assert!(!partial_collapse_check(&[1, 1]));
    // 65537 = 4^8 + 1
    assert!(!partial_collapse_check(&[1, 0, 0, 0, 0, 0, 0, 0, 1]));
    assert!(!partial_collapse_check(&[]));
}

#[test]
fn partial_collapse_reads_only_256_symbols() {
    let mut s = vec![1i8];
    s.extend(std::iter::repeat(0).take(255));
    assert!(partial_collapse_check(&s));
    s.push(1);
    // the 257th symbol is not read
    assert!(partial_collapse_check(&s));
}

#[test]
fn collapse_gives_the_value() {
    let s = [-1i8, 2, 1];
    assert_eq!(to_decimal_string(&collapse(&s)), "27");
    assert_eq!(to_decimal_string(&collapse(&[])), "0");
    let long: Vec<i8> = vec![1; 40];
    // (4^40 - 1) / 3
    assert_eq!(to_decimal_string(&collapse(&long)), "402975273204876391568725");
}

#[test]
fn collapse_reads_bytes_outside_the_alphabet() {
    // 5 + 4 * 1 = 9
    assert_eq!(to_decimal_string(&collapse(&[5, 1])), "9");
    let n = collapse(&[0, 0, 0, 0, 0, 0, 0, 0, 0, 0, 0, 0, 0, 0, 0, 0, 1]);
    assert_eq!(n.limbs(), &[0u32, 1]);
}

#[test]
fn collapse_compares_with_small_numbers() {
    let n = collapse(&[-1, 2, 1]);
    assert_eq!(n.compare(&BigNat::from_u32(27)), 0);
    assert_eq!(n.compare(&BigNat::from_u32(28)), -1);
    assert_eq!(n.compare(&BigNat::from_u32(26)), 1);
}

#[test]
fn counts_of_symbols() {
    assert_eq!(symbol_counts(&[-1, -1, 0, 2, 1, 2, 2]), [2, 1, 1, 3]);
    assert_eq!(symbol_counts(&[]), [0, 0, 0, 0]);
}

#[test]
fn alphabet_check() {
    assert!(all_in_alphabet(&[-1, 0, 1, 2]));
    assert!(!all_in_alphabet(&[0, 3]));
    assert!(!all_in_alphabet(&[-2]));
    assert_eq!(symbol_index(-1), Some(0));
    assert_eq!(symbol_index(2), Some(3));
    assert_eq!(symbol_index(3), None);
}

#[test]
fn transition_counts_of_a_sequence() {
    let c = transition_counts(&[-1, -1, 0, 2, 5, 1, -1]);
    let mut expected = [[0usize; 4]; 4];
    expected[0][0] = 1; // -1 -> -1
    expected[0][1] = 1; // -1 -> 0
    expected[1][3] = 1; // 0 -> 2
    expected[2][0] = 1; // 1 -> -1
    assert_eq!(c, expected);
    assert_eq!(transition_counts(&[]), [[0; 4]; 4]);
    assert_eq!(transition_counts(&[1]), [[0; 4]; 4]);
}
