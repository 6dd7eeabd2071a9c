use quanjp::training::{
    choose_training_data, combine_training_data, default_training_data, is_result_file_name,
    parse_symbols_json, symbols_from_result_text, symbols_json, TrainingSource,
};

#[test]
fn json_of_symbols() {
    assert_eq!(symbols_json(&[-1, 0, 1, 2]), "[-1,0,1,2]");
    assert_eq!(symbols_json(&[]), "[]");
    assert_eq!(symbols_json(&[-128, 127]), "[-128,127]");
}

#[test]
fn json_parsing() {
    assert_eq!(parse_symbols_json("[-1, 0, 2]"), Some(vec![-1, 0, 2]));
    assert_eq!(parse_symbols_json("[300]"), None);
    assert_eq!(parse_symbols_json("nope"), None);
    let v = vec![2i8, -1, 0];
    assert_eq!(parse_symbols_json(&symbols_json(&v)), Some(v));
}

#[test]
fn result_file_names() {
    assert!(is_result_file_name("quanjp_prime_01_2467digits.txt"));
    assert!(is_result_file_name("quanjp_.txt"));
    assert!(!is_result_file_name("quanjp_prime.json"));
    assert!(!is_result_file_name("prime_quanjp_.txt"));
    assert!(!is_result_file_name("quanjp_txt"));
}

#[test]
fn symbols_section_of_result_file() {
    let text = "QuanJP Ultimate Prime #01\nDigits: 3\n\nPrime:\n131\n\nSymbols:\n[-1, 0, 2]\n";
    assert_eq!(symbols_from_result_text(text), Some(vec![-1, 0, 2]));
    let text = "Symbols:\nnot json\n  [1, 1]  \n[2]\n";
    assert_eq!(symbols_from_result_text(text), Some(vec![2]));
    let text = "Symbols:\nnot json\n[1, 1]  \n[2]\n";
    assert_eq!(symbols_from_result_text(text), Some(vec![1, 1]));
    assert_eq!(symbols_from_result_text("[1]\n"), None);
    assert_eq!(symbols_from_result_text("  Symbols:  \r\n[0]"), Some(vec![0]));
}

#[test]
fn fallbacks_and_sources() {
    let d = default_training_data();
    assert_eq!(d.len(), 2);
    assert_eq!(d[0], vec![-1, -1, -1, -1, -1, -1, -1, 1, 0, -1, 2, 2, 1, -1, 2, 0]);
    assert_eq!(combine_training_data(vec![], vec![]), d);
    assert_eq!(combine_training_data(vec![vec![1]], vec![vec![2]]), vec![vec![1], vec![2]]);
    let (v, s) = choose_training_data(8000, vec![vec![0]], vec![vec![1]], vec![]);
    assert_eq!((v, s), (vec![vec![0]], TrainingSource::History));
    let (v, s) = choose_training_data(7999, vec![vec![0]], vec![vec![1]], vec![]);
    assert_eq!((v, s), (vec![vec![1]], TrainingSource::ResultFiles));
    let (v, s) = choose_training_data(9000, vec![], vec![], vec![vec![2]]);
    assert_eq!((v, s), (vec![vec![2]], TrainingSource::JsonFiles));
    let (v, s) = choose_training_data(9000, vec![], vec![], vec![]);
    assert_eq!((v, s), (default_training_data(), TrainingSource::Defaults));
}
