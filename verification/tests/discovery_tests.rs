use quanjp::bignat::BigNat;
use quanjp::discovery::discovery_report;
use quanjp::report::parse_result_file;
use quanjp::symbols::collapse;
use quanjp::token::{to_decimal_string, PhaseToken};

fn sample_token() -> PhaseToken {
    PhaseToken {
        timestamp: 1772305980122,
        session_hash: "f155".to_string(),
        result_hash: "5dad".to_string(),
    }
}

#[test]
fn report_matches_the_file_layout() {
    let token = sample_token();
    let prime = BigNat::from_u32(131);
    let symbols: Vec<i8> = vec![-1, 0, 1];
    let report = discovery_report(1, "1.906320", &token, &prime, &symbols);
    let expected = format!(
        "QuanJP Ultimate Prime #{:02}\n\
         ====================\n\
         Digits: {}\n\
         Entropy: {:.6}\n\
         Sequence Length: {}\n\
         \n\
         {}\n\
         Prime:\n{}\n\
         \n\
         Symbols:\n{:?}\n",
        1,
        3,
        1.90632_f64,
        symbols.len(),
        token.to_string_full(),
        "131",
        symbols
    );
    assert_eq!(report, expected);
}

#[test]
fn report_pads_the_index_and_lists_symbols() {
    let token = PhaseToken {
        timestamp: -5,
        session_hash: "ab".to_string(),
        result_hash: "cd".to_string(),
    };
    let prime = BigNat::from_u32(7);
    let report = discovery_report(12, "0.000000", &token, &prime, &[2]);
    assert!(report.starts_with("QuanJP Ultimate Prime #12\n"));
    assert!(report.contains("\nTimestamp: -5\n"));
    assert!(report.ends_with("\nSymbols:\n[2]\n"));
    let empty = discovery_report(3, "0.000000", &token, &prime, &[]);
    assert!(empty.starts_with("QuanJP Ultimate Prime #03\n"));
    assert!(empty.ends_with("\nSymbols:\n[]\n"));
}

#[test]
fn report_reads_back() {
    let symbols: Vec<i8> = vec![2, -1, 0, 1, 1, 2, -1, 1];
    let prime = collapse(&symbols);
    let token = PhaseToken::new("QuanJP-Symbolic-5-20260301-#04", 1772305980122, &prime);
    let report = discovery_report(4, "1.750000", &token, &prime, &symbols);
    let rec = parse_result_file(&report).expect("a written report reads back");
    assert_eq!(rec.digits as usize, to_decimal_string(&prime).len());
    assert_eq!(rec.entropy_texts, vec!["1.750000".to_string()]);
    assert_eq!(rec.seq_len, 8);
    assert_eq!(rec.timestamp, 1772305980122);
    assert_eq!(rec.session_hash, token.session_hash);
    assert_eq!(rec.result_hash, token.result_hash);
    assert_eq!(rec.symbols, "[2, -1, 0, 1, 1, 2, -1, 1]");
}

#[test]
fn report_without_symbols_is_incomplete() {
    let token = sample_token();
    let report = discovery_report(1, "0.000000", &token, &BigNat::from_u32(5), &[]);
    assert!(parse_result_file(&report).is_none());
}

#[test]
fn report_symbols_read_back_as_training_data() {
    let symbols: Vec<i8> = vec![1, -1, 0, 2, 2, -1];
    let prime = collapse(&symbols);
    let token = PhaseToken::new("session", 42, &prime);
    let report = discovery_report(2, "1.918296", &token, &prime, &symbols);
    assert_eq!(quanjp::training::symbols_from_result_text(&report), Some(symbols));
}
