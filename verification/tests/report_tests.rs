use quanjp::report::parse_result_file;

const SAMPLE: &str = "QuanJP Ultimate Prime #01\n====================\nDigits: 2467\nEntropy: 1.906320\nSequence Length: 4096\n\nPhaseToken\n==========\nTimestamp: 1772305980122\nSession Hash: f155\nResult Hash: 5dad\n\nPrime:\n131\n\nSymbols:\n[-1, 0, 1]\n";

#[test]
fn reads_a_discovery_file() {
    let r = parse_result_file(SAMPLE).expect("readable");
    assert_eq!(r.digits, 2467);
    assert_eq!(r.entropy_texts, vec!["1.906320".to_string()]);
    assert_eq!(r.seq_len, 4096);
    assert_eq!(r.timestamp, 1772305980122);
    assert_eq!(r.session_hash, "f155");
    assert_eq!(r.result_hash, "5dad");
    assert_eq!(r.symbols, "[-1, 0, 1]");
}

#[test]
fn rejects_incomplete_or_broken_files() {
    assert!(parse_result_file("Digits: 12x\nSymbols:\n[1]\n").is_none());
    assert!(parse_result_file(&SAMPLE.replace("Digits: 2467", "Digits: 0")).is_none());
    assert!(parse_result_file(&SAMPLE.replace("Session Hash: f155", "Session Hash:")).is_none());
    assert!(parse_result_file(&SAMPLE.replace("\n[-1, 0, 1]\n", "\n")).is_none());
    assert!(parse_result_file("").is_none());
}

#[test]
fn later_fields_win_and_scan_stops_at_symbols() {
    let text = "Digits: 5\nDigits: 6\nSequence Length: 9\nSession Hash: a\nSymbols:\nxyz\nDigits: bad\n";
    let r = parse_result_file(text).expect("readable");
    assert_eq!(r.digits, 6);
    assert_eq!(r.symbols, "xyz");
    assert!(r.entropy_texts.is_empty());
}
