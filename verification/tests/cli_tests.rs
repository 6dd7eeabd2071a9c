use quanjp::cli::{default_threads, parse_args, BatchArgs, ParsedArgs};

fn args(words: &[&str]) -> Vec<String> {
    words.iter().map(|w| w.to_string()).collect()
}

#[test]
fn defaults() {
    assert_eq!(
        parse_args(&args(&["batch-stats"]), 7),
        ParsedArgs::Run(BatchArgs { trials: 50, sequence_len: 4096, max_attempts: 60_000, threads: 7, mr_rounds: 15 })
    );
    assert_eq!(default_threads(16), 15);
    assert_eq!(default_threads(1), 1);
    assert_eq!(default_threads(0), 1);
}

#[test]
fn options_are_read() {
    let p = parse_args(
        &args(&["b", "--trials", "10", "--sequence-len", "8192", "--max-attempts", "5", "--threads", "3", "--mr-rounds", "20"]),
        1,
    );
    assert_eq!(p, ParsedArgs::Run(BatchArgs { trials: 10, sequence_len: 8192, max_attempts: 5, threads: 3, mr_rounds: 20 }));
}

#[test]
fn bad_values_keep_defaults_and_rounds_are_at_least_three() {
    let p = parse_args(&args(&["b", "--trials", "x", "--mr-rounds", "1", "stray"]), 2);
    assert_eq!(p, ParsedArgs::Run(BatchArgs { trials: 50, sequence_len: 4096, max_attempts: 60_000, threads: 2, mr_rounds: 3 }));
    let p = parse_args(&args(&["b", "--trials"]), 2);
    assert_eq!(p, ParsedArgs::Run(BatchArgs { trials: 50, sequence_len: 4096, max_attempts: 60_000, threads: 2, mr_rounds: 15 }));
}

#[test]
fn help() {
    assert_eq!(parse_args(&args(&["b", "--trials", "3", "-h"]), 2), ParsedArgs::Help);
    assert_eq!(parse_args(&args(&["b", "--help"]), 2), ParsedArgs::Help);
    // a value position is not read as an option
    assert_ne!(parse_args(&args(&["b", "--trials", "--help"]), 2), ParsedArgs::Help);
    // the program name is not read
    assert_ne!(parse_args(&args(&["--help"]), 2), ParsedArgs::Help);
}
