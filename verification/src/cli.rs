//! Command-line options of the batch experiment:
//! `--trials N`, `--sequence-len L`, `--max-attempts M`, `--threads T`,
//! `--mr-rounds R`, and `--help` / `-h`.
use crate::text::{
    chars_eq_str, chars_of, decimal, lemma_parse_decimal, parse_unsigned, parse_unsigned_chars,
};
use vstd::prelude::*;

verus! {

/// The settings of a batch experiment.
#[derive(PartialEq, Eq, Structural, Clone, Copy, Debug)]
pub struct BatchArgs {
    pub trials: usize,
    pub sequence_len: usize,
    pub max_attempts: u64,
    pub threads: usize,
    pub mr_rounds: u32,
}

/// What the command line asks for.
#[derive(PartialEq, Eq, Structural, Clone, Copy, Debug)]
pub enum ParsedArgs {
    /// Run the experiment with these settings.
    Run(BatchArgs),
    /// Print the usage text and stop.
    Help,
}

/// The settings before any option is read.
pub open spec fn default_args(threads: usize) -> BatchArgs {
    BatchArgs { trials: 50, sequence_len: 4096, max_attempts: 60_000, threads, mr_rounds: 15 }
}

/// Whether a word is one of the options that take a value.
pub open spec fn is_valued_option(a: Seq<char>) -> bool {
    ||| a == "--trials"@
    ||| a == "--sequence-len"@
    ||| a == "--max-attempts"@
    ||| a == "--threads"@
    ||| a == "--mr-rounds"@
}

/// `val.parse()` into a number at most `max`, or `old` if it fails.
pub open spec fn parse_or(val: Seq<char>, max: nat, old: nat) -> nat {
    match parse_unsigned(val, max) {
        Some(v) => v,
        None => old,
    }
}

/// The settings after option `opt` is given the value `val`.
pub open spec fn apply_option(opt: Seq<char>, val: Seq<char>, cur: BatchArgs) -> BatchArgs {
    if opt == "--trials"@ {
        BatchArgs { trials: parse_or(val, usize::MAX as nat, cur.trials as nat) as usize, ..cur }
    } else if opt == "--sequence-len"@ {
        BatchArgs {
            sequence_len: parse_or(val, usize::MAX as nat, cur.sequence_len as nat) as usize,
            ..cur
        }
    } else if opt == "--max-attempts"@ {
        BatchArgs {
            max_attempts: parse_or(val, u64::MAX as nat, cur.max_attempts as nat) as u64,
            ..cur
        }
    } else if opt == "--threads"@ {
        BatchArgs { threads: parse_or(val, usize::MAX as nat, cur.threads as nat) as usize, ..cur }
    } else {
        BatchArgs { mr_rounds: parse_or(val, u32::MAX as nat, cur.mr_rounds as nat) as u32, ..cur }
    }
}

/// Reads the words from position `i` on: a valued option takes the next
/// word as its value (a value that does not parse leaves the setting
/// as it was); `--help` or `-h` stops with a request for help; any other
/// word is skipped.
pub open spec fn scan_args(args: Seq<Seq<char>>, i: int, cur: BatchArgs) -> ParsedArgs
    decreases args.len() - i,
{
    if i >= args.len() || i < 0 {
        ParsedArgs::Run(cur)
    } else if args[i] == "--help"@ || args[i] == "-h"@ {
        ParsedArgs::Help
    } else if is_valued_option(args[i]) {
        if i + 1 < args.len() {
            scan_args(args, i + 2, apply_option(args[i], args[i + 1], cur))
        } else {
            ParsedArgs::Run(cur)
        }
    } else {
        scan_args(args, i + 1, cur)
    }
}

/// The whole command line (the program name first): the scan from the
/// second word, then at least 3 Miller-Rabin rounds.
pub open spec fn parsed_args(args: Seq<Seq<char>>, threads: usize) -> ParsedArgs {
    match scan_args(args, 1, default_args(threads)) {
        ParsedArgs::Run(a) => ParsedArgs::Run(
            BatchArgs {
                mr_rounds: if a.mr_rounds < 3 {
                    3
                } else {
                    a.mr_rounds
                },
                ..a
            },
        ),
        ParsedArgs::Help => ParsedArgs::Help,
    }
}

/// The settings a command line gives: with no option, 50 trials of 4096
/// symbols, at most 60 000 attempts each, the given thread count and 15
/// Miller-Rabin rounds; one valued option followed by a number sets
/// exactly that setting to the number (the rounds to at least 3); `--help`
/// and `-h` ask for help.
pub proof fn lemma_command_lines(
    prog: Seq<char>,
    threads: usize,
    trials: usize,
    sequence_len: usize,
    max_attempts: u64,
    thread_count: usize,
    mr_rounds: u32,
)
    ensures
        parsed_args(seq![prog], threads) == ParsedArgs::Run(
            BatchArgs { trials: 50, sequence_len: 4096, max_attempts: 60_000, threads, mr_rounds: 15 },
        ),
        parsed_args(seq![prog, "--trials"@, decimal(trials as nat)], threads) == ParsedArgs::Run(
            BatchArgs { trials, sequence_len: 4096, max_attempts: 60_000, threads, mr_rounds: 15 },
        ),
        parsed_args(seq![prog, "--sequence-len"@, decimal(sequence_len as nat)], threads)
            == ParsedArgs::Run(
            BatchArgs { trials: 50, sequence_len, max_attempts: 60_000, threads, mr_rounds: 15 },
        ),
        parsed_args(seq![prog, "--max-attempts"@, decimal(max_attempts as nat)], threads)
            == ParsedArgs::Run(
            BatchArgs { trials: 50, sequence_len: 4096, max_attempts, threads, mr_rounds: 15 },
        ),
        parsed_args(seq![prog, "--threads"@, decimal(thread_count as nat)], threads)
            == ParsedArgs::Run(
            BatchArgs {
                trials: 50,
                sequence_len: 4096,
                max_attempts: 60_000,
                threads: thread_count,
                mr_rounds: 15,
            },
        ),
        parsed_args(seq![prog, "--mr-rounds"@, decimal(mr_rounds as nat)], threads)
            == ParsedArgs::Run(
            BatchArgs {
                trials: 50,
                sequence_len: 4096,
                max_attempts: 60_000,
                threads,
                mr_rounds: if mr_rounds < 3 {
                    3
                } else {
                    mr_rounds
                },
            },
        ),
        parsed_args(seq![prog, "--help"@], threads) == ParsedArgs::Help,
        parsed_args(seq![prog, "-h"@], threads) == ParsedArgs::Help,
{
    reveal_strlit("--trials");
    reveal_strlit("--sequence-len");
    reveal_strlit("--max-attempts");
    reveal_strlit("--threads");
    reveal_strlit("--mr-rounds");
    reveal_strlit("--help");
    reveal_strlit("-h");
    let d = default_args(threads);
    assert(scan_args(seq![prog], 1, d) == ParsedArgs::Run(d));
    lemma_one_option(prog, "--trials"@, trials as nat, usize::MAX as nat, d);
    lemma_one_option(prog, "--sequence-len"@, sequence_len as nat, usize::MAX as nat, d);
    lemma_one_option(prog, "--max-attempts"@, max_attempts as nat, u64::MAX as nat, d);
    lemma_one_option(prog, "--threads"@, thread_count as nat, usize::MAX as nat, d);
    lemma_one_option(prog, "--mr-rounds"@, mr_rounds as nat, u32::MAX as nat, d);
    assert(apply_option("--trials"@, decimal(trials as nat), d) == BatchArgs { trials, ..d });
    assert("--sequence-len"@ != "--trials"@) by {
        assert("--sequence-len"@.len() != "--trials"@.len());
    }
    assert("--max-attempts"@ != "--trials"@) by {
        assert("--max-attempts"@.len() != "--trials"@.len());
    }
    assert("--max-attempts"@ != "--sequence-len"@) by {
        assert("--max-attempts"@[2] != "--sequence-len"@[2]);
    }
    assert(parse_or(decimal(sequence_len as nat), usize::MAX as nat, d.sequence_len as nat)
        == sequence_len);
    assert(parse_or(decimal(max_attempts as nat), u64::MAX as nat, d.max_attempts as nat)
        == max_attempts);
    assert("--threads"@.len() == 9 && "--mr-rounds"@.len() == 11 && "--trials"@.len() == 8
        && "--sequence-len"@.len() == 14 && "--max-attempts"@.len() == 14);
    assert("--threads"@ != "--trials"@ && "--threads"@ != "--sequence-len"@ && "--threads"@
        != "--max-attempts"@);
    assert("--mr-rounds"@ != "--trials"@ && "--mr-rounds"@ != "--sequence-len"@ && "--mr-rounds"@
        != "--max-attempts"@ && "--mr-rounds"@ != "--threads"@);
    assert(parse_or(decimal(thread_count as nat), usize::MAX as nat, d.threads as nat)
        == thread_count);
    assert(parse_or(decimal(mr_rounds as nat), u32::MAX as nat, d.mr_rounds as nat) == mr_rounds);
    assert(apply_option("--sequence-len"@, decimal(sequence_len as nat), d) == BatchArgs {
        sequence_len,
        ..d
    });
    assert(apply_option("--max-attempts"@, decimal(max_attempts as nat), d) == BatchArgs {
        max_attempts,
        ..d
    });
    assert(apply_option("--threads"@, decimal(thread_count as nat), d) == BatchArgs {
        threads: thread_count,
        ..d
    });
    assert(apply_option("--mr-rounds"@, decimal(mr_rounds as nat), d) == BatchArgs {
        mr_rounds,
        ..d
    });
    assert(scan_args(seq![prog, "--help"@], 1, d) == ParsedArgs::Help);
    assert(scan_args(seq![prog, "-h"@], 1, d) == ParsedArgs::Help);
}

/// One valued option and its number: the scan applies the option once.
proof fn lemma_one_option(prog: Seq<char>, opt: Seq<char>, v: nat, max: nat, cur: BatchArgs)
    requires
        is_valued_option(opt),
        v <= max,
    ensures
        scan_args(seq![prog, opt, decimal(v)], 1, cur) == ParsedArgs::Run(
            apply_option(opt, decimal(v), cur),
        ),
        parse_or(decimal(v), max, 0) == v,
        forall|old: nat| #[trigger] parse_or(decimal(v), max, old) == v,
{
    reveal_strlit("--help");
    reveal_strlit("-h");
    reveal_strlit("--trials");
    reveal_strlit("--sequence-len");
    reveal_strlit("--max-attempts");
    reveal_strlit("--threads");
    reveal_strlit("--mr-rounds");
    let args = seq![prog, opt, decimal(v)];
    assert(args[1] == opt);
    assert(opt.len() >= 8);
    assert(args[1] != "--help"@ && args[1] != "-h"@) by {
        if opt == "--trials"@ {
            assert(opt[2] != "--help"@[2]);
        }
        if opt == "--threads"@ {
            assert(opt[3] != "--help"@[3]);
        }
    }
    assert(scan_args(args, 3, apply_option(opt, decimal(v), cur)) == ParsedArgs::Run(
        apply_option(opt, decimal(v), cur),
    ));
    lemma_parse_decimal(v, max);
}

/// The views of the words of a command line.
pub open spec fn arg_views(args: Seq<String>) -> Seq<Seq<char>> {
    args.map_values(|a: String| a@)
}

/// The default number of threads: one less than the physical cores, but
/// at least one.
pub fn default_threads(physical_cores: usize) -> (t: usize)
    ensures
        t == (if physical_cores > 1 {
            physical_cores - 1
        } else {
            1
        }),
{
    let t = physical_cores.saturating_sub(1);
    if t < 1 {
        1
    } else {
        t
    }
}

/// Reads the settings of a batch experiment from its command line.
pub fn parse_args(args: &[String], threads: usize) -> (p: ParsedArgs)
    ensures
        p == parsed_args(arg_views(args@), threads),
{
    let ghost views = arg_views(args@);
    let n = args.len();
    let mut cur = BatchArgs {
        trials: 50,
        sequence_len: 4096,
        max_attempts: 60_000,
        threads,
        mr_rounds: 15,
    };
    let mut i: usize = 1;
    while i < n
        invariant
            n == args@.len(),
            views == arg_views(args@),
            views.len() == n,
            scan_args(views, 1, default_args(threads)) == scan_args(views, i as int, cur),
        decreases n - i,
    {
        let a = chars_of(args[i].as_str());
        proof {
            assert(a@ == views[i as int]);
        }
        if chars_eq_str(a.as_slice(), "--help") || chars_eq_str(a.as_slice(), "-h") {
            return ParsedArgs::Help;
        }
        let is_trials = chars_eq_str(a.as_slice(), "--trials");
        let is_len = chars_eq_str(a.as_slice(), "--sequence-len");
        let is_max = chars_eq_str(a.as_slice(), "--max-attempts");
        let is_threads = chars_eq_str(a.as_slice(), "--threads");
        let is_rounds = chars_eq_str(a.as_slice(), "--mr-rounds");
        if is_trials || is_len || is_max || is_threads || is_rounds {
            if i + 1 < n {
                let v = chars_of(args[i + 1].as_str());
                proof {
                    assert(v@ == views[i + 1]);
                }
                if is_trials {
                    if let Some(x) = parse_unsigned_chars(v.as_slice(), usize::MAX as u64) {
                        cur.trials = x as usize;
                    }
                } else if is_len {
                    if let Some(x) = parse_unsigned_chars(v.as_slice(), usize::MAX as u64) {
                        cur.sequence_len = x as usize;
                    }
                } else if is_max {
                    if let Some(x) = parse_unsigned_chars(v.as_slice(), u64::MAX) {
                        cur.max_attempts = x;
                    }
                } else if is_threads {
                    if let Some(x) = parse_unsigned_chars(v.as_slice(), usize::MAX as u64) {
                        cur.threads = x as usize;
                    }
                } else {
                    if let Some(x) = parse_unsigned_chars(v.as_slice(), u32::MAX as u64) {
                        cur.mr_rounds = x as u32;
                    }
                }
                i = i + 2;
            } else {
                return ParsedArgs::Run(
                    BatchArgs {
                        mr_rounds: if cur.mr_rounds < 3 {
                            3
                        } else {
                            cur.mr_rounds
                        },
                        ..cur
                    },
                );
            }
        } else {
            i = i + 1;
        }
    }
    ParsedArgs::Run(
        BatchArgs {
            mr_rounds: if cur.mr_rounds < 3 {
                3
            } else {
                cur.mr_rounds
            },
            ..cur
        },
    )
}

} // verus!
