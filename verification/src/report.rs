//! Reading a discovery back from the text file written for it: the
//! `Digits:`, `Entropy:`, `Sequence Length:`, `Timestamp:`,
//! `Session Hash:` and `Result Hash:` lines, and the line after
//! `Symbols:`.  The entropy is a floating-point number; its text is
//! handed back for the caller to read.
use crate::text::{
    after_colon, after_first_colon, chars_eq_str, chars_of, chars_starts_with_str, lines,
    parse_signed, parse_signed_chars, split_lines, starts_with, string_of, trim, trim_chars,
};
use vstd::prelude::*;

verus! {

/// The fields read so far, as values.
#[verifier::ext_equal]
pub struct ResultScan {
    pub digits: int,
    pub seq_len: int,
    pub timestamp: int,
    pub session_hash: Seq<char>,
    pub result_hash: Seq<char>,
    pub symbols: Seq<char>,
    pub entropy_texts: Seq<Seq<char>>,
}

/// Nothing read yet.
pub open spec fn empty_scan() -> ResultScan {
    ResultScan {
        digits: 0,
        seq_len: 0,
        timestamp: 0,
        session_hash: Seq::empty(),
        result_hash: Seq::empty(),
        symbols: Seq::empty(),
        entropy_texts: Seq::empty(),
    }
}

/// `i32` as `FromStr` reads it.
pub open spec fn parse_i32(s: Seq<char>) -> Option<int> {
    parse_signed(s, 0x8000_0000, 0x7fff_ffff)
}

/// `i64` as `FromStr` reads it.
pub open spec fn parse_i64(s: Seq<char>) -> Option<int> {
    parse_signed(s, 0x8000_0000_0000_0000, 0x7fff_ffff_ffff_ffff)
}

/// The trimmed text after the first colon of a line, if it has a colon.
pub open spec fn field_value(t: Seq<char>) -> Option<Seq<char>> {
    match after_first_colon(t) {
        Some(v) => Some(trim(v)),
        None => None,
    }
}

/// Reads lines from `i` on, each trimmed: a field line sets its field
/// (a later line of the same field wins), a field without a colon or with
/// a number that does not parse makes the whole file unreadable, and the
/// line `Symbols:` ends the scan, taking the next line (untrimmed) as the
/// symbols.
pub open spec fn scan_result(ls: Seq<Seq<char>>, i: int, st: ResultScan) -> Option<ResultScan>
    decreases ls.len() - i,
{
    if i < 0 || i >= ls.len() {
        Some(st)
    } else {
        let t = trim(ls[i]);
        if starts_with(t, "Digits:"@) {
            match field_value(t) {
                None => None,
                Some(v) => match parse_i32(v) {
                    None => None,
                    Some(x) => scan_result(ls, i + 1, ResultScan { digits: x, ..st }),
                },
            }
        } else if starts_with(t, "Entropy:"@) {
            match field_value(t) {
                None => None,
                Some(v) => scan_result(
                    ls,
                    i + 1,
                    ResultScan { entropy_texts: st.entropy_texts.push(v), ..st },
                ),
            }
        } else if starts_with(t, "Sequence Length:"@) {
            match field_value(t) {
                None => None,
                Some(v) => match parse_i32(v) {
                    None => None,
                    Some(x) => scan_result(ls, i + 1, ResultScan { seq_len: x, ..st }),
                },
            }
        } else if starts_with(t, "Timestamp:"@) {
            match field_value(t) {
                None => None,
                Some(v) => match parse_i64(v) {
                    None => None,
                    Some(x) => scan_result(ls, i + 1, ResultScan { timestamp: x, ..st }),
                },
            }
        } else if starts_with(t, "Session Hash:"@) {
            match field_value(t) {
                None => None,
                Some(v) => scan_result(ls, i + 1, ResultScan { session_hash: v, ..st }),
            }
        } else if starts_with(t, "Result Hash:"@) {
            match field_value(t) {
                None => None,
                Some(v) => scan_result(ls, i + 1, ResultScan { result_hash: v, ..st }),
            }
        } else if t == "Symbols:"@ {
            Some(
                ResultScan {
                    symbols: if i + 1 < ls.len() {
                        ls[i + 1]
                    } else {
                        st.symbols
                    },
                    ..st
                },
            )
        } else {
            scan_result(ls, i + 1, st)
        }
    }
}

/// A scan yields a record when the digit count and the sequence length
/// are positive and the symbols and the session hash are not empty.
pub open spec fn scan_complete(st: ResultScan) -> bool {
    st.digits > 0 && st.seq_len > 0 && st.symbols.len() > 0 && st.session_hash.len() > 0
}

/// The record read from a file, before its entropy is read.
pub struct ResultRecord {
    pub digits: i32,
    pub entropy_texts: Vec<String>,
    pub seq_len: i32,
    pub timestamp: i64,
    pub session_hash: String,
    pub result_hash: String,
    pub symbols: String,
}

/// The record as values.
pub open spec fn record_view(r: ResultRecord) -> ResultScan {
    ResultScan {
        digits: r.digits as int,
        seq_len: r.seq_len as int,
        timestamp: r.timestamp as int,
        session_hash: r.session_hash@,
        result_hash: r.result_hash@,
        symbols: r.symbols@,
        entropy_texts: r.entropy_texts@.map_values(|s: String| s@),
    }
}

/// The trimmed text after the first colon of a line.
fn field_text(t: &[char]) -> (r: Option<Vec<char>>)
    ensures
        match r {
            Some(v) => field_value(t@) == Some(v@),
            None => field_value(t@) is None,
        },
{
    match after_colon(t) {
        Some(v) => Some(trim_chars(v.as_slice())),
        None => None,
    }
}

/// Reads a discovery file: the fields of `scan_result` over its lines,
/// kept only when `scan_complete` holds.  The entropy texts are returned
/// unread, in file order.
pub fn parse_result_file(content: &str) -> (r: Option<ResultRecord>)
    ensures
        match r {
            Some(rec) => scan_result(lines(content@), 0, empty_scan()) == Some(record_view(rec))
                && scan_complete(record_view(rec)),
            None => match scan_result(lines(content@), 0, empty_scan()) {
                Some(st) => !scan_complete(st),
                None => true,
            },
        },
{
    let cs = chars_of(content);
    let ls = split_lines(cs.as_slice());
    let ghost sl = lines(content@);
    let n = ls.len();
    let mut rec = ResultRecord {
        digits: 0,
        entropy_texts: Vec::new(),
        seq_len: 0,
        timestamp: 0,
        session_hash: String::new(),
        result_hash: String::new(),
        symbols: String::new(),
    };
    proof {
        assert(record_view(rec).entropy_texts =~= Seq::<Seq<char>>::empty());
        assert(record_view(rec) =~= empty_scan());
    }
    let mut i: usize = 0;
    let mut stop = false;
    while i < n && !stop
        invariant
            n == ls@.len(),
            n == sl.len(),
            sl == lines(content@),
            forall|q: int| 0 <= q < n ==> #[trigger] ls@[q]@ == sl[q],
            i <= n,
            !stop ==> scan_result(sl, 0, empty_scan()) == scan_result(sl, i as int, record_view(rec)),
            stop ==> scan_result(sl, 0, empty_scan()) == Some(record_view(rec)),
        decreases n - i + (if stop {
            0int
        } else {
            1int
        }),
    {
        let t = trim_chars(ls[i].as_slice());
        let ghost st = record_view(rec);
        proof {
            assert(t@ == trim(sl[i as int]));
        }
        if chars_starts_with_str(t.as_slice(), "Digits:") {
            match field_text(t.as_slice()) {
                None => return None,
                Some(v) => match parse_signed_chars(v.as_slice(), 0x8000_0000, 0x7fff_ffff) {
                    None => return None,
                    Some(x) => {
                        rec.digits = x as i32;
                        proof {
                            assert(record_view(rec) =~= ResultScan { digits: x as int, ..st });
                        }
                    },
                },
            }
            i = i + 1;
        } else if chars_starts_with_str(t.as_slice(), "Entropy:") {
            match field_text(t.as_slice()) {
                None => return None,
                Some(v) => {
                    let s = string_of(v.as_slice());
                    let ghost before = rec.entropy_texts@;
                    rec.entropy_texts.push(s);
                    proof {
                        assert(rec.entropy_texts@ == before.push(s));
                        assert(record_view(rec).entropy_texts =~= st.entropy_texts.push(v@));
                        assert(record_view(rec) =~= ResultScan {
                            entropy_texts: st.entropy_texts.push(v@),
                            ..st
                        });
                    }
                },
            }
            i = i + 1;
        } else if chars_starts_with_str(t.as_slice(), "Sequence Length:") {
            match field_text(t.as_slice()) {
                None => return None,
                Some(v) => match parse_signed_chars(v.as_slice(), 0x8000_0000, 0x7fff_ffff) {
                    None => return None,
                    Some(x) => {
                        rec.seq_len = x as i32;
                        proof {
                            assert(record_view(rec) =~= ResultScan { seq_len: x as int, ..st });
                        }
                    },
                },
            }
            i = i + 1;
        } else if chars_starts_with_str(t.as_slice(), "Timestamp:") {
            match field_text(t.as_slice()) {
                None => return None,
                Some(v) => match parse_signed_chars(
                    v.as_slice(),
                    0x8000_0000_0000_0000,
                    0x7fff_ffff_ffff_ffff,
                ) {
                    None => return None,
                    Some(x) => {
                        rec.timestamp = x as i64;
                        proof {
                            assert(record_view(rec) =~= ResultScan { timestamp: x as int, ..st });
                        }
                    },
                },
            }
            i = i + 1;
        } else if chars_starts_with_str(t.as_slice(), "Session Hash:") {
            match field_text(t.as_slice()) {
                None => return None,
                Some(v) => {
                    rec.session_hash = string_of(v.as_slice());
                    proof {
                        assert(record_view(rec) =~= ResultScan { session_hash: v@, ..st });
                    }
                },
            }
            i = i + 1;
        } else if chars_starts_with_str(t.as_slice(), "Result Hash:") {
            match field_text(t.as_slice()) {
                None => return None,
                Some(v) => {
                    rec.result_hash = string_of(v.as_slice());
                    proof {
                        assert(record_view(rec) =~= ResultScan { result_hash: v@, ..st });
                    }
                },
            }
            i = i + 1;
        } else if chars_eq_str(t.as_slice(), "Symbols:") {
            if i + 1 < n {
                rec.symbols = string_of(ls[i + 1].as_slice());
            }
            proof {
                assert(record_view(rec) =~= ResultScan {
                    symbols: if i + 1 < sl.len() {
                        sl[i + 1]
                    } else {
                        st.symbols
                    },
                    ..st
                });
            }
            stop = true;
        } else {
            i = i + 1;
        }
    }
    proof {
        if !stop {
            assert(scan_result(sl, i as int, record_view(rec)) == Some(record_view(rec)));
        }
    }
    if rec.digits > 0 && rec.seq_len > 0 && rec.symbols.as_str().is_empty() == false
        && rec.session_hash.as_str().is_empty() == false {
        Some(rec)
    } else {
        None
    }
}

} // verus!
