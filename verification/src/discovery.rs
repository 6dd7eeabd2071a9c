//! The text file written for each prime found: a title, the digit count,
//! entropy and sequence length, the PhaseToken block, the prime and its
//! symbols.  `report` reads such a file back.
use crate::bignat::BigNat;
use crate::report::{empty_scan, field_value, scan_complete, scan_result, ResultScan};
use crate::text::{
    all_digits, digits_value, lemma_digits_value_decimal, lemma_parse_decimal, parse_unsigned,
    chars_of, decimal, find_char, int_decimal, is_ws, lemma_decimal_ascii, lemma_find_char,
    lemma_parse_int_decimal, lines, push_char, starts_with, strip_cr, trim, trim_end, trim_start,
};
use crate::training::{first_bracket_line, first_symbols_header, symbols_line};
use crate::token::{is_lower_hex, push_decimal, push_i64, to_decimal_string, PhaseToken};
use vstd::prelude::*;

verus! {

broadcast use vstd::string::group_string_axioms;

// ---------------------------------------------------------------------------
// The model
// ---------------------------------------------------------------------------
/// `{:02}`: the decimal digits of `n`, padded with a zero to two.
pub open spec fn pad2(n: nat) -> Seq<char> {
    if n < 10 {
        seq!['0'] + decimal(n)
    } else {
        decimal(n)
    }
}

/// The items of `{:?}` on a list of small integers, separated by `, `.
pub open spec fn debug_items(s: Seq<i8>) -> Seq<char>
    decreases s.len(),
{
    if s.len() == 0 {
        Seq::empty()
    } else if s.len() == 1 {
        int_decimal(s[0] as int)
    } else {
        debug_items(s.drop_last()) + seq![',', ' '] + int_decimal(s.last() as int)
    }
}

/// `{:?}` on a list of small integers: `[a, b, c]`.
pub open spec fn debug_list(s: Seq<i8>) -> Seq<char> {
    seq!['['] + debug_items(s) + seq![']']
}

/// Lines joined into a text, each ended by `\n`.
pub open spec fn join_lines(ls: Seq<Seq<char>>) -> Seq<char>
    decreases ls.len(),
{
    if ls.len() == 0 {
        Seq::empty()
    } else {
        ls[0] + seq!['\n'] + join_lines(ls.drop_first())
    }
}

/// The lines of the file written for the prime found as number `index`
/// of a run: its entropy (as text), the token's timestamp and hashes, the
/// prime and its symbols.
pub open spec fn report_lines(
    index: nat,
    entropy: Seq<char>,
    timestamp: int,
    session_hash: Seq<char>,
    result_hash: Seq<char>,
    prime: nat,
    symbols: Seq<i8>,
) -> Seq<Seq<char>> {
    seq![
        "QuanJP Ultimate Prime #"@ + pad2(index),
        "===================="@,
        "Digits: "@ + decimal(decimal(prime).len()),
        "Entropy: "@ + entropy,
        "Sequence Length: "@ + decimal(symbols.len()),
        Seq::empty(),
        "PhaseToken"@,
        "=========="@,
        "Timestamp: "@ + int_decimal(timestamp),
        "Session Hash: "@ + session_hash,
        "Result Hash: "@ + result_hash,
        Seq::empty(),
        "Prime:"@,
        decimal(prime),
        Seq::empty(),
        "Symbols:"@,
        debug_list(symbols),
    ]
}

// ---------------------------------------------------------------------------
// Lemmas on joined lines
// ---------------------------------------------------------------------------
/// Adding a line at the end adds it, with its `\n`, to the text.
pub proof fn lemma_join_push(ls: Seq<Seq<char>>, l: Seq<char>)
    ensures
        join_lines(ls.push(l)) == join_lines(ls) + l + seq!['\n'],
    decreases ls.len(),
{
    if ls.len() == 0 {
        assert(ls.push(l).drop_first() =~= Seq::<Seq<char>>::empty());
        assert(join_lines(ls.push(l).drop_first()) == Seq::<char>::empty());
        assert(ls.push(l)[0] == l);
        assert(join_lines(ls.push(l)) =~= l + seq!['\n']);
    } else {
        assert(ls.push(l).drop_first() =~= ls.drop_first().push(l));
        lemma_join_push(ls.drop_first(), l);
        assert(join_lines(ls.push(l)) =~= join_lines(ls) + l + seq!['\n']);
    }
}

/// The text of the first `k + 1` lines.
pub proof fn lemma_join_take(ls: Seq<Seq<char>>, k: int)
    requires
        0 <= k < ls.len(),
    ensures
        join_lines(ls.take(k + 1)) == join_lines(ls.take(k)) + ls[k] + seq!['\n'],
{
    assert(ls.take(k + 1) =~= ls.take(k).push(ls[k]));
    lemma_join_push(ls.take(k), ls[k]);
}

// ---------------------------------------------------------------------------
// Writing
// ---------------------------------------------------------------------------
/// Appends a string slice.
fn push_str(s: &mut String, t: &str)
    ensures
        final(s)@ == old(s)@ + t@,
{
    s.append(t);
}

/// Appends the `{:?}` form of a list of small integers.
fn push_debug_list(s: &mut String, symbols: &[i8])
    ensures
        final(s)@ == old(s)@ + debug_list(symbols@),
{
    let ghost start = s@;
    push_char(s, '[');
    let n = symbols.len();
    let mut i: usize = 0;
    proof {
        assert(symbols@.take(0) =~= Seq::<i8>::empty());
        assert(s@ =~= start + seq!['['] + debug_items(symbols@.take(0)));
    }
    while i < n
        invariant
            n == symbols@.len(),
            i <= n,
            s@ == start + seq!['['] + debug_items(symbols@.take(i as int)),
        decreases n - i,
    {
        let ghost before = s@;
        let ghost t = symbols@.take(i + 1);
        if i > 0 {
            push_char(s, ',');
            push_char(s, ' ');
        }
        push_i64(s, symbols[i] as i64);
        proof {
            assert(t.drop_last() =~= symbols@.take(i as int));
            assert(t.last() == symbols@[i as int]);
            if i > 0 {
                assert(debug_items(t) == debug_items(t.drop_last()) + seq![',', ' ']
                    + int_decimal(t.last() as int));
                assert(s@ =~= start + seq!['['] + debug_items(t));
            } else {
                assert(debug_items(t) == int_decimal(t[0] as int));
                assert(s@ =~= start + seq!['['] + debug_items(t));
            }
        }
        i = i + 1;
    }
    push_char(s, ']');
    proof {
        assert(symbols@.take(n as int) =~= symbols@);
        assert(s@ =~= start + debug_list(symbols@));
    }
}

/// The text file for the prime found as number `index` of a run, with
/// the entropy already formatted: the lines of `report_lines`, each ended
/// by `\n`.
pub fn discovery_report(
    index: u64,
    entropy_text: &str,
    token: &PhaseToken,
    prime: &BigNat,
    symbols: &[i8],
) -> (s: String)
    ensures
        s@ == join_lines(
            report_lines(
                index as nat,
                entropy_text@,
                token.timestamp as int,
                token.session_hash@,
                token.result_hash@,
                prime@,
                symbols@,
            ),
        ),
{
    let ghost ls = report_lines(
        index as nat,
        entropy_text@,
        token.timestamp as int,
        token.session_hash@,
        token.result_hash@,
        prime@,
        symbols@,
    );
    let prime_str = to_decimal_string(prime);
    let prime_text = prime_str.as_str();
    let digits = chars_of(prime_text).len();
    proof {
        assert(digits == decimal(prime@).len());
        assert(ls.take(0) =~= Seq::<Seq<char>>::empty());
    }
    let mut s = String::new();
    // title
    let ghost before = s@;
    push_str(&mut s, "QuanJP Ultimate Prime #");
    if index < 10 {
        push_char(&mut s, '0');
    }
    push_decimal(&mut s, index);
    push_char(&mut s, '\n');
    proof {
        lemma_join_take(ls, 0);
        assert(s@ =~= before + ls[0] + seq!['\n']);
    }
    // rule
    let ghost before = s@;
    push_str(&mut s, "====================");
    push_char(&mut s, '\n');
    proof {
        lemma_join_take(ls, 1);
        assert(s@ =~= before + ls[1] + seq!['\n']);
    }
    // digits
    let ghost before = s@;
    push_str(&mut s, "Digits: ");
    push_decimal(&mut s, digits as u64);
    push_char(&mut s, '\n');
    proof {
        lemma_join_take(ls, 2);
        assert(s@ =~= before + ls[2] + seq!['\n']);
    }
    // entropy
    let ghost before = s@;
    push_str(&mut s, "Entropy: ");
    push_str(&mut s, entropy_text);
    push_char(&mut s, '\n');
    proof {
        lemma_join_take(ls, 3);
        assert(s@ =~= before + ls[3] + seq!['\n']);
    }
    // sequence length
    let ghost before = s@;
    push_str(&mut s, "Sequence Length: ");
    push_decimal(&mut s, symbols.len() as u64);
    push_char(&mut s, '\n');
    proof {
        lemma_join_take(ls, 4);
        assert(s@ =~= before + ls[4] + seq!['\n']);
    }
    // blank line
    let ghost before = s@;
    push_char(&mut s, '\n');
    proof {
        lemma_join_take(ls, 5);
        assert(s@ =~= before + ls[5] + seq!['\n']);
    }
    // the token block
    let ghost before = s@;
    let block = token.to_string_full();
    push_str(&mut s, block.as_str());
    proof {
        reveal_strlit("PhaseToken\n==========\nTimestamp: ");
        reveal_strlit("\nSession Hash: ");
        reveal_strlit("\nResult Hash: ");
        reveal_strlit("\n");
        reveal_strlit("PhaseToken");
        reveal_strlit("==========");
        reveal_strlit("Timestamp: ");
        reveal_strlit("Session Hash: ");
        reveal_strlit("Result Hash: ");
        lemma_join_take(ls, 6);
        lemma_join_take(ls, 7);
        lemma_join_take(ls, 8);
        lemma_join_take(ls, 9);
        lemma_join_take(ls, 10);
        assert(s@ =~= before + ls[6] + seq!['\n'] + ls[7] + seq!['\n'] + ls[8] + seq!['\n']
            + ls[9] + seq!['\n'] + ls[10] + seq!['\n']);
    }
    // blank line, the prime
    let ghost before = s@;
    push_char(&mut s, '\n');
    proof {
        lemma_join_take(ls, 11);
        assert(s@ =~= before + ls[11] + seq!['\n']);
    }
    let ghost before = s@;
    push_str(&mut s, "Prime:");
    push_char(&mut s, '\n');
    proof {
        lemma_join_take(ls, 12);
        assert(s@ =~= before + ls[12] + seq!['\n']);
    }
    let ghost before = s@;
    push_str(&mut s, prime_text);
    push_char(&mut s, '\n');
    proof {
        lemma_join_take(ls, 13);
        assert(s@ =~= before + ls[13] + seq!['\n']);
    }
    // blank line, the symbols
    let ghost before = s@;
    push_char(&mut s, '\n');
    proof {
        lemma_join_take(ls, 14);
        assert(s@ =~= before + ls[14] + seq!['\n']);
    }
    let ghost before = s@;
    push_str(&mut s, "Symbols:");
    push_char(&mut s, '\n');
    proof {
        lemma_join_take(ls, 15);
        assert(s@ =~= before + ls[15] + seq!['\n']);
    }
    let ghost before = s@;
    push_debug_list(&mut s, symbols);
    push_char(&mut s, '\n');
    proof {
        lemma_join_take(ls, 16);
        assert(s@ =~= before + ls[16] + seq!['\n']);
        assert(ls.take(17) =~= ls);
    }
    s
}

// ---------------------------------------------------------------------------
// Reading the file back
// ---------------------------------------------------------------------------
/// A field value that reads back exactly as written: not empty, no
/// whitespace at either end, and neither a line break nor a colon in it.
pub open spec fn plain_value(v: Seq<char>) -> bool {
    &&& v.len() > 0
    &&& !is_ws(v[0])
    &&& !is_ws(v.last())
    &&& forall|j: int| 0 <= j < v.len() ==> #[trigger] v[j] != '\n' && v[j] != ':'
}

/// Lowercase hex, as the PhaseToken's hashes are, is a plain value when
/// it is not empty.
pub proof fn lemma_hex_plain(h: Seq<char>)
    requires
        h.len() > 0,
        is_lower_hex(h),
    ensures
        plain_value(h),
{
    assert('0' <= h[0] <= '9' || 'a' <= h[0] <= 'f');
    assert('0' <= h.last() <= '9' || 'a' <= h.last() <= 'f');
    assert forall|j: int| 0 <= j < h.len() implies #[trigger] h[j] != '\n' && h[j] != ':' by {
        assert('0' <= h[j] <= '9' || 'a' <= h[j] <= 'f');
    }
}

/// No `\n` in a line.
pub open spec fn no_newline(l: Seq<char>) -> bool {
    forall|j: int| 0 <= j < l.len() ==> #[trigger] l[j] != '\n'
}

/// What reading the file of `report_lines` gives back: the digit count,
/// the sequence length, the timestamp, both hashes, the symbols line and
/// the one entropy text.
pub open spec fn report_scan(
    entropy: Seq<char>,
    timestamp: int,
    session_hash: Seq<char>,
    result_hash: Seq<char>,
    prime: nat,
    symbols: Seq<i8>,
) -> ResultScan {
    ResultScan {
        digits: decimal(prime).len() as int,
        seq_len: symbols.len() as int,
        timestamp,
        session_hash,
        result_hash,
        symbols: debug_list(symbols),
        entropy_texts: seq![entropy],
    }
}

/// Splitting joined lines gives the lines back, when none holds a `\n`
/// or ends with `\r`.
pub proof fn lemma_lines_join(ls: Seq<Seq<char>>)
    requires
        forall|i: int| 0 <= i < ls.len() ==> no_newline(#[trigger] ls[i]) && strip_cr(ls[i]) == ls[i],
    ensures
        lines(join_lines(ls)) == ls,
    decreases ls.len(),
{
    if ls.len() == 0 {
        assert(join_lines(ls) =~= Seq::<char>::empty());
        assert(lines(Seq::<char>::empty()) =~= ls);
    } else {
        let l = ls[0];
        let rest = ls.drop_first();
        let r = join_lines(rest);
        let s = join_lines(ls);
        assert(s == l + seq!['\n'] + r);
        assert(no_newline(l) && strip_cr(l) == l);
        assert forall|j: int| 0 <= j < l.len() implies s[j] != '\n' by {
            assert(s[j] == l[j]);
        }
        assert(s[l.len() as int] == '\n');
        lemma_find_char(s, '\n', l.len() as int);
        assert(s.take(l.len() as int) =~= l);
        assert(s.skip(l.len() as int + 1) =~= r);
        assert forall|i: int| 0 <= i < rest.len() implies no_newline(#[trigger] rest[i])
            && strip_cr(rest[i]) == rest[i] by {
            assert(rest[i] == ls[i + 1]);
        }
        lemma_lines_join(rest);
        assert(lines(s) == seq![l] + rest);
        assert(seq![l] + rest =~= ls);
    }
}

/// Text without whitespace at either end is its own trim.
pub proof fn lemma_trim_plain(x: Seq<char>)
    requires
        x.len() > 0,
        !is_ws(x[0]),
        !is_ws(x.last()),
    ensures
        trim(x) == x,
{
    assert(trim_start(x) == x);
    assert(trim_end(x) == x);
}

/// A text that differs from `p` at some index shared by both neither
/// starts with `p` nor equals it.
pub proof fn lemma_differs(t: Seq<char>, p: Seq<char>, k: int)
    requires
        0 <= k < t.len(),
        k < p.len(),
        t[k] != p[k],
    ensures
        !starts_with(t, p),
        t != p,
{
    if p.len() <= t.len() {
        assert(t.take(p.len() as int)[k] == t[k]);
    }
}

/// A line `p v`, where `p` ends with its only colon and `v` is a plain
/// value, is its own trim, starts with `p` and has the field value `v`.
pub proof fn lemma_field_line(p: Seq<char>, v: Seq<char>)
    requires
        p.len() >= 2,
        p.last() == ':',
        forall|j: int| 0 <= j < p.len() - 1 ==> #[trigger] p[j] != ':',
        !is_ws(p[0]),
        plain_value(v),
    ensures
        trim(p + seq![' '] + v) == p + seq![' '] + v,
        starts_with(p + seq![' '] + v, p),
        field_value(p + seq![' '] + v) == Some(v),
{
    let t = p + seq![' '] + v;
    assert(t[0] == p[0]);
    assert(t.last() == v.last());
    lemma_trim_plain(t);
    assert(t.take(p.len() as int) =~= p);
    let k = p.len() - 1;
    assert forall|j: int| 0 <= j < k implies t[j] != ':' by {
        assert(t[j] == p[j]);
    }
    assert(t[k] == ':');
    lemma_find_char(t, ':', k);
    let rest = t.skip(k + 1);
    assert(rest =~= seq![' '] + v);
    assert forall|j: int| 0 <= j < rest.len() implies rest[j] != ':' by {
        if j > 0 {
            assert(rest[j] == v[j - 1]);
        }
    }
    lemma_find_char(rest, ':', rest.len() as int);
    assert(rest.drop_first() =~= v);
    assert(is_ws(rest[0]));
    assert(trim_start(rest) == trim_start(v));
    lemma_trim_plain(v);
    assert(trim(rest) == v);
}

/// The decimal digits of a number form a plain value.
pub proof fn lemma_decimal_plain(n: nat)
    ensures
        plain_value(decimal(n)),
        decimal(n)[0] != '-',
{
    lemma_decimal_ascii(n);
    let d = decimal(n);
    assert(d.len() > 0) by {
        if n >= 10 {
            assert(d == decimal(n / 10).push(crate::text::digit_char(n % 10)));
        }
    }
    assert('0' <= d[0] <= '9');
    assert('0' <= d.last() <= '9');
    assert forall|j: int| 0 <= j < d.len() implies #[trigger] d[j] != '\n' && d[j] != ':' by {
        assert('0' <= d[j] <= '9');
    }
}

/// A signed decimal is a plain value.
pub proof fn lemma_int_decimal_plain(i: int)
    ensures
        plain_value(int_decimal(i)),
{
    if i < 0 {
        let m = (-i) as nat;
        lemma_decimal_plain(m);
        let t = int_decimal(i);
        assert(t == seq!['-'] + decimal(m));
        assert(t.last() == decimal(m).last());
        assert forall|j: int| 0 <= j < t.len() implies #[trigger] t[j] != '\n' && t[j] != ':' by {
            if j > 0 {
                assert(t[j] == decimal(m)[j - 1]);
            }
        }
    } else {
        lemma_decimal_plain(i as nat);
    }
}

/// A line whose trim is empty or starts with none of `D`, `E`, `S`, `T`,
/// `R` is passed over by the scan.
pub proof fn lemma_scan_skip(ls: Seq<Seq<char>>, i: int, st: ResultScan)
    requires
        0 <= i < ls.len(),
        trim(ls[i]).len() == 0 || {
            let c = trim(ls[i])[0];
            c != 'D' && c != 'E' && c != 'S' && c != 'T' && c != 'R'
        },
    ensures
        scan_result(ls, i, st) == scan_result(ls, i + 1, st),
{
    reveal_strlit("Digits:");
    reveal_strlit("Entropy:");
    reveal_strlit("Sequence Length:");
    reveal_strlit("Timestamp:");
    reveal_strlit("Session Hash:");
    reveal_strlit("Result Hash:");
    reveal_strlit("Symbols:");
    let t = trim(ls[i]);
    if t.len() > 0 {
        lemma_differs(t, "Digits:"@, 0);
        lemma_differs(t, "Entropy:"@, 0);
        lemma_differs(t, "Sequence Length:"@, 0);
        lemma_differs(t, "Timestamp:"@, 0);
        lemma_differs(t, "Session Hash:"@, 0);
        lemma_differs(t, "Result Hash:"@, 0);
        lemma_differs(t, "Symbols:"@, 0);
    }
}

/// The `Digits:` line sets the digit count.
pub proof fn lemma_scan_digits(ls: Seq<Seq<char>>, i: int, st: ResultScan, n: nat)
    requires
        0 <= i < ls.len(),
        ls[i] == "Digits: "@ + decimal(n),
        n <= 0x7fff_ffff,
    ensures
        scan_result(ls, i, st) == scan_result(ls, i + 1, ResultScan { digits: n as int, ..st }),
{
    reveal_strlit("Digits: ");
    reveal_strlit("Digits:");
    let p = "Digits:"@;
    assert("Digits: "@ =~= p + seq![' ']);
    lemma_decimal_plain(n);
    lemma_field_line(p, decimal(n));
    lemma_parse_int_decimal(n as int, 0x8000_0000, 0x7fff_ffff);
}

/// The `Entropy:` line adds an entropy text.
pub proof fn lemma_scan_entropy(ls: Seq<Seq<char>>, i: int, st: ResultScan, e: Seq<char>)
    requires
        0 <= i < ls.len(),
        ls[i] == "Entropy: "@ + e,
        plain_value(e),
    ensures
        scan_result(ls, i, st) == scan_result(
            ls,
            i + 1,
            ResultScan { entropy_texts: st.entropy_texts.push(e), ..st },
        ),
{
    reveal_strlit("Entropy: ");
    reveal_strlit("Entropy:");
    reveal_strlit("Digits:");
    let p = "Entropy:"@;
    assert("Entropy: "@ =~= p + seq![' ']);
    lemma_field_line(p, e);
    lemma_differs(ls[i], "Digits:"@, 0);
}

/// The `Sequence Length:` line sets the sequence length.
pub proof fn lemma_scan_seq_len(ls: Seq<Seq<char>>, i: int, st: ResultScan, n: nat)
    requires
        0 <= i < ls.len(),
        ls[i] == "Sequence Length: "@ + decimal(n),
        n <= 0x7fff_ffff,
    ensures
        scan_result(ls, i, st) == scan_result(ls, i + 1, ResultScan { seq_len: n as int, ..st }),
{
    reveal_strlit("Sequence Length: ");
    reveal_strlit("Sequence Length:");
    reveal_strlit("Digits:");
    reveal_strlit("Entropy:");
    let p = "Sequence Length:"@;
    assert("Sequence Length: "@ =~= p + seq![' ']);
    lemma_decimal_plain(n);
    lemma_field_line(p, decimal(n));
    lemma_differs(ls[i], "Digits:"@, 0);
    lemma_differs(ls[i], "Entropy:"@, 0);
    lemma_parse_int_decimal(n as int, 0x8000_0000, 0x7fff_ffff);
}

/// The `Timestamp:` line sets the timestamp.
pub proof fn lemma_scan_timestamp(ls: Seq<Seq<char>>, i: int, st: ResultScan, ts: int)
    requires
        0 <= i < ls.len(),
        ls[i] == "Timestamp: "@ + int_decimal(ts),
        -0x8000_0000_0000_0000 <= ts <= 0x7fff_ffff_ffff_ffff,
    ensures
        scan_result(ls, i, st) == scan_result(ls, i + 1, ResultScan { timestamp: ts, ..st }),
{
    reveal_strlit("Timestamp: ");
    reveal_strlit("Timestamp:");
    reveal_strlit("Digits:");
    reveal_strlit("Entropy:");
    reveal_strlit("Sequence Length:");
    let p = "Timestamp:"@;
    assert("Timestamp: "@ =~= p + seq![' ']);
    lemma_int_decimal_plain(ts);
    lemma_field_line(p, int_decimal(ts));
    lemma_differs(ls[i], "Digits:"@, 0);
    lemma_differs(ls[i], "Entropy:"@, 0);
    lemma_differs(ls[i], "Sequence Length:"@, 0);
    lemma_parse_int_decimal(ts, 0x8000_0000_0000_0000, 0x7fff_ffff_ffff_ffff);
}

/// The `Session Hash:` line sets the session hash.
pub proof fn lemma_scan_session_hash(ls: Seq<Seq<char>>, i: int, st: ResultScan, h: Seq<char>)
    requires
        0 <= i < ls.len(),
        ls[i] == "Session Hash: "@ + h,
        plain_value(h),
    ensures
        scan_result(ls, i, st) == scan_result(ls, i + 1, ResultScan { session_hash: h, ..st }),
{
    reveal_strlit("Session Hash: ");
    reveal_strlit("Session Hash:");
    reveal_strlit("Digits:");
    reveal_strlit("Entropy:");
    reveal_strlit("Sequence Length:");
    reveal_strlit("Timestamp:");
    let p = "Session Hash:"@;
    assert("Session Hash: "@ =~= p + seq![' ']);
    lemma_field_line(p, h);
    lemma_differs(ls[i], "Digits:"@, 0);
    lemma_differs(ls[i], "Entropy:"@, 0);
    lemma_differs(ls[i], "Sequence Length:"@, 2);
    lemma_differs(ls[i], "Timestamp:"@, 0);
}

/// The `Result Hash:` line sets the result hash.
pub proof fn lemma_scan_result_hash(ls: Seq<Seq<char>>, i: int, st: ResultScan, h: Seq<char>)
    requires
        0 <= i < ls.len(),
        ls[i] == "Result Hash: "@ + h,
        plain_value(h),
    ensures
        scan_result(ls, i, st) == scan_result(ls, i + 1, ResultScan { result_hash: h, ..st }),
{
    reveal_strlit("Result Hash: ");
    reveal_strlit("Result Hash:");
    reveal_strlit("Digits:");
    reveal_strlit("Entropy:");
    reveal_strlit("Sequence Length:");
    reveal_strlit("Timestamp:");
    reveal_strlit("Session Hash:");
    let p = "Result Hash:"@;
    assert("Result Hash: "@ =~= p + seq![' ']);
    lemma_field_line(p, h);
    lemma_differs(ls[i], "Digits:"@, 0);
    lemma_differs(ls[i], "Entropy:"@, 0);
    lemma_differs(ls[i], "Sequence Length:"@, 0);
    lemma_differs(ls[i], "Timestamp:"@, 0);
    lemma_differs(ls[i], "Session Hash:"@, 0);
}

/// The `Symbols:` line ends the scan with the next line as the symbols.
pub proof fn lemma_scan_symbols(ls: Seq<Seq<char>>, i: int, st: ResultScan)
    requires
        0 <= i,
        i + 1 < ls.len(),
        ls[i] == "Symbols:"@,
    ensures
        scan_result(ls, i, st) == Some(ResultScan { symbols: ls[i + 1], ..st }),
{
    reveal_strlit("Symbols:");
    reveal_strlit("Digits:");
    reveal_strlit("Entropy:");
    reveal_strlit("Sequence Length:");
    reveal_strlit("Timestamp:");
    reveal_strlit("Session Hash:");
    reveal_strlit("Result Hash:");
    let t = ls[i];
    lemma_trim_plain(t);
    lemma_differs(t, "Digits:"@, 0);
    lemma_differs(t, "Entropy:"@, 0);
    lemma_differs(t, "Timestamp:"@, 0);
    lemma_differs(t, "Result Hash:"@, 0);
    assert(!starts_with(t, "Sequence Length:"@));
    assert(!starts_with(t, "Session Hash:"@));
}

/// `{:02}` of a number is a plain value.
pub proof fn lemma_pad2_plain(n: nat)
    ensures
        plain_value(pad2(n)),
{
    lemma_decimal_plain(n);
    if n < 10 {
        let t = pad2(n);
        assert(t == seq!['0'] + decimal(n));
        assert(t.last() == decimal(n).last());
        assert forall|j: int| 0 <= j < t.len() implies #[trigger] t[j] != '\n' && t[j] != ':' by {
            if j > 0 {
                assert(t[j] == decimal(n)[j - 1]);
            }
        }
    }
}

/// The items of a `{:?}` list hold no line break.
pub proof fn lemma_debug_items_clean(s: Seq<i8>)
    ensures
        no_newline(debug_items(s)),
    decreases s.len(),
{
    if s.len() == 1 {
        lemma_int_decimal_plain(s[0] as int);
    } else if s.len() > 1 {
        lemma_debug_items_clean(s.drop_last());
        lemma_int_decimal_plain(s.last() as int);
        let a = debug_items(s.drop_last());
        let b = int_decimal(s.last() as int);
        let t = debug_items(s);
        assert(t == a + seq![',', ' '] + b);
        assert forall|j: int| 0 <= j < t.len() implies #[trigger] t[j] != '\n' by {
            if j < a.len() {
                assert(t[j] == a[j]);
            } else if j >= a.len() + 2 {
                assert(t[j] == b[j - a.len() - 2]);
            }
        }
    }
}

/// A label followed by a plain value holds no line break and does not
/// end with `\r`.
pub proof fn lemma_clean_concat(a: Seq<char>, b: Seq<char>)
    requires
        no_newline(a),
        plain_value(b),
    ensures
        no_newline(a + b),
        strip_cr(a + b) == a + b,
{
    let t = a + b;
    assert forall|j: int| 0 <= j < t.len() implies #[trigger] t[j] != '\n' by {
        if j < a.len() {
            assert(t[j] == a[j]);
        } else {
            assert(t[j] == b[j - a.len()]);
        }
    }
    assert(t.last() == b.last());
}

/// No line of the report holds a line break or ends with `\r`.
pub proof fn lemma_report_lines_clean(
    index: nat,
    entropy: Seq<char>,
    timestamp: int,
    session_hash: Seq<char>,
    result_hash: Seq<char>,
    prime: nat,
    symbols: Seq<i8>,
)
    requires
        plain_value(entropy),
        plain_value(session_hash),
        plain_value(result_hash),
    ensures
        ({
            let ls = report_lines(
                index,
                entropy,
                timestamp,
                session_hash,
                result_hash,
                prime,
                symbols,
            );
            forall|i: int| 0 <= i < ls.len() ==> no_newline(#[trigger] ls[i]) && strip_cr(ls[i]) == ls[i]
        }),
{
    let ls = report_lines(index, entropy, timestamp, session_hash, result_hash, prime, symbols);
    reveal_strlit("QuanJP Ultimate Prime #");
    reveal_strlit("====================");
    reveal_strlit("Digits: ");
    reveal_strlit("Entropy: ");
    reveal_strlit("Sequence Length: ");
    reveal_strlit("PhaseToken");
    reveal_strlit("==========");
    reveal_strlit("Timestamp: ");
    reveal_strlit("Session Hash: ");
    reveal_strlit("Result Hash: ");
    reveal_strlit("Prime:");
    reveal_strlit("Symbols:");
    lemma_pad2_plain(index);
    lemma_decimal_plain(decimal(prime).len());
    lemma_decimal_plain(symbols.len());
    lemma_decimal_plain(prime);
    lemma_int_decimal_plain(timestamp);
    lemma_clean_concat("QuanJP Ultimate Prime #"@, pad2(index));
    lemma_clean_concat("Digits: "@, decimal(decimal(prime).len()));
    lemma_clean_concat("Entropy: "@, entropy);
    lemma_clean_concat("Sequence Length: "@, decimal(symbols.len()));
    lemma_clean_concat("Timestamp: "@, int_decimal(timestamp));
    lemma_clean_concat("Session Hash: "@, session_hash);
    lemma_clean_concat("Result Hash: "@, result_hash);
    lemma_clean_concat(Seq::empty(), decimal(prime));
    assert(Seq::<char>::empty() + decimal(prime) =~= decimal(prime));
    lemma_debug_items_clean(symbols);
    let d = debug_list(symbols);
    let a = debug_items(symbols);
    assert forall|j: int| 0 <= j < d.len() implies #[trigger] d[j] != '\n' by {
        if 0 < j < d.len() - 1 {
            assert(d[j] == a[j - 1]);
        }
    }
    assert(d.last() == ']');
}

/// The symbols line of a discovery file is the `{:?}` list of its
/// symbols.
pub proof fn lemma_report_symbols_line(
    index: nat,
    entropy: Seq<char>,
    timestamp: int,
    session_hash: Seq<char>,
    result_hash: Seq<char>,
    prime: nat,
    symbols: Seq<i8>,
)
    requires
        plain_value(entropy),
        plain_value(session_hash),
        plain_value(result_hash),
    ensures
        symbols_line(
            join_lines(
                report_lines(index, entropy, timestamp, session_hash, result_hash, prime, symbols),
            ),
        ) == Some(debug_list(symbols)),
{
    let ls = report_lines(index, entropy, timestamp, session_hash, result_hash, prime, symbols);
    lemma_report_lines_clean(index, entropy, timestamp, session_hash, result_hash, prime, symbols);
    lemma_lines_join(ls);
    reveal_strlit("QuanJP Ultimate Prime #");
    reveal_strlit("====================");
    reveal_strlit("Digits: ");
    reveal_strlit("Entropy: ");
    reveal_strlit("Sequence Length: ");
    reveal_strlit("PhaseToken");
    reveal_strlit("==========");
    reveal_strlit("Timestamp: ");
    reveal_strlit("Session Hash: ");
    reveal_strlit("Result Hash: ");
    reveal_strlit("Prime:");
    reveal_strlit("Symbols:");
    reveal_strlit("[");
    let h = "Symbols:"@;
    lemma_pad2_plain(index);
    lemma_decimal_plain(prime);
    lemma_decimal_plain(decimal(prime).len());
    lemma_decimal_plain(symbols.len());
    lemma_int_decimal_plain(timestamp);
    lemma_decimal_ascii(prime);
    // no line before the header trims to it
    assert(ls[0].last() == pad2(index).last());
    assert(ls[2].last() == decimal(decimal(prime).len()).last());
    assert(ls[3].last() == entropy.last());
    assert(ls[4].last() == decimal(symbols.len()).last());
    assert(ls[8].last() == int_decimal(timestamp).last());
    assert(ls[9].last() == session_hash.last());
    assert(ls[10].last() == result_hash.last());
    assert forall|k: int| 0 <= k < 15 && ls[k].len() > 0 implies trim(ls[k]) == ls[k] by {
        lemma_trim_plain(ls[k]);
    }
    assert(trim(ls[5]).len() == 0);
    assert(trim(ls[11]).len() == 0);
    assert(trim(ls[14]).len() == 0);
    assert('0' <= ls[13][0] <= '9');
    lemma_differs(ls[0], h, 0);
    lemma_differs(ls[1], h, 0);
    lemma_differs(ls[2], h, 0);
    lemma_differs(ls[3], h, 0);
    lemma_differs(ls[4], h, 1);
    lemma_differs(ls[6], h, 0);
    lemma_differs(ls[7], h, 0);
    lemma_differs(ls[8], h, 0);
    lemma_differs(ls[9], h, 1);
    lemma_differs(ls[10], h, 0);
    lemma_differs(ls[12], h, 0);
    lemma_differs(ls[13], h, 0);
    assert(first_symbols_header(ls, 14) == first_symbols_header(ls, 15));
    assert(first_symbols_header(ls, 13) == first_symbols_header(ls, 15));
    assert(first_symbols_header(ls, 12) == first_symbols_header(ls, 15));
    assert(first_symbols_header(ls, 11) == first_symbols_header(ls, 15));
    assert(first_symbols_header(ls, 10) == first_symbols_header(ls, 15));
    assert(first_symbols_header(ls, 9) == first_symbols_header(ls, 15));
    assert(first_symbols_header(ls, 8) == first_symbols_header(ls, 15));
    assert(first_symbols_header(ls, 7) == first_symbols_header(ls, 15));
    assert(first_symbols_header(ls, 6) == first_symbols_header(ls, 15));
    assert(first_symbols_header(ls, 5) == first_symbols_header(ls, 15));
    assert(first_symbols_header(ls, 4) == first_symbols_header(ls, 15));
    assert(first_symbols_header(ls, 3) == first_symbols_header(ls, 15));
    assert(first_symbols_header(ls, 2) == first_symbols_header(ls, 15));
    assert(first_symbols_header(ls, 1) == first_symbols_header(ls, 15));
    assert(first_symbols_header(ls, 0) == first_symbols_header(ls, 15));
    lemma_trim_plain(ls[15]);
    assert(first_symbols_header(ls, 0) == 15);
    // the next line is the list
    let d = debug_list(symbols);
    assert(d[0] == '[');
    assert(d.take(1) =~= "["@);
    assert(first_bracket_line(ls, 16) == 16);
    lemma_trim_plain(d);
}

/// The file of a discovery has 17 lines; the title ends with the index
/// in at least two decimal digits; the line after `Prime:` is the prime in
/// full, in decimal, and reads back as the prime.
pub proof fn lemma_report_prime_line(
    index: nat,
    entropy: Seq<char>,
    timestamp: int,
    session_hash: Seq<char>,
    result_hash: Seq<char>,
    prime: nat,
    symbols: Seq<i8>,
)
    requires
        plain_value(entropy),
        plain_value(session_hash),
        plain_value(result_hash),
    ensures
        ({
            let ls = lines(
                join_lines(
                    report_lines(index, entropy, timestamp, session_hash, result_hash, prime, symbols),
                ),
            );
            &&& ls.len() == 17
            &&& ls[0] == "QuanJP Ultimate Prime #"@ + pad2(index)
            &&& ls[12] == "Prime:"@
            &&& ls[13] == decimal(prime)
            &&& parse_unsigned(ls[13], prime) == Some(prime)
        }),
        pad2(index).len() >= 2,
        all_digits(pad2(index)),
        digits_value(pad2(index)) == index,
{
    let ls = report_lines(index, entropy, timestamp, session_hash, result_hash, prime, symbols);
    lemma_report_lines_clean(index, entropy, timestamp, session_hash, result_hash, prime, symbols);
    lemma_lines_join(ls);
    lemma_parse_decimal(prime, prime);
    lemma_digits_value_decimal(index);
    let p = pad2(index);
    if index < 10 {
        let d = decimal(index);
        assert(d.len() == 1);
        assert(p == seq!['0'] + d);
        assert(p.drop_last() =~= seq!['0']);
        let z = seq!['0'];
        assert(z.drop_last() =~= Seq::<char>::empty());
        assert(digits_value(Seq::<char>::empty()) == 0);
        assert(z.last() == '0');
        assert(('0' as nat) == 48);
        assert(digits_value(z) == 0);
        assert(d.drop_last() =~= Seq::<char>::empty());
        assert(digits_value(p) == digits_value(d));
        assert forall|i: int| 0 <= i < p.len() implies '0' <= #[trigger] p[i] <= '9' by {
            if i == 1 {
                assert(p[1] == d[0]);
            }
        }
    } else {
        let d = decimal(index);
        assert(d == decimal(index / 10).push(crate::text::digit_char(index % 10)));
        lemma_digits_value_decimal(index / 10);
    }
}

/// What a discovery file says is what reading it gives back: its lines,
/// scanned from the first, yield the digit count of the prime, the length
/// of the symbol sequence, the token's timestamp and both hashes, the
/// symbols line and the one entropy text; the record is complete exactly
/// when there is at least one symbol; and the symbols line that training
/// data is read from is the `{:?}` list of the symbols.  This holds when
/// the entropy text and the hashes are plain values and both counts fit
/// in an `i32`.
pub proof fn lemma_report_reads_back(
    index: nat,
    entropy: Seq<char>,
    timestamp: i64,
    session_hash: Seq<char>,
    result_hash: Seq<char>,
    prime: nat,
    symbols: Seq<i8>,
)
    requires
        plain_value(entropy),
        plain_value(session_hash),
        plain_value(result_hash),
        decimal(prime).len() <= 0x7fff_ffff,
        symbols.len() <= 0x7fff_ffff,
    ensures
        scan_result(
            lines(
                join_lines(
                    report_lines(
                        index,
                        entropy,
                        timestamp as int,
                        session_hash,
                        result_hash,
                        prime,
                        symbols,
                    ),
                ),
            ),
            0,
            empty_scan(),
        ) == Some(
            report_scan(entropy, timestamp as int, session_hash, result_hash, prime, symbols),
        ),
        report_scan(entropy, timestamp as int, session_hash, result_hash, prime, symbols)
            == (ResultScan {
            digits: decimal(prime).len() as int,
            seq_len: symbols.len() as int,
            timestamp: timestamp as int,
            session_hash,
            result_hash,
            symbols: debug_list(symbols),
            entropy_texts: seq![entropy],
        }),
        scan_complete(
            report_scan(entropy, timestamp as int, session_hash, result_hash, prime, symbols),
        ) <==> symbols.len() > 0,
        symbols_line(
            join_lines(
                report_lines(
                    index,
                    entropy,
                    timestamp as int,
                    session_hash,
                    result_hash,
                    prime,
                    symbols,
                ),
            ),
        ) == Some(debug_list(symbols)),
{
    lemma_report_symbols_line(
        index,
        entropy,
        timestamp as int,
        session_hash,
        result_hash,
        prime,
        symbols,
    );
    let ts = timestamp as int;
    let ls = report_lines(index, entropy, ts, session_hash, result_hash, prime, symbols);
    lemma_report_lines_clean(index, entropy, ts, session_hash, result_hash, prime, symbols);
    lemma_lines_join(ls);
    reveal_strlit("QuanJP Ultimate Prime #");
    reveal_strlit("====================");
    reveal_strlit("PhaseToken");
    reveal_strlit("==========");
    reveal_strlit("Prime:");
    lemma_pad2_plain(index);
    lemma_decimal_plain(prime);
    lemma_decimal_plain(decimal(prime).len());
    let n_digits = decimal(prime).len();
    // title and rule
    assert(ls[0].last() == pad2(index).last());
    lemma_trim_plain(ls[0]);
    lemma_scan_skip(ls, 0, empty_scan());
    lemma_trim_plain(ls[1]);
    lemma_scan_skip(ls, 1, empty_scan());
    // the counts and the entropy
    lemma_scan_digits(ls, 2, empty_scan(), n_digits);
    let s3 = ResultScan { digits: n_digits as int, ..empty_scan() };
    lemma_scan_entropy(ls, 3, s3, entropy);
    let s4 = ResultScan { entropy_texts: s3.entropy_texts.push(entropy), ..s3 };
    lemma_scan_seq_len(ls, 4, s4, symbols.len());
    let s5 = ResultScan { seq_len: symbols.len() as int, ..s4 };
    // blank line and the token's title and rule
    assert(trim(ls[5]).len() == 0);
    lemma_scan_skip(ls, 5, s5);
    lemma_trim_plain(ls[6]);
    lemma_scan_skip(ls, 6, s5);
    lemma_trim_plain(ls[7]);
    lemma_scan_skip(ls, 7, s5);
    // the token's fields
    lemma_scan_timestamp(ls, 8, s5, ts);
    let s9 = ResultScan { timestamp: ts, ..s5 };
    lemma_scan_session_hash(ls, 9, s9, session_hash);
    let s10 = ResultScan { session_hash, ..s9 };
    lemma_scan_result_hash(ls, 10, s10, result_hash);
    let s11 = ResultScan { result_hash, ..s10 };
    // blank line, the prime, blank line
    assert(trim(ls[11]).len() == 0);
    lemma_scan_skip(ls, 11, s11);
    lemma_trim_plain(ls[12]);
    lemma_scan_skip(ls, 12, s11);
    lemma_trim_plain(ls[13]);
    lemma_decimal_ascii(prime);
    assert('0' <= ls[13][0] <= '9');
    lemma_scan_skip(ls, 13, s11);
    assert(trim(ls[14]).len() == 0);
    lemma_scan_skip(ls, 14, s11);
    // the symbols
    lemma_scan_symbols(ls, 15, s11);
    assert(ResultScan { symbols: ls[16], ..s11 } =~= report_scan(
        entropy,
        ts,
        session_hash,
        result_hash,
        prime,
        symbols,
    ));
}

} // verus!
