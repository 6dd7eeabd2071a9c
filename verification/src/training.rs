//! Training data for the pattern matrix: symbol sequences read back from
//! result files and JSON files, the fallbacks used when none are found,
//! and the JSON form in which sequences are stored.
use crate::text::{
    chars_eq_str, chars_of, chars_starts_with_str, lines, split_lines, starts_with, string_of,
    sub_chars, trim, trim_chars,
};
use crate::discovery::debug_list;
use crate::text::int_decimal;
use vstd::prelude::*;

verus! {

// ---------------------------------------------------------------------------
// Outside items
// ---------------------------------------------------------------------------
/// What `serde_json` makes of a text read as a JSON array of `i8`.
pub uninterp spec fn json_i8_array(text: Seq<char>) -> Option<Seq<i8>>;

/// `serde_json::from_str::<Vec<i8>>`, with the error dropped: the parsed
/// array when the text is one, `None` otherwise.  Which texts parse, and
/// to what, is named `json_i8_array` and not spelled out in general; what
/// is stated is that the two list forms written here, the compact JSON
/// array (`[1,-1]`) and the `{:?}` list (`[1, -1]`), parse to the numbers
/// they list.
#[verifier::external_body]
fn parse_json_i8_array(text: &str) -> (r: Option<Vec<i8>>)
    ensures
        r is Some <==> json_i8_array(text@) is Some,
        r matches Some(v) ==> json_i8_array(text@) == Some(v@),
        r is Some || forall|s: Seq<i8>| #[trigger] json_array(s) != text@,
        r matches Some(v) ==> forall|s: Seq<i8>| #[trigger] json_array(s) == text@ ==> v@ == s,
        r is Some || forall|s: Seq<i8>| #[trigger] debug_list(s) != text@,
        r matches Some(v) ==> forall|s: Seq<i8>| #[trigger] debug_list(s) == text@ ==> v@ == s,
{
    serde_json::from_str::<Vec<i8>>(text).ok()
}

/// `serde_json::to_string` on a slice of `i8`: the compact JSON array,
/// `[`, the numbers in decimal separated by `,`, then `]`.  Serialising
/// integers cannot fail, so the `Ok` value is taken.
#[verifier::external_body]
fn json_of_i8_slice(symbols: &[i8]) -> (s: String)
    ensures
        s@ == json_array(symbols@),
{
    serde_json::to_string(symbols).unwrap_or_default()
}

// ---------------------------------------------------------------------------
// The model
// ---------------------------------------------------------------------------
/// The numbers of `s` in decimal, separated by commas.
pub open spec fn joined_decimals(s: Seq<i8>) -> Seq<char>
    decreases s.len(),
{
    if s.len() == 0 {
        Seq::empty()
    } else if s.len() == 1 {
        int_decimal(s[0] as int)
    } else {
        joined_decimals(s.drop_last()) + seq![','] + int_decimal(s.last() as int)
    }
}

/// The compact JSON array of a sequence of small integers.
pub open spec fn json_array(s: Seq<i8>) -> Seq<char> {
    seq!['['] + joined_decimals(s) + seq![']']
}

/// Index of the first line that trims to `Symbols:`, from `from` on.
pub open spec fn first_symbols_header(ls: Seq<Seq<char>>, from: int) -> int
    decreases ls.len() - from,
{
    if from >= ls.len() {
        -1
    } else if trim(ls[from]) == "Symbols:"@ {
        from
    } else {
        first_symbols_header(ls, from + 1)
    }
}

/// Index of the first line that starts with `[`, from `from` on.
pub open spec fn first_bracket_line(ls: Seq<Seq<char>>, from: int) -> int
    decreases ls.len() - from,
{
    if from >= ls.len() {
        -1
    } else if starts_with(ls[from], "["@) {
        from
    } else {
        first_bracket_line(ls, from + 1)
    }
}

/// The symbols line of a result file: after the first line reading
/// `Symbols:` (trimmed), the first line that starts with `[`, trimmed;
/// nothing if there is no such line.
pub open spec fn symbols_line(text: Seq<char>) -> Option<Seq<char>> {
    let ls = lines(text);
    let h = first_symbols_header(ls, 0);
    if h < 0 {
        None
    } else {
        let b = first_bracket_line(ls, h + 1);
        if b < 0 {
            None
        } else {
            Some(trim(ls[b]))
        }
    }
}

/// The symbols a result file yields: its symbols line parsed as a JSON
/// array; nothing if there is no such line or it does not parse.
pub open spec fn symbols_in_result_text(text: Seq<char>) -> Option<Seq<i8>> {
    match symbols_line(text) {
        Some(l) => json_i8_array(l),
        None => None,
    }
}

/// Whether a file name is that of a result file: `quanjp_*.txt`.
pub open spec fn is_result_file_name_spec(name: Seq<char>) -> bool {
    &&& starts_with(name, "quanjp_"@)
    &&& name.len() >= 4
    &&& name.skip(name.len() - 4) == ".txt"@
}

/// The two sequences used when no training data is found.
pub open spec fn default_sequences() -> Seq<Seq<i8>> {
    seq![
        seq![-1i8, -1i8, -1i8, -1i8, -1i8, -1i8, -1i8, 1i8, 0i8, -1i8, 2i8, 2i8, 1i8, -1i8, 2i8, 0i8],
        seq![-1i8, 1i8, 0i8, -1i8, 0i8, 0i8, 0i8, 1i8, 1i8, -1i8, 1i8, -1i8, 1i8, 1i8, 1i8, -1i8],
    ]
}

/// Where the training data of a run came from.
#[derive(PartialEq, Eq, Structural, Clone, Copy, Debug)]
pub enum TrainingSource {
    History,
    ResultFiles,
    JsonFiles,
    Defaults,
}

/// The views of a vector of sequences.
pub open spec fn seqs_view(v: Seq<Vec<i8>>) -> Seq<Seq<i8>> {
    v.map_values(|x: Vec<i8>| x@)
}

// ---------------------------------------------------------------------------
// Functions
// ---------------------------------------------------------------------------
/// The JSON text of a symbol sequence, as stored in the history database.
pub fn symbols_json(symbols: &[i8]) -> (s: String)
    ensures
        s@ == json_array(symbols@),
{
    json_of_i8_slice(symbols)
}

/// Parses a JSON array of `i8`; the text of `symbols_json` reads back as
/// the symbols it was made from.
pub fn parse_symbols_json(text: &str) -> (r: Option<Vec<i8>>)
    ensures
        r is Some <==> json_i8_array(text@) is Some,
        r matches Some(v) ==> json_i8_array(text@) == Some(v@),
        forall|s: Seq<i8>| #[trigger] json_array(s) == text@ ==> (r matches Some(v) && v@ == s),
{
    parse_json_i8_array(text)
}

/// Whether a file name is that of a result file: it starts with `quanjp_`
/// and its extension is `txt`.
pub fn is_result_file_name(name: &str) -> (b: bool)
    ensures
        b == is_result_file_name_spec(name@),
{
    let cs = chars_of(name);
    if !chars_starts_with_str(cs.as_slice(), "quanjp_") {
        return false;
    }
    if cs.len() < 4 {
        return false;
    }
    let tail = sub_chars(cs.as_slice(), cs.len() - 4, cs.len());
    proof {
        assert(tail@ =~= cs@.skip(cs@.len() - 4));
    }
    chars_eq_str(tail.as_slice(), ".txt")
}

/// The symbols stored in the text of a result file (see
/// `symbols_in_result_text`); a symbols line in the `{:?}` form of a list
/// reads back as that list.
pub fn symbols_from_result_text(text: &str) -> (r: Option<Vec<i8>>)
    ensures
        r is Some <==> symbols_in_result_text(text@) is Some,
        r matches Some(v) ==> symbols_in_result_text(text@) == Some(v@),
        forall|s: Seq<i8>| symbols_line(text@) == Some(#[trigger] debug_list(s)) ==> (r matches Some(
            v,
        ) && v@ == s),
{
    let cs = chars_of(text);
    let ls = split_lines(cs.as_slice());
    let ghost spec_ls = lines(text@);
    let n = ls.len();
    let mut i: usize = 0;
    let mut found = false;
    while i < n && !found
        invariant
            n == ls@.len(),
            n == spec_ls.len(),
            spec_ls == lines(text@),
            forall|q: int| 0 <= q < n ==> #[trigger] ls@[q]@ == spec_ls[q],
            i <= n,
            found ==> i < n && trim(spec_ls[i as int]) == "Symbols:"@,
            first_symbols_header(spec_ls, 0) == first_symbols_header(spec_ls, i as int),
        decreases n - i + (if found {
            0int
        } else {
            1int
        }),
    {
        let t = trim_chars(ls[i].as_slice());
        if chars_eq_str(t.as_slice(), "Symbols:") {
            found = true;
        } else {
            i = i + 1;
        }
    }
    if !found {
        return None;
    }
    proof {
        assert(first_symbols_header(spec_ls, 0) == i);
    }
    let mut j: usize = i + 1;
    let mut found_bracket = false;
    while j < n && !found_bracket
        invariant
            n == ls@.len(),
            n == spec_ls.len(),
            spec_ls == lines(text@),
            forall|q: int| 0 <= q < n ==> #[trigger] ls@[q]@ == spec_ls[q],
            first_symbols_header(spec_ls, 0) == i,
            i < j <= n,
            found_bracket ==> j < n && starts_with(spec_ls[j as int], "["@),
            first_bracket_line(spec_ls, i + 1) == first_bracket_line(spec_ls, j as int),
        decreases n - j + (if found_bracket {
            0int
        } else {
            1int
        }),
    {
        if chars_starts_with_str(ls[j].as_slice(), "[") {
            found_bracket = true;
        } else {
            j = j + 1;
        }
    }
    if !found_bracket {
        return None;
    }
    let t = trim_chars(ls[j].as_slice());
    let s = string_of(t.as_slice());
    parse_json_i8_array(s.as_str())
}

/// The symbols that a list of result-file texts yields, in list order: one
/// sequence from each text that has a readable symbols line.
pub open spec fn result_symbols(texts: Seq<Seq<char>>) -> Seq<Seq<i8>>
    decreases texts.len(),
{
    if texts.len() == 0 {
        Seq::empty()
    } else {
        let prev = result_symbols(texts.drop_last());
        match symbols_in_result_text(texts.last()) {
            Some(v) => prev.push(v),
            None => prev,
        }
    }
}

/// The views of a list of strings.
pub open spec fn texts_view(texts: Seq<String>) -> Seq<Seq<char>> {
    texts.map_values(|t: String| t@)
}

/// Training sequences from the texts of the result files, in the order
/// given: the symbols of each text that yields any.
pub fn symbols_from_result_files(texts: &[String]) -> (out: Vec<Vec<i8>>)
    ensures
        seqs_view(out@) == result_symbols(texts_view(texts@)),
{
    let ghost tv = texts_view(texts@);
    let n = texts.len();
    let mut out: Vec<Vec<i8>> = Vec::new();
    let mut i: usize = 0;
    proof {
        assert(tv.take(0) =~= Seq::<Seq<char>>::empty());
        assert(seqs_view(out@) =~= result_symbols(tv.take(0)));
    }
    while i < n
        invariant
            n == texts@.len(),
            tv == texts_view(texts@),
            i <= n,
            seqs_view(out@) == result_symbols(tv.take(i as int)),
        decreases n - i,
    {
        let r = symbols_from_result_text(texts[i].as_str());
        proof {
            let t = tv.take(i + 1);
            assert(t.drop_last() =~= tv.take(i as int));
            assert(t.last() == texts@[i as int]@);
        }
        let ghost before = out@;
        match r {
            Some(v) => {
                out.push(v);
                proof {
                    assert(seqs_view(out@) =~= seqs_view(before).push(out@.last()@));
                }
            },
            None => {},
        }
        i = i + 1;
    }
    proof {
        assert(tv.take(n as int) =~= tv);
    }
    out
}

/// The two fallback sequences.
pub fn default_training_data() -> (d: Vec<Vec<i8>>)
    ensures
        seqs_view(d@) == default_sequences(),
{
    let a: Vec<i8> = vec![-1, -1, -1, -1, -1, -1, -1, 1, 0, -1, 2, 2, 1, -1, 2, 0];
    let b: Vec<i8> = vec![-1, 1, 0, -1, 0, 0, 0, 1, 1, -1, 1, -1, 1, 1, 1, -1];
    let mut d: Vec<Vec<i8>> = Vec::new();
    d.push(a);
    d.push(b);
    proof {
        assert(seqs_view(d@) =~= default_sequences());
    }
    d
}

/// Training data without a history database: the sequences from result
/// files, then those from the JSON files; the fallbacks if that is empty.
pub fn combine_training_data(from_results: Vec<Vec<i8>>, from_json: Vec<Vec<i8>>) -> (d: Vec<
    Vec<i8>,
>)
    ensures
        seqs_view(d@) == (if from_results@.len() + from_json@.len() == 0 {
            default_sequences()
        } else {
            seqs_view(from_results@) + seqs_view(from_json@)
        }),
{
    let mut d = from_results;
    let mut extra = from_json;
    let ghost r0 = d@;
    let ghost j0 = extra@;
    d.append(&mut extra);
    if d.len() == 0 {
        return default_training_data();
    }
    proof {
        assert(seqs_view(d@) =~= seqs_view(r0) + seqs_view(j0));
    }
    d
}

/// Training data with a history database, in order of preference: for
/// targets of 8000 digits and more, the history if it is not empty; else
/// the result files if they yield anything; else the JSON files; else the
/// fallbacks.  Also says which source was used.
pub fn choose_training_data(
    target_digits: usize,
    history: Vec<Vec<i8>>,
    from_results: Vec<Vec<i8>>,
    from_json: Vec<Vec<i8>>,
) -> (out: (Vec<Vec<i8>>, TrainingSource))
    ensures
        target_digits >= 8000 && history@.len() > 0 ==> out.1 == TrainingSource::History
            && seqs_view(out.0@) == seqs_view(history@),
        !(target_digits >= 8000 && history@.len() > 0) && from_results@.len() > 0 ==> out.1
            == TrainingSource::ResultFiles && seqs_view(out.0@) == seqs_view(from_results@),
        !(target_digits >= 8000 && history@.len() > 0) && from_results@.len() == 0
            && from_json@.len() > 0 ==> out.1 == TrainingSource::JsonFiles && seqs_view(out.0@)
            == seqs_view(from_json@),
        !(target_digits >= 8000 && history@.len() > 0) && from_results@.len() == 0
            && from_json@.len() == 0 ==> out.1 == TrainingSource::Defaults && seqs_view(out.0@)
            == default_sequences(),
{
    if target_digits >= 8000 && history.len() > 0 {
        return (history, TrainingSource::History);
    }
    if from_results.len() > 0 {
        return (from_results, TrainingSource::ResultFiles);
    }
    if from_json.len() > 0 {
        return (from_json, TrainingSource::JsonFiles);
    }
    (default_training_data(), TrainingSource::Defaults)
}

} // verus!
