//! Planning parallel searches: how many cores to use, how to split them
//! into searches, which digit target each search gets, and the memory
//! figures read from the output of `free -b`.
use crate::text::{
    chars_of, chars_starts_with_str, lines, parse_unsigned, parse_unsigned_chars, split_lines,
    split_words, starts_with, words,
};
use vstd::prelude::*;

verus! {

/// One gibibyte.
pub open spec fn gib() -> nat {
    1024 * 1024 * 1024
}

/// Cores left for searching: all but one reserved for the system, and at
/// least one.
pub fn available_cores(total_cores: usize) -> (a: usize)
    ensures
        a == (if total_cores > 1 {
            total_cores - 1
        } else {
            1
        }),
{
    if total_cores > 1 {
        total_cores - 1
    } else {
        1
    }
}

/// The search layout, shown with the detected resources and used for the
/// launch: one search per 21 cores (at least one search), the cores split
/// evenly among them.  With 43 cores this is 2 searches of 21 cores.
pub fn launch_plan(available: usize) -> (out: (usize, usize))
    ensures
        out.0 == (if available / 21 > 1 {
            available / 21
        } else {
            1
        }),
        out.0 >= 1,
        out.1 == available / out.0,
{
    let s = available / 21;
    let searches = if s > 1 {
        s
    } else {
        1
    };
    (searches, available / searches)
}

/// The digit target of search `i`: 16 000 for the first, 10 000 for the
/// second, 6 000 for any further one.
pub fn search_target_digits(i: usize) -> (d: usize)
    ensures
        d == (if i == 0 {
            16_000usize
        } else if i == 1 {
            10_000usize
        } else {
            6_000usize
        }),
{
    if i == 0 {
        16_000
    } else if i == 1 {
        10_000
    } else {
        6_000
    }
}

/// A `Mem:` line that reading would index past its words: 3 to 6 words.
pub open spec fn is_short_mem_line(line: Seq<char>) -> bool {
    starts_with(line, "Mem:"@) && 3 <= words(line).len() < 7
}

/// Whether the output of `free -b` can be read: no `Mem:` line has
/// between 3 and 6 words.
pub open spec fn meminfo_readable(text: Seq<char>) -> bool {
    forall|i: int| 0 <= i < lines(text).len() ==> !is_short_mem_line(#[trigger] lines(text)[i])
}

/// A byte count in whole gibibytes; a count that does not parse is 0.
pub open spec fn gib_of(word: Seq<char>) -> nat {
    match parse_unsigned(word, usize::MAX as nat) {
        Some(v) => v / gib(),
        None => 0,
    }
}

/// The memory figures (total, available) in gibibytes after reading the
/// lines from `i` on, starting from `cur`: every `Mem:` line with at least
/// three words sets them from its second and seventh words.
pub open spec fn meminfo_from(ls: Seq<Seq<char>>, i: int, cur: (nat, nat)) -> (nat, nat)
    decreases ls.len() - i,
{
    if i < 0 || i >= ls.len() {
        cur
    } else {
        let l = ls[i];
        let w = words(l);
        if starts_with(l, "Mem:"@) && w.len() >= 3 {
            meminfo_from(ls, i + 1, (gib_of(w[1]), gib_of(w[6])))
        } else {
            meminfo_from(ls, i + 1, cur)
        }
    }
}

/// Whether the output of `free -b` can be read (see `meminfo_readable`).
pub fn meminfo_is_readable(text: &str) -> (ok: bool)
    ensures
        ok == meminfo_readable(text@),
{
    let cs = chars_of(text);
    let ls = split_lines(cs.as_slice());
    let n = ls.len();
    let mut i: usize = 0;
    while i < n
        invariant
            n == ls@.len(),
            n == lines(text@).len(),
            forall|q: int| 0 <= q < n ==> #[trigger] ls@[q]@ == lines(text@)[q],
            i <= n,
            forall|q: int| 0 <= q < i ==> !is_short_mem_line(#[trigger] lines(text@)[q]),
        decreases n - i,
    {
        let l = ls[i].as_slice();
        if chars_starts_with_str(l, "Mem:") {
            let w = split_words(l);
            if w.len() >= 3 && w.len() < 7 {
                proof {
                    assert(is_short_mem_line(lines(text@)[i as int]));
                }
                return false;
            }
        }
        i = i + 1;
    }
    true
}

/// A byte count in whole gibibytes (0 if it does not parse).
fn gib_of_chars(word: &[char]) -> (g: usize)
    ensures
        g == gib_of(word@),
{
    match parse_unsigned_chars(word, usize::MAX as u64) {
        Some(v) => (v / (1024 * 1024 * 1024)) as usize,
        None => 0,
    }
}

/// Total and available memory in gibibytes, read from the output of
/// `free -b`; (0, 0) when there is no usable `Mem:` line.
pub fn parse_meminfo(text: &str) -> (out: (usize, usize))
    requires
        meminfo_readable(text@),
    ensures
        (out.0 as nat, out.1 as nat) == meminfo_from(lines(text@), 0, (0, 0)),
{
    let cs = chars_of(text);
    let ls = split_lines(cs.as_slice());
    let n = ls.len();
    let mut total: usize = 0;
    let mut avail: usize = 0;
    let mut i: usize = 0;
    while i < n
        invariant
            n == ls@.len(),
            n == lines(text@).len(),
            meminfo_readable(text@),
            forall|q: int| 0 <= q < n ==> #[trigger] ls@[q]@ == lines(text@)[q],
            i <= n,
            meminfo_from(lines(text@), 0, (0, 0)) == meminfo_from(
                lines(text@),
                i as int,
                (total as nat, avail as nat),
            ),
        decreases n - i,
    {
        let l = ls[i].as_slice();
        if chars_starts_with_str(l, "Mem:") {
            let w = split_words(l);
            if w.len() >= 3 {
                proof {
                    assert(!is_short_mem_line(lines(text@)[i as int]));
                }
                total = gib_of_chars(w[1].as_slice());
                avail = gib_of_chars(w[6].as_slice());
            }
        }
        i = i + 1;
    }
    (total, avail)
}

} // verus!
