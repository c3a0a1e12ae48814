//! Duplicate-line folding: adjacent lines that agree up to trailing
//! whitespace collapse to one, optionally behind a repeat count.

use vstd::prelude::*;
use vstd::string::StringExecFns;

use crate::textfmt::{pad_left, spec_dec_digits, spec_pad_left, u64_to_string};
use crate::wc::{is_space, spec_is_space};

verus! {

/// The length of `s` with its trailing whitespace removed.
pub open spec fn trim_end_len(s: Seq<char>) -> int
    decreases s.len(),
{
    if s.len() == 0 {
        0
    } else if spec_is_space(s.last()) {
        trim_end_len(s.drop_last())
    } else {
        s.len() as int
    }
}

/// `s` with its trailing whitespace removed.
pub open spec fn spec_trim_end(s: Seq<char>) -> Seq<char> {
    s.take(trim_end_len(s))
}

proof fn lemma_trim_end_len_bounds(s: Seq<char>)
    ensures
        0 <= trim_end_len(s) <= s.len(),
    decreases s.len(),
{
    if s.len() > 0 {
        lemma_trim_end_len_bounds(s.drop_last());
    }
}

/// Compute the length of `s` without its trailing whitespace.
fn trimmed_len(s: &str) -> (r: usize)
    ensures
        r == trim_end_len(s@),
{
    let n = s.unicode_len();
    let mut i = n;
    proof {
        assert(s@.take(n as int) =~= s@);
    }
    while i > 0
        invariant
            0 <= i <= n,
            n == s@.len(),
            trim_end_len(s@) == trim_end_len(s@.take(i as int)),
        ensures
            0 <= i <= n,
            trim_end_len(s@) == trim_end_len(s@.take(i as int)),
            i == 0 || !spec_is_space(s@[i - 1]),
        decreases i,
    {
        let c = s.get_char(i - 1);
        proof {
            assert(s@.take(i as int).last() == s@[i - 1]);
            assert(s@.take(i as int).drop_last() =~= s@.take(i - 1));
        }
        if !is_space(c) {
            break ;
        }
        i = i - 1;
    }
    proof {
        lemma_trim_end_len_bounds(s@.take(i as int));
        if i > 0 {
            assert(s@.take(i as int).last() == s@[i - 1]);
            assert(trim_end_len(s@.take(i as int)) == i);
        }
    }
    i
}

/// Whether two lines agree once trailing whitespace is removed.
pub fn trimmed_eq(a: &str, b: &str) -> (r: bool)
    ensures
        r == (spec_trim_end(a@) == spec_trim_end(b@)),
{
    proof {
        lemma_trim_end_len_bounds(a@);
        lemma_trim_end_len_bounds(b@);
    }
    let la = trimmed_len(a);
    let lb = trimmed_len(b);
    if la != lb {
        proof {
            assert(spec_trim_end(a@).len() != spec_trim_end(b@).len());
        }
        return false;
    }
    let mut i: usize = 0;
    while i < la
        invariant
            0 <= i <= la,
            la == lb,
            la == trim_end_len(a@),
            lb == trim_end_len(b@),
            0 <= la <= a@.len(),
            0 <= lb <= b@.len(),
            forall|j: int| 0 <= j < i ==> a@[j] == b@[j],
        decreases la - i,
    {
        if a.get_char(i) != b.get_char(i) {
            proof {
                assert(spec_trim_end(a@)[i as int] != spec_trim_end(b@)[i as int]);
            }
            return false;
        }
        i = i + 1;
    }
    proof {
        assert(spec_trim_end(a@) =~= spec_trim_end(b@));
    }
    true
}

/// What one flushed group contributes: nothing while no line is counted,
/// otherwise the group's first line, behind its repeat count right-aligned
/// to four characters when counts are asked for.
pub open spec fn spec_uniq_entry(count: int, text: Seq<char>, show_count: bool) -> Seq<char> {
    if count > 0 {
        if show_count {
            spec_pad_left(spec_dec_digits(count), 4) + " "@ + text
        } else {
            text
        }
    } else {
        Seq::empty()
    }
}

/// The folded output from `lines` onward, given the line that opened the
/// current group and how many lines it has collapsed so far.
pub open spec fn spec_uniq_from(
    lines: Seq<Seq<char>>,
    prev: Seq<char>,
    count: int,
    show_count: bool,
) -> Seq<char>
    decreases lines.len(),
{
    if lines.len() == 0 {
        spec_uniq_entry(count, prev, show_count)
    } else if spec_trim_end(lines.first()) != spec_trim_end(prev) {
        spec_uniq_entry(count, prev, show_count) + spec_uniq_from(
            lines.drop_first(),
            lines.first(),
            1,
            show_count,
        )
    } else {
        spec_uniq_from(lines.drop_first(), prev, count + 1, show_count)
    }
}

/// The folded output of a whole input.
pub open spec fn spec_uniq(lines: Seq<Seq<char>>, show_count: bool) -> Seq<char> {
    spec_uniq_from(lines, Seq::empty(), 0, show_count)
}

proof fn lemma_uniq_advance(
    lines: Seq<Seq<char>>,
    p: int,
    prev: Seq<char>,
    count: int,
    show_count: bool,
)
    requires
        0 <= p < lines.len(),
    ensures
        spec_uniq_from(lines.skip(p), prev, count, show_count) == (if spec_trim_end(lines[p])
            != spec_trim_end(prev) {
            spec_uniq_entry(count, prev, show_count) + spec_uniq_from(
                lines.skip(p + 1),
                lines[p],
                1,
                show_count,
            )
        } else {
            spec_uniq_from(lines.skip(p + 1), prev, count + 1, show_count)
        }),
{
    assert(lines.skip(p).len() > 0);
    assert(lines.skip(p).first() == lines[p]);
    assert(lines.skip(p).drop_first() =~= lines.skip(p + 1));
}

fn uniq_entry(count: u64, text: &str, show_count: bool) -> (r: String)
    ensures
        r@ == spec_uniq_entry(count as int, text@, show_count),
{
    if count > 0 {
        if show_count {
            let digits = u64_to_string(count);
            let mut s = pad_left(digits.as_str(), 4);
            s.append(" ");
            s.append(text);
            proof {
                assert(s@ =~= spec_uniq_entry(count as int, text@, show_count));
            }
            s
        } else {
            text.to_owned()
        }
    } else {
        String::new()
    }
}

/// Fold an input's lines (each verbatim with its terminator), collapsing
/// adjacent lines that agree up to trailing whitespace, with an optional
/// four-wide repeat count before each kept line.
pub fn uniq_lines(lines: &[String], show_count: bool) -> (r: String)
    ensures
        r@ == spec_uniq(lines.deep_view(), show_count),
{
    let ghost all = lines.deep_view();
    let mut out = String::new();
    let mut previous = String::new();
    let mut count: u64 = 0;
    let mut i: usize = 0;
    proof {
        assert(all.skip(0) =~= all);
    }
    while i < lines.len()
        invariant
            0 <= i <= lines@.len(),
            all == lines.deep_view(),
            count <= i,
            spec_uniq(all, show_count) == out@ + spec_uniq_from(
                all.skip(i as int),
                previous@,
                count as int,
                show_count,
            ),
        decreases lines@.len() - i,
    {
        proof {
            lemma_uniq_advance(all, i as int, previous@, count as int, show_count);
        }
        let line = vstd::slice::slice_index_get(lines, i);
        if !trimmed_eq(line.as_str(), previous.as_str()) {
            let entry = uniq_entry(count, previous.as_str(), show_count);
            out.append(entry.as_str());
            previous = line.clone();
            count = 0;
        }
        count = count + 1;
        i = i + 1;
    }
    proof {
        assert(all.skip(lines@.len() as int).len() == 0);
    }
    let entry = uniq_entry(count, previous.as_str(), show_count);
    out.append(entry.as_str());
    out
}

} // verus!
