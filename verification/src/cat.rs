//! Line numbering: every line, or every non-blank line, behind a six-wide
//! number and a tab.

use vstd::prelude::*;
use vstd::string::StringExecFns;

use crate::textfmt::{pad_left, spec_dec_digits, spec_pad_left, u64_to_string};

verus! {

/// A numbered output line: the number right-aligned to six characters, a
/// tab, then the line.
pub open spec fn spec_numbered(num: int, line: Seq<char>) -> Seq<char> {
    spec_pad_left(spec_dec_digits(num), 6) + "\t"@ + line
}

/// The output lines from `lines` onward, given how many lines have been
/// numbered so far.  With `number_nonblank` only non-empty lines take a
/// number; with `number_lines` every line does; with neither the lines pass
/// through unchanged.
pub open spec fn spec_cat_from(
    lines: Seq<Seq<char>>,
    num: int,
    number_lines: bool,
    number_nonblank: bool,
) -> Seq<Seq<char>>
    decreases lines.len(),
{
    if lines.len() == 0 {
        Seq::empty()
    } else {
        let line = lines.first();
        if line.len() == 0 {
            if number_nonblank {
                seq![line] + spec_cat_from(lines.drop_first(), num, number_lines, number_nonblank)
            } else if number_lines {
                seq![spec_numbered(num + 1, line)] + spec_cat_from(
                    lines.drop_first(),
                    num + 1,
                    number_lines,
                    number_nonblank,
                )
            } else {
                seq![line] + spec_cat_from(lines.drop_first(), num, number_lines, number_nonblank)
            }
        } else {
            if number_lines || number_nonblank {
                seq![spec_numbered(num + 1, line)] + spec_cat_from(
                    lines.drop_first(),
                    num + 1,
                    number_lines,
                    number_nonblank,
                )
            } else {
                seq![line] + spec_cat_from(lines.drop_first(), num + 1, number_lines, number_nonblank)
            }
        }
    }
}

proof fn lemma_cat_advance(
    lines: Seq<Seq<char>>,
    p: int,
    num: int,
    number_lines: bool,
    number_nonblank: bool,
)
    requires
        0 <= p < lines.len(),
    ensures
        spec_cat_from(lines.skip(p), num, number_lines, number_nonblank) == (if lines[p].len()
            == 0 {
            if number_nonblank {
                seq![lines[p]] + spec_cat_from(
                    lines.skip(p + 1),
                    num,
                    number_lines,
                    number_nonblank,
                )
            } else if number_lines {
                seq![spec_numbered(num + 1, lines[p])] + spec_cat_from(
                    lines.skip(p + 1),
                    num + 1,
                    number_lines,
                    number_nonblank,
                )
            } else {
                seq![lines[p]] + spec_cat_from(
                    lines.skip(p + 1),
                    num,
                    number_lines,
                    number_nonblank,
                )
            }
        } else {
            if number_lines || number_nonblank {
                seq![spec_numbered(num + 1, lines[p])] + spec_cat_from(
                    lines.skip(p + 1),
                    num + 1,
                    number_lines,
                    number_nonblank,
                )
            } else {
                seq![lines[p]] + spec_cat_from(
                    lines.skip(p + 1),
                    num + 1,
                    number_lines,
                    number_nonblank,
                )
            }
        }),
{
    assert(lines.skip(p).len() > 0);
    assert(lines.skip(p).first() == lines[p]);
    assert(lines.skip(p).drop_first() =~= lines.skip(p + 1));
}

fn numbered(num: u64, line: &str) -> (r: String)
    ensures
        r@ == spec_numbered(num as int, line@),
{
    let digits = u64_to_string(num);
    let mut s = pad_left(digits.as_str(), 6);
    s.append("\t");
    s.append(line);
    proof {
        assert(s@ =~= spec_numbered(num as int, line@));
    }
    s
}

/// Number an input's lines (each without its terminator).  `number_nonblank`
/// numbers only the non-empty lines and wins over `number_lines`, which
/// numbers them all; with neither flag the lines pass through unchanged.
pub fn cat_lines(lines: &[String], number_lines: bool, number_nonblank: bool) -> (r: Vec<String>)
    ensures
        r.deep_view() == spec_cat_from(lines.deep_view(), 0, number_lines, number_nonblank),
{
    let ghost all = lines.deep_view();
    let mut out: Vec<String> = Vec::new();
    let mut number: u64 = 0;
    let mut i: usize = 0;
    proof {
        assert(all.skip(0) =~= all);
    }
    while i < lines.len()
        invariant
            0 <= i <= lines@.len(),
            all == lines.deep_view(),
            number <= i,
            spec_cat_from(all, 0, number_lines, number_nonblank) == out.deep_view()
                + spec_cat_from(
                all.skip(i as int),
                number as int,
                number_lines,
                number_nonblank,
            ),
        decreases lines@.len() - i,
    {
        proof {
            lemma_cat_advance(all, i as int, number as int, number_lines, number_nonblank);
        }
        let ghost prev = out.deep_view();
        let line = vstd::slice::slice_index_get(lines, i);
        if line.as_str().unicode_len() == 0 {
            if number_nonblank {
                out.push(line.clone());
            } else if number_lines {
                number = number + 1;
                out.push(numbered(number, line.as_str()));
            } else {
                out.push(line.clone());
            }
        } else {
            number = number + 1;
            if number_lines || number_nonblank {
                out.push(numbered(number, line.as_str()));
            } else {
                out.push(line.clone());
            }
        }
        proof {
            assert(out.deep_view() =~= prev.push(out.deep_view().last()));
            assert(spec_cat_from(all, 0, number_lines, number_nonblank) =~= out.deep_view()
                + spec_cat_from(all.skip(i + 1), number as int, number_lines, number_nonblank));
        }
        i = i + 1;
    }
    proof {
        assert(all.skip(lines@.len() as int).len() == 0);
        assert(out.deep_view() =~= spec_cat_from(all, 0, number_lines, number_nonblank));
    }
    out
}

} // verus!
