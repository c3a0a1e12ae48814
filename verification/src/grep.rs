//! Line matching: split a text into terminated lines and keep those a
//! pattern selects, or the others when the match is inverted.

use vstd::prelude::*;

verus! {

#[verifier::external_type_specification]
#[verifier::external_body]
pub struct ExRegex(regex::Regex);

/// Relies on regex's `Regex::is_match`.  Which lines match is the pattern's
/// own business: nothing is assumed of the answer, and everything after it
/// is proved for either answer.
#[verifier::external_body]
pub(crate) fn regex_is_match(pattern: &regex::Regex, line: &str) -> bool {
    pattern.is_match(line)
}

/// Split `cur + rest` into lines, each keeping its terminator; an unfinished
/// trailing line counts, an empty tail does not.
pub open spec fn lines_from(cur: Seq<char>, rest: Seq<char>) -> Seq<Seq<char>>
    decreases rest.len(),
{
    if rest.len() == 0 {
        if cur.len() > 0 {
            seq![cur]
        } else {
            Seq::empty()
        }
    } else if rest[0] == '\n' {
        seq![cur.push('\n')] + lines_from(Seq::empty(), rest.skip(1))
    } else {
        lines_from(cur.push(rest[0]), rest.skip(1))
    }
}

/// The lines of `s`, verbatim with terminators.
pub open spec fn spec_split_lines(s: Seq<char>) -> Seq<Seq<char>> {
    lines_from(Seq::empty(), s)
}

proof fn lemma_lines_from_advance(cur: Seq<char>, s: Seq<char>, p: int)
    requires
        0 <= p < s.len(),
    ensures
        lines_from(cur, s.skip(p)) == if s[p] == '\n' {
            seq![cur.push('\n')] + lines_from(Seq::empty(), s.skip(p + 1))
        } else {
            lines_from(cur.push(s[p]), s.skip(p + 1))
        },
{
    assert(s.skip(p).len() > 0);
    assert(s.skip(p)[0] == s[p]);
    assert(s.skip(p).skip(1) =~= s.skip(p + 1));
}

/// Split a text into its lines, each keeping its terminator.
pub fn split_lines(text: &str) -> (r: Vec<String>)
    ensures
        r.deep_view() == spec_split_lines(text@),
{
    let n = text.unicode_len();
    let mut out: Vec<String> = Vec::new();
    let mut cur = String::new();
    let mut i: usize = 0;
    proof {
        assert(text@.skip(0) =~= text@);
    }
    while i < n
        invariant
            0 <= i <= n,
            n == text@.len(),
            spec_split_lines(text@) == out.deep_view() + lines_from(cur@, text@.skip(i as int)),
        decreases n - i,
    {
        let ghost prev = out.deep_view();
        let c = text.get_char(i);
        proof {
            lemma_lines_from_advance(cur@, text@, i as int);
        }
        crate::textfmt::push_char(&mut cur, c);
        if c == '\n' {
            let ghost done = cur@;
            out.push(cur);
            cur = String::new();
            proof {
                assert(out.deep_view() =~= prev.push(done));
            }
        }
        proof {
            assert(out.deep_view() + lines_from(cur@, text@.skip(i + 1)) =~= spec_split_lines(
                text@,
            ));
        }
        i = i + 1;
    }
    proof {
        assert(text@.skip(n as int).len() == 0);
    }
    if cur.as_str().unicode_len() > 0 {
        let ghost prev = out.deep_view();
        let ghost done = cur@;
        out.push(cur);
        proof {
            assert(cur@.len() > 0) by {
                assert(done.len() > 0);
            }
            assert(out.deep_view() =~= prev.push(done));
            assert(out.deep_view() =~= spec_split_lines(text@));
        }
        out
    } else {
        proof {
            assert(out.deep_view() =~= spec_split_lines(text@));
        }
        out
    }
}

/// The lines whose flag, exclusive-or the inversion switch, is set.
pub open spec fn spec_filter_lines(lines: Seq<Seq<char>>, keep: Seq<bool>, invert: bool) -> Seq<
    Seq<char>,
>
    decreases lines.len(),
{
    if lines.len() == 0 {
        Seq::empty()
    } else {
        spec_filter_lines(lines.drop_last(), keep.drop_last(), invert) + (if keep.last() != invert {
            seq![lines.last()]
        } else {
            Seq::empty()
        })
    }
}

/// Keep the lines whose match flag, exclusive-or the inversion switch, is
/// set, in their original order.
pub fn filter_lines(lines: &[String], keep: &[bool], invert: bool) -> (r: Vec<String>)
    requires
        lines@.len() == keep@.len(),
    ensures
        r.deep_view() == spec_filter_lines(lines.deep_view(), keep@, invert),
{
    let mut out: Vec<String> = Vec::new();
    let mut i: usize = 0;
    proof {
        assert(lines.deep_view().take(0) =~= Seq::<Seq<char>>::empty());
        assert(keep@.take(0) =~= Seq::<bool>::empty());
    }
    while i < lines.len()
        invariant
            0 <= i <= lines@.len(),
            lines@.len() == keep@.len(),
            out.deep_view() == spec_filter_lines(
                lines.deep_view().take(i as int),
                keep@.take(i as int),
                invert,
            ),
        decreases lines@.len() - i,
    {
        let ghost prev = out.deep_view();
        if keep[i] != invert {
            let kept = vstd::slice::slice_index_get(lines, i).clone();
            out.push(kept);
            proof {
                assert(out.deep_view() =~= prev.push(lines.deep_view()[i as int]));
            }
        }
        proof {
            assert(lines.deep_view().take(i + 1).drop_last() =~= lines.deep_view().take(i as int));
            assert(keep@.take(i + 1).drop_last() =~= keep@.take(i as int));
            assert(lines.deep_view().take(i + 1).last() == lines.deep_view()[i as int]);
            assert(keep@.take(i + 1).last() == keep@[i as int]);
            assert(out.deep_view() =~= spec_filter_lines(
                lines.deep_view().take(i + 1),
                keep@.take(i + 1),
                invert,
            ));
        }
        i = i + 1;
    }
    proof {
        assert(lines.deep_view().take(lines@.len() as int) =~= lines.deep_view());
        assert(keep@.take(keep@.len() as int) =~= keep@);
    }
    out
}

/// Split a text into lines and keep those the pattern selects, every line
/// verbatim with its terminator; with `invert_match` the unselected lines
/// are kept instead.  Which lines the pattern selects is the pattern's
/// business; the splitting and the filtering are exact for every selection.
pub fn find_lines(text: &str, pattern: &regex::Regex, invert_match: bool) -> (r: Vec<String>)
    ensures
        exists|keep: Seq<bool>|
            keep.len() == spec_split_lines(text@).len() && r.deep_view() == spec_filter_lines(
                spec_split_lines(text@),
                keep,
                invert_match,
            ),
{
    let lines = split_lines(text);
    let mut keep: Vec<bool> = Vec::new();
    let mut i: usize = 0;
    while i < lines.len()
        invariant
            0 <= i <= lines@.len(),
            keep@.len() == i,
            lines.deep_view() == spec_split_lines(text@),
        decreases lines@.len() - i,
    {
        let line = vstd::slice::slice_index_get(lines.as_slice(), i);
        keep.push(regex_is_match(pattern, line.as_str()));
        i = i + 1;
    }
    let r = filter_lines(lines.as_slice(), keep.as_slice(), invert_match);
    proof {
        assert(keep@.len() == spec_split_lines(text@).len() && r.deep_view() == spec_filter_lines(
            spec_split_lines(text@),
            keep@,
            invert_match,
        ));
    }
    r
}

} // verus!
