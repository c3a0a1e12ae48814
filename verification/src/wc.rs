//! Word counting: lines, words, bytes and characters of a text.

use vstd::prelude::*;
use vstd::string::StringExecFns;
use vstd::string::StringSliceAdditionalSpecFns;

use crate::textfmt::{pad_left, spec_dec_digits, spec_pad_left, u64_to_string};

verus! {

/// The counts for one input.
#[derive(Debug, PartialEq, Eq, Structural)]
pub struct FileInfo {
    pub num_lines: usize,
    pub num_words: usize,
    pub num_bytes: usize,
    pub num_chars: usize,
}

/// `c` is one of the characters the word splitter treats as whitespace.
pub open spec fn spec_is_space(c: char) -> bool {
    c == ' ' || c == '\t' || c == '\n' || c == '\u{b}' || c == '\u{c}' || c == '\r' || c == '\u{85}'
        || c == '\u{a0}' || c == '\u{1680}' || ('\u{2000}' <= c && c <= '\u{200a}') || c
        == '\u{2028}' || c == '\u{2029}' || c == '\u{202f}' || c == '\u{205f}' || c == '\u{3000}'
}

/// Whether `c` has the Unicode white-space property, the separator the word
/// splitter uses.
pub fn is_space(c: char) -> (r: bool)
    ensures
        r == spec_is_space(c),
{
    c == ' ' || c == '\t' || c == '\n' || c == '\u{b}' || c == '\u{c}' || c == '\r' || c == '\u{85}'
        || c == '\u{a0}' || c == '\u{1680}' || ('\u{2000}' <= c && c <= '\u{200a}') || c
        == '\u{2028}' || c == '\u{2029}' || c == '\u{202f}' || c == '\u{205f}' || c == '\u{3000}'
}

/// How many line terminators `s` holds.
pub open spec fn newline_chars(s: Seq<char>) -> int
    decreases s.len(),
{
    if s.len() == 0 {
        0
    } else {
        newline_chars(s.drop_last()) + if s.last() == '\n' {
            1int
        } else {
            0int
        }
    }
}

/// The line count of `s`: terminator-delimited chunks, with trailing
/// characters after the last terminator still forming one line.
pub open spec fn spec_line_count(s: Seq<char>) -> int {
    newline_chars(s) + if s.len() > 0 && s.last() != '\n' {
        1int
    } else {
        0int
    }
}

/// The number of words remaining in `s`, where `in_word` says whether the
/// character just before `s` was part of a word.
pub open spec fn word_count_from(s: Seq<char>, in_word: bool) -> int
    decreases s.len(),
{
    if s.len() == 0 {
        0
    } else if spec_is_space(s[0]) {
        word_count_from(s.skip(1), false)
    } else {
        (if in_word {
            0int
        } else {
            1int
        }) + word_count_from(s.skip(1), true)
    }
}

/// The number of maximal runs of non-whitespace characters in `s`.
pub open spec fn spec_word_count(s: Seq<char>) -> int {
    word_count_from(s, false)
}

proof fn lemma_newline_chars_nonneg(s: Seq<char>)
    ensures
        0 <= newline_chars(s) <= s.len(),
    decreases s.len(),
{
    if s.len() > 0 {
        lemma_newline_chars_nonneg(s.drop_last());
    }
}

proof fn lemma_newline_chars_step(s: Seq<char>, i: int)
    requires
        0 <= i < s.len(),
    ensures
        newline_chars(s.take(i + 1)) == newline_chars(s.take(i)) + if s[i] == '\n' {
            1int
        } else {
            0int
        },
{
    assert(s.take(i + 1).drop_last() =~= s.take(i));
    assert(s.take(i + 1).last() == s[i]);
}

proof fn lemma_word_count_advance(s: Seq<char>, p: int, in_word: bool)
    requires
        0 <= p < s.len(),
    ensures
        word_count_from(s.skip(p), in_word) == if spec_is_space(s[p]) {
            word_count_from(s.skip(p + 1), false)
        } else {
            (if in_word {
                0int
            } else {
                1int
            }) + word_count_from(s.skip(p + 1), true)
        },
{
    assert(s.skip(p).len() > 0);
    assert(s.skip(p)[0] == s[p]);
    assert(s.skip(p).skip(1) =~= s.skip(p + 1));
}

proof fn lemma_word_count_bound(s: Seq<char>, in_word: bool)
    ensures
        0 <= word_count_from(s, in_word) <= s.len(),
    decreases s.len(),
{
    if s.len() > 0 {
        lemma_word_count_bound(s.skip(1), false);
        lemma_word_count_bound(s.skip(1), true);
    }
}

/// Count the lines, words, bytes and characters of one input, in a single
/// pass.
pub fn count(text: &str) -> (r: FileInfo)
    ensures
        r.num_lines == spec_line_count(text@),
        r.num_words == spec_word_count(text@),
        r.num_bytes == text.spec_bytes().len() as usize,
        r.num_chars == text@.len(),
{
    let n = text.unicode_len();
    let num_bytes = text.len();
    let mut num_lines: usize = 0;
    let mut num_words: usize = 0;
    let mut in_word = false;
    let mut i: usize = 0;
    proof {
        assert(text@.skip(0) =~= text@);
    }
    while i < n
        invariant
            0 <= i <= n,
            n == text@.len(),
            num_lines == newline_chars(text@.take(i as int)),
            0 <= num_lines <= i,
            spec_word_count(text@) == num_words + word_count_from(text@.skip(i as int), in_word),
            0 <= num_words <= i,
        decreases n - i,
    {
        let c = text.get_char(i);
        proof {
            lemma_newline_chars_step(text@, i as int);
            lemma_word_count_advance(text@, i as int, in_word);
            lemma_word_count_bound(text@.skip(i + 1), true);
            lemma_word_count_bound(text@.skip(i + 1), false);
            lemma_word_count_bound(text@, false);
        }
        if c == '\n' {
            num_lines = num_lines + 1;
        }
        if is_space(c) {
            in_word = false;
        } else {
            if !in_word {
                num_words = num_words + 1;
            }
            in_word = true;
        }
        i = i + 1;
    }
    proof {
        assert(text@.take(n as int) =~= text@);
        assert(text@.skip(n as int).len() == 0);
    }
    if n > 0 && text.get_char(n - 1) != '\n' {
        proof {
            lemma_newline_chars_nonneg(text@.drop_last());
            assert(newline_chars(text@) == newline_chars(text@.drop_last()));
        }
        num_lines = num_lines + 1;
    }
    FileInfo { num_lines, num_words, num_bytes, num_chars: n }
}

/// One output column: the value right-aligned to eight characters when its
/// flag is set, nothing otherwise.
pub open spec fn spec_format_field(value: int, show: bool) -> Seq<char> {
    if show {
        spec_pad_left(spec_dec_digits(value), 8)
    } else {
        Seq::empty()
    }
}

/// Render one count column.
pub fn format_field(value: usize, show: bool) -> (r: String)
    ensures
        r@ == spec_format_field(value as int, show),
{
    if show {
        let digits = u64_to_string(value as u64);
        pad_left(digits.as_str(), 8)
    } else {
        String::new()
    }
}

/// The output line for one counted input: the selected columns in order,
/// then a space and the file's name, except for the standard-input name.
pub open spec fn spec_count_line(
    info: FileInfo,
    lines: bool,
    words: bool,
    bytes: bool,
    chars: bool,
    name: Seq<char>,
) -> Seq<char> {
    spec_format_field(info.num_lines as int, lines) + spec_format_field(info.num_words as int, words)
        + spec_format_field(info.num_bytes as int, bytes) + spec_format_field(
        info.num_chars as int,
        chars,
    ) + if name == "-"@ {
        Seq::<char>::empty()
    } else {
        " "@ + name
    }
}

/// Render the output line for one counted input.
pub fn format_count_line(
    info: &FileInfo,
    lines: bool,
    words: bool,
    bytes: bool,
    chars: bool,
    name: &str,
) -> (r: String)
    ensures
        r@ == spec_count_line(*info, lines, words, bytes, chars, name@),
{
    let mut s = format_field(info.num_lines, lines);
    let f = format_field(info.num_words, words);
    s.append(f.as_str());
    let f = format_field(info.num_bytes, bytes);
    s.append(f.as_str());
    let f = format_field(info.num_chars, chars);
    s.append(f.as_str());
    if !str_eq_dash(name) {
        s.append(" ");
        s.append(name);
    }
    proof {
        assert(s@ =~= spec_count_line(*info, lines, words, bytes, chars, name@));
    }
    s
}

/// Add one input's counts into the running totals, printed after the last
/// input when several were counted.
pub fn tally(totals: &mut FileInfo, info: &FileInfo)
    requires
        old(totals).num_lines + info.num_lines <= usize::MAX,
        old(totals).num_words + info.num_words <= usize::MAX,
        old(totals).num_bytes + info.num_bytes <= usize::MAX,
        old(totals).num_chars + info.num_chars <= usize::MAX,
    ensures
        final(totals).num_lines == old(totals).num_lines + info.num_lines,
        final(totals).num_words == old(totals).num_words + info.num_words,
        final(totals).num_bytes == old(totals).num_bytes + info.num_bytes,
        final(totals).num_chars == old(totals).num_chars + info.num_chars,
{
    totals.num_lines = totals.num_lines + info.num_lines;
    totals.num_words = totals.num_words + info.num_words;
    totals.num_bytes = totals.num_bytes + info.num_bytes;
    totals.num_chars = totals.num_chars + info.num_chars;
}

/// Whether `name` is the conventional standard-input name.
fn str_eq_dash(name: &str) -> (r: bool)
    ensures
        r == (name@ == "-"@),
{
    proof {
        reveal_strlit("-");
    }
    if name.unicode_len() == 1 {
        let c = name.get_char(0);
        if c == '-' {
            proof {
                assert(name@ =~= "-"@);
            }
            true
        } else {
            proof {
                assert(name@ != "-"@);
            }
            false
        }
    } else {
        proof {
            assert(name@.len() != "-"@.len());
        }
        false
    }
}

} // verus!
