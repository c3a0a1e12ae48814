//! Suffix extraction: resolve a count specification against a file's extent
//! and select the trailing lines or bytes.
//!
//! A count argument follows the grammar `[+-]?digits`.  A missing sign counts
//! as `-`; an effective `-` anchors from the end of the file, an explicit `+`
//! anchors from the start (1-indexed).  A from-end zero means "the whole
//! file", any other zero means "nothing".

use vstd::prelude::*;
use vstd::string::StringExecFns;
use vstd::utf8::encode_utf8;

use crate::decimal::{digits_val, is_digits, scan_digits};

verus! {

/// A parsed count specification.
///
/// `PlusZero` is the "print the whole file" sentinel, produced exactly by a
/// zero magnitude with an effective `-` sign.  `TakeNum(n)` anchors from the
/// end when `n < 0` and from the 1-indexed start when `n > 0`; `TakeNum(0)`
/// (an explicit `+0`) selects nothing.
#[derive(Clone, Copy, Debug, PartialEq, Eq, Structural)]
pub enum TakeValue {
    PlusZero,
    TakeNum(i64),
}

/// The resolved start position for a count specification against a total
/// extent: `None` means nothing is selected, `Some(i)` means the suffix
/// beginning at zero-based unit `i`.
pub open spec fn spec_start_index(take_val: TakeValue, total: int) -> Option<int> {
    match take_val {
        TakeValue::PlusZero => if total > 0 {
            Some(0int)
        } else {
            None
        },
        TakeValue::TakeNum(num) => if num == 0 || total == 0 || num > total {
            None
        } else {
            let start = if num < 0 {
                total + num
            } else {
                num - 1
            };
            Some(
                if start < 0 {
                    0int
                } else {
                    start
                },
            )
        },
    }
}

/// Resolve a count specification against a total extent (`total` lines or
/// bytes), yielding the zero-based start of the selected suffix, or `None`
/// when nothing is to be emitted.
pub fn get_start_index(take_val: &TakeValue, total: i64) -> (r: Option<u64>)
    requires
        total >= 0,
    ensures
        r is Some <==> spec_start_index(*take_val, total as int) is Some,
        r matches Some(s) ==> spec_start_index(*take_val, total as int) == Some(s as int),
{
    match take_val {
        TakeValue::PlusZero => {
            if total > 0 {
                Some(0)
            } else {
                None
            }
        },
        TakeValue::TakeNum(num) => {
            if *num == 0 || total == 0 || *num > total {
                None
            } else {
                let start: i64 = if *num < 0 {
                    total + *num
                } else {
                    *num - 1
                };
                Some(
                    if start < 0 {
                        0
                    } else {
                        start as u64
                    },
                )
            }
        },
    }
}

/// A zero count selects nothing, whatever the extent.
pub proof fn lemma_zero_count_selects_nothing(total: int)
    requires
        total >= 0,
    ensures
        spec_start_index(TakeValue::TakeNum(0), total) is None,
{
}

/// The count token starts with an explicit `+`, anchoring from the start.
pub open spec fn from_start(s: Seq<char>) -> bool {
    s.len() > 0 && s[0] == '+'
}

/// The digit part of a count token, with any leading sign removed.
pub open spec fn token_digits(s: Seq<char>) -> Seq<char> {
    if s.len() > 0 && (s[0] == '+' || s[0] == '-') {
        s.skip(1)
    } else {
        s
    }
}

/// `s` matches the count grammar: an optional sign followed by one or more
/// decimal digits.
pub open spec fn is_count_token(s: Seq<char>) -> bool {
    is_digits(token_digits(s))
}

/// The signed value a count token denotes.  Without an explicit `+` the
/// magnitude counts from the end, so the value is negative.
pub open spec fn token_value(s: Seq<char>) -> int {
    if from_start(s) {
        digits_val(token_digits(s))
    } else {
        -digits_val(token_digits(s))
    }
}

/// What parsing a count argument yields: `None` for a token outside the
/// grammar or beyond the 64-bit signed range, otherwise the take value, with
/// the whole-file sentinel exactly for a from-end zero.
pub open spec fn spec_parse_num(s: Seq<char>) -> Option<TakeValue> {
    if is_count_token(s) && i64::MIN <= token_value(s) <= i64::MAX {
        if !from_start(s) && token_value(s) == 0 {
            Some(TakeValue::PlusZero)
        } else {
            Some(TakeValue::TakeNum(token_value(s) as i64))
        }
    } else {
        None
    }
}

/// Parse a count argument.  A failure hands the offending token back, so the
/// caller can name it in its diagnostic.
pub fn parse_num(val: &str) -> (r: Result<TakeValue, String>)
    ensures
        r is Ok <==> spec_parse_num(val@) is Some,
        r matches Ok(tv) ==> spec_parse_num(val@) == Some(tv),
        r matches Err(e) ==> e@ == val@,
{
    let n = val.unicode_len();
    if n == 0 {
        return Err(val.to_owned());
    }
    let c0 = val.get_char(0);
    let start: usize = if c0 == '+' || c0 == '-' {
        1
    } else {
        0
    };
    let limit: u128 = if c0 == '+' {
        i64::MAX as u128
    } else {
        0x8000_0000_0000_0000u128
    };
    proof {
        if start == 0 {
            assert(token_digits(val@) =~= val@.skip(0));
        }
    }
    match scan_digits(val, start, limit) {
        Err(()) => Err(val.to_owned()),
        Ok(mag) => {
            if c0 == '+' {
                Ok(TakeValue::TakeNum(mag as i64))
            } else if mag == 0 {
                Ok(TakeValue::PlusZero)
            } else if mag == 0x8000_0000_0000_0000u128 {
                Ok(TakeValue::TakeNum(i64::MIN))
            } else {
                Ok(TakeValue::TakeNum(-(mag as i64)))
            }
        },
    }
}

/// The line terminator byte.
pub open spec fn nl() -> u8 {
    10u8
}

/// How many line terminators `s` holds.
pub open spec fn newline_count(s: Seq<u8>) -> int
    decreases s.len(),
{
    if s.len() == 0 {
        0
    } else {
        newline_count(s.drop_last()) + if s.last() == nl() {
            1int
        } else {
            0int
        }
    }
}

/// The number of lines in `s`, where a line is a chunk delimited by a
/// terminator, and trailing bytes without one still form a final line.
pub open spec fn spec_count_lines(s: Seq<u8>) -> int {
    newline_count(s) + if s.len() > 0 && s.last() != nl() {
        1int
    } else {
        0int
    }
}

/// The byte position where zero-based line `k` starts: one past the `k`-th
/// terminator, or the end of `s` when there are fewer lines.
pub open spec fn line_start_pos(s: Seq<u8>, k: int) -> int
    decreases s.len(),
{
    if k <= 0 || s.len() == 0 {
        0
    } else if s[0] == nl() {
        1 + line_start_pos(s.skip(1), k - 1)
    } else {
        1 + line_start_pos(s.skip(1), k)
    }
}

proof fn lemma_newline_count_nonneg(s: Seq<u8>)
    ensures
        0 <= newline_count(s) <= s.len(),
    decreases s.len(),
{
    if s.len() > 0 {
        lemma_newline_count_nonneg(s.drop_last());
    }
}

proof fn lemma_newline_count_step(s: Seq<u8>, i: int)
    requires
        0 <= i < s.len(),
    ensures
        newline_count(s.take(i + 1)) == newline_count(s.take(i)) + if s[i] == nl() {
            1int
        } else {
            0int
        },
{
    assert(s.take(i + 1).drop_last() =~= s.take(i));
    assert(s.take(i + 1).last() == s[i]);
}

/// Scan a file's content once, returning its total line count and total byte
/// count.
pub fn count_lines_bytes(data: &[u8]) -> (r: (i64, i64))
    requires
        data@.len() <= i64::MAX,
    ensures
        r.0 == spec_count_lines(data@),
        r.1 == data@.len(),
{
    let n = data.len();
    let mut num_lines: i64 = 0;
    let mut i: usize = 0;
    while i < n
        invariant
            0 <= i <= n,
            n == data@.len() <= i64::MAX,
            num_lines == newline_count(data@.take(i as int)),
            0 <= num_lines <= i,
        decreases n - i,
    {
        proof {
            lemma_newline_count_step(data@, i as int);
        }
        if data[i] == 10u8 {
            num_lines = num_lines + 1;
        }
        i = i + 1;
    }
    assert(data@.take(n as int) =~= data@);
    if n > 0 && data[n - 1] != 10u8 {
        proof {
            lemma_newline_count_nonneg(data@.drop_last());
            assert(newline_count(data@) == newline_count(data@.drop_last()));
        }
        num_lines = num_lines + 1;
    }
    (num_lines, n as i64)
}

/// The bytes a byte-mode request selects: the suffix of `data` from the
/// resolved start, or nothing.
pub open spec fn spec_select_bytes(data: Seq<u8>, num_bytes: TakeValue) -> Seq<u8> {
    match spec_start_index(num_bytes, data.len() as int) {
        Some(start) => data.skip(start),
        None => Seq::empty(),
    }
}

/// The bytes a line-mode request selects: every line from the resolved start
/// line on, verbatim with terminators.
pub open spec fn spec_select_lines(data: Seq<u8>, num_lines: TakeValue) -> Seq<u8> {
    match spec_start_index(num_lines, spec_count_lines(data)) {
        Some(start) => data.skip(line_start_pos(data, start)),
        None => Seq::empty(),
    }
}

/// Select the trailing bytes of `data` as `num_bytes` requests.
/// `total_bytes` is the extent a prior scan computed.
pub fn select_bytes(data: &[u8], num_bytes: &TakeValue, total_bytes: i64) -> (out: Vec<u8>)
    requires
        total_bytes == data@.len(),
    ensures
        out@ == spec_select_bytes(data@, *num_bytes),
{
    match get_start_index(num_bytes, total_bytes) {
        None => Vec::new(),
        Some(start) => {
            let start = start as usize;
            assert(data@.subrange(start as int, data@.len() as int) =~= data@.skip(start as int));
            vstd::slice::slice_to_vec(vstd::slice::slice_subrange(data, start, data.len()))
        },
    }
}

pub proof fn lemma_line_start_pos_bounds(s: Seq<u8>, k: int)
    ensures
        0 <= line_start_pos(s, k) <= s.len(),
    decreases s.len(),
{
    if !(k <= 0 || s.len() == 0) {
        if s[0] == nl() {
            lemma_line_start_pos_bounds(s.skip(1), k - 1);
        } else {
            lemma_line_start_pos_bounds(s.skip(1), k);
        }
    }
}

/// Walking one byte forward either enters the next line (at a terminator) or
/// stays in the same one; this unrolls `line_start_pos` at an arbitrary
/// position rather than at the front.
pub proof fn lemma_line_start_pos_advance(s: Seq<u8>, p: int, k: int)
    requires
        0 <= p < s.len(),
        k > 0,
    ensures
        line_start_pos(s.skip(p), k) == 1 + line_start_pos(
            s.skip(p + 1),
            if s[p] == nl() {
                k - 1
            } else {
                k
            },
        ),
{
    assert(s.skip(p).len() == s.len() - p > 0);
    assert(s.skip(p)[0] == s[p]);
    assert(s.skip(p).skip(1) =~= s.skip(p + 1));
}

/// Select the trailing lines of `data` as `num_lines` requests.
/// `total_lines` is the extent a prior scan computed.
pub fn select_lines(data: &[u8], num_lines: &TakeValue, total_lines: i64) -> (out: Vec<u8>)
    requires
        data@.len() <= i64::MAX,
        total_lines == spec_count_lines(data@),
    ensures
        out@ == spec_select_lines(data@, *num_lines),
{
    proof {
        lemma_newline_count_nonneg(data@);
    }
    match get_start_index(num_lines, total_lines) {
        None => Vec::new(),
        Some(start) => {
            let n = data.len();
            let mut pos: usize = 0;
            let mut seen: u64 = 0;
            assert(data@.skip(0) =~= data@);
            while seen < start && pos < n
                invariant
                    0 <= pos <= n,
                    n == data@.len(),
                    seen <= start,
                    line_start_pos(data@, start as int) == pos + line_start_pos(
                        data@.skip(pos as int),
                        start - seen,
                    ),
                decreases n - pos,
            {
                proof {
                    lemma_line_start_pos_advance(data@, pos as int, start - seen);
                }
                if data[pos] == 10u8 {
                    seen = seen + 1;
                }
                pos = pos + 1;
            }
            proof {
                if seen == start {
                    assert(line_start_pos(data@.skip(pos as int), 0) == 0);
                } else {
                    assert(data@.skip(pos as int).len() == 0);
                }
                assert(line_start_pos(data@, start as int) == pos);
                assert(data@.subrange(pos as int, n as int) =~= data@.skip(pos as int));
            }
            vstd::slice::slice_to_vec(vstd::slice::slice_subrange(data, pos, n))
        },
    }
}

/// The length of the first line of `s`: up to and including the first
/// terminator, or all of `s` when it has none.
pub open spec fn chunk_len(s: Seq<u8>) -> int
    decreases s.len(),
{
    if s.len() == 0 {
        0
    } else if s[0] == nl() {
        1
    } else {
        1 + chunk_len(s.skip(1))
    }
}

proof fn lemma_chunk_len_bounds(s: Seq<u8>)
    ensures
        s.len() > 0 ==> 1 <= chunk_len(s) <= s.len(),
    decreases s.len(),
{
    reveal_with_fuel(chunk_len, 2);
    if s.len() > 0 && s[0] != nl() {
        lemma_chunk_len_bounds(s.skip(1));
    }
}

proof fn lemma_chunk_shape(s: Seq<u8>)
    requires
        s.len() > 0,
    ensures
        forall|i: int| 0 <= i < chunk_len(s) - 1 ==> s[i] != nl(),
        s[chunk_len(s) - 1] == nl() || chunk_len(s) == s.len(),
    decreases s.len(),
{
    lemma_chunk_len_bounds(s);
    if s[0] != nl() && s.len() > 1 {
        lemma_chunk_len_bounds(s.skip(1));
        lemma_chunk_shape(s.skip(1));
        assert forall|i: int| 0 <= i < chunk_len(s) - 1 implies s[i] != nl() by {
            if i > 0 {
                assert(s.skip(1)[i - 1] == s[i]);
            }
        }
        assert(s.skip(1)[chunk_len(s.skip(1)) - 1] == s[chunk_len(s) - 1]);
    }
}

/// The lines of `s`, each verbatim with its terminator where it has one.
pub open spec fn lines_of(s: Seq<u8>) -> Seq<Seq<u8>>
    decreases s.len(),
    via lines_of_decreases
{
    if s.len() == 0 {
        Seq::empty()
    } else {
        seq![s.take(chunk_len(s))] + lines_of(s.skip(chunk_len(s)))
    }
}

#[via_fn]
proof fn lines_of_decreases(s: Seq<u8>) {
    lemma_chunk_len_bounds(s);
}

proof fn lemma_newline_count_append(a: Seq<u8>, b: Seq<u8>)
    ensures
        newline_count(a + b) == newline_count(a) + newline_count(b),
    decreases b.len(),
{
    if b.len() == 0 {
        assert(a + b =~= a);
    } else {
        lemma_newline_count_append(a, b.drop_last());
        assert((a + b).drop_last() =~= a + b.drop_last());
        assert((a + b).last() == b.last());
    }
}

proof fn lemma_newline_count_none(s: Seq<u8>)
    requires
        forall|i: int| 0 <= i < s.len() ==> s[i] != nl(),
    ensures
        newline_count(s) == 0,
    decreases s.len(),
{
    if s.len() > 0 {
        lemma_newline_count_none(s.drop_last());
    }
}

/// Removing the first line of a non-empty `s` removes exactly one from its
/// line count.
proof fn lemma_count_lines_step(s: Seq<u8>)
    requires
        s.len() > 0,
    ensures
        spec_count_lines(s) == 1 + spec_count_lines(s.skip(chunk_len(s))),
{
    let c = chunk_len(s);
    lemma_chunk_len_bounds(s);
    lemma_chunk_shape(s);
    assert(s =~= s.take(c) + s.skip(c));
    lemma_newline_count_append(s.take(c), s.skip(c));
    lemma_newline_count_none(s.take(c).drop_last());
    assert(s.take(c).last() == s[c - 1]);
    if s[c - 1] == nl() {
        assert(newline_count(s.take(c)) == 1);
        if c < s.len() {
            assert(s.last() == s.skip(c).last());
        } else {
            assert(s.last() == s[c - 1]);
        }
    } else {
        assert(c == s.len());
        assert(newline_count(s.take(c)) == 0);
        assert(s.skip(c).len() == 0);
        assert(s.last() != nl());
    }
}

/// A file has as many lines as `lines_of` yields.
pub proof fn lemma_lines_of_count(s: Seq<u8>)
    ensures
        lines_of(s).len() == spec_count_lines(s),
    decreases s.len(),
{
    if s.len() == 0 {
    } else {
        lemma_chunk_len_bounds(s);
        lemma_count_lines_step(s);
        lemma_lines_of_count(s.skip(chunk_len(s)));
    }
}

/// Splitting a file into its lines and concatenating them again gives the
/// file back: no byte is added, dropped or reordered.
pub proof fn lemma_lines_of_flatten(s: Seq<u8>)
    ensures
        lines_of(s).flatten() == s,
    decreases s.len(),
{
    if s.len() == 0 {
        assert(lines_of(s).flatten() =~= s);
    } else {
        let c = chunk_len(s);
        lemma_chunk_len_bounds(s);
        lemma_lines_of_flatten(s.skip(c));
        let l = lines_of(s);
        assert(l.first() == s.take(c));
        assert(l.drop_first() =~= lines_of(s.skip(c)));
        assert(l.flatten() == s.take(c) + lines_of(s.skip(c)).flatten());
        assert(s.take(c) + s.skip(c) =~= s);
    }
}

proof fn lemma_line_start_pos_chunk(s: Seq<u8>, k: int)
    requires
        s.len() > 0,
        k >= 1,
    ensures
        line_start_pos(s, k) == chunk_len(s) + line_start_pos(s.skip(chunk_len(s)), k - 1),
    decreases s.len(),
{
    reveal_with_fuel(chunk_len, 2);
    reveal_with_fuel(line_start_pos, 2);
    if s[0] == nl() {
    } else {
        if s.len() == 1 {
            assert(s.skip(1).len() == 0);
        } else {
            lemma_line_start_pos_chunk(s.skip(1), k);
            assert(chunk_len(s) == 1 + chunk_len(s.skip(1)));
            lemma_chunk_len_bounds(s.skip(1));
            assert(s.skip(1).skip(chunk_len(s.skip(1))) =~= s.skip(chunk_len(s)));
        }
    }
}

/// Line-mode selection really is a suffix of the line list: the bytes from
/// the start of line `k` are exactly the concatenation of lines `k` onward.
pub proof fn lemma_suffix_is_line_suffix(s: Seq<u8>, k: int)
    requires
        0 <= k <= lines_of(s).len(),
    ensures
        s.skip(line_start_pos(s, k)) == lines_of(s).skip(k).flatten(),
    decreases k,
{
    if k == 0 {
        lemma_lines_of_flatten(s);
        assert(s.skip(0) =~= s);
        assert(lines_of(s).skip(0) =~= lines_of(s));
    } else {
        let c = chunk_len(s);
        assert(lines_of(s).len() > 0);
        assert(s.len() > 0);
        lemma_chunk_len_bounds(s);
        lemma_line_start_pos_chunk(s, k);
        lemma_line_start_pos_bounds(s.skip(c), k - 1);
        lemma_suffix_is_line_suffix(s.skip(c), k - 1);
        assert(lines_of(s).skip(k) =~= lines_of(s.skip(c)).skip(k - 1));
        assert(s.skip(c + line_start_pos(s.skip(c), k - 1)) =~= s.skip(c).skip(
            line_start_pos(s.skip(c), k - 1),
        ));
    }
}

/// A file is empty exactly when it has no lines.
pub proof fn lemma_count_lines_zero(s: Seq<u8>)
    ensures
        spec_count_lines(s) == 0 <==> s.len() == 0,
{
    if s.len() > 0 {
        lemma_newline_count_nonneg(s.drop_last());
        if s.last() == nl() {
            assert(newline_count(s) >= 1);
        }
    }
}

/// The default request, the last ten lines: a file of fewer than ten lines
/// is returned whole, a longer one contributes exactly its last ten lines.
pub proof fn lemma_default_mode(s: Seq<u8>)
    ensures
        spec_count_lines(s) < 10 ==> spec_select_lines(s, TakeValue::TakeNum(-10i64)) == s,
        spec_count_lines(s) >= 10 ==> spec_select_lines(s, TakeValue::TakeNum(-10i64)) == lines_of(
            s,
        ).skip(spec_count_lines(s) - 10).flatten(),
{
    let k = spec_count_lines(s);
    lemma_newline_count_nonneg(s);
    lemma_count_lines_zero(s);
    lemma_lines_of_count(s);
    if k == 0 {
        assert(spec_select_lines(s, TakeValue::TakeNum(-10i64)) =~= s);
    } else if k < 10 {
        assert(spec_start_index(TakeValue::TakeNum(-10i64), k) == Some(0int));
        lemma_suffix_is_line_suffix(s, 0);
        lemma_lines_of_flatten(s);
        assert(s.skip(line_start_pos(s, 0)) =~= s);
    } else {
        assert(spec_start_index(TakeValue::TakeNum(-10i64), k) == Some(k - 10));
        lemma_suffix_is_line_suffix(s, k - 10);
    }
}

/// The output one file contributes: the byte extractor runs exactly when a
/// byte count is configured, the line extractor otherwise.
pub open spec fn spec_file_output(data: Seq<u8>, lines: TakeValue, bytes: Option<TakeValue>) -> Seq<
    u8,
> {
    match bytes {
        Some(b) => spec_select_bytes(data, b),
        None => spec_select_lines(data, lines),
    }
}

/// Scan `data` once for its extent, then extract the configured suffix: in
/// byte mode when `bytes` is set, otherwise in line mode.
pub fn process_file(data: &[u8], lines: &TakeValue, bytes: &Option<TakeValue>) -> (out: Vec<u8>)
    requires
        data@.len() <= i64::MAX,
    ensures
        out@ == spec_file_output(data@, *lines, *bytes),
{
    let (total_lines, total_bytes) = count_lines_bytes(data);
    match bytes {
        Some(num_bytes) => select_bytes(data, num_bytes, total_bytes),
        None => select_lines(data, lines, total_lines),
    }
}

/// A validated configuration: the files to process, the line count, the
/// optional (mutually exclusive) byte count, and the header-suppression flag.
pub struct Config {
    pub files: Vec<String>,
    pub lines: TakeValue,
    pub bytes: Option<TakeValue>,
    pub quiet: bool,
}

/// One configured file as handed to the orchestrator: its path and either
/// its full content or the diagnostic text of a failed open.
pub struct FileInput {
    pub name: String,
    pub data: Result<Vec<u8>, String>,
}

/// The separating header printed before a file's content when several files
/// are configured: a blank line first for every file but the first one.
pub open spec fn spec_header(name: Seq<char>, file_num: int) -> Seq<char> {
    (if file_num > 0 {
        "\n"@
    } else {
        Seq::<char>::empty()
    }) + "==> "@ + name + " <=="@ + "\n"@
}

/// Render the separating header for the file at position `file_num`.
pub fn format_header(filename: &str, file_num: usize) -> (r: String)
    ensures
        r@ == spec_header(filename@, file_num as int),
{
    let mut s = String::new();
    if file_num > 0 {
        s.append("\n");
    }
    s.append("==> ");
    s.append(filename);
    s.append(" <==");
    s.append("\n");
    proof {
        assert(s@ =~= spec_header(filename@, file_num as int));
    }
    s
}

/// The diagnostic for a file that could not be opened.
pub open spec fn spec_error_line(name: Seq<char>, msg: Seq<char>) -> Seq<char> {
    name + ": "@ + msg
}

/// Render the diagnostic for a failed open.
pub fn error_line(name: &str, msg: &str) -> (r: String)
    ensures
        r@ == spec_error_line(name@, msg@),
{
    let mut s = String::new();
    s.append(name);
    s.append(": ");
    s.append(msg);
    proof {
        assert(s@ =~= spec_error_line(name@, msg@));
    }
    s
}

/// What one file contributes to standard output: nothing when its open
/// failed, otherwise its header (when headers apply) followed by its
/// extracted suffix.
pub open spec fn spec_file_stdout(
    f: FileInput,
    idx: int,
    num_files: int,
    lines: TakeValue,
    bytes: Option<TakeValue>,
    quiet: bool,
) -> Seq<u8> {
    match f.data {
        Ok(d) => (if !quiet && num_files > 1 {
            encode_utf8(spec_header(f.name@, idx))
        } else {
            Seq::<u8>::empty()
        }) + spec_file_output(d@, lines, bytes),
        Err(_) => Seq::<u8>::empty(),
    }
}

/// Standard output over a whole file list, in configuration order.
pub open spec fn spec_run_stdout(
    inputs: Seq<FileInput>,
    num_files: int,
    lines: TakeValue,
    bytes: Option<TakeValue>,
    quiet: bool,
) -> Seq<u8>
    decreases inputs.len(),
{
    if inputs.len() == 0 {
        Seq::empty()
    } else {
        spec_run_stdout(inputs.drop_last(), num_files, lines, bytes, quiet) + spec_file_stdout(
            inputs.last(),
            inputs.len() - 1,
            num_files,
            lines,
            bytes,
            quiet,
        )
    }
}

/// The diagnostics over a whole file list: one line per failed open, in
/// configuration order.
pub open spec fn spec_run_errors(inputs: Seq<FileInput>) -> Seq<Seq<char>>
    decreases inputs.len(),
{
    if inputs.len() == 0 {
        Seq::empty()
    } else {
        spec_run_errors(inputs.drop_last()) + (match inputs.last().data {
            Ok(_) => Seq::<Seq<char>>::empty(),
            Err(e) => seq![spec_error_line(inputs.last().name@, e@)],
        })
    }
}

/// Process the configured files in order.  A failed open contributes one
/// diagnostic line and is skipped; every opened file is scanned and its
/// suffix extracted per the configured mode, behind a header when more than
/// one file is configured and headers are not suppressed.
///
/// Returns the bytes for standard output and the diagnostic lines for
/// standard error.
pub fn run(inputs: &Vec<FileInput>, lines: &TakeValue, bytes: &Option<TakeValue>, quiet: bool) -> (r:
    (Vec<u8>, Vec<String>))
    requires
        forall|i: int|
            0 <= i < inputs@.len() ==> (#[trigger] inputs@[i].data matches Ok(d) ==> d@.len()
                <= i64::MAX),
    ensures
        r.0@ == spec_run_stdout(inputs@, inputs@.len() as int, *lines, *bytes, quiet),
        r.1.deep_view() == spec_run_errors(inputs@),
{
    let num_files = inputs.len();
    let mut stdout: Vec<u8> = Vec::new();
    let mut errors: Vec<String> = Vec::new();
    let mut i: usize = 0;
    proof {
        assert(inputs@.take(0) =~= Seq::<FileInput>::empty());
    }
    while i < num_files
        invariant
            0 <= i <= num_files,
            num_files == inputs@.len(),
            forall|j: int|
                0 <= j < inputs@.len() ==> (#[trigger] inputs@[j].data matches Ok(d) ==> d@.len()
                    <= i64::MAX),
            stdout@ == spec_run_stdout(
                inputs@.take(i as int),
                num_files as int,
                *lines,
                *bytes,
                quiet,
            ),
            errors.deep_view() == spec_run_errors(inputs@.take(i as int)),
        decreases num_files - i,
    {
        let ghost prev_errors = errors.deep_view();
        let f = &inputs[i];
        match &f.data {
            Ok(d) => {
                if !quiet && num_files > 1 {
                    let header = format_header(f.name.as_str(), i);
                    stdout.extend_from_slice(header.as_str().as_bytes());
                }
                let body = process_file(d.as_slice(), lines, bytes);
                stdout.extend_from_slice(body.as_slice());
            },
            Err(e) => {
                errors.push(error_line(f.name.as_str(), e.as_str()));
            },
        }
        proof {
            assert(inputs@.take(i + 1).drop_last() =~= inputs@.take(i as int));
            assert(inputs@.take(i + 1).last() == inputs@[i as int]);
            assert(stdout@ =~= spec_run_stdout(
                inputs@.take(i + 1),
                num_files as int,
                *lines,
                *bytes,
                quiet,
            ));
            assert(errors.deep_view() =~= spec_run_errors(inputs@.take(i + 1)));
        }
        i = i + 1;
    }
    proof {
        assert(inputs@.take(num_files as int) =~= inputs@);
    }
    (stdout, errors)
}

} // verus!
