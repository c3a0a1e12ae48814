//! Leading-window extraction: a positive count argument and the first lines
//! or bytes of a file.

use vstd::prelude::*;

use crate::decimal::{digits_val, is_digits, scan_digits};
use crate::tail::{lemma_line_start_pos_advance, line_start_pos};

verus! {

/// The digit part of an unsigned count token: a single leading `+` is
/// accepted, any other sign is not.
pub open spec fn unsigned_digits(s: Seq<char>) -> Seq<char> {
    if s.len() > 0 && s[0] == '+' {
        s.skip(1)
    } else {
        s
    }
}

/// What parsing a positive count yields: the value for a digit token (with
/// optional `+`) between one and the machine word maximum, nothing
/// otherwise.  Zero is rejected.
pub open spec fn spec_parse_positive_int(s: Seq<char>) -> Option<int> {
    if is_digits(unsigned_digits(s)) && 0 < digits_val(unsigned_digits(s)) <= usize::MAX {
        Some(digits_val(unsigned_digits(s)))
    } else {
        None
    }
}

/// Parse a count argument that must be a positive integer.  A failure hands
/// the offending token back for the caller's diagnostic.
pub fn parse_positive_int(val: &str) -> (r: Result<usize, String>)
    ensures
        r is Ok <==> spec_parse_positive_int(val@) is Some,
        r matches Ok(n) ==> spec_parse_positive_int(val@) == Some(n as int),
        r matches Err(e) ==> e@ == val@,
{
    let n = val.unicode_len();
    if n == 0 {
        return Err(val.to_owned());
    }
    let c0 = val.get_char(0);
    let start: usize = if c0 == '+' {
        1
    } else {
        0
    };
    proof {
        if start == 0 {
            assert(unsigned_digits(val@) =~= val@.skip(0));
        }
    }
    match scan_digits(val, start, usize::MAX as u128) {
        Err(()) => Err(val.to_owned()),
        Ok(mag) => {
            if mag == 0 {
                Err(val.to_owned())
            } else {
                Ok(mag as usize)
            }
        },
    }
}

/// The first `num_lines` lines of `data`, verbatim with terminators: the
/// prefix up to where line `num_lines` would start.
pub fn head_lines(data: &[u8], num_lines: usize) -> (out: Vec<u8>)
    ensures
        out@ == data@.take(line_start_pos(data@, num_lines as int)),
{
    let n = data.len();
    let mut pos: usize = 0;
    let mut seen: usize = 0;
    proof {
        assert(data@.skip(0) =~= data@);
    }
    while seen < num_lines && pos < n
        invariant
            0 <= pos <= n,
            n == data@.len(),
            seen <= num_lines,
            line_start_pos(data@, num_lines as int) == pos + line_start_pos(
                data@.skip(pos as int),
                num_lines - seen,
            ),
        decreases n - pos,
    {
        proof {
            lemma_line_start_pos_advance(data@, pos as int, num_lines - seen);
        }
        if data[pos] == 10u8 {
            seen = seen + 1;
        }
        pos = pos + 1;
    }
    proof {
        if seen == num_lines {
            assert(line_start_pos(data@.skip(pos as int), 0) == 0);
        } else {
            assert(data@.skip(pos as int).len() == 0);
        }
        assert(line_start_pos(data@, num_lines as int) == pos);
        assert(data@.subrange(0, pos as int) =~= data@.take(pos as int));
    }
    vstd::slice::slice_to_vec(vstd::slice::slice_subrange(data, 0, pos))
}

/// The first `num_bytes` bytes of `data`, or all of it when it is shorter.
pub fn head_bytes(data: &[u8], num_bytes: usize) -> (out: Vec<u8>)
    ensures
        out@ == data@.take(
            if num_bytes <= data@.len() {
                num_bytes as int
            } else {
                data@.len() as int
            },
        ),
{
    let n = data.len();
    let end = if num_bytes <= n {
        num_bytes
    } else {
        n
    };
    assert(data@.subrange(0, end as int) =~= data@.take(end as int));
    vstd::slice::slice_to_vec(vstd::slice::slice_subrange(data, 0, end))
}

} // verus!
