//! Decimal digit strings: their mathematical value and a verified scanner.
//!
//! The count and position arguments of every utility in this crate are plain
//! decimal tokens, possibly with a leading sign.  The parsers share the spec
//! functions and the scanning loop defined here.

use vstd::prelude::*;

verus! {

/// `c` is an ASCII decimal digit.
pub open spec fn is_dec_digit(c: char) -> bool {
    '0' <= c && c <= '9'
}

/// The numeric value of one digit character.
pub open spec fn digit_val(c: char) -> int {
    c as int - '0' as int
}

/// `s` is one or more decimal digits and nothing else.
pub open spec fn is_digits(s: Seq<char>) -> bool {
    s.len() > 0 && forall|i: int| 0 <= i < s.len() ==> is_dec_digit(#[trigger] s[i])
}

/// The value of a digit string read in base 10.
pub open spec fn digits_val(s: Seq<char>) -> int
    decreases s.len(),
{
    if s.len() == 0 {
        0
    } else {
        digits_val(s.drop_last()) * 10 + digit_val(s.last())
    }
}

/// A digit string's value is never negative.
pub proof fn lemma_digits_val_nonneg(s: Seq<char>)
    requires
        forall|i: int| 0 <= i < s.len() ==> is_dec_digit(#[trigger] s[i]),
    ensures
        digits_val(s) >= 0,
    decreases s.len(),
{
    if s.len() > 0 {
        lemma_digits_val_nonneg(s.drop_last());
    }
}

/// Extending a digit string to the right never shrinks its value.
pub proof fn lemma_digits_val_prefix(s: Seq<char>, j: int)
    requires
        0 <= j <= s.len(),
        forall|i: int| 0 <= i < s.len() ==> is_dec_digit(#[trigger] s[i]),
    ensures
        digits_val(s.take(j)) <= digits_val(s),
    decreases s.len() - j,
{
    if j < s.len() {
        lemma_digits_val_prefix(s, j + 1);
        assert(s.take(j + 1).drop_last() =~= s.take(j));
        assert(s.take(j + 1).last() == s[j]);
        lemma_digits_val_nonneg(s.take(j));
        assert(digits_val(s.take(j + 1)) == digits_val(s.take(j)) * 10 + digit_val(s[j]));
        assert(digits_val(s.take(j)) * 10 >= digits_val(s.take(j)));
    } else {
        assert(s.take(j) =~= s);
    }
}

/// The digit part of a signed integer token, with any leading sign removed.
pub open spec fn int_token_digits(s: Seq<char>) -> Seq<char> {
    if s.len() > 0 && (s[0] == '+' || s[0] == '-') {
        s.skip(1)
    } else {
        s
    }
}

/// `s` matches the signed integer grammar: an optional sign followed by one
/// or more decimal digits.
pub open spec fn is_int_token(s: Seq<char>) -> bool {
    is_digits(int_token_digits(s))
}

/// The value a signed integer token denotes.
pub open spec fn int_token_value(s: Seq<char>) -> int {
    if s.len() > 0 && s[0] == '-' {
        -digits_val(int_token_digits(s))
    } else {
        digits_val(int_token_digits(s))
    }
}

/// Scan `val` from character position `start` to the end as a digit string,
/// returning its value when every character is a digit and the value is at
/// most `limit`.
pub fn scan_digits(val: &str, start: usize, limit: u128) -> (r: Result<u128, ()>)
    requires
        start <= val@.len(),
        limit <= u64::MAX,
    ensures
        r is Ok <==> is_digits(val@.skip(start as int)) && digits_val(val@.skip(start as int))
            <= limit,
        r matches Ok(m) ==> m == digits_val(val@.skip(start as int)),
{
    let ghost digits = val@.skip(start as int);
    let n = val.unicode_len();
    if n == start {
        assert(!is_digits(digits));
        return Err(());
    }
    let mut mag: u128 = 0;
    let mut i = start;
    while i < n
        invariant
            start <= i <= n,
            n == val@.len(),
            start < n,
            limit <= u64::MAX,
            digits == val@.skip(start as int),
            forall|j: int| start <= j < i ==> is_dec_digit(#[trigger] val@[j]),
            mag == digits_val(val@.subrange(start as int, i as int)),
            mag <= limit,
        decreases n - i,
    {
        let c = val.get_char(i);
        if !('0' <= c && c <= '9') {
            assert(!is_dec_digit(digits[i - start]));
            return Err(());
        }
        let d: u128 = (c as u32 as u128) - 48;
        let next: u128 = mag * 10 + d;
        assert(val@.subrange(start as int, i + 1).drop_last() =~= val@.subrange(
            start as int,
            i as int,
        ));
        assert(next == digits_val(val@.subrange(start as int, i + 1)));
        if next > limit {
            // Any longer digit string is at least as large, so the whole
            // token is over the limit whenever it is a digit string at all.
            proof {
                if is_digits(digits) {
                    lemma_digits_val_prefix(digits, i + 1 - start);
                    assert(digits.take(i + 1 - start) =~= val@.subrange(start as int, i + 1));
                }
            }
            return Err(());
        }
        mag = next;
        i = i + 1;
    }
    assert(val@.subrange(start as int, n as int) =~= digits);
    Ok(mag)
}

} // verus!
