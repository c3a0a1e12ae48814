//! Decimal rendering and column padding shared by the utilities that lay
//! their numbers out in fixed-width fields.

use vstd::prelude::*;
use vstd::string::StringExecFns;

verus! {

/// The character for one decimal digit value.
pub open spec fn digit_char(d: int) -> char {
    ((48 + d) as u8) as char
}

/// The decimal rendering of a non-negative number, most significant digit
/// first, with no sign and no leading zeros (a lone zero for zero).
pub open spec fn spec_dec_digits(n: int) -> Seq<char>
    recommends
        n >= 0,
    decreases n,
    via spec_dec_digits_decreases
{
    if n < 10 {
        seq![digit_char(n)]
    } else {
        spec_dec_digits(n / 10).push(digit_char(n % 10))
    }
}

#[via_fn]
proof fn spec_dec_digits_decreases(n: int) {
    assert(n >= 10 ==> 0 <= n / 10 < n) by (nonlinear_arith);
}

/// Appends one character to a string.
/// Relies on `String::push`: it appends the given character to the end.
#[verifier::external_body]
pub fn push_char(s: &mut String, c: char)
    ensures
        final(s)@ == old(s)@.push(c),
{
    s.push(c);
}

/// Render `n` in decimal.
pub fn u64_to_string(n: u64) -> (r: String)
    ensures
        r@ == spec_dec_digits(n as int),
    decreases n,
{
    let d: u8 = (n % 10) as u8;
    let c: char = (48 + d) as char;
    if n < 10 {
        let mut s = String::new();
        push_char(&mut s, c);
        proof {
            assert(s@ =~= spec_dec_digits(n as int));
        }
        s
    } else {
        let mut s = u64_to_string(n / 10);
        push_char(&mut s, c);
        proof {
            assert(s@ =~= spec_dec_digits(n as int));
        }
        s
    }
}

/// `n` spaces (none for a non-positive `n`).
pub open spec fn spec_spaces(n: int) -> Seq<char> {
    if n <= 0 {
        Seq::empty()
    } else {
        Seq::new(n as nat, |i: int| ' ')
    }
}

/// A string of `n` spaces.
pub fn spaces_string(n: usize) -> (r: String)
    ensures
        r@ == spec_spaces(n as int),
{
    let mut s = String::new();
    let mut i: usize = 0;
    while i < n
        invariant
            0 <= i <= n,
            s@ =~= spec_spaces(i as int),
        decreases n - i,
    {
        push_char(&mut s, ' ');
        proof {
            assert(s@ =~= spec_spaces(i + 1));
        }
        i = i + 1;
    }
    proof {
        assert(s@ =~= spec_spaces(n as int));
    }
    s
}

/// `s` right-aligned in a field of `width` characters; a longer `s` stands
/// unchanged.
pub open spec fn spec_pad_left(s: Seq<char>, width: int) -> Seq<char> {
    spec_spaces(width - s.len()) + s
}

/// Right-align `s` in a field of `width` characters.
pub fn pad_left(s: &str, width: usize) -> (r: String)
    ensures
        r@ == spec_pad_left(s@, width as int),
{
    let len = s.unicode_len();
    let mut r = if len >= width {
        spaces_string(0)
    } else {
        spaces_string(width - len)
    };
    r.append(s);
    proof {
        assert(r@ =~= spec_pad_left(s@, width as int));
    }
    r
}

/// `s` left-aligned in a field of `width` characters; a longer `s` stands
/// unchanged.
pub open spec fn spec_pad_right(s: Seq<char>, width: int) -> Seq<char> {
    s + spec_spaces(width - s.len())
}

/// Left-align `s` in a field of `width` characters.
pub fn pad_right(s: &str, width: usize) -> (r: String)
    ensures
        r@ == spec_pad_right(s@, width as int),
{
    let len = s.unicode_len();
    let mut r = String::new();
    r.append(s);
    let pad = if len >= width {
        spaces_string(0)
    } else {
        spaces_string(width - len)
    };
    r.append(pad.as_str());
    proof {
        assert(r@ =~= spec_pad_right(s@, width as int));
    }
    r
}

/// `s` centred in a field of `width` characters, the shorter padding on the
/// left; a longer `s` stands unchanged.
pub open spec fn spec_center(s: Seq<char>, width: int) -> Seq<char> {
    let pad = width - s.len();
    if pad <= 0 {
        s
    } else {
        spec_spaces(pad / 2) + s + spec_spaces(pad - pad / 2)
    }
}

/// Centre `s` in a field of `width` characters.
pub fn center(s: &str, width: usize) -> (r: String)
    ensures
        r@ == spec_center(s@, width as int),
{
    let len = s.unicode_len();
    if len >= width {
        let mut r = String::new();
        r.append(s);
        proof {
            assert(r@ =~= spec_center(s@, width as int));
        }
        r
    } else {
        let pad = width - len;
        let mut r = spaces_string(pad / 2);
        r.append(s);
        let right = spaces_string(pad - pad / 2);
        r.append(right.as_str());
        proof {
            assert(r@ =~= spec_center(s@, width as int));
        }
        r
    }
}

/// The items of `items` joined with `sep` between neighbours.
pub open spec fn spec_join(items: Seq<Seq<char>>, sep: Seq<char>) -> Seq<char>
    decreases items.len(),
{
    if items.len() == 0 {
        Seq::empty()
    } else {
        spec_join(items.drop_last(), sep) + (if items.len() > 1 {
            sep
        } else {
            Seq::empty()
        }) + items.last()
    }
}

/// Join strings with a separator.
pub fn join(items: &[String], sep: &str) -> (r: String)
    ensures
        r@ == spec_join(items.deep_view(), sep@),
{
    let mut r = String::new();
    let mut i: usize = 0;
    proof {
        assert(items.deep_view().take(0) =~= Seq::<Seq<char>>::empty());
    }
    while i < items.len()
        invariant
            0 <= i <= items@.len(),
            r@ == spec_join(items.deep_view().take(i as int), sep@),
        decreases items@.len() - i,
    {
        if i > 0 {
            r.append(sep);
        }
        let item = vstd::slice::slice_index_get(items, i);
        r.append(item.as_str());
        proof {
            assert(items.deep_view().take(i + 1).drop_last() =~= items.deep_view().take(i as int));
            assert(items.deep_view().take(i + 1).last() == items.deep_view()[i as int]);
            assert(r@ =~= spec_join(items.deep_view().take(i + 1), sep@));
        }
        i = i + 1;
    }
    proof {
        assert(items.deep_view().take(items@.len() as int) =~= items.deep_view());
    }
    r
}

} // verus!
