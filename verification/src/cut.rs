//! Column extraction: position lists such as `1,7,3-5` and the selection of
//! characters, bytes or fields along them.

use vstd::prelude::*;
use vstd::string::StringExecFns;
use vstd::string::StringSliceAdditionalSpecFns;

use crate::decimal::{digits_val, is_digits, scan_digits};

verus! {

/// Which units a position list selects.
#[derive(Debug)]
pub enum Extract {
    Fields(Vec<core::ops::Range<usize>>),
    Bytes(Vec<core::ops::Range<usize>>),
    Chars(Vec<core::ops::Range<usize>>),
}

/// The diagnostic for a list element outside the grammar.
pub open spec fn spec_illegal(p: Seq<char>) -> Seq<char> {
    "illegal list value: \""@ + p + "\""@
}

/// Render the diagnostic for a list element outside the grammar.
fn illegal_value(p: &str) -> (r: String)
    ensures
        r@ == spec_illegal(p@),
{
    let mut s = String::new();
    s.append("illegal list value: \"");
    s.append(p);
    s.append("\"");
    proof {
        assert(s@ =~= spec_illegal(p@));
    }
    s
}

/// What parsing one 1-indexed position yields: its zero-based index for a
/// pure digit token with a positive value in machine range, nothing
/// otherwise.  A sign, zero, or an overflowing value is rejected.
pub open spec fn spec_parse_index(s: Seq<char>) -> Option<int> {
    if is_digits(s) && 0 < digits_val(s) <= usize::MAX {
        Some(digits_val(s) - 1)
    } else {
        None
    }
}

/// Parse one 1-indexed position into a zero-based index.
pub fn parse_index(input: &str) -> (r: Result<usize, String>)
    ensures
        r is Ok <==> spec_parse_index(input@) is Some,
        r matches Ok(n) ==> spec_parse_index(input@) == Some(n as int),
        r matches Err(e) ==> e@ == spec_illegal(input@),
{
    match scan_digits(input, 0, usize::MAX as u128) {
        Err(()) => {
            proof {
                assert(input@.skip(0) =~= input@);
            }
            Err(illegal_value(input))
        },
        Ok(mag) => {
            proof {
                assert(input@.skip(0) =~= input@);
            }
            if mag == 0 {
                Err(illegal_value(input))
            } else {
                Ok((mag - 1) as usize)
            }
        },
    }
}

/// Split `cur + rest` at every comma, `cur` being the part of the current
/// piece already read.  Every comma separates two pieces, so empty pieces
/// arise between, before and after commas.
pub open spec fn split_from(cur: Seq<char>, rest: Seq<char>) -> Seq<Seq<char>>
    decreases rest.len(),
{
    if rest.len() == 0 {
        seq![cur]
    } else if rest[0] == ',' {
        seq![cur] + split_from(Seq::empty(), rest.skip(1))
    } else {
        split_from(cur.push(rest[0]), rest.skip(1))
    }
}

/// The comma-separated pieces of a position list.
pub open spec fn split_commas(s: Seq<char>) -> Seq<Seq<char>> {
    split_from(Seq::empty(), s)
}

proof fn lemma_split_from_advance(cur: Seq<char>, s: Seq<char>, p: int)
    requires
        0 <= p < s.len(),
    ensures
        split_from(cur, s.skip(p)) == if s[p] == ',' {
            seq![cur] + split_from(Seq::empty(), s.skip(p + 1))
        } else {
            split_from(cur.push(s[p]), s.skip(p + 1))
        },
{
    assert(s.skip(p).len() > 0);
    assert(s.skip(p)[0] == s[p]);
    assert(s.skip(p).skip(1) =~= s.skip(p + 1));
}

/// Split a position list at its commas.
fn split_on_commas(s: &str) -> (r: Vec<String>)
    ensures
        r.deep_view() == split_commas(s@),
{
    let n = s.unicode_len();
    let mut out: Vec<String> = Vec::new();
    let mut cur = String::new();
    let mut i: usize = 0;
    proof {
        assert(s@.skip(0) =~= s@);
    }
    while i < n
        invariant
            0 <= i <= n,
            n == s@.len(),
            split_commas(s@) == out.deep_view() + split_from(cur@, s@.skip(i as int)),
        decreases n - i,
    {
        let ghost prev = out.deep_view();
        let c = s.get_char(i);
        proof {
            lemma_split_from_advance(cur@, s@, i as int);
        }
        if c == ',' {
            let ghost oldcur = cur@;
            out.push(cur);
            cur = String::new();
            proof {
                assert(out.deep_view() =~= prev.push(oldcur));
            }
        } else {
            crate::textfmt::push_char(&mut cur, c);
        }
        proof {
            assert(out.deep_view() + split_from(cur@, s@.skip(i + 1)) =~= split_commas(s@));
        }
        i = i + 1;
    }
    proof {
        assert(s@.skip(n as int).len() == 0);
    }
    let ghost prev = out.deep_view();
    out.push(cur);
    proof {
        assert(out.deep_view() =~= prev + seq![split_from(cur@, s@.skip(n as int)).first()]);
        assert(out.deep_view() =~= split_commas(s@));
    }
    out
}

/// The index of the first dash in `s`, or its length when it has none.
pub open spec fn dash_pos(s: Seq<char>) -> int
    decreases s.len(),
{
    if s.len() == 0 {
        0
    } else if s[0] == '-' {
        0
    } else {
        1 + dash_pos(s.skip(1))
    }
}

proof fn lemma_dash_pos_advance(s: Seq<char>, p: int)
    requires
        0 <= p < s.len(),
    ensures
        dash_pos(s.skip(p)) == if s[p] == '-' {
            0int
        } else {
            1 + dash_pos(s.skip(p + 1))
        },
{
    assert(s.skip(p).len() > 0);
    assert(s.skip(p)[0] == s[p]);
    assert(s.skip(p).skip(1) =~= s.skip(p + 1));
}

proof fn lemma_dash_pos_bounds(s: Seq<char>)
    ensures
        0 <= dash_pos(s) <= s.len(),
    decreases s.len(),
{
    if s.len() > 0 && s[0] != '-' {
        lemma_dash_pos_bounds(s.skip(1));
    }
}

/// Find the first dash of `s`, or its length when it has none.
fn find_dash(s: &str) -> (r: usize)
    ensures
        r == dash_pos(s@),
{
    let n = s.unicode_len();
    let mut i: usize = 0;
    proof {
        assert(s@.skip(0) =~= s@);
        lemma_dash_pos_bounds(s@);
    }
    while i < n
        invariant
            0 <= i <= n,
            n == s@.len(),
            dash_pos(s@) == i + dash_pos(s@.skip(i as int)),
            dash_pos(s@) >= i,
        decreases n - i,
    {
        proof {
            lemma_dash_pos_advance(s@, i as int);
            lemma_dash_pos_bounds(s@.skip(i + 1));
        }
        if s.get_char(i) == '-' {
            return i;
        }
        i = i + 1;
    }
    proof {
        assert(s@.skip(n as int).len() == 0);
    }
    n
}

/// Whether every character of `s` is a digit (and there is at least one).
fn all_digits(s: &str) -> (r: bool)
    ensures
        r == is_digits(s@),
{
    let n = s.unicode_len();
    if n == 0 {
        return false;
    }
    let mut i: usize = 0;
    while i < n
        invariant
            0 <= i <= n,
            n == s@.len(),
            forall|j: int| 0 <= j < i ==> crate::decimal::is_dec_digit(#[trigger] s@[j]),
        decreases n - i,
    {
        let c = s.get_char(i);
        if !('0' <= c && c <= '9') {
            return false;
        }
        i = i + 1;
    }
    true
}

/// `s` matches the range grammar: digits, one dash, digits.
pub open spec fn is_range_token(s: Seq<char>) -> bool {
    let k = dash_pos(s);
    k < s.len() && is_digits(s.take(k)) && is_digits(s.skip(k + 1))
}

/// The diagnostic for a range whose first position is not lower than its
/// second, both reported 1-indexed.
pub open spec fn spec_range_order_err(n1: int, n2: int) -> Seq<char> {
    "First number in range ("@ + crate::textfmt::spec_dec_digits(n1 + 1)
        + ") must be lower than second number ("@ + crate::textfmt::spec_dec_digits(n2 + 1) + ")"@
}

fn range_order_err(n1: usize, n2: usize) -> (r: String)
    requires
        n1 < usize::MAX,
        n2 < usize::MAX,
    ensures
        r@ == spec_range_order_err(n1 as int, n2 as int),
{
    let mut s = String::new();
    s.append("First number in range (");
    let d = crate::textfmt::u64_to_string((n1 + 1) as u64);
    s.append(d.as_str());
    s.append(") must be lower than second number (");
    let d = crate::textfmt::u64_to_string((n2 + 1) as u64);
    s.append(d.as_str());
    s.append(")");
    proof {
        assert(s@ =~= spec_range_order_err(n1 as int, n2 as int));
    }
    s
}

/// What parsing one comma-separated piece yields: a half-open zero-based
/// range, or the diagnostic.  A plain position `n` stands for the range
/// `n..n+1`; `a-b` requires `a < b` and stands for `a-1..b`.
pub open spec fn spec_parse_piece(p: Seq<char>) -> Result<(int, int), Seq<char>> {
    match spec_parse_index(p) {
        Some(n) => Ok((n, n + 1)),
        None => if is_range_token(p) {
            let d1 = p.take(dash_pos(p));
            let d2 = p.skip(dash_pos(p) + 1);
            match spec_parse_index(d1) {
                None => Err(spec_illegal(d1)),
                Some(n1) => match spec_parse_index(d2) {
                    None => Err(spec_illegal(d2)),
                    Some(n2) => if n1 >= n2 {
                        Err(spec_range_order_err(n1, n2))
                    } else {
                        Ok((n1, n2 + 1))
                    },
                },
            }
        } else {
            Err(spec_illegal(p))
        },
    }
}

/// Parse one piece of a position list.
fn parse_piece(p: &str) -> (r: Result<core::ops::Range<usize>, String>)
    ensures
        r matches Ok(rg) ==> spec_parse_piece(p@) == Ok::<(int, int), Seq<char>>(
            (rg.start as int, rg.end as int),
        ),
        r matches Err(e) ==> spec_parse_piece(p@) matches Err(m) && e@ == m,
{
    match parse_index(p) {
        Ok(n) => Ok(n..n + 1),
        Err(first_err) => {
            let n = p.unicode_len();
            let k = find_dash(p);
            proof {
                lemma_dash_pos_bounds(p@);
            }
            if k >= n {
                return Err(first_err);
            }
            let d1 = p.substring_char(0, k);
            let d2 = p.substring_char(k + 1, n);
            proof {
                assert(d1@ =~= p@.take(k as int));
                assert(d2@ =~= p@.skip(k + 1));
            }
            if !(all_digits(d1) && all_digits(d2)) {
                return Err(first_err);
            }
            let n1 = match parse_index(d1) {
                Ok(n1) => n1,
                Err(e) => {
                    return Err(e);
                },
            };
            let n2 = match parse_index(d2) {
                Ok(n2) => n2,
                Err(e) => {
                    return Err(e);
                },
            };
            if n1 >= n2 {
                Err(range_order_err(n1, n2))
            } else {
                Ok(n1..n2 + 1)
            }
        },
    }
}

/// What parsing a whole list of pieces yields: every piece's range in order,
/// or the first diagnostic.
pub open spec fn spec_parse_pieces(pieces: Seq<Seq<char>>) -> Result<Seq<(int, int)>, Seq<char>>
    decreases pieces.len(),
{
    if pieces.len() == 0 {
        Ok(Seq::empty())
    } else {
        match spec_parse_piece(pieces.first()) {
            Err(e) => Err(e),
            Ok(rg) => match spec_parse_pieces(pieces.drop_first()) {
                Err(e) => Err(e),
                Ok(rest) => Ok(seq![rg] + rest),
            },
        }
    }
}

/// What parsing a position list yields.
pub open spec fn spec_parse_pos(s: Seq<char>) -> Result<Seq<(int, int)>, Seq<char>> {
    spec_parse_pieces(split_commas(s))
}

proof fn lemma_parse_pieces_snoc(pieces: Seq<Seq<char>>, ranges: Seq<(int, int)>)
    requires
        pieces.len() > 0,
        spec_parse_pieces(pieces.drop_last()) == Ok::<Seq<(int, int)>, Seq<char>>(ranges),
    ensures
        spec_parse_pieces(pieces) == (match spec_parse_piece(pieces.last()) {
            Err(e) => Err::<Seq<(int, int)>, Seq<char>>(e),
            Ok(rg) => Ok(ranges.push(rg)),
        }),
    decreases pieces.len(),
{
    if pieces.len() == 1 {
        assert(pieces.drop_last().len() == 0);
        assert(pieces.first() == pieces.last());
        assert(pieces.drop_first().len() == 0);
        match spec_parse_piece(pieces.last()) {
            Ok(rg) => {
                assert(seq![rg] + Seq::<(int, int)>::empty() =~= ranges.push(rg));
            },
            Err(_) => {},
        }
    } else {
        let head = pieces.first();
        match spec_parse_piece(head) {
            Err(e) => {
                assert(pieces.drop_last().first() == head);
                assert(spec_parse_pieces(pieces.drop_last()) is Err);
            },
            Ok(rg0) => {
                assert(pieces.drop_last().first() == head);
                let tail_ranges = match spec_parse_pieces(pieces.drop_last().drop_first()) {
                    Ok(t) => t,
                    Err(_) => Seq::empty(),
                };
                assert(spec_parse_pieces(pieces.drop_last().drop_first()) is Ok);
                assert(ranges == seq![rg0] + tail_ranges);
                assert(pieces.drop_last().drop_first() =~= pieces.drop_first().drop_last());
                lemma_parse_pieces_snoc(pieces.drop_first(), tail_ranges);
                assert(pieces.drop_first().last() == pieces.last());
                match spec_parse_piece(pieces.last()) {
                    Err(_) => {},
                    Ok(rg) => {
                        assert(seq![rg0] + tail_ranges.push(rg) =~= ranges.push(rg));
                    },
                }
            },
        }
    }
}

/// Parse a position list such as `1,7,3-5` into zero-based half-open
/// ranges, or fail with the first offending piece's diagnostic.
pub fn parse_pos(range: &str) -> (r: Result<Vec<core::ops::Range<usize>>, String>)
    ensures
        r is Ok <==> spec_parse_pos(range@) is Ok,
        r matches Ok(v) ==> spec_parse_pos(range@) matches Ok(rs) && v@.len() == rs.len() && (
        forall|i: int|
            0 <= i < rs.len() ==> (#[trigger] v@[i]).start == rs[i].0 && v@[i].end == rs[i].1),
        r matches Err(e) ==> spec_parse_pos(range@) matches Err(m) && e@ == m,
{
    let pieces = split_on_commas(range);
    let mut out: Vec<core::ops::Range<usize>> = Vec::new();
    let mut idx: usize = 0;
    let ghost all = split_commas(range@);
    proof {
        assert(all.take(0) =~= Seq::<Seq<char>>::empty());
    }
    while idx < pieces.len()
        invariant
            0 <= idx <= pieces.len(),
            pieces.deep_view() == all,
            all == split_commas(range@),
            spec_parse_pieces(all.take(idx as int)) matches Ok(rs) && out@.len() == rs.len() && (
            forall|i: int|
                0 <= i < rs.len() ==> (#[trigger] out@[i]).start == rs[i].0 && out@[i].end
                    == rs[i].1),
        decreases pieces.len() - idx,
    {
        let ghost rs = spec_parse_pieces(all.take(idx as int))->Ok_0;
        proof {
            assert(all.take(idx + 1).drop_last() =~= all.take(idx as int));
            assert(all.take(idx + 1).last() == all[idx as int]);
            lemma_parse_pieces_snoc(all.take(idx + 1), rs);
            assert(pieces.deep_view()[idx as int] == pieces@[idx as int]@);
        }
        match parse_piece(pieces[idx].as_str()) {
            Err(e) => {
                proof {
                    lemma_parse_pieces_err(all, idx as int);
                }
                return Err(e);
            },
            Ok(rg) => {
                out.push(rg);
            },
        }
        idx = idx + 1;
    }
    proof {
        assert(all.take(pieces.len() as int) =~= all);
    }
    Ok(out)
}

/// The items of `items` at positions `lo..hi`, skipping positions past the
/// end.
pub open spec fn sel_range<T>(items: Seq<T>, lo: int, hi: int) -> Seq<T>
    decreases hi - lo,
{
    if lo >= hi || lo >= items.len() {
        Seq::empty()
    } else {
        seq![items[lo]] + sel_range(items, lo + 1, hi)
    }
}

/// The items a position list selects: every range's items in list order,
/// ranges allowed to repeat, overlap, or reach past the end.
pub open spec fn spec_extract<T>(items: Seq<T>, pos: Seq<core::ops::Range<usize>>) -> Seq<T>
    decreases pos.len(),
{
    if pos.len() == 0 {
        Seq::empty()
    } else {
        spec_extract(items, pos.drop_last()) + sel_range(
            items,
            pos.last().start as int,
            pos.last().end as int,
        )
    }
}

/// Select the characters of `line` at the positions of `char_pos`.
pub fn extract_chars(line: &str, char_pos: &[core::ops::Range<usize>]) -> (r: String)
    ensures
        r@ == spec_extract(line@, char_pos@),
{
    let n = line.unicode_len();
    let mut chars: Vec<char> = Vec::new();
    let mut i: usize = 0;
    while i < n
        invariant
            0 <= i <= n,
            n == line@.len(),
            chars@ =~= line@.take(i as int),
        decreases n - i,
    {
        chars.push(line.get_char(i));
        i = i + 1;
    }
    proof {
        assert(chars@ =~= line@);
    }
    let mut out = String::new();
    let mut k: usize = 0;
    proof {
        assert(char_pos@.take(0) =~= Seq::<core::ops::Range<usize>>::empty());
    }
    while k < char_pos.len()
        invariant
            0 <= k <= char_pos@.len(),
            chars@ == line@,
            out@ == spec_extract(line@, char_pos@.take(k as int)),
        decreases char_pos@.len() - k,
    {
        let start = char_pos[k].start;
        let end = char_pos[k].end;
        let ghost base = out@;
        let mut i = start;
        while i < end && i < chars.len()
            invariant
                start <= i,
                chars@ == line@,
                out@ + sel_range(line@, i as int, end as int) == base + sel_range(
                    line@,
                    start as int,
                    end as int,
                ),
            decreases end - i,
        {
            crate::textfmt::push_char(&mut out, chars[i]);
            proof {
                assert(out@ + sel_range(line@, i + 1, end as int) =~= base + sel_range(
                    line@,
                    start as int,
                    end as int,
                ));
            }
            i = i + 1;
        }
        proof {
            assert(sel_range(line@, i as int, end as int) =~= Seq::<char>::empty());
            assert(out@ =~= base + sel_range(line@, start as int, end as int));
            assert(char_pos@.take(k + 1).drop_last() =~= char_pos@.take(k as int));
            assert(char_pos@.take(k + 1).last() == char_pos@[k as int]);
        }
        k = k + 1;
    }
    proof {
        assert(char_pos@.take(char_pos@.len() as int) =~= char_pos@);
    }
    out
}

/// The characters that a byte sequence denotes when decoded permissively:
/// invalid sequences are replaced, never an error.
/// The name stands for what `String::from_utf8_lossy` returns, which is a
/// function of the bytes alone.
pub uninterp spec fn lossy_of(bytes: Seq<u8>) -> Seq<char>;

/// Relies on `String::from_utf8_lossy`: the result depends on the bytes
/// alone, and valid UTF-8 decodes to itself.
#[verifier::external_body]
fn from_utf8_lossy(bytes: &[u8]) -> (r: String)
    ensures
        r@ == lossy_of(bytes@),
        vstd::utf8::valid_utf8(bytes@) ==> vstd::utf8::encode_utf8(r@) == bytes@,
{
    String::from_utf8_lossy(bytes).into_owned()
}

/// Select the bytes of `line` at the positions of `byte_pos`, decoded
/// permissively into text.
pub fn extract_bytes(line: &str, byte_pos: &[core::ops::Range<usize>]) -> (r: String)
    ensures
        r@ == lossy_of(spec_extract(line.spec_bytes(), byte_pos@)),
{
    let bytes = line.as_bytes();
    let mut selected: Vec<u8> = Vec::new();
    let mut k: usize = 0;
    proof {
        assert(byte_pos@.take(0) =~= Seq::<core::ops::Range<usize>>::empty());
    }
    while k < byte_pos.len()
        invariant
            0 <= k <= byte_pos@.len(),
            bytes@ == line.spec_bytes(),
            selected@ == spec_extract(line.spec_bytes(), byte_pos@.take(k as int)),
        decreases byte_pos@.len() - k,
    {
        let start = byte_pos[k].start;
        let end = byte_pos[k].end;
        let ghost base = selected@;
        let mut i = start;
        while i < end && i < bytes.len()
            invariant
                start <= i,
                bytes@ == line.spec_bytes(),
                selected@ + sel_range(bytes@, i as int, end as int) == base + sel_range(
                    bytes@,
                    start as int,
                    end as int,
                ),
            decreases end - i,
        {
            selected.push(bytes[i]);
            proof {
                assert(selected@ + sel_range(bytes@, i + 1, end as int) =~= base + sel_range(
                    bytes@,
                    start as int,
                    end as int,
                ));
            }
            i = i + 1;
        }
        proof {
            assert(sel_range(bytes@, i as int, end as int) =~= Seq::<u8>::empty());
            assert(selected@ =~= base + sel_range(bytes@, start as int, end as int));
            assert(byte_pos@.take(k + 1).drop_last() =~= byte_pos@.take(k as int));
            assert(byte_pos@.take(k + 1).last() == byte_pos@[k as int]);
        }
        k = k + 1;
    }
    proof {
        assert(byte_pos@.take(byte_pos@.len() as int) =~= byte_pos@);
    }
    from_utf8_lossy(selected.as_slice())
}

/// Select the fields of a delimited record at the positions of `field_pos`.
/// A record is its list of field texts.
pub fn extract_fields(record: &[String], field_pos: &[core::ops::Range<usize>]) -> (r: Vec<String>)
    ensures
        r.deep_view() == spec_extract(record.deep_view(), field_pos@),
{
    let ghost items = record.deep_view();
    let mut out: Vec<String> = Vec::new();
    let mut k: usize = 0;
    proof {
        assert(field_pos@.take(0) =~= Seq::<core::ops::Range<usize>>::empty());
        assert(out.deep_view() =~= spec_extract(items, field_pos@.take(0)));
    }
    while k < field_pos.len()
        invariant
            0 <= k <= field_pos@.len(),
            items == record.deep_view(),
            out.deep_view() == spec_extract(items, field_pos@.take(k as int)),
        decreases field_pos@.len() - k,
    {
        let start = field_pos[k].start;
        let end = field_pos[k].end;
        let ghost base = out.deep_view();
        let mut i = start;
        while i < end && i < record.len()
            invariant
                start <= i,
                items == record.deep_view(),
                out.deep_view() + sel_range(items, i as int, end as int) == base + sel_range(
                    items,
                    start as int,
                    end as int,
                ),
            decreases end - i,
        {
            let field = vstd::slice::slice_index_get(record, i).clone();
            out.push(field);
            proof {
                assert(out.deep_view() + sel_range(items, i + 1, end as int) =~= base + sel_range(
                    items,
                    start as int,
                    end as int,
                ));
            }
            i = i + 1;
        }
        proof {
            assert(sel_range(items, i as int, end as int) =~= Seq::<Seq<char>>::empty());
            assert(out.deep_view() =~= base + sel_range(items, start as int, end as int));
            assert(field_pos@.take(k + 1).drop_last() =~= field_pos@.take(k as int));
            assert(field_pos@.take(k + 1).last() == field_pos@[k as int]);
        }
        k = k + 1;
    }
    proof {
        assert(field_pos@.take(field_pos@.len() as int) =~= field_pos@);
    }
    out
}

/// A failing piece makes the whole list fail with that piece's diagnostic,
/// when every earlier piece parsed.
proof fn lemma_parse_pieces_err(pieces: Seq<Seq<char>>, idx: int)
    requires
        0 <= idx < pieces.len(),
        spec_parse_pieces(pieces.take(idx)) is Ok,
        spec_parse_piece(pieces[idx]) is Err,
    ensures
        spec_parse_pieces(pieces) == Err::<Seq<(int, int)>, Seq<char>>(
            spec_parse_piece(pieces[idx])->Err_0,
        ),
    decreases pieces.len(),
{
    if idx == 0 {
        assert(pieces.first() == pieces[0]);
    } else {
        assert(pieces.take(idx).first() == pieces.first());
        assert(spec_parse_piece(pieces.first()) is Ok);
        assert(pieces.take(idx).drop_first() =~= pieces.drop_first().take(idx - 1));
        lemma_parse_pieces_err(pieces.drop_first(), idx - 1);
        assert(pieces.drop_first()[idx - 1] == pieces[idx]);
    }
}

} // verus!
