//! Fortune collections: the seed parser, the `%`-delimited record reader and
//! the random pick.

use vstd::prelude::*;

use crate::decimal::{digits_val, is_digits, scan_digits};
use crate::textfmt::{join, spec_join};

use rand::rngs::StdRng;
use rand::seq::IndexedRandom;
use rand::SeedableRng;

verus! {

/// One fortune: the base name of the file it came from and its text.
#[derive(Debug)]
pub struct Fortune {
    pub source: String,
    pub text: String,
}

impl View for Fortune {
    type V = (Seq<char>, Seq<char>);

    open spec fn view(&self) -> (Seq<char>, Seq<char>) {
        (self.source@, self.text@)
    }
}

impl DeepView for Fortune {
    type V = (Seq<char>, Seq<char>);

    open spec fn deep_view(&self) -> (Seq<char>, Seq<char>) {
        self.view()
    }
}

/// The diagnostic for a seed outside the unsigned integer grammar.
pub open spec fn spec_not_an_integer(s: Seq<char>) -> Seq<char> {
    "\""@ + s + "\" not a valid integer"@
}

/// The digit part of an unsigned token: a single leading `+` is accepted.
pub open spec fn plus_digits(s: Seq<char>) -> Seq<char> {
    if s.len() > 0 && s[0] == '+' {
        s.skip(1)
    } else {
        s
    }
}

/// What parsing a seed yields: the value of a digit token (with optional
/// `+`) within the unsigned 64-bit range, nothing otherwise.
pub open spec fn spec_parse_u64(s: Seq<char>) -> Option<int> {
    if is_digits(plus_digits(s)) && digits_val(plus_digits(s)) <= u64::MAX {
        Some(digits_val(plus_digits(s)))
    } else {
        None
    }
}

/// Parse the random seed argument.
pub fn parse_u64(s: &str) -> (r: Result<u64, String>)
    ensures
        r is Ok <==> spec_parse_u64(s@) is Some,
        r matches Ok(n) ==> spec_parse_u64(s@) == Some(n as int),
        r matches Err(e) ==> e@ == spec_not_an_integer(s@),
{
    let n = s.unicode_len();
    let start: usize = if n > 0 && s.get_char(0) == '+' {
        1
    } else {
        0
    };
    proof {
        if start == 0 {
            assert(plus_digits(s@) =~= s@.skip(0));
        }
    }
    match scan_digits(s, start, u64::MAX as u128) {
        Ok(mag) => Ok(mag as u64),
        Err(()) => {
            let mut m = String::new();
            m.append("\"");
            m.append(s);
            m.append("\" not a valid integer");
            proof {
                assert(m@ =~= spec_not_an_integer(s@));
            }
            Err(m)
        },
    }
}

/// The record reader's step over one file's lines: a `%` line closes the
/// buffered text as one fortune (when the buffer holds anything), any other
/// line joins the buffer.  The buffer carries over to the next file.
pub open spec fn spec_absorb(
    source: Seq<char>,
    lines: Seq<Seq<char>>,
    fortunes: Seq<(Seq<char>, Seq<char>)>,
    buffer: Seq<Seq<char>>,
) -> (Seq<(Seq<char>, Seq<char>)>, Seq<Seq<char>>)
    decreases lines.len(),
{
    if lines.len() == 0 {
        (fortunes, buffer)
    } else if lines.first() == "%"@ {
        if buffer.len() > 0 {
            spec_absorb(
                source,
                lines.drop_first(),
                fortunes.push((source, spec_join(buffer, "\n"@))),
                Seq::empty(),
            )
        } else {
            spec_absorb(source, lines.drop_first(), fortunes, buffer)
        }
    } else {
        spec_absorb(source, lines.drop_first(), fortunes, buffer.push(lines.first()))
    }
}

proof fn lemma_absorb_advance(
    source: Seq<char>,
    lines: Seq<Seq<char>>,
    p: int,
    fortunes: Seq<(Seq<char>, Seq<char>)>,
    buffer: Seq<Seq<char>>,
)
    requires
        0 <= p < lines.len(),
    ensures
        spec_absorb(source, lines.skip(p), fortunes, buffer) == (if lines[p] == "%"@ {
            if buffer.len() > 0 {
                spec_absorb(
                    source,
                    lines.skip(p + 1),
                    fortunes.push((source, spec_join(buffer, "\n"@))),
                    Seq::empty(),
                )
            } else {
                spec_absorb(source, lines.skip(p + 1), fortunes, buffer)
            }
        } else {
            spec_absorb(source, lines.skip(p + 1), fortunes, buffer.push(lines[p]))
        }),
{
    assert(lines.skip(p).len() > 0);
    assert(lines.skip(p).first() == lines[p]);
    assert(lines.skip(p).drop_first() =~= lines.skip(p + 1));
}

/// Whether a line is the record delimiter.
fn is_percent(line: &str) -> (r: bool)
    ensures
        r == (line@ == "%"@),
{
    proof {
        reveal_strlit("%");
    }
    if line.unicode_len() == 1 {
        let c = line.get_char(0);
        if c == '%' {
            proof {
                assert(line@ =~= "%"@);
            }
            true
        } else {
            proof {
                assert(line@ != "%"@);
            }
            false
        }
    } else {
        proof {
            assert(line@.len() != "%"@.len());
        }
        false
    }
}

/// Absorb one file's lines into the growing fortune list.  `source` is the
/// file's base name; `buffer` holds text still open from the lines before,
/// and is left holding whatever stays open after the last line.
pub fn fortunes_from_lines(
    source: &str,
    lines: &[String],
    fortunes: &mut Vec<Fortune>,
    buffer: &mut Vec<String>,
) -> (r: ())
    ensures
        (final(fortunes).deep_view(), final(buffer).deep_view()) == spec_absorb(
            source@,
            lines.deep_view(),
            old(fortunes).deep_view(),
            old(buffer).deep_view(),
        ),
{
    let ghost all = lines.deep_view();
    let ghost f0 = fortunes.deep_view();
    let ghost b0 = buffer.deep_view();
    let mut i: usize = 0;
    proof {
        assert(all.skip(0) =~= all);
    }
    while i < lines.len()
        invariant
            0 <= i <= lines@.len(),
            all == lines.deep_view(),
            spec_absorb(source@, all, f0, b0) == spec_absorb(
                source@,
                all.skip(i as int),
                fortunes.deep_view(),
                buffer.deep_view(),
            ),
        decreases lines@.len() - i,
    {
        proof {
            lemma_absorb_advance(
                source@,
                all,
                i as int,
                fortunes.deep_view(),
                buffer.deep_view(),
            );
        }
        let ghost fprev = fortunes.deep_view();
        let ghost bprev = buffer.deep_view();
        let line = vstd::slice::slice_index_get(lines, i);
        if is_percent(line.as_str()) {
            if buffer.len() > 0 {
                let text = join(buffer.as_slice(), "\n");
                fortunes.push(Fortune { source: source.to_owned(), text });
                buffer.clear();
                proof {
                    assert(fortunes.deep_view() =~= fprev.push((source@, spec_join(bprev, "\n"@))));
                    assert(buffer.deep_view() =~= Seq::<Seq<char>>::empty());
                }
            }
        } else {
            let kept = line.clone();
            buffer.push(kept);
            proof {
                assert(buffer.deep_view() =~= bprev.push(all[i as int]));
            }
        }
        i = i + 1;
    }
    proof {
        assert(all.skip(lines@.len() as int).len() == 0);
    }
}

/// `a` is at most `b` in lexicographic order of their characters.
pub open spec fn lex_le(a: Seq<char>, b: Seq<char>) -> bool
    decreases a.len(),
{
    if a.len() == 0 {
        true
    } else if b.len() == 0 {
        false
    } else if a.first() != b.first() {
        a.first() < b.first()
    } else {
        lex_le(a.drop_first(), b.drop_first())
    }
}

/// Of two strings, one is at most the other: the order is total.
pub proof fn lemma_lex_le_total(a: Seq<char>, b: Seq<char>)
    ensures
        lex_le(a, b) || lex_le(b, a),
    decreases a.len(),
{
    if a.len() > 0 && b.len() > 0 && a.first() == b.first() {
        lemma_lex_le_total(a.drop_first(), b.drop_first());
    }
}

/// The order is transitive.
pub proof fn lemma_lex_le_trans(a: Seq<char>, b: Seq<char>, c: Seq<char>)
    requires
        lex_le(a, b),
        lex_le(b, c),
    ensures
        lex_le(a, c),
    decreases a.len(),
{
    if a.len() > 0 && b.len() > 0 && c.len() > 0 && a.first() == b.first() && b.first()
        == c.first() {
        lemma_lex_le_trans(a.drop_first(), b.drop_first(), c.drop_first());
    }
}

proof fn lemma_lex_le_advance(a: Seq<char>, b: Seq<char>, i: int)
    requires
        0 <= i < a.len(),
        0 <= i < b.len(),
    ensures
        lex_le(a.skip(i), b.skip(i)) == if a[i] != b[i] {
            a[i] < b[i]
        } else {
            lex_le(a.skip(i + 1), b.skip(i + 1))
        },
{
    assert(a.skip(i).len() > 0);
    assert(b.skip(i).len() > 0);
    assert(a.skip(i).first() == a[i]);
    assert(b.skip(i).first() == b[i]);
    assert(a.skip(i).drop_first() =~= a.skip(i + 1));
    assert(b.skip(i).drop_first() =~= b.skip(i + 1));
}

/// Whether `a` is at most `b` in lexicographic order.
pub fn str_le(a: &str, b: &str) -> (r: bool)
    ensures
        r == lex_le(a@, b@),
{
    let na = a.unicode_len();
    let nb = b.unicode_len();
    let mut i: usize = 0;
    proof {
        assert(a@.skip(0) =~= a@);
        assert(b@.skip(0) =~= b@);
    }
    while i < na && i < nb
        invariant
            0 <= i <= na,
            0 <= i <= nb,
            na == a@.len(),
            nb == b@.len(),
            lex_le(a@, b@) == lex_le(a@.skip(i as int), b@.skip(i as int)),
        decreases na - i,
    {
        proof {
            lemma_lex_le_advance(a@, b@, i as int);
        }
        let ca = a.get_char(i);
        let cb = b.get_char(i);
        if ca != cb {
            return ca < cb;
        }
        i = i + 1;
    }
    proof {
        if i >= na {
            assert(a@.skip(i as int).len() == 0);
        } else {
            assert(b@.skip(i as int).len() == 0);
            assert(a@.skip(i as int).len() > 0);
        }
    }
    na <= nb
}

proof fn lemma_insert_to_multiset<A>(s: Seq<A>, p: int, x: A)
    requires
        0 <= p <= s.len(),
    ensures
        s.insert(p, x).to_multiset() =~= s.to_multiset().insert(x),
{
    broadcast use vstd::seq_lib::group_to_multiset_ensures;

    assert(s.insert(p, x) =~= s.take(p).push(x) + s.skip(p));
    assert(s =~= s.take(p) + s.skip(p));
    vstd::seq_lib::lemma_multiset_commutative(s.take(p).push(x), s.skip(p));
    vstd::seq_lib::lemma_multiset_commutative(s.take(p), s.skip(p));
    assert(s.take(p).push(x).to_multiset() =~= s.take(p).to_multiset().insert(x));
}

/// Sort a file list in lexicographic order.  No entry is lost, added or
/// changed: the sorted list holds the same strings, as a multiset.
pub fn sort_files(files: &mut Vec<String>)
    ensures
        final(files).deep_view().to_multiset() == old(files).deep_view().to_multiset(),
        forall|x: int, y: int|
            0 <= x < y < final(files).deep_view().len() ==> lex_le(
                #[trigger] final(files).deep_view()[x],
                #[trigger] final(files).deep_view()[y],
            ),
{
    broadcast use vstd::seq_lib::group_to_multiset_ensures;

    let ghost m0 = files.deep_view().to_multiset();
    let mut i: usize = 1;
    while i < files.len()
        invariant
            1 <= i <= files@.len() || files@.len() == 0,
            files.deep_view().to_multiset() == m0,
            forall|x: int, y: int|
                0 <= x < y < i ==> lex_le(
                    #[trigger] files.deep_view()[x],
                    #[trigger] files.deep_view()[y],
                ),
        decreases files@.len() - i,
    {
        let ghost dv = files.deep_view();
        let mut p: usize = i;
        while p > 0 && !str_le(
            vstd::slice::slice_index_get(files.as_slice(), p - 1).as_str(),
            vstd::slice::slice_index_get(files.as_slice(), i).as_str(),
        )
            invariant
                0 <= p <= i < files@.len(),
                dv == files.deep_view(),
                forall|m: int| p <= m < i ==> !lex_le(#[trigger] dv[m], dv[i as int]),
            decreases p,
        {
            p = p - 1;
        }
        let x = files.remove(i);
        files.insert(p, x);
        proof {
            assert(files.deep_view() =~= dv.remove(i as int).insert(p as int, dv[i as int]));
            lemma_insert_to_multiset(dv.remove(i as int), p as int, dv[i as int]);
            dv.to_multiset_ensures();
            assert(dv.remove(i as int).to_multiset() =~= dv.to_multiset().remove(dv[i as int]));
            assert(dv.contains(dv[i as int]));
            assert(dv.to_multiset().count(dv[i as int]) > 0);
            assert(dv.to_multiset().remove(dv[i as int]).insert(dv[i as int]) =~= dv.to_multiset());
            assert(files.deep_view().to_multiset() =~= dv.to_multiset());
            let ndv = files.deep_view();
            assert forall|x: int, y: int| 0 <= x < y < i + 1 implies lex_le(
                #[trigger] ndv[x],
                #[trigger] ndv[y],
            ) by {
                if y < p {
                    assert(ndv[x] == dv[x] && ndv[y] == dv[y]);
                } else if y == p {
                    assert(ndv[y] == dv[i as int]);
                    assert(ndv[x] == dv[x]);
                    if p > 0 {
                        assert(lex_le(dv[p - 1], dv[i as int]));
                        if x < p - 1 {
                            lemma_lex_le_trans(dv[x], dv[p - 1], dv[i as int]);
                        }
                    }
                } else {
                    assert(ndv[y] == dv[y - 1]);
                    assert(p <= y - 1 < i);
                    if x < p {
                        assert(ndv[x] == dv[x]);
                        assert(lex_le(dv[p - 1], dv[i as int]));
                        assert(!lex_le(dv[y - 1], dv[i as int]));
                        lemma_lex_le_total(dv[y - 1], dv[i as int]);
                        if x == p - 1 {
                            lemma_lex_le_trans(dv[x], dv[i as int], dv[y - 1]);
                        } else {
                            lemma_lex_le_trans(dv[x], dv[p - 1], dv[i as int]);
                            lemma_lex_le_trans(dv[x], dv[i as int], dv[y - 1]);
                        }
                    } else if x == p {
                        assert(ndv[x] == dv[i as int]);
                        assert(!lex_le(dv[y - 1], dv[i as int]));
                        lemma_lex_le_total(dv[y - 1], dv[i as int]);
                    } else {
                        assert(ndv[x] == dv[x - 1]);
                        assert(p <= x - 1 < y - 1 < i);
                    }
                }
            }
        }
        i = i + 1;
    }
}

/// A list with every element that repeats its immediate predecessor
/// removed: the first of each run of equal neighbours stays.
pub open spec fn spec_dedup(s: Seq<Seq<char>>) -> Seq<Seq<char>>
    decreases s.len(),
{
    if s.len() <= 1 {
        s
    } else if s.last() == s[s.len() - 2] {
        spec_dedup(s.drop_last())
    } else {
        spec_dedup(s.drop_last()).push(s.last())
    }
}

/// Whether two strings hold the same characters.
fn str_eq(a: &str, b: &str) -> (r: bool)
    ensures
        r == (a@ == b@),
{
    let na = a.unicode_len();
    let nb = b.unicode_len();
    if na != nb {
        return false;
    }
    let mut i: usize = 0;
    while i < na
        invariant
            0 <= i <= na,
            na == a@.len(),
            na == b@.len(),
            forall|j: int| 0 <= j < i ==> a@[j] == b@[j],
        decreases na - i,
    {
        if a.get_char(i) != b.get_char(i) {
            return false;
        }
        i = i + 1;
    }
    proof {
        assert(a@ =~= b@);
    }
    true
}

/// Drop every file-list entry that repeats its immediate predecessor.
pub fn dedup_files(files: &mut Vec<String>)
    ensures
        final(files).deep_view() == spec_dedup(old(files).deep_view()),
{
    let ghost dv = files.deep_view();
    let mut out: Vec<String> = Vec::new();
    let mut i: usize = 0;
    proof {
        assert(dv.take(0) =~= Seq::<Seq<char>>::empty());
    }
    while i < files.len()
        invariant
            0 <= i <= files@.len(),
            dv == files.deep_view(),
            out.deep_view() == spec_dedup(dv.take(i as int)),
        decreases files@.len() - i,
    {
        let ghost prev = out.deep_view();
        let cur = vstd::slice::slice_index_get(files.as_slice(), i);
        let repeats = if i == 0 {
            false
        } else {
            str_eq(cur.as_str(), vstd::slice::slice_index_get(files.as_slice(), i - 1).as_str())
        };
        proof {
            assert(dv.take(i + 1).drop_last() =~= dv.take(i as int));
            assert(dv.take(i + 1).last() == dv[i as int]);
        }
        if !repeats {
            out.push(cur.clone());
            proof {
                assert(out.deep_view() =~= prev.push(dv[i as int]));
            }
        }
        i = i + 1;
    }
    proof {
        assert(dv.take(files@.len() as int) =~= dv);
    }
    *files = out;
}

/// Relies on rand: `StdRng::seed_from_u64` builds a deterministic generator
/// from the seed, and `IndexedRandom::choose` returns `None` exactly on an
/// empty slice, otherwise some element of it.
#[verifier::external_body]
fn choose_seeded<'a>(fortunes: &'a [Fortune], seed: u64) -> (r: Option<&'a Fortune>)
    ensures
        r is Some <==> fortunes@.len() > 0,
        r matches Some(f) ==> exists|i: int| 0 <= i < fortunes@.len() && *f == fortunes@[i],
{
    let mut rng = StdRng::seed_from_u64(seed);
    fortunes.choose(&mut rng)
}

/// Relies on rand: `rand::rng` hands back the thread-local generator, and
/// `IndexedRandom::choose` returns `None` exactly on an empty slice,
/// otherwise some element of it.
#[verifier::external_body]
fn choose_random<'a>(fortunes: &'a [Fortune]) -> (r: Option<&'a Fortune>)
    ensures
        r is Some <==> fortunes@.len() > 0,
        r matches Some(f) ==> exists|i: int| 0 <= i < fortunes@.len() && *f == fortunes@[i],
{
    let mut rng = rand::rng();
    fortunes.choose(&mut rng)
}

/// What the pattern report writes from the matched fortunes onward, given
/// the source name last announced: each matched fortune contributes its
/// text and a `%` line to the output, and its source in parentheses with a
/// `%` line to the diagnostics whenever the source differs from the one
/// announced before.
pub open spec fn spec_report_from(
    fortunes: Seq<(Seq<char>, Seq<char>)>,
    matched: Seq<bool>,
    prev: Option<Seq<char>>,
) -> (Seq<char>, Seq<char>)
    decreases fortunes.len(),
{
    if fortunes.len() == 0 {
        (Seq::empty(), Seq::empty())
    } else if !matched.first() {
        spec_report_from(fortunes.drop_first(), matched.drop_first(), prev)
    } else {
        let src = fortunes.first().0;
        let text = fortunes.first().1;
        let announce = match prev {
            None => true,
            Some(p) => p != src,
        };
        let rest = spec_report_from(fortunes.drop_first(), matched.drop_first(), Some(src));
        (
            text + "\n%\n"@ + rest.0,
            (if announce {
                "("@ + src + ")\n%\n"@
            } else {
                Seq::<char>::empty()
            }) + rest.1,
        )
    }
}

proof fn lemma_report_advance(
    fortunes: Seq<(Seq<char>, Seq<char>)>,
    matched: Seq<bool>,
    p: int,
    prev: Option<Seq<char>>,
)
    requires
        0 <= p < fortunes.len(),
        fortunes.len() == matched.len(),
    ensures
        spec_report_from(fortunes.skip(p), matched.skip(p), prev) == (if !matched[p] {
            spec_report_from(fortunes.skip(p + 1), matched.skip(p + 1), prev)
        } else {
            let src = fortunes[p].0;
            let rest = spec_report_from(fortunes.skip(p + 1), matched.skip(p + 1), Some(src));
            (
                fortunes[p].1 + "\n%\n"@ + rest.0,
                (if (match prev {
                    None => true,
                    Some(q) => q != src,
                }) {
                    "("@ + src + ")\n%\n"@
                } else {
                    Seq::<char>::empty()
                }) + rest.1,
            )
        }),
{
    assert(fortunes.skip(p).len() > 0);
    assert(fortunes.skip(p).first() == fortunes[p]);
    assert(matched.skip(p).first() == matched[p]);
    assert(fortunes.skip(p).drop_first() =~= fortunes.skip(p + 1));
    assert(matched.skip(p).drop_first() =~= matched.skip(p + 1));
}

/// The view of an optional source name.
pub open spec fn opt_view(o: Option<String>) -> Option<Seq<char>> {
    match o {
        None => None,
        Some(p) => Some(p@),
    }
}

/// Write the report for the matched fortunes: the output text and the
/// diagnostic text, each fortune's text closed by a `%` line, each new
/// source announced once on the diagnostic side.
pub fn format_matches(fortunes: &[Fortune], matched: &[bool]) -> (r: (String, String))
    requires
        fortunes@.len() == matched@.len(),
    ensures
        (r.0@, r.1@) == spec_report_from(fortunes.deep_view(), matched@, None::<Seq<char>>),
{
    let ghost all = fortunes.deep_view();
    let mut out = String::new();
    let mut diag = String::new();
    let mut prev_source: Option<String> = None;
    let mut i: usize = 0;
    proof {
        assert(all.skip(0) =~= all);
        assert(matched@.skip(0) =~= matched@);
    }
    while i < fortunes.len()
        invariant
            0 <= i <= fortunes@.len(),
            all == fortunes.deep_view(),
            fortunes@.len() == matched@.len(),
            spec_report_from(all, matched@, None::<Seq<char>>) == {
                let rest = spec_report_from(
                    all.skip(i as int),
                    matched@.skip(i as int),
                    opt_view(prev_source),
                );
                (out@ + rest.0, diag@ + rest.1)
            },
        decreases fortunes@.len() - i,
    {
        proof {
            lemma_report_advance(all, matched@, i as int, opt_view(prev_source));
        }
        let f = vstd::slice::slice_index_get(fortunes, i);
        if matched[i] {
            let announce = match &prev_source {
                None => true,
                Some(p) => !str_eq(p.as_str(), f.source.as_str()),
            };
            if announce {
                diag.append("(");
                diag.append(f.source.as_str());
                diag.append(")\n%\n");
            }
            out.append(f.text.as_str());
            out.append("\n%\n");
            prev_source = Some(f.source.clone());
            proof {
                let rest = spec_report_from(
                    all.skip(i + 1),
                    matched@.skip(i + 1),
                    Some(f.source@),
                );
                assert(out@ + rest.0 =~= spec_report_from(all, matched@, None::<Seq<char>>).0);
                assert(diag@ + rest.1 =~= spec_report_from(all, matched@, None::<Seq<char>>).1);
            }
        }
        i = i + 1;
    }
    proof {
        assert(all.skip(fortunes@.len() as int).len() == 0);
        assert(out@ =~= spec_report_from(all, matched@, None::<Seq<char>>).0);
        assert(diag@ =~= spec_report_from(all, matched@, None::<Seq<char>>).1);
    }
    (out, diag)
}

/// Match every fortune's text against the pattern and write the report.
/// Which fortunes the pattern selects is the pattern's business; the report
/// is exact for every selection.
pub fn pattern_report(fortunes: &[Fortune], pattern: &regex::Regex) -> (r: (String, String))
    ensures
        exists|matched: Seq<bool>|
            matched.len() == fortunes@.len() && (r.0@, r.1@) == spec_report_from(
                fortunes.deep_view(),
                matched,
                None::<Seq<char>>,
            ),
{
    let mut matched: Vec<bool> = Vec::new();
    let mut i: usize = 0;
    while i < fortunes.len()
        invariant
            0 <= i <= fortunes@.len(),
            matched@.len() == i,
        decreases fortunes@.len() - i,
    {
        let f = vstd::slice::slice_index_get(fortunes, i);
        matched.push(crate::grep::regex_is_match(pattern, f.text.as_str()));
        i = i + 1;
    }
    let r = format_matches(fortunes, matched.as_slice());
    proof {
        assert(matched@.len() == fortunes@.len() && (r.0@, r.1@) == spec_report_from(
            fortunes.deep_view(),
            matched@,
            None::<Seq<char>>,
        ));
    }
    r
}

/// Pick one fortune's text at random, deterministically when a seed is
/// given.  Exactly an empty collection yields nothing; whatever the
/// generator does, the text is one of the collection's.
pub fn pick_fortunes(fortunes: &[Fortune], seed: Option<u64>) -> (r: Option<String>)
    ensures
        r is Some <==> fortunes@.len() > 0,
        r matches Some(t) ==> exists|i: int|
            0 <= i < fortunes@.len() && t@ == (#[trigger] fortunes@[i]).text@,
{
    let chosen = match seed {
        Some(s) => choose_seeded(fortunes, s),
        None => choose_random(fortunes),
    };
    match chosen {
        Some(f) => Some(f.text.clone()),
        None => None,
    }
}

} // verus!
