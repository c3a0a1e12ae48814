//! Two-input comparison: walk two line lists in step and lay each emitted
//! line out in its column, with a configurable delimiter and optional
//! case folding.

use vstd::prelude::*;
use vstd::string::StringExecFns;

verus! {

/// The characters of a line with every cased letter folded to lower case.
/// The name stands for what `str::to_lowercase` returns, which depends on
/// the characters alone.
pub uninterp spec fn lower_of(s: Seq<char>) -> Seq<char>;

/// Relies on `str::to_lowercase`: the result depends on the characters
/// alone, and an empty string stays empty.
#[verifier::external_body]
fn lowercase(s: &str) -> (r: String)
    ensures
        r@ == lower_of(s@),
        s@.len() == 0 ==> r@.len() == 0,
{
    s.to_lowercase()
}

/// A first-column line: the value alone, shown only when the first column
/// is.
pub open spec fn spec_col1(v: Seq<char>, show1: bool) -> Seq<Seq<char>> {
    if show1 {
        seq![v]
    } else {
        Seq::empty()
    }
}

/// A second-column line: the value behind one delimiter for each column
/// shown before it.
pub open spec fn spec_col2(v: Seq<char>, show1: bool, show2: bool, delim: Seq<char>) -> Seq<
    Seq<char>,
> {
    if show2 {
        seq![
            (if show1 {
                delim
            } else {
                Seq::empty()
            }) + v,
        ]
    } else {
        Seq::empty()
    }
}

/// A third-column line: the value behind one delimiter for each column
/// shown before it.
pub open spec fn spec_col3(
    v: Seq<char>,
    show1: bool,
    show2: bool,
    show3: bool,
    delim: Seq<char>,
) -> Seq<Seq<char>> {
    if show3 {
        seq![
            (if show1 {
                delim
            } else {
                Seq::empty()
            }) + (if show2 {
                delim
            } else {
                Seq::empty()
            }) + v,
        ]
    } else {
        Seq::empty()
    }
}

/// The output lines of the comparison walk: while both inputs have lines
/// the walk consumes one of each and emits the first input's line in the
/// third column; a leftover line of either input goes to that input's own
/// column.
pub open spec fn spec_comm(
    l1: Seq<Seq<char>>,
    l2: Seq<Seq<char>>,
    show1: bool,
    show2: bool,
    show3: bool,
    delim: Seq<char>,
) -> Seq<Seq<char>>
    decreases l1.len() + l2.len(),
{
    if l1.len() > 0 && l2.len() > 0 {
        spec_col3(l1.first(), show1, show2, show3, delim) + spec_comm(
            l1.drop_first(),
            l2.drop_first(),
            show1,
            show2,
            show3,
            delim,
        )
    } else if l1.len() > 0 {
        spec_col1(l1.first(), show1) + spec_comm(
            l1.drop_first(),
            l2,
            show1,
            show2,
            show3,
            delim,
        )
    } else if l2.len() > 0 {
        spec_col2(l2.first(), show1, show2, delim) + spec_comm(
            l1,
            l2.drop_first(),
            show1,
            show2,
            show3,
            delim,
        )
    } else {
        Seq::empty()
    }
}

proof fn lemma_comm_advance(
    l1: Seq<Seq<char>>,
    l2: Seq<Seq<char>>,
    i: int,
    j: int,
    show1: bool,
    show2: bool,
    show3: bool,
    delim: Seq<char>,
)
    requires
        0 <= i <= l1.len(),
        0 <= j <= l2.len(),
    ensures
        i < l1.len() && j < l2.len() ==> spec_comm(l1.skip(i), l2.skip(j), show1, show2, show3, delim)
            == spec_col3(l1[i], show1, show2, show3, delim) + spec_comm(
            l1.skip(i + 1),
            l2.skip(j + 1),
            show1,
            show2,
            show3,
            delim,
        ),
        i < l1.len() && j == l2.len() ==> spec_comm(l1.skip(i), l2.skip(j), show1, show2, show3, delim)
            == spec_col1(l1[i], show1) + spec_comm(
            l1.skip(i + 1),
            l2.skip(j),
            show1,
            show2,
            show3,
            delim,
        ),
        i == l1.len() && j < l2.len() ==> spec_comm(l1.skip(i), l2.skip(j), show1, show2, show3, delim)
            == spec_col2(l2[j], show1, show2, delim) + spec_comm(
            l1.skip(i),
            l2.skip(j + 1),
            show1,
            show2,
            show3,
            delim,
        ),
{
    if i < l1.len() {
        assert(l1.skip(i).len() > 0);
        assert(l1.skip(i).first() == l1[i]);
        assert(l1.skip(i).drop_first() =~= l1.skip(i + 1));
    } else {
        assert(l1.skip(i).len() == 0);
    }
    if j < l2.len() {
        assert(l2.skip(j).len() > 0);
        assert(l2.skip(j).first() == l2[j]);
        assert(l2.skip(j).drop_first() =~= l2.skip(j + 1));
    } else {
        assert(l2.skip(j).len() == 0);
    }
}

/// One input's lines as the walk sees them: folded to lower case when the
/// comparison is case-insensitive, verbatim otherwise.
pub open spec fn spec_cased(lines: Seq<Seq<char>>, insensitive: bool) -> Seq<Seq<char>> {
    if insensitive {
        lines.map_values(|v: Seq<char>| lower_of(v))
    } else {
        lines
    }
}

/// Apply the configured case folding to one input's lines.
fn case_lines(lines: &[String], insensitive: bool) -> (r: Vec<String>)
    ensures
        r.deep_view() == spec_cased(lines.deep_view(), insensitive),
{
    let mut out: Vec<String> = Vec::new();
    let mut i: usize = 0;
    while i < lines.len()
        invariant
            0 <= i <= lines@.len(),
            out.deep_view().len() == i,
            forall|j: int|
                0 <= j < i ==> out.deep_view()[j] == (if insensitive {
                    lower_of(lines.deep_view()[j])
                } else {
                    lines.deep_view()[j]
                }),
        decreases lines@.len() - i,
    {
        let ghost prev = out.deep_view();
        let line = vstd::slice::slice_index_get(lines, i);
        if insensitive {
            out.push(lowercase(line.as_str()));
        } else {
            out.push(line.clone());
        }
        proof {
            assert(out.deep_view() =~= prev.push(out.deep_view().last()));
            assert(lines.deep_view()[i as int] == lines@[i as int]@);
        }
        i = i + 1;
    }
    proof {
        assert(out.deep_view() =~= spec_cased(lines.deep_view(), insensitive));
    }
    out
}

fn emit_col2(v: &str, show1: bool, delim: &str) -> (r: String)
    ensures
        r@ == (if show1 {
            delim@
        } else {
            Seq::<char>::empty()
        }) + v@,
{
    let mut s = String::new();
    if show1 {
        s.append(delim);
    }
    s.append(v);
    proof {
        assert(s@ =~= (if show1 {
            delim@
        } else {
            Seq::<char>::empty()
        }) + v@);
    }
    s
}

fn emit_col3(v: &str, show1: bool, show2: bool, delim: &str) -> (r: String)
    ensures
        r@ == (if show1 {
            delim@
        } else {
            Seq::<char>::empty()
        }) + (if show2 {
            delim@
        } else {
            Seq::<char>::empty()
        }) + v@,
{
    let mut s = String::new();
    if show1 {
        s.append(delim);
    }
    if show2 {
        s.append(delim);
    }
    s.append(v);
    proof {
        assert(s@ =~= (if show1 {
            delim@
        } else {
            Seq::<char>::empty()
        }) + (if show2 {
            delim@
        } else {
            Seq::<char>::empty()
        }) + v@);
    }
    s
}

/// Walk two inputs' lines in step and emit each line in its column: while
/// both inputs have lines the walk pairs them into the third column, then
/// each input's leftover lines go to its own column.  Suppressed columns
/// emit nothing; shown columns to the left of an emitted line each
/// contribute one leading delimiter.
pub fn comm_lines(
    lines1: &[String],
    lines2: &[String],
    show1: bool,
    show2: bool,
    show3: bool,
    insensitive: bool,
    delimiter: &str,
) -> (r: Vec<String>)
    ensures
        r.deep_view() == spec_comm(
            spec_cased(lines1.deep_view(), insensitive),
            spec_cased(lines2.deep_view(), insensitive),
            show1,
            show2,
            show3,
            delimiter@,
        ),
{
    let l1 = case_lines(lines1, insensitive);
    let l2 = case_lines(lines2, insensitive);
    let ghost m1 = l1.deep_view();
    let ghost m2 = l2.deep_view();
    let mut out: Vec<String> = Vec::new();
    let mut i: usize = 0;
    let mut j: usize = 0;
    proof {
        assert(m1.skip(0) =~= m1);
        assert(m2.skip(0) =~= m2);
    }
    while i < l1.len() || j < l2.len()
        invariant
            0 <= i <= l1@.len(),
            0 <= j <= l2@.len(),
            m1 == l1.deep_view(),
            m2 == l2.deep_view(),
            spec_comm(m1, m2, show1, show2, show3, delimiter@) == out.deep_view() + spec_comm(
                m1.skip(i as int),
                m2.skip(j as int),
                show1,
                show2,
                show3,
                delimiter@,
            ),
        decreases l1@.len() - i + l2@.len() - j,
    {
        proof {
            lemma_comm_advance(m1, m2, i as int, j as int, show1, show2, show3, delimiter@);
        }
        let ghost prev = out.deep_view();
        if i < l1.len() && j < l2.len() {
            if show3 {
                let v = vstd::slice::slice_index_get(l1.as_slice(), i);
                out.push(emit_col3(v.as_str(), show1, show2, delimiter));
                proof {
                    assert(out.deep_view() =~= prev.push(out.deep_view().last()));
                }
            }
            i = i + 1;
            j = j + 1;
        } else if i < l1.len() {
            if show1 {
                let v = vstd::slice::slice_index_get(l1.as_slice(), i);
                out.push(v.clone());
                proof {
                    assert(out.deep_view() =~= prev.push(out.deep_view().last()));
                }
            }
            i = i + 1;
        } else {
            if show2 {
                let v = vstd::slice::slice_index_get(l2.as_slice(), j);
                out.push(emit_col2(v.as_str(), show1, delimiter));
                proof {
                    assert(out.deep_view() =~= prev.push(out.deep_view().last()));
                }
            }
            j = j + 1;
        }
        proof {
            assert(spec_comm(m1, m2, show1, show2, show3, delimiter@) =~= out.deep_view()
                + spec_comm(
                m1.skip(i as int),
                m2.skip(j as int),
                show1,
                show2,
                show3,
                delimiter@,
            ));
        }
    }
    proof {
        assert(m1.skip(l1@.len() as int).len() == 0);
        assert(m2.skip(l2@.len() as int).len() == 0);
        assert(out.deep_view() =~= spec_comm(m1, m2, show1, show2, show3, delimiter@));
    }
    out
}

} // verus!
