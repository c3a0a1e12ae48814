//! Calendar arguments: the year and month parsers and the month-walk dates.

use vstd::prelude::*;
use vstd::string::StringExecFns;

use chrono::Datelike;

use crate::decimal::{digits_val, int_token_digits, int_token_value, is_int_token, scan_digits};
use crate::textfmt::{
    center, join, pad_left, pad_right, spaces_string, spec_center, spec_dec_digits, spec_join,
    spec_pad_left, spec_pad_right, spec_spaces, u64_to_string,
};

verus! {

/// A calendar date as plain values.
#[derive(Clone, Copy, Debug, PartialEq, Eq, Structural)]
pub struct Date {
    pub year: i32,
    pub month: u32,
    pub day: u32,
}

/// The diagnostic for a token outside the integer grammar.
pub open spec fn spec_invalid_int(s: Seq<char>) -> Seq<char> {
    "Invalid integer: \""@ + s + "\""@
}

fn invalid_int(s: &str) -> (r: String)
    ensures
        r@ == spec_invalid_int(s@),
{
    let mut m = String::new();
    m.append("Invalid integer: \"");
    m.append(s);
    m.append("\"");
    proof {
        assert(m@ =~= spec_invalid_int(s@));
    }
    m
}

/// What parsing a signed integer argument yields: its value for a token
/// inside the grammar and the 64-bit signed range, nothing otherwise.
pub open spec fn spec_parse_int(s: Seq<char>) -> Option<int> {
    if is_int_token(s) && i64::MIN <= int_token_value(s) <= i64::MAX {
        Some(int_token_value(s))
    } else {
        None
    }
}

/// Parse a signed integer argument.
pub fn parse_int(s: &str) -> (r: Result<i64, String>)
    ensures
        r is Ok <==> spec_parse_int(s@) is Some,
        r matches Ok(n) ==> spec_parse_int(s@) == Some(n as int),
        r matches Err(e) ==> e@ == spec_invalid_int(s@),
{
    let n = s.unicode_len();
    if n == 0 {
        return Err(invalid_int(s));
    }
    let c0 = s.get_char(0);
    let start: usize = if c0 == '+' || c0 == '-' {
        1
    } else {
        0
    };
    let limit: u128 = if c0 == '-' {
        0x8000_0000_0000_0000u128
    } else {
        i64::MAX as u128
    };
    proof {
        if start == 0 {
            assert(int_token_digits(s@) =~= s@.skip(0));
        }
    }
    match scan_digits(s, start, limit) {
        Err(()) => Err(invalid_int(s)),
        Ok(mag) => {
            if c0 == '-' {
                if mag == 0x8000_0000_0000_0000u128 {
                    Ok(i64::MIN)
                } else {
                    Ok(-(mag as i64))
                }
            } else {
                Ok(mag as i64)
            }
        },
    }
}

/// The diagnostic for a year outside the supported range.
pub open spec fn spec_year_range_err(s: Seq<char>) -> Seq<char> {
    "year \""@ + s + "\" not in the range 1 through 9999"@
}

/// What parsing a year argument yields: an integer between 1 and 9999.
pub open spec fn spec_parse_year(s: Seq<char>) -> Option<int> {
    match spec_parse_int(s) {
        Some(n) => if 1 <= n <= 9999 {
            Some(n)
        } else {
            None
        },
        None => None,
    }
}

/// Parse a year argument, accepted between 1 and 9999.
pub fn parse_year(year: &str) -> (r: Result<i32, String>)
    ensures
        r is Ok <==> spec_parse_year(year@) is Some,
        r matches Ok(n) ==> spec_parse_year(year@) == Some(n as int),
        r matches Err(e) ==> e@ == (if spec_parse_int(year@) is Some {
            spec_year_range_err(year@)
        } else {
            spec_invalid_int(year@)
        }),
{
    match parse_int(year) {
        Err(e) => Err(e),
        Ok(num) => {
            if 1 <= num && num <= 9999 {
                Ok(num as i32)
            } else {
                let mut m = String::new();
                m.append("year \"");
                m.append(year);
                m.append("\" not in the range 1 through 9999");
                proof {
                    assert(m@ =~= spec_year_range_err(year@));
                }
                Err(m)
            }
        },
    }
}

/// The name of a month, first letter capitalized.
pub open spec fn spec_month_name(m: int) -> Seq<char> {
    if m == 1 {
        "January"@
    } else if m == 2 {
        "February"@
    } else if m == 3 {
        "March"@
    } else if m == 4 {
        "April"@
    } else if m == 5 {
        "May"@
    } else if m == 6 {
        "June"@
    } else if m == 7 {
        "July"@
    } else if m == 8 {
        "August"@
    } else if m == 9 {
        "September"@
    } else if m == 10 {
        "October"@
    } else if m == 11 {
        "Novmember"@
    } else {
        "December"@
    }
}

/// The name of month `m`.
pub fn month_name(m: u32) -> (r: &'static str)
    requires
        1 <= m <= 12,
    ensures
        r@ == spec_month_name(m as int),
{
    match m {
        1u32 => "January",
        2u32 => "February",
        3u32 => "March",
        4u32 => "April",
        5u32 => "May",
        6u32 => "June",
        7u32 => "July",
        8u32 => "August",
        9u32 => "September",
        10u32 => "October",
        11u32 => "Novmember",
        _ => "December",
    }
}

/// `c` with an ASCII capital folded to its small form; anything else stands
/// unchanged.
pub open spec fn spec_lower_ascii(c: char) -> char {
    if 'A' <= c && c <= 'Z' {
        ((c as u8) + 32) as char
    } else {
        c
    }
}

fn lower_ascii(c: char) -> (r: char)
    ensures
        r == spec_lower_ascii(c),
{
    if 'A' <= c && c <= 'Z' {
        ((c as u8) + 32) as char
    } else {
        c
    }
}

/// `input` is a prefix of `name`, compared with ASCII capitals folded.
pub open spec fn spec_is_name_prefix(input: Seq<char>, name: Seq<char>) -> bool {
    input.len() <= name.len() && forall|i: int|
        0 <= i < input.len() ==> spec_lower_ascii(#[trigger] input[i]) == spec_lower_ascii(name[i])
}

/// Whether `input` names a prefix of `name`, case-insensitively.
fn is_name_prefix(input: &str, name: &str) -> (r: bool)
    ensures
        r == spec_is_name_prefix(input@, name@),
{
    let n = input.unicode_len();
    if n > name.unicode_len() {
        return false;
    }
    let mut i: usize = 0;
    while i < n
        invariant
            0 <= i <= n,
            n == input@.len(),
            n <= name@.len(),
            forall|j: int|
                0 <= j < i ==> spec_lower_ascii(#[trigger] input@[j]) == spec_lower_ascii(
                    name@[j],
                ),
        decreases n - i,
    {
        let a = lower_ascii(input.get_char(i));
        let b = lower_ascii(name.get_char(i));
        if a != b {
            return false;
        }
        i = i + 1;
    }
    true
}

/// How many month names, from month `m` on, `input` is a prefix of.
pub open spec fn spec_match_count(input: Seq<char>, m: int) -> int
    decreases 13 - m,
{
    if m < 1 || m > 12 {
        0
    } else {
        (if spec_is_name_prefix(input, spec_month_name(m)) {
            1int
        } else {
            0int
        }) + spec_match_count(input, m + 1)
    }
}

/// The first month, from month `m` on, whose name `input` is a prefix of;
/// zero when there is none.
pub open spec fn spec_first_match(input: Seq<char>, m: int) -> int
    decreases 13 - m,
{
    if m < 1 || m > 12 {
        0
    } else if spec_is_name_prefix(input, spec_month_name(m)) {
        m
    } else {
        spec_first_match(input, m + 1)
    }
}

/// The diagnostic for a month number outside one through twelve.
pub open spec fn spec_month_range_err(s: Seq<char>) -> Seq<char> {
    "month \""@ + s + "\" not in the range 1 through 12"@
}

/// The diagnostic for a name that is a prefix of no month name, or of more
/// than one.
pub open spec fn spec_invalid_month(s: Seq<char>) -> Seq<char> {
    "Invalid month \""@ + s + "\""@
}

/// What parsing a month argument yields: a number one through twelve taken
/// as itself, or a name prefix that singles out one month.
pub open spec fn spec_parse_month(s: Seq<char>) -> Option<int> {
    match spec_parse_int(s) {
        Some(n) => if 1 <= n <= 12 {
            Some(n)
        } else {
            None
        },
        None => if spec_match_count(s, 1) == 1 {
            Some(spec_first_match(s, 1))
        } else {
            None
        },
    }
}

/// Parse a month argument: a number one through twelve, or a
/// case-insensitive prefix of exactly one month name.
pub fn parse_month(month: &str) -> (r: Result<u32, String>)
    ensures
        r is Ok <==> spec_parse_month(month@) is Some,
        r matches Ok(n) ==> spec_parse_month(month@) == Some(n as int),
        r matches Err(e) ==> e@ == (if spec_parse_int(month@) is Some {
            spec_month_range_err(month@)
        } else {
            spec_invalid_month(month@)
        }),
{
    match parse_int(month) {
        Ok(num) => {
            if 1 <= num && num <= 12 {
                Ok(num as u32)
            } else {
                let mut m = String::new();
                m.append("month \"");
                m.append(month);
                m.append("\" not in the range 1 through 12");
                proof {
                    assert(m@ =~= spec_month_range_err(month@));
                }
                Err(m)
            }
        },
        Err(_) => {
            let mut count: u32 = 0;
            let mut found: u32 = 0;
            let mut m: u32 = 1;
            while m <= 12
                invariant
                    1 <= m <= 13,
                    count == spec_match_count(month@, 1) - spec_match_count(month@, m as int),
                    0 <= count < m,
                    count > 0 ==> 1 <= found < m && found == spec_first_match(month@, 1),
                    count == 0 ==> spec_first_match(month@, 1) == spec_first_match(
                        month@,
                        m as int,
                    ),
                decreases 13 - m,
            {
                if is_name_prefix(month, month_name(m)) {
                    if count == 0 {
                        found = m;
                    }
                    count = count + 1;
                }
                m = m + 1;
            }
            if count == 1 {
                Ok(found)
            } else {
                let mut e = String::new();
                e.append("Invalid month \"");
                e.append(month);
                e.append("\"");
                proof {
                    assert(e@ =~= spec_invalid_month(month@));
                }
                Err(e)
            }
        },
    }
}

/// The first day of the month after `month`, which bounds the walk over the
/// month's days.
pub fn last_day_in_month(year: i32, month: u32) -> (r: Date)
    requires
        1 <= month <= 12,
        year < i32::MAX,
    ensures
        r == (if month == 12 {
            Date { year: (year + 1) as i32, month: 1u32, day: 1u32 }
        } else {
            Date { year, month: (month + 1) as u32, day: 1u32 }
        }),
{
    if month == 12 {
        Date { year: year + 1, month: 1, day: 1 }
    } else {
        Date { year, month: month + 1, day: 1 }
    }
}

/// The weekday of a month's first day, numbered from Sunday as one.  The
/// name stands for what chrono computes, a function of the date alone.
pub uninterp spec fn day_one_weekday_from_sunday(year: int, month: int) -> int;

/// Relies on chrono (`NaiveDate::from_ymd_opt`, `Datelike::weekday`,
/// `Weekday::number_from_sunday`): the weekday of a date depends on the date
/// alone, and the numbering runs from one (Sunday) through seven.
#[verifier::external_body]
fn weekday_from_sunday(year: i32, month: u32) -> (r: u32)
    requires
        1 <= year <= 9999,
        1 <= month <= 12,
    ensures
        r == day_one_weekday_from_sunday(year as int, month as int),
        1 <= r <= 7,
{
    chrono::NaiveDate::from_ymd_opt(year, month, 1).unwrap().weekday().number_from_sunday()
}

/// Relies on ansi_term (`Style::reverse`, `Style::paint`): painting with
/// the reverse style alone brackets the text between the reverse-video
/// escape and the reset escape.
#[verifier::external_body]
fn reverse_video(s: &str) -> (r: String)
    ensures
        r@ == "\u{1b}[7m"@ + s@ + "\u{1b}[0m"@,
{
    ansi_term::Style::new().reverse().paint(s).to_string()
}

/// One day cell: the day number right-aligned to two characters, shown in
/// reverse video when it is today.
pub open spec fn spec_day_cell(year: int, month: int, day: int, today: Date) -> Seq<char> {
    let cell = spec_pad_left(spec_dec_digits(day), 2);
    if year == today.year && month == today.month && day == today.day {
        "\u{1b}[7m"@ + cell + "\u{1b}[0m"@
    } else {
        cell
    }
}

/// The cells of the month walk: one two-space blank for each weekday before
/// the month's first day, then the days one through `last_day`.
pub open spec fn spec_day_cells(year: int, month: int, last_day: int, today: Date) -> Seq<
    Seq<char>,
> {
    Seq::new((day_one_weekday_from_sunday(year, month) - 1) as nat, |i: int| "  "@) + Seq::new(
        if last_day >= 0 {
            last_day as nat
        } else {
            0nat
        },
        |i: int| spec_day_cell(year, month, i + 1, today),
    )
}

/// The printed week rows: the cells seven to a row, each row its cells
/// joined by single spaces, left-aligned to twenty characters, with two
/// trailing spaces.
pub open spec fn spec_week_rows(cells: Seq<Seq<char>>) -> Seq<Seq<char>>
    decreases cells.len(),
{
    if cells.len() == 0 {
        Seq::empty()
    } else if cells.len() <= 7 {
        seq![spec_pad_right(spec_join(cells, " "@), 20) + "  "@]
    } else {
        seq![spec_pad_right(spec_join(cells.take(7), " "@), 20) + "  "@] + spec_week_rows(
            cells.skip(7),
        )
    }
}

/// The title row: the month's name, with the year behind it when asked for,
/// centred in twenty characters, with two trailing spaces.
pub open spec fn spec_month_title(year: int, month: int, print_year: bool) -> Seq<char> {
    spec_center(
        if print_year {
            spec_month_name(month) + " "@ + spec_dec_digits(year)
        } else {
            spec_month_name(month)
        },
        20,
    ) + "  "@
}

/// The rendered month: title row, weekday header, the week rows, padded
/// with 22-space rows to eight rows in all.
pub open spec fn spec_format_month(
    year: int,
    month: int,
    print_year: bool,
    last_day: int,
    today: Date,
) -> Seq<Seq<char>> {
    let rows = seq![spec_month_title(year, month, print_year), "Su Mo Tu We Th Fr Sa  "@]
        + spec_week_rows(spec_day_cells(year, month, last_day, today));
    rows + Seq::new(
        if rows.len() < 8 {
            (8 - rows.len()) as nat
        } else {
            0nat
        },
        |i: int| spec_spaces(22),
    )
}

proof fn lemma_week_rows_step(cells: Seq<Seq<char>>, idx: int)
    requires
        0 <= idx < cells.len(),
    ensures
        cells.len() - idx <= 7 ==> spec_week_rows(cells.skip(idx)) == seq![
            spec_pad_right(spec_join(cells.subrange(idx, cells.len() as int), " "@), 20) + "  "@,
        ],
        cells.len() - idx > 7 ==> spec_week_rows(cells.skip(idx)) == seq![
            spec_pad_right(spec_join(cells.subrange(idx, idx + 7), " "@), 20) + "  "@,
        ] + spec_week_rows(cells.skip(idx + 7)),
{
    assert(cells.skip(idx).len() == cells.len() - idx);
    if cells.len() - idx <= 7 {
        assert(cells.skip(idx) =~= cells.subrange(idx, cells.len() as int));
    } else {
        assert(cells.skip(idx).take(7) =~= cells.subrange(idx, idx + 7));
        assert(cells.skip(idx).skip(7) =~= cells.skip(idx + 7));
    }
}

/// Render one month's calendar page: the title and weekday header, then the
/// day cells laid out seven to a row from the month's starting weekday, the
/// walk bounded by the day number of the following month's first day; the
/// page is padded to eight rows.
pub fn format_month(year: i32, month: u32, print_year: bool, today: Date) -> (r: Vec<String>)
    requires
        1 <= year <= 9999,
        1 <= month <= 12,
    ensures
        r.deep_view() == spec_format_month(year as int, month as int, print_year, 1, today),
{
    let first_weekday = weekday_from_sunday(year, month);
    let last = last_day_in_month(year, month);
    let ghost cells = spec_day_cells(year as int, month as int, 1, today);
    let ghost blanks = (day_one_weekday_from_sunday(year as int, month as int) - 1) as nat;

    let mut days: Vec<String> = Vec::new();
    let mut i: u32 = 1;
    while i < first_weekday
        invariant
            1 <= i <= first_weekday,
            first_weekday == day_one_weekday_from_sunday(year as int, month as int),
            1 <= first_weekday <= 7,
            days.deep_view() =~= Seq::new((i - 1) as nat, |k: int| "  "@),
        decreases first_weekday - i,
    {
        let ghost prev = days.deep_view();
        days.push("  ".to_owned());
        proof {
            assert(days.deep_view() =~= prev.push("  "@));
            assert(days.deep_view() =~= Seq::new(i as nat, |k: int| "  "@));
        }
        i = i + 1;
    }
    let mut num: u32 = 1;
    while num <= last.day
        invariant
            1 <= num <= last.day + 1,
            last.day == 1,
            1 <= month <= 12,
            1 <= year <= 9999,
            first_weekday == day_one_weekday_from_sunday(year as int, month as int),
            1 <= first_weekday <= 7,
            days.deep_view() =~= Seq::new((first_weekday - 1) as nat, |k: int| "  "@) + Seq::new(
                (num - 1) as nat,
                |k: int| spec_day_cell(year as int, month as int, k + 1, today),
            ),
        decreases last.day + 1 - num,
    {
        let ghost prev = days.deep_view();
        let digits = u64_to_string(num as u64);
        let fmt = pad_left(digits.as_str(), 2);
        let cell = if year == today.year && month == today.month && num == today.day {
            reverse_video(fmt.as_str())
        } else {
            fmt
        };
        proof {
            assert(cell@ == spec_day_cell(year as int, month as int, num as int, today));
        }
        days.push(cell);
        proof {
            assert(days.deep_view() =~= prev.push(
                spec_day_cell(year as int, month as int, num as int, today),
            ));
            assert(days.deep_view() =~= Seq::new((first_weekday - 1) as nat, |k: int| "  "@)
                + Seq::new(
                num as nat,
                |k: int| spec_day_cell(year as int, month as int, k + 1, today),
            ));
        }
        num = num + 1;
    }
    proof {
        assert(days.deep_view() =~= cells);
    }

    let mut lines: Vec<String> = Vec::new();
    let mut title = month_name(month).to_owned();
    if print_year {
        title.append(" ");
        let y = u64_to_string(year as u64);
        title.append(y.as_str());
    }
    let mut row = center(title.as_str(), 20);
    row.append("  ");
    proof {
        assert(row@ =~= spec_month_title(year as int, month as int, print_year));
    }
    lines.push(row);
    lines.push("Su Mo Tu We Th Fr Sa  ".to_owned());
    let ghost head = lines.deep_view();
    proof {
        assert(head =~= seq![
            spec_month_title(year as int, month as int, print_year),
            "Su Mo Tu We Th Fr Sa  "@,
        ]);
        assert(cells.skip(0) =~= cells);
    }

    let mut idx: usize = 0;
    while idx < days.len()
        invariant
            0 <= idx <= days@.len(),
            days.deep_view() == cells,
            head.len() == 2,
            lines.deep_view().take(2) =~= head,
            lines.deep_view().len() >= 2,
            head + spec_week_rows(cells) =~= lines.deep_view() + spec_week_rows(
                cells.skip(idx as int),
            ),
        decreases days@.len() - idx,
    {
        proof {
            lemma_week_rows_step(cells, idx as int);
        }
        let end = if days.len() - idx > 7 {
            idx + 7
        } else {
            days.len()
        };
        let week = vstd::slice::slice_subrange(days.as_slice(), idx, end);
        let joined = join(week, " ");
        let mut row = pad_right(joined.as_str(), 20);
        row.append("  ");
        let ghost prev = lines.deep_view();
        proof {
            assert(week.deep_view() =~= cells.subrange(idx as int, end as int));
        }
        lines.push(row);
        proof {
            assert(lines.deep_view() =~= prev.push(
                spec_pad_right(spec_join(cells.subrange(idx as int, end as int), " "@), 20)
                    + "  "@,
            ));
            assert(lines.deep_view().take(2) =~= head);
            assert(head + spec_week_rows(cells) =~= lines.deep_view() + spec_week_rows(
                cells.skip(end as int),
            ));
        }
        idx = end;
    }
    proof {
        assert(cells.skip(days@.len() as int).len() == 0);
        assert(lines.deep_view() =~= head + spec_week_rows(cells));
    }
    let ghost rows = head + spec_week_rows(cells);
    while lines.len() < 8
        invariant
            lines.deep_view().len() >= rows.len(),
            lines.deep_view().len() <= 8 || lines.deep_view().len() == rows.len(),
            lines.deep_view().take(rows.len() as int) =~= rows,
            forall|k: int|
                rows.len() <= k < lines.deep_view().len() ==> lines.deep_view()[k] == spec_spaces(
                    22,
                ),
        decreases 8 - lines.len(),
    {
        let ghost prev = lines.deep_view();
        let pad = spaces_string(22);
        lines.push(pad);
        proof {
            assert(lines.deep_view() =~= prev.push(spec_spaces(22)));
        }
    }
    proof {
        assert(lines.deep_view() =~= spec_format_month(
            year as int,
            month as int,
            print_year,
            1,
            today,
        ));
    }
    lines
}

/// One band of the year page: the rows of three month pages side by side.
pub open spec fn spec_band(months: Seq<Seq<Seq<char>>>, b: int) -> Seq<Seq<char>> {
    Seq::new(8nat, |i: int| months[3 * b][i] + months[3 * b + 1][i] + months[3 * b + 2][i])
}

/// The year page up to band `b`: the year right-aligned to thirty-two
/// characters, then each band of three months, a blank line after every
/// band but the last.
pub open spec fn spec_year_prefix(year: int, months: Seq<Seq<Seq<char>>>, b: int) -> Seq<Seq<char>>
    decreases b,
{
    if b <= 0 {
        seq![spec_pad_left(spec_dec_digits(year), 32)]
    } else {
        spec_year_prefix(year, months, b - 1) + spec_band(months, b - 1) + (if b - 1 < 3 {
            seq![Seq::<char>::empty()]
        } else {
            Seq::<Seq<char>>::empty()
        })
    }
}

/// The whole year page: four bands of three months.
pub open spec fn spec_format_year(year: int, months: Seq<Seq<Seq<char>>>) -> Seq<Seq<char>> {
    spec_year_prefix(year, months, 4)
}

/// Lay the twelve rendered month pages out as one year page: the year as a
/// heading, then the months three abreast in four bands, a blank line after
/// each band but the last.
pub fn format_year(year: i32, months: &Vec<Vec<String>>) -> (r: Vec<String>)
    requires
        1 <= year <= 9999,
        months.deep_view().len() == 12,
        forall|i: int| 0 <= i < 12 ==> (#[trigger] months.deep_view()[i]).len() == 8,
    ensures
        r.deep_view() == spec_format_year(year as int, months.deep_view()),
{
    let ghost m = months.deep_view();
    let mut lines: Vec<String> = Vec::new();
    let digits = u64_to_string(year as u64);
    lines.push(pad_left(digits.as_str(), 32));
    proof {
        assert(lines.deep_view() =~= spec_year_prefix(year as int, m, 0));
    }
    let mut b: usize = 0;
    while b < 4
        invariant
            0 <= b <= 4,
            m == months.deep_view(),
            m.len() == 12,
            forall|i: int| 0 <= i < 12 ==> (#[trigger] m[i]).len() == 8,
            lines.deep_view() == spec_year_prefix(year as int, m, b as int),
        decreases 4 - b,
    {
        let ghost base = lines.deep_view();
        let mut i: usize = 0;
        while i < 8
            invariant
                0 <= i <= 8,
                b < 4,
                m == months.deep_view(),
                m.len() == 12,
                forall|k: int| 0 <= k < 12 ==> (#[trigger] m[k]).len() == 8,
                lines.deep_view() =~= base + spec_band(m, b as int).take(i as int),
            decreases 8 - i,
        {
            let ghost prev = lines.deep_view();
            let mut row = String::new();
            let p1 = vstd::slice::slice_index_get(months.as_slice(), 3 * b);
            let p2 = vstd::slice::slice_index_get(months.as_slice(), 3 * b + 1);
            let p3 = vstd::slice::slice_index_get(months.as_slice(), 3 * b + 2);
            row.append(vstd::slice::slice_index_get(p1.as_slice(), i).as_str());
            row.append(vstd::slice::slice_index_get(p2.as_slice(), i).as_str());
            row.append(vstd::slice::slice_index_get(p3.as_slice(), i).as_str());
            proof {
                assert(row@ =~= m[3 * (b as int)][i as int] + m[3 * (b as int) + 1][i as int] + m[3
                    * (b as int) + 2][i as int]);
            }
            lines.push(row);
            proof {
                assert(lines.deep_view() =~= prev.push(spec_band(m, b as int)[i as int]));
                assert(lines.deep_view() =~= base + spec_band(m, b as int).take(i + 1));
            }
            i = i + 1;
        }
        proof {
            assert(spec_band(m, b as int).take(8) =~= spec_band(m, b as int));
        }
        if b < 3 {
            let ghost prev = lines.deep_view();
            lines.push(String::new());
            proof {
                assert(lines.deep_view() =~= prev.push(Seq::<char>::empty()));
            }
        }
        proof {
            assert(lines.deep_view() =~= spec_year_prefix(year as int, m, b + 1));
        }
        b = b + 1;
    }
    lines
}

} // verus!
