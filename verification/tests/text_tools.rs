use cliutils::cal::{format_month, last_day_in_month, month_name, parse_int, parse_month, parse_year, Date};
use cliutils::cat::cat_lines;
use cliutils::comm::comm_lines;
use cliutils::cut::{extract_bytes, extract_chars, parse_index};
use cliutils::find::{entry_type_matches, EntryType};
use cliutils::fortune::{
    dedup_files, fortunes_from_lines, parse_u64, pick_fortunes, sort_files, str_le, Fortune,
};
use cliutils::head::{head_bytes, head_lines, parse_positive_int};
use cliutils::ls::{format_mode, is_hidden_name, mk_triple, Owner};
use cliutils::textfmt::{center, join, pad_left, pad_right, u64_to_string};
use cliutils::uniq::uniq_lines;
use cliutils::wc::{count, format_count_line, format_field, FileInfo};

#[test]
fn count_edge_cases() {
    assert_eq!(count(""), FileInfo { num_lines: 0, num_words: 0, num_bytes: 0, num_chars: 0 });
    assert_eq!(count("a b\nc\n"), FileInfo { num_lines: 2, num_words: 3, num_bytes: 6, num_chars: 6 });
    assert_eq!(count("no newline"), FileInfo {
        num_lines: 1,
        num_words: 2,
        num_bytes: 10,
        num_chars: 10,
    });
    // A multi-byte character counts once as a character.
    assert_eq!(count("é\n"), FileInfo { num_lines: 1, num_words: 1, num_bytes: 3, num_chars: 2 });
}

#[test]
fn count_columns_format() {
    assert_eq!(format_field(1, false), "");
    assert_eq!(format_field(3, true), "       3");
    assert_eq!(format_field(10, true), "      10");
    let info = FileInfo { num_lines: 1, num_words: 10, num_bytes: 48, num_chars: 48 };
    assert_eq!(
        format_count_line(&info, true, true, true, false, "in.txt"),
        "       1      10      48 in.txt"
    );
    assert_eq!(format_count_line(&info, true, false, false, false, "-"), "       1");
}

#[test]
fn totals_accumulate() {
    let mut totals = FileInfo { num_lines: 0, num_words: 0, num_bytes: 0, num_chars: 0 };
    cliutils::wc::tally(&mut totals, &count("a b\n"));
    cliutils::wc::tally(&mut totals, &count("c\n"));
    assert_eq!(totals, FileInfo { num_lines: 2, num_words: 3, num_bytes: 6, num_chars: 6 });
}

#[test]
fn permission_triples() {
    assert_eq!(mk_triple(0o751, Owner::User), "rwx");
    assert_eq!(mk_triple(0o751, Owner::Group), "r-x");
    assert_eq!(mk_triple(0o751, Owner::Other), "--x");
    assert_eq!(mk_triple(0o600, Owner::Other), "---");
    assert_eq!(format_mode(0o755), "rwxr-xr-x");
    assert_eq!(format_mode(0o421), "r---w---x");
    assert_eq!(Owner::User.masks(), [0o400, 0o200, 0o100]);
    assert_eq!(Owner::Group.masks(), [0o040, 0o020, 0o010]);
    assert_eq!(Owner::Other.masks(), [0o004, 0o002, 0o001]);
}

#[test]
fn hidden_names() {
    assert!(is_hidden_name(".git"));
    assert!(!is_hidden_name("src"));
    assert!(!is_hidden_name(""));
}

#[test]
fn year_and_month_parsing() {
    assert_eq!(parse_int("42").unwrap(), 42);
    assert_eq!(parse_int("-7").unwrap(), -7);
    assert_eq!(parse_int("foo").unwrap_err(), "Invalid integer: \"foo\"");

    assert_eq!(parse_year("2023").unwrap(), 2023);
    assert_eq!(parse_year("1").unwrap(), 1);
    assert_eq!(parse_year("9999").unwrap(), 9999);
    assert_eq!(parse_year("0").unwrap_err(), "year \"0\" not in the range 1 through 9999");
    assert_eq!(parse_year("10000").unwrap_err(), "year \"10000\" not in the range 1 through 9999");
    assert_eq!(parse_year("foo").unwrap_err(), "Invalid integer: \"foo\"");

    assert_eq!(parse_month("1").unwrap(), 1);
    assert_eq!(parse_month("12").unwrap(), 12);
    assert_eq!(parse_month("jan").unwrap(), 1);
    assert_eq!(parse_month("SEP").unwrap(), 9);
    assert_eq!(parse_month("nov").unwrap(), 11);
    assert_eq!(parse_month("0").unwrap_err(), "month \"0\" not in the range 1 through 12");
    assert_eq!(parse_month("13").unwrap_err(), "month \"13\" not in the range 1 through 12");
    assert_eq!(parse_month("ju").unwrap_err(), "Invalid month \"ju\"");
    assert_eq!(parse_month("").unwrap_err(), "Invalid month \"\"");
}

#[test]
fn month_page_layout() {
    // April 2023 begins on a Saturday, six blank cells in.
    let elsewhere = Date { year: 2023, month: 1, day: 1 };
    let lines = format_month(2023, 4, true, elsewhere);
    assert_eq!(lines.len(), 8);
    assert_eq!(lines[0], "     April 2023       ");
    assert_eq!(lines[1], "Su Mo Tu We Th Fr Sa  ");
    assert_eq!(lines[2], "                   1  ");
    for line in &lines[3..] {
        assert_eq!(line, &" ".repeat(22));
    }
    // Today's cell is shown in reverse video.
    let today = Date { year: 2023, month: 4, day: 1 };
    let lines = format_month(2023, 4, false, today);
    assert_eq!(lines[0], "       April          ");
    assert_eq!(lines[2], "                  \u{1b}[7m 1\u{1b}[0m  ");
}

#[test]
fn year_page_layout() {
    let elsewhere = Date { year: 1, month: 1, day: 1 };
    let months: Vec<Vec<String>> =
        (1u32..=12).map(|m| format_month(2023, m, false, elsewhere)).collect();
    let lines = cliutils::cal::format_year(2023, &months);
    assert_eq!(lines.len(), 1 + 4 * 8 + 3);
    assert_eq!(lines[0], format!("{:>32}", 2023));
    assert_eq!(lines[1], format!("{}{}{}", months[0][0], months[1][0], months[2][0]));
    assert_eq!(lines[9], "");
    assert_eq!(
        lines[lines.len() - 1],
        format!("{}{}{}", months[9][7], months[10][7], months[11][7])
    );
}

#[test]
fn file_list_ordering() {
    assert!(str_le("apple", "banana"));
    assert!(str_le("app", "apple"));
    assert!(!str_le("banana", "apple"));
    assert!(str_le("same", "same"));

    let mut files: Vec<String> = vec!["b/two.txt", "a/one.txt", "b/two.txt", "a/zed.txt"]
        .into_iter()
        .map(String::from)
        .collect();
    sort_files(&mut files);
    assert_eq!(files, vec!["a/one.txt", "a/zed.txt", "b/two.txt", "b/two.txt"]);
    dedup_files(&mut files);
    assert_eq!(files, vec!["a/one.txt", "a/zed.txt", "b/two.txt"]);

    let mut empty: Vec<String> = Vec::new();
    sort_files(&mut empty);
    dedup_files(&mut empty);
    assert!(empty.is_empty());
}

#[test]
fn month_walk_dates() {
    assert_eq!(month_name(11), "Novmember");
    assert_eq!(month_name(1), "January");
    assert_eq!(last_day_in_month(2023, 4), Date { year: 2023, month: 5, day: 1 });
    assert_eq!(last_day_in_month(2023, 12), Date { year: 2024, month: 1, day: 1 });
}

#[test]
fn positive_count_parsing() {
    assert_eq!(parse_positive_int("3").unwrap(), 3);
    assert_eq!(parse_positive_int("+3").unwrap(), 3);
    assert_eq!(parse_positive_int("0").unwrap_err(), "0");
    assert_eq!(parse_positive_int("foo").unwrap_err(), "foo");
    assert_eq!(parse_positive_int("-1").unwrap_err(), "-1");
}

#[test]
fn leading_windows() {
    assert_eq!(head_lines(b"a\nb\nc\n", 2), b"a\nb\n".to_vec());
    assert_eq!(head_lines(b"a\nb\nc\n", 10), b"a\nb\nc\n".to_vec());
    assert_eq!(head_lines(b"no newline", 1), b"no newline".to_vec());
    assert_eq!(head_bytes(b"abc", 2), b"ab".to_vec());
    assert_eq!(head_bytes(b"abc", 10), b"abc".to_vec());
}

#[test]
fn character_extraction() {
    assert_eq!(extract_chars("", &[0..1]), "");
    assert_eq!(extract_chars("ábc", &[0..1]), "á");
    assert_eq!(extract_chars("ábc", &[0..1, 2..3]), "ác");
    assert_eq!(extract_chars("ábc", &[0..3]), "ábc");
    assert_eq!(extract_chars("ábc", &[2..3, 1..2]), "cb");
    assert_eq!(extract_chars("ábc", &[0..1, 1..2, 4..5]), "áb");
}

#[test]
fn byte_extraction_is_lossy() {
    assert_eq!(extract_bytes("ábc", &[0..1]), "�");
    assert_eq!(extract_bytes("ábc", &[0..2]), "á");
    assert_eq!(extract_bytes("ábc", &[0..3]), "áb");
    assert_eq!(extract_bytes("ábc", &[0..4]), "ábc");
    assert_eq!(extract_bytes("abc", &[3..4]), "");
}

#[test]
fn index_parsing() {
    assert_eq!(parse_index("1").unwrap(), 0);
    assert_eq!(parse_index("20").unwrap(), 19);
    assert_eq!(parse_index("0").unwrap_err(), "illegal list value: \"0\"");
    assert_eq!(parse_index("+1").unwrap_err(), "illegal list value: \"+1\"");
    assert_eq!(parse_index("a").unwrap_err(), "illegal list value: \"a\"");
}

#[test]
fn seed_parsing() {
    assert_eq!(parse_u64("42").unwrap(), 42);
    assert_eq!(parse_u64("+42").unwrap(), 42);
    assert_eq!(parse_u64("0").unwrap(), 0);
    assert_eq!(parse_u64("-1").unwrap_err(), "\"-1\" not a valid integer");
    assert_eq!(parse_u64("blah").unwrap_err(), "\"blah\" not a valid integer");
}

#[test]
fn fortunes_are_split_on_percent_lines() {
    let lines: Vec<String> = vec![
        "You can observe a lot",
        "just by watching.",
        "%",
        "%",
        "A tale never loses in the telling.",
        "%",
        "left open",
    ]
    .into_iter()
    .map(String::from)
    .collect();
    let mut fortunes: Vec<Fortune> = Vec::new();
    let mut buffer: Vec<String> = Vec::new();
    fortunes_from_lines("sayings", &lines, &mut fortunes, &mut buffer);
    assert_eq!(fortunes.len(), 2);
    assert_eq!(fortunes[0].source, "sayings");
    assert_eq!(fortunes[0].text, "You can observe a lot\njust by watching.");
    assert_eq!(fortunes[1].text, "A tale never loses in the telling.");
    assert_eq!(buffer, vec!["left open"]);
}

#[test]
fn picking_from_fortunes() {
    let fortunes = vec![Fortune { source: "f".to_string(), text: "only one".to_string() }];
    assert_eq!(pick_fortunes(&fortunes, Some(1)).unwrap(), "only one");
    assert_eq!(pick_fortunes(&fortunes, None).unwrap(), "only one");
    assert_eq!(pick_fortunes(&[], Some(1)), None);
    let many = vec![
        Fortune { source: "f".to_string(), text: "a".to_string() },
        Fortune { source: "f".to_string(), text: "b".to_string() },
    ];
    let picked = pick_fortunes(&many, Some(7)).unwrap();
    assert!(picked == "a" || picked == "b");
}

#[test]
fn pattern_report_groups_by_source() {
    let fortunes = vec![
        Fortune { source: "a".to_string(), text: "first".to_string() },
        Fortune { source: "a".to_string(), text: "second".to_string() },
        Fortune { source: "b".to_string(), text: "third".to_string() },
    ];
    let (out, diag) = cliutils::fortune::format_matches(&fortunes, &[true, false, true]);
    assert_eq!(out, "first\n%\nthird\n%\n");
    assert_eq!(diag, "(a)\n%\n(b)\n%\n");
    let (out, diag) = cliutils::fortune::format_matches(&fortunes, &[true, true, false]);
    assert_eq!(out, "first\n%\nsecond\n%\n");
    assert_eq!(diag, "(a)\n%\n");

    let re = regex::Regex::new("ir").unwrap();
    let (out, diag) = cliutils::fortune::pattern_report(&fortunes, &re);
    assert_eq!(out, "first\n%\nthird\n%\n");
    assert_eq!(diag, "(a)\n%\n(b)\n%\n");
}

#[test]
fn folding_duplicate_lines() {
    let lines: Vec<String> = vec!["a\n", "a\n", "b\n", "a\n"].into_iter().map(String::from).collect();
    assert_eq!(uniq_lines(&lines, false), "a\nb\na\n");
    assert_eq!(uniq_lines(&lines, true), "   2 a\n   1 b\n   1 a\n");
    assert_eq!(uniq_lines(&[], true), "");
    // Trailing whitespace does not separate a group; the group's first
    // line is the one kept.
    let lines: Vec<String> = vec!["x  \n", "x\n"].into_iter().map(String::from).collect();
    assert_eq!(uniq_lines(&lines, true), "   2 x  \n");
}

#[test]
fn numbering_lines() {
    let lines: Vec<String> = vec!["hello", "", "world"].into_iter().map(String::from).collect();
    assert_eq!(cat_lines(&lines, false, false), vec!["hello", "", "world"]);
    assert_eq!(cat_lines(&lines, true, false), vec![
        "     1\thello",
        "     2\t",
        "     3\tworld",
    ]);
    assert_eq!(cat_lines(&lines, false, true), vec!["     1\thello", "", "     2\tworld"]);
}

#[test]
fn comparing_two_inputs() {
    let l1: Vec<String> = vec!["a", "b"].into_iter().map(String::from).collect();
    let l2: Vec<String> = vec!["c"].into_iter().map(String::from).collect();
    assert_eq!(comm_lines(&l1, &l2, true, true, true, false, "\t"), vec!["\t\ta", "b"]);
    assert_eq!(comm_lines(&l1, &l2, false, true, true, false, "\t"), vec!["\ta"]);
    assert_eq!(comm_lines(&l1, &l2, true, false, false, false, "\t"), vec!["b"]);
    // Case folding is applied to the emitted lines themselves.
    let u1: Vec<String> = vec!["A"].into_iter().map(String::from).collect();
    let u2: Vec<String> = Vec::new();
    assert_eq!(comm_lines(&u1, &u2, true, true, true, true, "\t"), vec!["a"]);
    assert_eq!(comm_lines(&u1, &u2, true, true, true, false, "\t"), vec!["A"]);
}

#[test]
fn entry_type_selection() {
    assert!(entry_type_matches(&[], false, false, false));
    assert!(entry_type_matches(&[EntryType::Dir], true, false, false));
    assert!(!entry_type_matches(&[EntryType::Dir], false, true, false));
    assert!(entry_type_matches(&[EntryType::Dir, EntryType::Link], false, false, true));
    assert!(!entry_type_matches(&[EntryType::File], false, false, true));
}

#[test]
fn field_layout() {
    assert_eq!(u64_to_string(0), "0");
    assert_eq!(u64_to_string(1234), "1234");
    assert_eq!(pad_left("ab", 4), "  ab");
    assert_eq!(pad_left("abcde", 4), "abcde");
    assert_eq!(pad_right("ab", 4), "ab  ");
    assert_eq!(center("ab", 5), " ab  ");
    assert_eq!(center("month", 3), "month");
    let parts: Vec<String> = vec!["a", "b", "c"].into_iter().map(String::from).collect();
    assert_eq!(join(&parts, ", "), "a, b, c");
    assert_eq!(join(&[], ", "), "");
}
