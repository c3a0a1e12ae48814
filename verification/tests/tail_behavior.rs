use cliutils::tail::{
    count_lines_bytes, error_line, format_header, get_start_index, parse_num, process_file, run,
    select_bytes, select_lines, FileInput, TakeValue,
};

#[test]
fn parse_num_defaults_to_from_end() {
    assert_eq!(parse_num("3").unwrap(), TakeValue::TakeNum(-3));
    assert_eq!(parse_num("-3").unwrap(), TakeValue::TakeNum(-3));
    assert_eq!(parse_num("+3").unwrap(), TakeValue::TakeNum(3));
}

#[test]
fn parse_num_zero_cases() {
    assert_eq!(parse_num("0").unwrap(), TakeValue::PlusZero);
    assert_eq!(parse_num("-0").unwrap(), TakeValue::PlusZero);
    assert_eq!(parse_num("+0").unwrap(), TakeValue::TakeNum(0));
}

#[test]
fn parse_num_rejects_bad_tokens() {
    assert_eq!(parse_num("3.14").unwrap_err(), "3.14");
    assert_eq!(parse_num("foo").unwrap_err(), "foo");
    assert_eq!(parse_num("").unwrap_err(), "");
    assert_eq!(parse_num("+").unwrap_err(), "+");
    assert_eq!(parse_num("3x").unwrap_err(), "3x");
}

#[test]
fn parse_num_at_the_64_bit_bounds() {
    assert_eq!(parse_num("9223372036854775807").unwrap(), TakeValue::TakeNum(-9223372036854775807));
    assert_eq!(parse_num("+9223372036854775807").unwrap(), TakeValue::TakeNum(i64::MAX));
    assert_eq!(parse_num("9223372036854775808").unwrap(), TakeValue::TakeNum(i64::MIN));
    assert_eq!(parse_num("+9223372036854775808").unwrap_err(), "+9223372036854775808");
    assert_eq!(parse_num("-9223372036854775808").unwrap(), TakeValue::TakeNum(i64::MIN));
    assert_eq!(parse_num("-9223372036854775809").unwrap_err(), "-9223372036854775809");
}

#[test]
fn resolver_whole_file_sentinel() {
    assert_eq!(get_start_index(&TakeValue::PlusZero, 0), None);
    assert_eq!(get_start_index(&TakeValue::PlusZero, 5), Some(0));
}

#[test]
fn resolver_zero_count() {
    assert_eq!(get_start_index(&TakeValue::TakeNum(0), 0), None);
    assert_eq!(get_start_index(&TakeValue::TakeNum(0), 1), None);
    assert_eq!(get_start_index(&TakeValue::TakeNum(0), 5), None);
}

#[test]
fn resolver_from_end() {
    assert_eq!(get_start_index(&TakeValue::TakeNum(-3), 5), Some(2));
    assert_eq!(get_start_index(&TakeValue::TakeNum(-10), 5), Some(0));
}

#[test]
fn resolver_from_start() {
    assert_eq!(get_start_index(&TakeValue::TakeNum(3), 5), Some(2));
    assert_eq!(get_start_index(&TakeValue::TakeNum(6), 5), None);
    assert_eq!(get_start_index(&TakeValue::TakeNum(5), 5), Some(4));
}

#[test]
fn scanner_counts_lines_and_bytes() {
    assert_eq!(count_lines_bytes(b"a\nb\nc\n"), (3, 6));
    assert_eq!(count_lines_bytes(b""), (0, 0));
    assert_eq!(count_lines_bytes(b"no newline"), (1, 10));
    assert_eq!(count_lines_bytes(b"one\ntwo"), (2, 7));
}

#[test]
fn default_count_takes_the_last_ten_lines() {
    let mut text = Vec::new();
    for i in 0..12u8 {
        text.push(b'0' + i % 10);
        text.push(b'\n');
    }
    let (total_lines, _) = count_lines_bytes(&text);
    assert_eq!(total_lines, 12);
    let out = select_lines(&text, &TakeValue::TakeNum(-10), total_lines);
    assert_eq!(out, text[4..].to_vec());

    let short = b"a\nb\nc\n";
    let out = select_lines(short, &TakeValue::TakeNum(-10), 3);
    assert_eq!(out, short.to_vec());
}

#[test]
fn scenario_last_two_lines() {
    let data = b"a\nb\nc\n";
    assert_eq!(process_file(data, &parse_num("2").unwrap(), &None), b"b\nc\n".to_vec());
    assert_eq!(process_file(data, &parse_num("+2").unwrap(), &None), b"b\nc\n".to_vec());
    // An explicit `+0` selects nothing; a bare `0` is the whole-file
    // sentinel.
    assert_eq!(process_file(data, &parse_num("+0").unwrap(), &None), b"".to_vec());
    assert_eq!(process_file(data, &parse_num("0").unwrap(), &None), data.to_vec());
}

#[test]
fn scenario_last_three_bytes() {
    let data = b"a\nb\nc\n";
    let spec = parse_num("3").unwrap();
    assert_eq!(get_start_index(&spec, 6), Some(3));
    assert_eq!(process_file(data, &TakeValue::TakeNum(-10), &Some(spec)), b"\nc\n".to_vec());
    assert_eq!(select_bytes(data, &spec, 6), b"\nc\n".to_vec());
}

#[test]
fn byte_mode_never_runs_the_line_extractor() {
    // One line of three bytes: line mode and byte mode disagree on a count
    // of -2, so the dispatch is observable.
    let data = b"abc";
    let spec = TakeValue::TakeNum(-2);
    assert_eq!(process_file(data, &spec, &Some(spec)), b"bc".to_vec());
    assert_eq!(process_file(data, &spec, &None), b"abc".to_vec());
}

#[test]
fn scenario_two_files_with_headers() {
    let inputs = vec![
        FileInput { name: "file1".to_string(), data: Ok(b"one\n".to_vec()) },
        FileInput { name: "file2".to_string(), data: Ok(b"two\n".to_vec()) },
    ];
    let (stdout, errors) = run(&inputs, &TakeValue::TakeNum(-10), &None, false);
    let expected = b"==> file1 <==\none\n\n==> file2 <==\ntwo\n".to_vec();
    assert_eq!(stdout, expected);
    assert!(errors.is_empty());
}

#[test]
fn scenario_quiet_suppresses_headers() {
    let inputs = vec![
        FileInput { name: "file1".to_string(), data: Ok(b"one\n".to_vec()) },
        FileInput { name: "file2".to_string(), data: Ok(b"two\n".to_vec()) },
    ];
    let (stdout, _) = run(&inputs, &TakeValue::TakeNum(-10), &None, true);
    assert_eq!(stdout, b"one\ntwo\n".to_vec());
}

#[test]
fn scenario_single_file_has_no_header() {
    let inputs = vec![FileInput { name: "only".to_string(), data: Ok(b"text\n".to_vec()) }];
    let (stdout, errors) = run(&inputs, &TakeValue::TakeNum(-10), &None, false);
    assert_eq!(stdout, b"text\n".to_vec());
    assert!(errors.is_empty());
}

#[test]
fn scenario_missing_file_is_skipped() {
    let inputs = vec![
        FileInput {
            name: "missing".to_string(),
            data: Err("No such file or directory (os error 2)".to_string()),
        },
        FileInput { name: "good".to_string(), data: Ok(b"a\nb\nc\n".to_vec()) },
    ];
    let (stdout, errors) = run(&inputs, &TakeValue::TakeNum(-2), &None, false);
    assert_eq!(errors, vec!["missing: No such file or directory (os error 2)"]);
    assert_eq!(stdout, b"\n==> good <==\nb\nc\n".to_vec());
}

#[test]
fn header_and_diagnostic_formats() {
    assert_eq!(format_header("notes.txt", 0), "==> notes.txt <==\n");
    assert_eq!(format_header("notes.txt", 3), "\n==> notes.txt <==\n");
    assert_eq!(error_line("notes.txt", "denied"), "notes.txt: denied");
}
