use gold_miner::settings::{parse_settings, parse_u64, split_bytes, SettingsError};

fn ok(text: &str) -> ([u8; 2], u8, u64, u64) {
    let s = parse_settings(text.as_bytes()).unwrap_or_else(|e| panic!("refused: {:?}", e));
    (s.table, s.max_number, s.refresh_rate_in_miliseconds, s.wait_then_solve_in_miliseconds)
}

fn err(text: &str) -> SettingsError {
    match parse_settings(text.as_bytes()) {
        Ok(_) => panic!("accepted"),
        Err(e) => e,
    }
}

#[test]
fn settings_are_read_line_by_line() {
    assert_eq!(
        ok("table:10x10\nmax_number:10\nrefresh:100\nwait:3000"),
        ([10, 10], 10, 100, 3000)
    );
    assert_eq!(ok("a:3x4\nb:+9\nc:0\nd:18446744073709551615\nmore lines\n"), ([3, 4], 9, 0, u64::MAX));
}

#[test]
fn settings_ignore_text_after_a_second_separator() {
    assert_eq!(ok("a:3x4x5:z\nb:9:x\nc:1:2\nd:7:"), ([3, 4], 9, 1, 7));
}

#[test]
fn settings_report_the_first_missing_or_bad_value() {
    assert_eq!(err(""), SettingsError::MissingTableSize);
    assert_eq!(err("table 3x4"), SettingsError::MissingTableSize);
    assert_eq!(err("t:x4"), SettingsError::BadRowCount);
    assert_eq!(err("t:256x4"), SettingsError::BadRowCount);
    assert_eq!(err("t:3"), SettingsError::MissingColumnCount);
    assert_eq!(err("t:3x-4"), SettingsError::BadColumnCount);
    assert_eq!(err("t:3x4"), SettingsError::MissingMaxNumber);
    assert_eq!(err("t:3x4\nm 9"), SettingsError::MissingMaxNumber);
    assert_eq!(err("t:3x4\nm:+"), SettingsError::BadMaxNumber);
    assert_eq!(err("t:3x4\nm:9"), SettingsError::MissingRefreshRate);
    assert_eq!(err("t:3x4\nm:9\nr:18446744073709551616"), SettingsError::BadRefreshRate);
    assert_eq!(err("t:3x4\nm:9\nr:5"), SettingsError::MissingWaitTime);
    assert_eq!(err("t:3x4\nm:9\nr:5\nw: 1"), SettingsError::BadWaitTime);
}

#[test]
fn settings_with_carriage_returns_are_refused() {
    assert_eq!(err("t:3x4\r\nm:9\r\nr:5\r\nw:1\r\n"), SettingsError::BadColumnCount);
}

#[test]
fn split_bytes_keeps_empty_pieces() {
    assert_eq!(split_bytes(b"a::b:", b':'), vec![b"a".to_vec(), vec![], b"b".to_vec(), vec![]]);
    assert_eq!(split_bytes(b"", b':'), vec![Vec::<u8>::new()]);
}

#[test]
fn numbers_are_an_optional_plus_and_digits() {
    assert_eq!(parse_u64(&b"007".to_vec()), Some(7));
    assert_eq!(parse_u64(&b"+12".to_vec()), Some(12));
    assert_eq!(parse_u64(&b"".to_vec()), None);
    assert_eq!(parse_u64(&b"+".to_vec()), None);
    assert_eq!(parse_u64(&b"-1".to_vec()), None);
    assert_eq!(parse_u64(&b"1 ".to_vec()), None);
    assert_eq!(parse_u64(&b"99999999999999999999".to_vec()), None);
}
