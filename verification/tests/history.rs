use zsh_history::history::{HistoryEntry, HistoryError};

fn entry(start: u64, finish: u64, command: &str) -> HistoryEntry {
    HistoryEntry { start_time: start, finish_time: finish, command: command.to_string() }
}

#[test]
fn test_entry_to_line_simple() {
    let e = entry(123, 456, "echo 123456");
    assert_eq!(e.to_bytes(), b": 123:333;echo 123456\n".to_vec());
}

#[test]
fn test_line_to_entry_simple() {
    let parsed = HistoryEntry::parse(b": 123:333;echo 123456\n").unwrap();
    assert_eq!(parsed, entry(123, 456, "echo 123456"));
}

#[test]
fn test_entry_to_line_sleep() {
    let e = entry(1639320933, 1639320935, "sleep 2");
    assert_eq!(e.to_bytes(), b": 1639320933:2;sleep 2\n".to_vec());
}

#[test]
fn test_line_to_entry_sleep() {
    let parsed = HistoryEntry::parse(b": 1639320933:2;sleep 2\n").unwrap();
    assert_eq!(parsed, entry(1639320933, 1639320935, "sleep 2"));
}

#[test]
fn test_entry_to_line_trailing_backslash() {
    // a command ending in a real backslash gains one marker space
    let e = entry(1639322528, 1639322528, "echo \\");
    assert_eq!(e.to_bytes(), b": 1639322528:0;echo \\ \n".to_vec());
}

#[test]
fn test_line_to_entry_trailing_backslash() {
    let parsed = HistoryEntry::parse(b": 1639322528:0;echo \\ \n").unwrap();
    assert_eq!(parsed, entry(1639322528, 1639322528, "echo \\"));
}

#[test]
fn test_entry_to_line_multi_line() {
    let e = entry(1111, 1111, "echo one \\\n  echo two");
    assert_eq!(e.to_bytes(), b": 1111:0;echo one \\\\\n  echo two\n".to_vec());
}

#[test]
fn test_line_to_entry_multi_line() {
    let parsed = HistoryEntry::parse(b": 1111:0;echo one \\\\\n  echo two\n").unwrap();
    assert_eq!(parsed, entry(1111, 1111, "echo one \\\n  echo two"));
}

#[test]
fn test_entry_to_line_multi_line_trailing_spaces() {
    let e = entry(1, 1, "echo \n1\n2\\  ");
    assert_eq!(e.to_bytes(), b": 1:0;echo \\\n1\\\n2\\   \n".to_vec());
}

#[test]
fn test_line_to_entry_multi_line_trailing_spaces() {
    let parsed = HistoryEntry::parse(b": 1:0;echo \\\n1\\\n2\\   \n").unwrap();
    assert_eq!(parsed, entry(1, 1, "echo \n1\n2\\  "));
}

#[test]
fn test_entry_to_line_meta() {
    // multi-byte command: its high bytes are escaped on disk
    let e = entry(1, 1, "echo ペンギン");
    let line = vec![
        58, 32, 49, 58, 48, 59, 101, 99, 104, 111, 32, 227, 131, 163, 131, 186, 227, 131, 163,
        179, 227, 130, 174, 227, 131, 163, 179, 10,
    ];
    assert_eq!(e.to_bytes(), line);
}

#[test]
fn test_line_to_entry_meta() {
    let line = vec![
        58, 32, 49, 58, 48, 59, 101, 99, 104, 111, 32, 227, 131, 163, 131, 186, 227, 131, 163,
        179, 227, 130, 174, 227, 131, 163, 179, 10,
    ];
    let parsed = HistoryEntry::parse(&line).unwrap();
    assert_eq!(parsed, entry(1, 1, "echo ペンギン"));
}

#[test]
fn test_parse_rejects_non_numeric_timestamp() {
    // a non-numeric timestamp must fail, not coerce to 0
    assert_eq!(HistoryEntry::parse(b": abc:0;cmd\n"), Err(HistoryError::Malformed));
}

#[test]
fn test_parse_rejects_missing_prefix() {
    assert_eq!(HistoryEntry::parse(b"123:0;x\n"), Err(HistoryError::Malformed));
    assert_eq!(HistoryEntry::parse(b":1:0;x\n"), Err(HistoryError::Malformed));
    assert_eq!(HistoryEntry::parse(b""), Err(HistoryError::Malformed));
}

#[test]
fn test_parse_rejects_empty_digit_run() {
    assert_eq!(HistoryEntry::parse(b": :0;x\n"), Err(HistoryError::Malformed));
    assert_eq!(HistoryEntry::parse(b": 1:;x\n"), Err(HistoryError::Malformed));
}

#[test]
fn test_parse_rejects_missing_delimiters() {
    assert_eq!(HistoryEntry::parse(b": 1 0;x\n"), Err(HistoryError::Malformed));
    assert_eq!(HistoryEntry::parse(b": 1:0 x\n"), Err(HistoryError::Malformed));
}

#[test]
fn test_parse_rejects_oversized_number() {
    // more than u64::MAX
    assert_eq!(
        HistoryEntry::parse(b": 99999999999999999999:0;x\n"),
        Err(HistoryError::Malformed)
    );
    // start plus duration overflows
    assert_eq!(
        HistoryEntry::parse(b": 18446744073709551615:1;x\n"),
        Err(HistoryError::Malformed)
    );
}

#[test]
fn test_parse_accepts_max_timestamp() {
    let parsed = HistoryEntry::parse(b": 18446744073709551615:0;x\n").unwrap();
    assert_eq!(parsed, entry(u64::MAX, u64::MAX, "x"));
}

#[test]
fn test_parse_rejects_missing_terminator() {
    assert_eq!(HistoryEntry::parse(b": 1:0;echo"), Err(HistoryError::Malformed));
}

#[test]
fn test_parse_rejects_trailing_input() {
    assert_eq!(HistoryEntry::parse(b": 1:0;echo\nextra"), Err(HistoryError::Malformed));
}

#[test]
fn test_parse_rejects_dangling_escape() {
    // the escape marker as the last body byte marks a corrupt record
    assert_eq!(HistoryEntry::parse(b": 1:0;a\x83\n"), Err(HistoryError::DanglingMeta));
}

#[test]
fn test_parse_rejects_invalid_utf8() {
    assert_eq!(HistoryEntry::parse(b": 1:0;\xff\n"), Err(HistoryError::InvalidUtf8));
}

#[test]
fn test_parse_empty_command() {
    let parsed = HistoryEntry::parse(b": 7:0;\n").unwrap();
    assert_eq!(parsed, entry(7, 7, ""));
}
