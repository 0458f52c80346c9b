use zsh_history::history::HistoryEntry;
use zsh_history::meta::{metafy, unmetafy};

fn entry(start: u64, finish: u64, command: &str) -> HistoryEntry {
    HistoryEntry { start_time: start, finish_time: finish, command: command.to_string() }
}

fn assert_entry_round_trips(e: HistoryEntry) {
    let line = e.to_bytes();
    let parsed = HistoryEntry::parse(&line).unwrap();
    assert_eq!(parsed, e);
}

#[test]
fn test_round_trip_plain() {
    assert_entry_round_trips(entry(123, 456, "echo 123456"));
}

#[test]
fn test_round_trip_empty_command() {
    assert_entry_round_trips(entry(0, 0, ""));
}

#[test]
fn test_round_trip_newlines() {
    assert_entry_round_trips(entry(1, 2, "a\nb\nc"));
    assert_entry_round_trips(entry(1, 2, "\n"));
    assert_entry_round_trips(entry(1, 2, "\n\n\n"));
}

#[test]
fn test_round_trip_backslashes() {
    assert_entry_round_trips(entry(1, 2, "\\"));
    assert_entry_round_trips(entry(1, 2, "\\ "));
    assert_entry_round_trips(entry(1, 2, "\\  \\   "));
    assert_entry_round_trips(entry(1, 2, "echo \\\n\\"));
    assert_entry_round_trips(entry(1, 2, "a\\\nb"));
}

#[test]
fn test_round_trip_unicode() {
    assert_entry_round_trips(entry(9, 9, "echo ペンギン"));
    assert_entry_round_trips(entry(9, 9, "🐲 👨‍👨‍👧‍👦"));
    assert_entry_round_trips(entry(9, 9, "naïve café ☕"));
}

#[test]
fn test_round_trip_extreme_times() {
    assert_entry_round_trips(entry(0, u64::MAX, "x"));
    assert_entry_round_trips(entry(u64::MAX, u64::MAX, "x"));
}

#[test]
fn test_round_trip_spaces_only() {
    assert_entry_round_trips(entry(3, 4, "   "));
}

#[test]
fn test_meta_round_trip_bytes() {
    let samples: Vec<Vec<u8>> = vec![
        Vec::new(),
        vec![0x00],
        vec![0x83, 0x83, 0x83],
        vec![0xA2, 0x84, 0x9C, 0x9D, 0xA1],
        b"plain ascii".to_vec(),
        "echo ペンギン".as_bytes().to_vec(),
    ];
    for x in samples {
        assert_eq!(unmetafy(&metafy(&x)), Some(x));
    }
}
