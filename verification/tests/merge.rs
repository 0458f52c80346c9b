use zsh_history::history::HistoryEntry;
use zsh_history::lines::HistoryLines;
use zsh_history::merge::merge_entries;

fn entry(start: u64, finish: u64, command: &str) -> HistoryEntry {
    HistoryEntry { start_time: start, finish_time: finish, command: command.to_string() }
}

#[test]
fn test_merge_keeps_arrival_order_on_ties() {
    // file A holds t=10 and t=30, file B holds t=10 and t=20;
    // the t=10 tie keeps A before B because A's entries arrived first
    let arrivals = vec![
        entry(10, 10, "a first"),
        entry(30, 30, "a second"),
        entry(10, 10, "b first"),
        entry(20, 20, "b second"),
    ];
    let merged = merge_entries(arrivals);
    assert_eq!(
        merged,
        vec![
            entry(10, 10, "a first"),
            entry(10, 10, "b first"),
            entry(20, 20, "b second"),
            entry(30, 30, "a second"),
        ]
    );
}

#[test]
fn test_merge_empty() {
    assert_eq!(merge_entries(Vec::new()), Vec::new());
}

#[test]
fn test_merge_single() {
    let merged = merge_entries(vec![entry(5, 6, "only")]);
    assert_eq!(merged, vec![entry(5, 6, "only")]);
}

#[test]
fn test_merge_already_sorted() {
    let sorted = vec![entry(1, 1, "a"), entry(2, 2, "b"), entry(3, 3, "c")];
    assert_eq!(merge_entries(sorted.clone()), sorted);
}

#[test]
fn test_merge_reversed() {
    let merged = merge_entries(vec![entry(3, 3, "c"), entry(2, 2, "b"), entry(1, 1, "a")]);
    assert_eq!(merged, vec![entry(1, 1, "a"), entry(2, 2, "b"), entry(3, 3, "c")]);
}

#[test]
fn test_merge_two_files_end_to_end() {
    // the full pipeline: split, parse, merge, re-encode
    let file_a = b": 10:0;echo a one\n: 30:0;echo a two\n".to_vec();
    let file_b = b": 10:0;echo b one\n: 20:0;echo b two\n".to_vec();
    let mut arrivals = Vec::new();
    for file in [file_a, file_b] {
        let mut lines = HistoryLines::new(file);
        while let Some(line) = lines.next() {
            arrivals.push(HistoryEntry::parse(&line).unwrap());
        }
    }
    let merged = merge_entries(arrivals);
    let mut out = Vec::new();
    for e in &merged {
        out.extend_from_slice(&e.to_bytes());
    }
    let expected = b": 10:0;echo a one\n: 10:0;echo b one\n: 20:0;echo b two\n: 30:0;echo a two\n";
    assert_eq!(out, expected.to_vec());
}
