use zsh_history::lines::HistoryLines;

fn collect_lines(input: &str) -> Vec<String> {
    let mut lines = HistoryLines::new(input.as_bytes().to_vec());
    let mut out = Vec::new();
    while let Some(line) = lines.next() {
        out.push(String::from_utf8(line).unwrap());
    }
    out
}

#[test]
fn test_history_lines_simple() {
    let histories = [
        ": 1639324265:0;echo 1 2 3",
        ": 1639324275:0;echo \"\"",
        ": 1639324281:0;echo {1,2,3}",
        "",
    ]
    .join("\n");
    assert_eq!(
        collect_lines(&histories),
        vec![
            ": 1639324265:0;echo 1 2 3\n".to_string(),
            ": 1639324275:0;echo \"\"\n".to_string(),
            ": 1639324281:0;echo {1,2,3}\n".to_string(),
        ]
    );
}

#[test]
fn test_history_lines_continuations() {
    let histories = [
        ": 1639320933:0;echo one \\ ",
        ": 1639322528:0;echo two \\\\ ",
        ": 1639320933:0;echo one \\",
        ": 1639322528:0;echo two \\\\ ",
        ": 1639322832:0;echo 2 \\\\",
        " 2 \\\\",
        " 1 \\ ",
        ": 1639322528:0;echo",
        "",
    ]
    .join("\n");
    assert_eq!(
        collect_lines(&histories),
        vec![
            ": 1639320933:0;echo one \\ \n".to_string(),
            ": 1639322528:0;echo two \\\\ \n".to_string(),
            ": 1639320933:0;echo one \\\n: 1639322528:0;echo two \\\\ \n".to_string(),
            ": 1639322832:0;echo 2 \\\\\n 2 \\\\\n 1 \\ \n".to_string(),
            ": 1639322528:0;echo\n".to_string(),
        ]
    );
}

#[test]
fn test_history_lines_three_physical_lines() {
    // two continued lines and a final one form a single logical line
    let joined = collect_lines("echo a \\\necho b \\\necho c\n");
    assert_eq!(joined, vec!["echo a \\\necho b \\\necho c\n".to_string()]);
}

#[test]
fn test_history_lines_empty_input() {
    assert_eq!(collect_lines(""), Vec::<String>::new());
}

#[test]
fn test_history_lines_no_trailing_newline() {
    assert_eq!(collect_lines("echo x"), vec!["echo x".to_string()]);
}

#[test]
fn test_history_lines_continued_at_end_of_input() {
    // a continuation marker at the end of input cannot be continued further
    assert_eq!(collect_lines("echo x \\\n"), vec!["echo x \\\n".to_string()]);
}

#[test]
fn test_history_lines_bare_newlines() {
    assert_eq!(collect_lines("\n\n"), vec!["\n".to_string(), "\n".to_string()]);
}
