use zsh_history::meta::{is_meta_char, metafy, unmetafy};

fn from_string(s: &str) -> Vec<u8> {
    s.to_string().into_bytes()
}

#[test]
fn test_metafy_simple() {
    assert_eq!(metafy(&from_string("echo 123")), from_string("echo 123"));
}

#[test]
fn test_metafy_dragon() {
    assert_eq!(metafy(&from_string("🐲")), vec![240, 131, 191, 131, 176, 178]);
}

#[test]
fn test_metafy_family() {
    let metafied = vec![
        240, 131, 191, 131, 177, 168, 226, 128, 131, 173, 240, 131, 191, 131, 177, 168, 226, 128,
        131, 173, 240, 131, 191, 131, 177, 167, 226, 128, 131, 173, 240, 131, 191, 131, 177, 166,
    ];
    assert_eq!(metafy(&from_string("👨‍👨‍👧‍👦")), metafied);
}

#[test]
fn test_unmetafy_simple() {
    assert_eq!(unmetafy(&from_string("echo 123")), Some(from_string("echo 123")));
}

#[test]
fn test_unmetafy_dragon() {
    assert_eq!(unmetafy(&[240, 131, 191, 131, 176, 178]), Some(from_string("🐲")));
}

#[test]
fn test_unmetafy_family() {
    let metafied = vec![
        240, 131, 191, 131, 177, 168, 226, 128, 131, 173, 240, 131, 191, 131, 177, 168, 226, 128,
        131, 173, 240, 131, 191, 131, 177, 167, 226, 128, 131, 173, 240, 131, 191, 131, 177, 166,
    ];
    assert_eq!(unmetafy(&metafied), Some(from_string("👨‍👨‍👧‍👦")));
}

#[test]
fn test_unmetafy_rejects_trailing_escape() {
    assert_eq!(unmetafy(&[0x83]), None);
    assert_eq!(unmetafy(&[b'a', 0x83]), None);
}

#[test]
fn test_metafy_unmetafy_all_bytes() {
    // every byte value once: the round trip must give the input back
    let all: Vec<u8> = (0u8..=255).collect();
    let metafied = metafy(&all);
    assert!(metafied.len() > all.len());
    assert_eq!(unmetafy(&metafied), Some(all));
}

#[test]
fn test_meta_set_membership() {
    assert!(is_meta_char(0x00));
    assert!(is_meta_char(0x83));
    assert!(is_meta_char(0xA2));
    assert!(is_meta_char(0x84));
    assert!(is_meta_char(0x9C));
    assert!(is_meta_char(0x9D));
    assert!(is_meta_char(0xA1));
    assert!(!is_meta_char(b'a'));
    assert!(!is_meta_char(0x82));
    assert!(!is_meta_char(0xA3));
    assert!(!is_meta_char(0xFF));
    // exactly 3 single bytes plus the two reserved ranges are special
    let count = (0u8..=255).filter(|&b| is_meta_char(b)).count();
    assert_eq!(count, 3 + (0x9C - 0x84 + 1) + (0xA1 - 0x9D + 1));
}
