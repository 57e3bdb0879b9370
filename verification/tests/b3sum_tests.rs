use blake3::b3sum::{escape_filepath, filepath_to_string};

#[test]
fn test_escape_filepath_plain_name() {
    let (text, escaped) = escape_filepath(b"dir/file.txt");
    assert_eq!(text, b"dir/file.txt".to_vec());
    assert!(!escaped);
}

#[test]
fn test_escape_filepath_backslash_and_newline() {
    let (text, escaped) = escape_filepath(b"a\\b\nc");
    assert_eq!(text, b"a\\\\b\\nc".to_vec());
    assert!(escaped);
}

#[test]
fn test_filepath_to_string_windows_normalizes_separators() {
    let (text, escaped) = filepath_to_string(b"dir\\sub\\file.txt", true);
    assert_eq!(text, b"dir/sub/file.txt".to_vec());
    assert!(!escaped);
}

#[test]
fn test_filepath_to_string_windows_still_escapes_newline() {
    let (text, escaped) = filepath_to_string(b"dir\\new\nline", true);
    assert_eq!(text, b"dir/new\\nline".to_vec());
    assert!(escaped);
}

#[test]
fn test_filepath_to_string_unix_escapes_backslash() {
    let (text, escaped) = filepath_to_string(b"dir\\file", false);
    assert_eq!(text, b"dir\\\\file".to_vec());
    assert!(escaped);
}
