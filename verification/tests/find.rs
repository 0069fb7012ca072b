use rustmd::find::FindState;

#[test]
fn test_empty_query_finds_nothing() {
    let mut fs = FindState::new();
    fs.search("hello world");
    assert!(fs.matches.is_empty());
    assert_eq!(fs.match_count(), 0);
}

#[test]
fn test_basic_search() {
    let mut fs = FindState::new();
    fs.query = "hello".to_string();
    fs.search("hello world hello");
    assert_eq!(fs.match_count(), 2);
    assert_eq!(fs.matches[0], 0..5);
    assert_eq!(fs.matches[1], 12..17);
    assert_eq!(fs.current_match, Some(0));
}

#[test]
fn test_case_sensitive() {
    let mut fs = FindState::new();
    fs.query = "Hello".to_string();
    fs.match_case = true;
    fs.search("hello Hello HELLO");
    assert_eq!(fs.match_count(), 1);
    assert_eq!(fs.matches[0], 6..11);
}

#[test]
fn test_case_insensitive() {
    let mut fs = FindState::new();
    fs.query = "hello".to_string();
    fs.match_case = false;
    fs.search("hello Hello HELLO");
    assert_eq!(fs.match_count(), 3);
}

#[test]
fn test_find_next_wraps() {
    let mut fs = FindState::new();
    fs.query = "a".to_string();
    fs.search("a b a");
    assert_eq!(fs.match_count(), 2);
    assert_eq!(fs.current_match, Some(0));
    assert_eq!(fs.find_next(), Some(1));
    assert_eq!(fs.find_next(), Some(0));
}

#[test]
fn test_find_prev_wraps() {
    let mut fs = FindState::new();
    fs.query = "a".to_string();
    fs.search("a b a");
    assert_eq!(fs.current_match, Some(0));
    assert_eq!(fs.find_prev(), Some(1));
    assert_eq!(fs.find_prev(), Some(0));
}

#[test]
fn test_close_resets_state() {
    let mut fs = FindState::new();
    fs.visible = true;
    fs.query = "test".to_string();
    fs.replace_text = "new".to_string();
    fs.search("test test");
    assert!(fs.match_count() > 0);
    fs.close();
    assert!(!fs.visible);
    assert!(fs.query.is_empty());
    assert!(fs.matches.is_empty());
    assert_eq!(fs.match_count(), 0);
    assert!(!fs.match_case);
}

#[test]
fn test_search_with_regex_special_chars() {
    let mut fs = FindState::new();
    fs.query = "(a+b)".to_string();
    fs.search("(a+b) test (a+b)");
    assert_eq!(fs.match_count(), 2);
}

#[test]
fn test_current_match_range() {
    let mut fs = FindState::new();
    assert!(fs.current_match_range().is_none());
    fs.query = "x".to_string();
    fs.search("x y x");
    assert_eq!(fs.current_match_range(), Some(0..1));
    fs.find_next();
    assert_eq!(fs.current_match_range(), Some(4..5));
}

#[test]
fn test_highlights_for_line() {
    let mut fs = FindState::new();
    fs.query = "ab".to_string();
    fs.search("ab xxx ab yyy ab");
    // Matches: 0..2, 7..9, 14..16
    // Line covers bytes 0-16 (entire text)
    let (ranges, current) = fs.highlights_for_line(0, 16);
    assert_eq!(ranges.len(), 3);
    assert_eq!(current, Some(0..2));

    // Line covers bytes 0-4 (only first match)
    let (ranges, current) = fs.highlights_for_line(0, 4);
    assert_eq!(ranges.len(), 1);
    assert_eq!(current, Some(0..2));

    // Line covers bytes 4-10 (second match at 7..9)
    let (ranges, current) = fs.highlights_for_line(4, 10);
    assert_eq!(ranges.len(), 1);
    assert_eq!(ranges[0], 3..5); // 7-4=3, 9-4=5
    assert!(current.is_none());

    // Line with no matches
    let (ranges, current) = fs.highlights_for_line(16, 20);
    assert!(ranges.is_empty());
    assert!(current.is_none());
}

