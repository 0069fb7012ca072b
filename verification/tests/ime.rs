use rustmd::ime::{
    marked_text_range, replace_and_mark_text_in_range, replace_text_in_range, selected_text_range, text_for_range,
    unmark_text,
};
use rustmd::state::EditorState;

fn at(content: &str, cursor: usize) -> EditorState {
    let mut s = EditorState::new(content);
    s.set_cursor(cursor);
    s
}

#[test]
fn utf16_ranges_count_code_units() {
    // a (1 byte), 中 (3 bytes), 😀 (4 bytes, 2 UTF-16 units), b
    let mut s = at("a中😀b", 0);
    s.handle_click(1, false, 1);
    s.handle_drag(8);
    assert_eq!(selected_text_range(&s), 1..4);
    assert_eq!(text_for_range(&s, 2..4), Some("😀".to_string()));
    assert_eq!(text_for_range(&s, 0..5), Some("a中😀b".to_string()));
    assert_eq!(text_for_range(&s, 4..99), Some("b".to_string()));
}

#[test]
fn marked_range_in_utf16() {
    let s = at("中文ab", 6);
    assert_eq!(marked_text_range(&s, &Some(6..8)), Some(2..4));
    assert_eq!(marked_text_range(&s, &Some(3..50)), Some(1..4));
    assert_eq!(marked_text_range(&s, &None), None);
}

#[test]
fn typed_ascii_is_inserted() {
    let mut s = at("ab", 1);
    let mut marked = None;
    replace_text_in_range(&mut s, &mut marked, None, "x");
    assert_eq!(s.text(), "axb");
    assert_eq!(s.cursor().offset, 2);
}

#[test]
fn typed_space_is_left_to_the_key_handler() {
    let mut s = at("abcd", 0);
    s.handle_drag(2);
    let mut marked = None;
    replace_text_in_range(&mut s, &mut marked, None, " ");
    assert_eq!(s.text(), "cd");
}

#[test]
fn cjk_output_replaces_unmarked_pinyin() {
    let mut s = at("say ni", 6);
    let mut marked = None;
    replace_text_in_range(&mut s, &mut marked, None, "你");
    assert_eq!(s.text(), "say 你");
    assert_eq!(s.cursor().offset, 7);
}

#[test]
fn other_text_is_inserted() {
    let mut s = at("ab", 2);
    let mut marked = None;
    replace_text_in_range(&mut s, &mut marked, None, "é!");
    assert_eq!(s.text(), "abé!");
}

#[test]
fn composition_then_commit() {
    let mut s = at("x ", 2);
    let mut marked = None;
    replace_and_mark_text_in_range(&mut s, &mut marked, None, "n");
    assert_eq!(s.text(), "x n");
    assert_eq!(marked, Some(2..3));
    replace_and_mark_text_in_range(&mut s, &mut marked, None, "ni");
    assert_eq!(s.text(), "x ni");
    assert_eq!(marked, Some(2..4));
    replace_text_in_range(&mut s, &mut marked, None, "你");
    assert_eq!(s.text(), "x 你");
    assert_eq!(marked, None);
    assert_eq!(s.cursor().offset, 5);
}

#[test]
fn composition_cancel_restores_text() {
    let mut s = at("ab", 1);
    let mut marked = None;
    replace_and_mark_text_in_range(&mut s, &mut marked, None, "xyz");
    assert_eq!(s.text(), "axyzb");
    replace_and_mark_text_in_range(&mut s, &mut marked, None, "");
    assert_eq!(s.text(), "ab");
    assert_eq!(marked, None);
    assert_eq!(s.cursor().offset, 1);
}

#[test]
fn unmark_deletes_leftover_pinyin() {
    let mut s = at("a", 1);
    let mut marked = None;
    replace_and_mark_text_in_range(&mut s, &mut marked, None, "hao");
    unmark_text(&mut s, &mut marked);
    assert_eq!(s.text(), "a");
    assert_eq!(marked, None);
}

#[test]
fn unmark_keeps_converted_text() {
    let mut s = at("a", 1);
    let mut marked = None;
    replace_and_mark_text_in_range(&mut s, &mut marked, None, "好");
    unmark_text(&mut s, &mut marked);
    assert_eq!(s.text(), "a好");
}

#[test]
fn replacement_range_in_utf16() {
    let mut s = at("中文ab", 0);
    let mut marked = Some(0..1);
    replace_text_in_range(&mut s, &mut marked, Some(1..2), "字");
    assert_eq!(s.text(), "中字ab");
    assert_eq!(marked, None);
}
