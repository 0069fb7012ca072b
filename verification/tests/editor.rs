use rustmd::editor::{ActionEffect, Direction, Editor, EditorAction};

#[test]
fn editor_new_and_queries() {
    let e = Editor::new("hello world");
    assert_eq!(e.text(), "hello world");
    assert_eq!(e.len(), 11);
    assert!(!e.is_empty());
    assert!(Editor::new("").is_empty());
    assert_eq!(e.cursor_position(), 0);
    assert!(e.selection_range().is_none());
    assert!(!e.is_input_blocked());
    assert!(!e.is_streaming());
    assert!(e.cursor_blink_visible);
}

#[test]
fn editor_ends_with() {
    let e = Editor::new("notes.md\ndone");
    assert!(e.ends_with("done"));
    assert!(e.ends_with("\ndone"));
    assert!(e.ends_with(""));
    assert!(!e.ends_with("don"));
    assert!(!e.ends_with("xnotes.md\ndone"));
    let u = Editor::new("café");
    assert!(u.ends_with("é"));
    assert!(!u.ends_with("e"));
}

#[test]
fn editor_append_moves_cursor_to_end() {
    let mut e = Editor::new("first");
    e.set_cursor(2);
    e.append(" second");
    assert_eq!(e.text(), "first second");
    assert_eq!(e.cursor_position(), 12);
    e.append_and_scroll("!");
    assert_eq!(e.text(), "first second!");
    assert_eq!(e.cursor_position(), 13);
    assert!(e.scroll_to_cursor_pending);
}

#[test]
fn editor_append_user_message_tracks_lines() {
    let mut e = Editor::new("Hello\n");
    e.append_user_message("Hi there\nsecond line\n\n  ");
    assert_eq!(e.text(), "Hello\nHi there\nsecond line\n\n  ");
    assert_eq!(e.user_message_lines.len(), 1);
    assert_eq!(e.user_message_lines[0], 1..3);
    assert!(!e.is_user_message_line(0));
    assert!(e.is_user_message_line(1));
    assert!(e.is_user_message_line(2));
    assert!(!e.is_user_message_line(3));
}

#[test]
fn editor_blank_user_message_records_nothing() {
    let mut e = Editor::new("text");
    e.append_user_message(" \n\t\u{3000}\n");
    assert_eq!(e.text(), "text \n\t\u{3000}\n");
    assert!(e.user_message_lines.is_empty());
    assert!(!e.is_user_message_line(0));
}

#[test]
fn editor_user_message_on_empty_buffer() {
    let mut e = Editor::new("");
    e.append_user_message("one\r\ntwo\nthree");
    assert_eq!(e.user_message_lines, vec![0..3]);
    e.append("\n");
    e.append_user_message("four\n");
    assert_eq!(e.user_message_lines, vec![0..3, 3..4]);
    assert!(e.is_user_message_line(3));
}

#[test]
fn editor_streaming_blocks_input() {
    let mut e = Editor::new("abc");
    e.begin_streaming();
    assert!(e.is_streaming());
    assert!(e.is_input_blocked());
    assert_eq!(e.cursor_position(), 3);
    let r = e.handle_action(&EditorAction::Type('x'));
    assert!(matches!(r, ActionEffect::Unchanged));
    assert_eq!(e.text(), "abc");
    e.end_streaming();
    assert!(!e.is_streaming());
    assert!(!e.is_input_blocked());
    let r = e.handle_action(&EditorAction::Type('x'));
    assert!(matches!(r, ActionEffect::Notify));
    assert_eq!(e.text(), "abcx");
}

#[test]
fn editor_blocked_input_still_tracks_hover() {
    let mut e = Editor::new("- [ ] task");
    e.set_input_blocked(true);
    e.cursor_blink_visible = false;
    let r = e.handle_action(&EditorAction::UpdateHover { over_checkbox: true, over_link: false });
    assert!(matches!(r, ActionEffect::Notify));
    assert!(e.hovering_checkbox);
    assert!(!e.hovering_link_region);
    assert!(!e.cursor_blink_visible);
    let r = e.handle_action(&EditorAction::UpdateHover { over_checkbox: true, over_link: false });
    assert!(matches!(r, ActionEffect::Unchanged));
    let r = e.handle_action(&EditorAction::ToggleCheckbox { line_number: 0 });
    assert!(matches!(r, ActionEffect::Unchanged));
    assert_eq!(e.text(), "- [ ] task");
}

#[test]
fn editor_execute_bypasses_block() {
    let mut e = Editor::new("- [ ] task");
    e.set_input_blocked(true);
    let r = e.execute(&EditorAction::ToggleCheckbox { line_number: 0 });
    assert!(matches!(r, ActionEffect::Notify));
    assert_eq!(e.text(), "- [x] ~~task~~");
}

#[test]
fn editor_type_multibyte_characters() {
    let mut e = Editor::new("");
    e.execute(&EditorAction::Type('a'));
    e.execute(&EditorAction::Type('é'));
    e.execute(&EditorAction::Type('€'));
    e.execute(&EditorAction::Type('𝄞'));
    assert_eq!(e.text(), "aé€𝄞");
    assert_eq!(e.cursor_position(), 1 + 2 + 3 + 4);
}

#[test]
fn editor_enter_and_moves_scroll() {
    let mut e = Editor::new("- item");
    e.move_to_end();
    assert!(!e.scroll_to_cursor_pending);
    e.execute(&EditorAction::Enter);
    assert_eq!(e.text(), "- item\n");
    assert!(e.scroll_to_cursor_pending);
    e.scroll_to_cursor_pending = false;
    e.execute(&EditorAction::Tab);
    assert!(!e.scroll_to_cursor_pending);
    e.execute(&EditorAction::Move(Direction::Up));
    assert!(e.scroll_to_cursor_pending);
    assert!(e.cursor_position() <= 6);
}

#[test]
fn editor_move_in_direction_extend() {
    let mut e = Editor::new("abc\ndef");
    e.set_cursor(1);
    e.move_in_direction(Direction::Right, true);
    assert_eq!(e.selection_range(), Some(1..2));
    e.move_in_direction(Direction::Down, true);
    assert_eq!(e.selection_range(), Some(1..6));
    e.move_in_direction(Direction::Left, false);
    assert_eq!(e.selection_range(), None);
    assert_eq!(e.cursor_position(), 5);
}

#[test]
fn editor_drag_respects_scroll_zone() {
    let mut e = Editor::new("hello world");
    e.execute(&EditorAction::Click { offset: 2, shift: false, click_count: 1 });
    e.in_drag_scroll_zone = true;
    e.execute(&EditorAction::Drag { offset: 8 });
    assert_eq!(e.selection_range(), None);
    assert!(!e.is_selecting);
    e.in_drag_scroll_zone = false;
    e.execute(&EditorAction::Drag { offset: 8 });
    assert_eq!(e.selection_range(), Some(2..8));
    assert!(e.is_selecting);
}

#[test]
fn editor_open_link_changes_nothing() {
    let mut e = Editor::new("see https://example.com");
    e.cursor_blink_visible = false;
    let r = e.execute(&EditorAction::OpenLink { url: "https://example.com".to_string() });
    match r {
        ActionEffect::OpenLink(u) => assert_eq!(u, "https://example.com"),
        _ => panic!("expected a link to open"),
    }
    assert_eq!(e.text(), "see https://example.com");
    assert!(e.cursor_blink_visible);
}

#[test]
fn editor_backspace_and_shift_tab() {
    let mut e = Editor::new("ab");
    e.move_to_end();
    e.execute(&EditorAction::Backspace);
    assert_eq!(e.text(), "a");
    e.move_to_start();
    assert_eq!(e.cursor_position(), 0);
}

#[test]
fn editor_set_text_resets_cursor() {
    let mut e = Editor::new("old text");
    e.move_to_end();
    e.set_text("new");
    assert_eq!(e.text(), "new");
    assert_eq!(e.cursor_position(), 0);
    e.insert("x");
    assert_eq!(e.text(), "xnew");
}

#[test]
fn editor_modifiers_changed() {
    let mut e = Editor::new("");
    assert!(e.on_modifiers_changed(true, false));
    assert!(e.ctrl_held);
    assert!(!e.on_modifiers_changed(false, true));
    assert!(e.ctrl_held);
    assert!(e.on_modifiers_changed(false, false));
    assert!(!e.ctrl_held);
}
