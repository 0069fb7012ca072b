use rustmd::autocomplete::{
    accept_autocomplete_suggestion, detect_autocomplete_trigger, set_autocomplete_state,
    update_autocomplete_from_cursor, AutocompleteState, AutocompleteSuggestion, AutocompleteTrigger,
};
use rustmd::file_ops::{initial_file_path, Config, DiscardChoice, FileOp};
use rustmd::explorer::{is_listed, list_files, next_page, page_view, prev_page, total_pages, PAGE_SIZE};
use rustmd::find::FindState;
use rustmd::marker::MarkerKind;
use rustmd::menu::{get_toolbar_buttons, tooltip_text, ToolbarAction, ToolbarButton};
use rustmd::title_bar::window_title;
use rustmd::key_mode::KeyMode;
use rustmd::keymap::{key_command, Key, KeyCommand, KeyModifiers};
use rustmd::state::EditorState;
use rustmd::user_config::{
    add_recent_file, clear_recent_files, default_code_font, default_text_font, parse_hex, recent_files, to_hex,
    EditorTheme, Platform, Preset, SerializedTheme,
};

fn state_at(content: &str, cursor: usize) -> EditorState {
    let mut s = EditorState::new(content);
    s.set_cursor(cursor);
    s
}

fn no_mods() -> KeyModifiers {
    KeyModifiers { control: false, alt: false, shift: false, platform: false }
}

#[test]
fn parse_hex_reads_colors() {
    assert_eq!(parse_hex("#282A36"), 0x282A36);
    assert_eq!(parse_hex("282a36"), 0x282A36);
    assert_eq!(parse_hex("##fff"), 0xFFF);
    assert_eq!(parse_hex("+ff"), 0xFF);
}

#[test]
fn parse_hex_falls_back_to_white() {
    assert_eq!(parse_hex(""), 0xFFFFFF);
    assert_eq!(parse_hex("#"), 0xFFFFFF);
    assert_eq!(parse_hex("#12G456"), 0xFFFFFF);
    assert_eq!(parse_hex("+"), 0xFFFFFF);
    assert_eq!(parse_hex("#123456789"), 0xFFFFFF);
}

#[test]
fn parse_hex_keeps_low_24_bits() {
    assert_eq!(parse_hex("12345678"), 0x345678);
}

#[test]
fn to_hex_writes_uppercase() {
    assert_eq!(to_hex(0x282A36), "#282A36");
    assert_eq!(to_hex(0), "#000000");
    assert_eq!(to_hex(0xABCDEF), "#ABCDEF");
}

#[test]
fn color_round_trip() {
    for c in [0u32, 1, 0x0F0F0F, 0x282A36, 0xFFFFFF, 0x7F8090] {
        assert_eq!(parse_hex(&to_hex(c)), c);
    }
}

#[test]
fn dracula_preset() {
    let t = SerializedTheme::from_preset(&Preset::Dracula);
    assert_eq!(t.background, "#282A36");
    assert_eq!(t.pink, "#FF79C6");
    let e = t.to_editor_theme();
    assert_eq!(e.background, 0x282A36);
    assert_eq!(e.foreground, 0xF8F8F2);
    assert_eq!(e.pink, 0xFF79C6);
}

#[test]
fn nord_preset() {
    let t = SerializedTheme::from_preset(&Preset::Nord);
    assert_eq!(t.background, "#2E3440");
    assert_eq!(t.comment, "#616E88");
    assert_eq!(t.to_editor_theme().cyan, 0x88C0D0);
}

#[test]
fn theme_round_trip() {
    let e = EditorTheme {
        background: 0x010203,
        foreground: 0xFFFFFF,
        selection: 0,
        comment: 0x123456,
        red: 0xFF0000,
        orange: 0xFF8800,
        yellow: 0xFFFF00,
        green: 0x00FF00,
        cyan: 0x00FFFF,
        purple: 0x8800FF,
        pink: 0xFF00FF,
    };
    let t = SerializedTheme::from_editor_theme(&e);
    assert_eq!(t.comment, "#123456");
    assert_eq!(t.to_editor_theme(), e);
}

#[test]
fn default_theme_is_empty_and_reads_white() {
    let t = SerializedTheme::default();
    assert!(t.background.is_empty());
    assert_eq!(t.to_editor_theme().background, 0xFFFFFF);
}

#[test]
fn recent_files_newest_first_without_repeats() {
    let mut files: Vec<String> = Vec::new();
    add_recent_file(&mut files, "a.md");
    add_recent_file(&mut files, "b.md");
    add_recent_file(&mut files, "a.md");
    assert_eq!(files, vec!["a.md".to_string(), "b.md".to_string()]);
}

#[test]
fn recent_files_keeps_five() {
    let mut files: Vec<String> = Vec::new();
    for name in ["1", "2", "3", "4", "5", "6"] {
        add_recent_file(&mut files, name);
    }
    assert_eq!(files, vec!["6", "5", "4", "3", "2"]);
}

#[test]
fn recent_files_ignores_empty_path() {
    let mut files = vec!["x".to_string()];
    add_recent_file(&mut files, "");
    assert_eq!(files, vec!["x".to_string()]);
}

#[test]
fn recent_files_copy_and_clear() {
    let mut files = vec!["x".to_string(), "y".to_string()];
    assert_eq!(recent_files(&files), files);
    clear_recent_files(&mut files);
    assert!(files.is_empty());
}

#[test]
fn default_fonts() {
    assert_eq!(default_text_font(Platform::Windows), "Segoe UI");
    assert_eq!(default_text_font(Platform::MacOs), ".AppleSystemUIFont");
    assert_eq!(default_text_font(Platform::Other), "Liberation Sans");
    assert_eq!(default_code_font(Platform::Windows), "Consolas");
    assert_eq!(default_code_font(Platform::MacOs), "Menlo");
    assert_eq!(default_code_font(Platform::Other), "Liberation Mono");
}

#[test]
fn key_mode_toggles() {
    assert_eq!(KeyMode::default(), KeyMode::Mac);
    assert_eq!(KeyMode::Mac.toggled(), KeyMode::Win);
    assert_eq!(KeyMode::Win.toggled().toggled(), KeyMode::Win);
    assert!(KeyMode::Mac.is_mac_mode());
    assert!(!KeyMode::Win.is_mac_mode());
}

#[test]
fn file_ops_initial_path() {
    let c = Config { file: Some("notes.md".to_string()), demo: false };
    assert_eq!(initial_file_path(&c), Some("notes.md".to_string()));
    let d = Config { file: None, demo: true };
    assert_eq!(initial_file_path(&d), None);
    assert_ne!(FileOp::Save, FileOp::SaveAs);
    assert_ne!(DiscardChoice::Save, DiscardChoice::Cancel);
}

#[test]
fn detect_trigger_at_word_start() {
    let r = detect_autocomplete_trigger("hello @ali", 100).unwrap();
    assert_eq!(r.0, AutocompleteTrigger::User);
    assert_eq!(r.1, 106);
    assert_eq!(r.2, "ali");
}

#[test]
fn detect_trigger_empty_prefix() {
    let r = detect_autocomplete_trigger("@", 0).unwrap();
    assert_eq!(r.1, 0);
    assert_eq!(r.2, "");
}

#[test]
fn detect_trigger_rejects_mid_word_and_bad_prefix() {
    assert!(detect_autocomplete_trigger("mail@host", 0).is_none());
    assert!(detect_autocomplete_trigger("@-x", 0).is_none());
    assert!(detect_autocomplete_trigger("@ab cd", 0).is_none());
    assert!(detect_autocomplete_trigger("no trigger", 0).is_none());
}

#[test]
fn detect_trigger_unicode_and_hyphen() {
    let r = detect_autocomplete_trigger("hi\t@José-x", 3).unwrap();
    assert_eq!(r.1, 6);
    assert_eq!(r.2, "José-x");
}

fn popup(prefix: &str, n: usize) -> AutocompleteState {
    AutocompleteState {
        trigger: AutocompleteTrigger::User,
        trigger_offset: 0,
        prefix: prefix.to_string(),
        suggestions: (0..n)
            .map(|i| AutocompleteSuggestion::User { login: format!("user{}", i), name: None })
            .collect(),
        selected_index: 0,
        loading: true,
        fetched_prefix: Some(prefix.to_string()),
    }
}

#[test]
fn set_state_keeps_suggestions_for_same_trigger() {
    let mut cur = Some(popup("a", 2));
    assert!(set_autocomplete_state(&mut cur, AutocompleteTrigger::User, 5, "ab".to_string()));
    let ac = cur.unwrap();
    assert_eq!(ac.prefix, "ab");
    assert_eq!(ac.trigger_offset, 5);
    assert_eq!(ac.suggestions.len(), 2);
    assert!(!ac.loading);
    assert_eq!(ac.fetched_prefix, Some("a".to_string()));
}

#[test]
fn set_state_unchanged_prefix() {
    let mut cur = Some(popup("a", 2));
    assert!(!set_autocomplete_state(&mut cur, AutocompleteTrigger::User, 9, "a".to_string()));
    assert_eq!(cur.unwrap().trigger_offset, 0);
}

#[test]
fn set_state_from_none() {
    let mut cur: Option<AutocompleteState> = None;
    assert!(set_autocomplete_state(&mut cur, AutocompleteTrigger::User, 3, "x".to_string()));
    let ac = cur.unwrap();
    assert!(ac.suggestions.is_empty());
    assert_eq!(ac.selected_index, 0);
    assert_eq!(ac.fetched_prefix, None);
}

#[test]
fn popup_selection_wraps() {
    let mut ac = popup("a", 3);
    ac.select_previous();
    assert_eq!(ac.selected_index, 2);
    ac.select_next();
    assert_eq!(ac.selected_index, 0);
    ac.select_next();
    ac.select_next();
    assert_eq!(ac.selected_index, 2);
    let mut empty = popup("a", 0);
    empty.select_next();
    assert_eq!(empty.selected_index, 0);
}

#[test]
fn accept_replaces_typed_mention() {
    let mut state = state_at("hi @us", 6);
    let mut ac = popup("us", 2);
    ac.trigger_offset = 3;
    ac.selected_index = 1;
    let mut cur = Some(ac);
    assert!(accept_autocomplete_suggestion(&mut state, &mut cur));
    assert!(cur.is_none());
    assert_eq!(state.text(), "hi @user1");
    assert_eq!(state.cursor().offset, 9);
}

#[test]
fn accept_without_suggestions_closes() {
    let mut state = state_at("hi @us", 6);
    let mut cur = Some(popup("us", 0));
    assert!(!accept_autocomplete_suggestion(&mut state, &mut cur));
    assert!(cur.is_none());
    assert_eq!(state.text(), "hi @us");
}

#[test]
fn update_from_cursor_opens_and_closes() {
    let state = state_at("x\nsay @bo", 9);
    let mut cur: Option<AutocompleteState> = None;
    assert!(update_autocomplete_from_cursor(&state, &mut cur));
    let ac = cur.clone().unwrap();
    assert_eq!(ac.trigger_offset, 6);
    assert_eq!(ac.prefix, "bo");
    let plain = state_at("x\nsay bo", 8);
    assert!(!update_autocomplete_from_cursor(&plain, &mut cur));
    assert!(cur.is_none());
}

#[test]
fn keys_map_to_commands() {
    let m = no_mods();
    assert_eq!(key_command(Key::Backspace, m, false, None, false, false), KeyCommand::DeleteBackward);
    assert_eq!(key_command(Key::Tab, m, false, None, true, false), KeyCommand::InsertIndent);
    let shift = KeyModifiers { shift: true, ..m };
    assert_eq!(key_command(Key::Tab, shift, false, None, false, false), KeyCommand::ShiftTab);
    assert_eq!(key_command(Key::Enter, shift, false, None, false, false), KeyCommand::ShiftEnter);
    let shift_alt = KeyModifiers { shift: true, alt: true, ..m };
    assert_eq!(key_command(Key::Enter, shift_alt, false, None, false, false), KeyCommand::ShiftAltEnter);
    assert_eq!(key_command(Key::Left, shift, false, None, false, false), KeyCommand::MoveLeft { extend: true });
    assert_eq!(key_command(Key::Char('>'), m, false, None, false, false), KeyCommand::CompleteBlockquote);
    assert_eq!(key_command(Key::Char('x'), m, false, None, false, true), KeyCommand::Ignore);
}

#[test]
fn mac_control_shortcuts() {
    let ctrl = KeyModifiers { control: true, alt: false, shift: false, platform: false };
    assert_eq!(key_command(Key::Char('a'), ctrl, true, None, false, false), KeyCommand::MoveToLineStart { extend: false });
    assert_eq!(key_command(Key::Char('a'), ctrl, false, None, false, false), KeyCommand::SelectAll);
    let ctrl_shift = KeyModifiers { shift: true, ..ctrl };
    assert_eq!(key_command(Key::Char('a'), ctrl_shift, true, None, false, false), KeyCommand::SelectAll);
    assert_eq!(key_command(Key::Char('k'), ctrl, true, None, false, false), KeyCommand::DeleteToLineEnd);
    assert_eq!(key_command(Key::Char('z'), ctrl_shift, false, None, false, false), KeyCommand::Redo);
}

#[test]
fn popup_takes_navigation_keys() {
    let m = no_mods();
    assert_eq!(key_command(Key::Down, m, false, Some(2), false, false), KeyCommand::SelectNextSuggestion);
    assert_eq!(key_command(Key::Down, m, false, Some(0), false, false), KeyCommand::MoveDown { extend: false });
    assert_eq!(key_command(Key::Tab, m, false, Some(1), false, false), KeyCommand::AcceptSuggestion);
    assert_eq!(key_command(Key::Escape, m, false, Some(0), false, false), KeyCommand::CloseAutocomplete);
}

#[test]
fn delete_to_line_end_keeps_line_break() {
    let mut s = state_at("abc def\nnext", 3);
    s.delete_to_line_end();
    assert_eq!(s.text(), "abc\nnext");
    assert_eq!(s.cursor().offset, 3);
    let mut at_end = state_at("abc\nnext", 3);
    at_end.delete_to_line_end();
    assert_eq!(at_end.text(), "abc\nnext");
}

#[test]
fn select_all_and_selected_text() {
    let mut s = state_at("héllo\nworld", 0);
    s.select_all();
    assert_eq!(s.selection().anchor, 0);
    assert_eq!(s.selection().head, s.len());
    assert_eq!(s.selected_text(), "héllo\nworld");
    s.handle_click(1, false, 1);
    s.handle_drag(3);
    assert_eq!(s.selected_text(), "é");
}

#[test]
fn replace_range_moves_cursor_after() {
    let mut s = state_at("one two", 7);
    s.replace_range(4, 7, "three");
    assert_eq!(s.text(), "one three");
    assert_eq!(s.cursor().offset, 9);
}

#[test]
fn current_heading_is_nearest_above() {
    let s = EditorState::new("# Title\ntext\n## Sub\nmore\n");
    assert_eq!(s.find_current_heading(1), Some(1));
    assert_eq!(s.find_current_heading(3), Some(2));
    let none = EditorState::new("plain\ntext");
    assert_eq!(none.find_current_heading(1), None);
}

#[test]
fn code_block_detection() {
    let s = state_at("```\ncode\n```\nafter", 6);
    assert!(s.cursor_in_code_block());
    let t = state_at("```\ncode\n```\nafter", 15);
    assert!(!t.cursor_in_code_block());
}

#[test]
fn shift_enter_in_code_block_keeps_indent() {
    let mut s = state_at("```\n    let x = 1;\n```", 18);
    s.shift_enter();
    assert_eq!(s.text(), "```\n    let x = 1;\n    \n```");
    assert_eq!(s.cursor().offset, 23);
}

#[test]
fn shift_enter_continues_ordered_and_task_items() {
    let mut s = state_at("9. nine", 7);
    s.shift_enter();
    assert_eq!(s.text(), "9. nine\n10. ");
    let mut t = state_at("- [x] done", 10);
    t.shift_enter();
    assert_eq!(t.text(), "- [x] done\n- [ ] ");
}

#[test]
fn moves_make_progress_until_the_edges() {
    let text = "> - item\nnext";
    for p in 0..=text.len() {
        let mut l = state_at(text, p);
        l.move_left();
        if p > 0 {
            assert!(l.cursor().offset < p);
        } else {
            assert_eq!(l.cursor().offset, 0);
        }
        let mut r = state_at(text, p);
        r.move_right();
        if p < text.len() {
            assert!(r.cursor().offset > p);
        } else {
            assert_eq!(r.cursor().offset, p);
        }
    }
}

#[test]
fn new_state_gives_text_back() {
    for t in ["", "abc", "中文\n- [ ] x", "> q\n"] {
        assert_eq!(EditorState::new(t).text(), t);
    }
}

#[test]
fn toggle_on_line_without_checkbox_does_nothing() {
    let mut s = state_at("- item\n", 0);
    s.toggle_checkbox_state(0);
    assert_eq!(s.text(), "- item\n");
    s.toggle_checkbox_state(9);
    assert_eq!(s.text(), "- item\n");
}

#[test]
fn toggle_twice_restores_single_task() {
    let mut s = state_at("- [ ] task\n", 0);
    s.toggle_checkbox_state(0);
    assert_eq!(s.text(), "- [x] ~~task~~\n");
    s.toggle_checkbox_state(0);
    assert_eq!(s.text(), "- [ ] task\n");
}

#[test]
fn toggle_shifts_cursor_with_strikethrough() {
    let mut s = state_at("- [ ] task\n", 10);
    s.toggle_checkbox_state(0);
    assert_eq!(s.text(), "- [x] ~~task~~\n");
    // The cursor was at the end of the text, which the closing `~~` follows.
    assert_eq!(s.cursor().offset, 12);
}

#[test]
fn tab_cycle_returns_after_all_states() {
    let mut s = state_at("- a\n  - b\n", 10);
    let start = s.text();
    s.tab();
    assert_ne!(s.text(), start);
    for _ in 0..5 {
        s.tab();
    }
    assert_eq!(s.text(), start);
}

#[test]
fn shift_tab_undoes_tab() {
    let mut s = state_at("- a\n", 4);
    s.tab();
    assert_eq!(s.text(), "- a\n- ");
    s.shift_tab();
    assert_eq!(s.text(), "- a\n");
}

#[test]
fn find_next_then_prev_returns() {
    let mut fs = FindState::new();
    fs.query = "o".to_string();
    fs.match_case = true;
    fs.search("foo boo");
    assert_eq!(fs.match_count(), 4);
    fs.find_next();
    let here = fs.current_match;
    fs.find_next();
    fs.find_prev();
    assert_eq!(fs.current_match, here);
}

#[test]
fn find_matches_do_not_overlap() {
    let mut fs = FindState::new();
    fs.query = "aa".to_string();
    fs.match_case = true;
    fs.search("aaaaa");
    assert_eq!(fs.matches, vec![0..2, 2..4]);
}

#[test]
fn find_caseless_unicode() {
    let mut fs = FindState::new();
    fs.query = "straße".to_string();
    fs.search("STRASSE Straße");
    assert_eq!(fs.match_count(), 1);
    assert_eq!(fs.matches[0], 8..15);
}

#[test]
fn find_highlight_clips_to_line() {
    let mut fs = FindState::new();
    fs.query = "abcd".to_string();
    fs.match_case = true;
    fs.search("xxabcdxx");
    let (ranges, current) = fs.highlights_for_line(4, 8);
    assert_eq!(ranges, vec![0..2]);
    assert_eq!(current, Some(0..2));
}

#[test]
fn cursor_at_blockquote_content_start_query() {
    assert!(state_at("> > quote", 4).cursor_at_blockquote_content_start());
    assert!(!state_at("> > quote", 2).cursor_at_blockquote_content_start());
    assert!(!state_at("> - item", 4).cursor_at_blockquote_content_start());
    assert!(!state_at("plain", 0).cursor_at_blockquote_content_start());
}

#[test]
fn delete_range_keeps_selection_clamped() {
    let mut s = state_at("abcdef", 6);
    s.delete_range(2, 4);
    assert_eq!(s.text(), "abef");
    assert_eq!(s.cursor().offset, 4);
}

#[test]
fn explorer_pages() {
    assert_eq!(PAGE_SIZE, 18);
    assert_eq!(total_pages(0), 0);
    assert_eq!(total_pages(1), 1);
    assert_eq!(total_pages(18), 1);
    assert_eq!(total_pages(19), 2);
    assert_eq!(total_pages(40), 3);
    let v = page_view(40, 2);
    assert_eq!((v.start, v.end, v.total_pages), (36, 40, 3));
    assert!(v.has_prev && !v.has_next && v.show_indicator);
    let v = page_view(40, 0);
    assert_eq!((v.start, v.end), (0, 18));
    assert!(!v.has_prev && v.has_next);
    let v = page_view(0, 0);
    assert_eq!((v.start, v.end, v.total_pages), (0, 0, 0));
    assert!(!v.has_prev && !v.has_next && !v.show_indicator);
    let v = page_view(18, 0);
    assert!(!v.has_next && !v.show_indicator);
    assert_eq!(next_page(40, 1), 2);
    assert_eq!(next_page(40, 2), 2);
    assert_eq!(next_page(0, 0), 0);
    assert_eq!(prev_page(2), 1);
    assert_eq!(prev_page(0), 0);
    assert_eq!(prev_page(next_page(40, 0)), 0);
}

#[test]
fn explorer_lists_markdown_and_text_files() {
    assert!(is_listed("notes.md"));
    assert!(is_listed("a.b.txt"));
    assert!(!is_listed(".md"));
    assert!(!is_listed("readme"));
    assert!(!is_listed("notes.MD"));
    assert!(!is_listed("notes.markdown"));
    assert!(!is_listed("notes."));
    assert!(is_listed("..md"));
    let names: Vec<String> = ["b.md", "image.png", "A.txt", "a.md", "Zed.md", "c.rs", ".md"]
        .iter()
        .map(|s| s.to_string())
        .collect();
    assert_eq!(list_files(&names), vec!["a.md", "A.txt", "b.md", "Zed.md"]);
}

#[test]
fn explorer_sort_is_case_insensitive_and_stable() {
    let names: Vec<String> = ["B.md", "a.md"].iter().map(|s| s.to_string()).collect();
    assert_eq!(list_files(&names), vec!["a.md", "B.md"]);
    let names: Vec<String> = ["X.md", "x.md", "Ä.md", "b.md"].iter().map(|s| s.to_string()).collect();
    assert_eq!(list_files(&names), vec!["b.md", "X.md", "x.md", "Ä.md"]);
}

#[test]
fn window_title_marks_unsaved_changes() {
    assert_eq!(window_title(Some("notes.md"), false), "notes.md");
    assert_eq!(window_title(Some("notes.md"), true), "* notes.md");
    assert_eq!(window_title(None, false), "untitled");
    assert_eq!(window_title(None, true), "* untitled");
}

#[test]
fn discard_choice_outcomes() {
    assert_eq!(DiscardChoice::Save.proceed_and_save(), (true, true));
    assert_eq!(DiscardChoice::DontSave.proceed_and_save(), (true, false));
    assert_eq!(DiscardChoice::Cancel.proceed_and_save(), (false, false));
}

#[test]
fn toolbar_buttons_and_tooltips() {
    let b = get_toolbar_buttons(true);
    assert_eq!(b.len(), 7);
    assert_eq!(b[0].name, "\u{1F980}");
    assert_eq!(b[0].description, "About");
    assert_eq!(b[0].action, ToolbarAction::ToggleAbout);
    assert_eq!(b[4].action, ToolbarAction::ToggleFind);
    assert_eq!(b[6].name, "⌨ Mac");
    let tips: Vec<String> = b.iter().map(tooltip_text).collect();
    assert_eq!(
        tips,
        vec![
            "About rustmd",
            "New file (Ctrl+Alt+N)",
            "Open file (Ctrl+O)",
            "Save (Ctrl+S)",
            "Find and replace",
            "New window (Ctrl+Shift+N)",
            "Keyboard mode: Mac",
        ]
    );
    let w = get_toolbar_buttons(false);
    assert_eq!(w[6].name, "⌨ Win");
    assert_eq!(tooltip_text(&w[6]), "Keyboard mode: Win");
    let twice = ToolbarButton::new("⌨ ⌨ x".to_string(), "Keyboard mode", ToolbarAction::ToggleKeyMode);
    assert_eq!(tooltip_text(&twice), "Keyboard mode: x");
    let other = ToolbarButton::new("?".to_string(), "Help", ToolbarAction::ToggleAbout);
    assert_eq!(tooltip_text(&other), "Help");
}

#[test]
fn space_ignored_at_line_start_and_quote_content_start() {
    let mut s = EditorState::new("abc\n");
    s.set_cursor(0);
    assert!(!s.try_insert_space());
    assert_eq!(s.text(), "abc\n");
    assert_eq!(s.cursor().offset, 0);
    s.set_cursor(4);
    assert!(!s.try_insert_space());
    assert_eq!(s.text(), "abc\n");
    s.set_cursor(2);
    assert!(s.try_insert_space());
    assert_eq!(s.text(), "ab c\n");
    assert_eq!(s.cursor().offset, 3);

    let mut q = EditorState::new("> ");
    q.set_cursor(2);
    assert!(!q.try_insert_space());
    assert_eq!(q.text(), "> ");

    let mut c = EditorState::new("```\n\n```");
    c.set_cursor(4);
    assert!(c.try_insert_space());
    assert_eq!(c.text(), "```\n \n```");
}

#[test]
fn theme_text_round_trip_on_presets() {
    for p in [Preset::Dracula, Preset::Nord] {
        let t = SerializedTheme::from_preset(&p);
        let r = SerializedTheme::from_editor_theme(&t.to_editor_theme());
        assert_eq!(
            (r.background, r.foreground, r.selection, r.comment, r.red, r.orange),
            (t.background.clone(), t.foreground.clone(), t.selection.clone(), t.comment.clone(), t.red.clone(), t.orange.clone())
        );
        assert_eq!(
            (r.yellow, r.green, r.cyan, r.purple, r.pink),
            (t.yellow.clone(), t.green.clone(), t.cyan.clone(), t.purple.clone(), t.pink.clone())
        );
    }
}

#[test]
fn nested_context_quote_inside_list_item() {
    let s = EditorState::new("- > x");
    let c = s.build_nested_context(5);
    assert_eq!(c.len(), 2);
    assert!(matches!(c[0], MarkerKind::ListItem { .. }));
    assert!(matches!(c[1], MarkerKind::BlockQuote));
    let s = EditorState::new("- a\n  > b");
    let c = s.build_nested_context(9);
    assert_eq!(c.len(), 2);
    assert!(matches!(c[0], MarkerKind::ListItem { .. }));
    assert!(matches!(c[1], MarkerKind::BlockQuote));
    let s = EditorState::new("> - > x");
    let c = s.build_nested_context(7);
    assert_eq!(c.len(), 3);
    assert!(matches!(c[0], MarkerKind::BlockQuote));
    assert!(matches!(c[1], MarkerKind::ListItem { .. }));
    assert!(matches!(c[2], MarkerKind::BlockQuote));
}

#[test]
fn nested_context_lazy_quote_continuation() {
    let s = EditorState::new("> a\nb\nc");
    let c = s.build_nested_context(7);
    assert_eq!(c.len(), 1);
    assert!(matches!(c[0], MarkerKind::BlockQuote));
    let s = EditorState::new("> a\n\nb");
    assert_eq!(s.build_nested_context(6).len(), 0);
    let s = EditorState::new(">> a\nb");
    assert_eq!(s.build_nested_context(6).len(), 2);
}

#[test]
fn set_cursor_clamps_to_length_only() {
    let mut s = EditorState::new("é!");
    s.set_cursor(1);
    assert_eq!(s.cursor().offset, 1);
    assert_eq!(s.selection().anchor, 1);
    s.set_cursor(99);
    assert_eq!(s.cursor().offset, 3);
    assert_eq!(s.selection().anchor, 3);
    assert_eq!(s.text(), "é!");
}

#[test]
fn shift_tab_right_after_tab_restores_line() {
    let mut s = EditorState::new("- item\n");
    s.set_cursor(7);
    s.tab();
    assert_ne!(s.text(), "- item\n");
    s.shift_tab();
    assert_eq!(s.text(), "- item\n");
    assert_eq!(s.cursor().offset, 7);

    let mut q = EditorState::new("> quote\n> ");
    q.set_cursor(10);
    q.tab();
    q.shift_tab();
    assert_eq!(q.text(), "> quote\n> ");
    assert_eq!(q.cursor().offset, 10);
}
