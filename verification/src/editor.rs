//! The editor around the editing state: blocked input and streaming,
//! appended messages, hover and modifier tracking, and the dispatch of
//! editing actions. What it leaves to the view (redrawing, opening a link)
//! comes back as an `ActionEffect`.

use std::ops::Range;
use vstd::prelude::*;
use vstd::utf8::{decode_utf8, encode_utf8};
use crate::autocomplete::AutocompleteState;
use crate::state::{EditorState, EditorView, clamp_len, click_spec, collapse_at, delete_backward_spec, down_of, down_of_exec,
    insert_spec, left_of, left_of_exec, place, right_of, right_of_exec, sel_hi, sel_lo, shift_alt_enter_spec,
    shift_enter_spec, tab_spec, toggle_spec, up_of, up_of_exec};
use crate::text::{boundary, build_line_table, char_bytes, line_table, str_bytes, string_from_utf8, tab_view, trim_end_at,
    trim_end_pos};
use crate::cycle::push_all;

verus! {

/// A direction for cursor movement.
#[derive(Clone, Copy, Debug, PartialEq, Eq, Structural)]
pub enum Direction {
    Left,
    Right,
    Up,
    Down,
}

/// An editing action, from the keyboard, the mouse or a script.
#[derive(Clone, Debug)]
pub enum EditorAction {
    /// Type one character.
    Type(char),
    Enter,
    ShiftEnter,
    ShiftAltEnter,
    Tab,
    ShiftTab,
    Backspace,
    /// Move the cursor one step.
    Move(Direction),
    /// A click at a byte offset, with Shift held or not, and the click count.
    Click { offset: usize, shift: bool, click_count: usize },
    /// A drag to a byte offset.
    Drag { offset: usize },
    /// A click on a task checkbox.
    ToggleCheckbox { line_number: usize },
    /// The mouse is over a checkbox or a link, or not.
    UpdateHover { over_checkbox: bool, over_link: bool },
    /// Open a link.
    OpenLink { url: String },
}

/// What the view has to do after an action.
#[derive(Clone, Debug)]
pub enum ActionEffect {
    /// Redraw.
    Notify,
    /// Nothing changed.
    Unchanged,
    /// Open this link; nothing else changed.
    OpenLink(String),
}

/// An editor: the editing state and what the editor tracks around it.
pub struct Editor {
    pub state: EditorState,
    /// The view should scroll the cursor into sight.
    pub scroll_to_cursor_pending: bool,
    /// User input is ignored (hover updates still count).
    pub input_blocked: bool,
    /// Content is being streamed in.
    pub streaming_mode: bool,
    pub hovering_checkbox: bool,
    pub hovering_link_region: bool,
    /// Control (or the platform key) is held.
    pub ctrl_held: bool,
    /// The mouse is in the zone where a drag scrolls instead of selecting.
    pub in_drag_scroll_zone: bool,
    /// A drag selection is going on.
    pub is_selecting: bool,
    /// The text being composed by an input method.
    pub ime_marked_range: Option<Range<usize>>,
    /// The mention popup.
    pub autocomplete: Option<AutocompleteState>,
    /// Line ranges of appended user messages.
    pub user_message_lines: Vec<Range<usize>>,
    pub cursor_blink_visible: bool,
}

/// Where a step in direction `d` from `p` lands.
pub open spec fn moved(s: Seq<u8>, p: int, d: Direction) -> int {
    match d {
        Direction::Left => left_of(s, p),
        Direction::Right => right_of(s, p),
        Direction::Up => up_of(s, p),
        Direction::Down => down_of(s, p),
    }
}

/// The state with `t` appended and the cursor after it.
pub open spec fn appended(v: EditorView, t: Seq<u8>) -> EditorView {
    EditorView {
        text: v.text + t,
        anchor: (v.text.len() + t.len()) as int,
        head: (v.text.len() + t.len()) as int,
        ..v
    }
}

/// How many lines `str::lines` gives for the message `t` without its
/// trailing whitespace.
pub open spec fn message_lines(t: Seq<u8>) -> int {
    let e = trim_end_pos(t, 0, t.len() as int);
    if e == 0 {
        0
    } else {
        line_table(t.subrange(0, e)).len() as int
    }
}

/// `s` ends with `t`.
pub open spec fn ends_with_bytes(s: Seq<u8>, t: Seq<u8>) -> bool {
    t.len() <= s.len() && s.subrange(s.len() - t.len(), s.len() as int) == t
}

/// The editing state after action `a` (the mouse `in_zone` or not).
pub open spec fn action_view(v: EditorView, a: EditorAction, in_zone: bool) -> EditorView {
    match a {
        EditorAction::Type(c) => insert_spec(v, encode_utf8(seq![c])),
        EditorAction::Enter => insert_spec(v, seq![10u8]),
        EditorAction::ShiftEnter => shift_enter_spec(v),
        EditorAction::ShiftAltEnter => shift_alt_enter_spec(v),
        EditorAction::Tab => tab_spec(v, true),
        EditorAction::ShiftTab => tab_spec(v, false),
        EditorAction::Backspace => delete_backward_spec(v),
        EditorAction::Move(d) => collapse_at(v, moved(v.text, v.head, d)),
        EditorAction::Click { offset, shift, click_count } => click_spec(v, offset as int, shift, click_count as int),
        EditorAction::Drag { offset } => if in_zone {
            v
        } else {
            EditorView { head: place(v.text, offset as int), ..v }
        },
        EditorAction::ToggleCheckbox { line_number } => toggle_spec(v, line_number as int),
        EditorAction::UpdateHover { .. } => v,
        EditorAction::OpenLink { .. } => v,
    }
}

/// Actions after which the cursor is scrolled into sight.
pub open spec fn scrolls(a: EditorAction) -> bool {
    a is Enter || a is ShiftEnter || a is ShiftAltEnter || a is Move
}

/// The hover flags after action `a`.
pub open spec fn hover_after(a: EditorAction, checkbox: bool, link: bool) -> (bool, bool) {
    match a {
        EditorAction::UpdateHover { over_checkbox, over_link } => (over_checkbox, over_link),
        _ => (checkbox, link),
    }
}

/// `r` is what the view is told after action `a` was carried out.
pub open spec fn effect_of(a: EditorAction, checkbox: bool, link: bool, r: ActionEffect) -> bool {
    match a {
        EditorAction::UpdateHover { over_checkbox, over_link } => if checkbox != over_checkbox || link
            != over_link {
            r is Notify
        } else {
            r is Unchanged
        },
        EditorAction::OpenLink { url } => r matches ActionEffect::OpenLink(u) && u@ == url@,
        _ => r is Notify,
    }
}

/// `e1` is `e0` after carrying out action `a`.
pub open spec fn executed(e0: Editor, e1: Editor, a: EditorAction) -> bool {
    let h = hover_after(a, e0.hovering_checkbox, e0.hovering_link_region);
    &&& e1.state@ == action_view(e0.state@, a, e0.in_drag_scroll_zone)
    &&& e1 == (Editor {
        state: e1.state,
        cursor_blink_visible: true,
        scroll_to_cursor_pending: e0.scroll_to_cursor_pending || scrolls(a),
        is_selecting: e0.is_selecting || (a is Drag && !e0.in_drag_scroll_zone),
        hovering_checkbox: h.0,
        hovering_link_region: h.1,
        ..e0
    })
}

impl Editor {
    pub open spec fn wf(&self) -> bool {
        self.state.wf()
    }

    /// An editor holding `content`, with the cursor at the start.
    pub fn new(content: &str) -> (r: Editor)
        ensures
            r.wf(),
            r.state@ == (EditorView { text: encode_utf8(content@), anchor: 0, head: 0, cache: None }),
            !r.scroll_to_cursor_pending && !r.input_blocked && !r.streaming_mode,
            !r.hovering_checkbox && !r.hovering_link_region && !r.ctrl_held,
            !r.in_drag_scroll_zone && !r.is_selecting,
            r.ime_marked_range is None && r.autocomplete is None,
            r.user_message_lines@.len() == 0,
            r.cursor_blink_visible,
    {
        Editor {
            state: EditorState::new(content),
            scroll_to_cursor_pending: false,
            input_blocked: false,
            streaming_mode: false,
            hovering_checkbox: false,
            hovering_link_region: false,
            ctrl_held: false,
            in_drag_scroll_zone: false,
            is_selecting: false,
            ime_marked_range: None,
            autocomplete: None,
            user_message_lines: Vec::new(),
            cursor_blink_visible: true,
        }
    }

    /// The text.
    pub fn text(&self) -> (r: String)
        requires
            vstd::utf8::valid_utf8(self.state@.text),
        ensures
            r@ == decode_utf8(self.state@.text),
    {
        self.state.text()
    }

    /// Length of the text in bytes.
    pub fn len(&self) -> (r: usize)
        ensures
            r == self.state@.text.len(),
    {
        self.state.len()
    }

    /// Whether the text is empty.
    pub fn is_empty(&self) -> (r: bool)
        ensures
            r == (self.state@.text.len() == 0),
    {
        self.state.len() == 0
    }

    /// Whether the text ends with `suffix`.
    pub fn ends_with(&self, suffix: &str) -> (r: bool)
        ensures
            r == ends_with_bytes(self.state@.text, encode_utf8(suffix@)),
    {
        let s = self.state.buffer();
        let t = str_bytes(suffix);
        if t.len() > s.len() {
            return false;
        }
        let sl = s.len();
        let off = sl - t.len();
        let mut i: usize = 0;
        while i < t.len()
            invariant
                s@ == self.state@.text,
                t@ == encode_utf8(suffix@),
                sl == s@.len(),
                off + t@.len() == sl,
                i <= t@.len(),
                forall|j: int| 0 <= j < i ==> s@[off + j] == t@[j],
            decreases t@.len() - i,
        {
            if s[off + i] != t[i] {
                assert(s@.subrange(off as int, s@.len() as int)[i as int] != t@[i as int]);
                return false;
            }
            i = i + 1;
        }
        assert(s@.subrange(off as int, s@.len() as int) =~= t@);
        true
    }

    /// Replaces the whole text, with the cursor at the start.
    pub fn set_text(&mut self, content: &str)
        requires
            old(self).wf(),
        ensures
            final(self).wf(),
            final(self).state@ == (EditorView { text: encode_utf8(content@), anchor: 0, head: 0, ..old(self).state@ }),
            *final(self) == (Editor { state: final(self).state, ..*old(self) }),
    {
        self.state.set_text(content);
    }

    /// Inserts `text` at the cursor (as typing it does).
    pub fn insert(&mut self, text: &str)
        requires
            old(self).wf(),
        ensures
            final(self).wf(),
            final(self).state@ == insert_spec(old(self).state@, encode_utf8(text@)),
            *final(self) == (Editor { state: final(self).state, ..*old(self) }),
    {
        self.state.insert_text(text);
    }

    /// Appends `text` at the end of the text and puts the cursor there.
    pub fn append(&mut self, text: &str)
        requires
            old(self).wf(),
        ensures
            final(self).wf(),
            final(self).state@ == appended(old(self).state@, encode_utf8(text@)),
            *final(self) == (Editor { state: final(self).state, ..*old(self) }),
    {
        self.state.append(text);
    }

    /// Appends a user message and records its lines: from the old last
    /// line on, one per line of the message without trailing whitespace
    /// (nothing is recorded for a blank message).
    pub fn append_user_message(&mut self, text: &str)
        requires
            old(self).wf(),
        ensures
            final(self).wf(),
            final(self).state@ == appended(old(self).state@, encode_utf8(text@)),
            ({
                let k = message_lines(encode_utf8(text@));
                let start = line_table(old(self).state@.text).len() - 1;
                let r = final(self).user_message_lines@;
                let r0 = old(self).user_message_lines@;
                if k > 0 {
                    &&& r.len() == r0.len() + 1
                    &&& r.subrange(0, r0.len() as int) == r0
                    &&& r[r0.len() as int].start == start
                    &&& r[r0.len() as int].end == start + k
                } else {
                    r == r0
                }
            }),
            *final(self) == (Editor {
                state: final(self).state,
                user_message_lines: final(self).user_message_lines,
                ..*old(self)
            }),
    {
        let tab0 = build_line_table(self.state.buffer());
        let lines_before = tab0.len();
        let ghost s0 = self.state@.text;
        self.append(text);
        let _n = self.state.len();
        let t = str_bytes(text);
        let e = trim_end_at(&t, 0, t.len());
        if e == 0 {
            return;
        }
        let mut head: Vec<u8> = Vec::new();
        push_all(&mut head, &t, 0, e);
        let tab = build_line_table(&head);
        let k = tab.len();
        proof {
            crate::text::lemma_line_table_wf(s0);
            crate::text::lemma_line_count(s0);
            crate::text::lemma_trim_end_last_byte(t@, 0, t@.len() as int, 0);
            assert(head@ =~= t@.subrange(0, e as int));
            crate::text::lemma_line_count_closed(head@);
            assert(tab_view(tab@).len() == k);
            assert(tab_view(tab0@).len() == lines_before);
            assert(head@[e - 1] == t@[e - 1]);
            assert(lines_before - 1 <= s0.len());
            assert(k <= e && e <= t@.len());
        }
        let start = lines_before - 1;
        let ghost r0 = self.user_message_lines@;
        self.user_message_lines.push(start..start + k);
        proof {
            assert(self.user_message_lines@.subrange(0, r0.len() as int) =~= r0);
        }
    }

    /// Whether line `line` belongs to an appended user message.
    pub fn is_user_message_line(&self, line: usize) -> (r: bool)
        ensures
            r == exists|i: int|
                0 <= i < self.user_message_lines@.len() && #[trigger] self.user_message_lines@[i].start <= line
                    < self.user_message_lines@[i].end,
    {
        let mut i: usize = 0;
        while i < self.user_message_lines.len()
            invariant
                i <= self.user_message_lines@.len(),
                forall|j: int|
                    0 <= j < i ==> !(#[trigger] self.user_message_lines@[j].start <= line
                        < self.user_message_lines@[j].end),
            decreases self.user_message_lines@.len() - i,
        {
            let r = &self.user_message_lines[i];
            if r.start <= line && line < r.end {
                return true;
            }
            i = i + 1;
        }
        false
    }

    /// Appends `text` and asks for the cursor to be scrolled into sight.
    pub fn append_and_scroll(&mut self, text: &str)
        requires
            old(self).wf(),
        ensures
            final(self).wf(),
            final(self).state@ == appended(old(self).state@, encode_utf8(text@)),
            *final(self) == (Editor { state: final(self).state, scroll_to_cursor_pending: true, ..*old(self) }),
    {
        self.append(text);
        self.scroll_to_cursor_pending = true;
    }

    /// Blocks or unblocks user input.
    pub fn set_input_blocked(&mut self, blocked: bool)
        ensures
            *final(self) == (Editor { input_blocked: blocked, ..*old(self) }),
    {
        self.input_blocked = blocked;
    }

    pub fn is_input_blocked(&self) -> (r: bool)
        ensures
            r == self.input_blocked,
    {
        self.input_blocked
    }

    /// Enters streaming mode: input blocked, cursor at the end.
    pub fn begin_streaming(&mut self)
        requires
            old(self).wf(),
        ensures
            final(self).wf(),
            final(self).state@ == (EditorView {
                anchor: old(self).state@.text.len() as int,
                head: old(self).state@.text.len() as int,
                ..old(self).state@
            }),
            *final(self) == (Editor {
                state: final(self).state,
                streaming_mode: true,
                input_blocked: true,
                ..*old(self)
            }),
    {
        self.streaming_mode = true;
        self.input_blocked = true;
        let end = self.state.len();
        self.state.set_cursor(end);
    }

    /// Leaves streaming mode and unblocks input.
    pub fn end_streaming(&mut self)
        ensures
            *final(self) == (Editor { streaming_mode: false, input_blocked: false, ..*old(self) }),
    {
        self.streaming_mode = false;
        self.input_blocked = false;
    }

    pub fn is_streaming(&self) -> (r: bool)
        ensures
            r == self.streaming_mode,
    {
        self.streaming_mode
    }

    /// The cursor's byte offset.
    pub fn cursor_position(&self) -> (r: usize)
        ensures
            r == self.state@.head,
    {
        self.state.cursor().offset
    }

    /// The selected range, or `None` when the selection is collapsed.
    pub fn selection_range(&self) -> (r: Option<Range<usize>>)
        ensures
            match r {
                None => self.state@.anchor == self.state@.head,
                Some(x) => self.state@.anchor != self.state@.head && x.start == sel_lo(self.state@) && x.end
                    == sel_hi(self.state@),
            },
    {
        let sel = self.state.selection();
        if sel.is_collapsed() {
            None
        } else {
            let r = sel.range();
            Some(r.0..r.1)
        }
    }

    /// Puts the cursor at `offset`, clamped to the length of the text (see
    /// `EditorState::set_cursor`).
    pub fn set_cursor(&mut self, offset: usize)
        ensures
            final(self).state@ == (EditorView {
                anchor: clamp_len(old(self).state@.text, offset as int),
                head: clamp_len(old(self).state@.text, offset as int),
                ..old(self).state@
            }),
            old(self).wf() ==> (final(self).wf() <==> boundary(
                old(self).state@.text,
                clamp_len(old(self).state@.text, offset as int),
            )),
            *final(self) == (Editor { state: final(self).state, ..*old(self) }),
    {
        self.state.set_cursor(offset);
    }

    /// Puts the cursor at the end of the text.
    pub fn move_to_end(&mut self)
        requires
            old(self).wf(),
        ensures
            final(self).wf(),
            final(self).state@ == (EditorView {
                anchor: old(self).state@.text.len() as int,
                head: old(self).state@.text.len() as int,
                ..old(self).state@
            }),
            *final(self) == (Editor { state: final(self).state, ..*old(self) }),
    {
        let end = self.state.len();
        self.state.set_cursor(end);
    }

    /// Puts the cursor at the start of the text.
    pub fn move_to_start(&mut self)
        requires
            old(self).wf(),
        ensures
            final(self).wf(),
            final(self).state@ == (EditorView { anchor: 0, head: 0, ..old(self).state@ }),
            *final(self) == (Editor { state: final(self).state, ..*old(self) }),
    {
        self.state.set_cursor(0);
    }

    /// One step of the cursor in `direction`; with `extend` the anchor
    /// stays. The cursor is then scrolled into sight.
    pub fn move_in_direction(&mut self, direction: Direction, extend: bool)
        requires
            old(self).wf(),
        ensures
            final(self).wf(),
            ({
                let v = old(self).state@;
                let n = moved(v.text, v.head, direction);
                final(self).state@ == if extend {
                    EditorView { head: place(v.text, n), ..v }
                } else {
                    collapse_at(v, n)
                }
            }),
            *final(self) == (Editor { state: final(self).state, scroll_to_cursor_pending: true, ..*old(self) }),
    {
        if extend {
            let p = self.state.cursor().offset;
            let n = match direction {
                Direction::Left => left_of_exec(self.state.buffer(), p),
                Direction::Right => right_of_exec(self.state.buffer(), p),
                Direction::Up => up_of_exec(self.state.buffer(), p),
                Direction::Down => down_of_exec(self.state.buffer(), p),
            };
            self.state.handle_drag(n);
        } else {
            match direction {
                Direction::Left => self.state.move_left(),
                Direction::Right => self.state.move_right(),
                Direction::Up => self.state.move_up(),
                Direction::Down => self.state.move_down(),
            }
        }
        self.scroll_to_cursor_pending = true;
    }

    /// Tracks whether Control (or the platform key) is held; true when
    /// that changed (and the view should redraw).
    pub fn on_modifiers_changed(&mut self, control: bool, platform: bool) -> (r: bool)
        ensures
            *final(self) == (Editor { ctrl_held: control || platform, ..*old(self) }),
            r == (old(self).ctrl_held != (control || platform)),
    {
        let held = control || platform;
        if self.ctrl_held != held {
            self.ctrl_held = held;
            true
        } else {
            false
        }
    }

    /// Carries out an action whether or not input is blocked (for scripts
    /// and demos).
    pub fn execute(&mut self, action: &EditorAction) -> (r: ActionEffect)
        requires
            old(self).wf(),
        ensures
            final(self).wf(),
            executed(*old(self), *final(self), *action),
            effect_of(*action, old(self).hovering_checkbox, old(self).hovering_link_region, r),
    {
        self.execute_action(action)
    }

    /// Handles an action from the user: while input is blocked only hover
    /// updates count.
    pub fn handle_action(&mut self, action: &EditorAction) -> (r: ActionEffect)
        requires
            old(self).wf(),
        ensures
            final(self).wf(),
            !old(self).input_blocked ==> executed(*old(self), *final(self), *action) && effect_of(
                *action,
                old(self).hovering_checkbox,
                old(self).hovering_link_region,
                r,
            ),
            old(self).input_blocked ==> ({
                let h = hover_after(*action, old(self).hovering_checkbox, old(self).hovering_link_region);
                &&& *final(self) == (Editor { hovering_checkbox: h.0, hovering_link_region: h.1, ..*old(self) })
                &&& if h.0 != old(self).hovering_checkbox || h.1 != old(self).hovering_link_region {
                    r is Notify
                } else {
                    r is Unchanged
                }
            }),
    {
        if self.input_blocked {
            if let EditorAction::UpdateHover { over_checkbox, over_link } = action {
                if self.hovering_checkbox != *over_checkbox || self.hovering_link_region != *over_link {
                    self.hovering_checkbox = *over_checkbox;
                    self.hovering_link_region = *over_link;
                    return ActionEffect::Notify;
                }
            }
            return ActionEffect::Unchanged;
        }
        self.execute_action(action)
    }

    fn execute_action(&mut self, action: &EditorAction) -> (r: ActionEffect)
        requires
            old(self).wf(),
        ensures
            final(self).wf(),
            executed(*old(self), *final(self), *action),
            effect_of(*action, old(self).hovering_checkbox, old(self).hovering_link_region, r),
    {
        self.cursor_blink_visible = true;
        let in_zone = self.in_drag_scroll_zone;
        apply_action(&mut self.state, action, in_zone);
        match action {
            EditorAction::Enter | EditorAction::ShiftEnter | EditorAction::ShiftAltEnter | EditorAction::Move(_) => {
                self.scroll_to_cursor_pending = true;
            },
            EditorAction::Drag { .. } => {
                if !in_zone {
                    self.is_selecting = true;
                }
            },
            EditorAction::UpdateHover { over_checkbox, over_link } => {
                if self.hovering_checkbox != *over_checkbox || self.hovering_link_region != *over_link {
                    self.hovering_checkbox = *over_checkbox;
                    self.hovering_link_region = *over_link;
                    return ActionEffect::Notify;
                }
                return ActionEffect::Unchanged;
            },
            EditorAction::OpenLink { url } => {
                return ActionEffect::OpenLink(url.clone());
            },
            _ => {},
        }
        ActionEffect::Notify
    }
}

/// What an action does to the editing state: see `action_view`.
#[verifier::spinoff_prover]
fn apply_action(state: &mut EditorState, action: &EditorAction, in_zone: bool)
    requires
        old(state).wf(),
    ensures
        final(state).wf(),
        final(state)@ == action_view(old(state)@, *action, in_zone),
{
    match action {
        EditorAction::Type(c) => {
            let b = char_bytes(*c);
            proof {
                vstd::utf8::encode_utf8_valid_utf8(seq![*c]);
                vstd::utf8::encode_utf8_decode_utf8(seq![*c]);
            }
            let s = string_from_utf8(b);
            state.insert_text(&s);
        },
        EditorAction::Enter => state.enter(),
        EditorAction::ShiftEnter => state.shift_enter(),
        EditorAction::ShiftAltEnter => state.shift_alt_enter(),
        EditorAction::Tab => state.tab(),
        EditorAction::ShiftTab => state.shift_tab(),
        EditorAction::Backspace => state.delete_backward(),
        EditorAction::Move(direction) => match direction {
            Direction::Left => state.move_left(),
            Direction::Right => state.move_right(),
            Direction::Up => state.move_up(),
            Direction::Down => state.move_down(),
        },
        EditorAction::Click { offset, shift, click_count } => state.handle_click(*offset, *shift, *click_count),
        EditorAction::Drag { offset } => {
            if !in_zone {
                state.handle_drag(*offset);
            }
        },
        EditorAction::ToggleCheckbox { line_number } => state.toggle_checkbox_state(*line_number),
        EditorAction::UpdateHover { .. } => {},
        EditorAction::OpenLink { .. } => {},
    }
}

} // verus!
