//! Core editing state: the text, the selection and all editing logic,
//! independent of any UI.

use vstd::prelude::*;
use vstd::utf8::{decode_utf8, encode_utf8, valid_utf8};
use crate::doc::{LineMarkers, content_start_of, line_markers_spec, checkbox_of, item_at, item_at_exec, nested_tasks, nested_tasks_exec, code_block_at, code_block_at_exec, line_markers, line_of, marker_ending_at,
    marker_starting_at, markers_of};
use crate::edit::{Prop, PropState, after_edit, after_edit_exec, apply_edit, boxes_to_toggle, boxes_to_toggle_exec,
    checkbox_offset, checkbox_offset_exec, del, edit, ins, opt_eq, propagate_up, propagate_up_exec, set_boxes, set_boxes_exec, strike_all, strike_all_exec};
use crate::cycle::{cycle_states, cycle_states_exec, push_all, strs_view};
use crate::context::{alt_indent, alt_indent_exec, blanks_end, blanks_end_exec, continuation, continuation_exec,
    has_blockquote, has_list, nested_context, nested_context_exec};
use crate::marker::{Marker, MarkerKind};
use crate::text::{str_bytes, string_from_utf8, all_ws, is_all_ws, next_nl, skip_ws, skip_ws_from, trim_end_at, trim_end_pos, find_newline};
use crate::outline::{analyze, outline, outline_of};
use crate::text::{ascii, boundary, lemma_line_index_from, splice, floor_boundary, floor_char_boundary, lemma_floor_boundary, line_index,
    line_table, tab_view};

verus! {

/// A cursor position (a byte offset into the text).
#[derive(Clone, Copy, Debug, PartialEq, Eq)]
pub struct Cursor {
    pub offset: usize,
}

/// A selection: the `anchor` stays, the `head` (the cursor) moves.
#[derive(Clone, Copy, Debug, PartialEq, Eq)]
pub struct Selection {
    pub anchor: usize,
    pub head: usize,
}

impl Selection {
    pub fn new(anchor: usize, head: usize) -> (r: Selection)
        ensures
            r.anchor == anchor && r.head == head,
    {
        Selection { anchor, head }
    }

    pub fn cursor(&self) -> (c: Cursor)
        ensures
            c.offset == self.head,
    {
        Cursor { offset: self.head }
    }

    pub fn is_collapsed(&self) -> (r: bool)
        ensures
            r == (self.anchor == self.head),
    {
        self.anchor == self.head
    }

    /// Start and end of the selected range.
    pub fn range(&self) -> (r: (usize, usize))
        ensures
            r.0 == (if self.anchor <= self.head { self.anchor } else { self.head }),
            r.1 == (if self.anchor <= self.head { self.head } else { self.anchor }),
    {
        if self.anchor <= self.head {
            (self.anchor, self.head)
        } else {
            (self.head, self.anchor)
        }
    }

    /// The same anchor, with the head moved to `offset`.
    pub fn extend_to(&self, offset: usize) -> (r: Selection)
        ensures
            r.anchor == self.anchor && r.head == offset,
    {
        Selection { anchor: self.anchor, head: offset }
    }
}

/// Context about the line at the cursor.
pub struct LineContext {
    /// Current cursor byte offset.
    pub cursor_offset: usize,
    /// Index of the current line.
    pub line_idx: usize,
    /// The current line's markers.
    pub line: LineMarkers,
    /// Whether content after markers is empty (whitespace only).
    pub is_empty: bool,
    /// Whether this line has any container markers.
    pub has_container: bool,
    /// The previous line, if any.
    pub prev_line: Option<LineMarkers>,
}

/// Cached tab cycle states for a specific line.
struct TabCycleCache {
    line_idx: usize,
    states: Vec<Vec<u8>>,
}

/// The model of an editor state.
pub struct EditorView {
    pub text: Seq<u8>,
    pub anchor: int,
    pub head: int,
    /// The cached tab cycle: its line and states.
    pub cache: Option<(int, Seq<Seq<u8>>)>,
}

/// Core editing state that can be used without a UI.
pub struct EditorState {
    buffer: Vec<u8>,
    selection: Selection,
    /// Cached tab cycle states to avoid recalculating mid-cycle.
    tab_cycle_cache: Option<TabCycleCache>,
}

/// A position clamped to the length of the text.
pub open spec fn clamp_len(s: Seq<u8>, p: int) -> int {
    if p > s.len() { s.len() as int } else { p }
}

/// Where a requested position lands: clamped to the text and rounded down
/// to a character boundary.
pub open spec fn place(s: Seq<u8>, p: int) -> int {
    floor_boundary(s, if p > s.len() { s.len() as int } else { p })
}

impl View for EditorState {
    type V = EditorView;

    closed spec fn view(&self) -> EditorView {
        EditorView {
            text: self.buffer@,
            anchor: self.selection.anchor as int,
            head: self.selection.head as int,
            cache: match self.tab_cycle_cache {
                Some(c) => Some((c.line_idx as int, crate::cycle::strs_view(c.states@))),
                None => None,
            },
        }
    }
}

/// The model invariant: valid UTF-8 text, selection ends on character
/// boundaries, cached tab states in ASCII.
pub open spec fn view_wf(v: EditorView) -> bool {
    &&& valid_utf8(v.text)
    &&& boundary(v.text, v.anchor)
    &&& boundary(v.text, v.head)
    &&& match v.cache {
        Some(c) => forall|i: int| 0 <= i < c.1.len() ==> ascii(#[trigger] c.1[i]),
        None => true,
    }
}

/// Index of the line holding position `p`.
pub open spec fn line_at(s: Seq<u8>, p: int) -> int {
    line_index(line_table(s), p)
}

/// Start of the character before `p`.
pub open spec fn prev_char(s: Seq<u8>, p: int) -> int {
    floor_boundary(s, p - 1)
}

/// First character boundary at or after `q`.
pub open spec fn ceil_boundary(s: Seq<u8>, q: int) -> int
    decreases s.len() - q,
{
    if q >= s.len() {
        s.len() as int
    } else if q <= 0 || !vstd::utf8::is_continuation_byte(s[q]) {
        q
    } else {
        ceil_boundary(s, q + 1)
    }
}

pub proof fn lemma_ceil_boundary(s: Seq<u8>, q: int)
    requires
        q <= s.len(),
    ensures
        q <= ceil_boundary(s, q) <= s.len(),
        boundary(s, ceil_boundary(s, q)) || q < 0,
    decreases s.len() - q,
{
    if q < s.len() && q > 0 && vstd::utf8::is_continuation_byte(s[q]) {
        lemma_ceil_boundary(s, q + 1);
    }
}

/// Start of the character after the one at `p`.
pub open spec fn next_char(s: Seq<u8>, p: int) -> int {
    ceil_boundary(s, p + 1)
}

/// One step left: over a whole marker when one ends at `p`.
pub open spec fn left_of(s: Seq<u8>, p: int) -> int {
    if p <= 0 {
        0
    } else {
        match marker_ending_at(markers_of(s, line_at(s, p)), 0, p) {
            Some(m) => m.start as int,
            None => prev_char(s, p),
        }
    }
}

/// One step right: over a whole marker when one starts at `p`.
pub open spec fn right_of(s: Seq<u8>, p: int) -> int {
    if p >= s.len() {
        s.len() as int
    } else {
        match marker_starting_at(markers_of(s, line_at(s, p)), 0, p) {
            Some(m) => m.end as int,
            None => next_char(s, p),
        }
    }
}

/// Number of characters in `s[a..p)`.
pub open spec fn char_count(s: Seq<u8>, a: int, p: int) -> int
    decreases p - a,
{
    if p <= a {
        0
    } else {
        char_count(s, a, p - 1) + if vstd::utf8::is_continuation_byte(s[p - 1]) { 0int } else { 1 }
    }
}

/// Position `n` characters after `a`, stopping at `e`.
pub open spec fn at_column(s: Seq<u8>, a: int, e: int, n: int) -> int
    decreases e - a,
{
    if n <= 0 || a >= e || a >= s.len() {
        a
    } else {
        let q = next_char(s, a);
        proof {
            lemma_ceil_boundary(s, a + 1);
        }
        at_column(s, if q > e { e } else { q }, e, n - 1)
    }
}

/// One line up, at the same character column (clamped to the line).
pub open spec fn up_of(s: Seq<u8>, p: int) -> int {
    let t = line_table(s);
    let k = line_at(s, p);
    if k == 0 {
        0
    } else {
        at_column(s, t[k - 1].0, t[k - 1].1, char_count(s, t[k].0, p))
    }
}

/// One line down, at the same character column (clamped to the line).
pub open spec fn down_of(s: Seq<u8>, p: int) -> int {
    let t = line_table(s);
    let k = line_at(s, p);
    if k + 1 >= t.len() {
        s.len() as int
    } else {
        at_column(s, t[k + 1].0, t[k + 1].1, char_count(s, t[k].0, p))
    }
}

/// Start of the line holding `p`.
pub open spec fn line_start_of(s: Seq<u8>, p: int) -> int {
    line_table(s)[line_at(s, p)].0
}

/// End of the line holding `p`.
pub open spec fn line_end_of(s: Seq<u8>, p: int) -> int {
    line_table(s)[line_at(s, p)].1
}

/// The state with a collapsed selection at `place(text, p)`.
pub open spec fn collapse_at(v: EditorView, p: int) -> EditorView {
    EditorView { anchor: place(v.text, p), head: place(v.text, p), ..v }
}

pub fn ceil_char_boundary(s: &Vec<u8>, q: usize) -> (r: usize)
    ensures
        r == ceil_boundary(s@, q as int),
        r <= s@.len(),
{
    let mut i = q;
    while i < s.len() && i > 0 && 0x80 <= s[i] && s[i] <= 0xbf
        invariant
            q <= i,
            ceil_boundary(s@, q as int) == ceil_boundary(s@, i as int),
        decreases s@.len() - i,
    {
        i = i + 1;
    }
    if i >= s.len() {
        s.len()
    } else {
        i
    }
}

pub fn char_count_exec(s: &Vec<u8>, a: usize, p: usize) -> (r: usize)
    requires
        p <= s@.len(),
    ensures
        r == char_count(s@, a as int, p as int),
{
    let mut i = a;
    let mut n: usize = 0;
    if p <= a {
        return 0;
    }
    assert(char_count(s@, a as int, a as int) == 0);
    while i < p
        invariant
            a <= i <= p <= s@.len(),
            n <= i - a,
            n == char_count(s@, a as int, i as int),
        decreases p - i,
    {
        if !(0x80 <= s[i] && s[i] <= 0xbf) {
            n = n + 1;
        }
        i = i + 1;
    }
    n
}

pub fn at_column_exec(s: &Vec<u8>, a: usize, e: usize, n: usize) -> (r: usize)
    requires
        e <= s@.len(),
    ensures
        r == at_column(s@, a as int, e as int, n as int),
{
    let mut p = a;
    let mut k = n;
    while k > 0 && p < e && p < s.len()
        invariant
            e <= s@.len(),
            at_column(s@, a as int, e as int, n as int) == at_column(s@, p as int, e as int, k as int),
        decreases e - p,
    {
        let q = ceil_char_boundary(s, p + 1);
        proof {
            lemma_ceil_boundary(s@, p + 1);
        }
        p = if q > e {
            e
        } else {
            q
        };
        k = k - 1;
    }
    p
}

/// `left_of` computed.
pub fn left_of_exec(s: &Vec<u8>, p: usize) -> (r: usize)
    ensures
        r == left_of(s@, p as int),
{
    if p == 0 {
        return 0;
    }
    let o = analyze(s);
    let k = line_of(s, &o, p);
    let lm = line_markers(s, &o, k);
    match lm.ending_at(p) {
        Some(m) => m.start,
        None => floor_char_boundary(s, p - 1),
    }
}

/// `right_of` computed.
pub fn right_of_exec(s: &Vec<u8>, p: usize) -> (r: usize)
    ensures
        r == right_of(s@, p as int),
{
    if p >= s.len() {
        return s.len();
    }
    let o = analyze(s);
    let k = line_of(s, &o, p);
    let lm = line_markers(s, &o, k);
    match lm.starting_at(p) {
        Some(m) => m.end,
        None => ceil_char_boundary(s, p + 1),
    }
}

/// Start and end of the line holding `p`, and whether it is the first /
/// the last line, computed.
fn line_bounds(s: &Vec<u8>, p: usize) -> (r: (usize, usize))
    ensures
        r.0 == line_start_of(s@, p as int),
        r.1 == line_end_of(s@, p as int),
        r.0 <= r.1 <= s@.len(),
{
    let o = analyze(s);
    let k = line_of(s, &o, p);
    proof {
        crate::text::lemma_line_table_wf(s@);
        assert(tab_view(o.table@)[k as int] == line_table(s@)[k as int]);
    }
    o.table[k]
}

/// `up_of` computed.
pub fn up_of_exec(s: &Vec<u8>, p: usize) -> (r: usize)
    requires
        p <= s@.len(),
    ensures
        r == up_of(s@, p as int),
{
    let o = analyze(s);
    let k = line_of(s, &o, p);
    proof {
        crate::text::lemma_line_table_wf(s@);
        assert(tab_view(o.table@)[k as int] == line_table(s@)[k as int]);
    }
    if k == 0 {
        return 0;
    }
    assert(tab_view(o.table@)[k - 1] == line_table(s@)[k - 1]);
    let col = char_count_exec(s, o.table[k].0, p);
    at_column_exec(s, o.table[k - 1].0, o.table[k - 1].1, col)
}

/// `down_of` computed.
pub fn down_of_exec(s: &Vec<u8>, p: usize) -> (r: usize)
    requires
        p <= s@.len(),
    ensures
        r == down_of(s@, p as int),
{
    let o = analyze(s);
    let k = line_of(s, &o, p);
    proof {
        crate::text::lemma_line_table_wf(s@);
        assert(tab_view(o.table@)[k as int] == line_table(s@)[k as int]);
    }
    if k + 1 >= o.table.len() {
        return s.len();
    }
    assert(tab_view(o.table@)[k + 1] == line_table(s@)[k + 1]);
    let col = char_count_exec(s, o.table[k].0, p);
    at_column_exec(s, o.table[k + 1].0, o.table[k + 1].1, col)
}

/// `place` computed.
pub fn place_exec(s: &Vec<u8>, p: usize) -> (r: usize)
    ensures
        r == place(s@, p as int),
        boundary(s@, r as int),
{
    let q = if p > s.len() {
        s.len()
    } else {
        p
    };
    proof {
        lemma_floor_boundary(s@, q as int);
    }
    floor_char_boundary(s, q)
}

/// A byte that belongs to a word: an ASCII letter, digit or `_`, or any
/// byte of a non-ASCII character.
pub open spec fn is_word_byte(b: u8) -> bool {
    (48u8 <= b <= 57u8) || (65u8 <= b <= 90u8) || (97u8 <= b <= 122u8) || b == 95u8 || b >= 128u8
}

/// Start of the word that ends at or runs through `p`.
pub open spec fn word_start(s: Seq<u8>, p: int) -> int
    decreases p,
{
    if p <= 0 || p > s.len() || !is_word_byte(s[p - 1]) {
        p
    } else {
        word_start(s, p - 1)
    }
}

/// End of the word that starts at or runs through `p`.
pub open spec fn word_end(s: Seq<u8>, p: int) -> int
    decreases s.len() - p,
{
    if p < 0 || p >= s.len() || !is_word_byte(s[p]) {
        p
    } else {
        word_end(s, p + 1)
    }
}

fn is_word_byte_exec(b: u8) -> (r: bool)
    ensures
        r == is_word_byte(b),
{
    (48u8 <= b && b <= 57u8) || (65u8 <= b && b <= 90u8) || (97u8 <= b && b <= 122u8) || b == 95u8
        || b >= 128u8
}

fn word_bounds(s: &Vec<u8>, p: usize) -> (r: (usize, usize))
    requires
        p <= s@.len(),
    ensures
        r.0 == word_start(s@, p as int),
        r.1 == word_end(s@, p as int),
{
    let mut a = p;
    while a > 0 && is_word_byte_exec(s[a - 1])
        invariant
            a <= p <= s@.len(),
            word_start(s@, p as int) == word_start(s@, a as int),
        decreases a,
    {
        a = a - 1;
    }
    let mut b = p;
    while b < s.len() && is_word_byte_exec(s[b])
        invariant
            p <= b <= s@.len(),
            word_end(s@, p as int) == word_end(s@, b as int),
        decreases s@.len() - b,
    {
        b = b + 1;
    }
    (a, b)
}

/// The selection a click makes: `count` 2 selects the word, 3 the line,
/// anything else places the cursor; with `shift` the head moves and the
/// anchor stays.
pub open spec fn click_spec(v: EditorView, offset: int, shift: bool, count: int) -> EditorView {
    let s = v.text;
    let o = place(s, offset);
    if shift {
        EditorView { head: o, ..v }
    } else if count == 2 {
        EditorView { anchor: place(s, word_start(s, o)), head: place(s, word_end(s, o)), ..v }
    } else if count == 3 {
        EditorView { anchor: place(s, line_start_of(s, o)), head: place(s, line_end_of(s, o)), ..v }
    } else {
        EditorView { anchor: o, head: o, ..v }
    }
}

/// The state after an edit has propagated task checkbox states.
pub open spec fn after_edit_view(v: EditorView) -> EditorView {
    match after_edit(v.text, v.head) {
        None => v,
        Some(p) => EditorView {
            text: p.text,
            anchor: place(p.text, p.cur),
            head: place(p.text, p.cur),
            cache: if p.cleared { None } else { v.cache },
        },
    }
}

/// The positions `r` are those of `x`.
pub open spec fn pair_eq(r: (usize, usize), x: (int, int)) -> bool {
    r.0 as int == x.0 && r.1 as int == x.1
}

pub open spec fn sel_lo(v: EditorView) -> int {
    if v.anchor <= v.head { v.anchor } else { v.head }
}

pub open spec fn sel_hi(v: EditorView) -> int {
    if v.anchor <= v.head { v.head } else { v.anchor }
}

/// Inserting `t` at the cursor, replacing the selection: the cursor ends
/// after the inserted text, the tab cycle cache is dropped, and task
/// checkbox states propagate.
pub open spec fn insert_spec(v: EditorView, t: Seq<u8>) -> EditorView {
    let p = if v.anchor != v.head { sel_lo(v) } else { v.head };
    let s1 = if v.anchor != v.head { del(v.text, sel_lo(v), sel_hi(v)) } else { v.text };
    let s2 = ins(s1, p, t);
    after_edit_view(collapse_at(EditorView { text: s2, cache: None, ..v }, p + t.len()))
}

/// Deleting the selection; the cursor goes to its start.
pub open spec fn delete_selection_spec(v: EditorView) -> EditorView {
    collapse_at(EditorView { text: del(v.text, sel_lo(v), sel_hi(v)), ..v }, sel_lo(v))
}

/// The whole range of an empty fenced code block whose opening fence ends
/// at `p`: only whitespace and the closing fence follow the opening line.
/// The range stops before the line break after the closing fence.
pub open spec fn empty_code_block_range(s: Seq<u8>, p: int) -> Option<(int, int)> {
    match code_block_at(s, p) {
        None => None,
        Some(b) => {
            let nl = next_nl(s, b.start as int);
            if nl >= b.end {
                None
            } else {
                let cs = nl + 1;
                let a = skip_ws(s, cs, b.end as int);
                let e = trim_end_pos(s, cs, b.end as int);
                let fence = e - a == 3 && ((s[a] == 96u8 && s[a + 1] == 96u8 && s[a + 2] == 96u8) || (s[a]
                    == 126u8 && s[a + 1] == 126u8 && s[a + 2] == 126u8));
                if fence {
                    Some(
                        (
                            b.start as int,
                            if b.end > 0 && s[b.end - 1] == 10u8 {
                                b.end - 1
                            } else {
                                b.end as int
                            },
                        ),
                    )
                } else {
                    None
                }
            }
        },
    }
}

/// The range removed with an empty code block reaches over the block's
/// opening line into its closing fence: it holds a line break, and after
/// it three equal fence characters (backticks or tildes), so no fence line
/// of the block is left behind.
pub proof fn lemma_empty_block_range_has_closing_fence(s: Seq<u8>, p: int)
    requires
        s.len() < usize::MAX,
    ensures
        empty_code_block_range(s, p) matches Some(r) ==> exists|q: int, f: int|
            r.0 <= q < f && f + 3 <= r.1 <= s.len() && #[trigger] s[q] == 10u8 && (#[trigger] s[f] == 96u8 || s[f] == 126u8)
                && s[f + 1] == s[f] && s[f + 2] == s[f],
{
    match code_block_at(s, p) {
        None => {},
        Some(b) => {
            crate::outline::lemma_outline(s);
            crate::text::lemma_line_table_wf(s);
            let t = line_table(s);
            let k = line_index(t, p);
            lemma_line_index_from(t, 0, p);
            let o = crate::outline::outline(s);
            assert(crate::outline::line_info_wf(o.lines[k], o.items.len() as int, o.blocks.len() as int));
            let bi = o.lines[k].code->0 as int;
            assert(crate::outline::block_wf(s, o.blocks[bi], t.len() as int, s.len() as int));
            assert(b.start <= b.end <= s.len());
            crate::text::lemma_next_nl(s, b.start as int);
            let nl = next_nl(s, b.start as int);
            if nl < b.end {
                let cs = nl + 1;
                crate::marker::lemma_skip_ws(s, cs, b.end as int);
                crate::marker::lemma_trim_end_from(s, cs, b.end as int, cs);
                crate::text::lemma_trim_end_last_byte(s, cs, b.end as int, cs);
                let a = skip_ws(s, cs, b.end as int);
                let e = trim_end_pos(s, cs, b.end as int);
                match empty_code_block_range(s, p) {
                    Some(r) => {
                        assert(e == a + 3);
                        assert(e != cs);
                        assert(s[e - 1] != 10u8);
                        assert(e <= r.1);
                        assert(s[nl] == 10u8);
                        assert(r.0 <= nl < a);
                    },
                    None => {},
                }
            }
        },
    }
}

/// Backspace: deletes the selection; at the end of a marker, the whole
/// marker (or the whole block when it is the opening fence of an empty code
/// block); else the character before the cursor. Then propagates task
/// checkbox states. Nothing happens at the start of the text.
pub open spec fn delete_backward_spec(v: EditorView) -> EditorView {
    let v0 = EditorView { cache: None, ..v };
    let s = v.text;
    let p = v.head;
    if v.anchor != v.head {
        after_edit_view(delete_selection_spec(v0))
    } else if p == 0 {
        v0
    } else {
        match marker_ending_at(markers_of(s, line_at(s, p)), 0, p) {
            Some(m) => match empty_code_block_range(s, p) {
                Some(r) => after_edit_view(collapse_at(EditorView { text: del(s, r.0, r.1), ..v0 }, r.0)),
                None => after_edit_view(collapse_at(EditorView { text: del(s, m.start as int, m.end as int), ..v0 }, m.start as int)),
            },
            None => after_edit_view(collapse_at(EditorView { text: del(s, prev_char(s, p), p), ..v0 }, prev_char(s, p))),
        }
    }
}

/// Delete: deletes the selection, or what one step right passes over; then
/// propagates task checkbox states.
pub open spec fn delete_forward_spec(v: EditorView) -> EditorView {
    let v0 = EditorView { cache: None, ..v };
    let s = v.text;
    let p = v.head;
    if v.anchor != v.head {
        after_edit_view(delete_selection_spec(v0))
    } else if p < s.len() {
        after_edit_view(collapse_at(EditorView { text: del(s, p, right_of(s, p)), ..v0 }, p))
    } else {
        after_edit_view(v0)
    }
}

/// `>` just typed (and no space after it) on a line with a block quote
/// marker: the space after it is inserted.
pub open spec fn completes_blockquote(v: EditorView) -> bool {
    let s = v.text;
    let p = v.head;
    &&& p > 0
    &&& s[p - 1] == 62u8
    &&& !(p < s.len() && s[p] == 32u8)
    &&& exists|i: int| 0 <= i < markers_of(s, line_at(s, p)).len() && (#[trigger] markers_of(s, line_at(s, p))[i]).kind is BlockQuote
}

/// The closing fence to insert after a just typed opening fence: three
/// backticks or tildes at the cursor, with only whitespace or block quote
/// markers before them on the line.
pub open spec fn fence_to_close(v: EditorView) -> Option<u8> {
    let s = v.text;
    let p = v.head;
    if p < 3 {
        None
    } else {
        let c = s[p - 1];
        let ls = line_start_of(s, p);
        if !(c == 96u8 || c == 126u8) || s[p - 2] != c || s[p - 3] != c || p - 3 < ls {
            None
        } else {
            let a = skip_ws(s, ls, p - 3);
            let e = trim_end_pos(s, ls, p - 3);
            if a < e && !(forall|i: int| a <= i < e ==> s[i] == 62u8) {
                None
            } else {
                Some(c)
            }
        }
    }
}

/// Three backticks (or tildes) typed at the very start of a line open a
/// fence that gets closed: the closing fence goes on the next line, and
/// the cursor stays right after the opening fence.
pub proof fn lemma_fence_at_line_start(v: EditorView, c: u8)
    requires
        view_wf(v),
        c == 96u8 || c == 126u8,
        3 <= v.head <= v.text.len(),
        v.text[v.head - 1] == c && v.text[v.head - 2] == c && v.text[v.head - 3] == c,
        v.head == 3 || v.text[v.head - 4] == 10u8,
    ensures
        fence_to_close(v) == Some(c),
        ins(v.text, v.head, closing_fence(c)) == v.text.subrange(0, v.head) + seq![10u8, c, c, c]
            + v.text.subrange(v.head, v.text.len() as int),
        place(ins(v.text, v.head, closing_fence(c)), v.head) == v.head,
{
    let s = v.text;
    let p = v.head;
    crate::text::lemma_line_start_is(s, p, p - 3);
    assert(line_start_of(s, p) == p - 3);
    lemma_floor_boundary(s, p);
    let t = ins(s, p, closing_fence(c));
    assert(t =~= s.subrange(0, p) + seq![10u8, c, c, c] + s.subrange(p, s.len() as int));
    lemma_floor_boundary(t, p);
    assert(t[p] == 10u8);
    assert(boundary(t, p));
}

pub open spec fn closing_fence(c: u8) -> Seq<u8> {
    seq![10u8, c, c, c]
}


/// The states Tab cycles through on the cursor's line: the cached ones when
/// the cache is for that line, else those found from the text (with the
/// line's own checkbox state).
pub open spec fn tab_states(v: EditorView) -> Seq<Seq<u8>> {
    let k = line_at(v.text, v.head);
    match v.cache {
        Some(c) => if c.0 == k {
            c.1
        } else {
            cycle_states(v.text, k, checkbox_of(markers_of(v.text, k), 0))
        },
        None => cycle_states(v.text, k, checkbox_of(markers_of(v.text, k), 0)),
    }
}

/// The state with the cursor line's tab states cached.
pub open spec fn with_tab_cache(v: EditorView) -> EditorView {
    EditorView { cache: Some((line_at(v.text, v.head), tab_states(v))), ..v }
}

/// `t` is written at `s[a..)`, ending by `e`.
pub open spec fn starts_at(s: Seq<u8>, a: int, e: int, t: Seq<u8>) -> bool {
    &&& 0 <= a
    &&& a + t.len() <= e <= s.len()
    &&& s.subrange(a, a + t.len()) == t
}

/// Among the first `n` states, the first of the longest that the text at
/// `a` starts with.
pub open spec fn best_match(states: Seq<Seq<u8>>, s: Seq<u8>, a: int, e: int, n: int) -> Option<int>
    decreases n,
{
    if n <= 0 {
        None
    } else {
        let b = best_match(states, s, a, e, n - 1);
        if starts_at(s, a, e, states[n - 1]) && (b is None || states[n - 1].len() > states[b->0].len()) {
            Some(n - 1)
        } else {
            b
        }
    }
}

pub proof fn lemma_best_match(states: Seq<Seq<u8>>, s: Seq<u8>, a: int, e: int, n: int)
    ensures
        best_match(states, s, a, e, n) matches Some(i) ==> 0 <= i < n && starts_at(s, a, e, states[i]),
    decreases n,
{
    if n > 0 {
        lemma_best_match(states, s, a, e, n - 1);
    }
}

/// End of line `k`, with its line break.
pub open spec fn line_end_nl(s: Seq<u8>, k: int) -> int {
    let e = line_table(s)[k].1;
    if e < s.len() { e + 1 } else { e }
}

/// The state the cursor's line is in (index into `tab_states`) and where
/// its prefix ends; index 0 and an empty prefix when none matches.
pub open spec fn prefix_match(v: EditorView) -> (int, int) {
    prefix_in(tab_states(v), v.text, v.head)
}

/// The state of `st` that the line holding `p` is in, and where its prefix
/// ends: see `prefix_match`.
pub open spec fn prefix_in(st: Seq<Seq<u8>>, s: Seq<u8>, p: int) -> (int, int) {
    let k = line_at(s, p);
    let ls = line_table(s)[k].0;
    match best_match(st, s, ls, line_end_nl(s, k), st.len() as int) {
        Some(i) => (i, ls + st[i].len()),
        None => (0, ls),
    }
}

/// The cursor's line with `s[line start..pe)` replaced by `t`; a cursor
/// after the old prefix keeps its place in the text after it, one inside it
/// goes to the end of the new prefix.
pub open spec fn set_prefix(v: EditorView, t: Seq<u8>, pe: int) -> EditorView {
    let s = v.text;
    let c = v.head;
    let ls = line_start_of(s, c);
    let nc = if c >= pe { c + t.len() - (pe - ls) } else { ls + t.len() };
    collapse_at(EditorView { text: edit(s, ls, pe, t), ..v }, nc)
}



/// A state made from a text gives that text back.
pub proof fn lemma_new_text(content: Seq<char>)
    ensures
        decode_utf8(encode_utf8(content)) == content,
{
    vstd::utf8::encode_utf8_decode_utf8(content);
}

proof fn lemma_marker_ending_at(ms: Seq<Marker>, i: int, p: int)
    requires
        0 <= i,
    ensures
        marker_ending_at(ms, i, p) matches Some(m) ==> exists|j: int| i <= j < ms.len() && ms[j] == m && m.end == p,
    decreases ms.len() - i,
{
    if i < ms.len() && ms[i].end != p {
        lemma_marker_ending_at(ms, i + 1, p);
    }
}

proof fn lemma_marker_starting_at(ms: Seq<Marker>, i: int, p: int)
    requires
        0 <= i,
    ensures
        marker_starting_at(ms, i, p) matches Some(m) ==> exists|j: int| i <= j < ms.len() && ms[j] == m && m.start == p,
    decreases ms.len() - i,
{
    if i < ms.len() && ms[i].start != p {
        lemma_marker_starting_at(ms, i + 1, p);
    }
}

/// Left moves the cursor back, and Right moves it forward, unless it is
/// already at that end of the text (where it stays).
pub proof fn lemma_moves(v: EditorView)
    requires
        view_wf(v),
        v.text.len() < usize::MAX,
    ensures
        v.head > 0 ==> collapse_at(v, left_of(v.text, v.head)).head < v.head,
        v.head == 0 ==> collapse_at(v, left_of(v.text, v.head)).head == 0,
        v.head < v.text.len() ==> collapse_at(v, right_of(v.text, v.head)).head > v.head,
        v.head == v.text.len() ==> collapse_at(v, right_of(v.text, v.head)).head == v.head,
{
    let s = v.text;
    let p = v.head;
    let k = line_at(s, p);
    crate::text::lemma_line_table_wf(s);
    lemma_line_index_from(line_table(s), 0, p);
    crate::doc::lemma_markers_shape(s, k);
    let ms = markers_of(s, k);
    lemma_marker_ending_at(ms, 0, p);
    lemma_marker_starting_at(ms, 0, p);
    if p > 0 {
        let l = left_of(s, p);
        match marker_ending_at(ms, 0, p) {
            Some(m) => {
                let j = choose|j: int| 0 <= j < ms.len() && ms[j] == m && m.end == p;
                assert(ms[j].start < ms[j].end);
            },
            None => {
                lemma_floor_boundary(s, p - 1);
            },
        }
        assert(l < p);
        lemma_floor_boundary(s, l);
    } else {
        lemma_floor_boundary(s, 0);
    }
    if p < s.len() {
        let r = right_of(s, p);
        match marker_starting_at(ms, 0, p) {
            Some(m) => {
                let j = choose|j: int| 0 <= j < ms.len() && ms[j] == m && m.start == p;
                assert(ms[j].start < ms[j].end <= line_table(s)[k].1);
                assert(ascii(s.subrange(ms[j].start as int, ms[j].end as int)));
                assert(s.subrange(ms[j].start as int, ms[j].end as int)[ms[j].end - ms[j].start - 1] == s[ms[j].end - 1]);
                crate::text::lemma_after_ascii(s, ms[j].end - 1);
            },
            None => {
                lemma_ceil_boundary(s, p + 1);
            },
        }
        assert(r > p && r <= s.len() && boundary(s, r));
        lemma_floor_boundary(s, r);
    } else {
        lemma_floor_boundary(s, s.len() as int);
    }
}

/// Replacing a line's prefix keeps the rest of the text, and a cursor after
/// the prefix keeps its place in the text after it.
pub proof fn lemma_set_prefix(v: EditorView, t: Seq<u8>, pe: int)
    requires
        view_wf(v),
        valid_utf8(t),
        line_start_of(v.text, v.head) <= pe <= v.head,
        boundary(v.text, pe),
    ensures
        ({
            let s = v.text;
            let ls = line_start_of(s, v.head);
            let r = set_prefix(v, t, pe);
            &&& r.text == s.subrange(0, ls) + t + s.subrange(pe, s.len() as int)
            &&& r.head == r.anchor
            &&& r.head == ls + t.len() + (v.head - pe)
        }),
{
    let s = v.text;
    let k = line_at(s, v.head);
    crate::text::lemma_line_table_wf(s);
    lemma_line_index_from(line_table(s), 0, v.head);
    crate::text::lemma_line_start_boundary(s, k);
    let ls = line_start_of(s, v.head);
    lemma_floor_boundary(s, ls);
    lemma_floor_boundary(s, pe);
    let n = splice(s, ls, pe, t);
    assert(edit(s, ls, pe, t) == n);
    let nc = ls + t.len() + (v.head - pe);
    assert(n.len() == s.len() - (pe - ls) + t.len());
    if v.head < s.len() {
        assert(n[nc] == s[v.head]);
    }
    assert(boundary(n, nc));
    lemma_floor_boundary(n, nc);
}

/// Writing a line's old prefix back over the prefix that replaced it
/// undoes the replacement: the text and the (collapsed) cursor are as
/// before. The new prefix holds no line break and the cursor stood after
/// the old prefix.
#[verifier::spinoff_prover]
#[verifier::rlimit(50)]
pub proof fn lemma_set_prefix_undo(v: EditorView, t: Seq<u8>, pe: int)
    requires
        view_wf(v),
        valid_utf8(t),
        line_start_of(v.text, v.head) <= pe <= v.head,
        boundary(v.text, pe),
        forall|j: int| 0 <= j < t.len() ==> t[j] != 10u8,
    ensures
        ({
            let ls = line_start_of(v.text, v.head);
            let v2 = set_prefix(set_prefix(v, t, pe), v.text.subrange(ls, pe), ls + t.len());
            &&& v2.text == v.text
            &&& v2.head == v.head
            &&& v2.anchor == v.head
        }),
{
    let s = v.text;
    let c = v.head;
    let ls = line_start_of(s, c);
    lemma_set_prefix(v, t, pe);
    let v1 = set_prefix(v, t, pe);
    let n = v1.text;
    let nc = v1.head;
    assert(n == s.subrange(0, ls) + t + s.subrange(pe, s.len() as int));
    crate::text::lemma_line_start_props(s, c);
    crate::text::lemma_line_table_wf(s);
    lemma_line_index_from(line_table(s), 0, c);
    crate::text::lemma_line_start_boundary(s, line_at(s, c));
    lemma_floor_boundary(s, ls);
    crate::text::lemma_splice_valid(s, ls, pe, t);
    assert(splice(s, ls, pe, t) == n);
    // the edited line still starts at `ls`
    assert forall|j: int| ls <= j < nc implies n[j] != 10u8 by {
        if j < ls + t.len() {
            assert(n[j] == t[j - ls]);
        } else {
            assert(n[j] == s[j - ls - t.len() + pe]);
        }
    }
    if ls > 0 {
        assert(n[ls - 1] == s[ls - 1]);
    }
    crate::text::lemma_line_start_is(n, nc, ls);
    assert(line_start_of(n, nc) == ls);
    // the cursor and the old prefix's end are boundaries of the edited text
    lemma_floor_boundary(n, nc);
    let pe2 = ls + t.len();
    if pe < s.len() && pe2 < n.len() {
        assert(n[pe2] == s[pe]);
        if pe == 0 {
            vstd::utf8::is_char_boundary_iff_not_is_continuation_byte(s, 0);
            lemma_valid_first_byte(s);
        }
    }
    assert(boundary(n, pe2));
    let w = v.text.subrange(ls, pe);
    crate::text::lemma_boundary(s, pe);
    vstd::utf8::valid_utf8_split(s, pe);
    let head = s.subrange(0, pe);
    assert(boundary(head, ls));
    crate::text::lemma_boundary(head, ls);
    vstd::utf8::valid_utf8_split(head, ls);
    assert(head.subrange(ls, pe) =~= w);
    assert(view_wf(v1));
    lemma_set_prefix(v1, w, pe2);
    let v2 = set_prefix(v1, w, pe2);
    assert(v2.text =~= s);
}

/// Among the first `n` states, `best_match` picks `j` when the text at `a`
/// starts with `st[j]` and every other state it starts with is shorter.
proof fn lemma_best_match_unique(st: Seq<Seq<u8>>, s: Seq<u8>, a: int, e: int, n: int, j: int)
    requires
        0 <= j < n <= st.len(),
        starts_at(s, a, e, st[j]),
        forall|x: int| 0 <= x < n && x != j && starts_at(s, a, e, #[trigger] st[x]) ==> st[x].len() < st[j].len(),
    ensures
        best_match(st, s, a, e, n) == Some(j),
    decreases n,
{
    lemma_best_match(st, s, a, e, n - 1);
    if n - 1 > j {
        lemma_best_match_unique(st, s, a, e, n - 1, j);
    }
}

/// The cycle states Tab uses are ASCII.
proof fn lemma_tab_states_ascii(v: EditorView)
    requires
        view_wf(v),
        v.text.len() < usize::MAX,
    ensures
        forall|x: int| 0 <= x < tab_states(v).len() ==> ascii(#[trigger] tab_states(v)[x]),
{
    let s = v.text;
    let k = line_at(s, v.head);
    crate::text::lemma_line_table_wf(s);
    lemma_line_index_from(line_table(s), 0, v.head);
    crate::outline::lemma_outline(s);
    crate::cycle::lemma_cycle_states_ascii(s, k, checkbox_of(markers_of(s, k), 0));
}

/// Shift+Tab right after a Tab puts the line back: the text and the
/// cursor are as before the Tab. This holds for a text without `[` (so
/// without task checkboxes) whose line prefix is exactly the cycle state
/// it is in, with the cursor after that prefix, when the states hold no
/// `[` or line break and no other state at least as long as the one Tab
/// writes starts the rewritten line (Shift+Tab then reads the line as
/// that state).
#[verifier::spinoff_prover]
#[verifier::rlimit(80)]
pub proof fn lemma_shift_tab_undoes_tab(v: EditorView)
    requires
        view_wf(v),
        crate::edit::no_bracket(v.text),
        forall|x: int| 0 <= x < tab_states(v).len() ==> v.text.len() + (#[trigger] tab_states(v)[x]).len() < usize::MAX,
        forall|x: int, b: int| 0 <= x < tab_states(v).len() && 0 <= b < tab_states(v)[x].len() ==> (#[trigger] tab_states(v)[x][b]) != 91u8 && tab_states(v)[x][b] != 10u8,
        tab_states(v).len() > 1 ==> ({
            let st = tab_states(v);
            let m = prefix_match(v);
            let ls = line_start_of(v.text, v.head);
            let j = (m.0 + 1) % (st.len() as int);
            let n = set_prefix(with_tab_cache(v), st[j], m.1).text;
            &&& v.text.subrange(ls, m.1) == st[m.0]
            &&& m.1 <= v.head
            &&& forall|x: int| 0 <= x < st.len() && x != j && starts_at(n, ls, n.len() as int, #[trigger] st[x])
                ==> st[x].len() < st[j].len()
        }),
    ensures
        tab_spec(tab_spec(v, true), false).text == v.text,
        tab_spec(tab_spec(v, true), false).head == v.head,
{
    let s = v.text;
    let c = v.head;
    let st = tab_states(v);
    let nn = st.len() as int;
    let k0 = line_at(s, c);
    crate::text::lemma_line_table_wf(s);
    lemma_line_index_from(line_table(s), 0, c);
    let v0 = with_tab_cache(v);
    let v1 = tab_spec(v, true);
    if nn <= 1 {
        assert(v1 == v0);
        assert(line_at(v1.text, v1.head) == k0);
        assert(tab_states(v1) == st);
        return;
    }
    if st.len() > 0 {
        assert(s.len() + st[0].len() < usize::MAX);
    }
    lemma_tab_states_ascii(v);
    assert(view_wf(v0));
    let ls = line_start_of(s, c);
    let m = prefix_match(v);
    let i = m.0;
    let pe = m.1;
    let e0 = line_end_nl(s, k0);
    lemma_best_match(st, s, ls, e0, nn);
    assert(0 <= i < nn);
    let j = (i + 1) % nn;
    crate::find::lemma_wrap_inverse(i, nn);
    assert(0 <= j < nn);
    // the old prefix ends on a character boundary
    crate::text::lemma_line_start_props(s, c);
    crate::text::lemma_line_start_boundary(s, k0);
    assert(pe == ls + st[i].len());
    if pe > ls {
        assert(s[pe - 1] == st[i][pe - 1 - ls]);
        assert(ascii(st[i]));
        crate::text::lemma_after_ascii(s, pe - 1);
    }
    assert(boundary(s, pe));
    crate::text::lemma_ascii_valid(st[j]);
    // Tab: the prefix becomes st[j]; nothing to propagate
    let u1 = set_prefix(v0, st[j], pe);
    lemma_set_prefix(v0, st[j], pe);
    let n = u1.text;
    let nc = u1.head;
    assert(s.len() + st[j].len() < usize::MAX);
    assert forall|b: int| 0 <= b < n.len() implies n[b] != 91u8 by {
        if b < ls {
            assert(n[b] == s[b]);
        } else if b < ls + st[j].len() {
            assert(n[b] == st[j][b - ls]);
        } else {
            assert(n[b] == s[b - ls - st[j].len() + pe]);
        }
    }
    crate::edit::lemma_no_bracket_no_propagation(n, nc);
    assert(v1 == after_edit_view(u1));
    assert(v1 == u1);
    // the cursor stays on line k0, which still starts at ls
    assert forall|b: int| ls <= b < nc implies n[b] != 10u8 by {
        if b < ls + st[j].len() {
            assert(n[b] == st[j][b - ls]);
        } else {
            assert(n[b] == s[b - ls - st[j].len() + pe]);
        }
    }
    assert forall|b: int| 0 <= b < ls implies s[b] == n[b] by {}
    crate::text::lemma_nl_count_prefix(s, n, ls);
    crate::text::lemma_nl_count_flat(n, ls, nc);
    crate::text::lemma_nl_count_flat(s, ls, c);
    crate::text::lemma_line_index_count(n, nc);
    crate::text::lemma_line_index_count(s, c);
    assert(line_at(n, nc) == k0);
    if ls > 0 {
        assert(n[ls - 1] == s[ls - 1]);
    }
    crate::text::lemma_line_start_is(n, nc, ls);
    assert(tab_states(v1) == st);
    // Shift+Tab reads the line as st[j]
    crate::text::lemma_line_at(n, nc);
    let e1 = line_end_nl(n, k0);
    assert(n.subrange(ls, ls + st[j].len()) =~= st[j]);
    assert(line_table(n)[k0].1 >= nc);
    assert(nc >= ls + st[j].len());
    assert(line_table(n)[k0].1 <= n.len()) by {
        crate::text::lemma_line_table_wf(n);
    }
    assert(ls + st[j].len() <= e1 <= n.len());
    assert(starts_at(n, ls, e1, st[j]));
    assert forall|x: int| 0 <= x < nn && x != j && starts_at(n, ls, e1, #[trigger] st[x]) implies st[x].len() < st[j].len() by {
        assert(starts_at(n, ls, n.len() as int, st[x]));
    }
    lemma_best_match_unique(st, n, ls, e1, nn, j);
    assert(prefix_match(v1) == (j, ls + st[j].len()));
    let j2 = if j == 0 { nn - 1 } else { j - 1 };
    assert(j2 == i);
    // it writes st[i] back: the text and cursor of before
    lemma_set_prefix_undo(v0, st[j], pe);
    let u2 = set_prefix(with_tab_cache(v1), st[i], ls + st[j].len());
    assert(with_tab_cache(v1) == v1);
    assert(s.subrange(ls, pe) == st[i]);
    assert(u2.text == s && u2.head == c);
    crate::edit::lemma_no_bracket_no_propagation(s, c);
    assert(tab_spec(v1, false) == after_edit_view(u2));
}

/// Valid UTF-8 does not start with a continuation byte.
proof fn lemma_valid_first_byte(s: Seq<u8>)
    requires
        valid_utf8(s),
        s.len() > 0,
    ensures
        !vstd::utf8::is_continuation_byte(s[0]),
{
    reveal_with_fuel(valid_utf8, 2);
}

/// Tab (`forward`) or Shift+Tab: the line's prefix becomes the next (or
/// previous) state of the cycle, wrapping around; then task checkbox states
/// propagate. With at most one state nothing changes but the cache.
pub open spec fn tab_spec(v: EditorView, forward: bool) -> EditorView {
    let st = tab_states(v);
    let v1 = with_tab_cache(v);
    if st.len() <= 1 {
        v1
    } else {
        let m = prefix_match(v);
        let j = if forward {
            (m.0 + 1) % (st.len() as int)
        } else if m.0 == 0 {
            st.len() - 1
        } else {
            m.0 - 1
        };
        after_edit_view(set_prefix(v1, st[j], m.1))
    }
}

/// A copy of a list of byte strings.
fn clone_strs(v: &Vec<Vec<u8>>) -> (r: Vec<Vec<u8>>)
    ensures
        strs_view(r@) == strs_view(v@),
{
    let mut r: Vec<Vec<u8>> = Vec::new();
    let mut i: usize = 0;
    while i < v.len()
        invariant
            i <= v@.len(),
            strs_view(r@) =~= strs_view(v@).subrange(0, i as int),
        decreases v@.len() - i,
    {
        let x = v[i].clone();
        assert(x@ == v@[i as int]@);
        let ghost before = r@;
        r.push(x);
        assert(strs_view(r@) =~= strs_view(before).push(x@));
        assert(strs_view(v@).subrange(0, i + 1) =~= strs_view(v@).subrange(0, i as int).push(v@[i as int]@));
        i = i + 1;
    }
    assert(strs_view(v@).subrange(0, v@.len() as int) =~= strs_view(v@));
    r
}

/// Whether `t` is written at `s[a..)`, ending by `e`.
fn starts_at_exec(s: &Vec<u8>, a: usize, e: usize, t: &Vec<u8>) -> (r: bool)
    requires
        e <= s@.len(),
    ensures
        r == starts_at(s@, a as int, e as int, t@),
{
    if a > e || t.len() > e - a {
        return false;
    }
    let mut i: usize = 0;
    while i < t.len()
        invariant
            a + t@.len() <= e <= s@.len(),
            i <= t@.len(),
            forall|j: int| 0 <= j < i ==> s@[a + j] == t@[j],
        decreases t@.len() - i,
    {
        if s[a + i] != t[i] {
            assert(s@.subrange(a as int, a + t@.len())[i as int] != t@[i as int]);
            return false;
        }
        i = i + 1;
    }
    assert(s@.subrange(a as int, a + t@.len()) =~= t@);
    true
}

/// `best_match` computed over all states.
fn best_match_exec(s: &Vec<u8>, states: &Vec<Vec<u8>>, a: usize, e: usize) -> (r: Option<usize>)
    requires
        e <= s@.len(),
    ensures
        opt_eq(r, best_match(strs_view(states@), s@, a as int, e as int, states@.len() as int)),
        r matches Some(i) ==> i < states@.len() && starts_at(s@, a as int, e as int, states@[i as int]@),
{
    let ghost st = strs_view(states@);
    let mut best: Option<usize> = None;
    let mut i: usize = 0;
    while i < states.len()
        invariant
            i <= states@.len(),
            e <= s@.len(),
            st == strs_view(states@),
            opt_eq(best, best_match(st, s@, a as int, e as int, i as int)),
            best matches Some(j) ==> j < i && starts_at(s@, a as int, e as int, states@[j as int]@),
        decreases states@.len() - i,
    {
        assert(st[i as int] == states@[i as int]@);
        let m = starts_at_exec(s, a, e, &states[i]);
        let longer = match best {
            None => true,
            Some(b) => {
                assert(st[b as int] == states@[b as int]@);
                states[i].len() > states[b].len()
            },
        };
        if m && longer {
            best = Some(i);
        }
        proof {
            lemma_best_match(st, s@, a as int, e as int, i as int);
        }
        i = i + 1;
    }
    best
}


/// `prefix_in` computed, with the line's start.
fn prefix_in_exec(s: &Vec<u8>, st: &Vec<Vec<u8>>, p: usize) -> (r: (usize, usize, usize))
    requires
        st@.len() > 0,
    ensures
        r.0 as int == prefix_in(strs_view(st@), s@, p as int).0,
        r.2 as int == prefix_in(strs_view(st@), s@, p as int).1,
        r.1 as int == line_start_of(s@, p as int),
        r.1 <= r.2,
        r.0 < st@.len(),
{
    let o = analyze(s);
    let k = line_of(s, &o, p);
    proof {
        crate::text::lemma_line_table_wf(s@);
    }
    let ls = o.table[k].0;
    let e = o.table[k].1;
    assert(tab_view(o.table@)[k as int] == line_table(s@)[k as int]);
    let le = if e < s.len() {
        e + 1
    } else {
        e
    };
    let m = best_match_exec(s, st, ls, le);
    match m {
        Some(i) => {
            assert(strs_view(st@)[i as int] == st@[i as int]@);
            (i, ls, ls + st[i].len())
        },
        None => (0, ls, ls),
    }
}


/// Clicking the checkbox of line `line`: it and every task nested in it
/// take the new state (marks set from the last to the first, then their
/// lines struck through or not, from the last to the first), the state
/// propagates to the enclosing tasks, and the cursor follows the text
/// before it. Nothing happens on a line without a checkbox.
pub open spec fn toggle_spec(v: EditorView, line: int) -> EditorView {
    let s = v.text;
    if line < 0 || line >= line_table(s).len() {
        v
    } else {
        match checkbox_of(markers_of(s, line), 0) {
            None => v,
            Some(ch) => match checkbox_offset(s, line, ch) {
                None => v,
                Some(off) => {
                    let new = !ch;
                    let o = outline(s);
                    let ts = match item_at(s, off) {
                        Some(i) => boxes_to_toggle(nested_tasks(o.items, i as int, o.items.len() as int), new),
                        None => seq![off as usize],
                    };
                    let p1 = strike_all(
                        Prop { text: set_boxes(s, ts, new, ts.len() as int), cur: v.head, cleared: false },
                        ts,
                        new,
                        ts.len() as int,
                    );
                    let p2 = propagate_up(p1, off, new);
                    EditorView {
                        text: p2.text,
                        anchor: place(p2.text, p2.cur),
                        head: place(p2.text, p2.cur),
                        cache: if p2.cleared { None } else { v.cache },
                    }
                },
            },
        }
    }
}


/// A line break inserted as typed text, then `t`, when it is not empty.
pub open spec fn newline_then(v: EditorView, t: Seq<u8>) -> EditorView {
    let v1 = insert_spec(v, seq![10u8]);
    if t.len() == 0 {
        v1
    } else {
        insert_spec(v1, t)
    }
}

/// Shift+Enter: in a code block, a line break and the leading spaces and
/// tabs of the cursor's line; elsewhere a line break and the continuation
/// of the line's markers.
pub open spec fn shift_enter_spec(v: EditorView) -> EditorView {
    let s = v.text;
    let p = v.head;
    if code_block_at(s, p) is Some {
        let ls = line_start_of(s, p);
        newline_then(v, s.subrange(ls, blanks_end(s, ls, line_end_of(s, p))))
    } else {
        let ms = markers_of(s, line_at(s, p));
        newline_then(v, continuation(s, ms, ms.len() as int))
    }
}

/// Shift+Alt+Enter: a line break and the indent of a nested paragraph.
pub open spec fn shift_alt_enter_spec(v: EditorView) -> EditorView {
    newline_then(v, alt_indent(v.text, markers_of(v.text, line_at(v.text, v.head))))
}

/// Some marker of `ms` is a code fence.
pub open spec fn has_fence(ms: Seq<Marker>) -> bool {
    exists|i: int| 0 <= i < ms.len() && (#[trigger] ms[i]).kind is CodeBlockFence
}

/// A line has content after its markers; a fence line always has.
pub open spec fn line_has_content(s: Seq<u8>, lm: (int, int, Seq<Marker>)) -> bool {
    has_fence(lm.2) || !all_ws(s, content_start_of(lm), lm.1)
}

/// The markers of `ms` include a container: a block quote or a list item.
pub open spec fn has_container(ms: Seq<Marker>) -> bool {
    has_blockquote(ms) || has_list(ms)
}


/// The level of the first heading marker among `ms[i..]`.
pub open spec fn heading_of(ms: Seq<Marker>, i: int) -> Option<u8>
    decreases ms.len() - i,
{
    if i < 0 || i >= ms.len() {
        None
    } else {
        match ms[i].kind {
            MarkerKind::Heading(level) => Some(level),
            _ => heading_of(ms, i + 1),
        }
    }
}

/// The level of the nearest heading at or above line `k`.
pub open spec fn heading_above(s: Seq<u8>, k: int) -> Option<u8>
    decreases k + 1,
{
    if k < 0 {
        None
    } else {
        match heading_of(markers_of(s, k), 0) {
            Some(level) => Some(level),
            None => heading_above(s, k - 1),
        }
    }
}


proof fn lemma_heading_of_first(ms: Seq<Marker>, j: int, i: int, l: u8)
    requires
        0 <= j <= i < ms.len(),
        ms[i].kind == MarkerKind::Heading(l),
        forall|x: int| j <= x < i ==> !((#[trigger] ms[x]).kind is Heading),
    ensures
        heading_of(ms, j) == Some(l),
    decreases i - j,
{
    if j < i {
        lemma_heading_of_first(ms, j + 1, i, l);
    }
}

/// At a line that holds a heading, the current heading is that heading:
/// its level, whatever comes above it.
pub proof fn lemma_heading_at_line(s: Seq<u8>, k: int, i: int, l: u8)
    requires
        0 <= k,
        0 <= i < markers_of(s, k).len(),
        markers_of(s, k)[i].kind == MarkerKind::Heading(l),
        forall|x: int| 0 <= x < i ==> !((#[trigger] markers_of(s, k)[x]).kind is Heading),
    ensures
        heading_above(s, k) == Some(l),
{
    lemma_heading_of_first(markers_of(s, k), 0, i, l);
}

/// A line without a heading has the current heading of the line above it.
pub proof fn lemma_heading_from_above(s: Seq<u8>, k: int)
    requires
        0 <= k,
        forall|x: int| 0 <= x < markers_of(s, k).len() ==> !((#[trigger] markers_of(s, k)[x]).kind is Heading),
    ensures
        heading_above(s, k) == heading_above(s, k - 1),
{
    lemma_no_heading(markers_of(s, k), 0);
}

proof fn lemma_no_heading(ms: Seq<Marker>, j: int)
    requires
        0 <= j,
        forall|x: int| 0 <= x < ms.len() ==> !((#[trigger] ms[x]).kind is Heading),
    ensures
        heading_of(ms, j) is None,
    decreases ms.len() - j,
{
    if j < ms.len() {
        lemma_no_heading(ms, j + 1);
    }
}

/// A line whose markers are all block quote markers (at least one).
pub open spec fn blockquote_only(ms: Seq<Marker>) -> bool {
    ms.len() > 0 && forall|i: int| 0 <= i < ms.len() ==> (#[trigger] ms[i]).kind is BlockQuote
}


/// Space is ignored: outside a fenced code block, at the start of the
/// cursor's line, or where the content of a block-quote-only line starts.
pub open spec fn space_ignored(v: EditorView) -> bool {
    let ms = markers_of(v.text, line_at(v.text, v.head));
    &&& code_block_at(v.text, v.head) is None
    &&& (v.head == line_start_of(v.text, v.head) || (blockquote_only(ms) && v.head == ms.last().end))
}

/// `text[a..b)` replaced by `t` as raw text (no checkbox propagation, the
/// tab cycle cache kept); the cursor goes after `t`.
pub open spec fn raw_replace(v: EditorView, a: int, b: int, t: Seq<u8>) -> EditorView {
    let n = ins(del(v.text, a, b), a, t);
    EditorView { text: n, anchor: place(n, a + t.len()), head: place(n, a + t.len()), ..v }
}

/// `text[a..b)` deleted as raw text; the selection ends stay where they
/// were, clamped to the new text.
pub open spec fn raw_delete(v: EditorView, a: int, b: int) -> EditorView {
    let n = del(v.text, a, b);
    EditorView { text: n, anchor: place(n, v.anchor), head: place(n, v.head), ..v }
}

/// Whether `s[a..e)` is all `>`.
fn all_gt(s: &Vec<u8>, a: usize, e: usize) -> (r: bool)
    requires
        e <= s@.len(),
    ensures
        r == (forall|i: int| a <= i < e ==> s@[i] == 62u8),
{
    let mut i = a;
    while i < e
        invariant
            a <= i,
            e <= s@.len(),
            forall|j: int| a <= j < i ==> s@[j] == 62u8,
        decreases e - i,
    {
        if s[i] != 62u8 {
            return false;
        }
        i = i + 1;
    }
    true
}

impl EditorState {
    /// The state is well formed: valid UTF-8, selection on boundaries.
    pub open spec fn wf(&self) -> bool {
        view_wf(self@)
    }

    /// A state holding `content`, with the cursor at the start.
    pub fn new(content: &str) -> (r: EditorState)
        ensures
            r.wf(),
            r@.text == encode_utf8(content@),
            r@.anchor == 0 && r@.head == 0,
            r@.cache is None,
    {
        let buffer = str_bytes(content);
        EditorState { buffer, selection: Selection::new(0, 0), tab_cycle_cache: None }
    }

    /// The cursor (the selection's head).
    pub fn cursor(&self) -> (c: Cursor)
        ensures
            c.offset == self@.head,
    {
        self.selection.cursor()
    }

    /// The selection.
    pub fn selection(&self) -> (r: Selection)
        ensures
            r.anchor == self@.anchor && r.head == self@.head,
    {
        self.selection
    }

    /// The text.
    pub fn text(&self) -> (r: String)
        requires
            valid_utf8(self@.text),
        ensures
            r@ == decode_utf8(self@.text),
    {
        string_from_utf8(self.buffer.clone())
    }

    /// The text's bytes.
    pub fn text_bytes(&self) -> (r: Vec<u8>)
        ensures
            r@ == self@.text,
    {
        self.buffer.clone()
    }

    /// Length of the text in bytes.
    pub fn len(&self) -> (r: usize)
        ensures
            r == self@.text.len(),
    {
        self.buffer.len()
    }

    /// The text's bytes, borrowed.
    pub fn buffer(&self) -> (r: &Vec<u8>)
        ensures
            r@ == self@.text,
    {
        &self.buffer
    }

    /// Replaces the whole text, with the cursor at the start; the tab cycle
    /// cache is kept.
    pub fn set_text(&mut self, content: &str)
        requires
            old(self).wf(),
        ensures
            final(self).wf(),
            final(self)@ == (EditorView { text: encode_utf8(content@), anchor: 0, head: 0, ..old(self)@ }),
    {
        self.buffer = str_bytes(content);
        self.selection = Selection::new(0, 0);
    }

    /// Appends `text` at the end of the text and puts the cursor after it,
    /// as a raw edit (no checkbox propagation, the tab cycle cache kept).
    pub fn append(&mut self, text: &str)
        requires
            old(self).wf(),
        ensures
            final(self).wf(),
            final(self)@ == (EditorView {
                text: old(self)@.text + encode_utf8(text@),
                anchor: (old(self)@.text.len() + encode_utf8(text@).len()) as int,
                head: (old(self)@.text.len() + encode_utf8(text@).len()) as int,
                ..old(self)@
            }),
    {
        let t = str_bytes(text);
        push_all(&mut self.buffer, &t, 0, t.len());
        proof {
            assert(t@.subrange(0, t@.len() as int) =~= t@);
            vstd::utf8::valid_utf8_concat(old(self)@.text, t@);
        }
        let n = self.buffer.len();
        self.selection = Selection::new(n, n);
    }

    /// Collapses the selection at `place(text, p)`.
    fn collapse(&mut self, p: usize)
        requires
            old(self).wf(),
        ensures
            final(self).wf(),
            final(self)@ == collapse_at(old(self)@, p as int),
    {
        let q = place_exec(&self.buffer, p);
        self.selection = Selection::new(q, q);
    }

    /// Set cursor position by byte offset: both ends of the selection go to
    /// `offset`, clamped to the length of the text. The state stays well
    /// formed when that is a character boundary.
    pub fn set_cursor(&mut self, offset: usize)
        ensures
            final(self)@ == (EditorView {
                anchor: clamp_len(old(self)@.text, offset as int),
                head: clamp_len(old(self)@.text, offset as int),
                ..old(self)@
            }),
            old(self).wf() ==> (final(self).wf() <==> boundary(old(self)@.text, clamp_len(old(self)@.text, offset as int))),
    {
        let n = self.buffer.len();
        let p = if offset > n {
            n
        } else {
            offset
        };
        self.selection = Selection::new(p, p);
    }

    /// Move cursor left by one character, or over a whole marker.
    pub fn move_left(&mut self)
        requires
            old(self).wf(),
        ensures
            final(self).wf(),
            final(self)@ == collapse_at(old(self)@, left_of(old(self)@.text, old(self)@.head)),
    {
        let p = left_of_exec(&self.buffer, self.selection.head);
        self.collapse(p);
    }

    /// Move cursor right by one character, or over a whole marker.
    pub fn move_right(&mut self)
        requires
            old(self).wf(),
        ensures
            final(self).wf(),
            final(self)@ == collapse_at(old(self)@, right_of(old(self)@.text, old(self)@.head)),
    {
        let p = right_of_exec(&self.buffer, self.selection.head);
        self.collapse(p);
    }

    /// Move cursor up by one line.
    pub fn move_up(&mut self)
        requires
            old(self).wf(),
        ensures
            final(self).wf(),
            final(self)@ == collapse_at(old(self)@, up_of(old(self)@.text, old(self)@.head)),
    {
        let p = up_of_exec(&self.buffer, self.selection.head);
        self.collapse(p);
    }

    /// Move cursor down by one line.
    pub fn move_down(&mut self)
        requires
            old(self).wf(),
        ensures
            final(self).wf(),
            final(self)@ == collapse_at(old(self)@, down_of(old(self)@.text, old(self)@.head)),
    {
        let p = down_of_exec(&self.buffer, self.selection.head);
        self.collapse(p);
    }

    /// Move cursor to start of current line.
    pub fn move_to_line_start(&mut self)
        requires
            old(self).wf(),
        ensures
            final(self).wf(),
            final(self)@ == collapse_at(old(self)@, line_start_of(old(self)@.text, old(self)@.head)),
    {
        let b = line_bounds(&self.buffer, self.selection.head);
        self.collapse(b.0);
    }

    /// Move cursor to end of current line.
    pub fn move_to_line_end(&mut self)
        requires
            old(self).wf(),
        ensures
            final(self).wf(),
            final(self)@ == collapse_at(old(self)@, line_end_of(old(self)@.text, old(self)@.head)),
    {
        let b = line_bounds(&self.buffer, self.selection.head);
        self.collapse(b.1);
    }

    /// A click at `buffer_offset`: see `click_spec`.
    pub fn handle_click(&mut self, buffer_offset: usize, shift_held: bool, click_count: usize)
        requires
            old(self).wf(),
        ensures
            final(self).wf(),
            final(self)@ == click_spec(old(self)@, buffer_offset as int, shift_held, click_count as int),
    {
        let o = place_exec(&self.buffer, buffer_offset);
        if shift_held {
            self.selection = self.selection.extend_to(o);
        } else if click_count == 2 {
            let w = word_bounds(&self.buffer, o);
            let a = place_exec(&self.buffer, w.0);
            let b = place_exec(&self.buffer, w.1);
            self.selection = Selection::new(a, b);
        } else if click_count == 3 {
            let l = line_bounds(&self.buffer, o);
            let a = place_exec(&self.buffer, l.0);
            let b = place_exec(&self.buffer, l.1);
            self.selection = Selection::new(a, b);
        } else {
            self.selection = Selection::new(o, o);
        }
    }

    /// Propagates task checkbox states after an edit.
    fn finish_edit(&mut self)
        requires
            old(self).wf(),
        ensures
            final(self).wf(),
            final(self)@ == after_edit_view(old(self)@),
    {
        let h = self.selection.head;
        let mut buf = self.buffer.clone();
        assert(buf@ == self.buffer@);
        let r = after_edit_exec(&mut buf, h);
        match r {
            None => {},
            Some(x) => {
                let q = place_exec(&buf, x.0);
                self.buffer = buf;
                self.selection = Selection::new(q, q);
                if x.1 {
                    self.tab_cycle_cache = None;
                }
            },
        }
    }

    /// Replaces the text, collapsing the selection at `place(t, p)`.
    fn set_text_at(&mut self, t: Vec<u8>, p: usize)
        requires
            old(self).wf(),
            valid_utf8(t@),
        ensures
            final(self).wf(),
            final(self)@ == collapse_at(EditorView { text: t@, ..old(self)@ }, p as int),
    {
        let q = place_exec(&t, p);
        self.buffer = t;
        self.selection = Selection::new(q, q);
    }

    fn insert_bytes(&mut self, t: &[u8])
        requires
            old(self).wf(),
            valid_utf8(t@),
        ensures
            final(self).wf(),
            final(self)@ == insert_spec(old(self)@, t@),
    {
        self.tab_cycle_cache = None;
        let cursor_before = self.selection.head;
        let mut buf = self.buffer.clone();
        assert(buf@ == self.buffer@);
        let insert_pos = if !self.selection.is_collapsed() {
            let r = self.selection.range();
            apply_edit(&mut buf, r.0, r.1, &[]);
            r.0
        } else {
            cursor_before
        };
        apply_edit(&mut buf, insert_pos, insert_pos, t);
        let new_pos = if insert_pos <= usize::MAX - t.len() {
            insert_pos + t.len()
        } else {
            usize::MAX
        };
        let n = buf.len();
        assert(insert_pos + t@.len() > usize::MAX ==> place(buf@, new_pos as int) == place(buf@, insert_pos + t@.len()));
        self.set_text_at(buf, new_pos);
        self.finish_edit();
    }

    /// Insert text at the current cursor position.
    pub fn insert_text(&mut self, text: &str)
        requires
            old(self).wf(),
        ensures
            final(self).wf(),
            final(self)@ == insert_spec(old(self)@, encode_utf8(text@)),
    {
        let t = str_bytes(text);
        self.insert_bytes(t.as_slice());
    }

    /// Enter: a raw line break.
    pub fn enter(&mut self)
        requires
            old(self).wf(),
        ensures
            final(self).wf(),
            final(self)@ == insert_spec(old(self)@, seq![10u8]),
    {
        let t = vec![10u8];
        proof {
            crate::text::lemma_ascii_valid(t@);
            assert(t@ =~= seq![10u8]);
        }
        self.insert_bytes(t.as_slice());
    }

    /// Deletes the selection.
    pub fn delete_selection(&mut self)
        requires
            old(self).wf(),
        ensures
            final(self).wf(),
            final(self)@ == delete_selection_spec(old(self)@),
    {
        let r = self.selection.range();
        let mut buf = self.buffer.clone();
        assert(buf@ == self.buffer@);
        apply_edit(&mut buf, r.0, r.1, &[]);
        self.set_text_at(buf, r.0);
    }

    /// `empty_code_block_range` computed.
    pub fn find_empty_code_block_range(&self, cursor_pos: usize) -> (r: Option<(usize, usize)>)
        ensures
            match empty_code_block_range(self@.text, cursor_pos as int) {
                Some(x) => r is Some && pair_eq(r->0, x),
                None => r is None,
            },
    {
        let s = &self.buffer;
        let o = analyze(s);
        match code_block_at_exec(s, &o, cursor_pos) {
            None => None,
            Some(b) => {
                let nl = find_newline(s, b.start);
                if nl >= b.end {
                    return None;
                }
                let cs = nl + 1;
                let a = skip_ws_from(s, cs, b.end);
                let e = trim_end_at(s, cs, b.end);
                proof {
                    crate::marker::lemma_trim_end_from(s@, cs as int, b.end as int, cs as int);
                }
                let fence = e >= a && e - a == 3 && ((s[a] == 96u8 && s[a + 1] == 96u8 && s[a + 2] == 96u8)
                    || (s[a] == 126u8 && s[a + 1] == 126u8 && s[a + 2] == 126u8));
                if fence {
                    let end = if b.end > 0 && s[b.end - 1] == 10u8 {
                        b.end - 1
                    } else {
                        b.end
                    };
                    Some((b.start, end))
                } else {
                    None
                }
            },
        }
    }

    /// Delete backward (backspace); markers and indents are deleted whole.
    pub fn delete_backward(&mut self)
        requires
            old(self).wf(),
        ensures
            final(self).wf(),
            final(self)@ == delete_backward_spec(old(self)@),
    {
        self.tab_cycle_cache = None;
        if !self.selection.is_collapsed() {
            self.delete_selection();
            self.finish_edit();
            return;
        }
        let p = self.selection.head;
        if p == 0 {
            return;
        }
        let mut buf = self.buffer.clone();
        assert(buf@ == self.buffer@);
        match self.backspace_range_with_type(p) {
            Some((m, _is_indent)) => {
                match self.find_empty_code_block_range(p) {
                    Some(r) => {
                        apply_edit(&mut buf, r.0, r.1, &[]);
                        self.set_text_at(buf, r.0);
                    },
                    None => {
                        apply_edit(&mut buf, m.0, m.1, &[]);
                        self.set_text_at(buf, m.0);
                    },
                }
            },
            None => {
                let np = floor_char_boundary(&self.buffer, p - 1);
                apply_edit(&mut buf, np, p, &[]);
                self.set_text_at(buf, np);
            },
        }
        self.finish_edit();
    }

    /// Delete the character after the cursor (or the marker starting
    /// there), or the selection if active.
    pub fn delete_forward(&mut self)
        requires
            old(self).wf(),
        ensures
            final(self).wf(),
            final(self)@ == delete_forward_spec(old(self)@),
    {
        self.tab_cycle_cache = None;
        if !self.selection.is_collapsed() {
            self.delete_selection();
        } else if self.selection.head < self.buffer.len() {
            let p = self.selection.head;
            let next = right_of_exec(&self.buffer, p);
            let mut buf = self.buffer.clone();
            assert(buf@ == self.buffer@);
            apply_edit(&mut buf, p, next, &[]);
            self.set_text_at(buf, p);
        }
        self.finish_edit();
    }

    /// Space: ignored (nothing changes, false) outside code blocks at the
    /// start of a line or where the content of a block-quote-only line
    /// starts; otherwise a space is typed (true). See `space_ignored`.
    pub fn try_insert_space(&mut self) -> (r: bool)
        requires
            old(self).wf(),
        ensures
            final(self).wf(),
            r == !space_ignored(old(self)@),
            r ==> final(self)@ == insert_spec(old(self)@, seq![32u8]),
            !r ==> final(self)@ == old(self)@,
    {
        if !self.cursor_in_code_block() {
            let b = line_bounds(&self.buffer, self.selection.head);
            if self.selection.head == b.0 || self.cursor_at_blockquote_content_start() {
                return false;
            }
        }
        let t = vec![32u8];
        proof {
            crate::text::lemma_ascii_valid(t@);
            assert(t@ =~= seq![32u8]);
        }
        self.insert_bytes(t.as_slice());
        true
    }

    /// Auto-insert space after `>` if it just became a block quote marker.
    /// Returns true if a space was inserted.
    pub fn maybe_complete_blockquote_marker(&mut self) -> (r: bool)
        requires
            old(self).wf(),
        ensures
            final(self).wf(),
            r == completes_blockquote(old(self)@),
            r ==> final(self)@ == insert_spec(old(self)@, seq![32u8]),
            !r ==> final(self)@ == old(self)@,
    {
        let p = self.selection.head;
        if p == 0 {
            return false;
        }
        if self.buffer[p - 1] != 62u8 {
            return false;
        }
        if p < self.buffer.len() && self.buffer[p] == 32u8 {
            return false;
        }
        let o = analyze(&self.buffer);
        let k = line_of(&self.buffer, &o, p);
        let lm = line_markers(&self.buffer, &o, k);
        if !lm.has_blockquote() {
            return false;
        }
        let t = vec![32u8];
        proof {
            crate::text::lemma_ascii_valid(t@);
            assert(t@ =~= seq![32u8]);
        }
        self.insert_bytes(t.as_slice());
        true
    }

    /// `fence_to_close` computed.
    fn fence_char(&self) -> (r: Option<u8>)
        requires
            self.wf(),
        ensures
            r == fence_to_close(self@),
    {
        let p = self.selection.head;
        if p < 3 {
            return None;
        }
        let s = &self.buffer;
        let c = s[p - 1];
        let b = line_bounds(s, p);
        let ls = b.0;
        if !(c == 96u8 || c == 126u8) || s[p - 2] != c || s[p - 3] != c || p - 3 < ls {
            return None;
        }
        let a = skip_ws_from(s, ls, p - 3);
        let e = trim_end_at(s, ls, p - 3);
        if a < e && !all_gt(s, a, e) {
            return None;
        }
        Some(c)
    }

    /// After typing a backtick or tilde, when it completes an opening fence
    /// at the start of a line, inserts the closing fence on the next line;
    /// the cursor stays after the opening fence.
    pub fn maybe_complete_code_fence(&mut self)
        requires
            old(self).wf(),
        ensures
            final(self).wf(),
            match fence_to_close(old(self)@) {
                None => final(self)@ == old(self)@,
                Some(c) => {
                    let t = ins(old(self)@.text, old(self)@.head, closing_fence(c));
                    final(self)@ == (EditorView {
                        text: t,
                        anchor: place(t, old(self)@.anchor),
                        head: place(t, old(self)@.head),
                        ..old(self)@
                    })
                },
            },
    {
        let p = self.selection.head;
        let c = match self.fence_char() {
            None => {
                return;
            },
            Some(c) => c,
        };
        let t = vec![10u8, c, c, c];
        proof {
            crate::text::lemma_ascii_valid(t@);
            assert(t@ =~= closing_fence(c));
        }
        let mut buf = self.buffer.clone();
        assert(buf@ == self.buffer@);
        apply_edit(&mut buf, p, p, t.as_slice());
        let na = place_exec(&buf, self.selection.anchor);
        let nh = place_exec(&buf, p);
        self.buffer = buf;
        self.selection = Selection::new(na, nh);
    }


    /// The states Tab cycles through on the cursor's line, from the cache
    /// when it is for that line; they are cached.
    fn tab_cycle_states(&mut self) -> (r: Vec<Vec<u8>>)
        requires
            old(self).wf(),
        ensures
            final(self).wf(),
            final(self)@ == with_tab_cache(old(self)@),
            strs_view(r@) == tab_states(old(self)@),
    {
        let o = analyze(&self.buffer);
        let k = line_of(&self.buffer, &o, self.selection.head);
        match &self.tab_cycle_cache {
            Some(c) => {
                if c.line_idx == k {
                    return clone_strs(&c.states);
                }
            },
            None => {},
        }
        let lm = line_markers(&self.buffer, &o, k);
        let cb = lm.checkbox();
        let st = cycle_states_exec(&self.buffer, &o, k, cb);
        let _n = self.buffer.len();
        proof {
            crate::cycle::lemma_cycle_states_ascii(self.buffer@, k as int, cb);
        }
        self.tab_cycle_cache = Some(TabCycleCache { line_idx: k, states: clone_strs(&st) });
        st
    }

    /// Replaces the cursor line's prefix `text[ls..pe)` by `t`: see
    /// `set_prefix`.
    fn set_line_prefix(&mut self, t: &Vec<u8>, ls: usize, pe: usize)
        requires
            old(self).wf(),
            ascii(t@),
            ls == line_start_of(old(self)@.text, old(self)@.head),
            ls <= pe,
        ensures
            final(self).wf(),
            final(self)@ == set_prefix(old(self)@, t@, pe as int),
    {
        proof {
            crate::text::lemma_ascii_valid(t@);
        }
        let c = self.selection.head;
        let mut buf = self.buffer.clone();
        assert(buf@ == self.buffer@);
        apply_edit(&mut buf, ls, pe, t.as_slice());
        let _n = buf.len();
        let nc = if c >= pe {
            let d = c - (pe - ls);
            if d <= usize::MAX - t.len() {
                d + t.len()
            } else {
                usize::MAX
            }
        } else if ls <= usize::MAX - t.len() {
            ls + t.len()
        } else {
            usize::MAX
        };
        assert(place(buf@, nc as int) == place(buf@, if c >= pe { c + t@.len() - (pe - ls) } else { ls + t@.len() }));
        self.set_text_at(buf, nc);
    }

    /// Tab (`forward`) or Shift+Tab: see `tab_spec`.
    fn cycle(&mut self, forward: bool)
        requires
            old(self).wf(),
        ensures
            final(self).wf(),
            final(self)@ == tab_spec(old(self)@, forward),
    {
        let st = self.tab_cycle_states();
        if st.len() <= 1 {
            return;
        }
        let (i, ls, pe) = prefix_in_exec(&self.buffer, &st, self.selection.head);
        let j = if forward {
            (i + 1) % st.len()
        } else if i == 0 {
            st.len() - 1
        } else {
            i - 1
        };
        assert(strs_view(st@)[j as int] == st@[j as int]@);
        assert((self@.cache->0).1 == strs_view(st@));
        assert(ascii((self@.cache->0).1[j as int]));
        self.set_line_prefix(&st[j], ls, pe);
        self.finish_edit();
    }

    /// Tab: the line's prefix moves to the next state of its nesting cycle.
    pub fn tab(&mut self)
        requires
            old(self).wf(),
        ensures
            final(self).wf(),
            final(self)@ == tab_spec(old(self)@, true),
    {
        self.cycle(true);
    }

    /// Shift+Tab: the line's prefix moves to the previous state of its
    /// nesting cycle.
    pub fn shift_tab(&mut self)
        requires
            old(self).wf(),
        ensures
            final(self).wf(),
            final(self)@ == tab_spec(old(self)@, false),
    {
        self.cycle(false);
    }


    /// Toggle a checkbox on the given line, propagating to children and
    /// parents: see `toggle_spec`.
    pub fn toggle_checkbox_state(&mut self, line_number: usize)
        requires
            old(self).wf(),
        ensures
            final(self).wf(),
            final(self)@ == toggle_spec(old(self)@, line_number as int),
    {
        let o = analyze(&self.buffer);
        if line_number >= o.table.len() {
            return;
        }
        let lm = line_markers(&self.buffer, &o, line_number);
        let ch = match lm.checkbox() {
            None => {
                return;
            },
            Some(c) => c,
        };
        let off = match checkbox_offset_exec(&self.buffer, &o, line_number, ch) {
            None => {
                return;
            },
            Some(x) => x,
        };
        proof {
            crate::edit::lemma_checkbox_offset(self.buffer@, line_number as int, ch);
        }
        let new = !ch;
        let ts: Vec<usize> = match item_at_exec(&self.buffer, &o, off) {
            Some(i) => {
                let cbs = nested_tasks_exec(&o.items, i);
                proof {
                    let items = o.items@;
                    assert forall|q: int| 0 <= q < items.len() && (#[trigger] items[q]).task is Some implies
                        crate::marker::box_bytes(self.buffer@, items[q].task->0.start as int) by {
                        assert(crate::outline::item_wf(self.buffer@, items[q], q, line_table(self.buffer@).len() as int));
                    }
                    crate::doc::lemma_nested_tasks_boxes(self.buffer@, items, i as int, items.len() as int);
                    crate::edit::lemma_boxes_to_toggle(self.buffer@, cbs@, new);
                }
                boxes_to_toggle_exec(&cbs, new)
            },
            None => {
                let v = vec![off];
                assert(v@ =~= seq![off]);
                v
            },
        };
        let mut ps = PropState { buf: self.buffer.clone(), cur: self.selection.head, cleared: false };
        assert(ps.buf@ == self.buffer@);
        set_boxes_exec(&mut ps, &ts, new);
        strike_all_exec(&mut ps, &ts, new);
        propagate_up_exec(&mut ps, off, new);
        let q = place_exec(&ps.buf, ps.cur);
        self.buffer = ps.buf;
        self.selection = Selection::new(q, q);
        if ps.cleared {
            self.tab_cycle_cache = None;
        }
    }


    /// Line index and markers of the line holding `byte_pos`.
    fn find_line_at(&self, byte_pos: usize) -> (r: Option<(usize, LineMarkers)>)
        ensures
            r matches Some(x) && x.0 == line_at(self@.text, byte_pos as int)
                && x.1.spec_tuple() == line_markers_spec(self@.text, x.0 as int)
                && x.1.end <= self@.text.len()
                && (forall|i: int| 0 <= i < x.1.markers@.len() ==> (#[trigger] x.1.markers@[i]).start <= x.1.markers@[i].end <= x.1.end)
                && (forall|i: int| 0 <= i < x.1.markers@.len() ==> ascii(self@.text.subrange((#[trigger] x.1.markers@[i]).start as int, x.1.markers@[i].end as int))),
    {
        let o = analyze(&self.buffer);
        let k = line_of(&self.buffer, &o, byte_pos);
        Some((k, line_markers(&self.buffer, &o, k)))
    }

    /// The marker ending at `cursor_pos`, which Backspace deletes whole, and
    /// whether it is an indent.
    fn backspace_range_with_type(&self, cursor_pos: usize) -> (r: Option<((usize, usize), bool)>)
        ensures
            match marker_ending_at(markers_of(self@.text, line_at(self@.text, cursor_pos as int)), 0, cursor_pos as int) {
                Some(m) => r == Some(((m.start, m.end), m.kind is Indent)),
                None => r is None,
            },
    {
        let (_, line) = match self.find_line_at(cursor_pos) {
            Some(x) => x,
            None => {
                return None;
            },
        };
        match line.ending_at(cursor_pos) {
            Some(m) => {
                let is_indent = match m.kind {
                    MarkerKind::Indent => true,
                    _ => false,
                };
                Some(((m.start, m.end), is_indent))
            },
            None => None,
        }
    }

    /// Whether the cursor's line is in a fenced code block.
    pub fn cursor_in_code_block(&self) -> (r: bool)
        ensures
            r == (code_block_at(self@.text, self@.head) is Some),
    {
        let o = analyze(&self.buffer);
        code_block_at_exec(&self.buffer, &o, self.selection.head).is_some()
    }

    /// The spaces and tabs that start the cursor's line.
    fn current_line_leading_whitespace(&self) -> (r: Vec<u8>)
        ensures
            r@ == self@.text.subrange(
                line_start_of(self@.text, self@.head),
                blanks_end(self@.text, line_start_of(self@.text, self@.head), line_end_of(self@.text, self@.head)),
            ),
            ascii(r@),
    {
        let b = line_bounds(&self.buffer, self.selection.head);
        let e = blanks_end_exec(&self.buffer, b.0, b.1);
        let mut r: Vec<u8> = Vec::new();
        push_all(&mut r, &self.buffer, b.0, e);
        assert(r@ =~= self@.text.subrange(b.0 as int, e as int));
        r
    }

    /// Whether a line has content after its markers.
    fn line_has_content(&self, line: &LineMarkers) -> (r: bool)
        requires
            line.end <= self@.text.len(),
        ensures
            r == line_has_content(self@.text, line.spec_tuple()),
    {
        let mut i: usize = 0;
        while i < line.markers.len()
            invariant
                i <= line.markers@.len(),
                forall|j: int| 0 <= j < i ==> !((#[trigger] line.markers@[j]).kind is CodeBlockFence),
            decreases line.markers@.len() - i,
        {
            match line.markers[i].kind {
                MarkerKind::CodeBlockFence { .. } => {
                    return true;
                },
                _ => {},
            }
            i = i + 1;
        }
        let cs = line.content_start();
        !is_all_ws(&self.buffer, cs, line.end)
    }

    /// Context about the line at the cursor.
    fn line_context(&self) -> (r: Option<LineContext>)
        ensures
            r matches Some(c) && {
                let s = self@.text;
                let k = line_at(s, self@.head);
                &&& c.cursor_offset == self@.head
                &&& c.line_idx == k
                &&& c.line.spec_tuple() == line_markers_spec(s, k)
                &&& c.line.end <= s.len()
                &&& (forall|i: int| 0 <= i < c.line.markers@.len() ==> (#[trigger] c.line.markers@[i]).start <= c.line.markers@[i].end <= c.line.end)
                &&& (forall|i: int| 0 <= i < c.line.markers@.len() ==> ascii(s.subrange((#[trigger] c.line.markers@[i]).start as int, c.line.markers@[i].end as int)))
                &&& c.is_empty == !line_has_content(s, line_markers_spec(s, k))
                &&& c.has_container == has_container(markers_of(s, k))
                &&& match c.prev_line {
                    Some(pl) => k > 0 && pl.spec_tuple() == line_markers_spec(s, k - 1),
                    None => k == 0,
                }
            },
    {
        let cursor_offset = self.selection.head;
        let o = analyze(&self.buffer);
        let line_idx = line_of(&self.buffer, &o, cursor_offset);
        let line = line_markers(&self.buffer, &o, line_idx);
        let is_empty = !self.line_has_content(&line);
        let has_container = line.has_blockquote() || line.has_list();
        let prev_line = if line_idx > 0 {
            Some(line_markers(&self.buffer, &o, line_idx - 1))
        } else {
            None
        };
        Some(LineContext { cursor_offset, line_idx, line, is_empty, has_container, prev_line })
    }

    /// Shift+Enter: continue the line's containers on a new line; in a code
    /// block, keep the line's indentation.
    pub fn shift_enter(&mut self)
        requires
            old(self).wf(),
        ensures
            final(self).wf(),
            final(self)@ == shift_enter_spec(old(self)@),
    {
        let nl = vec![10u8];
        proof {
            crate::text::lemma_ascii_valid(nl@);
            assert(nl@ =~= seq![10u8]);
        }
        if self.cursor_in_code_block() {
            let indent = self.current_line_leading_whitespace();
            proof {
                crate::text::lemma_ascii_valid(indent@);
            }
            self.insert_bytes(nl.as_slice());
            if indent.len() > 0 {
                self.insert_bytes(indent.as_slice());
            }
            return;
        }
        let ctx = match self.line_context() {
            Some(c) => c,
            None => {
                self.insert_bytes(nl.as_slice());
                return;
            },
        };
        let cont = continuation_exec(&self.buffer, &ctx.line);
        proof {
            crate::text::lemma_ascii_valid(cont@);
        }
        self.insert_bytes(nl.as_slice());
        if cont.len() > 0 {
            self.insert_bytes(cont.as_slice());
        }
    }

    /// Shift+Alt+Enter: a new line indented for a paragraph nested in the
    /// line's container (outside a block quote that holds no list).
    pub fn shift_alt_enter(&mut self)
        requires
            old(self).wf(),
        ensures
            final(self).wf(),
            final(self)@ == shift_alt_enter_spec(old(self)@),
    {
        let nl = vec![10u8];
        proof {
            crate::text::lemma_ascii_valid(nl@);
            assert(nl@ =~= seq![10u8]);
        }
        let ctx = match self.line_context() {
            Some(c) => c,
            None => {
                self.insert_bytes(nl.as_slice());
                return;
            },
        };
        let indent = alt_indent_exec(&self.buffer, &ctx.line);
        proof {
            crate::text::lemma_ascii_valid(indent@);
        }
        self.insert_bytes(nl.as_slice());
        if indent.len() > 0 {
            self.insert_bytes(indent.as_slice());
        }
    }

    /// The containers around `cursor_offset`, outermost first: see
    /// `nested_context`.
    pub fn build_nested_context(&self, cursor_offset: usize) -> (r: Vec<MarkerKind>)
        ensures
            r@ == nested_context(self@.text, cursor_offset as int),
    {
        nested_context_exec(&self.buffer, cursor_offset)
    }


    /// The level of the nearest heading at or above line `from_line`.
    #[verifier::spinoff_prover]
    pub fn find_current_heading(&self, from_line: usize) -> (r: Option<u8>)
        requires
            from_line < line_table(self@.text).len(),
        ensures
            r == heading_above(self@.text, from_line as int),
    {
        let o = analyze(&self.buffer);
        let mut k = from_line;
        loop
            invariant
                k < o.table@.len(),
                outline_of(self@.text, &o),
                heading_above(self@.text, k as int) == heading_above(self@.text, from_line as int),
            decreases k,
        {
            let lm = line_markers(&self.buffer, &o, k);
            assert(lm.markers@ == markers_of(self@.text, k as int));
            let mut i: usize = 0;
            while i < lm.markers.len()
                invariant
                    i <= lm.markers@.len(),
                    lm.markers@ == markers_of(self@.text, k as int),
                    heading_above(self@.text, k as int) == heading_above(self@.text, from_line as int),
                    heading_of(lm.markers@, 0) == heading_of(lm.markers@, i as int),
                decreases lm.markers@.len() - i,
            {
                match lm.markers[i].kind {
                    MarkerKind::Heading(level) => {
                        return Some(level);
                    },
                    _ => {},
                }
                i = i + 1;
            }
            assert(heading_of(markers_of(self@.text, k as int), 0) is None);
            assert(heading_above(self@.text, k as int) == heading_above(self@.text, k - 1));
            if k == 0 {
                assert(heading_above(self@.text, -1) is None);
                return None;
            }
            k = k - 1;
        }
    }


    /// Deletes from the cursor to the end of its line (the line break
    /// stays); the selection ends are kept, clamped to the new text.
    pub fn delete_to_line_end(&mut self)
        requires
            old(self).wf(),
        ensures
            final(self).wf(),
            ({
                let v = old(self)@;
                let p = v.head;
                let le = line_end_of(v.text, p);
                if p < le {
                    let t = del(v.text, p, le);
                    final(self)@ == (EditorView { text: t, anchor: place(t, v.anchor), head: place(t, v.head), ..v })
                } else {
                    final(self)@ == v
                }
            }),
    {
        let p = self.selection.head;
        let b = line_bounds(&self.buffer, p);
        if p < b.1 {
            let mut buf = self.buffer.clone();
            assert(buf@ == self.buffer@);
            apply_edit(&mut buf, p, b.1, &[]);
            let na = place_exec(&buf, self.selection.anchor);
            let nh = place_exec(&buf, p);
            self.buffer = buf;
            self.selection = Selection::new(na, nh);
        }
    }

    /// Selects the whole text.
    pub fn select_all(&mut self)
        requires
            old(self).wf(),
        ensures
            final(self).wf(),
            final(self)@ == (EditorView { anchor: 0, head: old(self)@.text.len() as int, ..old(self)@ }),
    {
        self.selection = Selection::new(0, self.buffer.len());
    }


    /// The selected text.
    pub fn selected_text(&self) -> (r: String)
        requires
            self.wf(),
        ensures
            encode_utf8(r@) == self@.text.subrange(sel_lo(self@), sel_hi(self@)),
    {
        let r = self.selection.range();
        let mut v: Vec<u8> = Vec::new();
        push_all(&mut v, &self.buffer, r.0, r.1);
        proof {
            let s = self@.text;
            crate::text::lemma_boundary(s, r.0 as int);
            crate::text::lemma_boundary(s, r.1 as int);
            vstd::utf8::valid_utf8_split(s, r.1 as int);
            let head = s.subrange(0, r.1 as int);
            assert(r.0 == 0 || r.0 == head.len() || !vstd::utf8::is_continuation_byte(head[r.0 as int]));
            crate::text::lemma_boundary(head, r.0 as int);
            vstd::utf8::valid_utf8_split(head, r.0 as int);
            assert(head.subrange(r.0 as int, head.len() as int) =~= v@);
            vstd::utf8::decode_utf8_encode_utf8(v@);
        }
        string_from_utf8(v)
    }

    /// Replaces `text[start..end)` by `text` as raw text: see
    /// `raw_replace`.
    pub fn replace_range(&mut self, start: usize, end: usize, text: &str)
        requires
            old(self).wf(),
            start <= end,
        ensures
            final(self).wf(),
            final(self)@ == raw_replace(old(self)@, start as int, end as int, encode_utf8(text@)),
    {
        let t = str_bytes(text);
        let mut buf = self.buffer.clone();
        assert(buf@ == self.buffer@);
        apply_edit(&mut buf, start, end, &[]);
        apply_edit(&mut buf, start, start, t.as_slice());
        let _n = buf.len();
        let np = if start <= usize::MAX - t.len() {
            start + t.len()
        } else {
            usize::MAX
        };
        let q = place_exec(&buf, np);
        self.buffer = buf;
        self.selection = Selection::new(q, q);
    }


    /// The start of the cursor's line and the text from there to the
    /// cursor.
    pub fn cursor_line_prefix(&self) -> (r: (usize, String))
        requires
            self.wf(),
        ensures
            r.0 == line_start_of(self@.text, self@.head),
            r.0 <= self@.head,
            encode_utf8(r.1@) == self@.text.subrange(r.0 as int, self@.head),
            vstd::utf8::valid_utf8(self@.text.subrange(r.0 as int, self@.head)),
            r.1@ == decode_utf8(self@.text.subrange(r.0 as int, self@.head)),
    {
        let p = self.selection.head;
        let b = line_bounds(&self.buffer, p);
        let ls = b.0;
        proof {
            crate::text::lemma_line_at(self@.text, p as int);
        }
        let mut v: Vec<u8> = Vec::new();
        push_all(&mut v, &self.buffer, ls, p);
        proof {
            let s = self@.text;
            let k = line_at(s, p as int);
            crate::text::lemma_line_table_wf(s);
            lemma_line_index_from(line_table(s), 0, p as int);
            crate::text::lemma_line_start_boundary(s, k);
            crate::text::lemma_boundary(s, p as int);
            vstd::utf8::valid_utf8_split(s, p as int);
            let head = s.subrange(0, p as int);
            assert(ls == 0 || ls == head.len() || !vstd::utf8::is_continuation_byte(head[ls as int]));
            crate::text::lemma_boundary(head, ls as int);
            vstd::utf8::valid_utf8_split(head, ls as int);
            assert(head.subrange(ls as int, head.len() as int) =~= v@);
            vstd::utf8::decode_utf8_encode_utf8(v@);
        }
        (ls, string_from_utf8(v))
    }


    /// Whether the cursor is where the content of a block-quote-only line
    /// starts (right after its last `>` marker).
    pub fn cursor_at_blockquote_content_start(&self) -> (r: bool)
        ensures
            ({
                let ms = markers_of(self@.text, line_at(self@.text, self@.head));
                r == (blockquote_only(ms) && self@.head == ms.last().end)
            }),
    {
        let p = self.selection.head;
        let found = self.find_line_at(p);
        let (_, line) = match found {
            Some(x) => x,
            None => {
                return false;
            },
        };
        assert(line.markers@ == markers_of(self@.text, line_at(self@.text, self@.head)));
        let n = line.markers.len();
        if n == 0 {
            return false;
        }
        let mut i: usize = 0;
        while i < n
            invariant
                i <= n == line.markers@.len(),
                line.markers@ == markers_of(self@.text, line_at(self@.text, self@.head)),
                forall|j: int| 0 <= j < i ==> (#[trigger] line.markers@[j]).kind is BlockQuote,
            decreases n - i,
        {
            match line.markers[i].kind {
                MarkerKind::BlockQuote => {},
                _ => {
                    assert(!(line.markers@[i as int].kind is BlockQuote));
                    return false;
                },
            }
            i = i + 1;
        }
        p == line.markers[n - 1].end
    }


    /// Deletes `text[start..end)` as raw text: see `raw_delete`.
    pub fn delete_range(&mut self, start: usize, end: usize)
        requires
            old(self).wf(),
        ensures
            final(self).wf(),
            final(self)@ == raw_delete(old(self)@, start as int, end as int),
    {
        let mut buf = self.buffer.clone();
        assert(buf@ == self.buffer@);
        apply_edit(&mut buf, start, end, &[]);
        let na = place_exec(&buf, self.selection.anchor);
        let nh = place_exec(&buf, self.selection.head);
        self.buffer = buf;
        self.selection = Selection::new(na, nh);
    }

    /// A drag to `buffer_offset` extends the selection.
    pub fn handle_drag(&mut self, buffer_offset: usize)
        requires
            old(self).wf(),
        ensures
            final(self).wf(),
            final(self)@ == (EditorView { head: place(old(self)@.text, buffer_offset as int), ..old(self)@ }),
    {
        let o = place_exec(&self.buffer, buffer_offset);
        self.selection = self.selection.extend_to(o);
    }
}

} // verus!
