//! Text input from the platform's input method: typed text, the marked
//! (composing) text of an IME, and offsets in UTF-16 code units, in which
//! the platform counts.

use vstd::prelude::*;
use vstd::utf8::{encode_utf8, is_continuation_byte, valid_utf8};
use std::ops::Range;
use crate::state::{EditorState, EditorView, place, raw_delete, raw_replace, sel_hi, sel_lo};
use crate::text::{boundary, floor_boundary, lemma_floor_boundary, string_from_utf8};
use crate::edit::sat;

verus! {

/// Byte `i` of `s` adds a UTF-16 code unit: the first byte of each
/// character does, and so does the second byte of a four-byte character
/// (which UTF-16 writes as two units).
pub open spec fn adds_unit(s: Seq<u8>, i: int) -> bool {
    !is_continuation_byte(s[i]) || (i > 0 && s[i - 1] >= 0xF0)
}

/// UTF-16 code units of `s[0..n)`.
pub open spec fn utf16_len(s: Seq<u8>, n: int) -> int
    decreases n,
{
    if n <= 0 {
        0
    } else {
        utf16_len(s, n - 1) + if adds_unit(s, n - 1) { 1int } else { 0 }
    }
}

/// The UTF-16 offset of byte position `p`: the code units of the characters
/// before the one holding `p` (`p` clamped to the text).
pub open spec fn utf16_offset(s: Seq<u8>, p: int) -> int {
    utf16_len(s, floor_boundary(s, if p > s.len() { s.len() as int } else { p }))
}

/// From `q` on, the first character start whose UTF-16 offset is at least
/// `u`; the end of the text when there is none.
pub open spec fn byte_from(s: Seq<u8>, u: int, q: int) -> int
    decreases s.len() - q,
{
    if q >= s.len() {
        s.len() as int
    } else if boundary(s, q) && utf16_len(s, q) >= u {
        q
    } else {
        byte_from(s, u, q + 1)
    }
}

/// The byte offset of UTF-16 offset `u`.
pub open spec fn byte_offset(s: Seq<u8>, u: int) -> int {
    byte_from(s, u, 0)
}

proof fn lemma_utf16_len(s: Seq<u8>, n: int)
    requires
        0 <= n,
    ensures
        0 <= utf16_len(s, n) <= n,
    decreases n,
{
    if n > 0 {
        lemma_utf16_len(s, n - 1);
    }
}

proof fn lemma_byte_from(s: Seq<u8>, u: int, q: int)
    requires
        0 <= q <= s.len(),
    ensures
        q <= byte_from(s, u, q) <= s.len(),
        boundary(s, byte_from(s, u, q)),
    decreases s.len() - q,
{
    if q < s.len() && !(boundary(s, q) && utf16_len(s, q) >= u) {
        lemma_byte_from(s, u, q + 1);
    }
}

/// Later UTF-16 offsets map to later byte offsets.
pub proof fn lemma_byte_offset_monotone(s: Seq<u8>, u1: int, u2: int, q: int)
    requires
        u1 <= u2,
        0 <= q <= s.len(),
    ensures
        byte_from(s, u1, q) <= byte_from(s, u2, q),
    decreases s.len() - q,
{
    if q < s.len() {
        if boundary(s, q) && utf16_len(s, q) >= u2 {
        } else if boundary(s, q) && utf16_len(s, q) >= u1 {
            lemma_byte_from(s, u2, q + 1);
        } else {
            lemma_byte_offset_monotone(s, u1, u2, q + 1);
        }
    }
}

/// `utf16_len` computed.
fn utf16_len_exec(s: &Vec<u8>, n: usize) -> (r: usize)
    requires
        n <= s@.len(),
    ensures
        r == utf16_len(s@, n as int),
{
    let mut c: usize = 0;
    let mut i: usize = 0;
    while i < n
        invariant
            i <= n <= s@.len(),
            c == utf16_len(s@, i as int),
            c <= i,
        decreases n - i,
    {
        proof {
            lemma_utf16_len(s@, i as int);
        }
        let b = s[i];
        if !(0x80 <= b && b <= 0xbf) || (i > 0 && s[i - 1] >= 0xF0) {
            c = c + 1;
        }
        i = i + 1;
    }
    c
}

/// `utf16_offset` computed.
pub fn utf16_offset_exec(s: &Vec<u8>, p: usize) -> (r: usize)
    ensures
        r == utf16_offset(s@, p as int),
{
    let q = if p > s.len() { s.len() } else { p };
    let f = crate::text::floor_char_boundary(s, q);
    proof {
        lemma_floor_boundary(s@, q as int);
    }
    utf16_len_exec(s, f)
}

/// `byte_offset` computed.
pub fn byte_offset_exec(s: &Vec<u8>, u: usize) -> (r: usize)
    ensures
        r == byte_offset(s@, u as int),
        r <= s@.len(),
        boundary(s@, r as int),
{
    proof {
        lemma_byte_from(s@, u as int, 0);
    }
    let mut c: usize = 0;
    let mut q: usize = 0;
    while q < s.len()
        invariant
            q <= s@.len(),
            c == utf16_len(s@, q as int),
            c <= q,
            byte_from(s@, u as int, q as int) == byte_from(s@, u as int, 0),
        decreases s@.len() - q,
    {
        let b = s[q];
        let is_boundary = q == 0 || !(0x80 <= b && b <= 0xbf);
        if is_boundary && c >= u {
            return q;
        }
        proof {
            lemma_utf16_len(s@, q as int);
        }
        if !(0x80 <= b && b <= 0xbf) || (q > 0 && s[q - 1] >= 0xF0) {
            c = c + 1;
        }
        q = q + 1;
    }
    s.len()
}

/// The selection as a UTF-16 range, start first.
pub fn selected_text_range(state: &EditorState) -> (r: Range<usize>)
    requires
        state.wf(),
    ensures
        r.start == utf16_offset(state@.text, sel_lo(state@)),
        r.end == utf16_offset(state@.text, sel_hi(state@)),
{
    let s = state.text_bytes();
    let sel = state.selection().range();
    utf16_offset_exec(&s, sel.0)..utf16_offset_exec(&s, sel.1)
}

/// The marked text as a UTF-16 range (its end clamped to the text).
pub fn marked_text_range(state: &EditorState, marked: &Option<Range<usize>>) -> (r: Option<Range<usize>>)
    ensures
        match *marked {
            Some(m) => r matches Some(x) && x.start == utf16_offset(state@.text, m.start as int)
                && x.end == utf16_offset(state@.text, if m.end > state@.text.len() { state@.text.len() as int } else { m.end as int }),
            None => r is None,
        },
{
    match marked {
        Some(m) => {
            let s = state.text_bytes();
            let e = if m.end > s.len() { s.len() } else { m.end };
            Some(utf16_offset_exec(&s, m.start)..utf16_offset_exec(&s, e))
        },
        None => None,
    }
}

/// The text of a UTF-16 range.
pub fn text_for_range(state: &EditorState, r: Range<usize>) -> (t: Option<String>)
    requires
        state.wf(),
        r.start <= r.end,
    ensures
        t matches Some(x) && encode_utf8(x@) == state@.text.subrange(
            byte_offset(state@.text, r.start as int),
            byte_offset(state@.text, r.end as int),
        ),
{
    let s = state.text_bytes();
    let a = byte_offset_exec(&s, r.start);
    let b = byte_offset_exec(&s, r.end);
    proof {
        lemma_byte_offset_monotone(s@, r.start as int, r.end as int, 0);
    }
    let mut v: Vec<u8> = Vec::new();
    let mut i = a;
    while i < b
        invariant
            a <= i <= b <= s@.len(),
            v@ == s@.subrange(a as int, i as int),
        decreases b - i,
    {
        v.push(s[i]);
        i = i + 1;
        assert(v@ =~= s@.subrange(a as int, i as int));
    }
    proof {
        crate::text::lemma_boundary(s@, b as int);
        vstd::utf8::valid_utf8_split(s@, b as int);
        let head = s@.subrange(0, b as int);
        assert(a == 0 || a == head.len() || !is_continuation_byte(head[a as int]));
        crate::text::lemma_boundary(head, a as int);
        vstd::utf8::valid_utf8_split(head, a as int);
        assert(head.subrange(a as int, head.len() as int) =~= v@);
        vstd::utf8::decode_utf8_encode_utf8(v@);
    }
    Some(string_from_utf8(v))
}

/// A character that CJK and Hangul input methods produce.
pub open spec fn ime_char(c: char) -> bool {
    let u = c as u32;
    (0x3040 <= u <= 0x309F) || (0x30A0 <= u <= 0x30FF) || (0x3400 <= u <= 0x4DBF) || (0x4E00 <= u <= 0x9FFF)
        || (0xAC00 <= u <= 0xD7AF)
}

pub open spec fn ascii_letter(b: u8) -> bool {
    (65 <= b <= 90) || (97 <= b <= 122)
}

/// Start of the run of ASCII letters ending at `p` (the pinyin an input
/// method may not have marked).
pub open spec fn letters_before(s: Seq<u8>, p: int) -> int
    decreases p,
{
    if p > 0 && p <= s.len() && ascii_letter(s[p - 1]) {
        letters_before(s, p - 1)
    } else {
        p
    }
}

/// Typed text arriving with no composition and no range: the selection is
/// deleted first; a space is left to the key handler; a single ASCII
/// character is inserted; CJK or Hangul text replaces the ASCII letters
/// typed just before it; other text is inserted.
pub open spec fn typed(v: EditorView, text: Seq<char>) -> EditorView {
    let t = encode_utf8(text);
    if text.len() == 0 {
        v
    } else {
        let v1 = if v.anchor != v.head { raw_delete(v, sel_lo(v), sel_hi(v)) } else { v };
        let cur = if v.anchor != v.head { sel_lo(v) } else { v.head };
        if t == seq![32u8] {
            v1
        } else if t.len() == 1 && t[0] < 0x80 {
            raw_replace(v1, cur, cur, t)
        } else if exists|i: int| 0 <= i < text.len() && ime_char(#[trigger] text[i]) {
            raw_replace(v1, letters_before(v1.text, cur), cur, t)
        } else {
            raw_replace(v1, cur, cur, t)
        }
    }
}

/// Text committed by the platform: into the marked text when composing
/// (an empty text cancels the composition), into a given UTF-16 range, or
/// as typed text (see `typed`). The composition ends.
pub open spec fn replace_text_spec(v: EditorView, marked: Option<Range<usize>>, replacement: Option<Range<usize>>, text: Seq<char>) -> EditorView {
    let t = encode_utf8(text);
    match replacement {
        Some(r) => raw_replace(v, byte_offset(v.text, r.start as int), byte_offset(v.text, r.end as int), t),
        None => match marked {
            Some(m) => raw_replace(v, m.start as int, m.end as int, t),
            None => typed(v, text),
        },
    }
}

/// Whether some character of `text` is one an IME produces.
fn has_ime_char(text: &str) -> (r: bool)
    ensures
        r == exists|i: int| 0 <= i < text@.len() && ime_char(#[trigger] text@[i]),
{
    let mut found = false;
    for c in it: text.chars()
        invariant
            it.seq() == text@,
            found == exists|i: int| 0 <= i < it.index() && ime_char(#[trigger] text@[i]),
    {
        let u = c as u32;
        if (0x3040 <= u && u <= 0x309F) || (0x30A0 <= u && u <= 0x30FF) || (0x3400 <= u && u <= 0x4DBF)
            || (0x4E00 <= u && u <= 0x9FFF) || (0xAC00 <= u && u <= 0xD7AF) {
            found = true;
        }
    }
    found
}

/// `letters_before` computed.
fn letters_before_exec(s: &Vec<u8>, p: usize) -> (r: usize)
    requires
        p <= s@.len(),
    ensures
        r == letters_before(s@, p as int),
        r <= p,
{
    let mut q = p;
    while q > 0 && ((65 <= s[q - 1] && s[q - 1] <= 90) || (97 <= s[q - 1] && s[q - 1] <= 122))
        invariant
            q <= p <= s@.len(),
            letters_before(s@, q as int) == letters_before(s@, p as int),
        decreases q,
    {
        q = q - 1;
    }
    q
}

/// Text typed with no composition: see `typed`.
fn insert_typed(state: &mut EditorState, text: &str)
    requires
        old(state).wf(),
    ensures
        final(state).wf(),
        final(state)@ == typed(old(state)@, text@),
{
    if text.is_empty() {
        return;
    }
    let sel = state.selection();
    let cursor = if sel.anchor != sel.head {
        let r = sel.range();
        state.delete_range(r.0, r.1);
        r.0
    } else {
        sel.head
    };
    let t = crate::text::str_bytes(text);
    let one_space = t.len() == 1 && t[0] == 32u8;
    assert(one_space == (t@ =~= seq![32u8]));
    if one_space {
        return;
    }
    if t.len() == 1 && t[0] < 0x80 {
        state.replace_range(cursor, cursor, text);
        return;
    }
    if has_ime_char(text) {
        let s = state.text_bytes();
        let cs = letters_before_exec(&s, cursor);
        state.replace_range(cs, cursor, text);
    } else {
        state.replace_range(cursor, cursor, text);
    }
}

/// Text committed by the platform: see `replace_text_spec`.
pub fn replace_text_in_range(state: &mut EditorState, marked: &mut Option<Range<usize>>, replacement: Option<Range<usize>>, text: &str)
    requires
        old(state).wf(),
        match replacement {
            Some(r) => r.start <= r.end,
            None => true,
        },
        match *old(marked) {
            Some(m) => m.start <= m.end,
            None => true,
        },
    ensures
        final(state).wf(),
        *final(marked) is None,
        final(state)@ == replace_text_spec(old(state)@, *old(marked), replacement, text@),
{
    match replacement {
        Some(r) => {
            *marked = None;
            let s = state.text_bytes();
            let a = byte_offset_exec(&s, r.start);
            let b = byte_offset_exec(&s, r.end);
            proof {
                lemma_byte_offset_monotone(s@, r.start as int, r.end as int, 0);
            }
            state.replace_range(a, b, text);
        },
        None => {
            match marked.take() {
                Some(m) => {
                    state.replace_range(m.start, m.end, text);
                },
                None => {
                    insert_typed(state, text);
                },
            }
        },
    }
}

/// The bytes the composition replaces: a given UTF-16 range, else the marked
/// text (through the cursor), else the selection, else the cursor.
pub open spec fn mark_target(v: EditorView, marked: Option<Range<usize>>, range: Option<Range<usize>>) -> (int, int) {
    match range {
        Some(r) => (byte_offset(v.text, r.start as int), byte_offset(v.text, r.end as int)),
        None => match marked {
            Some(m) => (m.start as int, if v.head > m.end { v.head } else { m.end as int }),
            None => if v.anchor != v.head { (sel_lo(v), sel_hi(v)) } else { (v.head, v.head) },
        },
    }
}

/// The composing text changing to `new`: it replaces the target bytes and
/// becomes the marked text; an empty `new` cancels the composition,
/// deleting the marked text.
pub open spec fn mark_text_spec(v: EditorView, marked: Option<Range<usize>>, range: Option<Range<usize>>, new: Seq<char>) -> (EditorView, Option<(int, int)>) {
    let t = encode_utf8(new);
    if t.len() == 0 {
        match marked {
            Some(m) => (raw_replace(v, m.start as int, m.end as int, seq![]), None),
            None => (v, None),
        }
    } else {
        let x = mark_target(v, marked, range);
        (raw_replace(v, x.0, x.1, t), Some((x.0, sat(x.0 + t.len()))))
    }
}

/// The marked range as a pair.
pub open spec fn mark_pair(m: Option<Range<usize>>) -> Option<(int, int)> {
    match m {
        Some(r) => Some((r.start as int, r.end as int)),
        None => None,
    }
}

/// The composition ending: marked text that is still all ASCII letters
/// (pinyin not turned into characters) is deleted; the mark goes.
pub open spec fn unmark_spec(v: EditorView, marked: Option<Range<usize>>) -> EditorView {
    match marked {
        None => v,
        Some(m) => {
            let me = if m.end > v.text.len() { v.text.len() as int } else { m.end as int };
            if m.start < me && forall|i: int| m.start <= i < me ==> ascii_letter(#[trigger] v.text[i]) {
                raw_replace(v, m.start as int, m.end as int, seq![])
            } else {
                v
            }
        },
    }
}

/// The composing text changes: see `mark_text_spec`.
pub fn replace_and_mark_text_in_range(state: &mut EditorState, marked: &mut Option<Range<usize>>, range: Option<Range<usize>>, new: &str)
    requires
        old(state).wf(),
        match range {
            Some(r) => r.start <= r.end,
            None => true,
        },
        match *old(marked) {
            Some(m) => m.start <= m.end,
            None => true,
        },
    ensures
        final(state).wf(),
        final(state)@ == mark_text_spec(old(state)@, *old(marked), range, new@).0,
        mark_pair(*final(marked)) == mark_text_spec(old(state)@, *old(marked), range, new@).1,
{
    let t = crate::text::str_bytes(new);
    if t.len() == 0 {
        match marked.take() {
            Some(m) => {
                state.replace_range(m.start, m.end, "");
                proof {
                    assert(encode_utf8(""@) =~= seq![]) by {
                        reveal_strlit("");
                    }
                }
            },
            None => {},
        }
        return;
    }
    let cursor = state.cursor().offset;
    let (from, to) = match range {
        Some(r) => {
            let s = state.text_bytes();
            let a = byte_offset_exec(&s, r.start);
            let b = byte_offset_exec(&s, r.end);
            proof {
                lemma_byte_offset_monotone(s@, r.start as int, r.end as int, 0);
            }
            (a, b)
        },
        None => match marked {
            Some(m) => (m.start, if cursor > m.end { cursor } else { m.end }),
            None => {
                let sel = state.selection();
                if sel.anchor != sel.head {
                    sel.range()
                } else {
                    (cursor, cursor)
                }
            },
        },
    };
    *marked = None;
    state.replace_range(from, to, new);
    let end = if from <= usize::MAX - t.len() { from + t.len() } else { usize::MAX };
    *marked = Some(from..end);
}

/// The composition ends: see `unmark_spec`.
pub fn unmark_text(state: &mut EditorState, marked: &mut Option<Range<usize>>)
    requires
        old(state).wf(),
        match *old(marked) {
            Some(m) => m.start <= m.end,
            None => true,
        },
    ensures
        final(state).wf(),
        *final(marked) is None,
        final(state)@ == unmark_spec(old(state)@, *old(marked)),
{
    if let Some(m) = marked.take() {
        let s = state.text_bytes();
        let me = if m.end > s.len() { s.len() } else { m.end };
        if m.start < me {
            let mut all = true;
            let mut i = m.start;
            while i < me
                invariant
                    m.start <= i <= me <= s@.len(),
                    all == forall|j: int| m.start <= j < i ==> ascii_letter(#[trigger] s@[j]),
                decreases me - i,
            {
                let b = s[i];
                if !((65 <= b && b <= 90) || (97 <= b && b <= 122)) {
                    all = false;
                }
                i = i + 1;
            }
            if all {
                state.replace_range(m.start, m.end, "");
                proof {
                    assert(encode_utf8(""@) =~= seq![]) by {
                        reveal_strlit("");
                    }
                }
            }
        }
    }
}

proof fn lemma_utf16_mono(s: Seq<u8>, i: int, j: int)
    requires
        0 <= i <= j,
    ensures
        utf16_len(s, i) <= utf16_len(s, j),
    decreases j - i,
{
    if i < j {
        lemma_utf16_mono(s, i, j - 1);
    }
}

proof fn lemma_byte_from_reaches(s: Seq<u8>, p: int, q: int)
    requires
        0 <= q <= p <= s.len(),
        boundary(s, p),
        valid_utf8(s),
    ensures
        byte_from(s, utf16_len(s, p), q) == p,
    decreases p - q,
{
    if q < p {
        if boundary(s, q) {
            if q == 0 {
                assert(vstd::utf8::valid_first_scalar(s));
            }
            assert(adds_unit(s, q));
            assert(utf16_len(s, q + 1) == utf16_len(s, q) + 1);
            lemma_utf16_mono(s, q + 1, p);
        }
        lemma_byte_from_reaches(s, p, q + 1);
    } else if p < s.len() {
    }
}

/// A character boundary converted to a UTF-16 offset and back is the same
/// byte offset.
pub proof fn lemma_utf16_round_trip(s: Seq<u8>, p: int)
    requires
        valid_utf8(s),
        boundary(s, p),
    ensures
        byte_offset(s, utf16_offset(s, p)) == p,
{
    lemma_floor_boundary(s, p);
    lemma_byte_from_reaches(s, p, 0);
}

/// Composing text at the cursor and then cancelling the composition gives
/// the text back.
pub proof fn lemma_compose_cancel(v: EditorView, new: Seq<char>)
    requires
        crate::state::view_wf(v),
        v.anchor == v.head,
        encode_utf8(new).len() > 0,
        v.head + encode_utf8(new).len() <= usize::MAX,
    ensures
        ({
            let c = mark_text_spec(v, None, None, new);
            let m = c.1->0;
            raw_replace(c.0, m.0, m.1, seq![]).text == v.text
        }),
{
    let s = v.text;
    let h = v.head;
    let t = encode_utf8(new);
    let tl = t.len() as int;
    vstd::utf8::encode_utf8_valid_utf8(new);
    assert(vstd::utf8::valid_first_scalar(t));
    assert(!is_continuation_byte(t[0]));
    lemma_floor_boundary(s, h);
    let n = crate::text::splice(s, h, h, t);
    assert(crate::text::splice(s, h, h, seq![]) =~= s);
    assert(crate::edit::del(s, h, h) == s);
    assert(crate::edit::ins(s, h, t) == n);
    assert(n[h] == t[0]);
    assert(boundary(n, h));
    if h < s.len() {
        assert(n[h + tl] == s[h]);
    }
    assert(boundary(n, h + tl));
    lemma_floor_boundary(n, h);
    lemma_floor_boundary(n, h + tl);
    assert(crate::text::splice(n, h, h + tl, seq![]) =~= s);
    assert(crate::edit::del(n, h, h + tl) == s);
    assert(crate::edit::ins(s, h, seq![]) == s);
}


/// Each character takes at least one byte.
proof fn lemma_encode_len(cs: Seq<char>)
    ensures
        encode_utf8(cs).len() >= cs.len(),
    decreases cs.len(),
{
    if cs.len() > 0 {
        lemma_encode_len(cs.drop_first());
    }
}

/// Committing, with nothing marked and no range, text that holds a
/// Hiragana (U+3040 to U+309F) or Katakana (U+30A0 to U+30FF) character, a
/// CJK ideograph (U+3400 to U+4DBF, U+4E00 to U+9FFF) or a Hangul syllable
/// (U+AC00 to U+D7AF) replaces the run of ASCII letters right before the
/// cursor (the romanization typed for it) by that text.
pub proof fn lemma_ime_commit_replaces_letters(v: EditorView, text: Seq<char>, i: int)
    requires
        v.anchor == v.head,
        0 <= i < text.len(),
        (0x3040 <= text[i] as u32 <= 0x309F) || (0x30A0 <= text[i] as u32 <= 0x30FF)
            || (0x3400 <= text[i] as u32 <= 0x4DBF) || (0x4E00 <= text[i] as u32 <= 0x9FFF)
            || (0xAC00 <= text[i] as u32 <= 0xD7AF),
    ensures
        replace_text_spec(v, None, None, text) == raw_replace(
            v,
            letters_before(v.text, v.head),
            v.head,
            encode_utf8(text),
        ),
{
    let t = encode_utf8(text);
    assert(ime_char(text[i]));
    lemma_encode_len(text);
    if text.len() == 1 {
        let c = text[0];
        vstd::utf8::char_is_scalar(c);
        assert(text.drop_first() =~= Seq::<char>::empty());
        assert(t == vstd::utf8::encode_scalar(c as u32) + encode_utf8(Seq::<char>::empty()));
        assert(t.len() == 3);
    }
    assert(t.len() >= 2);
    assert(t != seq![32u8]);
}

} // verus!
