//! Text edits and task-checkbox propagation.
//!
//! Edits round their positions down to character boundaries, so the text
//! stays valid UTF-8. Checking a task checks every task nested in it and,
//! once all its siblings are checked, its parent; unchecking a task
//! unchecks its parent. Checked tasks show their text struck through
//! (`~~text~~`).

use vstd::prelude::*;
use vstd::utf8::valid_utf8;
use crate::doc::{all_checked, all_checked_exec, content_start_of, line_markers,
    line_markers_spec, line_of, parent_checkbox, parent_checkbox_exec, sibling_checkboxes,
    sibling_checkboxes_exec};
use crate::marker::{CheckboxScan, box_bytes};
use crate::outline::{Outline, analyze, outline_of};
use crate::text::{all_ws, floor_boundary, floor_char_boundary, is_all_ws, lemma_ascii_valid,
    lemma_floor_boundary, lemma_splice_valid, line_index, line_table, skip_ws, skip_ws_from, splice,
    splice_vec, trim_end_at, trim_end_pos};

verus! {

/// `s[a..b)` replaced by `t`, with `a` and `b` rounded down to character
/// boundaries (no change when they cross).
pub open spec fn edit(s: Seq<u8>, a: int, b: int, t: Seq<u8>) -> Seq<u8> {
    let x = floor_boundary(s, a);
    let y = floor_boundary(s, b);
    if x <= y {
        splice(s, x, y, t)
    } else {
        s
    }
}

/// `t` inserted at `p`.
pub open spec fn ins(s: Seq<u8>, p: int, t: Seq<u8>) -> Seq<u8> {
    edit(s, p, p, t)
}

/// `s[a..b)` deleted.
pub open spec fn del(s: Seq<u8>, a: int, b: int) -> Seq<u8> {
    edit(s, a, b, seq![])
}

/// Applies `edit` to the buffer.
pub fn apply_edit(buf: &mut Vec<u8>, a: usize, b: usize, t: &[u8])
    requires
        valid_utf8(old(buf)@),
        valid_utf8(t@),
    ensures
        final(buf)@ == edit(old(buf)@, a as int, b as int, t@),
        valid_utf8(final(buf)@),
{
    let x = floor_char_boundary(buf, a);
    let y = floor_char_boundary(buf, b);
    proof {
        lemma_floor_boundary(buf@, a as int);
        lemma_floor_boundary(buf@, b as int);
    }
    if x <= y {
        let r = splice_vec(buf, x, y, t);
        proof {
            lemma_splice_valid(buf@, x as int, y as int, t@);
        }
        *buf = r;
    }
}

/// The byte `c` as a one-byte text.
pub open spec fn byte_text(c: u8) -> Seq<u8> {
    seq![c]
}

/// Sets the mark of the checkbox starting at `o` (`x` when `checked`).
pub open spec fn set_box(s: Seq<u8>, o: int, checked: bool) -> Seq<u8> {
    edit(s, o + 1, o + 2, byte_text(if checked { 120u8 } else { 32u8 }))
}

pub open spec fn tilde2() -> Seq<u8> {
    seq![126u8, 126u8]
}

/// `x`, saturated at the largest `usize`.
pub open spec fn sat(x: int) -> int {
    if x > usize::MAX {
        usize::MAX as int
    } else {
        x
    }
}

/// Text, cursor and whether the tab cycle cache was dropped, as the
/// propagation goes.
pub struct Prop {
    pub text: Seq<u8>,
    pub cur: int,
    pub cleared: bool,
}

/// Bounds of the trimmed content of line `k`: the content after its markers
/// with surrounding whitespace removed, and the content's own bounds.
pub open spec fn trimmed_content(s: Seq<u8>, k: int) -> (int, int, int, int) {
    let lm = line_markers_spec(s, k);
    let cs = content_start_of(lm);
    let ce = lm.1;
    (cs, ce, skip_ws(s, cs, ce), trim_end_pos(s, cs, ce))
}

/// `trimmed_content` computed, for a line whose content is not all
/// whitespace.
pub fn trimmed_content_exec(s: &Vec<u8>, k: usize) -> (r: Option<(usize, usize, usize, usize)>)
    ensures
        r is None <==> (k >= line_table(s@).len() || trimmed_content(s@, k as int).0 >= trimmed_content(s@, k as int).1
            || all_ws(s@, trimmed_content(s@, k as int).0, trimmed_content(s@, k as int).1)),
        r is Some ==> ({
            let c = trimmed_content(s@, k as int);
            let v = r->0;
            &&& v.0 == c.0 && v.1 == c.1 && v.2 == c.2 && v.3 == c.3
            &&& c.0 <= c.2 <= c.1 <= s@.len()
            &&& c.0 <= c.3 <= c.1
        }),
{
    let o = analyze(s);
    if k >= o.table.len() {
        return None;
    }
    let lm = line_markers(s, &o, k);
    proof {
        crate::text::lemma_line_table_wf(s@);
        assert(crate::text::tab_view(o.table@)[k as int] == line_table(s@)[k as int]);
    }
    let cs = lm.content_start();
    let ce = lm.end;
    if cs >= ce {
        return None;
    }
    if is_all_ws(s, cs, ce) {
        return None;
    }
    let ts = skip_ws_from(s, cs, ce);
    let te = trim_end_at(s, cs, ce);
    Some((cs, ce, ts, te))
}

/// Adds (`add`) or removes the `~~` around the content of line `k`,
/// shifting the cursor with the text before it.
pub open spec fn strike(p: Prop, k: int, add: bool) -> Prop {
    let s = p.text;
    let cleared = Prop { cleared: true, ..p };
    if k < 0 || k >= line_table(s).len() {
        cleared
    } else {
        let c = trimmed_content(s, k);
        let (cs, ce, ts, te) = (c.0, c.1, c.2, c.3);
        if cs >= ce || all_ws(s, cs, ce) {
            cleared
        } else {
            let starts = te - ts >= 2 && s[ts] == 126u8 && s[ts + 1] == 126u8;
            let ends = te - ts >= 2 && s[te - 1] == 126u8 && s[te - 2] == 126u8;
            if add {
                if starts && ends {
                    cleared
                } else {
                    let s1 = ins(s, te, tilde2());
                    let s2 = ins(s1, ts, tilde2());
                    let adj = (if p.cur > ts { 2int } else { 0 }) + (if p.cur > te { 2int } else { 0 });
                    Prop { text: s2, cur: sat(p.cur + adj), cleared: true }
                }
            } else if starts && ends && te - ts >= 4 {
                let s1 = del(s, te - 2, te);
                let s2 = del(s1, ts, ts + 2);
                let adj = (if p.cur > ts + 2 { 2int } else { 0 }) + (if p.cur > te { 2int } else { 0 });
                Prop { text: s2, cur: p.cur - adj, cleared: true }
            } else {
                cleared
            }
        }
    }
}

/// Propagates the state of the task whose checkbox starts at `start` to
/// the tasks it is nested in: a checked task checks its parent when all
/// its siblings are checked; an unchecked task unchecks its parent.
pub open spec fn propagate_up(p: Prop, start: int, checked: bool) -> Prop
    decreases start,
{
    let s = p.text;
    match parent_checkbox(s, start) {
        None => p,
        Some(pcb) => if pcb.start >= start || pcb.start < 0 {
            p
        } else if checked {
            if all_checked(sibling_checkboxes(s, start)) && !pcb.checked {
                let s1 = set_box(s, pcb.start as int, true);
                let p2 = strike(Prop { text: s1, ..p }, line_index(line_table(s1), pcb.start as int), true);
                propagate_up(p2, pcb.start as int, true)
            } else {
                p
            }
        } else if pcb.checked {
            let s1 = set_box(s, pcb.start as int, false);
            let p2 = strike(Prop { text: s1, ..p }, line_index(line_table(s1), pcb.start as int), false);
            propagate_up(p2, pcb.start as int, false)
        } else {
            p
        },
    }
}

/// Exec mirror of `Prop`.
pub struct PropState {
    pub buf: Vec<u8>,
    pub cur: usize,
    pub cleared: bool,
}

impl PropState {
    pub open spec fn view(&self) -> Prop {
        Prop { text: self.buf@, cur: self.cur as int, cleared: self.cleared }
    }
}

pub proof fn lemma_ascii2()
    ensures
        valid_utf8(tilde2()),
        forall|c: u8| c < 0x80 ==> valid_utf8(#[trigger] byte_text(c)),
{
    lemma_ascii_valid(tilde2());
    assert forall|c: u8| c < 0x80 implies valid_utf8(#[trigger] byte_text(c)) by {
        lemma_ascii_valid(byte_text(c));
    }
}

/// Sets a checkbox mark in place.
pub fn set_box_exec(ps: &mut PropState, o: usize, checked: bool)
    requires
        valid_utf8(old(ps).buf@),
        o + 3 <= old(ps).buf.len(),
    ensures
        valid_utf8(final(ps).buf@),
        final(ps).view() == (Prop { text: set_box(old(ps).buf@, o as int, checked), ..old(ps).view() }),
{
    let c: u8 = if checked {
        120u8
    } else {
        32u8
    };
    let t = vec![c];
    proof {
        lemma_ascii2();
        assert(t@ =~= byte_text(c));
    }
    apply_edit(&mut ps.buf, o + 1, o + 2, t.as_slice());
}

/// `strike` applied in place.
pub fn strike_exec(ps: &mut PropState, k: usize, add: bool)
    requires
        valid_utf8(old(ps).buf@),
    ensures
        valid_utf8(final(ps).buf@),
        final(ps).view() == strike(old(ps).view(), k as int, add),
{
    ps.cleared = true;
    let c = trimmed_content_exec(&ps.buf, k);
    if c.is_none() {
        return;
    }
    let (cs, ce, ts, te) = c.unwrap();
    let starts = te >= ts && te - ts >= 2 && ps.buf[ts] == 126u8 && ps.buf[ts + 1] == 126u8;
    let ends = te >= ts && te - ts >= 2 && ps.buf[te - 1] == 126u8 && ps.buf[te - 2] == 126u8;
    let tl = vec![126u8, 126u8];
    proof {
        lemma_ascii2();
        assert(tl@ =~= tilde2());
    }
    if add {
        if starts && ends {
            return;
        }
        let cur = ps.cur;
        apply_edit(&mut ps.buf, te, te, tl.as_slice());
        apply_edit(&mut ps.buf, ts, ts, tl.as_slice());
        let mut c = cur;
        if cur > ts {
            c = if c <= usize::MAX - 2 { c + 2 } else { usize::MAX };
        }
        if cur > te {
            c = if c <= usize::MAX - 2 { c + 2 } else { usize::MAX };
        }
        ps.cur = c;
    } else if starts && ends && te - ts >= 4 {
        let cur = ps.cur;
        apply_edit(&mut ps.buf, te - 2, te, &[]);
        apply_edit(&mut ps.buf, ts, ts + 2, &[]);
        let mut c = cur;
        if cur > ts + 2 {
            c = c - 2;
        }
        if cur > te {
            c = c - 2;
        }
        ps.cur = c;
    }
}

/// `propagate_up` applied in place.
pub fn propagate_up_exec(ps: &mut PropState, start: usize, checked: bool)
    requires
        valid_utf8(old(ps).buf@),
    ensures
        valid_utf8(final(ps).buf@),
        final(ps).view() == propagate_up(old(ps).view(), start as int, checked),
    decreases start,
{
    let o = analyze(&ps.buf);
    match parent_checkbox_exec(&ps.buf, &o, start) {
        None => {},
        Some(pcb) => {
            if pcb.start >= start {
                return;
            }
            if checked {
                let sibs = sibling_checkboxes_exec(&ps.buf, &o, start);
                if all_checked_exec(&sibs) && !pcb.checked {
                    set_box_exec(ps, pcb.start, true);
                    let o1 = analyze(&ps.buf);
                    let k = line_of(&ps.buf, &o1, pcb.start);
                    strike_exec(ps, k, true);
                    propagate_up_exec(ps, pcb.start, true);
                }
            } else if pcb.checked {
                set_box_exec(ps, pcb.start, false);
                let o1 = analyze(&ps.buf);
                let k = line_of(&ps.buf, &o1, pcb.start);
                strike_exec(ps, k, false);
                propagate_up_exec(ps, pcb.start, false);
            }
        },
    }
}


/// Starts of the checkboxes among `cbs` whose state is not `new`, in order.
pub open spec fn boxes_to_toggle(cbs: Seq<CheckboxScan>, new: bool) -> Seq<usize>
    decreases cbs.len(),
{
    if cbs.len() == 0 {
        seq![]
    } else {
        let r = boxes_to_toggle(cbs.drop_last(), new);
        if cbs.last().checked != new {
            r.push(cbs.last().start)
        } else {
            r
        }
    }
}

/// `set_box` applied at `ts[i - 1]`, then `ts[i - 2]`, ..., down to `ts[0]`.
pub open spec fn set_boxes(s: Seq<u8>, ts: Seq<usize>, checked: bool, i: int) -> Seq<u8>
    decreases i,
{
    if i <= 0 {
        s
    } else {
        set_boxes(set_box(s, ts[i - 1] as int, checked), ts, checked, i - 1)
    }
}

/// `strike` applied to the lines of `ts[i - 1]`, then `ts[i - 2]`, ...,
/// down to `ts[0]`.
pub open spec fn strike_all(p: Prop, ts: Seq<usize>, add: bool, i: int) -> Prop
    decreases i,
{
    if i <= 0 {
        p
    } else {
        strike_all(strike(p, line_index(line_table(p.text), ts[i - 1] as int), add), ts, add, i - 1)
    }
}

/// At a checkbox, `set_box` changes only its mark.
pub proof fn lemma_set_box(s: Seq<u8>, o: int, checked: bool)
    requires
        box_bytes(s, o),
    ensures
        set_box(s, o, checked) == s.update(o + 1, if checked { 120u8 } else { 32u8 }),
{
    lemma_floor_boundary(s, o + 1);
    lemma_floor_boundary(s, o + 2);
    let c: u8 = if checked { 120u8 } else { 32u8 };
    assert(splice(s, o + 1, o + 2, byte_text(c)) =~= s.update(o + 1, c));
}


/// A found pattern is there.
pub proof fn lemma_find_pat(s: Seq<u8>, i: int, e: int, pat: Seq<u8>)
    ensures
        find_pat(s, i, e, pat) matches Some(r) ==> i <= r && r + pat.len() <= e <= s.len() && s.subrange(r, r + pat.len()) == pat,
    decreases e + 1 - i,
{
    if !(i < 0 || i + pat.len() > e || e > s.len()) && s.subrange(i, i + pat.len()) != pat {
        lemma_find_pat(s, i + 1, e, pat);
    }
}

/// The checkbox that `checkbox_offset` finds is a checkbox.
pub proof fn lemma_checkbox_offset(s: Seq<u8>, k: int, checked: bool)
    requires
        0 <= k < line_table(s).len(),
    ensures
        checkbox_offset(s, k, checked) matches Some(o) ==> box_bytes(s, o),
{
    let a = line_table(s)[k].0;
    let e = line_table(s)[k].1;
    let t = box_text(if checked { 120u8 } else { 32u8 });
    lemma_find_pat(s, a, e, t);
    lemma_find_pat(s, a, e, box_text(88u8));
    match checkbox_offset(s, k, checked) {
        Some(o) => {
            if find_pat(s, a, e, t) is Some {
                assert(s.subrange(o, o + 3)[0] == s[o]);
                assert(s.subrange(o, o + 3)[1] == s[o + 1]);
                assert(s.subrange(o, o + 3)[2] == s[o + 2]);
            } else {
                assert(s.subrange(o, o + 3)[0] == s[o]);
                assert(s.subrange(o, o + 3)[1] == s[o + 1]);
                assert(s.subrange(o, o + 3)[2] == s[o + 2]);
            }
        },
        None => {},
    }
}

/// The boxes to toggle are among the given checkboxes.
pub proof fn lemma_boxes_to_toggle(s: Seq<u8>, cbs: Seq<CheckboxScan>, new: bool)
    requires
        forall|k: int| 0 <= k < cbs.len() ==> box_bytes(s, (#[trigger] cbs[k]).start as int),
    ensures
        forall|j: int| 0 <= j < boxes_to_toggle(cbs, new).len() ==> box_bytes(s, #[trigger] boxes_to_toggle(cbs, new)[j] as int),
    decreases cbs.len(),
{
    if cbs.len() > 0 {
        let d = cbs.drop_last();
        assert forall|k: int| 0 <= k < d.len() implies box_bytes(s, (#[trigger] d[k]).start as int) by {
            assert(d[k] == cbs[k]);
        }
        lemma_boxes_to_toggle(s, d, new);
        let r = boxes_to_toggle(d, new);
        assert(box_bytes(s, cbs[cbs.len() - 1].start as int));
        assert forall|j: int| 0 <= j < r.push(cbs.last().start).len() implies box_bytes(s, #[trigger] r.push(cbs.last().start)[j] as int) by {
            if j < r.len() {
                assert(r.push(cbs.last().start)[j] == r[j]);
            }
        }
    }
}


/// Setting the marks of checkboxes `ts[0..n)` gives each of them the new
/// mark and changes no other byte: checking a task checks every task given
/// (unchecking likewise).
pub proof fn lemma_set_boxes(s: Seq<u8>, ts: Seq<usize>, checked: bool, n: int)
    requires
        0 <= n <= ts.len(),
        forall|j: int| 0 <= j < ts.len() ==> box_bytes(s, #[trigger] ts[j] as int),
    ensures
        ({
            let r = set_boxes(s, ts, checked, n);
            let mark: u8 = if checked { 120u8 } else { 32u8 };
            &&& r.len() == s.len()
            &&& forall|j: int| 0 <= j < ts.len() ==> box_bytes(r, #[trigger] ts[j] as int)
            &&& forall|j: int| 0 <= j < n ==> r[#[trigger] ts[j] + 1] == mark
            &&& forall|q: int| 0 <= q < s.len() && (forall|j: int| 0 <= j < n ==> q != #[trigger] ts[j] + 1) ==> #[trigger] r[q] == s[q]
        }),
    decreases n,
{
    if n > 0 {
        let c: u8 = if checked { 120u8 } else { 32u8 };
        let o = ts[n - 1] as int;
        lemma_set_box(s, o, checked);
        let s1 = set_box(s, o, checked);
        assert(s1 == s.update(o + 1, c));
        assert forall|j: int| 0 <= j < ts.len() implies box_bytes(s1, #[trigger] ts[j] as int) by {
            assert(box_bytes(s, ts[j] as int));
        }
        lemma_set_boxes(s1, ts, checked, n - 1);
        let r = set_boxes(s1, ts, checked, n - 1);
        assert(set_boxes(s, ts, checked, n) == r);
        assert forall|j: int| 0 <= j < n implies r[#[trigger] ts[j] + 1] == c by {
            if j < n - 1 {
            } else {
                if exists|i: int| 0 <= i < n - 1 && ts[j] + 1 == #[trigger] ts[i] + 1 {
                    let i = choose|i: int| 0 <= i < n - 1 && ts[j] + 1 == #[trigger] ts[i] + 1;
                    assert(r[ts[i] + 1] == c);
                } else {
                    assert(r[ts[j] + 1] == s1[ts[j] + 1]);
                }
            }
        }
        assert forall|q: int| 0 <= q < s.len() && (forall|j: int| 0 <= j < n ==> q != #[trigger] ts[j] + 1) implies #[trigger] r[q] == s[q] by {
            assert(q != ts[n - 1] + 1);
            assert(forall|j: int| 0 <= j < n - 1 ==> q != #[trigger] ts[j] + 1);
            assert(r[q] == s1[q]);
        }
    }
}

/// `boxes_to_toggle` computed.
pub fn boxes_to_toggle_exec(cbs: &Vec<CheckboxScan>, new: bool) -> (r: Vec<usize>)
    ensures
        r@ == boxes_to_toggle(cbs@, new),
{
    let mut r: Vec<usize> = Vec::new();
    let mut i: usize = 0;
    while i < cbs.len()
        invariant
            i <= cbs@.len(),
            r@ == boxes_to_toggle(cbs@.subrange(0, i as int), new),
        decreases cbs@.len() - i,
    {
        assert(cbs@.subrange(0, i + 1).drop_last() =~= cbs@.subrange(0, i as int));
        if cbs[i].checked != new {
            r.push(cbs[i].start);
        }
        i = i + 1;
    }
    assert(cbs@.subrange(0, cbs@.len() as int) =~= cbs@);
    r
}

/// `set_boxes` applied in place, at checkboxes.
pub fn set_boxes_exec(ps: &mut PropState, ts: &Vec<usize>, checked: bool)
    requires
        valid_utf8(old(ps).buf@),
        forall|j: int| 0 <= j < ts@.len() ==> box_bytes(old(ps).buf@, #[trigger] ts@[j] as int),
    ensures
        valid_utf8(final(ps).buf@),
        final(ps).view() == (Prop { text: set_boxes(old(ps).buf@, ts@, checked, ts@.len() as int), ..old(ps).view() }),
{
    let ghost s0 = ps.buf@;
    let mut i = ts.len();
    while i > 0
        invariant
            i <= ts@.len(),
            valid_utf8(ps.buf@),
            forall|j: int| 0 <= j < ts@.len() ==> box_bytes(ps.buf@, #[trigger] ts@[j] as int),
            set_boxes(ps.buf@, ts@, checked, i as int) == set_boxes(s0, ts@, checked, ts@.len() as int),
            ps.cur == old(ps).cur,
            ps.cleared == old(ps).cleared,
        decreases i,
    {
        let o = ts[i - 1];
        let ghost before = ps.buf@;
        proof {
            lemma_set_box(before, o as int, checked);
        }
        set_box_exec(ps, o, checked);
        assert forall|j: int| 0 <= j < ts@.len() implies box_bytes(ps.buf@, #[trigger] ts@[j] as int) by {
            assert(box_bytes(before, ts@[j] as int));
        }
        i = i - 1;
    }
}

/// `strike_all` applied in place.
pub fn strike_all_exec(ps: &mut PropState, ts: &Vec<usize>, add: bool)
    requires
        valid_utf8(old(ps).buf@),
    ensures
        valid_utf8(final(ps).buf@),
        final(ps).view() == strike_all(old(ps).view(), ts@, add, ts@.len() as int),
{
    let ghost p0 = ps.view();
    let mut i = ts.len();
    while i > 0
        invariant
            i <= ts@.len(),
            valid_utf8(ps.buf@),
            strike_all(ps.view(), ts@, add, i as int) == strike_all(p0, ts@, add, ts@.len() as int),
        decreases i,
    {
        let o = analyze(&ps.buf);
        let k = line_of(&ps.buf, &o, ts[i - 1]);
        strike_exec(ps, k, add);
        i = i - 1;
    }
}

/// The cursor and cache flag returned by a propagation are those of `p`.
pub open spec fn result_matches(r: (usize, bool), p: Prop) -> bool {
    r.0 as int == p.cur && r.1 == p.cleared
}

/// `r` and `x` hold the same position, or both none.
pub open spec fn opt_eq(r: Option<usize>, x: Option<int>) -> bool {
    match x {
        Some(v) => r is Some && r->0 as int == v,
        None => r is None,
    }
}

/// First position in `s[i..e)` where `pat` occurs.
pub open spec fn find_pat(s: Seq<u8>, i: int, e: int, pat: Seq<u8>) -> Option<int>
    decreases e + 1 - i,
{
    if i < 0 || i + pat.len() > e || e > s.len() {
        None
    } else if s.subrange(i, i + pat.len()) == pat {
        Some(i)
    } else {
        find_pat(s, i + 1, e, pat)
    }
}

pub open spec fn box_text(c: u8) -> Seq<u8> {
    seq![91u8, c, 93u8]
}

/// Where the checkbox text of line `k` starts: the first `[x]` (or, failing
/// that, `[X]`) for a checked box, the first `[ ]` for an unchecked one.
pub open spec fn checkbox_offset(s: Seq<u8>, k: int, checked: bool) -> Option<int> {
    let a = line_table(s)[k].0;
    let e = line_table(s)[k].1;
    match find_pat(s, a, e, box_text(if checked { 120u8 } else { 32u8 })) {
        Some(r) => Some(r),
        None => if checked {
            find_pat(s, a, e, box_text(88u8))
        } else {
            None
        },
    }
}

pub fn find_pat_exec(s: &Vec<u8>, a: usize, e: usize, pat: &Vec<u8>) -> (r: Option<usize>)
    requires
        a <= e <= s@.len(),
    ensures
        opt_eq(r, find_pat(s@, a as int, e as int, pat@)),
        r is Some ==> a <= r->0 && r->0 + pat@.len() <= e,
{
    let mut i = a;
    while i <= e && e - i >= pat.len()
        invariant
            a <= i,
            e <= s@.len(),
            find_pat(s@, a as int, e as int, pat@) == find_pat(s@, i as int, e as int, pat@),
        decreases e + 1 - i,
    {
        let mut j: usize = 0;
        let mut same = true;
        while j < pat.len()
            invariant
                j <= pat@.len(),
                i + pat@.len() <= e <= s@.len(),
                same == (forall|q: int| 0 <= q < j ==> s@[i + q] == pat@[q]),
            decreases pat@.len() - j,
        {
            if s[i + j] != pat[j] {
                same = false;
            }
            j = j + 1;
        }
        assert(same == (s@.subrange(i as int, i + pat@.len()) =~= pat@));
        if same {
            return Some(i);
        }
        i = i + 1;
    }
    None
}

/// `checkbox_offset` computed.
pub fn checkbox_offset_exec(s: &Vec<u8>, o: &Outline, k: usize, checked: bool) -> (r: Option<usize>)
    requires
        outline_of(s@, o),
        k < o.table@.len(),
    ensures
        opt_eq(r, checkbox_offset(s@, k as int, checked)),
        r is Some ==> r->0 + 3 <= s@.len(),
{
    proof {
        crate::text::lemma_line_table_wf(s@);
        assert(crate::text::tab_view(o.table@)[k as int] == line_table(s@)[k as int]);
    }
    let a = o.table[k].0;
    let e = o.table[k].1;
    let pat = vec![91u8, if checked { 120u8 } else { 32u8 }, 93u8];
    assert(pat@ =~= box_text(if checked { 120u8 } else { 32u8 }));
    match find_pat_exec(s, a, e, &pat) {
        Some(r) => Some(r),
        None => {
            if checked {
                let alt = vec![91u8, 88u8, 93u8];
                assert(alt@ =~= box_text(88u8));
                find_pat_exec(s, a, e, &alt)
            } else {
                None
            }
        },
    }
}

/// Re-evaluates the parent task of the cursor's item when the cursor's
/// line has no checkbox (for instance after one was deleted).
pub open spec fn from_parent(s: Seq<u8>, h: int) -> Option<Prop> {
    let pi = match parent_checkbox(s, h) {
        Some(x) => Some(x),
        None => if h > 0 {
            parent_checkbox(s, h - 1)
        } else {
            None
        },
    };
    match pi {
        None => None,
        Some(pcb) => {
            let so = if sibling_checkboxes(s, h).len() == 0 && h > 0 {
                h - 1
            } else {
                h
            };
            let sibs = sibling_checkboxes(s, so);
            let all = all_checked(sibs);
            if sibs.len() == 0 {
                None
            } else if all && !pcb.checked {
                let s1 = set_box(s, pcb.start as int, true);
                let p2 = strike(Prop { text: s1, cur: h, cleared: false }, line_index(line_table(s1), pcb.start as int), true);
                Some(propagate_up(p2, pcb.start as int, true))
            } else if !all && pcb.checked {
                let s1 = set_box(s, pcb.start as int, false);
                let p2 = strike(Prop { text: s1, cur: h, cleared: false }, line_index(line_table(s1), pcb.start as int), false);
                Some(propagate_up(p2, pcb.start as int, false))
            } else {
                None
            }
        },
    }
}

/// What an edit that left the cursor at `h` propagates: from the cursor
/// line's task when it has one, else to the parent task of the cursor's
/// item. `None` when nothing is to change.
pub open spec fn after_edit(s: Seq<u8>, h: int) -> Option<Prop> {
    let k = line_index(line_table(s), h);
    match crate::doc::checkbox_of(crate::doc::markers_of(s, k), 0) {
        Some(ch) => match checkbox_offset(s, k, ch) {
            Some(o) => Some(propagate_up(Prop { text: s, cur: h, cleared: false }, o, ch)),
            None => None,
        },
        None => from_parent(s, h),
    }
}

/// `from_parent` applied.
pub fn from_parent_exec(buf: &mut Vec<u8>, h: usize) -> (r: Option<(usize, bool)>)
    requires
        valid_utf8(old(buf)@),
    ensures
        valid_utf8(final(buf)@),
        match from_parent(old(buf)@, h as int) {
            None => r is None && final(buf)@ == old(buf)@,
            Some(p) => r is Some && final(buf)@ == p.text && result_matches(r->0, p),
        },
{
    let o = analyze(buf);
    let pi = match parent_checkbox_exec(buf, &o, h) {
        Some(x) => Some(x),
        None => if h > 0 {
            parent_checkbox_exec(buf, &o, h - 1)
        } else {
            None
        },
    };
    match pi {
        None => None,
        Some(pcb) => {
            let first = sibling_checkboxes_exec(buf, &o, h);
            let so = if first.len() == 0 && h > 0 {
                h - 1
            } else {
                h
            };
            let sibs = sibling_checkboxes_exec(buf, &o, so);
            let all = all_checked_exec(&sibs);
            if sibs.len() == 0 {
                None
            } else if (all && !pcb.checked) || (!all && pcb.checked) {
                let target = all;
                let mut ps = PropState { buf: buf.clone(), cur: h, cleared: false };
                assert(ps.buf@ == buf@);
                set_box_exec(&mut ps, pcb.start, target);
                let o1 = analyze(&ps.buf);
                let k = line_of(&ps.buf, &o1, pcb.start);
                strike_exec(&mut ps, k, target);
                propagate_up_exec(&mut ps, pcb.start, target);
                let r = (ps.cur, ps.cleared);
                *buf = ps.buf;
                Some(r)
            } else {
                None
            }
        },
    }
}

/// `after_edit` applied.
pub fn after_edit_exec(buf: &mut Vec<u8>, h: usize) -> (r: Option<(usize, bool)>)
    requires
        valid_utf8(old(buf)@),
    ensures
        valid_utf8(final(buf)@),
        match after_edit(old(buf)@, h as int) {
            None => r is None && final(buf)@ == old(buf)@,
            Some(p) => r is Some && final(buf)@ == p.text && result_matches(r->0, p),
        },
{
    let o = analyze(buf);
    let k = line_of(buf, &o, h);
    let lm = line_markers(buf, &o, k);
    match lm.checkbox() {
        Some(ch) => match checkbox_offset_exec(buf, &o, k, ch) {
            Some(off) => {
                let mut ps = PropState { buf: buf.clone(), cur: h, cleared: false };
                assert(ps.buf@ == buf@);
                propagate_up_exec(&mut ps, off, ch);
                let r = (ps.cur, ps.cleared);
                *buf = ps.buf;
                Some(r)
            },
            None => None,
        },
        None => from_parent_exec(buf, h),
    }
}


/// A text without `[`: it holds no task checkbox.
pub open spec fn no_bracket(s: Seq<u8>) -> bool {
    forall|i: int| 0 <= i < s.len() ==> s[i] != 91u8
}

proof fn lemma_bq_markers_kinds(s: Seq<u8>, p: int, e: int)
    ensures
        forall|i: int| 0 <= i < crate::doc::bq_markers(s, p, e).len() ==> (#[trigger] crate::doc::bq_markers(s, p, e)[i]).kind is BlockQuote,
    decreases e - p,
{
    if !(p < 0 || p >= e || e > s.len() || s[p] != 62u8) {
        let q = if p + 1 < e && s[p + 1] == 32u8 {
            p + 2
        } else {
            p + 1
        };
        lemma_bq_markers_kinds(s, q, e);
        let r = crate::doc::bq_markers(s, q, e);
        assert forall|i: int| 0 <= i < crate::doc::bq_markers(s, p, e).len() implies (#[trigger] crate::doc::bq_markers(s, p, e)[i]).kind is BlockQuote by {
            if i > 0 {
                assert(crate::doc::bq_markers(s, p, e)[i] == r[i - 1]);
            }
        }
    }
}

proof fn lemma_no_checkbox_marker(ms: Seq<crate::marker::Marker>, i: int)
    requires
        0 <= i,
        forall|j: int| 0 <= j < ms.len() ==> !((#[trigger] ms[j]).kind is Checkbox),
    ensures
        crate::doc::checkbox_of(ms, i) is None,
    decreases ms.len() - i,
{
    if i < ms.len() {
        lemma_no_checkbox_marker(ms, i + 1);
    }
}

/// The parent of the item holding `p` has no task box in a text without
/// `[`.
proof fn lemma_no_bracket_parent(s: Seq<u8>, p: int)
    requires
        no_bracket(s),
        s.len() < usize::MAX,
    ensures
        parent_checkbox(s, p) is None,
{
    crate::outline::lemma_outline(s);
    crate::text::lemma_line_table_wf(s);
    let t = line_table(s);
    let k = line_index(t, p);
    crate::text::lemma_line_index_from(t, 0, p);
    let o = crate::outline::outline(s);
    assert(crate::outline::line_info_wf(o.lines[k], o.items.len() as int, o.blocks.len() as int));
    match o.lines[k].item {
        Some(i) => {
            assert(crate::outline::item_wf(s, o.items[i as int], i as int, t.len() as int));
            match o.items[i as int].parent {
                Some(q) => {
                    assert(crate::outline::item_wf(s, o.items[q as int], q as int, t.len() as int));
                    if o.items[q as int].task is Some {
                        assert(box_bytes(s, o.items[q as int].task->0.start as int));
                    }
                },
                None => {},
            }
        },
        None => {},
    }
}

/// In a text without `[` there is no task checkbox, so an edit
/// propagates nothing.
pub proof fn lemma_no_bracket_no_propagation(s: Seq<u8>, h: int)
    requires
        no_bracket(s),
        s.len() < usize::MAX,
    ensures
        after_edit(s, h) is None,
{
    crate::outline::lemma_outline(s);
    crate::text::lemma_line_table_wf(s);
    let t = line_table(s);
    let k = line_index(t, h);
    crate::text::lemma_line_index_from(t, 0, h);
    let o = crate::outline::outline(s);
    let sc = o.lines[k].scan;
    assert(sc == crate::marker::scan_line(s, t[k].0, t[k].1));
    assert(sc.checkbox is None);
    lemma_bq_markers_kinds(s, sc.start as int, sc.end as int);
    let a = crate::doc::bq_markers(s, sc.start as int, sc.end as int);
    let b: Seq<crate::marker::Marker> = if o.lines[k].indent {
        seq![crate::marker::Marker { kind: crate::marker::MarkerKind::Indent, start: sc.bq_end, end: (sc.bq_end + sc.lead) as usize }]
    } else {
        seq![]
    };
    let c = crate::doc::block_markers(o, k);
    let ms = crate::doc::markers_of(s, k);
    assert(ms == a + b + c);
    assert forall|j: int| 0 <= j < c.len() implies !((#[trigger] c[j]).kind is Checkbox) by {
    }
    assert forall|j: int| 0 <= j < ms.len() implies !((#[trigger] ms[j]).kind is Checkbox) by {
        if j < a.len() {
            assert(ms[j] == a[j]);
        } else if j < a.len() + b.len() {
            assert(ms[j] == b[j - a.len()]);
        } else {
            assert(ms[j] == c[j - a.len() - b.len()]);
        }
    }
    lemma_no_checkbox_marker(ms, 0);
    lemma_no_bracket_parent(s, h);
    lemma_no_bracket_parent(s, h - 1);
}

} // verus!
