//! Flipping a task checkbox between checked and unchecked changes nothing
//! in the structure of the text but that box's state; with that, what
//! unchecking a task (by propagation, or by clicking its checkbox) does to
//! the tasks it is nested in.

use vstd::prelude::*;
use crate::marker::{LineBlock, LineScan, CheckboxScan, bq_scan, run_end, digits_end, digits_value, block_at,
    checkbox_at, scan_line, box_bytes, is_digit};
use crate::outline::{Item, LineInfo, OState, step, outline_upto, outline, pop_for, pop_deeper};
use crate::doc::{parent_checkbox, item_at, checkbox_of, markers_of};
use crate::state::{EditorView, toggle_spec};
use crate::edit::{Prop, propagate_up, strike, set_box, trimmed_content, checkbox_offset};
use crate::text::{line_index, ws_len, all_ws, skip_ws, trim_end_from, next_nl, lines_from, line_table};

verus! {

/// `s` and `t` hold the same bytes in `[a, b)`.
pub open spec fn agree(s: Seq<u8>, t: Seq<u8>, a: int, b: int) -> bool {
    forall|j: int| a <= j < b ==> s[j] == t[j]
}

proof fn cong_bq_scan(s: Seq<u8>, t: Seq<u8>, p: int, e: int, hi: int)
    requires
        s.len() == t.len(),
        0 <= p,
        agree(s, t, p, hi),
        bq_scan(s, p, e).1 < hi || e <= hi,
    ensures
        bq_scan(s, p, e) == bq_scan(t, p, e),
    decreases e - p,
{
    if p <= e && e <= s.len() {
        crate::marker::lemma_bq_scan(s, p, e);
    }
    if !(p < 0 || p >= e || e > s.len() || s[p] != 62u8) {
        let q = if p + 1 < e && s[p + 1] == 32u8 { p + 2 } else { p + 1 };
        assert(s[p] == t[p]);
        if p + 1 < e {
            assert(p + 1 < hi) by {
                crate::marker::lemma_bq_scan(s, q, e);
            }
            assert(s[p + 1] == t[p + 1]);
        }
        cong_bq_scan(s, t, q, e, hi);
    } else if p < e && e <= s.len() {
        assert(p < hi);
        assert(s[p] == t[p]);
    }
}

proof fn cong_run_end(s: Seq<u8>, t: Seq<u8>, p: int, e: int, c: u8, hi: int)
    requires
        s.len() == t.len(),
        0 <= p,
        agree(s, t, p, hi),
        run_end(s, p, e, c) < hi || e <= hi,
    ensures
        run_end(s, p, e, c) == run_end(t, p, e, c),
    decreases e - p,
{
    if p < e && e <= s.len() {
        assert(p < hi) by {
            if p <= e && e <= s.len() {
                crate::marker::lemma_run_end(s, p, e, c);
            }
        }
        assert(s[p] == t[p]);
        if s[p] == c {
            cong_run_end(s, t, p + 1, e, c, hi);
        }
    }
}

proof fn cong_digits_end(s: Seq<u8>, t: Seq<u8>, p: int, e: int, hi: int)
    requires
        s.len() == t.len(),
        0 <= p,
        agree(s, t, p, hi),
        digits_end(s, p, e) < hi || e <= hi,
    ensures
        digits_end(s, p, e) == digits_end(t, p, e),
    decreases e - p,
{
    if p < e && e <= s.len() {
        assert(p < hi) by {
            crate::marker::lemma_digits_end(s, p, e);
        }
        assert(s[p] == t[p]);
        if is_digit(s[p]) {
            cong_digits_end(s, t, p + 1, e, hi);
        }
    }
}

proof fn cong_digits_value(s: Seq<u8>, t: Seq<u8>, p: int, q: int)
    requires
        agree(s, t, p, q),
    ensures
        digits_value(s, p, q) == digits_value(t, p, q),
    decreases q - p,
{
    if q > p {
        cong_digits_value(s, t, p, q - 1);
        assert(s[q - 1] == t[q - 1]);
    }
}

proof fn cong_ws_len(s: Seq<u8>, t: Seq<u8>, i: int, e: int)
    requires
        s.len() == t.len(),
        0 <= i,
        agree(s, t, i, e),
    ensures
        ws_len(s, i, e) == ws_len(t, i, e),
{
    if 0 <= i < e && e <= s.len() {
        assert(s[i] == t[i]);
        if i + 1 < e {
            assert(s[i + 1] == t[i + 1]);
        }
        if i + 2 < e {
            assert(s[i + 2] == t[i + 2]);
        }
    }
}

proof fn cong_all_ws(s: Seq<u8>, t: Seq<u8>, a: int, b: int)
    requires
        s.len() == t.len(),
        0 <= a,
        agree(s, t, a, b),
    ensures
        all_ws(s, a, b) == all_ws(t, a, b),
    decreases b - a,
{
    if a < b {
        cong_ws_len(s, t, a, b);
        if ws_len(s, a, b) > 0 {
            cong_all_ws(s, t, a + ws_len(s, a, b), b);
        }
    }
}

proof fn cong_skip_ws(s: Seq<u8>, t: Seq<u8>, a: int, b: int)
    requires
        s.len() == t.len(),
        0 <= a,
        agree(s, t, a, b),
    ensures
        skip_ws(s, a, b) == skip_ws(t, a, b),
    decreases b - a,
{
    if a < b {
        cong_ws_len(s, t, a, b);
        if ws_len(s, a, b) > 0 {
            cong_skip_ws(s, t, a + ws_len(s, a, b), b);
        }
    }
}

proof fn cong_trim_end_from(s: Seq<u8>, t: Seq<u8>, i: int, b: int, last: int)
    requires
        s.len() == t.len(),
        0 <= i,
        agree(s, t, i, b),
    ensures
        trim_end_from(s, i, b, last) == trim_end_from(t, i, b, last),
    decreases b - i,
{
    if i < b {
        cong_ws_len(s, t, i, b);
        if ws_len(s, i, b) > 0 {
            cong_trim_end_from(s, t, i + ws_len(s, i, b), b, last);
        } else {
            cong_trim_end_from(s, t, i + 1, b, i + 1);
        }
    }
}

proof fn cong_block_at(s: Seq<u8>, t: Seq<u8>, m: int, e: int)
    requires
        s.len() == t.len(),
        0 <= m,
        agree(s, t, m, e),
    ensures
        block_at(s, m, e) == block_at(t, m, e),
{
    if 0 <= m < e && e <= s.len() {
        assert(s[m] == t[m]);
        let c = s[m];
        cong_run_end(s, t, m, e, c, e);
        let r = run_end(s, m, e, c);
        crate::marker::lemma_run_end(s, m, e, c);
        if r < e {
            assert(s[r] == t[r]);
        }
        cong_skip_ws(s, t, r, e);
        let is = skip_ws(s, r, e);
        crate::marker::lemma_skip_ws(s, r, e);
        cong_trim_end_from(s, t, is, e, is);
        if m + 1 < e {
            assert(s[m + 1] == t[m + 1]);
        }
        cong_digits_end(s, t, m, e, e);
        let d = digits_end(s, m, e);
        crate::marker::lemma_digits_end(s, m, e);
        if d + 1 < e {
            assert(s[d] == t[d] && s[d + 1] == t[d + 1]);
        }
        cong_digits_value(s, t, m, d);
    }
}

/// Scanning a line looks at its bytes only.
proof fn cong_scan_line(s: Seq<u8>, t: Seq<u8>, a: int, e: int)
    requires
        s.len() == t.len(),
        0 <= a <= e <= s.len(),
        s.len() <= usize::MAX,
        agree(s, t, a, e),
    ensures
        scan_line(s, a, e) == scan_line(t, a, e),
{
    cong_bq_scan(s, t, a, e, e);
    let bq = bq_scan(s, a, e);
    crate::marker::lemma_bq_scan(s, a, e);
    cong_run_end(s, t, bq.1, e, 32u8, e);
    let m = run_end(s, bq.1, e, 32u8);
    crate::marker::lemma_run_end(s, bq.1, e, 32u8);
    cong_block_at(s, t, m, e);
    let block = block_at(s, m, e);
    crate::marker::lemma_block_at(s, m, e);
    cong_all_ws(s, t, bq.1, e);
    match block {
        LineBlock::List { end, .. } => {
            if end + 3 < e {
                assert(s[end + 3] == t[end + 3]);
            }
            if end + 2 < e {
                assert(s[end as int] == t[end as int] && s[end + 1] == t[end + 1] && s[end + 2] == t[end + 2]);
            }
            let after = match checkbox_at(s, end as int, e) {
                Some(cb) => cb.end as int,
                None => end as int,
            };
            assert(a <= after);
            cong_all_ws(s, t, after, e);
        },
        _ => {},
    }
}


/// Texts with their line breaks in the same places.
pub open spec fn same_breaks(s: Seq<u8>, t: Seq<u8>) -> bool {
    s.len() == t.len() && forall|j: int| 0 <= j < s.len() ==> (s[j] == 10u8 <==> t[j] == 10u8)
}

proof fn cong_next_nl(s: Seq<u8>, t: Seq<u8>, p: int)
    requires
        same_breaks(s, t),
    ensures
        next_nl(s, p) == next_nl(t, p),
    decreases s.len() - p,
{
    if p < s.len() {
        if p >= 0 {
            assert(s[p] == 10u8 <==> t[p] == 10u8);
        }
        if !(p >= 0 && s[p] == 10u8) {
            cong_next_nl(s, t, p + 1);
        }
    }
}

proof fn cong_lines_from(s: Seq<u8>, t: Seq<u8>, p: int)
    requires
        same_breaks(s, t),
    ensures
        lines_from(s, p) == lines_from(t, p),
    decreases s.len() - p,
{
    if !(p < 0 || p > s.len()) {
        cong_next_nl(s, t, p);
        let e = next_nl(s, p);
        if e < s.len() {
            crate::text::lemma_next_nl(s, p);
            cong_lines_from(s, t, e + 1);
        }
    }
}

/// Texts with their line breaks in the same places have the same lines.
pub proof fn lemma_same_lines(s: Seq<u8>, t: Seq<u8>)
    requires
        same_breaks(s, t),
    ensures
        line_table(s) == line_table(t),
{
    cong_lines_from(s, t, 0);
}

/// The bytes a run of whitespace characters can hold.
proof fn lemma_all_ws_bytes(s: Seq<u8>, a: int, b: int, j: int)
    requires
        0 <= a,
        all_ws(s, a, b),
        a <= j < b,
    ensures
        (9 <= s[j] <= 13) || s[j] == 32 || s[j] >= 0x80,
    decreases b - a,
{
    let n = ws_len(s, a, b);
    if j >= a + n {
        lemma_all_ws_bytes(s, a + n, b, j);
    }
}


/// Setting the mark of the checkbox a line's scan found changes only
/// that checkbox's state in the scan.
proof fn lemma_flip_scan_line(s: Seq<u8>, b: u8, a: int, e: int, c: int)
    requires
        0 <= a <= e <= s.len(),
        s.len() <= usize::MAX,
        scan_line(s, a, e).checkbox matches Some(cb) && cb.start == c,
        b == 32u8 || b == 120u8,
    ensures
        scan_line(s.update(c + 1, b), a, e) == (LineScan {
            checkbox: Some(CheckboxScan { checked: b != 32u8, ..scan_line(s, a, e).checkbox->0 }),
            ..scan_line(s, a, e)
        }),
{
    let t = s.update(c + 1, b);
    let sc = scan_line(s, a, e);
    let cb = sc.checkbox->0;
    crate::marker::lemma_bq_scan(s, a, e);
    let bq = bq_scan(s, a, e);
    crate::marker::lemma_run_end(s, bq.1, e, 32u8);
    let m = run_end(s, bq.1, e, 32u8);
    crate::marker::lemma_block_at(s, m, e);
    assert(sc.block is List);
    let end: int = match sc.block {
        LineBlock::List { end, .. } => end as int,
        _ => 0,
    };
    assert(end == c);
    assert(c + 2 < e);
    assert(agree(s, t, a, c + 1));
    assert(agree(s, t, c + 2, e));
    cong_bq_scan(s, t, a, e, c + 1);
    cong_run_end(s, t, bq.1, e, 32u8, c + 1);
    // the block: the list marker lies before the box
    assert(s[m] == t[m] && s[m + 1] == t[m + 1]);
    let ch = s[m];
    if is_digit(ch) {
        crate::marker::lemma_digits_end(s, m, e);
        let d = digits_end(s, m, e);
        assert(end == d + 2);
        cong_digits_end(s, t, m, e, c + 1);
        assert(s[d] == t[d] && s[d + 1] == t[d + 1]);
        cong_digits_value(s, t, m, d);
    } else {
        crate::marker::lemma_digits_end(s, m, e);
        cong_digits_end(s, t, m, e, c + 1);
    }
    assert(block_at(t, m, e) == sc.block);
    // not blank: the marker is no whitespace
    if all_ws(s, bq.1, e) {
        lemma_all_ws_bytes(s, bq.1, e, m);
    }
    if all_ws(t, bq.1, e) {
        lemma_all_ws_bytes(t, bq.1, e, m);
    }
    // the checkbox and what follows it
    assert(t[c] == s[c] && t[c + 2] == s[c + 2] && t[c + 1] == b);
    if c + 3 < e {
        assert(t[c + 3] == s[c + 3]);
    }
    cong_all_ws(s, t, cb.end as int, e);
}


/// The checkbox starting at `c`, if that is `x`, with state `nb`.
pub open spec fn flip_cb(x: Option<CheckboxScan>, c: int, nb: bool) -> Option<CheckboxScan> {
    match x {
        Some(cb) => if cb.start == c {
            Some(CheckboxScan { checked: nb, ..cb })
        } else {
            x
        },
        None => None,
    }
}

pub open spec fn flip_scan(x: LineScan, c: int, nb: bool) -> LineScan {
    LineScan { checkbox: flip_cb(x.checkbox, c, nb), ..x }
}

pub open spec fn flip_item(x: Item, c: int, nb: bool) -> Item {
    Item { task: flip_cb(x.task, c, nb), ..x }
}

pub open spec fn flip_line(x: LineInfo, c: int, nb: bool) -> LineInfo {
    LineInfo { scan: flip_scan(x.scan, c, nb), ..x }
}

/// The structure with the checkbox at `c` in state `nb`.
pub open spec fn flip_ostate(st: OState, c: int, nb: bool) -> OState {
    OState {
        items: st.items.map_values(|it: Item| flip_item(it, c, nb)),
        lines: st.lines.map_values(|l: LineInfo| flip_line(l, c, nb)),
        ..st
    }
}

proof fn lemma_pop_for_flip(stack: Seq<usize>, items: Seq<Item>, depth: int, lead: int, c: int, nb: bool)
    requires
        forall|j: int| 0 <= j < stack.len() ==> (#[trigger] stack[j] as int) < items.len(),
    ensures
        pop_for(stack, items.map_values(|it: Item| flip_item(it, c, nb)), depth, lead) == pop_for(stack, items, depth, lead),
    decreases stack.len(),
{
    let fi = items.map_values(|it: Item| flip_item(it, c, nb));
    if stack.len() > 0 {
        assert(stack[stack.len() - 1] == stack.last());
        assert(fi[stack.last() as int] == flip_item(items[stack.last() as int], c, nb));
        lemma_pop_for_flip(stack.drop_last(), items, depth, lead, c, nb);
    }
}

proof fn lemma_pop_deeper_flip(stack: Seq<usize>, items: Seq<Item>, depth: int, c: int, nb: bool)
    requires
        forall|j: int| 0 <= j < stack.len() ==> (#[trigger] stack[j] as int) < items.len(),
    ensures
        pop_deeper(stack, items.map_values(|it: Item| flip_item(it, c, nb)), depth) == pop_deeper(stack, items, depth),
    decreases stack.len(),
{
    let fi = items.map_values(|it: Item| flip_item(it, c, nb));
    if stack.len() > 0 {
        assert(stack[stack.len() - 1] == stack.last());
        assert(fi[stack.last() as int] == flip_item(items[stack.last() as int], c, nb));
        lemma_pop_deeper_flip(stack.drop_last(), items, depth, c, nb);
    }
}

/// A step over a line whose scan only has the checkbox at `c` flipped
/// gives the flipped structure.
#[verifier::spinoff_prover]
#[verifier::rlimit(60)]
proof fn lemma_step_flip(s: Seq<u8>, t: Seq<u8>, st: OState, k: int, a: int, e: int, c: int, nb: bool)
    requires
        s.len() == t.len(),
        scan_line(t, a, e) == flip_scan(scan_line(s, a, e), c, nb),
        forall|j: int| 0 <= j < st.stack.len() ==> (#[trigger] st.stack[j] as int) < st.items.len(),
        st.open is Some ==> (st.open->0 as int) < st.blocks.len(),
    ensures
        step(t, flip_ostate(st, c, nb), k, a, e) == flip_ostate(step(s, st, k, a, e), c, nb),
{
    reveal(step);
    let sc = scan_line(s, a, e);
    let fst = flip_ostate(st, c, nb);
    lemma_pop_for_flip(st.stack, st.items, sc.bq_count as int, sc.lead as int, c, nb);
    lemma_pop_deeper_flip(st.stack, st.items, sc.bq_count as int, c, nb);
    crate::outline::lemma_pop_for(st.stack, st.items, sc.bq_count as int, sc.lead as int);
    crate::outline::lemma_pop_deeper(st.stack, st.items, sc.bq_count as int);
    let r = step(s, st, k, a, e);
    let r2 = step(t, fst, k, a, e);
    let popped = pop_for(st.stack, st.items, sc.bq_count as int, sc.lead as int);
    if popped.1 is Some {
        let j = choose|j: int| 0 <= j < st.stack.len() && st.stack[j] == popped.1->0;
        assert((st.stack[j] as int) < st.items.len());
    }
    let stack1 = pop_deeper(st.stack, st.items, sc.bq_count as int);
    let t1 = crate::outline::top(stack1);
    if t1 is Some {
        assert(stack1[stack1.len() - 1] == stack1.last());
    }
    assert(r2.items =~= r.items.map_values(|it: Item| flip_item(it, c, nb)));
    assert(r2.lines =~= r.lines.map_values(|l: LineInfo| flip_line(l, c, nb)));
}


/// Earlier lines end before later ones start.
proof fn lemma_lines_ordered(s: Seq<u8>, j: int, k: int)
    requires
        0 <= j < k < line_table(s).len(),
    ensures
        line_table(s)[j].1 < line_table(s)[k].0,
    decreases k - j,
{
    crate::text::lemma_line_table_wf(s);
    let t = line_table(s);
    assert(t[k - 1].1 < s.len() && t[k].0 == t[k - 1].1 + 1);
    if j < k - 1 {
        lemma_lines_ordered(s, j, k - 1);
    }
}

/// Each task item's checkbox is the one its line's scan found.
#[verifier::spinoff_prover]
proof fn lemma_task_lines(s: Seq<u8>, n: int)
    requires
        0 <= n <= line_table(s).len(),
        s.len() < usize::MAX,
    ensures
        outline_upto(s, n).lines.len() == n,
        forall|i: int| 0 <= i < outline_upto(s, n).items.len() && (#[trigger] outline_upto(s, n).items[i]).task is Some
            ==> (outline_upto(s, n).items[i].line as int) < n
                && outline_upto(s, n).lines[outline_upto(s, n).items[i].line as int].scan.checkbox
                == outline_upto(s, n).items[i].task,
    decreases n,
{
    if n > 0 {
        lemma_task_lines(s, n - 1);
        crate::text::lemma_line_count(s);
        let t = line_table(s);
        let st = outline_upto(s, n - 1);
        let r = outline_upto(s, n);
        assert(r == step(s, st, n - 1, t[n - 1].0, t[n - 1].1));
        lemma_step_items(s, st, n - 1, t[n - 1].0, t[n - 1].1);
        assert forall|i: int| 0 <= i < r.items.len() && (#[trigger] r.items[i]).task is Some
            implies (r.items[i].line as int) < n && r.lines[r.items[i].line as int].scan.checkbox == r.items[i].task by {
            if i < st.items.len() {
                assert(r.items[i] == st.items[i]);
                assert(r.lines[st.items[i].line as int] == st.lines[st.items[i].line as int]);
            } else {
                assert(i == st.items.len());
                assert(r.items[i].line == (n - 1) as usize);
                assert(r.lines[n - 1].scan == scan_line(s, t[n - 1].0, t[n - 1].1));
            }
        }
    }
}

/// A step keeps the items it had and adds at most one, started at the
/// line it processes with that line's checkbox.
proof fn lemma_step_items(s: Seq<u8>, st: OState, k: int, a: int, e: int)
    ensures
        step(s, st, k, a, e).items.len() == st.items.len() || step(s, st, k, a, e).items.len() == st.items.len() + 1,
        forall|i: int| 0 <= i < st.items.len() ==> step(s, st, k, a, e).items[i] == st.items[i],
        step(s, st, k, a, e).items.len() == st.items.len() + 1 ==> step(s, st, k, a, e).items[st.items.len() as int].line == k as usize
            && step(s, st, k, a, e).items[st.items.len() as int].task == scan_line(s, a, e).checkbox
            && step(s, st, k, a, e).lines[st.lines.len() as int].item == Some(st.items.len() as usize),
        step(s, st, k, a, e).lines.len() == st.lines.len() + 1,
        forall|j: int| 0 <= j < st.lines.len() ==> step(s, st, k, a, e).lines[j] == st.lines[j],
        step(s, st, k, a, e).lines[st.lines.len() as int].scan == scan_line(s, a, e),
{
    reveal(step);
}

/// Line `k` of `s` holds a task checkbox starting at `c`.
pub open spec fn box_line(s: Seq<u8>, c: int, k: int) -> bool {
    &&& 0 <= k < line_table(s).len()
    &&& scan_line(s, line_table(s)[k].0, line_table(s)[k].1).checkbox matches Some(cb) && cb.start == c
}

/// Setting the mark of the checkbox at `c` changes, of each line's scan,
/// only that checkbox's state.
proof fn lemma_flip_line_scan(s: Seq<u8>, b: u8, c: int, k0: int, j: int)
    requires
        box_line(s, c, k0),
        0 <= j < line_table(s).len(),
        s.len() < usize::MAX,
        b == 32u8 || b == 120u8,
    ensures
        scan_line(s.update(c + 1, b), line_table(s)[j].0, line_table(s)[j].1)
            == flip_scan(scan_line(s, line_table(s)[j].0, line_table(s)[j].1), c, b != 32u8),
{
    crate::text::lemma_line_table_wf(s);
    let t = line_table(s);
    let u = s.update(c + 1, b);
    let (a0, e0) = (t[k0].0, t[k0].1);
    crate::outline::lemma_scan_line(s, a0, e0);
    let (a, e) = (t[j].0, t[j].1);
    crate::outline::lemma_scan_line(s, a, e);
    if j == k0 {
        lemma_flip_scan_line(s, b, a, e, c);
    } else {
        if j < k0 {
            lemma_lines_ordered(s, j, k0);
        } else {
            lemma_lines_ordered(s, k0, j);
        }
        assert(agree(s, u, a, e));
        cong_scan_line(s, u, a, e);
        let x = scan_line(s, a, e);
        assert(flip_scan(x, c, b != 32u8) == x);
    }
}

/// Setting the mark of the checkbox at `c` gives the same structure with
/// that checkbox's state changed.
pub proof fn lemma_flip_outline_upto(s: Seq<u8>, b: u8, c: int, k0: int, n: int)
    requires
        box_line(s, c, k0),
        0 <= n <= line_table(s).len(),
        s.len() < usize::MAX,
        b == 32u8 || b == 120u8,
    ensures
        outline_upto(s.update(c + 1, b), n) == flip_ostate(outline_upto(s, n), c, b != 32u8),
    decreases n,
{
    let u = s.update(c + 1, b);
    let nb = b != 32u8;
    crate::text::lemma_line_table_wf(s);
    crate::outline::lemma_scan_line(s, line_table(s)[k0].0, line_table(s)[k0].1);
    assert(same_breaks(s, u));
    lemma_same_lines(s, u);
    if n == 0 {
        let z = outline_upto(s, 0);
        assert(flip_ostate(z, c, nb).items =~= z.items);
        assert(flip_ostate(z, c, nb).lines =~= z.lines);
    } else {
        lemma_flip_outline_upto(s, b, c, k0, n - 1);
        crate::outline::lemma_outline_upto(s, n - 1);
        let t = line_table(s);
        let st = outline_upto(s, n - 1);
        lemma_flip_line_scan(s, b, c, k0, n - 1);
        lemma_step_flip(s, u, st, n - 1, t[n - 1].0, t[n - 1].1, c, nb);
    }
}

/// Setting the mark of the checkbox at `c` changes, of the parent
/// checkbox of any position, only the state of that checkbox.
proof fn lemma_flip_parent(s: Seq<u8>, b: u8, c: int, k0: int, x: int)
    requires
        box_line(s, c, k0),
        s.len() < usize::MAX,
        b == 32u8 || b == 120u8,
    ensures
        parent_checkbox(s.update(c + 1, b), x) == flip_cb(parent_checkbox(s, x), c, b != 32u8),
{
    let u = s.update(c + 1, b);
    let nb = b != 32u8;
    crate::text::lemma_line_table_wf(s);
    let t = line_table(s);
    lemma_flip_outline_upto(s, b, c, k0, t.len() as int);
    crate::outline::lemma_scan_line(s, t[k0].0, t[k0].1);
    assert(same_breaks(s, u));
    lemma_same_lines(s, u);
    crate::outline::lemma_outline(s);
    crate::text::lemma_line_index_from(t, 0, x);
    let o = outline(s);
    let k = line_index(t, x);
    assert(outline(u).lines[k] == flip_line(o.lines[k], c, nb));
    match o.lines[k].item {
        Some(i) => {
            assert(crate::outline::line_info_wf(o.lines[k], o.items.len() as int, o.blocks.len() as int));
            assert(crate::outline::item_wf(s, o.items[i as int], i as int, t.len() as int));
            assert(outline(u).items[i as int] == flip_item(o.items[i as int], c, nb));
            match o.items[i as int].parent {
                Some(q) => {
                    assert(outline(u).items[q as int] == flip_item(o.items[q as int], c, nb));
                },
                None => {},
            }
        },
        None => {},
    }
}

/// The text holds no `~`.
pub open spec fn no_tilde(s: Seq<u8>) -> bool {
    forall|j: int| 0 <= j < s.len() ==> s[j] != 126u8
}

/// Starts of the checked task checkboxes above the task whose checkbox
/// starts at `o`: its parent's, when checked, then that task's parent's,
/// when checked, and so on.
pub open spec fn checked_ancestors(s: Seq<u8>, o: int) -> Seq<int>
    decreases o,
{
    match parent_checkbox(s, o) {
        Some(pcb) => if 0 <= pcb.start < o && pcb.checked {
            seq![pcb.start as int] + checked_ancestors(s, pcb.start as int)
        } else {
            seq![]
        },
        None => seq![],
    }
}

/// Without any `~` in the text there is no strikethrough to remove.
proof fn lemma_strike_plain(p: Prop, k: int)
    requires
        no_tilde(p.text),
    ensures
        strike(p, k, false).text == p.text,
{
    let s = p.text;
    if 0 <= k < line_table(s).len() {
        crate::text::lemma_line_table_wf(s);
        let c = trimmed_content(s, k);
        let (cs, ce, ts, te) = (c.0, c.1, c.2, c.3);
        assert(0 <= cs);
        assert(ce <= s.len());
        if cs < ce {
            crate::marker::lemma_skip_ws(s, cs, ce);
            crate::marker::lemma_trim_end_from(s, cs, ce, cs);
            if te - ts >= 2 {
                assert(s[ts] != 126u8);
            }
        }
    }
}

/// The parent checkbox of a position is the checkbox of a line.
proof fn lemma_parent_box_line(s: Seq<u8>, o: int) -> (k0: int)
    requires
        s.len() < usize::MAX,
        parent_checkbox(s, o) is Some,
    ensures
        box_line(s, parent_checkbox(s, o)->0.start as int, k0),
        box_bytes(s, parent_checkbox(s, o)->0.start as int),
{
    crate::text::lemma_line_table_wf(s);
    let t = line_table(s);
    lemma_task_lines(s, t.len() as int);
    crate::outline::lemma_outline(s);
    let o_s = outline(s);
    let i = item_at(s, o)->0;
    let q = o_s.items[i as int].parent->0;
    crate::text::lemma_line_index_from(t, 0, o);
    assert(crate::outline::line_info_wf(o_s.lines[line_index(t, o)], o_s.items.len() as int, o_s.blocks.len() as int));
    assert(crate::outline::item_wf(s, o_s.items[i as int], i as int, t.len() as int));
    assert(o_s.items[q as int].task is Some);
    let k0 = o_s.items[q as int].line as int;
    assert(o_s.lines[k0].scan.checkbox == o_s.items[q as int].task);
    crate::outline::lemma_scan_line(s, t[k0].0, t[k0].1);
    k0
}

/// Unchecking the box at `c` leaves the checked tasks above any earlier
/// position as they were.
proof fn lemma_chain_flip(s: Seq<u8>, c: int, k0: int, x: int)
    requires
        box_line(s, c, k0),
        s.len() < usize::MAX,
        x <= c,
    ensures
        checked_ancestors(s.update(c + 1, 32u8), x) == checked_ancestors(s, x),
    decreases x,
{
    lemma_flip_parent(s, 32u8, c, k0, x);
    match parent_checkbox(s, x) {
        Some(pcb) => {
            if 0 <= pcb.start < x {
                lemma_chain_flip(s, c, k0, pcb.start as int);
            }
        },
        None => {},
    }
}

/// Unchecking a task unchecks the tasks it is nested in: every task in the
/// run of checked tasks directly above the task whose checkbox starts at
/// `o` ends up unchecked, and nothing after `o` changes. (Texts without
/// `~`, where no strikethrough moves the text.)
#[verifier::spinoff_prover]
#[verifier::rlimit(50)]
pub proof fn lemma_uncheck_propagates(p: Prop, o: int)
    requires
        no_tilde(p.text),
        p.text.len() < usize::MAX,
    ensures
        propagate_up(p, o, false).text.len() == p.text.len(),
        no_tilde(propagate_up(p, o, false).text),
        forall|j: int| o < j < p.text.len() ==> propagate_up(p, o, false).text[j] == p.text[j],
        forall|i: int| 0 <= i < checked_ancestors(p.text, o).len()
            ==> propagate_up(p, o, false).text[#[trigger] checked_ancestors(p.text, o)[i] + 1] == 32u8,
    decreases o,
{
    let s = p.text;
    match parent_checkbox(s, o) {
        Some(pcb) => {
            if 0 <= pcb.start < o && pcb.checked {
                let c = pcb.start as int;
                let k0 = lemma_parent_box_line(s, o);
                crate::edit::lemma_set_box(s, c, false);
                let s1 = set_box(s, c, false);
                assert(s1 == s.update(c + 1, 32u8));
                let p2 = strike(Prop { text: s1, ..p }, line_index(line_table(s1), c), false);
                lemma_strike_plain(Prop { text: s1, ..p }, line_index(line_table(s1), c));
                assert(p2.text == s1);
                lemma_uncheck_propagates(p2, c);
                lemma_chain_flip(s, c, k0, c);
                let r = propagate_up(p, o, false);
                assert(r == propagate_up(p2, c, false));
                let ch = checked_ancestors(s, o);
                assert(ch == seq![c] + checked_ancestors(s, c));
                assert(r.text[c + 1] == 32u8) by {
                    assert(c + 1 < s1.len());
                    assert(s1[c + 1] == 32u8);
                }
                assert forall|i: int| 0 <= i < ch.len() implies r.text[#[trigger] ch[i] + 1] == 32u8 by {
                    if i > 0 {
                        assert(ch[i] == checked_ancestors(s1, c)[i - 1]);
                    } else {
                        assert(ch[0] == c);
                    }
                }
                assert forall|j: int| o < j < s.len() implies r.text[j] == s[j] by {
                    assert(r.text[j] == s1[j]);
                }
                assert(no_tilde(s1));
            }
        },
        None => {},
    }
}

/// Items start on increasing lines, and the line an item starts on is
/// held by that item.
#[verifier::spinoff_prover]
proof fn lemma_item_lines(s: Seq<u8>, n: int)
    requires
        0 <= n <= line_table(s).len(),
        s.len() < usize::MAX,
    ensures
        outline_upto(s, n).lines.len() == n,
        forall|i: int| 0 <= i < outline_upto(s, n).items.len() ==> (#[trigger] outline_upto(s, n).items[i].line as int) < n
            && outline_upto(s, n).lines[outline_upto(s, n).items[i].line as int].item == Some(i as usize),
        forall|i: int, j: int| 0 <= i < j < outline_upto(s, n).items.len()
            ==> (#[trigger] outline_upto(s, n).items[i].line) < (#[trigger] outline_upto(s, n).items[j].line),
    decreases n,
{
    if n > 0 {
        lemma_item_lines(s, n - 1);
        crate::text::lemma_line_count(s);
        let t = line_table(s);
        let st = outline_upto(s, n - 1);
        let r = outline_upto(s, n);
        assert(r == step(s, st, n - 1, t[n - 1].0, t[n - 1].1));
        lemma_step_items(s, st, n - 1, t[n - 1].0, t[n - 1].1);
        assert forall|i: int| 0 <= i < r.items.len() implies (#[trigger] r.items[i].line as int) < n
            && r.lines[r.items[i].line as int].item == Some(i as usize) by {
            if i < st.items.len() {
                assert(r.items[i] == st.items[i]);
                assert(r.lines[st.items[i].line as int] == st.lines[st.items[i].line as int]);
            } else {
                assert(i == st.items.len());
                assert(r.items[i].line == (n - 1) as usize);
            }
        }
        assert forall|i: int, j: int| 0 <= i < j < r.items.len()
            implies (#[trigger] r.items[i].line) < (#[trigger] r.items[j].line) by {
            assert(r.items[i] == st.items[i]);
            if j < st.items.len() {
                assert(r.items[j] == st.items[j]);
            } else {
                assert(st.items[i].line == st.items[i].line);
                assert((st.items[i].line as int) < n - 1);
            }
        }
    }
}

/// A position inside line `l` is on line `l`.
proof fn lemma_line_index_of(s: Seq<u8>, x: int, l: int)
    requires
        0 <= l < line_table(s).len(),
        line_table(s)[l].0 <= x < line_table(s)[l].1,
    ensures
        line_index(line_table(s), x) == l,
{
    crate::text::lemma_line_table_wf(s);
    crate::text::lemma_line_at(s, x);
    let k = line_index(line_table(s), x);
    if k < l {
        lemma_lines_ordered(s, k, l);
    } else if k > l {
        lemma_lines_ordered(s, l, k);
    }
}

/// The parent task of the item holding `x` starts on an earlier line,
/// which that parent holds.
#[verifier::spinoff_prover]
#[verifier::rlimit(80)]
proof fn lemma_parent_step(s: Seq<u8>, x: int, i: usize)
    requires
        s.len() < usize::MAX,
        item_at(s, x) == Some(i),
    ensures
        i < outline(s).items.len(),
        parent_checkbox(s, x) is Some ==> ({
            let o = outline(s);
            let t = line_table(s);
            let q = o.items[i as int].parent->0;
            let b0 = parent_checkbox(s, x)->0.start as int;
            &&& q < i
            &&& item_at(s, b0) == Some(q)
            &&& t[o.items[q as int].line as int].0 < t[o.items[i as int].line as int].0
            &&& b0 < t[o.items[i as int].line as int].0
        }),
{
    crate::text::lemma_line_table_wf(s);
    let t = line_table(s);
    let n = t.len() as int;
    crate::outline::lemma_outline(s);
    let o = outline(s);
    crate::text::lemma_line_index_from(t, 0, x);
    assert(crate::outline::line_info_wf(o.lines[line_index(t, x)], o.items.len() as int, o.blocks.len() as int));
    assert(i < o.items.len());
    if parent_checkbox(s, x) is Some {
        assert(crate::outline::item_wf(s, o.items[i as int], i as int, n));
        lemma_item_lines(s, n);
        lemma_task_lines(s, n);
        let li = o.items[i as int].line as int;
        let q = o.items[i as int].parent->0 as int;
        let b0 = parent_checkbox(s, x)->0.start as int;
        let lq = o.items[q].line as int;
        assert(o.items[q].line < o.items[i as int].line);
        assert(o.lines[lq].scan.checkbox == o.items[q].task);
        crate::outline::lemma_scan_line(s, t[lq].0, t[lq].1);
        lemma_lines_ordered(s, lq, li);
        lemma_line_index_of(s, b0, lq);
    }
}

/// The checked tasks above the item holding `x` start before the line
/// that item starts on.
proof fn lemma_chain_before(s: Seq<u8>, x: int, i: usize)
    requires
        s.len() < usize::MAX,
        item_at(s, x) == Some(i),
    ensures
        i < outline(s).items.len(),
        forall|idx: int| 0 <= idx < checked_ancestors(s, x).len()
            ==> #[trigger] checked_ancestors(s, x)[idx] < line_table(s)[outline(s).items[i as int].line as int].0,
    decreases x,
{
    lemma_parent_step(s, x, i);
    let t = line_table(s);
    let o = outline(s);
    let li = o.items[i as int].line as int;
    let ch = checked_ancestors(s, x);
    if ch.len() > 0 {
        let q = o.items[i as int].parent->0;
        let b0 = parent_checkbox(s, x)->0.start as int;
        lemma_chain_before(s, b0, q);
        assert(ch == seq![b0] + checked_ancestors(s, b0));
        assert forall|idx: int| 0 <= idx < ch.len() implies #[trigger] ch[idx] < t[li].0 by {
            if idx > 0 {
                assert(ch[idx] == checked_ancestors(s, b0)[idx - 1]);
            }
        }
    }
}

proof fn lemma_within_after(items: Seq<Item>, i: int, j: int)
    requires
        crate::doc::is_within(items, i, j),
    ensures
        i <= j,
    decreases j,
{
    if j != i {
        lemma_within_after(items, i, items[j].parent->0 as int);
    }
}

/// Each nested task is the task of an item within item `i`.
proof fn lemma_nested_tasks_items(items: Seq<Item>, i: int, n: int)
    requires
        n <= items.len(),
    ensures
        forall|idx: int| 0 <= idx < crate::doc::nested_tasks(items, i, n).len() ==> exists|j: int|
            0 <= j < n && crate::doc::is_within(items, i, j)
                && items[j].task == Some(#[trigger] crate::doc::nested_tasks(items, i, n)[idx]),
    decreases n,
{
    if n > 0 {
        lemma_nested_tasks_items(items, i, n - 1);
        let r = crate::doc::nested_tasks(items, i, n - 1);
        let full = crate::doc::nested_tasks(items, i, n);
        assert forall|idx: int| 0 <= idx < full.len() implies exists|j: int|
            0 <= j < n && crate::doc::is_within(items, i, j) && items[j].task == Some(#[trigger] full[idx]) by {
            if idx < r.len() {
                assert(full[idx] == r[idx]);
                let j = choose|j: int| 0 <= j < n - 1 && crate::doc::is_within(items, i, j) && items[j].task == Some(#[trigger] r[idx]);
                assert(items[j].task == Some(full[idx]));
            } else {
                assert(items[n - 1].task == Some(full[idx]));
            }
        }
    }
}

/// The boxes to toggle are among the given checkboxes.
proof fn lemma_boxes_from(cbs: Seq<CheckboxScan>, new: bool)
    ensures
        forall|idx: int| 0 <= idx < crate::edit::boxes_to_toggle(cbs, new).len() ==> exists|k: int|
            0 <= k < cbs.len() && cbs[k].start == #[trigger] crate::edit::boxes_to_toggle(cbs, new)[idx],
    decreases cbs.len(),
{
    if cbs.len() > 0 {
        let d = cbs.drop_last();
        lemma_boxes_from(d, new);
        let r = crate::edit::boxes_to_toggle(d, new);
        let full = crate::edit::boxes_to_toggle(cbs, new);
        assert forall|idx: int| 0 <= idx < full.len() implies exists|k: int|
            0 <= k < cbs.len() && cbs[k].start == #[trigger] full[idx] by {
            if idx < r.len() {
                assert(full[idx] == r[idx]);
                let k = choose|k: int| 0 <= k < d.len() && d[k].start == #[trigger] r[idx];
                assert(cbs[k] == d[k]);
            } else {
                assert(full[idx] == cbs[cbs.len() - 1].start);
            }
        }
    }
}

/// Unchecking the box at `c` keeps every line's checkbox where it was.
proof fn lemma_box_line_keep(s: Seq<u8>, c: int, k: int, c2: int, k2: int)
    requires
        box_line(s, c, k),
        box_line(s, c2, k2),
        s.len() < usize::MAX,
    ensures
        box_line(s.update(c2 + 1, 32u8), c, k),
{
    let u = s.update(c2 + 1, 32u8);
    crate::text::lemma_line_table_wf(s);
    crate::outline::lemma_scan_line(s, line_table(s)[k2].0, line_table(s)[k2].1);
    assert(same_breaks(s, u));
    lemma_same_lines(s, u);
    lemma_flip_line_scan(s, 32u8, c2, k2, k);
}

/// Unchecking a box after every checked task above `x` leaves those tasks
/// as they were.
proof fn lemma_chain_keep(s: Seq<u8>, c: int, k0: int, x: int)
    requires
        box_line(s, c, k0),
        s.len() < usize::MAX,
        forall|idx: int| 0 <= idx < checked_ancestors(s, x).len() ==> #[trigger] checked_ancestors(s, x)[idx] < c,
    ensures
        checked_ancestors(s.update(c + 1, 32u8), x) == checked_ancestors(s, x),
    decreases x,
{
    lemma_flip_parent(s, 32u8, c, k0, x);
    let ch = checked_ancestors(s, x);
    match parent_checkbox(s, x) {
        Some(pcb) => {
            if 0 <= pcb.start < x && pcb.checked {
                assert(ch[0] == pcb.start);
                let b0 = pcb.start as int;
                assert(ch == seq![b0] + checked_ancestors(s, b0));
                assert forall|idx: int| 0 <= idx < checked_ancestors(s, b0).len() implies #[trigger] checked_ancestors(s, b0)[idx] < c by {
                    assert(checked_ancestors(s, b0)[idx] == ch[idx + 1]);
                }
                lemma_chain_keep(s, c, k0, b0);
            }
        },
        None => {},
    }
}

/// Unchecking boxes that all start after every checked task above `x`
/// leaves those tasks as they were, adds no `~` and keeps the length.
proof fn lemma_set_boxes_keep(s: Seq<u8>, ts: Seq<usize>, m: int, x: int, lo: int)
    requires
        s.len() < usize::MAX,
        0 <= m <= ts.len(),
        no_tilde(s),
        forall|j: int| 0 <= j < m ==> lo <= #[trigger] ts[j] && exists|k: int| box_line(s, ts[j] as int, k),
        forall|idx: int| 0 <= idx < checked_ancestors(s, x).len() ==> #[trigger] checked_ancestors(s, x)[idx] < lo,
    ensures
        crate::edit::set_boxes(s, ts, false, m).len() == s.len(),
        no_tilde(crate::edit::set_boxes(s, ts, false, m)),
        checked_ancestors(crate::edit::set_boxes(s, ts, false, m), x) == checked_ancestors(s, x),
    decreases m,
{
    if m > 0 {
        let c = ts[m - 1] as int;
        assert(lo <= ts[m - 1]);
        let k = choose|k: int| box_line(s, c, k);
        crate::outline::lemma_scan_line(s, line_table(s)[k].0, line_table(s)[k].1);
        crate::edit::lemma_set_box(s, c, false);
        let s1 = set_box(s, c, false);
        assert(s1 == s.update(c + 1, 32u8));
        lemma_chain_keep(s, c, k, x);
        assert forall|j: int| 0 <= j < m - 1 implies lo <= #[trigger] ts[j] && exists|k2: int| box_line(s1, ts[j] as int, k2) by {
            assert(lo <= ts[j]);
            let kj = choose|kj: int| box_line(s, ts[j] as int, kj);
            lemma_box_line_keep(s, ts[j] as int, kj, c, k);
        }
        assert(no_tilde(s1));
        lemma_set_boxes_keep(s1, ts, m - 1, x, lo);
    }
}

/// Without any `~` in the text, removing strikethroughs changes nothing.
proof fn lemma_strike_all_plain(p: Prop, ts: Seq<usize>, m: int)
    requires
        no_tilde(p.text),
    ensures
        crate::edit::strike_all(p, ts, false, m).text == p.text,
    decreases m,
{
    if m > 0 {
        let k = line_index(line_table(p.text), ts[m - 1] as int);
        lemma_strike_plain(p, k);
        lemma_strike_all_plain(strike(p, k, false), ts, m - 1);
    }
}

/// The boxes a toggle of item `i` to state `new` sets.
pub open spec fn nested_boxes(s: Seq<u8>, i: usize, new: bool) -> Seq<usize> {
    crate::edit::boxes_to_toggle(
        crate::doc::nested_tasks(outline(s).items, i as int, outline(s).items.len() as int),
        new,
    )
}

/// A box a toggle of item `i` sets is the checkbox of a line, not before
/// the line item `i` starts on.
#[verifier::spinoff_prover]
#[verifier::rlimit(60)]
proof fn lemma_nested_box_after(s: Seq<u8>, i: usize, new: bool, j: int) -> (l: int)
    requires
        s.len() < usize::MAX,
        i < outline(s).items.len(),
        0 <= j < nested_boxes(s, i, new).len(),
    ensures
        line_table(s)[outline(s).items[i as int].line as int].0 <= nested_boxes(s, i, new)[j],
        box_line(s, nested_boxes(s, i, new)[j] as int, l),
{
    crate::text::lemma_line_table_wf(s);
    let t = line_table(s);
    let n = t.len() as int;
    crate::outline::lemma_outline(s);
    lemma_item_lines(s, n);
    lemma_task_lines(s, n);
    let o = outline(s);
    let items = o.items;
    let cbs = crate::doc::nested_tasks(items, i as int, items.len() as int);
    let ts = nested_boxes(s, i, new);
    lemma_boxes_from(cbs, new);
    lemma_nested_tasks_items(items, i as int, items.len() as int);
    let li = items[i as int].line as int;
    let kk = choose|kk: int| 0 <= kk < cbs.len() && cbs[kk].start == #[trigger] ts[j];
    let jj = choose|jj: int| 0 <= jj < items.len() && crate::doc::is_within(items, i as int, jj)
        && items[jj].task == Some(#[trigger] cbs[kk]);
    lemma_within_after(items, i as int, jj);
    let l = items[jj].line as int;
    assert(o.lines[l].scan.checkbox == items[jj].task);
    assert(o.lines[l].scan == scan_line(s, t[l].0, t[l].1));
    crate::outline::lemma_scan_line(s, t[l].0, t[l].1);
    if (i as int) < jj {
        assert(items[i as int].line < items[jj].line);
        lemma_lines_ordered(s, li, l);
    }
    l
}

/// Unchecking a task by its checkbox unchecks the tasks it is nested in:
/// every task in the run of checked tasks directly above it ends up
/// unchecked, at the place it had. (Texts without `~`, where no
/// strikethrough moves the text.)
pub proof fn lemma_toggle_unchecks_ancestors(v: EditorView, line: int)
    requires
        no_tilde(v.text),
        v.text.len() < usize::MAX,
        0 <= line < line_table(v.text).len(),
        checkbox_of(markers_of(v.text, line), 0) == Some(true),
        checkbox_offset(v.text, line, true) is Some,
    ensures
        ({
            let off = checkbox_offset(v.text, line, true)->0;
            let ch = checked_ancestors(v.text, off);
            forall|idx: int| 0 <= idx < ch.len() ==> toggle_spec(v, line).text[#[trigger] ch[idx] + 1] == 32u8
        }),
{
    let s = v.text;
    let off = checkbox_offset(s, line, true)->0;
    let ch = checked_ancestors(s, off);
    let o = outline(s);
    match item_at(s, off) {
        Some(i) => {
            lemma_chain_before(s, off, i);
            let ts = nested_boxes(s, i, false);
            let lo = line_table(s)[o.items[i as int].line as int].0;
            assert forall|j: int| 0 <= j < ts.len() implies lo <= #[trigger] ts[j] && exists|k: int| box_line(s, ts[j] as int, k) by {
                let l = lemma_nested_box_after(s, i, false, j);
            }
            lemma_set_boxes_keep(s, ts, ts.len() as int, off, lo);
            let s1 = crate::edit::set_boxes(s, ts, false, ts.len() as int);
            let p0 = Prop { text: s1, cur: v.head, cleared: false };
            lemma_strike_all_plain(p0, ts, ts.len() as int);
            let p1 = crate::edit::strike_all(p0, ts, false, ts.len() as int);
            lemma_uncheck_propagates(p1, off);
            assert(toggle_spec(v, line).text == propagate_up(p1, off, false).text);
        },
        None => {
            assert(ch.len() == 0);
        },
    }
}

} // verus!
