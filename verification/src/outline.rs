//! The block structure of a Markdown document, computed line by line:
//! list items and how they nest, which lists items belong to, task
//! checkboxes, fenced code blocks, and which leading spaces are indents.
//!
//! A list item starts at a line with a list marker followed by content.
//! It holds the following lines that are blank, or that are at the same
//! block quote depth and indented at least to its content column. A line
//! whose list marker (and checkbox) is followed by nothing is an unfinished
//! item: it belongs to no item and ends none.
//!
//! This is a line-level model of CommonMark blocks, simpler than a full
//! parse in these ways: an unindented line after an item's paragraph (a
//! lazy continuation line) does not stay in the item; block quotes are
//! recognized at the start of a line only (a quote inside a list item is
//! seen by `context::inner_quotes`, a lazy continuation of a quoted
//! paragraph by `context::quote_depth`); lists inside such inner quotes,
//! indented code blocks, setext headings, thematic breaks, HTML blocks and
//! tables are not modelled; list items start with `-`, `*`, `+` or a number followed by
//! `.` or `)`, each followed by a space.

use vstd::prelude::*;
use crate::marker::{CheckboxScan, LineBlock, LineScan, scan_line, scan_line_exec};
use crate::text::{build_line_table, line_table, lemma_line_count, lemma_line_table_wf, tab_view};


verus! {

/// A list item.
#[derive(Clone, Copy, Debug)]
pub struct Item {
    /// Line where the item starts.
    pub line: usize,
    /// Byte range of its list marker (with the space after it).
    pub marker_start: usize,
    pub marker_end: usize,
    /// Column (after the block quote markers) of the list marker and of the
    /// item's content.
    pub lead: usize,
    pub content_col: usize,
    /// Block quote depth of the item.
    pub depth: usize,
    /// Bullet character or number delimiter, and whether it is numbered.
    pub ch: u8,
    pub ordered: bool,
    /// Number of a numbered item.
    pub number: u32,
    /// Items with the same `list_id` form one list (they are siblings).
    pub list_id: usize,
    /// Index of the enclosing item.
    pub parent: Option<usize>,
    /// Its task checkbox, when it is a task item.
    pub task: Option<CheckboxScan>,
}

/// A fenced code block.
#[derive(Clone, Copy, Debug)]
pub struct CodeBlock {
    pub open_line: usize,
    /// Byte position of the opening fence.
    pub start: usize,
    pub ch: u8,
    pub count: usize,
    pub close_line: Option<usize>,
    /// End of the block: after the closing fence line's break, or the end
    /// of the text.
    pub end: usize,
    pub info_start: usize,
    pub info_end: usize,
}

/// What the structure says of one line.
#[derive(Clone, Copy, Debug)]
pub struct LineInfo {
    pub scan: LineScan,
    /// Innermost list item holding the line.
    pub item: Option<usize>,
    /// The line's leading spaces are an indent inside a list item.
    pub indent: bool,
    /// Code block holding the line (its opening fence line included).
    pub code: Option<usize>,
    /// The line is inside a code block, after its opening fence.
    pub fence_body: bool,
}

/// State of the line-by-line structure scan.
pub struct OState {
    /// Open items, outermost first.
    pub stack: Seq<usize>,
    pub items: Seq<Item>,
    pub lines: Seq<LineInfo>,
    pub blocks: Seq<CodeBlock>,
    /// Code block still open.
    pub open: Option<usize>,
    pub next_list: nat,
}

pub open spec fn init_ostate() -> OState {
    OState { stack: seq![], items: seq![], lines: seq![], blocks: seq![], open: None, next_list: 0 }
}

pub open spec fn top(stack: Seq<usize>) -> Option<usize> {
    if stack.len() == 0 {
        None
    } else {
        Some(stack.last())
    }
}

/// Item `it` holds a non-blank line at block quote depth `depth` whose
/// leading spaces number `lead`.
pub open spec fn holds_line(it: Item, depth: int, lead: int) -> bool {
    it.depth == depth && it.content_col <= lead
}

/// Pops the open items that do not hold a non-blank line; also returns the
/// last item popped (the one just above those that stay).
pub open spec fn pop_for(stack: Seq<usize>, items: Seq<Item>, depth: int, lead: int) -> (Seq<usize>, Option<usize>)
    decreases stack.len(),
{
    if stack.len() == 0 || holds_line(items[stack.last() as int], depth, lead) {
        (stack, None)
    } else {
        let r = pop_for(stack.drop_last(), items, depth, lead);
        (r.0, if r.1 is Some { r.1 } else { Some(stack.last()) })
    }
}

/// Pops the open items nested deeper in block quotes than a blank line.
pub open spec fn pop_deeper(stack: Seq<usize>, items: Seq<Item>, depth: int) -> Seq<usize>
    decreases stack.len(),
{
    if stack.len() == 0 || items[stack.last() as int].depth <= depth {
        stack
    } else {
        pop_deeper(stack.drop_last(), items, depth)
    }
}

/// A fence line closes code block `blk`.
pub open spec fn closes(sc: LineScan, blk: CodeBlock) -> bool {
    match sc.block {
        LineBlock::Fence { ch, count, info_start, info_end } => ch == blk.ch && count >= blk.count
            && info_start == info_end,
        _ => false,
    }
}

/// Processes line `k`, the bytes `s[a..e)`.
#[verifier::opaque]
pub open spec fn step(s: Seq<u8>, st: OState, k: int, a: int, e: int) -> OState {
    let sc = scan_line(s, a, e);
    let m = sc.bq_end + sc.lead;
    if st.open is Some {
        let b = st.open->0;
        let blk = st.blocks[b as int];
        let closing = closes(sc, blk);
        let info = LineInfo { scan: sc, item: top(st.stack), indent: false, code: Some(b), fence_body: true };
        OState {
            lines: st.lines.push(info),
            blocks: if closing {
                st.blocks.update(
                    b as int,
                    CodeBlock {
                        close_line: Some(k as usize),
                        end: (if e < s.len() { e + 1 } else { e }) as usize,
                        ..blk
                    },
                )
            } else {
                st.blocks
            },
            open: if closing { None } else { Some(b) },
            ..st
        }
    } else if sc.blank {
        let stack1 = pop_deeper(st.stack, st.items, sc.bq_count as int);
        let t = top(stack1);
        let info = LineInfo {
            scan: sc,
            item: t,
            indent: sc.lead > 0 && t is Some && st.items[t->0 as int].content_col <= sc.lead,
            code: None,
            fence_body: false,
        };
        OState { stack: stack1, lines: st.lines.push(info), ..st }
    } else {
        let popped = pop_for(st.stack, st.items, sc.bq_count as int, sc.lead as int);
        let stack1 = popped.0;
        let t = top(stack1);
        let indent = sc.lead > 0 && t is Some;
        if sc.empty_item {
            let info = LineInfo { scan: sc, item: None, indent, code: None, fence_body: false };
            OState { lines: st.lines.push(info), ..st }
        } else {
            match sc.block {
                LineBlock::List { end, ordered, ch, number } => {
                    let id = st.items.len();
                    let same = popped.1 is Some && st.items[popped.1->0 as int].parent == t
                        && st.items[popped.1->0 as int].ch == ch && st.items[popped.1->0 as int].ordered
                        == ordered && st.items[popped.1->0 as int].depth == sc.bq_count;
                    let item = Item {
                        line: k as usize,
                        marker_start: m as usize,
                        marker_end: end,
                        lead: sc.lead,
                        content_col: (sc.lead + (end - m)) as usize,
                        depth: sc.bq_count,
                        ch,
                        ordered,
                        number,
                        list_id: if same {
                            st.items[popped.1->0 as int].list_id
                        } else {
                            st.next_list as usize
                        },
                        parent: t,
                        task: sc.checkbox,
                    };
                    let info = LineInfo { scan: sc, item: Some(id as usize), indent, code: None, fence_body: false };
                    OState {
                        stack: stack1.push(id as usize),
                        items: st.items.push(item),
                        lines: st.lines.push(info),
                        next_list: if same { st.next_list } else { st.next_list + 1 },
                        ..st
                    }
                },
                LineBlock::Fence { ch, count, info_start, info_end } => {
                    let b = st.blocks.len();
                    let blk = CodeBlock {
                        open_line: k as usize,
                        start: m as usize,
                        ch,
                        count,
                        close_line: None,
                        end: s.len() as usize,
                        info_start,
                        info_end,
                    };
                    let info = LineInfo { scan: sc, item: t, indent, code: Some(b as usize), fence_body: false };
                    OState {
                        stack: stack1,
                        lines: st.lines.push(info),
                        blocks: st.blocks.push(blk),
                        open: Some(b as usize),
                        ..st
                    }
                },
                _ => {
                    let info = LineInfo { scan: sc, item: t, indent, code: None, fence_body: false };
                    OState { stack: stack1, lines: st.lines.push(info), ..st }
                },
            }
        }
    }
}

/// State after the first `n` lines of `s`.
pub open spec fn outline_upto(s: Seq<u8>, n: int) -> OState
    decreases n,
{
    if n <= 0 {
        init_ostate()
    } else {
        let t = line_table(s);
        step(s, outline_upto(s, n - 1), n - 1, t[n - 1].0, t[n - 1].1)
    }
}

/// The structure of the whole text.
pub open spec fn outline(s: Seq<u8>) -> OState {
    outline_upto(s, line_table(s).len() as int)
}

pub open spec fn item_wf(s: Seq<u8>, it: Item, i: int, n: int) -> bool {
    &&& it.line < n
    &&& it.parent is Some ==> (it.parent->0 as int) < i
    &&& it.marker_start + 2 <= it.marker_end <= s.len()
    &&& forall|j: int| it.marker_start <= j < it.marker_end ==> s[j] < 0x80
    &&& it.task is Some ==> it.marker_end <= it.task->0.start && it.task->0.start + 3
        <= it.task->0.end <= s.len()
    &&& it.task is Some ==> crate::marker::box_bytes(s, it.task->0.start as int)
}

pub open spec fn line_info_wf(li: LineInfo, ni: int, nb: int) -> bool {
    &&& li.indent ==> li.scan.lead > 0
    &&& li.item is Some ==> (li.item->0 as int) < ni
    &&& li.code is Some ==> (li.code->0 as int) < nb
}

pub open spec fn block_wf(s: Seq<u8>, b: CodeBlock, n: int, lim: int) -> bool {
    &&& b.open_line < n
    &&& b.start <= lim
    &&& b.start <= b.end <= s.len()
    &&& b.info_start <= b.info_end <= s.len()
}

/// Indices held by the scan state are in range.
pub open spec fn wf_ostate(s: Seq<u8>, st: OState, n: int, lim: int) -> bool {
    &&& st.lines.len() == n
    &&& st.items.len() <= n
    &&& st.next_list <= st.items.len()
    &&& forall|j: int| 0 <= j < st.stack.len() ==> (#[trigger] st.stack[j] as int) < st.items.len()
    &&& forall|i: int| 0 <= i < st.items.len() ==> item_wf(s, #[trigger] st.items[i], i, n)
    &&& forall|k: int| 0 <= k < n ==> line_info_wf(#[trigger] st.lines[k], st.items.len() as int, st.blocks.len() as int)
    &&& forall|b: int| 0 <= b < st.blocks.len() ==> block_wf(s, #[trigger] st.blocks[b], n, lim)
    &&& st.open is Some ==> (st.open->0 as int) < st.blocks.len()
}

pub proof fn lemma_pop_for(stack: Seq<usize>, items: Seq<Item>, depth: int, lead: int)
    ensures
        pop_for(stack, items, depth, lead).0.len() <= stack.len(),
        forall|j: int| 0 <= j < pop_for(stack, items, depth, lead).0.len() ==> #[trigger] pop_for(stack, items, depth, lead).0[j] == stack[j],
        pop_for(stack, items, depth, lead).1 is Some ==> exists|j: int| 0 <= j < stack.len() && stack[j] == pop_for(stack, items, depth, lead).1->0,
    decreases stack.len(),
{
    if stack.len() > 0 && !holds_line(items[stack.last() as int], depth, lead) {
        lemma_pop_for(stack.drop_last(), items, depth, lead);
        let r = pop_for(stack.drop_last(), items, depth, lead);
        if r.1 is Some {
            let j = choose|j: int| 0 <= j < stack.drop_last().len() && stack.drop_last()[j] == r.1->0;
            assert(stack[j] == r.1->0);
        } else {
            assert(stack[stack.len() - 1] == stack.last());
        }
    }
}

pub proof fn lemma_pop_deeper(stack: Seq<usize>, items: Seq<Item>, depth: int)
    ensures
        pop_deeper(stack, items, depth).len() <= stack.len(),
        forall|j: int| 0 <= j < pop_deeper(stack, items, depth).len() ==> #[trigger] pop_deeper(stack, items, depth)[j] == stack[j],
    decreases stack.len(),
{
    if stack.len() > 0 && items[stack.last() as int].depth > depth {
        lemma_pop_deeper(stack.drop_last(), items, depth);
    }
}

pub proof fn lemma_scan_line(s: Seq<u8>, a: int, e: int)
    requires
        0 <= a <= e <= s.len(),
        s.len() <= usize::MAX,
    ensures
        scan_line(s, a, e).start == a,
        scan_line(s, a, e).end == e,
        a <= scan_line(s, a, e).bq_end,
        scan_line(s, a, e).bq_end + scan_line(s, a, e).lead <= e,
        scan_line(s, a, e).bq_count <= e,
        match scan_line(s, a, e).block {
            LineBlock::Plain => true,
            LineBlock::Fence { info_start, info_end, count, .. } => scan_line(s, a, e).bq_end
                + scan_line(s, a, e).lead + count <= info_start <= info_end <= e && count >= 3
                && forall|j: int| scan_line(s, a, e).bq_end + scan_line(s, a, e).lead <= j < scan_line(s, a, e).bq_end + scan_line(s, a, e).lead + count ==> s[j] < 0x80,
            LineBlock::Heading { end, .. } => scan_line(s, a, e).bq_end + scan_line(s, a, e).lead
                < end <= e && forall|j: int| scan_line(s, a, e).bq_end + scan_line(s, a, e).lead <= j < end ==> s[j] < 0x80,
            LineBlock::List { end, .. } => scan_line(s, a, e).bq_end + scan_line(s, a, e).lead + 2
                <= end <= e && forall|j: int| scan_line(s, a, e).bq_end + scan_line(s, a, e).lead <= j < end ==> s[j] < 0x80,
        },
        forall|j: int| a <= j < scan_line(s, a, e).bq_end ==> s[j] == 62u8 || s[j] == 32u8,
        forall|j: int| scan_line(s, a, e).bq_end <= j < scan_line(s, a, e).bq_end + scan_line(s, a, e).lead ==> s[j] == 32u8,
        scan_line(s, a, e).checkbox is Some ==> forall|j: int| scan_line(s, a, e).checkbox->0.start <= j < scan_line(s, a, e).checkbox->0.end ==> s[j] < 0x80,
        scan_line(s, a, e).checkbox is Some ==> scan_line(s, a, e).block is List
            && scan_line(s, a, e).block->List_end <= scan_line(s, a, e).checkbox->0.start
            && scan_line(s, a, e).checkbox->0.start + 3 <= scan_line(s, a, e).checkbox->0.end <= e
            && crate::marker::box_bytes(s, scan_line(s, a, e).checkbox->0.start as int),
{
    crate::marker::lemma_bq_scan(s, a, e);
    let bq = crate::marker::bq_scan(s, a, e);
    crate::marker::lemma_run_end(s, bq.1, e, 32u8);
    let m = crate::marker::run_end(s, bq.1, e, 32u8);
    crate::marker::lemma_block_at(s, m, e);
}

pub proof fn lemma_step_wf(s: Seq<u8>, st: OState, k: int, lim: int, a: int, e: int)
    requires
        wf_ostate(s, st, k, lim),
        lim <= a,
        0 <= a <= e <= s.len(),
        s.len() <= usize::MAX,
        0 <= k < usize::MAX,
    ensures
        wf_ostate(s, step(s, st, k, a, e), k + 1, e),
        step(s, st, k, a, e).lines[k].scan == scan_line(s, a, e),
        step(s, st, k, a, e).lines.len() == k + 1,
        forall|j: int| 0 <= j < k ==> step(s, st, k, a, e).lines[j] == st.lines[j],
{
    reveal(step);
    let sc = scan_line(s, a, e);
    lemma_scan_line(s, a, e);
    lemma_pop_for(st.stack, st.items, sc.bq_count as int, sc.lead as int);
    lemma_pop_deeper(st.stack, st.items, sc.bq_count as int);
    let r = step(s, st, k, a, e);
    assert(forall|j: int| 0 <= j < k ==> r.lines[j] == st.lines[j]);
    if st.open is None && !sc.blank && !sc.empty_item {
        let popped = pop_for(st.stack, st.items, sc.bq_count as int, sc.lead as int);
        if popped.1 is Some {
            let j = choose|j: int| 0 <= j < st.stack.len() && st.stack[j] == popped.1->0;
            assert(st.stack[j] < st.items.len());
        }
        if popped.0.len() > 0 {
            assert(popped.0[popped.0.len() - 1] == st.stack[popped.0.len() - 1]);
        }
    }
    if st.open is None && sc.blank {
        let p = pop_deeper(st.stack, st.items, sc.bq_count as int);
        if p.len() > 0 {
            assert(p[p.len() - 1] == st.stack[p.len() - 1]);
        }
    }
    if st.stack.len() > 0 {
        assert(st.stack[st.stack.len() - 1] < st.items.len());
    }
    assert(forall|i: int| 0 <= i < r.items.len() ==> item_wf(s, #[trigger] r.items[i], i, k + 1));
    assert(forall|j: int| 0 <= j < k + 1 ==> line_info_wf(#[trigger] r.lines[j], r.items.len() as int, r.blocks.len() as int));
    assert(forall|b: int| 0 <= b < r.blocks.len() ==> block_wf(s, #[trigger] r.blocks[b], k + 1, e));
}


/// The structure scan keeps its indices in range, and records each line's
/// scan.
pub proof fn lemma_outline_upto(s: Seq<u8>, n: int)
    requires
        0 <= n <= line_table(s).len(),
        s.len() < usize::MAX,
    ensures
        wf_ostate(s, outline_upto(s, n), n, if n == 0 { 0 } else { line_table(s)[n - 1].1 }),
        forall|j: int| 0 <= j < n ==> (#[trigger] outline_upto(s, n).lines[j]).scan == scan_line(s, line_table(s)[j].0, line_table(s)[j].1),
    decreases n,
{
    lemma_line_table_wf(s);
    let t = line_table(s);
    if n > 0 {
        lemma_outline_upto(s, n - 1);
        let st = outline_upto(s, n - 1);
        let lim = if n - 1 == 0 { 0 } else { t[n - 2].1 };
        assert(wf_ostate(s, st, n - 1, lim));
        if n - 1 > 0 {
            assert(t[n - 1].0 == t[n - 2].1 + 1);
        }
        assert(t.len() <= s.len() + 1) by {
            lemma_line_count(s);
        }
        let a = t[n - 1].0;
        let e = t[n - 1].1;
        assert(0 <= a <= e <= s.len());
        lemma_step_wf(s, st, n - 1, lim, a, e);
        let r = outline_upto(s, n);
        assert(r == step(s, st, n - 1, a, e));
        assert forall|j: int| 0 <= j < n implies (#[trigger] r.lines[j]).scan == scan_line(s, t[j].0, t[j].1) by {
            if j < n - 1 {
                assert(r.lines[j] == st.lines[j]);
            }
        }
    }
}

/// The whole structure: indices in range and each line's scan recorded.
pub proof fn lemma_outline(s: Seq<u8>)
    requires
        s.len() < usize::MAX,
    ensures
        wf_ostate(s, outline(s), line_table(s).len() as int, s.len() as int),
        outline(s).lines.len() == line_table(s).len(),
        forall|j: int| 0 <= j < line_table(s).len() ==> (#[trigger] outline(s).lines[j]).scan == scan_line(s, line_table(s)[j].0, line_table(s)[j].1),
{
    lemma_line_table_wf(s);
    lemma_outline_upto(s, line_table(s).len() as int);
}

/// The computed structure of a text.
pub struct Outline {
    pub table: Vec<(usize, usize)>,
    pub lines: Vec<LineInfo>,
    pub items: Vec<Item>,
    pub blocks: Vec<CodeBlock>,
}

/// `o` is the structure of `s`, and its indices are in range.
pub open spec fn outline_of(s: Seq<u8>, o: &Outline) -> bool {
    &&& tab_view(o.table@) == line_table(s)
    &&& o.lines@ == outline(s).lines
    &&& o.items@ == outline(s).items
    &&& o.blocks@ == outline(s).blocks
    &&& wf_ostate(s, outline(s), line_table(s).len() as int, s.len() as int)
    &&& forall|k: int| 0 <= k < o.lines@.len() ==> (#[trigger] o.lines@[k]).scan == scan_line(s, line_table(s)[k].0, line_table(s)[k].1)
}

fn top_of(stack: &Vec<usize>) -> (r: Option<usize>)
    ensures
        r == top(stack@),
{
    if stack.len() == 0 {
        None
    } else {
        Some(stack[stack.len() - 1])
    }
}

/// The mutable state of the structure scan.
struct Scanner {
    stack: Vec<usize>,
    items: Vec<Item>,
    lines: Vec<LineInfo>,
    blocks: Vec<CodeBlock>,
    open: Option<usize>,
    next_list: usize,
}

impl Scanner {
    spec fn state(&self) -> OState {
        OState {
            stack: self.stack@,
            items: self.items@,
            lines: self.lines@,
            blocks: self.blocks@,
            open: self.open,
            next_list: self.next_list as nat,
        }
    }

    /// A line inside an open code block.
    fn step_in_block(&mut self, s: &Vec<u8>, sc: LineScan, k: usize, a: usize, e: usize)
        requires
            sc == scan_line(s@, a as int, e as int),
            old(self).open is Some,
            (old(self).open->0 as int) < old(self).blocks@.len(),
            e <= s.len(),
            forall|j: int| 0 <= j < old(self).stack@.len() ==> (#[trigger] old(self).stack@[j] as int) < old(self).items@.len(),
        ensures
            final(self).state() == step(s@, old(self).state(), k as int, a as int, e as int),
            ({
                let st = old(self).state();
                let b = st.open->0;
                let blk = st.blocks[b as int];
                let closing = closes(sc, blk);
                let info = LineInfo { scan: sc, item: top(st.stack), indent: false, code: Some(b), fence_body: true };
                final(self).state() == (OState {
                    lines: st.lines.push(info),
                    blocks: if closing {
                        st.blocks.update(
                            b as int,
                            CodeBlock {
                                close_line: Some(k as usize),
                                end: (if e < s.len() { e + 1 } else { e as int }) as usize,
                                ..blk
                            },
                        )
                    } else {
                        st.blocks
                    },
                    open: if closing { None } else { Some(b) },
                    ..st
                })
            }),
    {
        proof {
            reveal(step);
        }
        let b = self.open.unwrap();
        let blk = self.blocks[b];
        let closing = match sc.block {
            LineBlock::Fence { ch, count, info_start, info_end } => ch == blk.ch && count >= blk.count
                && info_start == info_end,
            _ => false,
        };
        let t1 = top_of(&self.stack);
        self.lines.push(LineInfo { scan: sc, item: t1, indent: false, code: Some(b), fence_body: true });
        if closing {
            let end = if e < s.len() {
                e + 1
            } else {
                e
            };
            self.blocks.set(b, CodeBlock { close_line: Some(k), end, ..blk });
            self.open = None;
        }
    }

    /// A blank line outside code blocks.
    fn step_blank(&mut self, s: &Vec<u8>, sc: LineScan, k: usize, a: usize, e: usize)
        requires
            sc == scan_line(s@, a as int, e as int),
            old(self).open is None,
            sc.blank,
            forall|j: int| 0 <= j < old(self).stack@.len() ==> (#[trigger] old(self).stack@[j] as int) < old(self).items@.len(),
        ensures
            ({
                let st = old(self).state();
                let stack1 = pop_deeper(st.stack, st.items, sc.bq_count as int);
                let t = top(stack1);
                let info = LineInfo {
                    scan: sc,
                    item: t,
                    indent: sc.lead > 0 && t is Some && st.items[t->0 as int].content_col <= sc.lead,
                    code: None,
                    fence_body: false,
                };
                final(self).state() == (OState { stack: stack1, lines: st.lines.push(info), ..st })
            }),
            final(self).state() == step(s@, old(self).state(), k as int, a as int, e as int),
    {
        proof {
            reveal(step);
        }
        let ghost st = self.state();
        while self.stack.len() > 0 && self.items[self.stack[self.stack.len() - 1]].depth > sc.bq_count
            invariant
                pop_deeper(st.stack, st.items, sc.bq_count as int) == pop_deeper(self.stack@, self.items@, sc.bq_count as int),
                self.items@ == st.items,
                self.lines@ == st.lines,
                self.blocks@ == st.blocks,
                self.open == st.open,
                self.next_list == st.next_list,
                forall|j: int| 0 <= j < self.stack@.len() ==> (#[trigger] self.stack@[j] as int) < self.items@.len(),
            decreases self.stack@.len(),
        {
            self.stack.pop();
        }
        let t1 = top_of(&self.stack);
        if self.stack.len() > 0 {
            assert(self.stack@[self.stack@.len() - 1] < self.items@.len());
        }
        let indent = match t1 {
            Some(i) => sc.lead > 0 && self.items[i].content_col <= sc.lead,
            None => false,
        };
        self.lines.push(LineInfo { scan: sc, item: t1, indent, code: None, fence_body: false });
    }

    /// The innermost open item that would hold a non-blank line.
    fn pop_top(&self, depth: usize, lead: usize) -> (r: Option<usize>)
        requires
            forall|j: int| 0 <= j < self.stack@.len() ==> (#[trigger] self.stack@[j] as int) < self.items@.len(),
        ensures
            r == top(pop_for(self.stack@, self.items@, depth as int, lead as int).0),
    {
        let mut j = self.stack.len();
        assert(self.stack@.subrange(0, j as int) =~= self.stack@);
        while j > 0 && !(self.items[self.stack[j - 1]].depth == depth && self.items[self.stack[j
            - 1]].content_col <= lead)
            invariant
                j <= self.stack@.len(),
                forall|i: int| 0 <= i < self.stack@.len() ==> (#[trigger] self.stack@[i] as int) < self.items@.len(),
                pop_for(self.stack@, self.items@, depth as int, lead as int).0 == pop_for(
                    self.stack@.subrange(0, j as int),
                    self.items@,
                    depth as int,
                    lead as int,
                ).0,
            decreases j,
        {
            assert(self.stack@.subrange(0, j as int).drop_last() =~= self.stack@.subrange(0, j - 1));
            j = j - 1;
        }
        if j == 0 {
            None
        } else {
            Some(self.stack[j - 1])
        }
    }

    /// Pops the open items that do not hold a non-blank line.
    fn pop_open(&mut self, depth: usize, lead: usize) -> (last: Option<usize>)
        requires
            forall|j: int| 0 <= j < old(self).stack@.len() ==> (#[trigger] old(self).stack@[j] as int) < old(self).items@.len(),
        ensures
            final(self).stack@ == pop_for(old(self).stack@, old(self).items@, depth as int, lead as int).0,
            last == pop_for(old(self).stack@, old(self).items@, depth as int, lead as int).1,
            final(self).items@ == old(self).items@,
            final(self).lines@ == old(self).lines@,
            final(self).blocks@ == old(self).blocks@,
            final(self).open == old(self).open,
            final(self).next_list == old(self).next_list,
            forall|j: int| 0 <= j < final(self).stack@.len() ==> (#[trigger] final(self).stack@[j] as int) < final(self).items@.len(),
            last is Some ==> (last->0 as int) < final(self).items@.len(),
    {
        let ghost popped = pop_for(self.stack@, self.items@, depth as int, lead as int);
        let mut last: Option<usize> = None;
        while self.stack.len() > 0 && !(self.items[self.stack[self.stack.len() - 1]].depth == depth
            && self.items[self.stack[self.stack.len() - 1]].content_col <= lead)
            invariant
                self.items@ == old(self).items@,
                self.lines@ == old(self).lines@,
                self.blocks@ == old(self).blocks@,
                self.open == old(self).open,
                self.next_list == old(self).next_list,
                forall|j: int| 0 <= j < self.stack@.len() ==> (#[trigger] self.stack@[j] as int) < self.items@.len(),
                popped.0 == pop_for(self.stack@, self.items@, depth as int, lead as int).0,
                popped.1 == (if pop_for(self.stack@, self.items@, depth as int, lead as int).1 is Some {
                    pop_for(self.stack@, self.items@, depth as int, lead as int).1
                } else {
                    last
                }),
                last is Some ==> (last->0 as int) < self.items@.len(),
            decreases self.stack@.len(),
        {
            assert(self.stack@[self.stack@.len() - 1] < self.items@.len());
            let x = self.stack.pop().unwrap();
            last = Some(x);
        }
        last
    }
}

/// Computes the structure of `s`.
impl Scanner {
    /// A non-blank line outside code blocks.
    fn step_line(&mut self, s: &Vec<u8>, sc: LineScan, k: usize, a: usize, e: usize)
        requires
            sc == scan_line(s@, a as int, e as int),
            !sc.blank,
            old(self).open is None,
            forall|j: int| 0 <= j < old(self).stack@.len() ==> (#[trigger] old(self).stack@[j] as int) < old(self).items@.len(),
            old(self).next_list <= old(self).items@.len(),
            old(self).items@.len() < usize::MAX,
            sc.bq_end + sc.lead <= s.len(),
            match sc.block {
                LineBlock::List { end, .. } => sc.bq_end + sc.lead + 2 <= end,
                _ => true,
            },
        ensures
            final(self).state() == step(s@, old(self).state(), k as int, a as int, e as int),
            ({
                let st = old(self).state();
                let m = sc.bq_end + sc.lead;
                let popped = pop_for(st.stack, st.items, sc.bq_count as int, sc.lead as int);
                let stack1 = popped.0;
                let t = top(stack1);
                let indent = sc.lead > 0 && t is Some;
                final(self).state() == if sc.empty_item {
                    let info = LineInfo { scan: sc, item: None, indent, code: None, fence_body: false };
                    OState { lines: st.lines.push(info), ..st }
                } else {
                    match sc.block {
                        LineBlock::List { end, ordered, ch, number } => {
                            let id = st.items.len();
                            let same = popped.1 is Some && st.items[popped.1->0 as int].parent == t
                                && st.items[popped.1->0 as int].ch == ch && st.items[popped.1->0 as int].ordered
                                == ordered && st.items[popped.1->0 as int].depth == sc.bq_count;
                            let item = Item {
                                line: k as usize,
                                marker_start: m as usize,
                                marker_end: end,
                                lead: sc.lead,
                                content_col: (sc.lead + (end - m)) as usize,
                                depth: sc.bq_count,
                                ch,
                                ordered,
                                number,
                                list_id: if same {
                                    st.items[popped.1->0 as int].list_id
                                } else {
                                    st.next_list as usize
                                },
                                parent: t,
                                task: sc.checkbox,
                            };
                            let info = LineInfo { scan: sc, item: Some(id as usize), indent, code: None, fence_body: false };
                            OState {
                                stack: stack1.push(id as usize),
                                items: st.items.push(item),
                                lines: st.lines.push(info),
                                next_list: if same { st.next_list } else { st.next_list + 1 },
                                ..st
                            }
                        },
                        LineBlock::Fence { ch, count, info_start, info_end } => {
                            let b = st.blocks.len();
                            let blk = CodeBlock {
                                open_line: k as usize,
                                start: m as usize,
                                ch,
                                count,
                                close_line: None,
                                end: s.len() as usize,
                                info_start,
                                info_end,
                            };
                            let info = LineInfo { scan: sc, item: t, indent, code: Some(b as usize), fence_body: false };
                            OState {
                                stack: stack1,
                                lines: st.lines.push(info),
                                blocks: st.blocks.push(blk),
                                open: Some(b as usize),
                                ..st
                            }
                        },
                        _ => {
                            let info = LineInfo { scan: sc, item: t, indent, code: None, fence_body: false };
                            OState { stack: stack1, lines: st.lines.push(info), ..st }
                        },
                    }
                }
            }),
    {
        proof {
            reveal(step);
        }
        let ghost st = self.state();
        let m = sc.bq_end + sc.lead;
        if sc.empty_item {
            let t1 = self.pop_top(sc.bq_count, sc.lead);
            let indent = sc.lead > 0 && t1.is_some();
            self.lines.push(LineInfo { scan: sc, item: None, indent, code: None, fence_body: false });
            return;
        }
        let last = self.pop_open(sc.bq_count, sc.lead);
        let t1 = top_of(&self.stack);
        if self.stack.len() > 0 {
            assert(self.stack@[self.stack@.len() - 1] < self.items@.len());
        }
        let indent = sc.lead > 0 && t1.is_some();
        match sc.block {
            LineBlock::List { end, ordered, ch, number } => {
                let id = self.items.len();
                let same = match last {
                    Some(z) => self.items[z].parent == t1 && self.items[z].ch == ch && self.items[z].ordered
                        == ordered && self.items[z].depth == sc.bq_count,
                    None => false,
                };
                let list_id = if same {
                    self.items[last.unwrap()].list_id
                } else {
                    self.next_list
                };
                let item = Item {
                    line: k,
                    marker_start: m,
                    marker_end: end,
                    lead: sc.lead,
                    content_col: sc.lead + (end - m),
                    depth: sc.bq_count,
                    ch,
                    ordered,
                    number,
                    list_id,
                    parent: t1,
                    task: sc.checkbox,
                };
                self.items.push(item);
                self.stack.push(id);
                self.lines.push(LineInfo { scan: sc, item: Some(id), indent, code: None, fence_body: false });
                if !same {
                    self.next_list = self.next_list + 1;
                }
            },
            LineBlock::Fence { ch, count, info_start, info_end } => {
                let b = self.blocks.len();
                self.blocks.push(CodeBlock {
                    open_line: k,
                    start: m,
                    ch,
                    count,
                    close_line: None,
                    end: s.len(),
                    info_start,
                    info_end,
                });
                self.lines.push(LineInfo { scan: sc, item: t1, indent, code: Some(b), fence_body: false });
                self.open = Some(b);
            },
            _ => {
                self.lines.push(LineInfo { scan: sc, item: t1, indent, code: None, fence_body: false });
            },
        }
    }
}

/// Computes the structure of `s`.
pub fn analyze(s: &Vec<u8>) -> (o: Outline)
    ensures
        outline_of(s@, &o),
{
    let table = build_line_table(s);
    proof {
        lemma_line_table_wf(s@);
    }
    let ghost t = line_table(s@);
    let mut sc_state = Scanner {
        stack: Vec::new(),
        items: Vec::new(),
        lines: Vec::new(),
        blocks: Vec::new(),
        open: None,
        next_list: 0,
    };
    let mut k: usize = 0;
    let mut lim: usize = 0;
    assert(sc_state.state() =~= outline_upto(s@, 0));
    while k < table.len()
        invariant
            tab_view(table@) == t,
            t == line_table(s@),
            crate::text::wf_lines(s@, t, 0),
            k <= table@.len(),
            lim <= s.len(),
            k < table@.len() ==> lim <= t[k as int].0,
            k == table@.len() ==> lim == s.len(),
            sc_state.state() == outline_upto(s@, k as int),
            wf_ostate(s@, outline_upto(s@, k as int), k as int, lim as int),
            forall|j: int| 0 <= j < k ==> (#[trigger] sc_state.lines@[j]).scan == scan_line(s@, t[j].0, t[j].1),
        decreases table@.len() - k,
    {
        let a = table[k].0;
        let e = table[k].1;
        let ghost st = outline_upto(s@, k as int);
        assert(a == t[k as int].0 && e == t[k as int].1);
        proof {
            lemma_step_wf(s@, st, k as int, lim as int, a as int, e as int);
        }
        let ghost nst = step(s@, st, k as int, a as int, e as int);
        assert(outline_upto(s@, k + 1) == nst);

        let sc = scan_line_exec(s, a, e);
        proof {
            lemma_scan_line(s@, a as int, e as int);
        }
        assert(sc_state.stack@ == st.stack && sc_state.items@ == st.items);
        assert(forall|j: int| 0 <= j < sc_state.stack@.len() ==> (#[trigger] sc_state.stack@[j] as int) < sc_state.items@.len()) by {
            assert(forall|j: int| 0 <= j < st.stack.len() ==> (#[trigger] st.stack[j] as int) < st.items.len());
        }
        if sc_state.open.is_some() {
            sc_state.step_in_block(s, sc, k, a, e);
        } else if sc.blank {
            sc_state.step_blank(s, sc, k, a, e);
        } else {
            sc_state.step_line(s, sc, k, a, e);
        }
        assert(sc_state.state() == nst);
        k = k + 1;
        lim = e;
        assert(k < table@.len() ==> lim <= t[k as int].0);
    }
    Outline { table, lines: sc_state.lines, items: sc_state.items, blocks: sc_state.blocks }
}

} // verus!
