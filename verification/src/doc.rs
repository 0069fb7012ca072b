//! Queries on an analysed document: the markers of a line, the list item
//! holding a position, its parent, siblings and nested task checkboxes,
//! and the code block holding a line.

use vstd::prelude::*;
use crate::marker::{LineBlock, Marker, MarkerKind, OrderedMarker, UnorderedMarker, CheckboxScan, box_bytes};
use crate::outline::{CodeBlock, Item, OState, Outline, outline, outline_of};
use crate::text::{ascii, line_index, line_table, tab_view, find_line};

verus! {

/// The markers at the start of a line, with the line's range.
#[derive(Debug)]
pub struct LineMarkers {
    pub start: usize,
    pub end: usize,
    pub markers: Vec<Marker>,
}

/// Block quote markers from `p`: each a `>` with the space after it.
pub open spec fn bq_markers(s: Seq<u8>, p: int, e: int) -> Seq<Marker>
    decreases e - p,
{
    if p < 0 || p >= e || e > s.len() || s[p] != 62u8 {
        seq![]
    } else {
        let q = if p + 1 < e && s[p + 1] == 32u8 {
            p + 2
        } else {
            p + 1
        };
        seq![Marker { kind: MarkerKind::BlockQuote, start: p as usize, end: q as usize }] + bq_markers(s, q, e)
    }
}

pub open spec fn bullet_of(ch: u8) -> UnorderedMarker {
    if ch == 42u8 {
        UnorderedMarker::Star
    } else if ch == 43u8 {
        UnorderedMarker::Plus
    } else {
        UnorderedMarker::Minus
    }
}

pub open spec fn delim_of(ch: u8) -> OrderedMarker {
    if ch == 41u8 {
        OrderedMarker::Parenthesis
    } else {
        OrderedMarker::Dot
    }
}

/// The kind of a list marker.
pub open spec fn list_kind(ordered: bool, ch: u8, number: u32) -> MarkerKind {
    MarkerKind::ListItem {
        ordered,
        unordered_marker: if ordered { None } else { Some(bullet_of(ch)) },
        ordered_marker: if ordered { Some(delim_of(ch)) } else { None },
        number: if ordered { Some(number) } else { None },
    }
}

/// Markers after the block quote markers and the indent.
pub open spec fn block_markers(o: OState, k: int) -> Seq<Marker> {
    let li = o.lines[k];
    let sc = li.scan;
    let m = sc.bq_end + sc.lead;
    if li.fence_body {
        match sc.block {
            LineBlock::Fence { count, info_start, info_end, .. } => if li.code is Some
                && o.blocks[li.code->0 as int].close_line == Some(k as usize) {
                seq![
                    Marker {
                        kind: MarkerKind::CodeBlockFence {
                            is_opening: false,
                            language_start: info_start,
                            language_end: info_end,
                        },
                        start: m as usize,
                        end: (m + count) as usize,
                    },
                ]
            } else {
                seq![]
            },
            _ => seq![],
        }
    } else {
        match sc.block {
            LineBlock::Fence { count, info_start, info_end, .. } => seq![
                Marker {
                    kind: MarkerKind::CodeBlockFence {
                        is_opening: true,
                        language_start: info_start,
                        language_end: info_end,
                    },
                    start: m as usize,
                    end: (m + count) as usize,
                },
            ],
            LineBlock::Heading { level, end } => seq![
                Marker { kind: MarkerKind::Heading(level), start: m as usize, end },
            ],
            LineBlock::List { end, ordered, ch, number } => seq![
                Marker { kind: list_kind(ordered, ch, number), start: m as usize, end },
            ] + match sc.checkbox {
                Some(cb) => seq![
                    Marker {
                        kind: MarkerKind::Checkbox { checked: cb.checked },
                        start: cb.start,
                        end: cb.end,
                    },
                ],
                None => seq![],
            },
            LineBlock::Plain => seq![],
        }
    }
}

/// All markers of line `k` of `s`, in order.
pub open spec fn markers_of(s: Seq<u8>, k: int) -> Seq<Marker> {
    let o = outline(s);
    let sc = o.lines[k].scan;
    bq_markers(s, sc.start as int, sc.end as int) + (if o.lines[k].indent {
        seq![Marker { kind: MarkerKind::Indent, start: sc.bq_end, end: (sc.bq_end + sc.lead) as usize }]
    } else {
        seq![]
    }) + block_markers(o, k)
}

/// Line `k` of `s` with its markers.
pub open spec fn line_markers_spec(s: Seq<u8>, k: int) -> (int, int, Seq<Marker>) {
    (line_table(s)[k].0, line_table(s)[k].1, markers_of(s, k))
}

/// First marker of `ms` (from index `i`) that ends at `p`.
pub open spec fn marker_ending_at(ms: Seq<Marker>, i: int, p: int) -> Option<Marker>
    decreases ms.len() - i,
{
    if i < 0 || i >= ms.len() {
        None
    } else if ms[i].end == p {
        Some(ms[i])
    } else {
        marker_ending_at(ms, i + 1, p)
    }
}

/// First marker of `ms` (from index `i`) that starts at `p`.
pub open spec fn marker_starting_at(ms: Seq<Marker>, i: int, p: int) -> Option<Marker>
    decreases ms.len() - i,
{
    if i < 0 || i >= ms.len() {
        None
    } else if ms[i].start == p {
        Some(ms[i])
    } else {
        marker_starting_at(ms, i + 1, p)
    }
}

/// The state of the first checkbox marker of `ms` (from index `i`).
pub open spec fn checkbox_of(ms: Seq<Marker>, i: int) -> Option<bool>
    decreases ms.len() - i,
{
    if i < 0 || i >= ms.len() {
        None
    } else if ms[i].kind is Checkbox {
        Some(ms[i].kind->checked)
    } else {
        checkbox_of(ms, i + 1)
    }
}

pub open spec fn is_list_kind(k: MarkerKind) -> bool {
    k is ListItem
}

pub open spec fn is_bq_kind(k: MarkerKind) -> bool {
    k is BlockQuote
}

/// Where the content of a line starts: after its last marker.
pub open spec fn content_start_of(lm: (int, int, Seq<Marker>)) -> int {
    if lm.2.len() > 0 {
        lm.2.last().end as int
    } else {
        lm.0
    }
}

impl LineMarkers {
    pub open spec fn spec_tuple(&self) -> (int, int, Seq<Marker>) {
        (self.start as int, self.end as int, self.markers@)
    }

    /// First marker ending at `p`.
    pub fn ending_at(&self, p: usize) -> (r: Option<Marker>)
        ensures
            r == marker_ending_at(self.markers@, 0, p as int),
    {
        let mut i: usize = 0;
        while i < self.markers.len()
            invariant
                i <= self.markers@.len(),
                marker_ending_at(self.markers@, 0, p as int) == marker_ending_at(self.markers@, i as int, p as int),
            decreases self.markers@.len() - i,
        {
            if self.markers[i].end == p {
                return Some(self.markers[i]);
            }
            i = i + 1;
        }
        None
    }

    /// First marker starting at `p`.
    pub fn starting_at(&self, p: usize) -> (r: Option<Marker>)
        ensures
            r == marker_starting_at(self.markers@, 0, p as int),
    {
        let mut i: usize = 0;
        while i < self.markers.len()
            invariant
                i <= self.markers@.len(),
                marker_starting_at(self.markers@, 0, p as int) == marker_starting_at(self.markers@, i as int, p as int),
            decreases self.markers@.len() - i,
        {
            if self.markers[i].start == p {
                return Some(self.markers[i]);
            }
            i = i + 1;
        }
        None
    }

    /// State of the line's task checkbox, if it has one.
    pub fn checkbox(&self) -> (r: Option<bool>)
        ensures
            r == checkbox_of(self.markers@, 0),
    {
        let mut i: usize = 0;
        while i < self.markers.len()
            invariant
                i <= self.markers@.len(),
                checkbox_of(self.markers@, 0) == checkbox_of(self.markers@, i as int),
            decreases self.markers@.len() - i,
        {
            match self.markers[i].kind {
                MarkerKind::Checkbox { checked } => {
                    return Some(checked);
                },
                _ => {},
            }
            i = i + 1;
        }
        None
    }

    /// Whether some marker is a list marker.
    pub fn has_list(&self) -> (r: bool)
        ensures
            r == exists|i: int| 0 <= i < self.markers@.len() && is_list_kind(#[trigger] self.markers@[i].kind),
    {
        let mut i: usize = 0;
        while i < self.markers.len()
            invariant
                i <= self.markers@.len(),
                forall|j: int| 0 <= j < i ==> !is_list_kind(#[trigger] self.markers@[j].kind),
            decreases self.markers@.len() - i,
        {
            match self.markers[i].kind {
                MarkerKind::ListItem { .. } => {
                    return true;
                },
                _ => {},
            }
            i = i + 1;
        }
        false
    }

    /// Whether some marker is a block quote marker.
    pub fn has_blockquote(&self) -> (r: bool)
        ensures
            r == exists|i: int| 0 <= i < self.markers@.len() && is_bq_kind(#[trigger] self.markers@[i].kind),
    {
        let mut i: usize = 0;
        while i < self.markers.len()
            invariant
                i <= self.markers@.len(),
                forall|j: int| 0 <= j < i ==> !is_bq_kind(#[trigger] self.markers@[j].kind),
            decreases self.markers@.len() - i,
        {
            match self.markers[i].kind {
                MarkerKind::BlockQuote => {
                    return true;
                },
                _ => {},
            }
            i = i + 1;
        }
        false
    }

    /// Where the content after the markers starts.
    pub fn content_start(&self) -> (r: usize)
        ensures
            r == content_start_of(self.spec_tuple()),
    {
        if self.markers.len() > 0 {
            self.markers[self.markers.len() - 1].end
        } else {
            self.start
        }
    }
}


/// Block quote markers are ASCII.
proof fn lemma_bq_markers_ascii(s: Seq<u8>, p: int, e: int)
    requires
        0 <= p <= e <= s.len(),
        s.len() <= usize::MAX,
    ensures
        forall|i: int| 0 <= i < bq_markers(s, p, e).len() ==> ascii(s.subrange((#[trigger] bq_markers(s, p, e)[i]).start as int, bq_markers(s, p, e)[i].end as int)),
    decreases e - p,
{
    if p < e && s[p] == 62u8 {
        let q = if p + 1 < e && s[p + 1] == 32u8 { p + 2 } else { p + 1 };
        lemma_bq_markers_ascii(s, q, e);
        let m = Marker { kind: MarkerKind::BlockQuote, start: p as usize, end: q as usize };
        let r = bq_markers(s, q, e);
        assert(bq_markers(s, p, e) == seq![m] + r);
        assert(ascii(s.subrange(p, q)));
        assert forall|i: int| 0 <= i < (seq![m] + r).len() implies ascii(s.subrange((#[trigger] (seq![m] + r)[i]).start as int, (seq![m] + r)[i].end as int)) by {
            if i > 0 {
                assert((seq![m] + r)[i] == r[i - 1]);
            } else {
                assert((seq![m] + r)[i] == m);
            }
        }
    }
}

/// The markers of a line are ASCII.
pub proof fn lemma_markers_ascii(s: Seq<u8>, k: int)
    requires
        0 <= k < line_table(s).len(),
        s.len() <= usize::MAX,
        forall|j: int| 0 <= j < line_table(s).len() ==> (#[trigger] outline(s).lines[j]).scan == crate::marker::scan_line(s, line_table(s)[j].0, line_table(s)[j].1),
        outline(s).lines.len() == line_table(s).len(),
    ensures
        forall|i: int| 0 <= i < markers_of(s, k).len() ==> ascii(s.subrange((#[trigger] markers_of(s, k)[i]).start as int, markers_of(s, k)[i].end as int)),
{
    let t = line_table(s);
    crate::text::lemma_line_table_wf(s);
    let o = outline(s);
    let sc = o.lines[k].scan;
    assert(sc == crate::marker::scan_line(s, t[k].0, t[k].1));
    crate::outline::lemma_scan_line(s, t[k].0, t[k].1);
    lemma_bq_markers_ascii(s, sc.start as int, sc.end as int);
    let a = bq_markers(s, sc.start as int, sc.end as int);
    let b = if o.lines[k].indent {
        seq![Marker { kind: MarkerKind::Indent, start: sc.bq_end, end: (sc.bq_end + sc.lead) as usize }]
    } else {
        seq![]
    };
    let c = block_markers(o, k);
    assert(ascii(s.subrange(sc.bq_end as int, sc.bq_end + sc.lead)));
    let m = sc.bq_end + sc.lead;
    match sc.block {
        LineBlock::Fence { count, .. } => {
            assert(ascii(s.subrange(m, m + count)));
        },
        LineBlock::Heading { end, .. } => {
            assert(ascii(s.subrange(m, end as int)));
        },
        LineBlock::List { end, .. } => {
            assert(ascii(s.subrange(m, end as int)));
            match sc.checkbox {
                Some(cb) => {
                    assert(ascii(s.subrange(cb.start as int, cb.end as int)));
                },
                None => {},
            }
        },
        _ => {},
    }
    assert(forall|i: int| 0 <= i < c.len() ==> ascii(s.subrange((#[trigger] c[i]).start as int, c[i].end as int)));
    assert(markers_of(s, k) == a + b + c);
    assert forall|i: int| 0 <= i < (a + b + c).len() implies ascii(s.subrange((#[trigger] (a + b + c)[i]).start as int, (a + b + c)[i].end as int)) by {
        if i < a.len() {
            assert((a + b + c)[i] == a[i]);
        } else if i < a.len() + b.len() {
            assert((a + b + c)[i] == b[i - a.len()]);
        } else {
            assert((a + b + c)[i] == c[i - a.len() - b.len()]);
        }
    }
}


proof fn lemma_bq_markers_nonempty(s: Seq<u8>, p: int, e: int)
    requires
        0 <= p <= e <= s.len(),
        s.len() <= usize::MAX,
    ensures
        forall|i: int| 0 <= i < bq_markers(s, p, e).len() ==> (#[trigger] bq_markers(s, p, e)[i]).start < bq_markers(s, p, e)[i].end <= e,
    decreases e - p,
{
    if p < e && s[p] == 62u8 {
        let q = if p + 1 < e && s[p + 1] == 32u8 { p + 2 } else { p + 1 };
        lemma_bq_markers_nonempty(s, q, e);
        let m = Marker { kind: MarkerKind::BlockQuote, start: p as usize, end: q as usize };
        let r = bq_markers(s, q, e);
        assert(bq_markers(s, p, e) == seq![m] + r);
        assert forall|i: int| 0 <= i < (seq![m] + r).len() implies (#[trigger] (seq![m] + r)[i]).start < (seq![m] + r)[i].end <= e by {
            if i > 0 {
                assert((seq![m] + r)[i] == r[i - 1]);
            } else {
                assert((seq![m] + r)[i] == m);
            }
        }
    }
}

/// Every marker of a line is a non-empty run of ASCII bytes inside the
/// line.
pub proof fn lemma_markers_shape(s: Seq<u8>, k: int)
    requires
        0 <= k < line_table(s).len(),
        s.len() < usize::MAX,
    ensures
        forall|i: int| 0 <= i < markers_of(s, k).len() ==> line_table(s)[k].0 <= (#[trigger] markers_of(s, k)[i]).start
            < markers_of(s, k)[i].end <= line_table(s)[k].1,
        forall|i: int| 0 <= i < markers_of(s, k).len() ==> ascii(s.subrange((#[trigger] markers_of(s, k)[i]).start as int, markers_of(s, k)[i].end as int)),
{
    crate::outline::lemma_outline(s);
    lemma_markers_ascii(s, k);
    let t = line_table(s);
    crate::text::lemma_line_table_wf(s);
    let o = outline(s);
    let sc = o.lines[k].scan;
    assert(sc == crate::marker::scan_line(s, t[k].0, t[k].1));
    crate::outline::lemma_scan_line(s, t[k].0, t[k].1);
    crate::marker::lemma_bq_scan(s, t[k].0, t[k].1);
    lemma_bq_markers_nonempty(s, sc.start as int, sc.end as int);
    assert(crate::outline::line_info_wf(o.lines[k], o.items.len() as int, o.blocks.len() as int));
    let a = bq_markers(s, sc.start as int, sc.end as int);
    lemma_bq_markers_start(s, sc.start as int, sc.end as int);
    let b = if o.lines[k].indent {
        seq![Marker { kind: MarkerKind::Indent, start: sc.bq_end, end: (sc.bq_end + sc.lead) as usize }]
    } else {
        seq![]
    };
    let c = block_markers(o, k);
    assert(markers_of(s, k) == a + b + c);
    assert forall|i: int| 0 <= i < (a + b + c).len() implies t[k].0 <= (#[trigger] (a + b + c)[i]).start < (a + b + c)[i].end <= t[k].1 by {
        if i < a.len() {
            assert((a + b + c)[i] == a[i]);
        } else if i < a.len() + b.len() {
            assert((a + b + c)[i] == b[i - a.len()]);
        } else {
            assert((a + b + c)[i] == c[i - a.len() - b.len()]);
        }
    }
}

proof fn lemma_bq_markers_start(s: Seq<u8>, p: int, e: int)
    requires
        0 <= p <= e <= s.len(),
        s.len() <= usize::MAX,
    ensures
        forall|i: int| 0 <= i < bq_markers(s, p, e).len() ==> p <= (#[trigger] bq_markers(s, p, e)[i]).start,
    decreases e - p,
{
    if p < e && s[p] == 62u8 {
        let q = if p + 1 < e && s[p + 1] == 32u8 { p + 2 } else { p + 1 };
        lemma_bq_markers_start(s, q, e);
        let m = Marker { kind: MarkerKind::BlockQuote, start: p as usize, end: q as usize };
        let r = bq_markers(s, q, e);
        assert(bq_markers(s, p, e) == seq![m] + r);
        assert forall|i: int| 0 <= i < (seq![m] + r).len() implies p <= (#[trigger] (seq![m] + r)[i]).start by {
            if i > 0 {
                assert((seq![m] + r)[i] == r[i - 1]);
            } else {
                assert((seq![m] + r)[i] == m);
            }
        }
    }
}

/// The markers of line `k`.
pub fn line_markers(s: &Vec<u8>, o: &Outline, k: usize) -> (lm: LineMarkers)
    requires
        outline_of(s@, o),
        k < o.table@.len(),
    ensures
        lm.spec_tuple() == line_markers_spec(s@, k as int),
        lm.start <= lm.end <= s@.len(),
        forall|i: int| 0 <= i < lm.markers@.len() ==> (#[trigger] lm.markers@[i]).start <= lm.markers@[i].end <= lm.end,
        forall|i: int| 0 <= i < lm.markers@.len() ==> ascii(s@.subrange((#[trigger] lm.markers@[i]).start as int, lm.markers@[i].end as int)),
{
    let ghost t = line_table(s@);
    assert(tab_view(o.table@)[k as int] == t[k as int]);
    let li = o.lines[k];
    let sc = li.scan;
    assert(li == outline(s@).lines[k as int]);
    assert(crate::outline::line_info_wf(li, o.items@.len() as int, o.blocks@.len() as int));
    proof {
        crate::text::lemma_line_table_wf(s@);
        crate::outline::lemma_scan_line(s@, t[k as int].0, t[k as int].1);
    }
    let mut ms: Vec<Marker> = Vec::new();
    let e = sc.end;
    let mut p = sc.start;
    while p < e && s[p] == 62u8
        invariant
            sc.start <= p <= e <= s.len(),
            ms@ + bq_markers(s@, p as int, e as int) == bq_markers(s@, sc.start as int, e as int),
            forall|i: int| 0 <= i < ms@.len() ==> (#[trigger] ms@[i]).start <= ms@[i].end <= e,
        decreases e - p,
    {
        let q = if p + 1 < e && s[p + 1] == 32u8 {
            p + 2
        } else {
            p + 1
        };
        let ghost old_ms = ms@;
        ms.push(Marker { kind: MarkerKind::BlockQuote, start: p, end: q });
        assert(bq_markers(s@, p as int, e as int) == seq![Marker { kind: MarkerKind::BlockQuote, start: p, end: q }] + bq_markers(s@, q as int, e as int));
        assert(ms@ + bq_markers(s@, q as int, e as int) =~= old_ms + bq_markers(s@, p as int, e as int));
        p = q;
    }
    assert(ms@ =~= bq_markers(s@, sc.start as int, e as int));
    let ghost base = ms@;
    if li.indent {
        ms.push(Marker { kind: MarkerKind::Indent, start: sc.bq_end, end: sc.bq_end + sc.lead });
    }
    let ghost with_indent = ms@;
    let m = sc.bq_end + sc.lead;
    if li.fence_body {
        match sc.block {
            LineBlock::Fence { count, info_start, info_end, .. } => {
                let closing = match li.code {
                    Some(b) => o.blocks[b].close_line == Some(k),
                    None => false,
                };
                if closing {
                    ms.push(Marker {
                        kind: MarkerKind::CodeBlockFence {
                            is_opening: false,
                            language_start: info_start,
                            language_end: info_end,
                        },
                        start: m,
                        end: m + count,
                    });
                }
            },
            _ => {},
        }
    } else {
        match sc.block {
            LineBlock::Fence { count, info_start, info_end, .. } => {
                ms.push(Marker {
                    kind: MarkerKind::CodeBlockFence {
                        is_opening: true,
                        language_start: info_start,
                        language_end: info_end,
                    },
                    start: m,
                    end: m + count,
                });
            },
            LineBlock::Heading { level, end } => {
                ms.push(Marker { kind: MarkerKind::Heading(level), start: m, end });
            },
            LineBlock::List { end, ordered, ch, number } => {
                let kind = if ordered {
                    MarkerKind::ListItem {
                        ordered: true,
                        unordered_marker: None,
                        ordered_marker: Some(if ch == 41u8 { OrderedMarker::Parenthesis } else { OrderedMarker::Dot }),
                        number: Some(number),
                    }
                } else {
                    MarkerKind::ListItem {
                        ordered: false,
                        unordered_marker: Some(if ch == 42u8 {
                            UnorderedMarker::Star
                        } else if ch == 43u8 {
                            UnorderedMarker::Plus
                        } else {
                            UnorderedMarker::Minus
                        }),
                        ordered_marker: None,
                        number: None,
                    }
                };
                ms.push(Marker { kind, start: m, end });
                match sc.checkbox {
                    Some(cb) => {
                        ms.push(Marker { kind: MarkerKind::Checkbox { checked: cb.checked }, start: cb.start, end: cb.end });
                    },
                    None => {},
                }
            },
            LineBlock::Plain => {},
        }
    }
    let ghost o_s = outline(s@);
    assert(o_s.lines[k as int] == li);
    assert(ms@ =~= markers_of(s@, k as int));
    proof {
        lemma_markers_ascii(s@, k as int);
    }
    LineMarkers { start: t_start(o, k), end: sc.end, markers: ms }
}

/// Innermost list item holding the line of position `p`.
pub open spec fn item_at(s: Seq<u8>, p: int) -> Option<usize> {
    outline(s).lines[line_index(line_table(s), p)].item
}

/// Task checkbox of the parent of the item holding position `p`.
pub open spec fn parent_checkbox(s: Seq<u8>, p: int) -> Option<CheckboxScan> {
    match item_at(s, p) {
        Some(i) => match outline(s).items[i as int].parent {
            Some(q) => outline(s).items[q as int].task,
            None => None,
        },
        None => None,
    }
}

/// Task checkboxes of the items among `items[0..n)` in list `id`, in order.
pub open spec fn list_tasks(items: Seq<Item>, id: usize, n: int) -> Seq<CheckboxScan>
    decreases n,
{
    if n <= 0 {
        seq![]
    } else {
        let r = list_tasks(items, id, n - 1);
        let it = items[n - 1];
        if it.list_id == id && it.task is Some {
            r.push(it.task->0)
        } else {
            r
        }
    }
}

/// Task checkboxes of the item holding position `p` and of its siblings.
pub open spec fn sibling_checkboxes(s: Seq<u8>, p: int) -> Seq<CheckboxScan> {
    match item_at(s, p) {
        Some(i) => list_tasks(outline(s).items, outline(s).items[i as int].list_id, outline(s).items.len() as int),
        None => seq![],
    }
}

/// Item `j` is item `i` or nested inside it.
pub open spec fn is_within(items: Seq<Item>, i: int, j: int) -> bool
    decreases j,
{
    if j == i {
        true
    } else if j < 0 || j >= items.len() || items[j].parent is None || items[j].parent->0 >= j {
        false
    } else {
        is_within(items, i, items[j].parent->0 as int)
    }
}

/// Task checkboxes of item `i` and the items nested in it, among
/// `items[0..n)`, in order.
pub open spec fn nested_tasks(items: Seq<Item>, i: int, n: int) -> Seq<CheckboxScan>
    decreases n,
{
    if n <= 0 {
        seq![]
    } else {
        let r = nested_tasks(items, i, n - 1);
        if is_within(items, i, n - 1) && items[n - 1].task is Some {
            r.push(items[n - 1].task->0)
        } else {
            r
        }
    }
}


/// The nested tasks are tasks of items.
pub proof fn lemma_nested_tasks_boxes(s: Seq<u8>, items: Seq<Item>, i: int, n: int)
    requires
        n <= items.len(),
        forall|q: int| 0 <= q < items.len() && (#[trigger] items[q]).task is Some ==> box_bytes(s, items[q].task->0.start as int),
    ensures
        forall|j: int| 0 <= j < nested_tasks(items, i, n).len() ==> box_bytes(s, (#[trigger] nested_tasks(items, i, n)[j]).start as int),
    decreases n,
{
    if n > 0 {
        lemma_nested_tasks_boxes(s, items, i, n - 1);
        let r = nested_tasks(items, i, n - 1);
        if is_within(items, i, n - 1) && items[n - 1].task is Some {
            let x = items[n - 1].task->0;
            assert forall|j: int| 0 <= j < r.push(x).len() implies box_bytes(s, (#[trigger] r.push(x)[j]).start as int) by {
                if j < r.len() {
                    assert(r.push(x)[j] == r[j]);
                }
            }
        }
    }
}

/// All the checkboxes are checked.
pub open spec fn all_checked(cbs: Seq<CheckboxScan>) -> bool {
    forall|k: int| 0 <= k < cbs.len() ==> (#[trigger] cbs[k]).checked
}

/// Code block holding the line of position `p`.
pub open spec fn code_block_at(s: Seq<u8>, p: int) -> Option<CodeBlock> {
    let c = outline(s).lines[line_index(line_table(s), p)].code;
    match c {
        Some(b) => Some(outline(s).blocks[b as int]),
        None => None,
    }
}

/// Line index of `p` in the built table, with the facts callers need.
pub fn line_of(s: &Vec<u8>, o: &Outline, p: usize) -> (k: usize)
    requires
        outline_of(s@, o),
    ensures
        k == line_index(line_table(s@), p as int),
        k < o.table@.len(),
        k < o.lines@.len(),
{
    proof {
        crate::text::lemma_line_table_wf(s@);
    }
    find_line(&o.table, p)
}

/// `item_at` computed.
pub fn item_at_exec(s: &Vec<u8>, o: &Outline, p: usize) -> (r: Option<usize>)
    requires
        outline_of(s@, o),
    ensures
        r == item_at(s@, p as int),
        r is Some ==> (r->0 as int) < o.items@.len(),
{
    let k = line_of(s, o, p);
    assert(crate::outline::line_info_wf(o.lines@[k as int], o.items@.len() as int, o.blocks@.len() as int));
    o.lines[k].item
}

/// `parent_checkbox` computed.
pub fn parent_checkbox_exec(s: &Vec<u8>, o: &Outline, p: usize) -> (r: Option<CheckboxScan>)
    requires
        outline_of(s@, o),
    ensures
        r == parent_checkbox(s@, p as int),
        r is Some ==> r->0.start + 3 <= r->0.end <= s.len(),
{
    match item_at_exec(s, o, p) {
        Some(i) => {
            assert(crate::outline::item_wf(s@, o.items@[i as int], i as int, o.lines@.len() as int));
            match o.items[i].parent {
                Some(q) => {
                    assert(crate::outline::item_wf(s@, o.items@[q as int], q as int, o.lines@.len() as int));
                    o.items[q].task
                },
                None => None,
            }
        },
        None => None,
    }
}

/// `sibling_checkboxes` computed.
pub fn sibling_checkboxes_exec(s: &Vec<u8>, o: &Outline, p: usize) -> (r: Vec<CheckboxScan>)
    requires
        outline_of(s@, o),
    ensures
        r@ == sibling_checkboxes(s@, p as int),
{
    match item_at_exec(s, o, p) {
        Some(i) => {
            let id = o.items[i].list_id;
            let mut r: Vec<CheckboxScan> = Vec::new();
            let mut n: usize = 0;
            while n < o.items.len()
                invariant
                    n <= o.items@.len(),
                    r@ == list_tasks(o.items@, id, n as int),
                decreases o.items@.len() - n,
            {
                let it = o.items[n];
                if it.list_id == id && it.task.is_some() {
                    r.push(it.task.unwrap());
                }
                n = n + 1;
            }
            r
        },
        None => Vec::new(),
    }
}

/// `is_within` computed.
pub fn is_within_exec(items: &Vec<Item>, i: usize, j: usize) -> (r: bool)
    requires
        j < items@.len(),
    ensures
        r == is_within(items@, i as int, j as int),
{
    let mut cur = j;
    while cur != i
        invariant
            cur < items@.len(),
            is_within(items@, i as int, j as int) == is_within(items@, i as int, cur as int),
        decreases cur,
    {
        match items[cur].parent {
            Some(q) => {
                if q >= cur {
                    return false;
                }
                cur = q;
            },
            None => {
                return false;
            },
        }
    }
    true
}

/// `nested_tasks` computed over all items.
pub fn nested_tasks_exec(items: &Vec<Item>, i: usize) -> (r: Vec<CheckboxScan>)
    ensures
        r@ == nested_tasks(items@, i as int, items@.len() as int),
{
    let mut r: Vec<CheckboxScan> = Vec::new();
    let mut n: usize = 0;
    while n < items.len()
        invariant
            n <= items@.len(),
            r@ == nested_tasks(items@, i as int, n as int),
        decreases items@.len() - n,
    {
        if is_within_exec(items, i, n) && items[n].task.is_some() {
            r.push(items[n].task.unwrap());
        }
        n = n + 1;
    }
    r
}

/// Whether every checkbox is checked.
pub fn all_checked_exec(cbs: &Vec<CheckboxScan>) -> (r: bool)
    ensures
        r == all_checked(cbs@),
{
    let mut k: usize = 0;
    while k < cbs.len()
        invariant
            k <= cbs@.len(),
            forall|j: int| 0 <= j < k ==> (#[trigger] cbs@[j]).checked,
        decreases cbs@.len() - k,
    {
        if !cbs[k].checked {
            return false;
        }
        k = k + 1;
    }
    true
}

/// `code_block_at` computed.
pub fn code_block_at_exec(s: &Vec<u8>, o: &Outline, p: usize) -> (r: Option<CodeBlock>)
    requires
        outline_of(s@, o),
    ensures
        r == code_block_at(s@, p as int),
        r is Some ==> r->0.start <= r->0.end <= s.len(),
{
    let k = line_of(s, o, p);
    assert(crate::outline::line_info_wf(o.lines@[k as int], o.items@.len() as int, o.blocks@.len() as int));
    match o.lines[k].code {
        Some(b) => {
            assert(crate::outline::block_wf(s@, o.blocks@[b as int], o.lines@.len() as int, s.len() as int));
            Some(o.blocks[b])
        },
        None => None,
    }
}

fn t_start(o: &Outline, k: usize) -> (r: usize)
    requires
        k < o.table@.len(),
    ensures
        r == o.table@[k as int].0,
{
    o.table[k].0
}

} // verus!
