//! What the line at the cursor continues: the markers Shift+Enter repeats,
//! the indent Shift+Alt+Enter writes for a nested paragraph, and the chain
//! of containers (block quotes, list items, code block) around a position.

use vstd::prelude::*;
use crate::cycle::{decimal, decimal_exec, push_all, push_spaces, push_vec, spaces};
use crate::cycle::{item_chain, item_chain_exec};
use crate::doc::{LineMarkers, is_bq_kind, is_list_kind, line_of, list_kind};
use crate::marker::{LineBlock, Marker, MarkerKind, OrderedMarker, UnorderedMarker, bq_scan, bq_scan_exec};
use crate::outline::{Item, LineInfo, analyze, outline};
use crate::text::{ascii, line_index, line_table};

verus! {

/// The delimiter byte of an ordered list marker.
pub open spec fn delim_byte(om: Option<OrderedMarker>) -> u8 {
    match om {
        Some(OrderedMarker::Parenthesis) => 41u8,
        _ => 46u8,
    }
}

/// What Shift+Enter writes for one marker of the line: block quote markers,
/// indents and bullets are repeated, a number is incremented, a checkbox
/// starts unchecked; headings and fences are not continued.
pub open spec fn marker_continuation(s: Seq<u8>, m: Marker) -> Seq<u8> {
    match m.kind {
        MarkerKind::BlockQuote => s.subrange(m.start as int, m.end as int),
        MarkerKind::Indent => s.subrange(m.start as int, m.end as int),
        MarkerKind::ListItem { ordered, ordered_marker, number, .. } => if ordered {
            decimal((match number { Some(n) => n as nat, None => 0nat }) + 1) + seq![delim_byte(ordered_marker), 32u8]
        } else {
            s.subrange(m.start as int, m.end as int)
        },
        MarkerKind::Checkbox { .. } => seq![91u8, 32u8, 93u8, 32u8],
        _ => seq![],
    }
}

/// The continuation of the markers `ms[0..n)`, in order.
pub open spec fn continuation(s: Seq<u8>, ms: Seq<Marker>, n: int) -> Seq<u8>
    decreases n,
{
    if n <= 0 {
        seq![]
    } else {
        continuation(s, ms, n - 1) + marker_continuation(s, ms[n - 1])
    }
}

/// The indent of a paragraph nested in the line's innermost container, for
/// one marker: block quote markers are repeated, list markers and indents
/// become spaces.
pub open spec fn marker_indent(s: Seq<u8>, m: Marker) -> Seq<u8> {
    match m.kind {
        MarkerKind::BlockQuote => s.subrange(m.start as int, m.end as int),
        MarkerKind::Indent => spaces(m.end - m.start),
        MarkerKind::ListItem { .. } => spaces(m.end - m.start),
        _ => seq![],
    }
}

/// The nested paragraph indent of the markers `ms[0..n)`, in order.
pub open spec fn nested_indent(s: Seq<u8>, ms: Seq<Marker>, n: int) -> Seq<u8>
    decreases n,
{
    if n <= 0 {
        seq![]
    } else {
        nested_indent(s, ms, n - 1) + marker_indent(s, ms[n - 1])
    }
}

pub open spec fn has_list(ms: Seq<Marker>) -> bool {
    exists|i: int| 0 <= i < ms.len() && is_list_kind(#[trigger] ms[i].kind)
}

pub open spec fn has_blockquote(ms: Seq<Marker>) -> bool {
    exists|i: int| 0 <= i < ms.len() && is_bq_kind(#[trigger] ms[i].kind)
}

/// What Shift+Alt+Enter writes after the line break: two spaces on a block
/// quote line outside any list (leaving the quote), else the nested
/// paragraph indent.
pub open spec fn alt_indent(s: Seq<u8>, ms: Seq<Marker>) -> Seq<u8> {
    if has_blockquote(ms) && !has_list(ms) {
        seq![32u8, 32u8]
    } else {
        nested_indent(s, ms, ms.len() as int)
    }
}

/// End of the run of spaces and tabs starting at `p` (bounded by `e`).
pub open spec fn blanks_end(s: Seq<u8>, p: int, e: int) -> int
    decreases e - p,
{
    if p < 0 || p >= e || e > s.len() || !(s[p] == 32u8 || s[p] == 9u8) {
        p
    } else {
        blanks_end(s, p + 1, e)
    }
}


/// The markers of an item: its list marker, then its checkbox.
pub open spec fn item_kinds(it: Item) -> Seq<MarkerKind> {
    seq![list_kind(it.ordered, it.ch, it.number)] + match it.task {
        Some(cb) => seq![MarkerKind::Checkbox { checked: cb.checked }],
        None => seq![],
    }
}

/// The markers of the items `chain[0..n)`, in order.
pub open spec fn chain_markers(items: Seq<Item>, chain: Seq<usize>, n: int) -> Seq<MarkerKind>
    decreases n,
{
    if n <= 0 {
        seq![]
    } else {
        chain_markers(items, chain, n - 1) + item_kinds(items[chain[n - 1] as int])
    }
}

/// Block quotes opened inside the innermost list item holding the line,
/// where the item's content starts on it: right after its list marker
/// (when no checkbox follows), or after the indent of a continuation
/// line. None in a code block.
pub open spec fn inner_quotes(s: Seq<u8>, li: LineInfo) -> int {
    if li.item is None || li.code is Some {
        0
    } else {
        let c: int = match li.scan.block {
            LineBlock::List { end, .. } => if li.scan.checkbox is Some { -1 } else { end as int },
            _ => if li.indent { li.scan.bq_end + li.scan.lead } else { -1 },
        };
        if c < 0 { 0 } else { bq_scan(s, c, li.scan.end as int).0 }
    }
}

/// A line of paragraph text, outside code blocks.
pub open spec fn para_line(li: LineInfo) -> bool {
    !li.scan.blank && li.scan.block is Plain && li.code is None
}

/// The block quotes holding line `k`: its own `>` markers, or, for a
/// paragraph line without any (and outside list items) right after a
/// paragraph line in a block quote, those of that line: a lazy
/// continuation of the quoted paragraph.
pub open spec fn quote_depth(lines: Seq<LineInfo>, k: int) -> int
    decreases k,
{
    if k < 0 || k >= lines.len() {
        0
    } else if lines[k].scan.bq_count > 0 {
        lines[k].scan.bq_count as int
    } else if k > 0 && para_line(lines[k]) && lines[k].item is None && para_line(lines[k - 1]) {
        quote_depth(lines, k - 1)
    } else {
        0
    }
}

/// `quote_depth` computed.
fn quote_depth_exec(lines: &Vec<LineInfo>, k: usize) -> (r: usize)
    requires
        k < lines@.len(),
    ensures
        r == quote_depth(lines@, k as int),
{
    let mut j = k;
    loop
        invariant
            j <= k < lines@.len(),
            quote_depth(lines@, k as int) == quote_depth(lines@, j as int),
        decreases j,
    {
        let li = lines[j];
        if li.scan.bq_count > 0 {
            return li.scan.bq_count;
        }
        let para = !li.scan.blank && matches!(li.scan.block, LineBlock::Plain) && li.code.is_none();
        if j > 0 && para && li.item.is_none() {
            let pv = lines[j - 1];
            if !pv.scan.blank && matches!(pv.scan.block, LineBlock::Plain) && pv.code.is_none() {
                j = j - 1;
            } else {
                return 0;
            }
        } else {
            return 0;
        }
    }
}

/// The containers around position `p` (at the end of the text, around the
/// last character), outermost first: the block quotes that open the line,
/// the markers of its enclosing list items, the block quotes opened inside
/// the innermost item, and its code block. A lazy continuation line of a
/// quoted paragraph is in the quotes of that paragraph (`quote_depth`).
pub open spec fn nested_context(s: Seq<u8>, p: int) -> Seq<MarkerKind> {
    let q = if p > 0 && p == s.len() { p - 1 } else { p };
    if q < 0 || q >= s.len() {
        seq![]
    } else {
        let o = outline(s);
        let k = line_index(line_table(s), q);
        let li = o.lines[k];
        Seq::new(quote_depth(o.lines, k) as nat, |_i: int| MarkerKind::BlockQuote) + match li.item {
            Some(i) => {
                let chain = item_chain(o.items, i as int);
                chain_markers(o.items, chain, chain.len() as int)
            },
            None => seq![],
        } + Seq::new(inner_quotes(s, li) as nat, |_i: int| MarkerKind::BlockQuote) + match li.code {
            Some(b) => seq![
                MarkerKind::CodeBlockFence {
                    is_opening: true,
                    language_start: o.blocks[b as int].info_start,
                    language_end: o.blocks[b as int].info_end,
                },
            ],
            None => seq![],
        }
    }
}

/// `inner_quotes` computed.
fn inner_quotes_exec(s: &Vec<u8>, li: &LineInfo) -> (r: usize)
    ensures
        r == inner_quotes(s@, *li),
{
    if li.item.is_none() || li.code.is_some() {
        return 0;
    }
    let c: Option<usize> = match li.scan.block {
        LineBlock::List { end, .. } => if li.scan.checkbox.is_some() {
            None
        } else {
            Some(end)
        },
        _ => if li.indent && li.scan.lead <= usize::MAX - li.scan.bq_end {
            Some(li.scan.bq_end + li.scan.lead)
        } else {
            None
        },
    };
    match c {
        Some(c) => {
            if c < li.scan.end && li.scan.end <= s.len() {
                bq_scan_exec(s, c, li.scan.end).0
            } else {
                0
            }
        },
        None => 0,
    }
}

/// `list_kind` computed.
fn list_kind_exec(ordered: bool, ch: u8, number: u32) -> (r: MarkerKind)
    ensures
        r == list_kind(ordered, ch, number),
{
    if ordered {
        MarkerKind::ListItem {
            ordered: true,
            unordered_marker: None,
            ordered_marker: Some(if ch == 41u8 { OrderedMarker::Parenthesis } else { OrderedMarker::Dot }),
            number: Some(number),
        }
    } else {
        MarkerKind::ListItem {
            ordered: false,
            unordered_marker: Some(if ch == 42u8 {
                UnorderedMarker::Star
            } else if ch == 43u8 {
                UnorderedMarker::Plus
            } else {
                UnorderedMarker::Minus
            }),
            ordered_marker: None,
            number: None,
        }
    }
}

/// `nested_context` computed.
pub fn nested_context_exec(s: &Vec<u8>, p: usize) -> (r: Vec<MarkerKind>)
    ensures
        r@ == nested_context(s@, p as int),
{
    let n = s.len();
    let q = if p > 0 && p == n {
        p - 1
    } else {
        p
    };
    if q >= n {
        return Vec::new();
    }
    let o = analyze(s);
    let k = line_of(s, &o, q);
    let li = o.lines[k];
    assert(li == outline(s@).lines[k as int]);
    assert(crate::outline::line_info_wf(li, o.items@.len() as int, o.blocks@.len() as int));
    let qd = quote_depth_exec(&o.lines, k);
    let mut r: Vec<MarkerKind> = Vec::new();
    let mut i: usize = 0;
    while i < qd
        invariant
            i <= qd,
            r@ =~= Seq::new(i as nat, |_i: int| MarkerKind::BlockQuote),
        decreases qd - i,
    {
        r.push(MarkerKind::BlockQuote);
        i = i + 1;
    }
    let ghost head = r@;
    match li.item {
        Some(it) => {
            let chain = item_chain_exec(&o.items, it);
            let mut j: usize = 0;
            while j < chain.len()
                invariant
                    j <= chain@.len(),
                    forall|x: int| 0 <= x < chain@.len() ==> (#[trigger] chain@[x] as int) < o.items@.len(),
                    r@ == head + chain_markers(o.items@, chain@, j as int),
                decreases chain@.len() - j,
            {
                let item = o.items[chain[j]];
                let lk = list_kind_exec(item.ordered, item.ch, item.number);
                r.push(lk);
                match item.task {
                    Some(cb) => {
                        r.push(MarkerKind::Checkbox { checked: cb.checked });
                    },
                    None => {},
                }
                assert(r@ =~= head + chain_markers(o.items@, chain@, j + 1));
                j = j + 1;
            }
        },
        None => {},
    }
    let nq = inner_quotes_exec(s, &li);
    let ghost mid = r@;
    let mut i: usize = 0;
    while i < nq
        invariant
            i <= nq,
            r@ =~= mid + Seq::new(i as nat, |_i: int| MarkerKind::BlockQuote),
        decreases nq - i,
    {
        r.push(MarkerKind::BlockQuote);
        i = i + 1;
    }
    match li.code {
        Some(b) => {
            let blk = o.blocks[b];
            r.push(MarkerKind::CodeBlockFence { is_opening: true, language_start: blk.info_start, language_end: blk.info_end });
        },
        None => {},
    }
    r
}

/// `marker_continuation` appended to `v`.
fn push_continuation(v: &mut Vec<u8>, s: &Vec<u8>, m: &Marker)
    requires
        m.start <= m.end <= s@.len(),
        ascii(s@.subrange(m.start as int, m.end as int)),
    ensures
        final(v)@ == old(v)@ + marker_continuation(s@, *m),
        ascii(marker_continuation(s@, *m)),
{
    proof {
        let n: nat = match m.kind {
            MarkerKind::ListItem { number, .. } => match number { Some(n) => n as nat, None => 0nat },
            _ => 0nat,
        };
        crate::cycle::lemma_decimal_ascii(n + 1);
        let d = decimal(n + 1);
        crate::cycle::lemma_ascii_concat(d, seq![46u8, 32u8]);
        crate::cycle::lemma_ascii_concat(d, seq![41u8, 32u8]);
    }
    match m.kind {
        MarkerKind::BlockQuote => push_all(v, s, m.start, m.end),
        MarkerKind::Indent => push_all(v, s, m.start, m.end),
        MarkerKind::ListItem { ordered, ordered_marker, number, .. } => {
            if ordered {
                let n: u64 = match number {
                    Some(n) => n as u64,
                    None => 0,
                };
                let d = decimal_exec(n + 1);
                push_vec(v, &d);
                let c: u8 = match ordered_marker {
                    Some(OrderedMarker::Parenthesis) => 41u8,
                    _ => 46u8,
                };
                v.push(c);
                v.push(32u8);
                assert(v@ =~= old(v)@ + marker_continuation(s@, *m));
            } else {
                push_all(v, s, m.start, m.end);
            }
        },
        MarkerKind::Checkbox { .. } => {
            v.push(91u8);
            v.push(32u8);
            v.push(93u8);
            v.push(32u8);
            assert(v@ =~= old(v)@ + marker_continuation(s@, *m));
        },
        _ => {
            assert(v@ =~= old(v)@ + marker_continuation(s@, *m));
        },
    }
}

/// `continuation` of a line's markers computed.
pub fn continuation_exec(s: &Vec<u8>, lm: &LineMarkers) -> (r: Vec<u8>)
    requires
        lm.end <= s@.len(),
        forall|i: int| 0 <= i < lm.markers@.len() ==> (#[trigger] lm.markers@[i]).start <= lm.markers@[i].end <= lm.end,
        forall|i: int| 0 <= i < lm.markers@.len() ==> ascii(s@.subrange((#[trigger] lm.markers@[i]).start as int, lm.markers@[i].end as int)),
    ensures
        r@ == continuation(s@, lm.markers@, lm.markers@.len() as int),
        ascii(r@),
{
    let mut r: Vec<u8> = Vec::new();
    let mut i: usize = 0;
    while i < lm.markers.len()
        invariant
            i <= lm.markers@.len(),
            lm.end <= s@.len(),
            forall|j: int| 0 <= j < lm.markers@.len() ==> (#[trigger] lm.markers@[j]).start <= lm.markers@[j].end <= lm.end,
            forall|j: int| 0 <= j < lm.markers@.len() ==> ascii(s@.subrange((#[trigger] lm.markers@[j]).start as int, lm.markers@[j].end as int)),
            r@ == continuation(s@, lm.markers@, i as int),
            ascii(r@),
        decreases lm.markers@.len() - i,
    {
        let m = lm.markers[i];
        assert(m == lm.markers@[i as int]);
        let ghost before = r@;
        push_continuation(&mut r, s, &m);
        proof {
            crate::cycle::lemma_ascii_concat(before, marker_continuation(s@, m));
        }
        i = i + 1;
    }
    r
}

/// `marker_indent` appended to `v`.
fn push_indent(v: &mut Vec<u8>, s: &Vec<u8>, m: &Marker)
    requires
        m.start <= m.end <= s@.len(),
        ascii(s@.subrange(m.start as int, m.end as int)),
    ensures
        final(v)@ == old(v)@ + marker_indent(s@, *m),
        ascii(marker_indent(s@, *m)),
{
    match m.kind {
        MarkerKind::BlockQuote => push_all(v, s, m.start, m.end),
        MarkerKind::Indent => push_spaces(v, m.end - m.start),
        MarkerKind::ListItem { .. } => push_spaces(v, m.end - m.start),
        _ => {
            assert(v@ =~= old(v)@ + marker_indent(s@, *m));
        },
    }
}

/// `alt_indent` of a line's markers computed.
pub fn alt_indent_exec(s: &Vec<u8>, lm: &LineMarkers) -> (r: Vec<u8>)
    requires
        lm.end <= s@.len(),
        forall|i: int| 0 <= i < lm.markers@.len() ==> (#[trigger] lm.markers@[i]).start <= lm.markers@[i].end <= lm.end,
        forall|i: int| 0 <= i < lm.markers@.len() ==> ascii(s@.subrange((#[trigger] lm.markers@[i]).start as int, lm.markers@[i].end as int)),
    ensures
        r@ == alt_indent(s@, lm.markers@),
        ascii(r@),
{
    if lm.has_blockquote() && !lm.has_list() {
        let r = vec![32u8, 32u8];
        assert(r@ =~= seq![32u8, 32u8]);
        return r;
    }
    let mut r: Vec<u8> = Vec::new();
    let mut i: usize = 0;
    while i < lm.markers.len()
        invariant
            i <= lm.markers@.len(),
            lm.end <= s@.len(),
            forall|j: int| 0 <= j < lm.markers@.len() ==> (#[trigger] lm.markers@[j]).start <= lm.markers@[j].end <= lm.end,
            forall|j: int| 0 <= j < lm.markers@.len() ==> ascii(s@.subrange((#[trigger] lm.markers@[j]).start as int, lm.markers@[j].end as int)),
            r@ == nested_indent(s@, lm.markers@, i as int),
            ascii(r@),
        decreases lm.markers@.len() - i,
    {
        let m = lm.markers[i];
        assert(m == lm.markers@[i as int]);
        let ghost before = r@;
        push_indent(&mut r, s, &m);
        proof {
            crate::cycle::lemma_ascii_concat(before, marker_indent(s@, m));
        }
        i = i + 1;
    }
    r
}

/// `blanks_end` computed.
pub fn blanks_end_exec(s: &Vec<u8>, p: usize, e: usize) -> (r: usize)
    requires
        p <= e <= s@.len(),
    ensures
        r == blanks_end(s@, p as int, e as int),
        p <= r <= e,
        ascii(s@.subrange(p as int, r as int)),
{
    let mut q = p;
    while q < e && (s[q] == 32u8 || s[q] == 9u8)
        invariant
            p <= q <= e <= s@.len(),
            blanks_end(s@, q as int, e as int) == blanks_end(s@, p as int, e as int),
            forall|j: int| p <= j < q ==> s@[j] == 32u8 || s@[j] == 9u8,
        decreases e - q,
    {
        q = q + 1;
    }
    q
}

} // verus!
