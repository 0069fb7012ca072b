//! Markdown line markers: the syntax at the start of a line (block quote
//! `>`, list bullets and numbers, task checkboxes, headings, code fences)
//! and the context-free scan of one line that finds them.

use vstd::prelude::*;
use crate::text::{all_ws, is_all_ws, skip_ws, skip_ws_from, trim_end_at, trim_end_from, trim_end_pos, ws_len};

verus! {

/// Bullet character of an unordered list item.
#[derive(Clone, Copy, PartialEq, Eq, Debug)]
pub enum UnorderedMarker {
    Minus,
    Star,
    Plus,
}

/// Delimiter after the number of an ordered list item.
#[derive(Clone, Copy, PartialEq, Eq, Debug)]
pub enum OrderedMarker {
    Dot,
    Parenthesis,
}

/// What a marker at the start of a line is.
#[derive(Clone, Copy, Debug)]
pub enum MarkerKind {
    /// `>` (with the space after it).
    BlockQuote,
    /// `- `, `* `, `+ `, `1. ` or `1) `.
    ListItem {
        ordered: bool,
        unordered_marker: Option<UnorderedMarker>,
        ordered_marker: Option<OrderedMarker>,
        number: Option<u32>,
    },
    /// `[ ] ` or `[x] ` after a list marker.
    Checkbox { checked: bool },
    /// Leading spaces that place a line inside a list item.
    Indent,
    /// `#` .. `######` with the space after it.
    Heading(u8),
    /// A run of three or more backticks or tildes; the info string (the
    /// language) is `text[language_start..language_end)`, empty when absent.
    CodeBlockFence { is_opening: bool, language_start: usize, language_end: usize },
}

/// A marker and its byte range in the text.
#[derive(Clone, Copy, Debug)]
pub struct Marker {
    pub kind: MarkerKind,
    pub start: usize,
    pub end: usize,
}

/// The block syntax that starts a line after its block quote markers and
/// leading spaces.
#[derive(Clone, Copy, Debug)]
pub enum LineBlock {
    Plain,
    /// A code fence: `count` copies of `ch`; info string in `info_start..info_end`.
    Fence { ch: u8, count: usize, info_start: usize, info_end: usize },
    /// A heading marker ending at `end`.
    Heading { level: u8, end: usize },
    /// A list marker ending at `end` (after its space).
    List { end: usize, ordered: bool, ch: u8, number: u32 },
}

/// Checkbox found right after a list marker.
#[derive(Clone, Copy, Debug)]
pub struct CheckboxScan {
    pub start: usize,
    pub end: usize,
    pub checked: bool,
}

/// What the context-free scan of one line finds.
#[derive(Clone, Copy, Debug)]
pub struct LineScan {
    /// Line range, without the line break.
    pub start: usize,
    pub end: usize,
    /// Number of block quote markers and where they end.
    pub bq_count: usize,
    pub bq_end: usize,
    /// Number of spaces after the block quote markers.
    pub lead: usize,
    pub block: LineBlock,
    pub checkbox: Option<CheckboxScan>,
    /// Everything after the block quote markers is whitespace.
    pub blank: bool,
    /// For a list line: everything after its list marker and checkbox is
    /// whitespace.
    pub empty_item: bool,
}

/// Block quote markers from `p`: their number and where they end. Each is
/// a `>` and the single space after it, if any.
pub open spec fn bq_scan(s: Seq<u8>, p: int, e: int) -> (int, int)
    decreases e - p,
{
    if p < 0 || p >= e || e > s.len() || s[p] != 62u8 {
        (0, p)
    } else {
        let q = if p + 1 < e && s[p + 1] == 32u8 {
            p + 2
        } else {
            p + 1
        };
        let r = bq_scan(s, q, e);
        (r.0 + 1, r.1)
    }
}

/// End of the run of bytes equal to `c` starting at `p` (bounded by `e`).
pub open spec fn run_end(s: Seq<u8>, p: int, e: int, c: u8) -> int
    decreases e - p,
{
    if p < 0 || p >= e || e > s.len() || s[p] != c {
        p
    } else {
        run_end(s, p + 1, e, c)
    }
}

pub open spec fn is_digit(b: u8) -> bool {
    48u8 <= b <= 57u8
}

/// End of the run of ASCII digits starting at `p` (bounded by `e`).
pub open spec fn digits_end(s: Seq<u8>, p: int, e: int) -> int
    decreases e - p,
{
    if p < 0 || p >= e || e > s.len() || !is_digit(s[p]) {
        p
    } else {
        digits_end(s, p + 1, e)
    }
}

/// Decimal value of the digits `s[p..q)`.
pub open spec fn digits_value(s: Seq<u8>, p: int, q: int) -> nat
    decreases q - p,
{
    if q <= p {
        0
    } else {
        digits_value(s, p, q - 1) * 10 + (s[q - 1] - 48) as nat
    }
}

/// The block syntax at `m` on a line ending at `e`.
pub open spec fn block_at(s: Seq<u8>, m: int, e: int) -> LineBlock {
    let c = if 0 <= m < e { s[m] } else { 0u8 };
    if m < e && (c == 96u8 || c == 126u8) && run_end(s, m, e, c) - m >= 3 {
        let r = run_end(s, m, e, c);
        let is = skip_ws(s, r, e);
        LineBlock::Fence {
            ch: c,
            count: (r - m) as usize,
            info_start: is as usize,
            info_end: trim_end_pos(s, is, e) as usize,
        }
    } else if m < e && c == 35u8 && run_end(s, m, e, c) - m <= 6 && (run_end(s, m, e, c) == e
        || s[run_end(s, m, e, c)] == 32u8) {
        let r = run_end(s, m, e, c);
        LineBlock::Heading {
            level: (r - m) as u8,
            end: (if r == e { r } else { r + 1 }) as usize,
        }
    } else if m + 1 < e && (c == 45u8 || c == 42u8 || c == 43u8) && s[m + 1] == 32u8 {
        LineBlock::List { end: (m + 2) as usize, ordered: false, ch: c, number: 0 }
    } else if m < e && is_digit(c) && digits_end(s, m, e) - m <= 9 && digits_end(s, m, e) + 1 < e
        && (s[digits_end(s, m, e)] == 46u8 || s[digits_end(s, m, e)] == 41u8) && s[digits_end(
        s,
        m,
        e,
    ) + 1] == 32u8 {
        let d = digits_end(s, m, e);
        LineBlock::List {
            end: (d + 2) as usize,
            ordered: true,
            ch: s[d],
            number: digits_value(s, m, d) as u32,
        }
    } else {
        LineBlock::Plain
    }
}

/// `s[c..c + 3)` is a checkbox: `[ ]`, `[x]` or `[X]`.
pub open spec fn box_bytes(s: Seq<u8>, c: int) -> bool {
    &&& 0 <= c
    &&& c + 3 <= s.len()
    &&& s[c] == 91u8
    &&& (s[c + 1] == 32u8 || s[c + 1] == 120u8 || s[c + 1] == 88u8)
    &&& s[c + 2] == 93u8
}

/// A task checkbox `[ ]`, `[x]` or `[X]` at `c`, followed by a space or the
/// end of the line.
pub open spec fn checkbox_at(s: Seq<u8>, c: int, e: int) -> Option<CheckboxScan> {
    if 0 <= c && c + 2 < e && e <= s.len() && s[c] == 91u8 && (s[c + 1] == 32u8 || s[c + 1]
        == 120u8 || s[c + 1] == 88u8) && s[c + 2] == 93u8 && (c + 3 == e || s[c + 3] == 32u8) {
        Some(
            CheckboxScan {
                start: c as usize,
                end: (if c + 3 == e { c + 3 } else { c + 4 }) as usize,
                checked: s[c + 1] != 32u8,
            },
        )
    } else {
        None
    }
}

/// Context-free scan of the line `s[a..e)`.
pub open spec fn scan_line(s: Seq<u8>, a: int, e: int) -> LineScan {
    let bq = bq_scan(s, a, e);
    let m = run_end(s, bq.1, e, 32u8);
    let block = block_at(s, m, e);
    let checkbox = match block {
        LineBlock::List { end, .. } => checkbox_at(s, end as int, e),
        _ => None,
    };
    let after = match checkbox {
        Some(cb) => cb.end as int,
        None => match block {
            LineBlock::List { end, .. } => end as int,
            _ => e,
        },
    };
    LineScan {
        start: a as usize,
        end: e as usize,
        bq_count: bq.0 as usize,
        bq_end: bq.1 as usize,
        lead: (m - bq.1) as usize,
        block,
        checkbox,
        blank: all_ws(s, bq.1, e),
        empty_item: block is List && all_ws(s, after, e),
    }
}

pub proof fn lemma_bq_scan(s: Seq<u8>, p: int, e: int)
    requires
        0 <= p <= e <= s.len(),
    ensures
        p <= bq_scan(s, p, e).1 <= e,
        0 <= bq_scan(s, p, e).0 <= bq_scan(s, p, e).1 - p,
        forall|j: int| p <= j < bq_scan(s, p, e).1 ==> s[j] == 62u8 || s[j] == 32u8,
    decreases e - p,
{
    if p < e && s[p] == 62u8 {
        let q = if p + 1 < e && s[p + 1] == 32u8 {
            p + 2
        } else {
            p + 1
        };
        lemma_bq_scan(s, q, e);
    }
}

pub proof fn lemma_run_end(s: Seq<u8>, p: int, e: int, c: u8)
    requires
        0 <= p <= e <= s.len(),
    ensures
        p <= run_end(s, p, e, c) <= e,
        forall|q: int| p <= q < run_end(s, p, e, c) ==> s[q] == c,
        run_end(s, p, e, c) < e ==> s[run_end(s, p, e, c)] != c,
    decreases e - p,
{
    if p < e && s[p] == c {
        lemma_run_end(s, p + 1, e, c);
    }
}

pub proof fn lemma_digits_end(s: Seq<u8>, p: int, e: int)
    requires
        0 <= p <= e <= s.len(),
    ensures
        p <= digits_end(s, p, e) <= e,
        forall|q: int| p <= q < digits_end(s, p, e) ==> is_digit(s[q]),
        digits_end(s, p, e) < e ==> !is_digit(s[digits_end(s, p, e)]),
    decreases e - p,
{
    if p < e && is_digit(s[p]) {
        lemma_digits_end(s, p + 1, e);
    }
}

pub proof fn lemma_skip_ws(s: Seq<u8>, a: int, b: int)
    requires
        0 <= a <= b <= s.len(),
    ensures
        a <= skip_ws(s, a, b) <= b,
    decreases b - a,
{
    if a < b && ws_len(s, a, b) > 0 {
        lemma_skip_ws(s, a + ws_len(s, a, b), b);
    }
}

pub proof fn lemma_trim_end_from(s: Seq<u8>, i: int, b: int, last: int)
    requires
        0 <= last <= i <= b <= s.len(),
    ensures
        last <= trim_end_from(s, i, b, last) <= b,
    decreases b - i,
{
    if i < b {
        if ws_len(s, i, b) > 0 {
            lemma_trim_end_from(s, i + ws_len(s, i, b), b, last);
        } else {
            lemma_trim_end_from(s, i + 1, b, i + 1);
        }
    }
}

/// Ranges found by `block_at` lie inside the line, after `m`.
pub proof fn lemma_block_at(s: Seq<u8>, m: int, e: int)
    requires
        0 <= m <= e <= s.len(),
        e <= usize::MAX,
    ensures
        match block_at(s, m, e) {
            LineBlock::Plain => true,
            LineBlock::Fence { info_start, info_end, count, .. } => m + 3 <= m + count <= info_start
                <= info_end <= e && forall|j: int| m <= j < m + count ==> s[j] < 0x80,
            LineBlock::Heading { end, .. } => m < end <= e && forall|j: int| m <= j < end ==> s[j] < 0x80,
            LineBlock::List { end, .. } => m + 2 <= end <= e && forall|j: int| m <= j < end ==> s[j] < 0x80,
        },
{
    if m < e {
        let c = s[m];
        lemma_run_end(s, m, e, c);
        let r = run_end(s, m, e, c);
        lemma_skip_ws(s, r, e);
        lemma_trim_end_from(s, skip_ws(s, r, e), e, skip_ws(s, r, e));
        lemma_digits_end(s, m, e);
    }
}

pub fn bq_scan_exec(s: &Vec<u8>, p: usize, e: usize) -> (r: (usize, usize))
    requires
        p <= e <= s.len(),
    ensures
        r.0 == bq_scan(s@, p as int, e as int).0,
        r.1 == bq_scan(s@, p as int, e as int).1,
        p <= r.1 <= e,
{
    let mut q = p;
    let mut n: usize = 0;
    proof {
        lemma_bq_scan(s@, p as int, e as int);
    }
    while q < e && s[q] == 62u8
        invariant
            p <= q <= e <= s.len(),
            n <= q - p,
            bq_scan(s@, p as int, e as int).0 == n + bq_scan(s@, q as int, e as int).0,
            bq_scan(s@, p as int, e as int).1 == bq_scan(s@, q as int, e as int).1,
        decreases e - q,
    {
        if q + 1 < e && s[q + 1] == 32u8 {
            q = q + 2;
        } else {
            q = q + 1;
        }
        n = n + 1;
    }
    (n, q)
}

pub fn run_end_exec(s: &Vec<u8>, p: usize, e: usize, c: u8) -> (r: usize)
    requires
        p <= e <= s.len(),
    ensures
        r == run_end(s@, p as int, e as int, c),
        p <= r <= e,
{
    let mut q = p;
    while q < e && s[q] == c
        invariant
            p <= q <= e <= s.len(),
            run_end(s@, p as int, e as int, c) == run_end(s@, q as int, e as int, c),
        decreases e - q,
    {
        q = q + 1;
    }
    q
}

pub fn digits_end_exec(s: &Vec<u8>, p: usize, e: usize) -> (r: usize)
    requires
        p <= e <= s.len(),
    ensures
        r == digits_end(s@, p as int, e as int),
        p <= r <= e,
{
    let mut q = p;
    while q < e && 48u8 <= s[q] && s[q] <= 57u8
        invariant
            p <= q <= e <= s.len(),
            digits_end(s@, p as int, e as int) == digits_end(s@, q as int, e as int),
        decreases e - q,
    {
        q = q + 1;
    }
    q
}

pub proof fn lemma_digits_value_bound(s: Seq<u8>, p: int, q: int)
    requires
        0 <= p <= q <= s.len(),
        forall|i: int| p <= i < q ==> is_digit(s[i]),
    ensures
        digits_value(s, p, q) < pow10((q - p) as nat),
    decreases q - p,
{
    if q > p {
        lemma_digits_value_bound(s, p, q - 1);
        assert(pow10((q - p) as nat) == 10 * pow10((q - 1 - p) as nat));
    }
}

pub open spec fn pow10(n: nat) -> nat
    decreases n,
{
    if n == 0 {
        1
    } else {
        10 * pow10((n - 1) as nat)
    }
}

pub proof fn lemma_pow10_mono(a: nat, b: nat)
    requires
        a <= b,
    ensures
        pow10(a) <= pow10(b),
    decreases b,
{
    if a < b {
        lemma_pow10_mono(a, (b - 1) as nat);
    }
}

/// Value of at most nine decimal digits.
pub fn digits_value_exec(s: &Vec<u8>, p: usize, q: usize) -> (v: u32)
    requires
        p <= q <= s.len(),
        q - p <= 9,
        forall|i: int| p <= i < q ==> is_digit(s@[i]),
    ensures
        v == digits_value(s@, p as int, q as int),
{
    let mut v: u32 = 0;
    let mut i = p;
    while i < q
        invariant
            p <= i <= q <= s.len(),
            q - p <= 9,
            forall|j: int| p <= j < q ==> is_digit(s@[j]),
            v == digits_value(s@, p as int, i as int),
        decreases q - i,
    {
        proof {
            lemma_digits_value_bound(s@, p as int, i as int);
            lemma_pow10_mono((i - p) as nat, 8);
            reveal_with_fuel(pow10, 9);
            assert(pow10(8) == 100000000);
        }
        v = v * 10 + (s[i] - 48) as u32;
        i = i + 1;
    }
    v
}

pub fn checkbox_at_exec(s: &Vec<u8>, c: usize, e: usize) -> (r: Option<CheckboxScan>)
    requires
        c <= e <= s.len(),
    ensures
        r == checkbox_at(s@, c as int, e as int),
{
    if e - c > 2 && s[c] == 91u8 && (s[c + 1] == 32u8 || s[c + 1] == 120u8 || s[c + 1] == 88u8)
        && s[c + 2] == 93u8 && (c + 3 == e || s[c + 3] == 32u8) {
        Some(
            CheckboxScan {
                start: c,
                end: if c + 3 == e {
                    c + 3
                } else {
                    c + 4
                },
                checked: s[c + 1] != 32u8,
            },
        )
    } else {
        None
    }
}

pub fn block_at_exec(s: &Vec<u8>, m: usize, e: usize) -> (r: LineBlock)
    requires
        m <= e <= s.len(),
    ensures
        r == block_at(s@, m as int, e as int),
{
    if m >= e {
        return LineBlock::Plain;
    }
    let c = s[m];
    if c == 96u8 || c == 126u8 {
        let r = run_end_exec(s, m, e, c);
        if r - m >= 3 {
            let is = skip_ws_from(s, r, e);
            let ie = trim_end_at(s, is, e);
            return LineBlock::Fence { ch: c, count: r - m, info_start: is, info_end: ie };
        }
    }
    if c == 35u8 {
        let r = run_end_exec(s, m, e, c);
        if r - m <= 6 && (r == e || s[r] == 32u8) {
            return LineBlock::Heading {
                level: (r - m) as u8,
                end: if r == e {
                    r
                } else {
                    r + 1
                },
            };
        }
    }
    if e - m > 1 && (c == 45u8 || c == 42u8 || c == 43u8) && s[m + 1] == 32u8 {
        return LineBlock::List { end: m + 2, ordered: false, ch: c, number: 0 };
    }
    if 48u8 <= c && c <= 57u8 {
        let d = digits_end_exec(s, m, e);
        proof {
            lemma_digits_end(s@, m as int, e as int);
        }
        if d - m <= 9 && e - d > 1 && (s[d] == 46u8 || s[d] == 41u8) && s[d + 1] == 32u8 {
            let v = digits_value_exec(s, m, d);
            return LineBlock::List { end: d + 2, ordered: true, ch: s[d], number: v };
        }
    }
    LineBlock::Plain
}

/// Context-free scan of the line `s[a..e)`.
pub fn scan_line_exec(s: &Vec<u8>, a: usize, e: usize) -> (r: LineScan)
    requires
        a <= e <= s.len(),
    ensures
        r == scan_line(s@, a as int, e as int),
        a <= r.bq_end <= e,
        r.bq_end + r.lead <= e,
{
    let bq = bq_scan_exec(s, a, e);
    let m = run_end_exec(s, bq.1, e, 32u8);
    let block = block_at_exec(s, m, e);
    let checkbox = match block {
        LineBlock::List { end, .. } => {
            proof {
                lemma_block_at(s@, m as int, e as int);
            }
            checkbox_at_exec(s, end, e)
        },
        _ => None,
    };
    let after = match checkbox {
        Some(cb) => cb.end,
        None => match block {
            LineBlock::List { end, .. } => end,
            _ => e,
        },
    };
    let blank = is_all_ws(s, bq.1, e);
    let empty_item = match block {
        LineBlock::List { .. } => is_all_ws(s, after, e),
        _ => false,
    };
    LineScan {
        start: a,
        end: e,
        bq_count: bq.0,
        bq_end: bq.1,
        lead: m - bq.1,
        block,
        checkbox,
        blank,
        empty_item,
    }
}

} // verus!
