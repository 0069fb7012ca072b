//! Tab cycling: the line prefixes that Tab and Shift+Tab cycle through,
//! found from the structure that holds the line above the cursor.
//!
//! For each enclosing list item (outermost first) the cycle offers a
//! sibling marker (numbers incremented) and a paragraph indent under it;
//! then a marker nested in the innermost item, and finally no prefix. An
//! enclosing block quote prefixes every state and is itself the first one.

use vstd::prelude::*;
use crate::outline::{Item, Outline, outline, outline_of};
use crate::text::{ascii, line_table, tab_view};
use crate::outline::{wf_ostate, item_wf};
use crate::marker::scan_line;

verus! {

/// The items enclosing item `i`, outermost first, ending with `i`.
pub open spec fn item_chain(items: Seq<Item>, i: int) -> Seq<usize>
    decreases i,
{
    if i < 0 || i >= items.len() {
        seq![]
    } else {
        match items[i].parent {
            Some(p) => if p < i {
                item_chain(items, p as int).push(i as usize)
            } else {
                seq![i as usize]
            },
            None => seq![i as usize],
        }
    }
}

/// `n` spaces.
pub open spec fn spaces(n: int) -> Seq<u8> {
    Seq::new(if n > 0 { n as nat } else { 0 }, |_i: int| 32u8)
}

/// Decimal digits of `n`.
pub open spec fn decimal(n: nat) -> Seq<u8>
    decreases n,
{
    if n < 10 {
        seq![(48 + n) as u8]
    } else {
        decimal(n / 10).push((48 + n % 10) as u8)
    }
}

/// The task box the cycle writes: checked when the cursor's line has a
/// checked box, unchecked otherwise.
pub open spec fn box_label(cb: Option<bool>) -> Seq<u8> {
    if cb == Some(true) {
        seq![91u8, 120u8, 93u8, 32u8]
    } else {
        seq![91u8, 32u8, 93u8, 32u8]
    }
}

pub open spec fn box_part(it: Item, cb: Option<bool>) -> Seq<u8> {
    if it.task is Some {
        box_label(cb)
    } else {
        seq![]
    }
}

/// Marker of a sibling of `it`: the same bullet, or the next number.
pub open spec fn sibling_text(s: Seq<u8>, it: Item, cb: Option<bool>) -> Seq<u8> {
    if it.ordered {
        decimal((it.number + 1) as nat) + s.subrange(it.marker_end - 2, it.marker_end as int) + box_part(it, cb)
    } else {
        s.subrange(it.marker_start as int, it.marker_end as int) + box_part(it, cb)
    }
}

/// Marker of an item nested in `it`: the same bullet, or number 1.
pub open spec fn nested_text(s: Seq<u8>, it: Item, cb: Option<bool>) -> Seq<u8> {
    if it.ordered {
        seq![49u8] + s.subrange(it.marker_end - 2, it.marker_end as int) + box_part(it, cb)
    } else {
        s.subrange(it.marker_start as int, it.marker_end as int) + box_part(it, cb)
    }
}

/// Column of `it`'s marker, not counting a block quote prefix of `bq` bytes.
pub open spec fn level_indent(s: Seq<u8>, it: Item, bq: int) -> int {
    let abs = it.marker_start - line_table(s)[it.line as int].0;
    if abs > bq {
        abs - bq
    } else {
        0
    }
}

/// The two states each enclosing item offers, from `chain[j]` on.
pub open spec fn level_states(s: Seq<u8>, items: Seq<Item>, chain: Seq<usize>, bq: Seq<u8>, cb: Option<bool>, j: int) -> Seq<Seq<u8>>
    decreases chain.len() - j,
{
    if j < 0 || j >= chain.len() {
        seq![]
    } else {
        let it = items[chain[j] as int];
        let ind = level_indent(s, it, bq.len() as int);
        seq![
            bq + spaces(ind) + sibling_text(s, it, cb),
            bq + spaces(ind + (it.marker_end - it.marker_start)),
        ] + level_states(s, items, chain, bq, cb, j + 1)
    }
}

/// The prefixes Tab cycles through on line `k`; `cb` is the state of the
/// line's own checkbox.
pub open spec fn cycle_states(s: Seq<u8>, k: int, cb: Option<bool>) -> Seq<Seq<u8>> {
    let o = outline(s);
    let l = if k > 0 { k - 1 } else { 0 };
    let sc = o.lines[l].scan;
    let bq = s.subrange(sc.start as int, sc.bq_end as int);
    let chain = match o.lines[l].item {
        Some(i) => item_chain(o.items, i as int),
        None => seq![],
    };
    if chain.len() == 0 && bq.len() == 0 {
        seq![seq![]]
    } else {
        (if bq.len() > 0 { seq![bq] } else { seq![] }) + level_states(s, o.items, chain, bq, cb, 0) + (if chain.len() > 0 {
            let it = o.items[chain.last() as int];
            seq![bq + spaces(level_indent(s, it, bq.len() as int) + (it.marker_end - it.marker_start)) + nested_text(s, it, cb)]
        } else {
            seq![]
        }) + seq![seq![]]
    }
}

/// The deep view of a list of byte strings.
pub open spec fn strs_view(v: Seq<Vec<u8>>) -> Seq<Seq<u8>> {
    v.map_values(|x: Vec<u8>| x@)
}

/// Decimal digits computed.
pub fn decimal_exec(n: u64) -> (r: Vec<u8>)
    ensures
        r@ == decimal(n as nat),
    decreases n,
{
    if n < 10 {
        vec![(48 + n) as u8]
    } else {
        let mut v = decimal_exec(n / 10);
        v.push((48 + n % 10) as u8);
        v
    }
}

pub(crate) fn push_all(v: &mut Vec<u8>, s: &Vec<u8>, a: usize, b: usize)
    requires
        a <= b <= s@.len(),
    ensures
        final(v)@ == old(v)@ + s@.subrange(a as int, b as int),
{
    let mut i = a;
    while i < b
        invariant
            a <= i <= b <= s@.len(),
            v@ == old(v)@ + s@.subrange(a as int, i as int),
        decreases b - i,
    {
        v.push(s[i]);
        i = i + 1;
        assert(v@ =~= old(v)@ + s@.subrange(a as int, i as int));
    }
}

pub(crate) fn push_spaces(v: &mut Vec<u8>, n: usize)
    ensures
        final(v)@ == old(v)@ + spaces(n as int),
{
    let mut i: usize = 0;
    while i < n
        invariant
            i <= n,
            v@ == old(v)@ + spaces(i as int),
        decreases n - i,
    {
        v.push(32u8);
        i = i + 1;
        assert(v@ =~= old(v)@ + spaces(i as int));
    }
}

pub(crate) fn push_vec(v: &mut Vec<u8>, t: &Vec<u8>)
    ensures
        final(v)@ == old(v)@ + t@,
{
    let mut i: usize = 0;
    while i < t.len()
        invariant
            i <= t@.len(),
            v@ == old(v)@ + t@.subrange(0, i as int),
        decreases t@.len() - i,
    {
        v.push(t[i]);
        i = i + 1;
        assert(v@ =~= old(v)@ + t@.subrange(0, i as int));
    }
    assert(t@.subrange(0, t@.len() as int) =~= t@);
}

/// `item_chain` computed.
pub fn item_chain_exec(items: &Vec<Item>, i: usize) -> (r: Vec<usize>)
    requires
        i < items@.len(),
    ensures
        r@ == item_chain(items@, i as int),
        forall|j: int| 0 <= j < r@.len() ==> (#[trigger] r@[j] as int) < items@.len(),
        r@.len() > 0,
        r@.last() == i,
    decreases i,
{
    match items[i].parent {
        Some(p) => {
            if p < i {
                let mut v = item_chain_exec(items, p);
                v.push(i);
                v
            } else {
                vec![i]
            }
        },
        None => vec![i],
    }
}

/// The marker text of an item, as the cycle writes it for a sibling
/// (`sibling`) or for a nested item.
fn marker_text(s: &Vec<u8>, it: &Item, cb: Option<bool>, sibling: bool) -> (r: Vec<u8>)
    requires
        it.marker_start + 2 <= it.marker_end <= s@.len(),
    ensures
        r@ == if sibling { sibling_text(s@, *it, cb) } else { nested_text(s@, *it, cb) },
{
    let mut v: Vec<u8> = Vec::new();
    if it.ordered {
        if sibling {
            let d = decimal_exec(it.number as u64 + 1);
            push_vec(&mut v, &d);
        } else {
            v.push(49u8);
        }
        push_all(&mut v, s, it.marker_end - 2, it.marker_end);
    } else {
        push_all(&mut v, s, it.marker_start, it.marker_end);
    }
    if it.task.is_some() {
        let lab = if cb == Some(true) {
            vec![91u8, 120u8, 93u8, 32u8]
        } else {
            vec![91u8, 32u8, 93u8, 32u8]
        };
        assert(lab@ =~= box_label(cb));
        push_vec(&mut v, &lab);
    }
    assert(v@ =~= if sibling { sibling_text(s@, *it, cb) } else { nested_text(s@, *it, cb) });
    v
}

/// Indent of an item's marker inside a block quote prefix of `bq` bytes,
/// given its line's start `ls`.
fn indent_of(it: &Item, ls: usize, bq: usize) -> (r: usize)
    ensures
        r as int == (if it.marker_start - ls > bq { it.marker_start - ls - bq } else { 0int }),
        r <= it.marker_start,
{
    if it.marker_start >= ls && it.marker_start - ls > bq {
        it.marker_start - ls - bq
    } else {
        0
    }
}

/// The sibling state and the indent state of one enclosing item.
fn level_pair(s: &Vec<u8>, it: &Item, ls: usize, bq: &Vec<u8>, cb: Option<bool>) -> (r: (Vec<u8>, Vec<u8>))
    requires
        it.marker_start + 2 <= it.marker_end <= s@.len(),
        ls == line_table(s@)[it.line as int].0,
    ensures
        r.0@ == bq@ + spaces(level_indent(s@, *it, bq@.len() as int)) + sibling_text(s@, *it, cb),
        r.1@ == bq@ + spaces(level_indent(s@, *it, bq@.len() as int) + (it.marker_end - it.marker_start)),
{
    let ind = indent_of(it, ls, bq.len());
    let mut a: Vec<u8> = bq.clone();
    push_spaces(&mut a, ind);
    let mt = marker_text(s, it, cb, true);
    push_vec(&mut a, &mt);
    let mut b: Vec<u8> = bq.clone();
    push_spaces(&mut b, ind + (it.marker_end - it.marker_start));
    (a, b)
}

/// The nested state of the innermost enclosing item.
fn nested_state(s: &Vec<u8>, it: &Item, ls: usize, bq: &Vec<u8>, cb: Option<bool>) -> (r: Vec<u8>)
    requires
        it.marker_start + 2 <= it.marker_end <= s@.len(),
        ls == line_table(s@)[it.line as int].0,
    ensures
        r@ == bq@ + spaces(level_indent(s@, *it, bq@.len() as int) + (it.marker_end - it.marker_start)) + nested_text(s@, *it, cb),
{
    let ind = indent_of(it, ls, bq.len());
    let mut c: Vec<u8> = bq.clone();
    push_spaces(&mut c, ind + (it.marker_end - it.marker_start));
    let mt = marker_text(s, it, cb, false);
    push_vec(&mut c, &mt);
    c
}

/// The states of all enclosing items, `level_states` computed.
fn levels_exec(s: &Vec<u8>, o: &Outline, chain: &Vec<usize>, bq: &Vec<u8>, cb: Option<bool>) -> (r: Vec<Vec<u8>>)
    requires
        outline_of(s@, o),
        forall|q: int| 0 <= q < chain@.len() ==> (#[trigger] chain@[q] as int) < o.items@.len(),
    ensures
        strs_view(r@) =~= level_states(s@, outline(s@).items, chain@, bq@, cb, 0),
{
    proof {
        crate::text::lemma_line_table_wf(s@);
        lemma_level_states(s@, outline(s@).items, chain@, bq@, cb, 0);
    }
    let ghost t = line_table(s@);
    let ghost items = outline(s@).items;
    let ghost all = level_states(s@, items, chain@, bq@, cb, 0);
    assert forall|jj: int| 0 <= jj < chain@.len() implies {
        let it = items[chain@[jj] as int];
        let ind = level_indent(s@, it, bq@.len() as int);
        &&& #[trigger] all[2 * jj] == bq@ + spaces(ind) + sibling_text(s@, it, cb)
        &&& all[2 * jj + 1] == bq@ + spaces(ind + (it.marker_end - it.marker_start))
    } by {
        assert(2 * (jj - 0) == 2 * jj);
        assert(level_states(s@, items, chain@, bq@, cb, 0)[2 * (jj - 0)] == all[2 * jj]);
    }
    let mut r: Vec<Vec<u8>> = Vec::new();
    let mut j: usize = 0;
    while j < chain.len()
        invariant
            outline_of(s@, o),
            items == outline(s@).items,
            t == line_table(s@),
            all == level_states(s@, items, chain@, bq@, cb, 0),
            all.len() == 2 * chain@.len(),
            forall|jj: int| 0 <= jj < chain@.len() ==> {
                let it = items[chain@[jj] as int];
                let ind = level_indent(s@, it, bq@.len() as int);
                &&& #[trigger] all[2 * jj] == bq@ + spaces(ind) + sibling_text(s@, it, cb)
                &&& all[2 * jj + 1] == bq@ + spaces(ind + (it.marker_end - it.marker_start))
            },
            j <= chain@.len(),
            forall|q: int| 0 <= q < chain@.len() ==> (#[trigger] chain@[q] as int) < o.items@.len(),
            strs_view(r@) =~= all.subrange(0, 2 * j as int),
        decreases chain@.len() - j,
    {
        let it = o.items[chain[j]];
        assert(it == items[chain@[j as int] as int]);
        assert(crate::outline::item_wf(s@, it, chain@[j as int] as int, t.len() as int));
        let ls = o.table[it.line].0;
        assert(ls == crate::text::tab_view(o.table@)[it.line as int].0);
        let pair = level_pair(s, &it, ls, bq, cb);
        let ghost before = strs_view(r@);
        r.push(pair.0);
        r.push(pair.1);
        assert(all[2 * j as int] == pair.0@);
        assert(all[2 * j + 1] == pair.1@);
        assert(all.subrange(0, 2 * j + 2) =~= all.subrange(0, 2 * j as int).push(pair.0@).push(pair.1@));
        j = j + 1;
    }
    assert(all.subrange(0, 2 * chain@.len() as int) =~= all);
    r
}

/// `cycle_states` computed.
pub fn cycle_states_exec(s: &Vec<u8>, o: &Outline, k: usize, cb: Option<bool>) -> (r: Vec<Vec<u8>>)
    requires
        outline_of(s@, o),
        k < o.table@.len(),
    ensures
        strs_view(r@) == cycle_states(s@, k as int, cb),
{
    proof {
        crate::text::lemma_line_table_wf(s@);
    }
    let ghost t = line_table(s@);
    let l = if k > 0 {
        k - 1
    } else {
        0
    };
    let li = o.lines[l];
    let sc = li.scan;
    assert(li.scan == crate::marker::scan_line(s@, t[l as int].0, t[l as int].1));
    proof {
        crate::outline::lemma_scan_line(s@, t[l as int].0, t[l as int].1);
    }
    let mut bq: Vec<u8> = Vec::new();
    push_all(&mut bq, s, sc.start, sc.bq_end);
    assert(bq@ =~= s@.subrange(sc.start as int, sc.bq_end as int));
    assert(crate::outline::line_info_wf(li, o.items@.len() as int, o.blocks@.len() as int));
    let chain: Vec<usize> = match li.item {
        Some(i) => item_chain_exec(&o.items, i),
        None => Vec::new(),
    };
    let ghost o_s = outline(s@);
    assert(o_s.lines[l as int] == li);
    assert(chain@ == match o_s.lines[l as int].item {
        Some(i) => item_chain(o_s.items, i as int),
        None => seq![],
    });
    let mut r: Vec<Vec<u8>> = Vec::new();
    if chain.len() == 0 && bq.len() == 0 {
        r.push(Vec::new());
        assert(strs_view(r@) =~= seq![seq![]]);
        return r;
    }
    if bq.len() > 0 {
        r.push(bq.clone());
    }
    let ghost head = strs_view(r@);
    assert(head =~= (if bq@.len() > 0 { seq![bq@] } else { seq![] }));
    let lv = levels_exec(s, o, &chain, &bq, cb);
    let mut j: usize = 0;
    while j < lv.len()
        invariant
            j <= lv@.len(),
            strs_view(r@) =~= head + strs_view(lv@).subrange(0, j as int),
        decreases lv@.len() - j,
    {
        let x = lv[j].clone();
        assert(x@ =~= lv@[j as int]@);
        let ghost before = r@;
        r.push(x);
        assert(strs_view(r@) =~= strs_view(before).push(x@));
        assert(strs_view(lv@).subrange(0, j + 1) =~= strs_view(lv@).subrange(0, j as int).push(lv@[j as int]@));
        assert(strs_view(r@) =~= head + strs_view(lv@).subrange(0, j + 1));
        j = j + 1;
    }
    assert(strs_view(lv@).subrange(0, lv@.len() as int) =~= strs_view(lv@));
    let ghost mid = strs_view(r@);
    if chain.len() > 0 {
        let it = o.items[chain[chain.len() - 1]];
        assert(crate::outline::item_wf(s@, it, chain@[chain@.len() - 1] as int, t.len() as int));
        let ls = o.table[it.line].0;
        assert(ls == crate::text::tab_view(o.table@)[it.line as int].0);
        let c = nested_state(s, &it, ls, &bq, cb);
        r.push(c);
    }
    r.push(Vec::new());
    assert(strs_view(r@) =~= cycle_states(s@, k as int, cb));
    r
}


/// Concatenations of ASCII texts are ASCII.
pub proof fn lemma_ascii_concat(a: Seq<u8>, b: Seq<u8>)
    requires
        ascii(a),
        ascii(b),
    ensures
        ascii(a + b),
{
    assert forall|i: int| 0 <= i < (a + b).len() implies (a + b)[i] < 0x80 by {
        if i < a.len() {
            assert((a + b)[i] == a[i]);
        } else {
            assert((a + b)[i] == b[i - a.len()]);
        }
    }
}

pub proof fn lemma_decimal_ascii(n: nat)
    ensures
        ascii(decimal(n)),
    decreases n,
{
    if n >= 10 {
        lemma_decimal_ascii(n / 10);
        let d = decimal(n / 10);
        let e = d.push((48 + n % 10) as u8);
        assert forall|i: int| 0 <= i < e.len() implies #[trigger] e[i] < 0x80 by {
            if i < d.len() {
                assert(e[i] == d[i]);
            }
        }
    }
}

/// Every item of a chain is in range.
pub proof fn lemma_item_chain_range(items: Seq<Item>, i: int)
    ensures
        forall|j: int| 0 <= j < item_chain(items, i).len() ==> (#[trigger] item_chain(items, i)[j] as int) < items.len(),
    decreases i,
{
    if 0 <= i < items.len() {
        match items[i].parent {
            Some(p) => if p < i {
                lemma_item_chain_range(items, p as int);
                let c = item_chain(items, p as int);
                assert forall|j: int| 0 <= j < c.push(i as usize).len() implies (#[trigger] c.push(i as usize)[j] as int) < items.len() by {
                    if j < c.len() {
                        assert(c.push(i as usize)[j] == c[j]);
                    }
                }
            },
            None => {},
        }
    }
}

/// The marker texts of an item whose marker bytes are ASCII are ASCII.
proof fn lemma_marker_texts_ascii(s: Seq<u8>, it: Item, cb: Option<bool>)
    requires
        it.marker_start + 2 <= it.marker_end <= s.len(),
        forall|j: int| it.marker_start <= j < it.marker_end ==> s[j] < 0x80,
    ensures
        ascii(sibling_text(s, it, cb)),
        ascii(nested_text(s, it, cb)),
{
    let tail = s.subrange(it.marker_end - 2, it.marker_end as int);
    let whole = s.subrange(it.marker_start as int, it.marker_end as int);
    assert(ascii(tail));
    assert(ascii(whole));
    assert(ascii(box_label(cb)));
    assert(ascii(box_part(it, cb)));
    assert(ascii(seq![49u8]));
    lemma_decimal_ascii((it.number + 1) as nat);
    lemma_ascii_concat(decimal((it.number + 1) as nat), tail);
    lemma_ascii_concat(decimal((it.number + 1) as nat) + tail, box_part(it, cb));
    lemma_ascii_concat(seq![49u8], tail);
    lemma_ascii_concat(seq![49u8] + tail, box_part(it, cb));
    lemma_ascii_concat(whole, box_part(it, cb));
}

/// The states of enclosing items with ASCII markers, under an ASCII block
/// quote prefix, are ASCII.
proof fn lemma_level_states_ascii(s: Seq<u8>, items: Seq<Item>, chain: Seq<usize>, bq: Seq<u8>, cb: Option<bool>, j0: int)
    requires
        0 <= j0 <= chain.len(),
        ascii(bq),
        forall|j: int| 0 <= j < chain.len() ==> (#[trigger] chain[j] as int) < items.len(),
        forall|i: int| 0 <= i < items.len() ==> item_wf(s, #[trigger] items[i], i, line_table(s).len() as int),
    ensures
        forall|i: int| 0 <= i < level_states(s, items, chain, bq, cb, j0).len() ==> ascii(#[trigger] level_states(s, items, chain, bq, cb, j0)[i]),
    decreases chain.len() - j0,
{
    if j0 < chain.len() {
        lemma_level_states_ascii(s, items, chain, bq, cb, j0 + 1);
        let it = items[chain[j0] as int];
        assert(item_wf(s, it, chain[j0] as int, line_table(s).len() as int));
        let ind = level_indent(s, it, bq.len() as int);
        lemma_marker_texts_ascii(s, it, cb);
        assert(ascii(spaces(ind)));
        assert(ascii(spaces(ind + (it.marker_end - it.marker_start))));
        lemma_ascii_concat(bq, spaces(ind));
        lemma_ascii_concat(bq + spaces(ind), sibling_text(s, it, cb));
        lemma_ascii_concat(bq, spaces(ind + (it.marker_end - it.marker_start)));
        let h = seq![
            bq + spaces(ind) + sibling_text(s, it, cb),
            bq + spaces(ind + (it.marker_end - it.marker_start)),
        ];
        let r = level_states(s, items, chain, bq, cb, j0 + 1);
        assert(level_states(s, items, chain, bq, cb, j0) == h + r);
        assert forall|i: int| 0 <= i < (h + r).len() implies ascii(#[trigger] (h + r)[i]) by {
            if i >= 2 {
                assert((h + r)[i] == r[i - 2]);
            }
        }
    }
}

/// Every state of the cycle is ASCII.
pub proof fn lemma_cycle_states_ascii(s: Seq<u8>, k: int, cb: Option<bool>)
    requires
        0 <= k < line_table(s).len(),
        s.len() <= usize::MAX,
        wf_ostate(s, outline(s), line_table(s).len() as int, s.len() as int),
        forall|j: int| 0 <= j < line_table(s).len() ==> (#[trigger] outline(s).lines[j]).scan == scan_line(s, line_table(s)[j].0, line_table(s)[j].1),
    ensures
        forall|i: int| 0 <= i < cycle_states(s, k, cb).len() ==> ascii(#[trigger] cycle_states(s, k, cb)[i]),
{
    let o = outline(s);
    let t = line_table(s);
    crate::text::lemma_line_table_wf(s);
    let l = if k > 0 { k - 1 } else { 0 };
    let sc = o.lines[l].scan;
    assert(sc == scan_line(s, t[l].0, t[l].1));
    crate::outline::lemma_scan_line(s, t[l].0, t[l].1);
    let bq = s.subrange(sc.start as int, sc.bq_end as int);
    assert(ascii(bq));
    assert(crate::outline::line_info_wf(o.lines[l], o.items.len() as int, o.blocks.len() as int));
    let chain = match o.lines[l].item {
        Some(i) => item_chain(o.items, i as int),
        None => seq![],
    };
    match o.lines[l].item {
        Some(i) => lemma_item_chain_range(o.items, i as int),
        None => {},
    }
    let cs = cycle_states(s, k, cb);
    if !(chain.len() == 0 && bq.len() == 0) {
        lemma_level_states_ascii(s, o.items, chain, bq, cb, 0);
        let a = if bq.len() > 0 { seq![bq] } else { seq![] };
        let lv = level_states(s, o.items, chain, bq, cb, 0);
        let c = if chain.len() > 0 {
            let it = o.items[chain.last() as int];
            seq![bq + spaces(level_indent(s, it, bq.len() as int) + (it.marker_end - it.marker_start)) + nested_text(s, it, cb)]
        } else {
            seq![]
        };
        if chain.len() > 0 {
            let it = o.items[chain.last() as int];
            assert(item_wf(s, it, chain.last() as int, t.len() as int));
            lemma_marker_texts_ascii(s, it, cb);
            let sp = spaces(level_indent(s, it, bq.len() as int) + (it.marker_end - it.marker_start));
            assert(ascii(sp));
            lemma_ascii_concat(bq, sp);
            lemma_ascii_concat(bq + sp, nested_text(s, it, cb));
        }
        let z: Seq<Seq<u8>> = seq![seq![]];
        assert(cs == a + lv + c + z);
        assert forall|i: int| 0 <= i < cs.len() implies ascii(#[trigger] cs[i]) by {
            if i < a.len() {
                assert(cs[i] == a[i]);
            } else if i < a.len() + lv.len() {
                assert(cs[i] == lv[i - a.len()]);
            } else if i < a.len() + lv.len() + c.len() {
                assert(cs[i] == c[i - a.len() - lv.len()]);
            } else {
                assert(cs[i] == z[i - a.len() - lv.len() - c.len()]);
            }
        }
    }
}

pub proof fn lemma_level_states(s: Seq<u8>, items: Seq<Item>, chain: Seq<usize>, bq: Seq<u8>, cb: Option<bool>, j0: int)
    requires
        0 <= j0 <= chain.len(),
    ensures
        level_states(s, items, chain, bq, cb, j0).len() == 2 * (chain.len() - j0),
        forall|j: int| j0 <= j < chain.len() ==> {
            let it = items[chain[j] as int];
            let ind = level_indent(s, it, bq.len() as int);
            &&& #[trigger] level_states(s, items, chain, bq, cb, j0)[2 * (j - j0)] == bq + spaces(ind) + sibling_text(s, it, cb)
            &&& level_states(s, items, chain, bq, cb, j0)[2 * (j - j0) + 1] == bq + spaces(ind + (it.marker_end - it.marker_start))
        },
    decreases chain.len() - j0,
{
    if j0 < chain.len() {
        lemma_level_states(s, items, chain, bq, cb, j0 + 1);
        let r = level_states(s, items, chain, bq, cb, j0 + 1);
        let l = level_states(s, items, chain, bq, cb, j0);
        assert forall|j: int| j0 <= j < chain.len() implies {
            let it = items[chain[j] as int];
            let ind = level_indent(s, it, bq.len() as int);
            &&& #[trigger] level_states(s, items, chain, bq, cb, j0)[2 * (j - j0)] == bq + spaces(ind) + sibling_text(s, it, cb)
            &&& level_states(s, items, chain, bq, cb, j0)[2 * (j - j0) + 1] == bq + spaces(ind + (it.marker_end - it.marker_start))
        } by {
            if j > j0 {
                assert(l[2 * (j - j0)] == r[2 * (j - (j0 + 1))]);
                assert(l[2 * (j - j0) + 1] == r[2 * (j - (j0 + 1)) + 1]);
            }
        }
    }
}

} // verus!
