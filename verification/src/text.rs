//! Byte-level text model: lines, whitespace and UTF-8 character boundaries.

use vstd::prelude::*;
use vstd::utf8::*;

verus! {

/// Bytes of a string.
pub fn str_bytes(t: &str) -> (r: Vec<u8>)
    ensures
        r@ == encode_utf8(t@),
        valid_utf8(r@),
{
    proof {
        encode_utf8_valid_utf8(t@);
    }
    vstd::slice::slice_to_vec(t.as_bytes())
}

/// The text as a `String`: `String::from_utf8` on bytes that are valid
/// UTF-8, which then decode to the string's characters.
#[verifier::external_body]
pub(crate) fn string_from_utf8(bytes: Vec<u8>) -> (r: String)
    requires
        valid_utf8(bytes@),
    ensures
        r@ == decode_utf8(bytes@),
{
    String::from_utf8(bytes).unwrap_or_default()
}

/// The UTF-8 encoding of one character.
pub fn char_bytes(c: char) -> (r: Vec<u8>)
    ensures
        r@ == encode_utf8(seq![c]),
{
    let u = c as u32;
    proof {
        char_is_scalar(c);
    }
    let mut r: Vec<u8> = Vec::new();
    if u <= 0x7F {
        r.push((u & 0x7F) as u8);
    } else if u <= 0x7FF {
        r.push(0xC0 | ((u >> 6) & 0x1F) as u8);
        r.push(0x80 | (u & 0x3F) as u8);
    } else if u <= 0xFFFF {
        r.push(0xE0 | ((u >> 12) & 0x0F) as u8);
        r.push(0x80 | ((u >> 6) & 0x3F) as u8);
        r.push(0x80 | (u & 0x3F) as u8);
    } else {
        r.push(0xF0 | ((u >> 18) & 0x7) as u8);
        r.push(0x80 | ((u >> 12) & 0x3F) as u8);
        r.push(0x80 | ((u >> 6) & 0x3F) as u8);
        r.push(0x80 | (u & 0x3F) as u8);
    }
    proof {
        assert(seq![c].drop_first() =~= Seq::<char>::empty());
        assert(r@ =~= encode_scalar(u));
        assert(encode_utf8(seq![c]) =~= encode_scalar(u) + encode_utf8(Seq::<char>::empty()));
    }
    r
}

/// Byte length of the Unicode whitespace character (as `char::is_whitespace`
/// defines it) encoded at `s[i]`, looking only at bytes before `end`;
/// 0 when no whitespace character starts there.
pub open spec fn ws_len(s: Seq<u8>, i: int, end: int) -> int {
    if i < 0 || i >= end || end > s.len() {
        0
    } else if (0x09 <= s[i] <= 0x0d) || s[i] == 0x20 {
        1
    } else if s[i] == 0xc2 && i + 1 < end && (s[i + 1] == 0x85 || s[i + 1] == 0xa0) {
        2
    } else if s[i] == 0xe1 && end - i > 2 && s[i + 1] == 0x9a && s[i + 2] == 0x80 {
        3
    } else if s[i] == 0xe2 && end - i > 2 && s[i + 1] == 0x80 && ((0x80 <= s[i + 2] <= 0x8a)
        || s[i + 2] == 0xa8 || s[i + 2] == 0xa9 || s[i + 2] == 0xaf) {
        3
    } else if s[i] == 0xe2 && end - i > 2 && s[i + 1] == 0x81 && s[i + 2] == 0x9f {
        3
    } else if s[i] == 0xe3 && end - i > 2 && s[i + 1] == 0x80 && s[i + 2] == 0x80 {
        3
    } else {
        0
    }
}

/// The bytes `s[a..b)` are a (possibly empty) run of whitespace characters.
pub open spec fn all_ws(s: Seq<u8>, a: int, b: int) -> bool
    decreases b - a,
{
    if a >= b {
        true
    } else {
        ws_len(s, a, b) > 0 && all_ws(s, a + ws_len(s, a, b), b)
    }
}

/// First position at or after `a` (and before `b`) that does not start a
/// whitespace character: the start of the text left by `trim_start`.
pub open spec fn skip_ws(s: Seq<u8>, a: int, b: int) -> int
    decreases b - a,
{
    if a >= b || ws_len(s, a, b) == 0 {
        a
    } else {
        skip_ws(s, a + ws_len(s, a, b), b)
    }
}

/// Scanning `s[i..b)` forward, the end of the last byte that does not
/// belong to a whitespace character, or `last` when there is none.
pub open spec fn trim_end_from(s: Seq<u8>, i: int, b: int, last: int) -> int
    decreases b - i,
{
    if i >= b {
        last
    } else if ws_len(s, i, b) > 0 {
        trim_end_from(s, i + ws_len(s, i, b), b, last)
    } else {
        trim_end_from(s, i + 1, b, i + 1)
    }
}

/// End of the text left by `str::trim_end` on `s[a..b)`.
pub open spec fn trim_end_pos(s: Seq<u8>, a: int, b: int) -> int {
    trim_end_from(s, a, b, a)
}

pub fn ws_len_at(s: &Vec<u8>, i: usize, end: usize) -> (n: usize)
    requires
        end <= s.len(),
    ensures
        n == ws_len(s@, i as int, end as int),
        n <= 3,
        n > 0 ==> i + n <= end,
{
    if i >= end {
        return 0;
    }
    let b = s[i];
    if (0x09 <= b && b <= 0x0d) || b == 0x20 {
        1
    } else if b == 0xc2 && i + 1 < end && (s[i + 1] == 0x85 || s[i + 1] == 0xa0) {
        2
    } else if b == 0xe1 && end - i > 2 && s[i + 1] == 0x9a && s[i + 2] == 0x80 {
        3
    } else if b == 0xe2 && end - i > 2 && s[i + 1] == 0x80 && ((0x80 <= s[i + 2] && s[i + 2]
        <= 0x8a) || s[i + 2] == 0xa8 || s[i + 2] == 0xa9 || s[i + 2] == 0xaf) {
        3
    } else if b == 0xe2 && end - i > 2 && s[i + 1] == 0x81 && s[i + 2] == 0x9f {
        3
    } else if b == 0xe3 && end - i > 2 && s[i + 1] == 0x80 && s[i + 2] == 0x80 {
        3
    } else {
        0
    }
}

/// Whether `s[a..b)` holds only whitespace (what `str::trim().is_empty()` tests).
pub fn is_all_ws(s: &Vec<u8>, a: usize, b: usize) -> (r: bool)
    requires
        b <= s.len(),
    ensures
        r == all_ws(s@, a as int, b as int),
{
    let mut i = a;
    while i < b
        invariant
            b <= s.len(),
            a <= i || b <= a,
            all_ws(s@, a as int, b as int) == all_ws(s@, i as int, b as int),
        decreases b - i,
    {
        let n = ws_len_at(s, i, b);
        if n == 0 {
            return false;
        }
        i = i + n;
    }
    true
}

/// `skip_ws` computed.
pub fn skip_ws_from(s: &Vec<u8>, a: usize, b: usize) -> (r: usize)
    requires
        b <= s.len(),
    ensures
        r == skip_ws(s@, a as int, b as int),
        a <= r,
        a <= b ==> r <= b,
{
    let mut i = a;
    while i < b
        invariant
            b <= s.len(),
            a <= i,
            a <= b ==> i <= b,
            skip_ws(s@, a as int, b as int) == skip_ws(s@, i as int, b as int),
        decreases b - i,
    {
        let n = ws_len_at(s, i, b);
        if n == 0 {
            return i;
        }
        i = i + n;
    }
    i
}

/// `trim_end_pos` computed.
pub fn trim_end_at(s: &Vec<u8>, a: usize, b: usize) -> (r: usize)
    requires
        b <= s.len(),
        a <= b,
    ensures
        r == trim_end_pos(s@, a as int, b as int),
        a <= r <= b,
{
    let mut i = a;
    let mut last = a;
    while i < b
        invariant
            b <= s.len(),
            a <= last <= i <= b,
            trim_end_pos(s@, a as int, b as int) == trim_end_from(s@, i as int, b as int, last as int),
        decreases b - i,
    {
        let n = ws_len_at(s, i, b);
        if n == 0 {
            i = i + 1;
            last = i;
        } else {
            i = i + n;
        }
    }
    last
}

/// Position of the first `\n` at or after `p`, or the length of `s`.
pub open spec fn next_nl(s: Seq<u8>, p: int) -> int
    decreases s.len() - p,
{
    if p >= s.len() {
        s.len() as int
    } else if p >= 0 && s[p] == 10u8 {
        p
    } else {
        next_nl(s, p + 1)
    }
}

pub proof fn lemma_next_nl(s: Seq<u8>, p: int)
    requires
        0 <= p,
    ensures
        p <= s.len() ==> p <= next_nl(s, p) <= s.len(),
        next_nl(s, p) < s.len() ==> s[next_nl(s, p)] == 10u8,
        forall|q: int| p <= q < next_nl(s, p) ==> s[q] != 10u8,
    decreases s.len() - p,
{
    if p < s.len() && s[p] != 10u8 {
        lemma_next_nl(s, p + 1);
    }
}

/// The lines of `s` from position `p` on, each as its `(start, end)` byte
/// range without the line break; the text after the last `\n` is a line.
pub open spec fn lines_from(s: Seq<u8>, p: int) -> Seq<(int, int)>
    decreases s.len() - p,
{
    if p < 0 || p > s.len() {
        seq![]
    } else {
        let e = next_nl(s, p);
        if e >= s.len() {
            seq![(p, s.len() as int)]
        } else {
            proof {
                lemma_next_nl(s, p);
            }
            seq![(p, e)] + lines_from(s, e + 1)
        }
    }
}

/// The line table of `s`.
pub open spec fn line_table(s: Seq<u8>) -> Seq<(int, int)> {
    lines_from(s, 0)
}

/// Line table entries are well formed from `p`.
pub open spec fn wf_lines(s: Seq<u8>, t: Seq<(int, int)>, p: int) -> bool {
    &&& t.len() >= 1
    &&& t[0].0 == p
    &&& t[t.len() - 1].1 == s.len()
    &&& forall|k: int| 0 <= k < t.len() ==> p <= #[trigger] t[k].0 <= t[k].1 <= s.len()
    &&& forall|k: int| 0 <= k < t.len() - 1 ==> #[trigger] t[k].1 < s.len() && s[t[k].1] == 10u8
        && t[k + 1].0 == t[k].1 + 1
    &&& forall|k: int, q: int| 0 <= k < t.len() && t[k].0 <= q < t[k].1 ==> #[trigger] s[q]
        != 10u8 && #[trigger] t[k].0 >= 0
}

pub proof fn lemma_lines_from_wf(s: Seq<u8>, p: int)
    requires
        0 <= p <= s.len(),
    ensures
        wf_lines(s, lines_from(s, p), p),
    decreases s.len() - p,
{
    lemma_next_nl(s, p);
    let e = next_nl(s, p);
    if e < s.len() {
        lemma_lines_from_wf(s, e + 1);
        let r = lines_from(s, e + 1);
        let t = lines_from(s, p);
        assert(t == seq![(p, e)] + r);
        assert forall|k: int| 0 <= k < t.len() implies p <= #[trigger] t[k].0 <= t[k].1 <= s.len() by {
            if k > 0 {
                assert(t[k] == r[k - 1]);
            }
        }
        assert forall|k: int| 0 <= k < t.len() - 1 implies #[trigger] t[k].1 < s.len() && s[t[k].1]
            == 10u8 && t[k + 1].0 == t[k].1 + 1 by {
            if k > 0 {
                assert(t[k] == r[k - 1]);
                assert(t[k + 1] == r[k]);
            }
        }
        assert forall|k: int, q: int| 0 <= k < t.len() && t[k].0 <= q < t[k].1 implies #[trigger] s[q]
            != 10u8 && #[trigger] t[k].0 >= 0 by {
            if k > 0 {
                assert(t[k] == r[k - 1]);
            }
        }
    }
}

pub proof fn lemma_line_table_wf(s: Seq<u8>)
    ensures
        wf_lines(s, line_table(s), 0),
{
    lemma_lines_from_wf(s, 0);
}

proof fn lemma_line_starts(s: Seq<u8>, k: int)
    requires
        0 <= k < line_table(s).len(),
    ensures
        line_table(s)[k].0 >= k,
    decreases k,
{
    lemma_line_table_wf(s);
    if k > 0 {
        lemma_line_starts(s, k - 1);
    }
}

/// A text of `n` bytes has at most `n + 1` lines.
pub proof fn lemma_line_count(s: Seq<u8>)
    ensures
        line_table(s).len() <= s.len() + 1,
{
    lemma_line_table_wf(s);
    lemma_line_starts(s, line_table(s).len() - 1);
}

/// A nonempty text that does not end with a line break has at most as
/// many lines as bytes.
pub proof fn lemma_line_count_closed(s: Seq<u8>)
    requires
        s.len() > 0,
        s[s.len() - 1] != 10u8,
    ensures
        line_table(s).len() <= s.len(),
{
    lemma_line_table_wf(s);
    let t = line_table(s);
    let k = t.len() - 1;
    lemma_line_starts(s, k);
    if k > 0 {
        assert(t[k - 1].1 < s.len() && s[t[k - 1].1] == 10u8 && t[k].0 == t[k - 1].1 + 1);
    }
}

/// What `trim_end_from` returns is `last`, or the end of a byte that is no
/// line break.
pub proof fn lemma_trim_end_last_byte(s: Seq<u8>, i: int, b: int, last: int)
    requires
        0 <= i,
        b <= s.len(),
    ensures
        trim_end_from(s, i, b, last) == last || (i < trim_end_from(s, i, b, last) <= b
            && s[trim_end_from(s, i, b, last) - 1] != 10u8),
    decreases b - i,
{
    if i < b {
        if ws_len(s, i, b) > 0 {
            lemma_trim_end_last_byte(s, i + ws_len(s, i, b), b, last);
        } else {
            lemma_trim_end_last_byte(s, i + 1, b, i + 1);
        }
    }
}

proof fn lemma_line_start_facts(s: Seq<u8>, k: int)
    requires
        0 <= k < line_table(s).len(),
    ensures
        k == 0 ==> line_table(s)[k].0 == 0,
        k > 0 ==> 0 <= line_table(s)[k - 1].1 < s.len() && s[line_table(s)[k - 1].1] == 10u8
            && line_table(s)[k].0 == line_table(s)[k - 1].1 + 1,
{
    let t = line_table(s);
    lemma_line_table_wf(s);
    assert(wf_lines(s, t, 0));
    if k > 0 {
        let j = k - 1;
        assert(0 <= t[j].0 <= t[j].1);
        assert(t[j].1 < s.len() && s[t[j].1] == 10u8 && t[j + 1].0 == t[j].1 + 1);
    }
}

/// The line holding `p` starts at 0 or right after a line break, and no
/// line break lies between its start and `p`.
pub proof fn lemma_line_start_props(s: Seq<u8>, p: int)
    requires
        0 <= p <= s.len(),
    ensures
        ({
            let q = line_table(s)[line_index(line_table(s), p)].0;
            &&& 0 <= q <= p
            &&& q == 0 || s[q - 1] == 10u8
            &&& forall|j: int| q <= j < p ==> s[j] != 10u8
        }),
{
    lemma_line_at(s, p);
    lemma_line_table_wf(s);
    let t = line_table(s);
    let k = line_index(t, p);
    lemma_line_start_facts(s, k);
    assert forall|j: int| t[k].0 <= j < p implies s[j] != 10u8 by {
        assert(t[k].0 <= j < t[k].1);
    }
}

/// The line holding `p` starts at `q` when `q` is 0 or follows a line
/// break and no line break lies in `s[q..p)`.
pub proof fn lemma_line_start_is(s: Seq<u8>, p: int, q: int)
    requires
        0 <= q <= p <= s.len(),
        q == 0 || s[q - 1] == 10u8,
        forall|j: int| q <= j < p ==> s[j] != 10u8,
    ensures
        line_table(s)[line_index(line_table(s), p)].0 == q,
{
    lemma_line_start_props(s, p);
    let r = line_table(s)[line_index(line_table(s), p)].0;
    if r < q {
        assert(s[q - 1] != 10u8);
    }
    if r > q {
        assert(s[r - 1] != 10u8);
    }
}

/// Number of line breaks in `s[0..p)`.
pub open spec fn nl_count(s: Seq<u8>, p: int) -> int
    decreases p,
{
    if p <= 0 {
        0
    } else {
        nl_count(s, p - 1) + if s[p - 1] == 10u8 { 1int } else { 0int }
    }
}

/// No line break in `s[a..b)`: as many line breaks before `b` as before `a`.
pub proof fn lemma_nl_count_flat(s: Seq<u8>, a: int, b: int)
    requires
        0 <= a <= b <= s.len(),
        forall|j: int| a <= j < b ==> s[j] != 10u8,
    ensures
        nl_count(s, b) == nl_count(s, a),
    decreases b - a,
{
    if b > a {
        lemma_nl_count_flat(s, a, b - 1);
    }
}

proof fn lemma_nl_count_line_start(s: Seq<u8>, k: int)
    requires
        0 <= k < line_table(s).len(),
    ensures
        nl_count(s, line_table(s)[k].0) == k,
    decreases k,
{
    lemma_line_table_wf(s);
    lemma_line_start_facts(s, k);
    let t = line_table(s);
    if k > 0 {
        lemma_nl_count_line_start(s, k - 1);
        assert forall|j: int| t[k - 1].0 <= j < t[k - 1].1 implies s[j] != 10u8 by {
            assert(t[k - 1].0 <= j < t[k - 1].1);
        }
        assert(0 <= t[k - 1].0 <= t[k - 1].1);
        lemma_nl_count_flat(s, t[k - 1].0, t[k - 1].1);
    }
}

/// The line holding `p` is numbered by the line breaks before `p`.
pub proof fn lemma_line_index_count(s: Seq<u8>, p: int)
    requires
        0 <= p <= s.len(),
    ensures
        line_index(line_table(s), p) == nl_count(s, p),
{
    lemma_line_at(s, p);
    let k = line_index(line_table(s), p);
    lemma_nl_count_line_start(s, k);
    lemma_line_start_props(s, p);
    lemma_nl_count_flat(s, line_table(s)[k].0, p);
}

/// Texts that agree before `p` have as many line breaks there.
pub proof fn lemma_nl_count_prefix(s: Seq<u8>, n: Seq<u8>, p: int)
    requires
        0 <= p <= s.len(),
        p <= n.len(),
        forall|j: int| 0 <= j < p ==> s[j] == n[j],
    ensures
        nl_count(s, p) == nl_count(n, p),
    decreases p,
{
    if p > 0 {
        lemma_nl_count_prefix(s, n, p - 1);
    }
}

/// Lines start on character boundaries.
pub proof fn lemma_line_start_boundary(s: Seq<u8>, k: int)
    requires
        valid_utf8(s),
        0 <= k < line_table(s).len(),
    ensures
        boundary(s, line_table(s)[k].0),
{
    lemma_line_start_facts(s, k);
    if k > 0 {
        lemma_after_ascii(s, line_table(s)[k - 1].1);
    }
}

/// `next_nl` computed.
pub fn find_newline(s: &Vec<u8>, p: usize) -> (e: usize)
    requires
        p <= s.len(),
    ensures
        e == next_nl(s@, p as int),
        p <= e <= s.len(),
{
    let mut i = p;
    while i < s.len() && s[i] != 10u8
        invariant
            p <= i <= s.len(),
            next_nl(s@, p as int) == next_nl(s@, i as int),
        decreases s.len() - i,
    {
        i = i + 1;
    }
    i
}

/// Builds the line table.
pub fn build_line_table(s: &Vec<u8>) -> (t: Vec<(usize, usize)>)
    ensures
        tab_view(t@) =~= line_table(s@),
{
    let mut t: Vec<(usize, usize)> = Vec::new();
    let mut p: usize = 0;
    loop
        invariant
            p <= s.len(),
            t@.len() + lines_from(s@, p as int).len() == line_table(s@).len(),
            forall|k: int| 0 <= k < t@.len() ==> (#[trigger] t@[k]).0 == line_table(s@)[k].0 && t@[k].1
                == line_table(s@)[k].1,
            forall|k: int| 0 <= k < lines_from(s@, p as int).len() ==> #[trigger] lines_from(s@, p as int)[k]
                == line_table(s@)[t@.len() + k],
        decreases s.len() - p,
    {
        let e = find_newline(s, p);
        proof {
            lemma_next_nl(s@, p as int);
        }
        let ghost r = lines_from(s@, p as int);
        assert(r[0] == line_table(s@)[t@.len() as int]);
        t.push((p, e));
        if e >= s.len() {
            assert(tab_view(t@) =~= line_table(s@));
            return t;
        }
        let ghost r2 = lines_from(s@, e + 1);
        assert(r == seq![(p as int, e as int)] + r2);
        assert forall|k: int| 0 <= k < r2.len() implies #[trigger] r2[k] == line_table(s@)[t@.len() + k] by {
            assert(r2[k] == r[k + 1]);
        }
        p = e + 1;
    }
}

/// Index of the line holding byte position `p`, searching from line `k`:
/// the first line whose end is at or after `p` (the last line when there
/// is none).
pub open spec fn line_index_from(t: Seq<(int, int)>, k: int, p: int) -> int
    decreases t.len() - k,
{
    if k < 0 || k >= t.len() - 1 || p <= t[k].1 {
        k
    } else {
        line_index_from(t, k + 1, p)
    }
}

/// Index of the line holding byte position `p`.
pub open spec fn line_index(t: Seq<(int, int)>, p: int) -> int {
    line_index_from(t, 0, p)
}

pub proof fn lemma_line_index_from(t: Seq<(int, int)>, k: int, p: int)
    requires
        0 <= k < t.len(),
    ensures
        k <= line_index_from(t, k, p) < t.len(),
    decreases t.len() - k,
{
    if k < t.len() - 1 && p > t[k].1 {
        lemma_line_index_from(t, k + 1, p);
    }
}

proof fn lemma_line_index_within(s: Seq<u8>, k: int, p: int)
    requires
        wf_lines(s, line_table(s), 0),
        0 <= k < line_table(s).len(),
        line_table(s)[k].0 <= p <= s.len(),
    ensures
        line_table(s)[line_index_from(line_table(s), k, p)].0 <= p <= line_table(s)[line_index_from(line_table(s), k, p)].1,
    decreases line_table(s).len() - k,
{
    let t = line_table(s);
    if k < t.len() - 1 && p > t[k].1 {
        assert(t[k + 1].0 == t[k].1 + 1);
        lemma_line_index_within(s, k + 1, p);
    }
}

/// The line holding `p` starts at or before it and ends at or after it.
pub proof fn lemma_line_at(s: Seq<u8>, p: int)
    requires
        0 <= p <= s.len(),
    ensures
        0 <= line_index(line_table(s), p) < line_table(s).len(),
        line_table(s)[line_index(line_table(s), p)].0 <= p <= line_table(s)[line_index(line_table(s), p)].1,
{
    lemma_line_table_wf(s);
    lemma_line_index_from(line_table(s), 0, p);
    lemma_line_index_within(s, 0, p);
}

/// The table as integer ranges.
pub open spec fn tab_view(t: Seq<(usize, usize)>) -> Seq<(int, int)> {
    t.map_values(|x: (usize, usize)| (x.0 as int, x.1 as int))
}

/// `line_index` computed on a built table.
pub fn find_line(t: &Vec<(usize, usize)>, p: usize) -> (k: usize)
    requires
        t@.len() >= 1,
    ensures
        k == line_index(tab_view(t@), p as int),
        k < t@.len(),
{
    let ghost tv = tab_view(t@);
    let mut k: usize = 0;
    while k < t.len() - 1 && p > t[k].1
        invariant
            tv == tab_view(t@),
            k < t@.len(),
            line_index(tv, p as int) == line_index_from(tv, k as int, p as int),
        decreases t@.len() - k,
    {
        k = k + 1;
    }
    k
}

/// `p` is a UTF-8 character boundary of `s` (given that `s` is valid UTF-8).
pub open spec fn boundary(s: Seq<u8>, p: int) -> bool {
    0 <= p <= s.len() && (p == 0 || p == s.len() || !is_continuation_byte(s[p]))
}

pub proof fn lemma_boundary(s: Seq<u8>, p: int)
    requires
        valid_utf8(s),
        boundary(s, p),
    ensures
        is_char_boundary(s, p),
{
    if p == s.len() || p == 0 {
        is_char_boundary_start_end_of_seq(s);
    } else {
        is_char_boundary_iff_not_is_continuation_byte(s, p);
    }
}

/// In valid UTF-8, the byte after an ASCII byte starts a character.
pub proof fn lemma_after_ascii(s: Seq<u8>, i: int)
    requires
        valid_utf8(s),
        0 <= i < s.len(),
        s[i] < 0x80,
    ensures
        boundary(s, i + 1),
    decreases s.len(),
{
    let k = length_of_first_scalar(s);
    let rest = pop_first_scalar(s);
    assert(valid_first_scalar(s) && valid_utf8(rest));
    if i + 1 == s.len() {
    } else if i < k {
        assert(i == 0);
        assert(k == 1);
        assert(rest.len() > 0);
        assert(valid_first_scalar(rest));
        assert(rest[0] == s[1]);
    } else {
        assert(rest[i - k] == s[i]);
        lemma_after_ascii(rest, i - k);
        assert(rest[i - k + 1] == s[i + 1]);
    }
}

/// Largest character boundary at or before `p`.
pub open spec fn floor_boundary(s: Seq<u8>, p: int) -> int
    decreases p,
{
    if p <= 0 {
        0
    } else if p >= s.len() {
        s.len() as int
    } else if !is_continuation_byte(s[p]) {
        p
    } else {
        floor_boundary(s, p - 1)
    }
}

pub proof fn lemma_floor_boundary(s: Seq<u8>, p: int)
    ensures
        boundary(s, floor_boundary(s, p)),
        p >= 0 ==> floor_boundary(s, p) <= p,
        boundary(s, p) ==> floor_boundary(s, p) == p,
    decreases p,
{
    if p > 0 && p < s.len() && is_continuation_byte(s[p]) {
        lemma_floor_boundary(s, p - 1);
    }
}

/// `floor_boundary` computed.
pub fn floor_char_boundary(s: &Vec<u8>, p: usize) -> (r: usize)
    ensures
        r == floor_boundary(s@, p as int),
        r <= s.len(),
{
    if p >= s.len() {
        return s.len();
    }
    let mut q = p;
    while q > 0 && 0x80 <= s[q] && s[q] <= 0xbf
        invariant
            q <= p < s.len(),
            floor_boundary(s@, p as int) == floor_boundary(s@, q as int),
        decreases q,
    {
        q = q - 1;
    }
    q
}

/// `s` with `s[a..b)` replaced by `t`.
pub open spec fn splice(s: Seq<u8>, a: int, b: int, t: Seq<u8>) -> Seq<u8> {
    s.subrange(0, a) + t + s.subrange(b, s.len() as int)
}

pub proof fn lemma_splice_valid(s: Seq<u8>, a: int, b: int, t: Seq<u8>)
    requires
        valid_utf8(s),
        valid_utf8(t),
        boundary(s, a),
        boundary(s, b),
        a <= b,
    ensures
        valid_utf8(splice(s, a, b, t)),
{
    lemma_boundary(s, a);
    lemma_boundary(s, b);
    valid_utf8_split(s, a);
    valid_utf8_split(s, b);
    valid_utf8_concat(s.subrange(0, a), t);
    valid_utf8_concat(s.subrange(0, a) + t, s.subrange(b, s.len() as int));
}

/// Every byte of `t` is ASCII.
pub open spec fn ascii(t: Seq<u8>) -> bool {
    forall|i: int| 0 <= i < t.len() ==> t[i] < 0x80
}

/// A run of ASCII bytes is valid UTF-8.
pub proof fn lemma_ascii_valid(t: Seq<u8>)
    requires
        forall|i: int| 0 <= i < t.len() ==> t[i] < 0x80,
    ensures
        valid_utf8(t),
    decreases t.len(),
{
    if t.len() > 0 {
        let rest = pop_first_scalar(t);
        assert(rest =~= t.subrange(1, t.len() as int));
        lemma_ascii_valid(rest);
    }
}

/// Replaces `v[a..b)` by `t`.
pub fn splice_vec(v: &Vec<u8>, a: usize, b: usize, t: &[u8]) -> (r: Vec<u8>)
    requires
        a <= b <= v.len(),
    ensures
        r@ == splice(v@, a as int, b as int, t@),
{
    let mut r: Vec<u8> = Vec::new();
    let mut i: usize = 0;
    while i < a
        invariant
            a <= b <= v.len(),
            i <= a,
            r@ == v@.subrange(0, i as int),
        decreases a - i,
    {
        r.push(v[i]);
        i = i + 1;
        assert(r@ =~= v@.subrange(0, i as int));
    }
    let mut j: usize = 0;
    while j < t.len()
        invariant
            r@ == v@.subrange(0, a as int) + t@.subrange(0, j as int),
            j <= t@.len(),
        decreases t@.len() - j,
    {
        r.push(t[j]);
        j = j + 1;
        assert(r@ =~= v@.subrange(0, a as int) + t@.subrange(0, j as int));
    }
    let mut k: usize = b;
    while k < v.len()
        invariant
            b <= k <= v.len(),
            r@ == v@.subrange(0, a as int) + t@ + v@.subrange(b as int, k as int),
        decreases v.len() - k,
    {
        r.push(v[k]);
        k = k + 1;
        assert(r@ =~= v@.subrange(0, a as int) + t@ + v@.subrange(b as int, k as int));
    }
    assert(t@.subrange(0, t@.len() as int) =~= t@);
    r
}

} // verus!